//! A cache of values computed for keys, kept while they are used: each
//! frame, values not asked for during the previous frame are dropped.
use vstd::prelude::*;
use crate::widgets::CacheTrait;

verus! {

/// Computes the value of a key, given some data.
pub trait ComputerMut<Key, Param, Value> {
    fn compute(&mut self, key: Key, param: Param) -> Value;
}

/// A cached value: the hash of its key, the frame it was last used in, and
/// the value.
pub struct CacheEntry<Value> {
    pub hash: u64,
    pub generation: u32,
    pub value: Value,
}

/// Values by the hash of their key, each marked with the frame it was last
/// used in, and the frame being drawn.
pub struct CacheStore<Value> {
    generation: u32,
    cache: Vec<CacheEntry<Value>>,
}

/// Values by the hash of their key, and what computes a missing one.
pub struct FrameCache<Value, Computer> {
    computer: Computer,
    store: CacheStore<Value>,
}

/// No hash appears twice.
pub open spec fn distinct_hashes<Value>(cache: Seq<CacheEntry<Value>>) -> bool {
    forall|a: int, b: int| 0 <= a < b < cache.len() ==> (#[trigger] cache[a]).hash != (#[trigger] cache[b]).hash
}

/// Where the value of `hash` is.
pub open spec fn entry_of<Value>(cache: Seq<CacheEntry<Value>>, hash: u64) -> Option<int> {
    if exists|k: int| 0 <= k < cache.len() && (#[trigger] cache[k]).hash == hash {
        Some(choose|k: int| 0 <= k < cache.len() && (#[trigger] cache[k]).hash == hash)
    } else {
        None
    }
}

impl<Value> CacheStore<Value> {
    /// The frame being drawn.
    pub closed spec fn generation(&self) -> u32 {
        self.generation
    }

    /// The cached values.
    pub closed spec fn entries(&self) -> Seq<CacheEntry<Value>> {
        self.cache@
    }

    /// No key is cached twice.
    #[verifier::type_invariant]
    spec fn inv(self) -> bool {
        distinct_hashes(self.cache@)
    }

    fn empty() -> (r: Self)
        ensures
            r.generation() == 0,
            r.entries().len() == 0,
    {
        CacheStore { generation: 0, cache: Vec::new() }
    }

    fn evict(&mut self)
        ensures
            final(self).generation() == (if old(self).generation() == u32::MAX {
                0
            } else {
                (old(self).generation() + 1) as u32
            }),
            final(self).entries() == old(self).entries().filter(
                |e: CacheEntry<Value>| e.generation == old(self).generation(),
            ),
    {
        proof {
            use_type_invariant(&*self);
        }
        let current_generation = self.generation;
        let ghost all = self.cache@;
        let ghost keep = |e: CacheEntry<Value>| e.generation == current_generation;
        let mut old_cache: Vec<CacheEntry<Value>> = Vec::new();
        std::mem::swap(&mut old_cache, &mut self.cache);
        let mut kept: Vec<CacheEntry<Value>> = Vec::new();
        let mut rest: Vec<CacheEntry<Value>> = Vec::new();
        // take the entries in order: reverse once, then pop
        while old_cache.len() > 0
            invariant
                all.len() == old_cache@.len() + rest@.len(),
                old_cache@ == all.take(old_cache@.len() as int),
                forall|m: int| 0 <= m < rest@.len() ==> #[trigger] rest@[m] == all[all.len() - 1 - m],
            decreases old_cache@.len(),
        {
            let e = old_cache.pop().unwrap();
            proof {
                assert(all.take(old_cache@.len() as int) =~= all.take(old_cache@.len() + 1int).drop_last());
            }
            rest.push(e);
        }
        let mut done: usize = 0;
        let total = rest.len();
        proof {
            assert(all.take(0).filter(keep) =~= seq![]);
            assert(kept@ =~= seq![]);
        }
        while rest.len() > 0
            invariant
                all.len() == done + rest@.len(),
                all.len() == total,
                forall|m: int| 0 <= m < rest@.len() ==> #[trigger] rest@[m] == all[all.len() - 1 - m],
                kept@ == all.take(done as int).filter(keep),
                keep == (|e: CacheEntry<Value>| e.generation == current_generation),
            decreases rest@.len(),
        {
            let e = rest.pop().unwrap();
            proof {
                assert(e == all[done as int]);
                assert(all.take(done + 1int).drop_last() =~= all.take(done as int));
                reveal(Seq::filter);
                assert(all.take(done + 1int).last() == e);
            }
            if e.generation == current_generation {
                kept.push(e);
            }
            done += 1;
        }
        proof {
            assert(all.take(all.len() as int) =~= all);
            lemma_filter_distinct(all, keep);
        }
        self.cache = kept;
        self.generation = self.generation.wrapping_add(1);
    }

    /// The cached value of `hash`, marked used in this frame.
    fn lookup(&mut self, hash: u64) -> (r: Option<Value>)
        where
            Value: Clone,
        ensures
            final(self).generation() == old(self).generation(),
            match entry_of(old(self).entries(), hash) {
                Some(k) => {
                    &&& r matches Some(v) && cloned(old(self).entries()[k].value, v)
                    &&& final(self).entries() == old(self).entries().update(
                        k,
                        CacheEntry { generation: old(self).generation(), ..old(self).entries()[k] },
                    )
                },
                None => r is None && final(self).entries() == old(self).entries(),
            },
    {
        proof {
            use_type_invariant(&*self);
        }
        let ghost before = self.cache@;
        let ghost g0 = self.generation;
        let mut k: usize = 0;
        while k < self.cache.len()
            invariant
                k <= self.cache@.len(),
                self.cache@ == before,
                self.generation == g0,
                g0 == old(self).generation(),
                before == old(self).entries(),
                distinct_hashes(before),
                forall|m: int| 0 <= m < k ==> (#[trigger] before[m]).hash != hash,
            decreases self.cache@.len() - k,
        {
            if self.cache[k].hash == hash {
                let generation = self.generation;
                let value = self.cache[k].value.clone();
                let mut cache: Vec<CacheEntry<Value>> = Vec::new();
                std::mem::swap(&mut cache, &mut self.cache);
                cache[k].generation = generation;
                proof {
                    assert(cache@ =~= before.update(k as int, CacheEntry { generation: generation, ..before[k as int] }));
                    assert(distinct_hashes(cache@)) by {
                        assert forall|a: int, b: int| 0 <= a < b < cache@.len() implies (#[trigger] cache@[a]).hash != (#[trigger] cache@[b]).hash by {
                            assert(cache@[a].hash == before[a].hash && cache@[b].hash == before[b].hash);
                        }
                    }
                    assert(entry_of(before, hash) == Some(k as int)) by {
                        let c = choose|c: int| 0 <= c < before.len() && (#[trigger] before[c]).hash == hash;
                        if c != k {
                            if c < k {
                                assert(before[c].hash != hash);
                            } else {
                                assert(before[k as int].hash != before[c].hash);
                            }
                        }
                    }
                }
                self.cache = cache;
                return Some(value);
            }
            k += 1;
        }
        proof {
            assert(entry_of(before, hash) is None);
        }
        None
    }

    /// Caches `value` for a hash not cached yet, used in this frame.
    fn insert(&mut self, hash: u64, value: Value)
        requires
            entry_of(old(self).entries(), hash) is None,
        ensures
            final(self).generation() == old(self).generation(),
            final(self).entries() == old(self).entries().push(
                CacheEntry { hash, generation: old(self).generation(), value },
            ),
    {
        proof {
            use_type_invariant(&*self);
        }
        let ghost before = self.cache@;
        let generation = self.generation;
        let mut cache: Vec<CacheEntry<Value>> = Vec::new();
        std::mem::swap(&mut cache, &mut self.cache);
        cache.push(CacheEntry { hash, generation, value });
        proof {
            assert(distinct_hashes(cache@)) by {
                assert forall|a: int, b: int| 0 <= a < b < cache@.len() implies (#[trigger] cache@[a]).hash != (#[trigger] cache@[b]).hash by {
                    if b == before.len() {
                        assert(cache@[a] == before[a]);
                        if before[a].hash == hash {
                            assert(exists|k: int| 0 <= k < before.len() && (#[trigger] before[k]).hash == hash);
                        }
                    } else {
                        assert(cache@[a] == before[a] && cache@[b] == before[b]);
                    }
                }
            }
        }
        self.cache = cache;
    }
}

impl<Value, Computer> FrameCache<Value, Computer> {
    /// The frame being drawn.
    pub closed spec fn generation(&self) -> u32 {
        self.store.generation()
    }

    /// The cached values.
    pub closed spec fn entries(&self) -> Seq<CacheEntry<Value>> {
        self.store.entries()
    }

    /// What computes a missing value.
    pub closed spec fn computer(&self) -> Computer {
        self.computer
    }

    /// An empty cache at frame 0.
    pub fn new(computer: Computer) -> (r: Self)
        ensures
            r.generation() == 0,
            r.entries().len() == 0,
    {
        FrameCache { computer, store: CacheStore::empty() }
    }

    /// Starts a new frame: keeps the values used during the frame that
    /// ends, in their order, and counts the frames on (wrapping around).
    pub fn evice_cache(&mut self)
        ensures
            distinct_hashes(final(self).entries()),
            final(self).generation() == (if old(self).generation() == u32::MAX {
                0
            } else {
                (old(self).generation() + 1) as u32
            }),
            final(self).entries() == old(self).entries().filter(
                |e: CacheEntry<Value>| e.generation == old(self).generation(),
            ),
    {
        self.store.evict();
        proof {
            use_type_invariant(&self.store);
        }
    }

    /// The value of `key`: the cached one when `hash` (the hash of the key)
    /// is in the cache, marked used in this frame; else one computed from
    /// the key and `param`, and cached.
    pub fn get<Key, Param>(&mut self, hash: u64, key: Key, param: Param) -> (r: Value)
        where
            Value: Clone,
            Computer: ComputerMut<Key, Param, Value>,
        ensures
            got(*old(self), *final(self), hash, r),
    {
        let r = match self.store.lookup(hash) {
            Some(value) => value,
            None => {
                let value = self.computer.compute(key, param);
                let stored = value.clone();
                self.store.insert(hash, stored);
                proof {
                    assert(self.entries().drop_last() =~= old(self).entries());
                }
                value
            },
        };
        proof {
            use_type_invariant(&self.store);
            let e = self.entries();
            let k = match entry_of(old(self).entries(), hash) {
                Some(k) => k,
                None => e.len() - 1,
            };
            assert(e[k].hash == hash);
            let c = choose|c: int| 0 <= c < e.len() && (#[trigger] e[c]).hash == hash;
            if c != k {
                if c < k {
                    assert(e[c].hash != e[k].hash);
                } else {
                    assert(e[k].hash != e[c].hash);
                }
            }
        }
        r
    }
}

/// What `get` leaves: the frame unchanged, no hash twice, `hash` cached and
/// marked used in this frame; when it was cached, the answer is a clone of
/// the cached value, the computer is untouched, and the value is marked
/// used; else one value more is cached last, under `hash`, and the answer
/// is a value of which it is a clone.
pub open spec fn got<Value: Clone, Computer>(
    before: FrameCache<Value, Computer>,
    after: FrameCache<Value, Computer>,
    hash: u64,
    r: Value,
) -> bool {
    &&& after.generation() == before.generation()
    &&& distinct_hashes(after.entries())
    &&& entry_of(after.entries(), hash) matches Some(k) && after.entries()[k].generation == after.generation()
    &&& match entry_of(before.entries(), hash) {
        Some(k) => {
            &&& cloned(before.entries()[k].value, r)
            &&& after.computer() == before.computer()
            &&& after.entries() == before.entries().update(
                k,
                CacheEntry { generation: before.generation(), ..before.entries()[k] },
            )
        },
        None => {
            &&& after.entries().len() == before.entries().len() + 1
            &&& after.entries().drop_last() == before.entries()
            &&& after.entries().last().hash == hash
            &&& after.entries().last().generation == before.generation()
            &&& cloned(r, after.entries().last().value)
        },
    }
}

/// Law: asking twice for the same hash within a frame, the second call
/// answers from the cache: the computer is not used again, and the answer
/// is a clone of the value the first call left cached, which is the first
/// answer, or a clone of it when the first call computed it.
pub proof fn law_get_twice<Value: Clone, Computer>(
    c0: FrameCache<Value, Computer>,
    c1: FrameCache<Value, Computer>,
    c2: FrameCache<Value, Computer>,
    hash: u64,
    r1: Value,
    r2: Value,
)
    requires
        got(c0, c1, hash, r1),
        got(c1, c2, hash, r2),
    ensures
        c2.computer() == c1.computer(),
        entry_of(c1.entries(), hash) matches Some(k) && cloned(c1.entries()[k].value, r2) && (entry_of(
            c0.entries(),
            hash,
        ) is None ==> cloned(r1, c1.entries()[k].value)),
{
    let e = c1.entries();
    let k = entry_of(e, hash)->0;
    if entry_of(c0.entries(), hash) is None {
        let last = e.len() - 1;
        assert(e[last].hash == hash);
        assert(e[k].hash == hash);
        if k != last {
            assert(e[k].hash != e[last].hash);
        }
    }
}

proof fn lemma_filter_from<A>(s: Seq<A>, p: spec_fn(A) -> bool, a: int)
    requires
        0 <= a < s.filter(p).len(),
    ensures
        exists|i: int| 0 <= i < s.len() && s[i] == s.filter(p)[a],
    decreases s.len(),
{
    reveal(Seq::filter);
    let d = s.drop_last();
    if p(s.last()) && a == s.filter(p).len() - 1 {
        assert(s.filter(p) == d.filter(p).push(s.last()));
        assert(s[s.len() - 1] == s.filter(p)[a]);
    } else {
        if p(s.last()) {
            assert(s.filter(p) == d.filter(p).push(s.last()));
        } else {
            assert(s.filter(p) == d.filter(p));
        }
        assert(d.filter(p)[a] == s.filter(p)[a]);
        lemma_filter_from(d, p, a);
        let i = choose|i: int| 0 <= i < d.len() && d[i] == d.filter(p)[a];
        assert(s[i] == d[i]);
    }
}

proof fn lemma_filter_distinct<Value>(s: Seq<CacheEntry<Value>>, p: spec_fn(CacheEntry<Value>) -> bool)
    requires
        distinct_hashes(s),
    ensures
        distinct_hashes(s.filter(p)),
    decreases s.len(),
{
    reveal(Seq::filter);
    if s.len() > 0 {
        let d = s.drop_last();
        assert(distinct_hashes(d)) by {
            assert forall|a: int, b: int| 0 <= a < b < d.len() implies (#[trigger] d[a]).hash != (#[trigger] d[b]).hash by {
                assert(d[a] == s[a] && d[b] == s[b]);
            }
        }
        lemma_filter_distinct(d, p);
        if p(s.last()) {
            let f = s.filter(p);
            assert(f == d.filter(p).push(s.last()));
            assert forall|a: int, b: int| 0 <= a < b < f.len() implies (#[trigger] f[a]).hash != (#[trigger] f[b]).hash by {
                if b == f.len() - 1 {
                    lemma_filter_from(d, p, a);
                    let i = choose|i: int| 0 <= i < d.len() && d[i] == d.filter(p)[a];
                    assert(d[i] == s[i]);
                    assert(f[a] == d.filter(p)[a]);
                    assert(s[i].hash != s[s.len() - 1].hash);
                } else {
                    assert(f[a] == d.filter(p)[a] && f[b] == d.filter(p)[b]);
                }
            }
        } else {
            assert(s.filter(p) == d.filter(p));
        }
    }
}

impl<Value, Computer> CacheTrait for FrameCache<Value, Computer> {
    /// Starts a new frame, as `evice_cache` does.
    fn update(&mut self)
        ensures
            distinct_hashes(final(self).entries()),
            final(self).generation() == (if old(self).generation() == u32::MAX {
                0
            } else {
                (old(self).generation() + 1) as u32
            }),
            final(self).entries() == old(self).entries().filter(
                |e: CacheEntry<Value>| e.generation == old(self).generation(),
            ),
    {
        self.evice_cache();
    }

    /// The number of cached values.
    fn len(&self) -> (r: usize)
        ensures
            r == self.entries().len(),
    {
        self.store.cache.len()
    }
}

} // verus!
