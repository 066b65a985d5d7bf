//! Spans of time and a monotonic instant measured as the span since a fixed
//! origin, with the checked arithmetic the viewer uses to time its frames.
use vstd::prelude::*;

verus! {

/// Nanoseconds in one second.
pub const NANOS_PER_SEC: u32 = 1_000_000_000;

/// The longest span: `u64::MAX` seconds and 999 999 999 nanoseconds.
pub open spec fn max_span() -> int {
    u64::MAX as int * 1_000_000_000 + 999_999_999
}

/// A span of time: whole seconds and the nanoseconds past them.
#[derive(Clone, Copy, Debug, PartialEq, Eq, Structural)]
pub struct Span {
    secs: u64,
    nanos: u32,
}

impl Span {
    #[verifier::type_invariant]
    spec fn inv(self) -> bool {
        self.nanos < NANOS_PER_SEC
    }

    /// The span in nanoseconds.
    pub closed spec fn total(self) -> int {
        self.secs as int * 1_000_000_000 + self.nanos as int
    }

    /// The nanoseconds are less than a second, as in every span the
    /// functions here give.
    pub closed spec fn valid(self) -> bool {
        self.nanos < NANOS_PER_SEC
    }

    /// Two valid spans of the same length are the same span.
    pub proof fn lemma_total_determines(self, other: Span)
        requires
            self.valid(),
            other.valid(),
            self.total() == other.total(),
        ensures
            self == other,
    {
        assert(self.secs == other.secs && self.nanos == other.nanos) by (nonlinear_arith)
            requires
                self.nanos < 1_000_000_000,
                other.nanos < 1_000_000_000,
                self.secs as int * 1_000_000_000 + self.nanos as int == other.secs as int * 1_000_000_000 + other.nanos as int,
        ;
    }

    /// A span is never negative.
    pub proof fn lemma_total_nonneg(self)
        ensures
            0 <= self.total(),
    {
    }

    /// `secs` seconds and `nanos` nanoseconds; nanoseconds beyond a second
    /// carry into the seconds.
    pub fn new(secs: u64, nanos: u32) -> (r: Span)
        requires
            secs + nanos / 1_000_000_000 <= u64::MAX,
        ensures
            r.total() == secs * 1_000_000_000 + nanos,
            r.valid(),
    {
        let extra = nanos / NANOS_PER_SEC;
        let rest = nanos % NANOS_PER_SEC;
        Span { secs: secs + extra as u64, nanos: rest }
    }

    /// The empty span.
    pub fn zero() -> (r: Span)
        ensures
            r.total() == 0,
            r.valid(),
    {
        Span { secs: 0, nanos: 0 }
    }

    /// The whole seconds of the span.
    pub fn as_secs(&self) -> (r: u64)
        ensures
            r == self.total() / 1_000_000_000,
    {
        proof {
            use_type_invariant(self);
        }
        self.secs
    }

    /// The nanoseconds past the whole seconds.
    pub fn subsec_nanos(&self) -> (r: u32)
        ensures
            r == self.total() % 1_000_000_000,
    {
        proof {
            use_type_invariant(self);
        }
        self.nanos
    }

    /// The sum of two spans, or `None` past the longest span.
    pub fn checked_add(self, other: Span) -> (r: Option<Span>)
        ensures
            r is Some <==> self.total() + other.total() <= max_span(),
            r matches Some(s) ==> s.total() == self.total() + other.total() && s.valid(),
    {
        proof {
            use_type_invariant(self);
            use_type_invariant(other);
        }
        match self.secs.checked_add(other.secs) {
            None => None,
            Some(secs) => {
                let nanos = self.nanos + other.nanos;
                if nanos >= NANOS_PER_SEC {
                    match secs.checked_add(1) {
                        None => None,
                        Some(secs) => Some(Span { secs, nanos: nanos - NANOS_PER_SEC }),
                    }
                } else {
                    Some(Span { secs, nanos })
                }
            },
        }
    }

    /// The difference of two spans, or `None` when `other` is longer.
    pub fn checked_sub(self, other: Span) -> (r: Option<Span>)
        ensures
            r is Some <==> other.total() <= self.total(),
            r matches Some(s) ==> s.total() == self.total() - other.total() && s.valid(),
    {
        proof {
            use_type_invariant(self);
            use_type_invariant(other);
        }
        match self.secs.checked_sub(other.secs) {
            None => None,
            Some(secs) => {
                if self.nanos >= other.nanos {
                    Some(Span { secs, nanos: self.nanos - other.nanos })
                } else {
                    match secs.checked_sub(1) {
                        None => None,
                        Some(secs) => Some(Span { secs, nanos: self.nanos + NANOS_PER_SEC - other.nanos }),
                    }
                }
            },
        }
    }
}

/// An instant: the span since a fixed origin.
#[derive(Clone, Copy, Debug, PartialEq, Eq, Structural)]
pub struct InstantWrapper(pub Span);

impl InstantWrapper {
    /// The span from `earlier` to this instant; `earlier` must not be later.
    pub fn duration_since(&self, earlier: InstantWrapper) -> (r: Span)
        requires
            earlier.0.total() <= self.0.total(),
        ensures
            r.total() == self.0.total() - earlier.0.total(),
            r.valid(),
    {
        self.0.checked_sub(earlier.0).unwrap()
    }

    /// This instant moved later by `duration`, or `None` past the longest
    /// span.
    pub fn checked_add(&self, duration: Span) -> (r: Option<InstantWrapper>)
        ensures
            r is Some <==> self.0.total() + duration.total() <= max_span(),
            r matches Some(i) ==> i.0.total() == self.0.total() + duration.total() && i.0.valid(),
    {
        match self.0.checked_add(duration) {
            Some(s) => Some(InstantWrapper(s)),
            None => None,
        }
    }

    /// This instant moved earlier by `duration`, or `None` before the
    /// origin.
    pub fn checked_sub(&self, duration: Span) -> (r: Option<InstantWrapper>)
        ensures
            r is Some <==> duration.total() <= self.0.total(),
            r matches Some(i) ==> i.0.total() == self.0.total() - duration.total() && i.0.valid(),
    {
        match self.0.checked_sub(duration) {
            Some(s) => Some(InstantWrapper(s)),
            None => None,
        }
    }

    /// The span from `earlier` to this instant, or `None` when `earlier`
    /// is later.
    pub fn checked_duration_since(&self, earlier: InstantWrapper) -> (r: Option<Span>)
        ensures
            r is Some <==> earlier.0.total() <= self.0.total(),
            r matches Some(s) ==> s.total() == self.0.total() - earlier.0.total() && s.valid(),
    {
        if earlier.0.total_gt(&self.0) {
            None
        } else {
            Some(self.0.checked_sub(earlier.0).unwrap())
        }
    }

    /// The span from `earlier` to this instant, or the empty span when
    /// `earlier` is later.
    pub fn saturating_duration_since(&self, earlier: InstantWrapper) -> (r: Span)
        ensures
            r.total() == if earlier.0.total() <= self.0.total() {
                self.0.total() - earlier.0.total()
            } else {
                0
            },
            r.valid(),
    {
        match self.checked_duration_since(earlier) {
            Some(s) => s,
            None => Span::zero(),
        }
    }
}

impl Span {
    /// This span is longer than `other`.
    pub fn total_gt(&self, other: &Span) -> (r: bool)
        ensures
            r == (self.total() > other.total()),
    {
        proof {
            use_type_invariant(self);
            use_type_invariant(other);
        }
        self.secs > other.secs || (self.secs == other.secs && self.nanos > other.nanos)
    }
}

/// Law: an instant `a` moved later by `d` (giving `b`) can be moved earlier
/// by `d`, and that gives back `a` itself.
pub proof fn law_sub_undoes_add(a: InstantWrapper, d: Span, b: InstantWrapper, c: InstantWrapper)
    requires
        a.0.valid(),
        b.0.total() == a.0.total() + d.total(),
        c.0.valid(),
        c.0.total() == b.0.total() - d.total(),
    ensures
        d.total() <= b.0.total(),
        c == a,
{
    a.0.lemma_total_nonneg();
    c.0.lemma_total_determines(a.0);
}

} // verus!
