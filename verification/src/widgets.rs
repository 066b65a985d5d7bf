//! Plain state types shared by the viewer's widgets.
use vstd::prelude::*;

verus! {

/// The "About" window; it holds no state.
#[derive(Default)]
pub struct AboutPanel {}

/// Which header cell was clicked, double-clicked or hovered in a frame.
#[derive(Clone, Copy, PartialEq, Eq, Structural, Debug)]
pub struct ColumnResponse {
    pub clicked_col_index: Option<usize>,
    pub double_clicked_col_index: Option<usize>,
    pub hovered_col_index: Option<usize>,
}

/// A cache that is refreshed once per frame.
pub trait CacheTrait {
    /// Starts a new frame, dropping entries not used in the last one.
    fn update(&mut self);

    /// How many entries the cache holds.
    fn len(&self) -> usize;
}

/// A reader that hands on the bytes of another reader.
pub struct LfToCrlfReader<R> {
    inner: R,
}

impl<R> LfToCrlfReader<R> {
    pub fn new(inner: R) -> (r: LfToCrlfReader<R>)
        ensures
            r.inner() == inner,
    {
        LfToCrlfReader { inner }
    }

    /// The reader the bytes come from.
    pub closed spec fn inner(&self) -> R {
        self.inner
    }

    /// The reader the bytes come from.
    pub fn get_mut(&mut self) -> (r: &mut R)
        ensures
            *r == old(self).inner(),
            final(self).inner() == *final(r),
    {
        &mut self.inner
    }
}

} // verus!
