//! The seen-set used by the graph search, backed by `rustc_hash`'s
//! `FxHashSet` as in the host resolver.

use rustc_hash::FxHashSet;
use vstd::prelude::*;

verus! {

/// A set of visited node indices. The backing set is opaque to the verifier;
/// its contents are tracked abstractly through [`seen_contents`].
#[verifier::external_body]
pub struct SeenSet {
    inner: FxHashSet<usize>,
}

/// The indices a [`SeenSet`] currently holds.
pub uninterp spec fn seen_contents(s: SeenSet) -> Set<int>;

impl SeenSet {
    /// Relies on `FxHashSet::default`: a freshly built set is empty.
    #[verifier::external_body]
    pub fn new() -> (r: SeenSet)
        ensures
            seen_contents(r) == Set::<int>::empty(),
    {
        SeenSet { inner: FxHashSet::default() }
    }

    /// Relies on `HashSet::insert` (here with the `FxHasher` build): the
    /// value is added to the set, and the result reports whether it was
    /// absent before the call.
    #[verifier::external_body]
    pub fn insert(&mut self, x: usize) -> (fresh: bool)
        ensures
            seen_contents(*final(self)) == seen_contents(*old(self)).insert(x as int),
            fresh == !seen_contents(*old(self)).contains(x as int),
    {
        self.inner.insert(x)
    }
}

} // verus!
