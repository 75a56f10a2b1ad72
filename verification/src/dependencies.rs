//! The slots on which a task depends, held weakly.
use std::sync::Weak;
use vstd::prelude::*;
use weak_table::WeakHashSet;

use crate::slot::SlotHandle;

verus! {

/// A `weak_table::WeakHashSet` of handles on slots. It does not keep a slot: a handle
/// that nobody else holds any more drops out of the set by itself.
#[verifier::external_body]
#[derive(Debug)]
pub struct Dependencies {
    set: WeakHashSet<Weak<(usize, usize)>>,
}

/// What was put into the set since it was made or last emptied, whether or not it has
/// dropped out meanwhile.
pub uninterp spec fn recorded(dependencies: &Dependencies) -> Set<(usize, usize)>;

impl Dependencies {
    /// `weak_table::WeakHashSet::new` makes an empty set.
    #[verifier::external_body]
    pub(crate) fn new() -> (res: Dependencies)
        ensures
            recorded(&res) == Set::<(usize, usize)>::empty(),
    {
        Dependencies { set: WeakHashSet::new() }
    }

    /// `weak_table::WeakHashSet::insert` puts the handle into the set, in the place of
    /// one that holds the same. Whether there was one depends on who holds handles, so
    /// the answer is not claimed.
    #[verifier::external_body]
    pub(crate) fn insert(&mut self, handle: SlotHandle) -> (res: bool)
        ensures
            recorded(final(self)) == recorded(old(self)).insert(*handle),
    {
        self.set.insert(handle)
    }

    /// `weak_table::WeakHashSet::drain` empties the set and gives the handles that have
    /// not dropped out, all of them put there before, and no two that hold the same. Which ones have not depends on
    /// who holds handles at that moment, so it is not claimed that one is given.
    #[verifier::external_body]
    pub(crate) fn drain(&mut self) -> (res: Vec<SlotHandle>)
        ensures
            recorded(final(self)) == Set::<(usize, usize)>::empty(),
            res@.no_duplicates(),
            forall|i: int| 0 <= i < res@.len() ==> recorded(old(self)).contains(*#[trigger] res@[i]),
    {
        self.set.drain().collect()
    }

    /// `weak_table::WeakHashSet::iter` gives the handles that have not dropped out, all
    /// of them put there before, and no two that hold the same, and leaves the set as it
    /// is. Which ones have not depends on who holds handles at that moment, so it is not claimed that one is
    /// given.
    #[verifier::external_body]
    pub(crate) fn handles(&self) -> (res: Vec<SlotHandle>)
        ensures
            res@.no_duplicates(),
            forall|i: int| 0 <= i < res@.len() ==> recorded(self).contains(*#[trigger] res@[i]),
    {
        self.set.iter().collect()
    }
}

} // verus!
