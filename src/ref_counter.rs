//! Counts, for each physical frame, how many virtual pages translate to it.
use vstd::prelude::*;

use crate::errno::Errno;
use std::collections::HashMap;

verus! {

broadcast use vstd::std_specs::hash::group_hash_axioms;

/// A map from the address of a physical frame to its share count. A count of zero is
/// represented by the frame's absence.
pub struct PhysRefCounter {
    counts: HashMap<usize, usize>,
}

impl View for PhysRefCounter {
    type V = Map<usize, usize>;

    closed spec fn view(&self) -> Map<usize, usize> {
        self.counts@
    }
}

/// The share count of frame `f` under the counts `m`.
pub open spec fn count_of(m: Map<usize, usize>, f: usize) -> nat {
    if m.contains_key(f) {
        m[f] as nat
    } else {
        0
    }
}

impl PhysRefCounter {
    /// No frame is stored with a count of zero.
    pub open spec fn wf(&self) -> bool {
        forall|f: usize| #[trigger] self@.contains_key(f) ==> self@[f] >= 1
    }

    /// The share count of frame `f`.
    pub open spec fn count(&self, f: usize) -> nat {
        count_of(self@, f)
    }

    /// Creates a counter in which no frame is shared.
    pub fn new() -> (r: Self)
        ensures
            r.wf(),
            r@ == Map::<usize, usize>::empty(),
    {
        PhysRefCounter { counts: HashMap::new() }
    }

    /// Returns the share count of frame `f`.
    pub fn get(&self, f: usize) -> (r: usize)
        ensures
            r as nat == self.count(f),
    {
        match self.counts.get(&f) {
            Some(c) => *c,
            None => 0,
        }
    }

    /// Adds one to the count of frame `f`. Fails, changing nothing, where the count cannot
    /// grow any further.
    pub fn increment(&mut self, f: usize) -> (r: Result<(), Errno>)
        requires
            old(self).wf(),
        ensures
            final(self).wf(),
            r is Ok <==> old(self).count(f) < usize::MAX,
            r is Ok ==> final(self)@ == old(self)@.insert(f, (old(self).count(f) + 1) as usize),
            r is Err ==> final(self)@ == old(self)@ && r == Err::<(), Errno>(Errno::OutOfMemory),
    {
        let c = self.get(f);
        if c == usize::MAX {
            return Err(Errno::OutOfMemory);
        }
        self.counts.insert(f, c + 1);
        Ok(())
    }

    /// Removes one from the count of frame `f`, which must be counted. Returns whether the
    /// count reached zero, in which case the frame is no longer stored.
    pub fn decrement(&mut self, f: usize) -> (r: bool)
        requires
            old(self).wf(),
            old(self).count(f) >= 1,
        ensures
            final(self).wf(),
            r == (old(self).count(f) == 1),
            r ==> final(self)@ == old(self)@.remove(f),
            !r ==> final(self)@ == old(self)@.insert(f, (old(self).count(f) - 1) as usize),
    {
        let c = self.get(f);
        if c == 1 {
            self.counts.remove(&f);
            true
        } else {
            self.counts.insert(f, c - 1);
            false
        }
    }

    /// Tells whether frame `f` is shared: its count is above one.
    pub fn is_shared(&self, f: usize) -> (r: bool)
        ensures
            r == (self.count(f) > 1),
    {
        self.get(f) > 1
    }
}

} // verus!
