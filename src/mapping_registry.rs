//! The mappings of an address space, ordered by address.
use vstd::prelude::*;

use crate::gap_registry::{lemma_insert_contains, lemma_remove_contains};
use crate::mapping::MemMapping;

verus! {

/// Mappings kept in a vector ordered by address.
pub struct MappingRegistry {
    mappings: Vec<MemMapping>,
}

impl View for MappingRegistry {
    type V = Set<MemMapping>;

    closed spec fn view(&self) -> Set<MemMapping> {
        Set::new(|m: MemMapping| self.mappings@.contains(m))
    }
}

impl MappingRegistry {
    /// The mappings in the order of their addresses.
    pub closed spec fn seq(&self) -> Seq<MemMapping> {
        self.mappings@
    }

    /// The sequence holds exactly the mappings of the registry, each once.
    pub proof fn lemma_seq(&self)
        requires
            self.wf(),
        ensures
            forall|m: MemMapping| self@.contains(m) <==> #[trigger] self.seq().contains(m),
            forall|i: int| 0 <= i < self.seq().len() ==> self@.contains(#[trigger] self.seq()[i]),
            forall|i: int, j: int|
                0 <= i < self.seq().len() && 0 <= j < self.seq().len() && i != j ==> self.seq()[i] != self.seq()[j],
    {
        self.lemma_distinct();
        assert forall|i: int| 0 <= i < self.mappings@.len() implies self@.contains(#[trigger] self.mappings@[i]) by {
            assert(self.mappings@.contains(self.mappings@[i]));
        }
    }
    /// Well-formed mappings, pairwise disjoint.
    pub open spec fn wf(&self) -> bool {
        &&& self.inner_wf()
        &&& forall|m: MemMapping| #[trigger] self@.contains(m) ==> m.wf()
        &&& forall|m1: MemMapping, m2: MemMapping|
            #[trigger] self@.contains(m1) && #[trigger] self@.contains(m2) && m1 != m2
                ==> m1@.disjoint(m2@)
    }

    /// The vector is ordered by address and its mappings do not overlap.
    pub closed spec fn inner_wf(&self) -> bool {
        &&& self.sorted()
        &&& forall|i: int| 0 <= i < self.mappings@.len() ==> (#[trigger] self.mappings@[i]).wf()
    }

    closed spec fn sorted(&self) -> bool {
        forall|i: int, j: int|
            0 <= i < j < self.mappings@.len() ==> (#[trigger] self.mappings@[i])@.end()
                <= (#[trigger] self.mappings@[j])@.begin
    }

    proof fn lemma_distinct(&self)
        requires
            self.inner_wf(),
        ensures
            forall|i: int, j: int|
                0 <= i < self.mappings@.len() && 0 <= j < self.mappings@.len() && i != j
                    ==> self.mappings@[i] != self.mappings@[j],
    {
        assert forall|i: int, j: int|
            0 <= i < self.mappings@.len() && 0 <= j < self.mappings@.len() && i != j implies self.mappings@[i]
            != self.mappings@[j] by {
            if i < j {
                assert(self.mappings@[i]@.end() <= self.mappings@[j]@.begin);
            } else {
                assert(self.mappings@[j]@.end() <= self.mappings@[i]@.begin);
            }
        }
    }

    proof fn lemma_wf(&self)
        requires
            self.inner_wf(),
        ensures
            self.wf(),
    {
        self.lemma_distinct();
        assert forall|m1: MemMapping, m2: MemMapping|
            #[trigger] self@.contains(m1) && #[trigger] self@.contains(m2) && m1 != m2 implies m1@.disjoint(
            m2@,
        ) by {
            let i = choose|i: int| 0 <= i < self.mappings@.len() && self.mappings@[i] == m1;
            let j = choose|j: int| 0 <= j < self.mappings@.len() && self.mappings@[j] == m2;
            if i < j {
                assert(self.mappings@[i]@.end() <= self.mappings@[j]@.begin);
            } else {
                assert(self.mappings@[j]@.end() <= self.mappings@[i]@.begin);
            }
        }
        assert forall|m: MemMapping| #[trigger] self@.contains(m) implies m.wf() by {
            let i = choose|i: int| 0 <= i < self.mappings@.len() && self.mappings@[i] == m;
        }
    }

    /// Creates a registry holding no mapping.
    pub fn new() -> (r: Self)
        ensures
            r.wf(),
            r@ == Set::<MemMapping>::empty(),
            r.seq() == Seq::<MemMapping>::empty(),
    {
        let r = MappingRegistry { mappings: Vec::new() };
        assert(r@ =~= Set::<MemMapping>::empty());
        proof {
            r.lemma_wf();
        }
        r
    }

    /// Returns the mappings in the order of their addresses.
    pub fn mappings(&self) -> (r: &Vec<MemMapping>)
        requires
            self.wf(),
        ensures
            r@ == self.seq(),
            forall|i: int, j: int|
                0 <= i < j < r@.len() ==> (#[trigger] r@[i])@.end() <= (#[trigger] r@[j])@.begin,
            forall|m: MemMapping| self@.contains(m) <==> #[trigger] r@.contains(m),
            forall|i: int| 0 <= i < r@.len() ==> self@.contains(#[trigger] r@[i]),
            forall|i: int, j: int|
                0 <= i < r@.len() && 0 <= j < r@.len() && i != j ==> r@[i] != r@[j],
    {
        proof {
            self.lemma_distinct();
            assert forall|i: int| 0 <= i < self.mappings@.len() implies self@.contains(#[trigger] self.mappings@[i]) by {
                assert(self.mappings@.contains(self.mappings@[i]));
            }
        }
        &self.mappings
    }

    /// Inserts the mapping `m`, which overlaps no mapping of the registry.
    pub fn insert(&mut self, m: MemMapping)
        requires
            old(self).wf(),
            m.wf(),
            forall|o: MemMapping| #[trigger] old(self)@.contains(o) ==> o@.disjoint(m@),
        ensures
            final(self).wf(),
            final(self)@ == old(self)@.insert(m),
            (forall|i: int| 0 <= i < old(self).seq().len() ==> (#[trigger] old(self).seq()[i])@.begin < m@.begin)
                ==> final(self).seq() == old(self).seq().push(m),
            exists|p: int| 0 <= p <= old(self).seq().len() && final(self).seq() == old(self).seq().insert(p, m),
    {
        let ghost old_maps = self.mappings@;
        let mut p: usize = 0;
        while p < self.mappings.len() && self.mappings[p].get_begin() < m.get_begin()
            invariant
                p <= self.mappings@.len(),
                self.mappings@ == old_maps,
                forall|i: int| 0 <= i < p ==> (#[trigger] self.mappings@[i])@.begin < m@.begin,
            decreases self.mappings@.len() - p,
        {
            p = p + 1;
        }
        proof {
            assert forall|i: int| 0 <= i < old_maps.len() implies #[trigger] old(self)@.contains(old_maps[i]) by {
                assert(old_maps.contains(old_maps[i]));
            }
        }
        self.mappings.insert(p, m);
        proof {
            assert(self.seq() == old(self).seq().insert(p as int, m));
            if forall|i: int| 0 <= i < old(self).seq().len() ==> (#[trigger] old(self).seq()[i])@.begin < m@.begin {
                assert(old(self).seq() == old_maps);
                if p < old_maps.len() {
                    assert(old(self).seq()[p as int]@.begin < m@.begin);
                }
                assert(self.mappings@ =~= old_maps.push(m));
            }
            assert forall|x: MemMapping| self@.contains(x) <==> old(self)@.contains(x) || x == m by {
                lemma_insert_contains(old_maps, p as int, m, x);
            }
            assert(self@ =~= old(self)@.insert(m));
            assert forall|i: int, j: int|
                0 <= i < j < self.mappings@.len() implies (#[trigger] self.mappings@[i])@.end()
                <= (#[trigger] self.mappings@[j])@.begin by {
                if j < p {
                } else if i < p && j == p {
                    assert(old(self)@.contains(old_maps[i]));
                    assert(old_maps[i]@.disjoint(m@));
                } else if i < p {
                } else if i == p {
                    assert(old(self)@.contains(old_maps[j - 1]));
                    assert(old_maps[j - 1]@.disjoint(m@));
                } else {
                }
            }
            assert forall|i: int| 0 <= i < self.mappings@.len() implies (#[trigger] self.mappings@[i]).wf() by {
                if i > p {
                    assert(self.mappings@[i] == old_maps[i - 1]);
                }
            }
            self.lemma_wf();
        }
    }

    fn index_of(&self, begin: usize) -> (r: Option<usize>)
        requires
            self.wf(),
        ensures
            r is None <==> forall|m: MemMapping| #[trigger] self@.contains(m) ==> m@.begin != begin,
            r matches Some(i) ==> i < self.mappings@.len() && self.mappings@[i as int]@.begin == begin
                && self@.contains(self.mappings@[i as int]),
    {
        let mut i: usize = 0;
        while i < self.mappings.len()
            invariant
                i <= self.mappings@.len(),
                forall|k: int| 0 <= k < i ==> (#[trigger] self.mappings@[k])@.begin != begin,
            decreases self.mappings@.len() - i,
        {
            if self.mappings[i].get_begin() == begin {
                assert(self.mappings@.contains(self.mappings@[i as int]));
                assert(self@.contains(self.mappings@[i as int]));
                return Some(i);
            }
            i = i + 1;
        }
        None
    }

    /// Returns the mapping containing the address `ptr`, if any.
    pub fn get_containing(&self, ptr: usize) -> (r: Option<MemMapping>)
        requires
            self.wf(),
        ensures
            r is None <==> forall|m: MemMapping| #[trigger] self@.contains(m) ==> !m@.contains(ptr as int),
            r matches Some(m) ==> self@.contains(m) && m@.contains(ptr as int),
    {
        let mut i: usize = 0;
        while i < self.mappings.len()
            invariant
                self.wf(),
                i <= self.mappings@.len(),
                forall|k: int| 0 <= k < i ==> !(#[trigger] self.mappings@[k])@.contains(ptr as int),
            decreases self.mappings@.len() - i,
        {
            let m = self.mappings[i];
            if m.contains_ptr(ptr) {
                assert(self.mappings@.contains(self.mappings@[i as int]));
                assert(self@.contains(self.mappings@[i as int]));
                return Some(m);
            }
            i = i + 1;
        }
        None
    }

    /// Removes the mapping beginning at `begin` and returns it; returns `None`, changing
    /// nothing, where no mapping begins there.
    pub fn remove(&mut self, begin: usize) -> (r: Option<MemMapping>)
        requires
            old(self).wf(),
        ensures
            final(self).wf(),
            r is None <==> forall|m: MemMapping| #[trigger] old(self)@.contains(m) ==> m@.begin != begin,
            r is None ==> final(self)@ == old(self)@,
            r matches Some(m) ==> old(self)@.contains(m) && m@.begin == begin && final(self)@
                == old(self)@.remove(m),
            r is None ==> final(self).seq() == old(self).seq(),
            r is Some ==> exists|p: int| 0 <= p < old(self).seq().len() && old(self).seq()[p] == r.unwrap()
                && final(self).seq() == old(self).seq().remove(p),
    {
        let i = match self.index_of(begin) {
            Some(i) => i,
            None => return None,
        };
        let ghost old_maps = self.mappings@;
        let m = self.mappings.remove(i);
        proof {
            assert(self.seq() == old(self).seq().remove(i as int));
            old(self).lemma_distinct();
            assert forall|x: MemMapping| self@.contains(x) <==> old(self)@.contains(x) && x != m by {
                lemma_remove_contains(old_maps, i as int, x);
            }
            assert(self@ =~= old(self)@.remove(m));
            assert forall|i2: int| 0 <= i2 < self.mappings@.len() implies (#[trigger] self.mappings@[i2]).wf() by {
                if i2 >= i {
                    assert(self.mappings@[i2] == old_maps[i2 + 1]);
                }
            }
            assert forall|i2: int, j2: int|
                0 <= i2 < j2 < self.mappings@.len() implies (#[trigger] self.mappings@[i2])@.end()
                <= (#[trigger] self.mappings@[j2])@.begin by {
                let a = if i2 < i { i2 } else { i2 + 1 };
                let c = if j2 < i { j2 } else { j2 + 1 };
                assert(self.mappings@[i2] == old_maps[a]);
                assert(self.mappings@[j2] == old_maps[c]);
            }
            self.lemma_wf();
        }
        Some(m)
    }
}

} // verus!
