//! The free regions of an address space, indexed by address and by size class.
use vstd::prelude::*;

use crate::gap::MemGap;
use crate::memory::{bucket_of, gap_bucket_index, lemma_bucket_monotonic, GAPS_BUCKETS_COUNT};

verus! {

/// Gaps kept under two indices: a vector ordered by address, and `GAPS_BUCKETS_COUNT`
/// buckets, bucket `i` holding the gaps of `s` pages with `min(⌊log₂(s)⌋,
/// GAPS_BUCKETS_COUNT − 1) = i`.
pub struct GapRegistry {
    gaps: Vec<MemGap>,
    buckets: Vec<Vec<MemGap>>,
}

impl View for GapRegistry {
    type V = Set<MemGap>;

    closed spec fn view(&self) -> Set<MemGap> {
        Set::new(|g: MemGap| self.gaps@.contains(g))
    }
}

/// Inserting into a sequence adds exactly the inserted value to what it contains.
pub(crate) proof fn lemma_insert_contains<T>(s: Seq<T>, p: int, x: T, y: T)
    requires
        0 <= p <= s.len(),
    ensures
        s.insert(p, x).contains(y) <==> (s.contains(y) || y == x),
{
    let t = s.insert(p, x);
    if s.contains(y) {
        let i = choose|i: int| 0 <= i < s.len() && s[i] == y;
        if i < p {
            assert(t[i] == y);
        } else {
            assert(t[i + 1] == y);
        }
    }
    if y == x {
        assert(t[p] == y);
    }
    if t.contains(y) {
        let i = choose|i: int| 0 <= i < t.len() && t[i] == y;
        if i < p {
            assert(s[i] == y);
        } else if i > p {
            assert(s[i - 1] == y);
        }
    }
}

/// Removing from a sequence without duplicates takes exactly the removed value away.
pub(crate) proof fn lemma_remove_contains<T>(s: Seq<T>, p: int, y: T)
    requires
        0 <= p < s.len(),
        forall|i: int, j: int| 0 <= i < s.len() && 0 <= j < s.len() && i != j ==> s[i] != s[j],
    ensures
        s.remove(p).contains(y) <==> (s.contains(y) && y != s[p]),
{
    let t = s.remove(p);
    if s.contains(y) && y != s[p] {
        let i = choose|i: int| 0 <= i < s.len() && s[i] == y;
        if i < p {
            assert(t[i] == y);
        } else {
            assert(t[i - 1] == y);
        }
    }
    if t.contains(y) {
        let i = choose|i: int| 0 <= i < t.len() && t[i] == y;
        if i < p {
            assert(s[i] == y);
        } else {
            assert(s[i + 1] == y);
        }
    }
}

impl GapRegistry {
    /// The gaps of bucket `b`, in the order the bucket is scanned.
    pub closed spec fn bucket_seq(&self, b: int) -> Seq<MemGap> {
        self.buckets@[b]@
    }

    /// The gaps of bucket `b`.
    pub closed spec fn bucket(&self, b: int) -> Set<MemGap> {
        Set::new(|g: MemGap| self.buckets@[b]@.contains(g))
    }

    /// Each gap is in the bucket of its size class, and in no other; each gap of a bucket is
    /// a gap of the registry.
    pub open spec fn buckets_consistent(&self) -> bool {
        forall|b: int, g: MemGap|
            0 <= b < GAPS_BUCKETS_COUNT ==> (#[trigger] self.bucket(b).contains(g) <==> (
            self@.contains(g) && bucket_of(g@.size as nat) == b))
    }

    /// Well-formed gaps, pairwise disjoint, each in the bucket of its size class.
    pub open spec fn wf(&self) -> bool {
        &&& self.inner_wf()
        &&& forall|g: MemGap| #[trigger] self@.contains(g) ==> g.wf()
        &&& forall|g1: MemGap, g2: MemGap|
            #[trigger] self@.contains(g1) && #[trigger] self@.contains(g2) && g1 != g2
                ==> g1@.disjoint(g2@)
        &&& self.buckets_consistent()
    }

    /// The vector is ordered by address, its gaps do not overlap, and there are
    /// `GAPS_BUCKETS_COUNT` buckets.
    pub closed spec fn inner_wf(&self) -> bool {
        &&& self.sorted()
        &&& forall|i: int| 0 <= i < self.gaps@.len() ==> (#[trigger] self.gaps@[i]).wf()
        &&& self.buckets@.len() == GAPS_BUCKETS_COUNT
    }

    closed spec fn sorted(&self) -> bool {
        forall|i: int, j: int|
            0 <= i < j < self.gaps@.len() ==> (#[trigger] self.gaps@[i])@.end()
                <= (#[trigger] self.gaps@[j])@.begin
    }

    proof fn lemma_distinct(&self)
        requires
            self.sorted(),
            forall|i: int| 0 <= i < self.gaps@.len() ==> (#[trigger] self.gaps@[i]).wf(),
        ensures
            forall|i: int, j: int|
                0 <= i < self.gaps@.len() && 0 <= j < self.gaps@.len() && i != j
                    ==> self.gaps@[i] != self.gaps@[j],
    {
        assert forall|i: int, j: int|
            0 <= i < self.gaps@.len() && 0 <= j < self.gaps@.len() && i != j implies self.gaps@[i]
            != self.gaps@[j] by {
            if i < j {
                assert(self.gaps@[i]@.end() <= self.gaps@[j]@.begin);
            } else {
                assert(self.gaps@[j]@.end() <= self.gaps@[i]@.begin);
            }
        }
    }

    proof fn lemma_wf(&self)
        requires
            self.inner_wf(),
            self.buckets_consistent(),
        ensures
            self.wf(),
    {
        self.lemma_distinct();
        assert forall|g1: MemGap, g2: MemGap|
            #[trigger] self@.contains(g1) && #[trigger] self@.contains(g2) && g1 != g2 implies g1@.disjoint(
            g2@,
        ) by {
            let i = choose|i: int| 0 <= i < self.gaps@.len() && self.gaps@[i] == g1;
            let j = choose|j: int| 0 <= j < self.gaps@.len() && self.gaps@[j] == g2;
            if i < j {
                assert(self.gaps@[i]@.end() <= self.gaps@[j]@.begin);
            } else {
                assert(self.gaps@[j]@.end() <= self.gaps@[i]@.begin);
            }
        }
        assert forall|g: MemGap| #[trigger] self@.contains(g) implies g.wf() by {
            let i = choose|i: int| 0 <= i < self.gaps@.len() && self.gaps@[i] == g;
        }
    }

    /// Creates a registry holding no gap.
    pub fn new() -> (r: Self)
        ensures
            r.wf(),
            r@ == Set::<MemGap>::empty(),
    {
        let mut buckets: Vec<Vec<MemGap>> = Vec::new();
        let mut b: usize = 0;
        while b < GAPS_BUCKETS_COUNT
            invariant
                b <= GAPS_BUCKETS_COUNT,
                buckets@.len() == b,
                forall|k: int| 0 <= k < b ==> (#[trigger] buckets@[k])@.len() == 0,
            decreases GAPS_BUCKETS_COUNT - b,
        {
            buckets.push(Vec::new());
            b = b + 1;
        }
        let r = GapRegistry { gaps: Vec::new(), buckets };
        assert(r@ =~= Set::<MemGap>::empty());
        proof {
            assert forall|b: int, g: MemGap|
                0 <= b < GAPS_BUCKETS_COUNT implies !(#[trigger] r.bucket(b).contains(g)) by {
                assert(r.buckets@[b]@.len() == 0);
            }
            r.lemma_wf();
        }
        r
    }

    /// Returns the gaps in the order of their addresses.
    pub fn gaps(&self) -> (r: &Vec<MemGap>)
        requires
            self.wf(),
        ensures
            forall|i: int, j: int|
                0 <= i < r@.len() && 0 <= j < r@.len() && i != j ==> r@[i] != r@[j],
            forall|g: MemGap| self@.contains(g) <==> #[trigger] r@.contains(g),
            forall|i: int, j: int|
                0 <= i < j < r@.len() ==> (#[trigger] r@[i])@.end() <= (#[trigger] r@[j])@.begin,
            forall|i: int| 0 <= i < r@.len() ==> self@.contains(#[trigger] r@[i]),
    {
        proof {
            self.lemma_distinct();
            assert forall|i: int| 0 <= i < self.gaps@.len() implies self@.contains(#[trigger] self.gaps@[i]) by {
                assert(self.gaps@.contains(self.gaps@[i]));
            }
        }
        &self.gaps
    }

    /// Returns the gaps of bucket `b`.
    pub fn bucket_gaps(&self, b: usize) -> (r: &Vec<MemGap>)
        requires
            self.wf(),
            b < GAPS_BUCKETS_COUNT,
        ensures
            forall|g: MemGap| self.bucket(b as int).contains(g) <==> #[trigger] r@.contains(g),
    {
        &self.buckets[b]
    }

    /// Inserts the gap `g`, which overlaps no gap of the registry, into both indices.
    pub fn insert(&mut self, g: MemGap)
        requires
            old(self).wf(),
            g.wf(),
            forall|o: MemGap| #[trigger] old(self)@.contains(o) ==> o@.disjoint(g@),
        ensures
            final(self).wf(),
            final(self)@ == old(self)@.insert(g),
    {
        let ghost old_gaps = self.gaps@;
        // position: the first gap after `g`
        let mut p: usize = 0;
        while p < self.gaps.len() && self.gaps[p].get_begin() < g.get_begin()
            invariant
                p <= self.gaps@.len(),
                self.gaps@ == old_gaps,
                forall|i: int| 0 <= i < p ==> (#[trigger] self.gaps@[i])@.begin < g@.begin,
            decreases self.gaps@.len() - p,
        {
            p = p + 1;
        }
        proof {
            assert forall|i: int| 0 <= i < old_gaps.len() implies #[trigger] old(self)@.contains(old_gaps[i]) by {
                assert(old_gaps.contains(old_gaps[i]));
            }
            assert forall|i: int| p <= i < old_gaps.len() implies (#[trigger] old_gaps[i])@.begin >= g@.begin by {
                if p < old_gaps.len() {
                    if i > p {
                        assert(old_gaps[p as int]@.end() <= old_gaps[i]@.begin);
                    }
                }
            }
        }
        self.gaps.insert(p, g);
        let b = gap_bucket_index(g.get_size());
        let ghost old_buckets = self.buckets@;
        let mut bk = self.buckets.remove(b);
        bk.push(g);
        self.buckets.insert(b, bk);
        proof {
            assert(self.buckets@ =~= old_buckets.update(b as int, bk));
            assert(self.gaps@ == old_gaps.insert(p as int, g));
            assert forall|x: MemGap| self@.contains(x) <==> old(self)@.contains(x) || x == g by {
                lemma_insert_contains(old_gaps, p as int, g, x);
            }
            assert(self@ =~= old(self)@.insert(g));
            assert forall|i: int, j: int|
                0 <= i < j < self.gaps@.len() implies (#[trigger] self.gaps@[i])@.end()
                <= (#[trigger] self.gaps@[j])@.begin by {
                if j < p {
                } else if i < p && j == p {
                    assert(old(self)@.contains(old_gaps[i]));
                    assert(old_gaps[i]@.disjoint(g@));
                } else if i < p {
                } else if i == p {
                    assert(old(self)@.contains(old_gaps[j - 1]));
                    assert(old_gaps[j - 1]@.disjoint(g@));
                } else {
                }
            }
            assert forall|i: int| 0 <= i < self.gaps@.len() implies (#[trigger] self.gaps@[i]).wf() by {
                if i < p {
                } else if i > p {
                    assert(self.gaps@[i] == old_gaps[i - 1]);
                }
            }
            assert forall|c: int, x: MemGap|
                0 <= c < GAPS_BUCKETS_COUNT implies (#[trigger] self.bucket(c).contains(x) <==> (
                self@.contains(x) && bucket_of(x@.size as nat) == c)) by {
                if c == b {
                    assert(self.buckets@[c]@ == old_buckets[c]@.push(g));
                    if self.bucket(c).contains(x) {
                        if x != g {
                            let k = choose|k: int| 0 <= k < self.buckets@[c]@.len() && self.buckets@[c]@[k] == x;
                            assert(old_buckets[c]@[k] == x);
                            assert(old(self).bucket(c).contains(x));
                        }
                    }
                    if self@.contains(x) && bucket_of(x@.size as nat) == c {
                        if x == g {
                            assert(self.buckets@[c]@[old_buckets[c]@.len() as int] == g);
                        } else {
                            assert(old(self).bucket(c).contains(x));
                            let k = choose|k: int| 0 <= k < old_buckets[c]@.len() && old_buckets[c]@[k] == x;
                            assert(self.buckets@[c]@[k] == x);
                        }
                    }
                } else {
                    assert(self.buckets@[c] == old_buckets[c]);
                    assert(self.bucket(c) == old(self).bucket(c));
                }
            }
            self.lemma_wf();
        }
    }

    /// Returns the gap beginning at `begin`, if any.
    pub fn get(&self, begin: usize) -> (r: Option<MemGap>)
        requires
            self.wf(),
        ensures
            r is None <==> forall|g: MemGap| #[trigger] self@.contains(g) ==> g@.begin != begin,
            r matches Some(g) ==> self@.contains(g) && g@.begin == begin,
    {
        match self.index_of(begin) {
            Some(i) => Some(self.gaps[i]),
            None => None,
        }
    }

    fn index_of(&self, begin: usize) -> (r: Option<usize>)
        requires
            self.wf(),
        ensures
            r is None <==> forall|g: MemGap| #[trigger] self@.contains(g) ==> g@.begin != begin,
            r matches Some(i) ==> i < self.gaps@.len() && self.gaps@[i as int]@.begin == begin
                && self@.contains(self.gaps@[i as int]),
    {
        let mut i: usize = 0;
        while i < self.gaps.len()
            invariant
                i <= self.gaps@.len(),
                forall|k: int| 0 <= k < i ==> (#[trigger] self.gaps@[k])@.begin != begin,
            decreases self.gaps@.len() - i,
        {
            if self.gaps[i].get_begin() == begin {
                assert(self.gaps@.contains(self.gaps@[i as int]));
                assert(self@.contains(self.gaps@[i as int]));
                return Some(i);
            }
            i = i + 1;
        }
        None
    }

    /// Returns the gap ending at `end`, if any.
    pub fn find_ending_at(&self, end: usize) -> (r: Option<MemGap>)
        requires
            self.wf(),
        ensures
            r is None <==> forall|g: MemGap| #[trigger] self@.contains(g) ==> g@.end() != end,
            r matches Some(g) ==> self@.contains(g) && g@.end() == end,
    {
        let mut i: usize = 0;
        while i < self.gaps.len()
            invariant
                self.wf(),
                i <= self.gaps@.len(),
                forall|k: int| 0 <= k < i ==> (#[trigger] self.gaps@[k])@.end() != end,
            decreases self.gaps@.len() - i,
        {
            let g = self.gaps[i];
            if g.get_end() == end {
                assert(self.gaps@.contains(self.gaps@[i as int]));
                assert(self@.contains(self.gaps@[i as int]));
                return Some(g);
            }
            i = i + 1;
        }
        None
    }

    /// Returns a gap of at least `size` pages: the first such gap of the first bucket, from
    /// the size class of `size` upward, that holds one. Returns `None` exactly when no gap is
    /// that large. The gap is not removed.
    pub fn find_fit(&self, size: usize) -> (r: Option<MemGap>)
        requires
            self.wf(),
        ensures
            r is None <==> forall|g: MemGap| #[trigger] self@.contains(g) ==> g@.size < size,
            r matches Some(g) ==> self@.contains(g) && g@.size >= size,
            r matches Some(g) ==> exists|b: int, j: int| {
                &&& bucket_of(size as nat) <= b < GAPS_BUCKETS_COUNT
                &&& 0 <= j < self.bucket_seq(b).len()
                &&& #[trigger] self.bucket_seq(b)[j] == g
                &&& forall|c: int, k: int|
                    bucket_of(size as nat) <= c < b && 0 <= k < self.bucket_seq(c).len() ==> (#[trigger] self.bucket_seq(c)[k])@.size < size
                &&& forall|k: int| 0 <= k < j ==> (#[trigger] self.bucket_seq(b)[k])@.size < size
            },
    {
        let first = gap_bucket_index(size);
        let mut b: usize = first;
        while b < GAPS_BUCKETS_COUNT
            invariant
                self.wf(),
                first as nat == bucket_of(size as nat),
                first <= b <= GAPS_BUCKETS_COUNT,
                forall|c: int, x: MemGap|
                    first <= c < b && #[trigger] self.bucket(c).contains(x) ==> x@.size < size,
                forall|c: int, k: int|
                    first <= c < b && 0 <= k < self.bucket_seq(c).len() ==> (#[trigger] self.bucket_seq(c)[k])@.size < size,
            decreases GAPS_BUCKETS_COUNT - b,
        {
            let bk = &self.buckets[b];
            let mut j: usize = 0;
            while j < bk.len()
                invariant
                    self.wf(),
                    b < GAPS_BUCKETS_COUNT,
                    first as nat == bucket_of(size as nat),
                    first <= b,
                    forall|c: int, k: int|
                        first <= c < b && 0 <= k < self.bucket_seq(c).len() ==> (#[trigger] self.bucket_seq(c)[k])@.size < size,
                    bk == &self.buckets@[b as int],
                    j <= bk@.len(),
                    forall|k: int| 0 <= k < j ==> (#[trigger] bk@[k])@.size < size,
                decreases bk@.len() - j,
            {
                let g = bk[j];
                if g.get_size() >= size {
                    assert(bk@.contains(bk@[j as int]));
                    assert(self.bucket(b as int).contains(g));
                    assert(self.bucket_seq(b as int)[j as int] == g);
                    assert forall|k: int| 0 <= k < j implies (#[trigger] self.bucket_seq(b as int)[k])@.size < size by {
                        assert(self.bucket_seq(b as int)[k] == bk@[k]);
                    }
                    return Some(g);
                }
                j = j + 1;
            }
            proof {
                assert forall|x: MemGap| #[trigger] self.bucket(b as int).contains(x) implies x@.size < size by {
                    let k = choose|k: int| 0 <= k < bk@.len() && bk@[k] == x;
                }
                assert forall|c: int, k: int|
                    first <= c < b + 1 && 0 <= k < self.bucket_seq(c).len() implies (#[trigger] self.bucket_seq(c)[k])@.size < size by {
                    if c == b {
                        assert(self.bucket_seq(c)[k] == bk@[k]);
                    }
                }
            }
            b = b + 1;
        }
        proof {
            assert forall|g: MemGap| #[trigger] self@.contains(g) implies g@.size < size by {
                if g@.size >= size {
                    lemma_bucket_monotonic(size as nat, g@.size as nat);
                    assert(self.bucket(bucket_of(g@.size as nat) as int).contains(g));
                }
            }
        }
        None
    }

    /// Removes the gap beginning at `begin` from both indices and returns it; returns `None`,
    /// changing nothing, where no gap begins there.
    pub fn remove(&mut self, begin: usize) -> (r: Option<MemGap>)
        requires
            old(self).wf(),
        ensures
            final(self).wf(),
            r is None <==> forall|g: MemGap| #[trigger] old(self)@.contains(g) ==> g@.begin != begin,
            r is None ==> final(self)@ == old(self)@,
            r matches Some(g) ==> old(self)@.contains(g) && g@.begin == begin && final(self)@
                == old(self)@.remove(g),
    {
        let i = match self.index_of(begin) {
            Some(i) => i,
            None => return None,
        };
        let ghost old_gaps = self.gaps@;
        let g = self.gaps.remove(i);
        proof {
            old(self).lemma_distinct();
            assert forall|x: MemGap| self@.contains(x) <==> old(self)@.contains(x) && x != g by {
                lemma_remove_contains(old_gaps, i as int, x);
            }
            assert(self@ =~= old(self)@.remove(g));
        }
        let b = gap_bucket_index(g.get_size());
        let ghost old_buckets = self.buckets@;
        let bk = self.buckets.remove(b);
        let mut nb: Vec<MemGap> = Vec::new();
        let mut j: usize = 0;
        while j < bk.len()
            invariant
                j <= bk@.len(),
                forall|x: MemGap| #[trigger] nb@.contains(x) <==> (exists|k: int| 0 <= k < j && bk@[k] == x) && x@.begin != begin,
            decreases bk@.len() - j,
        {
            let x = bk[j];
            if x.get_begin() != begin {
                let ghost prev = nb@;
                nb.push(x);
                proof {
                    assert forall|y: MemGap| #[trigger] nb@.contains(y) <==> (exists|k: int| 0 <= k < j + 1 && bk@[k] == y) && y@.begin != begin by {
                        lemma_insert_contains(prev, prev.len() as int, x, y);
                        assert(prev.insert(prev.len() as int, x) == nb@);
                        if y == x {
                            assert(bk@[j as int] == y);
                        }
                        if (exists|k: int| 0 <= k < j + 1 && bk@[k] == y) && y@.begin != begin && y != x {
                            let k = choose|k: int| 0 <= k < j + 1 && bk@[k] == y;
                            assert(k < j);
                        }
                    }
                }
            } else {
                proof {
                    assert forall|y: MemGap| #[trigger] nb@.contains(y) <==> (exists|k: int| 0 <= k < j + 1 && bk@[k] == y) && y@.begin != begin by {
                        if (exists|k: int| 0 <= k < j + 1 && bk@[k] == y) && y@.begin != begin {
                            let k = choose|k: int| 0 <= k < j + 1 && bk@[k] == y;
                            assert(k < j);
                        }
                    }
                }
            }
            j = j + 1;
        }
        self.buckets.insert(b, nb);
        proof {
            assert(self.buckets@ =~= old_buckets.update(b as int, nb));
            assert forall|c: int, x: MemGap|
                0 <= c < GAPS_BUCKETS_COUNT implies (#[trigger] self.bucket(c).contains(x) <==> (
                self@.contains(x) && bucket_of(x@.size as nat) == c)) by {
                if c == b {
                    if self.bucket(c).contains(x) {
                        let k = choose|k: int| 0 <= k < bk@.len() && bk@[k] == x;
                        assert(old_buckets[c]@.contains(x));
                        assert(old(self).bucket(c).contains(x));
                        assert(x != g);
                    }
                    if self@.contains(x) && bucket_of(x@.size as nat) == c {
                        assert(old(self).bucket(c).contains(x));
                        let k = choose|k: int| 0 <= k < old_buckets[c]@.len() && old_buckets[c]@[k] == x;
                        assert(bk@[k] == x);
                        assert(old(self)@.contains(x) && old(self)@.contains(g) && x != g);
                        assert(x@.disjoint(g@));
                        assert(nb@.contains(x));
                    }
                } else {
                    assert(self.buckets@[c] == old_buckets[c]);
                    assert(self.bucket(c) == old(self).bucket(c));
                }
            }
            assert forall|i2: int| 0 <= i2 < self.gaps@.len() implies (#[trigger] self.gaps@[i2]).wf() by {
                if i2 >= i {
                    assert(self.gaps@[i2] == old_gaps[i2 + 1]);
                }
            }
            assert forall|i2: int, j2: int|
                0 <= i2 < j2 < self.gaps@.len() implies (#[trigger] self.gaps@[i2])@.end()
                <= (#[trigger] self.gaps@[j2])@.begin by {
                let a = if i2 < i { i2 } else { i2 + 1 };
                let c = if j2 < i { j2 } else { j2 + 1 };
                assert(self.gaps@[i2] == old_gaps[a]);
                assert(self.gaps@[j2] == old_gaps[c]);
            }
            self.lemma_wf();
        }
        Some(g)
    }
}

} // verus!
