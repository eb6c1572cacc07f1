//! A machine: its physical memory and the memory spaces of all its live processes, whose
//! frame counts stay exact.
use vstd::prelude::*;

use crate::errno::Errno;
use crate::mapping::sat_sub;
use crate::mem_space::{
    fault_outcome, fork_outcome, forked_count, map_outcome, mapped_with, unmap_outcome, write_outcome, MemSpace,
};
use crate::memory::{page_addr, Region};
use crate::memory::{has_flag, MAPPING_FLAG_SHARED, MAPPING_FLAG_WRITE, PAGE_SIZE};
use crate::mapping::MemMapping;
use crate::phys::{PhysMem, MAX_FRAMES};
use crate::vmem::{writable, VMem};

verus! {

/// The number of pages translating to frame `f` in the first `n` memory spaces of `spaces`.
pub open spec fn total_uses(spaces: Seq<MemSpace>, n: int, f: usize) -> nat
    decreases n,
{
    if n <= 0 {
        0
    } else {
        total_uses(spaces, n - 1, f) + spaces[n - 1].frame_uses(f)
    }
}

proof fn lemma_total_prefix(a: Seq<MemSpace>, b: Seq<MemSpace>, n: int, f: usize)
    requires
        0 <= n <= a.len(),
        n <= b.len(),
        forall|i: int| 0 <= i < n ==> a[i] == b[i],
    ensures
        total_uses(a, n, f) == total_uses(b, n, f),
    decreases n,
{
    if n > 0 {
        lemma_total_prefix(a, b, n - 1, f);
    }
}

/// Removing the space `i` takes its uses away from the total.
proof fn lemma_total_remove(ss: Seq<MemSpace>, i: int, n: int, f: usize)
    requires
        0 <= i < ss.len(),
        i < n <= ss.len(),
    ensures
        total_uses(ss.remove(i), n - 1, f) + ss[i].frame_uses(f) == total_uses(ss, n, f),
    decreases n,
{
    let r = ss.remove(i);
    if n == i + 1 {
        lemma_total_prefix(r, ss, i, f);
    } else {
        lemma_total_remove(ss, i, n - 1, f);
        assert(r[n - 2] == ss[n - 1]);
    }
}

/// Replacing the space `i` by `s1` keeps the counts exact where the counts change as the
/// uses of that space do.
proof fn lemma_replace(ss: Seq<MemSpace>, i: int, s1: MemSpace, p0: PhysMem, p1: PhysMem, d: usize)
    requires
        0 <= i < ss.len(),
        forall|f: usize| f != d ==> #[trigger] p0.refcount(f) == total_uses(ss, ss.len() as int, f),
        forall|f: usize| f != d ==> #[trigger] p1.refcount(f) + ss[i].frame_uses(f) == p0.refcount(f) + s1.frame_uses(f),
    ensures
        forall|f: usize| f != d ==> #[trigger] p1.refcount(f) == total_uses(ss.remove(i).insert(i, s1), ss.len() as int, f),
{
    let r = ss.remove(i);
    let t = r.insert(i, s1);
    assert(t.remove(i) =~= r);
    assert forall|f: usize| f != d implies #[trigger] p1.refcount(f) == total_uses(t, ss.len() as int, f) by {
        lemma_total_remove(ss, i, ss.len() as int, f);
        lemma_total_remove(t, i, ss.len() as int, f);
        assert(t[i] == s1);
    }
}

/// Two spaces' uses are part of the total.
proof fn lemma_total_two(ss: Seq<MemSpace>, i: int, k: int, f: usize)
    requires
        0 <= i < ss.len(),
        0 <= k < ss.len(),
        i != k,
    ensures
        ss[i].frame_uses(f) + ss[k].frame_uses(f) <= total_uses(ss, ss.len() as int, f),
{
    lemma_total_remove(ss, i, ss.len() as int, f);
    let r = ss.remove(i);
    let k2 = if k < i { k } else { k - 1 };
    assert(r[k2] == ss[k]);
    lemma_total_remove(r, k2, r.len() as int, f);
}

/// A space's uses are part of the total.
proof fn lemma_total_member(ss: Seq<MemSpace>, i: int, f: usize)
    requires
        0 <= i < ss.len(),
    ensures
        ss[i].frame_uses(f) <= total_uses(ss, ss.len() as int, f),
{
    lemma_total_remove(ss, i, ss.len() as int, f);
}

/// A machine: physical memory shared by the memory spaces of its live processes.
pub struct Machine {
    phys: PhysMem,
    spaces: Vec<MemSpace>,
}

impl Machine {
    /// The physical memory.
    pub closed spec fn phys_spec(&self) -> PhysMem {
        self.phys
    }

    /// The live memory spaces.
    pub closed spec fn spaces_spec(&self) -> Seq<MemSpace> {
        self.spaces@
    }

    /// The count of every frame but the default page is the number of pages translating to
    /// it over all live memory spaces.
    pub open spec fn counts_exact(&self) -> bool {
        forall|f: usize|
            f != self.phys_spec().default_page_spec().unwrap() ==> #[trigger] self.phys_spec().refcount(f)
                == total_uses(self.spaces_spec(), self.spaces_spec().len() as int, f)
    }

    pub open spec fn wf(&self) -> bool {
        &&& self.phys_spec().wf()
        &&& self.phys_spec().default_page_spec() is Some
        &&& forall|i: int| 0 <= i < self.spaces_spec().len() ==> (#[trigger] self.spaces_spec()[i]).wf()
        &&& self.counts_exact()
        &&& forall|i: int| 0 <= i < self.spaces_spec().len() ==> (#[trigger] self.spaces_spec()[i]).writes_safe(&self.phys_spec())
    }

    /// Creates a machine of `frames` frames with no process. Fails with `OutOfMemory` where
    /// there is no frame for the default page.
    pub fn new(frames: usize) -> (r: Result<Machine, Errno>)
        requires
            frames <= MAX_FRAMES,
        ensures
            r is Err <==> frames == 0,
            r matches Ok(m) ==> m.wf() && m.spaces_spec().len() == 0 && m.phys_spec().frames().len() == frames,
    {
        let mut phys = PhysMem::new(frames);
        let ghost p0 = phys;
        match phys.get_default_page() {
            Ok(_) => {},
            Err(e) => {
                proof {
                    if frames > 0 {
                        assert(p0.frames()[0] is None);
                    }
                }
                return Err(e);
            },
        }
        let m = Machine { phys, spaces: Vec::new() };
        proof {
            assert forall|f: usize| f != m.phys_spec().default_page_spec().unwrap() implies #[trigger] m.phys_spec().refcount(f)
                == total_uses(m.spaces_spec(), 0, f) by {
                assert(!m.phys.refs().contains_key(f));
            }
        }
        Ok(m)
    }

    /// Returns the number of live memory spaces.
    pub fn len(&self) -> (r: usize)
        ensures
            r == self.spaces_spec().len(),
    {
        self.spaces.len()
    }

    /// Returns the memory space `i`.
    pub fn space(&self, i: usize) -> (r: &MemSpace)
        requires
            i < self.spaces_spec().len(),
        ensures
            *r == self.spaces_spec()[i as int],
    {
        &self.spaces[i]
    }

    /// Returns the physical memory.
    pub fn phys(&self) -> (r: &PhysMem)
        ensures
            *r == self.phys_spec(),
    {
        &self.phys
    }

    /// Creates the memory space of a new process, with no mapping, and returns its index.
    pub fn spawn(&mut self) -> (r: usize)
        requires
            old(self).wf(),
        ensures
            final(self).wf(),
            r == old(self).spaces_spec().len(),
            final(self).spaces_spec().len() == old(self).spaces_spec().len() + 1,
            final(self).spaces_spec().subrange(0, r as int) == old(self).spaces_spec(),
            final(self).phys_spec().refs() == old(self).phys_spec().refs(),
    {
        let ghost ss = self.spaces@;
        let ghost d = self.phys.default_page_spec().unwrap();
        let s = match MemSpace::new(&mut self.phys) {
            Ok(s) => s,
            Err(_) => {
                proof {
                    assert(false);
                }
                return 0;
            },
        };
        let r = self.spaces.len();
        self.spaces.push(s);
        proof {
            assert(self.spaces@.subrange(0, r as int) =~= ss);
            assert(self.spaces@[r as int] == s);
            assert forall|f: usize| f != self.phys_spec().default_page_spec().unwrap() implies #[trigger] self.phys_spec().refcount(f)
                == total_uses(self.spaces_spec(), self.spaces_spec().len() as int, f) by {
                lemma_total_prefix(self.spaces@, ss, r as int, f);
                assert(s.frame_uses(f) == 0);
                assert(old(self).phys_spec().refcount(f) == total_uses(ss, r as int, f));
                assert(self.phys.refs() == old(self).phys.refs());
            }
            assert forall|i: int| 0 <= i < self.spaces_spec().len() implies (#[trigger] self.spaces_spec()[i]).wf() by {
                if i < r {
                    assert(self.spaces@[i] == ss[i]);
                    assert(old(self).spaces_spec()[i].wf());
                }
            }
            assert forall|i: int| 0 <= i < self.spaces_spec().len() implies (#[trigger] self.spaces_spec()[i]).writes_safe(&self.phys_spec()) by {
                if i < r {
                    assert(self.spaces@[i] == ss[i]);
                    assert(old(self).spaces_spec()[i].writes_safe(&old(self).phys_spec()));
                    assert(self.phys.refs() == old(self).phys.refs());
                }
            }
        }
        r
    }

    /// Resolves a page fault of process `i` at `virt` with the error code `code`; see
    /// `MemSpace::handle_page_fault`.
    pub fn page_fault(&mut self, i: usize, virt: usize, code: u32) -> (r: bool)
        requires
            old(self).wf(),
            i < old(self).spaces_spec().len(),
        ensures
            final(self).wf(),
            final(self).spaces_spec().len() == old(self).spaces_spec().len(),
            fault_outcome(old(self).spaces_spec()[i as int], old(self).phys_spec(), final(self).spaces_spec()[i as int], final(self).phys_spec(), virt, code, r),
    {
        let ghost ss = self.spaces@;
        let ghost p0 = self.phys;
        let ghost d = self.phys.default_page_spec().unwrap();
        let mut s = self.spaces.remove(i);
        let ghost s0 = s;
        let r = s.handle_page_fault(virt, code, &mut self.phys);
        let ghost s1 = s;
        assert(fault_outcome(s0, p0, s1, self.phys, virt, code, r));
        self.spaces.insert(i, s);
        proof {
            assert(ss[i as int] == s0);
            assert forall|f: usize| f != d implies #[trigger] self.phys.refcount(f) + ss[i as int].frame_uses(f)
                == p0.refcount(f) + s1.frame_uses(f) by {
                if !r {
                    assert(s1.page_table() == s0.page_table());
                    assert(s1.frame_uses(f) == s0.frame_uses(f));
                    assert(self.phys.refs() == p0.refs());
                }
            }
            lemma_replace(ss, i as int, s1, p0, self.phys, d);
            assert(self.spaces@ =~= ss.remove(i as int).insert(i as int, s1));
            assert forall|k: int| 0 <= k < self.spaces_spec().len() implies (#[trigger] self.spaces_spec()[k]).wf() by {
                if k != i {
                    assert(self.spaces@[k] == ss[k]);
                }
            }
            assert forall|k: int| 0 <= k < ss.len() implies (#[trigger] ss[k]).writes_safe(&p0) by {
                assert(old(self).spaces_spec()[k].writes_safe(&old(self).phys_spec()));
            }
            assert forall|k: int| 0 <= k < ss.len() implies (#[trigger] ss[k]).wf() by {
                assert(old(self).spaces_spec()[k].wf());
            }
            assert forall|f: usize| f != p0.default_page_spec().unwrap() implies #[trigger] p0.refcount(f) == total_uses(ss, ss.len() as int, f) by {
                assert(old(self).phys_spec().refcount(f) == total_uses(ss, ss.len() as int, f));
            }
            Self::lemma_fault_safe(ss, i as int, s1, p0, self.phys, virt, r);
            assert forall|k: int| 0 <= k < self.spaces_spec().len() implies (#[trigger] self.spaces_spec()[k]).writes_safe(&self.phys_spec()) by {
                if k != i {
                    assert(self.spaces@[k] == ss[k]);
                }
            }
        }
        r
    }

    proof fn lemma_fork_safe(ss: Seq<MemSpace>, i: int, s1: MemSpace, child: MemSpace, p0: PhysMem, p1: PhysMem)
        requires
            0 <= i < ss.len(),
            p0.wf(),
            p1.wf(),
            p0.default_page_spec() is Some,
            p1.default_page_spec() == p0.default_page_spec(),
            forall|k: int| 0 <= k < ss.len() ==> (#[trigger] ss[k]).wf(),
            forall|k: int| 0 <= k < ss.len() ==> (#[trigger] ss[k]).writes_safe(&p0),
            forall|f: usize| f != p0.default_page_spec().unwrap() ==> #[trigger] p0.refcount(f) == total_uses(ss, ss.len() as int, f),
            s1.mapping_set() == ss[i].mapping_set(),
            child.mapping_set() == ss[i].mapping_set(),
            forall|v: usize| #[trigger] s1.page_table().contains_key(v) == ss[i].page_table().contains_key(v),
            forall|v: usize| #[trigger] child.page_table().contains_key(v) == ss[i].page_table().contains_key(v),
            forall|f: usize| #[trigger] p1.refcount(f) == forked_count(p0.refcount(f), ss[i].frame_uses(f)),
            forall|m: MemMapping, v: usize|
                #[trigger] ss[i].mapping_set().contains(m) && #[trigger] m.is_page_of(m@.size, v as int) ==> {
                    &&& child.page_table()[v].flags == crate::mem_space::expected_flags(m, child.page_table()[v].phys, &p1, p1.default_page_spec().unwrap())
                    &&& s1.page_table()[v].flags == crate::mem_space::expected_flags(m, s1.page_table()[v].phys, &p1, p1.default_page_spec().unwrap())
                },
        ensures
            s1.writes_safe(&p1),
            child.writes_safe(&p1),
            forall|k: int| 0 <= k < ss.len() && k != i ==> (#[trigger] ss[k]).writes_safe(&p1),
    {
        let d = p0.default_page_spec().unwrap();
        assert forall|k: int| 0 <= k < ss.len() && k != i implies (#[trigger] ss[k]).writes_safe(&p1) by {
            assert(ss[k].writes_safe(&p0));
            assert forall|m: MemMapping, w: usize|
                #[trigger] ss[k].mapping_set().contains(m) && #[trigger] m.is_page_of(m@.size, w as int)
                    && ss[k].page_table().contains_key(w) && writable(ss[k].page_table()[w].flags)
                    && !has_flag(m.flag_bits(), MAPPING_FLAG_SHARED)
                    implies p1.refcount(ss[k].page_table()[w].phys) <= 1 by {
                let f = ss[k].page_table()[w].phys;
                ss[k].lemma_page_use(m, w);
                lemma_total_two(ss, i, k, f);
            }
        }
        assert forall|m: MemMapping, w: usize|
            #[trigger] s1.mapping_set().contains(m) && #[trigger] m.is_page_of(m@.size, w as int)
                && s1.page_table().contains_key(w) && writable(s1.page_table()[w].flags) implies {
                &&& has_flag(m.flag_bits(), MAPPING_FLAG_WRITE)
                &&& p1.default_page_spec() != Some(s1.page_table()[w].phys)
                &&& (p1.refcount(s1.page_table()[w].phys) <= 1 || has_flag(m.flag_bits(), MAPPING_FLAG_SHARED))
            } by {
            let f = s1.page_table()[w].phys;
            crate::mapping::lemma_writable_flags(m.flag_bits(), f != d, f != d && p1.refcount(f) > 1);
        }
        assert forall|m: MemMapping, w: usize|
            #[trigger] child.mapping_set().contains(m) && #[trigger] m.is_page_of(m@.size, w as int)
                && child.page_table().contains_key(w) && writable(child.page_table()[w].flags) implies {
                &&& has_flag(m.flag_bits(), MAPPING_FLAG_WRITE)
                &&& p1.default_page_spec() != Some(child.page_table()[w].phys)
                &&& (p1.refcount(child.page_table()[w].phys) <= 1 || has_flag(m.flag_bits(), MAPPING_FLAG_SHARED))
            } by {
            let f = child.page_table()[w].phys;
            crate::mapping::lemma_writable_flags(m.flag_bits(), f != d, f != d && p1.refcount(f) > 1);
        }
    }

    #[verifier::spinoff_prover]
    proof fn lemma_fault_safe(ss: Seq<MemSpace>, i: int, s1: MemSpace, p0: PhysMem, p1: PhysMem, virt: usize, r: bool)
        requires
            0 <= i < ss.len(),
            p0.wf(),
            p0.default_page_spec() is Some,
            p1.default_page_spec() == p0.default_page_spec(),
            forall|k: int| 0 <= k < ss.len() ==> (#[trigger] ss[k]).wf(),
            forall|k: int| 0 <= k < ss.len() ==> (#[trigger] ss[k]).writes_safe(&p0),
            forall|f: usize| f != p0.default_page_spec().unwrap() ==> #[trigger] p0.refcount(f) == total_uses(ss, ss.len() as int, f),
            s1.mapping_set() == ss[i].mapping_set(),
            !r ==> s1.page_table() == ss[i].page_table() && p1.refs() == p0.refs(),
            r ==> exists|m: MemMapping| {
                &&& #[trigger] ss[i].mapping_set().contains(m)
                &&& m@.contains(virt as int)
                &&& ({
                    let v = (virt - (virt - m@.begin) % PAGE_SIZE as int) as usize;
                    let e = s1.page_table()[v];
                    let d = p0.default_page_spec().unwrap();
                    &&& s1.page_table() == ss[i].page_table().insert(v, e)
                    &&& e.phys != d
                    &&& e.flags == crate::mapping::vmem_flags_spec(m.flag_bits(), true, p1.refcount(e.phys) > 1)
                })
            },
            r ==> forall|f: usize|
                f != p0.default_page_spec().unwrap() ==> #[trigger] p1.refcount(f) + ss[i].leaves(s1, virt, f)
                    == p0.refcount(f) + s1.leaves(ss[i], virt, f),
            r && s1.page_table()[VMem::page_of(virt)].phys != ss[i].page_table()[VMem::page_of(virt)].phys
                ==> p0.refcount(s1.page_table()[VMem::page_of(virt)].phys) == 0,
            p1.wf(),
        ensures
            s1.writes_safe(&p1),
            forall|k: int| 0 <= k < ss.len() && k != i ==> (#[trigger] ss[k]).writes_safe(&p1),
    {
        let d = p0.default_page_spec().unwrap();
        let s0 = ss[i];
        if !r {
            assert forall|k: int| 0 <= k < ss.len() && k != i implies (#[trigger] ss[k]).writes_safe(&p1) by {
                assert(ss[k].writes_safe(&p0));
            }
            assert(s0.writes_safe(&p0));
            return;
        }
        let v = VMem::page_of(virt);
        // a frame that an old page uses and that was not shared is still not shared
        assert forall|k: int, m: MemMapping, w: usize|
            0 <= k < ss.len() && #[trigger] ss[k].mapping_set().contains(m) && #[trigger] m.is_page_of(m@.size, w as int)
                && p0.refcount(ss[k].page_table()[w].phys) <= 1
                implies p1.refcount(ss[k].page_table()[w].phys) <= 1 by {
            let f = ss[k].page_table()[w].phys;
            ss[k].lemma_page_use(m, w);
            lemma_total_member(ss, k, f);
            if f == d {
                if p1.refs().contains_key(d) {
                    assert(p1.allocated_in(d as int, crate::phys::Zone::User));
                    assert(p1.allocated_in(d as int, crate::phys::Zone::Kernel));
                }
            } else {
                assert(p1.refcount(f) + s0.leaves(s1, virt, f) == p0.refcount(f) + s1.leaves(s0, virt, f));
            }
        }
        assert forall|k: int| 0 <= k < ss.len() && k != i implies (#[trigger] ss[k]).writes_safe(&p1) by {
            assert(ss[k].writes_safe(&p0));
        }
        let m0 = choose|m: MemMapping| {
            &&& #[trigger] ss[i].mapping_set().contains(m)
            &&& m@.contains(virt as int)
            &&& ({
                let v = (virt - (virt - m@.begin) % PAGE_SIZE as int) as usize;
                let e = s1.page_table()[v];
                &&& s1.page_table() == ss[i].page_table().insert(v, e)
                &&& e.phys != d
                &&& e.flags == crate::mapping::vmem_flags_spec(m.flag_bits(), true, p1.refcount(e.phys) > 1)
            })
        };
        assert(m0.wf());
        crate::memory::lemma_mod_shift(m0@.begin, virt as int);
        let e = s1.page_table()[v];
        crate::mapping::lemma_writable_flags(m0.flag_bits(), true, p1.refcount(e.phys) > 1);
        assert(s0.writes_safe(&p0));
        assert forall|m: MemMapping, w: usize|
            #[trigger] s1.mapping_set().contains(m) && #[trigger] m.is_page_of(m@.size, w as int)
                && s1.page_table().contains_key(w) && writable(s1.page_table()[w].flags) implies {
                &&& has_flag(m.flag_bits(), MAPPING_FLAG_WRITE)
                &&& p1.default_page_spec() != Some(s1.page_table()[w].phys)
                &&& (p1.refcount(s1.page_table()[w].phys) <= 1 || has_flag(m.flag_bits(), MAPPING_FLAG_SHARED))
            } by {
            if w == v {
                if m != m0 {
                    assert(s0.mapping_set().contains(m0));
                    assert(m@.disjoint(m0@));
                }
            } else {
                assert(s0.mapping_set().contains(m));
                assert(s0.page_table()[w] == s1.page_table()[w]);
                assert(s0.page_table().contains_key(w));
            }
        }
    }

    /// Maps a region of `size` pages for process `i`; see `MemSpace::map`.
    #[verifier::spinoff_prover]
    pub fn map(&mut self, i: usize, hint: Option<usize>, size: usize, flags: u8) -> (r: Result<usize, Errno>)
        requires
            old(self).wf(),
            i < old(self).spaces_spec().len(),
        ensures
            final(self).wf(),
            final(self).spaces_spec().len() == old(self).spaces_spec().len(),
            forall|k: int| 0 <= k < old(self).spaces_spec().len() && k != i ==> #[trigger] final(self).spaces_spec()[k]
                == old(self).spaces_spec()[k],
            map_outcome(old(self).spaces_spec()[i as int], old(self).phys_spec(), final(self).spaces_spec()[i as int], final(self).phys_spec(), hint, size, flags, r),
    {
        let ghost ss = self.spaces@;
        let ghost p0 = self.phys;
        let ghost d = self.phys.default_page_spec().unwrap();
        let mut s = self.spaces.remove(i);
        let ghost s0 = s;
        proof {
            assert(ss[i as int] == s0);
            assert(old(self).spaces_spec()[i as int].wf());
        }
        let r = s.map(hint, size, flags, &mut self.phys);
        let ghost s1 = s;
        assert(map_outcome(s0, p0, s1, self.phys, hint, size, flags, r));
        self.spaces.insert(i, s);
        proof {
            let addr = match r {
                Ok(p) => p,
                Err(_) => 0,
            };
            assert forall|k: int| 0 <= k < ss.len() implies (#[trigger] ss[k]).writes_safe(&p0) by {
                assert(old(self).spaces_spec()[k].writes_safe(&old(self).phys_spec()));
            }
            assert forall|k: int| 0 <= k < ss.len() implies (#[trigger] ss[k]).wf() by {
                assert(old(self).spaces_spec()[k].wf());
            }
            assert forall|f: usize| f != p0.default_page_spec().unwrap() implies #[trigger] p0.refcount(f) == total_uses(ss, ss.len() as int, f) by {
                assert(old(self).phys_spec().refcount(f) == total_uses(ss, ss.len() as int, f));
            }
            Self::lemma_map_safe(ss, i as int, s1, p0, self.phys, r is Ok, addr, size, flags);
        }
        proof {
            assert forall|f: usize| f != d implies #[trigger] self.phys.refcount(f) + ss[i as int].frame_uses(f)
                == p0.refcount(f) + s1.frame_uses(f) by {
                assert(old(self).phys_spec().refcount(f) == total_uses(ss, ss.len() as int, f));
                lemma_total_member(ss, i as int, f);
                if r is Err {
                    assert(s1.page_table() == s0.page_table());
                    assert(s1.mapping_seq() == s0.mapping_seq());
                }
            }
            lemma_replace(ss, i as int, s1, p0, self.phys, d);
            assert(self.spaces@ =~= ss.remove(i as int).insert(i as int, s1));
            assert forall|k: int| 0 <= k < self.spaces_spec().len() implies (#[trigger] self.spaces_spec()[k]).wf() by {
                if k != i {
                    assert(self.spaces@[k] == ss[k]);
                    assert(old(self).spaces_spec()[k].wf());
                }
            }
        }
        r
    }

    /// Unmaps the region of `size` pages at `ptr` for process `i`; see `MemSpace::unmap`.
    #[verifier::spinoff_prover]
    pub fn unmap(&mut self, i: usize, ptr: usize, size: usize) -> (r: Result<(), Errno>)
        requires
            old(self).wf(),
            i < old(self).spaces_spec().len(),
        ensures
            final(self).wf(),
            final(self).spaces_spec().len() == old(self).spaces_spec().len(),
            forall|k: int| 0 <= k < old(self).spaces_spec().len() && k != i ==> #[trigger] final(self).spaces_spec()[k]
                == old(self).spaces_spec()[k],
            unmap_outcome(old(self).spaces_spec()[i as int], old(self).phys_spec(), final(self).spaces_spec()[i as int], final(self).phys_spec(), ptr, size, r),
    {
        let ghost ss = self.spaces@;
        let ghost p0 = self.phys;
        let ghost d = self.phys.default_page_spec().unwrap();
        let mut s = self.spaces.remove(i);
        let ghost s0 = s;
        proof {
            assert(ss[i as int] == s0);
            assert(old(self).spaces_spec()[i as int].wf());
        }
        let r = s.unmap(ptr, size, &mut self.phys);
        let ghost s1 = s;
        assert(unmap_outcome(s0, p0, s1, self.phys, ptr, size, r));
        self.spaces.insert(i, s);
        proof {
            assert forall|k: int| 0 <= k < ss.len() implies (#[trigger] ss[k]).writes_safe(&p0) by {
                assert(old(self).spaces_spec()[k].writes_safe(&old(self).phys_spec()));
            }
            assert forall|k: int| 0 <= k < ss.len() implies (#[trigger] ss[k]).wf() by {
                assert(old(self).spaces_spec()[k].wf());
            }
            assert forall|f: usize| f != p0.default_page_spec().unwrap() implies #[trigger] p0.refcount(f) == total_uses(ss, ss.len() as int, f) by {
                assert(old(self).phys_spec().refcount(f) == total_uses(ss, ss.len() as int, f));
            }
            Self::lemma_unmap_safe(ss, i as int, s1, p0, self.phys, r is Ok, ptr, size);
        }
        proof {
            assert forall|f: usize| f != d implies #[trigger] self.phys.refcount(f) + ss[i as int].frame_uses(f)
                == p0.refcount(f) + s1.frame_uses(f) by {
                assert(old(self).phys_spec().refcount(f) == total_uses(ss, ss.len() as int, f));
                lemma_total_member(ss, i as int, f);
                if r is Err {
                    assert(s1 == s0);
                }
            }
            lemma_replace(ss, i as int, s1, p0, self.phys, d);
            assert(self.spaces@ =~= ss.remove(i as int).insert(i as int, s1));
            assert forall|k: int| 0 <= k < self.spaces_spec().len() implies (#[trigger] self.spaces_spec()[k]).wf() by {
                if k != i {
                    assert(self.spaces@[k] == ss[k]);
                    assert(old(self).spaces_spec()[k].wf());
                }
            }
        }
        r
    }

    /// Writes, as process `i` would, the byte `b` at `virt`; fails with the page fault error
    /// code.
    pub fn write_byte(&mut self, i: usize, virt: usize, b: u8) -> (r: Result<(), u32>)
        requires
            old(self).wf(),
            i < old(self).spaces_spec().len(),
        ensures
            final(self).wf(),
            final(self).spaces_spec().len() == old(self).spaces_spec().len(),
            forall|k: int| 0 <= k < old(self).spaces_spec().len() && k != i ==> #[trigger] final(self).spaces_spec()[k]
                == old(self).spaces_spec()[k],
            write_outcome(old(self).spaces_spec()[i as int], old(self).phys_spec(), final(self).phys_spec(), virt, b, r),
            final(self).spaces_spec() == old(self).spaces_spec(),
    {
        let ghost ss = self.spaces@;
        let ghost p0 = self.phys;
        let ghost d = self.phys.default_page_spec().unwrap();
        let mut s = self.spaces.remove(i);
        let ghost s0 = s;
        proof {
            assert(ss[i as int] == s0);
            assert(old(self).spaces_spec()[i as int].wf());
        }
        let r = s.write_byte(&mut self.phys, virt, b);
        let ghost s1 = s;
        assert(write_outcome(s0, p0, self.phys, virt, b, r));
        self.spaces.insert(i, s);
        proof {
            assert forall|f: usize| f != d implies #[trigger] self.phys.refcount(f) + ss[i as int].frame_uses(f)
                == p0.refcount(f) + s1.frame_uses(f) by {
                assert(old(self).phys_spec().refcount(f) == total_uses(ss, ss.len() as int, f));
                lemma_total_member(ss, i as int, f);
                assert(s1 == s0);
            }
            lemma_replace(ss, i as int, s1, p0, self.phys, d);
            assert(self.spaces@ =~= ss.remove(i as int).insert(i as int, s1));
            assert forall|k: int| 0 <= k < self.spaces_spec().len() implies (#[trigger] self.spaces_spec()[k]).wf() by {
                if k != i {
                    assert(self.spaces@[k] == ss[k]);
                    assert(old(self).spaces_spec()[k].wf());
                }
            }
        }
        r
    }

    /// Reads, as process `i` would, the byte at `virt`; fails with the page fault error code.
    pub fn read_byte(&self, i: usize, virt: usize) -> (r: Result<u8, u32>)
        requires
            self.wf(),
            i < self.spaces_spec().len(),
        ensures
            r == crate::vmem::VMem::read_spec(self.spaces_spec()[i as int].page_table(), &self.phys_spec(), virt),
    {
        self.spaces[i].read_byte(&self.phys, virt)
    }

    /// Makes the page table of process `i` the one the processor uses.
    pub fn bind(&mut self, i: usize)
        requires
            old(self).wf(),
            i < old(self).spaces_spec().len(),
        ensures
            final(self).wf(),
            final(self).spaces_spec() == old(self).spaces_spec(),
            final(self).phys_spec().active_context() == Some(old(self).spaces_spec()[i as int].vmem_id()),
    {
        self.spaces[i].bind(&mut self.phys);
        proof {
            assert forall|f: usize| f != self.phys_spec().default_page_spec().unwrap() implies #[trigger] self.phys_spec().refcount(f)
                == total_uses(self.spaces_spec(), self.spaces_spec().len() as int, f) by {
                assert(old(self).phys_spec().refcount(f) == total_uses(old(self).spaces_spec(), self.spaces_spec().len() as int, f));
            }
        }
    }

    /// Forks process `i`: the sibling's memory space is added last, and its index returned;
    /// see `MemSpace::fork`.
    #[verifier::spinoff_prover]
    pub fn fork(&mut self, i: usize) -> (r: Result<usize, Errno>)
        requires
            old(self).wf(),
            i < old(self).spaces_spec().len(),
        ensures
            final(self).wf(),
            r is Err ==> final(self).spaces_spec().len() == old(self).spaces_spec().len(),
            r matches Ok(c) ==> c == old(self).spaces_spec().len() && final(self).spaces_spec().len() == c + 1,
            forall|k: int| 0 <= k < old(self).spaces_spec().len() && k != i ==> #[trigger] final(self).spaces_spec()[k]
                == old(self).spaces_spec()[k],
            r matches Ok(c) ==> fork_outcome(old(self).spaces_spec()[i as int], old(self).phys_spec(), final(self).spaces_spec()[i as int], final(self).phys_spec(), Ok(final(self).spaces_spec()[c as int])),
            r matches Err(e) ==> fork_outcome(old(self).spaces_spec()[i as int], old(self).phys_spec(), final(self).spaces_spec()[i as int], final(self).phys_spec(), Err(e)),
    {
        let ghost ss = self.spaces@;
        let ghost p0 = self.phys;
        let ghost d = self.phys.default_page_spec().unwrap();
        let mut s = self.spaces.remove(i);
        let ghost s0 = s;
        proof {
            assert(ss[i as int] == s0);
            assert(old(self).spaces_spec()[i as int].wf());
        }
        let res = s.fork(&mut self.phys);
        let ghost s1 = s;
        assert(fork_outcome(s0, p0, s1, self.phys, res));
        self.spaces.insert(i, s);
        let ghost ss1 = self.spaces@;
        let ghost p1 = self.phys;
        proof {
            assert(ss1 =~= ss.remove(i as int).insert(i as int, s1));
            assert forall|f: usize| f != d implies #[trigger] total_uses(ss1, ss.len() as int, f) == total_uses(ss, ss.len() as int, f) by {
                lemma_total_remove(ss, i as int, ss.len() as int, f);
                assert(ss1.remove(i as int) =~= ss.remove(i as int));
                lemma_total_remove(ss1, i as int, ss.len() as int, f);
                assert(ss1[i as int] == s1);
            }
            assert forall|k: int| 0 <= k < ss1.len() implies (#[trigger] ss1[k]).wf() by {
                if k != i {
                    assert(ss1[k] == ss[k]);
                    assert(old(self).spaces_spec()[k].wf());
                }
            }
        }
        match res {
            Ok(child) => {
                let c = self.spaces.len();
                self.spaces.push(child);
                proof {
                    assert forall|f: usize| f != d implies #[trigger] self.phys_spec().refcount(f)
                        == total_uses(self.spaces_spec(), self.spaces_spec().len() as int, f) by {
                        assert(old(self).phys_spec().refcount(f) == total_uses(ss, ss.len() as int, f));
                        lemma_total_member(ss, i as int, f);
                        lemma_total_prefix(self.spaces@, ss1, c as int, f);
                        assert(self.spaces@[c as int] == child);
                        assert(child.frame_uses(f) == s0.frame_uses(f));
                    }
                    assert forall|k: int| 0 <= k < self.spaces_spec().len() implies (#[trigger] self.spaces_spec()[k]).wf() by {
                        if k < c {
                            assert(self.spaces@[k] == ss1[k]);
                        } else {
                            assert(self.spaces@[k] == child);
                        }
                    }
                    assert forall|k: int| 0 <= k < ss.len() implies (#[trigger] ss[k]).writes_safe(&p0) by {
                        assert(old(self).spaces_spec()[k].writes_safe(&old(self).phys_spec()));
                    }
                    assert forall|k: int| 0 <= k < ss.len() implies (#[trigger] ss[k]).wf() by {
                        assert(old(self).spaces_spec()[k].wf());
                    }
                    assert forall|f: usize| f != d implies #[trigger] p0.refcount(f) == total_uses(ss, ss.len() as int, f) by {
                        assert(old(self).phys_spec().refcount(f) == total_uses(ss, ss.len() as int, f));
                    }
                    Self::lemma_fork_safe(ss, i as int, s1, child, p0, p1);
                    assert forall|k: int| 0 <= k < self.spaces_spec().len() implies (#[trigger] self.spaces_spec()[k]).writes_safe(&self.phys_spec()) by {
                        if k < c {
                            assert(self.spaces@[k] == ss1[k]);
                            if k != i {
                                assert(ss1[k] == ss[k]);
                            }
                        } else {
                            assert(self.spaces@[k] == child);
                        }
                    }
                }
                Ok(c)
            },
            Err(e) => {
                proof {
                    assert forall|f: usize| f != d implies #[trigger] self.phys_spec().refcount(f)
                        == total_uses(self.spaces_spec(), self.spaces_spec().len() as int, f) by {
                        assert(old(self).phys_spec().refcount(f) == total_uses(ss, ss.len() as int, f));
                        assert(p1.refs() == p0.refs());
                    }
                }
                Err(e)
            },
        }
    }

    /// Ends process `i`: every mapping of its memory space is unmapped, and the space leaves
    /// the machine, the following ones moving down by one.
    pub fn exit(&mut self, i: usize)
        requires
            old(self).wf(),
            i < old(self).spaces_spec().len(),
        ensures
            final(self).wf(),
            final(self).spaces_spec() == old(self).spaces_spec().remove(i as int),
    {
        let ghost ss = self.spaces@;
        let ghost d = self.phys.default_page_spec().unwrap();
        let mut s = self.spaces.remove(i);
        proof {
            assert(ss[i as int] == s);
            assert(old(self).spaces_spec()[i as int].wf());
        }
        let ghost s0 = s;
        s.unmap_all(&mut self.phys);
        proof {
            assert forall|f: usize| f != d implies #[trigger] self.phys_spec().refcount(f)
                == total_uses(self.spaces_spec(), self.spaces_spec().len() as int, f) by {
                assert(old(self).phys_spec().refcount(f) == total_uses(ss, ss.len() as int, f));
                lemma_total_remove(ss, i as int, ss.len() as int, f);
            }
            assert forall|k: int| 0 <= k < self.spaces_spec().len() implies (#[trigger] self.spaces_spec()[k]).wf() by {
                let j = if k < i { k } else { k + 1 };
                assert(self.spaces@[k] == ss[j]);
                assert(old(self).spaces_spec()[j].wf());
            }
        }
    }

    /// Where no counted frame that an old page uses grows, the write safety of the other
    /// spaces holds with the new counts.
    proof fn lemma_old_pages_safe(ss: Seq<MemSpace>, p0: PhysMem, p1: PhysMem)
        requires
            p0.wf(),
            p1.wf(),
            p0.default_page_spec() is Some,
            p1.default_page_spec() == p0.default_page_spec(),
            forall|k: int| 0 <= k < ss.len() ==> (#[trigger] ss[k]).wf(),
            forall|k: int| 0 <= k < ss.len() ==> (#[trigger] ss[k]).writes_safe(&p0),
            forall|f: usize| f != p0.default_page_spec().unwrap() ==> #[trigger] p0.refcount(f) == total_uses(ss, ss.len() as int, f),
            forall|f: usize| f != p0.default_page_spec().unwrap() && #[trigger] p1.refcount(f) > p0.refcount(f) ==> p0.refcount(f) == 0,
        ensures
            forall|k: int| 0 <= k < ss.len() ==> (#[trigger] ss[k]).writes_safe(&p1),
            forall|k: int, m: MemMapping, w: usize|
                0 <= k < ss.len() && #[trigger] ss[k].mapping_set().contains(m) && #[trigger] m.is_page_of(m@.size, w as int)
                    && ss[k].page_table().contains_key(w)
                    ==> p1.refcount(ss[k].page_table()[w].phys) <= p0.refcount(ss[k].page_table()[w].phys)
                        || ss[k].page_table()[w].phys == p0.default_page_spec().unwrap(),
    {
        let d = p0.default_page_spec().unwrap();
        assert forall|k: int, m: MemMapping, w: usize|
            0 <= k < ss.len() && #[trigger] ss[k].mapping_set().contains(m) && #[trigger] m.is_page_of(m@.size, w as int)
                && ss[k].page_table().contains_key(w)
                implies p1.refcount(ss[k].page_table()[w].phys) <= p0.refcount(ss[k].page_table()[w].phys)
                    || ss[k].page_table()[w].phys == d by {
            let f = ss[k].page_table()[w].phys;
            ss[k].lemma_page_use(m, w);
            lemma_total_member(ss, k, f);
        }
        assert forall|k: int| 0 <= k < ss.len() implies (#[trigger] ss[k]).writes_safe(&p1) by {
            assert(ss[k].writes_safe(&p0));
            assert forall|m: MemMapping, w: usize|
                #[trigger] ss[k].mapping_set().contains(m) && #[trigger] m.is_page_of(m@.size, w as int)
                    && ss[k].page_table().contains_key(w) && writable(ss[k].page_table()[w].flags)
                    && !has_flag(m.flag_bits(), MAPPING_FLAG_SHARED)
                    implies p1.refcount(ss[k].page_table()[w].phys) <= 1 by {
                let f = ss[k].page_table()[w].phys;
                ss[k].lemma_page_use(m, w);
                lemma_total_member(ss, k, f);
            }
        }
    }

    #[verifier::spinoff_prover]
    proof fn lemma_map_safe(ss: Seq<MemSpace>, i: int, s1: MemSpace, p0: PhysMem, p1: PhysMem, ok: bool, p: usize, size: usize, flags: u8)
        requires
            0 <= i < ss.len(),
            p0.wf(),
            p1.wf(),
            p0.default_page_spec() is Some,
            p1.default_page_spec() == p0.default_page_spec(),
            forall|k: int| 0 <= k < ss.len() ==> (#[trigger] ss[k]).wf(),
            forall|k: int| 0 <= k < ss.len() ==> (#[trigger] ss[k]).writes_safe(&p0),
            forall|f: usize| f != p0.default_page_spec().unwrap() ==> #[trigger] p0.refcount(f) == total_uses(ss, ss.len() as int, f),
            s1.wf(),
            !ok ==> s1.mapping_set() == ss[i].mapping_set() && s1.page_table() == ss[i].page_table()
                && forall|f: usize| f != p0.default_page_spec().unwrap() ==> #[trigger] p1.refcount(f) == p0.refcount(f),
            ok ==> {
                let mm = MemMapping::from_parts(Region { begin: p as int, size: size as int }, flags);
                &&& s1.mapping_set() == ss[i].mapping_set().insert(mm)
                &&& forall|f: usize| f != p0.default_page_spec().unwrap() && #[trigger] p1.refcount(f)
                    > p0.refcount(f) ==> p0.refcount(f) == 0
                &&& forall|v: usize| #[trigger] s1.page_table().contains_key(v) <==> (ss[i].page_table().contains_key(v)
                    || mm.is_page_of(size as int, v as int))
                &&& forall|v: usize| #[trigger] s1.page_table().contains_key(v) && !mm.is_page_of(size as int, v as int)
                    ==> s1.page_table()[v] == ss[i].page_table()[v]
                &&& forall|v: usize| #[trigger] mm.is_page_of(size as int, v as int) ==> s1.page_table()[v].flags
                    == crate::mem_space::expected_flags(mm, s1.page_table()[v].phys, &p1, p0.default_page_spec().unwrap())
            },
        ensures
            s1.writes_safe(&p1),
            forall|k: int| 0 <= k < ss.len() && k != i ==> (#[trigger] ss[k]).writes_safe(&p1),
    {
        let d = p0.default_page_spec().unwrap();
        assert forall|f: usize| f != d && #[trigger] p1.refcount(f) > p0.refcount(f) implies p0.refcount(f) == 0 by {}
        Self::lemma_old_pages_safe(ss, p0, p1);
        let s0 = ss[i];
        assert(s0.writes_safe(&p0));
        if ok {
            let mm = MemMapping::from_parts(Region { begin: p as int, size: size as int }, flags);
            MemMapping::lemma_from_parts(Region { begin: p as int, size: size as int }, flags);
            assert(s1.mapping_set().contains(mm));
            assert forall|m: MemMapping, w: usize|
                #[trigger] s1.mapping_set().contains(m) && #[trigger] m.is_page_of(m@.size, w as int)
                    && s1.page_table().contains_key(w) && writable(s1.page_table()[w].flags) implies {
                    &&& has_flag(m.flag_bits(), MAPPING_FLAG_WRITE)
                    &&& p1.default_page_spec() != Some(s1.page_table()[w].phys)
                    &&& (p1.refcount(s1.page_table()[w].phys) <= 1 || has_flag(m.flag_bits(), MAPPING_FLAG_SHARED))
                } by {
                if m == mm {
                    let f = s1.page_table()[w].phys;
                    crate::mapping::lemma_writable_flags(m.flag_bits(), f != d, f != d && p1.refcount(f) > 1);
                } else {
                    assert(s0.mapping_set().contains(m));
                    assert(m@.disjoint(mm@));
                    assert(!mm.is_page_of(size as int, w as int));
                    assert(s1.page_table()[w] == s0.page_table()[w]);
                    assert(s0.page_table().contains_key(w));
                }
            }
        }
    }

    #[verifier::spinoff_prover]
    proof fn lemma_unmap_safe(ss: Seq<MemSpace>, i: int, s1: MemSpace, p0: PhysMem, p1: PhysMem, ok: bool, ptr: usize, size: usize)
        requires
            0 <= i < ss.len(),
            p0.wf(),
            p1.wf(),
            p0.default_page_spec() is Some,
            p1.default_page_spec() == p0.default_page_spec(),
            forall|k: int| 0 <= k < ss.len() ==> (#[trigger] ss[k]).wf(),
            forall|k: int| 0 <= k < ss.len() ==> (#[trigger] ss[k]).writes_safe(&p0),
            forall|f: usize| f != p0.default_page_spec().unwrap() ==> #[trigger] p0.refcount(f) == total_uses(ss, ss.len() as int, f),
            s1.wf(),
            !ok ==> s1 == ss[i] && p1 == p0,
            ok ==> {
                &&& forall|v: usize| #[trigger] s1.page_table().contains_key(v) <==> (ss[i].page_table().contains_key(v)
                    && !(ptr <= v < page_addr(ptr as int, size as int)))
                &&& forall|v: usize| #[trigger] s1.page_table().contains_key(v) ==> s1.page_table()[v] == ss[i].page_table()[v]
                &&& forall|c: int, o: MemMapping|
                    ptr <= c < page_addr(ptr as int, size as int) && #[trigger] s1.mapping_set().contains(o) ==> !(#[trigger] o@.contains(c))
                &&& forall|c: int, fl: u8|
                    !(ptr <= c < page_addr(ptr as int, size as int)) ==> (#[trigger] mapped_with(&s1, c, fl) <==> mapped_with(&ss[i], c, fl))
                &&& forall|f: usize|
                    f != p0.default_page_spec().unwrap() && p0.refcount(f) >= ss[i].frame_uses(f)
                        ==> #[trigger] p1.refcount(f) + ss[i].frame_uses(f) == p0.refcount(f) + s1.frame_uses(f)
                &&& forall|f: usize| #[trigger] s1.frame_uses(f) <= ss[i].frame_uses(f)
            },
        ensures
            s1.writes_safe(&p1),
            forall|k: int| 0 <= k < ss.len() && k != i ==> (#[trigger] ss[k]).writes_safe(&p1),
    {
        let d = p0.default_page_spec().unwrap();
        let s0 = ss[i];
        assert(s0.writes_safe(&p0));
        if !ok {
            assert forall|k: int| 0 <= k < ss.len() && k != i implies (#[trigger] ss[k]).writes_safe(&p1) by {
                assert(ss[k].writes_safe(&p0));
            }
            return;
        }
        assert forall|f: usize| f != d && #[trigger] p1.refcount(f) > p0.refcount(f) implies p0.refcount(f) == 0 by {
            lemma_total_member(ss, i, f);
            assert(s1.frame_uses(f) <= s0.frame_uses(f));
        }
        Self::lemma_old_pages_safe(ss, p0, p1);
        assert forall|m: MemMapping, w: usize|
            #[trigger] s1.mapping_set().contains(m) && #[trigger] m.is_page_of(m@.size, w as int)
                && s1.page_table().contains_key(w) && writable(s1.page_table()[w].flags) implies {
                &&& has_flag(m.flag_bits(), MAPPING_FLAG_WRITE)
                &&& p1.default_page_spec() != Some(s1.page_table()[w].phys)
                &&& (p1.refcount(s1.page_table()[w].phys) <= 1 || has_flag(m.flag_bits(), MAPPING_FLAG_SHARED))
            } by {
            assert(m@.contains(w as int));
            assert(!(ptr <= w < page_addr(ptr as int, size as int)));
            assert(mapped_with(&s1, w as int, m.flag_bits()));
            assert(mapped_with(&s0, w as int, m.flag_bits()));
            let m0 = choose|o: MemMapping| #[trigger] s0.mapping_set().contains(o) && o@.contains(w as int) && o.flag_bits() == m.flag_bits();
            assert(s1.wf());
            assert(m.wf());
            assert(s0.wf());
            assert(m0.wf());
            crate::memory::lemma_offset_aligned(m@.begin, w as int);
            crate::memory::lemma_offset_aligned(m0@.begin, w as int);
            assert(m0.is_page_of(m0@.size, w as int));
            assert(s0.page_table().contains_key(w));
        }
    }

    /// On a machine, the count of every frame but the default page equals the number of
    /// pages, over all live memory spaces, that translate to it; and a page is writable only
    /// in a `WRITE` mapping, translating to a frame other than the default page that no other
    /// page shares unless the mapping is `SHARED`.
    pub proof fn lemma_counts_and_writes(&self)
        requires
            self.wf(),
        ensures
            forall|f: usize|
                f != self.phys_spec().default_page_spec().unwrap() ==> #[trigger] self.phys_spec().refcount(f)
                    == total_uses(self.spaces_spec(), self.spaces_spec().len() as int, f),
            forall|k: int, m: MemMapping, v: usize|
                0 <= k < self.spaces_spec().len() && #[trigger] self.spaces_spec()[k].mapping_set().contains(m)
                    && #[trigger] m.is_page_of(m@.size, v as int) && self.spaces_spec()[k].page_table().contains_key(v)
                    && writable(self.spaces_spec()[k].page_table()[v].flags) ==> {
                    &&& has_flag(m.flag_bits(), MAPPING_FLAG_WRITE)
                    &&& self.phys_spec().default_page_spec() != Some(self.spaces_spec()[k].page_table()[v].phys)
                    &&& (self.phys_spec().refcount(self.spaces_spec()[k].page_table()[v].phys) == 1 || has_flag(
                        m.flag_bits(),
                        MAPPING_FLAG_SHARED,
                    ))
                },
    {
        assert forall|k: int, m: MemMapping, v: usize|
            0 <= k < self.spaces_spec().len() && #[trigger] self.spaces_spec()[k].mapping_set().contains(m)
                && #[trigger] m.is_page_of(m@.size, v as int) && self.spaces_spec()[k].page_table().contains_key(v)
                && writable(self.spaces_spec()[k].page_table()[v].flags) implies {
                &&& has_flag(m.flag_bits(), MAPPING_FLAG_WRITE)
                &&& self.phys_spec().default_page_spec() != Some(self.spaces_spec()[k].page_table()[v].phys)
                &&& (self.phys_spec().refcount(self.spaces_spec()[k].page_table()[v].phys) == 1 || has_flag(
                    m.flag_bits(),
                    MAPPING_FLAG_SHARED,
                ))
            } by {
            let ss = self.spaces_spec();
            assert(ss[k].wf());
            assert(ss[k].writes_safe(&self.phys_spec()));
            let f = ss[k].page_table()[v].phys;
            ss[k].lemma_page_use(m, v);
            lemma_total_member(ss, k, f);
        }
    }
}

} // verus!
