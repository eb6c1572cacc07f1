//! A mapping is a region of the virtual memory reserved by a process, and the operations
//! that keep its page translations: lazy allocation, copy on write, sharing on fork.
use vstd::prelude::*;

use crate::errno::Errno;
use crate::memory::{
    has_flag, is_page_aligned, page_addr, Region, MAPPING_FLAG_NOLAZY, MAPPING_FLAG_SHARED,
    MAPPING_FLAG_USER, MAPPING_FLAG_WRITE, PAGE_SIZE, VMEM_FLAG_USER, VMEM_FLAG_WRITE,
};
use crate::phys::{frame_index, zero_page, PhysMem, Zone};
use crate::mapping_registry::MappingRegistry;
use crate::vmem::{PageEntry, VMem};

verus! {

/// The page table flags of a page of a mapping with the flags `flags`: user access follows
/// `USER`; writing is allowed where the mapping has `WRITE`, the page is allocated, and its
/// frame is not waiting for copy on write (shared with a mapping without `SHARED`).
pub open spec fn vmem_flags_spec(flags: u8, allocated: bool, shared: bool) -> u32 {
    let w = has_flag(flags, MAPPING_FLAG_WRITE) && allocated && !(shared && !has_flag(
        flags,
        MAPPING_FLAG_SHARED,
    ));
    let u = has_flag(flags, MAPPING_FLAG_USER);
    if w && u {
        VMEM_FLAG_WRITE | VMEM_FLAG_USER
    } else if w {
        VMEM_FLAG_WRITE
    } else if u {
        VMEM_FLAG_USER
    } else {
        0
    }
}

/// In a mapping with `WRITE`, an allocated page is writable exactly when its frame is not
/// shared or the mapping is `SHARED`; a page translated to the default page never is.
pub proof fn lemma_write_bit(flags: u8, allocated: bool, shared: bool)
    requires
        has_flag(flags, MAPPING_FLAG_WRITE),
    ensures
        crate::vmem::writable(vmem_flags_spec(flags, allocated, shared)) <==> (allocated && (!shared
            || has_flag(flags, MAPPING_FLAG_SHARED))),
{
    assert((VMEM_FLAG_WRITE | VMEM_FLAG_USER) & VMEM_FLAG_WRITE != 0) by (bit_vector);
    assert(VMEM_FLAG_USER & VMEM_FLAG_WRITE == 0) by (bit_vector);
    assert(0u32 & VMEM_FLAG_WRITE == 0) by (bit_vector);
    assert(VMEM_FLAG_WRITE & VMEM_FLAG_WRITE != 0) by (bit_vector);
}

/// A page is writable only in a mapping with `WRITE`, once allocated, and where its frame is
/// not waiting for copy on write.
pub proof fn lemma_writable_flags(flags: u8, allocated: bool, shared: bool)
    ensures
        crate::vmem::writable(vmem_flags_spec(flags, allocated, shared)) ==> has_flag(flags, MAPPING_FLAG_WRITE)
            && allocated && (!shared || has_flag(flags, MAPPING_FLAG_SHARED)),
{
    assert(VMEM_FLAG_USER & VMEM_FLAG_WRITE == 0) by (bit_vector);
    assert(0u32 & VMEM_FLAG_WRITE == 0) by (bit_vector);
}

/// The frame that the virtual page `v` translates to, unless it is the default page `d`.
pub open spec fn phys_of(vmem: Map<usize, PageEntry>, d: usize, v: usize) -> Option<usize> {
    if vmem.contains_key(v) && vmem[v].phys != d {
        Some(vmem[v].phys)
    } else {
        None
    }
}

/// `a − b`, or zero where `b` exceeds `a`.
pub open spec fn sat_sub(a: nat, b: nat) -> nat {
    if a >= b {
        (a - b) as nat
    } else {
        0
    }
}

/// A mapping in the memory space.
#[derive(Clone, Copy, Debug, PartialEq, Eq, Structural)]
pub struct MemMapping {
    /// Address on the virtual memory to the beginning of the mapping.
    begin: usize,
    /// The size of the mapping in pages.
    size: usize,
    /// The mapping's flags (`MAPPING_FLAG_*`).
    flags: u8,
}

impl View for MemMapping {
    type V = Region;

    closed spec fn view(&self) -> Region {
        Region { begin: self.begin as int, size: self.size as int }
    }
}

impl MemMapping {
    /// The mapping's flags.
    pub closed spec fn flag_bits(&self) -> u8 {
        self.flags
    }

    /// A mapping of at least one page, page-aligned, whose end is an address.
    pub open spec fn wf(&self) -> bool {
        &&& self@.size >= 1
        &&& is_page_aligned(self@.begin)
        &&& self@.end() <= usize::MAX
        &&& 0 <= self@.begin
    }

    /// The address of page `i` of the mapping.
    pub open spec fn page(&self, i: int) -> int {
        page_addr(self@.begin, i)
    }

    /// Creates a new instance.
    ///
    /// `begin` is the page-aligned address of the beginning of the mapping, `size` its size in
    /// pages (at least one), `flags` its flags.
    pub fn new(begin: usize, size: usize, flags: u8) -> (r: Self)
        requires
            size >= 1,
            is_page_aligned(begin as int),
            page_addr(begin as int, size as int) <= usize::MAX,
        ensures
            r@ == (Region { begin: begin as int, size: size as int }),
            r.flag_bits() == flags,
            r.wf(),
    {
        MemMapping { begin, size, flags }
    }

    /// Returns the address of the beginning of the mapping.
    pub fn get_begin(&self) -> (r: usize)
        ensures
            r as int == self@.begin,
    {
        self.begin
    }

    /// Returns the address of the end of the mapping.
    pub fn get_end(&self) -> (r: usize)
        requires
            self.wf(),
        ensures
            r as int == self@.end(),
    {
        self.begin + self.size * PAGE_SIZE
    }

    /// Returns the size of the mapping in memory pages.
    pub fn get_size(&self) -> (r: usize)
        ensures
            r as int == self@.size,
    {
        self.size
    }

    /// Returns the mapping's flags.
    pub fn get_flags(&self) -> (r: u8)
        ensures
            r == self.flag_bits(),
    {
        self.flags
    }

    /// Tells whether the mapping contains the virtual address `ptr`.
    pub fn contains_ptr(&self, ptr: usize) -> (r: bool)
        requires
            self.wf(),
        ensures
            r == self@.contains(ptr as int),
    {
        ptr >= self.begin && ptr < self.get_end()
    }

    /// Returns the address of page `offset` of the mapping.
    pub fn page_ptr(&self, offset: usize) -> (r: usize)
        requires
            self.wf(),
            offset < self@.size,
        ensures
            r as int == self.page(offset as int),
    {
        self.begin + offset * PAGE_SIZE
    }

    /// Whether the page at address `v` is waiting for copy on write: it translates to a frame
    /// other than the default page `d` that is shared, and the mapping is not `SHARED`.
    pub open spec fn cow_spec(&self, vmem: Map<usize, PageEntry>, phys: &PhysMem, d: usize, v: usize) -> bool {
        &&& phys_of(vmem, d, v) is Some
        &&& phys.refcount(phys_of(vmem, d, v).unwrap()) > 1
        &&& !has_flag(self.flag_bits(), MAPPING_FLAG_SHARED)
    }

    /// Returns the frame page `offset` translates to, unless it is the default page.
    pub fn get_physical_page(&self, offset: usize, vmem: &VMem, phys: &PhysMem) -> (r: Option<usize>)
        requires
            self.wf(),
            offset < self@.size,
            phys.default_page_spec() is Some,
        ensures
            r == phys_of(vmem@, phys.default_page_spec().unwrap(), self.page(offset as int) as usize),
    {
        let v = self.page_ptr(offset);
        let d = phys.default_page_addr().unwrap();
        match vmem.translate(v) {
            Some(p) => if p != d {
                Some(p)
            } else {
                None
            },
            None => None,
        }
    }

    /// Tells whether page `offset` translates to a shared frame.
    pub fn is_shared(&self, offset: usize, vmem: &VMem, phys: &PhysMem) -> (r: bool)
        requires
            self.wf(),
            offset < self@.size,
            phys.default_page_spec() is Some,
        ensures
            r == (phys_of(vmem@, phys.default_page_spec().unwrap(), self.page(offset as int) as usize) matches Some(f)
                && phys.refcount(f) > 1),
    {
        match self.get_physical_page(offset, vmem, phys) {
            Some(f) => phys.is_shared(f),
            None => false,
        }
    }

    /// Tells whether page `offset` is waiting for copy on write.
    pub fn is_cow(&self, offset: usize, vmem: &VMem, phys: &PhysMem) -> (r: bool)
        requires
            self.wf(),
            offset < self@.size,
            phys.default_page_spec() is Some,
        ensures
            r == self.cow_spec(vmem@, phys, phys.default_page_spec().unwrap(), self.page(offset as int) as usize),
    {
        self.is_shared(offset, vmem, phys) && self.flags & MAPPING_FLAG_SHARED == 0
    }

    /// Returns the page table flags for page `offset`; `allocated` tells whether the page has
    /// been given a frame of its own.
    fn get_vmem_flags(&self, allocated: bool, offset: usize, vmem: &VMem, phys: &PhysMem) -> (r: u32)
        requires
            self.wf(),
            offset < self@.size,
            phys.default_page_spec() is Some,
        ensures
            r == vmem_flags_spec(
                self.flag_bits(),
                allocated,
                phys_of(vmem@, phys.default_page_spec().unwrap(), self.page(offset as int) as usize) matches Some(f)
                    && phys.refcount(f) > 1,
            ),
    {
        let shared = self.is_shared(offset, vmem, phys);
        Self::flags_for(self.flags, allocated, shared)
    }

    /// Returns the page table flags for a page of a mapping with the flags `flags`.
    fn flags_for(flags: u8, allocated: bool, shared: bool) -> (r: u32)
        ensures
            r == vmem_flags_spec(flags, allocated, shared),
    {
        let w = flags & MAPPING_FLAG_WRITE != 0 && allocated && !(shared && flags & MAPPING_FLAG_SHARED
            == 0);
        let u = flags & MAPPING_FLAG_USER != 0;
        if w && u {
            VMEM_FLAG_WRITE | VMEM_FLAG_USER
        } else if w {
            VMEM_FLAG_WRITE
        } else if u {
            VMEM_FLAG_USER
        } else {
            0
        }
    }

    /// Resolves a fault on page `offset`: gives the page a frame of its own where it has
    /// none.
    ///
    /// A page translated to the default page gets a new zero-filled frame. A page waiting
    /// for copy on write gets a new frame holding a copy of the shared one, whose count
    /// drops by one. In both cases the new frame is counted once and mapped writable if the
    /// mapping has `WRITE`. A page that already owns its frame keeps it: only its flags are
    /// set again. Fails with `OutOfMemory`, changing nothing, where a frame is needed and
    /// none is free.
    pub fn map(&self, offset: usize, vmem: &mut VMem, phys: &mut PhysMem) -> (r: Result<(), Errno>)
        requires
            self.wf(),
            offset < self@.size,
            old(phys).wf(),
            old(phys).default_page_spec() is Some,
            old(vmem)@.contains_key(self.page(offset as int) as usize),
        ensures
            final(phys).wf(),
            final(phys).default_page_spec() == old(phys).default_page_spec(),
            ({
                let v = self.page(offset as int) as usize;
                let d = old(phys).default_page_spec().unwrap();
                let e = old(vmem)@[v];
                let cow = self.cow_spec(old(vmem)@, old(phys), d, v);
                if e.phys != d && !cow {
                    &&& r is Ok
                    &&& final(phys).same_memory(old(phys))
                    &&& final(vmem)@ == old(vmem)@.insert(v, PageEntry {
                        phys: e.phys,
                        flags: vmem_flags_spec(self.flag_bits(), true, old(phys).refcount(e.phys) > 1),
                    })
                    &&& final(vmem).flushed()
                } else {
                    &&& r is Err <==> forall|k: int|
                        0 <= k < old(phys).frames().len() ==> #[trigger] old(phys).frames()[k] is Some
                    &&& r is Err ==> r == Err::<(), Errno>(Errno::OutOfMemory)
                        && final(phys).same_memory(old(phys)) && final(vmem)@ == old(vmem)@
                    &&& r is Ok ==> {
                        let n = final(vmem)@[v].phys;
                        &&& final(vmem)@ == old(vmem)@.insert(v, PageEntry {
                            phys: n,
                            flags: vmem_flags_spec(self.flag_bits(), true, false),
                        })
                        &&& final(vmem).flushed()
                        &&& old(phys).is_frame(n as int)
                        &&& old(phys).frames()[frame_index(n as int)] is None
                        &&& final(phys).frames() == old(phys).frames().update(
                            frame_index(n as int),
                            Some(Zone::User),
                        )
                        &&& final(phys).pages() == old(phys).pages().update(
                            frame_index(n as int),
                            if cow { old(phys).page(e.phys as int) } else { zero_page() },
                        )
                        &&& final(phys).refs() == if cow {
                            old(phys).refs().insert(n, 1).insert(
                                e.phys,
                                (old(phys).refcount(e.phys) - 1) as usize,
                            )
                        } else {
                            old(phys).refs().insert(n, 1)
                        }
                    }
                }
            }),
    {
        let v = self.page_ptr(offset);
        let e = match vmem.entry(v) {
            Some(e) => e,
            None => {
                return Ok(());
            },
        };
        let d = match phys.default_page_addr() {
            Some(d) => d,
            None => {
                return Ok(());
            },
        };
        let allocated = e.phys != d;
        let shared = allocated && phys.is_shared(e.phys);
        let cow = shared && self.flags & MAPPING_FLAG_SHARED == 0;
        if allocated && !cow {
            let flags = Self::flags_for(self.flags, true, shared);
            vmem.map(e.phys, v, flags);
            vmem.flush();
            return Ok(());
        }
        let ghost p0 = *phys;
        let n = phys.alloc_frame(Zone::User)?;
        proof {
            if cow {
                assert(p0.refs().contains_key(e.phys));
            }
        }
        if cow {
            phys.copy_frame(e.phys, n);
        } else {
            phys.zero_frame(n);
        }
        proof {
            if p0.refs().contains_key(n) {
                assert(p0.allocated_in(n as int, Zone::User));
            }
            assert(phys.refcount(n) == 0);
        }
        match phys.ref_increment(n) {
            Ok(()) => {},
            Err(err) => {
                proof {
                    assert(false);
                }
                return Err(err);
            },
        }
        let flags = Self::flags_for(self.flags, true, false);
        vmem.map(n, v, flags);
        if cow {
            let _ = phys.ref_decrement(e.phys);
        }
        vmem.flush();
        Ok(())
    }

    /// Whether `v` is the address of one of the first `n` pages of the mapping.
    pub open spec fn is_page_of(&self, n: int, v: int) -> bool {
        &&& self@.begin <= v < page_addr(self@.begin, n)
        &&& (v - self@.begin) % PAGE_SIZE as int == 0
    }

    /// The number of the first `n` pages of the mapping that translate to frame `f`.
    pub open spec fn uses(&self, vmem: Map<usize, PageEntry>, n: int, f: usize) -> nat
        decreases n,
    {
        if n <= 0 {
            0
        } else {
            self.uses(vmem, n - 1, f) + if vmem.contains_key(self.page(n - 1) as usize)
                && vmem[self.page(n - 1) as usize].phys == f {
                1nat
            } else {
                0nat
            }
        }
    }

    /// The page table entries that map every page of the mapping to the default page `d`.
    pub open spec fn default_entries(&self, d: usize) -> Map<usize, PageEntry> {
        Map::new(
            |v: usize| self.is_page_of(self@.size, v as int),
            |v: usize| PageEntry { phys: d, flags: vmem_flags_spec(self.flag_bits(), false, false) },
        )
    }

    /// The set of the addresses of the pages of the mapping.
    pub open spec fn page_set(&self) -> Set<usize> {
        Set::new(|v: usize| self.is_page_of(self@.size, v as int))
    }

    /// Page `i` of the mapping is one of its first `n` pages, an address, and no other page.
    pub proof fn lemma_page_of(&self, n: int, i: int)
        requires
            self.wf(),
            0 <= i < n <= self@.size,
        ensures
            self.is_page_of(n, self.page(i)),
            0 <= self.page(i) <= usize::MAX,
            self@.contains(self.page(i)),
            forall|j: int| 0 <= j < self@.size && j != i ==> #[trigger] self.page(j) != self.page(i),
    {
        assert((i * PAGE_SIZE as int) % PAGE_SIZE as int == 0) by (nonlinear_arith);
    }

    /// The first `i + 1` pages are the first `i` pages and page `i`.
    pub proof fn lemma_page_of_step(&self, i: int, v: int)
        requires
            self.wf(),
            0 <= i < self@.size,
        ensures
            self.is_page_of(i + 1, v) <==> (self.is_page_of(i, v) || v == self.page(i)),
    {
        if v == self.page(i) {
            self.lemma_page_of(i + 1, i);
        }
        if self.is_page_of(i + 1, v) && !self.is_page_of(i, v) {
            let q = (v - self@.begin) / PAGE_SIZE as int;
            assert(v == self@.begin + q * PAGE_SIZE as int);
        }
    }

    /// Updates the page table entry of page `offset`, if it has one, to the flags that its
    /// state calls for.
    pub fn update_vmem(&self, offset: usize, vmem: &mut VMem, phys: &PhysMem)
        requires
            self.wf(),
            offset < self@.size,
            phys.default_page_spec() is Some,
        ensures
            ({
                let v = self.page(offset as int) as usize;
                let d = phys.default_page_spec().unwrap();
                if old(vmem)@.contains_key(v) {
                    let e = old(vmem)@[v];
                    &&& final(vmem)@ == old(vmem)@.insert(v, PageEntry {
                        phys: e.phys,
                        flags: vmem_flags_spec(
                            self.flag_bits(),
                            e.phys != d,
                            e.phys != d && phys.refcount(e.phys) > 1,
                        ),
                    })
                    &&& final(vmem).flushed()
                } else {
                    final(vmem)@ == old(vmem)@
                }
            }),
    {
        let v = self.page_ptr(offset);
        let p = match vmem.translate(v) {
            Some(p) => p,
            None => return ,
        };
        let d = phys.default_page_addr().unwrap();
        let allocated = p != d;
        let flags = self.get_vmem_flags(allocated, offset, vmem, phys);
        vmem.map(p, v, flags);
        vmem.flush();
    }

    /// Maps every page of the mapping, none of which is in the page table yet, to the default
    /// page, read-only. A `NOLAZY` mapping then gives each page a zero-filled frame of its
    /// own right away; where that fails, every page is unmapped again and `OutOfMemory` is
    /// returned.
    #[verifier::spinoff_prover]
    #[verifier::rlimit(100)]
    pub fn map_default(&self, vmem: &mut VMem, phys: &mut PhysMem) -> (r: Result<(), Errno>)
        requires
            self.wf(),
            old(phys).wf(),
            old(phys).default_page_spec() is Some,
            forall|v: usize| self.is_page_of(self@.size, v as int) ==> !#[trigger] old(vmem)@.contains_key(v),
        ensures
            final(phys).wf(),
            final(phys).default_page_spec() == old(phys).default_page_spec(),
            final(vmem).flushed(),
            !has_flag(self.flag_bits(), MAPPING_FLAG_NOLAZY) ==> r is Ok && final(phys).same_memory(old(phys))
                && final(vmem)@ == old(vmem)@.union_prefer_right(
                self.default_entries(old(phys).default_page_spec().unwrap()),
            ),
            r is Ok ==> forall|v: usize| #[trigger] final(vmem)@.contains_key(v) <==> (old(vmem)@.contains_key(v)
                || self.is_page_of(self@.size, v as int)),
            r is Ok ==> forall|v: usize| #[trigger] final(vmem)@.contains_key(v) && !self.is_page_of(self@.size, v as int)
                ==> final(vmem)@[v] == old(vmem)@[v],
            has_flag(self.flag_bits(), MAPPING_FLAG_NOLAZY) && old(phys).free_frames() >= self@.size ==> r is Ok,
            has_flag(self.flag_bits(), MAPPING_FLAG_NOLAZY) && r is Ok ==> forall|v: usize|
                self.is_page_of(self@.size, v as int) ==> #[trigger] phys_of(
                    final(vmem)@,
                    old(phys).default_page_spec().unwrap(),
                    v,
                ) is Some,
            has_flag(self.flag_bits(), MAPPING_FLAG_NOLAZY) && r is Ok ==> forall|f: usize|
                f != old(phys).default_page_spec().unwrap() ==> #[trigger] final(phys).refcount(f)
                    == old(phys).refcount(f) + self.uses(final(vmem)@, self@.size, f),
            has_flag(self.flag_bits(), MAPPING_FLAG_NOLAZY) && r is Ok ==> forall|v: usize|
                #[trigger] self.is_page_of(self@.size, v as int) ==> {
                    &&& final(vmem)@[v].flags == vmem_flags_spec(
                        self.flag_bits(),
                        final(vmem)@[v].phys != old(phys).default_page_spec().unwrap(),
                        final(vmem)@[v].phys != old(phys).default_page_spec().unwrap() && final(phys).refcount(final(vmem)@[v].phys) > 1,
                    )
                    &&& old(phys).refcount(final(vmem)@[v].phys) == 0
                },
            r is Err ==> final(vmem)@ == old(vmem)@ && r == Err::<(), Errno>(Errno::OutOfMemory),
            r is Err ==> forall|f: usize|
                f != old(phys).default_page_spec().unwrap() ==> #[trigger] final(phys).refcount(f) == old(phys).refcount(f),
            has_flag(self.flag_bits(), MAPPING_FLAG_NOLAZY) && r is Ok ==> forall|v: usize|
                #[trigger] self.is_page_of(self@.size, v as int) ==> {
                    &&& old(phys).is_frame(final(vmem)@[v].phys as int)
                    &&& old(phys).frames()[frame_index(final(vmem)@[v].phys as int)] is None
                    &&& final(phys).refcount(final(vmem)@[v].phys) == 1
                },
            has_flag(self.flag_bits(), MAPPING_FLAG_NOLAZY) && r is Ok ==> forall|v1: usize, v2: usize|
                #[trigger] self.is_page_of(self@.size, v1 as int) && #[trigger] self.is_page_of(self@.size, v2 as int) && v1 != v2
                    ==> final(vmem)@[v1].phys != final(vmem)@[v2].phys,
            r is Err ==> final(phys).frames() == old(phys).frames(),
    {
        let d = phys.default_page_addr().unwrap();
        let flags = Self::flags_for(self.flags, false, false);
        let ghost dm = self.default_entries(d);
        let mut i: usize = 0;
        while i < self.size
            invariant
                self.wf(),
                i <= self@.size,
                phys.default_page_spec() == Some(d),
                flags == vmem_flags_spec(self.flag_bits(), false, false),
                dm == self.default_entries(d),
                *phys == *old(phys),
                forall|v: usize| #[trigger] vmem@.contains_key(v) <==> (old(vmem)@.contains_key(v) || self.is_page_of(i as int, v as int)),
                forall|v: usize| #[trigger] vmem@.contains_key(v) ==> vmem@[v] == if self.is_page_of(i as int, v as int) { dm[v] } else { old(vmem)@[v] },
            decreases self@.size - i,
        {
            let v = self.page_ptr(i);
            proof {
                self.lemma_page_of(i as int + 1, i as int);
            }
            vmem.map(d, v, flags);
            proof {
                assert forall|w: usize| #[trigger] vmem@.contains_key(w) <==> (old(vmem)@.contains_key(w) || self.is_page_of(i as int + 1, w as int)) by {
                    self.lemma_page_of_step(i as int, w as int);
                }
                assert forall|w: usize| #[trigger] vmem@.contains_key(w) implies vmem@[w] == if self.is_page_of(i as int + 1, w as int) { dm[w] } else { old(vmem)@[w] } by {
                    self.lemma_page_of_step(i as int, w as int);
                    self.lemma_page_of(self@.size, i as int);
                }
            }
            i = i + 1;
        }
        vmem.flush();
        proof {
            assert(vmem@ =~= old(vmem)@.union_prefer_right(dm));
        }
        if self.flags & MAPPING_FLAG_NOLAZY == 0 {
            return Ok(());
        }
        let mut j: usize = 0;
        while j < self.size
            invariant
                self.wf(),
                j <= self@.size,
                phys.wf(),
                phys.default_page_spec() == Some(d),
                old(phys).default_page_spec() == Some(d),
                vmem.flushed(),
                has_flag(self.flag_bits(), MAPPING_FLAG_NOLAZY),
                old(phys).free_frames() >= self@.size ==> phys.free_frames() + j >= self@.size,
                phys.frames().len() == old(phys).frames().len(),
                forall|v: usize| self.is_page_of(self@.size, v as int) && !self.is_page_of(j as int, v as int) ==> #[trigger] vmem@[v].phys == d,
                forall|v: usize| self.is_page_of(self@.size, v as int) ==> !#[trigger] old(vmem)@.contains_key(v),
                forall|v: usize| #[trigger] vmem@.contains_key(v) <==> (old(vmem)@.contains_key(v) || self.is_page_of(self@.size, v as int)),
                forall|v: usize| self.is_page_of(j as int, v as int) ==> #[trigger] phys_of(vmem@, d, v) is Some,
                forall|v: usize| #[trigger] vmem@.contains_key(v) && !self.is_page_of(self@.size, v as int) ==> vmem@[v] == old(vmem)@[v],
                forall|f: usize| f != d ==> #[trigger] phys.refcount(f) == old(phys).refcount(f) + self.uses(vmem@, j as int, f),
                forall|v: usize| self.is_page_of(j as int, v as int) ==> #[trigger] old(phys).refcount(vmem@[v].phys) == 0,
                forall|v: usize| #[trigger] self.is_page_of(j as int, v as int) ==> {
                    &&& old(phys).is_frame(vmem@[v].phys as int)
                    &&& old(phys).frames()[frame_index(vmem@[v].phys as int)] is None
                    &&& phys.frames()[frame_index(vmem@[v].phys as int)] == Some(Zone::User)
                    &&& phys.refcount(vmem@[v].phys) == 1
                },
                forall|v1: usize, v2: usize|
                    #[trigger] self.is_page_of(j as int, v1 as int) && #[trigger] self.is_page_of(j as int, v2 as int) && v1 != v2
                        ==> vmem@[v1].phys != vmem@[v2].phys,
                old(phys).wf(),
                forall|q: int| 0 <= q < old(phys).frames().len() && old(phys).frames()[q] is Some ==> #[trigger] phys.frames()[q] == old(phys).frames()[q],
                forall|q: int|
                    0 <= q < old(phys).frames().len() && old(phys).frames()[q] is None && #[trigger] phys.frames()[q] is Some
                        ==> phys.refs().contains_key(crate::phys::frame_addr(q) as usize),
            decreases self@.size - j,
        {
            proof {
                self.lemma_page_of(self@.size, j as int);
            }
            let ghost pj = *phys;
            let ghost vj = vmem@;
            proof {
                let pv = self.page(j as int) as usize;
                assert(!self.is_page_of(j as int, pv as int)) by {
                    if self.is_page_of(j as int, pv as int) {
                        let q = (pv - self@.begin) / PAGE_SIZE as int;
                        assert(pv == self@.begin + q * PAGE_SIZE as int);
                    }
                }
                assert(vj[pv].phys == d);
                if old(phys).free_frames() >= self@.size {
                    assert(pj.free_frames() > 0);
                    crate::phys::lemma_free_count_positive(pj.frames(), pj.frames().len() as int);
                }
            }
            match self.map(j, vmem, phys) {
                Ok(()) => {},
                Err(e) => {
                    let ghost vb = vmem@;
                    let ghost pb = *phys;
                    self.unmap(vmem, phys);
                    proof {
                        assert(vb == vj);
                        let rest = MemMapping::from_parts(Region { begin: self.page(j as int), size: self@.size - j }, self.flags);
                        MemMapping::lemma_from_parts(Region { begin: self.page(j as int), size: self@.size - j }, self.flags);
                        assert forall|f: usize| f != d implies #[trigger] phys.refcount(f) == old(phys).refcount(f) by {
                            self.lemma_uses_split(rest, vj, j as int, self@.size - j, f);
                            assert forall|i: int| 0 <= i < self@.size - j && vj.contains_key(#[trigger] rest.page(i) as usize)
                                implies vj[rest.page(i) as usize].phys != f by {
                                assert(rest.page(i) == self.page(j + i));
                                self.lemma_page_of(self@.size, j + i);
                                let w = self.page(j + i) as usize;
                                assert(!self.is_page_of(j as int, w as int)) by {
                                    if self.is_page_of(j as int, w as int) {
                                        let q = (w - self@.begin) / PAGE_SIZE as int;
                                        assert(w == self@.begin + q * PAGE_SIZE as int);
                                    }
                                }
                            }
                            rest.lemma_uses_none(vj, self@.size - j, f);
                            assert(pb.refcount(f) == pj.refcount(f));
                        }
                        assert forall|q: int| 0 <= q < phys.frames().len() implies phys.frames()[q] == old(phys).frames()[q] by {
                            let f = crate::phys::frame_addr(q) as usize;
                            assert(pb.frames() == pj.frames());
                            assert(pb.refs() == pj.refs());
                            if f == d {
                                if pb.refs().contains_key(f) {
                                    assert(pb.allocated_in(f as int, Zone::User));
                                    assert(pb.allocated_in(d as int, Zone::Kernel));
                                }
                            }
                            if old(phys).frames()[q] is Some {
                                assert(pj.frames()[q] == old(phys).frames()[q]);
                                if phys.frames()[q] != pb.frames()[q] {
                                    assert(pb.refs().contains_key(f));
                                    assert(phys.refcount(f) == old(phys).refcount(f));
                                    assert(pj.refcount(f) == old(phys).refcount(f) + self.uses(vj, j as int, f));
                                    if !(exists|i: int| 0 <= i < j && vj.contains_key(#[trigger] self.page(i) as usize)
                                        && vj[self.page(i) as usize].phys == f) {
                                        self.lemma_uses_none(vj, j as int, f);
                                    }
                                    let i = choose|i: int| 0 <= i < j && vj.contains_key(#[trigger] self.page(i) as usize)
                                        && vj[self.page(i) as usize].phys == f;
                                    self.lemma_page_of(j as int, i);
                                    assert(frame_index(f as int) == q);
                                }
                            } else if pb.frames()[q] is Some {
                                assert(pb.refs().contains_key(f));
                                assert(!old(phys).refs().contains_key(f)) by {
                                    if old(phys).refs().contains_key(f) {
                                        assert(old(phys).allocated_in(f as int, Zone::User));
                                        assert(frame_index(f as int) == q);
                                    }
                                }
                                assert(phys.refcount(f) == old(phys).refcount(f));
                            }
                        }
                        assert(phys.frames() =~= old(phys).frames());
                        assert forall|w: usize| #[trigger] vmem@.contains_key(w) == old(vmem)@.contains_key(w) by {
                            if old(vmem)@.contains_key(w) {
                                assert(!self.is_page_of(self@.size, w as int));
                                assert(vb.contains_key(w));
                                assert(!self.page_set().contains(w));
                            }
                        }
                        assert forall|w: usize| #[trigger] vmem@.contains_key(w) implies vmem@[w] == old(vmem)@[w] by {
                            assert(!self.page_set().contains(w));
                            assert(vb.contains_key(w));
                        }
                        assert(vmem@ =~= old(vmem)@);
                    }
                    return Err(e);
                },
            }
            proof {
                let pv = self.page(j as int) as usize;
                assert(pj.allocated_in(d as int, Zone::Kernel));
                assert(vmem@.contains_key(pv));
                assert(vmem@[pv].phys != d);
                let n = vmem@[pv].phys;
                crate::phys::lemma_free_count_alloc(pj.frames(), frame_index(n as int), Zone::User, pj.frames().len() as int);
                assert(!pj.refs().contains_key(n)) by {
                    if pj.refs().contains_key(n) {
                        assert(pj.allocated_in(n as int, Zone::User));
                    }
                }
                assert forall|f: usize| f != d implies #[trigger] phys.refcount(f) == old(phys).refcount(f) + self.uses(vmem@, j as int + 1, f) by {
                    self.lemma_uses_update(vj, pv, vmem@[pv], j as int, f);
                    self.lemma_page_of(self@.size, j as int);
                    assert(vmem@ == vj.insert(pv, vmem@[pv]));
                    assert(pj.refcount(f) == old(phys).refcount(f) + self.uses(vj, j as int, f));
                    if f == n {
                        assert(pj.refcount(n) == 0);
                    }
                }
                assert forall|v: usize| self.is_page_of(self@.size, v as int) && !self.is_page_of(j as int + 1, v as int) implies #[trigger] vmem@[v].phys == d by {
                    self.lemma_page_of_step(j as int, v as int);
                    assert(v != pv);
                }
                assert(vmem@ == vj.insert(pv, vmem@[pv]));
                assert forall|v: usize| self.is_page_of(j as int + 1, v as int) implies #[trigger] phys_of(vmem@, d, v) is Some by {
                    self.lemma_page_of_step(j as int, v as int);
                    if v != pv {
                        assert(self.is_page_of(j as int, v as int));
                        assert(phys_of(vj, d, v) is Some);
                    }
                }
                assert(phys.refcount(n) == old(phys).refcount(n) + self.uses(vmem@, j as int + 1, n));
                assert(pj.refcount(n) == old(phys).refcount(n) + self.uses(vj, j as int, n));
                let kn = frame_index(n as int);
                assert(pj.is_frame(n as int));
                crate::memory::lemma_aligned_diff(crate::phys::FRAME_BASE as int, n as int);
                assert(crate::phys::frame_addr(kn) == n);
                assert(old(phys).frames()[kn] is None) by {
                    if old(phys).frames()[kn] is Some {
                        assert(pj.frames()[kn] == old(phys).frames()[kn]);
                    }
                }
                assert(phys.frames() == pj.frames().update(kn, Some(Zone::User)));
                assert(phys.refs() == pj.refs().insert(n, 1));
                assert forall|v: usize| #[trigger] self.is_page_of(j as int, v as int) implies vj[v].phys != n by {
                    assert(pj.frames()[frame_index(vj[v].phys as int)] == Some(Zone::User));
                }
                assert forall|v: usize| #[trigger] self.is_page_of(j as int + 1, v as int) implies {
                    &&& old(phys).is_frame(vmem@[v].phys as int)
                    &&& old(phys).frames()[frame_index(vmem@[v].phys as int)] is None
                    &&& phys.frames()[frame_index(vmem@[v].phys as int)] == Some(Zone::User)
                    &&& phys.refcount(vmem@[v].phys) == 1
                } by {
                    self.lemma_page_of_step(j as int, v as int);
                    if v != pv {
                        assert(self.is_page_of(j as int, v as int));
                        assert(vmem@[v] == vj[v]);
                        assert(frame_index(vj[v].phys as int) != kn);
                    }
                }
                assert forall|v1: usize, v2: usize|
                    #[trigger] self.is_page_of(j as int + 1, v1 as int) && #[trigger] self.is_page_of(j as int + 1, v2 as int) && v1 != v2
                        implies vmem@[v1].phys != vmem@[v2].phys by {
                    self.lemma_page_of_step(j as int, v1 as int);
                    self.lemma_page_of_step(j as int, v2 as int);
                    if v1 != pv {
                        assert(vmem@[v1] == vj[v1]);
                    }
                    if v2 != pv {
                        assert(vmem@[v2] == vj[v2]);
                    }
                }
                assert forall|q: int|
                    0 <= q < old(phys).frames().len() && old(phys).frames()[q] is None && #[trigger] phys.frames()[q] is Some
                        implies phys.refs().contains_key(crate::phys::frame_addr(q) as usize) by {
                    if q != kn {
                        assert(pj.frames()[q] is Some);
                    }
                }
                assert forall|v: usize| self.is_page_of(j as int + 1, v as int) implies #[trigger] old(phys).refcount(vmem@[v].phys) == 0 by {
                    self.lemma_page_of_step(j as int, v as int);
                    if v != pv {
                        assert(self.is_page_of(j as int, v as int));
                        assert(vmem@[v] == vj[v]);
                    }
                }
            }
            j = j + 1;
        }
        // set the flags again, now that every frame is counted
        let ghost va = vmem@;
        let ghost pa = *phys;
        let mut k: usize = 0;
        while k < self.size
            invariant
                self.wf(),
                k <= self@.size,
                phys.wf(),
                phys.default_page_spec() == Some(d),
                forall|v: usize| #[trigger] vmem@.contains_key(v) == va.contains_key(v),
                forall|v: usize| #[trigger] vmem@.contains_key(v) ==> vmem@[v].phys == va[v].phys,
                forall|v: usize| #[trigger] vmem@.contains_key(v) && !self.is_page_of(self@.size, v as int) ==> vmem@[v] == va[v],
                forall|v: usize| self.is_page_of(self@.size, v as int) ==> #[trigger] va.contains_key(v),
                forall|v: usize| self.is_page_of(self@.size, v as int) ==> #[trigger] old(phys).refcount(va[v].phys) == 0,
                forall|v: usize| self.is_page_of(self@.size, v as int) ==> #[trigger] phys_of(va, d, v) is Some,
                forall|f: usize| f != d ==> #[trigger] phys.refcount(f) == old(phys).refcount(f) + self.uses(va, self@.size as int, f),
                forall|v: usize| #[trigger] self.is_page_of(k as int, v as int) ==> vmem@[v].flags == vmem_flags_spec(
                    self.flag_bits(),
                    vmem@[v].phys != d,
                    vmem@[v].phys != d && phys.refcount(vmem@[v].phys) > 1,
                ),
                k > 0 ==> vmem.flushed(),
                k == 0 ==> vmem@ == va && vmem.flushed(),
                *phys == pa,
                forall|v: usize| #[trigger] self.is_page_of(self@.size, v as int) ==> {
                    &&& old(phys).is_frame(va[v].phys as int)
                    &&& old(phys).frames()[frame_index(va[v].phys as int)] is None
                    &&& pa.refcount(va[v].phys) == 1
                },
                forall|v1: usize, v2: usize|
                    #[trigger] self.is_page_of(self@.size, v1 as int) && #[trigger] self.is_page_of(self@.size, v2 as int) && v1 != v2
                        ==> va[v1].phys != va[v2].phys,
            decreases self@.size - k,
        {
            let ghost vk = vmem@;
            proof {
                self.lemma_page_of(self@.size, k as int);
            }
            self.update_vmem(k, vmem, phys);
            proof {
                let pk = self.page(k as int) as usize;
                assert forall|v: usize| #[trigger] self.is_page_of(k as int + 1, v as int) implies vmem@[v].flags == vmem_flags_spec(
                    self.flag_bits(),
                    vmem@[v].phys != d,
                    vmem@[v].phys != d && phys.refcount(vmem@[v].phys) > 1,
                ) by {
                    self.lemma_page_of_step(k as int, v as int);
                    if v != pk {
                        assert(self.is_page_of(k as int, v as int));
                        assert(vmem@[v] == vk[v]);
                    }
                }
                assert forall|v: usize| #[trigger] vmem@.contains_key(v) && !self.is_page_of(self@.size, v as int) implies vmem@[v] == va[v] by {
                    if v != pk {
                        assert(vmem@[v] == vk[v]);
                    }
                }
            }
            k = k + 1;
        }
        proof {
            assert forall|f: usize| f != d implies #[trigger] phys.refcount(f) == old(phys).refcount(f) + self.uses(vmem@, self@.size as int, f) by {
                self.lemma_uses_frames_only(vmem@, va, self@.size as int, f);
            }
            assert forall|v: usize| self.is_page_of(self@.size, v as int) implies #[trigger] phys_of(vmem@, d, v) is Some by {
                assert(phys_of(va, d, v) is Some);
                assert(va.contains_key(v));
                assert(vmem@.contains_key(v));
                assert(vmem@[v].phys == va[v].phys);
            }
            assert forall|v1: usize, v2: usize|
                #[trigger] self.is_page_of(self@.size, v1 as int) && #[trigger] self.is_page_of(self@.size, v2 as int) && v1 != v2
                    implies vmem@[v1].phys != vmem@[v2].phys by {
                assert(va.contains_key(v1) && va.contains_key(v2));
                assert(vmem@.contains_key(v1) && vmem@.contains_key(v2));
                assert(vmem@[v1].phys == va[v1].phys);
                assert(vmem@[v2].phys == va[v2].phys);
            }
            assert forall|v: usize| #[trigger] self.is_page_of(self@.size, v as int) implies {
                &&& old(phys).is_frame(vmem@[v].phys as int)
                &&& old(phys).frames()[frame_index(vmem@[v].phys as int)] is None
                &&& phys.refcount(vmem@[v].phys) == 1
            } by {
                assert(va.contains_key(v));
                assert(vmem@.contains_key(v));
                assert(vmem@[v].phys == va[v].phys);
            }
            assert forall|v: usize| #[trigger] self.is_page_of(self@.size, v as int) implies old(phys).refcount(vmem@[v].phys) == 0 by {
                assert(old(phys).refcount(va[v].phys) == 0);
                assert(va.contains_key(v));
                assert(vmem@.contains_key(v));
                assert(vmem@[v].phys == va[v].phys);
            }
        }
        Ok(())
    }

    /// Unmaps every page of the mapping. Each page translated to a frame other than the
    /// default page drops one count of that frame, and a frame whose count drops to zero is
    /// returned to the pool.
    #[verifier::spinoff_prover]
    pub fn unmap(&self, vmem: &mut VMem, phys: &mut PhysMem)
        requires
            self.wf(),
            old(phys).wf(),
            old(phys).default_page_spec() is Some,
        ensures
            final(phys).wf(),
            final(phys).default_page_spec() == old(phys).default_page_spec(),
            final(phys).pages() == old(phys).pages(),
            final(vmem).flushed(),
            final(vmem)@ == old(vmem)@.remove_keys(self.page_set()),
            forall|f: usize|
                f != old(phys).default_page_spec().unwrap() ==> #[trigger] final(phys).refcount(f)
                    == sat_sub(old(phys).refcount(f), self.uses(old(vmem)@, self@.size, f)),
            final(phys).frames().len() == old(phys).frames().len(),
            forall|k: int|
                0 <= k < old(phys).frames().len() ==> #[trigger] final(phys).frames()[k] == old(phys).frames()[k]
                    || (final(phys).frames()[k] is None && old(phys).refs().contains_key(crate::phys::frame_addr(k) as usize)
                    && !final(phys).refs().contains_key(crate::phys::frame_addr(k) as usize)),
            forall|k: int|
                0 <= k < old(phys).frames().len() && old(phys).refs().contains_key(crate::phys::frame_addr(k) as usize)
                    && !final(phys).refs().contains_key(crate::phys::frame_addr(k) as usize) ==> #[trigger] final(phys).frames()[k] is None,
    {
        let d = phys.default_page_addr().unwrap();
        let ghost v0 = vmem@;
        let ghost p0 = *phys;
        let mut i: usize = 0;
        while i < self.size
            invariant
                self.wf(),
                i <= self@.size,
                phys.wf(),
                phys.default_page_spec() == Some(d),
                p0.default_page_spec() == Some(d),
                phys.pages() == p0.pages(),
                phys.frames().len() == p0.frames().len(),
                forall|w: usize| #[trigger] vmem@.contains_key(w) <==> (v0.contains_key(w) && !self.is_page_of(i as int, w as int)),
                forall|w: usize| #[trigger] vmem@.contains_key(w) ==> vmem@[w] == v0[w],
                forall|f: usize| f != d ==> #[trigger] phys.refcount(f) == sat_sub(p0.refcount(f), self.uses(v0, i as int, f)),
                forall|k: int|
                    0 <= k < p0.frames().len() ==> #[trigger] phys.frames()[k] == p0.frames()[k]
                        || (phys.frames()[k] is None && p0.refs().contains_key(crate::phys::frame_addr(k) as usize)
                        && !phys.refs().contains_key(crate::phys::frame_addr(k) as usize)),
                forall|k: int|
                    0 <= k < p0.frames().len() && p0.refs().contains_key(crate::phys::frame_addr(k) as usize)
                        && !phys.refs().contains_key(crate::phys::frame_addr(k) as usize) ==> #[trigger] phys.frames()[k] is None,
            decreases self@.size - i,
        {
            let v = self.page_ptr(i);
            proof {
                self.lemma_page_of(self@.size, i as int);
                assert(!self.is_page_of(i as int, v as int)) by {
                    if self.is_page_of(i as int, v as int) {
                        let q = (v - self@.begin) / PAGE_SIZE as int;
                        assert(v == self@.begin + q * PAGE_SIZE as int);
                    }
                }
            }
            let ghost pi = *phys;
            assert(vmem@.contains_key(v) == v0.contains_key(v));
            match vmem.entry(v) {
                Some(e) => {
                    if e.phys != d && phys.refcount_of(e.phys) >= 1 {
                        if phys.ref_decrement(e.phys) {
                            proof {
                                assert(pi.refs().contains_key(e.phys));
                            }
                            phys.free_frame(e.phys);
                        }
                    }
                },
                None => {},
            }
            vmem.unmap(v);
            proof {
                assert forall|w: usize| #[trigger] vmem@.contains_key(w) <==> (v0.contains_key(w) && !self.is_page_of(i as int + 1, w as int)) by {
                    self.lemma_page_of_step(i as int, w as int);
                }
                assert forall|f: usize| f != d implies #[trigger] phys.refcount(f) == sat_sub(p0.refcount(f), self.uses(v0, i as int + 1, f)) by {
                    assert(self.uses(v0, i as int + 1, f) == self.uses(v0, i as int, f) + if v0.contains_key(v) && v0[v].phys == f { 1nat } else { 0nat });
                    assert(pi.refcount(f) == sat_sub(p0.refcount(f), self.uses(v0, i as int, f)));
                    if v0.contains_key(v) && v0[v].phys == f {
                    } else {
                        assert(phys.refs().contains_key(f) == pi.refs().contains_key(f));
                        if pi.refs().contains_key(f) {
                            assert(phys.refs()[f] == pi.refs()[f]);
                        }
                    }
                }
                assert forall|k: int|
                    0 <= k < p0.frames().len() implies #[trigger] phys.frames()[k] == p0.frames()[k]
                        || (phys.frames()[k] is None && p0.refs().contains_key(crate::phys::frame_addr(k) as usize)
                        && !phys.refs().contains_key(crate::phys::frame_addr(k) as usize)) by {
                    if phys.frames()[k] != pi.frames()[k] {
                        assert(pi.refs().contains_key(v0[v].phys));
                        assert(k == frame_index(v0[v].phys as int));
                        assert(crate::phys::frame_addr(k) == v0[v].phys);
                        assert(p0.refcount(v0[v].phys) >= 1);
                    }
                }
            }
            proof {
                assert forall|k: int|
                    0 <= k < p0.frames().len() && p0.refs().contains_key(crate::phys::frame_addr(k) as usize)
                        && !phys.refs().contains_key(crate::phys::frame_addr(k) as usize) implies #[trigger] phys.frames()[k] is None by {
                    let f = crate::phys::frame_addr(k) as usize;
                    if pi.refs().contains_key(f) {
                        assert(pi.allocated_in(f as int, Zone::User));
                        assert(frame_index(f as int) == k);
                    }
                }
            }
            i = i + 1;
        }
        vmem.flush();
        proof {
            assert(vmem@ =~= v0.remove_keys(self.page_set()));
        }
    }

    proof fn lemma_uses_monotonic(&self, vmem: Map<usize, PageEntry>, a: int, b: int, f: usize)
        requires
            0 <= a <= b,
        ensures
            self.uses(vmem, a, f) <= self.uses(vmem, b, f),
        decreases b - a,
    {
        if a < b {
            self.lemma_uses_monotonic(vmem, a, b - 1, f);
        }
    }

    /// Whether every counted frame that the pages of the mapping translate to can take one
    /// more count per such page.
    pub open spec fn fork_fits(&self, vmem: Map<usize, PageEntry>, phys: &PhysMem) -> bool {
        forall|f: usize|
            phys.refcount(f) >= 1 ==> #[trigger] phys.refcount(f) + self.uses(vmem, self@.size, f)
                <= usize::MAX
    }

    /// Clones the mapping for a fork: each page translated to a counted frame adds one count
    /// to that frame, and a twin of the mapping is inserted into `container`. The page tables
    /// of both sides must then be updated with `update_vmem`. Where a count cannot grow, the
    /// counts already added are taken back and `OutOfMemory` is returned.
    #[verifier::spinoff_prover]
    pub fn fork(&self, container: &mut MappingRegistry, vmem: &VMem, phys: &mut PhysMem) -> (r: Result<MemMapping, Errno>)
        requires
            self.wf(),
            old(container).wf(),
            forall|o: MemMapping| #[trigger] old(container)@.contains(o) ==> o@.disjoint(self@),
            old(phys).wf(),
        ensures
            final(phys).wf(),
            final(phys).frames() == old(phys).frames(),
            final(phys).pages() == old(phys).pages(),
            final(phys).default_page_spec() == old(phys).default_page_spec(),
            final(container).wf(),
            r is Ok <==> self.fork_fits(vmem@, old(phys)),
            r is Ok && (forall|i: int| 0 <= i < old(container).seq().len() ==> (#[trigger] old(container).seq()[i])@.begin < self@.begin)
                ==> final(container).seq() == old(container).seq().push(*self),
            r is Ok ==> r == Ok::<MemMapping, Errno>(*self) && final(container)@ == old(container)@.insert(*self)
                && forall|f: usize| #[trigger] final(phys).refcount(f) == if old(phys).refcount(f) >= 1 {
                    old(phys).refcount(f) + self.uses(vmem@, self@.size, f)
                } else {
                    0
                },
            r is Err ==> r == Err::<MemMapping, Errno>(Errno::OutOfMemory) && final(container)@ == old(container)@
                && final(phys).refs() == old(phys).refs(),
    {
        let ghost p0 = *phys;
        let mut i: usize = 0;
        while i < self.size
            invariant
                self.wf(),
                i <= self@.size,
                phys.wf(),
                p0 == *old(phys),
                p0.wf(),
                *container == *old(container),
                container.wf(),
                phys.frames() == p0.frames(),
                phys.pages() == p0.pages(),
                phys.default_page_spec() == p0.default_page_spec(),
                forall|f: usize| #[trigger] phys.refcount(f) == if p0.refcount(f) >= 1 {
                    p0.refcount(f) + self.uses(vmem@, i as int, f)
                } else {
                    0
                },
            decreases self@.size - i,
        {
            let v = self.page_ptr(i);
            let ghost pi = *phys;
            if let Some(f) = vmem.translate(v) {
                if phys.refcount_of(f) >= 1 {
                    proof {
                        assert(pi.refs().contains_key(f));
                    }
                    match phys.ref_increment(f) {
                        Ok(()) => {},
                        Err(_) => {
                            proof {
                                self.lemma_uses_monotonic(vmem@, i as int + 1, self@.size as int, f);
                                assert(self.uses(vmem@, i as int + 1, f) == self.uses(vmem@, i as int, f) + 1);
                                assert(!self.fork_fits(vmem@, &p0));
                                assert(phys.refs() == pi.refs());
                                assert forall|g: usize| #[trigger] phys.refcount(g) == pi.refcount(g) by {}
                            }
                            self.fork_rollback(i, vmem, phys, Ghost(p0));
                            return Err(Errno::OutOfMemory);
                        },
                    }
                }
            }
            proof {
                assert forall|g: usize| #[trigger] phys.refcount(g) == if p0.refcount(g) >= 1 {
                    p0.refcount(g) + self.uses(vmem@, i as int + 1, g)
                } else {
                    0
                } by {
                    assert(self.uses(vmem@, i as int + 1, g) == self.uses(vmem@, i as int, g) + if vmem@.contains_key(v) && vmem@[v].phys == g { 1nat } else { 0nat });
                    assert(pi.refcount(g) == if p0.refcount(g) >= 1 {
                        p0.refcount(g) + self.uses(vmem@, i as int, g)
                    } else {
                        0
                    });
                    if !(vmem@.contains_key(v) && vmem@[v].phys == g) || p0.refcount(g) == 0 {
                        assert(phys.refs().contains_key(g) == pi.refs().contains_key(g));
                        if pi.refs().contains_key(g) {
                            assert(phys.refs()[g] == pi.refs()[g]);
                        }
                    }
                }
            }
            i = i + 1;
        }
        proof {
            assert forall|f: usize| p0.refcount(f) >= 1 implies #[trigger] p0.refcount(f) + self.uses(vmem@, self@.size, f) <= usize::MAX by {
                assert(phys.refcount(f) <= usize::MAX);
            }
        }
        container.insert(*self);
        Ok(*self)
    }

    /// Takes back the counts that `fork` added for the first `n` pages.
    fn fork_rollback(&self, n: usize, vmem: &VMem, phys: &mut PhysMem, Ghost(p0): Ghost<PhysMem>)
        requires
            self.wf(),
            n <= self@.size,
            old(phys).wf(),
            p0.wf(),
            old(phys).frames() == p0.frames(),
            old(phys).pages() == p0.pages(),
            old(phys).default_page_spec() == p0.default_page_spec(),
            forall|f: usize| #[trigger] old(phys).refcount(f) == if p0.refcount(f) >= 1 {
                p0.refcount(f) + self.uses(vmem@, n as int, f)
            } else {
                0
            },
        ensures
            final(phys).wf(),
            final(phys).frames() == p0.frames(),
            final(phys).pages() == p0.pages(),
            final(phys).default_page_spec() == p0.default_page_spec(),
            final(phys).refs() == p0.refs(),
    {
        let mut j: usize = 0;
        while j < n
            invariant
                self.wf(),
                j <= n <= self@.size,
                phys.wf(),
                p0.wf(),
                phys.frames() == p0.frames(),
                phys.pages() == p0.pages(),
                phys.default_page_spec() == p0.default_page_spec(),
                forall|f: usize| #[trigger] phys.refcount(f) == if p0.refcount(f) >= 1 {
                    p0.refcount(f) + self.uses(vmem@, n as int, f) - self.uses(vmem@, j as int, f)
                } else {
                    0
                },
            decreases n - j,
        {
            let v = self.page_ptr(j);
            let ghost pj = *phys;
            if let Some(f) = vmem.translate(v) {
                if phys.refcount_of(f) >= 1 {
                    let _ = phys.ref_decrement(f);
                }
            }
            proof {
                assert forall|g: usize| #[trigger] phys.refcount(g) == if p0.refcount(g) >= 1 {
                    p0.refcount(g) + self.uses(vmem@, n as int, g) - self.uses(vmem@, j as int + 1, g)
                } else {
                    0
                } by {
                    self.lemma_uses_monotonic(vmem@, j as int + 1, n as int, g);
                    assert(self.uses(vmem@, j as int + 1, g) == self.uses(vmem@, j as int, g) + if vmem@.contains_key(v) && vmem@[v].phys == g { 1nat } else { 0nat });
                    assert(pj.refcount(g) == if p0.refcount(g) >= 1 {
                        p0.refcount(g) + self.uses(vmem@, n as int, g) - self.uses(vmem@, j as int, g)
                    } else {
                        0
                    });
                    if vmem@.contains_key(v) && vmem@[v].phys == g && p0.refcount(g) >= 1 {
                        assert(pj.refcount(g) >= 1);
                    }
                    if !(vmem@.contains_key(v) && vmem@[v].phys == g) || pj.refcount(g) == 0 {
                        assert(phys.refs().contains_key(g) == pj.refs().contains_key(g));
                        if pj.refs().contains_key(g) {
                            assert(phys.refs()[g] == pj.refs()[g]);
                        }
                    }
                }
            }
            j = j + 1;
        }
        proof {
            assert forall|f: usize| #[trigger] phys.refs().contains_key(f) == p0.refs().contains_key(f) by {
                assert(phys.refcount(f) == p0.refcount(f));
                if phys.refs().contains_key(f) {
                    assert(phys.refs()[f] >= 1);
                }
                if p0.refs().contains_key(f) {
                    assert(p0.refs()[f] >= 1);
                }
            }
            assert forall|f: usize| #[trigger] phys.refs().contains_key(f) implies phys.refs()[f] == p0.refs()[f] by {
                assert(phys.refcount(f) == p0.refcount(f));
            }
            assert(phys.refs() =~= p0.refs());
        }
    }

    /// The mapping of the region `r` with the flags `flags`.
    pub closed spec fn from_parts(r: Region, flags: u8) -> MemMapping {
        MemMapping { begin: r.begin as usize, size: r.size as usize, flags }
    }

    /// A mapping is determined by its region and its flags.
    pub proof fn lemma_from_parts(r: Region, flags: u8)
        requires
            0 <= r.begin <= usize::MAX,
            0 <= r.size <= usize::MAX,
        ensures
            Self::from_parts(r, flags)@ == r,
            Self::from_parts(r, flags).flag_bits() == flags,
            forall|m: MemMapping| #[trigger] m@ == r && m.flag_bits() == flags ==> m == Self::from_parts(r, flags),
    {
    }

    /// `uses` depends on the frames the pages translate to, not on their flags.
    pub proof fn lemma_uses_frames_only(&self, t1: Map<usize, PageEntry>, t2: Map<usize, PageEntry>, n: int, f: usize)
        requires
            forall|v: usize| #[trigger] t1.contains_key(v) == t2.contains_key(v),
            forall|v: usize| #[trigger] t1.contains_key(v) ==> t1[v].phys == t2[v].phys,
        ensures
            self.uses(t1, n, f) == self.uses(t2, n, f),
        decreases n,
    {
        if n > 0 {
            self.lemma_uses_frames_only(t1, t2, n - 1, f);
            let v = self.page(n - 1) as usize;
            assert(t1.contains_key(v) == t2.contains_key(v));
            if t1.contains_key(v) {
                assert(t1[v].phys == t2[v].phys);
            }
        }
    }

    /// `uses` depends only on the translations of the pages of the mapping.
    pub proof fn lemma_uses_same_pages(&self, t1: Map<usize, PageEntry>, t2: Map<usize, PageEntry>, n: int, f: usize)
        requires
            forall|i: int| 0 <= i < n ==> t1.contains_key(#[trigger] self.page(i) as usize) == t2.contains_key(self.page(i) as usize),
            forall|i: int| 0 <= i < n && t1.contains_key(#[trigger] self.page(i) as usize) ==> t1[self.page(i) as usize].phys == t2[self.page(i) as usize].phys,
        ensures
            self.uses(t1, n, f) == self.uses(t2, n, f),
        decreases n,
    {
        if n > 0 {
            self.lemma_uses_same_pages(t1, t2, n - 1, f);
            let v = self.page(n - 1) as usize;
            assert(t1.contains_key(v) == t2.contains_key(v));
        }
    }



    /// Changing the translation of one page `v` changes `uses` by that page alone.
    pub proof fn lemma_uses_update(&self, t: Map<usize, PageEntry>, v: usize, e: PageEntry, n: int, f: usize)
        requires
            self.wf(),
            0 <= n <= self@.size,
        ensures
            self.is_page_of(n, v as int) ==> self.uses(t.insert(v, e), n, f) + (if t.contains_key(v) && t[v].phys == f { 1nat } else { 0nat })
                == self.uses(t, n, f) + (if e.phys == f { 1nat } else { 0nat }),
            !self.is_page_of(n, v as int) ==> self.uses(t.insert(v, e), n, f) == self.uses(t, n, f),
        decreases n,
    {
        if n > 0 {
            self.lemma_uses_update(t, v, e, n - 1, f);
            self.lemma_page_of_step(n - 1, v as int);
            self.lemma_page_of(n, n - 1);
            let p = self.page(n - 1) as usize;
            if p != v {
                assert(t.insert(v, e).contains_key(p) == t.contains_key(p));
            }
        }
    }

    /// Where none of the first `n` pages translates to `f`, `f` has no use.
    pub proof fn lemma_uses_none(&self, t: Map<usize, PageEntry>, n: int, f: usize)
        requires
            forall|i: int| 0 <= i < n && t.contains_key(#[trigger] self.page(i) as usize) ==> t[self.page(i) as usize].phys != f,
        ensures
            self.uses(t, n, f) == 0,
        decreases n,
    {
        if n > 0 {
            self.lemma_uses_none(t, n - 1, f);
        }
    }

    /// Mappings with the same first `n` pages have the same uses over them.
    pub proof fn lemma_uses_same_start(&self, o: MemMapping, t: Map<usize, PageEntry>, n: int, f: usize)
        requires
            self@.begin == o@.begin,
        ensures
            self.uses(t, n, f) == o.uses(t, n, f),
        decreases n,
    {
        if n > 0 {
            self.lemma_uses_same_start(o, t, n - 1, f);
        }
    }

    /// The uses of the first `a + c` pages are those of the first `a` pages plus those of the
    /// `c` pages of `b`, which begins `a` pages in.
    pub proof fn lemma_uses_split(&self, b: MemMapping, t: Map<usize, PageEntry>, a: int, c: int, f: usize)
        requires
            0 <= a,
            0 <= c,
            b@.begin == page_addr(self@.begin, a),
        ensures
            self.uses(t, a + c, f) == self.uses(t, a, f) + b.uses(t, c, f),
        decreases c,
    {
        if c > 0 {
            self.lemma_uses_split(b, t, a, c - 1, f);
            assert(b.page(c - 1) == self.page(a + c - 1));
        }
    }

    /// A page among the first `n` translating to `f` is a use of `f`.
    pub proof fn lemma_uses_positive(&self, t: Map<usize, PageEntry>, n: int, i: int, f: usize)
        requires
            0 <= i < n,
            t.contains_key(self.page(i) as usize),
            t[self.page(i) as usize].phys == f,
        ensures
            self.uses(t, n, f) >= 1,
        decreases n,
    {
        if i < n - 1 {
            self.lemma_uses_positive(t, n - 1, i, f);
        }
    }
}

} // verus!
