//! A virtual memory context: the translations of one address space from virtual pages to
//! physical frames, with their protection flags.
use vstd::prelude::*;

use crate::memory::{PAGE_FAULT_PRESENT, PAGE_FAULT_WRITE, PAGE_SIZE, VMEM_FLAG_WRITE};
use crate::phys::PhysMem;
use std::collections::HashMap;

verus! {

broadcast use vstd::std_specs::hash::group_hash_axioms;

/// The translation of one virtual page.
#[derive(Clone, Copy, Debug, PartialEq, Eq, Structural)]
pub struct PageEntry {
    /// Address of the physical frame.
    pub phys: usize,
    /// Protection flags (`VMEM_FLAG_*`).
    pub flags: u32,
}

/// The translations of an address space, keyed by the address of each virtual page, and
/// whether the translation cache holds entries older than the table.
pub struct VMem {
    table: HashMap<usize, PageEntry>,
    stale: bool,
    id: u64,
}

impl View for VMem {
    type V = Map<usize, PageEntry>;

    closed spec fn view(&self) -> Map<usize, PageEntry> {
        self.table@
    }
}

/// Whether the flags allow writing.
pub open spec fn writable(flags: u32) -> bool {
    flags & VMEM_FLAG_WRITE != 0
}

impl VMem {
    /// Whether every change of the table has been flushed from the translation cache.
    pub closed spec fn flushed(&self) -> bool {
        !self.stale
    }

    /// The identifier of the context.
    pub closed spec fn context_id(&self) -> u64 {
        self.id
    }

    /// Creates a context with no translation, identified by `id`.
    pub fn new(id: u64) -> (r: Self)
        ensures
            r@ == Map::<usize, PageEntry>::empty(),
            r.flushed(),
            r.context_id() == id,
    {
        VMem { table: HashMap::new(), stale: false, id }
    }

    /// Creates a context identified by `id` with the same translations as this one.
    pub fn duplicate(&self, id: u64) -> (r: Self)
        ensures
            r@ == self@,
            r.flushed(),
            r.context_id() == id,
    {
        VMem { table: self.table.clone(), stale: false, id }
    }

    /// Returns the identifier of the context.
    pub fn get_id(&self) -> (r: u64)
        ensures
            r == self.context_id(),
    {
        self.id
    }

    /// Makes this context the one the processor uses.
    pub fn bind(&self, phys: &mut PhysMem)
        requires
            old(phys).wf(),
        ensures
            final(phys).wf(),
            final(phys).same_memory(old(phys)),
            final(phys).active_context() == Some(self.context_id()),
    {
        phys.set_active_context(self.id);
    }

    /// Translates the virtual page `virt` to the frame `phys` with `flags`.
    pub fn map(&mut self, phys: usize, virt: usize, flags: u32)
        ensures
            final(self)@ == old(self)@.insert(virt, PageEntry { phys, flags }),
            !final(self).flushed(),
    {
        self.table.insert(virt, PageEntry { phys, flags });
        self.stale = true;
    }

    /// Removes the translation of the virtual page `virt`, if any.
    pub fn unmap(&mut self, virt: usize)
        ensures
            final(self)@ == old(self)@.remove(virt),
            !final(self).flushed(),
    {
        self.table.remove(&virt);
        self.stale = true;
    }

    /// Returns the translation of the virtual page `virt`.
    pub fn entry(&self, virt: usize) -> (r: Option<PageEntry>)
        ensures
            r == (if self@.contains_key(virt) {
                Some(self@[virt])
            } else {
                None
            }),
    {
        match self.table.get(&virt) {
            Some(e) => Some(*e),
            None => None,
        }
    }

    /// Returns the frame the virtual page `virt` translates to.
    pub fn translate(&self, virt: usize) -> (r: Option<usize>)
        ensures
            r == (if self@.contains_key(virt) {
                Some(self@[virt].phys)
            } else {
                None
            }),
    {
        match self.table.get(&virt) {
            Some(e) => Some(e.phys),
            None => None,
        }
    }

    /// Flushes the translation cache.
    pub fn flush(&mut self)
        ensures
            final(self)@ == old(self)@,
            final(self).flushed(),
    {
        self.stale = false;
    }

    /// Tells whether every change of the table has been flushed.
    pub fn is_flushed(&self) -> (r: bool)
        ensures
            r == self.flushed(),
    {
        !self.stale
    }

    /// The page holding the address `virt`.
    pub open spec fn page_of(virt: usize) -> usize {
        (virt - virt % PAGE_SIZE) as usize
    }

    /// What reading the byte at `virt` through the translations `t` gives: the byte, or
    /// the page fault error code.
    pub open spec fn read_spec(t: Map<usize, PageEntry>, phys: &PhysMem, virt: usize) -> Result<u8, u32> {
        let v = Self::page_of(virt);
        if !t.contains_key(v) {
            Err(0)
        } else if !phys.is_frame(t[v].phys as int) {
            Err(PAGE_FAULT_PRESENT)
        } else {
            Ok(phys.page(t[v].phys as int)[(virt % PAGE_SIZE) as int])
        }
    }

    /// Reads, as the processor would, the byte at the virtual address `virt`. Fails with the
    /// page fault error code where the page is not translated to a frame.
    pub fn read_byte(&self, phys: &PhysMem, virt: usize) -> (r: Result<u8, u32>)
        requires
            phys.wf(),
        ensures
            r == Self::read_spec(self@, phys, virt),
    {
        let page = virt - virt % PAGE_SIZE;
        match self.entry(page) {
            Some(e) => {
                if phys.is_frame_addr(e.phys) {
                    Ok(phys.read_byte(e.phys, virt % PAGE_SIZE))
                } else {
                    Err(PAGE_FAULT_PRESENT)
                }
            },
            None => Err(0),
        }
    }

    /// Writes, as the processor would, the byte `b` at the virtual address `virt`. Fails with
    /// the page fault error code where the page is not translated, or not writable, or
    /// translated to the default page or to no frame.
    pub fn write_byte(&self, phys: &mut PhysMem, virt: usize, b: u8) -> (r: Result<(), u32>)
        requires
            old(phys).wf(),
        ensures
            final(phys).wf(),
            final(phys).frames() == old(phys).frames(),
            final(phys).refs() == old(phys).refs(),
            final(phys).default_page_spec() == old(phys).default_page_spec(),
            !self@.contains_key(Self::page_of(virt)) ==> r == Err::<(), u32>(PAGE_FAULT_WRITE)
                && final(phys).pages() == old(phys).pages(),
            self@.contains_key(Self::page_of(virt)) ==> ({
                let e = self@[Self::page_of(virt)];
                if writable(e.flags) && old(phys).is_frame(e.phys as int)
                    && old(phys).default_page_spec() != Some(e.phys) {
                    &&& r is Ok
                    &&& final(phys).pages() == old(phys).pages().update(
                        crate::phys::frame_index(e.phys as int),
                        old(phys).page(e.phys as int).update((virt % PAGE_SIZE) as int, b),
                    )
                } else {
                    &&& r == Err::<(), u32>(PAGE_FAULT_PRESENT | PAGE_FAULT_WRITE)
                    &&& final(phys).pages() == old(phys).pages()
                }
            }),
    {
        let page = virt - virt % PAGE_SIZE;
        match self.entry(page) {
            Some(e) => {
                let default = phys.default_page_addr();
                let is_default = match default {
                    Some(d) => d == e.phys,
                    None => false,
                };
                if e.flags & VMEM_FLAG_WRITE != 0 && phys.is_frame_addr(e.phys) && !is_default {
                    phys.write_byte(e.phys, virt % PAGE_SIZE, b);
                    Ok(())
                } else {
                    Err(PAGE_FAULT_PRESENT | PAGE_FAULT_WRITE)
                }
            },
            None => Err(PAGE_FAULT_WRITE),
        }
    }
}

} // verus!
