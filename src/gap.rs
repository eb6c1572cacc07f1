//! A gap is a region of the virtual memory which is available for allocation.
use vstd::prelude::*;

use crate::memory::{is_page_aligned, page_addr, Region, PAGE_SIZE};

verus! {

/// A gap in the memory space that can be used for new mappings.
#[derive(Clone, Copy, Debug, PartialEq, Eq, Structural)]
pub struct MemGap {
    /// Address on the virtual memory to the beginning of the gap.
    begin: usize,
    /// The size of the gap in pages.
    size: usize,
}

impl View for MemGap {
    type V = Region;

    closed spec fn view(&self) -> Region {
        Region { begin: self.begin as int, size: self.size as int }
    }
}

impl MemGap {
    /// A gap of at least one page, page-aligned, whose end is an address.
    pub open spec fn wf(&self) -> bool {
        &&& self@.size >= 1
        &&& is_page_aligned(self@.begin)
        &&& self@.end() <= usize::MAX
        &&& 0 <= self@.begin
    }

    /// Creates a new instance.
    ///
    /// `begin` is the page-aligned address of the beginning of the gap, `size` its size in
    /// pages.
    pub fn new(begin: usize, size: usize) -> (r: Self)
        requires
            size >= 1,
            is_page_aligned(begin as int),
            page_addr(begin as int, size as int) <= usize::MAX,
        ensures
            r@ == (Region { begin: begin as int, size: size as int }),
            r.wf(),
    {
        MemGap { begin, size }
    }

    /// Returns the address of the beginning of the gap.
    pub fn get_begin(&self) -> (r: usize)
        ensures
            r as int == self@.begin,
    {
        self.begin
    }

    /// Returns the address of the end of the gap.
    pub fn get_end(&self) -> (r: usize)
        requires
            self.wf(),
        ensures
            r as int == self@.end(),
    {
        self.begin + self.size * PAGE_SIZE
    }

    /// Returns the size of the gap in memory pages.
    pub fn get_size(&self) -> (r: usize)
        ensures
            r as int == self@.size,
    {
        self.size
    }

    /// Returns the offset in pages of the address `addr` in the gap.
    pub fn get_page_offset_for(&self, addr: usize) -> (r: usize)
        requires
            self@.begin <= addr,
        ensures
            r as int == (addr - self@.begin) / (PAGE_SIZE as int),
    {
        (addr - self.begin) / PAGE_SIZE
    }

    /// Splits the gap around a part consumed by a mapping, `size` pages starting `off` pages
    /// into the gap.
    ///
    /// Returns the gap left before the consumed part and the gap left after it; each is
    /// `None` where nothing is left.
    pub fn consume(&self, off: usize, size: usize) -> (r: (Option<Self>, Option<Self>))
        requires
            self.wf(),
        ensures
            off == 0 ==> r.0 is None,
            off > 0 ==> r.0 is Some && r.0.unwrap()@ == (Region {
                begin: self@.begin,
                size: if off < self@.size { off as int } else { self@.size },
            }),
            self@.size > off + size ==> r.1 is Some && r.1.unwrap()@ == (Region {
                begin: page_addr(self@.begin, off + size),
                size: self@.size - off - size,
            }),
            self@.size <= off + size ==> r.1 is None,
            r.0 matches Some(g) ==> g.wf(),
            r.1 matches Some(g) ==> g.wf(),
    {
        let left = if off > 0 {
            Some(MemGap { begin: self.begin, size: if off < self.size { off } else { self.size } })
        } else {
            None
        };
        let right = if off < self.size && size < self.size - off {
            let gap_size = self.size - off - size;
            Some(MemGap { begin: self.begin + (off + size) * PAGE_SIZE, size: gap_size })
        } else {
            None
        };
        (left, right)
    }

    /// Merges the gap `other` into this one when the two are adjacent; otherwise does
    /// nothing. The size saturates at `usize::MAX` pages.
    pub fn merge(&mut self, other: &Self)
        requires
            old(self).wf(),
            other.wf(),
        ensures
            old(self)@.begin == other@.end() ==> final(self)@ == (Region {
                begin: other@.begin,
                size: if old(self)@.size + other@.size <= usize::MAX {
                    old(self)@.size + other@.size
                } else {
                    usize::MAX as int
                },
            }),
            old(self)@.begin != other@.end() && old(self)@.end() == other@.begin
                ==> final(self)@ == (Region {
                begin: old(self)@.begin,
                size: if old(self)@.size + other@.size <= usize::MAX {
                    old(self)@.size + other@.size
                } else {
                    usize::MAX as int
                },
            }),
            old(self)@.begin != other@.end() && old(self)@.end() != other@.begin
                ==> final(self)@ == old(self)@,
    {
        if self.begin == other.get_end() {
            self.begin = other.begin;
            self.size = self.size.saturating_add(other.size);
        } else if self.get_end() == other.begin {
            self.size = self.size.saturating_add(other.size);
        }
    }

    /// The gap covering the region `r`.
    pub closed spec fn from_region(r: Region) -> MemGap {
        MemGap { begin: r.begin as usize, size: r.size as usize }
    }

    /// A gap is determined by its region, and every region of addresses is that of a gap.
    pub proof fn lemma_from_region(r: Region)
        requires
            0 <= r.begin <= usize::MAX,
            0 <= r.size <= usize::MAX,
        ensures
            Self::from_region(r)@ == r,
            forall|g: MemGap| #[trigger] g@ == r ==> g == Self::from_region(r),
    {
    }
}

} // verus!
