//! Architecture constants of the user address space, mapping flags and the
//! size classes of gaps.
use vstd::prelude::*;

verus! {

/// The size of a page of memory, in bytes.
pub const PAGE_SIZE: usize = 4096;

/// Beginning of the window of virtual memory in which mappings are allocated.
pub const ALLOC_BEGIN: usize = 0x4000_0000;

/// End of the window of virtual memory available to a process.
pub const PROCESS_END: usize = 0xc000_0000;

/// Number of pages in the window `[ALLOC_BEGIN, PROCESS_END)`.
pub const WINDOW_PAGES: usize = 0x8_0000;

/// Flag telling that a memory mapping can be written to.
pub const MAPPING_FLAG_WRITE: u8 = 0b00001;
/// Flag telling that a memory mapping can contain executable instructions.
pub const MAPPING_FLAG_EXEC: u8 = 0b00010;
/// Flag telling that a memory mapping is accessible from userspace.
pub const MAPPING_FLAG_USER: u8 = 0b00100;
/// Flag telling that a memory mapping must allocate its physical memory right away and not
/// when the process tries to write to it.
pub const MAPPING_FLAG_NOLAZY: u8 = 0b01000;
/// Flag telling that a memory mapping has its physical memory shared with one or more other
/// mappings, and is never copied on write.
pub const MAPPING_FLAG_SHARED: u8 = 0b10000;

/// Page table flag: the page can be written.
pub const VMEM_FLAG_WRITE: u32 = 0b010;
/// Page table flag: the page is accessible from userspace.
pub const VMEM_FLAG_USER: u32 = 0b100;

/// Page fault error code bit: the faulting page was present.
pub const PAGE_FAULT_PRESENT: u32 = 0b001;
/// Page fault error code bit: the access was a write.
pub const PAGE_FAULT_WRITE: u32 = 0b010;

/// The number of size classes of gaps.
pub const GAPS_BUCKETS_COUNT: usize = 16;

/// Whether the address is a multiple of the page size.
pub open spec fn is_page_aligned(a: int) -> bool {
    a % (PAGE_SIZE as int) == 0
}

/// The address of the page `i` pages after `begin`.
pub open spec fn page_addr(begin: int, i: int) -> int {
    begin + i * (PAGE_SIZE as int)
}

/// Whether `flags` holds the mapping flag `f`.
pub open spec fn has_flag(flags: u8, f: u8) -> bool {
    flags & f != 0
}

/// A half-open interval of virtual memory `[begin, begin + size·PAGE_SIZE)`.
pub struct Region {
    pub begin: int,
    pub size: int,
}

impl Region {
    pub open spec fn end(self) -> int {
        page_addr(self.begin, self.size)
    }

    /// Whether the address `a` lies in the region.
    pub open spec fn contains(self, a: int) -> bool {
        self.begin <= a < self.end()
    }

    /// Whether the two regions share no address.
    pub open spec fn disjoint(self, o: Region) -> bool {
        self.end() <= o.begin || o.end() <= self.begin
    }

    /// A region of at least one page, page-aligned, inside the allocation window.
    pub open spec fn in_window(self) -> bool {
        &&& self.size >= 1
        &&& is_page_aligned(self.begin)
        &&& ALLOC_BEGIN <= self.begin
        &&& self.end() <= PROCESS_END
    }
}

/// `⌊log₂(n)⌋`, with `0` for `n ≤ 1`.
pub open spec fn log2(n: nat) -> nat
    decreases n,
{
    if n <= 1 {
        0
    } else {
        1 + log2(n / 2)
    }
}

/// The size class of a gap of `size` pages.
pub open spec fn bucket_of(size: nat) -> nat {
    if log2(size) < GAPS_BUCKETS_COUNT as nat {
        log2(size)
    } else {
        (GAPS_BUCKETS_COUNT - 1) as nat
    }
}

/// `log2` does not decrease when its argument grows.
pub proof fn lemma_log2_monotonic(a: nat, b: nat)
    requires
        a <= b,
    ensures
        log2(a) <= log2(b),
    decreases b,
{
    if a > 1 {
        lemma_log2_monotonic(a / 2, b / 2);
    }
}

/// `⌊log₂(n)⌋` stays below `n`, for `n ≥ 1`.
pub proof fn lemma_log2_below(n: nat)
    ensures
        n >= 1 ==> log2(n) < n,
        log2(n) <= n,
    decreases n,
{
    if n > 1 {
        lemma_log2_below(n / 2);
    }
}

/// `bucket_of` does not decrease when its argument grows.
pub proof fn lemma_bucket_monotonic(a: nat, b: nat)
    requires
        a <= b,
    ensures
        bucket_of(a) <= bucket_of(b),
{
    lemma_log2_monotonic(a, b);
}

/// Whether the address is a multiple of the page size.
pub fn is_aligned(a: usize) -> (r: bool)
    ensures
        r == is_page_aligned(a as int),
{
    a % PAGE_SIZE == 0
}

/// Returns `⌊log₂(n)⌋`, or `0` for `n ≤ 1`.
pub fn log2_floor(n: usize) -> (r: usize)
    ensures
        r as nat == log2(n as nat),
{
    let mut m: usize = n;
    let mut r: usize = 0;
    while m > 1
        invariant
            r as nat + log2(m as nat) == log2(n as nat),
            m <= n,
        decreases m,
    {
        proof {
            lemma_log2_below(n as nat);
        }
        m = m / 2;
        r = r + 1;
    }
    r
}

/// Returns the index of the bucket holding gaps of `size` pages:
/// `min(⌊log₂(size)⌋, GAPS_BUCKETS_COUNT − 1)`.
pub fn gap_bucket_index(size: usize) -> (r: usize)
    ensures
        r as nat == bucket_of(size as nat),
        r < GAPS_BUCKETS_COUNT,
{
    let l = log2_floor(size);
    if l < GAPS_BUCKETS_COUNT {
        l
    } else {
        GAPS_BUCKETS_COUNT - 1
    }
}

/// Moving a page-aligned address by whole pages keeps it page-aligned.
pub proof fn lemma_page_addr_aligned(begin: int, n: int)
    requires
        is_page_aligned(begin),
    ensures
        is_page_aligned(page_addr(begin, n)),
{
    assert((begin + n * 4096) % 4096 == begin % 4096) by (nonlinear_arith);
}

/// Between two page-aligned addresses lie whole pages.
pub proof fn lemma_aligned_diff(a: int, b: int)
    requires
        is_page_aligned(a),
        is_page_aligned(b),
        a <= b,
    ensures
        page_addr(a, (b - a) / (PAGE_SIZE as int)) == b,
        (b - a) % (PAGE_SIZE as int) == 0,
{
    assert((b - a) % 4096 == 0) by (nonlinear_arith)
        requires a % 4096 == 0, b % 4096 == 0, a <= b;
    assert(a + ((b - a) / 4096) * 4096 == b) by (nonlinear_arith)
        requires (b - a) % 4096 == 0;
}

/// Relative to a page-aligned base, being a page offset is being page-aligned.
pub proof fn lemma_offset_aligned(base: int, v: int)
    requires
        is_page_aligned(base),
    ensures
        (v - base) % (PAGE_SIZE as int) == 0 <==> is_page_aligned(v),
{
    assert((v - base) % 4096 == 0 <==> v % 4096 == 0) by (nonlinear_arith)
        requires base % 4096 == 0;
}

/// A page-aligned address below the next page boundary after `a` is at most `a`, where `a`
/// is page-aligned.
pub proof fn lemma_aligned_below(b: int, a: int)
    requires
        is_page_aligned(a),
        is_page_aligned(b),
        b < a + PAGE_SIZE as int,
    ensures
        b <= a,
{
    assert(b <= a) by (nonlinear_arith)
        requires a % 4096 == 0, b % 4096 == 0, b < a + 4096;
}

/// Relative to a page-aligned base, an address has the same offset in its page.
pub proof fn lemma_mod_shift(base: int, v: int)
    requires
        is_page_aligned(base),
        base <= v,
    ensures
        (v - base) % (PAGE_SIZE as int) == v % (PAGE_SIZE as int),
        v - (v - base) % (PAGE_SIZE as int) == base + ((v - base) / (PAGE_SIZE as int)) * (PAGE_SIZE as int),
{
    assert((v - base) % 4096 == v % 4096) by (nonlinear_arith)
        requires base % 4096 == 0, base <= v;
    assert(v - (v - base) % 4096 == base + ((v - base) / 4096) * 4096) by (nonlinear_arith)
        requires base <= v;
}

} // verus!
