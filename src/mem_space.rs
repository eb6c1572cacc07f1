//! The virtual memory space of a process: its gaps, its mappings and its page table, kept
//! consistent with one another.
use vstd::prelude::*;

use crate::errno::Errno;
use crate::gap::MemGap;
use crate::gap_registry::GapRegistry;
use crate::mapping::{phys_of, sat_sub, MemMapping};
use crate::mapping_registry::MappingRegistry;
use crate::mapping::vmem_flags_spec;
use crate::memory::{
    bucket_of, has_flag, is_aligned, is_page_aligned, page_addr, Region, ALLOC_BEGIN,
    GAPS_BUCKETS_COUNT, MAPPING_FLAG_NOLAZY, MAPPING_FLAG_SHARED, MAPPING_FLAG_WRITE, PAGE_FAULT_PRESENT,
    PAGE_FAULT_WRITE, PAGE_SIZE, PROCESS_END, WINDOW_PAGES,
};
use crate::phys::{frame_addr, PhysMem, Zone};
use crate::vmem::{writable, PageEntry, VMem};

verus! {

/// The virtual memory space of a process.
pub struct MemSpace {
    /// The free regions, by address and by size class.
    gaps: GapRegistry,
    /// The allocated regions, by address.
    mappings: MappingRegistry,
    /// The page table.
    vmem: VMem,
}

/// The window `[ALLOC_BEGIN, PROCESS_END)` as a region.
pub open spec fn window() -> Region {
    Region { begin: ALLOC_BEGIN as int, size: WINDOW_PAGES as int }
}

/// The gaps after `n` pages are taken from the low end of the gap `g`: `g` leaves, and what
/// remains of it above the taken pages, if anything, joins.
pub open spec fn carve(gaps: Set<MemGap>, g: MemGap, n: int) -> Set<MemGap> {
    if g@.size > n {
        gaps.remove(g).insert(
            MemGap::from_region(Region { begin: page_addr(g@.begin, n), size: g@.size - n }),
        )
    } else {
        gaps.remove(g)
    }
}

/// The number of pages of the first `n` mappings of `ms` that translate to frame `f`.
pub open spec fn seq_uses(ms: Seq<MemMapping>, vmem: Map<usize, PageEntry>, n: int, f: usize) -> nat
    decreases n,
{
    if n <= 0 {
        0
    } else {
        seq_uses(ms, vmem, n - 1, f) + ms[n - 1].uses(vmem, ms[n - 1]@.size, f)
    }
}

/// The share count of a frame counted `c` times after a fork adds `u` uses of it: a frame
/// with no count is not shared.
pub open spec fn forked_count(c: nat, u: nat) -> nat {
    if c >= 1 {
        c + u
    } else {
        0
    }
}

/// The page table flags a page of `m` translating to frame `p` must have, given the share
/// counts of `phys` and the default page `d`.
pub open spec fn expected_flags(m: MemMapping, p: usize, phys: &PhysMem, d: usize) -> u32 {
    vmem_flags_spec(m.flag_bits(), p != d, p != d && phys.refcount(p) > 1)
}

proof fn lemma_seq_uses_frames_only(ms: Seq<MemMapping>, t1: Map<usize, PageEntry>, t2: Map<usize, PageEntry>, n: int, f: usize)
    requires
        forall|v: usize| #[trigger] t1.contains_key(v) == t2.contains_key(v),
        forall|v: usize| #[trigger] t1.contains_key(v) ==> t1[v].phys == t2[v].phys,
    ensures
        seq_uses(ms, t1, n, f) == seq_uses(ms, t2, n, f),
    decreases n,
{
    if n > 0 {
        lemma_seq_uses_frames_only(ms, t1, t2, n - 1, f);
        ms[n - 1].lemma_uses_frames_only(t1, t2, ms[n - 1]@.size, f);
    }
}

/// Unmaps the first `n` mappings of `ms`, which are pairwise disjoint, from the page table
/// `vmem`: their pages leave it, and each frame loses one count per page translating to it.
fn unmap_prefix(ms: &Vec<MemMapping>, n: usize, vmem: &mut VMem, phys: &mut PhysMem)
    requires
        n <= ms@.len(),
        forall|i: int| 0 <= i < ms@.len() ==> (#[trigger] ms@[i]).wf(),
        forall|i: int, j: int| 0 <= i < ms@.len() && 0 <= j < ms@.len() && i != j ==> (#[trigger] ms@[i])@.disjoint((#[trigger] ms@[j])@),
        old(phys).wf(),
        old(phys).default_page_spec() is Some,
    ensures
        final(phys).wf(),
        final(phys).default_page_spec() == old(phys).default_page_spec(),
        final(phys).pages() == old(phys).pages(),
        final(phys).frames().len() == old(phys).frames().len(),
        forall|f: usize|
            f != old(phys).default_page_spec().unwrap() ==> #[trigger] final(phys).refcount(f)
                == sat_sub(old(phys).refcount(f), seq_uses(ms@, old(vmem)@, n as int, f)),
        forall|v: usize| #[trigger] final(vmem)@.contains_key(v) ==> old(vmem)@.contains_key(v) && final(vmem)@[v] == old(vmem)@[v],
        forall|v: usize| #[trigger] old(vmem)@.contains_key(v) ==> (final(vmem)@.contains_key(v) <==> forall|k: int|
            0 <= k < n ==> !(#[trigger] ms@[k]).is_page_of(ms@[k]@.size, v as int)),
        forall|k: int|
            0 <= k < old(phys).frames().len() ==> #[trigger] final(phys).frames()[k] == old(phys).frames()[k]
                || (final(phys).frames()[k] is None && old(phys).refs().contains_key(frame_addr(k) as usize)
                && !final(phys).refs().contains_key(frame_addr(k) as usize)),
        n > 0 ==> final(vmem).flushed(),
        n == 0 ==> *final(vmem) == *old(vmem),
        forall|k: int|
            0 <= k < old(phys).frames().len() && old(phys).refs().contains_key(frame_addr(k) as usize)
                && !final(phys).refs().contains_key(frame_addr(k) as usize) ==> #[trigger] final(phys).frames()[k] is None,
{
    let ghost t0 = vmem@;
    let ghost p0 = *phys;
    let ghost d = phys.default_page_spec().unwrap();
    let mut k: usize = 0;
    while k < n
        invariant
            n <= ms@.len(),
            k <= n,
            forall|i: int| 0 <= i < ms@.len() ==> (#[trigger] ms@[i]).wf(),
            forall|i: int, j: int| 0 <= i < ms@.len() && 0 <= j < ms@.len() && i != j ==> (#[trigger] ms@[i])@.disjoint((#[trigger] ms@[j])@),
            phys.wf(),
            p0.wf(),
            phys.default_page_spec() == Some(d),
            p0.default_page_spec() == Some(d),
            phys.pages() == p0.pages(),
            phys.frames().len() == p0.frames().len(),
            forall|f: usize| f != d ==> #[trigger] phys.refcount(f) == sat_sub(p0.refcount(f), seq_uses(ms@, t0, k as int, f)),
            forall|v: usize| #[trigger] vmem@.contains_key(v) ==> t0.contains_key(v) && vmem@[v] == t0[v],
            forall|v: usize| #[trigger] t0.contains_key(v) ==> (vmem@.contains_key(v) <==> forall|j: int|
                0 <= j < k ==> !(#[trigger] ms@[j]).is_page_of(ms@[j]@.size, v as int)),
            forall|q: int|
                0 <= q < p0.frames().len() ==> #[trigger] phys.frames()[q] == p0.frames()[q]
                    || (phys.frames()[q] is None && p0.refs().contains_key(frame_addr(q) as usize)
                    && !phys.refs().contains_key(frame_addr(q) as usize)),
            k > 0 ==> vmem.flushed(),
            k == 0 ==> *vmem == *old(vmem),
            forall|q: int|
                0 <= q < p0.frames().len() && p0.refs().contains_key(frame_addr(q) as usize)
                    && !phys.refs().contains_key(frame_addr(q) as usize) ==> #[trigger] phys.frames()[q] is None,
        decreases n - k,
    {
        let m = ms[k];
        let ghost tk = vmem@;
        let ghost pk = *phys;
        proof {
            assert forall|i: int| 0 <= i < m@.size implies tk.contains_key(#[trigger] m.page(i) as usize) == t0.contains_key(m.page(i) as usize)
                && (tk.contains_key(m.page(i) as usize) ==> tk[m.page(i) as usize].phys == t0[m.page(i) as usize].phys) by {
                m.lemma_page_of(m@.size, i);
                let v = m.page(i) as usize;
                if t0.contains_key(v) {
                    assert forall|j: int| 0 <= j < k implies !(#[trigger] ms@[j]).is_page_of(ms@[j]@.size, v as int) by {
                        assert(ms@[j]@.disjoint(m@));
                    }
                }
            }
            assert forall|f: usize| #[trigger] m.uses(tk, m@.size, f) == m.uses(t0, m@.size, f) by {
                m.lemma_uses_same_pages(tk, t0, m@.size, f);
            }
        }
        m.unmap(vmem, phys);
        proof {
            assert forall|f: usize| f != d implies #[trigger] phys.refcount(f) == sat_sub(p0.refcount(f), seq_uses(ms@, t0, k as int + 1, f)) by {
                assert(m.uses(tk, m@.size, f) == m.uses(t0, m@.size, f));
            }
            assert forall|v: usize| #[trigger] t0.contains_key(v) implies (vmem@.contains_key(v) <==> forall|j: int|
                0 <= j < k + 1 ==> !(#[trigger] ms@[j]).is_page_of(ms@[j]@.size, v as int)) by {
                if !m.page_set().contains(v) {
                    assert(!m.is_page_of(m@.size, v as int));
                }
            }
            assert forall|q: int|
                0 <= q < p0.frames().len() implies #[trigger] phys.frames()[q] == p0.frames()[q]
                    || (phys.frames()[q] is None && p0.refs().contains_key(frame_addr(q) as usize)
                    && !phys.refs().contains_key(frame_addr(q) as usize)) by {
                if phys.frames()[q] != pk.frames()[q] {
                    let f = frame_addr(q) as usize;
                    assert(pk.refs().contains_key(f));
                    assert(f != d);
                    assert(pk.refcount(f) >= 1);
                    if !p0.refs().contains_key(f) {
                        assert(p0.refcount(f) == 0);
                    }
                }
            }
        }
        proof {
            assert forall|q: int|
                0 <= q < p0.frames().len() && p0.refs().contains_key(frame_addr(q) as usize)
                    && !phys.refs().contains_key(frame_addr(q) as usize) implies #[trigger] phys.frames()[q] is None by {
                if !pk.refs().contains_key(frame_addr(q) as usize) {
                    assert(pk.frames()[q] is None);
                }
            }
        }
        k = k + 1;
    }
}

/// Sets the flags of every page of the mappings `ms`, which are pairwise disjoint, to those
/// its state calls for, then flushes.
fn update_flags(ms: &Vec<MemMapping>, vmem: &mut VMem, phys: &PhysMem)
    requires
        forall|i: int| 0 <= i < ms@.len() ==> (#[trigger] ms@[i]).wf(),
        forall|i: int, j: int| 0 <= i < ms@.len() && 0 <= j < ms@.len() && i != j ==> (#[trigger] ms@[i])@.disjoint((#[trigger] ms@[j])@),
        phys.default_page_spec() is Some,
    ensures
        final(vmem).flushed(),
        forall|v: usize| #[trigger] final(vmem)@.contains_key(v) == old(vmem)@.contains_key(v),
        forall|v: usize| #[trigger] final(vmem)@.contains_key(v) ==> final(vmem)@[v].phys == old(vmem)@[v].phys,
        forall|a: int, v: usize|
            0 <= a < ms@.len() && #[trigger] ms@[a].is_page_of(ms@[a]@.size, v as int) && final(vmem)@.contains_key(v)
                ==> final(vmem)@[v].flags == expected_flags(ms@[a], final(vmem)@[v].phys, phys, phys.default_page_spec().unwrap()),
{
    let ghost d = phys.default_page_spec().unwrap();
    let ghost t0 = vmem@;
    let mut a: usize = 0;
    while a < ms.len()
        invariant
            forall|i: int| 0 <= i < ms@.len() ==> (#[trigger] ms@[i]).wf(),
            forall|i: int, j: int| 0 <= i < ms@.len() && 0 <= j < ms@.len() && i != j ==> (#[trigger] ms@[i])@.disjoint((#[trigger] ms@[j])@),
            phys.default_page_spec() == Some(d),
            a <= ms@.len(),
            forall|v: usize| #[trigger] vmem@.contains_key(v) == t0.contains_key(v),
            forall|v: usize| #[trigger] vmem@.contains_key(v) ==> vmem@[v].phys == t0[v].phys,
            forall|b: int, v: usize|
                0 <= b < a && #[trigger] ms@[b].is_page_of(ms@[b]@.size, v as int) && vmem@.contains_key(v)
                    ==> vmem@[v].flags == expected_flags(ms@[b], vmem@[v].phys, phys, d),
        decreases ms@.len() - a,
    {
        let m = ms[a];
        let mut i: usize = 0;
        while i < m.get_size()
            invariant
                forall|i: int| 0 <= i < ms@.len() ==> (#[trigger] ms@[i]).wf(),
                forall|i: int, j: int| 0 <= i < ms@.len() && 0 <= j < ms@.len() && i != j ==> (#[trigger] ms@[i])@.disjoint((#[trigger] ms@[j])@),
                phys.default_page_spec() == Some(d),
                a < ms@.len(),
                m == ms@[a as int],
                i <= m@.size,
                forall|v: usize| #[trigger] vmem@.contains_key(v) == t0.contains_key(v),
                forall|v: usize| #[trigger] vmem@.contains_key(v) ==> vmem@[v].phys == t0[v].phys,
                forall|b: int, v: usize|
                    0 <= b < a && #[trigger] ms@[b].is_page_of(ms@[b]@.size, v as int) && vmem@.contains_key(v)
                        ==> vmem@[v].flags == expected_flags(ms@[b], vmem@[v].phys, phys, d),
                forall|v: usize| #[trigger] m.is_page_of(i as int, v as int) && vmem@.contains_key(v)
                    ==> vmem@[v].flags == expected_flags(m, vmem@[v].phys, phys, d),
            decreases m@.size - i,
        {
            let ghost ti = vmem@;
            proof {
                m.lemma_page_of(m@.size, i as int);
            }
            m.update_vmem(i, vmem, phys);
            proof {
                let p = m.page(i as int) as usize;
                assert forall|b: int, v: usize|
                    0 <= b < a && #[trigger] ms@[b].is_page_of(ms@[b]@.size, v as int) && vmem@.contains_key(v)
                        implies vmem@[v].flags == expected_flags(ms@[b], vmem@[v].phys, phys, d) by {
                    if v == p {
                        assert(ms@[b]@.disjoint(m@));
                    }
                    assert(ti.contains_key(v));
                }
                assert forall|v: usize| #[trigger] m.is_page_of(i as int + 1, v as int) && vmem@.contains_key(v)
                    implies vmem@[v].flags == expected_flags(m, vmem@[v].phys, phys, d) by {
                    m.lemma_page_of_step(i as int, v as int);
                    if v != p {
                        assert(ti.contains_key(v));
                    }
                }
            }
            i = i + 1;
        }
        proof {
            assert forall|b: int, v: usize|
                0 <= b < a + 1 && #[trigger] ms@[b].is_page_of(ms@[b]@.size, v as int) && vmem@.contains_key(v)
                    implies vmem@[v].flags == expected_flags(ms@[b], vmem@[v].phys, phys, d) by {
                if b == a {
                    assert(m.is_page_of(i as int, v as int));
                }
            }
        }
        a = a + 1;
    }
    vmem.flush();
}

/// The gaps after the region `r` is freed: `r` becomes a gap, merged with the gap ending
/// where it begins and the gap beginning where it ends, if any.
pub open spec fn release(gaps: Set<MemGap>, r: Region) -> Set<MemGap> {
    let has_before = exists|g: MemGap| #[trigger] gaps.contains(g) && g@.end() == r.begin;
    let has_after = exists|g: MemGap| #[trigger] gaps.contains(g) && g@.begin == r.end();
    let before = choose|g: MemGap| #[trigger] gaps.contains(g) && g@.end() == r.begin;
    let after = choose|g: MemGap| #[trigger] gaps.contains(g) && g@.begin == r.end();
    let begin = if has_before { before@.begin } else { r.begin };
    let size = (if has_before { before@.size } else { 0 }) + r.size + (if has_after { after@.size } else { 0 });
    let rest = if has_before && has_after {
        gaps.remove(before).remove(after)
    } else if has_before {
        gaps.remove(before)
    } else if has_after {
        gaps.remove(after)
    } else {
        gaps
    };
    rest.insert(MemGap::from_region(Region { begin, size }))
}

/// The mappings after the part `[x, y)` of the mapping `m` is unmapped: `m` leaves, and the
/// parts of it below `x` and above `y`, if any, stay mapped with its flags.
pub open spec fn split_out(maps: Set<MemMapping>, m: MemMapping, x: int, y: int) -> Set<MemMapping> {
    let left = MemMapping::from_parts(Region { begin: m@.begin, size: (x - m@.begin) / PAGE_SIZE as int }, m.flag_bits());
    let right = MemMapping::from_parts(Region { begin: y, size: (m@.end() - y) / PAGE_SIZE as int }, m.flag_bits());
    let with_left = if x > m@.begin { maps.remove(m).insert(left) } else { maps.remove(m) };
    if y < m@.end() { with_left.insert(right) } else { with_left }
}

/// Whether the address `c` lies in a mapping of `s` with the flags `fl`.
pub open spec fn mapped_with(s: &MemSpace, c: int, fl: u8) -> bool {
    exists|o: MemMapping| #[trigger] s.mapping_set().contains(o) && o@.contains(c) && o.flag_bits() == fl
}

/// The uses of a prefix of `ms` grow with the prefix.
proof fn lemma_seq_uses_monotonic(ms: Seq<MemMapping>, t: Map<usize, PageEntry>, a: int, b: int, f: usize)
    requires
        0 <= a <= b,
    ensures
        seq_uses(ms, t, a, f) <= seq_uses(ms, t, b, f),
    decreases b - a,
{
    if a < b {
        lemma_seq_uses_monotonic(ms, t, a, b - 1, f);
    }
}

/// Inserting the mapping `m` into `ms` adds its uses.
proof fn lemma_seq_uses_insert(ms: Seq<MemMapping>, t: Map<usize, PageEntry>, p: int, m: MemMapping, n: int, f: usize)
    requires
        0 <= p <= ms.len(),
        0 <= n <= ms.len(),
    ensures
        n < p ==> seq_uses(ms.insert(p, m), t, n, f) == seq_uses(ms, t, n, f),
        n >= p ==> seq_uses(ms.insert(p, m), t, n + 1, f) == seq_uses(ms, t, n, f) + m.uses(t, m@.size, f),
    decreases n,
{
    let s = ms.insert(p, m);
    if n == 0 {
        if p == 0 {
            assert(s[0] == m);
            assert(seq_uses(s, t, 1, f) == seq_uses(s, t, 0, f) + s[0].uses(t, s[0]@.size, f));
        }
    } else if n < p {
        lemma_seq_uses_insert(ms, t, p, m, n - 1, f);
        assert(s[n - 1] == ms[n - 1]);
    } else if n == p {
        lemma_seq_uses_prefix(s, ms, t, n, f);
        assert(s[n] == m);
        assert(seq_uses(s, t, n + 1, f) == seq_uses(s, t, n, f) + s[n].uses(t, s[n]@.size, f));
    } else {
        lemma_seq_uses_insert(ms, t, p, m, n - 1, f);
        assert(s[n] == ms[n - 1]);
        assert(seq_uses(s, t, n + 1, f) == seq_uses(s, t, n, f) + s[n].uses(t, s[n]@.size, f));
        assert(seq_uses(ms, t, n, f) == seq_uses(ms, t, n - 1, f) + ms[n - 1].uses(t, ms[n - 1]@.size, f));
    }
}

/// Sequences that agree on their first `n` mappings agree on their uses.
proof fn lemma_seq_uses_prefix(a: Seq<MemMapping>, b: Seq<MemMapping>, t: Map<usize, PageEntry>, n: int, f: usize)
    requires
        0 <= n <= a.len(),
        n <= b.len(),
        forall|i: int| 0 <= i < n ==> a[i] == b[i],
    ensures
        seq_uses(a, t, n, f) == seq_uses(b, t, n, f),
    decreases n,
{
    if n > 0 {
        lemma_seq_uses_prefix(a, b, t, n - 1, f);
    }
}

/// Mappings whose pages translate alike in `t1` and `t2` have the same uses in both.
proof fn lemma_seq_uses_same_pages(ms: Seq<MemMapping>, t1: Map<usize, PageEntry>, t2: Map<usize, PageEntry>, n: int, f: usize)
    requires
        0 <= n <= ms.len(),
        forall|k: int, i: int| 0 <= k < n && 0 <= i < ms[k]@.size ==> t1.contains_key(#[trigger] ms[k].page(i) as usize) == t2.contains_key(ms[k].page(i) as usize),
        forall|k: int, i: int| 0 <= k < n && 0 <= i < ms[k]@.size && t1.contains_key(#[trigger] ms[k].page(i) as usize)
            ==> t1[ms[k].page(i) as usize].phys == t2[ms[k].page(i) as usize].phys,
    ensures
        seq_uses(ms, t1, n, f) == seq_uses(ms, t2, n, f),
    decreases n,
{
    if n > 0 {
        lemma_seq_uses_same_pages(ms, t1, t2, n - 1, f);
        let m = ms[n - 1];
        assert forall|i: int| 0 <= i < m@.size implies t1.contains_key(#[trigger] m.page(i) as usize) == t2.contains_key(m.page(i) as usize) by {
            assert(ms[n - 1].page(i) == m.page(i));
        }
        m.lemma_uses_same_pages(t1, t2, m@.size, f);
    }
}

/// Unmapping the part `[x, y)` of the mapping `o`, which `ms0` holds, takes away the uses of
/// that part: `ms1` is `ms0` without `o`, `ms2` adds the part of `o` below `x`, `ms3` the
/// part above `y`, and `t1` is `t` without the pages of `[x, y)`.
proof fn lemma_part_uses(
    ms0: Seq<MemMapping>,
    ms1: Seq<MemMapping>,
    ms2: Seq<MemMapping>,
    ms3: Seq<MemMapping>,
    t: Map<usize, PageEntry>,
    t1: Map<usize, PageEntry>,
    o: MemMapping,
    x: int,
    y: int,
)
    requires
        o.wf(),
        o@.begin <= x < y <= o@.end(),
        is_page_aligned(x),
        is_page_aligned(y),
        exists|p: int| 0 <= p < ms0.len() && ms0[p] == o && ms1 == ms0.remove(p),
        x > o@.begin ==> exists|p: int| 0 <= p <= ms1.len() && ms2 == #[trigger] ms1.insert(p, MemMapping::from_parts(
            Region { begin: o@.begin, size: (x - o@.begin) / PAGE_SIZE as int }, o.flag_bits())),
        x == o@.begin ==> ms2 == ms1,
        y < o@.end() ==> exists|p: int| 0 <= p <= ms2.len() && ms3 == #[trigger] ms2.insert(p, MemMapping::from_parts(
            Region { begin: y, size: (o@.end() - y) / PAGE_SIZE as int }, o.flag_bits())),
        y == o@.end() ==> ms3 == ms2,
        forall|k: int| 0 <= k < ms1.len() ==> (#[trigger] ms1[k])@.disjoint(o@) && ms1[k].wf(),
        forall|v: usize| #[trigger] t1.contains_key(v) <==> (t.contains_key(v) && !(x <= v < y)),
        forall|v: usize| #[trigger] t1.contains_key(v) ==> t1[v] == t[v],
    ensures
        forall|f: usize| #[trigger] seq_uses(ms3, t1, ms3.len() as int, f) + MemMapping::from_parts(
            Region { begin: x, size: (y - x) / PAGE_SIZE as int }, o.flag_bits()).uses(t, (y - x) / PAGE_SIZE as int, f)
            == seq_uses(ms0, t, ms0.len() as int, f),
{
    let a = (x - o@.begin) / PAGE_SIZE as int;
    let n = (y - x) / PAGE_SIZE as int;
    let c = (o@.end() - y) / PAGE_SIZE as int;
    crate::memory::lemma_aligned_diff(o@.begin, x);
    crate::memory::lemma_aligned_diff(x, y);
    crate::memory::lemma_aligned_diff(y, o@.end());
    let left = MemMapping::from_parts(Region { begin: o@.begin, size: a }, o.flag_bits());
    let mid = MemMapping::from_parts(Region { begin: x, size: n }, o.flag_bits());
    let right = MemMapping::from_parts(Region { begin: y, size: c }, o.flag_bits());
    let rest = MemMapping::from_parts(Region { begin: x, size: n + c }, o.flag_bits());
    MemMapping::lemma_from_parts(Region { begin: o@.begin, size: a }, o.flag_bits());
    MemMapping::lemma_from_parts(Region { begin: x, size: n }, o.flag_bits());
    MemMapping::lemma_from_parts(Region { begin: y, size: c }, o.flag_bits());
    MemMapping::lemma_from_parts(Region { begin: x, size: n + c }, o.flag_bits());
    let p = choose|p: int| 0 <= p < ms0.len() && ms0[p] == o && ms1 == ms0.remove(p);
    assert(ms1.insert(p, o) =~= ms0);
    assert forall|f: usize| #[trigger] seq_uses(ms3, t1, ms3.len() as int, f) + mid.uses(t, n, f)
        == seq_uses(ms0, t, ms0.len() as int, f) by {
        // the uses of `o` split over its three parts
        o.lemma_uses_split(rest, t, a, n + c, f);
        rest.lemma_uses_split(right, t, n, c, f);
        left.lemma_uses_same_start(o, t, a, f);
        mid.lemma_uses_same_start(rest, t, n, f);
        lemma_seq_uses_insert(ms1, t, p, o, ms1.len() as int, f);
        // the parts that stay translate as before
        assert forall|i: int| 0 <= i < a implies t1.contains_key(#[trigger] left.page(i) as usize) == t.contains_key(left.page(i) as usize)
            && (t1.contains_key(left.page(i) as usize) ==> t1[left.page(i) as usize].phys == t[left.page(i) as usize].phys) by {
            assert(left.page(i) < x);
        }
        assert forall|i: int| 0 <= i < c implies t1.contains_key(#[trigger] right.page(i) as usize) == t.contains_key(right.page(i) as usize)
            && (t1.contains_key(right.page(i) as usize) ==> t1[right.page(i) as usize].phys == t[right.page(i) as usize].phys) by {
            assert(right.page(i) >= y);
        }
        left.lemma_uses_same_pages(t1, t, a, f);
        right.lemma_uses_same_pages(t1, t, c, f);
        assert forall|k: int, i: int| 0 <= k < ms1.len() && 0 <= i < ms1[k]@.size implies t1.contains_key(#[trigger] ms1[k].page(i) as usize)
            == t.contains_key(ms1[k].page(i) as usize) && (t1.contains_key(ms1[k].page(i) as usize)
            ==> t1[ms1[k].page(i) as usize].phys == t[ms1[k].page(i) as usize].phys) by {
            ms1[k].lemma_page_of(ms1[k]@.size, i);
        }
        lemma_seq_uses_same_pages(ms1, t1, t, ms1.len() as int, f);
        if x > o@.begin {
            let p2 = choose|p2: int| 0 <= p2 <= ms1.len() && ms2 == ms1.insert(p2, left);
            lemma_seq_uses_insert(ms1, t1, p2, left, ms1.len() as int, f);
        }
        if y < o@.end() {
            let p3 = choose|p3: int| 0 <= p3 <= ms2.len() && ms3 == ms2.insert(p3, right);
            lemma_seq_uses_insert(ms2, t1, p3, right, ms2.len() as int, f);
        }
    }
}

/// Changing the translation of the page `v`, a page of the mapping `ms[k]` only, changes
/// `seq_uses` by that page alone.
proof fn lemma_seq_uses_update(ms: Seq<MemMapping>, t: Map<usize, PageEntry>, v: usize, e: PageEntry, k: int, n: int, f: usize)
    requires
        0 <= k < ms.len(),
        0 <= n <= ms.len(),
        forall|i: int| 0 <= i < ms.len() ==> (#[trigger] ms[i]).wf(),
        ms[k].is_page_of(ms[k]@.size, v as int),
        forall|i: int| 0 <= i < ms.len() && i != k ==> !(#[trigger] ms[i]).is_page_of(ms[i]@.size, v as int),
    ensures
        n > k ==> seq_uses(ms, t.insert(v, e), n, f) + (if t.contains_key(v) && t[v].phys == f { 1nat } else { 0nat })
            == seq_uses(ms, t, n, f) + (if e.phys == f { 1nat } else { 0nat }),
        n <= k ==> seq_uses(ms, t.insert(v, e), n, f) == seq_uses(ms, t, n, f),
    decreases n,
{
    if n > 0 {
        lemma_seq_uses_update(ms, t, v, e, k, n - 1, f);
        ms[n - 1].lemma_uses_update(t, v, e, ms[n - 1]@.size, f);
    }
}


/// The outcome of `MemSpace::map(hint, size, flags)` from the space `s0` and the physical
/// memory `p0` to `s1` and `p1`, with the result `r`.
pub open spec fn map_outcome(
    s0: MemSpace,
    p0: PhysMem,
    s1: MemSpace,
    p1: PhysMem,
    hint: Option<usize>,
    size: usize,
    flags: u8,
    r: Result<usize, Errno>,
) -> bool {
    &&& (size == 0 || size > WINDOW_PAGES ==> r == Err::<usize, Errno>(Errno::InvalidArgument))
    &&& (hint is Some && 0 < size <= WINDOW_PAGES ==> r == Err::<usize, Errno>(
        if !is_page_aligned(hint.unwrap() as int) || hint.unwrap() < ALLOC_BEGIN || page_addr(
            hint.unwrap() as int,
            size as int,
        ) > PROCESS_END {
            Errno::InvalidArgument
        } else {
            Errno::OutOfMemory
        }))
    &&& (hint is None && 0 < size <= WINDOW_PAGES && (forall|g: MemGap| #[trigger] s0.gap_set().contains(g) ==> g@.size < size)
        ==> r == Err::<usize, Errno>(Errno::OutOfMemory))
    &&& (hint is None && 0 < size <= WINDOW_PAGES && (exists|g: MemGap| #[trigger] s0.gap_set().contains(g) && g@.size >= size)
        && (!has_flag(flags, MAPPING_FLAG_NOLAZY) || p0.free_frames() >= size) ==> r is Ok)
    &&& (r is Err ==> {
        &&& s1.gap_set() == s0.gap_set()
        &&& s1.mapping_set() == s0.mapping_set()
        &&& s1.page_table() == s0.page_table()
        &&& forall|f: usize| f != p0.default_page_spec().unwrap() ==> #[trigger] p1.refcount(f)
            == p0.refcount(f)
        &&& s1.mapping_seq() == s0.mapping_seq()
        &&& p1.frames() == p0.frames()
    })
    &&& (r matches Ok(p) ==> {
        &&& forall|f: usize| f != p0.default_page_spec().unwrap() && #[trigger] p1.refcount(f)
            > p0.refcount(f) ==> p0.refcount(f) == 0
        &&& forall|v: usize| #[trigger] s1.page_table().contains_key(v) <==> (s0.page_table().contains_key(v)
            || MemMapping::from_parts(Region { begin: p as int, size: size as int }, flags).is_page_of(size as int, v as int))
        &&& forall|v: usize| #[trigger] s1.page_table().contains_key(v)
            && !MemMapping::from_parts(Region { begin: p as int, size: size as int }, flags).is_page_of(size as int, v as int)
            ==> s1.page_table()[v] == s0.page_table()[v]
        &&& forall|v: usize| #[trigger] MemMapping::from_parts(Region { begin: p as int, size: size as int }, flags).is_page_of(size as int, v as int)
            ==> s1.page_table()[v].flags == expected_flags(
                MemMapping::from_parts(Region { begin: p as int, size: size as int }, flags),
                s1.page_table()[v].phys,
                &p1,
                p0.default_page_spec().unwrap(),
            )
        &&& s1.mapping_set() == s0.mapping_set().insert(
            MemMapping::from_parts(Region { begin: p as int, size: size as int }, flags),
        )
    })
    &&& (r matches Ok(p) ==> exists|g: MemGap| {
        &&& #[trigger] s0.gap_set().contains(g)
        &&& s0.first_fit(g, size as nat)
        &&& g@.begin == p
        &&& g@.size >= size
        &&& s1.gap_set() == carve(s0.gap_set(), g, size as int)
        &&& s1.mapping_set() == s0.mapping_set().insert(
            MemMapping::from_parts(Region { begin: p as int, size: size as int }, flags),
        )
        &&& s1.tlb_flushed()
        &&& forall|f: usize| f != p0.default_page_spec().unwrap() ==> #[trigger] p1.refcount(f)
            + s0.frame_uses(f) == p0.refcount(f) + s1.frame_uses(f)
        &&& !has_flag(flags, MAPPING_FLAG_NOLAZY) ==> {
            &&& p1.same_memory(&p0)
            &&& forall|f: usize| f != p0.default_page_spec().unwrap() ==> #[trigger] s1.frame_uses(f)
                == s0.frame_uses(f)
            &&& s1.page_table() == s0.page_table().union_prefer_right(
                MemMapping::from_parts(Region { begin: p as int, size: size as int }, flags)
                    .default_entries(p0.default_page_spec().unwrap()),
            )
        }
    })
}

/// The outcome of `MemSpace::fork()` from `s0`, `p0` to `s1`, `p1`, with the result `r`.
pub open spec fn fork_outcome(
    s0: MemSpace,
    p0: PhysMem,
    s1: MemSpace,
    p1: PhysMem,
    r: Result<MemSpace, Errno>,
) -> bool {
    &&& (p1.default_page_spec() == p0.default_page_spec())
    &&& (p1.pages() == p0.pages())
    &&& (p1.frames() == p0.frames())
    &&& (s1.gap_set() == s0.gap_set())
    &&& (s1.mapping_set() == s0.mapping_set())
    &&& (forall|v: usize| #[trigger] s1.page_table().contains_key(v) == s0.page_table().contains_key(v))
    &&& (forall|v: usize| #[trigger] s1.page_table().contains_key(v)
        ==> s1.page_table()[v].phys == s0.page_table()[v].phys)
    &&& (forall|f: usize| #[trigger] s1.frame_uses(f) == s0.frame_uses(f))
    &&& ((forall|f: usize| #[trigger] p0.refcount(f) >= 1 ==> p0.refcount(f) + s0.frame_uses(f)
        <= usize::MAX) ==> r is Ok)
    &&& (r is Err ==> r == Err::<MemSpace, Errno>(Errno::OutOfMemory) && p1.refs() == p0.refs()
        && s1.page_table() == s0.page_table())
    &&& (r matches Ok(c) ==> {
        &&& c.wf()
        &&& c.gap_set() == s0.gap_set()
        &&& c.mapping_set() == s0.mapping_set()
        &&& forall|v: usize| #[trigger] c.page_table().contains_key(v) == s0.page_table().contains_key(v)
        &&& forall|v: usize| #[trigger] c.page_table().contains_key(v)
            ==> c.page_table()[v].phys == s0.page_table()[v].phys
        &&& forall|f: usize| #[trigger] c.frame_uses(f) == s0.frame_uses(f)
        &&& forall|f: usize| #[trigger] p1.refcount(f) == forked_count(p0.refcount(f), s0.frame_uses(f))
        &&& forall|m: MemMapping, v: usize|
            #[trigger] s0.mapping_set().contains(m) && #[trigger] m.is_page_of(m@.size, v as int) ==> {
                &&& c.page_table()[v].flags == expected_flags(m, c.page_table()[v].phys, &p1, p1.default_page_spec().unwrap())
                &&& s1.page_table()[v].flags == expected_flags(m, s1.page_table()[v].phys, &p1, p1.default_page_spec().unwrap())
            }
        &&& c.tlb_flushed()
    })
}

/// The outcome of `MemSpace::write_byte(virt, b)` on `s` from `p0` to `p1`, with the result `r`.
pub open spec fn write_outcome(
    s: MemSpace,
    p0: PhysMem,
    p1: PhysMem,
    virt: usize,
    b: u8,
    r: Result<(), u32>,
) -> bool {
    &&& (!s.page_table().contains_key(VMem::page_of(virt)) ==> r == Err::<(), u32>(PAGE_FAULT_WRITE)
        && p1.pages() == p0.pages())
    &&& (s.page_table().contains_key(VMem::page_of(virt)) ==> ({
        let e = s.page_table()[VMem::page_of(virt)];
        if crate::vmem::writable(e.flags) && p0.is_frame(e.phys as int)
            && p0.default_page_spec() != Some(e.phys) {
            &&& r is Ok
            &&& p1.pages() == p0.pages().update(
                crate::phys::frame_index(e.phys as int),
                p0.page(e.phys as int).update((virt % PAGE_SIZE) as int, b),
            )
        } else {
            &&& r == Err::<(), u32>(PAGE_FAULT_PRESENT | PAGE_FAULT_WRITE)
            &&& p1.pages() == p0.pages()
        }
    }))
    &&& (p1.frames() == p0.frames())
    &&& (p1.refs() == p0.refs())
    &&& (p1.default_page_spec() == p0.default_page_spec())
}

/// The outcome of `MemSpace::unmap(ptr, size)` from `s0`, `p0` to `s1`, `p1`, with the result
/// `r`.
pub open spec fn unmap_outcome(
    s0: MemSpace,
    p0: PhysMem,
    s1: MemSpace,
    p1: PhysMem,
    ptr: usize,
    size: usize,
    r: Result<(), Errno>,
) -> bool {
    &&& (p1.default_page_spec() == p0.default_page_spec())
    &&& (p1.pages() == p0.pages())
    &&& (r is Err <==> !is_page_aligned(ptr as int) || size > WINDOW_PAGES || page_addr(ptr as int, size as int) > usize::MAX)
    &&& (r is Err ==> r == Err::<(), Errno>(Errno::InvalidArgument) && s1 == s0
        && p1 == p0)
    &&& (r is Ok ==> {
        &&& forall|v: usize| #[trigger] s1.page_table().contains_key(v) <==> (s0.page_table().contains_key(v)
            && !(ptr <= v < page_addr(ptr as int, size as int)))
        &&& forall|v: usize| #[trigger] s1.page_table().contains_key(v) ==> s1.page_table()[v] == s0.page_table()[v]
        &&& forall|c: int, o: MemMapping|
            ptr <= c < page_addr(ptr as int, size as int) && #[trigger] s1.mapping_set().contains(o) ==> !(#[trigger] o@.contains(c))
        &&& forall|c: int, fl: u8|
            !(ptr <= c < page_addr(ptr as int, size as int)) ==> (#[trigger] mapped_with(&s1, c, fl) <==> mapped_with(&s0, c, fl))
        &&& forall|f: usize|
            f != p0.default_page_spec().unwrap() && p0.refcount(f) >= s0.frame_uses(f)
                ==> #[trigger] p1.refcount(f) + s0.frame_uses(f) == p0.refcount(f) + s1.frame_uses(f)
        &&& forall|f: usize| #[trigger] s1.frame_uses(f) <= s0.frame_uses(f)
    })
    &&& (forall|m: MemMapping| #[trigger] s0.mapping_set().contains(m) && m@ == (Region { begin: ptr as int, size: size as int }) ==> {
        &&& r is Ok
        &&& s1.gap_set() == release(s0.gap_set(), m@)
        &&& s1.mapping_set() == s0.mapping_set().remove(m)
        &&& forall|f: usize| #[trigger] s1.frame_uses(f) + m.uses(s0.page_table(), size as int, f)
            == s0.frame_uses(f)
        &&& forall|f: usize|
            f != p0.default_page_spec().unwrap() ==> #[trigger] p1.refcount(f)
                == sat_sub(p0.refcount(f), m.uses(s0.page_table(), size as int, f))
    })
    &&& (r is Ok ==> forall|k: int|
        0 <= k < p0.frames().len() && p0.refs().contains_key(frame_addr(k) as usize)
            && !p1.refs().contains_key(frame_addr(k) as usize) ==> #[trigger] p1.frames()[k] is None)
    &&& (forall|m: MemMapping|
        #[trigger] s0.mapping_set().contains(m) && is_page_aligned(ptr as int) && size >= 1 && m@.begin <= ptr
            && page_addr(ptr as int, size as int) <= m@.end() ==> {
            &&& r is Ok
            &&& s1.mapping_set() == split_out(s0.mapping_set(), m, ptr as int, page_addr(ptr as int, size as int))
            &&& s1.gap_set() == release(s0.gap_set(), Region { begin: ptr as int, size: size as int })
        })
    &&& (r is Ok && (forall|c: int, o: MemMapping|
        ptr <= c < page_addr(ptr as int, size as int) && #[trigger] s0.mapping_set().contains(o) ==> !(#[trigger] o@.contains(c)))
        ==> s1 == s0 && p1 == p0)
}

/// The outcome of `MemSpace::unmap_all()` from `s0`, `p0` to `s1`, `p1`.
pub open spec fn drop_outcome(
    s0: MemSpace,
    p0: PhysMem,
    s1: MemSpace,
    p1: PhysMem,
) -> bool {
    &&& (p1.default_page_spec() == p0.default_page_spec())
    &&& (p1.pages() == p0.pages())
    &&& (s1.gap_set() == set![MemGap::from_region(window())])
    &&& (s1.mapping_set() == Set::<MemMapping>::empty())
    &&& (s1.page_table() == Map::<usize, PageEntry>::empty())
    &&& (forall|f: usize|
        f != p0.default_page_spec().unwrap() ==> #[trigger] p1.refcount(f)
            == sat_sub(p0.refcount(f), s0.frame_uses(f)))
    &&& (forall|k: int|
        0 <= k < p0.frames().len() ==> #[trigger] p1.frames()[k] == p0.frames()[k]
            || (p1.frames()[k] is None && p0.refs().contains_key(frame_addr(k) as usize)
            && !p1.refs().contains_key(frame_addr(k) as usize)))
    &&& (forall|k: int|
        0 <= k < p0.frames().len() && p0.refs().contains_key(frame_addr(k) as usize)
            && !p1.refs().contains_key(frame_addr(k) as usize) ==> #[trigger] p1.frames()[k] is None)
}

/// The outcome of `MemSpace::handle_page_fault(virt, code)` from `s0`, `p0` to `s1`, `p1`,
/// with the result `r`.
pub open spec fn fault_outcome(
    s0: MemSpace,
    p0: PhysMem,
    s1: MemSpace,
    p1: PhysMem,
    virt: usize,
    code: u32,
    r: bool,
) -> bool {
    &&& (p1.default_page_spec() == p0.default_page_spec())
    &&& (s1.gap_set() == s0.gap_set())
    &&& (s1.mapping_set() == s0.mapping_set())
    &&& (code & PAGE_FAULT_PRESENT == 0 ==> !r)
    &&& (code & PAGE_FAULT_PRESENT != 0 && (exists|m: MemMapping| #[trigger] s0.mapping_set().contains(m)
        && m@.contains(virt as int) && (code & PAGE_FAULT_WRITE == 0 || has_flag(m.flag_bits(), MAPPING_FLAG_WRITE)))
        && (exists|k: int| 0 <= k < p0.frames().len() && #[trigger] p0.frames()[k] is None) ==> r)
    &&& ((forall|m: MemMapping| #[trigger] s0.mapping_set().contains(m) ==> !m@.contains(virt as int)) ==> !r)
    &&& (forall|m: MemMapping|
        #[trigger] s0.mapping_set().contains(m) && m@.contains(virt as int) && code
            & PAGE_FAULT_WRITE != 0 && !has_flag(m.flag_bits(), MAPPING_FLAG_WRITE) ==> !r)
    &&& (!r ==> s1.page_table() == s0.page_table() && p1.refs() == p0.refs()
        && p1.frames() == p0.frames())
    &&& (s1.mapping_seq() == s0.mapping_seq())
    &&& (r ==> exists|m: MemMapping| {
        &&& #[trigger] s0.mapping_set().contains(m)
        &&& m@.contains(virt as int)
        &&& ({
            let v = (virt - (virt - m@.begin) % PAGE_SIZE as int) as usize;
            let e = s1.page_table()[v];
            let d = p0.default_page_spec().unwrap();
            &&& s1.page_table() == s0.page_table().insert(v, e)
            &&& e.phys != d
            &&& e.flags == vmem_flags_spec(m.flag_bits(), true, p1.refcount(e.phys) > 1)
        })
    })
    &&& (r ==> s1.tlb_flushed())
    &&& (r ==> forall|f: usize|
        f != p0.default_page_spec().unwrap() ==> #[trigger] p1.refcount(f) + s0.leaves(s1, virt, f) == p0.refcount(f) + s1.leaves(s0, virt, f))
    &&& (r ==> forall|f: usize| #[trigger] s1.frame_uses(f) + s0.leaves(s1, virt, f)
        == s0.frame_uses(f) + s1.leaves(s0, virt, f))
    &&& (r && s1.page_table()[VMem::page_of(virt)].phys != s0.page_table()[VMem::page_of(virt)].phys
        ==> p0.refcount(s1.page_table()[VMem::page_of(virt)].phys) == 0)
    &&& (r && s1.page_table()[VMem::page_of(virt)].phys != s0.page_table()[VMem::page_of(virt)].phys
        ==> p1.page(s1.page_table()[VMem::page_of(virt)].phys as int) == if s0.page_table()[VMem::page_of(
        virt,
    )].phys == p0.default_page_spec().unwrap() {
        crate::phys::zero_page()
    } else {
        p0.page(s0.page_table()[VMem::page_of(virt)].phys as int)
    })
    &&& (!r ==> p1.pages() == p0.pages())
}

impl MemSpace {
    /// The mappings in the order of their addresses.
    pub closed spec fn mapping_seq(&self) -> Seq<MemMapping> {
        self.mappings.seq()
    }

    /// The number of pages of the space that translate to frame `f`.
    pub open spec fn frame_uses(&self, f: usize) -> nat {
        seq_uses(self.mapping_seq(), self.page_table(), self.mapping_seq().len() as int, f)
    }

    /// The gaps.
    pub closed spec fn gap_set(&self) -> Set<MemGap> {
        self.gaps@
    }

    /// The gaps of size class `b`.
    pub closed spec fn gap_bucket(&self, b: int) -> Set<MemGap> {
        self.gaps.bucket(b)
    }

    /// The gaps of size class `b`, in the order they are searched.
    pub closed spec fn gap_bucket_seq(&self, b: int) -> Seq<MemGap> {
        self.gaps.bucket_seq(b)
    }

    /// Whether `g` is the gap that the first-fit-by-bucket search for `size` pages finds:
    /// the first gap of at least `size` pages in the buckets from the size class of `size`
    /// upward, each bucket searched in order.
    pub open spec fn first_fit(&self, g: MemGap, size: nat) -> bool {
        exists|b: int, j: int| {
            &&& bucket_of(size) <= b < GAPS_BUCKETS_COUNT
            &&& 0 <= j < self.gap_bucket_seq(b).len()
            &&& #[trigger] self.gap_bucket_seq(b)[j] == g
            &&& g@.size >= size
            &&& forall|c: int, k: int|
                bucket_of(size) <= c < b && 0 <= k < self.gap_bucket_seq(c).len() ==> (#[trigger] self.gap_bucket_seq(c)[k])@.size < size
            &&& forall|k: int| 0 <= k < j ==> (#[trigger] self.gap_bucket_seq(b)[k])@.size < size
        }
    }

    /// The mappings.
    pub closed spec fn mapping_set(&self) -> Set<MemMapping> {
        self.mappings@
    }

    /// The translations of the page table.
    pub closed spec fn page_table(&self) -> Map<usize, PageEntry> {
        self.vmem@
    }

    /// Whether every change of the page table has been flushed.
    pub closed spec fn tlb_flushed(&self) -> bool {
        self.vmem.flushed()
    }

    /// Whether the address `a` lies in a gap or in a mapping.
    pub open spec fn covered(&self, a: int) -> bool {
        ||| exists|g: MemGap| #[trigger] self.gap_set().contains(g) && g@.contains(a)
        ||| exists|m: MemMapping| #[trigger] self.mapping_set().contains(m) && m@.contains(a)
    }

    /// Whether `v` is the address of a page of a mapping.
    pub open spec fn is_mapped_page(&self, v: usize) -> bool {
        exists|m: MemMapping| #[trigger] self.mapping_set().contains(m) && m.is_page_of(m@.size, v as int)
    }

    /// The gaps and the mappings are pairwise disjoint and together cover exactly the window
    /// `[ALLOC_BEGIN, PROCESS_END)`.
    pub open spec fn tiles(&self) -> bool {
        &&& forall|g: MemGap| #[trigger] self.gap_set().contains(g) ==> g.wf() && g@.in_window()
        &&& forall|m: MemMapping| #[trigger] self.mapping_set().contains(m) ==> m.wf() && m@.in_window()
        &&& forall|g1: MemGap, g2: MemGap|
            #[trigger] self.gap_set().contains(g1) && #[trigger] self.gap_set().contains(g2) && g1 != g2
                ==> g1@.disjoint(g2@)
        &&& forall|m1: MemMapping, m2: MemMapping|
            #[trigger] self.mapping_set().contains(m1) && #[trigger] self.mapping_set().contains(m2) && m1
                != m2 ==> m1@.disjoint(m2@)
        &&& forall|g: MemGap, m: MemMapping|
            #[trigger] self.gap_set().contains(g) && #[trigger] self.mapping_set().contains(m)
                ==> g@.disjoint(m@)
        &&& forall|a: int| ALLOC_BEGIN <= a < PROCESS_END ==> #[trigger] self.covered(a)
    }

    /// Each gap is in the bucket of its size class, and in no other.
    pub open spec fn buckets_consistent(&self) -> bool {
        forall|b: int, g: MemGap|
            0 <= b < GAPS_BUCKETS_COUNT ==> (#[trigger] self.gap_bucket(b).contains(g) <==> (
            self.gap_set().contains(g) && bucket_of(g@.size as nat) == b))
    }

    /// No gap ends where another begins: freed regions are always merged.
    pub open spec fn gaps_maximal(&self) -> bool {
        forall|g1: MemGap, g2: MemGap|
            #[trigger] self.gap_set().contains(g1) && #[trigger] self.gap_set().contains(g2)
                ==> g1@.end() != g2@.begin
    }

    /// The page table translates exactly the pages of the mappings.
    pub open spec fn vmem_consistent(&self) -> bool {
        forall|v: usize| #[trigger] self.page_table().contains_key(v) <==> self.is_mapped_page(v)
    }

    /// Every writable page belongs to a `WRITE` mapping and translates to a frame other than
    /// the default page, which is not shared unless the mapping is `SHARED`.
    pub open spec fn writes_safe(&self, phys: &PhysMem) -> bool {
        forall|m: MemMapping, v: usize|
            #[trigger] self.mapping_set().contains(m) && #[trigger] m.is_page_of(m@.size, v as int)
                && self.page_table().contains_key(v) && writable(self.page_table()[v].flags) ==> {
                &&& has_flag(m.flag_bits(), MAPPING_FLAG_WRITE)
                &&& phys.default_page_spec() != Some(self.page_table()[v].phys)
                &&& (phys.refcount(self.page_table()[v].phys) <= 1 || has_flag(m.flag_bits(), MAPPING_FLAG_SHARED))
            }
    }

    pub open spec fn wf(&self) -> bool {
        &&& self.inner_wf()
        &&& self.tiles()
        &&& self.buckets_consistent()
        &&& self.gaps_maximal()
        &&& self.vmem_consistent()
    }

    pub closed spec fn inner_wf(&self) -> bool {
        &&& self.gaps.wf()
        &&& self.mappings.wf()
    }

    /// Creates a memory space with one gap covering the whole window, no mapping, and an
    /// empty page table. The default page is allocated first if need be; where that fails,
    /// nothing changes and `OutOfMemory` is returned.
    pub fn new(phys: &mut PhysMem) -> (r: Result<MemSpace, Errno>)
        requires
            old(phys).wf(),
        ensures
            final(phys).wf(),
            final(phys).refs() == old(phys).refs(),
            r is Err <==> old(phys).default_page_spec() is None && forall|k: int|
                0 <= k < old(phys).frames().len() ==> #[trigger] old(phys).frames()[k] is Some,
            r is Err ==> r == Err::<MemSpace, Errno>(Errno::OutOfMemory) && final(phys).same_memory(old(phys)),
            old(phys).default_page_spec() is Some ==> final(phys).default_page_spec() == old(phys).default_page_spec(),
            r matches Ok(s) ==> {
                &&& s.wf()
                &&& s.gap_set() == set![MemGap::from_region(window())]
                &&& s.mapping_set() == Set::<MemMapping>::empty()
                &&& s.page_table() == Map::<usize, PageEntry>::empty()
                &&& s.tlb_flushed()
                &&& final(phys).default_page_spec() is Some
                &&& forall|f: usize| #[trigger] s.frame_uses(f) == 0
            },
    {
        phys.get_default_page()?;
        let mut gaps = GapRegistry::new();
        let g = MemGap::new(ALLOC_BEGIN, WINDOW_PAGES);
        gaps.insert(g);
        let id = phys.new_context_id();
        let s = MemSpace { gaps, mappings: MappingRegistry::new(), vmem: VMem::new(id) };
        proof {
            MemGap::lemma_from_region(window());
            assert(s.gap_set() =~= set![MemGap::from_region(window())]);
            assert forall|a: int| ALLOC_BEGIN <= a < PROCESS_END implies #[trigger] s.covered(a) by {
                assert(s.gap_set().contains(g) && g@.contains(a));
            }
            assert forall|b: int, x: MemGap|
                0 <= b < GAPS_BUCKETS_COUNT implies (#[trigger] s.gap_bucket(b).contains(x) <==> (
                s.gap_set().contains(x) && bucket_of(x@.size as nat) == b)) by {
                assert(s.gaps.buckets_consistent());
            }
        }
        Ok(s)
    }

    /// Maps a region of `size` pages with the flags `flags` and returns its address.
    ///
    /// With no `hint`, the region is taken from the low end of a gap chosen by size class
    /// (first fit by bucket); what remains of the gap stays a gap. Every page is mapped to
    /// the default page, read-only, until it is first written; a `NOLAZY` mapping gets its
    /// frames at once. Placing the region at the address `hint` is not supported: a valid
    /// hint gives `OutOfMemory`.
    ///
    /// Fails with `InvalidArgument` for a size of zero or larger than the window, or a hint
    /// that is misaligned or outside the window; with `OutOfMemory` where no gap is large
    /// enough, or frames run out for a `NOLAZY` mapping. On failure nothing changes.
    #[verifier::spinoff_prover]
    #[verifier::rlimit(60)]
    pub fn map(&mut self, hint: Option<usize>, size: usize, flags: u8, phys: &mut PhysMem) -> (r: Result<usize, Errno>)
        requires
            old(self).wf(),
            old(phys).wf(),
            old(phys).default_page_spec() is Some,
        ensures
            final(self).wf(),
            final(phys).wf(),
            final(phys).default_page_spec() == old(phys).default_page_spec(),
            size == 0 || size > WINDOW_PAGES ==> r == Err::<usize, Errno>(Errno::InvalidArgument),
            hint is Some && 0 < size <= WINDOW_PAGES ==> r == Err::<usize, Errno>(
                if !is_page_aligned(hint.unwrap() as int) || hint.unwrap() < ALLOC_BEGIN || page_addr(
                    hint.unwrap() as int,
                    size as int,
                ) > PROCESS_END {
                    Errno::InvalidArgument
                } else {
                    Errno::OutOfMemory
                },
            ),
            hint is None && 0 < size <= WINDOW_PAGES && (forall|g: MemGap| #[trigger] old(self).gap_set().contains(g) ==> g@.size < size)
                ==> r == Err::<usize, Errno>(Errno::OutOfMemory),
            hint is None && 0 < size <= WINDOW_PAGES && (exists|g: MemGap| #[trigger] old(self).gap_set().contains(g) && g@.size >= size)
                && (!has_flag(flags, MAPPING_FLAG_NOLAZY) || old(phys).free_frames() >= size) ==> r is Ok,
            r is Err ==> {
                &&& final(self).gap_set() == old(self).gap_set()
                &&& final(self).mapping_set() == old(self).mapping_set()
                &&& final(self).page_table() == old(self).page_table()
                &&& forall|f: usize| f != old(phys).default_page_spec().unwrap() ==> #[trigger] final(phys).refcount(f)
                    == old(phys).refcount(f)
                &&& final(self).mapping_seq() == old(self).mapping_seq()
                &&& final(phys).frames() == old(phys).frames()
            },
            r matches Ok(p) ==> {
                &&& forall|f: usize| f != old(phys).default_page_spec().unwrap() && #[trigger] final(phys).refcount(f)
                    > old(phys).refcount(f) ==> old(phys).refcount(f) == 0
                &&& forall|v: usize| #[trigger] final(self).page_table().contains_key(v) <==> (old(self).page_table().contains_key(v)
                    || MemMapping::from_parts(Region { begin: p as int, size: size as int }, flags).is_page_of(size as int, v as int))
                &&& forall|v: usize| #[trigger] final(self).page_table().contains_key(v)
                    && !MemMapping::from_parts(Region { begin: p as int, size: size as int }, flags).is_page_of(size as int, v as int)
                    ==> final(self).page_table()[v] == old(self).page_table()[v]
                &&& forall|v: usize| #[trigger] MemMapping::from_parts(Region { begin: p as int, size: size as int }, flags).is_page_of(size as int, v as int)
                    ==> final(self).page_table()[v].flags == expected_flags(
                        MemMapping::from_parts(Region { begin: p as int, size: size as int }, flags),
                        final(self).page_table()[v].phys,
                        final(phys),
                        old(phys).default_page_spec().unwrap(),
                    )
                &&& final(self).mapping_set() == old(self).mapping_set().insert(
                    MemMapping::from_parts(Region { begin: p as int, size: size as int }, flags),
                )
            },
            r matches Ok(p) ==> exists|g: MemGap| {
                &&& #[trigger] old(self).gap_set().contains(g)
                &&& old(self).first_fit(g, size as nat)
                &&& g@.begin == p
                &&& g@.size >= size
                &&& final(self).gap_set() == carve(old(self).gap_set(), g, size as int)
                &&& final(self).mapping_set() == old(self).mapping_set().insert(
                    MemMapping::from_parts(Region { begin: p as int, size: size as int }, flags),
                )
                &&& final(self).tlb_flushed()
                &&& forall|f: usize| f != old(phys).default_page_spec().unwrap() ==> #[trigger] final(phys).refcount(f)
                    + old(self).frame_uses(f) == old(phys).refcount(f) + final(self).frame_uses(f)
                &&& !has_flag(flags, MAPPING_FLAG_NOLAZY) ==> {
                    &&& final(phys).same_memory(old(phys))
                    &&& forall|f: usize| f != old(phys).default_page_spec().unwrap() ==> #[trigger] final(self).frame_uses(f)
                        == old(self).frame_uses(f)
                    &&& final(self).page_table() == old(self).page_table().union_prefer_right(
                        MemMapping::from_parts(Region { begin: p as int, size: size as int }, flags)
                            .default_entries(old(phys).default_page_spec().unwrap()),
                    )
                }
            },
    {
        if size == 0 || size > WINDOW_PAGES {
            return Err(Errno::InvalidArgument);
        }
        if let Some(h) = hint {
            if !is_aligned(h) || h < ALLOC_BEGIN || h > PROCESS_END || (PROCESS_END - h) / PAGE_SIZE < size {
                return Err(Errno::InvalidArgument);
            }
            return Err(Errno::OutOfMemory);
        }
        let g = match self.gaps.find_fit(size) {
            Some(g) => g,
            None => return Err(Errno::OutOfMemory),
        };
        proof {
            self.lemma_found_first_fit(g, size as nat);
        }
        let begin = g.get_begin();
        let m = MemMapping::new(begin, size, flags);
        let (_, right) = g.consume(0, size);
        let ghost s0 = *self;
        let removed = self.gaps.remove(begin);
        proof {
            let x = removed.unwrap();
            if x != g {
                assert(x@.disjoint(g@));
            }
            assert(x == g);
            MemMapping::lemma_from_parts(m@, flags);
            assert(s0.gap_set().contains(g));
            assert forall|o: MemMapping| #[trigger] s0.mappings@.contains(o) implies o@.disjoint(m@) by {
                assert(s0.mapping_set().contains(o));
                assert(g@.disjoint(o@));
            }
            assert(self.vmem@ == s0.vmem@);
            assert forall|v: usize| m.is_page_of(m@.size, v as int) implies !#[trigger] self.vmem@.contains_key(v) by {
                if self.vmem@.contains_key(v) {
                    assert(s0.page_table().contains_key(v));
                    assert(s0.is_mapped_page(v));
                    let o = choose|o: MemMapping| #[trigger] s0.mapping_set().contains(o) && o.is_page_of(o@.size, v as int);
                    assert(g@.disjoint(o@));
                    assert(o@.contains(v as int));
                }
            }
        }
        if let Some(rg) = right {
            proof {
                assert forall|o: MemGap| #[trigger] self.gaps@.contains(o) implies o@.disjoint(rg@) by {
                    assert(s0.gaps@.contains(o) && o != g);
                    assert(g@.disjoint(o@));
                }
            }
            self.gaps.insert(rg);
        }
        let ghost ms0 = self.mappings.seq();
        assert(ms0 == s0.mapping_seq());
        self.mappings.insert(m);
        let ghost s1 = *self;
        assert(exists|p: int| 0 <= p <= ms0.len() && s1.mapping_seq() == ms0.insert(p, m));
        let d = phys.default_page_addr();
        match m.map_default(&mut self.vmem, phys) {
            Ok(()) => {
                proof {
                    assert(self.mapping_seq() == s1.mapping_seq());
                    Self::lemma_map_uses(s0, *self, m);
                    let d = phys.default_page_spec().unwrap();
                    assert(s1.page_table() == s0.page_table());
                    if has_flag(flags, MAPPING_FLAG_NOLAZY) {
                        assert forall|f: usize| f != d && #[trigger] phys.refcount(f) > old(phys).refcount(f)
                            implies old(phys).refcount(f) == 0 by {
                            if old(phys).refcount(f) != 0 {
                                assert forall|i: int| 0 <= i < m@.size && self.page_table().contains_key(#[trigger] m.page(i) as usize)
                                    implies self.page_table()[m.page(i) as usize].phys != f by {
                                    m.lemma_page_of(m@.size, i);
                                }
                                m.lemma_uses_none(self.page_table(), m@.size, f);
                            }
                        }
                    }
                    if !has_flag(flags, MAPPING_FLAG_NOLAZY) {
                        assert forall|f: usize| f != d implies #[trigger] m.uses(self.page_table(), m@.size, f) == 0 by {
                            assert forall|i: int| 0 <= i < m@.size && self.page_table().contains_key(#[trigger] m.page(i) as usize)
                                implies self.page_table()[m.page(i) as usize].phys != f by {
                                m.lemma_page_of(m@.size, i);
                            }
                            m.lemma_uses_none(self.page_table(), m@.size, f);
                        }
                    }
                    Self::lemma_map_wf(s0, *self, g, m, right);
                    assert(self.gap_set() =~= carve(s0.gap_set(), g, size as int)) by {
                        if g@.size > size {
                            MemGap::lemma_from_region(right.unwrap()@);
                        }
                    }
                }
                Ok(begin)
            },
            Err(e) => {
                let ghost ms1 = self.mappings.seq();
                let ghost set1 = self.mappings@;
                let removed = self.mappings.remove(begin);
                proof {
                    assert(ms1 == s1.mapping_seq());
                    assert(set1.contains(m));
                    let x = removed.unwrap();
                    if x != m {
                        assert(set1.contains(x));
                        assert(s1.mappings.wf());
                        assert(x@.disjoint(m@));
                    }
                    let p = choose|p: int| 0 <= p <= ms0.len() && ms1 == ms0.insert(p, m);
                    let q = choose|q: int| 0 <= q < ms1.len() && ms1[q] == x && self.mappings.seq() == ms1.remove(q);
                    s0.mappings.lemma_seq();
                    if q != p {
                        let j = if q < p { q } else { q - 1 };
                        assert(ms1[q] == ms0[j]);
                        assert(s0.mapping_set().contains(ms0[j]));
                        assert(ms0[j]@.disjoint(g@));
                        assert(m@.begin == g@.begin);
                    }
                    assert(self.mappings.seq() =~= ms0);
                }
                if let Some(rg) = right {
                    let _ = self.gaps.remove(rg.get_begin());
                }
                proof {
                    assert forall|o: MemGap| #[trigger] self.gaps@.contains(o) implies o@.disjoint(g@) by {
                        assert(s0.gaps@.contains(o) && o != g);
                    }
                }
                self.gaps.insert(g);
                proof {
                    assert(self.gaps@ =~= s0.gaps@);
                    assert(self.mappings@ =~= s0.mappings@);
                    assert(self.vmem@ == s0.vmem@);
                    Self::lemma_same_views(s0, *self);
                }
                Err(e)
            },
        }
    }

    proof fn lemma_same_views(s0: MemSpace, s1: MemSpace)
        requires
            s0.wf(),
            s1.inner_wf(),
            s1.gaps@ == s0.gaps@,
            s1.mappings@ == s0.mappings@,
            s1.vmem@ == s0.vmem@,
        ensures
            s1.wf(),
    {
        assert(s1.gap_set() == s0.gap_set());
        assert(s1.mapping_set() == s0.mapping_set());
        assert(s1.page_table() == s0.page_table());
        assert forall|b: int, x: MemGap|
            0 <= b < GAPS_BUCKETS_COUNT implies (#[trigger] s1.gap_bucket(b).contains(x) <==> (
            s1.gap_set().contains(x) && bucket_of(x@.size as nat) == b)) by {
            assert(s1.gaps.buckets_consistent());
        }
        assert forall|a: int| ALLOC_BEGIN <= a < PROCESS_END implies #[trigger] s1.covered(a) by {
            assert(s0.covered(a));
        }
        assert forall|v: usize| #[trigger] s1.page_table().contains_key(v) <==> s1.is_mapped_page(v) by {
            assert(s0.page_table().contains_key(v) <==> s0.is_mapped_page(v));
        }
    }

    #[verifier::spinoff_prover]
    proof fn lemma_map_wf(s0: MemSpace, s1: MemSpace, g: MemGap, m: MemMapping, right: Option<MemGap>)
        requires
            s0.wf(),
            s1.inner_wf(),
            s0.gaps@.contains(g),
            m@.begin == g@.begin,
            1 <= m@.size <= g@.size,
            m.wf(),
            right is None <==> g@.size == m@.size,
            right matches Some(rg) ==> rg@ == (Region { begin: m@.end(), size: g@.size - m@.size }) && rg.wf(),
            s1.gaps@ == (if let Some(rg) = right { s0.gaps@.remove(g).insert(rg) } else { s0.gaps@.remove(g) }),
            s1.mappings@ == s0.mappings@.insert(m),
            forall|v: usize| #[trigger] s1.vmem@.contains_key(v) <==> (s0.vmem@.contains_key(v) || m.is_page_of(m@.size, v as int)),
        ensures
            s1.wf(),
    {
        assert(s0.gap_set().contains(g));
        assert forall|x: MemGap| #[trigger] s1.gap_set().contains(x) implies x.wf() && x@.in_window() by {
            if s0.gap_set().contains(x) {
            }
            if right is Some {
                if x == right.unwrap() {
                    assert(is_page_aligned(m@.end())) by {
                        crate::memory::lemma_page_addr_aligned(m@.begin, m@.size);
                    }
                }
            }
        }
        assert forall|y: MemMapping| #[trigger] s1.mapping_set().contains(y) implies y.wf() && y@.in_window() by {
            if y != m {
                assert(s0.mapping_set().contains(y));
            }
        }
        assert forall|x1: MemGap, x2: MemGap|
            #[trigger] s1.gap_set().contains(x1) && #[trigger] s1.gap_set().contains(x2) && x1 != x2
                implies x1@.disjoint(x2@) by {
            if s0.gap_set().contains(x1) && s0.gap_set().contains(x2) {
            } else if s0.gap_set().contains(x1) {
                assert(x1@.disjoint(g@));
            } else {
                assert(x2@.disjoint(g@));
            }
        }
        assert forall|y1: MemMapping, y2: MemMapping|
            #[trigger] s1.mapping_set().contains(y1) && #[trigger] s1.mapping_set().contains(y2) && y1 != y2
                implies y1@.disjoint(y2@) by {
            if y1 != m && y2 != m {
            } else if y1 == m {
                assert(s0.mapping_set().contains(y2));
                assert(g@.disjoint(y2@));
            } else {
                assert(s0.mapping_set().contains(y1));
                assert(g@.disjoint(y1@));
            }
        }
        assert forall|x: MemGap, y: MemMapping|
            #[trigger] s1.gap_set().contains(x) && #[trigger] s1.mapping_set().contains(y) implies x@.disjoint(y@) by {
            if s0.gap_set().contains(x) {
                assert(x != g);
                assert(x@.disjoint(g@));
                if y != m {
                    assert(s0.mapping_set().contains(y));
                }
            } else {
                if y != m {
                    assert(s0.mapping_set().contains(y));
                    assert(g@.disjoint(y@));
                }
            }
        }
        assert forall|a: int| ALLOC_BEGIN <= a < PROCESS_END implies #[trigger] s1.covered(a) by {
            assert(s0.covered(a));
            if exists|x: MemGap| #[trigger] s0.gap_set().contains(x) && x@.contains(a) {
                let x = choose|x: MemGap| #[trigger] s0.gap_set().contains(x) && x@.contains(a);
                if x != g {
                    assert(s1.gap_set().contains(x));
                } else if a < m@.end() {
                    assert(s1.mapping_set().contains(m));
                } else {
                    assert(s1.gap_set().contains(right.unwrap()));
                }
            } else {
                let y = choose|y: MemMapping| #[trigger] s0.mapping_set().contains(y) && y@.contains(a);
                assert(s1.mapping_set().contains(y));
            }
        }
        assert forall|x1: MemGap, x2: MemGap|
            #[trigger] s1.gap_set().contains(x1) && #[trigger] s1.gap_set().contains(x2) implies x1@.end() != x2@.begin by {
            if s0.gap_set().contains(x1) && s0.gap_set().contains(x2) {
            } else if s0.gap_set().contains(x1) {
                assert(x1 != g);
                assert(x1@.disjoint(g@));
            } else if s0.gap_set().contains(x2) {
                assert(s0.gap_set().contains(g));
            }
        }
        assert forall|v: usize| #[trigger] s1.page_table().contains_key(v) <==> s1.is_mapped_page(v) by {
            if s0.page_table().contains_key(v) {
                let y = choose|y: MemMapping| #[trigger] s0.mapping_set().contains(y) && y.is_page_of(y@.size, v as int);
                assert(s1.mapping_set().contains(y));
            }
            if m.is_page_of(m@.size, v as int) {
                assert(s1.mapping_set().contains(m));
            }
            if s1.is_mapped_page(v) {
                let y = choose|y: MemMapping| #[trigger] s1.mapping_set().contains(y) && y.is_page_of(y@.size, v as int);
                if y != m {
                    assert(s0.mapping_set().contains(y));
                    assert(s0.is_mapped_page(v));
                }
            }
        }
        assert forall|b: int, x: MemGap|
            0 <= b < GAPS_BUCKETS_COUNT implies (#[trigger] s1.gap_bucket(b).contains(x) <==> (
            s1.gap_set().contains(x) && bucket_of(x@.size as nat) == b)) by {
            assert(s1.gaps.buckets_consistent());
        }
    }

    /// Same as `map`, but returns the address of the end of the region, the top of a stack.
    pub fn map_stack(&mut self, hint: Option<usize>, size: usize, flags: u8, phys: &mut PhysMem) -> (r: Result<usize, Errno>)
        requires
            old(self).wf(),
            old(phys).wf(),
            old(phys).default_page_spec() is Some,
        ensures
            final(self).wf(),
            final(phys).wf(),
            final(phys).default_page_spec() == old(phys).default_page_spec(),
            r matches Err(e) ==> map_outcome(*old(self), *old(phys), *final(self), *final(phys), hint, size, flags, Err(e)),
            r matches Ok(top) ==> top >= size * PAGE_SIZE && map_outcome(
                *old(self),
                *old(phys),
                *final(self),
                *final(phys),
                hint,
                size,
                flags,
                Ok((top - size * PAGE_SIZE) as usize),
            ),
    {
        let res = self.map(hint, size, flags, phys);
        proof {
            assert(map_outcome(*old(self), *old(phys), *self, *phys, hint, size, flags, res));
        }
        let begin = match res {
            Ok(b) => b,
            Err(e) => return Err(e),
        };
        proof {
            let m = MemMapping::from_parts(Region { begin: begin as int, size: size as int }, flags);
            MemMapping::lemma_from_parts(Region { begin: begin as int, size: size as int }, flags);
            assert(self.mapping_set().contains(m));
            assert(m@.in_window());
        }
        Ok(begin + size * PAGE_SIZE)
    }

    /// Resolves a page fault at the address `virt` with the error code `code`, and tells
    /// whether the faulting access can be retried.
    ///
    /// Returns `false`, changing nothing, where the page was not present, where no mapping
    /// contains `virt`, and for a write to a mapping without `WRITE`. Otherwise the page of
    /// `virt` is given a frame of its own (see `MemMapping::map`), trying a second time if
    /// the first fails; `false` is returned where both fail.
    #[verifier::spinoff_prover]
    pub fn handle_page_fault(&mut self, virt: usize, code: u32, phys: &mut PhysMem) -> (r: bool)
        requires
            old(self).wf(),
            old(phys).wf(),
            old(phys).default_page_spec() is Some,
        ensures
            final(self).wf(),
            final(phys).wf(),
            final(phys).default_page_spec() == old(phys).default_page_spec(),
            final(self).gap_set() == old(self).gap_set(),
            final(self).mapping_set() == old(self).mapping_set(),
            code & PAGE_FAULT_PRESENT == 0 ==> !r,
            code & PAGE_FAULT_PRESENT != 0 && (exists|m: MemMapping| #[trigger] old(self).mapping_set().contains(m)
                && m@.contains(virt as int) && (code & PAGE_FAULT_WRITE == 0 || has_flag(m.flag_bits(), MAPPING_FLAG_WRITE)))
                && (exists|k: int| 0 <= k < old(phys).frames().len() && #[trigger] old(phys).frames()[k] is None) ==> r,
            (forall|m: MemMapping| #[trigger] old(self).mapping_set().contains(m) ==> !m@.contains(virt as int)) ==> !r,
            forall|m: MemMapping|
                #[trigger] old(self).mapping_set().contains(m) && m@.contains(virt as int) && code
                    & PAGE_FAULT_WRITE != 0 && !has_flag(m.flag_bits(), MAPPING_FLAG_WRITE) ==> !r,
            !r ==> final(self).page_table() == old(self).page_table() && final(phys).refs() == old(phys).refs()
                && final(phys).frames() == old(phys).frames(),
            final(self).mapping_seq() == old(self).mapping_seq(),
            r ==> exists|m: MemMapping| {
                &&& #[trigger] old(self).mapping_set().contains(m)
                &&& m@.contains(virt as int)
                &&& ({
                    let v = (virt - (virt - m@.begin) % PAGE_SIZE as int) as usize;
                    let e = final(self).page_table()[v];
                    let d = old(phys).default_page_spec().unwrap();
                    &&& final(self).page_table() == old(self).page_table().insert(v, e)
                    &&& e.phys != d
                    &&& e.flags == vmem_flags_spec(m.flag_bits(), true, final(phys).refcount(e.phys) > 1)
                })
            },
            r ==> final(self).tlb_flushed(),
            r ==> forall|f: usize|
                f != old(phys).default_page_spec().unwrap() ==> #[trigger] final(phys).refcount(f) + old(self).leaves(*final(self), virt, f) == old(phys).refcount(f) + final(self).leaves(*old(self), virt, f),
            r ==> forall|f: usize| #[trigger] final(self).frame_uses(f) + old(self).leaves(*final(self), virt, f)
                == old(self).frame_uses(f) + final(self).leaves(*old(self), virt, f),
            r && final(self).page_table()[VMem::page_of(virt)].phys != old(self).page_table()[VMem::page_of(virt)].phys
                ==> old(phys).refcount(final(self).page_table()[VMem::page_of(virt)].phys) == 0,
            r && final(self).page_table()[VMem::page_of(virt)].phys != old(self).page_table()[VMem::page_of(virt)].phys
                ==> final(phys).page(final(self).page_table()[VMem::page_of(virt)].phys as int) == if old(self).page_table()[VMem::page_of(
                virt,
            )].phys == old(phys).default_page_spec().unwrap() {
                crate::phys::zero_page()
            } else {
                old(phys).page(old(self).page_table()[VMem::page_of(virt)].phys as int)
            },
            !r ==> final(phys).pages() == old(phys).pages(),
    {
        if code & PAGE_FAULT_PRESENT == 0 {
            return false;
        }
        let m = match self.mappings.get_containing(virt) {
            Some(m) => m,
            None => return false,
        };
        if code & PAGE_FAULT_WRITE != 0 && m.get_flags() & MAPPING_FLAG_WRITE == 0 {
            return false;
        }
        let offset = (virt - m.get_begin()) / PAGE_SIZE;
        let ghost s0 = *self;
        let ghost p0 = *phys;
        proof {
            assert(self.mapping_set().contains(m));
            let v = m.page(offset as int);
            assert(v == virt - (virt - m@.begin) % PAGE_SIZE as int);
            assert(m.is_page_of(m@.size, v)) by {
                crate::memory::lemma_page_addr_aligned(0, offset as int);
            }
            assert(self.is_mapped_page(v as usize));
            assert(self.page_table().contains_key(v as usize));
        }
        let mut res = m.map(offset, &mut self.vmem, phys);
        if res.is_err() {
            res = m.map(offset, &mut self.vmem, phys);
        }
        proof {
            let v = m.page(offset as int) as usize;
            if res is Ok {
                crate::memory::lemma_mod_shift(m@.begin, virt as int);
                assert(v == VMem::page_of(virt));
                assert(self.page_table() == s0.page_table().insert(v, self.page_table()[v]));
                assert(self.mapping_seq() == s0.mapping_seq());
                Self::lemma_fault_uses(s0, *self, m, virt);
                let d = p0.default_page_spec().unwrap();
                let e0 = s0.page_table()[v];
                let e = self.page_table()[v];
                assert(p0.allocated_in(d as int, crate::phys::Zone::Kernel));
                if e.phys != e0.phys {
                    if e0.phys != d {
                        assert(p0.refs().contains_key(e0.phys));
                    }
                }
                if e.phys != e0.phys {
                    if p0.refs().contains_key(e.phys) {
                        assert(p0.allocated_in(e.phys as int, crate::phys::Zone::User));
                    }
                }
                assert forall|f: usize| f != d implies #[trigger] phys.refcount(f) + s0.leaves(*self, virt, f)
                    == p0.refcount(f) + self.leaves(s0, virt, f) by {
                    if e.phys != e0.phys && f == e.phys {
                        if p0.refs().contains_key(f) {
                            assert(p0.allocated_in(f as int, crate::phys::Zone::User));
                        }
                    }
                }
            }
            assert(self.vmem@.dom() =~= s0.vmem@.dom());
            assert(self.mapping_set() == s0.mapping_set());
            assert forall|w: usize| #[trigger] self.page_table().contains_key(w) <==> self.is_mapped_page(w) by {
                assert(s0.page_table().contains_key(w) <==> s0.is_mapped_page(w));
                assert(self.vmem@.dom().contains(w) == s0.vmem@.dom().contains(w));
                assert(self.is_mapped_page(w) == s0.is_mapped_page(w));
            }
            Self::lemma_same_views_but_table(s0, *self);
            if res is Ok {
                assert(p0.allocated_in(p0.default_page_spec().unwrap() as int, crate::phys::Zone::Kernel));
            }
        }
        res.is_ok()
    }

    proof fn lemma_same_views_but_table(s0: MemSpace, s1: MemSpace)
        requires
            s0.wf(),
            s1.inner_wf(),
            s1.gaps@ == s0.gaps@,
            s1.mappings@ == s0.mappings@,
            s1.vmem_consistent(),
        ensures
            s1.wf(),
    {
        assert(s1.gap_set() == s0.gap_set());
        assert(s1.mapping_set() == s0.mapping_set());
        assert forall|b: int, x: MemGap|
            0 <= b < GAPS_BUCKETS_COUNT implies (#[trigger] s1.gap_bucket(b).contains(x) <==> (
            s1.gap_set().contains(x) && bucket_of(x@.size as nat) == b)) by {
            assert(s1.gaps.buckets_consistent());
        }
        assert forall|a: int| ALLOC_BEGIN <= a < PROCESS_END implies #[trigger] s1.covered(a) by {
            assert(s0.covered(a));
        }
    }

    /// Clones the memory space for a fork. The sibling has the same gaps and mappings, and a
    /// page table translating the same pages to the same frames: each frame with a count
    /// gains one count per page translating to it. The flags of every page are then set
    /// again on both sides, so that a page whose frame is now shared is not writable unless
    /// its mapping is `SHARED`. Where a count cannot grow, everything is taken back and
    /// `OutOfMemory` is returned.
    #[verifier::spinoff_prover]
    pub fn fork(&mut self, phys: &mut PhysMem) -> (r: Result<MemSpace, Errno>)
        requires
            old(self).wf(),
            old(phys).wf(),
            old(phys).default_page_spec() is Some,
        ensures
            final(self).wf(),
            final(phys).wf(),
            final(phys).default_page_spec() == old(phys).default_page_spec(),
            final(phys).pages() == old(phys).pages(),
            final(phys).frames() == old(phys).frames(),
            final(self).gap_set() == old(self).gap_set(),
            final(self).mapping_set() == old(self).mapping_set(),
            forall|v: usize| #[trigger] final(self).page_table().contains_key(v) == old(self).page_table().contains_key(v),
            forall|v: usize| #[trigger] final(self).page_table().contains_key(v)
                ==> final(self).page_table()[v].phys == old(self).page_table()[v].phys,
            forall|f: usize| #[trigger] final(self).frame_uses(f) == old(self).frame_uses(f),
            (forall|f: usize| #[trigger] old(phys).refcount(f) >= 1 ==> old(phys).refcount(f) + old(self).frame_uses(f)
                <= usize::MAX) ==> r is Ok,
            r is Err ==> r == Err::<MemSpace, Errno>(Errno::OutOfMemory) && final(phys).refs() == old(phys).refs()
                && final(self).page_table() == old(self).page_table(),
            r matches Ok(c) ==> {
                &&& c.wf()
                &&& c.gap_set() == old(self).gap_set()
                &&& c.mapping_set() == old(self).mapping_set()
                &&& forall|v: usize| #[trigger] c.page_table().contains_key(v) == old(self).page_table().contains_key(v)
                &&& forall|v: usize| #[trigger] c.page_table().contains_key(v)
                    ==> c.page_table()[v].phys == old(self).page_table()[v].phys
                &&& forall|f: usize| #[trigger] c.frame_uses(f) == old(self).frame_uses(f)
                &&& forall|f: usize| #[trigger] final(phys).refcount(f) == forked_count(old(phys).refcount(f), old(self).frame_uses(f))
                &&& forall|m: MemMapping, v: usize|
                    #[trigger] old(self).mapping_set().contains(m) && #[trigger] m.is_page_of(m@.size, v as int) ==> {
                        &&& c.page_table()[v].flags == expected_flags(m, c.page_table()[v].phys, final(phys), final(phys).default_page_spec().unwrap())
                        &&& final(self).page_table()[v].flags == expected_flags(m, final(self).page_table()[v].phys, final(phys), final(phys).default_page_spec().unwrap())
                    }
                &&& c.tlb_flushed()
            },
    {
        let ghost s0 = *self;
        let ghost t0 = self.vmem@;
        let ghost d = phys.default_page_spec().unwrap();
        let mut child_gaps = GapRegistry::new();
        let gs = self.gaps.gaps();
        let mut i: usize = 0;
        while i < gs.len()
            invariant
                *self == s0,
                self.gaps.wf(),
                forall|x: MemGap| self.gaps@.contains(x) <==> #[trigger] gs@.contains(x),
                forall|a: int, b: int| 0 <= a < gs@.len() && 0 <= b < gs@.len() && a != b ==> gs@[a] != gs@[b],
                forall|a: int| 0 <= a < gs@.len() ==> self.gaps@.contains(#[trigger] gs@[a]),
                i <= gs@.len(),
                child_gaps.wf(),
                forall|x: MemGap| #[trigger] child_gaps@.contains(x) <==> exists|a: int| 0 <= a < i && gs@[a] == x,
            decreases gs@.len() - i,
        {
            let g = gs[i];
            proof {
                assert forall|o: MemGap| #[trigger] child_gaps@.contains(o) implies o@.disjoint(g@) by {
                    let a = choose|a: int| 0 <= a < i && gs@[a] == o;
                    assert(self.gaps@.contains(o) && self.gaps@.contains(g) && o != g);
                }
            }
            child_gaps.insert(g);
            proof {
                assert forall|x: MemGap| #[trigger] child_gaps@.contains(x) <==> exists|a: int| 0 <= a < i + 1 && gs@[a] == x by {
                    if x == g {
                        assert(gs@[i as int] == x);
                    }
                }
            }
            i = i + 1;
        }
        proof {
            assert forall|x: MemGap| #[trigger] child_gaps@.contains(x) <==> self.gaps@.contains(x) by {
                if gs@.contains(x) {
                    let a = choose|a: int| 0 <= a < gs@.len() && gs@[a] == x;
                }
            }
            assert(child_gaps@ =~= self.gaps@);
        }
        let mut child_mappings = MappingRegistry::new();
        let id = phys.new_context_id();
        let ghost p0 = *phys;
        let mut child_vmem = self.vmem.duplicate(id);
        let ms = self.mappings.mappings();
        proof {
            self.mappings.lemma_seq();
        }
        let mut j: usize = 0;
        while j < ms.len()
            invariant
                *self == s0,
                s0.wf(),
                p0.same_memory(old(phys)),
                self.mappings.wf(),
                ms@ == self.mappings.seq(),
                forall|a: int, b: int| 0 <= a < b < ms@.len() ==> (#[trigger] ms@[a])@.end() <= (#[trigger] ms@[b])@.begin,
                forall|a: int| 0 <= a < ms@.len() ==> self.mappings@.contains(#[trigger] ms@[a]),
                forall|a: int, b: int| 0 <= a < ms@.len() && 0 <= b < ms@.len() && a != b ==> ms@[a] != ms@[b],
                j <= ms@.len(),
                child_mappings.wf(),
                child_mappings.seq() == ms@.subrange(0, j as int),
                forall|x: MemMapping| #[trigger] child_mappings@.contains(x) <==> exists|a: int| 0 <= a < j && ms@[a] == x,
                child_vmem@ == t0,
                self.vmem@ == t0,
                phys.wf(),
                p0.wf(),
                phys.frames() == p0.frames(),
                phys.pages() == p0.pages(),
                phys.default_page_spec() == Some(d),
                p0.default_page_spec() == Some(d),
                forall|f: usize| #[trigger] phys.refcount(f) == forked_count(p0.refcount(f), seq_uses(ms@, t0, j as int, f)),
            decreases ms@.len() - j,
        {
            let m = ms[j];
            proof {
                assert forall|o: MemMapping| #[trigger] child_mappings@.contains(o) implies o@.disjoint(m@) by {
                    let a = choose|a: int| 0 <= a < j && ms@[a] == o;
                    assert(ms@[a]@.end() <= ms@[j as int]@.begin);
                }
                assert forall|a: int| 0 <= a < child_mappings.seq().len() implies (#[trigger] child_mappings.seq()[a])@.begin < m@.begin by {
                    assert(child_mappings.seq()[a] == ms@[a]);
                    assert(ms@[a]@.end() <= ms@[j as int]@.begin);
                }
            }
            let ghost pj = *phys;
            match m.fork(&mut child_mappings, &self.vmem, phys) {
                Ok(_) => {},
                Err(_) => {
                    proof {
                        assert(phys.refs() == pj.refs());
                        assert(!(forall|f: usize| #[trigger] old(phys).refcount(f) >= 1 ==> old(phys).refcount(f) + old(self).frame_uses(f) <= usize::MAX)) by {
                            let f = choose|f: usize| pj.refcount(f) >= 1 && #[trigger] pj.refcount(f) + m.uses(t0, m@.size, f) > usize::MAX;
                            assert(pj.refcount(f) == forked_count(p0.refcount(f), seq_uses(ms@, t0, j as int, f)));
                            lemma_seq_uses_monotonic(ms@, t0, j as int + 1, ms@.len() as int, f);
                            assert(s0.mapping_seq() == ms@);
                            assert(s0.page_table() == t0);
                            assert(p0.refcount(f) >= 1 && p0.refcount(f) + s0.frame_uses(f) > usize::MAX);
                            assert(old(phys).refs() == p0.refs());
                            assert(old(phys).refcount(f) >= 1 && old(phys).refcount(f) + old(self).frame_uses(f) > usize::MAX);
                        }
                        assert forall|a: int, b: int| 0 <= a < ms@.len() && 0 <= b < ms@.len() && a != b implies (#[trigger] ms@[a])@.disjoint((#[trigger] ms@[b])@) by {
                            if a < b {
                                assert(ms@[a]@.end() <= ms@[b]@.begin);
                            } else {
                                assert(ms@[b]@.end() <= ms@[a]@.begin);
                            }
                        }
                    }
                    let ghost pu = *phys;
                    unmap_prefix(ms, j, &mut child_vmem, phys);
                    proof {
                        assert forall|f: usize| f != d implies #[trigger] phys.refcount(f) == p0.refcount(f) by {
                            assert(pu.refcount(f) == pj.refcount(f));
                            assert(pj.refcount(f) == forked_count(p0.refcount(f), seq_uses(ms@, t0, j as int, f)));
                        }
                        assert forall|f: usize| #[trigger] phys.refs().contains_key(f) == p0.refs().contains_key(f) by {
                            if f == d {
                                assert(p0.allocated_in(d as int, Zone::Kernel));
                                assert(phys.allocated_in(d as int, Zone::Kernel));
                                if phys.refs().contains_key(f) {
                                    assert(phys.allocated_in(f as int, Zone::User));
                                }
                                if p0.refs().contains_key(f) {
                                    assert(p0.allocated_in(f as int, Zone::User));
                                }
                            } else {
                                assert(phys.refcount(f) == p0.refcount(f));
                                if phys.refs().contains_key(f) {
                                    assert(phys.refs()[f] >= 1);
                                }
                                if p0.refs().contains_key(f) {
                                    assert(p0.refs()[f] >= 1);
                                }
                            }
                        }
                        assert forall|f: usize| #[trigger] phys.refs().contains_key(f) implies phys.refs()[f] == p0.refs()[f] by {
                            if f == d {
                                assert(phys.allocated_in(f as int, Zone::User));
                            }
                            assert(phys.refcount(f) == p0.refcount(f));
                        }
                        assert(phys.refs() =~= p0.refs());
                        assert forall|q: int| 0 <= q < phys.frames().len() implies phys.frames()[q] == p0.frames()[q] by {
                            let f = frame_addr(q) as usize;
                            if phys.frames()[q] != pu.frames()[q] {
                                assert(pu.refs().contains_key(f));
                                assert(pu.allocated_in(f as int, Zone::User));
                                if f == d {
                                    assert(pu.allocated_in(d as int, Zone::Kernel));
                                }
                                assert(pu.refcount(f) >= 1);
                                assert(pj.refcount(f) == forked_count(p0.refcount(f), seq_uses(ms@, t0, j as int, f)));
                                assert(p0.refcount(f) >= 1);
                                assert(phys.refcount(f) == p0.refcount(f));
                            }
                        }
                        assert(phys.frames() =~= p0.frames());
                    }
                    return Err(Errno::OutOfMemory);
                },
            }
            proof {
                assert(child_mappings.seq() =~= ms@.subrange(0, j as int + 1));
                assert forall|x: MemMapping| #[trigger] child_mappings@.contains(x) <==> exists|a: int| 0 <= a < j + 1 && ms@[a] == x by {
                    if x == m {
                        assert(ms@[j as int] == x);
                    }
                }
                assert forall|f: usize| #[trigger] phys.refcount(f) == forked_count(p0.refcount(f), seq_uses(ms@, t0, j as int + 1, f)) by {
                    assert(pj.refcount(f) == forked_count(p0.refcount(f), seq_uses(ms@, t0, j as int, f)));
                }
            }
            j = j + 1;
        }
        proof {
            assert forall|x: MemMapping| #[trigger] child_mappings@.contains(x) <==> self.mappings@.contains(x) by {
                if self.mappings@.contains(x) {
                    assert(ms@.contains(x));
                    let a = choose|a: int| 0 <= a < ms@.len() && ms@[a] == x;
                }
            }
            assert(child_mappings@ =~= self.mappings@);
            assert(child_mappings.seq() =~= ms@);
        }
        proof {
            assert forall|a: int, b: int| 0 <= a < ms@.len() && 0 <= b < ms@.len() && a != b implies (#[trigger] ms@[a])@.disjoint((#[trigger] ms@[b])@) by {
                if a < b {
                    assert(ms@[a]@.end() <= ms@[b]@.begin);
                } else {
                    assert(ms@[b]@.end() <= ms@[a]@.begin);
                }
            }
        }
        update_flags(ms, &mut child_vmem, phys);
        update_flags(self.mappings.mappings(), &mut self.vmem, phys);
        proof {
            assert forall|m: MemMapping, v: usize|
                #[trigger] s0.mapping_set().contains(m) && #[trigger] m.is_page_of(m@.size, v as int) implies {
                    &&& child_vmem@[v].flags == expected_flags(m, child_vmem@[v].phys, phys, d)
                    &&& self.vmem@[v].flags == expected_flags(m, self.vmem@[v].phys, phys, d)
                } by {
                assert(ms@.contains(m));
                let a = choose|a: int| 0 <= a < ms@.len() && ms@[a] == m;
                assert(s0.mapping_set().contains(m) && m.is_page_of(m@.size, v as int));
                assert(s0.is_mapped_page(v));
                assert(s0.page_table().contains_key(v));
                assert(t0.contains_key(v));
            }
        }
        let child = MemSpace { gaps: child_gaps, mappings: child_mappings, vmem: child_vmem };
        proof {
            assert(child.gap_set() == s0.gap_set());
            assert(child.mapping_set() == s0.mapping_set());
            assert(child.mapping_seq() == s0.mapping_seq());
            assert forall|v: usize| #[trigger] child.page_table().contains_key(v) <==> child.is_mapped_page(v) by {
                assert(s0.page_table().contains_key(v) <==> s0.is_mapped_page(v));
            }
            Self::lemma_same_views_but_table(s0, child);
            assert(self.mapping_set() == s0.mapping_set());
            assert forall|v: usize| #[trigger] self.page_table().contains_key(v) <==> self.is_mapped_page(v) by {
                assert(s0.page_table().contains_key(v) <==> s0.is_mapped_page(v));
                assert(self.page_table().contains_key(v) == s0.page_table().contains_key(v));
            }
            Self::lemma_same_views_but_table(s0, *self);
            assert forall|f: usize| #[trigger] child.frame_uses(f) == s0.frame_uses(f) by {
                lemma_seq_uses_frames_only(ms@, child.vmem@, t0, ms@.len() as int, f);
            }
            assert forall|f: usize| #[trigger] self.frame_uses(f) == s0.frame_uses(f) by {
                lemma_seq_uses_frames_only(ms@, self.vmem@, t0, ms@.len() as int, f);
            }
        }
        Ok(child)
    }

    /// Unmaps every mapping, as when the memory space is destroyed: each frame loses one
    /// count per page translating to it, frames whose count drops to zero return to the
    /// pool, and the whole window becomes one gap again.
    pub fn unmap_all(&mut self, phys: &mut PhysMem)
        requires
            old(self).wf(),
            old(phys).wf(),
            old(phys).default_page_spec() is Some,
        ensures
            final(self).wf(),
            final(phys).wf(),
            final(phys).default_page_spec() == old(phys).default_page_spec(),
            final(phys).pages() == old(phys).pages(),
            final(self).gap_set() == set![MemGap::from_region(window())],
            final(self).mapping_set() == Set::<MemMapping>::empty(),
            final(self).page_table() == Map::<usize, PageEntry>::empty(),
            forall|f: usize|
                f != old(phys).default_page_spec().unwrap() ==> #[trigger] final(phys).refcount(f)
                    == sat_sub(old(phys).refcount(f), old(self).frame_uses(f)),
            forall|k: int|
                0 <= k < old(phys).frames().len() ==> #[trigger] final(phys).frames()[k] == old(phys).frames()[k]
                    || (final(phys).frames()[k] is None && old(phys).refs().contains_key(frame_addr(k) as usize)
                    && !final(phys).refs().contains_key(frame_addr(k) as usize)),
            forall|k: int|
                0 <= k < old(phys).frames().len() && old(phys).refs().contains_key(frame_addr(k) as usize)
                    && !final(phys).refs().contains_key(frame_addr(k) as usize) ==> #[trigger] final(phys).frames()[k] is None,
    {
        let ghost s0 = *self;
        let ms = self.mappings.mappings();
        proof {
            self.mappings.lemma_seq();
            assert forall|a: int, b: int| 0 <= a < ms@.len() && 0 <= b < ms@.len() && a != b implies (#[trigger] ms@[a])@.disjoint((#[trigger] ms@[b])@) by {
                if a < b {
                    assert(ms@[a]@.end() <= ms@[b]@.begin);
                } else {
                    assert(ms@[b]@.end() <= ms@[a]@.begin);
                }
            }
        }
        unmap_prefix(ms, ms.len(), &mut self.vmem, phys);
        proof {
            assert forall|v: usize| !#[trigger] self.vmem@.contains_key(v) by {
                if self.vmem@.contains_key(v) {
                    assert(s0.page_table().contains_key(v));
                    assert(s0.is_mapped_page(v));
                    let m = choose|m: MemMapping| #[trigger] s0.mapping_set().contains(m) && m.is_page_of(m@.size, v as int);
                    assert(ms@.contains(m));
                    let a = choose|a: int| 0 <= a < ms@.len() && ms@[a] == m;
                }
            }
            assert(self.vmem@ =~= Map::<usize, PageEntry>::empty());
        }
        let mut gaps = GapRegistry::new();
        gaps.insert(MemGap::new(ALLOC_BEGIN, WINDOW_PAGES));
        self.gaps = gaps;
        self.mappings = MappingRegistry::new();
        proof {
            MemGap::lemma_from_region(window());
            assert(self.gap_set() =~= set![MemGap::from_region(window())]);
            let g = MemGap::from_region(window());
            assert forall|a: int| ALLOC_BEGIN <= a < PROCESS_END implies #[trigger] self.covered(a) by {
                assert(self.gap_set().contains(g) && g@.contains(a));
            }
            assert forall|b: int, x: MemGap|
                0 <= b < GAPS_BUCKETS_COUNT implies (#[trigger] self.gap_bucket(b).contains(x) <==> (
                self.gap_set().contains(x) && bucket_of(x@.size as nat) == b)) by {
                assert(self.gaps.buckets_consistent());
            }
        }
    }

    /// Returns the frame the page holding the address `virt` translates to.
    pub fn translate(&self, virt: usize) -> (r: Option<usize>)
        ensures
            r == (if self.page_table().contains_key(VMem::page_of(virt)) {
                Some(self.page_table()[VMem::page_of(virt)].phys)
            } else {
                None
            }),
    {
        self.vmem.translate(virt - virt % PAGE_SIZE)
    }

    /// Returns the page table entry of the page holding the address `virt`.
    pub fn page_entry(&self, virt: usize) -> (r: Option<PageEntry>)
        ensures
            r == (if self.page_table().contains_key(VMem::page_of(virt)) {
                Some(self.page_table()[VMem::page_of(virt)])
            } else {
                None
            }),
    {
        self.vmem.entry(virt - virt % PAGE_SIZE)
    }

    /// Returns the page table.
    pub fn get_vmem(&self) -> (r: &VMem)
        ensures
            r@ == self.page_table(),
            r.flushed() == self.tlb_flushed(),
    {
        &self.vmem
    }

    /// Returns the gaps in the order of their addresses.
    pub fn gaps(&self) -> (r: &Vec<MemGap>)
        requires
            self.wf(),
        ensures
            forall|g: MemGap| self.gap_set().contains(g) <==> #[trigger] r@.contains(g),
    {
        self.gaps.gaps()
    }

    /// Returns the gaps of size class `b`.
    pub fn bucket_gaps(&self, b: usize) -> (r: &Vec<MemGap>)
        requires
            self.wf(),
            b < GAPS_BUCKETS_COUNT,
        ensures
            forall|g: MemGap| self.gap_bucket(b as int).contains(g) <==> #[trigger] r@.contains(g),
    {
        self.gaps.bucket_gaps(b)
    }

    /// Returns the mappings in the order of their addresses.
    pub fn mappings(&self) -> (r: &Vec<MemMapping>)
        requires
            self.wf(),
        ensures
            forall|m: MemMapping| self.mapping_set().contains(m) <==> #[trigger] r@.contains(m),
    {
        self.mappings.mappings()
    }

    /// Reads, as the processor would, the byte at the address `virt`; fails with the page
    /// fault error code.
    pub fn read_byte(&self, phys: &PhysMem, virt: usize) -> (r: Result<u8, u32>)
        requires
            phys.wf(),
        ensures
            r == VMem::read_spec(self.page_table(), phys, virt),
    {
        self.vmem.read_byte(phys, virt)
    }

    /// Writes, as the processor would, the byte `b` at the address `virt`; fails with the
    /// page fault error code where the page is absent or not writable.
    pub fn write_byte(&self, phys: &mut PhysMem, virt: usize, b: u8) -> (r: Result<(), u32>)
        requires
            old(phys).wf(),
        ensures
            !self.page_table().contains_key(VMem::page_of(virt)) ==> r == Err::<(), u32>(PAGE_FAULT_WRITE)
                && final(phys).pages() == old(phys).pages(),
            self.page_table().contains_key(VMem::page_of(virt)) ==> ({
                let e = self.page_table()[VMem::page_of(virt)];
                if crate::vmem::writable(e.flags) && old(phys).is_frame(e.phys as int)
                    && old(phys).default_page_spec() != Some(e.phys) {
                    &&& r is Ok
                    &&& final(phys).pages() == old(phys).pages().update(
                        crate::phys::frame_index(e.phys as int),
                        old(phys).page(e.phys as int).update((virt % PAGE_SIZE) as int, b),
                    )
                } else {
                    &&& r == Err::<(), u32>(PAGE_FAULT_PRESENT | PAGE_FAULT_WRITE)
                    &&& final(phys).pages() == old(phys).pages()
                }
            }),
            final(phys).wf(),
            final(phys).frames() == old(phys).frames(),
            final(phys).refs() == old(phys).refs(),
            final(phys).default_page_spec() == old(phys).default_page_spec(),
    {
        self.vmem.write_byte(phys, virt, b)
    }

    /// Unmaps the part `[x, y)` of the mapping `m`: the parts below and above stay mapped,
    /// the pages of the part leave the page table, and the part becomes a gap merged with
    /// its neighbours.
    #[verifier::spinoff_prover]
    fn unmap_part(&mut self, m: MemMapping, x: usize, y: usize, phys: &mut PhysMem)
        requires
            old(self).wf(),
            old(phys).wf(),
            old(phys).default_page_spec() is Some,
            old(self).mapping_set().contains(m),
            m@.begin <= x < y <= m@.end(),
            is_page_aligned(x as int),
            is_page_aligned(y as int),
        ensures
            final(self).wf(),
            final(phys).wf(),
            final(phys).default_page_spec() == old(phys).default_page_spec(),
            final(phys).pages() == old(phys).pages(),
            final(self).mapping_set() == split_out(old(self).mapping_set(), m, x as int, y as int),
            final(self).gap_set() == release(old(self).gap_set(), Region { begin: x as int, size: (y - x) / PAGE_SIZE as int }),
            forall|v: usize| #[trigger] final(self).page_table().contains_key(v) <==> (old(self).page_table().contains_key(v)
                && !(x <= v < y)),
            forall|v: usize| #[trigger] final(self).page_table().contains_key(v) ==> final(self).page_table()[v] == old(self).page_table()[v],
            forall|f: usize|
                f != old(phys).default_page_spec().unwrap() ==> #[trigger] final(phys).refcount(f)
                    == sat_sub(old(phys).refcount(f), MemMapping::from_parts(
                        Region { begin: x as int, size: (y - x) / PAGE_SIZE as int },
                        m.flag_bits(),
                    ).uses(old(self).page_table(), (y - x) / PAGE_SIZE as int, f)),
            final(self).tlb_flushed(),
            forall|f: usize| #[trigger] final(self).frame_uses(f) + MemMapping::from_parts(
                Region { begin: x as int, size: (y - x) / PAGE_SIZE as int },
                m.flag_bits(),
            ).uses(old(self).page_table(), (y - x) / PAGE_SIZE as int, f) == old(self).frame_uses(f),
            x == m@.begin && y == m@.end() ==> exists|p: int| 0 <= p < old(self).mapping_seq().len()
                && old(self).mapping_seq()[p] == m && final(self).mapping_seq() == old(self).mapping_seq().remove(p),
            final(phys).frames().len() == old(phys).frames().len(),
            forall|k: int| 0 <= k < old(phys).frames().len() ==> #[trigger] final(phys).frames()[k] == old(phys).frames()[k]
                || final(phys).frames()[k] is None,
            forall|k: int|
                0 <= k < old(phys).frames().len() && old(phys).refs().contains_key(frame_addr(k) as usize)
                    && !final(phys).refs().contains_key(frame_addr(k) as usize) ==> #[trigger] final(phys).frames()[k] is None,
    {
        let ghost s0 = *self;
        let flags = m.get_flags();
        let mb = m.get_begin();
        let me = m.get_end();
        proof {
            crate::memory::lemma_aligned_diff(x as int, y as int);
            crate::memory::lemma_aligned_diff(mb as int, x as int);
            crate::memory::lemma_aligned_diff(y as int, me as int);
            MemMapping::lemma_from_parts(Region { begin: x as int, size: (y - x) / PAGE_SIZE as int }, flags);
            MemMapping::lemma_from_parts(Region { begin: mb as int, size: (x - mb) / PAGE_SIZE as int }, flags);
            MemMapping::lemma_from_parts(Region { begin: y as int, size: (me - y) / PAGE_SIZE as int }, flags);
            assert(self.mappings@.contains(m));
        }
        let mid = MemMapping::new(x, (y - x) / PAGE_SIZE, flags);
        let ghost ms0 = self.mappings.seq();
        assert(ms0 == s0.mapping_seq());
        let _ = self.mappings.remove(mb);
        let ghost ms1 = self.mappings.seq();
        proof {
            assert(self.mappings@ == s0.mappings@.remove(m)) by {
                assert forall|o: MemMapping| #[trigger] s0.mappings@.contains(o) && o@.begin == mb implies o == m by {
                    if o != m {
                        assert(s0.mapping_set().contains(o));
                        assert(o@.disjoint(m@));
                    }
                }
            }
        }
        if x > mb {
            let left = MemMapping::new(mb, (x - mb) / PAGE_SIZE, flags);
            proof {
                assert forall|o: MemMapping| #[trigger] self.mappings@.contains(o) implies o@.disjoint(left@) by {
                    assert(s0.mapping_set().contains(o) && o != m);
                    assert(o@.disjoint(m@));
                }
            }
            self.mappings.insert(left);
        }
        let ghost ms2 = self.mappings.seq();
        if y < me {
            let right = MemMapping::new(y, (me - y) / PAGE_SIZE, flags);
            proof {
                assert forall|o: MemMapping| #[trigger] self.mappings@.contains(o) implies o@.disjoint(right@) by {
                    if o@.begin != mb || o@.size != (x - mb) / PAGE_SIZE as int {
                        assert(s0.mapping_set().contains(o) && o != m);
                        assert(o@.disjoint(m@));
                    }
                }
            }
            self.mappings.insert(right);
        }
        let ghost ms3 = self.mappings.seq();
        let ghost t0 = self.vmem@;
        mid.unmap(&mut self.vmem, phys);
        let mut begin = x;
        let mut size = (y - x) / PAGE_SIZE;
        let ghost gs0 = s0.gaps@;
        let ghost r = Region { begin: x as int, size: (y - x) / PAGE_SIZE as int };
        proof {
            assert(self.gaps@ == gs0);
            Self::lemma_neighbours(s0, m, x as int, y as int);
        }
        match self.gaps.find_ending_at(x) {
            Some(b) => {
                proof {
                    assert(b == choose|g: MemGap| #[trigger] gs0.contains(g) && g@.end() == r.begin);
                }
                let _ = self.gaps.remove(b.get_begin());
                proof {
                    Self::lemma_unique_begin(gs0, b);
                }
                begin = b.get_begin();
                size = size + b.get_size();
            },
            None => {},
        }
        let ghost gs1 = self.gaps@;
        match self.gaps.get(y) {
            Some(a) => {
                proof {
                    assert(gs0.contains(a));
                    assert(a == choose|g: MemGap| #[trigger] gs0.contains(g) && g@.begin == r.end());
                }
                let _ = self.gaps.remove(y);
                proof {
                    Self::lemma_unique_begin(gs1, a);
                }
                size = size + a.get_size();
            },
            None => {},
        }
        proof {
            assert forall|o: MemGap| #[trigger] self.gaps@.contains(o) implies o@.disjoint(
                Region { begin: begin as int, size: size as int },
            ) by {
                assert(gs0.contains(o));
                assert(s0.gap_set().contains(o));
                assert(s0.gap_set().contains(o) && s0.mapping_set().contains(m));
                assert(o@.disjoint(m@));
            }
        }
        let g = MemGap::new(begin, size);
        self.gaps.insert(g);
        proof {
            MemGap::lemma_from_region(g@);
            assert(self.gaps@ =~= release(gs0, r));
            assert(t0 == s0.vmem@);
            assert forall|v: usize| #[trigger] self.page_table().contains_key(v) <==> (s0.page_table().contains_key(v) && !(x <= v < y)) by {
                if s0.page_table().contains_key(v) {
                    assert(s0.is_mapped_page(v));
                    let o = choose|o: MemMapping| #[trigger] s0.mapping_set().contains(o) && o.is_page_of(o@.size, v as int);
                    crate::memory::lemma_offset_aligned(o@.begin, v as int);
                    crate::memory::lemma_offset_aligned(x as int, v as int);
                    assert(mid.page_set().contains(v) <==> (x <= v < y));
                }
            }
            Self::lemma_unmap_part_wf(s0, *self, m, x as int, y as int);
            assert(self.mapping_seq() == ms3);
            s0.mappings.lemma_seq();
            assert forall|k: int| 0 <= k < ms1.len() implies (#[trigger] ms1[k])@.disjoint(m@) && ms1[k].wf() by {
                let p = choose|p: int| 0 <= p < ms0.len() && ms0[p] == m && ms1 == ms0.remove(p);
                let j = if k < p { k } else { k + 1 };
                assert(ms1[k] == ms0[j]);
                assert(s0.mapping_set().contains(ms0[j]));
                assert(ms0[j] != m);
            }
            lemma_part_uses(ms0, ms1, ms2, ms3, s0.page_table(), self.page_table(), m, x as int, y as int);
        }
    }

    /// A gap is the only gap of its set beginning at its address, and the only one ending at
    /// its end.
    proof fn lemma_unique_begin(gs: Set<MemGap>, g: MemGap)
        requires
            gs.contains(g),
            g.wf(),
            forall|x: MemGap| #[trigger] gs.contains(x) ==> x.wf(),
            forall|g1: MemGap, g2: MemGap| #[trigger] gs.contains(g1) && #[trigger] gs.contains(g2) && g1 != g2 ==> g1@.disjoint(g2@),
        ensures
            forall|x: MemGap| #[trigger] gs.contains(x) && x@.begin == g@.begin ==> x == g,
            forall|x: MemGap| #[trigger] gs.contains(x) && x@.end() == g@.end() ==> x == g,
    {
    }

    /// Where a gap ends at `x` or begins at `y`, the part `[x, y)` of `m` reaches the end of
    /// `m` on that side.
    proof fn lemma_neighbours(s0: MemSpace, m: MemMapping, x: int, y: int)
        requires
            s0.wf(),
            s0.mapping_set().contains(m),
            m@.begin <= x < y <= m@.end(),
        ensures
            (exists|g: MemGap| #[trigger] s0.gap_set().contains(g) && g@.end() == x) ==> x == m@.begin,
            (exists|g: MemGap| #[trigger] s0.gap_set().contains(g) && g@.begin == y) ==> y == m@.end(),
    {
        if exists|g: MemGap| #[trigger] s0.gap_set().contains(g) && g@.end() == x {
            let g = choose|g: MemGap| #[trigger] s0.gap_set().contains(g) && g@.end() == x;
            assert(g@.disjoint(m@));
        }
        if exists|g: MemGap| #[trigger] s0.gap_set().contains(g) && g@.begin == y {
            let g = choose|g: MemGap| #[trigger] s0.gap_set().contains(g) && g@.begin == y;
            assert(g@.disjoint(m@));
        }
    }

    #[verifier::spinoff_prover]
    proof fn lemma_unmap_part_wf(s0: MemSpace, s1: MemSpace, m: MemMapping, x: int, y: int)
        requires
            s0.wf(),
            s1.inner_wf(),
            s0.mapping_set().contains(m),
            m@.begin <= x < y <= m@.end(),
            is_page_aligned(x),
            is_page_aligned(y),
            s1.mapping_set() == split_out(s0.mapping_set(), m, x, y),
            s1.gap_set() == release(s0.gap_set(), Region { begin: x, size: (y - x) / PAGE_SIZE as int }),
            forall|v: usize| #[trigger] s1.page_table().contains_key(v) <==> (s0.page_table().contains_key(v) && !(x <= v < y)),
        ensures
            s1.wf(),
    {
        let n = (y - x) / PAGE_SIZE as int;
        let r = Region { begin: x, size: n };
        let gs = s0.gap_set();
        let hb = exists|g: MemGap| #[trigger] gs.contains(g) && g@.end() == r.begin;
        let ha = exists|g: MemGap| #[trigger] gs.contains(g) && g@.begin == r.end();
        let b = choose|g: MemGap| #[trigger] gs.contains(g) && g@.end() == r.begin;
        let a = choose|g: MemGap| #[trigger] gs.contains(g) && g@.begin == r.end();
        let gb = if hb { b@.begin } else { x };
        let gsize = (if hb { b@.size } else { 0 }) + n + (if ha { a@.size } else { 0 });
        let big = MemGap::from_region(Region { begin: gb, size: gsize });
        crate::memory::lemma_aligned_diff(x, y);
        crate::memory::lemma_aligned_diff(m@.begin, x);
        crate::memory::lemma_aligned_diff(y, m@.end());
        assert(r.end() == y);
        Self::lemma_neighbours(s0, m, x, y);
        assert(gs.contains(b) ==> b.wf() && b@.in_window());
        if hb {
            assert(gs.contains(b));
        }
        if ha {
            assert(gs.contains(a));
        }
        let gend = if ha { a@.end() } else { y };
        MemGap::lemma_from_region(Region { begin: gb, size: gsize });
        assert(big@.end() == gend);
        let left = MemMapping::from_parts(Region { begin: m@.begin, size: (x - m@.begin) / PAGE_SIZE as int }, m.flag_bits());
        let right = MemMapping::from_parts(Region { begin: y, size: (m@.end() - y) / PAGE_SIZE as int }, m.flag_bits());
        MemMapping::lemma_from_parts(Region { begin: m@.begin, size: (x - m@.begin) / PAGE_SIZE as int }, m.flag_bits());
        MemMapping::lemma_from_parts(Region { begin: y, size: (m@.end() - y) / PAGE_SIZE as int }, m.flag_bits());
        assert(left@.end() == x);
        assert(right@.end() == m@.end());
        assert forall|o: MemMapping| #[trigger] s1.mapping_set().contains(o) <==> ((s0.mapping_set().contains(o) && o != m)
            || (x > m@.begin && o == left) || (y < m@.end() && o == right)) by {}
        assert forall|o: MemGap| #[trigger] s1.gap_set().contains(o) <==> ((gs.contains(o) && !(hb && o == b) && !(ha && o == a))
            || o == big) by {}
        assert(m.wf() && m@.in_window());
        // the gaps
        assert forall|o: MemGap| #[trigger] s1.gap_set().contains(o) implies o.wf() && o@.in_window() by {
            if o != big {
                assert(gs.contains(o));
            } else {
                crate::memory::lemma_page_addr_aligned(gb, 0);
            }
        }
        assert forall|o: MemMapping| #[trigger] s1.mapping_set().contains(o) implies o.wf() && o@.in_window() by {
            if s0.mapping_set().contains(o) && o != m {
            }
        }
        assert forall|g1: MemGap, g2: MemGap|
            #[trigger] s1.gap_set().contains(g1) && #[trigger] s1.gap_set().contains(g2) && g1 != g2 implies g1@.disjoint(g2@) by {
            if g1 == big {
                assert(gs.contains(g2));
                assert(g2@.disjoint(m@));
                if hb { assert(g2@.disjoint(b@)); }
                if ha { assert(g2@.disjoint(a@)); }
            } else if g2 == big {
                assert(gs.contains(g1));
                assert(g1@.disjoint(m@));
                if hb { assert(g1@.disjoint(b@)); }
                if ha { assert(g1@.disjoint(a@)); }
            } else {
                assert(gs.contains(g1) && gs.contains(g2));
            }
        }
        assert forall|m1: MemMapping, m2: MemMapping|
            #[trigger] s1.mapping_set().contains(m1) && #[trigger] s1.mapping_set().contains(m2) && m1 != m2 implies m1@.disjoint(m2@) by {
            if s0.mapping_set().contains(m1) && m1 != m && s0.mapping_set().contains(m2) && m2 != m {
            } else if s0.mapping_set().contains(m1) && m1 != m {
                assert(m1@.disjoint(m@));
            } else if s0.mapping_set().contains(m2) && m2 != m {
                assert(m2@.disjoint(m@));
            }
        }
        assert forall|g: MemGap, o: MemMapping|
            #[trigger] s1.gap_set().contains(g) && #[trigger] s1.mapping_set().contains(o) implies g@.disjoint(o@) by {
            if g == big {
                if s0.mapping_set().contains(o) && o != m {
                    assert(o@.disjoint(m@));
                    if hb { assert(s0.gap_set().contains(b) && b@.disjoint(o@)); }
                    if ha { assert(s0.gap_set().contains(a) && a@.disjoint(o@)); }
                }
            } else {
                assert(gs.contains(g));
                assert(g@.disjoint(m@));
                if s0.mapping_set().contains(o) && o != m {
                }
            }
        }
        assert forall|c: int| ALLOC_BEGIN <= c < PROCESS_END implies #[trigger] s1.covered(c) by {
            assert(s0.covered(c));
            if exists|g: MemGap| #[trigger] s0.gap_set().contains(g) && g@.contains(c) {
                let g = choose|g: MemGap| #[trigger] s0.gap_set().contains(g) && g@.contains(c);
                if (hb && g == b) || (ha && g == a) {
                    assert(s1.gap_set().contains(big));
                } else {
                    assert(s1.gap_set().contains(g));
                }
            } else {
                let o = choose|o: MemMapping| #[trigger] s0.mapping_set().contains(o) && o@.contains(c);
                if o != m {
                    assert(s1.mapping_set().contains(o));
                } else if c < x {
                    assert(s1.mapping_set().contains(left));
                } else if c < y {
                    assert(s1.gap_set().contains(big));
                } else {
                    assert(s1.mapping_set().contains(right));
                }
            }
        }
        assert forall|g1: MemGap, g2: MemGap|
            #[trigger] s1.gap_set().contains(g1) && #[trigger] s1.gap_set().contains(g2) implies g1@.end() != g2@.begin by {
            if g1 == big && g2 == big {
            } else if g1 == big {
                assert(gs.contains(g2));
                if ha {
                    assert(gs.contains(a));
                } else {
                    assert(!(gs.contains(g2) && g2@.begin == r.end()));
                }
            } else if g2 == big {
                assert(gs.contains(g1));
                if hb {
                    assert(gs.contains(b));
                } else {
                    assert(!(gs.contains(g1) && g1@.end() == r.begin));
                }
            } else {
                assert(gs.contains(g1) && gs.contains(g2));
            }
        }
        assert forall|v: usize| #[trigger] s1.page_table().contains_key(v) <==> s1.is_mapped_page(v) by {
            crate::memory::lemma_offset_aligned(m@.begin, v as int);
            crate::memory::lemma_offset_aligned(y, v as int);
            if s1.page_table().contains_key(v) {
                assert(s0.page_table().contains_key(v));
                assert(s0.is_mapped_page(v));
                let o = choose|o: MemMapping| #[trigger] s0.mapping_set().contains(o) && o.is_page_of(o@.size, v as int);
                if o != m {
                    assert(s1.mapping_set().contains(o));
                } else if (v as int) < x {
                    assert(s1.mapping_set().contains(left));
                    assert(left.is_page_of(left@.size, v as int));
                } else {
                    assert(s1.mapping_set().contains(right));
                    assert(right.is_page_of(right@.size, v as int));
                }
            }
            if s1.is_mapped_page(v) {
                let o = choose|o: MemMapping| #[trigger] s1.mapping_set().contains(o) && o.is_page_of(o@.size, v as int);
                if s0.mapping_set().contains(o) && o != m {
                    assert(o@.disjoint(m@));
                    assert(s0.is_mapped_page(v));
                } else if x > m@.begin && o == left {
                    assert(m.is_page_of(m@.size, v as int));
                    assert(s0.is_mapped_page(v));
                } else {
                    assert(o == right);
                    assert(m.is_page_of(m@.size, v as int));
                    assert(s0.is_mapped_page(v));
                }
                assert(s0.page_table().contains_key(v));
            }
        }
        assert forall|c: int, x2: MemGap|
            0 <= c < GAPS_BUCKETS_COUNT implies (#[trigger] s1.gap_bucket(c).contains(x2) <==> (
            s1.gap_set().contains(x2) && bucket_of(x2@.size as nat) == c)) by {
            assert(s1.gaps.buckets_consistent());
        }
    }

    /// Unmaps the region of `size` pages at `ptr`. Every page of the region that lies in a
    /// mapping is unmapped, a mapping partly in the region keeping its parts outside it; the
    /// freed parts become gaps merged with their neighbours. Each frame loses one count per
    /// unmapped page translating to it, and returns to the pool when its count drops to zero.
    /// Addresses of the region outside every mapping are left alone.
    ///
    /// Fails with `InvalidArgument`, changing nothing, where `ptr` is misaligned, `size` is
    /// larger than the window, or the region passes the end of the address space.
    #[verifier::spinoff_prover]
    pub fn unmap(&mut self, ptr: usize, size: usize, phys: &mut PhysMem) -> (r: Result<(), Errno>)
        requires
            old(self).wf(),
            old(phys).wf(),
            old(phys).default_page_spec() is Some,
        ensures
            final(self).wf(),
            final(phys).wf(),
            final(phys).default_page_spec() == old(phys).default_page_spec(),
            final(phys).pages() == old(phys).pages(),
            r is Err <==> !is_page_aligned(ptr as int) || size > WINDOW_PAGES || page_addr(ptr as int, size as int) > usize::MAX,
            r is Err ==> r == Err::<(), Errno>(Errno::InvalidArgument) && *final(self) == *old(self)
                && *final(phys) == *old(phys),
            r is Ok ==> {
                &&& forall|v: usize| #[trigger] final(self).page_table().contains_key(v) <==> (old(self).page_table().contains_key(v)
                    && !(ptr <= v < page_addr(ptr as int, size as int)))
                &&& forall|v: usize| #[trigger] final(self).page_table().contains_key(v) ==> final(self).page_table()[v] == old(self).page_table()[v]
                &&& forall|c: int, o: MemMapping|
                    ptr <= c < page_addr(ptr as int, size as int) && #[trigger] final(self).mapping_set().contains(o) ==> !(#[trigger] o@.contains(c))
                &&& forall|c: int, fl: u8|
                    !(ptr <= c < page_addr(ptr as int, size as int)) ==> (#[trigger] mapped_with(final(self), c, fl) <==> mapped_with(old(self), c, fl))
                &&& forall|f: usize|
                    f != old(phys).default_page_spec().unwrap() && old(phys).refcount(f) >= old(self).frame_uses(f)
                        ==> #[trigger] final(phys).refcount(f) + old(self).frame_uses(f) == old(phys).refcount(f) + final(self).frame_uses(f)
                &&& forall|f: usize| #[trigger] final(self).frame_uses(f) <= old(self).frame_uses(f)
            },
            forall|m: MemMapping| #[trigger] old(self).mapping_set().contains(m) && m@ == (Region { begin: ptr as int, size: size as int }) ==> {
                &&& r is Ok
                &&& final(self).gap_set() == release(old(self).gap_set(), m@)
                &&& final(self).mapping_set() == old(self).mapping_set().remove(m)
                &&& forall|f: usize| #[trigger] final(self).frame_uses(f) + m.uses(old(self).page_table(), size as int, f)
                    == old(self).frame_uses(f)
                &&& forall|f: usize|
                    f != old(phys).default_page_spec().unwrap() ==> #[trigger] final(phys).refcount(f)
                        == sat_sub(old(phys).refcount(f), m.uses(old(self).page_table(), size as int, f))
            },
            r is Ok ==> forall|k: int|
                0 <= k < old(phys).frames().len() && old(phys).refs().contains_key(frame_addr(k) as usize)
                    && !final(phys).refs().contains_key(frame_addr(k) as usize) ==> #[trigger] final(phys).frames()[k] is None,
            forall|m: MemMapping|
                #[trigger] old(self).mapping_set().contains(m) && is_page_aligned(ptr as int) && size >= 1 && m@.begin <= ptr
                    && page_addr(ptr as int, size as int) <= m@.end() ==> {
                    &&& r is Ok
                    &&& final(self).mapping_set() == split_out(old(self).mapping_set(), m, ptr as int, page_addr(ptr as int, size as int))
                    &&& final(self).gap_set() == release(old(self).gap_set(), Region { begin: ptr as int, size: size as int })
                },
            r is Ok && (forall|c: int, o: MemMapping|
                ptr <= c < page_addr(ptr as int, size as int) && #[trigger] old(self).mapping_set().contains(o) ==> !(#[trigger] o@.contains(c)))
                ==> *final(self) == *old(self) && *final(phys) == *old(phys),
    {
        if !is_aligned(ptr) || size > WINDOW_PAGES || usize::MAX - ptr < size * PAGE_SIZE {
            proof {
                assert forall|m: MemMapping| #[trigger] old(self).mapping_set().contains(m) implies m@ != (Region { begin: ptr as int, size: size as int }) by {
                    assert(m@.in_window());
                }
            }
            return Err(Errno::InvalidArgument);
        }
        let end = ptr + size * PAGE_SIZE;
        let ghost s0 = *self;
        let ghost p0 = *phys;
        proof {
            crate::memory::lemma_page_addr_aligned(ptr as int, size as int);
        }
        // the region is exactly one mapping
        if let Some(m) = self.mappings.get_containing(ptr) {
            if m.get_begin() == ptr && m.get_size() == size {
                proof {
                    assert(self.mapping_set().contains(m));
                    MemMapping::lemma_from_parts(m@, m.flag_bits());
                    crate::memory::lemma_aligned_diff(ptr as int, end as int);
                    assert((end - ptr) / PAGE_SIZE as int == size);
                }
                self.unmap_part(m, ptr, end, phys);
                proof {
                    assert(split_out(s0.mapping_set(), m, ptr as int, end as int) == s0.mapping_set().remove(m));
                    assert forall|o: MemMapping| #[trigger] s0.mapping_set().contains(o) && o@ == (Region { begin: ptr as int, size: size as int }) implies o == m by {
                        if o != m {
                            assert(o@.disjoint(m@));
                        }
                    }
                    Self::lemma_unmap_step(s0, *self, m, ptr as int, ptr as int, end as int, end as int);
                    Self::lemma_unmap_uses(s0, *self, m);
                    assert forall|o: MemMapping|
                        #[trigger] s0.mapping_set().contains(o) && size >= 1 && o@.begin <= ptr && end <= o@.end() implies o == m by {
                        if o != m {
                            assert(o@.disjoint(m@));
                        }
                    }
                    assert(s0.mapping_set().contains(m) && m@.contains(ptr as int));
                }
                return Ok(());
            }
        }
        proof {
            assert forall|o: MemMapping| #[trigger] s0.mapping_set().contains(o) implies o@ != (Region { begin: ptr as int, size: size as int }) by {
                if o@ == (Region { begin: ptr as int, size: size as int }) {
                    assert(o@.contains(ptr as int));
                }
            }
        }
        let ghost contained = exists|m: MemMapping|
            #[trigger] s0.mapping_set().contains(m) && size >= 1 && m@.begin <= ptr && end <= m@.end();
        let ghost cm = choose|m: MemMapping|
            #[trigger] s0.mapping_set().contains(m) && size >= 1 && m@.begin <= ptr && end <= m@.end();
        let ghost untouched = forall|c: int, o: MemMapping|
            ptr <= c < end && #[trigger] s0.mapping_set().contains(o) ==> !(#[trigger] o@.contains(c));
        let mut addr = ptr;
        while addr < end
            invariant
                contained == exists|m: MemMapping|
                    #[trigger] s0.mapping_set().contains(m) && size >= 1 && m@.begin <= ptr && end <= m@.end(),
                contained ==> s0.mapping_set().contains(cm) && size >= 1 && cm@.begin <= ptr && end <= cm@.end(),
                contained ==> (addr == ptr && *self == s0) || (addr == end && self.mapping_set() == split_out(
                    s0.mapping_set(),
                    cm,
                    ptr as int,
                    end as int,
                ) && self.gap_set() == release(s0.gap_set(), Region { begin: ptr as int, size: size as int })),
                untouched == forall|c: int, o: MemMapping|
                    ptr <= c < end && #[trigger] s0.mapping_set().contains(o) ==> !(#[trigger] o@.contains(c)),
                untouched ==> *self == s0 && *phys == p0,
                p0 == *old(phys),
                phys.frames().len() == p0.frames().len(),
                forall|k: int| 0 <= k < p0.frames().len() ==> #[trigger] phys.frames()[k] == p0.frames()[k] || phys.frames()[k] is None,
                forall|k: int|
                    0 <= k < p0.frames().len() && p0.refs().contains_key(frame_addr(k) as usize)
                        && !phys.refs().contains_key(frame_addr(k) as usize) ==> #[trigger] phys.frames()[k] is None,
                s0.wf(),
                self.wf(),
                phys.wf(),
                phys.default_page_spec() == p0.default_page_spec(),
                p0.default_page_spec() is Some,
                phys.pages() == p0.pages(),
                is_page_aligned(addr as int),
                is_page_aligned(end as int),
                ptr <= addr <= end,
                end == page_addr(ptr as int, size as int),
                forall|c: int, o: MemMapping|
                    ptr <= c < addr && #[trigger] self.mapping_set().contains(o) ==> !(#[trigger] o@.contains(c)),
                forall|c: int, fl: u8|
                    !(ptr <= c < end) ==> (#[trigger] mapped_with(self, c, fl) <==> mapped_with(&s0, c, fl)),
                forall|v: usize| #[trigger] self.page_table().contains_key(v) <==> (s0.page_table().contains_key(v) && !(ptr <= v < addr)),
                forall|v: usize| #[trigger] self.page_table().contains_key(v) ==> self.page_table()[v] == s0.page_table()[v],
                forall|f: usize|
                    f != p0.default_page_spec().unwrap() && p0.refcount(f) >= s0.frame_uses(f)
                        ==> #[trigger] phys.refcount(f) + s0.frame_uses(f) == p0.refcount(f) + self.frame_uses(f)
                        && phys.refcount(f) >= self.frame_uses(f),
                forall|f: usize| #[trigger] self.frame_uses(f) <= s0.frame_uses(f),
            decreases end - addr,
        {
            let ghost si = *self;
            match self.mappings.get_containing(addr) {
                Some(o) => {
                    let oe = o.get_end();
                    let y = if oe < end { oe } else { end };
                    proof {
                        assert(self.mapping_set().contains(o));
                        assert(is_page_aligned(o@.end())) by {
                            crate::memory::lemma_page_addr_aligned(o@.begin, o@.size);
                        }
                    }
                    let ghost pi = *phys;
                    proof {
                        if untouched {
                            assert(s0.mapping_set().contains(o) && o@.contains(addr as int));
                        }
                        if contained {
                            assert(addr == ptr);
                            if o != cm {
                                assert(o@.disjoint(cm@));
                            }
                            assert(y == end);
                            crate::memory::lemma_aligned_diff(ptr as int, end as int);
                        }
                    }
                    self.unmap_part(o, addr, y, phys);
                    proof {
                        assert forall|k: int| 0 <= k < p0.frames().len() implies #[trigger] phys.frames()[k] == p0.frames()[k] || phys.frames()[k] is None by {
                            assert(phys.frames()[k] == pi.frames()[k] || phys.frames()[k] is None);
                        }
                        assert forall|k: int|
                            0 <= k < p0.frames().len() && p0.refs().contains_key(frame_addr(k) as usize)
                                && !phys.refs().contains_key(frame_addr(k) as usize) implies #[trigger] phys.frames()[k] is None by {
                            if !pi.refs().contains_key(frame_addr(k) as usize) {
                                assert(pi.frames()[k] is None);
                                assert(phys.frames()[k] == pi.frames()[k] || phys.frames()[k] is None);
                            }
                        }
                        assert forall|f: usize|
                            f != p0.default_page_spec().unwrap() && p0.refcount(f) >= s0.frame_uses(f)
                                implies #[trigger] phys.refcount(f) + s0.frame_uses(f) == p0.refcount(f) + self.frame_uses(f)
                                && phys.refcount(f) >= self.frame_uses(f) by {
                            assert(pi.refcount(f) >= si.frame_uses(f));
                        }
                        assert forall|f: usize| #[trigger] self.frame_uses(f) <= s0.frame_uses(f) by {
                            assert(si.frame_uses(f) <= s0.frame_uses(f));
                        }
                        Self::lemma_unmap_step(si, *self, o, ptr as int, addr as int, y as int, end as int);
                        assert forall|c: int, fl: u8|
                            !(ptr <= c < end) implies (#[trigger] mapped_with(self, c, fl) <==> mapped_with(&s0, c, fl)) by {
                            assert(mapped_with(self, c, fl) <==> mapped_with(&si, c, fl));
                        }
                    }
                    addr = y;
                },
                None => {
                    proof {
                        if end < addr + PAGE_SIZE {
                            crate::memory::lemma_aligned_below(end as int, addr as int);
                        }
                        assert forall|c: int, o: MemMapping|
                            ptr <= c < addr + PAGE_SIZE && #[trigger] self.mapping_set().contains(o) implies !(#[trigger] o@.contains(c)) by {
                            if addr <= c && o@.contains(c) {
                                assert(o.wf());
                                crate::memory::lemma_aligned_below(o@.begin, addr as int);
                                assert(o@.contains(addr as int));
                            }
                        }
                        assert forall|v: usize| #[trigger] self.page_table().contains_key(v) <==> (s0.page_table().contains_key(v) && !(ptr <= v < addr + PAGE_SIZE)) by {
                            if self.page_table().contains_key(v) && addr <= v < addr + PAGE_SIZE {
                                assert(self.is_mapped_page(v));
                                let o = choose|o: MemMapping| #[trigger] self.mapping_set().contains(o) && o.is_page_of(o@.size, v as int);
                                assert(o@.contains(v as int));
                            }
                        }
                    }
                    addr = addr + PAGE_SIZE;
                },
            }
        }
        Ok(())
    }

    /// Unmapping the part `[addr, y)` of the mapping `o` containing `addr` extends the
    /// unmapped prefix `[ptr, addr)` of a region ending at `end` to `[ptr, y)`, and changes no
    /// address outside the region.
    proof fn lemma_unmap_step(si: MemSpace, s1: MemSpace, o: MemMapping, ptr: int, addr: int, y: int, end: int)
        requires
            si.wf(),
            si.mapping_set().contains(o),
            o@.contains(addr),
            ptr <= addr < y <= end,
            y <= o@.end(),
            y == o@.end() || y == end,
            is_page_aligned(addr),
            is_page_aligned(y),
            s1.mapping_set() == split_out(si.mapping_set(), o, addr, y),
            forall|c: int, q: MemMapping|
                ptr <= c < addr && #[trigger] si.mapping_set().contains(q) ==> !(#[trigger] q@.contains(c)),
        ensures
            forall|c: int, q: MemMapping|
                ptr <= c < y && #[trigger] s1.mapping_set().contains(q) ==> !(#[trigger] q@.contains(c)),
            forall|c: int, fl: u8|
                !(ptr <= c < end) ==> (#[trigger] mapped_with(&s1, c, fl) <==> mapped_with(&si, c, fl)),
    {
        assert(o.wf());
        crate::memory::lemma_aligned_diff(o@.begin, addr);
        crate::memory::lemma_aligned_diff(y, o@.end());
        let left = MemMapping::from_parts(Region { begin: o@.begin, size: (addr - o@.begin) / PAGE_SIZE as int }, o.flag_bits());
        let right = MemMapping::from_parts(Region { begin: y, size: (o@.end() - y) / PAGE_SIZE as int }, o.flag_bits());
        MemMapping::lemma_from_parts(Region { begin: o@.begin, size: (addr - o@.begin) / PAGE_SIZE as int }, o.flag_bits());
        MemMapping::lemma_from_parts(Region { begin: y, size: (o@.end() - y) / PAGE_SIZE as int }, o.flag_bits());
        assert forall|q: MemMapping| #[trigger] s1.mapping_set().contains(q) <==> ((si.mapping_set().contains(q) && q != o)
            || (addr > o@.begin && q == left) || (y < o@.end() && q == right)) by {}
        assert forall|c: int, q: MemMapping|
            ptr <= c < y && #[trigger] s1.mapping_set().contains(q) implies !(#[trigger] q@.contains(c)) by {
            if si.mapping_set().contains(q) && q != o {
                if c >= addr {
                    assert(q@.disjoint(o@));
                }
            } else if addr > o@.begin && q == left {
                if c < addr && q@.contains(c) {
                    assert(o@.contains(c));
                }
            }
        }
        assert forall|c: int, fl: u8|
            !(ptr <= c < end) implies (#[trigger] mapped_with(&s1, c, fl) <==> mapped_with(&si, c, fl)) by {
            if mapped_with(&s1, c, fl) {
                let q = choose|q: MemMapping| #[trigger] s1.mapping_set().contains(q) && q@.contains(c) && q.flag_bits() == fl;
                if si.mapping_set().contains(q) && q != o {
                } else {
                    assert(si.mapping_set().contains(o) && o@.contains(c) && o.flag_bits() == fl);
                }
            }
            if mapped_with(&si, c, fl) {
                let q = choose|q: MemMapping| #[trigger] si.mapping_set().contains(q) && q@.contains(c) && q.flag_bits() == fl;
                if q != o {
                    assert(s1.mapping_set().contains(q));
                } else if c < addr {
                    assert(s1.mapping_set().contains(left) && left@.contains(c));
                } else {
                    assert(s1.mapping_set().contains(right) && right@.contains(c));
                }
            }
        }
    }

    proof fn lemma_fault_uses(s0: MemSpace, s1: MemSpace, m: MemMapping, virt: usize)
        requires
            s0.wf(),
            s0.mapping_set().contains(m),
            m.is_page_of(m@.size, VMem::page_of(virt) as int),
            s1.mapping_seq() == s0.mapping_seq(),
            s1.page_table() == s0.page_table().insert(VMem::page_of(virt), s1.page_table()[VMem::page_of(virt)]),
        ensures
            forall|f: usize| #[trigger] s1.frame_uses(f) + s0.leaves(s1, virt, f)
                == s0.frame_uses(f) + s1.leaves(s0, virt, f),
    {
        let ms = s0.mapping_seq();
        let v = VMem::page_of(virt);
        let e = s1.page_table()[v];
        s0.mappings.lemma_seq();
        assert(ms.contains(m));
        let k = choose|k: int| 0 <= k < ms.len() && ms[k] == m;
        assert forall|i: int| 0 <= i < ms.len() && i != k implies !(#[trigger] ms[i]).is_page_of(ms[i]@.size, v as int) by {
            assert(s0.mapping_set().contains(ms[i]));
            if ms[i].is_page_of(ms[i]@.size, v as int) {
                assert(ms[i]@.disjoint(m@));
            }
        }
        assert forall|i: int| 0 <= i < ms.len() implies (#[trigger] ms[i]).wf() by {
            assert(s0.mapping_set().contains(ms[i]));
        }
        assert(s0.page_table().contains_key(v)) by {
            assert(s0.is_mapped_page(v));
        }
        assert forall|f: usize| #[trigger] s1.frame_uses(f) + s0.leaves(s1, virt, f)
            == s0.frame_uses(f) + s1.leaves(s0, virt, f) by {
            lemma_seq_uses_update(ms, s0.page_table(), v, e, k, ms.len() as int, f);
        }
    }

    /// `1` where the page holding `virt` translates to `f` in this space and to another
    /// frame in `other`, else `0`.
    pub open spec fn leaves(&self, other: MemSpace, virt: usize, f: usize) -> nat {
        let v = VMem::page_of(virt);
        if self.page_table().contains_key(v) && self.page_table()[v].phys == f && !(other.page_table().contains_key(v)
            && other.page_table()[v].phys == f) {
            1
        } else {
            0
        }
    }

    /// Makes the page table of this memory space the one the processor uses.
    pub fn bind(&self, phys: &mut PhysMem)
        requires
            old(phys).wf(),
        ensures
            final(phys).wf(),
            final(phys).same_memory(old(phys)),
            final(phys).active_context() == Some(self.vmem_id()),
    {
        self.vmem.bind(phys);
    }

    /// The identifier of the page table of this memory space.
    pub closed spec fn vmem_id(&self) -> u64 {
        self.vmem.context_id()
    }

    /// Returns the identifier of the page table of this memory space.
    pub fn context_id(&self) -> (r: u64)
        ensures
            r == self.vmem_id(),
    {
        self.vmem.get_id()
    }

    /// Adding the mapping `m`, whose pages were not translated, adds its uses and no other.
    proof fn lemma_map_uses(s0: MemSpace, s1: MemSpace, m: MemMapping)
        requires
            s0.wf(),
            m.wf(),
            forall|o: MemMapping| #[trigger] s0.mapping_set().contains(o) ==> o@.disjoint(m@),
            exists|p: int| 0 <= p <= s0.mapping_seq().len() && s1.mapping_seq() == s0.mapping_seq().insert(p, m),
            forall|v: usize| #[trigger] s1.page_table().contains_key(v) <==> (s0.page_table().contains_key(v)
                || m.is_page_of(m@.size, v as int)),
            forall|v: usize| #[trigger] s1.page_table().contains_key(v) && !m.is_page_of(m@.size, v as int)
                ==> s1.page_table()[v] == s0.page_table()[v],
        ensures
            forall|f: usize| #[trigger] s1.frame_uses(f) == s0.frame_uses(f) + m.uses(s1.page_table(), m@.size, f),
    {
        let ms = s0.mapping_seq();
        let p = choose|p: int| 0 <= p <= ms.len() && s1.mapping_seq() == ms.insert(p, m);
        let t0 = s0.page_table();
        let t1 = s1.page_table();
        s0.mappings.lemma_seq();
        assert forall|k: int, i: int| 0 <= k < ms.len() && 0 <= i < ms[k]@.size implies t1.contains_key(#[trigger] ms[k].page(i) as usize)
            == t0.contains_key(ms[k].page(i) as usize) && (t1.contains_key(ms[k].page(i) as usize)
            ==> t1[ms[k].page(i) as usize].phys == t0[ms[k].page(i) as usize].phys) by {
            assert(s0.mapping_set().contains(ms[k]));
            ms[k].lemma_page_of(ms[k]@.size, i);
            let v = ms[k].page(i) as usize;
            if m.is_page_of(m@.size, v as int) {
                assert(ms[k]@.disjoint(m@));
            }
        }
        assert forall|f: usize| #[trigger] s1.frame_uses(f) == s0.frame_uses(f) + m.uses(t1, m@.size, f) by {
            lemma_seq_uses_insert(ms, t1, p, m, ms.len() as int, f);
            lemma_seq_uses_same_pages(ms, t1, t0, ms.len() as int, f);
        }
    }

    /// Unmapping the whole mapping `m` takes away its uses.
    proof fn lemma_unmap_uses(s0: MemSpace, s1: MemSpace, m: MemMapping)
        requires
            s0.wf(),
            s0.mapping_set().contains(m),
            exists|p: int| 0 <= p < s0.mapping_seq().len() && s0.mapping_seq()[p] == m
                && s1.mapping_seq() == s0.mapping_seq().remove(p),
            forall|v: usize| #[trigger] s1.page_table().contains_key(v) <==> (s0.page_table().contains_key(v)
                && !(m@.begin <= v < m@.end())),
            forall|v: usize| #[trigger] s1.page_table().contains_key(v) ==> s1.page_table()[v] == s0.page_table()[v],
        ensures
            forall|f: usize| #[trigger] s1.frame_uses(f) + m.uses(s0.page_table(), m@.size, f) == s0.frame_uses(f),
    {
        let ms = s0.mapping_seq();
        let p = choose|p: int| 0 <= p < ms.len() && ms[p] == m && s1.mapping_seq() == ms.remove(p);
        let rest = ms.remove(p);
        let t0 = s0.page_table();
        let t1 = s1.page_table();
        s0.mappings.lemma_seq();
        assert(rest.insert(p, m) =~= ms);
        assert forall|k: int, i: int| 0 <= k < rest.len() && 0 <= i < rest[k]@.size implies t1.contains_key(#[trigger] rest[k].page(i) as usize)
            == t0.contains_key(rest[k].page(i) as usize) && (t1.contains_key(rest[k].page(i) as usize)
            ==> t1[rest[k].page(i) as usize].phys == t0[rest[k].page(i) as usize].phys) by {
            let j = if k < p { k } else { k + 1 };
            assert(rest[k] == ms[j]);
            assert(s0.mapping_set().contains(ms[j]));
            assert(ms[j] != m);
            assert(ms[j]@.disjoint(m@));
            ms[j].lemma_page_of(ms[j]@.size, i);
        }
        assert forall|f: usize| #[trigger] s1.frame_uses(f) + m.uses(t0, m@.size, f) == s0.frame_uses(f) by {
            lemma_seq_uses_insert(rest, t0, p, m, rest.len() as int, f);
            lemma_seq_uses_same_pages(rest, t1, t0, rest.len() as int, f);
        }
    }

    /// A translated page of a mapping is a use of its frame.
    pub proof fn lemma_page_use(&self, m: MemMapping, v: usize)
        requires
            self.wf(),
            self.mapping_set().contains(m),
            m.is_page_of(m@.size, v as int),
        ensures
            self.page_table().contains_key(v),
            self.frame_uses(self.page_table()[v].phys) >= 1,
    {
        assert(self.is_mapped_page(v));
        let f = self.page_table()[v].phys;
        let ms = self.mapping_seq();
        self.mappings.lemma_seq();
        assert(ms.contains(m));
        let k = choose|k: int| 0 <= k < ms.len() && ms[k] == m;
        let rest = ms.remove(k);
        assert(rest.insert(k, m) =~= ms);
        lemma_seq_uses_insert(rest, self.page_table(), k, m, rest.len() as int, f);
        let i = (v - m@.begin) / PAGE_SIZE as int;
        assert(m.page(i) == v);
        m.lemma_uses_positive(self.page_table(), m@.size, i, f);
    }

    /// The gap that the search of the gap registry finds is the first fit.
    proof fn lemma_found_first_fit(&self, g: MemGap, size: nat)
        requires
            g@.size >= size,
            exists|b: int, j: int| {
                &&& bucket_of(size) <= b < GAPS_BUCKETS_COUNT
                &&& 0 <= j < self.gaps.bucket_seq(b).len()
                &&& #[trigger] self.gaps.bucket_seq(b)[j] == g
                &&& forall|c: int, k: int|
                    bucket_of(size) <= c < b && 0 <= k < self.gaps.bucket_seq(c).len() ==> (#[trigger] self.gaps.bucket_seq(c)[k])@.size < size
                &&& forall|k: int| 0 <= k < j ==> (#[trigger] self.gaps.bucket_seq(b)[k])@.size < size
            },
        ensures
            self.first_fit(g, size),
    {
        let (b, j) = choose|b: int, j: int| {
            &&& bucket_of(size) <= b < GAPS_BUCKETS_COUNT
            &&& 0 <= j < self.gaps.bucket_seq(b).len()
            &&& #[trigger] self.gaps.bucket_seq(b)[j] == g
            &&& forall|c: int, k: int|
                bucket_of(size) <= c < b && 0 <= k < self.gaps.bucket_seq(c).len() ==> (#[trigger] self.gaps.bucket_seq(c)[k])@.size < size
            &&& forall|k: int| 0 <= k < j ==> (#[trigger] self.gaps.bucket_seq(b)[k])@.size < size
        };
        assert(self.gap_bucket_seq(b)[j] == g);
    }

    /// The gaps and mappings of a well-formed memory space are pairwise disjoint, and an
    /// address lies in one of them exactly when it lies in `[ALLOC_BEGIN, PROCESS_END)`.
    pub proof fn lemma_tiling(&self)
        requires
            self.wf(),
        ensures
            forall|a: int| #[trigger] self.covered(a) <==> ALLOC_BEGIN <= a < PROCESS_END,
            forall|g1: MemGap, g2: MemGap|
                #[trigger] self.gap_set().contains(g1) && #[trigger] self.gap_set().contains(g2) && g1 != g2
                    ==> g1@.disjoint(g2@),
            forall|m1: MemMapping, m2: MemMapping|
                #[trigger] self.mapping_set().contains(m1) && #[trigger] self.mapping_set().contains(m2) && m1
                    != m2 ==> m1@.disjoint(m2@),
            forall|g: MemGap, m: MemMapping|
                #[trigger] self.gap_set().contains(g) && #[trigger] self.mapping_set().contains(m)
                    ==> g@.disjoint(m@),
    {
        assert forall|a: int| #[trigger] self.covered(a) implies ALLOC_BEGIN <= a < PROCESS_END by {
            if exists|g: MemGap| #[trigger] self.gap_set().contains(g) && g@.contains(a) {
                let g = choose|g: MemGap| #[trigger] self.gap_set().contains(g) && g@.contains(a);
            } else {
                let m = choose|m: MemMapping| #[trigger] self.mapping_set().contains(m) && m@.contains(a);
            }
        }
    }

    /// Every gap of a well-formed memory space is in the bucket
    /// `min(⌊log₂(size)⌋, GAPS_BUCKETS_COUNT − 1)` of its size, and in no other.
    pub proof fn lemma_bucket_placement(&self, g: MemGap)
        requires
            self.wf(),
            self.gap_set().contains(g),
        ensures
            self.gap_bucket(bucket_of(g@.size as nat) as int).contains(g),
            bucket_of(g@.size as nat) < GAPS_BUCKETS_COUNT,
            forall|b: int| 0 <= b < GAPS_BUCKETS_COUNT && b != bucket_of(g@.size as nat) ==> !#[trigger] self.gap_bucket(b).contains(g),
    {
    }
}

/// Mapping `n` pages from the low end of the gap `g`, then unmapping exactly those pages,
/// gives back the same gaps: the freed region is merged with what remained of `g`.
pub proof fn lemma_map_unmap_restores_gaps(gaps: Set<MemGap>, g: MemGap, n: int)
    requires
        gaps.contains(g),
        1 <= n <= g@.size,
        forall|x: MemGap| #[trigger] gaps.contains(x) ==> x.wf(),
        forall|g1: MemGap, g2: MemGap|
            #[trigger] gaps.contains(g1) && #[trigger] gaps.contains(g2) && g1 != g2 ==> g1@.disjoint(g2@),
        forall|g1: MemGap, g2: MemGap|
            #[trigger] gaps.contains(g1) && #[trigger] gaps.contains(g2) ==> g1@.end() != g2@.begin,
    ensures
        release(carve(gaps, g, n), Region { begin: g@.begin, size: n }) == gaps,
{
    let carved = carve(gaps, g, n);
    let r = Region { begin: g@.begin, size: n };
    let rest = MemGap::from_region(Region { begin: page_addr(g@.begin, n), size: g@.size - n });
    MemGap::lemma_from_region(Region { begin: page_addr(g@.begin, n), size: g@.size - n });
    MemGap::lemma_from_region(g@);
    assert(gaps.contains(g) && g.wf());
    assert(!gaps.contains(rest) || g@.size == n) by {
        if gaps.contains(rest) && g@.size > n {
            assert(rest != g);
            assert(rest@.disjoint(g@));
        }
    }
    assert forall|x: MemGap| #[trigger] carved.contains(x) implies x@.end() != r.begin by {
        if x != rest {
            assert(gaps.contains(x));
        }
    }
    assert forall|x: MemGap| #[trigger] carved.contains(x) && x@.begin == r.end() implies g@.size > n && x == rest by {
        if x != rest || g@.size == n {
            assert(gaps.contains(x) && x != g);
            if g@.size > n {
                assert(x@.disjoint(g@));
            }
        }
    }
    if g@.size > n {
        assert(carved.contains(rest));
    }
    assert(release(carved, r) =~= gaps);
}

/// Mapping lazily a region whose pages are not translated, then unmapping it, gives back the
/// same page table.
pub proof fn lemma_map_unmap_restores_table(t: Map<usize, PageEntry>, m: MemMapping, d: usize)
    requires
        forall|v: usize| m.is_page_of(m@.size, v as int) ==> !#[trigger] t.contains_key(v),
    ensures
        t.union_prefer_right(m.default_entries(d)).remove_keys(m.page_set()) == t,
{
    assert(t.union_prefer_right(m.default_entries(d)).remove_keys(m.page_set()) =~= t);
}




/// A fork followed by unmapping every mapping of the sibling leaves the parent translating
/// its pages to the same frames, every frame's contents unchanged, and every frame's count
/// as before the fork.
pub proof fn lemma_fork_then_drop(
    s0: MemSpace,
    p0: PhysMem,
    s1: MemSpace,
    p1: PhysMem,
    child: MemSpace,
    c1: MemSpace,
    p2: PhysMem,
)
    requires
        p0.default_page_spec() is Some,
        fork_outcome(s0, p0, s1, p1, Ok(child)),
        drop_outcome(child, p1, c1, p2),
    ensures
        forall|f: usize| f != p0.default_page_spec().unwrap() ==> #[trigger] p2.refcount(f) == p0.refcount(f),
        p2.pages() == p0.pages(),
        forall|v: usize| #[trigger] s1.page_table().contains_key(v) == s0.page_table().contains_key(v),
        forall|v: usize| #[trigger] s1.page_table().contains_key(v) ==> s1.page_table()[v].phys == s0.page_table()[v].phys,
{
    assert forall|f: usize| f != p0.default_page_spec().unwrap() implies #[trigger] p2.refcount(f) == p0.refcount(f) by {
        assert(p1.refcount(f) == forked_count(p0.refcount(f), s0.frame_uses(f)));
        assert(child.frame_uses(f) == s0.frame_uses(f));
    }
}

/// Mapping `size` pages lazily, then unmapping exactly the region returned, gives back the
/// same gaps, mappings and page table, and the same frame counts.
pub proof fn lemma_map_then_unmap(
    s0: MemSpace,
    p0: PhysMem,
    s1: MemSpace,
    p1: PhysMem,
    s2: MemSpace,
    p2: PhysMem,
    size: usize,
    flags: u8,
    p: usize,
    r: Result<(), Errno>,
)
    requires
        s0.wf(),
        p0.wf(),
        p0.default_page_spec() is Some,
        !has_flag(flags, MAPPING_FLAG_NOLAZY),
        map_outcome(s0, p0, s1, p1, None, size, flags, Ok(p)),
        unmap_outcome(s1, p1, s2, p2, p, size, r),
    ensures
        r is Ok,
        s2.gap_set() == s0.gap_set(),
        s2.mapping_set() == s0.mapping_set(),
        s2.page_table() == s0.page_table(),
        forall|f: usize| f != p0.default_page_spec().unwrap() ==> #[trigger] p2.refcount(f) == p0.refcount(f),
{
    let d = p0.default_page_spec().unwrap();
    let mm = MemMapping::from_parts(Region { begin: p as int, size: size as int }, flags);
    let g = choose|g: MemGap| {
        &&& #[trigger] s0.gap_set().contains(g)
        &&& s0.first_fit(g, size as nat)
        &&& g@.begin == p
        &&& g@.size >= size
        &&& s1.gap_set() == carve(s0.gap_set(), g, size as int)
        &&& s1.mapping_set() == s0.mapping_set().insert(mm)
        &&& s1.tlb_flushed()
        &&& forall|f: usize| f != p0.default_page_spec().unwrap() ==> #[trigger] p1.refcount(f)
            + s0.frame_uses(f) == p0.refcount(f) + s1.frame_uses(f)
        &&& !has_flag(flags, MAPPING_FLAG_NOLAZY) ==> {
            &&& p1.same_memory(&p0)
            &&& forall|f: usize| f != p0.default_page_spec().unwrap() ==> #[trigger] s1.frame_uses(f)
                == s0.frame_uses(f)
            &&& s1.page_table() == s0.page_table().union_prefer_right(mm.default_entries(d))
        }
    };
    MemMapping::lemma_from_parts(Region { begin: p as int, size: size as int }, flags);
    assert(size >= 1);
    assert(s1.mapping_set().contains(mm));
    assert(g.wf());
    assert(!s0.mapping_set().contains(mm)) by {
        if s0.mapping_set().contains(mm) {
            assert(g@.disjoint(mm@));
        }
    }
    // unmapping the whole new mapping
    assert(r is Ok);
    lemma_map_unmap_restores_gaps(s0.gap_set(), g, size as int);
    assert(s2.mapping_set() =~= s0.mapping_set());
    assert forall|v: usize| mm.is_page_of(mm@.size, v as int) implies !#[trigger] s0.page_table().contains_key(v) by {
        if s0.page_table().contains_key(v) {
            assert(s0.is_mapped_page(v));
            let o = choose|o: MemMapping| #[trigger] s0.mapping_set().contains(o) && o.is_page_of(o@.size, v as int);
            assert(o@.disjoint(g@));
        }
    }
    lemma_map_unmap_restores_table(s0.page_table(), mm, d);
    assert forall|v: usize| #[trigger] s2.page_table().contains_key(v) == s0.page_table().contains_key(v) by {
        if s0.page_table().contains_key(v) {
            assert(s0.is_mapped_page(v));
            let o = choose|o: MemMapping| #[trigger] s0.mapping_set().contains(o) && o.is_page_of(o@.size, v as int);
            assert(o@.disjoint(g@));
            assert(o@.contains(v as int));
        }
        if s1.page_table().contains_key(v) && !s0.page_table().contains_key(v) {
            assert(mm.is_page_of(size as int, v as int));
        }
    }
    assert(s2.page_table() =~= s0.page_table());
    assert forall|f: usize| f != d implies #[trigger] p2.refcount(f) == p0.refcount(f) by {
        assert forall|i: int| 0 <= i < mm@.size && s1.page_table().contains_key(#[trigger] mm.page(i) as usize)
            implies s1.page_table()[mm.page(i) as usize].phys != f by {
            mm.lemma_page_of(mm@.size, i);
        }
        mm.lemma_uses_none(s1.page_table(), mm@.size, f);
    }
}

} // verus!
