use maestro::gap::MemGap;
use maestro::gap_registry::GapRegistry;
use maestro::mem_space::MemSpace;
use maestro::memory::{
    gap_bucket_index, ALLOC_BEGIN, MAPPING_FLAG_NOLAZY, MAPPING_FLAG_SHARED, MAPPING_FLAG_USER,
    MAPPING_FLAG_WRITE, PAGE_FAULT_PRESENT, PAGE_FAULT_WRITE, PAGE_SIZE, PROCESS_END,
    VMEM_FLAG_USER, VMEM_FLAG_WRITE, WINDOW_PAGES,
};
use maestro::errno::Errno;
use maestro::phys::{PhysMem, Zone};

/// Writes `b` at `addr` as a process would: on a fault, the handler runs and the write is
/// retried. Returns whether the write went through.
fn write(ms: &mut MemSpace, phys: &mut PhysMem, addr: usize, b: u8) -> bool {
    for _ in 0..3 {
        match ms.write_byte(phys, addr, b) {
            Ok(()) => return true,
            Err(code) => {
                if !ms.handle_page_fault(addr, code, phys) {
                    return false;
                }
            }
        }
    }
    false
}

fn setup(frames: usize) -> (PhysMem, MemSpace) {
    let mut phys = PhysMem::new(frames);
    let ms = MemSpace::new(&mut phys).unwrap();
    (phys, ms)
}

fn total_pages(ms: &MemSpace) -> usize {
    let g: usize = ms.gaps().iter().map(|g| g.get_size()).sum();
    let m: usize = ms.mappings().iter().map(|m| m.get_size()).sum();
    g + m
}

#[test]
fn lazy_allocation() {
    let (mut phys, mut ms) = setup(16);
    let d = phys.default_page_addr().unwrap();
    let p = ms.map(None, 4, MAPPING_FLAG_WRITE | MAPPING_FLAG_USER, &mut phys).unwrap();
    for i in 0..4 {
        assert_eq!(ms.translate(p + i * PAGE_SIZE), Some(d));
        let e = ms.page_entry(p + i * PAGE_SIZE).unwrap();
        assert_eq!(e.flags & VMEM_FLAG_WRITE, 0);
    }
    assert_eq!(phys.allocated_count(Zone::User), 0);
    assert!(write(&mut ms, &mut phys, p, 0xab));
    let f = ms.translate(p).unwrap();
    assert_ne!(f, d);
    assert_eq!(phys.allocated_count(Zone::User), 1);
    assert_eq!(phys.refcount_of(f), 1);
    assert_eq!(ms.read_byte(&phys, p), Ok(0xab));
    for off in 1..PAGE_SIZE {
        assert_eq!(ms.read_byte(&phys, p + off), Ok(0));
    }
    assert!(ms.get_vmem().is_flushed());
    let e = ms.page_entry(p).unwrap();
    assert_eq!(e.flags, VMEM_FLAG_WRITE | VMEM_FLAG_USER);
}

#[test]
fn fork_then_write_copies_on_write() {
    let (mut phys, mut parent) = setup(16);
    let p = parent.map(None, 4, MAPPING_FLAG_WRITE | MAPPING_FLAG_USER, &mut phys).unwrap();
    assert!(write(&mut parent, &mut phys, p, 7));
    let f = parent.translate(p).unwrap();
    let mut child = parent.fork(&mut phys).unwrap();
    assert_eq!(child.translate(p), Some(f));
    assert_eq!(phys.refcount_of(f), 2);
    assert_eq!(parent.page_entry(p).unwrap().flags & VMEM_FLAG_WRITE, 0);
    assert_eq!(child.page_entry(p).unwrap().flags & VMEM_FLAG_WRITE, 0);
    assert!(write(&mut child, &mut phys, p + 1, 9));
    let g = child.translate(p).unwrap();
    assert_ne!(g, f);
    assert_eq!(phys.refcount_of(g), 1);
    assert_eq!(phys.refcount_of(f), 1);
    assert_eq!(child.read_byte(&phys, p), Ok(7));
    assert_eq!(child.read_byte(&phys, p + 1), Ok(9));
    assert_eq!(parent.read_byte(&phys, p), Ok(7));
    assert_eq!(parent.read_byte(&phys, p + 1), Ok(0));
}

#[test]
fn fork_preserves_untouched_pages() {
    let (mut phys, mut parent) = setup(16);
    let d = phys.default_page_addr().unwrap();
    let p = parent.map(None, 4, MAPPING_FLAG_WRITE | MAPPING_FLAG_USER, &mut phys).unwrap();
    assert!(write(&mut parent, &mut phys, p, 7));
    let child = parent.fork(&mut phys).unwrap();
    for i in 1..4 {
        assert_eq!(parent.translate(p + i * PAGE_SIZE), Some(d));
        assert_eq!(child.translate(p + i * PAGE_SIZE), Some(d));
    }
    assert_eq!(phys.allocated_count(Zone::User), 1);
}

#[test]
fn shared_mapping_does_not_copy() {
    let (mut phys, mut parent) = setup(16);
    let p = parent
        .map(None, 1, MAPPING_FLAG_WRITE | MAPPING_FLAG_USER | MAPPING_FLAG_SHARED, &mut phys)
        .unwrap();
    assert!(write(&mut parent, &mut phys, p, 1));
    let mut child = parent.fork(&mut phys).unwrap();
    let used = phys.allocated_count(Zone::User);
    assert!(write(&mut child, &mut phys, p, 2));
    assert_eq!(phys.allocated_count(Zone::User), used);
    assert_eq!(parent.read_byte(&phys, p), Ok(2));
    assert!(write(&mut parent, &mut phys, p + 3, 5));
    assert_eq!(child.read_byte(&phys, p + 3), Ok(5));
    assert_eq!(phys.allocated_count(Zone::User), used);
    assert_eq!(child.translate(p), parent.translate(p));
}

#[test]
fn size_bucketing() {
    let mut reg = GapRegistry::new();
    let g = MemGap::new(ALLOC_BEGIN, 1024);
    reg.insert(g);
    assert_eq!(gap_bucket_index(1024), 10);
    assert!(reg.bucket_gaps(10).contains(&g));
    let fit = reg.find_fit(3).unwrap();
    assert_eq!(fit, g);
    let (_, right) = fit.consume(0, 3);
    let right = right.unwrap();
    reg.remove(fit.get_begin()).unwrap();
    reg.insert(right);
    assert_eq!(right.get_size(), 1021);
    assert_eq!(right.get_begin(), ALLOC_BEGIN + 3 * PAGE_SIZE);
    assert_eq!(gap_bucket_index(1021), 9);
    assert!(reg.bucket_gaps(9).contains(&right));
    assert!(reg.bucket_gaps(10).is_empty());
}

#[test]
fn map_size_zero_is_invalid() {
    let (mut phys, mut ms) = setup(4);
    assert_eq!(ms.map(None, 0, MAPPING_FLAG_USER, &mut phys), Err(Errno::InvalidArgument));
    assert_eq!(ms.gaps().len(), 1);
    assert!(ms.mappings().is_empty());
}

#[test]
fn map_exact_gap_is_fully_consumed() {
    let (mut phys, mut ms) = setup(4);
    let p = ms.map(None, WINDOW_PAGES, MAPPING_FLAG_USER, &mut phys).unwrap();
    assert_eq!(p, ALLOC_BEGIN);
    assert!(ms.gaps().is_empty());
    assert_eq!(ms.mappings().len(), 1);
    assert_eq!(total_pages(&ms), WINDOW_PAGES);
    assert_eq!(ms.map(None, 1, MAPPING_FLAG_USER, &mut phys), Err(Errno::OutOfMemory));
}

#[test]
fn fault_without_present_bit_is_refused() {
    let (mut phys, mut ms) = setup(4);
    let p = ms.map(None, 1, MAPPING_FLAG_WRITE | MAPPING_FLAG_USER, &mut phys).unwrap();
    assert!(!ms.handle_page_fault(p, PAGE_FAULT_WRITE, &mut phys));
    assert!(!ms.handle_page_fault(p, 0, &mut phys));
    assert_eq!(phys.allocated_count(Zone::User), 0);
}

#[test]
fn write_fault_on_read_only_mapping_is_refused() {
    let (mut phys, mut ms) = setup(4);
    let p = ms.map(None, 1, MAPPING_FLAG_USER, &mut phys).unwrap();
    assert!(!ms.handle_page_fault(p, PAGE_FAULT_PRESENT | PAGE_FAULT_WRITE, &mut phys));
    assert!(!write(&mut ms, &mut phys, p, 1));
    assert_eq!(phys.allocated_count(Zone::User), 0);
}

#[test]
fn fault_in_owned_page_is_idempotent() {
    let (mut phys, mut ms) = setup(4);
    let p = ms.map(None, 1, MAPPING_FLAG_WRITE | MAPPING_FLAG_USER, &mut phys).unwrap();
    assert!(write(&mut ms, &mut phys, p, 3));
    let e = ms.page_entry(p).unwrap();
    let used = phys.allocated_count(Zone::User);
    assert!(ms.handle_page_fault(p, PAGE_FAULT_PRESENT | PAGE_FAULT_WRITE, &mut phys));
    assert_eq!(ms.page_entry(p), Some(e));
    assert_eq!(phys.allocated_count(Zone::User), used);
    assert_eq!(phys.refcount_of(e.phys), 1);
    assert_eq!(ms.read_byte(&phys, p), Ok(3));
}

#[test]
fn fault_outside_mappings_is_refused() {
    let (mut phys, mut ms) = setup(4);
    assert!(!ms.handle_page_fault(ALLOC_BEGIN, PAGE_FAULT_PRESENT | PAGE_FAULT_WRITE, &mut phys));
}

#[test]
fn nolazy_mapping_is_allocated_at_once() {
    let (mut phys, mut ms) = setup(8);
    let d = phys.default_page_addr().unwrap();
    let p = ms
        .map(None, 3, MAPPING_FLAG_WRITE | MAPPING_FLAG_USER | MAPPING_FLAG_NOLAZY, &mut phys)
        .unwrap();
    assert_eq!(phys.allocated_count(Zone::User), 3);
    for i in 0..3 {
        let f = ms.translate(p + i * PAGE_SIZE).unwrap();
        assert_ne!(f, d);
        assert_eq!(phys.refcount_of(f), 1);
        assert_eq!(ms.read_byte(&phys, p + i * PAGE_SIZE + 5), Ok(0));
    }
}

#[test]
fn nolazy_mapping_out_of_frames_rolls_back() {
    let (mut phys, mut ms) = setup(3);
    let r = ms.map(None, 4, MAPPING_FLAG_WRITE | MAPPING_FLAG_USER | MAPPING_FLAG_NOLAZY, &mut phys);
    assert_eq!(r, Err(Errno::OutOfMemory));
    assert_eq!(phys.allocated_count(Zone::User), 0);
    assert_eq!(ms.gaps().len(), 1);
    assert!(ms.mappings().is_empty());
}

#[test]
fn out_of_frames_at_fault_returns_false() {
    let (mut phys, mut ms) = setup(2);
    let p = ms.map(None, 2, MAPPING_FLAG_WRITE | MAPPING_FLAG_USER, &mut phys).unwrap();
    assert!(write(&mut ms, &mut phys, p, 1));
    assert!(!write(&mut ms, &mut phys, p + PAGE_SIZE, 1));
}

#[test]
fn map_with_hint() {
    let (mut phys, mut ms) = setup(2);
    assert_eq!(ms.map(Some(ALLOC_BEGIN + 1), 1, MAPPING_FLAG_USER, &mut phys), Err(Errno::InvalidArgument));
    assert_eq!(ms.map(Some(PROCESS_END), 1, MAPPING_FLAG_USER, &mut phys), Err(Errno::InvalidArgument));
    assert_eq!(ms.map(Some(ALLOC_BEGIN), 1, MAPPING_FLAG_USER, &mut phys), Err(Errno::OutOfMemory));
}

#[test]
fn map_stack_returns_top() {
    let (mut phys, mut ms) = setup(2);
    let top = ms.map_stack(None, 4, MAPPING_FLAG_WRITE | MAPPING_FLAG_USER, &mut phys).unwrap();
    assert_eq!(top, ALLOC_BEGIN + 4 * PAGE_SIZE);
}

#[test]
fn mappings_and_gaps_tile_the_window() {
    let (mut phys, mut ms) = setup(8);
    let a = ms.map(None, 5, MAPPING_FLAG_USER, &mut phys).unwrap();
    let b = ms.map(None, 7, MAPPING_FLAG_USER, &mut phys).unwrap();
    assert_eq!(a, ALLOC_BEGIN);
    assert_eq!(b, ALLOC_BEGIN + 5 * PAGE_SIZE);
    assert_eq!(total_pages(&ms), WINDOW_PAGES);
    let g = &ms.gaps()[0];
    assert_eq!(g.get_begin(), ALLOC_BEGIN + 12 * PAGE_SIZE);
    assert_eq!(g.get_end(), PROCESS_END);
}

#[test]
fn gaps_sit_in_their_bucket() {
    let (mut phys, mut ms) = setup(8);
    ms.map(None, 3, MAPPING_FLAG_USER, &mut phys).unwrap();
    for g in ms.gaps().clone() {
        let b = gap_bucket_index(g.get_size());
        assert!(ms.bucket_gaps(b).contains(&g));
        for other in 0..maestro::memory::GAPS_BUCKETS_COUNT {
            if other != b {
                assert!(!ms.bucket_gaps(other).contains(&g));
            }
        }
    }
}

#[test]
fn refcounts_match_translations() {
    let (mut phys, mut a) = setup(16);
    let p = a.map(None, 2, MAPPING_FLAG_WRITE | MAPPING_FLAG_USER, &mut phys).unwrap();
    assert!(write(&mut a, &mut phys, p, 1));
    assert!(write(&mut a, &mut phys, p + PAGE_SIZE, 1));
    let mut b = a.fork(&mut phys).unwrap();
    let c = b.fork(&mut phys).unwrap();
    let f = a.translate(p).unwrap();
    assert_eq!(phys.refcount_of(f), 3);
    assert!(write(&mut b, &mut phys, p, 2));
    assert_eq!(phys.refcount_of(f), 2);
    assert_eq!(phys.refcount_of(b.translate(p).unwrap()), 1);
    assert_eq!(c.translate(p), Some(f));
}

#[test]
fn write_bit_only_on_exclusive_frames() {
    let (mut phys, mut a) = setup(16);
    let p = a.map(None, 1, MAPPING_FLAG_WRITE | MAPPING_FLAG_USER, &mut phys).unwrap();
    assert!(write(&mut a, &mut phys, p, 1));
    assert_ne!(a.page_entry(p).unwrap().flags & VMEM_FLAG_WRITE, 0);
    let mut b = a.fork(&mut phys).unwrap();
    assert_eq!(a.page_entry(p).unwrap().flags & VMEM_FLAG_WRITE, 0);
    assert!(write(&mut b, &mut phys, p, 2));
    assert_ne!(b.page_entry(p).unwrap().flags & VMEM_FLAG_WRITE, 0);
    assert!(write(&mut a, &mut phys, p, 3));
    assert_ne!(a.page_entry(p).unwrap().flags & VMEM_FLAG_WRITE, 0);
    assert_eq!(b.read_byte(&phys, p), Ok(2));
}

#[test]
fn fork_then_drop_child_restores_parent() {
    let (mut phys, mut parent) = setup(16);
    let p = parent.map(None, 3, MAPPING_FLAG_WRITE | MAPPING_FLAG_USER, &mut phys).unwrap();
    assert!(write(&mut parent, &mut phys, p, 4));
    assert!(write(&mut parent, &mut phys, p + 2 * PAGE_SIZE, 6));
    let f0 = parent.translate(p).unwrap();
    let f2 = parent.translate(p + 2 * PAGE_SIZE).unwrap();
    let mut child = parent.fork(&mut phys).unwrap();
    assert_eq!(phys.refcount_of(f0), 2);
    child.unmap_all(&mut phys);
    assert_eq!(phys.refcount_of(f0), 1);
    assert_eq!(phys.refcount_of(f2), 1);
    assert_eq!(parent.read_byte(&phys, p), Ok(4));
    assert_eq!(parent.read_byte(&phys, p + 2 * PAGE_SIZE), Ok(6));
    assert_eq!(phys.allocated_count(Zone::User), 2);
    assert!(child.mappings().is_empty());
    assert_eq!(child.gaps().len(), 1);
}

#[test]
fn unmap_all_frees_frames() {
    let (mut phys, mut ms) = setup(8);
    let p = ms.map(None, 2, MAPPING_FLAG_WRITE | MAPPING_FLAG_USER, &mut phys).unwrap();
    assert!(write(&mut ms, &mut phys, p, 1));
    assert_eq!(phys.allocated_count(Zone::User), 1);
    ms.unmap_all(&mut phys);
    assert_eq!(phys.allocated_count(Zone::User), 0);
    assert_eq!(ms.translate(p), None);
}

#[test]
fn unmap_releases_frames() {
    let (mut phys, mut parent) = setup(16);
    let p = parent.map(None, 4, MAPPING_FLAG_WRITE | MAPPING_FLAG_USER, &mut phys).unwrap();
    assert!(write(&mut parent, &mut phys, p, 7));
    let mut child = parent.fork(&mut phys).unwrap();
    assert!(write(&mut child, &mut phys, p, 8));
    let f = parent.translate(p).unwrap();
    assert_eq!(phys.refcount_of(f), 1);
    let used = phys.allocated_count(Zone::User);
    assert_eq!(parent.unmap(p, 4, &mut phys), Ok(()));
    assert_eq!(phys.refcount_of(f), 0);
    assert_eq!(phys.allocated_count(Zone::User), used - 1);
    assert!(!phys.is_allocated_frame(f));
    assert!(parent.mappings().is_empty());
    assert_eq!(parent.gaps().len(), 1);
    assert_eq!(parent.gaps()[0].get_begin(), ALLOC_BEGIN);
    assert_eq!(parent.gaps()[0].get_size(), WINDOW_PAGES);
    for i in 0..4 {
        assert_eq!(parent.translate(p + i * PAGE_SIZE), None);
    }
    assert_eq!(child.read_byte(&phys, p), Ok(8));
}

#[test]
fn map_then_unmap_restores_gaps() {
    let (mut phys, mut ms) = setup(8);
    let a = ms.map(None, 3, MAPPING_FLAG_USER, &mut phys).unwrap();
    let before: Vec<(usize, usize)> = ms.gaps().iter().map(|g| (g.get_begin(), g.get_size())).collect();
    let b = ms.map(None, 5, MAPPING_FLAG_USER | MAPPING_FLAG_WRITE, &mut phys).unwrap();
    assert_eq!(ms.unmap(b, 5, &mut phys), Ok(()));
    let after: Vec<(usize, usize)> = ms.gaps().iter().map(|g| (g.get_begin(), g.get_size())).collect();
    assert_eq!(before, after);
    assert_eq!(ms.mappings().len(), 1);
    assert_eq!(ms.mappings()[0].get_begin(), a);
    assert_eq!(ms.translate(b), None);
}

#[test]
fn unmap_coalesces_with_both_neighbours() {
    let (mut phys, mut ms) = setup(8);
    let a = ms.map(None, 2, MAPPING_FLAG_USER, &mut phys).unwrap();
    let b = ms.map(None, 3, MAPPING_FLAG_USER, &mut phys).unwrap();
    let c = ms.map(None, 4, MAPPING_FLAG_USER, &mut phys).unwrap();
    assert_eq!(ms.unmap(a, 2, &mut phys), Ok(()));
    assert_eq!(ms.unmap(c, 4, &mut phys), Ok(()));
    assert_eq!(ms.gaps().len(), 2);
    assert_eq!(ms.unmap(b, 3, &mut phys), Ok(()));
    assert_eq!(ms.gaps().len(), 1);
    assert_eq!(ms.gaps()[0].get_size(), WINDOW_PAGES);
    assert!(ms.mappings().is_empty());
}

#[test]
fn partial_unmap_splits_mapping() {
    let (mut phys, mut ms) = setup(16);
    let p = ms.map(None, 6, MAPPING_FLAG_WRITE | MAPPING_FLAG_USER, &mut phys).unwrap();
    for i in 0..6 {
        assert!(write(&mut ms, &mut phys, p + i * PAGE_SIZE, i as u8 + 1));
    }
    assert_eq!(phys.allocated_count(Zone::User), 6);
    assert_eq!(ms.unmap(p + 2 * PAGE_SIZE, 2, &mut phys), Ok(()));
    assert_eq!(phys.allocated_count(Zone::User), 4);
    let maps: Vec<(usize, usize, u8)> = ms.mappings().iter().map(|m| (m.get_begin(), m.get_size(), m.get_flags())).collect();
    assert_eq!(
        maps,
        vec![
            (p, 2, MAPPING_FLAG_WRITE | MAPPING_FLAG_USER),
            (p + 4 * PAGE_SIZE, 2, MAPPING_FLAG_WRITE | MAPPING_FLAG_USER)
        ]
    );
    assert_eq!(ms.translate(p + 2 * PAGE_SIZE), None);
    assert_eq!(ms.translate(p + 3 * PAGE_SIZE), None);
    assert_eq!(ms.read_byte(&phys, p + PAGE_SIZE), Ok(2));
    assert_eq!(ms.read_byte(&phys, p + 4 * PAGE_SIZE), Ok(5));
    assert_eq!(total_pages(&ms), WINDOW_PAGES);
    assert!(ms.gaps().iter().any(|g| g.get_begin() == p + 2 * PAGE_SIZE && g.get_size() == 2));
}

#[test]
fn unmap_across_mappings_and_gaps() {
    let (mut phys, mut ms) = setup(8);
    let a = ms.map(None, 2, MAPPING_FLAG_USER, &mut phys).unwrap();
    let b = ms.map(None, 2, MAPPING_FLAG_USER, &mut phys).unwrap();
    assert_eq!(ms.unmap(a + PAGE_SIZE, 10, &mut phys), Ok(()));
    assert_eq!(ms.mappings().len(), 1);
    assert_eq!(ms.mappings()[0].get_begin(), a);
    assert_eq!(ms.mappings()[0].get_size(), 1);
    assert_eq!(ms.translate(b), None);
    assert_eq!(ms.gaps().len(), 1);
    assert_eq!(total_pages(&ms), WINDOW_PAGES);
}

#[test]
fn unmap_outside_mappings_is_a_no_op() {
    let (mut phys, mut ms) = setup(8);
    let a = ms.map(None, 2, MAPPING_FLAG_USER, &mut phys).unwrap();
    assert_eq!(ms.unmap(a + 10 * PAGE_SIZE, 3, &mut phys), Ok(()));
    assert_eq!(ms.mappings().len(), 1);
    assert_eq!(ms.gaps().len(), 1);
}

#[test]
fn unmap_rejects_bad_arguments() {
    let (mut phys, mut ms) = setup(8);
    let a = ms.map(None, 2, MAPPING_FLAG_USER, &mut phys).unwrap();
    assert_eq!(ms.unmap(a + 1, 1, &mut phys), Err(Errno::InvalidArgument));
    assert_eq!(ms.unmap(a, WINDOW_PAGES + 1, &mut phys), Err(Errno::InvalidArgument));
    assert_eq!(ms.mappings().len(), 1);
}

#[test]
fn bind_selects_the_page_table() {
    let (mut phys, mut a) = setup(8);
    let b = a.fork(&mut phys).unwrap();
    assert_ne!(a.context_id(), b.context_id());
    assert_eq!(phys.get_active_context(), None);
    b.bind(&mut phys);
    assert_eq!(phys.get_active_context(), Some(b.context_id()));
    a.bind(&mut phys);
    assert_eq!(phys.get_active_context(), Some(a.context_id()));
}

#[test]
fn mapping_reports_copy_on_write() {
    let (mut phys, mut a) = setup(8);
    let p = a.map(None, 2, MAPPING_FLAG_WRITE | MAPPING_FLAG_USER, &mut phys).unwrap();
    assert!(write(&mut a, &mut phys, p, 1));
    let m = a.mappings()[0];
    assert!(!m.is_cow(0, a.get_vmem(), &phys));
    assert!(!m.is_shared(0, a.get_vmem(), &phys));
    assert_eq!(m.get_physical_page(1, a.get_vmem(), &phys), None);
    let b = a.fork(&mut phys).unwrap();
    assert!(m.is_cow(0, a.get_vmem(), &phys));
    assert!(m.is_cow(0, b.get_vmem(), &phys));
    assert!(!m.is_cow(1, b.get_vmem(), &phys));
    assert_eq!(m.get_physical_page(0, b.get_vmem(), &phys), a.translate(p));
    assert!(m.contains_ptr(p + PAGE_SIZE));
    assert!(!m.contains_ptr(p + 2 * PAGE_SIZE));
}

#[test]
fn map_larger_than_window_is_invalid() {
    let (mut phys, mut ms) = setup(2);
    assert_eq!(ms.map(None, WINDOW_PAGES + 1, MAPPING_FLAG_USER, &mut phys), Err(Errno::InvalidArgument));
    assert_eq!(ms.gaps().len(), 1);
}
