use maestro::gap::MemGap;
use maestro::memory::{gap_bucket_index, log2_floor, ALLOC_BEGIN, PAGE_SIZE};
use maestro::phys::{PhysMem, Zone};
use maestro::ref_counter::PhysRefCounter;
use maestro::errno::Errno;

#[test]
fn gap_accessors() {
    let g = MemGap::new(ALLOC_BEGIN, 4);
    assert_eq!(g.get_begin(), ALLOC_BEGIN);
    assert_eq!(g.get_size(), 4);
    assert_eq!(g.get_end(), ALLOC_BEGIN + 4 * PAGE_SIZE);
    assert_eq!(g.get_page_offset_for(ALLOC_BEGIN + 2 * PAGE_SIZE + 7), 2);
}

#[test]
fn gap_consume() {
    let g = MemGap::new(ALLOC_BEGIN, 10);
    let (l, r) = g.consume(0, 3);
    assert!(l.is_none());
    let r = r.unwrap();
    assert_eq!(r.get_begin(), ALLOC_BEGIN + 3 * PAGE_SIZE);
    assert_eq!(r.get_size(), 7);
    let (l, r) = g.consume(2, 3);
    assert_eq!(l.unwrap().get_size(), 2);
    assert_eq!(l.unwrap().get_begin(), ALLOC_BEGIN);
    assert_eq!(r.unwrap().get_size(), 5);
    let (l, r) = g.consume(0, 10);
    assert!(l.is_none());
    assert!(r.is_none());
}

#[test]
fn gap_merge() {
    let mut a = MemGap::new(ALLOC_BEGIN, 2);
    let b = MemGap::new(ALLOC_BEGIN + 2 * PAGE_SIZE, 3);
    a.merge(&b);
    assert_eq!(a.get_begin(), ALLOC_BEGIN);
    assert_eq!(a.get_size(), 5);
    let mut c = MemGap::new(ALLOC_BEGIN + 2 * PAGE_SIZE, 3);
    c.merge(&MemGap::new(ALLOC_BEGIN, 2));
    assert_eq!(c.get_begin(), ALLOC_BEGIN);
    assert_eq!(c.get_size(), 5);
    let mut d = MemGap::new(ALLOC_BEGIN, 1);
    d.merge(&MemGap::new(ALLOC_BEGIN + 5 * PAGE_SIZE, 1));
    assert_eq!(d.get_size(), 1);
    assert_eq!(d.get_begin(), ALLOC_BEGIN);
}

#[test]
fn bucket_index() {
    assert_eq!(log2_floor(0), 0);
    assert_eq!(log2_floor(1), 0);
    assert_eq!(log2_floor(2), 1);
    assert_eq!(log2_floor(1021), 9);
    assert_eq!(log2_floor(1024), 10);
    assert_eq!(gap_bucket_index(3), 1);
    assert_eq!(gap_bucket_index(1 << 19), 15);
}

#[test]
fn ref_counter() {
    let mut c = PhysRefCounter::new();
    assert_eq!(c.get(0x5000), 0);
    assert_eq!(c.increment(0x5000), Ok(()));
    assert!(!c.is_shared(0x5000));
    assert_eq!(c.increment(0x5000), Ok(()));
    assert!(c.is_shared(0x5000));
    assert_eq!(c.get(0x5000), 2);
    assert!(!c.decrement(0x5000));
    assert!(c.decrement(0x5000));
    assert_eq!(c.get(0x5000), 0);
}

#[test]
fn frame_pool() {
    let mut p = PhysMem::new(2);
    assert_eq!(p.frame_count(), 2);
    let a = p.alloc_frame(Zone::User).unwrap();
    let b = p.alloc_frame(Zone::User).unwrap();
    assert_ne!(a, b);
    assert_eq!(p.alloc_frame(Zone::User), Err(Errno::OutOfMemory));
    p.write_byte(a, 3, 9);
    p.copy_frame(a, b);
    assert_eq!(p.read_byte(b, 3), 9);
    p.zero_frame(b);
    assert_eq!(p.read_byte(b, 3), 0);
    p.free_frame(a);
    assert_eq!(p.allocated_count(Zone::User), 1);
    assert_eq!(p.alloc_frame(Zone::Kernel), Ok(a));
    assert_eq!(p.get_default_page(), Err(Errno::OutOfMemory));
}

#[test]
fn default_page_is_allocated_once() {
    let mut p = PhysMem::new(2);
    let d = p.get_default_page().unwrap();
    assert_eq!(p.get_default_page(), Ok(d));
    assert_eq!(p.allocated_count(Zone::Kernel), 1);
    assert_eq!(p.read_byte(d, 100), 0);
}
