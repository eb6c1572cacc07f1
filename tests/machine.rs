use maestro::machine::Machine;
use maestro::memory::{MAPPING_FLAG_SHARED, MAPPING_FLAG_USER, MAPPING_FLAG_WRITE, PAGE_SIZE};
use maestro::errno::Errno;
use maestro::phys::Zone;

/// Writes as process `i` would, resolving faults.
fn write(m: &mut Machine, i: usize, addr: usize, b: u8) -> bool {
    for _ in 0..3 {
        match m.write_byte(i, addr, b) {
            Ok(()) => return true,
            Err(code) => {
                if !m.page_fault(i, addr, code) {
                    return false;
                }
            }
        }
    }
    false
}

#[test]
fn machine_needs_a_frame() {
    assert!(matches!(Machine::new(0), Err(Errno::OutOfMemory)));
}

#[test]
fn machine_counts_follow_processes() {
    let mut m = Machine::new(32).unwrap();
    let a = m.spawn();
    assert_eq!(a, 0);
    let p = m.map(a, None, 3, MAPPING_FLAG_WRITE | MAPPING_FLAG_USER).unwrap();
    assert!(write(&mut m, a, p, 1));
    assert!(write(&mut m, a, p + PAGE_SIZE, 2));
    let f = m.space(a).translate(p).unwrap();
    let b = m.fork(a).unwrap();
    let c = m.fork(b).unwrap();
    assert_eq!(m.len(), 3);
    assert_eq!(m.phys().refcount_of(f), 3);
    assert!(write(&mut m, c, p, 9));
    assert_eq!(m.phys().refcount_of(f), 2);
    assert_eq!(m.read_byte(c, p), Ok(9));
    assert_eq!(m.read_byte(b, p), Ok(1));
    m.exit(a);
    assert_eq!(m.len(), 2);
    assert_eq!(m.phys().refcount_of(f), 1);
    assert_eq!(m.read_byte(0, p), Ok(1));
    assert_eq!(m.unmap(0, p, 3), Ok(()));
    assert_eq!(m.phys().refcount_of(f), 0);
    m.exit(0);
    m.exit(0);
    assert_eq!(m.len(), 0);
    assert_eq!(m.phys().allocated_count(Zone::User), 0);
}

#[test]
fn machine_shared_mapping() {
    let mut m = Machine::new(8).unwrap();
    let a = m.spawn();
    let p = m.map(a, None, 1, MAPPING_FLAG_WRITE | MAPPING_FLAG_USER | MAPPING_FLAG_SHARED).unwrap();
    assert!(write(&mut m, a, p, 5));
    let b = m.fork(a).unwrap();
    assert!(write(&mut m, b, p, 6));
    assert_eq!(m.read_byte(a, p), Ok(6));
    m.bind(b);
    assert_eq!(m.phys().get_active_context(), Some(m.space(b).context_id()));
}
