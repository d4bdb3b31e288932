use lib::allocator::{Alloc, StdAlloc, HEAP_BASE};
use lib::ld_alloc::LDAlloc;
use lib::scope_guard::ScopeGuard;

#[test]
fn std_alloc_places_aligned_blocks_upwards() {
    let mut a = StdAlloc::new();
    let p = a.allocate(10, 1);
    assert_eq!(p, HEAP_BASE);
    let q = a.allocate(3, 16);
    // 4106 rounded up to 16
    assert_eq!(q, 4112);
    let r = a.allocate(0, 8);
    assert_eq!(r, 4120);
    let s = a.allocate(1, 1);
    assert_eq!(s, 4121);
    assert!(a.into_ptr().read_bytes(q, 0, 3) == vec![0, 0, 0]);
}

#[test]
fn std_alloc_read_after_write() {
    let mut a = StdAlloc::new();
    let p = a.allocate(8, 8);
    a.write_bytes(p, 2, &[1, 2, 3]);
    assert_eq!(a.read_bytes(p, 0, 8), vec![0, 0, 1, 2, 3, 0, 0, 0]);
    assert_eq!(a.read_bytes(p, 3, 2), vec![2, 3]);
}

#[test]
fn std_alloc_realloc_shrinks_in_place() {
    let mut a = StdAlloc::new();
    let p = a.allocate(6, 4);
    a.write_bytes(p, 0, &[1, 2, 3, 4, 5, 6]);
    let q = a.realloc(p, 6, 4, 3, 4);
    assert_eq!(q, p);
    assert_eq!(a.read_bytes(q, 0, 3), vec![1, 2, 3]);
}

#[test]
fn std_alloc_realloc_moves_to_grow_or_realign() {
    let mut a = StdAlloc::new();
    let p = a.allocate(4, 4);
    a.write_bytes(p, 0, &[9, 8, 7, 6]);
    let q = a.realloc(p, 4, 4, 6, 4);
    assert_eq!(q, 4100);
    assert_eq!(a.read_bytes(q, 0, 6), vec![9, 8, 7, 6, 0, 0]);
    let r = a.realloc(q, 6, 4, 2, 64);
    assert_eq!(r, 4160);
    assert_eq!(a.read_bytes(r, 0, 2), vec![9, 8]);
    a.release(r, 2, 64);
    let s = a.into_ptr_mut().allocate(1, 1);
    assert_eq!(s, 4162);
}

#[test]
fn ld_alloc_lists_blocks_most_recent_first() {
    let mut l = LDAlloc::new(StdAlloc::new());
    assert!(l.allocated_blocks().is_empty());
    let p = l.allocate(5, 8);
    let q = l.allocate(12, 8);
    let r = l.allocate(1, 1);
    assert!(p != 0 && q != 0 && r != 0);
    assert_eq!(l.allocated_blocks(), vec![(r, 1), (q, 12), (p, 5)]);
    l.validate_blocks();
    l.release(q, 12, 8);
    assert_eq!(l.allocated_blocks(), vec![(r, 1), (p, 5)]);
    l.release(r, 1, 1);
    assert_eq!(l.allocated_blocks(), vec![(p, 5)]);
    l.release(p, 5, 8);
    assert!(l.allocated_blocks().is_empty());
    l.validate_blocks();
}

// The leak detector asks its allocator for the block with a trailer of
// two words after it, then for the record: with the standard allocator
// underneath, the first block of 5 bytes takes 4096..4117 and its record
// starts at the next multiple of 8.
#[test]
fn ld_alloc_places_trailer_and_record() {
    let mut l = LDAlloc::new(StdAlloc::new());
    let p = l.into_ptr_mut().allocate(5, 8);
    assert_eq!(p, 4096);
    let q = l.allocate(1, 8);
    // the record of the first block took 4120..4152
    assert_eq!(q, 4152);
}

#[test]
fn ld_alloc_read_after_write_and_realloc() {
    let mut l = LDAlloc::new(StdAlloc::new());
    let p = l.allocate(4, 4);
    l.write_bytes(p, 0, &[1, 2, 3, 4]);
    assert_eq!(l.into_ptr().read_bytes(p, 1, 3), vec![2, 3, 4]);
    let q = l.realloc(p, 4, 4, 8, 8);
    assert!(q != 0 && q != p);
    assert_eq!(l.read_bytes(q, 0, 4), vec![1, 2, 3, 4]);
    assert_eq!(l.allocated_blocks(), vec![(q, 8)]);
    let r = l.realloc(q, 8, 8, 2, 8);
    assert_eq!(l.read_bytes(r, 0, 2), vec![1, 2]);
    assert_eq!(l.allocated_blocks(), vec![(r, 2)]);
    l.validate_blocks();
}

#[test]
fn ld_alloc_over_ld_alloc() {
    let mut l = LDAlloc::new(LDAlloc::new(StdAlloc::new()));
    let p = l.allocate(3, 1);
    l.write_bytes(p, 0, &[7, 7, 7]);
    assert_eq!(l.read_bytes(p, 0, 3), vec![7, 7, 7]);
    l.validate_blocks();
    l.release(p, 3, 1);
    assert!(l.allocated_blocks().is_empty());
}

#[test]
fn scope_guard_runs_unless_released() {
    let g = ScopeGuard::new(|| {});
    assert!(g.fire());
    let mut h = ScopeGuard::new(|| {});
    h.release();
    assert!(!h.fire());
    let counter = std::cell::Cell::new(0);
    let k = ScopeGuard::new(|| counter.set(counter.get() + 1));
    assert!(k.fire());
    assert_eq!(counter.get(), 1);
}
