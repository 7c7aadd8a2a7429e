use vm_arena::{Allocation, Arena, ArenaError, PageRange, MIB, PAGES_PER_COMMIT};

const PAGE: usize = 4096;

#[test]
fn capacity_rounds_up_to_pages() {
    assert_eq!(Arena::new(PAGE, PAGE).reserved_size(), PAGE);
    assert_eq!(Arena::new(5000, PAGE).reserved_size(), 2 * PAGE);
    assert_eq!(Arena::new(0, PAGE).reserved_size(), 0);
    let a = Arena::new(1, PAGE);
    assert_eq!(a.reserved_size(), PAGE);
    assert_eq!(a.page_size(), PAGE);
    assert_eq!(a.committed_boundary(), 0);
    assert_eq!(a.bump_offset(), 0);
}

#[test]
fn three_small_allocations_from_one_page() {
    let mut a = Arena::new(PAGE, PAGE);
    let r1 = a.alloc_region(8, 8).unwrap();
    let r2 = a.alloc_region(8, 8).unwrap();
    let r3 = a.alloc_region(8, 8).unwrap();
    assert_eq!(r1.offset, 0);
    assert_eq!(r2.offset, 8);
    assert_eq!(r3.offset, 16);
    // The commit batch is clamped to the one reserved page.
    assert_eq!(r1.commit, Some(PageRange { start: 0, len: PAGE }));
    assert_eq!(r2.commit, None);
    assert_eq!(r3.commit, None);
    assert_eq!(a.bump_offset(), 24);
    assert_eq!(a.committed_boundary(), PAGE);
}

#[test]
fn oversized_allocation_fails() {
    let mut a = Arena::new(PAGE, PAGE);
    assert_eq!(a.alloc_region(PAGE + 1, 1), Err(ArenaError::CapacityExceeded));
    assert_eq!(a.bump_offset(), 0);
    assert_eq!(a.committed_boundary(), 0);
    assert_eq!(a.alloc_region(usize::MAX, 1), Err(ArenaError::CapacityExceeded));
    // Exactly the capacity still fits.
    let r = a.alloc_region(PAGE, 1).unwrap();
    assert_eq!(r.offset, 0);
    assert_eq!(a.alloc_region(1, 1), Err(ArenaError::CapacityExceeded));
    assert_eq!(a.alloc_region(0, 1).unwrap().offset, PAGE);
}

#[test]
fn alignment_padding_can_exhaust_capacity() {
    let mut a = Arena::new(PAGE, PAGE);
    a.alloc_region(1, 1).unwrap();
    assert_eq!(a.alloc_region(1, 8192), Err(ArenaError::CapacityExceeded));
    assert_eq!(a.bump_offset(), 1);
}

#[test]
fn zero_capacity_arena_takes_only_empty_allocations() {
    let mut a = Arena::new(0, PAGE);
    assert_eq!(a.alloc_region(1, 1), Err(ArenaError::CapacityExceeded));
    assert_eq!(a.alloc_region(0, 8), Ok(Allocation { offset: 0, commit: None }));
}

#[test]
fn allocations_do_not_overlap_and_are_aligned() {
    let mut a = Arena::new(MIB, PAGE);
    let reqs: [(usize, usize); 8] =
        [(3, 1), (8, 8), (1, 2), (100, 16), (7, 4), (4096, 4096), (5, 32), (0, 64)];
    let mut placed: Vec<(usize, usize)> = Vec::new();
    for (size, align) in reqs {
        let r = a.alloc_region(size, align).unwrap();
        assert_eq!(r.offset % align, 0);
        placed.push((r.offset, size));
    }
    for i in 0..placed.len() {
        for j in (i + 1)..placed.len() {
            assert!(placed[i].0 + placed[i].1 <= placed[j].0);
        }
    }
    assert_eq!(placed[0], (0, 3));
    assert_eq!(placed[1], (8, 8));
    assert_eq!(placed[2], (16, 1));
    assert_eq!(placed[3], (32, 100));
    assert_eq!(placed[4], (132, 7));
    assert_eq!(placed[5], (4096, 4096));
    assert_eq!(placed[6], (8192, 5));
    assert_eq!(placed[7], (8256, 0));
}

#[test]
fn reset_restarts_at_first_offset() {
    let mut a = Arena::new(MIB, PAGE);
    let first = a.alloc_region(24, 8).unwrap();
    a.alloc_region(100_000, 16).unwrap();
    let committed = a.committed_boundary();
    let back = a.free_all();
    assert_eq!(back, PageRange { start: 0, len: committed });
    assert_eq!(a.bump_offset(), 0);
    assert_eq!(a.committed_boundary(), 0);
    let next = a.alloc_region(40, 32).unwrap();
    assert_eq!(next.offset, first.offset);
    assert_eq!(next.offset, 0);
    // Pages given back are committed again.
    assert_eq!(next.commit, Some(PageRange { start: 0, len: PAGE * PAGES_PER_COMMIT }));
}

#[test]
fn committed_boundary_grows_in_batches() {
    let granularity = PAGE * PAGES_PER_COMMIT;
    let mut a = Arena::new(4 * granularity, PAGE);
    let mut last = a.committed_boundary();
    for size in [1usize, 10, granularity, 3, granularity + 5, 17] {
        if let Ok(r) = a.alloc_region(size, 8) {
            let now = a.committed_boundary();
            assert!(now >= last);
            assert_eq!(now % granularity, 0);
            assert!(a.bump_offset() <= now);
            match r.commit {
                Some(range) => {
                    assert_eq!(range.start, last);
                    assert_eq!(range.len, now - last);
                }
                None => assert_eq!(now, last),
            }
            last = now;
        }
    }
    assert_eq!(a.committed_boundary(), 3 * granularity);
}

#[test]
fn commit_is_clamped_to_reservation() {
    let mut a = Arena::new(3 * PAGE, PAGE);
    let r = a.alloc_region(PAGE + 1, 1).unwrap();
    assert_eq!(r.commit, Some(PageRange { start: 0, len: 3 * PAGE }));
    assert_eq!(a.committed_boundary(), 3 * PAGE);
}

#[test]
fn array_allocation_uses_total_size() {
    let mut a = Arena::new(PAGE, PAGE);
    let r = a.alloc_array_region(10, 4, 4).unwrap();
    assert_eq!(r.offset, 0);
    assert_eq!(a.bump_offset(), 40);
    let r = a.alloc_array_region(3, 8, 8).unwrap();
    assert_eq!(r.offset, 40);
    assert_eq!(a.bump_offset(), 64);
    assert_eq!(a.alloc_array_region(usize::MAX, 2, 1), Err(ArenaError::CapacityExceeded));
    assert_eq!(a.alloc_array_region(1000, 8, 8), Err(ArenaError::CapacityExceeded));
    assert_eq!(a.bump_offset(), 64);
}
