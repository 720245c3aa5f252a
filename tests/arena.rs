use multicore_alloc::arena::{Arena, ArenaError};

const BASE: usize = 0x2000_0000;
const SIZE: usize = 1280;

fn ready() -> Arena {
    let mut a = Arena::new();
    assert_eq!(a.init(BASE, SIZE), Ok(()));
    a
}

#[test]
fn second_init_is_double_initialization() {
    let mut a = Arena::new();
    assert_eq!(a.init(BASE, SIZE), Ok(()));
    assert_eq!(a.init(BASE, SIZE), Err(ArenaError::DoubleInitialization));
    assert_eq!(a.free(), SIZE);
}

#[test]
fn allocation_before_init_is_refused() {
    let mut a = Arena::new();
    assert_eq!(a.allocate(8, 8), Err(ArenaError::UninitializedAllocator));
}

#[test]
fn fresh_arena_counts_all_bytes_free() {
    let a = ready();
    assert_eq!(a.free(), 1280);
    assert_eq!(a.used(), 0);
}

#[test]
fn first_fit_hands_out_consecutive_runs() {
    let mut a = ready();
    assert_eq!(a.allocate(16, 8), Ok(BASE));
    assert_eq!(a.allocate(24, 8), Ok(BASE + 16));
    assert_eq!(a.free(), SIZE - 40);
    assert_eq!(a.used(), 40);
}

#[test]
fn allocation_respects_alignment() {
    let mut a = ready();
    assert_eq!(a.allocate(3, 1), Ok(BASE));
    let p = a.allocate(8, 8).unwrap();
    assert_eq!(p % 8, 0);
    assert_eq!(p, BASE + 8);
    // The five bytes skipped for alignment stay free and serve a small request.
    assert_eq!(a.allocate(4, 1), Ok(BASE + 3));
    assert_eq!(a.free(), SIZE - 15);
}

#[test]
fn live_allocations_never_overlap() {
    let mut a = ready();
    let mut runs: Vec<(usize, usize)> = Vec::new();
    for (i, n) in [8usize, 40, 1, 72, 16, 5, 100].iter().enumerate() {
        let align = if i % 2 == 0 { 8 } else { 4 };
        let p = a.allocate(*n, align).unwrap();
        assert_eq!(p % align, 0);
        assert!(p >= BASE && p + n <= BASE + SIZE);
        runs.push((p, *n));
    }
    let (p, n) = runs.remove(3);
    a.deallocate(p, n);
    runs.push((a.allocate(32, 8).unwrap(), 32));
    for i in 0..runs.len() {
        for j in 0..runs.len() {
            if i != j {
                let (p, n) = runs[i];
                let (q, m) = runs[j];
                assert!(p + n <= q || q + m <= p);
            }
        }
    }
}

#[test]
fn request_larger_than_free_space_fails() {
    let mut a = ready();
    assert_eq!(a.allocate(SIZE + 1, 1), Err(ArenaError::AllocationFailure));
    assert_eq!(a.allocate(1000, 8), Ok(BASE));
    assert_eq!(a.allocate(281, 1), Err(ArenaError::AllocationFailure));
    assert_eq!(a.free(), 280);
    assert_eq!(a.allocate(280, 1), Ok(BASE + 1000));
    assert_eq!(a.free(), 0);
    assert_eq!(a.allocate(1, 1), Err(ArenaError::AllocationFailure));
}

#[test]
fn fragmentation_can_refuse_what_total_free_space_would_hold() {
    let mut a = Arena::new();
    assert_eq!(a.init(BASE, 4), Ok(()));
    let b0 = a.allocate(1, 1).unwrap();
    let b1 = a.allocate(1, 1).unwrap();
    let b2 = a.allocate(1, 1).unwrap();
    let b3 = a.allocate(1, 1).unwrap();
    a.deallocate(b0, 1);
    a.deallocate(b2, 1);
    assert_eq!(a.free(), 2);
    assert_eq!(a.allocate(2, 1), Err(ArenaError::AllocationFailure));
    a.deallocate(b1, 1);
    assert_eq!(a.allocate(3, 1), Ok(BASE));
    a.deallocate(BASE, 3);
    a.deallocate(b3, 1);
    assert_eq!(a.allocate(4, 1), Ok(BASE));
}

#[test]
fn freeing_everything_merges_back_into_one_block() {
    let mut a = ready();
    let p = a.allocate(100, 4).unwrap();
    let q = a.allocate(200, 4).unwrap();
    let r = a.allocate(300, 4).unwrap();
    a.deallocate(q, 200);
    a.deallocate(p, 100);
    a.deallocate(r, 300);
    assert_eq!(a.free(), SIZE);
    assert_eq!(a.allocate(SIZE, 1), Ok(BASE));
}

#[test]
fn transient_allocation_returns_free_count() {
    let mut a = ready();
    let keep = a.allocate(80, 8).unwrap();
    let before = a.free();
    for _ in 0..3 {
        let p = a.allocate(72, 8).unwrap();
        assert_eq!(a.free(), before - 72);
        a.deallocate(p, 72);
        assert_eq!(a.free(), before);
    }
    a.deallocate(keep, 80);
    assert_eq!(a.free(), SIZE);
}

#[test]
fn zero_sized_requests_change_nothing() {
    let mut a = ready();
    assert_eq!(a.allocate(0, 1), Ok(BASE));
    assert_eq!(a.free(), SIZE);
    a.deallocate(BASE, 0);
    assert_eq!(a.free(), SIZE);
}
