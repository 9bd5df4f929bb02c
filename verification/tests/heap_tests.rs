use icint::heap::Heap;
use icint::word::WORDCOUNT;

/// Checks on a concrete heap that live blocks and free ranges lie above
/// `heap_top`, do not overlap, cover every word above it, and that no two
/// free ranges touch.
fn assert_partition(h: &Heap) {
    let mut owner = vec![0u8; WORDCOUNT];
    for (a, &n) in h.alloc_sizes.iter().enumerate() {
        for x in a..a + n {
            assert!(x > h.heap_top);
            assert_eq!(owner[x], 0);
            owner[x] = 1;
        }
    }
    let mut last_end: Option<usize> = None;
    for &(a, n) in h.free_list.iter() {
        assert!(n > 0);
        if let Some(e) = last_end {
            assert!(e < a);
        }
        last_end = Some(a + n);
        for x in a..a + n {
            assert!(x > h.heap_top);
            assert_eq!(owner[x], 0);
            owner[x] = 2;
        }
    }
    for x in h.heap_top + 1..WORDCOUNT {
        assert_ne!(owner[x], 0);
    }
}

#[test]
fn new_heap_is_empty() {
    let h = Heap::new();
    assert_eq!(h.heap_top, WORDCOUNT - 1);
    assert!(h.free_list.is_empty());
    assert_eq!(h.alloc_sizes.len(), WORDCOUNT);
    assert_partition(&h);
}

#[test]
fn getvec_rejects_zero_and_too_large() {
    let mut h = Heap::new();
    assert_eq!(h.getvec(0, 500), 0);
    assert_eq!(h.getvec(WORDCOUNT, 500), 0);
    assert_eq!(h.getvec(WORDCOUNT + 5, 500), 0);
    assert_eq!(h.heap_top, WORDCOUNT - 1);
}

#[test]
fn getvec_carves_from_the_top() {
    let mut h = Heap::new();
    let a = h.getvec(10, 500);
    assert_eq!(a, 19890);
    assert_eq!(h.heap_top, 19889);
    assert_eq!(h.alloc_sizes[19890], 10);
    let b = h.getvec(7, 500);
    assert_eq!(b, 19883);
    assert_eq!(h.heap_top, 19882);
    assert_partition(&h);
}

#[test]
fn getvec_refuses_to_touch_the_stack() {
    let mut h = Heap::new();
    // start = 19900 - 100 = 19800 must be above sp + 1
    assert_eq!(h.getvec(100, 19799), 0);
    assert_eq!(h.getvec(100, 19800), 0);
    assert_eq!(h.getvec(100, 19798), 19800);
    assert_partition(&h);
}

#[test]
fn freevec_of_unknown_block_gives_zero() {
    let mut h = Heap::new();
    let a = h.getvec(10, 500);
    assert_eq!(h.freevec(a + 1), 0);
    assert_eq!(h.freevec(WORDCOUNT), 0);
    assert_eq!(h.freevec(0), 0);
    assert_eq!(h.freevec(a), 1);
    assert_eq!(h.freevec(a), 0);
    assert_partition(&h);
}

#[test]
fn coalesced_block_is_reused() {
    let mut h = Heap::new();
    let a = h.getvec(10, 500);
    let b = h.getvec(10, 500);
    let c = h.getvec(10, 500);
    assert_eq!((a, b, c), (19890, 19880, 19870));
    assert_eq!(h.freevec(b), 1);
    assert_eq!(h.freevec(a), 1);
    assert_eq!(h.free_list, vec![(19880, 20)]);
    let top = h.heap_top;
    let r = h.getvec(20, 500);
    // the merged range of A and B, not a fresh block from the top
    assert_eq!(r, 19880);
    assert!(r <= a && a < r + 20);
    assert_eq!(h.heap_top, top);
    assert!(h.free_list.is_empty());
    assert_partition(&h);
}

#[test]
fn first_fit_splits_the_low_words() {
    let mut h = Heap::new();
    let a = h.getvec(30, 500);
    let _guard = h.getvec(5, 500);
    assert_eq!(h.freevec(a), 1);
    let r = h.getvec(12, 500);
    assert_eq!(r, a);
    assert_eq!(h.free_list, vec![(a + 12, 18)]);
    assert_eq!(h.alloc_sizes[a], 12);
    assert_partition(&h);
}

#[test]
fn first_fit_takes_the_lowest_range_that_fits() {
    let mut h = Heap::new();
    let a = h.getvec(8, 500);
    let gap1 = h.getvec(1, 500);
    let b = h.getvec(20, 500);
    let gap2 = h.getvec(1, 500);
    let c = h.getvec(20, 500);
    let _gap3 = h.getvec(1, 500);
    assert_eq!(h.freevec(a), 1);
    assert_eq!(h.freevec(b), 1);
    assert_eq!(h.freevec(c), 1);
    assert_eq!(h.free_list, vec![(c, 20), (b, 20), (a, 8)]);
    assert_eq!(h.getvec(20, 500), c);
    assert_eq!(h.getvec(20, 500), b);
    assert_eq!(h.getvec(8, 500), a);
    assert!(gap1 != 0 && gap2 != 0);
    assert_partition(&h);
}

#[test]
fn freeing_joins_both_neighbours() {
    let mut h = Heap::new();
    let a = h.getvec(4, 500);
    let b = h.getvec(4, 500);
    let c = h.getvec(4, 500);
    let _d = h.getvec(4, 500);
    assert_eq!(h.freevec(a), 1);
    assert_eq!(h.freevec(c), 1);
    assert_eq!(h.free_list, vec![(c, 4), (a, 4)]);
    assert_eq!(h.freevec(b), 1);
    assert_eq!(h.free_list, vec![(c, 12)]);
    assert_partition(&h);
}

#[test]
fn partition_holds_through_a_long_sequence() {
    let mut h = Heap::new();
    let mut live: Vec<usize> = Vec::new();
    let mut seed: u32 = 12345;
    for _ in 0..400 {
        seed = seed.wrapping_mul(1103515245).wrapping_add(12345);
        let pick = (seed >> 16) % 3;
        if pick < 2 || live.is_empty() {
            let n = 1 + ((seed >> 8) % 40) as usize;
            let r = h.getvec(n, 1000);
            if r != 0 {
                assert_eq!(h.alloc_sizes[r], n);
                live.push(r);
            }
        } else {
            let i = (seed as usize >> 4) % live.len();
            let a = live.swap_remove(i);
            assert_eq!(h.freevec(a), 1);
        }
        assert_partition(&h);
    }
}
