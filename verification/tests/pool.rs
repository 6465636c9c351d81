use mouros::pool_alloc::Pool;

#[test]
fn single_slot_pool_exhausts_and_recovers() {
    let mut pool = Pool::new(vec![42u32]);
    let (idx, val) = pool.take().unwrap();
    assert_eq!(idx, 0);
    assert_eq!(val, 42);
    assert!(pool.take().is_none());
    pool.give(0, 7);
    let (idx2, val2) = pool.take().unwrap();
    assert_eq!(idx2, 0);
    assert_eq!(val2, 7);
    assert!(pool.take().is_none());
}

#[test]
fn exactly_n_takes_succeed() {
    let n = 6usize;
    let mut pool = Pool::new(vec![0u8; n]);
    for _ in 0..n {
        assert!(pool.take().is_some());
    }
    assert!(pool.take().is_none());
    pool.give(3, 9);
    assert!(pool.take().is_some());
    assert!(pool.take().is_none());
}

#[test]
fn takes_hand_out_distinct_slots_in_index_order() {
    let mut pool = Pool::new(vec![10u64, 20, 30, 40]);
    let mut seen = Vec::new();
    while let Some((idx, val)) = pool.take() {
        assert_eq!(val, (idx as u64 + 1) * 10);
        assert!(!seen.contains(&idx));
        seen.push(idx);
    }
    assert_eq!(seen, vec![0, 1, 2, 3]);
}

#[test]
fn given_back_slots_return_each_exactly_once() {
    let mut pool = Pool::new(vec![0i32; 5]);
    for _ in 0..5 {
        pool.take().unwrap();
    }
    // Give back in an arbitrary, non-index order; re-taking must yield
    // only those slots, each exactly once, most recently given first.
    pool.give(2, -2);
    pool.give(4, -4);
    pool.give(1, -1);
    let mut returned = Vec::new();
    while let Some((idx, val)) = pool.take() {
        assert_eq!(val, -(idx as i32));
        returned.push(idx);
    }
    assert_eq!(returned, vec![1, 4, 2]);
}

#[test]
fn scenario_four_slot_pool() {
    let mut pool = Pool::new(vec![0u16; 4]);
    let mut ids = Vec::new();
    for _ in 0..4 {
        let (idx, _) = pool.take().expect("one of the first four takes failed");
        ids.push(idx);
    }
    ids.sort();
    ids.dedup();
    assert_eq!(ids.len(), 4, "the four takes were not distinct");
    assert!(pool.take().is_none(), "a fifth take succeeded");
    pool.give(2, 0);
    let (idx, _) = pool.take().expect("take after give failed");
    assert_eq!(idx, 2, "take did not return the slot just given back");
}
