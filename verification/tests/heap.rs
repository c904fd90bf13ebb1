use rand::{Rng, SeedableRng};
use rand::rngs::StdRng;

use torus_maze::binary_heap::{BinaryHashHeap, KeyValue, PushAction};

#[test]
fn test() {
    let mut rng = StdRng::seed_from_u64(0xe3d685fba7d55302);

    let mut heap = BinaryHashHeap::default();
    for _ in 0..4 {
        for _ in 0..1024 {
            match rng.random_range(0..=10) {
                0..3 => {
                    let key = rng.random_range(0..100);
                    let value = rng.random_range(0..100);

                    heap.push(PushAction::Keep, KeyValue { key, value });
                    assert!(heap.sanity_check());
                }
                3..6 => {
                    let key = rng.random_range(0..100);
                    let value = rng.random_range(0..100);

                    heap.push(PushAction::DecreaseKey, KeyValue { key, value });
                    assert!(heap.sanity_check());
                }
                6..9 => {
                    let key = rng.random_range(0..100);
                    let value = rng.random_range(0..100);

                    heap.push(PushAction::IncreaseKey, KeyValue { key, value });
                    assert!(heap.sanity_check());
                }
                9..10 => {
                    heap.pop();
                    assert!(heap.sanity_check());
                }
                10 => {
                    if let Some(node) = heap.pop() {
                        let mut value = node.value;
                        while let Some(node) = heap.pop() {
                            assert!(value <= node.value);
                            value = node.value;
                        }
                    }
                }
                _ => unreachable!(),
            }
        }
    }
}

#[test]
fn heap_pop_order_is_non_decreasing() {
    let mut heap = BinaryHashHeap::new();
    for (key, value) in [(4, 17), (9, 2), (1, 33), (7, 2), (3, 25), (8, 0), (5, 11)] {
        assert!(heap.push(PushAction::Keep, KeyValue { key, value }));
    }
    let mut popped = Vec::new();
    while let Some(item) = heap.pop() {
        popped.push(item.value);
    }
    assert_eq!(popped.len(), 7);
    for window in popped.windows(2) {
        assert!(window[0] <= window[1]);
    }
    assert_eq!(popped[0], 0);
    assert_eq!(popped[6], 33);
}

#[test]
fn heap_keep_ignores_duplicate_key() {
    let mut heap = BinaryHashHeap::new();
    assert!(heap.push(PushAction::Keep, KeyValue { key: 1, value: 5 }));
    assert!(!heap.push(PushAction::Keep, KeyValue { key: 1, value: 3 }));
    let item = heap.pop().unwrap();
    assert_eq!(item.key, 1);
    assert_eq!(item.value, 5);
    assert!(heap.pop().is_none());
}

#[test]
fn heap_len_counts_distinct_keys() {
    let mut heap = BinaryHashHeap::new();
    assert_eq!(heap.len(), 0);
    assert!(heap.push(PushAction::Keep, KeyValue { key: 4, value: 9 }));
    assert!(heap.push(PushAction::Keep, KeyValue { key: 7, value: 3 }));
    assert_eq!(heap.len(), 2);
    // Replacing a stored item does not change the size.
    assert!(heap.push(PushAction::DecreaseKey, KeyValue { key: 4, value: 1 }));
    assert_eq!(heap.len(), 2);
    heap.pop();
    assert_eq!(heap.len(), 1);
}

#[test]
fn heap_decrease_key_semantics() {
    let mut heap = BinaryHashHeap::new();
    assert!(heap.push(PushAction::Keep, KeyValue { key: 1, value: 5 }));
    assert!(heap.push(PushAction::Keep, KeyValue { key: 2, value: 4 }));
    // A worse (larger) value must leave the stored item unchanged.
    assert!(!heap.push(PushAction::DecreaseKey, KeyValue { key: 1, value: 7 }));
    // A strictly better (smaller) value must replace it.
    assert!(heap.push(PushAction::DecreaseKey, KeyValue { key: 1, value: 2 }));
    assert!(heap.sanity_check());
    let first = heap.pop().unwrap();
    assert_eq!(first.key, 1);
    assert_eq!(first.value, 2);
    let second = heap.pop().unwrap();
    assert_eq!(second.key, 2);
    assert_eq!(second.value, 4);
}

#[test]
fn heap_increase_key_semantics() {
    let mut heap = BinaryHashHeap::new();
    assert!(heap.push(PushAction::Keep, KeyValue { key: 1, value: 5 }));
    assert!(heap.push(PushAction::Keep, KeyValue { key: 2, value: 6 }));
    // A better (smaller) value must leave the stored item unchanged.
    assert!(!heap.push(PushAction::IncreaseKey, KeyValue { key: 1, value: 3 }));
    // A strictly worse (larger) value must replace it.
    assert!(heap.push(PushAction::IncreaseKey, KeyValue { key: 1, value: 9 }));
    assert!(heap.sanity_check());
    let first = heap.pop().unwrap();
    assert_eq!(first.key, 2);
    assert_eq!(first.value, 6);
    let second = heap.pop().unwrap();
    assert_eq!(second.key, 1);
    assert_eq!(second.value, 9);
}

#[test]
fn heap_map_matches_array_after_mixed_operations() {
    let mut heap = BinaryHashHeap::new();
    for key in 0..32 {
        heap.push(PushAction::Keep, KeyValue { key, value: (key * 7) % 13 });
        assert!(heap.sanity_check());
    }
    for key in (0..32).step_by(3) {
        heap.push(PushAction::DecreaseKey, KeyValue { key, value: 0 });
        assert!(heap.sanity_check());
    }
    for key in (0..32).step_by(5) {
        heap.push(PushAction::IncreaseKey, KeyValue { key, value: 100 });
        assert!(heap.sanity_check());
    }
    for _ in 0..16 {
        heap.pop();
        assert!(heap.sanity_check());
    }
}
