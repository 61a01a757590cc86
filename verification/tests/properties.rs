//! Concrete checks of the library's stated properties: length accounting,
//! index consistency, compaction idempotence and thresholds, reuse order,
//! post-compaction density, and the documented scenarios.

use stable_map::StableMap;

#[test]
fn len_accounting_over_insert_remove() {
    let mut map = StableMap::new();
    assert_eq!(map.len(), 0);
    for i in 0..20 {
        map.insert(i, i as i32);
        assert_eq!(map.len(), (i + 1) as usize);
        assert!(map.len() <= map.index_len());
    }
    for i in 0..10 {
        map.remove(i);
        assert_eq!(map.len(), (19 - i) as usize);
        assert!(map.len() <= map.index_len());
    }
    map.insert(100, 1);
    assert!(map.len() <= map.index_len());
}

#[test]
fn index_lookup_matches_key_lookup() {
    let mut map = StableMap::new();
    for i in 0..12 {
        map.insert(i, (i * 7) as i32);
    }
    map.remove(3);
    map.remove(8);
    for i in 0..12 {
        if let Some(idx) = map.get_index(i) {
            assert_eq!(map.get_by_index(idx), map.get(i));
        }
    }
}

#[test]
fn compact_twice_is_compact_once() {
    let mut map = StableMap::new();
    for i in 0..32 {
        map.insert(i, i);
    }
    for i in 0..20 {
        map.remove(i);
    }
    map.compact();
    let len_after_one = map.index_len();
    let idx_31 = map.get_index(31);
    map.compact();
    assert_eq!(map.index_len(), len_after_one);
    assert_eq!(map.get_index(31), idx_31);
}

#[test]
fn compact_threshold() {
    let mut map = StableMap::new();
    for i in 0..10 {
        map.insert(i, i);
    }
    for i in 0..8 {
        map.remove(i);
    }
    // Eight free indices: at the threshold max(10 / 2, 8), so nothing moves.
    map.compact();
    assert_eq!(map.index_len(), 10);
    map.remove(8);
    // Nine free indices: above the threshold, so compaction fires.
    map.compact();
    assert_eq!(map.index_len(), map.len());
}

#[test]
fn force_compact_always_makes_dense() {
    let mut map = StableMap::new();
    for i in 0..9 {
        map.insert(i, i);
    }
    map.remove(2);
    map.remove(5);
    map.force_compact();
    assert_eq!(map.index_len(), map.len());
    let mut seen = vec![false; map.len()];
    for k in map.keys() {
        let idx = map.get_index(k).unwrap();
        assert!(idx < map.len());
        assert!(!seen[idx]);
        seen[idx] = true;
    }
    assert!(seen.iter().all(|s| *s));
}

#[test]
fn reuse_order_takes_smallest_free_index() {
    let mut map = StableMap::new();
    for i in 0..6 {
        map.insert(i, i);
    }
    // Free the smallest occupied index while no smaller index is free.
    map.remove(0);
    map.insert(100, 100);
    assert_eq!(map.get_index(100), Some(0));
    // With several free indices, the smallest is always reused first.
    map.remove(3);
    map.remove(1);
    map.insert(101, 101);
    assert_eq!(map.get_index(101), Some(1));
    map.insert(102, 102);
    assert_eq!(map.get_index(102), Some(3));
    map.insert(103, 103);
    assert_eq!(map.get_index(103), Some(6));
}

#[test]
fn scenario_clone_compacts() {
    let mut map = StableMap::new();
    map.insert(1, 11);
    map.insert(2, 22);
    map.remove(1);
    let clone = map.clone();
    assert_eq!(clone.len(), 1);
    assert_eq!(clone.index_len(), 1);
    assert_eq!(clone.get(2), Some(&22));
}

#[test]
fn scenario_threshold_boundary() {
    let mut map = StableMap::new();
    for i in 0..10 {
        map.insert(i, i);
    }
    for i in 0..8 {
        map.remove(i);
    }
    // free count 8 <= max(10 / 2, 8) = 8: a no-op.
    map.compact();
    assert_eq!(map.get_index(9), Some(9));
    map.remove(8);
    // free count 9 > 8: compaction fires.
    map.compact();
    assert_eq!(map.get_index(9), Some(0));
}

#[test]
fn scenario_drain_yields_each_pair_once() {
    let mut map = StableMap::new();
    map.insert(1, 11);
    map.insert(2, 22);
    map.insert(3, 33);
    let mut drained = map.drain();
    drained.sort();
    assert_eq!(drained, [(1, 11), (2, 22), (3, 33)]);
    assert!(map.is_empty());
    assert_eq!(map.index_len(), 0);
    // Dropping the drained pairs without looking at them still leaves the
    // map empty.
    map.insert(4, 44);
    let _ = map.drain();
    assert!(map.is_empty());
}

#[test]
fn scenario_disjoint_mutation() {
    let mut map = StableMap::new();
    map.insert(1, 11);
    map.insert(2, 22);
    let (a, b) = map.get_many_mut(1, 2);
    let a = a.unwrap();
    let b = b.unwrap();
    *a += 1;
    *b += 2;
    assert_eq!(map.get(1), Some(&12));
    assert_eq!(map.get(2), Some(&24));
}

#[test]
fn index_stability_under_other_mutations() {
    let mut map = StableMap::new();
    for i in 0..8 {
        map.insert(i, i);
    }
    let idx_5 = map.get_index(5).unwrap();
    map.remove(0);
    map.remove(7);
    map.insert(20, 20);
    map.insert(21, 21);
    map.insert(22, 22);
    assert_eq!(map.get_index(5), Some(idx_5));
}

#[test]
fn index_iteration_with_concurrent_removal() {
    let mut map = StableMap::new();
    for i in 0..10 {
        map.insert(i, i as i32);
    }
    map.remove(4);
    map.remove(7);
    let mut seen: Vec<i32> = Vec::new();
    for idx in 0..map.index_len() {
        if let Some(v) = map.get_by_index(idx) {
            seen.push(*v);
        }
    }
    seen.sort();
    assert_eq!(seen, [0, 1, 2, 3, 5, 6, 8, 9]);
}

#[test]
fn occupied_error_reports_key_and_value() {
    let mut map = StableMap::new();
    map.insert(7, 70);
    let err = map.try_insert(7, 71).unwrap_err();
    assert_eq!(err.key, 7);
    assert_eq!(err.value, 71);
    assert_eq!(map.get(7), Some(&70));
}

#[test]
fn clear_resets_indices() {
    let mut map = StableMap::new();
    map.insert(1, 1);
    map.insert(2, 2);
    map.remove(1);
    map.clear();
    assert_eq!(map.index_len(), 0);
    map.insert(3, 3);
    assert_eq!(map.get_index(3), Some(0));
}

#[test]
fn string_values() {
    let mut map = StableMap::new();
    map.insert(1, String::from("a"));
    map.insert(2, String::from("b"));
    assert_eq!(map.insert(1, String::from("c")), Some(String::from("a")));
    assert_eq!(map.get(1).map(|s| s.as_str()), Some("c"));
    assert_eq!(map.remove(2), Some(String::from("b")));
}

#[test]
fn large_churn_keeps_consistency() {
    let mut map = StableMap::new();
    for round in 0u64..4 {
        for i in 0..50 {
            map.insert(i, (round * 1000 + i) as i64);
        }
        for i in (0..50).step_by(3) {
            map.remove(i);
        }
        map.compact();
        for i in 0..50 {
            match map.get(i) {
                Some(v) => {
                    assert_eq!(*v, (round * 1000 + i) as i64);
                    let idx = map.get_index(i).unwrap();
                    assert_eq!(map.get_by_index(idx), Some(v));
                },
                None => assert!(i % 3 == 0),
            }
        }
    }
}
