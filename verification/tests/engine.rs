use smol_lsm::{LSMLevel, LSMTree};

fn live(key: &[u8], value: &[u8]) -> (Vec<u8>, Option<Vec<u8>>) {
    (key.to_vec(), Some(value.to_vec()))
}

fn key_of(number: u32) -> Vec<u8> {
    format!("key{:05}", number).into_bytes()
}

fn value_of(number: u32) -> Vec<u8> {
    format!("value{}", number).into_bytes()
}

fn level_sizes(tree: &LSMTree) -> Vec<Option<usize>> {
    (0..tree.level_count())
        .map(|index| tree.level(index).map(LSMLevel::len))
        .collect()
}

#[test]
fn scenario_flush_then_cascade() {
    let mut tree = LSMTree::new(2);
    tree.insert(b"a".to_vec(), Some(b"1".to_vec()));
    tree.insert(b"b".to_vec(), Some(b"2".to_vec()));

    assert_eq!(tree.memtable_len(), 0);
    assert_eq!(tree.level_count(), 1);
    assert_eq!(
        tree.level(0).unwrap().entries(),
        &vec![live(b"a", b"1"), live(b"b", b"2")]
    );

    tree.insert(b"c".to_vec(), Some(b"3".to_vec()));
    assert_eq!(tree.memtable_len(), 1);
    tree.insert(b"d".to_vec(), Some(b"4".to_vec()));

    assert_eq!(tree.memtable_len(), 0);
    assert_eq!(tree.level_count(), 2);
    assert!(tree.level(0).is_none());
    assert_eq!(
        tree.level(1).unwrap().entries(),
        &vec![
            live(b"a", b"1"),
            live(b"b", b"2"),
            live(b"c", b"3"),
            live(b"d", b"4")
        ]
    );

    assert_eq!(tree.get(b"a"), Some(b"1".to_vec()));
    assert_eq!(tree.get(b"d"), Some(b"4".to_vec()));
    assert_eq!(tree.get(b"z"), None);
}

#[test]
fn scenario_overwrite_in_memtable_then_flush() {
    let mut tree = LSMTree::new(2);
    tree.insert(b"key1".to_vec(), Some(b"val1".to_vec()));
    tree.insert(b"key1".to_vec(), Some(b"val2".to_vec()));

    assert_eq!(tree.memtable_len(), 1);
    assert_eq!(tree.level_count(), 0);
    assert_eq!(tree.get(b"key1"), Some(b"val2".to_vec()));

    tree.insert(b"key2".to_vec(), Some(b"val3".to_vec()));

    assert_eq!(tree.memtable_len(), 0);
    assert_eq!(tree.level_count(), 1);
    assert_eq!(
        tree.level(0).unwrap().entries(),
        &vec![live(b"key1", b"val2"), live(b"key2", b"val3")]
    );
    assert_eq!(tree.get(b"key1"), Some(b"val2".to_vec()));
}

#[test]
fn new_tree_is_empty() {
    let tree = LSMTree::new(4);
    assert_eq!(tree.threshold(), 4);
    assert_eq!(tree.memtable_len(), 0);
    assert_eq!(tree.level_count(), 0);
    assert!(tree.level(0).is_none());
    assert_eq!(tree.get(b"anything"), None);
    assert_eq!(tree.get(b""), None);
}

#[test]
fn threshold_zero_is_taken_as_one() {
    let mut tree = LSMTree::new(0);
    assert_eq!(tree.threshold(), 1);
    tree.insert(b"a".to_vec(), Some(b"1".to_vec()));
    assert_eq!(tree.memtable_len(), 0);
    assert_eq!(level_sizes(&tree), vec![Some(1)]);
    assert_eq!(tree.get(b"a"), Some(b"1".to_vec()));
}

#[test]
fn threshold_one_flushes_every_write() {
    let mut tree = LSMTree::new(1);
    tree.insert(b"a".to_vec(), Some(b"1".to_vec()));
    assert_eq!(level_sizes(&tree), vec![Some(1)]);
    tree.insert(b"b".to_vec(), Some(b"2".to_vec()));
    assert_eq!(level_sizes(&tree), vec![None, Some(2)]);
    tree.insert(b"c".to_vec(), Some(b"3".to_vec()));
    assert_eq!(level_sizes(&tree), vec![None, None, Some(3)]);
    tree.insert(b"d".to_vec(), Some(b"4".to_vec()));
    assert_eq!(level_sizes(&tree), vec![None, Some(1), Some(3)]);
    assert_eq!(tree.memtable_len(), 0);
    for (key, value) in [(b"a", b"1"), (b"b", b"2"), (b"c", b"3"), (b"d", b"4")] {
        assert_eq!(tree.get(key), Some(value.to_vec()));
    }
}

#[test]
fn read_your_write_across_flushes_and_cascades() {
    let mut tree = LSMTree::new(3);
    for number in 0..40 {
        tree.insert(key_of(number), Some(value_of(number)));
        assert_eq!(tree.get(&key_of(number)), Some(value_of(number)));
    }
    tree.insert(b"mine".to_vec(), Some(b"kept".to_vec()));
    assert_eq!(tree.get(b"mine"), Some(b"kept".to_vec()));
    for number in 40..200 {
        tree.insert(key_of(number), Some(value_of(number)));
        assert_eq!(tree.get(b"mine"), Some(b"kept".to_vec()));
    }
    for number in 0..200 {
        assert_eq!(tree.get(&key_of(number)), Some(value_of(number)));
    }
    assert_eq!(tree.get(&key_of(200)), None);
}

#[test]
fn overwrite_wins_with_a_flush_in_between() {
    let mut tree = LSMTree::new(2);
    tree.insert(b"k".to_vec(), Some(b"v1".to_vec()));
    tree.insert(b"other1".to_vec(), Some(b"x".to_vec()));
    assert_eq!(tree.memtable_len(), 0);
    tree.insert(b"other2".to_vec(), Some(b"x".to_vec()));
    tree.insert(b"other3".to_vec(), Some(b"x".to_vec()));
    assert_eq!(tree.get(b"k"), Some(b"v1".to_vec()));

    tree.insert(b"k".to_vec(), Some(b"v2".to_vec()));
    assert_eq!(tree.get(b"k"), Some(b"v2".to_vec()));
    for number in 0..30 {
        tree.insert(key_of(number), Some(value_of(number)));
        assert_eq!(tree.get(b"k"), Some(b"v2".to_vec()));
    }
}

#[test]
fn overwrite_wins_without_a_flush() {
    let mut tree = LSMTree::new(10);
    tree.insert(b"k".to_vec(), Some(b"v1".to_vec()));
    tree.insert(b"k".to_vec(), Some(b"v2".to_vec()));
    assert_eq!(tree.memtable_len(), 1);
    assert_eq!(tree.level_count(), 0);
    assert_eq!(tree.get(b"k"), Some(b"v2".to_vec()));
}

#[test]
fn delete_hides_a_value_in_the_memtable() {
    let mut tree = LSMTree::new(10);
    tree.insert(b"k".to_vec(), Some(b"v".to_vec()));
    tree.delete(b"k".to_vec());
    assert_eq!(tree.memtable_len(), 1);
    assert_eq!(tree.get(b"k"), None);
}

#[test]
fn delete_hides_a_value_in_a_deeper_level() {
    let mut tree = LSMTree::new(2);
    tree.insert(b"k".to_vec(), Some(b"v".to_vec()));
    for number in 0..9 {
        tree.insert(key_of(number), Some(value_of(number)));
    }
    assert_eq!(tree.get(b"k"), Some(b"v".to_vec()));
    tree.delete(b"k".to_vec());
    assert_eq!(tree.get(b"k"), None);
    for number in 9..60 {
        tree.insert(key_of(number), Some(value_of(number)));
        assert_eq!(tree.get(b"k"), None);
    }
}

#[test]
fn tombstone_is_kept_through_flush_and_merge() {
    let mut tree = LSMTree::new(2);
    tree.insert(b"a".to_vec(), Some(b"1".to_vec()));
    tree.delete(b"a".to_vec());
    tree.delete(b"b".to_vec());
    assert_eq!(
        tree.level(0).unwrap().entries(),
        &vec![(b"a".to_vec(), None), (b"b".to_vec(), None)]
    );
    tree.insert(b"c".to_vec(), Some(b"3".to_vec()));
    tree.insert(b"d".to_vec(), Some(b"4".to_vec()));
    assert_eq!(
        tree.level(1).unwrap().entries(),
        &vec![
            (b"a".to_vec(), None),
            (b"b".to_vec(), None),
            live(b"c", b"3"),
            live(b"d", b"4")
        ]
    );
    assert_eq!(tree.get(b"a"), None);
    assert_eq!(tree.get(b"b"), None);
}

#[test]
fn delete_of_an_unknown_key_writes_a_tombstone() {
    let mut tree = LSMTree::new(3);
    tree.delete(b"never".to_vec());
    assert_eq!(tree.memtable_len(), 1);
    assert_eq!(tree.get(b"never"), None);
}

#[test]
fn insert_of_none_is_a_delete() {
    let mut tree = LSMTree::new(3);
    tree.insert(b"k".to_vec(), Some(b"v".to_vec()));
    tree.insert(b"k".to_vec(), None);
    assert_eq!(tree.get(b"k"), None);
}

#[test]
fn insert_after_delete_brings_the_key_back() {
    let mut tree = LSMTree::new(2);
    tree.insert(b"k".to_vec(), Some(b"v1".to_vec()));
    tree.insert(b"x".to_vec(), Some(b"x".to_vec()));
    tree.delete(b"k".to_vec());
    tree.insert(b"y".to_vec(), Some(b"y".to_vec()));
    assert_eq!(tree.get(b"k"), None);
    tree.insert(b"k".to_vec(), Some(b"v2".to_vec()));
    assert_eq!(tree.get(b"k"), Some(b"v2".to_vec()));
    tree.insert(b"z".to_vec(), Some(b"z".to_vec()));
    assert_eq!(tree.get(b"k"), Some(b"v2".to_vec()));
}

#[test]
fn newer_level_shadows_older_level() {
    let mut tree = LSMTree::new(2);
    // first two flushes put a and b into level 1
    tree.insert(b"a".to_vec(), Some(b"old".to_vec()));
    tree.insert(b"b".to_vec(), Some(b"old".to_vec()));
    tree.insert(b"c".to_vec(), Some(b"old".to_vec()));
    tree.insert(b"d".to_vec(), Some(b"old".to_vec()));
    assert_eq!(level_sizes(&tree), vec![None, Some(4)]);
    // the third flush merges level 1 into a new level 2
    tree.insert(b"e".to_vec(), Some(b"old".to_vec()));
    tree.insert(b"f".to_vec(), Some(b"old".to_vec()));
    assert_eq!(level_sizes(&tree), vec![None, None, Some(6)]);
    // the fourth flush stays in level 1, in front of level 2
    tree.insert(b"a".to_vec(), Some(b"new".to_vec()));
    tree.delete(b"b".to_vec());
    assert_eq!(level_sizes(&tree), vec![None, Some(2), Some(6)]);
    assert_eq!(tree.get(b"a"), Some(b"new".to_vec()));
    assert_eq!(tree.get(b"b"), None);
    assert_eq!(tree.get(b"c"), Some(b"old".to_vec()));
    assert_eq!(
        tree.level(2).unwrap().entries()[0],
        live(b"a", b"old")
    );
}

#[test]
fn flush_happens_exactly_at_the_threshold() {
    for threshold in 1..8usize {
        let mut tree = LSMTree::new(threshold);
        for number in 0..threshold {
            assert_eq!(tree.memtable_len(), number);
            assert_eq!(tree.level_count(), 0);
            tree.insert(key_of(number as u32), Some(value_of(number as u32)));
        }
        assert_eq!(tree.memtable_len(), 0);
        assert_eq!(level_sizes(&tree), vec![Some(threshold)]);
    }
}

#[test]
fn repeated_keys_do_not_count_towards_the_threshold() {
    let mut tree = LSMTree::new(3);
    for round in 0..10 {
        tree.insert(b"a".to_vec(), Some(value_of(round)));
        tree.insert(b"b".to_vec(), Some(value_of(round)));
    }
    assert_eq!(tree.memtable_len(), 2);
    assert_eq!(tree.level_count(), 0);
    tree.insert(b"c".to_vec(), Some(b"3".to_vec()));
    assert_eq!(tree.memtable_len(), 0);
    assert_eq!(level_sizes(&tree), vec![Some(3)]);
    assert_eq!(tree.get(b"a"), Some(value_of(9)));
}

#[test]
fn cascade_runs_through_the_levels() {
    let mut tree = LSMTree::new(2);
    let mut seen = Vec::new();
    for number in 0..18 {
        tree.insert(key_of(number), Some(value_of(number)));
        if tree.memtable_len() == 0 {
            seen.push(level_sizes(&tree));
        }
    }
    assert_eq!(
        seen,
        vec![
            vec![Some(2)],
            vec![None, Some(4)],
            vec![None, None, Some(6)],
            vec![None, Some(2), Some(6)],
            vec![None, None, None, Some(10)],
            vec![None, Some(2), None, Some(10)],
            vec![None, None, Some(4), Some(10)],
            vec![None, Some(2), Some(4), Some(10)],
            vec![None, None, None, None, Some(18)],
        ]
    );
}

#[test]
fn cascade_stops_below_capacity() {
    let mut tree = LSMTree::new(4);
    // the keys repeat, so the merge into level 1 stays below its capacity of 8
    for round in 0..5 {
        for number in 0..4 {
            tree.insert(key_of(number), Some(value_of(round)));
        }
    }
    assert_eq!(level_sizes(&tree), vec![None, Some(4)]);
    for number in 0..4 {
        assert_eq!(tree.get(&key_of(number)), Some(value_of(4)));
    }
}

#[test]
fn every_level_but_the_last_stays_below_its_capacity() {
    let mut tree = LSMTree::new(3);
    for number in 0..500u32 {
        tree.insert(key_of(number * 7919 % 1000), Some(value_of(number)));
        assert!(tree.memtable_len() < 3);
        let count = tree.level_count();
        for index in 0..count {
            let held = tree.level(index).map_or(0, LSMLevel::len);
            let room = tree.level_capacity(index).unwrap();
            if index + 1 < count {
                assert!(held < room);
            } else {
                assert!(held <= room);
            }
        }
    }
}

#[test]
fn levels_hold_strictly_increasing_keys() {
    let mut tree = LSMTree::new(3);
    for number in 0..300u32 {
        tree.insert(key_of(number * 31 % 101), Some(value_of(number)));
        for index in 0..tree.level_count() {
            if let Some(level) = tree.level(index) {
                for pair in level.entries().windows(2) {
                    assert!(pair[0].0 < pair[1].0);
                }
            }
        }
    }
}

#[test]
fn level_capacity_doubles_from_level_to_level() {
    let tree = LSMTree::new(3);
    assert_eq!(tree.level_capacity(0), Some(3));
    assert_eq!(tree.level_capacity(1), Some(6));
    assert_eq!(tree.level_capacity(2), Some(12));
    assert_eq!(tree.level_capacity(3), Some(24));
    assert_eq!(tree.level_capacity(10), Some(3072));
}

#[test]
fn level_capacity_that_does_not_fit_is_none() {
    let bits = usize::BITS as usize;
    let one = LSMTree::new(1);
    assert_eq!(one.level_capacity(bits - 1), Some(1usize << (bits - 1)));
    assert_eq!(one.level_capacity(bits), None);
    assert_eq!(one.level_capacity(usize::MAX), None);
    let three = LSMTree::new(3);
    assert_eq!(three.level_capacity(bits - 2), Some(3usize << (bits - 2)));
    assert_eq!(three.level_capacity(bits - 1), None);
    let most = LSMTree::new(usize::MAX);
    assert_eq!(most.level_capacity(0), Some(usize::MAX));
    assert_eq!(most.level_capacity(1), None);
}

#[test]
fn level_of_a_missing_slot_is_none() {
    let mut tree = LSMTree::new(1);
    tree.insert(b"a".to_vec(), Some(b"1".to_vec()));
    assert!(tree.level(0).is_some());
    assert!(tree.level(1).is_none());
    assert!(tree.level(usize::MAX).is_none());
}

#[test]
fn empty_key_and_empty_value_are_ordinary() {
    let mut tree = LSMTree::new(2);
    tree.insert(vec![], Some(vec![]));
    assert_eq!(tree.get(b""), Some(vec![]));
    tree.insert(b"a".to_vec(), Some(b"1".to_vec()));
    assert_eq!(
        tree.level(0).unwrap().entries(),
        &vec![(vec![], Some(vec![])), live(b"a", b"1")]
    );
    assert_eq!(tree.get(b""), Some(vec![]));
    tree.delete(vec![]);
    assert_eq!(tree.get(b""), None);
}

#[test]
fn keys_are_ordered_by_their_bytes() {
    let mut tree = LSMTree::new(4);
    tree.insert(vec![0xff], Some(b"4".to_vec()));
    tree.insert(vec![0x00, 0xff], Some(b"2".to_vec()));
    tree.insert(vec![0x01], Some(b"3".to_vec()));
    tree.insert(vec![0x00], Some(b"1".to_vec()));
    assert_eq!(
        tree.level(0).unwrap().entries(),
        &vec![
            (vec![0x00], Some(b"1".to_vec())),
            (vec![0x00, 0xff], Some(b"2".to_vec())),
            (vec![0x01], Some(b"3".to_vec())),
            (vec![0xff], Some(b"4".to_vec())),
        ]
    );
}

#[test]
fn tree_agrees_with_a_map() {
    let mut tree = LSMTree::new(5);
    let mut map = std::collections::BTreeMap::new();
    let mut state: u32 = 12345;
    for _ in 0..2000 {
        state = state.wrapping_mul(1103515245).wrapping_add(12345);
        let key = key_of((state >> 16) % 150);
        state = state.wrapping_mul(1103515245).wrapping_add(12345);
        if (state >> 16) % 4 == 0 {
            tree.delete(key.clone());
            map.remove(&key);
        } else {
            let value = value_of(state >> 8);
            tree.insert(key.clone(), Some(value.clone()));
            map.insert(key.clone(), value);
        }
        assert_eq!(tree.get(&key), map.get(&key).cloned());
    }
    for number in 0..150 {
        assert_eq!(tree.get(&key_of(number)), map.get(&key_of(number)).cloned());
    }
}
