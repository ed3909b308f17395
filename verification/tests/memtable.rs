use smol_lsm::memtable::Memtable;

#[test]
fn new_memtable_is_empty() {
    let memtable = Memtable::new();
    assert_eq!(memtable.len(), 0);
    assert_eq!(memtable.get(b"a"), None);
}

#[test]
fn upsert_keeps_keys_in_order() {
    let mut memtable = Memtable::new();
    memtable.upsert(b"m".to_vec(), Some(b"1".to_vec()));
    memtable.upsert(b"a".to_vec(), Some(b"2".to_vec()));
    memtable.upsert(b"z".to_vec(), Some(b"3".to_vec()));
    memtable.upsert(b"ma".to_vec(), None);
    assert_eq!(memtable.len(), 4);
    assert_eq!(
        memtable.take_entries(),
        vec![
            (b"a".to_vec(), Some(b"2".to_vec())),
            (b"m".to_vec(), Some(b"1".to_vec())),
            (b"ma".to_vec(), None),
            (b"z".to_vec(), Some(b"3".to_vec())),
        ]
    );
}

#[test]
fn upsert_replaces_the_entry_of_a_known_key() {
    let mut memtable = Memtable::new();
    memtable.upsert(b"k".to_vec(), Some(b"old".to_vec()));
    memtable.upsert(b"j".to_vec(), Some(b"other".to_vec()));
    memtable.upsert(b"k".to_vec(), Some(b"new".to_vec()));
    assert_eq!(memtable.len(), 2);
    assert_eq!(memtable.get(b"k"), Some(&Some(b"new".to_vec())));
    assert_eq!(memtable.get(b"j"), Some(&Some(b"other".to_vec())));
}

#[test]
fn get_tells_a_tombstone_from_a_missing_key() {
    let mut memtable = Memtable::new();
    memtable.upsert(b"gone".to_vec(), None);
    assert_eq!(memtable.get(b"gone"), Some(&None));
    assert_eq!(memtable.get(b"never"), None);
}

#[test]
fn take_entries_leaves_the_memtable_empty() {
    let mut memtable = Memtable::new();
    memtable.upsert(b"a".to_vec(), Some(b"1".to_vec()));
    memtable.upsert(b"b".to_vec(), Some(b"2".to_vec()));
    let entries = memtable.take_entries();
    assert_eq!(entries.len(), 2);
    assert_eq!(memtable.len(), 0);
    assert_eq!(memtable.get(b"a"), None);
    assert_eq!(memtable.take_entries(), vec![]);
}
