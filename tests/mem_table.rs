use coconutdb::mem_table::MemTable;

#[test]
fn it_works() {
    assert_eq!(2 + 2, 4);
}

#[test]
fn new_table_is_empty() {
    let t = MemTable::new();
    assert!(t.is_empty());
    assert_eq!(t.len(), 0);
    assert_eq!(t.size(), 0);
    assert!(t.get(b"a").is_none());
    assert!(t.entries().is_empty());
}

#[test]
fn set_then_get() {
    let mut t = MemTable::new();
    t.set_at(b"k", b"v", 7);
    let e = t.get(b"k").unwrap();
    assert_eq!(e.key, b"k".to_vec());
    assert_eq!(e.value, Some(b"v".to_vec()));
    assert_eq!(e.timestamp, 7);
    assert!(!e.deleted);
    assert!(t.get(b"j").is_none());
    assert_eq!(t.len(), 1);
    assert!(!t.is_empty());
}

#[test]
fn last_writer_wins_by_call_order() {
    let mut t = MemTable::new();
    t.set_at(b"a", b"1", 100);
    t.set_at(b"b", b"2", 100);
    t.set_at(b"a", b"3", 50);
    t.delete_at(b"b", 10);
    t.set_at(b"c", b"4", 1);
    t.delete_at(b"c", 2);
    t.set_at(b"c", b"5", 0);
    let a = t.get(b"a").unwrap();
    assert_eq!(a.value, Some(b"3".to_vec()));
    assert_eq!(a.timestamp, 50);
    let b = t.get(b"b").unwrap();
    assert!(b.deleted);
    assert_eq!(b.value, None);
    assert_eq!(b.timestamp, 10);
    let c = t.get(b"c").unwrap();
    assert_eq!(c.value, Some(b"5".to_vec()));
    assert!(!c.deleted);
}

#[test]
fn entries_ascend_for_any_insertion_order() {
    let mut t = MemTable::new();
    for k in [&b"m"[..], b"a", b"z", b"ab", b"", b"b", b"\x00", b"aa", b"m"] {
        t.set(k, b"x");
    }
    let keys: Vec<Vec<u8>> = t.entries().iter().map(|e| e.key.clone()).collect();
    let expected: Vec<Vec<u8>> = vec![
        b"".to_vec(),
        b"\x00".to_vec(),
        b"a".to_vec(),
        b"aa".to_vec(),
        b"ab".to_vec(),
        b"b".to_vec(),
        b"m".to_vec(),
        b"z".to_vec(),
    ];
    assert_eq!(keys, expected);
    assert_eq!(t.len(), 8);
}

#[test]
fn delete_twice_equals_delete_once() {
    let mut t = MemTable::new();
    t.set_at(b"k", b"v", 1);
    t.delete_at(b"k", 2);
    let size_once = t.size();
    t.delete_at(b"k", 3);
    let e = t.get(b"k").unwrap();
    assert!(e.deleted);
    assert_eq!(e.value, None);
    assert_eq!(e.key, b"k".to_vec());
    assert_eq!(e.timestamp, 2);
    assert_eq!(t.size(), size_once);
    assert_eq!(t.len(), 1);
}

#[test]
fn delete_absent_key_is_noop() {
    let mut t = MemTable::new();
    t.set_at(b"a", b"1", 1);
    t.delete(b"b");
    assert!(t.get(b"b").is_none());
    assert_eq!(t.len(), 1);
    assert_eq!(t.size(), 1 + 1 + 16 + 1);
}

#[test]
fn size_tracks_value_length_changes() {
    let mut t = MemTable::new();
    t.set(b"k", b"abc");
    let first = t.size();
    assert_eq!(first, 1 + 3 + 16 + 1);
    t.set(b"k", b"ab");
    assert_eq!(t.size(), first - 1);
    t.delete(b"k");
    assert_eq!(t.size(), first - 1);
    assert!(t.get(b"k").unwrap().deleted);
}

#[test]
fn size_after_set_on_tombstone_adds_value_length() {
    let mut t = MemTable::new();
    t.set_at(b"key", b"abcd", 1);
    t.delete_at(b"key", 2);
    assert_eq!(t.size(), 3 + 4 + 17);
    t.set_at(b"key", b"xy", 3);
    assert_eq!(t.size(), 3 + 4 + 17 + 2);
    t.set_at(b"key", b"wxyz12", 4);
    assert_eq!(t.size(), 3 + 4 + 17 + 6);
}

#[test]
fn set_stamps_current_time() {
    let mut t = MemTable::new();
    t.set(b"k", b"v");
    assert!(t.get(b"k").unwrap().timestamp > 0);
}
