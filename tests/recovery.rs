use coconutdb::recovery::{is_segment_name, load_segments, load_segments_at, order_segments};
use coconutdb::wal::{WALIterator, WAL};

#[test]
fn segment_names() {
    assert!(is_segment_name(b"1700000000000000.wal"));
    assert!(is_segment_name(b"x.wal"));
    assert!(!is_segment_name(b".wal"));
    assert!(!is_segment_name(b"1.wal.tmp"));
    assert!(!is_segment_name(b"1.WAL"));
    assert!(!is_segment_name(b"sstable"));
    assert!(!is_segment_name(b""));
}

#[test]
fn segments_ordered_by_name() {
    let names: Vec<Vec<u8>> = vec![
        b"300.wal".to_vec(),
        b"notes.txt".to_vec(),
        b"100.wal".to_vec(),
        b"200.wal".to_vec(),
        b"100.wal".to_vec(),
    ];
    let ordered = order_segments(&names);
    assert_eq!(
        ordered,
        vec![b"100.wal".to_vec(), b"100.wal".to_vec(), b"200.wal".to_vec(), b"300.wal".to_vec()]
    );
    assert!(order_segments(&Vec::new()).is_empty());
}

#[test]
fn recovery_replays_segments_in_order() {
    let mut s1 = WAL::new();
    s1.set(b"a", b"1");
    s1.set(b"b", b"2");
    let mut s2 = WAL::new();
    s2.delete(b"a");
    s2.set(b"b", b"3");
    let segments = vec![s1.take_pending(), s2.take_pending()];
    let (mut wal, table) = load_segments_at(&segments, 99);
    let a = table.get(b"a").unwrap();
    assert!(a.deleted);
    assert_eq!(a.value, None);
    let b = table.get(b"b").unwrap();
    assert_eq!(b.value, Some(b"3".to_vec()));
    assert_eq!(b.timestamp, 99);
    assert_eq!(table.len(), 2);

    // the consolidated log holds the whole history, restamped
    let mut it = WALIterator::new(wal.take_pending());
    let all = it.collect_entries();
    assert_eq!(all.len(), 4);
    assert!(all.iter().all(|e| e.timestamp == 99));
    assert!(all[2].deleted);
    assert_eq!(all[3].value, Some(b"3".to_vec()));
}

#[test]
fn recovery_of_nothing_is_empty() {
    let (mut wal, table) = load_segments(&Vec::new());
    assert!(table.is_empty());
    assert!(wal.take_pending().is_empty());
}

#[test]
fn recovery_drops_torn_tail() {
    let mut s1 = WAL::new();
    s1.set_at(b"a", b"1", 1);
    s1.set_at(b"b", b"2", 2);
    let mut bytes = s1.take_pending();
    bytes.truncate(bytes.len() - 3);
    let (_, table) = load_segments_at(&vec![bytes], 5);
    assert_eq!(table.get(b"a").unwrap().value, Some(b"1".to_vec()));
    assert!(table.get(b"b").is_none());
    assert_eq!(table.size(), 1 + 1 + 17);
}
