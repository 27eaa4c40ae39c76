use coconutdb::codec::{append_delete_record, append_set_record, decode_record_at};
use coconutdb::wal::{WALIterator, WAL};

#[test]
fn live_record_layout() {
    let mut out = Vec::new();
    append_set_record(&mut out, b"ab", b"xyz", 0x0102);
    let mut expected = vec![2, 0, 0, 0, 0, 0, 0, 0, 0, 3, 0, 0, 0, 0, 0, 0, 0];
    expected.extend_from_slice(b"ab");
    expected.extend_from_slice(b"xyz");
    expected.extend_from_slice(&[0x02, 0x01, 0, 0, 0, 0, 0, 0, 0, 0, 0, 0, 0, 0, 0, 0]);
    assert_eq!(out, expected);
}

#[test]
fn tombstone_record_layout() {
    let mut out = vec![9];
    append_delete_record(&mut out, b"k", u128::MAX);
    let mut expected = vec![9, 1, 0, 0, 0, 0, 0, 0, 0, 1];
    expected.extend_from_slice(b"k");
    expected.extend_from_slice(&[0xff; 16]);
    assert_eq!(out, expected);
}

#[test]
fn record_round_trip() {
    let cases: Vec<(Vec<u8>, Option<Vec<u8>>, u128)> = vec![
        (b"key".to_vec(), Some(b"value".to_vec()), 1_700_000_000_000),
        (Vec::new(), Some(Vec::new()), 0),
        (vec![0, 0, 1], Some(vec![0, 255, 0]), u128::MAX),
        (vec![0], None, 42),
        (Vec::new(), None, 1 << 100),
    ];
    for (key, value, ts) in cases {
        let mut out = Vec::new();
        match &value {
            Some(v) => append_set_record(&mut out, &key, v, ts),
            None => append_delete_record(&mut out, &key, ts),
        }
        out.extend_from_slice(b"trailing");
        let (e, end) = decode_record_at(&out, 0).unwrap();
        assert_eq!(e.key, key);
        assert_eq!(e.value, value);
        assert_eq!(e.timestamp, ts);
        assert_eq!(e.deleted, value.is_none());
        assert_eq!(end, out.len() - 8);
    }
}

#[test]
fn iterator_yields_records_in_order() {
    let mut wal = WAL::new();
    wal.set_at(b"a", b"1", 5);
    wal.delete_at(b"a", 6);
    wal.set_at(b"b", b"", 7);
    let mut it = WALIterator::new(wal.take_pending());
    let first = it.next().unwrap();
    assert_eq!((first.key, first.value, first.timestamp, first.deleted), (b"a".to_vec(), Some(b"1".to_vec()), 5, false));
    let second = it.next().unwrap();
    assert_eq!((second.key, second.value, second.timestamp, second.deleted), (b"a".to_vec(), None, 6, true));
    let third = it.next().unwrap();
    assert_eq!((third.key, third.value, third.timestamp, third.deleted), (b"b".to_vec(), Some(Vec::new()), 7, false));
    assert!(it.next().is_none());
    assert!(it.next().is_none());
}

#[test]
fn torn_key_bytes_end_the_stream() {
    let mut bytes = Vec::new();
    append_set_record(&mut bytes, b"a", b"1", 1);
    append_delete_record(&mut bytes, b"b", 2);
    // a key-length prefix and flag whose key bytes never made it to disk
    bytes.extend_from_slice(&[5, 0, 0, 0, 0, 0, 0, 0, 1]);
    bytes.extend_from_slice(b"ab");
    let mut it = WALIterator::new(bytes);
    let all = it.collect_entries();
    assert_eq!(all.len(), 2);
    assert_eq!(all[0].key, b"a".to_vec());
    assert_eq!(all[1].key, b"b".to_vec());
    assert!(all[1].deleted);
}

#[test]
fn every_truncation_drops_only_the_torn_record() {
    let mut whole = Vec::new();
    append_set_record(&mut whole, b"first", b"one", 10);
    let keep = whole.len();
    append_set_record(&mut whole, b"second", b"two", 11);
    for cut in keep..whole.len() {
        let mut it = WALIterator::new(whole[..cut].to_vec());
        let all = it.collect_entries();
        assert_eq!(all.len(), 1, "cut at {}", cut);
        assert_eq!(all[0].value, Some(b"one".to_vec()));
    }
    let mut it = WALIterator::new(whole.clone());
    assert_eq!(it.collect_entries().len(), 2);
}

#[test]
fn huge_length_prefix_is_a_short_read() {
    let mut bytes = vec![0xff; 8];
    bytes.push(0);
    bytes.extend_from_slice(&[0xff; 8]);
    bytes.extend_from_slice(&[0; 20]);
    assert!(decode_record_at(&bytes, 0).is_none());
}

#[test]
fn take_pending_empties_the_buffer() {
    let mut wal = WAL::new();
    wal.set(b"k", b"v");
    wal.delete(b"k");
    let first = wal.take_pending();
    assert_eq!(first.len(), (8 + 1 + 8 + 1 + 1 + 16) + (8 + 1 + 1 + 16));
    assert!(wal.take_pending().is_empty());
}
