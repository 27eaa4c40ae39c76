//! Startup recovery: which files of a directory are log segments, the order
//! they are replayed in, and replaying their records into one MemTable and
//! one fresh log.
use vstd::prelude::*;

use crate::bytes::{
    bytes_lt, compare_bytes, copy_bytes, lemma_lt_asymmetric, lemma_lt_transitive, KeyOrder,
};
use crate::clock::now_millis;
use crate::codec::{
    decode_record, decode_records, encode_record, encode_records, lemma_decode_record_len,
    lemma_decode_records_step, lemma_encode_records_append, lemma_encode_records_push,
};
use crate::mem_table::{
    apply_ops, apply_ops_size, lemma_apply_ops_append, EntryView, MemTable, TableOp,
};
use crate::wal::{WALIterator, WAL};

verus! {

/// The file-name suffix of a log segment, `.wal`.
pub open spec fn segment_suffix() -> Seq<u8> {
    seq![46u8, 119u8, 97u8, 108u8]
}

/// A segment's file name: a non-empty stem followed by `.wal`.
pub open spec fn is_segment(name: Seq<u8>) -> bool {
    name.len() > segment_suffix().len() && name.subrange(
        name.len() - segment_suffix().len(),
        name.len() as int,
    ) == segment_suffix()
}

/// `is_segment` as a predicate to filter by.
pub open spec fn segment_pred() -> spec_fn(Seq<u8>) -> bool {
    |n: Seq<u8>| is_segment(n)
}

pub open spec fn names_view(names: Seq<Vec<u8>>) -> Seq<Seq<u8>> {
    names.map_values(|n: Vec<u8>| n@)
}

/// Names in ascending byte-lexicographic order, equal names side by side.
pub open spec fn names_ascending(s: Seq<Seq<u8>>) -> bool {
    forall|i: int, j: int| 0 <= i < j < s.len() ==> !bytes_lt(#[trigger] s[j], #[trigger] s[i])
}

/// Whether `name` is the file name of a log segment.
pub fn is_segment_name(name: &[u8]) -> (r: bool)
    ensures
        r == is_segment(name@),
{
    let n = name.len();
    if n <= 4 {
        return false;
    }
    // the last four bytes spell ".wal"
    let r = name[n - 4] == 46u8 && name[n - 3] == 119u8 && name[n - 2] == 97u8 && name[n - 1] == 108u8;
    proof {
        if r {
            assert(name@.subrange(n - 4, n as int) =~= segment_suffix());
        } else {
            if name@.subrange(n - 4, n as int) == segment_suffix() {
                assert(name@.subrange(n - 4, n as int)[0] == name@[n - 4]);
                assert(name@.subrange(n - 4, n as int)[1] == name@[n - 3]);
                assert(name@.subrange(n - 4, n as int)[2] == name@[n - 2]);
                assert(name@.subrange(n - 4, n as int)[3] == name@[n - 1]);
            }
        }
    }
    r
}

proof fn lemma_insert_multiset<A>(s: Seq<A>, p: int, x: A)
    requires
        0 <= p <= s.len(),
    ensures
        s.insert(p, x).to_multiset() == s.to_multiset().insert(x),
{
    let t = s.insert(p, x);
    t.to_multiset_ensures();
    assert(t.remove(p) =~= s);
    assert(t[p] == x);
    assert(t.to_multiset() =~= s.to_multiset().insert(x));
}

/// The segment files among `names`, in the order they are replayed:
/// ascending by name, so segments named by creation time with equally many
/// digits come oldest first.
pub fn order_segments(names: &Vec<Vec<u8>>) -> (r: Vec<Vec<u8>>)
    ensures
        names_ascending(names_view(r@)),
        names_view(r@).to_multiset() == names_view(names@).filter(segment_pred()).to_multiset(),
{
    let ghost all = names_view(names@);
    let mut r: Vec<Vec<u8>> = Vec::new();
    let mut i: usize = 0;
    proof {
        assert(names_view(r@) =~= Seq::<Seq<u8>>::empty());
        assert(all.take(0) =~= Seq::<Seq<u8>>::empty());
        assert(all.take(0).filter(segment_pred()) =~= Seq::<Seq<u8>>::empty());
    }
    while i < names.len()
        invariant
            i <= names.len(),
            all == names_view(names@),
            names_ascending(names_view(r@)),
            names_view(r@).to_multiset() == all.take(i as int).filter(segment_pred()).to_multiset(),
        decreases names.len() - i,
    {
        let name = names[i].as_slice();
        let ghost before = all.take(i as int).filter(segment_pred());
        proof {
            assert(all.take(i + 1).drop_last() =~= all.take(i as int));
            assert(all.take(i + 1).last() == name@);
            reveal_with_fuel(Seq::filter, 2);
            assert(all.take(i + 1).filter(segment_pred()) == if is_segment(name@) {
                before.push(name@)
            } else {
                before
            });
            before.to_multiset_ensures();
        }
        if is_segment_name(name) {
            let mut p: usize = 0;
            while p < r.len() && compare_bytes(name, r[p].as_slice()) != KeyOrder::Less
                invariant
                    p <= r.len(),
                    forall|k: int| 0 <= k < p ==> !bytes_lt(name@, #[trigger] names_view(r@)[k]),
                decreases r.len() - p,
            {
                p = p + 1;
            }
            let ghost old_r = names_view(r@);
            r.insert(p, copy_bytes(name));
            proof {
                let nr = names_view(r@);
                assert(nr =~= old_r.insert(p as int, name@));
                lemma_insert_multiset(old_r, p as int, name@);
                assert forall|a: int, b: int| 0 <= a < b < nr.len() implies !bytes_lt(#[trigger] nr[b], #[trigger] nr[a]) by {
                    if a < p && b == p {
                    } else if a == p && b > p {
                        if bytes_lt(nr[b], name@) {
                            if b - 1 == p {
                                lemma_lt_asymmetric(name@, old_r[p as int]);
                            } else {
                                lemma_lt_transitive(old_r[b - 1], name@, old_r[p as int]);
                            }
                        }
                    }
                }
            }
        }
        i = i + 1;
    }
    proof {
        assert(all.take(names.len() as int) =~= all);
    }
    r
}

/// The table mutation that replaying one record makes, stamped with `now`.
pub open spec fn record_op(e: EntryView, now: u128) -> TableOp {
    if e.deleted {
        TableOp::DeleteKey(e.key, now)
    } else {
        TableOp::SetKey(e.key, e.value.unwrap(), now)
    }
}

/// A record as the new log holds it after replay, stamped with `now`.
pub open spec fn restamp(e: EntryView, now: u128) -> EntryView {
    EntryView { key: e.key, value: e.value, timestamp: now, deleted: e.deleted }
}

pub open spec fn replay_ops(es: Seq<EntryView>, now: u128) -> Seq<TableOp> {
    es.map_values(|e: EntryView| record_op(e, now))
}

pub open spec fn replay_log(es: Seq<EntryView>, now: u128) -> Seq<EntryView> {
    es.map_values(|e: EntryView| restamp(e, now))
}

/// The records of several segments, one segment after another.
pub open spec fn segments_records(segs: Seq<Seq<u8>>) -> Seq<EntryView>
    decreases segs.len(),
{
    if segs.len() == 0 {
        Seq::empty()
    } else {
        segments_records(segs.drop_last()) + decode_records(segs.last())
    }
}

/// Replays every record left in `iter` into `table` and `wal`, stamping each
/// with `now`: a tombstone deletes its key from both, a live record sets it
/// in both.
pub fn replay_segment_at(iter: &mut WALIterator, now: u128, wal: &mut WAL, table: &mut MemTable)
    requires
        old(iter).wf(),
        old(table).wf(),
    ensures
        final(table).wf(),
        final(table)@ == apply_ops(
            old(table)@,
            replay_ops(decode_records(old(iter).remaining()), now),
        ),
        final(table).size_spec() == apply_ops_size(
            old(table)@,
            old(table).size_spec(),
            replay_ops(decode_records(old(iter).remaining()), now),
        ),
        final(wal).pending() == old(wal).pending() + encode_records(
            replay_log(decode_records(old(iter).remaining()), now),
        ),
{
    let ghost all = decode_records(iter.remaining());
    let ghost mut done: Seq<EntryView> = Seq::empty();
    proof {
        assert(done + all =~= all);
        assert(table@ == apply_ops(table@, replay_ops(done, now)));
        assert(wal.pending() =~= wal.pending() + encode_records(replay_log(done, now)));
    }
    loop
        invariant
            iter.wf(),
            table.wf(),
            all == done + decode_records(iter.remaining()),
            all == decode_records(old(iter).remaining()),
            table@ == apply_ops(old(table)@, replay_ops(done, now)),
            table.size_spec() == apply_ops_size(old(table)@, old(table).size_spec(), replay_ops(done, now)),
            wal.pending() == old(wal).pending() + encode_records(replay_log(done, now)),
        decreases iter.remaining().len(),
    {
        let ghost rem = iter.remaining();
        proof {
            lemma_decode_record_len(rem);
        }
        match iter.next() {
            Some(entry) => {
                let ghost e = entry@;
                proof {
                    let n = decode_record(rem).unwrap().1;
                    lemma_decode_records_step(rem, e, n);
                    assert(done.push(e) + decode_records(iter.remaining()) =~= done + decode_records(rem));
                    assert(replay_ops(done.push(e), now) =~= replay_ops(done, now).push(record_op(e, now)));
                    assert(replay_ops(done.push(e), now).drop_last() =~= replay_ops(done, now));
                    assert(replay_log(done.push(e), now) =~= replay_log(done, now).push(restamp(e, now)));
                    lemma_encode_records_push(replay_log(done, now), restamp(e, now));
                }
                if entry.deleted {
                    table.delete_at(entry.key.as_slice(), now);
                    wal.delete_at(entry.key.as_slice(), now);
                } else {
                    match &entry.value {
                        Some(v) => {
                            table.set_at(entry.key.as_slice(), v.as_slice(), now);
                            wal.set_at(entry.key.as_slice(), v.as_slice(), now);
                        },
                        None => {},
                    }
                }
                proof {
                    assert(encode_record(restamp(e, now)) == encode_record(
                        EntryView { key: e.key, value: e.value, timestamp: now, deleted: e.deleted },
                    ));
                    assert(wal.pending() =~= old(wal).pending() + encode_records(replay_log(done.push(e), now)));
                    done = done.push(e);
                }
            },
            None => {
                proof {
                    lemma_decode_record_len(iter.remaining());
                    assert(decode_records(rem) == Seq::<EntryView>::empty());
                    assert(done =~= all);
                }
                return;
            },
        }
    }
}

/// Replays the segments, in the order given, into a new MemTable and a new
/// log, stamping every replayed record with `now`. The log then holds one
/// record for each record read, and the table the state they lead to.
pub fn load_segments_at(segments: &Vec<Vec<u8>>, now: u128) -> (r: (WAL, MemTable))
    ensures
        r.1.wf(),
        r.1@ == apply_ops(
            Map::<Seq<u8>, EntryView>::empty(),
            replay_ops(segments_records(names_view(segments@)), now),
        ),
        r.1.size_spec() == apply_ops_size(
            Map::<Seq<u8>, EntryView>::empty(),
            0,
            replay_ops(segments_records(names_view(segments@)), now),
        ),
        r.0.pending() == encode_records(replay_log(segments_records(names_view(segments@)), now)),
{
    let ghost segs = names_view(segments@);
    let mut wal = WAL::new();
    let mut table = MemTable::new();
    let ghost m0 = table@;
    let mut i: usize = 0;
    proof {
        assert(segs.take(0) =~= Seq::<Seq<u8>>::empty());
        assert(replay_ops(segments_records(segs.take(0)), now) =~= Seq::<TableOp>::empty());
        assert(replay_log(segments_records(segs.take(0)), now) =~= Seq::<EntryView>::empty());
    }
    while i < segments.len()
        invariant
            i <= segments.len(),
            segs == names_view(segments@),
            m0 == Map::<Seq<u8>, EntryView>::empty(),
            table.wf(),
            table@ == apply_ops(m0, replay_ops(segments_records(segs.take(i as int)), now)),
            table.size_spec() == apply_ops_size(m0, 0, replay_ops(segments_records(segs.take(i as int)), now)),
            wal.pending() == encode_records(replay_log(segments_records(segs.take(i as int)), now)),
        decreases segments.len() - i,
    {
        let ghost before = segments_records(segs.take(i as int));
        let ghost t0 = table@;
        let ghost s0 = table.size_spec();
        let mut iter = WALIterator::new(copy_bytes(segments[i].as_slice()));
        let ghost recs = decode_records(iter.remaining());
        replay_segment_at(&mut iter, now, &mut wal, &mut table);
        proof {
            assert(segs.take(i + 1).drop_last() =~= segs.take(i as int));
            assert(segments_records(segs.take(i + 1)) == before + recs);
            assert(replay_ops(before + recs, now) =~= replay_ops(before, now) + replay_ops(recs, now));
            assert(replay_log(before + recs, now) =~= replay_log(before, now) + replay_log(recs, now));
            lemma_apply_ops_append(m0, 0, replay_ops(before, now), replay_ops(recs, now));
            lemma_encode_records_append(replay_log(before, now), replay_log(recs, now));
        }
        i = i + 1;
    }
    proof {
        assert(segs.take(segments.len() as int) =~= segs);
    }
    (wal, table)
}

/// Replays the segments, in the order given, into a new MemTable and a new
/// log, stamping every replayed record with the current time.
pub fn load_segments(segments: &Vec<Vec<u8>>) -> (r: (WAL, MemTable))
    ensures
        r.1.wf(),
        exists|now: u128|
            {
                &&& r.1@ == apply_ops(
                    Map::<Seq<u8>, EntryView>::empty(),
                    replay_ops(segments_records(names_view(segments@)), now),
                )
                &&& r.0.pending() == encode_records(
                    replay_log(segments_records(names_view(segments@)), now),
                )
            },
{
    let now = now_millis();
    load_segments_at(segments, now)
}

} // verus!
