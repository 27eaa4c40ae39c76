//! The write-ahead log: records appended to an in-memory write buffer that
//! the owner of the segment file writes out, and a reader that replays a
//! segment's bytes record by record.
use vstd::prelude::*;

use crate::clock::now_millis;
use crate::codec::{
    append_delete_record, append_set_record, decode_record, decode_record_at, decode_records,
    encode_record, lemma_decode_record_len, lemma_decode_records_step,
};
use crate::mem_table::{opt_bytes_view, EntryView};

verus! {

/// One record of the log.
pub struct WalEntry {
    pub key: Vec<u8>,
    pub value: Option<Vec<u8>>,
    pub timestamp: u128,
    pub deleted: bool,
}

impl View for WalEntry {
    type V = EntryView;

    open spec fn view(&self) -> EntryView {
        EntryView {
            key: self.key@,
            value: opt_bytes_view(self.value),
            timestamp: self.timestamp,
            deleted: self.deleted,
        }
    }
}

/// Reads the records of one log segment in order. Reading stops for good at
/// the first record that the bytes end before: a record torn by a crash
/// mid-write is dropped and no error is raised.
pub struct WALIterator {
    data: Vec<u8>,
    pos: usize,
}

impl WALIterator {
    /// The bytes not read yet.
    pub closed spec fn remaining(&self) -> Seq<u8> {
        self.data@.subrange(self.pos as int, self.data@.len() as int)
    }

    pub closed spec fn wf(&self) -> bool {
        self.pos <= self.data@.len()
    }

    /// A reader over the bytes of a segment, from its start.
    pub fn new(data: Vec<u8>) -> (r: WALIterator)
        ensures
            r.wf(),
            r.remaining() == data@,
    {
        let r = WALIterator { data, pos: 0 };
        proof {
            assert(r.remaining() =~= r.data@);
        }
        r
    }

    /// The next record, or `None` once the bytes end before a record does.
    pub fn next(&mut self) -> (r: Option<WalEntry>)
        requires
            old(self).wf(),
        ensures
            final(self).wf(),
            match decode_record(old(self).remaining()) {
                None => r is None && final(self).remaining() == Seq::<u8>::empty(),
                Some((e, n)) => r matches Some(w) && w@ == e && final(self).remaining()
                    == old(self).remaining().subrange(n, old(self).remaining().len() as int),
            },
    {
        proof {
            lemma_decode_record_len(self.remaining());
        }
        match decode_record_at(self.data.as_slice(), self.pos) {
            Some((entry, end)) => {
                let ghost rem = self.remaining();
                self.pos = end;
                proof {
                    assert(self.remaining() =~= rem.subrange(end - old(self).pos, rem.len() as int));
                }
                Some(entry)
            },
            None => {
                self.pos = self.data.len();
                proof {
                    assert(self.remaining() =~= Seq::<u8>::empty());
                }
                None
            },
        }
    }

    /// All the records left, in order.
    pub fn collect_entries(&mut self) -> (r: Vec<WalEntry>)
        requires
            old(self).wf(),
        ensures
            r@.map_values(|w: WalEntry| w@) == decode_records(old(self).remaining()),
    {
        let mut r: Vec<WalEntry> = Vec::new();
        loop
            invariant
                self.wf(),
                decode_records(old(self).remaining()) == r@.map_values(|w: WalEntry| w@)
                    + decode_records(self.remaining()),
            decreases self.remaining().len(),
        {
            let ghost rem = self.remaining();
            proof {
                lemma_decode_record_len(rem);
            }
            match self.next() {
                Some(entry) => {
                    proof {
                        let (e, n) = decode_record(rem).unwrap();
                        lemma_decode_records_step(rem, e, n);
                        assert(r@.push(entry).map_values(|w: WalEntry| w@) =~= r@.map_values(
                            |w: WalEntry| w@,
                        ).push(e));
                    }
                    r.push(entry);
                    proof {
                        let (e, n) = decode_record(rem).unwrap();
                        assert(r@.map_values(|w: WalEntry| w@) + decode_records(self.remaining())
                            =~= r@.drop_last().map_values(|w: WalEntry| w@) + (seq![e]
                            + decode_records(self.remaining())));
                    }
                },
                None => {
                    proof {
                        lemma_decode_record_len(self.remaining());
                        assert(decode_records(rem) == Seq::<EntryView>::empty());
                        assert(decode_records(self.remaining()) == Seq::<EntryView>::empty());
                        assert(r@.map_values(|w: WalEntry| w@) + Seq::<EntryView>::empty()
                            =~= r@.map_values(|w: WalEntry| w@));
                    }
                    return r;
                },
            }
        }
    }
}

/// The log's write side: records appended in write order to a buffer that
/// the owner of the segment file writes out and flushes.
pub struct WAL {
    buffer: Vec<u8>,
}

impl WAL {
    /// The bytes appended and not yet handed out.
    pub closed spec fn pending(&self) -> Seq<u8> {
        self.buffer@
    }

    /// A log with nothing pending.
    pub fn new() -> (r: WAL)
        ensures
            r.pending() == Seq::<u8>::empty(),
    {
        WAL { buffer: Vec::new() }
    }

    /// Appends the record of setting `key` to `value` at `timestamp`.
    pub fn set_at(&mut self, key: &[u8], value: &[u8], timestamp: u128)
        ensures
            final(self).pending() == old(self).pending() + encode_record(
                EntryView { key: key@, value: Some(value@), timestamp, deleted: false },
            ),
    {
        append_set_record(&mut self.buffer, key, value, timestamp);
    }

    /// Appends the record of setting `key` to `value`, stamped with the
    /// current time.
    pub fn set(&mut self, key: &[u8], value: &[u8])
        ensures
            exists|timestamp: u128|
                final(self).pending() == old(self).pending() + encode_record(
                    EntryView { key: key@, value: Some(value@), timestamp, deleted: false },
                ),
    {
        let timestamp = now_millis();
        self.set_at(key, value, timestamp);
    }

    /// Appends the tombstone record of deleting `key` at `timestamp`.
    pub fn delete_at(&mut self, key: &[u8], timestamp: u128)
        ensures
            final(self).pending() == old(self).pending() + encode_record(
                EntryView { key: key@, value: None, timestamp, deleted: true },
            ),
    {
        append_delete_record(&mut self.buffer, key, timestamp);
    }

    /// Appends the tombstone record of deleting `key`, stamped with the
    /// current time.
    pub fn delete(&mut self, key: &[u8])
        ensures
            exists|timestamp: u128|
                final(self).pending() == old(self).pending() + encode_record(
                    EntryView { key: key@, value: None, timestamp, deleted: true },
                ),
    {
        let timestamp = now_millis();
        self.delete_at(key, timestamp);
    }

    /// Hands out the pending bytes, to be written to the segment file, and
    /// empties the buffer.
    pub fn take_pending(&mut self) -> (r: Vec<u8>)
        ensures
            r@ == old(self).pending(),
            final(self).pending() == Seq::<u8>::empty(),
    {
        let mut r: Vec<u8> = Vec::new();
        r.append(&mut self.buffer);
        proof {
            assert(r@ =~= old(self).pending());
        }
        r
    }
}

} // verus!
