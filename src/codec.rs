//! The write-ahead log's record format, little-endian throughout:
//! key length (8 bytes), deleted flag (1 byte), value length (8 bytes, live
//! records only), key bytes, value bytes (live records only), timestamp
//! (16 bytes).
use vstd::prelude::*;

use crate::bytes::{append_bytes, copy_range};
use crate::mem_table::{entry_wf, EntryView};
use crate::wal::WalEntry;

verus! {

/// The eight little-endian bytes of `n`.
pub open spec fn u64_le(n: u64) -> Seq<u8> {
    seq![
        (n & 0xff) as u8,
        ((n >> 8u64) & 0xff) as u8,
        ((n >> 16u64) & 0xff) as u8,
        ((n >> 24u64) & 0xff) as u8,
        ((n >> 32u64) & 0xff) as u8,
        ((n >> 40u64) & 0xff) as u8,
        ((n >> 48u64) & 0xff) as u8,
        ((n >> 56u64) & 0xff) as u8,
    ]
}

/// The number whose little-endian bytes are `b0` .. `b7`.
pub open spec fn u64_of_bytes(b0: u8, b1: u8, b2: u8, b3: u8, b4: u8, b5: u8, b6: u8, b7: u8) -> u64 {
    (b0 as u64) | ((b1 as u64) << 8u64) | ((b2 as u64) << 16u64) | ((b3 as u64) << 24u64) | ((
    b4 as u64) << 32u64) | ((b5 as u64) << 40u64) | ((b6 as u64) << 48u64) | ((b7 as u64) << 56u64)
}

/// The number that the first eight bytes of `b` hold, little-endian.
pub open spec fn u64_from_le(b: Seq<u8>) -> u64 {
    u64_of_bytes(b[0], b[1], b[2], b[3], b[4], b[5], b[6], b[7])
}

/// The sixteen little-endian bytes of `n`.
pub open spec fn u128_le(n: u128) -> Seq<u8> {
    u64_le(n as u64) + u64_le((n >> 64u128) as u64)
}

/// The number that the first sixteen bytes of `b` hold, little-endian.
pub open spec fn u128_from_le(b: Seq<u8>) -> u128 {
    (u64_from_le(b) as u128) | ((u64_from_le(b.subrange(8, 16)) as u128) << 64u128)
}

pub proof fn lemma_u64_round_trip(n: u64)
    ensures
        u64_from_le(u64_le(n)) == n,
{
    let b = u64_le(n);
    assert(u64_of_bytes(
        (n & 0xff) as u8,
        ((n >> 8u64) & 0xff) as u8,
        ((n >> 16u64) & 0xff) as u8,
        ((n >> 24u64) & 0xff) as u8,
        ((n >> 32u64) & 0xff) as u8,
        ((n >> 40u64) & 0xff) as u8,
        ((n >> 48u64) & 0xff) as u8,
        ((n >> 56u64) & 0xff) as u8,
    ) == n) by (bit_vector);
}

pub proof fn lemma_u128_round_trip(n: u128)
    ensures
        u128_from_le(u128_le(n)) == n,
{
    let b = u128_le(n);
    lemma_u64_round_trip(n as u64);
    lemma_u64_round_trip((n >> 64u128) as u64);
    assert(b.subrange(8, 16) =~= u64_le((n >> 64u128) as u64));
    assert(u64_from_le(b) == u64_from_le(u64_le(n as u64)));
    assert(((n as u64) as u128) | ((((n >> 64u128) as u64) as u128) << 64u128) == n) by (bit_vector);
}

/// Tombstone flag byte.
pub const FLAG_DELETED: u8 = 1;

/// Live-record flag byte.
pub const FLAG_LIVE: u8 = 0;

/// Bytes before a tombstone's key: key length and flag.
pub const TOMBSTONE_HEADER: usize = 9;

/// Bytes before a live record's key: key length, flag and value length.
pub const LIVE_HEADER: usize = 17;

/// Width of the timestamp field.
pub const TIMESTAMP_BYTES: usize = 16;

/// Key and value lengths fit the 8-byte length fields.
pub open spec fn record_fits(e: EntryView) -> bool {
    &&& e.key.len() <= u64::MAX
    &&& match e.value {
        Some(v) => v.len() <= u64::MAX,
        None => true,
    }
}

/// The bytes of one record.
#[verifier::opaque]
pub open spec fn encode_record(e: EntryView) -> Seq<u8> {
    if e.deleted {
        u64_le(e.key.len() as u64) + seq![FLAG_DELETED] + e.key + u128_le(e.timestamp)
    } else {
        let v = e.value.unwrap();
        u64_le(e.key.len() as u64) + seq![FLAG_LIVE] + u64_le(v.len() as u64) + e.key + v + u128_le(
            e.timestamp,
        )
    }
}

/// The bytes of a sequence of records, one after another.
pub open spec fn encode_records(es: Seq<EntryView>) -> Seq<u8>
    decreases es.len(),
{
    if es.len() == 0 {
        Seq::empty()
    } else {
        encode_record(es[0]) + encode_records(es.drop_first())
    }
}

/// The tombstone record at the start of `d`, whose flag byte is set.
#[verifier::opaque]
pub open spec fn decode_tombstone(d: Seq<u8>) -> Option<(EntryView, int)> {
    let klen = u64_from_le(d) as int;
    let end = TOMBSTONE_HEADER + klen + TIMESTAMP_BYTES;
    if d.len() < end {
        None
    } else {
        Some(
            (
                EntryView {
                    key: d.subrange(TOMBSTONE_HEADER as int, TOMBSTONE_HEADER + klen),
                    value: None,
                    timestamp: u128_from_le(d.subrange(TOMBSTONE_HEADER + klen, end)),
                    deleted: true,
                },
                end,
            ),
        )
    }
}

/// The live record at the start of `d`, whose flag byte is clear.
#[verifier::opaque]
pub open spec fn decode_live(d: Seq<u8>) -> Option<(EntryView, int)> {
    if d.len() < LIVE_HEADER {
        None
    } else {
        let klen = u64_from_le(d) as int;
        let vlen = u64_from_le(d.subrange(TOMBSTONE_HEADER as int, LIVE_HEADER as int)) as int;
        let vstart = LIVE_HEADER + klen;
        let end = vstart + vlen + TIMESTAMP_BYTES;
        if d.len() < end {
            None
        } else {
            Some(
                (
                    EntryView {
                        key: d.subrange(LIVE_HEADER as int, vstart),
                        value: Some(d.subrange(vstart, vstart + vlen)),
                        timestamp: u128_from_le(d.subrange(vstart + vlen, end)),
                        deleted: false,
                    },
                    end,
                ),
            )
        }
    }
}

/// The record at the start of `d` and the number of bytes it takes, or `None`
/// where `d` ends before the record does.
#[verifier::opaque]
pub open spec fn decode_record(d: Seq<u8>) -> Option<(EntryView, int)> {
    if d.len() < TOMBSTONE_HEADER {
        None
    } else if d[8] != FLAG_LIVE {
        decode_tombstone(d)
    } else {
        decode_live(d)
    }
}

/// A decoded record takes at least a header and a timestamp, and no more than
/// there is.
pub proof fn lemma_decode_record_len(d: Seq<u8>)
    ensures
        decode_record(d) matches Some((e, n)) ==> TOMBSTONE_HEADER + TIMESTAMP_BYTES <= n <= d.len()
            && entry_wf(e),
        d.len() < TOMBSTONE_HEADER ==> decode_record(d) is None,
{
    reveal(encode_record);
    reveal(decode_record);
    reveal(decode_tombstone);
    reveal(decode_live);
}

/// The records read one after another from the start of `d`, stopping at the
/// first one that `d` ends before.
pub open spec fn decode_records(d: Seq<u8>) -> Seq<EntryView>
    decreases d.len(),
{
    match decode_record(d) {
        Some((e, n)) => if 0 < n <= d.len() {
            seq![e] + decode_records(d.subrange(n, d.len() as int))
        } else {
            seq![e]
        },
        None => Seq::empty(),
    }
}

/// One step of decoding a log: the first record, then the records after it.
pub proof fn lemma_decode_records_step(d: Seq<u8>, e: EntryView, n: int)
    requires
        decode_record(d) == Some((e, n)),
        0 < n <= d.len(),
    ensures
        decode_records(d) == seq![e] + decode_records(d.subrange(n, d.len() as int)),
{
}

/// Decoding the bytes of a record, whatever follows them, gives the record
/// back and the length of its bytes.
pub proof fn lemma_record_round_trip(e: EntryView, rest: Seq<u8>)
    requires
        entry_wf(e),
        record_fits(e),
    ensures
        decode_record(encode_record(e) + rest) == Some((e, encode_record(e).len() as int)),
        encode_record(e).len() >= TOMBSTONE_HEADER + TIMESTAMP_BYTES,
{
    reveal(encode_record);
    reveal(decode_record);
    reveal(decode_tombstone);
    reveal(decode_live);
    let enc = encode_record(e);
    let d = enc + rest;
    let klen = e.key.len() as int;
    lemma_u64_round_trip(e.key.len() as u64);
    assert(d.subrange(0, 8) =~= u64_le(e.key.len() as u64));
    assert(u64_from_le(d) == u64_from_le(d.subrange(0, 8)));
    lemma_u128_round_trip(e.timestamp);
    if e.deleted {
        let end = 9 + klen + 16;
        assert(enc.len() == end);
        assert(d.subrange(9, 9 + klen) =~= e.key);
        assert(d.subrange(9 + klen, end) =~= u128_le(e.timestamp));
        assert(d[8] == FLAG_DELETED);
        let r = decode_record(d).unwrap();
        assert(r.0 =~= e);
    } else {
        let v = e.value.unwrap();
        let vlen = v.len() as int;
        lemma_u64_round_trip(v.len() as u64);
        assert(d.subrange(9, 17) =~= u64_le(v.len() as u64));
        assert(u64_from_le(d.subrange(9, 17)) == u64_from_le(u64_le(v.len() as u64)));
        let end = 17 + klen + vlen + 16;
        assert(enc.len() == end);
        assert(d[8] == FLAG_LIVE);
        assert(d.subrange(17, 17 + klen) =~= e.key);
        assert(d.subrange(17 + klen, 17 + klen + vlen) =~= v);
        assert(d.subrange(17 + klen + vlen, end) =~= u128_le(e.timestamp));
    }
}

/// A record cut short anywhere before its end does not decode.
pub proof fn lemma_truncated_record(e: EntryView, len: int)
    requires
        entry_wf(e),
        record_fits(e),
        0 <= len < encode_record(e).len(),
    ensures
        decode_record(encode_record(e).take(len)) is None,
{
    reveal(encode_record);
    reveal(decode_record);
    reveal(decode_tombstone);
    reveal(decode_live);
    let enc = encode_record(e);
    let p = enc.take(len);
    if len >= 9 {
        lemma_u64_round_trip(e.key.len() as u64);
        assert(p.subrange(0, 8) =~= u64_le(e.key.len() as u64));
        assert(u64_from_le(p) == u64_from_le(p.subrange(0, 8)));
        assert(p[8] == enc[8]);
        if !e.deleted && len >= 17 {
            let v = e.value.unwrap();
            lemma_u64_round_trip(v.len() as u64);
            assert(p.subrange(9, 17) =~= u64_le(v.len() as u64));
        }
    }
}

/// Decoding a log gives back every record that was written to it, in order,
/// also where the log ends in a record cut short by a crash: that partial
/// record is dropped and no other.
pub proof fn lemma_torn_tail(es: Seq<EntryView>, torn: EntryView, len: int)
    requires
        forall|i: int| 0 <= i < es.len() ==> entry_wf(#[trigger] es[i]) && record_fits(es[i]),
        entry_wf(torn),
        record_fits(torn),
        0 <= len < encode_record(torn).len(),
    ensures
        decode_records(encode_records(es) + encode_record(torn).take(len)) == es,
    decreases es.len(),
{
    let tail = encode_record(torn).take(len);
    if es.len() == 0 {
        assert(encode_records(es) + tail =~= tail);
        lemma_truncated_record(torn, len);
    } else {
        let rest = es.drop_first();
        let d = encode_records(es) + tail;
        let after = encode_records(rest) + tail;
        assert(d =~= encode_record(es[0]) + after);
        lemma_record_round_trip(es[0], after);
        let n = encode_record(es[0]).len() as int;
        assert(d.subrange(n, d.len() as int) =~= after);
        lemma_decode_records_step(d, es[0], n);
        lemma_torn_tail(rest, torn, len);
        assert(seq![es[0]] + rest =~= es);
    }
}

/// Decoding a whole log gives back exactly the records written to it.
pub proof fn lemma_records_round_trip(es: Seq<EntryView>)
    requires
        forall|i: int| 0 <= i < es.len() ==> entry_wf(#[trigger] es[i]) && record_fits(es[i]),
    ensures
        decode_records(encode_records(es)) == es,
    decreases es.len(),
{
    if es.len() == 0 {
        lemma_decode_record_len(encode_records(es));
    } else {
        let rest = es.drop_first();
        let d = encode_records(es);
        lemma_record_round_trip(es[0], encode_records(rest));
        let n = encode_record(es[0]).len() as int;
        assert(d =~= encode_record(es[0]) + encode_records(rest));
        assert(d.subrange(n, d.len() as int) =~= encode_records(rest));
        lemma_decode_records_step(d, es[0], n);
        lemma_records_round_trip(rest);
        assert(seq![es[0]] + rest =~= es);
    }
}

/// Writing one more record appends its bytes to those of the records before.
pub proof fn lemma_encode_records_push(es: Seq<EntryView>, e: EntryView)
    ensures
        encode_records(es.push(e)) == encode_records(es) + encode_record(e),
    decreases es.len(),
{
    if es.len() == 0 {
        assert(es.push(e).drop_first() =~= Seq::<EntryView>::empty());
        assert(encode_records(es.push(e).drop_first()) == Seq::<u8>::empty());
        assert(es.push(e)[0] == e);
        assert(encode_records(es) == Seq::<u8>::empty());
        assert(encode_records(es.push(e)) =~= encode_records(es) + encode_record(e));
    } else {
        assert(es.push(e).drop_first() =~= es.drop_first().push(e));
        lemma_encode_records_push(es.drop_first(), e);
        assert(encode_records(es.push(e)) =~= encode_records(es) + encode_record(e));
    }
}

/// The bytes of two runs of records are those of the first, then the second.
pub proof fn lemma_encode_records_append(a: Seq<EntryView>, b: Seq<EntryView>)
    ensures
        encode_records(a + b) == encode_records(a) + encode_records(b),
    decreases b.len(),
{
    if b.len() == 0 {
        assert(a + b =~= a);
        assert(encode_records(a) + encode_records(b) =~= encode_records(a));
    } else {
        let init = b.drop_last();
        lemma_encode_records_append(a, init);
        assert(a + b =~= (a + init).push(b.last()));
        assert(b =~= init.push(b.last()));
        lemma_encode_records_push(a + init, b.last());
        lemma_encode_records_push(init, b.last());
        assert(encode_records(a + b) =~= encode_records(a) + encode_records(b));
    }
}

/// Appends the eight little-endian bytes of `n`.
pub fn push_u64_le(out: &mut Vec<u8>, n: u64)
    ensures
        final(out)@ == old(out)@ + u64_le(n),
{
    out.push((n & 0xff) as u8);
    out.push(((n >> 8u64) & 0xff) as u8);
    out.push(((n >> 16u64) & 0xff) as u8);
    out.push(((n >> 24u64) & 0xff) as u8);
    out.push(((n >> 32u64) & 0xff) as u8);
    out.push(((n >> 40u64) & 0xff) as u8);
    out.push(((n >> 48u64) & 0xff) as u8);
    out.push(((n >> 56u64) & 0xff) as u8);
    proof {
        assert(final(out)@ =~= old(out)@ + u64_le(n));
    }
}

/// Appends the sixteen little-endian bytes of `n`.
pub fn push_u128_le(out: &mut Vec<u8>, n: u128)
    ensures
        final(out)@ == old(out)@ + u128_le(n),
{
    push_u64_le(out, n as u64);
    push_u64_le(out, (n >> 64u128) as u64);
    proof {
        assert(final(out)@ =~= old(out)@ + u128_le(n));
    }
}

/// Reads the little-endian number in `d[pos..pos + 8]`.
pub fn read_u64_le(d: &[u8], pos: usize) -> (r: u64)
    requires
        pos + 8 <= d.len(),
    ensures
        r == u64_of_bytes(
            d@[pos as int],
            d@[pos + 1],
            d@[pos + 2],
            d@[pos + 3],
            d@[pos + 4],
            d@[pos + 5],
            d@[pos + 6],
            d@[pos + 7],
        ),
{
    (d[pos] as u64) | ((d[pos + 1] as u64) << 8u64) | ((d[pos + 2] as u64) << 16u64) | ((d[pos
        + 3] as u64) << 24u64) | ((d[pos + 4] as u64) << 32u64) | ((d[pos + 5] as u64) << 40u64)
        | ((d[pos + 6] as u64) << 48u64) | ((d[pos + 7] as u64) << 56u64)
}

/// Reads the little-endian number in `d[pos..pos + 16]`.
pub fn read_u128_le(d: &[u8], pos: usize) -> (r: u128)
    requires
        pos + 16 <= d.len(),
    ensures
        r == u128_from_le(d@.subrange(pos as int, pos + 16)),
{
    let lo = read_u64_le(d, pos);
    let hi = read_u64_le(d, pos + 8);
    (lo as u128) | ((hi as u128) << 64u128)
}

/// Appends the record of setting `key` to `value` at `timestamp`.
pub fn append_set_record(out: &mut Vec<u8>, key: &[u8], value: &[u8], timestamp: u128)
    ensures
        final(out)@ == old(out)@ + encode_record(
            EntryView { key: key@, value: Some(value@), timestamp, deleted: false },
        ),
{
    push_u64_le(out, key.len() as u64);
    out.push(FLAG_LIVE);
    push_u64_le(out, value.len() as u64);
    append_bytes(out, key);
    append_bytes(out, value);
    push_u128_le(out, timestamp);
    proof {
        reveal(encode_record);
        assert(final(out)@ =~= old(out)@ + encode_record(
            EntryView { key: key@, value: Some(value@), timestamp, deleted: false },
        ));
    }
}

/// Appends the tombstone record of deleting `key` at `timestamp`.
pub fn append_delete_record(out: &mut Vec<u8>, key: &[u8], timestamp: u128)
    ensures
        final(out)@ == old(out)@ + encode_record(
            EntryView { key: key@, value: None, timestamp, deleted: true },
        ),
{
    push_u64_le(out, key.len() as u64);
    out.push(FLAG_DELETED);
    append_bytes(out, key);
    push_u128_le(out, timestamp);
    proof {
        reveal(encode_record);
        assert(final(out)@ =~= old(out)@ + encode_record(
            EntryView { key: key@, value: None, timestamp, deleted: true },
        ));
    }
}

/// Decodes the tombstone that starts at `pos`.
fn decode_tombstone_at(d: &[u8], pos: usize) -> (r: Option<(WalEntry, usize)>)
    requires
        pos + TOMBSTONE_HEADER <= d.len(),
    ensures
        match decode_tombstone(d@.subrange(pos as int, d.len() as int)) {
            None => r is None,
            Some((e, n)) => r matches Some((w, end)) && w@ == e && end == pos + n,
        },
{
    reveal(decode_tombstone);
    let ghost sub = d@.subrange(pos as int, d.len() as int);
    let rem = d.len() - pos;
    let klen = read_u64_le(d, pos);
    assert(klen == u64_from_le(sub));
    if rem < TOMBSTONE_HEADER + TIMESTAMP_BYTES || klen > (rem - TOMBSTONE_HEADER - TIMESTAMP_BYTES) as u64 {
        return None;
    }
    let kstart = pos + TOMBSTONE_HEADER;
    let kend = kstart + klen as usize;
    let key = copy_range(d, kstart, kend);
    let timestamp = read_u128_le(d, kend);
    let end = kend + TIMESTAMP_BYTES;
    proof {
        assert(key@ =~= sub.subrange(TOMBSTONE_HEADER as int, TOMBSTONE_HEADER + klen));
        assert(d@.subrange(kend as int, kend + 16) =~= sub.subrange(
            TOMBSTONE_HEADER + klen,
            TOMBSTONE_HEADER + klen + 16,
        ));
    }
    Some((WalEntry { key, value: None, timestamp, deleted: true }, end))
}

/// Decodes the live record that starts at `pos`.
fn decode_live_at(d: &[u8], pos: usize) -> (r: Option<(WalEntry, usize)>)
    requires
        pos + TOMBSTONE_HEADER <= d.len(),
    ensures
        match decode_live(d@.subrange(pos as int, d.len() as int)) {
            None => r is None,
            Some((e, n)) => r matches Some((w, end)) && w@ == e && end == pos + n,
        },
{
    reveal(decode_live);
    let ghost sub = d@.subrange(pos as int, d.len() as int);
    let rem = d.len() - pos;
    if rem < LIVE_HEADER {
        return None;
    }
    let klen = read_u64_le(d, pos);
    assert(klen == u64_from_le(sub));
    let vlen = read_u64_le(d, pos + TOMBSTONE_HEADER);
    assert(vlen == u64_from_le(sub.subrange(TOMBSTONE_HEADER as int, LIVE_HEADER as int)));
    if rem < LIVE_HEADER + TIMESTAMP_BYTES || klen > (rem - LIVE_HEADER - TIMESTAMP_BYTES) as u64 {
        return None;
    }
    if vlen > (rem - LIVE_HEADER - TIMESTAMP_BYTES - klen as usize) as u64 {
        return None;
    }
    let kstart = pos + LIVE_HEADER;
    let kend = kstart + klen as usize;
    let vend = kend + vlen as usize;
    let key = copy_range(d, kstart, kend);
    let value = copy_range(d, kend, vend);
    let timestamp = read_u128_le(d, vend);
    let end = vend + TIMESTAMP_BYTES;
    proof {
        assert(key@ =~= sub.subrange(LIVE_HEADER as int, LIVE_HEADER + klen));
        assert(value@ =~= sub.subrange(LIVE_HEADER + klen, LIVE_HEADER + klen + vlen));
        assert(d@.subrange(vend as int, vend + 16) =~= sub.subrange(
            LIVE_HEADER + klen + vlen,
            LIVE_HEADER + klen + vlen + 16,
        ));
    }
    Some((WalEntry { key, value: Some(value), timestamp, deleted: false }, end))
}

/// Decodes the record that starts at `pos`, giving it with the position just
/// past it, or `None` where `d` ends before the record does.
pub fn decode_record_at(d: &[u8], pos: usize) -> (r: Option<(WalEntry, usize)>)
    requires
        pos <= d.len(),
    ensures
        match decode_record(d@.subrange(pos as int, d.len() as int)) {
            None => r is None,
            Some((e, n)) => r matches Some((w, end)) && w@ == e && end == pos + n,
        },
{
    reveal(decode_record);
    if d.len() - pos < TOMBSTONE_HEADER {
        return None;
    }
    if d[pos + 8] != FLAG_LIVE {
        decode_tombstone_at(d, pos)
    } else {
        decode_live_at(d, pos)
    }
}

} // verus!
