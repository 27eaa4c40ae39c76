//! The MemTable: entries kept in strictly ascending key order, one per key,
//! with deletions recorded as tombstones.
use vstd::prelude::*;

use crate::bytes::{
    bytes_lt, compare_bytes, copy_bytes, lemma_lt_irreflexive, lemma_lt_transitive, KeyOrder,
};
use crate::clock::now_millis;

verus! {

/// Width of the timestamp in an entry's footprint (a `u128`).
pub const TIMESTAMP_WIDTH: usize = 16;

/// Width of the deletion flag in an entry's footprint (a `bool`).
pub const FLAG_WIDTH: usize = 1;

/// What an entry holds, as plain values.
pub struct EntryView {
    pub key: Seq<u8>,
    pub value: Option<Seq<u8>>,
    pub timestamp: u128,
    pub deleted: bool,
}

/// A tombstone carries no value and a live entry always carries one.
pub open spec fn entry_wf(e: EntryView) -> bool {
    e.deleted <==> e.value is None
}

pub struct MemTableEntry {
    pub key: Vec<u8>,
    pub value: Option<Vec<u8>>,
    pub timestamp: u128,
    pub deleted: bool,
}

pub open spec fn opt_bytes_view(v: Option<Vec<u8>>) -> Option<Seq<u8>> {
    match v {
        Some(b) => Some(b@),
        None => None,
    }
}

impl View for MemTableEntry {
    type V = EntryView;

    open spec fn view(&self) -> EntryView {
        EntryView {
            key: self.key@,
            value: opt_bytes_view(self.value),
            timestamp: self.timestamp,
            deleted: self.deleted,
        }
    }
}

/// Keys strictly ascend along `s`.
pub open spec fn keys_ascending(s: Seq<EntryView>) -> bool {
    forall|i: int, j: int| 0 <= i < j < s.len() ==> bytes_lt(#[trigger] s[i].key, #[trigger] s[j].key)
}

/// The key-to-entry map that a sequence of entries describes.
pub open spec fn table_map(s: Seq<EntryView>) -> Map<Seq<u8>, EntryView> {
    Map::new(
        |k: Seq<u8>| exists|i: int| 0 <= i < s.len() && #[trigger] s[i].key == k,
        |k: Seq<u8>| s[choose|i: int| 0 <= i < s.len() && #[trigger] s[i].key == k],
    )
}

/// `x` saturated into the range of `usize`.
pub open spec fn clamp_usize(x: int) -> usize {
    if x < 0 {
        0
    } else if x > usize::MAX {
        usize::MAX
    } else {
        x as usize
    }
}

/// Length of an entry's value, a tombstone counting as empty.
pub open spec fn value_len(e: EntryView) -> int {
    match e.value {
        Some(v) => v.len() as int,
        None => 0,
    }
}

/// The size counter after `set(key, value)`: an update moves it by the change
/// in value length, a new key adds the entry's whole footprint.
pub open spec fn size_after_set(
    m: Map<Seq<u8>, EntryView>,
    size: usize,
    key: Seq<u8>,
    value: Seq<u8>,
) -> usize {
    if m.contains_key(key) {
        clamp_usize(size + value.len() - value_len(m[key]))
    } else {
        clamp_usize(size + key.len() + value.len() + TIMESTAMP_WIDTH + FLAG_WIDTH)
    }
}

/// The map after `set(key, value)` stamped with `ts`.
pub open spec fn set_model(
    m: Map<Seq<u8>, EntryView>,
    key: Seq<u8>,
    value: Seq<u8>,
    ts: u128,
) -> Map<Seq<u8>, EntryView> {
    m.insert(key, EntryView { key, value: Some(value), timestamp: ts, deleted: false })
}

/// The map after `delete(key)` stamped with `ts`: a live entry becomes a
/// tombstone; an absent key or a tombstone is left as it is.
pub open spec fn delete_model(m: Map<Seq<u8>, EntryView>, key: Seq<u8>, ts: u128) -> Map<
    Seq<u8>,
    EntryView,
> {
    if m.contains_key(key) && !m[key].deleted {
        m.insert(key, EntryView { key, value: None, timestamp: ts, deleted: true })
    } else {
        m
    }
}

pub struct MemTable {
    entries: Vec<MemTableEntry>,
    size: usize,
}

impl View for MemTable {
    type V = Map<Seq<u8>, EntryView>;

    closed spec fn view(&self) -> Map<Seq<u8>, EntryView> {
        table_map(self.entry_seq())
    }
}

/// Entries at distinct positions of an ascending sequence have distinct keys,
/// so the map finds each entry under its own key.
proof fn lemma_table_map_at(s: Seq<EntryView>, i: int)
    requires
        keys_ascending(s),
        0 <= i < s.len(),
    ensures
        table_map(s).contains_key(s[i].key),
        table_map(s)[s[i].key] == s[i],
{
    let k = s[i].key;
    assert(exists|j: int| 0 <= j < s.len() && #[trigger] s[j].key == k);
    let j = choose|j: int| 0 <= j < s.len() && #[trigger] s[j].key == k;
    if j < i {
        lemma_lt_irreflexive(k);
    } else if i < j {
        lemma_lt_irreflexive(k);
    }
}

impl MemTable {
    /// The entries in table order, as plain values.
    pub closed spec fn entry_seq(&self) -> Seq<EntryView> {
        self.entries@.map_values(|e: MemTableEntry| e@)
    }

    /// The running size counter.
    pub closed spec fn size_spec(&self) -> usize {
        self.size
    }

    /// Keys strictly ascend and every entry is a well-formed value or tombstone.
    pub closed spec fn wf(&self) -> bool {
        &&& keys_ascending(self.entry_seq())
        &&& forall|i: int| 0 <= i < self.entry_seq().len() ==> entry_wf(#[trigger] self.entry_seq()[i])
    }

    /// Every entry is filed under its own key, and every key of the map is
    /// held by one of the entries.
    pub proof fn lemma_view_matches_entries(&self)
        requires
            self.wf(),
        ensures
            forall|i: int|
                0 <= i < self.entry_seq().len() ==> #[trigger] self@.contains_key(self.entry_seq()[i].key)
                    && self@[self.entry_seq()[i].key] == self.entry_seq()[i],
            forall|k: Seq<u8>|
                #[trigger] self@.contains_key(k) ==> exists|i: int|
                    0 <= i < self.entry_seq().len() && #[trigger] self.entry_seq()[i].key == k,
            forall|k: Seq<u8>| #[trigger] self@.contains_key(k) ==> self@[k].key == k && entry_wf(self@[k]),
            map_wf(self@),
    {
        assert forall|i: int| 0 <= i < self.entry_seq().len() implies #[trigger] self@.contains_key(self.entry_seq()[i].key)
            && self@[self.entry_seq()[i].key] == self.entry_seq()[i] by {
            lemma_table_map_at(self.entry_seq(), i);
        }
        assert forall|k: Seq<u8>| #[trigger] self@.contains_key(k) implies self@[k].key == k && entry_wf(self@[k]) by {
            let s = self.entry_seq();
            let i = choose|i: int| 0 <= i < s.len() && #[trigger] s[i].key == k;
            lemma_table_map_at(s, i);
        }
    }

    /// Creates an empty MemTable.
    pub fn new() -> (r: MemTable)
        ensures
            r.wf(),
            r@ == Map::<Seq<u8>, EntryView>::empty(),
            r.entry_seq().len() == 0,
            r.size_spec() == 0,
    {
        let r = MemTable { entries: Vec::new(), size: 0 };
        proof {
            assert(r@ =~= Map::<Seq<u8>, EntryView>::empty());
        }
        r
    }

    /// Binary search for `key`: `Ok` with its position when present, else
    /// `Err` with the position where it would be inserted to keep the order.
    fn get_index(&self, key: &[u8]) -> (r: Result<usize, usize>)
        requires
            self.wf(),
        ensures
            match r {
                Ok(i) => i < self.entry_seq().len() && self.entry_seq()[i as int].key == key@,
                Err(i) => {
                    &&& i <= self.entry_seq().len()
                    &&& forall|j: int| 0 <= j < i ==> bytes_lt(#[trigger] self.entry_seq()[j].key, key@)
                    &&& forall|j: int|
                        i <= j < self.entry_seq().len() ==> bytes_lt(key@, #[trigger] self.entry_seq()[j].key)
                },
            },
    {
        let ghost s = self.entry_seq();
        let mut lo: usize = 0;
        let mut hi: usize = self.entries.len();
        while lo < hi
            invariant
                s == self.entry_seq(),
                keys_ascending(s),
                lo <= hi <= s.len(),
                s.len() == self.entries@.len(),
                forall|j: int| 0 <= j < lo ==> bytes_lt(#[trigger] s[j].key, key@),
                forall|j: int| hi <= j < s.len() ==> bytes_lt(key@, #[trigger] s[j].key),
            decreases hi - lo,
        {
            let mid = lo + (hi - lo) / 2;
            let ord = compare_bytes(self.entries[mid].key.as_slice(), key);
            assert(s[mid as int].key == self.entries@[mid as int].key@);
            match ord {
                KeyOrder::Equal => {
                    return Ok(mid);
                },
                KeyOrder::Less => {
                    assert forall|j: int| 0 <= j < mid + 1 implies bytes_lt(#[trigger] s[j].key, key@) by {
                        if j < mid {
                            lemma_lt_transitive(s[j].key, s[mid as int].key, key@);
                        }
                    }
                    lo = mid + 1;
                },
                KeyOrder::Greater => {
                    assert forall|j: int| mid <= j < s.len() implies bytes_lt(key@, #[trigger] s[j].key) by {
                        if j > mid {
                            lemma_lt_transitive(key@, s[mid as int].key, s[j].key);
                        }
                    }
                    hi = mid;
                },
            }
        }
        Err(lo)
    }

    /// Sets `key` to `value`, stamping the entry with `timestamp`.
    pub fn set_at(&mut self, key: &[u8], value: &[u8], timestamp: u128)
        requires
            old(self).wf(),
        ensures
            final(self).wf(),
            final(self)@ == set_model(old(self)@, key@, value@, timestamp),
            final(self).size_spec() == size_after_set(old(self)@, old(self).size_spec(), key@, value@),
    {
        proof {
            self.lemma_view_matches_entries();
        }
        let entry = MemTableEntry {
            key: copy_bytes(key),
            value: Some(copy_bytes(value)),
            timestamp,
            deleted: false,
        };
        let ghost s = self.entry_seq();
        let ghost ev = entry@;
        match self.get_index(key) {
            Ok(idx) => {
                let old_len: usize = match &self.entries[idx].value {
                    Some(v) => v.len(),
                    None => 0,
                };
                assert(old_len == value_len(s[idx as int]));
                if value.len() < old_len {
                    self.size = self.size.saturating_sub(old_len - value.len());
                } else {
                    self.size = self.size.saturating_add(value.len() - old_len);
                }
                self.entries.set(idx, entry);
                proof {
                    let t = self.entry_seq();
                    assert(t =~= s.update(idx as int, ev));
                    assert(keys_ascending(t));
                    self.lemma_view_matches_entries();
                    assert(self@ =~= set_model(table_map(s), key@, value@, timestamp)) by {
                        assert forall|k: Seq<u8>| #[trigger] self@.contains_key(k) implies table_map(s).insert(key@, ev).contains_key(k) by {
                            let i = choose|i: int| 0 <= i < t.len() && #[trigger] t[i].key == k;
                            if i != idx {
                                lemma_table_map_at(s, i);
                            }
                        }
                        assert forall|k: Seq<u8>| #[trigger] table_map(s).insert(key@, ev).contains_key(k) implies self@.contains_key(k)
                            && self@[k] == table_map(s).insert(key@, ev)[k] by {
                            if k == key@ {
                                lemma_table_map_at(t, idx as int);
                            } else {
                                let i = choose|i: int| 0 <= i < s.len() && #[trigger] s[i].key == k;
                                lemma_table_map_at(s, i);
                                lemma_table_map_at(t, i);
                            }
                        }
                    }
                }
            },
            Err(idx) => {
                self.size = self.size.saturating_add(key.len()).saturating_add(value.len()).saturating_add(
                    TIMESTAMP_WIDTH,
                ).saturating_add(FLAG_WIDTH);
                self.entries.insert(idx, entry);
                proof {
                    let t = self.entry_seq();
                    assert(t =~= s.insert(idx as int, ev));
                    assert forall|i: int, j: int| 0 <= i < j < t.len() implies bytes_lt(
                        #[trigger] t[i].key,
                        #[trigger] t[j].key,
                    ) by {
                        if j < idx {
                        } else if j == idx {
                        } else if i < idx {
                            lemma_lt_transitive(s[i].key, key@, s[j - 1].key);
                        } else if i == idx {
                        } else {
                        }
                    }
                    self.lemma_view_matches_entries();
                    assert(!table_map(s).contains_key(key@)) by {
                        if table_map(s).contains_key(key@) {
                            let i = choose|i: int| 0 <= i < s.len() && #[trigger] s[i].key == key@;
                            lemma_lt_irreflexive(key@);
                        }
                    }
                    assert(self@ =~= set_model(table_map(s), key@, value@, timestamp)) by {
                        assert forall|k: Seq<u8>| #[trigger] self@.contains_key(k) implies table_map(s).insert(key@, ev).contains_key(k) by {
                            let i = choose|i: int| 0 <= i < t.len() && #[trigger] t[i].key == k;
                            if i < idx {
                                lemma_table_map_at(s, i);
                            } else if i > idx {
                                lemma_table_map_at(s, i - 1);
                            }
                        }
                        assert forall|k: Seq<u8>| #[trigger] table_map(s).insert(key@, ev).contains_key(k) implies self@.contains_key(k)
                            && self@[k] == table_map(s).insert(key@, ev)[k] by {
                            if k == key@ {
                                lemma_table_map_at(t, idx as int);
                            } else {
                                let i = choose|i: int| 0 <= i < s.len() && #[trigger] s[i].key == k;
                                lemma_table_map_at(s, i);
                                if i < idx {
                                    lemma_table_map_at(t, i);
                                } else {
                                    lemma_table_map_at(t, i + 1);
                                }
                            }
                        }
                    }
                }
            },
        }
    }

    /// Sets `key` to `value`, stamped with the current time.
    pub fn set(&mut self, key: &[u8], value: &[u8])
        requires
            old(self).wf(),
        ensures
            final(self).wf(),
            final(self)@ == set_model(old(self)@, key@, value@, final(self)@[key@].timestamp),
            final(self).size_spec() == size_after_set(old(self)@, old(self).size_spec(), key@, value@),
    {
        let timestamp = now_millis();
        self.set_at(key, value, timestamp);
    }

    /// Turns the live entry under `key` into a tombstone stamped with
    /// `timestamp`; an absent key or a tombstone is left as it is. The size
    /// counter does not change.
    pub fn delete_at(&mut self, key: &[u8], timestamp: u128)
        requires
            old(self).wf(),
        ensures
            final(self).wf(),
            final(self)@ == delete_model(old(self)@, key@, timestamp),
            final(self).size_spec() == old(self).size_spec(),
    {
        proof {
            self.lemma_view_matches_entries();
        }
        let ghost s = self.entry_seq();
        if let Ok(idx) = self.get_index(key) {
            proof {
                lemma_table_map_at(s, idx as int);
            }
            if !self.entries[idx].deleted {
                let tomb = MemTableEntry {
                    key: copy_bytes(key),
                    value: None,
                    timestamp,
                    deleted: true,
                };
                let ghost ev = tomb@;
                self.entries.set(idx, tomb);
                proof {
                    let t = self.entry_seq();
                    assert(t =~= s.update(idx as int, ev));
                    assert(keys_ascending(t));
                    self.lemma_view_matches_entries();
                    assert(self@ =~= table_map(s).insert(key@, ev)) by {
                        assert forall|k: Seq<u8>| #[trigger] self@.contains_key(k) implies table_map(s).insert(key@, ev).contains_key(k) by {
                            let i = choose|i: int| 0 <= i < t.len() && #[trigger] t[i].key == k;
                            if i != idx {
                                lemma_table_map_at(s, i);
                            }
                        }
                        assert forall|k: Seq<u8>| #[trigger] table_map(s).insert(key@, ev).contains_key(k) implies self@.contains_key(k)
                            && self@[k] == table_map(s).insert(key@, ev)[k] by {
                            if k == key@ {
                                lemma_table_map_at(t, idx as int);
                            } else {
                                let i = choose|i: int| 0 <= i < s.len() && #[trigger] s[i].key == k;
                                lemma_table_map_at(s, i);
                                lemma_table_map_at(t, i);
                            }
                        }
                    }
                }
            }
        } else {
            proof {
                if table_map(s).contains_key(key@) {
                    let i = choose|i: int| 0 <= i < s.len() && #[trigger] s[i].key == key@;
                    lemma_lt_irreflexive(key@);
                }
            }
        }
    }

    /// Turns the live entry under `key` into a tombstone stamped with the
    /// current time; an absent key or a tombstone is left as it is.
    pub fn delete(&mut self, key: &[u8])
        requires
            old(self).wf(),
        ensures
            final(self).wf(),
            final(self).size_spec() == old(self).size_spec(),
            old(self)@.contains_key(key@) && !old(self)@[key@].deleted ==> final(self)@ == delete_model(
                old(self)@,
                key@,
                final(self)@[key@].timestamp,
            ),
            !(old(self)@.contains_key(key@) && !old(self)@[key@].deleted) ==> final(self)@ == old(self)@,
    {
        let timestamp = now_millis();
        self.delete_at(key, timestamp);
    }

    /// The entry under `key`, live or tombstone, if there is one.
    pub fn get(&self, key: &[u8]) -> (r: Option<&MemTableEntry>)
        requires
            self.wf(),
        ensures
            match r {
                Some(e) => self@.contains_key(key@) && e@ == self@[key@],
                None => !self@.contains_key(key@),
            },
    {
        proof {
            self.lemma_view_matches_entries();
        }
        match self.get_index(key) {
            Ok(idx) => {
                proof {
                    lemma_table_map_at(self.entry_seq(), idx as int);
                }
                Some(&self.entries[idx])
            },
            Err(_) => {
                proof {
                    let s = self.entry_seq();
                    if self@.contains_key(key@) {
                        let i = choose|i: int| 0 <= i < s.len() && #[trigger] s[i].key == key@;
                        lemma_lt_irreflexive(key@);
                    }
                }
                None
            },
        }
    }

    /// Number of entries, tombstones included.
    pub fn len(&self) -> (r: usize)
        requires
            self.wf(),
        ensures
            r == self.entry_seq().len(),
            r == self@.len(),
    {
        proof {
            self.lemma_len_matches();
        }
        self.entries.len()
    }

    /// Whether the table holds no entry, not even a tombstone.
    pub fn is_empty(&self) -> (r: bool)
        requires
            self.wf(),
        ensures
            r == (self.entry_seq().len() == 0),
            r == (self@ == Map::<Seq<u8>, EntryView>::empty()),
    {
        proof {
            self.lemma_len_matches();
            if self@ == Map::<Seq<u8>, EntryView>::empty() {
                assert(self@.dom() =~= Set::<Seq<u8>>::empty());
            }
            if self.entry_seq().len() == 0 {
                assert(self@ =~= Map::<Seq<u8>, EntryView>::empty());
            }
        }
        self.len() == 0
    }

    /// The entries in ascending key order.
    pub fn entries(&self) -> (r: &[MemTableEntry])
        ensures
            r@.map_values(|e: MemTableEntry| e@) == self.entry_seq(),
    {
        self.entries.as_slice()
    }

    /// The running size counter.
    pub fn size(&self) -> (r: usize)
        ensures
            r == self.size_spec(),
    {
        self.size
    }

    /// The map has exactly one key per entry.
    proof fn lemma_len_matches(&self)
        requires
            self.wf(),
        ensures
            self@.len() == self.entry_seq().len(),
            self@.dom().finite(),
    {
        self.lemma_view_matches_entries();
        let s = self.entry_seq();
        let keys = s.map_values(|e: EntryView| e.key);
        assert forall|k: Seq<u8>| self@.dom().contains(k) <==> keys.to_set().contains(k) by {
            if self@.contains_key(k) {
                let i = choose|i: int| 0 <= i < s.len() && #[trigger] s[i].key == k;
                assert(keys[i] == k);
            }
            if keys.contains(k) {
                let i = choose|i: int| 0 <= i < keys.len() && keys[i] == k;
                assert(s[i].key == k);
            }
        }
        assert(self@.dom() =~= keys.to_set());
        assert(keys.no_duplicates()) by {
            assert forall|i: int, j: int| 0 <= i < keys.len() && 0 <= j < keys.len() && i != j implies keys[i] != keys[j] by {
                lemma_lt_irreflexive(keys[i]);
            }
        }
        keys.unique_seq_to_set();
    }
}

/// One mutation of a MemTable, with the timestamp it is stamped with.
pub enum TableOp {
    SetKey(Seq<u8>, Seq<u8>, u128),
    DeleteKey(Seq<u8>, u128),
}

/// Every entry of the map is filed under its own key and is well formed.
pub open spec fn map_wf(m: Map<Seq<u8>, EntryView>) -> bool {
    forall|k: Seq<u8>| #[trigger] m.contains_key(k) ==> m[k].key == k && entry_wf(m[k])
}

pub open spec fn op_key(op: TableOp) -> Seq<u8> {
    match op {
        TableOp::SetKey(k, _, _) => k,
        TableOp::DeleteKey(k, _) => k,
    }
}

/// The map after one mutation, as `set_at` and `delete_at` state it.
pub open spec fn apply_op(m: Map<Seq<u8>, EntryView>, op: TableOp) -> Map<Seq<u8>, EntryView> {
    match op {
        TableOp::SetKey(k, v, ts) => set_model(m, k, v, ts),
        TableOp::DeleteKey(k, ts) => delete_model(m, k, ts),
    }
}

/// The map after a sequence of mutations, applied in call order.
pub open spec fn apply_ops(m: Map<Seq<u8>, EntryView>, ops: Seq<TableOp>) -> Map<
    Seq<u8>,
    EntryView,
>
    decreases ops.len(),
{
    if ops.len() == 0 {
        m
    } else {
        apply_op(apply_ops(m, ops.drop_last()), ops.last())
    }
}

/// The size counter after a sequence of mutations: sets move it as
/// `size_after_set` says, deletes leave it.
pub open spec fn apply_ops_size(m: Map<Seq<u8>, EntryView>, size: usize, ops: Seq<TableOp>) -> usize
    decreases ops.len(),
{
    if ops.len() == 0 {
        size
    } else {
        let before = apply_ops_size(m, size, ops.drop_last());
        match ops.last() {
            TableOp::SetKey(k, v, _) => size_after_set(apply_ops(m, ops.drop_last()), before, k, v),
            TableOp::DeleteKey(_, _) => before,
        }
    }
}

/// Applying two runs of mutations one after the other is applying the
/// whole run, for the map and for the size counter.
pub proof fn lemma_apply_ops_append(
    m: Map<Seq<u8>, EntryView>,
    size: usize,
    a: Seq<TableOp>,
    b: Seq<TableOp>,
)
    ensures
        apply_ops(m, a + b) == apply_ops(apply_ops(m, a), b),
        apply_ops_size(m, size, a + b) == apply_ops_size(apply_ops(m, a), apply_ops_size(m, size, a), b),
    decreases b.len(),
{
    if b.len() == 0 {
        assert(a + b =~= a);
    } else {
        lemma_apply_ops_append(m, size, a, b.drop_last());
        assert((a + b).drop_last() =~= a + b.drop_last());
    }
}

/// Mutations keep every entry filed under its own key and well formed.
pub proof fn lemma_ops_keep_wf(m: Map<Seq<u8>, EntryView>, ops: Seq<TableOp>)
    requires
        map_wf(m),
    ensures
        map_wf(apply_ops(m, ops)),
    decreases ops.len(),
{
    if ops.len() > 0 {
        lemma_ops_keep_wf(m, ops.drop_last());
    }
}

/// A key that no mutation of the sequence names keeps what it had.
pub proof fn lemma_untouched_key(m: Map<Seq<u8>, EntryView>, ops: Seq<TableOp>, k: Seq<u8>)
    requires
        forall|j: int| 0 <= j < ops.len() ==> op_key(#[trigger] ops[j]) != k,
    ensures
        apply_ops(m, ops).contains_key(k) == m.contains_key(k),
        m.contains_key(k) ==> apply_ops(m, ops)[k] == m[k],
    decreases ops.len(),
{
    if ops.len() > 0 {
        let init = ops.drop_last();
        assert forall|j: int| 0 <= j < init.len() implies op_key(#[trigger] init[j]) != k by {
            assert(init[j] == ops[j]);
        }
        lemma_untouched_key(m, init, k);
        assert(op_key(ops[ops.len() - 1]) != k);
    }
}

/// Last writer wins: after any sequence of sets and deletes, the entry under a
/// key is decided by the last operation on that key in call order. A set
/// leaves a live entry with its value and timestamp; a delete leaves a
/// tombstone, or no entry where the key was never present.
pub proof fn lemma_last_writer_wins(
    m: Map<Seq<u8>, EntryView>,
    ops: Seq<TableOp>,
    k: Seq<u8>,
    i: int,
)
    requires
        map_wf(m),
        0 <= i < ops.len(),
        op_key(ops[i]) == k,
        forall|j: int| i < j < ops.len() ==> op_key(#[trigger] ops[j]) != k,
    ensures
        match ops[i] {
            TableOp::SetKey(_, v, ts) => apply_ops(m, ops).contains_key(k) && apply_ops(m, ops)[k]
                == EntryView { key: k, value: Some(v), timestamp: ts, deleted: false },
            TableOp::DeleteKey(_, _) => apply_ops(m, ops).contains_key(k) ==> apply_ops(m, ops)[k].deleted
                && apply_ops(m, ops)[k].value is None,
        },
    decreases ops.len(),
{
    if i == ops.len() - 1 {
        let before = apply_ops(m, ops.drop_last());
        match ops[i] {
            TableOp::SetKey(_, v, ts) => {},
            TableOp::DeleteKey(_, ts) => {
                lemma_ops_keep_wf(m, ops.drop_last());
            },
        }
    } else {
        let init = ops.drop_last();
        assert(init[i] == ops[i]);
        assert forall|j: int| i < j < init.len() implies op_key(#[trigger] init[j]) != k by {
            assert(init[j] == ops[j]);
        }
        lemma_last_writer_wins(m, init, k, i);
        assert(op_key(ops[ops.len() - 1]) != k);
    }
}

/// Deleting a key twice leaves the table as deleting it once does.
pub proof fn lemma_delete_idempotent(m: Map<Seq<u8>, EntryView>, k: Seq<u8>, t1: u128, t2: u128)
    ensures
        delete_model(delete_model(m, k, t1), k, t2) == delete_model(m, k, t1),
{
}

/// The entries of a MemTable, as `entries` hands them out, strictly ascend by
/// key whatever order the keys were inserted in.
pub proof fn lemma_entries_sorted(t: &MemTable)
    requires
        t.wf(),
    ensures
        forall|i: int, j: int|
            0 <= i < j < t.entry_seq().len() ==> bytes_lt(
                #[trigger] t.entry_seq()[i].key,
                #[trigger] t.entry_seq()[j].key,
            ),
{
}

} // verus!
