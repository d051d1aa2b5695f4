//! Public data model and command surface.
//!
//! `Entry` is the unit that flows from the write path into the log, the
//! memtable, and the sorted tables.
use vstd::prelude::*;

verus! {

/// Keys and values are opaque byte strings: the store never interprets them.
pub type Key = Vec<u8>;

pub type Value = Vec<u8>;

/// Whether an `Entry` records a live value or a deletion.
///
/// A `Delete` is a *tombstone*: older on-disk data is immutable, so a deletion
/// is a new record that shadows any earlier value of the same key.
#[derive(Clone, Copy, PartialEq, Eq, Debug, Structural)]
pub enum EntryKind {
    Put,
    Delete,
}

/// A single versioned record. The newest `seq` wins when the same key appears
/// more than once across the memtable and the tables.
#[derive(PartialEq, Eq, Debug)]
pub struct Entry {
    pub key: Key,
    pub value: Value,
    pub kind: EntryKind,
    pub seq: u64,
}

/// The mathematical content of an [`Entry`].
#[verifier::ext_equal]
pub struct EntryView {
    pub key: Seq<u8>,
    pub value: Seq<u8>,
    pub kind: EntryKind,
    pub seq: u64,
}

impl EntryView {
    pub open spec fn is_tombstone(self) -> bool {
        self.kind == EntryKind::Delete
    }

    /// What a reader sees of this record: a tombstone reads as absent.
    pub open spec fn resolved(self) -> Option<Seq<u8>> {
        if self.is_tombstone() {
            None
        } else {
            Some(self.value)
        }
    }
}

impl View for Entry {
    type V = EntryView;

    open spec fn view(&self) -> EntryView {
        EntryView { key: self.key@, value: self.value@, kind: self.kind, seq: self.seq }
    }
}

/// The contents of a vector of entries.
pub open spec fn entry_views(entries: Seq<Entry>) -> Seq<EntryView> {
    entries.map_values(|e: Entry| e@)
}

/// The contents of an optional byte string.
pub open spec fn option_bytes(value: Option<Vec<u8>>) -> Option<Seq<u8>> {
    match value {
        Some(v) => Some(v@),
        None => None,
    }
}

impl Clone for Entry {
    fn clone(&self) -> (r: Self)
        ensures
            r@ == self@,
            r.key@ == self.key@,
            r.value@ == self.value@,
            r.kind == self.kind,
            r.seq == self.seq,
    {
        Entry {
            key: clone_bytes(&self.key),
            value: clone_bytes(&self.value),
            kind: self.kind,
            seq: self.seq,
        }
    }
}

/// Copies a byte string.
pub fn clone_bytes(bytes: &Vec<u8>) -> (r: Vec<u8>)
    ensures
        r@ == bytes@,
{
    let r = bytes.clone();
    assert(r@ =~= bytes@);
    r
}

impl Entry {
    /// A live key-to-value record.
    pub fn put(key: Key, value: Value, seq: u64) -> (r: Self)
        ensures
            r@ == (EntryView { key: key@, value: value@, kind: EntryKind::Put, seq }),
            r.key@ == key@,
            r.value@ == value@,
            r.kind == EntryKind::Put,
            r.seq == seq,
    {
        Entry { key, value, kind: EntryKind::Put, seq }
    }

    /// A tombstone. It carries an empty value: readers must check `kind`, not
    /// the value, to decide presence.
    pub fn delete(key: Key, seq: u64) -> (r: Self)
        ensures
            r@ == (EntryView {
                key: key@,
                value: Seq::<u8>::empty(),
                kind: EntryKind::Delete,
                seq,
            }),
            r.key@ == key@,
            r.value@.len() == 0,
            r.kind == EntryKind::Delete,
            r.seq == seq,
    {
        Entry { key, value: Vec::new(), kind: EntryKind::Delete, seq }
    }

    pub fn is_tombstone(&self) -> (r: bool)
        ensures
            r == self@.is_tombstone(),
            r == (self.kind == EntryKind::Delete),
    {
        self.kind == EntryKind::Delete
    }
}

/// A view leaves nothing of an entry out, and adds nothing to it.
pub proof fn law_entry_is_viewed_whole(entry: Entry)
    ensures
        entry@.key == entry.key@,
        entry@.value == entry.value@,
        entry@.kind == entry.kind,
        entry@.seq == entry.seq,
{
}

/// Entries are viewed one by one, in their order: none is left out.
pub proof fn law_entries_are_viewed_one_by_one(entries: Seq<Entry>)
    ensures
        entry_views(entries).len() == entries.len(),
        forall|i: int|
            0 <= i < entries.len() ==> (#[trigger] entry_views(entries)[i]).key == entries[i].key@
                && entry_views(entries)[i].value == entries[i].value@ && entry_views(
                entries,
            )[i].kind == entries[i].kind && entry_views(entries)[i].seq == entries[i].seq,
{
}

/// An optional byte string is viewed whole, whatever its length.
pub proof fn law_option_is_viewed_whole(value: Option<Vec<u8>>, bytes: Seq<u8>)
    ensures
        option_bytes(value) is Some <==> value is Some,
        option_bytes(value) == Some(bytes) <==> (value matches Some(v) && v@ == bytes),
{
}

/// A reader of a live record sees all of its value, whatever its key, its length or its
/// age; a reader of a tombstone sees nothing, whatever value it carries.
pub proof fn law_record_reads_as_its_value(e: EntryView)
    ensures
        e.kind == EntryKind::Put ==> e.resolved() == Some(e.value),
        e.kind == EntryKind::Delete ==> e.resolved() is None,
        e.is_tombstone() <==> e.resolved() is None,
{
}

/// A request is viewed with its key and its value whole.
pub proof fn law_request_is_viewed_whole(request: Request)
    ensures
        request matches Request::Get(key) ==> request@ == Operation::Get(key@),
        request matches Request::Put(key, value) ==> request@ == Operation::Put(key@, value@),
        request matches Request::Delete(key) ==> request@ == Operation::Delete(key@),
{
}

/// The public operations a client can ask the store to perform.
#[derive(Clone, PartialEq, Eq, Debug)]
pub enum Request {
    Get(Key),
    Put(Key, Value),
    Delete(Key),
}

/// The mathematical content of a [`Request`].
pub enum Operation {
    Get(Seq<u8>),
    Put(Seq<u8>, Seq<u8>),
    Delete(Seq<u8>),
}

impl View for Request {
    type V = Operation;

    open spec fn view(&self) -> Operation {
        match self {
            Request::Get(key) => Operation::Get(key@),
            Request::Put(key, value) => Operation::Put(key@, value@),
            Request::Delete(key) => Operation::Delete(key@),
        }
    }
}

/// The result of a [`Request`].
#[derive(Clone, PartialEq, Eq, Debug)]
pub enum Response {
    /// Answer to a `Get`: `Some(value)` if present, `None` if absent or deleted.
    Value(Option<Value>),
    /// Acknowledgement of a successful mutation.
    Done,
}

} // verus!
