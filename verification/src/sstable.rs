//! Sorted string tables: immutable, key-ordered files with a sparse index for
//! point lookups without scanning the whole file.
//!
//! Layout:
//!
//! ```text
//! [ data:   record* ]        framed entries, keys ascending
//! [ index ]                  key and offset of every 16th record
//! [ bloom ]                  membership filter over all keys
//! [ footer ]                 index_offset | index_len | bloom_offset | bloom_len
//!                            | max_seq | kind | magic, seven little-endian u64s
//! ```
//!
//! Lookup: the filter first rejects keys that are definitely absent; otherwise
//! the index gives the offset of the largest indexed key that is not beyond the
//! target, and records are read from there until the target is met or passed, but no
//! more than there are from one indexed record to the next: at most one block.
use crate::api::{entry_views, Entry, EntryView, Key};
use crate::bloom::{law_filter_survives_encoding, law_no_false_negatives, Bloom, BloomView};
use crate::codec::{
    decode_entry, decode_index, encode_index, entry_of, filter_enc, filter_of, index_enc, index_of,
    index_view, lemma_index_of, lemma_slots_enc_push, slots_enc, starts_with_entry,
    starts_with_index,
};
use crate::error::StoreError;
use crate::le::{
    law_number_round_trip, le_bytes, le_value, lemma_le_bytes_len, lemma_le_bytes_of_value,
    lemma_le_limits, lemma_le_value_of_bytes, push_le, read_le,
};
use crate::order::{
    ascending, key_lt, key_order, lemma_key_lt_asymmetric, lemma_key_lt_irreflexive,
    lemma_key_lt_total, lemma_key_lt_transitive, KeyOrder,
};
use crate::record::{
    all_fit, continued, fits, lemma_first_record_size, lemma_record_at_offset,
    lemma_record_enc_len, lemma_records_enc_room, push_record, read_payload, read_record, record_at,
    record_enc, record_len, record_offset, records_enc,
};
use crate::run::{
    is_run, item_keys, keys_of, latest, lemma_latest_in_run, lemma_latest_is_there,
    lemma_latest_none, lemma_run_order, search,
};
use std::path::PathBuf;
use vstd::prelude::*;
use vstd::slice::slice_subrange;

verus! {

/// A path, carried but never looked into.
#[verifier::external_type_specification]
#[verifier::external_body]
pub struct ExPathBuf(PathBuf);

/// One index entry every this many data records. Smaller means a bigger index
/// but shorter scans.
pub const INDEX_INTERVAL: usize = 16;

/// Size of the footer: seven numbers of eight bytes.
pub const FOOTER_SIZE: usize = 56;

/// Identifies the file format, and its version, in the footer.
pub const MAGIC: u64 = 0x5354_5241_5441_0005;

/// The `kind` of a table that was flushed.
pub const KIND_FLUSH: u64 = 0;

/// The `kind` of a table that a compaction put out: it supersedes its inputs.
pub const KIND_COMPACTION: u64 = 1;

/// The largest offset a file can be read at.
pub const MAX_OFFSET: u64 = 0x7fff_ffff_ffff_ffff;

/// The sparse index over some entries: the key and the offset of every
/// `INDEX_INTERVAL`-th record.
pub open spec fn sparse_index(entries: Seq<EntryView>) -> Seq<(Seq<u8>, u64)>
    decreases entries.len(),
{
    if entries.len() == 0 {
        Seq::empty()
    } else {
        let front = entries.drop_last();
        if front.len() % INDEX_INTERVAL as nat == 0 {
            sparse_index(front).push((entries.last().key, records_enc(front).len() as u64))
        } else {
            sparse_index(front)
        }
    }
}

/// The largest sequence number among some entries, zero where there are none.
pub open spec fn max_seq_of(entries: Seq<EntryView>) -> u64
    decreases entries.len(),
{
    if entries.len() == 0 {
        0
    } else {
        let front = max_seq_of(entries.drop_last());
        if entries.last().seq > front {
            entries.last().seq
        } else {
            front
        }
    }
}

/// Where the sections of a table file are, and what the file says of itself.
#[derive(Clone, Copy, PartialEq, Eq, Debug, Structural)]
pub struct Footer {
    pub index_offset: u64,
    pub index_len: u64,
    pub bloom_offset: u64,
    pub bloom_len: u64,
    pub max_seq: u64,
    pub kind: u64,
}

pub open spec fn footer_enc(f: Footer) -> Seq<u8> {
    le_bytes(f.index_offset as nat, 8) + le_bytes(f.index_len as nat, 8) + le_bytes(
        f.bloom_offset as nat,
        8,
    ) + le_bytes(f.bloom_len as nat, 8) + le_bytes(f.max_seq as nat, 8) + le_bytes(
        f.kind as nat,
        8,
    ) + le_bytes(MAGIC as nat, 8)
}

/// The `i`-th number of a footer.
pub open spec fn footer_field(s: Seq<u8>, i: int) -> u64 {
    le_value(s.subrange(8 * i, 8 * i + 8)) as u64
}

/// The footer that 56 bytes hold, if they carry the magic number.
pub open spec fn footer_of(s: Seq<u8>) -> Result<Footer, StoreError> {
    if footer_field(s, 6) != MAGIC {
        Err(StoreError::BadMagic)
    } else {
        Ok(
            Footer {
                index_offset: footer_field(s, 0),
                index_len: footer_field(s, 1),
                bloom_offset: footer_field(s, 2),
                bloom_len: footer_field(s, 3),
                max_seq: footer_field(s, 4),
                kind: footer_field(s, 5),
            },
        )
    }
}

/// The footer of a table file over these entries.
pub open spec fn table_footer(entries: Seq<EntryView>, filter: BloomView, kind: u64) -> Footer {
    let index_offset = records_enc(entries).len();
    let index_len = index_enc(sparse_index(entries)).len();
    let bloom_len = filter_enc(filter.bits, filter.num_bits, filter.k).len();
    Footer {
        index_offset: index_offset as u64,
        index_len: index_len as u64,
        bloom_offset: (index_offset + index_len) as u64,
        bloom_len: bloom_len as u64,
        max_seq: max_seq_of(entries),
        kind,
    }
}

/// The table file over these entries.
pub open spec fn table_image(entries: Seq<EntryView>, filter: BloomView, kind: u64) -> Seq<u8> {
    records_enc(entries) + index_enc(sparse_index(entries)) + filter_enc(
        filter.bits,
        filter.num_bits,
        filter.k,
    ) + footer_enc(table_footer(entries, filter, kind))
}

/// `filter` has this shape and holds exactly the keys of `entries`.
pub open spec fn filter_over(
    filter: BloomView,
    entries: Seq<EntryView>,
    num_bits: u64,
    k: u32,
) -> bool {
    &&& filter.wf()
    &&& filter.built_from(keys_of(entries))
    &&& filter.num_bits == num_bits
    &&& filter.k == k
    &&& filter.bits.len() == (num_bits + 7) / 8
}

/// `image` is the table file over `entries` with a filter of this shape.
pub open spec fn is_table_file(
    image: Seq<u8>,
    entries: Seq<EntryView>,
    num_bits: u64,
    k: u32,
    kind: u64,
) -> bool {
    exists|filter: BloomView|
        #![trigger table_image(entries, filter, kind)]
        filter_over(filter, entries, num_bits, k) && image == table_image(entries, filter, kind)
}

/// What an open table holds in memory.
#[verifier::ext_equal]
pub struct TableView {
    pub index: Seq<(Seq<u8>, u64)>,
    pub filter: BloomView,
    pub data_end: u64,
    pub max_seq: u64,
    pub superseding: bool,
}

/// The `len` bytes of `file` from `offset` on.
pub open spec fn section(file: Seq<u8>, offset: u64, len: u64) -> Result<Seq<u8>, StoreError> {
    if offset > MAX_OFFSET {
        Err(StoreError::BadOffset)
    } else if len == 0 {
        Ok(Seq::empty())
    } else if offset + len > file.len() {
        Err(StoreError::UnexpectedEof)
    } else {
        Ok(file.subrange(offset as int, offset + len))
    }
}

/// The table that a footer, an index and an encoded filter make up.
pub open spec fn loaded(
    f: Footer,
    index: Seq<(Seq<u8>, u64)>,
    bloom_bytes: Seq<u8>,
) -> Result<TableView, StoreError> {
    if f.index_offset > MAX_OFFSET {
        Err(StoreError::BadOffset)
    } else {
        match filter_of(bloom_bytes) {
            Some(fields) => Ok(
                TableView {
                    index,
                    filter: BloomView { bits: fields.0, num_bits: fields.1, k: fields.2 },
                    data_end: f.index_offset,
                    max_seq: f.max_seq,
                    superseding: f.kind == KIND_COMPACTION,
                },
            ),
            None => Err(StoreError::Corrupt),
        }
    }
}

/// The table that a file holds.
pub open spec fn opened(file: Seq<u8>) -> Result<TableView, StoreError> {
    if file.len() < FOOTER_SIZE {
        Err(StoreError::TableTooSmall)
    } else {
        match footer_of(file.skip(file.len() - FOOTER_SIZE)) {
            Err(error) => Err(error),
            Ok(f) => match section(file, f.index_offset, f.index_len) {
                Err(error) => Err(error),
                Ok(index_bytes) => match index_of(index_bytes) {
                    None => Err(StoreError::Corrupt),
                    Some(index) => match section(file, f.bloom_offset, f.bloom_len) {
                        Err(error) => Err(error),
                        Ok(bloom_bytes) => loaded(f, index, bloom_bytes),
                    },
                },
            },
        }
    }
}

/// The place of the largest indexed key that is not beyond `key`, or -1 where every
/// one is.
pub open spec fn floor_slot(index: Seq<(Seq<u8>, u64)>, key: Seq<u8>) -> int
    decreases index.len(),
{
    if index.len() == 0 {
        -1
    } else if key_lt(key, index.last().0) {
        floor_slot(index.drop_last(), key)
    } else {
        index.len() - 1
    }
}

/// Where a lookup is: the position of the next record, and how many more records may
/// be read.
#[derive(Clone, Copy, PartialEq, Eq, Debug, Structural)]
pub struct Cursor {
    pub pos: u64,
    pub left: usize,
}

/// The position of a cursor, if there is one.
pub open spec fn cursor_pos(cursor: Option<Cursor>) -> Option<u64> {
    match cursor {
        Some(c) => Some(c.pos),
        None => None,
    }
}

pub open spec fn index_keys(index: Seq<(Seq<u8>, u64)>) -> Seq<Seq<u8>> {
    index.map_values(|slot: (Seq<u8>, u64)| slot.0)
}

/// Reads up to `left` records from offset `at` on, until one has `key` or is beyond it,
/// or until the records read so far take up the bytes from `pos` to `end`.
pub open spec fn searched(
    file: Seq<u8>,
    at: nat,
    pos: nat,
    end: nat,
    left: nat,
    key: Seq<u8>,
) -> Result<Option<EntryView>, StoreError>
    decreases left,
{
    if pos >= end || left == 0 {
        Ok(None)
    } else {
        match record_at(file, at) {
            Err(error) => Err(error),
            Ok((e, size)) => if e.key == key {
                Ok(Some(e))
            } else if key_lt(key, e.key) {
                Ok(None)
            } else {
                searched(
                    file,
                    at + size,
                    pos + record_enc(e).len(),
                    end,
                    (left - 1) as nat,
                    key,
                )
            },
        }
    }
}

/// How many records [`searched`] reads.
pub open spec fn records_read(
    file: Seq<u8>,
    at: nat,
    pos: nat,
    end: nat,
    left: nat,
    key: Seq<u8>,
) -> nat
    decreases left,
{
    if pos >= end || left == 0 {
        0
    } else {
        match record_at(file, at) {
            Err(_) => 1,
            Ok((e, size)) => if e.key == key || key_lt(key, e.key) {
                1
            } else {
                1 + records_read(
                    file,
                    at + size,
                    pos + record_enc(e).len(),
                    end,
                    (left - 1) as nat,
                    key,
                )
            },
        }
    }
}

/// Reads records from offset `at` on, until they take up the bytes from `pos` to
/// `end`.
pub open spec fn scanned(file: Seq<u8>, at: nat, pos: nat, end: nat) -> Result<
    Seq<EntryView>,
    StoreError,
>
    decreases file.len() - at,
{
    if pos >= end {
        Ok(Seq::empty())
    } else {
        match record_at(file, at) {
            Err(error) => Err(error),
            Ok((e, size)) => if 0 < size && at + size <= file.len() {
                match scanned(file, at + size, pos + record_enc(e).len(), end) {
                    Ok(rest) => Ok(seq![e] + rest),
                    Err(error) => Err(error),
                }
            } else {
                Ok(Seq::empty())
            },
        }
    }
}

impl TableView {
    /// The filter can be asked for any key, and offsets leave room for a record.
    pub open spec fn wf(self) -> bool {
        self.filter.wf() && self.data_end <= MAX_OFFSET
    }

    pub open spec fn index_sorted(self) -> bool {
        ascending(index_keys(self.index))
    }

    /// Where to start reading for `key`, if anything has to be read: at the largest
    /// indexed key that is not beyond it.
    pub open spec fn start_of(self, key: Seq<u8>) -> Option<u64> {
        let slot = floor_slot(self.index, key);
        if !self.filter.may_contain(key) || slot < 0 || self.index[slot].1 >= self.data_end {
            None
        } else {
            Some(self.index[slot].1)
        }
    }

    /// Where a lookup of `key` may start. In an index that is out of order, as only that
    /// of a damaged table can be, a binary search may end up at any place.
    pub open spec fn may_start(self, key: Seq<u8>, start: Option<u64>) -> bool {
        if self.index_sorted() {
            start == self.start_of(key)
        } else {
            start matches Some(at) ==> {
                &&& self.filter.may_contain(key)
                &&& at < self.data_end
                &&& exists|i: int| 0 <= i < self.index.len() && (#[trigger] self.index[i]).1 == at
            }
        }
    }

    /// What a lookup of `key` in `file` yields that starts there.
    pub open spec fn lookup_from(self, file: Seq<u8>, start: Option<u64>, key: Seq<u8>) -> Result<
        Option<EntryView>,
        StoreError,
    > {
        match start {
            None => Ok(None),
            Some(at) => searched(
                file,
                at as nat,
                at as nat,
                self.data_end as nat,
                INDEX_INTERVAL as nat,
                key,
            ),
        }
    }

    /// What a lookup of `key` in `file` yields.
    pub open spec fn lookup(self, file: Seq<u8>, key: Seq<u8>) -> Result<
        Option<EntryView>,
        StoreError,
    > {
        self.lookup_from(file, self.start_of(key), key)
    }

    /// A lookup of `key` in `file` can yield this: with the index in order, exactly what
    /// [`lookup`](TableView::lookup) says.
    pub open spec fn may_find(
        self,
        file: Seq<u8>,
        key: Seq<u8>,
        found: Result<Option<EntryView>, StoreError>,
    ) -> bool {
        exists|start: Option<u64>| #[trigger]
            self.may_start(key, start) && found == self.lookup_from(file, start, key)
    }

    /// What a scan of `file` yields.
    pub open spec fn scan(self, file: Seq<u8>) -> Result<Seq<EntryView>, StoreError> {
        scanned(file, 0, 0, self.data_end as nat)
    }
}

impl Footer {
    /// Reads a footer from the last bytes of a table file.
    pub fn parse(bytes: &[u8]) -> (r: Result<Footer, StoreError>)
        requires
            bytes@.len() == FOOTER_SIZE,
        ensures
            r == footer_of(bytes@),
    {
        let magic: u64 = read_le(bytes, 48, 8);
        if magic != MAGIC {
            return Err(StoreError::BadMagic);
        }
        Ok(
            Footer {
                index_offset: read_le(bytes, 0, 8),
                index_len: read_le(bytes, 8, 8),
                bloom_offset: read_le(bytes, 16, 8),
                bloom_len: read_le(bytes, 24, 8),
                max_seq: read_le(bytes, 32, 8),
                kind: read_le(bytes, 40, 8),
            },
        )
    }

    /// Appends the footer to a table file.
    fn push(&self, out: &mut Vec<u8>)
        ensures
            final(out)@ == old(out)@ + footer_enc(*self),
    {
        push_le(out, self.index_offset, 8);
        push_le(out, self.index_len, 8);
        push_le(out, self.bloom_offset, 8);
        push_le(out, self.bloom_len, 8);
        push_le(out, self.max_seq, 8);
        push_le(out, self.kind, 8);
        push_le(out, MAGIC, 8);
        assert(out@ =~= old(out)@ + footer_enc(*self));
    }
}

/// An open table: its path plus its loaded sparse index and filter.
pub struct SsTable {
    path: PathBuf,
    /// Key and byte offset of every `INDEX_INTERVAL`-th record. Ascending.
    index: Vec<(Key, u64)>,
    /// Membership filter over every key in the table, checked before any read.
    bloom: Bloom,
    /// Byte offset where the data section ends and the index begins.
    data_end: u64,
    /// Largest sequence number stored.
    max_seq: u64,
    /// Whether a compaction put this table out.
    superseding: bool,
}

impl View for SsTable {
    type V = TableView;

    closed spec fn view(&self) -> TableView {
        TableView {
            index: index_view(self.index@),
            filter: self.bloom@,
            data_end: self.data_end,
            max_seq: self.max_seq,
            superseding: self.superseding,
        }
    }
}

/// The bytes of a section of a file.
fn read_section(file: &[u8], offset: u64, len: u64) -> (r: Result<Vec<u8>, StoreError>)
    ensures
        match r {
            Ok(bytes) => section(file@, offset, len) == Ok::<Seq<u8>, StoreError>(bytes@),
            Err(error) => section(file@, offset, len) == Err::<Seq<u8>, StoreError>(error),
        },
{
    if offset > MAX_OFFSET {
        return Err(StoreError::BadOffset);
    }
    if len == 0 {
        return Ok(Vec::new());
    }
    let total: usize = file.len();
    if len > total as u64 || offset > total as u64 - len {
        return Err(StoreError::UnexpectedEof);
    }
    let from: usize = offset as usize;
    let to: usize = (offset + len) as usize;
    Ok(vstd::slice::slice_to_vec(slice_subrange(file, from, to)))
}

/// The index over some entries takes up less room than their records do.
proof fn lemma_sparse_index_room(entries: Seq<EntryView>)
    ensures
        slots_enc(sparse_index(entries)).len() + 16 * sparse_index(entries).len() <= records_enc(
            entries,
        ).len(),
    decreases entries.len(),
{
    if entries.len() > 0 {
        let front = entries.drop_last();
        let last = entries.last();
        lemma_sparse_index_room(front);
        lemma_record_enc_len(last);
        lemma_slots_enc_push(sparse_index(front), (last.key, records_enc(front).len() as u64));
    }
}

/// The table file over `entries`.
fn encode_table(entries: &Vec<Entry>, num_bits: u64, k: u32, kind: u64) -> (r: Result<
    Vec<u8>,
    StoreError,
>)
    requires
        0 < num_bits,
        (num_bits + 7) / 8 + 20 <= usize::MAX,
    ensures
        match r {
            Ok(image) => {
                &&& all_fit(entry_views(entries@))
                &&& is_table_file(image@, entry_views(entries@), num_bits, k, kind)
            },
            Err(error) => error == StoreError::RecordTooLarge && !all_fit(entry_views(entries@)),
        },
{
    let ghost all = entry_views(entries@);
    let total: usize = entries.len();

    let mut key_refs: Vec<&[u8]> = Vec::new();
    let mut n: usize = 0;
    while n < total
        invariant
            n <= total,
            total == entries@.len(),
            all == entry_views(entries@),
            key_refs@.len() == n,
            forall|j: int| 0 <= j < n ==> (#[trigger] key_refs@[j])@ == all[j].key,
        decreases total - n,
    {
        key_refs.push(entries[n].key.as_slice());
        n = n + 1;
    }
    let bloom = Bloom::build(key_refs.as_slice(), num_bits, k);
    assert(key_refs@.map_values(|key: &[u8]| key@) =~= keys_of(all));

    let mut out: Vec<u8> = Vec::new();
    let mut index: Vec<(Key, u64)> = Vec::new();
    let mut max_seq: u64 = 0;
    let mut i: usize = 0;
    assert(all.take(0) =~= Seq::<EntryView>::empty());
    assert(index_view(index@) =~= Seq::<(Seq<u8>, u64)>::empty());
    while i < total
        invariant
            i <= total,
            total == entries@.len(),
            all == entry_views(entries@),
            out@ == records_enc(all.take(i as int)),
            index_view(index@) == sparse_index(all.take(i as int)),
            max_seq == max_seq_of(all.take(i as int)),
            all_fit(all.take(i as int)),
        decreases total - i,
    {
        let entry = &entries[i];
        let ghost front = all.take(i as int);
        let ghost next = all.take(i + 1);
        proof {
            assert(next.drop_last() =~= front);
            assert(next.last() == entry@);
            assert(all[i as int] == entry@);
        }
        let offset: u64 = out.len() as u64;
        if i % INDEX_INTERVAL == 0 {
            let ghost before = index@;
            let key = crate::api::clone_bytes(&entry.key);
            index.push((key, offset));
            assert(index_view(index@) =~= index_view(before).push((entry@.key, offset)));
        }
        if entry.seq > max_seq {
            max_seq = entry.seq;
        }
        push_record(&mut out, entry)?;
        assert(all_fit(next)) by {
            assert forall|j: int| 0 <= j < next.len() implies fits(#[trigger] next[j]) by {
                if j < i {
                    assert(fits(front[j]));
                }
            }
        }
        i = i + 1;
    }
    assert(all.take(total as int) =~= all);

    let index_offset: u64 = out.len() as u64;
    proof {
        lemma_sparse_index_room(all);
        lemma_le_bytes_len(sparse_index(all).len(), 8);
    }
    let mut index_bytes = encode_index(&index)?;
    let index_len: u64 = index_bytes.len() as u64;
    out.append(&mut index_bytes);

    let bloom_offset: u64 = out.len() as u64;
    let mut bloom_bytes = bloom.to_bytes()?;
    let bloom_len: u64 = bloom_bytes.len() as u64;
    out.append(&mut bloom_bytes);

    let footer = Footer { index_offset, index_len, bloom_offset, bloom_len, max_seq, kind };
    footer.push(&mut out);
    proof {
        assert(footer == table_footer(all, bloom@, kind));
        assert(filter_over(bloom@, all, num_bits, k));
        assert(out@ =~= table_image(all, bloom@, kind));
    }
    Ok(out)
}

/// What reading one record tells a lookup.
#[derive(PartialEq, Eq, Debug)]
pub enum Examined {
    /// The record is the one sought.
    Found(Entry),
    /// The table does not hold the key.
    Absent,
    /// The key may stand further on: read the next record, and go on from here.
    More(Cursor),
}

/// The contents of what a lookup yields.
pub open spec fn outcome(r: Result<Option<Entry>, StoreError>) -> Result<
    Option<EntryView>,
    StoreError,
> {
    match r {
        Ok(found) => Ok(option_entry(found)),
        Err(error) => Err(error),
    }
}

impl SsTable {
    /// The data section ends at an offset that a file can be read at.
    #[verifier::type_invariant]
    spec fn ends_in_range(self) -> bool {
        self.data_end <= MAX_OFFSET
    }

    /// The file of a new table over `entries`, which are to be in ascending key
    /// order, with a filter of `num_bits` bits, `k` of which stand for each key.
    pub fn create(entries: &Vec<Entry>, num_bits: u64, k: u32) -> (r: Result<Vec<u8>, StoreError>)
        requires
            0 < num_bits,
            (num_bits + 7) / 8 + 20 <= usize::MAX,
        ensures
            match r {
                Ok(image) => {
                    &&& all_fit(entry_views(entries@))
                    &&& is_table_file(image@, entry_views(entries@), num_bits, k, KIND_FLUSH)
                },
                Err(error) => error == StoreError::RecordTooLarge && !all_fit(
                    entry_views(entries@),
                ),
            },
    {
        encode_table(entries, num_bits, k, KIND_FLUSH)
    }

    /// The file of a new table that a compaction puts out. It differs from that
    /// of [`SsTable::create`] in its footer, which marks it as superseding.
    pub fn create_compaction(entries: &Vec<Entry>, num_bits: u64, k: u32) -> (r: Result<
        Vec<u8>,
        StoreError,
    >)
        requires
            0 < num_bits,
            (num_bits + 7) / 8 + 20 <= usize::MAX,
        ensures
            match r {
                Ok(image) => {
                    &&& all_fit(entry_views(entries@))
                    &&& is_table_file(image@, entry_views(entries@), num_bits, k, KIND_COMPACTION)
                },
                Err(error) => error == StoreError::RecordTooLarge && !all_fit(
                    entry_views(entries@),
                ),
            },
    {
        encode_table(entries, num_bits, k, KIND_COMPACTION)
    }

    /// A table from its footer, its index and its encoded filter.
    pub fn load(path: PathBuf, footer: &Footer, index: Vec<(Key, u64)>, bloom_bytes: &[u8]) -> (r:
        Result<SsTable, StoreError>)
        ensures
            match r {
                Ok(table) => {
                    &&& loaded(*footer, index_view(index@), bloom_bytes@) == Ok::<
                        TableView,
                        StoreError,
                    >(table@)
                    &&& table.spec_path() == path
                    &&& table@.index == index_view(index@)
                    &&& table@.data_end == footer.index_offset
                    &&& table@.max_seq == footer.max_seq
                    &&& table@.superseding == (footer.kind == 1)
                    &&& filter_of(bloom_bytes@) == Some(
                        (table@.filter.bits, table@.filter.num_bits, table@.filter.k),
                    )
                },
                Err(error) => loaded(*footer, index_view(index@), bloom_bytes@) == Err::<
                    TableView,
                    StoreError,
                >(error),
            },
    {
        if footer.index_offset > MAX_OFFSET {
            return Err(StoreError::BadOffset);
        }
        let bloom = Bloom::from_bytes(bloom_bytes)?;
        let table = SsTable::assemble(path, footer, index, bloom);
        proof {
            let fields = filter_of(bloom_bytes@)->Some_0;
            assert(table@.filter =~= (BloomView {
                bits: fields.0,
                num_bits: fields.1,
                k: fields.2,
            }));
        }
        Ok(table)
    }

    fn assemble(path: PathBuf, footer: &Footer, index: Vec<(Key, u64)>, bloom: Bloom) -> (r: SsTable)
        requires
            footer.index_offset <= MAX_OFFSET,
        ensures
            r@ == (TableView {
                index: index_view(index@),
                filter: bloom@,
                data_end: footer.index_offset,
                max_seq: footer.max_seq,
                superseding: footer.kind == KIND_COMPACTION,
            }),
            r.spec_path() == path,
    {
        SsTable {
            path,
            index,
            bloom,
            data_end: footer.index_offset,
            max_seq: footer.max_seq,
            superseding: footer.kind == KIND_COMPACTION,
        }
    }

    /// Opens the table that `file` holds, reading its footer and loading its
    /// index and filter.
    pub fn open(path: PathBuf, file: &[u8]) -> (r: Result<SsTable, StoreError>)
        ensures
            match r {
                Ok(table) => {
                    &&& opened(file@) == Ok::<TableView, StoreError>(table@)
                    &&& table.spec_path() == path
                },
                Err(error) => opened(file@) == Err::<TableView, StoreError>(error),
            },
    {
        let total: usize = file.len();
        if total < FOOTER_SIZE {
            return Err(StoreError::TableTooSmall);
        }
        let tail = slice_subrange(file, total - FOOTER_SIZE, total);
        assert(tail@ =~= file@.skip(file@.len() - FOOTER_SIZE));
        let footer = Footer::parse(tail)?;
        let index_bytes = read_section(file, footer.index_offset, footer.index_len)?;
        let index = decode_index(index_bytes.as_slice())?;
        let bloom_bytes = read_section(file, footer.bloom_offset, footer.bloom_len)?;
        SsTable::load(path, &footer, index, bloom_bytes.as_slice())
    }

    pub closed spec fn spec_path(&self) -> PathBuf {
        self.path
    }

    /// The path that the table was opened with.
    pub fn path(&self) -> (r: &PathBuf)
        ensures
            *r == self.spec_path(),
    {
        &self.path
    }

    /// Largest sequence number stored in this table.
    pub fn max_seq(&self) -> (r: u64)
        ensures
            r == self@.max_seq,
    {
        self.max_seq
    }

    /// Whether a compaction put this table out, so that it supersedes every
    /// table with a lower number.
    pub fn is_superseding(&self) -> (r: bool)
        ensures
            r == self@.superseding,
    {
        self.superseding
    }

    /// Whether the table's filter can be asked for `key`, as one that was read from a
    /// damaged file might not.
    pub fn can_ask(&self, key: &[u8]) -> (r: bool)
        ensures
            r == self@.filter.askable(key@),
    {
        self.bloom.can_ask(key)
    }

    /// `false` means `key` is definitely not in this table. `true` means it might
    /// be: look it up to be sure.
    pub fn may_contain(&self, key: &[u8]) -> (r: bool)
        requires
            self@.filter.askable(key@),
        ensures
            r == self@.filter.may_contain(key@),
    {
        self.bloom.contains(key)
    }

    /// Where to start reading for `key`, or `None` if nothing has to be read because the
    /// table cannot hold the key.
    pub fn start_of(&self, key: &[u8]) -> (r: Option<Cursor>)
        requires
            self@.filter.askable(key@),
        ensures
            self@.may_start(key@, cursor_pos(r)),
            !self@.filter.may_contain(key@) ==> r is None,
            r matches Some(cursor) ==> cursor.pos < self@.data_end && cursor.left == INDEX_INTERVAL,
            self@.index_sorted() ==> match self@.start_of(key@) {
                Some(at) => r is Some && r->Some_0.pos == at && r->Some_0.left == 16,
                None => r is None,
            },
            r matches Some(cursor) ==> exists|i: int|
                0 <= i < self@.index.len() && (#[trigger] self@.index[i]).1 == cursor.pos,
    {
        if !self.bloom.contains(key) {
            return None;
        }
        let ghost index = self@.index;
        let ghost keys = index_keys(index);
        assert(item_keys(self.index@) =~= keys);
        assert forall|j: int| 0 <= j < index.len() implies keys[j] == (#[trigger] index[j]).0 by {
        }
        let slot: usize = match search(&self.index, key) {
            Ok(i) => {
                proof {
                    if self@.index_sorted() {
                        lemma_key_lt_irreflexive(key@);
                        assert(keys[i as int] == index[i as int].0);
                        assert forall|j: int| i < j < index.len() implies key_lt(
                            key@,
                            (#[trigger] index[j]).0,
                        ) by {
                            assert(key_lt(keys[i as int], keys[j]));
                        }
                        lemma_floor_at(index, key@, i as int);
                    }
                }
                i
            },
            Err(i) => {
                proof {
                    if self@.index_sorted() {
                        assert forall|j: int| i <= j < index.len() implies key_lt(
                            key@,
                            (#[trigger] index[j]).0,
                        ) by {
                            assert(key_lt(key@, keys[j]));
                        }
                        if i == 0 {
                            lemma_floor_none(index, key@);
                        } else {
                            assert(key_lt(keys[i - 1], key@));
                            lemma_key_lt_asymmetric(keys[i - 1], key@);
                            lemma_floor_at(index, key@, i - 1);
                        }
                    }
                }
                if i == 0 {
                    return None;
                }
                i - 1
            },
        };
        assert(index[slot as int].1 == self.index@[slot as int].1);
        let start: u64 = self.index[slot].1;
        if start < self.data_end {
            Some(Cursor { pos: start, left: INDEX_INTERVAL })
        } else {
            None
        }
    }

    /// Judges one record of a lookup of `key`, given its payload.
    pub fn examine(&self, cursor: Cursor, payload: &[u8], key: &[u8]) -> (r: Result<
        Examined,
        StoreError,
    >)
        requires
            cursor.pos < self@.data_end,
            cursor.left > 0,
            payload@.len() <= u32::MAX,
        ensures
            match r {
                Err(error) => error == StoreError::Corrupt && entry_of(payload@) is None,
                Ok(outcome) => match entry_of(payload@) {
                    None => false,
                    Some(e) => {
                        let next = cursor.pos + record_enc(e).len();
                        if e.key == key@ {
                            outcome matches Examined::Found(found) && found@ == e
                        } else if key_lt(key@, e.key) || next >= self@.data_end || cursor.left
                            == 1 {
                            outcome is Absent
                        } else {
                            outcome matches Examined::More(after) && after.pos == next && after.left
                                == cursor.left - 1
                        }
                    },
                },
            },
    {
        let entry = decode_entry(payload)?;
        proof {
            use_type_invariant(self);
            assert(starts_with_entry(payload@, entry@));
            lemma_record_enc_len(entry@);
        }
        let next: u64 = cursor.pos + record_len(&entry)?;
        match key_order(entry.key.as_slice(), key) {
            KeyOrder::Equal => Ok(Examined::Found(entry)),
            KeyOrder::Greater => Ok(Examined::Absent),
            KeyOrder::Less => {
                proof {
                    lemma_key_lt_asymmetric(entry@.key, key@);
                }
                if next < self.data_end && cursor.left > 1 {
                    Ok(Examined::More(Cursor { pos: next, left: cursor.left - 1 }))
                } else {
                    Ok(Examined::Absent)
                }
            },
        }
    }

    /// Point lookup in the table's file. Yields the stored entry (tombstone or
    /// value) for `key`, or `None` if this table does not hold it.
    pub fn get(&self, file: &[u8], key: &[u8]) -> (r: Result<Option<Entry>, StoreError>)
        requires
            self@.filter.askable(key@),
        ensures
            self@.may_find(file@, key@, outcome(r)),
            self@.index_sorted() ==> outcome(r) == self@.lookup(file@, key@),
            self@.index_sorted() ==> match self@.lookup(file@, key@) {
                Ok(Some(e)) => r is Ok && r->Ok_0 is Some && r->Ok_0->Some_0@ == e,
                Ok(None) => r == Ok::<Option<Entry>, StoreError>(None),
                Err(error) => r == Err::<Option<Entry>, StoreError>(error),
            },
            !self@.filter.may_contain(key@) ==> r == Ok::<Option<Entry>, StoreError>(None),
            r matches Ok(Some(e)) ==> e@.key == key@,
            r matches Ok(Some(e)) ==> e.key@ == key@,
    {
        let first = match self.start_of(key) {
            Some(cursor) => cursor,
            None => {
                assert(self@.may_start(key@, None));
                return Ok(None);
            },
        };
        let start: u64 = first.pos;
        let total: usize = file.len();
        let ghost end = self@.data_end as nat;
        let ghost whole = self@.lookup_from(file@, Some(start), key@);
        assert(self@.may_start(key@, Some(start)));
        if start > total as u64 {
            return Err(StoreError::UnexpectedEof);
        }
        let mut at: usize = start as usize;
        let mut cursor = first;
        loop
            invariant
                total == file@.len(),
                at <= total,
                end == self@.data_end,
                cursor.pos < end,
                cursor.left > 0,
                self@.filter.may_contain(key@),
                self@.may_start(key@, Some(start)),
                whole == self@.lookup_from(file@, Some(start), key@),
                whole == searched(
                    file@,
                    at as nat,
                    cursor.pos as nat,
                    end,
                    cursor.left as nat,
                    key@,
                ),
            decreases cursor.left,
        {
            let payload = read_payload(file, at)?;
            match self.examine(cursor, payload, key)? {
                Examined::Found(entry) => {
                    return Ok(Some(entry));
                },
                Examined::Absent => {
                    proof {
                        let e = entry_of(payload@)->Some_0;
                        if !key_lt(key@, e.key) {
                            reveal_with_fuel(searched, 2);
                        }
                    }
                    return Ok(None);
                },
                Examined::More(next) => {
                    at = at + 4 + payload.len();
                    cursor = next;
                },
            }
        }
    }

    /// Reads every entry of the data section of the table's file, in key order.
    pub fn scan(&self, file: &[u8]) -> (r: Result<Vec<Entry>, StoreError>)
        ensures
            match r {
                Ok(entries) => self@.scan(file@) == Ok::<Seq<EntryView>, StoreError>(
                    entry_views(entries@),
                ),
                Err(error) => self@.scan(file@) == Err::<Seq<EntryView>, StoreError>(error),
            },
    {
        let mut entries: Vec<Entry> = Vec::new();
        let total: usize = file.len();
        let ghost end = self@.data_end as nat;
        let ghost whole = self@.scan(file@);
        let mut at: usize = 0;
        let mut pos: u64 = 0;
        proof {
            use_type_invariant(self);
            assert(entry_views(entries@) =~= Seq::empty());
            if whole is Ok {
                assert(entry_views(entries@) + whole->Ok_0 =~= whole->Ok_0);
            }
        }
        while pos < self.data_end
            invariant
                total == file@.len(),
                at <= total,
                end == self@.data_end <= MAX_OFFSET,
                pos <= MAX_OFFSET + u32::MAX + 4,
                whole == continued(
                    entry_views(entries@),
                    scanned(file@, at as nat, pos as nat, end),
                ),
                whole == self@.scan(file@),
            decreases total - at,
        {
            proof {
                lemma_first_record_size(file@.skip(at as int));
            }
            let (entry, size) = read_record(file, at)?;
            let ghost before = entry_views(entries@);
            proof {
                lemma_record_enc_len(entry@);
                let rest = scanned(
                    file@,
                    (at + size) as nat,
                    (pos + record_enc(entry@).len()) as nat,
                    end,
                );
                if rest is Ok {
                    let more = rest->Ok_0;
                    assert(before + (seq![entry@] + more) =~= before.push(entry@) + more);
                }
                assert(entry_views(entries@.push(entry)) =~= before.push(entry@));
            }
            pos = pos + record_len(&entry)?;
            entries.push(entry);
            at = at + size;
        }
        assert(entry_views(entries@) + Seq::<EntryView>::empty() =~= entry_views(entries@));
        Ok(entries)
    }
}

/// The contents of an optional entry.
pub open spec fn option_entry(found: Option<Entry>) -> Option<EntryView> {
    match found {
        Some(e) => Some(e@),
        None => None,
    }
}

/// What a lookup yields is viewed whole: the entry that was found, or the error.
pub proof fn law_outcome_is_viewed_whole(r: Result<Option<Entry>, StoreError>)
    ensures
        r matches Ok(Some(e)) ==> outcome(r) == Ok::<Option<EntryView>, StoreError>(Some(e@)),
        r matches Ok(None) ==> outcome(r) == Ok::<Option<EntryView>, StoreError>(None),
        r matches Err(error) ==> outcome(r) == Err::<Option<EntryView>, StoreError>(error),
{
}

proof fn lemma_floor_at(index: Seq<(Seq<u8>, u64)>, key: Seq<u8>, i: int)
    requires
        0 <= i < index.len(),
        !key_lt(key, index[i].0),
        forall|j: int| i < j < index.len() ==> key_lt(key, (#[trigger] index[j]).0),
    ensures
        floor_slot(index, key) == i,
    decreases index.len(),
{
    if i < index.len() - 1 {
        assert(key_lt(key, index[index.len() - 1].0));
        lemma_floor_at(index.drop_last(), key, i);
    }
}

proof fn lemma_floor_none(index: Seq<(Seq<u8>, u64)>, key: Seq<u8>)
    requires
        forall|j: int| 0 <= j < index.len() ==> key_lt(key, (#[trigger] index[j]).0),
    ensures
        floor_slot(index, key) == -1,
    decreases index.len(),
{
    if index.len() > 0 {
        assert(key_lt(key, index[index.len() - 1].0));
        lemma_floor_none(index.drop_last(), key);
    }
}

// The format of a table file.

/// The numbers that the format fixes.
pub proof fn law_format_numbers()
    ensures
        INDEX_INTERVAL == 16,
        FOOTER_SIZE == 7 * 8,
        MAGIC == 0x5354_5241_5441_0005,
        KIND_FLUSH == 0,
        KIND_COMPACTION == 1,
        MAX_OFFSET == i64::MAX,
{
}

/// The largest sequence number among some entries is that of one of them, and none has a
/// larger one; of no entries it is zero.
pub proof fn law_max_seq(entries: Seq<EntryView>)
    ensures
        forall|i: int| 0 <= i < entries.len() ==> (#[trigger] entries[i]).seq <= max_seq_of(entries),
        entries.len() > 0 ==> exists|i: int|
            0 <= i < entries.len() && (#[trigger] entries[i]).seq == max_seq_of(entries),
        entries.len() == 0 ==> max_seq_of(entries) == 0,
    decreases entries.len(),
{
    if entries.len() > 0 {
        let front = entries.drop_last();
        law_max_seq(front);
        assert forall|i: int| 0 <= i < entries.len() implies (#[trigger] entries[i]).seq
            <= max_seq_of(entries) by {
            if i < front.len() {
                assert(front[i] == entries[i]);
            }
        }
        if max_seq_of(entries) == entries.last().seq {
            assert(entries[entries.len() - 1].seq == max_seq_of(entries));
        } else {
            let i = choose|i: int|
                0 <= i < front.len() && (#[trigger] front[i]).seq == max_seq_of(front);
            assert(entries[i].seq == max_seq_of(entries));
        }
    }
}

/// The index over some entries has a slot for every 16th of them, the first one included:
/// its key, whole, and where its record starts.
pub proof fn law_every_sixteenth_record_is_indexed(entries: Seq<EntryView>, b: int)
    ensures
        sparse_index(entries).len() == (entries.len() + 15) / 16,
        0 <= b < sparse_index(entries).len() ==> {
            &&& 16 * b < entries.len()
            &&& sparse_index(entries)[b].0 == entries[16 * b].key
            &&& sparse_index(entries)[b].1 == records_enc(entries.take(16 * b)).len() as u64
        },
{
    lemma_sparse_index(entries, b);
}

/// Where the fields of a footer stand: seven numbers of eight bytes each, in this order, the
/// last of them the magic number.
pub proof fn law_footer_layout(f: Footer)
    ensures
        ({
            let s = footer_enc(f);
            &&& s.len() == 56
            &&& le_value(s.subrange(0, 8)) == f.index_offset
            &&& le_value(s.subrange(8, 16)) == f.index_len
            &&& le_value(s.subrange(16, 24)) == f.bloom_offset
            &&& le_value(s.subrange(24, 32)) == f.bloom_len
            &&& le_value(s.subrange(32, 40)) == f.max_seq
            &&& le_value(s.subrange(40, 48)) == f.kind
            &&& le_value(s.subrange(48, 56)) == 0x5354_5241_5441_0005
        }),
{
    let s = footer_enc(f);
    law_number_round_trip(f.index_offset as nat);
    law_number_round_trip(f.index_len as nat);
    law_number_round_trip(f.bloom_offset as nat);
    law_number_round_trip(f.bloom_len as nat);
    law_number_round_trip(f.max_seq as nat);
    law_number_round_trip(f.kind as nat);
    law_number_round_trip(MAGIC as nat);
    assert(s.subrange(0, 8) =~= le_bytes(f.index_offset as nat, 8));
    assert(s.subrange(8, 16) =~= le_bytes(f.index_len as nat, 8));
    assert(s.subrange(16, 24) =~= le_bytes(f.bloom_offset as nat, 8));
    assert(s.subrange(24, 32) =~= le_bytes(f.bloom_len as nat, 8));
    assert(s.subrange(32, 40) =~= le_bytes(f.max_seq as nat, 8));
    assert(s.subrange(40, 48) =~= le_bytes(f.kind as nat, 8));
    assert(s.subrange(48, 56) =~= le_bytes(MAGIC as nat, 8));
}

/// Fifty-six bytes are a footer exactly where their last eight hold the magic number, and its
/// fields are then the numbers that stand before it.
pub proof fn law_footer_is_read(s: Seq<u8>)
    requires
        s.len() == 56,
    ensures
        footer_of(s) is Ok <==> le_value(s.subrange(48, 56)) == 0x5354_5241_5441_0005,
        footer_of(s) matches Err(error) ==> error == StoreError::BadMagic,
        footer_of(s) matches Ok(f) ==> {
            &&& f.index_offset == le_value(s.subrange(0, 8))
            &&& f.index_len == le_value(s.subrange(8, 16))
            &&& f.bloom_offset == le_value(s.subrange(16, 24))
            &&& f.bloom_len == le_value(s.subrange(24, 32))
            &&& f.max_seq == le_value(s.subrange(32, 40))
            &&& f.kind == le_value(s.subrange(40, 48))
        },
{
    lemma_le_limits();
    lemma_le_bytes_of_value(s.subrange(0, 8));
    lemma_le_bytes_of_value(s.subrange(8, 16));
    lemma_le_bytes_of_value(s.subrange(16, 24));
    lemma_le_bytes_of_value(s.subrange(24, 32));
    lemma_le_bytes_of_value(s.subrange(32, 40));
    lemma_le_bytes_of_value(s.subrange(40, 48));
    lemma_le_bytes_of_value(s.subrange(48, 56));
}

/// A section of a file is read whole, or not at all: an offset that no file can be read at
/// fails, and so does a section that the file ends within.
pub proof fn law_section_is_read(file: Seq<u8>, offset: u64, len: u64)
    ensures
        offset > i64::MAX ==> section(file, offset, len) == Err::<Seq<u8>, StoreError>(
            StoreError::BadOffset,
        ),
        offset <= i64::MAX && len == 0 ==> section(file, offset, len) == Ok::<Seq<u8>, StoreError>(
            Seq::empty(),
        ),
        offset <= i64::MAX && len > 0 && offset + len > file.len() ==> section(file, offset, len)
            == Err::<Seq<u8>, StoreError>(StoreError::UnexpectedEof),
        offset <= i64::MAX && len > 0 && offset + len <= file.len() ==> section(file, offset, len)
            == Ok::<Seq<u8>, StoreError>(file.subrange(offset as int, offset + len)),
{
}

/// What an open table knows comes from its file: the footer is its last 56 bytes, the index
/// and the filter are what the sections decode to that the footer tells of, and the largest
/// sequence number and the kind are the footer's. A file that is too short for a footer, or
/// does not carry the magic number, is no table.
pub proof fn law_how_a_file_opens(file: Seq<u8>)
    ensures
        file.len() < 56 ==> opened(file) == Err::<TableView, StoreError>(
            StoreError::TableTooSmall,
        ),
        file.len() >= 56 ==> {
            let foot = file.skip(file.len() - 56);
            &&& footer_of(foot) is Err ==> opened(file) == Err::<TableView, StoreError>(
                StoreError::BadMagic,
            )
            &&& footer_of(foot) matches Ok(f) ==> {
                let index = section(file, f.index_offset, f.index_len);
                let filter = section(file, f.bloom_offset, f.bloom_len);
                &&& index matches Err(error) ==> opened(file) == Err::<TableView, StoreError>(error)
                &&& index is Ok && index_of(index->Ok_0) is None ==> opened(file) == Err::<
                    TableView,
                    StoreError,
                >(StoreError::Corrupt)
                &&& index is Ok && index_of(index->Ok_0) is Some && filter is Err ==> opened(file)
                    == Err::<TableView, StoreError>(filter->Err_0)
                &&& index is Ok && index_of(index->Ok_0) is Some && filter is Ok && filter_of(
                    filter->Ok_0,
                ) is None ==> opened(file) == Err::<TableView, StoreError>(StoreError::Corrupt)
                &&& index is Ok && index_of(index->Ok_0) is Some && filter is Ok && filter_of(
                    filter->Ok_0,
                ) is Some ==> {
                    &&& opened(file) matches Ok(table)
                    &&& table.index == index_of(index->Ok_0)->Some_0
                    &&& filter_of(filter->Ok_0) == Some(
                        (table.filter.bits, table.filter.num_bits, table.filter.k),
                    )
                    &&& table.data_end == f.index_offset
                    &&& table.max_seq == f.max_seq
                    &&& table.superseding == (f.kind == 1)
                }
            }
        },
{
    if file.len() >= 56 {
        law_footer_is_read(file.skip(file.len() - 56));
    }
}

/// What stands in a table file, from the first byte to the last: the records, the index, the
/// filter, and the footer that tells where they are, with nothing between them.
pub proof fn law_table_layout(
    file: Seq<u8>,
    entries: Seq<EntryView>,
    num_bits: u64,
    k: u32,
    kind: u64,
)
    requires
        is_table_file(file, entries, num_bits, k, kind),
    ensures
        exists|bits: Seq<u8>|
            #![trigger filter_enc(bits, num_bits, k)]
            {
                let data = records_enc(entries);
                let index = index_enc(sparse_index(entries));
                let filter = filter_enc(bits, num_bits, k);
                &&& bits.len() == (num_bits + 7) / 8
                &&& file == data + index + filter + footer_enc(
                    (Footer {
                        index_offset: data.len() as u64,
                        index_len: index.len() as u64,
                        bloom_offset: (data.len() + index.len()) as u64,
                        bloom_len: filter.len() as u64,
                        max_seq: max_seq_of(entries),
                        kind,
                    }),
                )
            },
{
    let filter = choose|filter: BloomView|
        #![trigger table_image(entries, filter, kind)]
        filter_over(filter, entries, num_bits, k) && file == table_image(entries, filter, kind);
    assert(filter_enc(filter.bits, num_bits, k) == filter_enc(
        filter.bits,
        filter.num_bits,
        filter.k,
    ));
}

// A table file that was put together from a run serves that run.

/// A footer is read back as it was written.
pub proof fn law_footer_round_trip(f: Footer)
    ensures
        footer_enc(f).len() == FOOTER_SIZE,
        footer_of(footer_enc(f)) == Ok::<Footer, StoreError>(f),
{
    let s = footer_enc(f);
    let fields = seq![
        f.index_offset,
        f.index_len,
        f.bloom_offset,
        f.bloom_len,
        f.max_seq,
        f.kind,
        MAGIC,
    ];
    lemma_le_limits();
    assert forall|i: int| 0 <= i < 7 implies #[trigger] le_bytes(fields[i] as nat, 8).len() == 8
        && le_value(le_bytes(fields[i] as nat, 8)) == fields[i] by {
        lemma_le_bytes_len(fields[i] as nat, 8);
        lemma_le_value_of_bytes(fields[i] as nat, 8);
    }
    assert(s.subrange(0, 8) =~= le_bytes(fields[0] as nat, 8));
    assert(s.subrange(8, 16) =~= le_bytes(fields[1] as nat, 8));
    assert(s.subrange(16, 24) =~= le_bytes(fields[2] as nat, 8));
    assert(s.subrange(24, 32) =~= le_bytes(fields[3] as nat, 8));
    assert(s.subrange(32, 40) =~= le_bytes(fields[4] as nat, 8));
    assert(s.subrange(40, 48) =~= le_bytes(fields[5] as nat, 8));
    assert(s.subrange(48, 56) =~= le_bytes(fields[6] as nat, 8));
}

proof fn lemma_sparse_index(entries: Seq<EntryView>, b: int)
    ensures
        sparse_index(entries).len() == (entries.len() + 15) / 16,
        0 <= b < sparse_index(entries).len() ==> sparse_index(entries)[b] == (
            entries[16 * b].key,
            record_offset(entries, 16 * b) as u64,
        ),
    decreases entries.len(),
{
    if entries.len() > 0 {
        let front = entries.drop_last();
        let m = front.len() as int;
        lemma_sparse_index(front, b);
        if m % 16 == 0 {
            assert(m == 16 * (m / 16));
            if b == m / 16 {
                assert(entries.take(m) =~= front);
            } else if 0 <= b < sparse_index(front).len() {
                assert(entries.take(16 * b) =~= front.take(16 * b));
            }
        } else if 0 <= b < sparse_index(front).len() {
            assert(entries.take(16 * b) =~= front.take(16 * b));
        }
    }
}

/// The sparse index over a run is in key order.
pub proof fn lemma_sparse_index_sorted(entries: Seq<EntryView>)
    requires
        is_run(entries),
    ensures
        ascending(index_keys(sparse_index(entries))),
{
    let keys = index_keys(sparse_index(entries));
    assert forall|i: int, j: int| 0 <= i < j < keys.len() implies key_lt(
        #[trigger] keys[i],
        #[trigger] keys[j],
    ) by {
        lemma_sparse_index(entries, i);
        lemma_sparse_index(entries, j);
        lemma_run_order(entries, 16 * i, 16 * j);
    }
}

/// A search of the `left` records from record `i` on, where the key is neither before
/// the first of them nor beyond the last, finds the key's entry.
proof fn lemma_searched_run(
    entries: Seq<EntryView>,
    tail: Seq<u8>,
    i: int,
    left: nat,
    key: Seq<u8>,
)
    requires
        is_run(entries),
        all_fit(entries),
        0 <= i <= entries.len(),
        forall|j: int| 0 <= j < i ==> key_lt((#[trigger] entries[j]).key, key),
        i + left < entries.len() ==> key_lt(key, entries[i + left].key),
    ensures
        searched(
            records_enc(entries) + tail,
            record_offset(entries, i),
            record_offset(entries, i),
            records_enc(entries).len(),
            left,
            key,
        ) == Ok::<Option<EntryView>, StoreError>(latest(entries, key)),
    decreases left,
{
    lemma_key_lt_irreflexive(key);
    if i == entries.len() {
        assert(entries.take(i) =~= entries);
        lemma_latest_none(entries, key);
    } else {
        let e = entries[i];
        lemma_record_at_offset(entries, tail, i);
        if e.key == key {
            lemma_latest_in_run(entries, i);
        } else if key_lt(key, e.key) {
            assert forall|j: int| 0 <= j < entries.len() implies (#[trigger] entries[j]).key
                != key by {
                if j > i {
                    lemma_run_order(entries, i, j);
                    lemma_key_lt_transitive(key, e.key, entries[j].key);
                }
            }
            lemma_latest_none(entries, key);
        } else {
            lemma_key_lt_total(e.key, key);
            lemma_searched_run(entries, tail, i + 1, (left - 1) as nat, key);
        }
    }
}

proof fn lemma_scanned_run(entries: Seq<EntryView>, tail: Seq<u8>, i: int)
    requires
        all_fit(entries),
        0 <= i <= entries.len(),
    ensures
        scanned(
            records_enc(entries) + tail,
            record_offset(entries, i),
            record_offset(entries, i),
            records_enc(entries).len(),
        ) == Ok::<Seq<EntryView>, StoreError>(entries.skip(i)),
    decreases entries.len() - i,
{
    if i == entries.len() {
        assert(entries.take(i) =~= entries);
        assert(entries.skip(i) =~= Seq::empty());
    } else {
        lemma_record_at_offset(entries, tail, i);
        lemma_scanned_run(entries, tail, i + 1);
        assert(seq![entries[i]] + entries.skip(i + 1) =~= entries.skip(i));
    }
}

/// `table` and `file` are what became of writing `entries` out as a table: the
/// data section holds them, the index is over them, and the filter lets every one
/// of their keys through.
pub open spec fn serves(table: TableView, file: Seq<u8>, entries: Seq<EntryView>) -> bool {
    &&& is_run(entries)
    &&& all_fit(entries)
    &&& records_enc(entries).is_prefix_of(file)
    &&& table.wf()
    &&& table.index == sparse_index(entries)
    &&& table.data_end == records_enc(entries).len()
    &&& table.max_seq == max_seq_of(entries)
    &&& forall|i: int|
        0 <= i < entries.len() ==> table.filter.may_contain((#[trigger] entries[i]).key)
}

/// A table that was created from a run opens, and serves that run.
pub proof fn law_created_table_opens(
    entries: Seq<EntryView>,
    num_bits: u64,
    k: u32,
    kind: u64,
    file: Seq<u8>,
)
    requires
        is_run(entries),
        all_fit(entries),
        is_table_file(file, entries, num_bits, k, kind),
        0 < num_bits,
        file.len() <= MAX_OFFSET,
    ensures
        opened(file) is Ok,
        serves(opened(file)->Ok_0, file, entries),
        opened(file)->Ok_0.superseding == (kind == KIND_COMPACTION),
        opened(file)->Ok_0.filter.num_bits == num_bits,
        opened(file)->Ok_0.filter.k == k,
        opened(file)->Ok_0.filter.bits.len() == (num_bits + 7) / 8,
        opened(file)->Ok_0.filter.built_from(keys_of(entries)),
{
    let filter = choose|filter: BloomView|
        #![trigger table_image(entries, filter, kind)]
        filter_over(filter, entries, num_bits, k) && file == table_image(entries, filter, kind);
    let data = records_enc(entries);
    let index = sparse_index(entries);
    let ib = index_enc(index);
    let fb = filter_enc(filter.bits, filter.num_bits, filter.k);
    let f = table_footer(entries, filter, kind);
    let none = Seq::<u8>::empty();
    law_footer_round_trip(f);
    assert(file == data + ib + fb + footer_enc(f));
    assert(file.skip(file.len() - FOOTER_SIZE) =~= footer_enc(f));
    assert(f.index_offset == data.len());
    assert(f.index_len == ib.len());
    assert(f.bloom_offset == data.len() + ib.len());
    assert(f.bloom_len == fb.len());
    lemma_le_bytes_len(index.len(), 8);
    lemma_le_bytes_len(filter.bits.len(), 8);
    assert(file.subrange(data.len() as int, (data.len() + ib.len()) as int) =~= ib);
    assert(file.subrange(
        (data.len() + ib.len()) as int,
        (data.len() + ib.len() + fb.len()) as int,
    ) =~= fb);
    lemma_sparse_index(entries, 0);
    lemma_records_enc_room(entries, 0);
    assert(starts_with_index(ib, index)) by {
        assert forall|b: int| 0 <= b < index.len() implies (#[trigger] index[b]).0.len()
            <= u64::MAX by {
            lemma_sparse_index(entries, b);
            lemma_records_enc_room(entries, 16 * b);
        }
        assert(ib =~= ib.take(ib.len() as int));
    }
    lemma_index_of(ib, index);
    law_filter_survives_encoding(filter, none);
    assert(fb + none =~= fb);
    let table = opened(file)->Ok_0;
    assert(table.filter =~= filter);
    assert(data =~= file.take(data.len() as int));
    assert forall|i: int| 0 <= i < entries.len() implies table.filter.may_contain(
        (#[trigger] entries[i]).key,
    ) by {
        law_no_false_negatives(filter, keys_of(entries), i);
        assert(keys_of(entries)[i] == entries[i].key);
    }
}

proof fn lemma_floor_cases(index: Seq<(Seq<u8>, u64)>, key: Seq<u8>)
    ensures
        -1 <= floor_slot(index, key) < index.len(),
        0 <= floor_slot(index, key) ==> !key_lt(key, index[floor_slot(index, key)].0),
        forall|b: int|
            floor_slot(index, key) < b < index.len() ==> key_lt(key, (#[trigger] index[b]).0),
    decreases index.len(),
{
    if index.len() > 0 && key_lt(key, index.last().0) {
        let front = index.drop_last();
        lemma_floor_cases(front, key);
        assert forall|b: int| floor_slot(index, key) < b < index.len() implies key_lt(
            key,
            (#[trigger] index[b]).0,
        ) by {
            if b < front.len() {
                assert(front[b] == index[b]);
            }
        }
    }
}

/// A lookup starts at the last indexed key that is not beyond the one sought, where the
/// filter lets the key through, and nowhere where every indexed key is beyond it.
pub proof fn law_lookup_starts_at_the_floor(table: TableView, key: Seq<u8>, slot: int)
    requires
        0 <= slot < table.index.len(),
        !key_lt(key, table.index[slot].0),
        forall|b: int| slot < b < table.index.len() ==> key_lt(key, (#[trigger] table.index[b]).0),
    ensures
        !table.filter.may_contain(key) ==> table.start_of(key) is None,
        table.filter.may_contain(key) && table.index[slot].1 < table.data_end ==> table.start_of(
            key,
        ) == Some(table.index[slot].1),
        table.index[slot].1 >= table.data_end ==> table.start_of(key) is None,
{
    lemma_floor_at(table.index, key, slot);
}

/// How a lookup goes from record to record: it ends at the one sought, at one beyond it, at
/// the end of the data, or where no more may be read, and fails where a record cannot be
/// read; otherwise it goes on behind the record.
pub proof fn law_lookup_goes_record_by_record(
    file: Seq<u8>,
    at: nat,
    pos: nat,
    end: nat,
    left: nat,
    key: Seq<u8>,
)
    ensures
        pos >= end || left == 0 ==> searched(file, at, pos, end, left, key) == Ok::<
            Option<EntryView>,
            StoreError,
        >(None),
        pos < end && left > 0 ==> {
            &&& record_at(file, at) matches Err(error) ==> searched(file, at, pos, end, left, key)
                == Err::<Option<EntryView>, StoreError>(error)
            &&& record_at(file, at) matches Ok((e, size)) ==> {
                &&& e.key == key ==> searched(file, at, pos, end, left, key) == Ok::<
                    Option<EntryView>,
                    StoreError,
                >(Some(e))
                &&& key_lt(key, e.key) ==> searched(file, at, pos, end, left, key) == Ok::<
                    Option<EntryView>,
                    StoreError,
                >(None)
                &&& key_lt(e.key, key) ==> searched(file, at, pos, end, left, key) == searched(
                    file,
                    at + size,
                    pos + 32 + e.key.len() + e.value.len(),
                    end,
                    (left - 1) as nat,
                    key,
                )
            }
        },
{
    lemma_key_lt_irreflexive(key);
    if record_at(file, at) is Ok {
        let (e, size) = record_at(file, at)->Ok_0;
        lemma_record_enc_len(e);
        if key_lt(e.key, key) {
            lemma_key_lt_asymmetric(e.key, key);
        }
    }
}

proof fn lemma_searched_key(
    file: Seq<u8>,
    at: nat,
    pos: nat,
    end: nat,
    left: nat,
    key: Seq<u8>,
)
    ensures
        searched(file, at, pos, end, left, key) matches Ok(Some(e)) ==> e.key == key,
    decreases left,
{
    if pos < end && left > 0 && record_at(file, at) is Ok {
        let (e, size) = record_at(file, at)->Ok_0;
        lemma_searched_key(file, at + size, pos + record_enc(e).len(), end, (left - 1) as nat, key);
    }
}

/// A lookup in a table never yields the entry of another key, not even where the table is
/// damaged.
pub proof fn law_table_finds_no_other_key(
    table: TableView,
    file: Seq<u8>,
    key: Seq<u8>,
    e: EntryView,
)
    ensures
        table.may_find(file, key, Ok::<Option<EntryView>, StoreError>(Some(e))) ==> e.key == key,
        table.lookup(file, key) == Ok::<Option<EntryView>, StoreError>(Some(e)) ==> e.key == key,
{
    let found = Ok::<Option<EntryView>, StoreError>(Some(e));
    assert forall|start: Option<u64>| table.lookup_from(file, start, key)
        == found implies e.key == key by {
        if start is Some {
            let at = start->Some_0 as nat;
            lemma_searched_key(file, at, at, table.data_end as nat, INDEX_INTERVAL as nat, key);
        }
    }
}

/// How a scan goes from record to record: every one up to the end of the data is yielded, and
/// the scan fails where one cannot be read.
pub proof fn law_scan_goes_record_by_record(file: Seq<u8>, at: nat, pos: nat, end: nat)
    ensures
        pos >= end ==> scanned(file, at, pos, end) == Ok::<Seq<EntryView>, StoreError>(Seq::empty()),
        pos < end ==> {
            &&& record_at(file, at) matches Err(error) ==> scanned(file, at, pos, end) == Err::<
                Seq<EntryView>,
                StoreError,
            >(error)
            &&& record_at(file, at) matches Ok((e, size)) ==> {
                let rest = scanned(
                    file,
                    at + size,
                    pos + 32 + e.key.len() + e.value.len(),
                    end,
                );
                &&& rest matches Ok(more) ==> scanned(file, at, pos, end) == Ok::<
                    Seq<EntryView>,
                    StoreError,
                >(seq![e] + more)
                &&& rest matches Err(error) ==> scanned(file, at, pos, end) == Err::<
                    Seq<EntryView>,
                    StoreError,
                >(error)
            }
        },
{
    if record_at(file, at) is Ok {
        let (e, size) = record_at(file, at)->Ok_0;
        lemma_record_enc_len(e);
        lemma_first_record_size(file.skip(at as int));
    }
}

/// A scan begins with the first record, and covers the whole data section; a lookup reads
/// from where it starts, no further than the data section, and at most 16 records.
pub proof fn law_reach_of_scan_and_lookup(
    table: TableView,
    file: Seq<u8>,
    key: Seq<u8>,
    start: Option<u64>,
)
    ensures
        table.scan(file) == scanned(file, 0, 0, table.data_end as nat),
        start is None ==> table.lookup_from(file, start, key) == Ok::<Option<EntryView>, StoreError>(
            None,
        ),
        start matches Some(at) ==> table.lookup_from(file, start, key) == searched(
            file,
            at as nat,
            at as nat,
            table.data_end as nat,
            16,
            key,
        ),
        table.lookup(file, key) == table.lookup_from(file, table.start_of(key), key),
        table.index_sorted() ==> (table.may_start(key, start) <==> start == table.start_of(key)),
{
}

/// A lookup in a table that serves a run finds the run's entry with that key, and
/// nothing where there is none. Its filter can be asked for any key.
pub proof fn law_lookup_finds_the_entry(
    table: TableView,
    file: Seq<u8>,
    entries: Seq<EntryView>,
    key: Seq<u8>,
)
    requires
        serves(table, file, entries),
    ensures
        table.filter.askable(key),
        table.index_sorted(),
        table.lookup(file, key) == Ok::<Option<EntryView>, StoreError>(latest(entries, key)),
{
    let data = records_enc(entries);
    let tail = file.skip(data.len() as int);
    let index = table.index;
    let slot = floor_slot(index, key);
    assert(file =~= data + tail);
    table.filter.lemma_wf(key);
    lemma_sparse_index_sorted(entries);
    lemma_latest_is_there(entries, key);
    lemma_key_lt_irreflexive(key);
    lemma_floor_cases(index, key);
    if !table.filter.may_contain(key) {
        if latest(entries, key) is Some {
            let e = latest(entries, key)->Some_0;
            let i = choose|i: int| 0 <= i < entries.len() && #[trigger] entries[i] == e;
            assert(table.filter.may_contain(entries[i].key));
        }
    } else if slot < 0 {
        if entries.len() > 0 {
            lemma_sparse_index(entries, 0);
            assert(key_lt(key, index[0].0));
            assert forall|j: int| 0 <= j < entries.len() implies (#[trigger] entries[j]).key
                != key by {
                if j > 0 {
                    lemma_run_order(entries, 0, j);
                    lemma_key_lt_transitive(key, entries[0].key, entries[j].key);
                }
            }
            lemma_latest_none(entries, key);
        }
    } else {
        let i = 16 * slot;
        lemma_sparse_index(entries, slot);
        lemma_sparse_index(entries, slot + 1);
        lemma_record_at_offset(entries, tail, i);
        assert forall|j: int| 0 <= j < i implies key_lt((#[trigger] entries[j]).key, key) by {
            lemma_run_order(entries, j, i);
            lemma_key_lt_total(entries[i].key, key);
            if entries[i].key != key {
                lemma_key_lt_transitive(entries[j].key, entries[i].key, key);
            }
        }
        if i + 16 < entries.len() {
            assert(key_lt(key, index[slot + 1].0));
        }
        lemma_searched_run(entries, tail, i, 16, key);
    }
}

/// A lookup of any key, in any table and wherever it starts, reads at most one block: no
/// more than `INDEX_INTERVAL` records, and none at all where the filter rejects the key.
pub proof fn law_lookup_reads_one_block(
    table: TableView,
    file: Seq<u8>,
    key: Seq<u8>,
    start: Option<u64>,
)
    requires
        table.may_start(key, start),
    ensures
        !table.filter.may_contain(key) ==> start is None,
        start matches Some(at) ==> records_read(
            file,
            at as nat,
            at as nat,
            table.data_end as nat,
            INDEX_INTERVAL as nat,
            key,
        ) <= INDEX_INTERVAL,
{
    if start is Some {
        let at = start->Some_0 as nat;
        lemma_reads_bounded(file, at, at, table.data_end as nat, INDEX_INTERVAL as nat, key);
    }
}

proof fn lemma_reads_bounded(
    file: Seq<u8>,
    at: nat,
    pos: nat,
    end: nat,
    left: nat,
    key: Seq<u8>,
)
    ensures
        records_read(file, at, pos, end, left, key) <= left,
    decreases left,
{
    if pos < end && left > 0 && record_at(file, at) is Ok {
        let (e, size) = record_at(file, at)->Ok_0;
        lemma_reads_bounded(
            file,
            at + size,
            pos + record_enc(e).len(),
            end,
            (left - 1) as nat,
            key,
        );
    }
}

/// A lookup of a key that the table holds starts at an indexed record from which on the
/// key's record is among the `INDEX_INTERVAL` that may be read.
pub proof fn law_lookup_starts_in_the_block(
    table: TableView,
    file: Seq<u8>,
    entries: Seq<EntryView>,
    i: int,
)
    requires
        serves(table, file, entries),
        0 <= i < entries.len(),
    ensures
        table.start_of(entries[i].key) == Some(
            record_offset(entries, i - i % INDEX_INTERVAL as int) as u64,
        ),
{
    let key = entries[i].key;
    let index = table.index;
    let b = i / 16;
    let first = 16 * b;
    let tail = file.skip(records_enc(entries).len() as int);
    lemma_sparse_index(entries, b);
    lemma_key_lt_irreflexive(key);
    if first < i {
        lemma_run_order(entries, first, i);
        lemma_key_lt_asymmetric(entries[first].key, key);
    }
    assert forall|j: int| b < j < index.len() implies key_lt(key, (#[trigger] index[j]).0) by {
        lemma_sparse_index(entries, j);
        lemma_run_order(entries, i, 16 * j);
    }
    lemma_floor_at(index, key, b);
    lemma_record_at_offset(entries, tail, first);
    assert(table.filter.may_contain(entries[i].key));
}

/// A scan of a table that serves a run yields the run.
pub proof fn law_scan_returns_the_run(table: TableView, file: Seq<u8>, entries: Seq<EntryView>)
    requires
        serves(table, file, entries),
    ensures
        table.scan(file) == Ok::<Seq<EntryView>, StoreError>(entries),
{
    let data = records_enc(entries);
    let tail = file.skip(data.len() as int);
    assert(file =~= data + tail);
    lemma_scanned_run(entries, tail, 0);
    assert(entries.take(0) =~= Seq::<EntryView>::empty());
    assert(entries.skip(0) =~= entries);
}

} // verus!
