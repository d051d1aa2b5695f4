//! How records, indexes and filters become bytes.
//!
//! The encoding is bincode's default one: integers are little-endian and of
//! fixed width, a sequence is its length in eight bytes followed by its items,
//! and a tuple is its fields one after the other.
use crate::api::{Entry, EntryKind, EntryView};
use crate::error::StoreError;
use crate::le::{
    law_number_round_trip, le_bytes, le_limit, le_value, lemma_le_bytes_len, lemma_le_injective,
    lemma_le_limits,
};
use vstd::prelude::*;

verus! {

/// Encoding of a byte string: its length, then its bytes.
pub open spec fn bytes_enc(s: Seq<u8>) -> Seq<u8> {
    le_bytes(s.len(), 8) + s
}

/// Encoding of a record's four fields.
pub open spec fn fields_enc(key: Seq<u8>, value: Seq<u8>, tag: u32, seq: u64) -> Seq<u8> {
    bytes_enc(key) + (bytes_enc(value) + (le_bytes(tag as nat, 4) + le_bytes(seq as nat, 8)))
}

/// Encoding of the slots of a sparse index, without their count.
pub open spec fn slots_enc(index: Seq<(Seq<u8>, u64)>) -> Seq<u8>
    decreases index.len(),
{
    if index.len() == 0 {
        Seq::empty()
    } else {
        bytes_enc(index[0].0) + (le_bytes(index[0].1 as nat, 8) + slots_enc(index.skip(1)))
    }
}

/// Encoding of a sparse index.
pub open spec fn index_enc(index: Seq<(Seq<u8>, u64)>) -> Seq<u8> {
    le_bytes(index.len(), 8) + slots_enc(index)
}

/// Encoding of a filter's three fields.
pub open spec fn filter_enc(bits: Seq<u8>, num_bits: u64, k: u32) -> Seq<u8> {
    bytes_enc(bits) + (le_bytes(num_bits as nat, 8) + le_bytes(k as nat, 4))
}

/// The contents of an index held in memory.
pub open spec fn index_view(index: Seq<(Vec<u8>, u64)>) -> Seq<(Seq<u8>, u64)> {
    index.map_values(|slot: (Vec<u8>, u64)| (slot.0@, slot.1))
}

/// `s` begins with the encoding of these four fields.
pub open spec fn starts_with_fields(
    s: Seq<u8>,
    key: Seq<u8>,
    value: Seq<u8>,
    tag: u32,
    seq: u64,
) -> bool {
    &&& key.len() <= u64::MAX
    &&& value.len() <= u64::MAX
    &&& fields_enc(key, value, tag, seq).is_prefix_of(s)
}

/// `s` begins with the encoding of this index.
pub open spec fn starts_with_index(s: Seq<u8>, index: Seq<(Seq<u8>, u64)>) -> bool {
    &&& index.len() <= u64::MAX
    &&& forall|i: int| 0 <= i < index.len() ==> (#[trigger] index[i]).0.len() <= u64::MAX
    &&& index_enc(index).is_prefix_of(s)
}

/// `s` begins with the encoding of these three fields.
pub open spec fn starts_with_filter(s: Seq<u8>, bits: Seq<u8>, num_bits: u64, k: u32) -> bool {
    &&& bits.len() <= u64::MAX
    &&& filter_enc(bits, num_bits, k).is_prefix_of(s)
}

/// The error type of bincode's functions, carried but never looked into.
#[verifier::external_type_specification]
#[verifier::external_body]
pub struct ExBincodeErrorKind(bincode::ErrorKind);

/// `bincode::serialize` on a record's fields. Claimed: it succeeds, and yields
/// the fields' encoding, if a vector can be that long.
#[verifier::external_body]
fn serialize_fields(key: &Vec<u8>, value: &Vec<u8>, tag: u32, seq: u64) -> (r: Result<
    Vec<u8>,
    Box<bincode::ErrorKind>,
>)
    requires
        fields_enc(key@, value@, tag, seq).len() <= usize::MAX,
    ensures
        r is Ok,
        r->Ok_0@ == fields_enc(key@, value@, tag, seq),
{
    bincode::serialize(&(key, value, tag, seq))
}

/// `bincode::serialized_size` on a record's fields. Claimed: it succeeds, and
/// yields the length of the fields' encoding.
#[verifier::external_body]
fn serialized_size_of_fields(key: &Vec<u8>, value: &Vec<u8>, tag: u32, seq: u64) -> (r: Result<
    u64,
    Box<bincode::ErrorKind>,
>)
    requires
        fields_enc(key@, value@, tag, seq).len() <= u64::MAX,
    ensures
        r is Ok,
        r->Ok_0 == fields_enc(key@, value@, tag, seq).len(),
{
    bincode::serialized_size(&(key, value, tag, seq))
}

/// `bincode::deserialize` to a record's fields. Claimed: it yields the fields
/// whose encoding the bytes begin with, what follows being ignored, and fails
/// exactly where there are none.
#[verifier::external_body]
fn deserialize_fields(bytes: &[u8]) -> (r: Result<
    (Vec<u8>, Vec<u8>, u32, u64),
    Box<bincode::ErrorKind>,
>)
    ensures
        r matches Ok(f) ==> starts_with_fields(bytes@, f.0@, f.1@, f.2, f.3),
        r is Err ==> forall|key: Seq<u8>, value: Seq<u8>, tag: u32, seq: u64|
            !#[trigger] starts_with_fields(bytes@, key, value, tag, seq),
{
    bincode::deserialize(bytes)
}

/// `bincode::serialize` on a sparse index. Claimed: it succeeds, and yields the
/// index's encoding, if a vector can be that long.
#[verifier::external_body]
fn serialize_index(index: &Vec<(Vec<u8>, u64)>) -> (r: Result<Vec<u8>, Box<bincode::ErrorKind>>)
    requires
        index_enc(index_view(index@)).len() <= usize::MAX,
    ensures
        r is Ok,
        r->Ok_0@ == index_enc(index_view(index@)),
{
    bincode::serialize(index)
}

/// `bincode::deserialize` to a sparse index. Claimed: it yields the index whose
/// encoding the bytes begin with, what follows being ignored, and fails exactly
/// where there is none.
#[verifier::external_body]
fn deserialize_index(bytes: &[u8]) -> (r: Result<Vec<(Vec<u8>, u64)>, Box<bincode::ErrorKind>>)
    ensures
        r matches Ok(index) ==> starts_with_index(bytes@, index_view(index@)),
        r is Err ==> forall|index: Seq<(Seq<u8>, u64)>|
            !#[trigger] starts_with_index(bytes@, index),
{
    bincode::deserialize(bytes)
}

/// `bincode::serialize` on a filter's fields. Claimed: it succeeds, and yields
/// the fields' encoding, if a vector can be that long.
#[verifier::external_body]
fn serialize_filter(bits: &Vec<u8>, num_bits: u64, k: u32) -> (r: Result<
    Vec<u8>,
    Box<bincode::ErrorKind>,
>)
    requires
        filter_enc(bits@, num_bits, k).len() <= usize::MAX,
    ensures
        r is Ok,
        r->Ok_0@ == filter_enc(bits@, num_bits, k),
{
    bincode::serialize(&(bits, num_bits, k))
}

/// `bincode::deserialize` to a filter's fields. Claimed: it yields the fields
/// whose encoding the bytes begin with, what follows being ignored, and fails
/// exactly where there are none.
#[verifier::external_body]
fn deserialize_filter(bytes: &[u8]) -> (r: Result<(Vec<u8>, u64, u32), Box<bincode::ErrorKind>>)
    ensures
        r matches Ok(f) ==> starts_with_filter(bytes@, f.0@, f.1, f.2),
        r is Err ==> forall|bits: Seq<u8>, num_bits: u64, k: u32|
            !#[trigger] starts_with_filter(bytes@, bits, num_bits, k),
{
    bincode::deserialize(bytes)
}

// The encodings are prefix-free, so a decoded value is the only one.

proof fn lemma_prefix_split(a: Seq<u8>, b: Seq<u8>, s: Seq<u8>)
    requires
        (a + b).is_prefix_of(s),
    ensures
        a.len() <= s.len(),
        a == s.take(a.len() as int),
        b.is_prefix_of(s.skip(a.len() as int)),
{
    assert(a =~= (a + b).take(a.len() as int));
    assert(a =~= s.take(a.len() as int));
    let t = s.skip(a.len() as int);
    assert forall|i: int| 0 <= i < b.len() implies b[i] == t[i] by {
        assert(b[i] == (a + b)[a.len() + i]);
        assert((a + b)[a.len() + i] == s.take((a + b).len() as int)[a.len() + i]);
    }
    assert(b =~= t.take(b.len() as int));
}

proof fn lemma_number_prefix(x: nat, y: nat, width: nat, a: Seq<u8>, b: Seq<u8>, s: Seq<u8>)
    requires
        x < le_limit(width),
        y < le_limit(width),
        (le_bytes(x, width) + a).is_prefix_of(s),
        (le_bytes(y, width) + b).is_prefix_of(s),
    ensures
        x == y,
        width <= s.len(),
        a.is_prefix_of(s.skip(width as int)),
        b.is_prefix_of(s.skip(width as int)),
{
    lemma_le_bytes_len(x, width);
    lemma_le_bytes_len(y, width);
    lemma_prefix_split(le_bytes(x, width), a, s);
    lemma_prefix_split(le_bytes(y, width), b, s);
    lemma_le_injective(x, y, width);
}

proof fn lemma_bytes_prefix(x: Seq<u8>, y: Seq<u8>, a: Seq<u8>, b: Seq<u8>, s: Seq<u8>)
    requires
        x.len() <= u64::MAX,
        y.len() <= u64::MAX,
        (bytes_enc(x) + a).is_prefix_of(s),
        (bytes_enc(y) + b).is_prefix_of(s),
    ensures
        x == y,
        a.is_prefix_of(s.skip(8 + x.len() as int)),
        b.is_prefix_of(s.skip(8 + x.len() as int)),
{
    lemma_le_limits();
    assert(bytes_enc(x) + a =~= le_bytes(x.len(), 8) + (x + a));
    assert(bytes_enc(y) + b =~= le_bytes(y.len(), 8) + (y + b));
    lemma_number_prefix(x.len(), y.len(), 8, x + a, y + b, s);
    lemma_prefix_split(x, a, s.skip(8));
    lemma_prefix_split(y, b, s.skip(8));
    assert(s.skip(8).skip(x.len() as int) =~= s.skip(8 + x.len() as int));
}

/// At most one set of fields is at the beginning of a byte string.
pub proof fn lemma_fields_unique(
    s: Seq<u8>,
    key1: Seq<u8>,
    value1: Seq<u8>,
    tag1: u32,
    seq1: u64,
    key2: Seq<u8>,
    value2: Seq<u8>,
    tag2: u32,
    seq2: u64,
)
    requires
        starts_with_fields(s, key1, value1, tag1, seq1),
        starts_with_fields(s, key2, value2, tag2, seq2),
    ensures
        key1 == key2,
        value1 == value2,
        tag1 == tag2,
        seq1 == seq2,
{
    lemma_le_limits();
    let c1 = le_bytes(seq1 as nat, 8);
    let c2 = le_bytes(seq2 as nat, 8);
    let b1 = le_bytes(tag1 as nat, 4) + c1;
    let b2 = le_bytes(tag2 as nat, 4) + c2;
    let a1 = bytes_enc(value1) + b1;
    let a2 = bytes_enc(value2) + b2;
    lemma_bytes_prefix(key1, key2, a1, a2, s);
    let s1 = s.skip(8 + key1.len() as int);
    lemma_bytes_prefix(value1, value2, b1, b2, s1);
    let s2 = s1.skip(8 + value1.len() as int);
    lemma_number_prefix(tag1 as nat, tag2 as nat, 4, c1, c2, s2);
    let s3 = s2.skip(4);
    let e = Seq::<u8>::empty();
    assert(c1 + e =~= c1);
    assert(c2 + e =~= c2);
    lemma_number_prefix(seq1 as nat, seq2 as nat, 8, e, e, s3);
}

proof fn lemma_slots_unique(s: Seq<u8>, x: Seq<(Seq<u8>, u64)>, y: Seq<(Seq<u8>, u64)>)
    requires
        x.len() == y.len(),
        forall|i: int| 0 <= i < x.len() ==> (#[trigger] x[i]).0.len() <= u64::MAX,
        forall|i: int| 0 <= i < y.len() ==> (#[trigger] y[i]).0.len() <= u64::MAX,
        slots_enc(x).is_prefix_of(s),
        slots_enc(y).is_prefix_of(s),
    ensures
        x == y,
    decreases x.len(),
{
    if x.len() > 0 {
        lemma_le_limits();
        let x1 = x.skip(1);
        let y1 = y.skip(1);
        let a = le_bytes(x[0].1 as nat, 8) + slots_enc(x1);
        let b = le_bytes(y[0].1 as nat, 8) + slots_enc(y1);
        lemma_bytes_prefix(x[0].0, y[0].0, a, b, s);
        let s1 = s.skip(8 + x[0].0.len() as int);
        lemma_number_prefix(x[0].1 as nat, y[0].1 as nat, 8, slots_enc(x1), slots_enc(y1), s1);
        lemma_slots_unique(s1.skip(8), x1, y1);
        assert(x =~= seq![x[0]] + x1);
        assert(y =~= seq![y[0]] + y1);
    } else {
        assert(x =~= y);
    }
}

/// At most one index is at the beginning of a byte string.
pub proof fn lemma_index_unique(s: Seq<u8>, x: Seq<(Seq<u8>, u64)>, y: Seq<(Seq<u8>, u64)>)
    requires
        starts_with_index(s, x),
        starts_with_index(s, y),
    ensures
        x == y,
{
    lemma_le_limits();
    lemma_number_prefix(x.len(), y.len(), 8, slots_enc(x), slots_enc(y), s);
    lemma_slots_unique(s.skip(8), x, y);
}

/// At most one set of filter fields is at the beginning of a byte string.
pub proof fn lemma_filter_unique(
    s: Seq<u8>,
    bits1: Seq<u8>,
    num_bits1: u64,
    k1: u32,
    bits2: Seq<u8>,
    num_bits2: u64,
    k2: u32,
)
    requires
        starts_with_filter(s, bits1, num_bits1, k1),
        starts_with_filter(s, bits2, num_bits2, k2),
    ensures
        bits1 == bits2,
        num_bits1 == num_bits2,
        k1 == k2,
{
    lemma_le_limits();
    let b1 = le_bytes(k1 as nat, 4);
    let b2 = le_bytes(k2 as nat, 4);
    let a1 = le_bytes(num_bits1 as nat, 8) + b1;
    let a2 = le_bytes(num_bits2 as nat, 8) + b2;
    lemma_bytes_prefix(bits1, bits2, a1, a2, s);
    let s1 = s.skip(8 + bits1.len() as int);
    lemma_number_prefix(num_bits1 as nat, num_bits2 as nat, 8, b1, b2, s1);
    let s2 = s1.skip(8);
    let e = Seq::<u8>::empty();
    assert(b1 + e =~= b1);
    assert(b2 + e =~= b2);
    lemma_number_prefix(k1 as nat, k2 as nat, 4, e, e, s2);
}

/// The number that stands for a kind in an encoded record.
pub open spec fn kind_tag(kind: EntryKind) -> u32 {
    match kind {
        EntryKind::Put => 0,
        EntryKind::Delete => 1,
    }
}

/// Encoding of an entry.
pub open spec fn entry_enc(e: EntryView) -> Seq<u8> {
    fields_enc(e.key, e.value, kind_tag(e.kind), e.seq)
}

/// `s` begins with the encoding of `e`.
pub open spec fn starts_with_entry(s: Seq<u8>, e: EntryView) -> bool {
    starts_with_fields(s, e.key, e.value, kind_tag(e.kind), e.seq)
}

/// The entry whose encoding `s` begins with, if there is one.
pub open spec fn entry_of(s: Seq<u8>) -> Option<EntryView> {
    if exists|e: EntryView| starts_with_entry(s, e) {
        Some(choose|e: EntryView| starts_with_entry(s, e))
    } else {
        None
    }
}

/// A byte string that begins with an entry's encoding decodes to that entry.
pub proof fn lemma_entry_of(s: Seq<u8>, e: EntryView)
    requires
        starts_with_entry(s, e),
    ensures
        entry_of(s) == Some(e),
{
    let d = entry_of(s)->Some_0;
    assert(starts_with_entry(s, d));
    lemma_fields_unique(
        s,
        e.key,
        e.value,
        kind_tag(e.kind),
        e.seq,
        d.key,
        d.value,
        kind_tag(d.kind),
        d.seq,
    );
    assert(e =~= d);
}

pub proof fn lemma_entry_enc_len(e: EntryView)
    ensures
        entry_enc(e).len() == 28 + e.key.len() + e.value.len(),
{
    lemma_le_bytes_len(e.key.len(), 8);
    lemma_le_bytes_len(e.value.len(), 8);
    lemma_le_bytes_len(kind_tag(e.kind) as nat, 4);
    lemma_le_bytes_len(e.seq as nat, 8);
}

/// What is encoded decodes to itself, whatever follows it.
pub proof fn lemma_entry_round_trip(e: EntryView, tail: Seq<u8>)
    requires
        e.key.len() <= u64::MAX,
        e.value.len() <= u64::MAX,
    ensures
        entry_of(entry_enc(e) + tail) == Some(e),
{
    let s = entry_enc(e) + tail;
    assert(entry_enc(e) =~= s.take(entry_enc(e).len() as int));
    lemma_entry_of(s, e);
}

/// Where the fields of an encoded entry stand: the key and the value, each whole and behind
/// its length, then the kind, 0 or 1, in four bytes, and the sequence number in eight.
pub proof fn law_entry_layout(e: EntryView)
    requires
        e.key.len() <= u64::MAX,
        e.value.len() <= u64::MAX,
    ensures
        ({
            let s = entry_enc(e);
            let k = e.key.len() as int;
            let v = e.value.len() as int;
            &&& s.len() == 28 + k + v
            &&& le_value(s.subrange(0, 8)) == k
            &&& s.subrange(8, 8 + k) == e.key
            &&& le_value(s.subrange(8 + k, 16 + k)) == v
            &&& s.subrange(16 + k, 16 + k + v) == e.value
            &&& le_value(s.subrange(16 + k + v, 20 + k + v)) == match e.kind {
                EntryKind::Put => 0nat,
                EntryKind::Delete => 1nat,
            }
            &&& le_value(s.subrange(20 + k + v, 28 + k + v)) == e.seq
        }),
{
    let s = entry_enc(e);
    let k = e.key.len() as int;
    let v = e.value.len() as int;
    lemma_entry_enc_len(e);
    law_number_round_trip(e.key.len());
    law_number_round_trip(e.value.len());
    law_number_round_trip(kind_tag(e.kind) as nat);
    law_number_round_trip(e.seq as nat);
    assert(s.subrange(0, 8) =~= le_bytes(e.key.len(), 8));
    assert(s.subrange(8, 8 + k) =~= e.key);
    assert(s.subrange(8 + k, 16 + k) =~= le_bytes(e.value.len(), 8));
    assert(s.subrange(16 + k, 16 + k + v) =~= e.value);
    assert(s.subrange(16 + k + v, 20 + k + v) =~= le_bytes(kind_tag(e.kind) as nat, 4));
    assert(s.subrange(20 + k + v, 28 + k + v) =~= le_bytes(e.seq as nat, 8));
}

/// Bytes decode to an entry exactly where they begin with its encoding: every entry that
/// was encoded comes back, with its key and its value whole, and no other does.
pub proof fn law_entry_round_trip(s: Seq<u8>, e: EntryView)
    requires
        e.key.len() <= u64::MAX,
        e.value.len() <= u64::MAX,
    ensures
        entry_of(s) == Some(e) <==> entry_enc(e).is_prefix_of(s),
        entry_of(entry_enc(e)) == Some(e),
{
    if entry_enc(e).is_prefix_of(s) {
        lemma_entry_of(s, e);
    }
    if entry_of(s) == Some(e) {
        assert(starts_with_entry(s, e));
    }
    assert(entry_enc(e) =~= entry_enc(e).take(entry_enc(e).len() as int));
    lemma_entry_of(entry_enc(e), e);
}

fn tag_of(kind: EntryKind) -> (r: u32)
    ensures
        r == kind_tag(kind),
{
    match kind {
        EntryKind::Put => 0,
        EntryKind::Delete => 1,
    }
}

/// Encodes an entry.
pub fn encode_entry(entry: &Entry) -> (r: Result<Vec<u8>, StoreError>)
    requires
        entry_enc(entry@).len() <= usize::MAX,
    ensures
        r is Ok,
        r->Ok_0@ == entry_enc(entry@),
{
    match serialize_fields(&entry.key, &entry.value, tag_of(entry.kind), entry.seq) {
        Ok(bytes) => Ok(bytes),
        Err(_) => Err(StoreError::Corrupt),
    }
}

/// The length of an entry's encoding.
pub fn encoded_len(entry: &Entry) -> (r: Result<u64, StoreError>)
    requires
        entry_enc(entry@).len() <= u64::MAX,
    ensures
        r is Ok,
        r->Ok_0 == entry_enc(entry@).len(),
        r->Ok_0 == 28 + entry.key@.len() + entry.value@.len(),
{
    proof {
        lemma_entry_enc_len(entry@);
    }
    match serialized_size_of_fields(&entry.key, &entry.value, tag_of(entry.kind), entry.seq) {
        Ok(len) => Ok(len),
        Err(_) => Err(StoreError::Corrupt),
    }
}

/// Decodes the entry that `bytes` begins with.
pub fn decode_entry(bytes: &[u8]) -> (r: Result<Entry, StoreError>)
    ensures
        r matches Ok(e) ==> entry_of(bytes@) == Some(e@),
        r matches Err(error) ==> error == StoreError::Corrupt && entry_of(bytes@) is None,
{
    match deserialize_fields(bytes) {
        Ok((key, value, tag, seq)) => {
            let kind = if tag == 0 {
                EntryKind::Put
            } else if tag == 1 {
                EntryKind::Delete
            } else {
                proof {
                    if entry_of(bytes@) is Some {
                        let e = entry_of(bytes@)->Some_0;
                        lemma_fields_unique(
                            bytes@,
                            key@,
                            value@,
                            tag,
                            seq,
                            e.key,
                            e.value,
                            kind_tag(e.kind),
                            e.seq,
                        );
                    }
                }
                return Err(StoreError::Corrupt);
            };
            let entry = Entry { key, value, kind, seq };
            proof {
                lemma_entry_of(bytes@, entry@);
            }
            Ok(entry)
        },
        Err(_) => Err(StoreError::Corrupt),
    }
}

/// The index whose encoding `s` begins with, if there is one.
pub open spec fn index_of(s: Seq<u8>) -> Option<Seq<(Seq<u8>, u64)>> {
    if exists|x: Seq<(Seq<u8>, u64)>| starts_with_index(s, x) {
        Some(choose|x: Seq<(Seq<u8>, u64)>| starts_with_index(s, x))
    } else {
        None
    }
}

/// A byte string that begins with an index's encoding decodes to that index.
pub proof fn lemma_index_of(s: Seq<u8>, x: Seq<(Seq<u8>, u64)>)
    requires
        starts_with_index(s, x),
    ensures
        index_of(s) == Some(x),
{
    lemma_index_unique(s, x, index_of(s)->Some_0);
}

/// How a slot at the end lengthens the encoding of an index's slots.
pub proof fn lemma_slots_enc_push(index: Seq<(Seq<u8>, u64)>, slot: (Seq<u8>, u64))
    ensures
        slots_enc(index.push(slot)).len() == slots_enc(index).len() + 16 + slot.0.len(),
    decreases index.len(),
{
    let more = index.push(slot);
    lemma_le_bytes_len(more[0].0.len(), 8);
    lemma_le_bytes_len(more[0].1 as nat, 8);
    if index.len() == 0 {
        assert(more.skip(1) =~= Seq::empty());
        assert(slots_enc(more.skip(1)).len() == 0);
    } else {
        assert(more.skip(1) =~= index.skip(1).push(slot));
        lemma_slots_enc_push(index.skip(1), slot);
    }
}

/// An encoded index is the number of its slots, and then the slots one after the other:
/// the key, whole and behind its length, and the offset in eight bytes.
pub proof fn law_index_layout(index: Seq<(Seq<u8>, u64)>, slot: (Seq<u8>, u64))
    ensures
        index_enc(index) == le_bytes(index.len(), 8) + slots_enc(index),
        slots_enc(Seq::empty()).len() == 0,
        slots_enc(index.push(slot)) == slots_enc(index) + le_bytes(slot.0.len(), 8) + slot.0
            + le_bytes(slot.1 as nat, 8),
    decreases index.len(),
{
    let more = index.push(slot);
    let none = Seq::<(Seq<u8>, u64)>::empty();
    if index.len() == 0 {
        assert(more.skip(1) =~= none);
        assert(index =~= none);
        assert(slots_enc(none) =~= Seq::<u8>::empty());
        assert(slots_enc(more) =~= slots_enc(index) + le_bytes(slot.0.len(), 8) + slot.0 + le_bytes(
            slot.1 as nat,
            8,
        ));
    } else {
        assert(more.skip(1) =~= index.skip(1).push(slot));
        law_index_layout(index.skip(1), slot);
        assert(slots_enc(more) =~= slots_enc(index) + le_bytes(slot.0.len(), 8) + slot.0 + le_bytes(
            slot.1 as nat,
            8,
        ));
    }
}

/// Bytes decode to an index exactly where they begin with its encoding.
pub proof fn law_index_round_trip(s: Seq<u8>, index: Seq<(Seq<u8>, u64)>)
    requires
        index.len() <= u64::MAX,
        forall|i: int| 0 <= i < index.len() ==> (#[trigger] index[i]).0.len() <= u64::MAX,
    ensures
        index_of(s) == Some(index) <==> index_enc(index).is_prefix_of(s),
{
    if index_enc(index).is_prefix_of(s) {
        lemma_index_of(s, index);
    }
    if index_of(s) == Some(index) {
        assert(starts_with_index(s, index));
    }
}

/// An index held in memory is viewed slot by slot, in its order.
pub proof fn law_index_is_viewed_slot_by_slot(index: Seq<(Vec<u8>, u64)>)
    ensures
        index_view(index).len() == index.len(),
        forall|i: int|
            0 <= i < index.len() ==> #[trigger] index_view(index)[i] == (index[i].0@, index[i].1),
{
}

/// Where the fields of an encoded filter stand: its bits, all of them and behind their
/// length, then how many of them count in eight bytes, and how many stand for a key in four.
pub proof fn law_filter_layout(bits: Seq<u8>, num_bits: u64, k: u32)
    requires
        bits.len() <= u64::MAX,
    ensures
        ({
            let s = filter_enc(bits, num_bits, k);
            let n = bits.len() as int;
            &&& s.len() == 20 + n
            &&& le_value(s.subrange(0, 8)) == n
            &&& s.subrange(8, 8 + n) == bits
            &&& le_value(s.subrange(8 + n, 16 + n)) == num_bits
            &&& le_value(s.subrange(16 + n, 20 + n)) == k
        }),
{
    let s = filter_enc(bits, num_bits, k);
    let n = bits.len() as int;
    lemma_filter_enc_len(bits, num_bits, k);
    law_number_round_trip(bits.len());
    law_number_round_trip(num_bits as nat);
    law_number_round_trip(k as nat);
    assert(s.subrange(0, 8) =~= le_bytes(bits.len(), 8));
    assert(s.subrange(8, 8 + n) =~= bits);
    assert(s.subrange(8 + n, 16 + n) =~= le_bytes(num_bits as nat, 8));
    assert(s.subrange(16 + n, 20 + n) =~= le_bytes(k as nat, 4));
}

/// How long the encoding of a filter is.
pub proof fn lemma_filter_enc_len(bits: Seq<u8>, num_bits: u64, k: u32)
    ensures
        filter_enc(bits, num_bits, k).len() == 20 + bits.len(),
{
    lemma_le_bytes_len(bits.len(), 8);
    lemma_le_bytes_len(num_bits as nat, 8);
    lemma_le_bytes_len(k as nat, 4);
}

/// Encodes a sparse index.
pub fn encode_index(index: &Vec<(Vec<u8>, u64)>) -> (r: Result<Vec<u8>, StoreError>)
    requires
        index_enc(index_view(index@)).len() <= usize::MAX,
    ensures
        r is Ok,
        r->Ok_0@ == index_enc(index_view(index@)),
{
    match serialize_index(index) {
        Ok(bytes) => Ok(bytes),
        Err(_) => Err(StoreError::Corrupt),
    }
}

/// Decodes the sparse index that `bytes` begins with.
pub fn decode_index(bytes: &[u8]) -> (r: Result<Vec<(Vec<u8>, u64)>, StoreError>)
    ensures
        r matches Ok(x) ==> index_of(bytes@) == Some(index_view(x@)),
        r matches Err(error) ==> error == StoreError::Corrupt && index_of(bytes@) is None,
{
    match deserialize_index(bytes) {
        Ok(index) => {
            proof {
                lemma_index_of(bytes@, index_view(index@));
            }
            Ok(index)
        },
        Err(_) => Err(StoreError::Corrupt),
    }
}

/// The fields of a filter: its bits, how many of them count, and how many each
/// key sets.
pub type FilterFields = (Seq<u8>, u64, u32);

/// The filter fields whose encoding `s` begins with, if there are any.
pub open spec fn filter_of(s: Seq<u8>) -> Option<FilterFields> {
    if exists|f: FilterFields| starts_with_filter(s, f.0, f.1, f.2) {
        Some(choose|f: FilterFields| starts_with_filter(s, f.0, f.1, f.2))
    } else {
        None
    }
}

/// A byte string that begins with a filter's encoding decodes to that filter.
pub proof fn lemma_filter_of(s: Seq<u8>, f: FilterFields)
    requires
        starts_with_filter(s, f.0, f.1, f.2),
    ensures
        filter_of(s) == Some(f),
{
    let g = filter_of(s)->Some_0;
    assert(starts_with_filter(s, g.0, g.1, g.2));
    lemma_filter_unique(s, f.0, f.1, f.2, g.0, g.1, g.2);
}

/// Bytes decode to a filter exactly where they begin with its encoding.
pub proof fn law_filter_round_trip(s: Seq<u8>, bits: Seq<u8>, num_bits: u64, k: u32)
    requires
        bits.len() <= u64::MAX,
    ensures
        filter_of(s) == Some((bits, num_bits, k)) <==> filter_enc(bits, num_bits, k).is_prefix_of(s),
{
    if filter_enc(bits, num_bits, k).is_prefix_of(s) {
        lemma_filter_of(s, (bits, num_bits, k));
    }
    if filter_of(s) is Some {
        let f = filter_of(s)->Some_0;
        assert(starts_with_filter(s, f.0, f.1, f.2));
    }
}

/// Encodes a filter's fields.
pub fn encode_filter(bits: &Vec<u8>, num_bits: u64, k: u32) -> (r: Result<Vec<u8>, StoreError>)
    requires
        filter_enc(bits@, num_bits, k).len() <= usize::MAX,
    ensures
        r is Ok,
        r->Ok_0@ == filter_enc(bits@, num_bits, k),
{
    match serialize_filter(bits, num_bits, k) {
        Ok(bytes) => Ok(bytes),
        Err(_) => Err(StoreError::Corrupt),
    }
}

/// Decodes the filter fields that `bytes` begins with.
pub fn decode_filter(bytes: &[u8]) -> (r: Result<(Vec<u8>, u64, u32), StoreError>)
    ensures
        r matches Ok(f) ==> filter_of(bytes@) == Some((f.0@, f.1, f.2)),
        r matches Err(error) ==> error == StoreError::Corrupt && filter_of(bytes@) is None,
{
    match deserialize_filter(bytes) {
        Ok(f) => {
            proof {
                lemma_filter_of(bytes@, (f.0@, f.1, f.2));
            }
            Ok(f)
        },
        Err(_) => Err(StoreError::Corrupt),
    }
}

} // verus!
