//! Framed records: a payload's length in four bytes, then the payload, which is
//! an encoded entry. Both the log and the tables' data sections are sequences of
//! such records.
use crate::api::{Entry, EntryView};
use crate::codec::{
    decode_entry, encode_entry, encoded_len, entry_enc, entry_of, lemma_entry_enc_len,
    lemma_entry_round_trip, starts_with_entry,
};
use crate::error::StoreError;
use crate::le::{
    law_number_round_trip, le_bytes, le_value, lemma_le_bytes_len, lemma_le_bytes_of_value,
    lemma_le_limits, lemma_le_value_of_bytes, push_le, read_le,
};
use vstd::prelude::*;
use vstd::slice::slice_subrange;

verus! {

/// The length prefix can say how long the entry's encoding is.
pub open spec fn fits(e: EntryView) -> bool {
    entry_enc(e).len() <= u32::MAX
}

/// The framed record of an entry.
pub open spec fn record_enc(e: EntryView) -> Seq<u8> {
    le_bytes(entry_enc(e).len(), 4) + entry_enc(e)
}

/// The framed records of some entries, one after the other.
pub open spec fn records_enc(entries: Seq<EntryView>) -> Seq<u8>
    decreases entries.len(),
{
    if entries.len() == 0 {
        Seq::empty()
    } else {
        records_enc(entries.drop_last()) + record_enc(entries.last())
    }
}

pub open spec fn all_fit(entries: Seq<EntryView>) -> bool {
    forall|i: int| 0 <= i < entries.len() ==> fits(#[trigger] entries[i])
}

/// The payload of the record that `s` begins with, if all of it is there.
pub open spec fn first_payload(s: Seq<u8>) -> Option<Seq<u8>> {
    if s.len() < 4 || s.len() < 4 + le_value(s.take(4)) {
        None
    } else {
        Some(s.subrange(4, 4 + le_value(s.take(4)) as int))
    }
}

/// The entry of the record that `s` begins with, and how many bytes the record
/// takes up.
pub open spec fn first_record(s: Seq<u8>) -> Result<(EntryView, nat), StoreError> {
    match first_payload(s) {
        None => Err(StoreError::UnexpectedEof),
        Some(payload) => match entry_of(payload) {
            Some(e) => Ok((e, 4 + payload.len())),
            None => Err(StoreError::Corrupt),
        },
    }
}

/// The record that stands at offset `at` of `s`.
pub open spec fn record_at(s: Seq<u8>, at: nat) -> Result<(EntryView, nat), StoreError> {
    if at > s.len() {
        Err(StoreError::UnexpectedEof)
    } else {
        first_record(s.skip(at as int))
    }
}

/// `read`, then what `rest` holds.
pub open spec fn continued(
    read: Seq<EntryView>,
    rest: Result<Seq<EntryView>, StoreError>,
) -> Result<Seq<EntryView>, StoreError> {
    match rest {
        Ok(more) => Ok(read + more),
        Err(error) => Err(error),
    }
}

/// A record fits unless its payload is 4 GiB or more: key and value may be of any length
/// otherwise. Some entries fit where each of them does.
pub proof fn law_what_fits(e: EntryView, entries: Seq<EntryView>)
    ensures
        fits(e) <==> e.key.len() + e.value.len() + 28 < 0x1_0000_0000,
        all_fit(entries) <==> forall|i: int|
            0 <= i < entries.len() ==> (#[trigger] entries[i]).key.len() + entries[i].value.len()
                + 28 < 0x1_0000_0000,
{
    lemma_entry_enc_len(e);
    assert forall|i: int| 0 <= i < entries.len() implies (fits(#[trigger] entries[i])
        <==> entries[i].key.len() + entries[i].value.len() + 28 < 0x1_0000_0000) by {
        lemma_entry_enc_len(entries[i]);
    }
}

/// A record is the length of its payload in four bytes, and then the encoded entry. Some
/// records stand one behind the other, in the order of their entries, with nothing between
/// them.
pub proof fn law_record_layout(e: EntryView, entries: Seq<EntryView>)
    ensures
        record_enc(e).len() == 32 + e.key.len() + e.value.len(),
        record_enc(e).skip(4) == entry_enc(e),
        e.key.len() + e.value.len() + 28 < 0x1_0000_0000 ==> le_value(record_enc(e).take(4)) == 28
            + e.key.len() + e.value.len(),
        records_enc(Seq::empty()).len() == 0,
        records_enc(entries.push(e)) == records_enc(entries) + record_enc(e),
{
    let len = entry_enc(e).len();
    lemma_record_enc_len(e);
    lemma_entry_enc_len(e);
    lemma_le_bytes_len(len, 4);
    assert(record_enc(e).skip(4) =~= entry_enc(e));
    assert(record_enc(e).take(4) =~= le_bytes(len, 4));
    law_number_round_trip(len);
    assert(entries.push(e).drop_last() =~= entries);
}

/// A record is read from where it stands, whatever its payload and whatever follows it: the
/// payload comes out whole, and with it the entry that it decodes to, or a failure where it
/// decodes to none.
pub proof fn law_record_is_read(payload: Seq<u8>, tail: Seq<u8>)
    requires
        payload.len() < 0x1_0000_0000,
    ensures
        ({
            let s = le_bytes(payload.len(), 4) + payload + tail;
            &&& first_payload(s) == Some(payload)
            &&& entry_of(payload) matches Some(e) ==> first_record(s) == Ok::<
                (EntryView, nat),
                StoreError,
            >((e, 4 + payload.len()))
            &&& entry_of(payload) is None ==> first_record(s) == Err::<
                (EntryView, nat),
                StoreError,
            >(StoreError::Corrupt)
        }),
{
    let s = le_bytes(payload.len(), 4) + payload + tail;
    law_number_round_trip(payload.len());
    assert(s.take(4) =~= le_bytes(payload.len(), 4));
    assert(s.subrange(4, 4 + payload.len() as int) =~= payload);
}

/// Bytes that end before the record that they announce, or before they announce one, hold
/// no record; nor does an offset beyond the end. At any other offset stands what the bytes
/// from there on begin with.
pub proof fn law_record_is_cut_short(s: Seq<u8>, at: nat)
    ensures
        s.len() < 4 || s.len() < 4 + le_value(s.take(4)) ==> {
            &&& first_payload(s) is None
            &&& first_record(s) == Err::<(EntryView, nat), StoreError>(StoreError::UnexpectedEof)
        },
        at > s.len() ==> record_at(s, at) == Err::<(EntryView, nat), StoreError>(
            StoreError::UnexpectedEof,
        ),
        at <= s.len() ==> record_at(s, at) == first_record(s.skip(at as int)),
{
}

pub proof fn lemma_record_enc_len(e: EntryView)
    ensures
        record_enc(e).len() == 4 + entry_enc(e).len(),
        record_enc(e).len() == 32 + e.key.len() + e.value.len(),
{
    lemma_le_bytes_len(entry_enc(e).len(), 4);
    lemma_entry_enc_len(e);
}

/// What is framed is read back, whatever follows it.
pub proof fn lemma_record_round_trip(e: EntryView, tail: Seq<u8>)
    requires
        fits(e),
    ensures
        first_record(record_enc(e) + tail) == Ok::<(EntryView, nat), StoreError>(
            (e, record_enc(e).len()),
        ),
{
    let s = record_enc(e) + tail;
    let len = entry_enc(e).len();
    lemma_record_enc_len(e);
    lemma_le_limits();
    lemma_le_bytes_len(len, 4);
    assert(s.take(4) =~= le_bytes(len, 4));
    lemma_le_value_of_bytes(len, 4);
    let payload = s.subrange(4, 4 + len as int);
    assert(payload =~= entry_enc(e) + Seq::<u8>::empty());
    lemma_entry_enc_len(e);
    lemma_entry_round_trip(e, Seq::empty());
}

/// A record that lacks bytes at its end reads as cut short.
pub proof fn lemma_torn_record(e: EntryView, kept: nat)
    requires
        fits(e),
        kept < record_enc(e).len(),
    ensures
        first_record(record_enc(e).take(kept as int)) == Err::<(EntryView, nat), StoreError>(
            StoreError::UnexpectedEof,
        ),
{
    let len = entry_enc(e).len();
    let s = record_enc(e).take(kept as int);
    lemma_record_enc_len(e);
    lemma_le_limits();
    lemma_le_bytes_len(len, 4);
    if kept >= 4 {
        assert(s.take(4) =~= le_bytes(len, 4));
        lemma_le_value_of_bytes(len, 4);
    }
}

/// A record that is read decodes from a payload within its length.
pub proof fn lemma_first_record_size(s: Seq<u8>)
    ensures
        first_record(s) matches Ok((e, size)) ==> {
            &&& 4 <= size <= s.len()
            &&& entry_enc(e).len() + 4 <= size
            &&& size <= u32::MAX + 4
            &&& fits(e)
        },
{
    if first_record(s) is Ok {
        let (e, size) = first_record(s)->Ok_0;
        lemma_le_bytes_of_value(s.take(4));
        lemma_le_limits();
        let payload = s.subrange(4, size as int);
        assert(entry_of(payload) == Some(e));
        assert(starts_with_entry(payload, e));
    }
}

pub proof fn lemma_records_enc_add(a: Seq<EntryView>, b: Seq<EntryView>)
    ensures
        records_enc(a + b) == records_enc(a) + records_enc(b),
    decreases b.len(),
{
    if b.len() == 0 {
        assert(a + b =~= a);
        assert(records_enc(a) + records_enc(b) =~= records_enc(a));
    } else {
        lemma_records_enc_add(a, b.drop_last());
        assert((a + b).drop_last() =~= a + b.drop_last());
        assert(records_enc(a) + records_enc(b.drop_last()) + record_enc(b.last()) =~= records_enc(
            a,
        ) + records_enc(b));
    }
}

pub proof fn lemma_records_enc_one(e: EntryView)
    ensures
        records_enc(seq![e]) == record_enc(e),
{
    let none = Seq::<EntryView>::empty();
    assert(seq![e].drop_last() =~= none);
    assert(records_enc(none) =~= Seq::<u8>::empty());
    assert(records_enc(seq![e]) =~= record_enc(e));
}

/// The first record comes first.
pub proof fn lemma_records_enc_first(entries: Seq<EntryView>)
    requires
        entries.len() > 0,
    ensures
        records_enc(entries) == record_enc(entries[0]) + records_enc(entries.skip(1)),
{
    assert(entries =~= seq![entries[0]] + entries.skip(1));
    lemma_records_enc_add(seq![entries[0]], entries.skip(1));
    lemma_records_enc_one(entries[0]);
}

/// Where the `i`-th of some framed records starts.
pub open spec fn record_offset(entries: Seq<EntryView>, i: int) -> nat {
    records_enc(entries.take(i)).len()
}

/// Each framed record is found at its offset.
pub proof fn lemma_record_at_offset(entries: Seq<EntryView>, tail: Seq<u8>, i: int)
    requires
        all_fit(entries),
        0 <= i < entries.len(),
    ensures
        record_at(records_enc(entries) + tail, record_offset(entries, i)) == Ok::<
            (EntryView, nat),
            StoreError,
        >((entries[i], record_enc(entries[i]).len())),
        record_offset(entries, i + 1) == record_offset(entries, i) + record_enc(entries[i]).len(),
        record_offset(entries, i) < record_offset(entries, i + 1) <= records_enc(entries).len(),
{
    let file = records_enc(entries) + tail;
    let front = entries.take(i);
    let rest = entries.skip(i);
    assert(entries =~= front + rest);
    lemma_records_enc_add(front, rest);
    lemma_records_enc_first(rest);
    assert(rest.skip(1) =~= entries.skip(i + 1));
    let after = records_enc(entries.skip(i + 1)) + tail;
    assert(file.skip(record_offset(entries, i) as int) =~= record_enc(entries[i]) + after);
    assert(fits(entries[i]));
    lemma_record_round_trip(entries[i], after);
    assert(entries.take(i + 1).drop_last() =~= front);
    lemma_record_enc_len(entries[i]);
}

/// Records take up room: at least 32 bytes each, and as many as their keys and
/// values have.
pub proof fn lemma_records_enc_room(entries: Seq<EntryView>, i: int)
    ensures
        32 * entries.len() <= records_enc(entries).len(),
        0 <= i < entries.len() ==> entries[i].key.len() + entries[i].value.len() <= records_enc(
            entries,
        ).len(),
    decreases entries.len(),
{
    if entries.len() > 0 {
        lemma_records_enc_room(entries.drop_last(), i);
        lemma_record_enc_len(entries.last());
    }
}

/// Appends the framed record of `entry` to `out`, which stays as it was where
/// the record is too large.
pub fn push_record(out: &mut Vec<u8>, entry: &Entry) -> (r: Result<(), StoreError>)
    ensures
        match r {
            Ok(()) => fits(entry@) && final(out)@ == old(out)@ + record_enc(entry@),
            Err(error) => {
                &&& error == StoreError::RecordTooLarge
                &&& !fits(entry@)
                &&& final(out)@ == old(out)@
            },
        },
        r is Ok <==> entry.key@.len() + entry.value@.len() + 28 < 0x1_0000_0000,
{
    proof {
        lemma_entry_enc_len(entry@);
    }
    // Beside key and value, an encoded entry has 28 bytes.
    let room: usize = u32::MAX as usize - 28;
    let key_len: usize = entry.key.len();
    if key_len > room || entry.value.len() > room - key_len {
        return Err(StoreError::RecordTooLarge);
    }
    let mut payload = encode_entry(entry)?;
    push_le(out, payload.len() as u64, 4);
    out.append(&mut payload);
    proof {
        assert(out@ =~= old(out)@ + record_enc(entry@));
    }
    Ok(())
}

/// How many bytes the record of `entry` takes up.
pub fn record_len(entry: &Entry) -> (r: Result<u64, StoreError>)
    requires
        record_enc(entry@).len() <= u64::MAX,
    ensures
        r is Ok,
        r->Ok_0 == record_enc(entry@).len(),
        r->Ok_0 == 32 + entry.key@.len() + entry.value@.len(),
{
    proof {
        lemma_record_enc_len(entry@);
    }
    let len: u64 = encoded_len(entry)?;
    Ok(4 + len)
}

/// The length that a record's prefix announces for its payload.
pub fn payload_len(prefix: &[u8]) -> (r: u32)
    requires
        prefix@.len() == 4,
    ensures
        r as nat == le_value(prefix@),
{
    proof {
        lemma_le_bytes_of_value(prefix@);
        lemma_le_limits();
        assert(prefix@.subrange(0, 4) =~= prefix@);
    }
    read_le(prefix, 0, 4) as u32
}

/// The payload of the record at offset `at`.
pub fn read_payload(bytes: &[u8], at: usize) -> (r: Result<&[u8], StoreError>)
    ensures
        match r {
            Ok(payload) => {
                &&& at <= bytes@.len()
                &&& first_payload(bytes@.skip(at as int)) == Some(payload@)
                &&& at + 4 + payload@.len() <= bytes@.len()
                &&& payload@.len() <= u32::MAX
            },
            Err(error) => {
                &&& error == StoreError::UnexpectedEof
                &&& at > bytes@.len() || first_payload(bytes@.skip(at as int)) is None
            },
        },
{
    let total: usize = bytes.len();
    if at > total || total - at < 4 {
        return Err(StoreError::UnexpectedEof);
    }
    let ghost s = bytes@.skip(at as int);
    let prefix = slice_subrange(bytes, at, at + 4);
    assert(prefix@ =~= s.take(4));
    let len: u32 = payload_len(prefix);
    let rest: usize = total - at - 4;
    if len as u64 > rest as u64 {
        return Err(StoreError::UnexpectedEof);
    }
    let size: usize = len as usize;
    let payload = slice_subrange(bytes, at + 4, at + 4 + size);
    assert(payload@ =~= s.subrange(4, 4 + size));
    Ok(payload)
}

/// Reads the record at offset `at`: its entry, and how many bytes it takes up.
pub fn read_record(bytes: &[u8], at: usize) -> (r: Result<(Entry, usize), StoreError>)
    ensures
        match r {
            Ok((entry, size)) => record_at(bytes@, at as nat) == Ok::<(EntryView, nat), StoreError>(
                (entry@, size as nat),
            ),
            Err(error) => record_at(bytes@, at as nat) == Err::<(EntryView, nat), StoreError>(
                error,
            ),
        },
{
    let payload = read_payload(bytes, at)?;
    let entry = decode_entry(payload)?;
    assert(4 + payload@.len() <= bytes.len());
    Ok((entry, 4 + payload.len()))
}

} // verus!
