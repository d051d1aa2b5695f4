//! Write-ahead log: an append-only sequence of mutations, replayed on startup.
//!
//! A mutation is framed here and made durable before it is applied in memory. A
//! crash can leave a half-written record at the tail; replay stops there and
//! discards only that torn record, which was never acknowledged. It is cut off before
//! anything is appended: a record behind it would be out of replay's reach.
use crate::api::{entry_views, Entry, EntryView};
use crate::codec::entry_of;
use crate::error::StoreError;
use crate::le::{law_number_round_trip, le_bytes, le_value};
use crate::record::{
    all_fit, continued, first_payload, first_record, fits, law_record_is_cut_short,
    law_record_is_read, lemma_first_record_size, lemma_record_round_trip,
    lemma_records_enc_first, lemma_torn_record, push_record, read_payload, read_record,
    record_enc, records_enc,
};
use vstd::prelude::*;

verus! {

/// The entries that a log yields, in write order: whole records up to the end
/// or up to a torn record. A whole record that does not decode fails the log.
pub open spec fn replayed(log: Seq<u8>) -> Result<Seq<EntryView>, StoreError>
    decreases log.len(),
{
    match first_record(log) {
        Ok((e, size)) => if 0 < size <= log.len() {
            match replayed(log.skip(size as int)) {
                Ok(rest) => Ok(seq![e] + rest),
                Err(error) => Err(error),
            }
        } else {
            Err(StoreError::Corrupt)
        },
        Err(StoreError::UnexpectedEof) => Ok(Seq::empty()),
        Err(error) => Err(error),
    }
}

/// How many bytes of a log are whole records: all but a torn one at its end.
pub open spec fn whole_len(log: Seq<u8>) -> nat
    decreases log.len(),
{
    match first_payload(log) {
        Some(payload) => if 4 + payload.len() <= log.len() {
            4 + payload.len() + whole_len(log.skip(4 + payload.len() as int))
        } else {
            0
        },
        None => 0,
    }
}

/// How many bytes of a log are whole records: all but a torn one at its end.
pub fn whole_length(log: &[u8]) -> (r: usize)
    ensures
        r == whole_len(log@),
        r <= log@.len(),
{
    let total: usize = log.len();
    let mut at: usize = 0;
    assert(log@.skip(0) =~= log@);
    loop
        invariant
            at <= total,
            total == log@.len(),
            whole_len(log@) == at + whole_len(log@.skip(at as int)),
        decreases total - at,
    {
        match read_payload(log, at) {
            Ok(payload) => {
                let size: usize = 4 + payload.len();
                assert(log@.skip(at as int).skip(size as int) =~= log@.skip(at + size));
                at = at + size;
            },
            Err(_) => {
                return at;
            },
        }
    }
}

/// A log: records, one after the other, and no torn one at the end.
pub struct Wal {
    log: Vec<u8>,
}

impl View for Wal {
    type V = Seq<u8>;

    closed spec fn view(&self) -> Seq<u8> {
        self.log@
    }
}

impl Wal {
    /// Opens a log that holds `log`. A torn record at its end is cut off, and new
    /// records go behind the whole ones.
    pub fn open(log: Vec<u8>) -> (r: Wal)
        ensures
            r@ == log@.take(whole_len(log@) as int),
    {
        let mut log = log;
        let len: usize = whole_length(log.as_slice());
        log.truncate(len);
        Wal { log }
    }

    /// Appends one entry. An entry whose record is too large is refused, and the
    /// log stays as it was.
    pub fn append(&mut self, entry: &Entry) -> (r: Result<(), StoreError>)
        ensures
            match r {
                Ok(()) => fits(entry@) && final(self)@ == old(self)@ + record_enc(entry@),
                Err(error) => {
                    &&& error == StoreError::RecordTooLarge
                    &&& !fits(entry@)
                    &&& final(self)@ == old(self)@
                },
            },
            r is Ok <==> entry.key@.len() + entry.value@.len() + 28 < 0x1_0000_0000,
    {
        push_record(&mut self.log, entry)
    }

    /// Empties the log.
    pub fn truncate(&mut self)
        ensures
            final(self)@ == Seq::<u8>::empty(),
    {
        self.log.clear();
    }

    /// The log's bytes.
    pub fn bytes(&self) -> (r: &[u8])
        ensures
            r@ == self@,
    {
        self.log.as_slice()
    }

    /// Gives up the log's bytes.
    pub fn into_bytes(self) -> (r: Vec<u8>)
        ensures
            r@ == self@,
    {
        self.log
    }

    /// Reads every entry of a log, in write order. A torn trailing record is
    /// ignored.
    pub fn replay(log: &[u8]) -> (r: Result<Vec<Entry>, StoreError>)
        ensures
            match r {
                Ok(entries) => replayed(log@) == Ok::<Seq<EntryView>, StoreError>(
                    entry_views(entries@),
                ),
                Err(error) => replayed(log@) == Err::<Seq<EntryView>, StoreError>(error),
            },
    {
        let mut entries: Vec<Entry> = Vec::new();
        let total: usize = log.len();
        let mut at: usize = 0;
        assert(log@.skip(0) =~= log@);
        proof {
            assert(entry_views(entries@) =~= Seq::empty());
            if replayed(log@) is Ok {
                assert(entry_views(entries@) + replayed(log@)->Ok_0 =~= replayed(log@)->Ok_0);
            }
        }
        loop
            invariant
                at <= total,
                total == log@.len(),
                replayed(log@) == continued(
                    entry_views(entries@),
                    replayed(log@.skip(at as int)),
                ),
            decreases log@.len() - at,
        {
            let ghost rest = log@.skip(at as int);
            proof {
                lemma_first_record_size(rest);
            }
            match read_record(log, at) {
                Ok((entry, size)) => {
                    let ghost before = entry_views(entries@);
                    proof {
                        let next = rest.skip(size as int);
                        assert(next =~= log@.skip(at + size));
                        if replayed(next) is Ok {
                            let more = replayed(next)->Ok_0;
                            assert(before + (seq![entry@] + more) =~= before.push(entry@) + more);
                        }
                        assert(entry_views(entries@.push(entry)) =~= before.push(entry@));
                    }
                    entries.push(entry);
                    at = at + size;
                },
                Err(StoreError::UnexpectedEof) => {
                    assert(entry_views(entries@) + Seq::<EntryView>::empty() =~= entry_views(
                        entries@,
                    ));
                    return Ok(entries);
                },
                Err(error) => {
                    return Err(error);
                },
            }
        }
    }
}

proof fn lemma_replay_step(log: Seq<u8>, e: EntryView, size: nat)
    requires
        first_record(log) == Ok::<(EntryView, nat), StoreError>((e, size)),
    ensures
        size <= log.len(),
        replayed(log) == continued(seq![e], replayed(log.skip(size as int))),
{
    lemma_first_record_size(log);
}

/// Records that were appended are replayed in the order in which they were
/// appended, and then whatever the rest of the log holds.
pub proof fn lemma_replay_records(entries: Seq<EntryView>, tail: Seq<u8>)
    requires
        all_fit(entries),
    ensures
        replayed(records_enc(entries) + tail) == continued(entries, replayed(tail)),
    decreases entries.len(),
{
    if entries.len() == 0 {
        assert(records_enc(entries) + tail =~= tail);
        if replayed(tail) is Ok {
            assert(entries + replayed(tail)->Ok_0 =~= replayed(tail)->Ok_0);
        }
    } else {
        let e = entries[0];
        let rest = entries.skip(1);
        let s = records_enc(entries) + tail;
        let after = records_enc(rest) + tail;
        lemma_records_enc_first(entries);
        let first = record_enc(e);
        assert(s =~= first + after);
        assert(fits(entries[0]));
        lemma_record_round_trip(e, after);
        lemma_replay_step(s, e, first.len());
        assert(s.skip(first.len() as int) =~= after);
        assert forall|i: int| 0 <= i < rest.len() implies fits(#[trigger] rest[i]) by {
            assert(fits(entries[i + 1]));
        }
        lemma_replay_records(rest, tail);
        if replayed(tail) is Ok {
            let more = replayed(tail)->Ok_0;
            assert(seq![e] + (rest + more) =~= entries + more);
        }
    }
}

/// What replay makes of any log, record by record. A whole record counts by what its payload
/// decodes to: an entry is yielded, and then what the rest of the log yields; a payload that
/// decodes to none fails the log. Where the log ends before a record does, replay stops, and
/// nothing from there on counts as whole.
pub proof fn law_replay_record_by_record(payload: Seq<u8>, tail: Seq<u8>)
    ensures
        payload.len() < 0x1_0000_0000 ==> {
            let log = le_bytes(payload.len(), 4) + payload + tail;
            &&& whole_len(log) == 4 + payload.len() + whole_len(tail)
            &&& entry_of(payload) matches Some(e) ==> {
                &&& replayed(tail) matches Ok(rest) ==> replayed(log) == Ok::<
                    Seq<EntryView>,
                    StoreError,
                >(seq![e] + rest)
                &&& replayed(tail) matches Err(error) ==> replayed(log) == Err::<
                    Seq<EntryView>,
                    StoreError,
                >(error)
            }
            &&& entry_of(payload) is None ==> replayed(log) == Err::<Seq<EntryView>, StoreError>(
                StoreError::Corrupt,
            )
        },
        tail.len() < 4 || tail.len() < 4 + le_value(tail.take(4)) ==> {
            &&& replayed(tail) == Ok::<Seq<EntryView>, StoreError>(Seq::empty())
            &&& whole_len(tail) == 0
        },
{
    law_record_is_cut_short(tail, 0);
    if payload.len() < 0x1_0000_0000 {
        let log = le_bytes(payload.len(), 4) + payload + tail;
        law_record_is_read(payload, tail);
        law_number_round_trip(payload.len());
        assert(log.skip(4 + payload.len() as int) =~= tail);
    }
}

/// Replaying a log gives back exactly what was appended to it.
pub proof fn law_replay_returns_what_was_appended(entries: Seq<EntryView>)
    requires
        all_fit(entries),
    ensures
        replayed(records_enc(entries)) == Ok::<Seq<EntryView>, StoreError>(entries),
{
    lemma_replay_records(entries, Seq::empty());
    assert(records_enc(entries) + Seq::<u8>::empty() =~= records_enc(entries));
    assert(entries + Seq::<EntryView>::empty() =~= entries);
}

/// A crash in the middle of an append costs only the record that was being
/// appended: every record before it is replayed.
pub proof fn law_torn_tail_is_discarded(entries: Seq<EntryView>, torn: EntryView, kept: nat)
    requires
        all_fit(entries),
        fits(torn),
        kept < record_enc(torn).len(),
    ensures
        replayed(records_enc(entries) + record_enc(torn).take(kept as int)) == Ok::<
            Seq<EntryView>,
            StoreError,
        >(entries),
{
    lemma_torn_record(torn, kept);
    lemma_replay_records(entries, record_enc(torn).take(kept as int));
    assert(entries + Seq::<EntryView>::empty() =~= entries);
}

/// The whole records of a log yield what the log yields, and whatever is put behind
/// them is replayed after it.
pub proof fn lemma_replay_behind(log: Seq<u8>, tail: Seq<u8>)
    requires
        replayed(log) is Ok,
    ensures
        whole_len(log) <= log.len(),
        replayed(log.take(whole_len(log) as int) + tail) == continued(
            replayed(log)->Ok_0,
            replayed(tail),
        ),
    decreases log.len(),
{
    let known = replayed(log)->Ok_0;
    match first_record(log) {
        Ok((e, size)) => {
            lemma_first_record_size(log);
            let rest = log.skip(size as int);
            lemma_replay_behind(rest, tail);
            let more = replayed(rest)->Ok_0;
            let whole = log.take(whole_len(log) as int) + tail;
            let after = rest.take(whole_len(rest) as int) + tail;
            assert(whole_len(log) == size + whole_len(rest));
            assert(whole.skip(size as int) =~= after);
            assert(whole.take(size as int) =~= log.take(size as int));
            assert(whole.take(4) =~= log.take(4));
            assert(whole.subrange(4, size as int) =~= log.subrange(4, size as int));
            lemma_replay_step(whole, e, size);
            if replayed(tail) is Ok {
                let last = replayed(tail)->Ok_0;
                assert(seq![e] + (more + last) =~= known + last);
            }
        },
        Err(_) => {
            assert(whole_len(log) == 0);
            assert(log.take(0) + tail =~= tail);
            if replayed(tail) is Ok {
                assert(known + replayed(tail)->Ok_0 =~= replayed(tail)->Ok_0);
            }
        },
    }
}

/// Opening a log again changes nothing of what it yields.
pub proof fn law_reopened_log_yields_the_same(log: Seq<u8>)
    requires
        replayed(log) is Ok,
    ensures
        replayed(log.take(whole_len(log) as int)) == replayed(log),
{
    let whole = log.take(whole_len(log) as int);
    let known = replayed(log)->Ok_0;
    lemma_replay_behind(log, Seq::empty());
    law_replay_returns_what_was_appended(Seq::empty());
    assert(records_enc(Seq::<EntryView>::empty()) =~= Seq::<u8>::empty());
    assert(whole + Seq::<u8>::empty() =~= whole);
    assert(known + Seq::<EntryView>::empty() =~= known);
}

/// What is appended to a log that was opened again, torn at its end or not, is
/// replayed behind everything that the log yielded.
pub proof fn law_append_after_reopen(log: Seq<u8>, e: EntryView)
    requires
        replayed(log) is Ok,
        fits(e),
    ensures
        replayed(log.take(whole_len(log) as int) + record_enc(e)) == Ok::<
            Seq<EntryView>,
            StoreError,
        >(replayed(log)->Ok_0.push(e)),
{
    let one = seq![e];
    let known = replayed(log)->Ok_0;
    lemma_replay_behind(log, record_enc(e));
    law_replay_returns_what_was_appended(one);
    assert(one.drop_last() =~= Seq::empty());
    assert(records_enc(Seq::<EntryView>::empty()) =~= Seq::<u8>::empty());
    assert(records_enc(one) =~= record_enc(e));
    assert(known + one =~= known.push(e));
}

/// The whole records of a log to which records were appended, the last of them torn or
/// not there at all, are the records before it.
pub proof fn law_torn_tail_is_cut_off(entries: Seq<EntryView>, torn: EntryView, kept: nat)
    requires
        all_fit(entries),
        fits(torn),
        kept < record_enc(torn).len(),
    ensures
        ({
            let log = records_enc(entries) + record_enc(torn).take(kept as int);
            log.take(whole_len(log) as int) == records_enc(entries)
        }),
{
    let tail = record_enc(torn).take(kept as int);
    lemma_torn_record(torn, kept);
    lemma_whole_records(entries, tail);
    assert((records_enc(entries) + tail).take(records_enc(entries).len() as int) =~= records_enc(
        entries,
    ));
}

/// Records are whole, whatever follows them.
pub proof fn lemma_whole_records(entries: Seq<EntryView>, tail: Seq<u8>)
    requires
        all_fit(entries),
    ensures
        whole_len(records_enc(entries) + tail) == records_enc(entries).len() + whole_len(tail),
    decreases entries.len(),
{
    if entries.len() == 0 {
        assert(records_enc(entries) + tail =~= tail);
    } else {
        let e = entries[0];
        let rest = entries.skip(1);
        let s = records_enc(entries) + tail;
        let after = records_enc(rest) + tail;
        lemma_records_enc_first(entries);
        assert(s =~= record_enc(e) + after);
        assert(fits(entries[0]));
        lemma_record_round_trip(e, after);
        lemma_first_record_size(s);
        assert(s.skip(record_enc(e).len() as int) =~= after);
        assert forall|i: int| 0 <= i < rest.len() implies fits(#[trigger] rest[i]) by {
            assert(fits(entries[i + 1]));
        }
        lemma_whole_records(rest, tail);
    }
}

} // verus!
