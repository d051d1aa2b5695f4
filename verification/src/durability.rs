//! What the engine promises of its contents: reads see the last write, a flush and
//! a compaction change nothing that a reader can see, and opening a directory after
//! a crash, wherever it struck, brings back every mutation that was acknowledged.
use crate::api::{EntryView, Operation, Value};
use crate::compaction::{all_scanned, concatenated, merges, some_scan_fails, TableFile};
use crate::engine::{
    cutoff_of, highest_seq, larger, lemma_highest_number, lemma_survivors_are_last, numbers_ordered,
    put_entry, reads_as, recovered, superseded, survivors, table_lookup, tombstone, EngineView,
    NumberedView,
};
use crate::error::StoreError;
use crate::layers::{
    layered, layers_ordered, law_merge_keeps_contents, law_read_your_writes, lemma_layered_is_there,
    lemma_layered_push, lemma_merged_holds, lemma_older_layers_ordered, lemma_same_view,
    lemma_upserted_holds, lemma_visible, operation_of, resolved, seq_held, seqs_within, visible,
};
use crate::record::{all_fit, fits, law_what_fits, record_enc, records_enc};
use crate::run::{
    applied, is_run, latest, lemma_applied, lemma_applied_latest, lemma_latest_add,
    lemma_latest_in_run, lemma_latest_is_there, lemma_upserted, lemma_upserted_latest, upserted,
};
use crate::sstable::{
    law_lookup_finds_the_entry, law_scan_returns_the_run, max_seq_of, serves, TableView,
};
use crate::store::{executed, stored};
use crate::wal::{
    law_append_after_reopen, law_replay_returns_what_was_appended, law_torn_tail_is_cut_off,
    law_torn_tail_is_discarded, lemma_whole_records, replayed, whole_len,
};
use vstd::prelude::*;

verus! {

/// Each table, with its file, is what became of writing one of `runs` out.
pub open spec fn served(
    tables: Seq<NumberedView>,
    files: Seq<Seq<u8>>,
    runs: Seq<Seq<EntryView>>,
) -> bool {
    &&& tables.len() == runs.len()
    &&& files.len() == runs.len()
    &&& forall|i: int|
        0 <= i < runs.len() ==> serves((#[trigger] tables[i]).table, files[i], runs[i])
}

/// The tables hold no version of `key` that is newer than `x`, and a reader of them
/// sees what `x` says.
pub open spec fn agrees(runs: Seq<Seq<EntryView>>, key: Seq<u8>, x: EntryView) -> bool {
    &&& resolved(layered(runs, key)) == x.resolved()
    &&& forall|i: int, z: EntryView|
        0 <= i < runs.len() && #[trigger] runs[i].contains(z) && z.key == key ==> z.seq < x.seq || z
            == x
}

/// What these entries of the log say is in the tables: of each key that they mention,
/// the tables agree with the last one.
pub open spec fn settled(runs: Seq<Seq<EntryView>>, entries: Seq<EntryView>) -> bool {
    forall|key: Seq<u8>| (#[trigger] latest(entries, key)) is Some ==> agrees(
        runs,
        key,
        latest(entries, key)->Some_0,
    )
}

/// The first `n` entries of the log are in the tables already, and the memtable is
/// what comes of the others.
pub open spec fn flushed_up_to(
    active: Seq<EntryView>,
    runs: Seq<Seq<EntryView>>,
    history: Seq<EntryView>,
    n: int,
) -> bool {
    &&& 0 <= n <= history.len()
    &&& settled(runs, history.take(n))
    &&& active == applied(Seq::empty(), history.skip(n))
}

/// An engine and what is on disk.
#[verifier::ext_equal]
pub struct StoreView {
    pub engine: EngineView,
    /// The files of the tables.
    pub files: Seq<Seq<u8>>,
    /// The entries in the tables.
    pub runs: Seq<Seq<EntryView>>,
    /// The bytes of the log.
    pub log: Seq<u8>,
    /// The entries in the log.
    pub history: Seq<EntryView>,
}

impl StoreView {
    /// The layers that a read goes through.
    pub open spec fn layers(self) -> Seq<Seq<EntryView>> {
        self.runs.push(self.engine.active)
    }

    /// The live keys and their values.
    pub open spec fn contents(self) -> Map<Seq<u8>, Seq<u8>> {
        visible(self.layers())
    }

    /// The engine and what is on disk belong together: each table serves its run, the
    /// log is made of the records of the history, and the history is everything that
    /// was written since the last flush, perhaps with what is in the tables already
    /// before it.
    pub open spec fn backed(self) -> bool {
        &&& self.engine.wf()
        &&& served(self.engine.tables, self.files, self.runs)
        &&& forall|i: int|
            0 < i < self.engine.tables.len() ==> !(
            #[trigger] self.engine.tables[i]).table.superseding
        &&& layers_ordered(self.layers())
        &&& seqs_within(self.layers(), self.engine.seq)
        &&& self.log == records_enc(self.history)
        &&& all_fit(self.history)
        &&& max_seq_of(self.history) <= self.engine.seq
        &&& exists|n: int| #[trigger]
            flushed_up_to(self.engine.active, self.runs, self.history, n)
    }

    /// After a mutation got a number, was logged, and was applied.
    pub open spec fn mutated(self, e: EntryView) -> StoreView {
        StoreView {
            engine: self.engine.numbered().applying(e),
            log: self.log + record_enc(e),
            history: self.history.push(e),
            ..self
        }
    }

    /// After a mutation got a number, and came to nothing.
    pub open spec fn refused(self) -> StoreView {
        StoreView { engine: self.engine.numbered(), ..self }
    }

    /// After the memtable was written to a new table, which took its place; `emptied`
    /// tells whether the log could be emptied, too.
    pub open spec fn flushed(self, table: TableView, file: Seq<u8>, emptied: bool) -> StoreView {
        let number = (self.engine.next_sst + 1) as u64;
        StoreView {
            engine: self.engine.flushing().flushed(NumberedView { number, table }),
            files: self.files.push(file),
            runs: self.runs.push(self.engine.active),
            log: if emptied {
                Seq::empty()
            } else {
                self.log
            },
            history: if emptied {
                Seq::empty()
            } else {
                self.history
            },
        }
    }

    /// After a flush was begun, and the table could not be written.
    pub open spec fn flush_failed(self) -> StoreView {
        StoreView { engine: self.engine.flushing(), ..self }
    }

    /// After a compaction was begun.
    pub open spec fn compacting(self) -> StoreView {
        StoreView { engine: self.engine.compacting(), ..self }
    }

    /// After the compaction under way was given up.
    pub open spec fn compaction_cancelled(self) -> StoreView {
        StoreView { engine: EngineView { job: None, ..self.engine }, ..self }
    }

    /// After the output of the compaction under way took the place of its inputs.
    pub open spec fn compacted(
        self,
        output: TableView,
        file: Seq<u8>,
        merged: Seq<EntryView>,
    ) -> StoreView {
        let n = self.engine.job->Some_0.inputs as int;
        StoreView {
            engine: self.engine.compacted(output),
            files: seq![file] + self.files.skip(n),
            runs: seq![merged] + self.runs.skip(n),
            ..self
        }
    }

    /// After the store was opened again on these tables and on its log.
    pub open spec fn opened_on(
        self,
        tables: Seq<NumberedView>,
        threshold: usize,
        compaction_threshold: usize,
    ) -> StoreView {
        StoreView {
            engine: recovered(tables, self.history, threshold, compaction_threshold),
            ..self
        }
    }

    /// After the store was opened again.
    pub open spec fn reopened(self, threshold: usize, compaction_threshold: usize) -> StoreView {
        self.opened_on(self.engine.tables, threshold, compaction_threshold)
    }

    /// The log after a crash that left `written` bytes of a mutation's record.
    pub open spec fn torn_log(self, e: EntryView, written: nat) -> Seq<u8> {
        self.log + record_enc(e).take(written as int)
    }

    /// After a crash that left `written` bytes of a mutation's record, the log was cut
    /// to its whole records and the store opened on it.
    pub open spec fn append_torn(
        self,
        e: EntryView,
        written: nat,
        threshold: usize,
        compaction_threshold: usize,
    ) -> StoreView {
        let log = self.torn_log(e, written);
        let known = replayed(log)->Ok_0;
        StoreView {
            engine: recovered(self.engine.tables, known, threshold, compaction_threshold),
            log: log.take(whole_len(log) as int),
            history: known,
            ..self
        }
    }

    /// `merged` is what compacting the tables of the compaction under way comes to, and
    /// was written out as `output`.
    pub open spec fn compacts_to(
        self,
        output: TableView,
        file: Seq<u8>,
        merged: Seq<EntryView>,
    ) -> bool {
        &&& self.engine.job is Some
        &&& merges(
            merged,
            concatenated(self.runs.take(self.engine.job->Some_0.inputs as int)),
            true,
        )
        &&& serves(output, file, merged)
        &&& output.superseding
    }
}

// Reads and writes.

/// A read sees what the layers hold: the lookup of a key yields the version in the
/// newest layer that has one.
pub proof fn law_read_sees_newest_layer(
    engine: EngineView,
    files: Seq<Seq<u8>>,
    runs: Seq<Seq<EntryView>>,
    key: Seq<u8>,
)
    requires
        served(engine.tables, files, runs),
    ensures
        engine.answerable(files, engine.tables.len() as int, key),
        engine.indexes_sorted(),
        engine.lookup(files, key) == Ok::<Option<EntryView>, StoreError>(
            layered(runs.push(engine.active), key),
        ),
        stored(visible(runs.push(engine.active)), key) == resolved(
            layered(runs.push(engine.active), key),
        ),
{
    let tables = engine.tables;
    assert forall|i: int| 0 <= i < tables.len() implies (#[trigger] tables[i]).table.index_sorted()
        && tables[i].table.filter.askable(key) by {
        law_lookup_finds_the_entry(tables[i].table, files[i], runs[i], key);
    }
    lemma_answerable(engine, files, tables.len() as int, key);
    lemma_table_lookup(tables, files, runs, key, tables.len() as int);
    assert(tables.take(tables.len() as int) =~= tables);
    assert(runs.take(runs.len() as int) =~= runs);
    lemma_layered_push(runs, engine.active, key);
    lemma_visible(runs.push(engine.active), key);
}

/// Where every filter can be asked for a key, any search for it can be made.
proof fn lemma_answerable(engine: EngineView, files: Seq<Seq<u8>>, n: int, key: Seq<u8>)
    requires
        n <= engine.tables.len(),
        forall|i: int|
            0 <= i < engine.tables.len() ==> (#[trigger] engine.tables[i]).table.filter.askable(
                key,
            ),
    ensures
        engine.answerable(files, n, key),
    decreases n,
{
    if n > 0 {
        assert(engine.tables[n - 1].table.filter.askable(key));
        lemma_answerable(engine, files, n - 1, key);
    }
}

proof fn lemma_table_lookup(
    tables: Seq<NumberedView>,
    files: Seq<Seq<u8>>,
    runs: Seq<Seq<EntryView>>,
    key: Seq<u8>,
    n: int,
)
    requires
        served(tables, files, runs),
        0 <= n <= tables.len(),
    ensures
        table_lookup(tables.take(n), files, key) == Ok::<Option<EntryView>, StoreError>(
            layered(runs.take(n), key),
        ),
    decreases n,
{
    if n > 0 {
        let some = tables.take(n);
        let layers = runs.take(n);
        assert(some.last() == tables[n - 1]);
        assert(some.drop_last() =~= tables.take(n - 1));
        assert(layers.last() == runs[n - 1]);
        assert(layers.drop_last() =~= runs.take(n - 1));
        assert(serves(tables[n - 1].table, files[n - 1], runs[n - 1]));
        law_lookup_finds_the_entry(tables[n - 1].table, files[n - 1], runs[n - 1], key);
        lemma_table_lookup(tables, files, runs, key, n - 1);
    }
}

proof fn lemma_max_seq_push(entries: Seq<EntryView>, e: EntryView)
    ensures
        max_seq_of(entries.push(e)) == larger(max_seq_of(entries), e.seq),
{
    assert(entries.push(e).drop_last() =~= entries);
}

/// A mutation with the next sequence number, appended to the log and applied, keeps
/// engine and disk together, and does to the contents what it is meant to do.
#[verifier::spinoff_prover]
#[verifier::rlimit(40)]
pub proof fn law_mutation(s: StoreView, e: EntryView)
    requires
        s.backed(),
        fits(e),
        e.seq == s.engine.seq + 1,
    ensures
        s.mutated(e).backed(),
        s.mutated(e).contents() == executed(s.contents(), operation_of(e)),
        seq_held(s.mutated(e).layers(), s.mutated(e).engine.seq),
{
    let runs = s.runs;
    let active = s.engine.active;
    let history = s.history;
    let after = s.mutated(e);
    let old_layers = s.layers();
    let new_layers = after.layers();
    let m = runs.len() as int;
    lemma_upserted(active, e);
    law_read_your_writes(runs, active, e);
    assert(history.push(e).drop_last() =~= history);
    lemma_max_seq_push(history, e);
    assert forall|i: int| 0 <= i < history.push(e).len() implies fits(
        #[trigger] history.push(e)[i],
    ) by {
        if i < history.len() {
            assert(fits(history[i]));
        }
    }
    assert forall|i: int, x: EntryView|
        0 <= i < new_layers.len() && #[trigger] new_layers[i].contains(x) implies x == e
        || old_layers[i].contains(x) by {
        if i == m {
            lemma_upserted_holds(active, e, x);
        }
    }
    assert forall|i: int| 0 <= i < new_layers.len() implies is_run(#[trigger] new_layers[i]) by {
        assert(is_run(old_layers[i]));
    }
    assert forall|i: int, j: int, x: EntryView, y: EntryView|
        0 <= i < j < new_layers.len() && #[trigger] new_layers[i].contains(x)
            && #[trigger] new_layers[j].contains(y) && x.key == y.key implies x.seq < y.seq || x
        == y by {
        assert(old_layers[i].contains(x));
        if j == m {
            lemma_upserted_holds(active, e, y);
        }
        if y != e {
            assert(old_layers[j].contains(y));
        }
    }
    let n = choose|n: int| #[trigger] flushed_up_to(active, runs, history, n);
    assert(flushed_up_to(after.engine.active, runs, after.history, n)) by {
        assert(after.history.take(n) =~= history.take(n));
        assert(after.history.skip(n) =~= history.skip(n).push(e));
        assert(history.skip(n).push(e).drop_last() =~= history.skip(n));
    }
    lemma_upserted_latest(active, e, e.key);
    lemma_latest_is_there(upserted(active, e), e.key);
    assert(new_layers[m].contains(e));
}

/// What the record of a set means is to put that value under that key, whatever they are, and
/// what that of a deletion means is to delete that key.
pub proof fn law_records_mean_what_was_asked(key: Seq<u8>, value: Seq<u8>, seq: u64)
    ensures
        operation_of(put_entry(key, value, seq)) == Operation::Put(key, value),
        operation_of(tombstone(key, seq)) == Operation::Delete(key),
{
}

/// A get gives back what the store holds: all of the value that is under the key, or nothing
/// where there is none. It does not fail.
pub proof fn law_get_returns_what_is_stored(
    s: StoreView,
    key: Seq<u8>,
    r: Result<Option<Value>, StoreError>,
)
    requires
        s.backed(),
        reads_as(r, s.engine.lookup(s.files, key)),
    ensures
        r is Ok,
        s.contents().dom().contains(key) ==> r->Ok_0 is Some && r->Ok_0->Some_0@
            == s.contents()[key],
        !s.contents().dom().contains(key) ==> r->Ok_0 is None,
{
    law_read_sees_newest_layer(s.engine, s.files, s.runs, key);
}

/// A set, once it is logged and applied, is read back: a get of that key gives that value,
/// every byte of it, whatever the key, the value, and what was there before. The key counts
/// whole: a get of any other key gives what it gave before.
pub proof fn law_set_is_read_back(
    s: StoreView,
    key: Seq<u8>,
    value: Seq<u8>,
    other: Seq<u8>,
    r: Result<Option<Value>, StoreError>,
)
    requires
        s.backed(),
        s.engine.seq < u64::MAX,
        key.len() + value.len() + 28 < 0x1_0000_0000,
    ensures
        ({
            let after = s.mutated(put_entry(key, value, (s.engine.seq + 1) as u64));
            &&& after.backed()
            &&& after.contents() == s.contents().insert(key, value)
            &&& reads_as(r, after.engine.lookup(after.files, key)) ==> r is Ok && r->Ok_0 is Some
                && r->Ok_0->Some_0@ == value
            &&& other != key && reads_as(r, after.engine.lookup(after.files, other)) ==> reads_as(
                r,
                s.engine.lookup(s.files, other),
            )
        }),
{
    let e = put_entry(key, value, (s.engine.seq + 1) as u64);
    let after = s.mutated(e);
    law_what_fits(e, Seq::empty());
    law_mutation(s, e);
    if reads_as(r, after.engine.lookup(after.files, key)) {
        law_get_returns_what_is_stored(after, key, r);
    }
    if other != key && reads_as(r, after.engine.lookup(after.files, other)) {
        lemma_reads_alike(s, after, other, r);
    }
}

/// A deletion, once it is logged and applied, takes the key away, and nothing else: a get of
/// that key gives nothing, whatever older tables hold of it, and a get of any other key gives
/// what it gave before.
pub proof fn law_delete_is_read_back(
    s: StoreView,
    key: Seq<u8>,
    other: Seq<u8>,
    r: Result<Option<Value>, StoreError>,
)
    requires
        s.backed(),
        s.engine.seq < u64::MAX,
        key.len() + 28 < 0x1_0000_0000,
    ensures
        ({
            let after = s.mutated(tombstone(key, (s.engine.seq + 1) as u64));
            &&& after.backed()
            &&& after.contents() == s.contents().remove(key)
            &&& reads_as(r, after.engine.lookup(after.files, key)) ==> r == Ok::<
                Option<Value>,
                StoreError,
            >(None)
            &&& other != key && reads_as(r, after.engine.lookup(after.files, other)) ==> reads_as(
                r,
                s.engine.lookup(s.files, other),
            )
        }),
{
    let e = tombstone(key, (s.engine.seq + 1) as u64);
    let after = s.mutated(e);
    law_what_fits(e, Seq::empty());
    law_mutation(s, e);
    if reads_as(r, after.engine.lookup(after.files, key)) {
        law_get_returns_what_is_stored(after, key, r);
    }
    if other != key && reads_as(r, after.engine.lookup(after.files, other)) {
        lemma_reads_alike(s, after, other, r);
    }
}

/// Two stores that hold the same under a key are read alike.
proof fn lemma_reads_alike(
    a: StoreView,
    b: StoreView,
    key: Seq<u8>,
    r: Result<Option<Value>, StoreError>,
)
    requires
        a.backed(),
        b.backed(),
        stored(a.contents(), key) == stored(b.contents(), key),
        reads_as(r, b.engine.lookup(b.files, key)),
    ensures
        reads_as(r, a.engine.lookup(a.files, key)),
{
    law_read_sees_newest_layer(a.engine, a.files, a.runs, key);
    law_read_sees_newest_layer(b.engine, b.files, b.runs, key);
}

/// Numbers given out, and a compaction that starts or ends, do not concern what is on
/// disk and what is read.
proof fn lemma_same_store(s: StoreView, after: StoreView)
    requires
        s.backed(),
        after.engine.wf(),
        after.engine.tables == s.engine.tables,
        after.engine.active == s.engine.active,
        after.engine.seq >= s.engine.seq,
        after.files == s.files,
        after.runs == s.runs,
        after.log == s.log,
        after.history == s.history,
    ensures
        after.backed(),
        after.contents() == s.contents(),
{
    let n = choose|n: int| #[trigger] flushed_up_to(s.engine.active, s.runs, s.history, n);
    assert(flushed_up_to(after.engine.active, after.runs, after.history, n));
    assert(after.layers() == s.layers());
    assert forall|i: int, x: EntryView|
        0 <= i < after.layers().len() && #[trigger] after.layers()[i].contains(x) implies x.seq
        <= after.engine.seq by {
        assert(s.layers()[i].contains(x));
    }
}

/// A mutation that is refused, or whose record could not be written and was cut off
/// again, leaves the contents as they were.
pub proof fn law_refused_mutation(s: StoreView)
    requires
        s.backed(),
        s.engine.seq < u64::MAX,
    ensures
        s.refused().backed(),
        s.refused().contents() == s.contents(),
{
    lemma_same_store(s, s.refused());
}

/// Every version that a read can come to is on disk: in the log or in a table.
pub proof fn law_every_version_is_durable(s: StoreView, key: Seq<u8>)
    requires
        s.backed(),
    ensures
        layered(s.layers(), key) matches Some(e) ==> {
            ||| s.history.contains(e)
            ||| exists|i: int| 0 <= i < s.runs.len() && #[trigger] s.runs[i].contains(e)
        },
{
    let active = s.engine.active;
    let n = choose|n: int| #[trigger] flushed_up_to(active, s.runs, s.history, n);
    let fresh = s.history.skip(n);
    lemma_layered_push(s.runs, active, key);
    lemma_latest_is_there(active, key);
    if latest(active, key) is Some {
        let e = latest(active, key)->Some_0;
        lemma_applied_holds(fresh, e);
        let i = choose|i: int| 0 <= i < fresh.len() && fresh[i] == e;
        assert(s.history[n + i] == e);
    } else {
        lemma_layered_is_there(s.runs, key);
    }
}

proof fn lemma_applied_holds(history: Seq<EntryView>, x: EntryView)
    requires
        applied(Seq::empty(), history).contains(x),
    ensures
        history.contains(x),
    decreases history.len(),
{
    if history.len() > 0 {
        let front = history.drop_last();
        assert(is_run(Seq::<EntryView>::empty()));
        lemma_applied(Seq::empty(), front);
        lemma_upserted_holds(applied(Seq::empty(), front), history.last(), x);
        if x == history.last() {
            assert(history[history.len() - 1] == x);
        } else {
            lemma_applied_holds(front, x);
            let i = choose|i: int| 0 <= i < front.len() && front[i] == x;
            assert(history[i] == x);
        }
    }
}

// Flushes.

/// An empty newest layer changes nothing.
proof fn lemma_layers_push_empty(layers: Seq<Seq<EntryView>>, seq: u64)
    requires
        layers_ordered(layers),
        seqs_within(layers, seq),
    ensures
        layers_ordered(layers.push(Seq::empty())),
        seqs_within(layers.push(Seq::empty()), seq),
        visible(layers.push(Seq::empty())) == visible(layers),
{
    let none = Seq::<EntryView>::empty();
    let more = layers.push(none);
    let n = layers.len() as int;
    assert(is_run(none));
    assert forall|i: int| 0 <= i < more.len() implies is_run(#[trigger] more[i]) by {
        if i < n {
            assert(is_run(layers[i]));
        }
    }
    assert forall|i: int, x: EntryView|
        0 <= i < more.len() && #[trigger] more[i].contains(x) implies i < n && layers[i].contains(
        x,
    ) by {
    }
    assert forall|key: Seq<u8>| resolved(#[trigger] layered(more, key)) == resolved(
        layered(layers, key),
    ) by {
        lemma_layered_push(layers, none, key);
    }
    lemma_same_view(more, layers);
}

proof fn lemma_served_push(
    tables: Seq<NumberedView>,
    files: Seq<Seq<u8>>,
    runs: Seq<Seq<EntryView>>,
    table: NumberedView,
    file: Seq<u8>,
    run: Seq<EntryView>,
)
    requires
        served(tables, files, runs),
        serves(table.table, file, run),
    ensures
        served(tables.push(table), files.push(file), runs.push(run)),
{
    let new_tables = tables.push(table);
    let new_files = files.push(file);
    let new_runs = runs.push(run);
    assert forall|i: int| 0 <= i < new_runs.len() implies serves(
        (#[trigger] new_tables[i]).table,
        new_files[i],
        new_runs[i],
    ) by {
        if i < runs.len() {
            assert(serves(tables[i].table, files[i], runs[i]));
        }
    }
}

/// Once the memtable is a table, everything in the log is in the tables.
#[verifier::spinoff_prover]
#[verifier::rlimit(40)]
proof fn lemma_flush_settles(s: StoreView)
    requires
        s.backed(),
    ensures
        settled(s.runs.push(s.engine.active), s.history),
{
    let runs = s.runs;
    let active = s.engine.active;
    let history = s.history;
    let more = runs.push(active);
    let n = choose|n: int| #[trigger] flushed_up_to(active, runs, history, n);
    let old = history.take(n);
    let fresh = history.skip(n);
    let m = runs.len() as int;
    assert(is_run(Seq::<EntryView>::empty()));
    assert(is_run(active));
    assert forall|key: Seq<u8>| (#[trigger] latest(history, key)) is Some implies agrees(
        more,
        key,
        latest(history, key)->Some_0,
    ) by {
        let x = latest(history, key)->Some_0;
        assert(old + fresh =~= history);
        lemma_latest_add(old, fresh, key);
        lemma_applied_latest(Seq::empty(), fresh, key);
        lemma_layered_push(runs, active, key);
        lemma_latest_is_there(active, key);
        if latest(fresh, key) is Some {
            assert(active.contains(x));
            assert(s.layers()[m].contains(x));
        } else {
            assert(latest(old, key) == Some(x));
        }
        assert forall|i: int, z: EntryView|
            0 <= i < more.len() && #[trigger] more[i].contains(z) && z.key == key implies z.seq
            < x.seq || z == x by {
            if i == m {
                let a = choose|a: int| 0 <= a < active.len() && active[a] == z;
                lemma_latest_in_run(active, a);
            } else {
                assert(runs[i].contains(z));
                assert(s.layers()[i].contains(z));
            }
        }
    }
}

/// A flush changes nothing that a reader sees: once what the memtable held is in a new
/// table, and the memtable is empty, engine and disk still belong together, whether
/// the log could be emptied or not.
#[verifier::spinoff_prover]
#[verifier::rlimit(40)]
pub proof fn law_flush(s: StoreView, table: TableView, file: Seq<u8>, emptied: bool)
    requires
        s.backed(),
        s.engine.next_sst < u64::MAX,
        serves(table, file, s.engine.active),
        !table.superseding,
    ensures
        s.flushed(table, file, emptied).backed(),
        s.flushed(table, file, emptied).contents() == s.contents(),
        seq_held(s.layers(), s.engine.seq) ==> seq_held(
            s.flushed(table, file, emptied).layers(),
            s.engine.seq,
        ),
{
    let after = s.flushed(table, file, emptied);
    let number = (s.engine.next_sst + 1) as u64;
    let none = Seq::<EntryView>::empty();
    lemma_layers_push_empty(s.layers(), s.engine.seq);
    lemma_served_push(
        s.engine.tables,
        s.files,
        s.runs,
        NumberedView { number, table },
        file,
        s.engine.active,
    );
    assert(is_run(none));
    lemma_flush_settles(s);
    let n = after.history.len() as int;
    assert(after.history.skip(n) =~= none);
    assert(after.history.take(n) =~= after.history);
    assert(records_enc(none) =~= Seq::<u8>::empty());
    assert(flushed_up_to(after.engine.active, after.runs, after.history, n));
    if s.engine.seq != 0 && seq_held(s.layers(), s.engine.seq) {
        let (i, x) = choose|i: int, x: EntryView|
            0 <= i < s.layers().len() && #[trigger] s.layers()[i].contains(x) && x.seq
                == s.engine.seq;
        assert(after.layers()[i].contains(x));
    }
}

/// A flush that fails loses nothing: the memtable still holds what it held, and so
/// does the log.
pub proof fn law_failed_flush(s: StoreView)
    requires
        s.backed(),
        s.engine.next_sst < u64::MAX,
    ensures
        s.flush_failed().backed(),
        s.flush_failed().contents() == s.contents(),
        s.flush_failed().engine.active == s.engine.active,
        s.flush_failed().log == s.log,
{
    lemma_same_store(s, s.flush_failed());
}

// Compactions.

/// Starting a compaction changes nothing that a reader sees.
pub proof fn law_compaction_starts(s: StoreView)
    requires
        s.backed(),
        s.engine.next_sst < u64::MAX,
        s.engine.compactable(),
        s.engine.tables.len() <= usize::MAX,
    ensures
        s.compacting().backed(),
        s.compacting().contents() == s.contents(),
{
    lemma_same_store(s, s.compacting());
}

/// Giving a compaction up changes nothing that a reader sees.
pub proof fn law_compaction_cancelled(s: StoreView)
    requires
        s.backed(),
    ensures
        s.compaction_cancelled().backed(),
        s.compaction_cancelled().contents() == s.contents(),
{
    lemma_same_store(s, s.compaction_cancelled());
}

proof fn lemma_compacted_served(
    tables: Seq<NumberedView>,
    files: Seq<Seq<u8>>,
    runs: Seq<Seq<EntryView>>,
    n: int,
    output: NumberedView,
    file: Seq<u8>,
    merged: Seq<EntryView>,
)
    requires
        served(tables, files, runs),
        0 <= n <= runs.len(),
        serves(output.table, file, merged),
    ensures
        served(
            seq![output] + tables.skip(n),
            seq![file] + files.skip(n),
            seq![merged] + runs.skip(n),
        ),
{
    let new_tables = seq![output] + tables.skip(n);
    let new_files = seq![file] + files.skip(n);
    let new_runs = seq![merged] + runs.skip(n);
    assert forall|i: int| 0 <= i < new_runs.len() implies serves(
        (#[trigger] new_tables[i]).table,
        new_files[i],
        new_runs[i],
    ) by {
        if i > 0 {
            assert(serves(tables[n + i - 1].table, files[n + i - 1], runs[n + i - 1]));
        }
    }
}

/// What is in the tables stays there when some of them are merged.
proof fn lemma_merge_settles(
    runs: Seq<Seq<EntryView>>,
    n: int,
    merged: Seq<EntryView>,
    entries: Seq<EntryView>,
    seq: u64,
)
    requires
        layers_ordered(runs),
        seqs_within(runs, seq),
        0 <= n <= runs.len(),
        merges(merged, concatenated(runs.take(n)), true),
        settled(runs, entries),
    ensures
        settled(seq![merged] + runs.skip(n), entries),
{
    let after = seq![merged] + runs.skip(n);
    law_merge_keeps_contents(runs, n, merged, seq);
    assert forall|key: Seq<u8>| (#[trigger] latest(entries, key)) is Some implies agrees(
        after,
        key,
        latest(entries, key)->Some_0,
    ) by {
        let x = latest(entries, key)->Some_0;
        lemma_visible(after, key);
        lemma_visible(runs, key);
        assert forall|i: int, z: EntryView|
            0 <= i < after.len() && #[trigger] after[i].contains(z) && z.key == key implies z.seq
            < x.seq || z == x by {
            if i == 0 {
                lemma_merged_holds(runs, n, merged, z);
            } else {
                assert(runs[n + i - 1].contains(z));
            }
        }
    }
}

/// A compaction changes nothing that a reader sees: once its output has taken the
/// place of its inputs, engine and disk still belong together.
#[verifier::spinoff_prover]
#[verifier::rlimit(40)]
pub proof fn law_compaction(s: StoreView, output: TableView, file: Seq<u8>, merged: Seq<EntryView>)
    requires
        s.backed(),
        s.compacts_to(output, file, merged),
    ensures
        s.compacted(output, file, merged).backed(),
        s.compacted(output, file, merged).contents() == s.contents(),
{
    let job = s.engine.job->Some_0;
    let n = job.inputs as int;
    let after = s.compacted(output, file, merged);
    let layers = s.layers();
    let m = s.runs.len() as int;
    assert(layers.take(n) =~= s.runs.take(n));
    law_merge_keeps_contents(layers, n, merged, s.engine.seq);
    assert(seq![merged] + layers.skip(n) =~= after.layers());
    let installed = NumberedView { number: job.number, table: output };
    lemma_compacted_served(s.engine.tables, s.files, s.runs, n, installed, file, merged);
    assert forall|i: int| 0 < i < after.engine.tables.len() implies #[trigger] after.engine.tables[i]
        == s.engine.tables[n + i - 1] by {
    }
    let flushed = choose|k: int| #[trigger] flushed_up_to(s.engine.active, s.runs, s.history, k);
    lemma_older_layers_ordered(layers, m);
    assert(layers.take(m) =~= s.runs);
    assert(seqs_within(s.runs, s.engine.seq)) by {
        assert forall|i: int, x: EntryView|
            0 <= i < s.runs.len() && #[trigger] s.runs[i].contains(x) implies x.seq
            <= s.engine.seq by {
            assert(layers[i].contains(x));
        }
    }
    lemma_merge_settles(s.runs, n, merged, s.history.take(flushed), s.engine.seq);
    assert(flushed_up_to(after.engine.active, after.runs, after.history, flushed));
}

/// Scanning the oldest tables for a compaction does not fail, and yields the runs
/// that were written out as those tables.
pub proof fn law_scans_yield_the_runs(
    tables: Seq<NumberedView>,
    files: Seq<Seq<u8>>,
    runs: Seq<Seq<EntryView>>,
    inputs: Seq<TableFile>,
    scanned: Seq<Seq<EntryView>>,
    error: StoreError,
)
    requires
        served(tables, files, runs),
        inputs.len() <= tables.len(),
        forall|i: int|
            0 <= i < inputs.len() ==> (#[trigger] inputs[i]).table@ == tables[i].table
                && inputs[i].bytes@ == files[i],
    ensures
        !some_scan_fails(inputs, error),
        all_scanned(inputs, scanned) <==> scanned == runs.take(inputs.len() as int),
{
    assert forall|i: int| 0 <= i < inputs.len() implies (#[trigger] inputs[i]).scanned() == Ok::<
        Seq<EntryView>,
        StoreError,
    >(runs[i]) by {
        assert(serves(tables[i].table, files[i], runs[i]));
        law_scan_returns_the_run(tables[i].table, files[i], runs[i]);
    }
    let expected = runs.take(inputs.len() as int);
    if all_scanned(inputs, scanned) {
        assert forall|i: int| 0 <= i < scanned.len() implies scanned[i] == expected[i] by {
            assert(inputs[i].scanned() == Ok::<Seq<EntryView>, StoreError>(scanned[i]));
        }
        assert(scanned =~= expected);
    }
}

/// The entries that a compaction keeps can be written out, since they were read
/// from tables.
pub proof fn law_compaction_output_fits(
    tables: Seq<NumberedView>,
    files: Seq<Seq<u8>>,
    runs: Seq<Seq<EntryView>>,
    n: int,
    merged: Seq<EntryView>,
)
    requires
        served(tables, files, runs),
        0 <= n <= runs.len(),
        merges(merged, concatenated(runs.take(n)), true),
    ensures
        is_run(merged),
        all_fit(merged),
{
    assert forall|a: int| 0 <= a < merged.len() implies fits(#[trigger] merged[a]) by {
        let x = merged[a];
        assert(merged.contains(x));
        lemma_merged_holds(runs, n, merged, x);
        let i = choose|i: int| 0 <= i < n && #[trigger] runs[i].contains(x);
        assert(serves(tables[i].table, files[i], runs[i]));
        let b = choose|b: int| 0 <= b < runs[i].len() && runs[i][b] == x;
        assert(fits(runs[i][b]));
    }
}

// Recovery.

proof fn lemma_max_seq(entries: Seq<EntryView>)
    ensures
        forall|x: EntryView| #[trigger] entries.contains(x) ==> x.seq <= max_seq_of(entries),
        max_seq_of(entries) == 0 || exists|i: int|
            0 <= i < entries.len() && (#[trigger] entries[i]).seq == max_seq_of(entries),
    decreases entries.len(),
{
    if entries.len() > 0 {
        let front = entries.drop_last();
        lemma_max_seq(front);
        assert forall|x: EntryView| #[trigger] entries.contains(x) implies x.seq <= max_seq_of(
            entries,
        ) by {
            let i = choose|i: int| 0 <= i < entries.len() && entries[i] == x;
            if i < front.len() {
                assert(front[i] == x);
                assert(front.contains(x));
            }
        }
        if max_seq_of(entries) == entries.last().seq {
            assert(entries[entries.len() - 1].seq == max_seq_of(entries));
        } else if max_seq_of(front) != 0 {
            let i = choose|i: int|
                0 <= i < front.len() && (#[trigger] front[i]).seq == max_seq_of(front);
            assert(entries[i].seq == max_seq_of(entries));
        }
    }
}

proof fn lemma_highest_seq(tables: Seq<NumberedView>)
    ensures
        forall|i: int|
            0 <= i < tables.len() ==> (#[trigger] tables[i]).table.max_seq <= highest_seq(tables),
        highest_seq(tables) == 0 || exists|i: int|
            0 <= i < tables.len() && (#[trigger] tables[i]).table.max_seq == highest_seq(tables),
    decreases tables.len(),
{
    if tables.len() > 0 {
        let front = tables.drop_last();
        lemma_highest_seq(front);
        assert forall|i: int| 0 <= i < tables.len() implies (#[trigger] tables[i]).table.max_seq
            <= highest_seq(tables) by {
            if i < front.len() {
                assert(front[i] == tables[i]);
            }
        }
        if highest_seq(tables) == tables.last().table.max_seq {
            assert(tables[tables.len() - 1].table.max_seq == highest_seq(tables));
        } else if highest_seq(front) != 0 {
            let i = choose|i: int|
                0 <= i < front.len() && (#[trigger] front[i]).table.max_seq == highest_seq(front);
            assert(tables[i].table.max_seq == highest_seq(tables));
        }
    }
}

proof fn lemma_cutoff(tables: Seq<NumberedView>)
    ensures
        forall|i: int|
            0 <= i < tables.len() && (#[trigger] tables[i]).table.superseding ==> tables[i].number
                <= cutoff_of(tables),
        cutoff_of(tables) == 0 || exists|i: int|
            0 <= i < tables.len() && (#[trigger] tables[i]).table.superseding && tables[i].number
                == cutoff_of(tables),
    decreases tables.len(),
{
    if tables.len() > 0 {
        let front = tables.drop_last();
        lemma_cutoff(front);
        assert forall|i: int|
            0 <= i < tables.len() && (#[trigger] tables[i]).table.superseding implies tables[i].number
            <= cutoff_of(tables) by {
            if i < front.len() {
                assert(front[i] == tables[i]);
            }
        }
        if cutoff_of(tables) != cutoff_of(front) {
            assert(tables[tables.len() - 1].number == cutoff_of(tables));
        } else if cutoff_of(front) != 0 {
            let i = choose|i: int|
                0 <= i < front.len() && (#[trigger] front[i]).table.superseding && front[i].number
                    == cutoff_of(front);
            assert(tables[i].number == cutoff_of(tables));
        }
    }
}

/// What the whole log comes to, where part of it is in the tables already, looks to a
/// reader like what the rest of it comes to.
#[verifier::spinoff_prover]
#[verifier::rlimit(40)]
proof fn lemma_replay_whole(s: StoreView)
    requires
        s.backed(),
    ensures
        ({
            let active = applied(Seq::empty(), s.history);
            &&& is_run(active)
            &&& layers_ordered(s.runs.push(active))
            &&& visible(s.runs.push(active)) == s.contents()
        }),
{
    let runs = s.runs;
    let history = s.history;
    let old_active = s.engine.active;
    let active = applied(Seq::empty(), history);
    let none = Seq::<EntryView>::empty();
    let n = choose|n: int| #[trigger] flushed_up_to(old_active, runs, history, n);
    let old = history.take(n);
    let fresh = history.skip(n);
    let old_layers = s.layers();
    let layers = runs.push(active);
    let m = runs.len() as int;
    assert(is_run(none));
    lemma_applied(none, history);
    assert(old + fresh =~= history);
    assert forall|key: Seq<u8>| resolved(#[trigger] layered(layers, key)) == resolved(
        layered(old_layers, key),
    ) by {
        lemma_latest_add(old, fresh, key);
        lemma_applied_latest(none, history, key);
        lemma_applied_latest(none, fresh, key);
        lemma_layered_push(runs, active, key);
        lemma_layered_push(runs, old_active, key);
        if latest(old, key) is Some {
            assert(agrees(runs, key, latest(old, key)->Some_0));
        }
    }
    lemma_same_view(layers, old_layers);
    assert forall|i: int| 0 <= i < layers.len() implies is_run(#[trigger] layers[i]) by {
        assert(is_run(old_layers[i]));
    }
    assert forall|i: int, j: int, x: EntryView, y: EntryView|
        0 <= i < j < layers.len() && #[trigger] layers[i].contains(x)
            && #[trigger] layers[j].contains(y) && x.key == y.key implies x.seq < y.seq || x
        == y by {
        assert(old_layers[i].contains(x));
        if j < m {
            assert(old_layers[j].contains(y));
        } else {
            let key = y.key;
            let a = choose|a: int| 0 <= a < active.len() && active[a] == y;
            lemma_latest_in_run(active, a);
            lemma_latest_add(old, fresh, key);
            lemma_applied_latest(none, history, key);
            lemma_applied_latest(none, fresh, key);
            if latest(fresh, key) is Some {
                lemma_latest_is_there(old_active, key);
                assert(old_active.contains(y));
                assert(old_layers[m].contains(y));
            } else {
                assert(latest(old, key) == Some(y));
                assert(runs[i].contains(x));
            }
        }
    }
}

/// The sequence number that the tables and the log give: no version has a higher one,
/// and it is that of the engine, if a version has that.
#[verifier::spinoff_prover]
#[verifier::rlimit(40)]
proof fn lemma_recovered_seq(s: StoreView)
    requires
        s.backed(),
    ensures
        ({
            let seq = larger(highest_seq(s.engine.tables), max_seq_of(s.history));
            &&& seqs_within(s.runs.push(applied(Seq::empty(), s.history)), seq)
            &&& seq <= s.engine.seq
            &&& seq_held(s.layers(), s.engine.seq) ==> seq == s.engine.seq
        }),
{
    let tables = s.engine.tables;
    let runs = s.runs;
    let history = s.history;
    let seq = larger(highest_seq(tables), max_seq_of(history));
    let layers = runs.push(applied(Seq::empty(), history));
    let m = runs.len() as int;
    lemma_highest_seq(tables);
    lemma_max_seq(history);
    assert forall|i: int, x: EntryView|
        0 <= i < m && #[trigger] runs[i].contains(x) implies x.seq <= highest_seq(tables) by {
        lemma_max_seq(runs[i]);
        assert(serves(tables[i].table, s.files[i], runs[i]));
    }
    assert forall|i: int, x: EntryView|
        0 <= i < layers.len() && #[trigger] layers[i].contains(x) implies x.seq <= seq by {
        if i < m {
            assert(runs[i].contains(x));
        } else {
            lemma_applied_holds(history, x);
        }
    }
    if highest_seq(tables) != 0 {
        let i = choose|i: int|
            0 <= i < tables.len() && (#[trigger] tables[i]).table.max_seq == highest_seq(tables);
        assert(serves(tables[i].table, s.files[i], runs[i]));
        lemma_max_seq(runs[i]);
        let a = choose|a: int|
            0 <= a < runs[i].len() && (#[trigger] runs[i][a]).seq == max_seq_of(runs[i]);
        assert(s.layers()[i].contains(runs[i][a]));
    }
    if s.engine.seq != 0 && seq_held(s.layers(), s.engine.seq) {
        let (i, x) = choose|i: int, x: EntryView|
            0 <= i < s.layers().len() && #[trigger] s.layers()[i].contains(x) && x.seq
                == s.engine.seq;
        if i < m {
            assert(runs[i].contains(x));
        } else {
            let n = choose|n: int| #[trigger] flushed_up_to(s.engine.active, runs, history, n);
            let fresh = history.skip(n);
            lemma_applied_holds(fresh, x);
            let a = choose|a: int| 0 <= a < fresh.len() && fresh[a] == x;
            assert(history[n + a] == x);
            assert(history.contains(x));
        }
    }
}

/// A store that opens on tables of which those survive that it had belongs together
/// with them and with the log.
#[verifier::spinoff_prover]
#[verifier::rlimit(40)]
proof fn lemma_opened_backed(
    s: StoreView,
    tables: Seq<NumberedView>,
    threshold: usize,
    compaction_threshold: usize,
)
    requires
        s.backed(),
        survivors(tables) == s.engine.tables,
    ensures
        ({
            let after = s.opened_on(tables, threshold, compaction_threshold);
            &&& after.backed()
            &&& after.contents() == s.contents()
            &&& after.engine.tables == s.engine.tables
            &&& after.engine.seq <= s.engine.seq
            &&& seq_held(s.layers(), s.engine.seq) ==> after.engine.seq == s.engine.seq
        }),
{
    let after = s.opened_on(tables, threshold, compaction_threshold);
    let history = s.history;
    lemma_recovered_seq(s);
    lemma_replay_whole(s);
    assert(after.engine.tables == s.engine.tables);
    assert(after.layers() == s.runs.push(applied(Seq::empty(), history)));
    assert(after.engine.wf()) by {
        lemma_highest_number(s.engine.tables);
    }
    assert(max_seq_of(history) <= after.engine.seq);
    assert(flushed_up_to(after.engine.active, s.runs, history, 0)) by {
        assert(history.skip(0) =~= history);
        assert(history.take(0).len() == 0);
    }
}

/// Opening a directory again brings the store back: the log replays to its entries,
/// none of it is cut off, no table is superseded, and the contents are the same. So
/// are the memtable, unless the log still held what was flushed, and the sequence
/// number, unless its last holders came to nothing or were compacted away; it is never
/// below that of a version there is.
#[verifier::spinoff_prover]
#[verifier::rlimit(40)]
pub proof fn law_reopen(s: StoreView, threshold: usize, compaction_threshold: usize)
    requires
        s.backed(),
    ensures
        replayed(s.log) == Ok::<Seq<EntryView>, StoreError>(s.history),
        whole_len(s.log) == s.log.len(),
        superseded(s.engine.tables).len() == 0,
        s.reopened(threshold, compaction_threshold).backed(),
        s.reopened(threshold, compaction_threshold).contents() == s.contents(),
        s.reopened(threshold, compaction_threshold).engine.tables == s.engine.tables,
        s.engine.active == applied(Seq::empty(), s.history) ==> s.reopened(
            threshold,
            compaction_threshold,
        ).engine.active == s.engine.active,
        s.reopened(threshold, compaction_threshold).engine.seq <= s.engine.seq,
        seq_held(s.layers(), s.engine.seq) ==> s.reopened(
            threshold,
            compaction_threshold,
        ).engine.seq == s.engine.seq,
{
    let tables = s.engine.tables;
    law_replay_returns_what_was_appended(s.history);
    lemma_whole_records(s.history, Seq::empty());
    assert(s.log + Seq::<u8>::empty() =~= s.log);
    lemma_cutoff(tables);
    if cutoff_of(tables) != 0 {
        let i = choose|i: int|
            0 <= i < tables.len() && (#[trigger] tables[i]).table.superseding && tables[i].number
                == cutoff_of(tables);
        assert(i == 0);
    }
    lemma_survivors_are_last(tables, 0);
    assert(tables.skip(0) =~= tables);
    lemma_opened_backed(s, tables, threshold, compaction_threshold);
}

/// A crash while a mutation is being appended to the log: the store that opens
/// afterwards, on the whole records of the log, has the contents from before the
/// mutation, if part of its record is missing, and those from after it, if none is. And
/// what is appended from then on is replayed when the store is opened again.
#[verifier::spinoff_prover]
#[verifier::rlimit(40)]
pub proof fn law_crash_in_append(
    s: StoreView,
    e: EntryView,
    written: nat,
    threshold: usize,
    compaction_threshold: usize,
    next: EntryView,
)
    requires
        s.backed(),
        fits(e),
        e.seq == s.engine.seq + 1,
        written <= record_enc(e).len(),
        fits(next),
    ensures
        ({
            let whole = written == record_enc(e).len();
            let known = if whole {
                s.history.push(e)
            } else {
                s.history
            };
            let after = s.append_torn(e, written, threshold, compaction_threshold);
            &&& replayed(s.torn_log(e, written)) == Ok::<Seq<EntryView>, StoreError>(known)
            &&& after.log == records_enc(known)
            &&& after.backed()
            &&& after.contents() == if whole {
                executed(s.contents(), operation_of(e))
            } else {
                s.contents()
            }
            &&& replayed(after.log + record_enc(next)) == Ok::<Seq<EntryView>, StoreError>(
                known.push(next),
            )
        }),
{
    let after = s.append_torn(e, written, threshold, compaction_threshold);
    let log = s.torn_log(e, written);
    if written == record_enc(e).len() {
        law_mutation(s, e);
        law_reopen(s.mutated(e), threshold, compaction_threshold);
        assert(record_enc(e).take(written as int) =~= record_enc(e));
        assert(log.take(log.len() as int) =~= log);
        assert(after =~= s.mutated(e).reopened(threshold, compaction_threshold));
    } else {
        law_torn_tail_is_discarded(s.history, e, written);
        law_torn_tail_is_cut_off(s.history, e, written);
        law_reopen(s, threshold, compaction_threshold);
        assert(after =~= s.reopened(threshold, compaction_threshold));
    }
    law_append_after_reopen(log, next);
}

/// A crash in a flush, after the new table became durable and before the log was
/// emptied: the store that opens afterwards has the same contents, though it finds the
/// same versions in the table and in the log.
pub proof fn law_crash_in_flush(
    s: StoreView,
    table: TableView,
    file: Seq<u8>,
    threshold: usize,
    compaction_threshold: usize,
)
    requires
        s.backed(),
        s.engine.next_sst < u64::MAX,
        serves(table, file, s.engine.active),
        !table.superseding,
    ensures
        s.flushed(table, file, false).reopened(threshold, compaction_threshold).backed(),
        s.flushed(table, file, false).reopened(threshold, compaction_threshold).contents()
            == s.contents(),
{
    law_flush(s, table, file, false);
    law_reopen(s.flushed(table, file, false), threshold, compaction_threshold);
}

proof fn lemma_ordered_join(a: Seq<NumberedView>, b: Seq<NumberedView>, between: u64)
    requires
        numbers_ordered(a),
        numbers_ordered(b),
        forall|i: int| 0 <= i < a.len() ==> (#[trigger] a[i]).number <= between,
        forall|i: int| 0 <= i < b.len() ==> between <= (#[trigger] b[i]).number,
    ensures
        numbers_ordered(a + b),
{
    let all = a + b;
    let m = a.len() as int;
    assert forall|i: int, j: int| 0 <= i <= j < all.len() implies (#[trigger] all[i]).number <= (
    #[trigger] all[j]).number by {
        if j < m {
            assert(a[i].number <= a[j].number);
        } else if i < m {
            assert(a[i].number <= between <= b[j - m].number);
        } else {
            assert(b[i - m].number <= b[j - m].number);
        }
    }
}

/// Tables that supersede nothing do not move the cutoff.
proof fn lemma_cutoff_unmoved(first: Seq<NumberedView>, later: Seq<NumberedView>)
    requires
        forall|i: int| 0 <= i < later.len() ==> !(#[trigger] later[i]).table.superseding,
    ensures
        cutoff_of(first + later) == cutoff_of(first),
    decreases later.len(),
{
    if later.len() == 0 {
        assert(first + later =~= first);
    } else {
        let front = later.drop_last();
        assert((first + later).drop_last() =~= first + front);
        assert((first + later).last() == later[later.len() - 1]);
        assert forall|i: int| 0 <= i < front.len() implies !(
        #[trigger] front[i]).table.superseding by {
            assert(front[i] == later[i]);
        }
        lemma_cutoff_unmoved(first, front);
    }
}

proof fn lemma_cutoff_at(
    older: Seq<NumberedView>,
    output: NumberedView,
    later: Seq<NumberedView>,
)
    requires
        output.table.superseding,
        forall|i: int| 0 <= i < older.len() ==> (#[trigger] older[i]).number < output.number,
        forall|i: int| 0 <= i < later.len() ==> !(#[trigger] later[i]).table.superseding,
    ensures
        cutoff_of(older + (seq![output] + later)) == output.number,
{
    let first = older.push(output);
    assert(older + (seq![output] + later) =~= first + later);
    lemma_cutoff_unmoved(first, later);
    assert(first.drop_last() =~= older);
    lemma_cutoff(older);
}

proof fn lemma_ordered_around(
    older: Seq<NumberedView>,
    output: NumberedView,
    later: Seq<NumberedView>,
)
    requires
        numbers_ordered(older),
        numbers_ordered(later),
        forall|i: int| 0 <= i < older.len() ==> (#[trigger] older[i]).number < output.number,
        forall|i: int| 0 <= i < later.len() ==> (#[trigger] later[i]).number > output.number,
    ensures
        numbers_ordered(older + (seq![output] + later)),
{
    let single = seq![output];
    let rest = single + later;
    assert(single.len() == 1 && single[0] == output);
    lemma_ordered_join(single, later, output.number);
    assert forall|i: int| 0 <= i < rest.len() implies output.number <= (
    #[trigger] rest[i]).number by {
        if i > 0 {
            assert(rest[i] == later[i - 1]);
        }
    }
    lemma_ordered_join(older, rest, output.number);
}

proof fn lemma_parts<A>(a: Seq<A>, b: Seq<A>)
    ensures
        (a + b).take(a.len() as int) == a,
        (a + b).skip(a.len() as int) == b,
        forall|i: int| 0 <= i < a.len() ==> #[trigger] (a + b)[i] == a[i],
        b.len() > 0 ==> (a + b)[a.len() as int] == b[0],
{
    assert((a + b).take(a.len() as int) =~= a);
    assert((a + b).skip(a.len() as int) =~= b);
}

/// Of the tables on disk after a crash in a compaction, exactly what is left of the
/// inputs is superseded.
proof fn lemma_leftover_is_superseded(
    engine: EngineView,
    output: TableView,
    leftover: Seq<NumberedView>,
)
    requires
        engine.wf(),
        engine.job is Some,
        forall|i: int|
            0 < i < engine.tables.len() ==> !(#[trigger] engine.tables[i]).table.superseding,
        output.superseding,
        numbers_ordered(leftover),
        forall|i: int|
            0 <= i < leftover.len() ==> engine.tables.take(
                engine.job->Some_0.inputs as int,
            ).contains(#[trigger] leftover[i]),
    ensures
        numbers_ordered(leftover + engine.compacted(output).tables),
        superseded(leftover + engine.compacted(output).tables) == leftover,
        survivors(leftover + engine.compacted(output).tables) == engine.compacted(output).tables,
{
    let job = engine.job->Some_0;
    let n = job.inputs as int;
    let inputs = engine.tables.take(n);
    let later = engine.tables.skip(n);
    assert forall|i: int| 0 <= i < leftover.len() implies (#[trigger] leftover[i]).number
        < job.number by {
        assert(inputs.contains(leftover[i]));
        let a = choose|a: int| 0 <= a < inputs.len() && inputs[a] == leftover[i];
        assert(engine.tables[a].number < job.number);
    }
    assert forall|i: int| 0 <= i < later.len() implies (#[trigger] later[i]).number > job.number
        && !later[i].table.superseding by {
        assert(later[i] == engine.tables[n + i]);
    }
    assert forall|i: int, j: int| 0 <= i <= j < later.len() implies (#[trigger] later[i]).number
        <= (#[trigger] later[j]).number by {
        assert(engine.tables[n + i].number <= engine.tables[n + j].number);
    }
    let merged = NumberedView { number: job.number, table: output };
    lemma_ordered_around(leftover, merged, later);
    lemma_cutoff_at(leftover, merged, later);
    lemma_parts(leftover, seq![merged] + later);
    lemma_survivors_are_last(leftover + (seq![merged] + later), leftover.len() as int);
}

/// What is on disk of the tables after a crash in a compaction: what is left of the
/// inputs, the output, and the tables that were flushed meanwhile.
pub open spec fn after_crash_in_compaction(
    s: StoreView,
    output: TableView,
    leftover: Seq<NumberedView>,
) -> Seq<NumberedView> {
    leftover + s.engine.compacted(output).tables
}

/// `leftover` is some of the inputs of the compaction under way.
pub open spec fn left_of_inputs(s: StoreView, leftover: Seq<NumberedView>) -> bool {
    &&& numbers_ordered(leftover)
    &&& forall|i: int|
        0 <= i < leftover.len() ==> s.engine.tables.take(
            s.engine.job->Some_0.inputs as int,
        ).contains(#[trigger] leftover[i])
}

/// A crash in a compaction, after its output became durable and before its inputs
/// were all deleted: whatever is left of them is told apart as superseded, and the
/// store that opens afterwards has the same contents. So a leftover input cannot
/// bring back a key whose tombstone was dropped.
#[verifier::spinoff_prover]
#[verifier::rlimit(40)]
pub proof fn law_crash_in_compaction(
    s: StoreView,
    output: TableView,
    file: Seq<u8>,
    merged: Seq<EntryView>,
    leftover: Seq<NumberedView>,
    threshold: usize,
    compaction_threshold: usize,
)
    requires
        s.backed(),
        s.compacts_to(output, file, merged),
        left_of_inputs(s, leftover),
    ensures
        ({
            let on_disk = after_crash_in_compaction(s, output, leftover);
            let after = s.compacted(output, file, merged).opened_on(
                on_disk,
                threshold,
                compaction_threshold,
            );
            &&& numbers_ordered(on_disk)
            &&& superseded(on_disk) == leftover
            &&& after.engine.tables == s.engine.compacted(output).tables
            &&& after.backed()
            &&& after.contents() == s.contents()
        }),
{
    law_compaction(s, output, file, merged);
    lemma_leftover_is_superseded(s.engine, output, leftover);
    lemma_opened_backed(
        s.compacted(output, file, merged),
        after_crash_in_compaction(s, output, leftover),
        threshold,
        compaction_threshold,
    );
}

/// The store that opens on an empty directory.
pub open spec fn empty_store(threshold: usize, compaction_threshold: usize) -> StoreView {
    StoreView {
        engine: recovered(Seq::empty(), Seq::empty(), threshold, compaction_threshold),
        files: Seq::empty(),
        runs: Seq::empty(),
        log: Seq::empty(),
        history: Seq::empty(),
    }
}

/// An empty directory opens as an empty store.
pub proof fn law_empty_store(threshold: usize, compaction_threshold: usize)
    ensures
        replayed(Seq::empty()) == Ok::<Seq<EntryView>, StoreError>(Seq::empty()),
        empty_store(threshold, compaction_threshold).backed(),
        empty_store(threshold, compaction_threshold).contents() == Map::<
            Seq<u8>,
            Seq<u8>,
        >::empty(),
{
    let s = empty_store(threshold, compaction_threshold);
    let none = Seq::<EntryView>::empty();
    law_replay_returns_what_was_appended(none);
    assert(records_enc(none) =~= Seq::<u8>::empty());
    lemma_survivors_are_last(Seq::empty(), 0);
    assert(s.engine.tables =~= Seq::empty());
    assert(is_run(none));
    assert(none.skip(0) =~= none);
    assert(none.take(0) =~= none);
    assert(flushed_up_to(s.engine.active, s.runs, none, 0));
    assert forall|key: Seq<u8>| layered(s.layers(), key) is None by {
        lemma_layered_push(s.runs, s.engine.active, key);
    }
    assert(s.contents() =~= Map::<Seq<u8>, Seq<u8>>::empty());
}

// Histories.

/// Something that can happen to a store.
pub enum Step {
    /// A mutation is logged and applied.
    Mutate(EntryView),
    /// A mutation comes to nothing.
    Refuse,
    /// The memtable becomes a table; the log is emptied, or that fails.
    Flush { table: TableView, file: Seq<u8>, emptied: bool },
    /// The memtable is to become a table, and that fails.
    FailFlush,
    /// A compaction starts.
    StartCompaction,
    /// The compaction under way is given up.
    CancelCompaction,
    /// The compaction under way is finished.
    FinishCompaction { output: TableView, file: Seq<u8>, merged: Seq<EntryView> },
    /// The store is opened again, after a shutdown or a crash.
    Reopen { threshold: usize, compaction_threshold: usize },
    /// A crash leaves some bytes of a mutation's record, and the store is opened again.
    CrashInAppend { e: EntryView, written: nat, threshold: usize, compaction_threshold: usize },
    /// A crash leaves some inputs of a compaction beside its output, and the store is
    /// opened again.
    CrashInCompaction {
        output: TableView,
        file: Seq<u8>,
        merged: Seq<EntryView>,
        leftover: Seq<NumberedView>,
        threshold: usize,
        compaction_threshold: usize,
    },
}

impl Step {
    /// What a step is to a client of the store: an operation, or nothing.
    pub open spec fn operation(self) -> Option<Operation> {
        match self {
            Step::Mutate(e) => Some(operation_of(e)),
            Step::CrashInAppend { e, written, .. } => if written == record_enc(e).len() {
                Some(operation_of(e))
            } else {
                None
            },
            _ => None,
        }
    }
}

impl StoreView {
    /// Whether a step can happen.
    pub open spec fn allows(self, step: Step) -> bool {
        match step {
            Step::Mutate(e) => fits(e) && e.seq == self.engine.seq + 1,
            Step::Refuse => self.engine.seq < u64::MAX,
            Step::Flush { table, file, .. } => {
                &&& self.engine.next_sst < u64::MAX
                &&& serves(table, file, self.engine.active)
                &&& !table.superseding
            },
            Step::FailFlush => self.engine.next_sst < u64::MAX,
            Step::StartCompaction => {
                &&& self.engine.next_sst < u64::MAX
                &&& self.engine.compactable()
                &&& self.engine.tables.len() <= usize::MAX
            },
            Step::CancelCompaction => true,
            Step::FinishCompaction { output, file, merged } => self.compacts_to(
                output,
                file,
                merged,
            ),
            Step::Reopen { .. } => true,
            Step::CrashInAppend { e, written, .. } => {
                &&& fits(e)
                &&& e.seq == self.engine.seq + 1
                &&& written <= record_enc(e).len()
            },
            Step::CrashInCompaction { output, file, merged, leftover, .. } => {
                &&& self.compacts_to(output, file, merged)
                &&& left_of_inputs(self, leftover)
            },
        }
    }

    /// What a step makes of the store.
    pub open spec fn after(self, step: Step) -> StoreView {
        match step {
            Step::Mutate(e) => self.mutated(e),
            Step::Refuse => self.refused(),
            Step::Flush { table, file, emptied } => self.flushed(table, file, emptied),
            Step::FailFlush => self.flush_failed(),
            Step::StartCompaction => self.compacting(),
            Step::CancelCompaction => self.compaction_cancelled(),
            Step::FinishCompaction { output, file, merged } => self.compacted(output, file, merged),
            Step::Reopen { threshold, compaction_threshold } => self.reopened(
                threshold,
                compaction_threshold,
            ),
            Step::CrashInAppend { e, written, threshold, compaction_threshold } => self.append_torn(
                e,
                written,
                threshold,
                compaction_threshold,
            ),
            Step::CrashInCompaction {
                output,
                file,
                merged,
                leftover,
                threshold,
                compaction_threshold,
            } => self.compacted(output, file, merged).opened_on(
                after_crash_in_compaction(self, output, leftover),
                threshold,
                compaction_threshold,
            ),
        }
    }

    /// What some steps make of the store, one after the other.
    pub open spec fn after_all(self, steps: Seq<Step>) -> StoreView
        decreases steps.len(),
    {
        if steps.len() == 0 {
            self
        } else {
            self.after_all(steps.drop_last()).after(steps.last())
        }
    }

    /// Whether some steps can happen one after the other.
    pub open spec fn allows_all(self, steps: Seq<Step>) -> bool
        decreases steps.len(),
    {
        steps.len() == 0 || {
            &&& self.allows_all(steps.drop_last())
            &&& self.after_all(steps.drop_last()).allows(steps.last())
        }
    }
}

/// What a map holds after the operations among some steps were executed on it, in
/// their order.
pub open spec fn executed_all(contents: Map<Seq<u8>, Seq<u8>>, steps: Seq<Step>) -> Map<
    Seq<u8>,
    Seq<u8>,
>
    decreases steps.len(),
{
    if steps.len() == 0 {
        contents
    } else {
        let before = executed_all(contents, steps.drop_last());
        match steps.last().operation() {
            Some(op) => executed(before, op),
            None => before,
        }
    }
}

/// What each step means to a client: a set puts that value under that key, a deletion takes
/// that key away, and a mutation of which a crash left only a part means nothing; nor does
/// anything else that happens.
pub proof fn law_what_a_step_means(
    contents: Map<Seq<u8>, Seq<u8>>,
    steps: Seq<Step>,
    key: Seq<u8>,
    value: Seq<u8>,
    seq: u64,
    other: Step,
)
    ensures
        executed_all(contents, Seq::empty()) == contents,
        executed_all(contents, steps.push(Step::Mutate(put_entry(key, value, seq)))) == executed_all(
            contents,
            steps,
        ).insert(key, value),
        executed_all(contents, steps.push(Step::Mutate(tombstone(key, seq)))) == executed_all(
            contents,
            steps,
        ).remove(key),
        other matches Step::CrashInAppend { e, written, .. } ==> {
            &&& written < record_enc(e).len() ==> executed_all(contents, steps.push(other))
                == executed_all(contents, steps)
            &&& written == record_enc(e).len() ==> executed_all(contents, steps.push(other))
                == executed_all(contents, steps.push(Step::Mutate(e)))
        },
        !(other is Mutate) && !(other is CrashInAppend) ==> executed_all(contents, steps.push(other))
            == executed_all(contents, steps),
{
    let set = Step::Mutate(put_entry(key, value, seq));
    let delete = Step::Mutate(tombstone(key, seq));
    assert(steps.push(set).drop_last() =~= steps);
    assert(steps.push(delete).drop_last() =~= steps);
    assert(steps.push(other).drop_last() =~= steps);
    if let Step::CrashInAppend { e, .. } = other {
        assert(steps.push(Step::Mutate(e)).drop_last() =~= steps);
    }
}

/// Whatever happens to a store, it flushes and compacts at the thresholds that it was last
/// opened with.
pub proof fn law_thresholds_stay(s: StoreView, step: Step)
    ensures
        ({
            let after = s.after(step).engine;
            match step {
                Step::Reopen { threshold, compaction_threshold } => after.threshold == threshold
                    && after.compaction_threshold == compaction_threshold,
                Step::CrashInAppend { threshold, compaction_threshold, .. } => after.threshold
                    == threshold && after.compaction_threshold == compaction_threshold,
                Step::CrashInCompaction { threshold, compaction_threshold, .. } => after.threshold
                    == threshold && after.compaction_threshold == compaction_threshold,
                _ => after.threshold == s.engine.threshold && after.compaction_threshold
                    == s.engine.compaction_threshold,
            }
        }),
{
}

/// A store on an empty directory holds nothing, counts from zero, and has the thresholds that
/// it was opened with. Each flush empties the memtable, and adds one table.
pub proof fn law_flushes_add_up(
    threshold: usize,
    compaction_threshold: usize,
    s: StoreView,
    table: TableView,
    file: Seq<u8>,
    emptied: bool,
)
    ensures
        ({
            let empty = empty_store(threshold, compaction_threshold).engine;
            &&& empty.tables.len() == 0
            &&& empty.active.len() == 0
            &&& empty.seq == 0
            &&& empty.next_sst == 0
            &&& empty.job is None
            &&& empty.threshold == threshold
            &&& empty.compaction_threshold == compaction_threshold
        }),
        s.flushed(table, file, emptied).engine.tables.len() == s.engine.tables.len() + 1,
        s.flushed(table, file, emptied).engine.active.len() == 0,
{
    law_empty_store(threshold, compaction_threshold);
    lemma_survivors_are_last(Seq::empty(), 0);
}

/// Whatever happens to a store, engine and disk stay together, and the contents change
/// only by what is an operation of a client.
pub proof fn law_step(s: StoreView, step: Step)
    requires
        s.backed(),
        s.allows(step),
    ensures
        s.after(step).backed(),
        s.after(step).contents() == match step.operation() {
            Some(op) => executed(s.contents(), op),
            None => s.contents(),
        },
{
    match step {
        Step::Mutate(e) => law_mutation(s, e),
        Step::Refuse => law_refused_mutation(s),
        Step::Flush { table, file, emptied } => law_flush(s, table, file, emptied),
        Step::FailFlush => law_failed_flush(s),
        Step::StartCompaction => law_compaction_starts(s),
        Step::CancelCompaction => law_compaction_cancelled(s),
        Step::FinishCompaction { output, file, merged } => law_compaction(s, output, file, merged),
        Step::Reopen { threshold, compaction_threshold } => law_reopen(
            s,
            threshold,
            compaction_threshold,
        ),
        Step::CrashInAppend { e, written, threshold, compaction_threshold } => law_crash_in_append(
            s,
            e,
            written,
            threshold,
            compaction_threshold,
            e,
        ),
        Step::CrashInCompaction {
            output,
            file,
            merged,
            leftover,
            threshold,
            compaction_threshold,
        } => law_crash_in_compaction(
            s,
            output,
            file,
            merged,
            leftover,
            threshold,
            compaction_threshold,
        ),
    }
}

/// Over any history of writes, flushes, compactions, shutdowns and crashes, a store
/// that was opened on an empty directory holds what an in-memory store holds that was
/// given the same operations.
pub proof fn law_same_as_in_memory(
    threshold: usize,
    compaction_threshold: usize,
    steps: Seq<Step>,
)
    requires
        empty_store(threshold, compaction_threshold).allows_all(steps),
    ensures
        empty_store(threshold, compaction_threshold).after_all(steps).backed(),
        empty_store(threshold, compaction_threshold).after_all(steps).contents() == executed_all(
            Map::empty(),
            steps,
        ),
    decreases steps.len(),
{
    if steps.len() == 0 {
        law_empty_store(threshold, compaction_threshold);
    } else {
        law_same_as_in_memory(threshold, compaction_threshold, steps.drop_last());
        law_step(
            empty_store(threshold, compaction_threshold).after_all(steps.drop_last()),
            steps.last(),
        );
    }
}

} // verus!
