//! The engine: a sorted memtable fronted by a log, flushing to immutable tables.
//!
//! Write path: a mutation gets the next sequence number and is framed for the log;
//! once it is durable there, it is applied to the active memtable. When the
//! memtable reaches a size threshold it is flushed to a new table; once that table is
//! durable, it takes the place of what the memtable held, and the log is emptied. A
//! flush that fails leaves the memtable as it was.
//!
//! Read path: the active memtable, then the tables from newest to oldest, each
//! behind its filter. The first layer that holds the key wins: a tombstone there
//! reads as absent and shadows older values.
//!
//! Compaction: all tables are merged into one, which takes their place. Tables that
//! were flushed meanwhile are newer, and stay.
//!
//! The engine decides; reading and writing files is left to its caller, who hands
//! in what was read and writes out what comes back.
use crate::api::{clone_bytes, entry_views, option_bytes, Entry, EntryKind, EntryView, Key, Value};
use crate::error::StoreError;
use crate::layers::resolved;
use crate::memtable::{entry_bytes, law_size_is_the_sum_of_lengths, run_bytes, MemTable};
use crate::order::key_lt;
use crate::record::{first_record, fits, law_what_fits, lemma_first_record_size, record_enc};
use crate::run::{
    applied, is_run, latest, law_put_replaces_one_key, lemma_applied, lemma_applied_latest,
    lemma_latest_in_run, lemma_latest_is_there, reversed, upserted,
};
use crate::sstable::{
    law_max_seq, law_table_finds_no_other_key, max_seq_of, outcome, SsTable, TableView,
};
use crate::wal::{replayed, whole_len, whole_length, Wal};
use std::path::PathBuf;
use vstd::prelude::*;

verus! {

/// Default size at which the memtable is flushed: 1 MiB.
pub const DEFAULT_MEMTABLE_BYTES: usize = 1048576;

/// Default number of tables at which they are compacted.
pub const DEFAULT_COMPACTION_TRIGGER: usize = 4;

/// An open table with the number that its file's name carries.
pub struct NumberedTable {
    pub number: u64,
    pub table: SsTable,
}

#[verifier::ext_equal]
pub struct NumberedView {
    pub number: u64,
    pub table: TableView,
}

impl View for NumberedTable {
    type V = NumberedView;

    open spec fn view(&self) -> NumberedView {
        NumberedView { number: self.number, table: self.table@ }
    }
}

/// The contents of a vector of tables.
pub open spec fn table_views(tables: Seq<NumberedTable>) -> Seq<NumberedView> {
    tables.map_values(|t: NumberedTable| t@)
}

/// A compaction under way: it merges the oldest `inputs` tables into one with this
/// number.
#[derive(Clone, Copy, PartialEq, Eq, Debug, Structural)]
pub struct CompactionJob {
    pub inputs: usize,
    pub number: u64,
}

/// What an engine holds.
#[verifier::ext_equal]
pub struct EngineView {
    /// The memtable's entries, in key order.
    pub active: Seq<EntryView>,
    /// The tables, oldest first.
    pub tables: Seq<NumberedView>,
    /// The last sequence number given out.
    pub seq: u64,
    /// The last table number given out.
    pub next_sst: u64,
    pub threshold: usize,
    pub compaction_threshold: usize,
    pub job: Option<CompactionJob>,
}

/// Numbers do not go down from one table to the next.
pub open spec fn numbers_ordered(tables: Seq<NumberedView>) -> bool {
    forall|i: int, j: int| 0 <= i <= j < tables.len() ==> (#[trigger] tables[i]).number <= (
    #[trigger] tables[j]).number
}

/// What a lookup of `key` yields in some tables whose files are `files`: the last
/// of them that holds the key decides.
pub open spec fn table_lookup(
    tables: Seq<NumberedView>,
    files: Seq<Seq<u8>>,
    key: Seq<u8>,
) -> Result<Option<EntryView>, StoreError>
    decreases tables.len(),
{
    if tables.len() == 0 {
        Ok(None)
    } else {
        match tables.last().table.lookup(files[tables.len() - 1], key) {
            Ok(None) => table_lookup(tables.drop_last(), files, key),
            decided => decided,
        }
    }
}

impl EngineView {
    /// The memtable is in key order; tables stand in the order of their numbers,
    /// all of which were given out; a compaction's output has a number above those
    /// of its inputs and below those of every table flushed since it started.
    pub open spec fn wf(self) -> bool {
        &&& is_run(self.active)
        &&& numbers_ordered(self.tables)
        &&& forall|i: int|
            0 <= i < self.tables.len() ==> (#[trigger] self.tables[i]).number <= self.next_sst
        &&& self.job matches Some(job) ==> {
            &&& 2 <= job.inputs <= self.tables.len()
            &&& job.number <= self.next_sst
            &&& forall|i: int|
                0 <= i < job.inputs ==> (#[trigger] self.tables[i]).number < job.number
            &&& forall|i: int|
                job.inputs <= i < self.tables.len() ==> job.number < (
                #[trigger] self.tables[i]).number
        }
    }

    /// The filters that a search for `key` asks among the oldest `below` tables, from
    /// the newest on until one lets the key through, can be asked.
    pub open spec fn askable(self, below: int, key: Seq<u8>) -> bool
        decreases below,
    {
        below <= 0 || {
            &&& self.tables[below - 1].table.filter.askable(key)
            &&& self.tables[below - 1].table.filter.may_contain(key) || self.askable(below - 1, key)
        }
    }

    /// A search for `key` through the oldest `n` tables can yield this: what the newest
    /// of them yields that does not yield nothing.
    pub open spec fn may_find_below(
        self,
        files: Seq<Seq<u8>>,
        n: int,
        key: Seq<u8>,
        found: Result<Option<EntryView>, StoreError>,
    ) -> bool
        decreases n,
    {
        let nothing = Ok::<Option<EntryView>, StoreError>(None);
        if n <= 0 {
            found == nothing
        } else {
            let table = self.tables[n - 1].table;
            ||| found != nothing && table.may_find(files[n - 1], key, found)
            ||| table.may_find(files[n - 1], key, nothing) && self.may_find_below(
                files,
                n - 1,
                key,
                found,
            )
        }
    }

    /// A lookup of `key` can yield this. With every index in order it is exactly what
    /// [`lookup`](EngineView::lookup) says.
    pub open spec fn may_find(
        self,
        files: Seq<Seq<u8>>,
        key: Seq<u8>,
        found: Result<Option<EntryView>, StoreError>,
    ) -> bool {
        match latest(self.active, key) {
            Some(e) => found == Ok::<Option<EntryView>, StoreError>(Some(e)),
            None => self.may_find_below(files, self.tables.len() as int, key, found),
        }
    }

    /// The filters that a search for `key` through the oldest `n` tables comes to can be
    /// asked: each of them, from the newest table on, down to one that yields something.
    pub open spec fn answerable(self, files: Seq<Seq<u8>>, n: int, key: Seq<u8>) -> bool
        decreases n,
    {
        n <= 0 || {
            &&& self.tables[n - 1].table.filter.askable(key)
            &&& self.tables[n - 1].table.may_find(
                files[n - 1],
                key,
                Ok::<Option<EntryView>, StoreError>(None),
            ) ==> self.answerable(files, n - 1, key)
        }
    }

    /// Tables whose filters reject `key` do not take part in a search.
    proof fn lemma_search_skips(self, files: Seq<Seq<u8>>, key: Seq<u8>, from: int, to: int)
        requires
            0 <= from <= to <= self.tables.len(),
            forall|i: int|
                from <= i < to ==> !(#[trigger] self.tables[i]).table.filter.may_contain(key),
        ensures
            self.answerable(files, to, key) ==> self.answerable(files, from, key),
            forall|found: Result<Option<EntryView>, StoreError>| #[trigger]
                self.may_find_below(files, from, key, found) ==> self.may_find_below(
                    files,
                    to,
                    key,
                    found,
                ),
        decreases to - from,
    {
        if from < to {
            let table = self.tables[to - 1].table;
            assert(!table.filter.may_contain(key));
            assert(table.may_start(key, None));
            assert(table.may_find(
                files[to - 1],
                key,
                Ok::<Option<EntryView>, StoreError>(None),
            ));
            self.lemma_search_skips(files, key, from, to - 1);
        }
    }

    /// Where a whole search can be made, its next step can.
    proof fn lemma_answerable(self, files: Seq<Seq<u8>>, n: int, key: Seq<u8>)
        requires
            self.answerable(files, n, key),
            n <= self.tables.len(),
        ensures
            self.askable(n, key),
        decreases n,
    {
        if n > 0 && !self.tables[n - 1].table.filter.may_contain(key) {
            assert forall|i: int| n - 1 <= i < n implies !(
            #[trigger] self.tables[i]).table.filter.may_contain(key) by {
            }
            self.lemma_search_skips(files, key, n - 1, n);
            self.lemma_answerable(files, n - 1, key);
        }
    }

    /// With every index in order, a search yields one thing.
    pub proof fn lemma_search_determined(
        self,
        files: Seq<Seq<u8>>,
        n: int,
        key: Seq<u8>,
        found: Result<Option<EntryView>, StoreError>,
    )
        requires
            self.indexes_sorted(),
            0 <= n <= self.tables.len(),
            self.may_find_below(files, n, key, found),
        ensures
            found == table_lookup(self.tables.take(n), files, key),
        decreases n,
    {
        if n > 0 {
            let some = self.tables.take(n);
            assert(some.last() == self.tables[n - 1]);
            assert(some.drop_last() =~= self.tables.take(n - 1));
            assert(self.tables[n - 1].table.index_sorted());
            if self.may_find_below(files, n - 1, key, found) {
                self.lemma_search_determined(files, n - 1, key, found);
            }
        }
    }

    pub open spec fn indexes_sorted(self) -> bool {
        forall|i: int|
            0 <= i < self.tables.len() ==> (#[trigger] self.tables[i]).table.index_sorted()
    }

    /// What a lookup of `key` yields: the memtable decides if it holds the key, and
    /// otherwise the newest table that does.
    pub open spec fn lookup(self, files: Seq<Seq<u8>>, key: Seq<u8>) -> Result<
        Option<EntryView>,
        StoreError,
    > {
        match latest(self.active, key) {
            Some(e) => Ok(Some(e)),
            None => table_lookup(self.tables, files, key),
        }
    }

    /// After a sequence number was given out.
    pub open spec fn numbered(self) -> EngineView {
        EngineView { seq: (self.seq + 1) as u64, ..self }
    }

    /// After a mutation was applied.
    pub open spec fn applying(self, e: EntryView) -> EngineView {
        EngineView { active: upserted(self.active, e), ..self }
    }

    /// After the number of a table for the memtable was given out.
    pub open spec fn flushing(self) -> EngineView {
        EngineView { next_sst: (self.next_sst + 1) as u64, ..self }
    }

    /// Whether a table with this number can be added as the newest.
    pub open spec fn awaits(self, number: u64) -> bool {
        &&& number <= self.next_sst
        &&& forall|i: int| 0 <= i < self.tables.len() ==> (#[trigger] self.tables[i]).number < number
        &&& self.job matches Some(job) ==> job.number < number
    }

    /// After the table that the memtable was written to took its place.
    pub open spec fn flushed(self, table: NumberedView) -> EngineView {
        EngineView { active: Seq::empty(), tables: self.tables.push(table), ..self }
    }

    /// Whether there is anything to compact, and no compaction under way.
    pub open spec fn compactable(self) -> bool {
        self.job is None && self.tables.len() >= 2
    }

    /// After a compaction of all tables was started.
    pub open spec fn compacting(self) -> EngineView {
        EngineView {
            next_sst: (self.next_sst + 1) as u64,
            job: Some(
                CompactionJob {
                    inputs: self.tables.len() as usize,
                    number: (self.next_sst + 1) as u64,
                },
            ),
            ..self
        }
    }

    /// After the output of the compaction took the place of its inputs.
    pub open spec fn compacted(self, output: TableView) -> EngineView {
        let job = self.job->Some_0;
        EngineView {
            tables: seq![NumberedView { number: job.number, table: output }] + self.tables.skip(
                job.inputs as int,
            ),
            job: None,
            ..self
        }
    }
}

// Recovery.

/// The highest number of a superseding table, zero where there is none.
pub open spec fn cutoff_of(tables: Seq<NumberedView>) -> u64
    decreases tables.len(),
{
    if tables.len() == 0 {
        0
    } else {
        let front = cutoff_of(tables.drop_last());
        if tables.last().table.superseding && tables.last().number > front {
            tables.last().number
        } else {
            front
        }
    }
}

/// The highest number of a table, zero where there is none.
pub open spec fn highest_number(tables: Seq<NumberedView>) -> u64
    decreases tables.len(),
{
    if tables.len() == 0 {
        0
    } else {
        let front = highest_number(tables.drop_last());
        if tables.last().number > front {
            tables.last().number
        } else {
            front
        }
    }
}

/// The highest sequence number that the tables' footers tell, zero where there is
/// no table.
pub open spec fn highest_seq(tables: Seq<NumberedView>) -> u64
    decreases tables.len(),
{
    if tables.len() == 0 {
        0
    } else {
        let front = highest_seq(tables.drop_last());
        if tables.last().table.max_seq > front {
            tables.last().table.max_seq
        } else {
            front
        }
    }
}

/// The tables that no other has superseded.
pub open spec fn survivors(tables: Seq<NumberedView>) -> Seq<NumberedView> {
    let cutoff = cutoff_of(tables);
    tables.filter(|t: NumberedView| t.number >= cutoff)
}

/// The tables that were merged into a newer one: all with a number below that of
/// the newest superseding table.
pub open spec fn superseded(tables: Seq<NumberedView>) -> Seq<NumberedView> {
    let cutoff = cutoff_of(tables);
    tables.filter(|t: NumberedView| t.number < cutoff)
}

/// The engine that opens on these tables and on a log with these entries.
pub open spec fn recovered(
    tables: Seq<NumberedView>,
    entries: Seq<EntryView>,
    threshold: usize,
    compaction_threshold: usize,
) -> EngineView {
    let kept = survivors(tables);
    let from_tables = highest_seq(kept);
    let from_log = max_seq_of(entries);
    EngineView {
        active: applied(Seq::empty(), entries),
        tables: kept,
        seq: larger(from_tables, from_log),
        next_sst: highest_number(kept),
        threshold,
        compaction_threshold,
        job: None,
    }
}

proof fn lemma_filter_all<A>(s: Seq<A>, pred: spec_fn(A) -> bool, keep: bool)
    requires
        forall|i: int| 0 <= i < s.len() ==> pred(#[trigger] s[i]) == keep,
    ensures
        s.filter(pred) == if keep {
            s
        } else {
            Seq::empty()
        },
    decreases s.len(),
{
    reveal(Seq::filter);
    if s.len() > 0 {
        let front = s.drop_last();
        assert forall|i: int| 0 <= i < front.len() implies pred(#[trigger] front[i]) == keep by {
            assert(front[i] == s[i]);
        }
        lemma_filter_all(front, pred, keep);
        assert(s[s.len() - 1] == s.last());
        assert(s =~= front.push(s.last()));
    } else {
        assert(s =~= Seq::empty());
    }
}

/// Where tables stand in the order of their numbers, the superseded ones come
/// first and the others behind them.
pub proof fn lemma_survivors_are_last(tables: Seq<NumberedView>, n: int)
    requires
        numbers_ordered(tables),
        0 <= n <= tables.len(),
        forall|i: int| 0 <= i < n ==> (#[trigger] tables[i]).number < cutoff_of(tables),
        n < tables.len() ==> tables[n].number >= cutoff_of(tables),
    ensures
        survivors(tables) == tables.skip(n),
        superseded(tables) == tables.take(n),
{
    let cutoff = cutoff_of(tables);
    let first = tables.take(n);
    let last = tables.skip(n);
    let stays = |t: NumberedView| t.number >= cutoff;
    let goes = |t: NumberedView| t.number < cutoff;
    assert(tables =~= first + last);
    assert forall|i: int| 0 <= i < last.len() implies (#[trigger] last[i]).number >= cutoff by {
        assert(tables[n].number <= tables[n + i].number);
    }
    Seq::filter_distributes_over_add(first, last, stays);
    Seq::filter_distributes_over_add(first, last, goes);
    lemma_filter_all(first, stays, false);
    lemma_filter_all(last, stays, true);
    lemma_filter_all(first, goes, true);
    lemma_filter_all(last, goes, false);
    assert(Seq::<NumberedView>::empty() + last =~= last);
    assert(first + Seq::<NumberedView>::empty() =~= first);
}

/// No table has a number above the highest.
pub proof fn lemma_highest_number(tables: Seq<NumberedView>)
    ensures
        forall|i: int|
            0 <= i < tables.len() ==> (#[trigger] tables[i]).number <= highest_number(tables),
    decreases tables.len(),
{
    if tables.len() > 0 {
        let front = tables.drop_last();
        lemma_highest_number(front);
        assert forall|i: int| 0 <= i < tables.len() implies (#[trigger] tables[i]).number
            <= highest_number(tables) by {
            if i < front.len() {
                assert(front[i] == tables[i]);
            }
        }
    }
}

proof fn lemma_upserted_bytes(run: Seq<EntryView>, e: EntryView)
    ensures
        run_bytes(upserted(run, e)) <= run_bytes(run) + entry_bytes(e),
    decreases run.len(),
{
    let new = upserted(run, e);
    if run.len() == 0 || key_lt(run.last().key, e.key) {
        assert(new.drop_last() =~= run);
    } else if run.last().key == e.key {
        assert(new.drop_last() =~= run.drop_last());
    } else {
        lemma_upserted_bytes(run.drop_last(), e);
        assert(new.drop_last() =~= upserted(run.drop_last(), e));
    }
}

proof fn lemma_run_bytes_add(a: Seq<EntryView>, b: Seq<EntryView>)
    ensures
        run_bytes(a + b) == run_bytes(a) + run_bytes(b),
    decreases b.len(),
{
    if b.len() == 0 {
        assert(a + b =~= a);
    } else {
        assert((a + b).drop_last() =~= a + b.drop_last());
        lemma_run_bytes_add(a, b.drop_last());
    }
}

/// The entries of a log take up no more memory than the log itself.
proof fn lemma_replayed_bytes(log: Seq<u8>)
    ensures
        replayed(log) matches Ok(entries) ==> run_bytes(entries) <= log.len(),
    decreases log.len(),
{
    if first_record(log) is Ok {
        let (e, size) = first_record(log)->Ok_0;
        lemma_first_record_size(log);
        if 0 < size <= log.len() {
            let rest = log.skip(size as int);
            lemma_replayed_bytes(rest);
            if replayed(rest) is Ok {
                let more = replayed(rest)->Ok_0;
                lemma_run_bytes_add(seq![e], more);
                assert(seq![e].drop_last() =~= Seq::empty());
                assert(run_bytes(Seq::<EntryView>::empty()) == 0);
                assert(run_bytes(seq![e]) == entry_bytes(e));
            }
        }
    }
}

/// What a reader sees of an entry: a tombstone reads as absent.
pub fn resolve(entry: &Entry) -> (r: Option<Value>)
    ensures
        option_bytes(r) == entry@.resolved(),
        entry.kind == EntryKind::Put ==> r is Some && r->Some_0@ == entry.value@,
        entry.kind == EntryKind::Delete ==> r is None,
{
    if entry.is_tombstone() {
        None
    } else {
        Some(clone_bytes(&entry.value))
    }
}

/// A mutation on its way into the store.
pub struct Mutation {
    pub entry: Entry,
    /// What to append to the log.
    pub record: Vec<u8>,
}

/// What the memtable holds, on its way into a table.
pub struct Flush {
    pub number: u64,
    /// In ascending key order.
    pub entries: Vec<Entry>,
}

/// The next table to look into for a key.
#[derive(Clone, Copy, PartialEq, Eq, Debug, Structural)]
pub struct Candidate {
    /// Its place, or `None` if no table is left that might hold the key.
    pub table: Option<usize>,
    /// How many tables' filters were asked.
    pub probes: usize,
    /// How many of them rejected the key.
    pub skips: usize,
}

/// An engine that was opened, and what its directory no longer needs.
pub struct Recovered {
    pub engine: Engine,
    /// Tables that were merged into a newer one. Their files are to be deleted:
    /// kept, they could bring back a key whose tombstone was dropped.
    pub superseded: Vec<NumberedTable>,
    /// How many bytes of the log are whole records. The log is to be cut to this
    /// length before anything is appended to it: a record behind a torn one would not
    /// be replayed.
    pub log_len: usize,
}

pub struct Engine {
    dir: PathBuf,
    /// Receives current writes.
    active: MemTable,
    /// The tables, oldest first.
    tables: Vec<NumberedTable>,
    /// The last sequence number given out; recovery restores it.
    seq: u64,
    /// The last table number given out.
    next_sst: u64,
    /// The memtable is flushed when it reaches this many bytes.
    threshold: usize,
    /// The tables are compacted when there are this many. Zero: never.
    compaction_threshold: usize,
    job: Option<CompactionJob>,
}

impl View for Engine {
    type V = EngineView;

    closed spec fn view(&self) -> EngineView {
        EngineView {
            active: self.active.run(),
            tables: table_views(self.tables@),
            seq: self.seq,
            next_sst: self.next_sst,
            threshold: self.threshold,
            compaction_threshold: self.compaction_threshold,
            job: self.job,
        }
    }
}

impl Engine {
    pub closed spec fn wf(&self) -> bool {
        self.active.wf() && self@.wf()
    }

    pub closed spec fn spec_dir(&self) -> PathBuf {
        self.dir
    }

    /// The tables themselves, with their paths.
    pub closed spec fn table_list(&self) -> Seq<NumberedTable> {
        self.tables@
    }

    /// What every well-formed engine keeps to.
    pub proof fn lemma_wf(&self)
        requires
            self.wf(),
        ensures
            self@.wf(),
            run_bytes(self@.active) <= usize::MAX,
            self@.tables == table_views(self.table_list()),
    {
        self.active.lemma_wf();
    }

    /// Opens an engine on the tables of a directory, in the order of their numbers,
    /// and on its log, with the default thresholds.
    pub fn open(dir: PathBuf, tables: Vec<NumberedTable>, log: &[u8]) -> (r: Result<
        Recovered,
        StoreError,
    >)
        requires
            numbers_ordered(table_views(tables@)),
        ensures
            opens_as(
                r,
                dir,
                tables@,
                log@,
                DEFAULT_MEMTABLE_BYTES,
                DEFAULT_COMPACTION_TRIGGER,
            ),
            r matches Ok(opened) ==> {
                &&& opened.engine@.threshold == 1024 * 1024
                &&& opened.engine@.compaction_threshold == 4
                &&& opened.engine@.job is None
            },
            r is Ok <==> replayed(log@) is Ok,
    {
        Engine::open_with_thresholds(
            dir,
            tables,
            log,
            DEFAULT_MEMTABLE_BYTES,
            DEFAULT_COMPACTION_TRIGGER,
        )
    }

    /// Opens an engine that flushes at `threshold` bytes and never compacts unless
    /// told to.
    pub fn open_with_threshold(
        dir: PathBuf,
        tables: Vec<NumberedTable>,
        log: &[u8],
        threshold: usize,
    ) -> (r: Result<Recovered, StoreError>)
        requires
            numbers_ordered(table_views(tables@)),
        ensures
            opens_as(r, dir, tables@, log@, threshold, 0),
            r matches Ok(opened) ==> {
                &&& opened.engine@.threshold == threshold
                &&& opened.engine@.compaction_threshold == 0
                &&& opened.engine@.job is None
            },
            r is Ok <==> replayed(log@) is Ok,
    {
        Engine::open_with_thresholds(dir, tables, log, threshold, 0)
    }

    /// Opens an engine that flushes at `threshold` bytes and compacts at
    /// `compaction_threshold` tables, or never, if that is zero.
    pub fn open_with_thresholds(
        dir: PathBuf,
        tables: Vec<NumberedTable>,
        log: &[u8],
        threshold: usize,
        compaction_threshold: usize,
    ) -> (r: Result<Recovered, StoreError>)
        requires
            numbers_ordered(table_views(tables@)),
        ensures
            opens_as(r, dir, tables@, log@, threshold, compaction_threshold),
            r matches Ok(opened) ==> {
                &&& opened.engine@.threshold == threshold
                &&& opened.engine@.compaction_threshold == compaction_threshold
                &&& opened.engine@.job is None
            },
            r is Ok <==> replayed(log@) is Ok,
    {
        let ghost all = table_views(tables@);
        let entries = Wal::replay(log)?;
        let ghost history = entry_views(entries@);

        let (superseded, kept) = split_superseded(tables);
        let ghost stay = table_views(kept@);

        // The footers restore the sequence number without a scan of any data.
        let total: usize = kept.len();
        let mut seq: u64 = 0;
        let mut next_sst: u64 = 0;
        let mut i: usize = 0;
        assert(stay.take(0) =~= Seq::<NumberedView>::empty());
        while i < total
            invariant
                i <= total,
                total == kept@.len(),
                stay == table_views(kept@),
                seq == highest_seq(stay.take(i as int)),
                next_sst == highest_number(stay.take(i as int)),
            decreases total - i,
        {
            proof {
                let next = stay.take(i + 1);
                assert(next.drop_last() =~= stay.take(i as int));
                assert(next.last() == kept@[i as int]@);
            }
            let max_seq: u64 = kept[i].table.max_seq();
            if max_seq > seq {
                seq = max_seq;
            }
            if kept[i].number > next_sst {
                next_sst = kept[i].number;
            }
            i = i + 1;
        }
        assert(stay.take(total as int) =~= stay);
        let ghost from_tables = seq;

        // The log holds everything written since the last flush.
        let count: usize = entries.len();
        let mut backward = reversed(entries);
        let mut active = MemTable::new();
        let ghost empty = Seq::<EntryView>::empty();
        assert(history.take(0) =~= empty);
        assert(run_bytes(empty) == 0);
        assert forall|j: int| 0 <= j < backward@.len() implies (#[trigger] backward@[j])@
            == history[count - 1 - j] by {
        }
        proof {
            lemma_replayed_bytes(log@);
            assert(log.len() <= usize::MAX);
        }
        while backward.len() > 0
            invariant
                backward@.len() <= count,
                count == history.len(),
                empty == Seq::<EntryView>::empty(),
                forall|j: int|
                    0 <= j < backward@.len() ==> (#[trigger] backward@[j])@ == history[count - 1
                        - j],
                active.wf(),
                active.run() == applied(empty, history.take(count - backward@.len())),
                run_bytes(active.run()) <= run_bytes(history.take(count - backward@.len())),
                run_bytes(history) <= usize::MAX,
                seq == larger(from_tables, max_seq_of(history.take(count - backward@.len()))),
            decreases backward@.len(),
        {
            let ghost n = backward@.len() as int;
            let ghost done = history.take(count - n);
            let ghost next = history.take(count - n + 1);
            assert(backward@[n - 1]@ == history[count - n]);
            if let Some(entry) = backward.pop() {
                proof {
                    assert(next.drop_last() =~= done);
                    assert(next.last() == entry@);
                    lemma_run_bytes_add(next, history.skip(count - n + 1));
                    assert(next + history.skip(count - n + 1) =~= history);
                    lemma_upserted_bytes(active.run(), entry@);
                }
                if entry.seq > seq {
                    seq = entry.seq;
                }
                active.put(entry);
            }
        }
        assert(history.take(count as int) =~= history);
        let engine = Engine {
            dir,
            active,
            tables: kept,
            seq,
            next_sst,
            threshold,
            compaction_threshold,
            job: None,
        };
        proof {
            active.lemma_wf();
            lemma_highest_number(stay);
            assert(engine@ =~= recovered(all, history, threshold, compaction_threshold));
        }
        Ok(Recovered { engine, superseded, log_len: whole_length(log) })
    }
}

/// The larger of two numbers.
pub open spec fn larger(a: u64, b: u64) -> u64 {
    if b > a {
        b
    } else {
        a
    }
}

/// `r` is what opening an engine on these tables and this log comes to.
pub open spec fn opens_as(
    r: Result<Recovered, StoreError>,
    dir: PathBuf,
    tables: Seq<NumberedTable>,
    log: Seq<u8>,
    threshold: usize,
    compaction_threshold: usize,
) -> bool {
    match r {
        Ok(opened) => {
            &&& replayed(log) matches Ok(entries) && opened.engine@ == recovered(
                table_views(tables),
                entries,
                threshold,
                compaction_threshold,
            )
            &&& opened.engine.wf()
            &&& opened.engine.spec_dir() == dir
            &&& table_views(opened.superseded@) == superseded(table_views(tables))
            &&& tables == opened.superseded@ + opened.engine.table_list()
            &&& opened.log_len == whole_len(log)
        },
        Err(error) => replayed(log) == Err::<Seq<EntryView>, StoreError>(error),
    }
}

/// Parts the tables that were merged into a newer one from the others.
fn split_superseded(tables: Vec<NumberedTable>) -> (r: (Vec<NumberedTable>, Vec<NumberedTable>))
    requires
        numbers_ordered(table_views(tables@)),
    ensures
        table_views(r.0@) == superseded(table_views(tables@)),
        table_views(r.1@) == survivors(table_views(tables@)),
        numbers_ordered(table_views(r.1@)),
        tables@ == r.0@ + r.1@,
{
    let ghost all = table_views(tables@);
    let total: usize = tables.len();
    let mut cutoff: u64 = 0;
    let mut i: usize = 0;
    assert(all.take(0) =~= Seq::<NumberedView>::empty());
    while i < total
        invariant
            i <= total,
            total == tables@.len(),
            all == table_views(tables@),
            cutoff == cutoff_of(all.take(i as int)),
        decreases total - i,
    {
        proof {
            let next = all.take(i + 1);
            assert(next.drop_last() =~= all.take(i as int));
            assert(next.last() == tables@[i as int]@);
        }
        if tables[i].table.is_superseding() && tables[i].number > cutoff {
            cutoff = tables[i].number;
        }
        i = i + 1;
    }
    assert(all.take(total as int) =~= all);

    let mut n: usize = 0;
    while n < total && tables[n].number < cutoff
        invariant
            n <= total,
            total == tables@.len(),
            all == table_views(tables@),
            forall|j: int| 0 <= j < n ==> (#[trigger] all[j]).number < cutoff,
        decreases total - n,
    {
        assert(all[n as int].number == tables@[n as int].number);
        n = n + 1;
    }
    proof {
        if n < total {
            assert(all[n as int].number == tables@[n as int].number);
        }
        lemma_survivors_are_last(all, n as int);
    }
    let mut first = tables;
    let last = first.split_off(n);
    proof {
        assert(table_views(first@) =~= all.take(n as int));
        assert(table_views(last@) =~= all.skip(n as int));
        assert(tables@ =~= first@ + last@);
    }
    (first, last)
}

// The write path.

/// `r` is the mutation with the entry `e`, framed for the log; or there is none,
/// because its record would be too large.
pub open spec fn frames(r: Result<Mutation, StoreError>, e: EntryView) -> bool {
    match r {
        Ok(mutation) => {
            &&& fits(e)
            &&& mutation.entry@ == e
            &&& mutation.record@ == record_enc(e)
        },
        Err(error) => error == StoreError::RecordTooLarge && !fits(e),
    }
}

/// Frames an entry for the log.
fn frame(entry: Entry) -> (r: Result<Mutation, StoreError>)
    ensures
        frames(r, entry@),
{
    let mut log = Wal::open(Vec::new());
    log.append(&entry)?;
    assert(log@ =~= record_enc(entry@));
    Ok(Mutation { entry, record: log.into_bytes() })
}

impl Engine {
    /// Gives out the next sequence number.
    fn next_seq(&mut self) -> (r: u64)
        requires
            old(self).wf(),
            old(self)@.seq < u64::MAX,
        ensures
            final(self).wf(),
            final(self)@ == old(self)@.numbered(),
            final(self).spec_dir() == old(self).spec_dir(),
            final(self).table_list() == old(self).table_list(),
            r == old(self)@.seq + 1,
    {
        self.seq = self.seq + 1;
        self.seq
    }

    /// Starts to insert or overwrite `key` with `value`. The record is to be made
    /// durable in the log, and then the entry [applied](Engine::apply). A mutation
    /// that is refused has used up its sequence number all the same.
    pub fn set(&mut self, key: Key, value: Value) -> (r: Result<Mutation, StoreError>)
        requires
            old(self).wf(),
            old(self)@.seq < u64::MAX,
        ensures
            final(self).wf(),
            final(self)@ == old(self)@.numbered(),
            final(self).spec_dir() == old(self).spec_dir(),
            final(self).table_list() == old(self).table_list(),
            frames(r, put_entry(key@, value@, (old(self)@.seq + 1) as u64)),
            r is Ok <==> key@.len() + value@.len() + 28 < 0x1_0000_0000,
            r matches Err(error) ==> error == StoreError::RecordTooLarge,
            r matches Ok(mutation) ==> {
                &&& mutation.entry.key@ == key@
                &&& mutation.entry.value@ == value@
                &&& mutation.entry.kind == EntryKind::Put
                &&& mutation.entry.seq == old(self)@.seq + 1
                &&& mutation.record@ == record_enc(mutation.entry@)
            },
            final(self)@.seq == old(self)@.seq + 1,
            final(self)@.active == old(self)@.active,
            final(self)@.tables == old(self)@.tables,
            final(self)@.next_sst == old(self)@.next_sst,
            final(self)@.threshold == old(self)@.threshold,
            final(self)@.compaction_threshold == old(self)@.compaction_threshold,
            final(self)@.job == old(self)@.job,
    {
        proof {
            law_what_fits(put_entry(key@, value@, (self@.seq + 1) as u64), Seq::empty());
        }
        let seq: u64 = self.next_seq();
        frame(Entry::put(key, value, seq))
    }

    /// Starts to remove `key`: as [`set`](Engine::set), with a tombstone.
    pub fn delete(&mut self, key: &[u8]) -> (r: Result<Mutation, StoreError>)
        requires
            old(self).wf(),
            old(self)@.seq < u64::MAX,
        ensures
            final(self).wf(),
            final(self)@ == old(self)@.numbered(),
            final(self).spec_dir() == old(self).spec_dir(),
            final(self).table_list() == old(self).table_list(),
            frames(r, tombstone(key@, (old(self)@.seq + 1) as u64)),
            r is Ok <==> key@.len() + 28 < 0x1_0000_0000,
            r matches Err(error) ==> error == StoreError::RecordTooLarge,
            r matches Ok(mutation) ==> {
                &&& mutation.entry.key@ == key@
                &&& mutation.entry.kind == EntryKind::Delete
                &&& mutation.entry.value@.len() == 0
                &&& mutation.entry.seq == old(self)@.seq + 1
                &&& mutation.record@ == record_enc(mutation.entry@)
            },
            final(self)@.seq == old(self)@.seq + 1,
            final(self)@.active == old(self)@.active,
            final(self)@.tables == old(self)@.tables,
            final(self)@.next_sst == old(self)@.next_sst,
            final(self)@.threshold == old(self)@.threshold,
            final(self)@.compaction_threshold == old(self)@.compaction_threshold,
            final(self)@.job == old(self)@.job,
    {
        proof {
            law_what_fits(tombstone(key@, (self@.seq + 1) as u64), Seq::empty());
        }
        let seq: u64 = self.next_seq();
        frame(Entry::delete(vstd::slice::slice_to_vec(key), seq))
    }

    /// Applies a mutation that is durable in the log to the memtable. Tells whether
    /// the memtable has now reached the size at which it is to be flushed.
    pub fn apply(&mut self, entry: Entry) -> (r: bool)
        requires
            old(self).wf(),
            run_bytes(old(self)@.active) + entry_bytes(entry@) <= usize::MAX,
        ensures
            final(self).wf(),
            final(self)@ == old(self)@.applying(entry@),
            final(self).spec_dir() == old(self).spec_dir(),
            final(self).table_list() == old(self).table_list(),
            r == (run_bytes(final(self)@.active) >= final(self)@.threshold),
            r == (final(self)@.active.fold_left(
                0int,
                |sum: int, e: EntryView| sum + e.key.len() + e.value.len(),
            ) >= old(self)@.threshold),
            final(self)@.active.contains(entry@),
            forall|x: EntryView|
                x.key != entry.key@ ==> (#[trigger] final(self)@.active.contains(x) <==> old(
                    self,
                )@.active.contains(x)),
            final(self)@.tables == old(self)@.tables,
            final(self)@.seq == old(self)@.seq,
            final(self)@.next_sst == old(self)@.next_sst,
            final(self)@.threshold == old(self)@.threshold,
            final(self)@.compaction_threshold == old(self)@.compaction_threshold,
            final(self)@.job == old(self)@.job,
    {
        self.active.put(entry);
        proof {
            self.active.lemma_wf();
            assert(self@ =~= old(self)@.applying(entry@));
            old(self).active.lemma_wf();
            law_size_is_the_sum_of_lengths(self@.active);
            law_put_replaces_one_key(old(self)@.active, entry@, entry@);
            assert forall|x: EntryView| x.key != entry@.key implies (#[trigger] self@.active.contains(
                x,
            ) <==> old(self)@.active.contains(x)) by {
                law_put_replaces_one_key(old(self)@.active, entry@, x);
            }
        }
        self.active.size_bytes() >= self.threshold
    }

    /// Gives out what the memtable holds, and the number of the table that it is to be
    /// written to. Once that table is durable, it is to be
    /// [added](Engine::finish_flush), and then the log emptied. Until then the memtable
    /// stays as it is, so that nothing has to be undone if the table cannot be written.
    /// An empty memtable is not flushed.
    pub fn begin_flush(&mut self) -> (r: Option<Flush>)
        requires
            old(self).wf(),
            old(self)@.next_sst < u64::MAX,
        ensures
            final(self).wf(),
            final(self).spec_dir() == old(self).spec_dir(),
            final(self).table_list() == old(self).table_list(),
            match r {
                None => old(self)@.active.len() == 0 && final(self)@ == old(self)@,
                Some(flush) => {
                    &&& old(self)@.active.len() > 0
                    &&& final(self)@ == old(self)@.flushing()
                    &&& final(self)@.awaits(flush.number)
                    &&& flush.number == old(self)@.next_sst + 1
                    &&& entry_views(flush.entries@) == old(self)@.active
                    &&& final(self)@.next_sst == old(self)@.next_sst + 1
                    &&& final(self)@.active == old(self)@.active
                    &&& final(self)@.tables == old(self)@.tables
                    &&& final(self)@.seq == old(self)@.seq
                    &&& final(self)@.threshold == old(self)@.threshold
                    &&& final(self)@.compaction_threshold == old(self)@.compaction_threshold
                    &&& final(self)@.job == old(self)@.job
                },
            },
    {
        if self.active.is_empty() {
            return None;
        }
        self.next_sst = self.next_sst + 1;
        assert(self@ =~= old(self)@.flushing());
        Some(Flush { number: self.next_sst, entries: self.active.to_entries() })
    }

    /// Adds the table that a flush was written to, as the newest, and empties the
    /// memtable, which has to hold what the flush was given.
    pub fn finish_flush(&mut self, flush: Flush, table: SsTable)
        requires
            old(self).wf(),
            old(self)@.awaits(flush.number),
            entry_views(flush.entries@) == old(self)@.active,
        ensures
            final(self).wf(),
            final(self)@ == old(self)@.flushed(
                NumberedView { number: flush.number, table: table@ },
            ),
            final(self).spec_dir() == old(self).spec_dir(),
            final(self).table_list() == old(self).table_list().push(
                NumberedTable { number: flush.number, table },
            ),
            final(self)@.active.len() == 0,
            final(self)@.tables == old(self)@.tables.push(
                NumberedView { number: flush.number, table: table@ },
            ),
            final(self)@.seq == old(self)@.seq,
            final(self)@.next_sst == old(self)@.next_sst,
            final(self)@.threshold == old(self)@.threshold,
            final(self)@.compaction_threshold == old(self)@.compaction_threshold,
            final(self)@.job == old(self)@.job,
    {
        let number: u64 = flush.number;
        self.active = MemTable::new();
        self.tables.push(NumberedTable { number, table });
        proof {
            let added = NumberedView { number, table: table@ };
            self.active.lemma_wf();
            assert(table_views(self.tables@) =~= table_views(old(self).tables@).push(added));
            assert(self@ =~= old(self)@.flushed(added));
        }
    }

    /// Whether there are so many tables that they are to be compacted.
    pub fn compaction_due(&self) -> (r: bool)
        ensures
            r == (self@.compactable() && 0 < self@.compaction_threshold
                && self@.compaction_threshold <= self@.tables.len()),
            r == (self@.job is None && self@.tables.len() >= 2 && self@.compaction_threshold > 0
                && self@.tables.len() >= self@.compaction_threshold),
            self@.job is None && self@.compaction_threshold >= 2 ==> r == (self@.tables.len()
                >= self@.compaction_threshold),
    {
        let count: usize = self.tables.len();
        self.job.is_none() && count >= 2 && self.compaction_threshold > 0 && count
            >= self.compaction_threshold
    }

    /// Starts a compaction of all tables, and gives out the number of its output. No
    /// compaction starts below two tables, or while one is under way. The inputs
    /// are to be merged, tombstones dropped, and the output written to a
    /// superseding table; once that is durable it is to be
    /// [installed](Engine::finish_compaction).
    pub fn begin_compaction(&mut self) -> (r: Option<CompactionJob>)
        requires
            old(self).wf(),
            old(self)@.next_sst < u64::MAX,
        ensures
            final(self).wf(),
            final(self).spec_dir() == old(self).spec_dir(),
            final(self).table_list() == old(self).table_list(),
            match r {
                None => !old(self)@.compactable() && final(self)@ == old(self)@,
                Some(job) => {
                    &&& old(self)@.compactable()
                    &&& final(self)@ == old(self)@.compacting()
                    &&& final(self)@.job == Some(job)
                    &&& job.inputs == old(self)@.tables.len()
                    &&& job.number == old(self)@.next_sst + 1
                    &&& final(self)@.next_sst == old(self)@.next_sst + 1
                    &&& final(self)@.active == old(self)@.active
                    &&& final(self)@.tables == old(self)@.tables
                    &&& final(self)@.seq == old(self)@.seq
                    &&& final(self)@.threshold == old(self)@.threshold
                    &&& final(self)@.compaction_threshold == old(self)@.compaction_threshold
                },
            },
            r is Some <==> old(self)@.job is None && old(self)@.tables.len() >= 2,
    {
        if self.job.is_some() || self.tables.len() < 2 {
            return None;
        }
        self.next_sst = self.next_sst + 1;
        let job = CompactionJob { inputs: self.tables.len(), number: self.next_sst };
        self.job = Some(job);
        proof {
            self.active.lemma_wf();
            assert(self@ =~= old(self)@.compacting());
        }
        Some(job)
    }

    /// Installs the output of the compaction under way in the place of its inputs:
    /// it holds the oldest data, so it comes first. Tables that were flushed
    /// meanwhile stay. Gives back the inputs, whose files are to be deleted.
    pub fn finish_compaction(&mut self, output: SsTable) -> (r: Vec<NumberedTable>)
        requires
            old(self).wf(),
            old(self)@.job is Some,
        ensures
            final(self).wf(),
            final(self)@ == old(self)@.compacted(output@),
            final(self).spec_dir() == old(self).spec_dir(),
            table_views(r@) == old(self)@.tables.take(old(self)@.job->Some_0.inputs as int),
            r@ == old(self).table_list().take(old(self)@.job->Some_0.inputs as int),
            final(self).table_list() == seq![
                NumberedTable { number: old(self)@.job->Some_0.number, table: output },
            ] + old(self).table_list().skip(old(self)@.job->Some_0.inputs as int),
            final(self)@.tables == seq![
                NumberedView { number: old(self)@.job->Some_0.number, table: output@ },
            ] + old(self)@.tables.skip(old(self)@.job->Some_0.inputs as int),
            final(self)@.job is None,
            final(self)@.active == old(self)@.active,
            final(self)@.seq == old(self)@.seq,
            final(self)@.next_sst == old(self)@.next_sst,
            final(self)@.threshold == old(self)@.threshold,
            final(self)@.compaction_threshold == old(self)@.compaction_threshold,
    {
        let ghost before = table_views(self.tables@);
        let ghost view = output@;
        match self.job {
            Some(job) => {
                let ghost n = job.inputs as int;
                let mut later = self.tables.split_off(job.inputs);
                let mut tables: Vec<NumberedTable> = Vec::new();
                tables.push(NumberedTable { number: job.number, table: output });
                tables.append(&mut later);
                std::mem::swap(&mut tables, &mut self.tables);
                self.job = None;
                proof {
                    assert(table_views(tables@) =~= before.take(n));
                    let merged = NumberedView { number: job.number, table: view };
                    assert(table_views(self.tables@) =~= seq![merged] + before.skip(n));
                    assert(self@ =~= old(self)@.compacted(view));
                    self.active.lemma_wf();
                    let after = self@.tables;
                    assert forall|i: int| 0 < i < after.len() implies #[trigger] after[i]
                        == before[n + i - 1] by {
                    }
                    assert(numbers_ordered(after));
                }
                tables
            },
            None => Vec::new(),
        }
    }

    /// Gives up the compaction under way. The tables stay as they are.
    pub fn cancel_compaction(&mut self)
        requires
            old(self).wf(),
        ensures
            final(self).wf(),
            final(self)@ == (EngineView { job: None, ..old(self)@ }),
            final(self).spec_dir() == old(self).spec_dir(),
            final(self).table_list() == old(self).table_list(),
    {
        self.job = None;
        assert(self@ =~= (EngineView { job: None, ..old(self)@ }));
    }
}

// The read path.

/// What a reader gets of what a lookup yields.
pub open spec fn reads_as(
    r: Result<Option<Value>, StoreError>,
    found: Result<Option<EntryView>, StoreError>,
) -> bool {
    match (r, found) {
        (Ok(value), Ok(version)) => option_bytes(value) == resolved(version),
        (Err(error), Err(failure)) => error == failure,
        _ => false,
    }
}

/// What a search of the tables can yield, a lookup can, where the memtable does not hold
/// the key.
proof fn lemma_found(
    engine: EngineView,
    files: Seq<Seq<u8>>,
    key: Seq<u8>,
    found: Result<Option<EntryView>, StoreError>,
)
    requires
        latest(engine.active, key) is None,
        engine.may_find_below(files, engine.tables.len() as int, key, found),
    ensures
        engine.may_find(files, key, found),
        engine.indexes_sorted() ==> found == engine.lookup(files, key),
{
    if engine.indexes_sorted() {
        engine.lemma_search_determined(files, engine.tables.len() as int, key, found);
        assert(engine.tables.take(engine.tables.len() as int) =~= engine.tables);
    }
}

/// The contents of a vector of files.
pub open spec fn file_bytes(files: Seq<Vec<u8>>) -> Seq<Seq<u8>> {
    files.map_values(|file: Vec<u8>| file@)
}

impl Engine {
    /// The memtable's entry for `key`, tombstone or not.
    pub fn active_entry(&self, key: &[u8]) -> (r: Option<&Entry>)
        requires
            self.wf(),
        ensures
            match r {
                Some(e) => latest(self@.active, key@) == Some(e@),
                None => latest(self@.active, key@) is None,
            },
            r matches Some(e) ==> e.key@ == key@ && self@.active.contains(e@),
            r is None ==> forall|i: int|
                0 <= i < self@.active.len() ==> (#[trigger] self@.active[i]).key != key@,
    {
        assert(self.active@.dom().contains(key@) == (latest(self@.active, key@) is Some));
        self.active.get(key)
    }

    /// Whether the filters that [`next_candidate`](Engine::next_candidate) asks can be
    /// asked, as those of a damaged table might not.
    pub fn can_ask(&self, below: usize, key: &[u8]) -> (r: bool)
        requires
            below <= self@.tables.len(),
        ensures
            r == self@.askable(below as int, key@),
    {
        let mut i: usize = below;
        while i > 0
            invariant
                i <= below <= self@.tables.len(),
                self@.askable(below as int, key@) == self@.askable(i as int, key@),
            decreases i,
        {
            i = i - 1;
            assert(self@.tables[i as int] == self.tables@[i as int]@);
            if !self.tables[i].table.can_ask(key) {
                return false;
            }
            if self.tables[i].table.may_contain(key) {
                return true;
            }
        }
        true
    }

    /// The newest table among the oldest `below` ones that might hold `key`: every
    /// newer one among them is ruled out by its filter.
    pub fn next_candidate(&self, below: usize, key: &[u8]) -> (r: Candidate)
        requires
            self@.askable(below as int, key@),
            below <= self@.tables.len(),
        ensures
            match r.table {
                Some(i) => {
                    &&& i < below
                    &&& self@.tables[i as int].table.filter.may_contain(key@)
                    &&& forall|j: int|
                        i < j < below ==> !(#[trigger] self@.tables[j]).table.filter.may_contain(
                            key@,
                        )
                    &&& r.probes == below - i
                    &&& r.skips == below - i - 1
                },
                None => {
                    &&& forall|j: int|
                        0 <= j < below ==> !(#[trigger] self@.tables[j]).table.filter.may_contain(
                            key@,
                        )
                    &&& r.probes == below
                    &&& r.skips == below
                },
            },
    {
        let mut i: usize = below;
        while i > 0
            invariant
                i <= below <= self@.tables.len(),
                self@.askable(i as int, key@),
                forall|j: int|
                    i <= j < below ==> !(#[trigger] self@.tables[j]).table.filter.may_contain(key@),
            decreases i,
        {
            i = i - 1;
            assert(self@.tables[i as int] == self.tables@[i as int]@);
            if self.tables[i].table.may_contain(key) {
                return Candidate { table: Some(i), probes: below - i, skips: below - i - 1 };
            }
        }
        Candidate { table: None, probes: below, skips: below }
    }

    /// The value of `key`, or `None` if it was never set or has been deleted.
    /// `files` holds the bytes of the tables' files, in the order of the tables.
    ///
    /// The newest layer wins: the first that holds the key decides, even if what it
    /// holds is a tombstone.
    pub fn get(&self, files: &[Vec<u8>], key: &[u8]) -> (r: Result<Option<Value>, StoreError>)
        requires
            self.wf(),
            files@.len() == self@.tables.len(),
            latest(self@.active, key@) is None ==> self@.answerable(
                file_bytes(files@),
                self@.tables.len() as int,
                key@,
            ),
        ensures
            exists|found: Result<Option<EntryView>, StoreError>| #[trigger]
                self@.may_find(file_bytes(files@), key@, found) && reads_as(r, found),
            self@.indexes_sorted() ==> reads_as(r, self@.lookup(file_bytes(files@), key@)),
            forall|i: int|
                0 <= i < self@.active.len() && (#[trigger] self@.active[i]).key == key@ ==> match (
                self@.active[i].kind) {
                    EntryKind::Put => r is Ok && r->Ok_0 is Some && r->Ok_0->Some_0@
                        == self@.active[i].value,
                    EntryKind::Delete => r == Ok::<Option<Value>, StoreError>(None),
                },
    {
        let ghost bytes = file_bytes(files@);
        if let Some(entry) = self.active_entry(key) {
            let ghost found = Ok::<Option<EntryView>, StoreError>(Some(entry@));
            assert(self@.may_find(bytes, key@, found));
            assert forall|i: int|
                0 <= i < self@.active.len() && (#[trigger] self@.active[i]).key
                    == key@ implies self@.active[i] == entry@ by {
                self.lemma_wf();
                lemma_latest_in_run(self@.active, i);
            }
            return Ok(resolve(entry));
        }
        let ghost view = self@;
        let ghost total = view.tables.len() as int;
        proof {
            lemma_latest_is_there(view.active, key@);
        }
        let mut below: usize = self.tables.len();
        loop
            invariant
                below <= total,
                view == self@,
                total == view.tables.len(),
                bytes == file_bytes(files@),
                files@.len() == total,
                view.answerable(bytes, below as int, key@),
                latest(view.active, key@) is None,
                forall|i: int|
                    0 <= i < view.active.len() ==> (#[trigger] view.active[i]).key != key@,
                forall|found: Result<Option<EntryView>, StoreError>| #[trigger]
                    view.may_find_below(bytes, below as int, key@, found) ==> view.may_find_below(
                        bytes,
                        total,
                        key@,
                        found,
                    ),
            decreases below,
        {
            proof {
                view.lemma_answerable(bytes, below as int, key@);
            }
            match self.next_candidate(below, key).table {
                None => {
                    let ghost found = Ok::<Option<EntryView>, StoreError>(None);
                    proof {
                        view.lemma_search_skips(bytes, key@, 0, below as int);
                        assert(view.may_find_below(bytes, 0, key@, found));
                        lemma_found(view, bytes, key@, found);
                    }
                    return Ok(None);
                },
                Some(i) => {
                    proof {
                        view.lemma_search_skips(bytes, key@, i + 1, below as int);
                        assert(view.tables[i as int] == self.tables@[i as int]@);
                        assert(bytes[i as int] == files@[i as int]@);
                    }
                    let looked_up = self.tables[i].table.get(files[i].as_slice(), key);
                    let ghost found = outcome(looked_up);
                    proof {
                        if found != Ok::<Option<EntryView>, StoreError>(None) {
                            assert(view.may_find_below(bytes, i + 1, key@, found));
                            lemma_found(view, bytes, key@, found);
                        }
                    }
                    match looked_up? {
                        Some(entry) => {
                            return Ok(resolve(&entry));
                        },
                        None => {
                            assert forall|later: Result<Option<EntryView>, StoreError>| #[trigger]
                                view.may_find_below(
                                    bytes,
                                    i as int,
                                    key@,
                                    later,
                                ) implies view.may_find_below(bytes, total, key@, later) by {
                                assert(view.may_find_below(bytes, i + 1, key@, later));
                            }
                            below = i;
                        },
                    }
                },
            }
        }
    }

    /// The tables, oldest first.
    pub fn tables(&self) -> (r: &[NumberedTable])
        ensures
            table_views(r@) == self@.tables,
            r@ == self.table_list(),
    {
        self.tables.as_slice()
    }

    /// Number of tables.
    pub fn sstable_count(&self) -> (r: usize)
        ensures
            r == self@.tables.len(),
    {
        self.tables.len()
    }

    /// Number of entries in the memtable.
    pub fn active_len(&self) -> (r: usize)
        requires
            self.wf(),
        ensures
            r == self@.active.len(),
    {
        self.active.len()
    }

    /// Approximate size of the memtable in bytes.
    pub fn active_bytes(&self) -> (r: usize)
        requires
            self.wf(),
        ensures
            r == run_bytes(self@.active),
            r == self@.active.fold_left(
                0int,
                |sum: int, e: EntryView| sum + e.key.len() + e.value.len(),
            ),
    {
        proof {
            law_size_is_the_sum_of_lengths(self@.active);
        }
        self.active.size_bytes()
    }

    /// The last sequence number given out.
    pub fn seq(&self) -> (r: u64)
        ensures
            r == self@.seq,
    {
        self.seq
    }

    /// The last table number given out.
    pub fn next_sst(&self) -> (r: u64)
        ensures
            r == self@.next_sst,
    {
        self.next_sst
    }

    /// The compaction under way, if there is one.
    pub fn compaction_job(&self) -> (r: Option<CompactionJob>)
        ensures
            r == self@.job,
    {
        self.job
    }

    /// The directory that the engine was opened on.
    pub fn dir(&self) -> (r: &PathBuf)
        ensures
            *r == self.spec_dir(),
    {
        &self.dir
    }
}

// What holds of an engine.

/// Tables and files are viewed one by one, in their order, each with its number.
pub proof fn law_tables_are_viewed_one_by_one(tables: Seq<NumberedTable>, files: Seq<Vec<u8>>)
    ensures
        table_views(tables).len() == tables.len(),
        forall|i: int|
            0 <= i < tables.len() ==> (#[trigger] table_views(tables)[i]).number == tables[i].number
                && table_views(tables)[i].table == tables[i].table@,
        file_bytes(files).len() == files.len(),
        forall|i: int| 0 <= i < files.len() ==> #[trigger] file_bytes(files)[i] == files[i]@,
{
}

/// An engine has the thresholds that it was opened with, whatever they are, and whatever its
/// directory held; no compaction is under way in it. It opens exactly where its log can be
/// replayed, on what the log and the tables that were not superseded hold.
pub proof fn law_opened_engine_has_its_thresholds(
    r: Result<Recovered, StoreError>,
    dir: PathBuf,
    tables: Seq<NumberedTable>,
    log: Seq<u8>,
    threshold: usize,
    compaction_threshold: usize,
)
    requires
        opens_as(r, dir, tables, log, threshold, compaction_threshold),
    ensures
        r is Ok <==> replayed(log) is Ok,
        r matches Ok(opened) ==> {
            &&& opened.engine@.threshold == threshold
            &&& opened.engine@.compaction_threshold == compaction_threshold
            &&& opened.engine@.job is None
            &&& opened.engine.spec_dir() == dir
            &&& tables == opened.superseded@ + opened.engine.table_list()
            &&& opened.log_len == whole_len(log)
            &&& opened.engine.wf()
            &&& opened.engine@ == recovered(
                table_views(tables),
                replayed(log)->Ok_0,
                threshold,
                compaction_threshold,
            )
            &&& table_views(opened.superseded@) == superseded(table_views(tables))
            &&& opened.engine@.tables == survivors(table_views(tables))
        },
        r matches Err(error) ==> replayed(log) == Err::<Seq<EntryView>, StoreError>(error),
{
}

/// The thresholds that an engine opens with by default.
pub proof fn law_default_thresholds()
    ensures
        DEFAULT_MEMTABLE_BYTES == 1024 * 1024,
        DEFAULT_COMPACTION_TRIGGER == 4,
{
}

/// Whatever an engine does, it keeps the thresholds that it was opened with, and each step
/// changes only what it is about: giving out a number, applying an entry, and taking a table
/// in leave everything else as it was.
pub proof fn law_steps_change_nothing_else(
    engine: EngineView,
    e: EntryView,
    table: NumberedView,
    output: TableView,
)
    requires
        engine.seq < u64::MAX,
        engine.next_sst < u64::MAX,
    ensures
        ({
            let after = engine.numbered();
            &&& after.seq == engine.seq + 1
            &&& after.active == engine.active
            &&& after.tables == engine.tables
            &&& after.next_sst == engine.next_sst
            &&& after.threshold == engine.threshold
            &&& after.compaction_threshold == engine.compaction_threshold
            &&& after.job == engine.job
        }),
        ({
            let after = engine.applying(e);
            &&& after.active == upserted(engine.active, e)
            &&& after.seq == engine.seq
            &&& after.tables == engine.tables
            &&& after.next_sst == engine.next_sst
            &&& after.threshold == engine.threshold
            &&& after.compaction_threshold == engine.compaction_threshold
            &&& after.job == engine.job
        }),
        ({
            let after = engine.flushing();
            &&& after.next_sst == engine.next_sst + 1
            &&& after.active == engine.active
            &&& after.seq == engine.seq
            &&& after.tables == engine.tables
            &&& after.threshold == engine.threshold
            &&& after.compaction_threshold == engine.compaction_threshold
            &&& after.job == engine.job
        }),
        ({
            let after = engine.flushed(table);
            &&& after.active.len() == 0
            &&& after.tables == engine.tables.push(table)
            &&& after.next_sst == engine.next_sst
            &&& after.seq == engine.seq
            &&& after.threshold == engine.threshold
            &&& after.compaction_threshold == engine.compaction_threshold
            &&& after.job == engine.job
        }),
        engine.tables.len() <= usize::MAX ==> {
            let after = engine.compacting();
            &&& after.job matches Some(job) && job.inputs == engine.tables.len() && job.number
                == engine.next_sst + 1
            &&& after.next_sst == engine.next_sst + 1
            &&& after.active == engine.active
            &&& after.tables == engine.tables
            &&& after.seq == engine.seq
            &&& after.threshold == engine.threshold
            &&& after.compaction_threshold == engine.compaction_threshold
        },
        engine.job matches Some(job) ==> {
            let after = engine.compacted(output);
            &&& after.job is None
            &&& after.tables == seq![NumberedView { number: job.number, table: output }]
                + engine.tables.skip(job.inputs as int)
            &&& after.next_sst == engine.next_sst
            &&& after.active == engine.active
            &&& after.seq == engine.seq
            &&& after.threshold == engine.threshold
            &&& after.compaction_threshold == engine.compaction_threshold
        },
{
}

/// All tables can be compacted as soon as there are two, and no compaction is under way.
pub proof fn law_what_can_be_compacted(engine: EngineView)
    ensures
        engine.compactable() <==> engine.job is None && engine.tables.len() >= 2,
{
}

/// A compaction takes in every table there is when it starts, and leaves one in their place,
/// in front of those that were flushed meanwhile.
pub proof fn law_compaction_leaves_one_table(
    engine: EngineView,
    flushed: Seq<NumberedView>,
    output: TableView,
)
    requires
        engine.compactable(),
        engine.tables.len() <= usize::MAX,
        engine.next_sst < u64::MAX,
    ensures
        ({
            let started = engine.compacting();
            let meanwhile = EngineView { tables: engine.tables + flushed, ..started };
            let after = meanwhile.compacted(output);
            &&& after.tables.len() == 1 + flushed.len()
            &&& after.tables[0].table == output
            &&& after.tables[0].number == engine.next_sst + 1
            &&& after.tables.skip(1) == flushed
        }),
{
    let after = EngineView { tables: engine.tables + flushed, ..engine.compacting() }.compacted(
        output,
    );
    assert((engine.tables + flushed).skip(engine.tables.len() as int) =~= flushed);
    assert(after.tables.skip(1) =~= flushed);
}

/// The entry of a write carries the key and the value that the client gave, whole, and the
/// number that the write was given; that of a deletion carries the key, and no value.
pub proof fn law_entries_carry_what_was_given(key: Seq<u8>, value: Seq<u8>, seq: u64)
    ensures
        put_entry(key, value, seq).key == key,
        put_entry(key, value, seq).value == value,
        put_entry(key, value, seq).kind == EntryKind::Put,
        put_entry(key, value, seq).seq == seq,
        put_entry(key, value, seq).resolved() == Some(value),
        tombstone(key, seq).key == key,
        tombstone(key, seq).value.len() == 0,
        tombstone(key, seq).kind == EntryKind::Delete,
        tombstone(key, seq).seq == seq,
        tombstone(key, seq).resolved() is None,
{
}

/// A mutation is framed unless its record would be 4 GiB or more, whatever its key and value
/// are; what is framed is that very entry, and its record.
pub proof fn law_what_is_framed(r: Result<Mutation, StoreError>, e: EntryView)
    requires
        frames(r, e),
    ensures
        r is Ok <==> e.key.len() + e.value.len() + 28 < 0x1_0000_0000,
        r matches Ok(mutation) ==> {
            &&& mutation.entry.key@ == e.key
            &&& mutation.entry.value@ == e.value
            &&& mutation.entry.kind == e.kind
            &&& mutation.entry.seq == e.seq
            &&& mutation.record@ == record_enc(e)
        },
        r matches Err(error) ==> error == StoreError::RecordTooLarge,
{
    law_what_fits(e, Seq::empty());
}

/// What a reader gets is what the lookup found: all of a live entry's value, nothing of a
/// tombstone, nothing where nothing was found, and the error where the lookup failed.
pub proof fn law_what_a_reader_gets(
    r: Result<Option<Value>, StoreError>,
    found: Result<Option<EntryView>, StoreError>,
)
    requires
        reads_as(r, found),
    ensures
        found matches Ok(Some(e)) ==> e.kind == EntryKind::Put ==> r is Ok && r->Ok_0 is Some
            && r->Ok_0->Some_0@ == e.value,
        found matches Ok(Some(e)) ==> e.kind == EntryKind::Delete ==> r == Ok::<
            Option<Value>,
            StoreError,
        >(None),
        found matches Ok(None) ==> r == Ok::<Option<Value>, StoreError>(None),
        found matches Err(error) ==> r == Err::<Option<Value>, StoreError>(error),
{
}

/// Where the memtable holds a key, it decides, whatever the tables hold.
pub proof fn law_memtable_decides(engine: EngineView, files: Seq<Seq<u8>>, key: Seq<u8>, i: int)
    requires
        is_run(engine.active),
        0 <= i < engine.active.len(),
        engine.active[i].key == key,
    ensures
        engine.lookup(files, key) == Ok::<Option<EntryView>, StoreError>(Some(engine.active[i])),
        engine.may_find(
            files,
            key,
            Ok::<Option<EntryView>, StoreError>(Some(engine.active[i])),
        ),
{
    lemma_latest_in_run(engine.active, i);
}

proof fn lemma_table_decides(
    tables: Seq<NumberedView>,
    files: Seq<Seq<u8>>,
    key: Seq<u8>,
    i: int,
)
    requires
        -1 <= i < tables.len(),
        forall|j: int|
            i < j < tables.len() ==> (#[trigger] tables[j]).table.lookup(files[j], key) == Ok::<
                Option<EntryView>,
                StoreError,
            >(None),
        i >= 0 ==> tables[i].table.lookup(files[i], key) != Ok::<Option<EntryView>, StoreError>(
            None,
        ),
    ensures
        table_lookup(tables, files, key) == if i >= 0 {
            tables[i].table.lookup(files[i], key)
        } else {
            Ok::<Option<EntryView>, StoreError>(None)
        },
    decreases tables.len(),
{
    if i < tables.len() - 1 {
        let front = tables.drop_last();
        assert(tables[tables.len() - 1] == tables.last());
        assert forall|j: int| i < j < front.len() implies (#[trigger] front[j]).table.lookup(
            files[j],
            key,
        ) == Ok::<Option<EntryView>, StoreError>(None) by {
            assert(front[j] == tables[j]);
        }
        lemma_table_decides(front, files, key, i);
    }
}

/// Where the memtable does not hold a key, the newest table decides that does not come up
/// empty, by what its lookup yields, be that an entry or an error; where every table comes up
/// empty, there is nothing.
pub proof fn law_newest_table_decides(
    engine: EngineView,
    files: Seq<Seq<u8>>,
    key: Seq<u8>,
    i: int,
)
    requires
        forall|a: int| 0 <= a < engine.active.len() ==> (#[trigger] engine.active[a]).key != key,
        -1 <= i < engine.tables.len(),
        forall|j: int|
            i < j < engine.tables.len() ==> (#[trigger] engine.tables[j]).table.lookup(
                files[j],
                key,
            ) == Ok::<Option<EntryView>, StoreError>(None),
        i >= 0 ==> engine.tables[i].table.lookup(files[i], key) != Ok::<
            Option<EntryView>,
            StoreError,
        >(None),
    ensures
        i >= 0 ==> engine.lookup(files, key) == engine.tables[i].table.lookup(files[i], key),
        i < 0 ==> engine.lookup(files, key) == Ok::<Option<EntryView>, StoreError>(None),
{
    lemma_latest_is_there(engine.active, key);
    lemma_table_decides(engine.tables, files, key, i);
}

/// A lookup never yields the entry of another key, not even in tables that are damaged, and
/// whatever their filters and indexes say.
pub proof fn law_no_other_key_is_found(
    engine: EngineView,
    files: Seq<Seq<u8>>,
    n: int,
    key: Seq<u8>,
    e: EntryView,
)
    requires
        n <= engine.tables.len(),
    ensures
        engine.may_find_below(files, n, key, Ok::<Option<EntryView>, StoreError>(Some(e))) ==> e.key
            == key,
        engine.may_find(files, key, Ok::<Option<EntryView>, StoreError>(Some(e))) ==> e.key == key,
{
    lemma_latest_is_there(engine.active, key);
    lemma_search_finds_the_key(engine, files, n, key, e);
    lemma_search_finds_the_key(engine, files, engine.tables.len() as int, key, e);
}

proof fn lemma_search_finds_the_key(
    engine: EngineView,
    files: Seq<Seq<u8>>,
    n: int,
    key: Seq<u8>,
    e: EntryView,
)
    requires
        n <= engine.tables.len(),
    ensures
        engine.may_find_below(files, n, key, Ok::<Option<EntryView>, StoreError>(Some(e))) ==> e.key
            == key,
    decreases n,
{
    let found = Ok::<Option<EntryView>, StoreError>(Some(e));
    if n > 0 && engine.may_find_below(files, n, key, found) {
        lemma_search_finds_the_key(engine, files, n - 1, key, e);
        law_table_finds_no_other_key(engine.tables[n - 1].table, files[n - 1], key, e);
    }
}

/// The filters of a search can be asked where that of every table can.
pub proof fn law_search_can_be_made(engine: EngineView, below: int, key: Seq<u8>)
    requires
        below <= engine.tables.len(),
        forall|i: int|
            0 <= i < below ==> (#[trigger] engine.tables[i]).table.filter.askable(key),
    ensures
        engine.askable(below, key),
    decreases below,
{
    if below > 0 {
        assert(engine.tables[below - 1].table.filter.askable(key));
        law_search_can_be_made(engine, below - 1, key);
    }
}

// What holds of recovery.

/// Tables are in order where no number is below one before it.
pub proof fn law_tables_in_order(tables: Seq<NumberedView>)
    ensures
        numbers_ordered(tables) <==> forall|i: int, j: int|
            0 <= i < j < tables.len() ==> (#[trigger] tables[i]).number <= (
            #[trigger] tables[j]).number,
{
}

/// The highest number of some tables is that of one of them, and none has a higher one; of no
/// tables it is zero. So it is with the highest sequence number that they tell.
pub proof fn law_highest_numbers(tables: Seq<NumberedView>)
    ensures
        tables.len() == 0 ==> highest_number(tables) == 0 && highest_seq(tables) == 0,
        forall|i: int|
            0 <= i < tables.len() ==> (#[trigger] tables[i]).number <= highest_number(tables)
                && tables[i].table.max_seq <= highest_seq(tables),
        tables.len() > 0 ==> exists|i: int|
            0 <= i < tables.len() && (#[trigger] tables[i]).number == highest_number(tables),
        tables.len() > 0 ==> exists|i: int|
            0 <= i < tables.len() && (#[trigger] tables[i]).table.max_seq == highest_seq(tables),
    decreases tables.len(),
{
    if tables.len() > 0 {
        let front = tables.drop_last();
        let n = tables.len() - 1;
        law_highest_numbers(front);
        assert forall|i: int| 0 <= i < tables.len() implies (#[trigger] tables[i]).number
            <= highest_number(tables) && tables[i].table.max_seq <= highest_seq(tables) by {
            if i < n {
                assert(front[i] == tables[i]);
            }
        }
        assert(tables[n] == tables.last());
        if front.len() > 0 {
            let i = choose|i: int|
                0 <= i < front.len() && (#[trigger] front[i]).number == highest_number(front);
            assert(tables[i].number == highest_number(front));
            let j = choose|j: int|
                0 <= j < front.len() && (#[trigger] front[j]).table.max_seq == highest_seq(front);
            assert(tables[j].table.max_seq == highest_seq(front));
        }
    }
}

proof fn lemma_cutoff_is_superseding(tables: Seq<NumberedView>, number: u64)
    ensures
        number < cutoff_of(tables) <==> exists|i: int|
            0 <= i < tables.len() && (#[trigger] tables[i]).table.superseding && number
                < tables[i].number,
    decreases tables.len(),
{
    if tables.len() > 0 {
        let front = tables.drop_last();
        let n = tables.len() - 1;
        lemma_cutoff_is_superseding(front, number);
        assert(tables[n] == tables.last());
        if number < cutoff_of(front) {
            let i = choose|i: int|
                0 <= i < front.len() && (#[trigger] front[i]).table.superseding && number
                    < front[i].number;
            assert(tables[i] == front[i]);
        }
        if exists|i: int|
            0 <= i < tables.len() && (#[trigger] tables[i]).table.superseding && number
                < tables[i].number {
            let i = choose|i: int|
                0 <= i < tables.len() && (#[trigger] tables[i]).table.superseding && number
                    < tables[i].number;
            if i < n {
                assert(front[i].table.superseding && number < front[i].number);
            }
        }
    }
}

/// A table is superseded exactly where one that a compaction put out has a higher number, and
/// survives otherwise. No table is lost: each of them is among the ones or among the others.
pub proof fn law_which_tables_survive(tables: Seq<NumberedView>, t: NumberedView)
    ensures
        superseded(tables).contains(t) <==> tables.contains(t) && exists|i: int|
            0 <= i < tables.len() && (#[trigger] tables[i]).table.superseding && t.number
                < tables[i].number,
        survivors(tables).contains(t) <==> tables.contains(t) && !exists|i: int|
            0 <= i < tables.len() && (#[trigger] tables[i]).table.superseding && t.number
                < tables[i].number,
        superseded(tables).len() + survivors(tables).len() == tables.len(),
{
    let cutoff = cutoff_of(tables);
    let stays = |x: NumberedView| x.number >= cutoff;
    let goes = |x: NumberedView| x.number < cutoff;
    lemma_cutoff_is_superseding(tables, t.number);
    lemma_filter_holds(tables, stays, t);
    lemma_filter_holds(tables, goes, t);
    lemma_filter_parts(tables, goes, stays);
}

proof fn lemma_filter_holds<A>(s: Seq<A>, pred: spec_fn(A) -> bool, a: A)
    ensures
        s.filter(pred).contains(a) <==> s.contains(a) && pred(a),
    decreases s.len(),
{
    reveal(Seq::filter);
    if s.len() > 0 {
        let front = s.drop_last();
        let last = s.last();
        lemma_filter_holds(front, pred, a);
        assert(s =~= front.push(last));
        lemma_push_contains(front, last, a);
        lemma_push_contains(front.filter(pred), last, a);
    }
}

proof fn lemma_push_contains<A>(s: Seq<A>, last: A, a: A)
    ensures
        s.push(last).contains(a) <==> s.contains(a) || a == last,
{
    let more = s.push(last);
    if s.contains(a) {
        let i = choose|i: int| 0 <= i < s.len() && s[i] == a;
        assert(more[i] == a);
    }
    assert(more[s.len() as int] == last);
    if more.contains(a) && a != last {
        let i = choose|i: int| 0 <= i < more.len() && more[i] == a;
        assert(s[i] == a);
    }
}

proof fn lemma_filter_parts<A>(s: Seq<A>, one: spec_fn(A) -> bool, other: spec_fn(A) -> bool)
    requires
        forall|a: A| #[trigger] one(a) != other(a),
    ensures
        s.filter(one).len() + s.filter(other).len() == s.len(),
    decreases s.len(),
{
    reveal(Seq::filter);
    if s.len() > 0 {
        lemma_filter_parts(s.drop_last(), one, other);
        assert(one(s.last()) != other(s.last()));
    }
}

/// What an engine knows once it is open: the memtable holds of each key the last entry that
/// the log has of it; the sequence number is the highest that a surviving table or the log
/// tells of, and the table number is the highest that a surviving table has, or zero where
/// there is none.
pub proof fn law_what_recovery_restores(
    tables: Seq<NumberedView>,
    entries: Seq<EntryView>,
    threshold: usize,
    compaction_threshold: usize,
    key: Seq<u8>,
)
    ensures
        ({
            let engine = recovered(tables, entries, threshold, compaction_threshold);
            let kept = engine.tables;
            &&& engine.threshold == threshold
            &&& engine.compaction_threshold == compaction_threshold
            &&& engine.job is None
            &&& kept == survivors(tables)
            &&& is_run(engine.active)
            &&& latest(engine.active, key) == latest(entries, key)
            &&& forall|i: int| 0 <= i < entries.len() ==> (#[trigger] entries[i]).seq <= engine.seq
            &&& forall|i: int|
                0 <= i < kept.len() ==> (#[trigger] kept[i]).table.max_seq <= engine.seq
                    && kept[i].number <= engine.next_sst
            &&& engine.seq == 0 || (exists|i: int|
                0 <= i < entries.len() && (#[trigger] entries[i]).seq == engine.seq) || (exists|i: int|
                0 <= i < kept.len() && (#[trigger] kept[i]).table.max_seq == engine.seq)
            &&& engine.next_sst == 0 || exists|i: int|
                0 <= i < kept.len() && (#[trigger] kept[i]).number == engine.next_sst
        }),
{
    let none = Seq::<EntryView>::empty();
    assert(is_run(none));
    lemma_applied(none, entries);
    lemma_applied_latest(none, entries, key);
    let engine = recovered(tables, entries, threshold, compaction_threshold);
    let kept = engine.tables;
    law_highest_numbers(kept);
    law_max_seq(entries);
    assert(latest(none, key) is None);
    if kept.len() > 0 {
        let i = choose|i: int|
            0 <= i < kept.len() && (#[trigger] kept[i]).table.max_seq == highest_seq(kept);
        assert(kept[i].table.max_seq == highest_seq(kept));
    }
    assert(engine.seq == highest_seq(kept) || engine.seq == max_seq_of(entries));
    assert(engine.next_sst == highest_number(kept));
}

/// The record that sets `key` to `value`.
pub open spec fn put_entry(key: Seq<u8>, value: Seq<u8>, seq: u64) -> EntryView {
    EntryView { key, value, kind: EntryKind::Put, seq }
}

/// The record that deletes `key`.
pub open spec fn tombstone(key: Seq<u8>, seq: u64) -> EntryView {
    EntryView { key, value: Seq::empty(), kind: EntryKind::Delete, seq }
}

} // verus!
