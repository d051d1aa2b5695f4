//! The engine driven over a directory that is held in memory: what a caller with a
//! disk does with files, these tests do with byte vectors.

use std::collections::BTreeMap;
use std::path::PathBuf;

use cairn::compaction::{merge_tables, TableFile};
use cairn::engine::{
    resolve, Candidate, CompactionJob, Flush, Mutation, NumberedTable, DEFAULT_COMPACTION_TRIGGER,
    DEFAULT_MEMTABLE_BYTES,
};
use cairn::error::StoreError;
use cairn::names::{is_stale_temp, sstable_files, table_name};
use cairn::{Engine, Entry, Key, MemStore, SsTable, Store, Value, Wal};

/// A filter shape for this many keys at a false-positive rate of one in a hundred.
fn shape(keys: usize) -> (u64, u32) {
    let n = keys.max(1) as f64;
    let ln2 = std::f64::consts::LN_2;
    let num_bits = (-n * 0.01f64.ln() / (ln2 * ln2)).ceil().max(1.0) as u64;
    let k = ((num_bits as f64 / n) * ln2).round().max(1.0) as u32;
    (num_bits, k)
}

/// What is on disk.
#[derive(Clone, Default)]
struct Disk {
    files: BTreeMap<Key, Vec<u8>>,
    log: Vec<u8>,
}

impl Disk {
    fn tables(&self) -> Vec<&Vec<u8>> {
        self.files.values().collect()
    }

    fn bytes(&self) -> usize {
        self.files.values().map(|file| file.len()).sum()
    }
}

fn open_table(name: &[u8], file: &[u8]) -> Result<SsTable, StoreError> {
    SsTable::open(
        PathBuf::from(String::from_utf8_lossy(name).into_owned()),
        file,
    )
}

struct Db {
    engine: Engine,
    disk: Disk,
    probes: usize,
    skips: usize,
}

impl Db {
    fn try_open(mut disk: Disk, threshold: usize, trigger: usize) -> Result<Db, StoreError> {
        disk.files.retain(|name, _| !is_stale_temp(name));
        let names: Vec<Key> = disk.files.keys().cloned().collect();
        let mut tables = Vec::new();
        for (number, name) in sstable_files(names) {
            let table = open_table(&name, &disk.files[&name])?;
            tables.push(NumberedTable { number, table });
        }
        let opened = Engine::open_with_thresholds(
            PathBuf::from("db"),
            tables,
            &disk.log,
            threshold,
            trigger,
        )?;
        for old in &opened.superseded {
            disk.files.remove(&table_name(old.number));
        }
        disk.log.truncate(opened.log_len);
        Ok(Db {
            engine: opened.engine,
            disk,
            probes: 0,
            skips: 0,
        })
    }

    fn open(disk: Disk) -> Db {
        Db::try_open(disk, DEFAULT_MEMTABLE_BYTES, DEFAULT_COMPACTION_TRIGGER).unwrap()
    }

    fn open_with_threshold(disk: Disk, threshold: usize) -> Db {
        Db::try_open(disk, threshold, 0).unwrap()
    }

    /// The files of the tables, in the order of the tables.
    fn table_files(&self) -> Vec<Vec<u8>> {
        self.engine
            .tables()
            .iter()
            .map(|t| self.disk.files[&table_name(t.number)].clone())
            .collect()
    }

    fn write(&mut self, mutation: Mutation) {
        self.disk.log.extend(mutation.record);
        if self.engine.apply(mutation.entry) {
            self.flush();
        }
        if self.engine.compaction_due() {
            self.compact_now();
        }
    }

    fn set(&mut self, key: Key, value: Value) {
        let mutation = self.engine.set(key, value).unwrap();
        self.write(mutation);
    }

    fn delete(&mut self, key: &[u8]) {
        let mutation = self.engine.delete(key).unwrap();
        self.write(mutation);
    }

    /// Writes the memtable out, as far as to the point where the table could take its
    /// place.
    fn write_flushed_table(&mut self) -> Option<(Flush, SsTable)> {
        let flush = self.engine.begin_flush()?;
        let (num_bits, k) = shape(flush.entries.len());
        let file = SsTable::create(&flush.entries, num_bits, k).unwrap();
        let name = table_name(flush.number);
        let table = open_table(&name, &file).unwrap();
        self.disk.files.insert(name, file);
        Some((flush, table))
    }

    fn flush(&mut self) {
        if let Some((flush, table)) = self.write_flushed_table() {
            self.engine.finish_flush(flush, table);
            self.disk.log.clear();
        }
    }

    fn flush_without_emptying(&mut self) {
        if let Some((flush, table)) = self.write_flushed_table() {
            self.engine.finish_flush(flush, table);
        }
    }

    /// Writes the output of a compaction, as far as to the point where it could be
    /// installed.
    fn write_merged_table(&mut self, job: CompactionJob) -> SsTable {
        let inputs: Vec<TableFile> = self.engine.tables()[..job.inputs]
            .iter()
            .map(|t| {
                let name = table_name(t.number);
                let bytes = self.disk.files[&name].clone();
                let table = open_table(&name, &bytes).unwrap();
                TableFile { table, bytes }
            })
            .collect();
        let merged = merge_tables(&inputs, true).unwrap();
        let (num_bits, k) = shape(merged.len());
        let file = SsTable::create_compaction(&merged, num_bits, k).unwrap();
        let name = table_name(job.number);
        let table = open_table(&name, &file).unwrap();
        self.disk.files.insert(name, file);
        table
    }

    fn compact_now(&mut self) {
        if let Some(job) = self.engine.begin_compaction() {
            let table = self.write_merged_table(job);
            for input in self.engine.finish_compaction(table) {
                self.disk.files.remove(&table_name(input.number));
            }
        }
    }

    /// A read that looks into one table's file at a time, and counts.
    fn get(&mut self, key: &[u8]) -> Option<Value> {
        let found = self.search(key);
        assert_eq!(self.engine.get(&self.table_files(), key).unwrap(), found);
        found
    }

    fn search(&mut self, key: &[u8]) -> Option<Value> {
        if let Some(entry) = self.engine.active_entry(key) {
            return resolve(entry);
        }
        let mut below = self.engine.sstable_count();
        loop {
            let candidate = self.engine.next_candidate(below, key);
            self.probes += candidate.probes;
            self.skips += candidate.skips;
            let i = candidate.table?;
            let table = &self.engine.tables()[i];
            let file = &self.disk.files[&table_name(table.number)];
            if let Some(entry) = table.table.get(file, key).unwrap() {
                return resolve(&entry);
            }
            below = i;
        }
    }

    fn bloom_skip_rate(&self) -> f64 {
        if self.probes == 0 {
            return 0.0;
        }
        self.skips as f64 / self.probes as f64
    }
}

fn k(s: &str) -> Key {
    s.as_bytes().to_vec()
}

/// Writes `n` keys with ~20-byte values; small threshold forces flushes.
fn fill(db: &mut Db, n: usize) {
    for i in 0..n {
        db.set(format!("key{i:04}").into_bytes(), vec![b'x'; 20]);
    }
}

#[test]
fn flush_triggers_and_data_stays_readable() {
    let mut db = Db::open_with_threshold(Disk::default(), 200);
    fill(&mut db, 100);

    assert!(
        db.engine.sstable_count() >= 1,
        "threshold should have forced a flush"
    );
    for i in 0..100 {
        assert_eq!(
            db.get(format!("key{i:04}").as_bytes()),
            Some(vec![b'x'; 20])
        );
    }
}

#[test]
fn flushed_sstable_is_sorted() {
    let mut db = Db::open_with_threshold(Disk::default(), 200);
    fill(&mut db, 100);

    let files = db.disk.tables();
    assert!(!files.is_empty());
    for file in files {
        let entries = open_table(b"sst", file).unwrap().scan(file).unwrap();
        let keys: Vec<_> = entries.iter().map(|e| e.key.clone()).collect();
        let mut sorted = keys.clone();
        sorted.sort();
        assert_eq!(keys, sorted, "SSTable must be key-ordered");
    }
}

#[test]
fn wal_is_truncated_after_flush() {
    let mut db = Db::open_with_threshold(Disk::default(), 200);

    // Write until the first flush; the triggering write leaves active empty.
    let mut i = 0;
    while db.engine.sstable_count() == 0 {
        db.set(format!("k{i:04}").into_bytes(), vec![b'x'; 20]);
        i += 1;
    }
    assert_eq!(db.engine.active_len(), 0);

    let wal_len = db.disk.log.len();
    assert_eq!(wal_len, 0, "WAL should be empty right after a clean flush");
}

#[test]
fn delete_shadows_flushed_value() {
    let mut db = Db::open_with_threshold(Disk::default(), 200);
    fill(&mut db, 100); // key0000 lands in an early flushed SSTable
    assert_eq!(db.get(b"key0000"), Some(vec![b'x'; 20]));

    db.delete(b"key0000"); // tombstone in a newer layer
    assert_eq!(db.get(b"key0000"), None);
}

#[test]
fn recovery_rebuilds_from_sstables_and_wal() {
    let disk = {
        let mut db = Db::open_with_threshold(Disk::default(), 200);
        fill(&mut db, 100); // multiple flushes
        db.set(b"key0001".to_vec(), b"overwritten".to_vec());
        db.delete(b"key0050");
        db.disk
    }; // shutdown

    let mut db = Db::open_with_threshold(disk, 200);
    assert_eq!(db.get(b"key0001"), Some(b"overwritten".to_vec()));
    assert_eq!(db.get(b"key0050"), None); // deletion survived
    assert_eq!(db.get(b"key0099"), Some(vec![b'x'; 20]));
}

#[test]
fn bloom_filter_skips_absent_keys() {
    let mut db = Db::open_with_threshold(Disk::default(), 256);
    fill(&mut db, 300); // many SSTables on disk

    assert!(db.engine.sstable_count() > 3);

    // Look up keys that exist in no table at all.
    for i in 0..300 {
        assert_eq!(db.get(format!("absent{i:04}").as_bytes()), None);
    }

    // Almost every SSTable probe should have been skipped by the filter
    // (only the ~1% false-positive probes fall through to a real lookup).
    let rate = db.bloom_skip_rate();
    assert!(rate > 0.9, "bloom skip rate too low: {rate}");

    // And present keys are still always found (no false negatives).
    for i in 0..300 {
        assert_eq!(
            db.get(format!("key{i:04}").as_bytes()),
            Some(vec![b'x'; 20])
        );
    }
}

#[test]
fn seq_continues_after_recovery() {
    let disk = {
        let mut db = Db::open(Disk::default());
        db.set(k("a"), k("1"));
        db.set(k("b"), k("2"));
        db.disk
    };
    let mut db = Db::open(disk);
    assert_eq!(db.engine.seq(), 2);
    db.set(k("c"), k("3"));
    assert_eq!(db.engine.seq(), 3);
}

#[test]
fn data_survives_drop_and_reopen() {
    let disk = {
        let mut db = Db::open(Disk::default());
        for i in 0..100 {
            db.set(
                format!("key{i}").into_bytes(),
                format!("val{i}").into_bytes(),
            );
        }
        db.set(b"key0".to_vec(), b"overwritten".to_vec());
        db.delete(b"key50");
        db.delete(b"key99");
        db.disk
    }; // shutdown

    let mut db = Db::open(disk);

    assert_eq!(db.get(b"key0"), Some(b"overwritten".to_vec())); // overwrite kept
    assert_eq!(db.get(b"key1"), Some(b"val1".to_vec()));
    assert_eq!(db.get(b"key50"), None); // delete kept
    assert_eq!(db.get(b"key99"), None); // delete kept
    assert_eq!(db.get(b"key98"), Some(b"val98".to_vec()));
    assert_eq!(db.get(b"missing"), None);
}

#[test]
fn flushes_then_reopen_preserve_everything() {
    let n = 1_000;

    let disk = {
        // ~30-byte values, small threshold => many SSTables.
        let mut db = Db::open_with_threshold(Disk::default(), 1024);
        for i in 0..n {
            db.set(
                format!("k{i:05}").into_bytes(),
                format!("value-{i:05}").into_bytes(),
            );
        }
        // Mutate keys that already live in flushed SSTables.
        db.set(b"k00000".to_vec(), b"NEW".to_vec());
        db.delete(b"k00042");

        assert!(db.engine.sstable_count() > 1, "expected multiple flushes");
        db.disk
    }; // shutdown

    // Reopen purely from SSTables + WAL.
    let mut db = Db::open_with_threshold(disk, 1024);
    assert_eq!(db.get(b"k00000"), Some(b"NEW".to_vec())); // overwrite survived
    assert_eq!(db.get(b"k00042"), None); // delete survived
    assert_eq!(db.get(b"k00500"), Some(b"value-00500".to_vec()));
    assert_eq!(db.get(b"k00999"), Some(b"value-00999".to_vec()));
    assert_eq!(db.get(b"missing"), None);

    // Every SSTable on disk is independently key-sorted.
    for file in db.disk.tables() {
        let entries = open_table(b"sst", file).unwrap().scan(file).unwrap();
        let keys: Vec<_> = entries.iter().map(|e| e.key.clone()).collect();
        let mut sorted = keys.clone();
        sorted.sort();
        assert_eq!(keys, sorted);
    }
}

#[test]
fn reads_span_memtable_and_many_sstables() {
    // Small threshold => the 2000 keys spread across many SSTables, with the
    // most recent writes still in the active MemTable.
    let mut db = Db::open_with_threshold(Disk::default(), 512);
    for i in 0..2000 {
        db.set(
            format!("k{i:05}").into_bytes(),
            format!("v{i:05}").into_bytes(),
        );
    }
    assert!(
        db.engine.sstable_count() > 5,
        "expected several SSTables on disk"
    );

    // A spread of keys: earliest (deep SSTable), middle, and latest (memtable).
    for i in [0usize, 1, 17, 500, 1234, 1999] {
        assert_eq!(
            db.get(format!("k{i:05}").as_bytes()),
            Some(format!("v{i:05}").into_bytes()),
            "key k{i:05} should be found via the read path"
        );
    }
    assert_eq!(db.get(b"nope"), None);

    // Overwrite a key that lives in an old SSTable; the newer write wins.
    db.set(b"k00000".to_vec(), b"updated".to_vec());
    assert_eq!(db.get(b"k00000"), Some(b"updated".to_vec()));

    // Delete a key that lives in an old SSTable; the tombstone shadows it.
    db.delete(b"k00777");
    assert_eq!(db.get(b"k00777"), None);

    // Reopen: frozen MemTables are gone, so every read now comes from disk
    // (SSTables) or the replayed WAL. Everything still resolves correctly.
    let mut db = Db::open_with_threshold(db.disk, 512);
    assert_eq!(db.get(b"k00000"), Some(b"updated".to_vec()));
    assert_eq!(db.get(b"k00777"), None);
    assert_eq!(db.get(b"k01500"), Some(b"v01500".to_vec()));
}

#[test]
fn absent_lookups_skip_sstables_present_keys_survive() {
    let mut db = Db::open_with_threshold(Disk::default(), 512);
    for i in 0..1500 {
        db.set(
            format!("k{i:05}").into_bytes(),
            format!("v{i:05}").into_bytes(),
        );
    }
    assert!(
        db.engine.sstable_count() > 4,
        "want several SSTables to skip across"
    );

    // 1000 keys that exist nowhere: the Bloom filter should reject them from
    // (almost) every table without a block read.
    for i in 0..1000 {
        assert_eq!(db.search(format!("missing{i}").as_bytes()), None);
    }
    let rate = db.bloom_skip_rate();
    assert!(rate > 0.9, "expected most probes skipped, got {rate}");

    // The filter must never produce a false negative: every key is still found.
    for i in 0..1500 {
        assert_eq!(
            db.search(format!("k{i:05}").as_bytes()),
            Some(format!("v{i:05}").into_bytes())
        );
    }

    // Survives a reopen (filters are persisted in each SSTable).
    let mut db = Db::open_with_threshold(db.disk, 512);
    assert_eq!(db.get(b"k00500"), Some(b"v00500".to_vec()));
    assert_eq!(db.get(b"missing-after-reopen"), None);
    assert!(
        db.bloom_skip_rate() > 0.0,
        "filter should work after reopen"
    );
}

#[test]
fn compaction_reclaims_space_and_preserves_correctness() {
    // Auto-compaction off (open_with_threshold) so the table set is predictable;
    // we trigger one full compaction explicitly with `compact_now`.
    let mut db = Db::open_with_threshold(Disk::default(), 256);

    // 400 keys, each later overwritten with a *larger* value — so the original
    // small versions become dead weight spread across many SSTables.
    for i in 0..400 {
        db.set(format!("k{i:04}").into_bytes(), b"v".to_vec());
    }
    for i in 0..400 {
        db.set(format!("k{i:04}").into_bytes(), vec![b'x'; 64]);
    }
    // Delete a quarter of them outright.
    for i in 0..100 {
        db.delete(format!("k{i:04}").as_bytes());
    }

    let count_before = db.disk.files.len();
    let bytes_before = db.disk.bytes();
    assert!(count_before > 1, "want several tables to merge");

    db.compact_now();

    // Everything collapsed into a single superseding table, smaller than before.
    assert_eq!(db.disk.files.len(), 1, "full compaction yields one table");
    let bytes_after = db.disk.bytes();
    assert!(
        bytes_after < bytes_before,
        "on-disk size should drop: {bytes_before} -> {bytes_after}"
    );

    // Correctness preserved: deleted keys gone, survivors at their newest value.
    for i in 0..100 {
        assert_eq!(db.get(format!("k{i:04}").as_bytes()), None);
    }
    for i in 100..400 {
        assert_eq!(
            db.get(format!("k{i:04}").as_bytes()),
            Some(vec![b'x'; 64])
        );
    }

    // Survives a reopen — and a crash that left a superseded input behind cannot
    // resurrect a deleted key.
    let mut db = Db::open_with_threshold(db.disk, 256);
    assert_eq!(db.get(b"k0000"), None); // stayed deleted
    assert_eq!(db.get(b"k0399"), Some(vec![b'x'; 64]));
}

#[test]
fn a_store_opens_empty_with_the_defaults() {
    let opened = Engine::open(PathBuf::from("db"), Vec::new(), &[]).unwrap();
    assert_eq!(opened.engine.dir(), &PathBuf::from("db"));
    assert_eq!(opened.engine.sstable_count(), 0);
    assert_eq!(opened.engine.active_len(), 0);
    assert_eq!(opened.engine.seq(), 0);
    assert_eq!(opened.engine.next_sst(), 0);
    assert!(opened.superseded.is_empty());
    assert_eq!(DEFAULT_MEMTABLE_BYTES, 1 << 20);
    assert_eq!(DEFAULT_COMPACTION_TRIGGER, 4);
}

#[test]
fn a_damaged_log_fails_to_open() {
    let disk = Disk {
        log: vec![1, 0, 0, 0, 0],
        ..Disk::default()
    };
    assert_eq!(Db::try_open(disk, 100, 0).err(), Some(StoreError::Corrupt));
}

#[test]
fn a_mutation_is_framed_as_the_log_frames_it() {
    let mut db = Db::open(Disk::default());
    let mutation = db.engine.set(k("a"), k("1")).unwrap();
    assert_eq!(mutation.entry, Entry::put(k("a"), k("1"), 1));
    let mut wal = Wal::open(Vec::new());
    wal.append(&mutation.entry).unwrap();
    assert_eq!(mutation.record, wal.bytes());

    let mutation = db.engine.delete(b"a").unwrap();
    assert_eq!(mutation.entry, Entry::delete(k("a"), 2));
    // Nothing is applied yet.
    assert_eq!(db.engine.active_len(), 0);
}

#[test]
fn the_memtable_is_flushed_at_the_threshold() {
    let mut engine = Engine::open_with_threshold(PathBuf::new(), Vec::new(), &[], 4)
        .unwrap()
        .engine;
    assert!(!engine.apply(Entry::put(k("a"), k("12"), 1))); // three bytes
    assert_eq!(engine.active_bytes(), 3);
    assert!(engine.apply(Entry::put(k("b"), k(""), 2))); // four
}

#[test]
fn an_empty_memtable_is_not_flushed() {
    let mut db = Db::open(Disk::default());
    assert!(db.engine.begin_flush().is_none());
    assert_eq!(db.engine.next_sst(), 0);
}

#[test]
fn tables_are_numbered_from_one() {
    let mut db = Db::open(Disk::default());
    db.set(k("a"), k("1"));
    db.flush();
    db.set(k("b"), k("2"));
    db.flush();
    let names: Vec<Key> = db.disk.files.keys().cloned().collect();
    assert_eq!(names, vec![k("sst-000001.sst"), k("sst-000002.sst")]);
}

#[test]
fn compaction_needs_two_tables() {
    let mut db = Db::open(Disk::default());
    assert_eq!(db.engine.begin_compaction(), None);
    db.set(k("a"), k("1"));
    db.flush();
    assert_eq!(db.engine.begin_compaction(), None);
    assert_eq!(db.engine.compaction_job(), None);
}

#[test]
fn compaction_starts_by_itself_at_the_trigger() {
    let mut db = Db::try_open(Disk::default(), 1, 3).unwrap();
    db.set(k("a"), k("1")); // every write is flushed
    db.set(k("b"), k("2"));
    assert!(!db.engine.compaction_due());
    assert_eq!(db.engine.sstable_count(), 2);
    db.set(k("c"), k("3"));
    assert_eq!(db.engine.sstable_count(), 1);
    assert_eq!(db.get(b"a"), Some(k("1")));
    assert_eq!(db.get(b"c"), Some(k("3")));
}

#[test]
fn compaction_never_starts_by_itself_without_a_trigger() {
    let mut db = Db::open_with_threshold(Disk::default(), 1);
    for i in 0..10 {
        db.set(format!("{i}").into_bytes(), k("v"));
    }
    assert_eq!(db.engine.sstable_count(), 10);
    assert!(!db.engine.compaction_due());
}

#[test]
fn one_compaction_runs_at_a_time() {
    let mut db = Db::open_with_threshold(Disk::default(), 1);
    db.set(k("a"), k("1"));
    db.set(k("b"), k("2"));
    let job = db.engine.begin_compaction();
    assert_eq!(
        job,
        Some(CompactionJob {
            inputs: 2,
            number: 3
        })
    );
    assert_eq!(db.engine.begin_compaction(), None);
    assert_eq!(db.engine.compaction_job(), job);
    db.engine.cancel_compaction();
    assert_eq!(db.engine.compaction_job(), None);
    assert_eq!(db.engine.sstable_count(), 2);
}

#[test]
fn tables_flushed_during_a_compaction_stay() {
    let mut db = Db::open_with_threshold(Disk::default(), 1);
    db.set(k("a"), k("1"));
    db.set(k("b"), k("2"));
    let job = db.engine.begin_compaction().unwrap();
    let merged = db.write_merged_table(job);
    db.set(k("a"), k("newer")); // flushed meanwhile, under a higher number
    let inputs = db.engine.finish_compaction(merged);
    let paths: Vec<_> = inputs.iter().map(|t| t.table.path().clone()).collect();
    assert_eq!(
        paths,
        vec![
            PathBuf::from("sst-000001.sst"),
            PathBuf::from("sst-000002.sst")
        ]
    );
    for input in inputs {
        db.disk.files.remove(&table_name(input.number));
    }
    let numbers: Vec<u64> = db.engine.tables().iter().map(|t| t.number).collect();
    assert_eq!(numbers, vec![3, 4]);
    assert_eq!(db.get(b"a"), Some(k("newer")));
    assert_eq!(db.get(b"b"), Some(k("2")));

    let mut db = Db::open_with_threshold(db.disk, 1);
    assert_eq!(db.engine.sstable_count(), 2);
    assert_eq!(db.get(b"a"), Some(k("newer")));
}

#[test]
fn a_leftover_input_cannot_resurrect_a_deleted_key() {
    let mut db = Db::open_with_threshold(Disk::default(), 1);
    db.set(k("gone"), k("old"));
    db.set(k("kept"), k("1"));
    db.delete(b"gone");
    let job = db.engine.begin_compaction().unwrap();
    db.write_merged_table(job);

    // Crash: the output is durable, and only the input with the tombstone has been
    // deleted yet.
    let mut disk = db.disk.clone();
    disk.files.remove(&table_name(3));
    let mut again = Db::open_with_threshold(disk, 1);
    assert_eq!(again.get(b"gone"), None);
    assert_eq!(again.get(b"kept"), Some(k("1")));
    assert_eq!(
        again.engine.tables()[0].table.path(),
        &PathBuf::from("sst-000004.sst")
    );
    let numbers: Vec<u64> = again.engine.tables().iter().map(|t| t.number).collect();
    assert_eq!(numbers, vec![4]);
    assert_eq!(again.disk.files.len(), 1); // the leftover inputs are gone
}

#[test]
fn a_crash_before_the_log_is_emptied_loses_and_doubles_nothing() {
    let mut db = Db::open_with_threshold(Disk::default(), 1000);
    db.set(k("a"), k("1"));
    db.set(k("b"), k("2"));
    db.delete(b"a");
    db.write_flushed_table();

    let mut again = Db::open_with_threshold(db.disk, 1000);
    assert_eq!(again.engine.sstable_count(), 1);
    assert_eq!(again.engine.active_len(), 2);
    assert_eq!(again.get(b"a"), None);
    assert_eq!(again.get(b"b"), Some(k("2")));
    again.flush();
    again.compact_now();
    assert_eq!(again.get(b"a"), None);
    assert_eq!(again.get(b"b"), Some(k("2")));
}

#[test]
fn a_torn_append_costs_only_that_mutation() {
    let mut db = Db::open(Disk::default());
    db.set(k("a"), k("1"));
    let whole = db.disk.log.len();
    db.set(k("a"), k("2"));
    for cut in whole..db.disk.log.len() {
        let mut disk = db.disk.clone();
        disk.log.truncate(cut);
        let mut again = Db::open(disk);
        assert_eq!(again.get(b"a"), Some(k("1")));
        assert_eq!(again.engine.seq(), 1);
    }
    let mut again = Db::open(db.disk);
    assert_eq!(again.get(b"a"), Some(k("2")));
}

#[test]
fn a_mutation_after_a_torn_append_survives() {
    let mut db = Db::open(Disk::default());
    db.set(k("a"), k("1"));
    let whole = db.disk.log.len();
    db.set(k("b"), k("2"));
    for cut in whole..db.disk.log.len() {
        let mut disk = db.disk.clone();
        disk.log.truncate(cut);
        let mut again = Db::open(disk);
        again.set(k("c"), k("3")); // acknowledged
        let mut later = Db::open(again.disk);
        assert_eq!(later.get(b"a"), Some(k("1")));
        assert_eq!(later.get(b"b"), None);
        assert_eq!(later.get(b"c"), Some(k("3")));
    }
}

#[test]
fn a_failed_flush_loses_nothing() {
    let mut db = Db::open(Disk::default());
    db.set(k("a"), k("1"));
    db.delete(b"b");
    let log = db.disk.log.clone();

    // The table is never written.
    let flush = db.engine.begin_flush().unwrap();
    assert_eq!(flush.number, 1);
    assert_eq!(flush.entries.len(), 2);
    assert_eq!(db.engine.active_len(), 2);
    assert_eq!(db.get(b"a"), Some(k("1")));
    assert_eq!(db.disk.log, log);

    // The next flush has it all, under the next number.
    db.set(k("c"), k("3"));
    db.flush();
    assert_eq!(db.engine.next_sst(), 2);
    let mut again = Db::open(db.disk);
    assert_eq!(again.get(b"a"), Some(k("1")));
    assert_eq!(again.get(b"b"), None);
    assert_eq!(again.get(b"c"), Some(k("3")));
}

#[test]
fn a_log_that_could_not_be_emptied_does_no_harm() {
    let mut db = Db::open(Disk::default());
    db.set(k("a"), k("1"));
    db.set(k("gone"), k("2"));
    db.delete(b"gone");
    let (flush, table) = db.write_flushed_table().unwrap();
    db.engine.finish_flush(flush, table); // and the log stays
    db.set(k("a"), k("newer"));
    db.flush_without_emptying();
    db.compact_now(); // drops the tombstone
    db.set(k("c"), k("3"));

    let mut again = Db::open(db.disk.clone());
    for db in [&mut db, &mut again] {
        assert_eq!(db.get(b"a"), Some(k("newer")));
        assert_eq!(db.get(b"gone"), None);
        assert_eq!(db.get(b"c"), Some(k("3")));
        assert_eq!(db.engine.seq(), 5);
    }
}

#[test]
fn a_damaged_filter_is_only_asked_for_when_its_table_is() {
    // A table whose filter says that it has bits, and has none.
    let entries = vec![Entry::put(k("old"), k("1"), 1)];
    let mut file = SsTable::create(&entries, 8, 1).unwrap();
    let at = file.len() - 56 - 21;
    file[at] = 0; // the number of bytes that hold bits
    let damaged = open_table(b"sst-000001.sst", &file).unwrap();
    assert!(!damaged.can_ask(b"old"));

    let whole_file = SsTable::create(&vec![Entry::put(k("new"), k("2"), 2)], 64, 3).unwrap();
    let whole = open_table(b"sst-000002.sst", &whole_file).unwrap();
    let tables = vec![
        NumberedTable {
            number: 1,
            table: damaged,
        },
        NumberedTable {
            number: 2,
            table: whole,
        },
    ];
    let engine = Engine::open(PathBuf::new(), tables, &[]).unwrap().engine;
    assert!(engine.can_ask(2, b"new")); // the newer table lets it through
    assert_eq!(engine.next_candidate(2, b"new").table, Some(1));
    assert!(!engine.can_ask(1, b"old"));
    assert!(engine.can_ask(0, b"old"));
    // A read that the newer table decides does not come to the damaged one.
    assert_eq!(
        engine.get(&[file, whole_file], b"new"),
        Ok(Some(k("2")))
    );
}

#[test]
fn the_store_holds_what_memory_holds() {
    let mut db = Db::try_open(Disk::default(), 60, 3).unwrap();
    let mut memory = MemStore::new();
    for i in 0..300u32 {
        let key = format!("k{:02}", (i * 7) % 23).into_bytes();
        if i % 5 == 0 {
            db.delete(&key);
            memory.delete(&key).unwrap();
        } else {
            let value = format!("v{i}").into_bytes();
            db.set(key.clone(), value.clone());
            memory.set(key, value).unwrap();
        }
        if i % 50 == 17 {
            db = Db::try_open(db.disk, 60, 3).unwrap();
        }
    }
    for i in 0..23 {
        let key = format!("k{i:02}").into_bytes();
        assert_eq!(db.get(&key), memory.get(&key).unwrap());
    }
}

#[test]
fn an_unfinished_file_is_ignored() {
    let mut db = Db::open(Disk::default());
    db.set(k("a"), k("1"));
    let mut disk = db.disk;
    disk.files.insert(k("sst-000001.sst.tmp"), vec![1, 2, 3]);
    disk.files.insert(k("notes.tmp"), vec![4]);
    let mut again = Db::open(disk);
    assert_eq!(again.get(b"a"), Some(k("1")));
    // Other files are not the store's to delete.
    let names: Vec<Key> = again.disk.files.keys().cloned().collect();
    assert_eq!(names, vec![k("notes.tmp")]);
}

#[test]
fn footers_restore_the_sequence_number() {
    let mut db = Db::open_with_threshold(Disk::default(), 1);
    db.set(k("a"), k("1"));
    db.set(k("b"), k("2"));
    db.compact_now();
    let again = Db::open_with_threshold(db.disk, 1);
    assert_eq!(again.engine.seq(), 2);
    assert_eq!(again.engine.next_sst(), 3);
}

#[test]
fn the_newest_layer_wins() {
    let mut db = Db::open_with_threshold(Disk::default(), 1000);
    for value in ["1", "2", "3"] {
        db.set(k("a"), k(value));
        db.flush();
        assert_eq!(db.get(b"a"), Some(k(value)));
    }
    db.set(k("a"), k("4"));
    assert_eq!(db.get(b"a"), Some(k("4")));
    assert_eq!(db.get(b"other"), None);
}

#[test]
fn candidates_are_counted() {
    let mut db = Db::open_with_threshold(Disk::default(), 1);
    db.set(k("a"), k("1"));
    assert_eq!(
        db.engine.next_candidate(1, b"a"),
        Candidate {
            table: Some(0),
            probes: 1,
            skips: 0
        }
    );
    assert_eq!(
        db.engine.next_candidate(0, b"a"),
        Candidate {
            table: None,
            probes: 0,
            skips: 0
        }
    );
}

#[test]
fn a_table_that_cannot_be_read_fails_the_read() {
    let mut db = Db::open_with_threshold(Disk::default(), 1);
    db.set(k("a"), k("1"));
    assert_eq!(
        db.engine.get(&[Vec::new()], b"a"),
        Err(StoreError::UnexpectedEof)
    );
}
