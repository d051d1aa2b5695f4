use std::path::PathBuf;

use cairn::compaction::{merge_runs, merge_tables, TableFile};
use cairn::error::StoreError;
use cairn::{Entry, SsTable};

fn sst(entries: Vec<Entry>) -> TableFile {
    let bytes = SsTable::create(&entries, 64, 3).unwrap();
    let table = SsTable::open(PathBuf::from("sst-000001.sst"), &bytes).unwrap();
    TableFile { table, bytes }
}

fn put(key: &str, val: &str, seq: u64) -> Entry {
    Entry::put(key.as_bytes().to_vec(), val.as_bytes().to_vec(), seq)
}

#[test]
fn newest_seq_wins_across_tables_and_output_is_sorted() {
    let old = sst(vec![put("a", "1", 1), put("b", "1", 2)]);
    let new = sst(vec![put("a", "2", 5)]);

    let merged = merge_tables(&[old, new], false).unwrap();

    let keys: Vec<_> = merged.iter().map(|e| e.key.clone()).collect();
    assert_eq!(keys, vec![b"a".to_vec(), b"b".to_vec()]); // sorted
    let a = merged.iter().find(|e| e.key == b"a").unwrap();
    assert_eq!(a.value, b"2"); // higher seq wins
}

#[test]
fn dropping_tombstones_removes_the_deleted_key() {
    let older = sst(vec![put("a", "1", 1), put("b", "old", 1)]);
    let newer = sst(vec![Entry::delete(b"b".to_vec(), 3)]);
    let inputs = [older, newer];

    // Kept: the tombstone collapses the older value but survives.
    let kept = merge_tables(&inputs, false).unwrap();
    assert!(kept.iter().any(|e| e.key == b"b" && e.is_tombstone()));

    // Dropped: the key disappears entirely.
    let dropped = merge_tables(&inputs, true).unwrap();
    assert!(dropped.iter().all(|e| e.key != b"b"));
    assert!(dropped.iter().any(|e| e.key == b"a"));
}

#[test]
fn the_order_of_the_tables_does_not_matter() {
    let runs = || {
        vec![
            vec![put("a", "1", 1), put("c", "1", 2)],
            vec![put("a", "2", 4), Entry::delete(b"b".to_vec(), 5)],
            vec![put("b", "3", 3), put("c", "3", 6)],
        ]
    };
    let tables = |order: [usize; 3]| -> Vec<TableFile> {
        order.iter().map(|&i| sst(runs()[i].clone())).collect()
    };
    let expected = vec![
        put("a", "2", 4),
        Entry::delete(b"b".to_vec(), 5),
        put("c", "3", 6),
    ];
    for order in [[0, 1, 2], [2, 1, 0], [1, 0, 2], [1, 2, 0]] {
        assert_eq!(merge_tables(&tables(order), false).unwrap(), expected);
    }
}

#[test]
fn the_first_of_two_equally_new_versions_wins() {
    let merged = merge_runs(
        vec![vec![put("a", "first", 3)], vec![put("a", "second", 3)]],
        false,
    );
    assert_eq!(merged, vec![put("a", "first", 3)]);
}

#[test]
fn a_run_that_is_out_of_order_is_sorted_and_collapsed() {
    let merged = merge_runs(
        vec![vec![put("b", "1", 1), put("a", "1", 2), put("b", "2", 3)]],
        false,
    );
    assert_eq!(merged, vec![put("a", "1", 2), put("b", "2", 3)]);
}

#[test]
fn merging_no_tables_gives_nothing() {
    assert!(merge_tables(&[], true).unwrap().is_empty());
}

#[test]
fn a_table_that_cannot_be_scanned_fails_the_merge() {
    let good = sst(vec![put("a", "1", 1)]);
    let mut bad = sst(vec![put("b", "1", 2)]);
    bad.bytes.truncate(10);
    assert_eq!(
        merge_tables(&[good, bad], false),
        Err(StoreError::UnexpectedEof)
    );
}
