use cairn::api::Entry;
use cairn::memtable::MemTable;

fn put(table: &mut MemTable, key: &str, val: &str, seq: u64) {
    table.put(Entry::put(
        key.as_bytes().to_vec(),
        val.as_bytes().to_vec(),
        seq,
    ));
}

#[test]
fn put_and_get() {
    let mut t = MemTable::new();
    put(&mut t, "a", "1", 1);
    assert_eq!(t.get(b"a").unwrap().value, b"1");
    assert!(t.get(b"missing").is_none());
}

#[test]
fn overwrite_replaces_and_keeps_size_sane() {
    let mut t = MemTable::new();
    put(&mut t, "a", "11", 1);
    let after_first = t.size_bytes();
    put(&mut t, "a", "2222", 2);
    assert_eq!(t.len(), 1); // still one key
    assert_eq!(t.get(b"a").unwrap().value, b"2222");
    // size reflects the new value (a:11 -> a:2222), not the sum of both.
    assert_eq!(t.size_bytes(), after_first + 2);
}

#[test]
fn delete_is_stored_as_tombstone() {
    let mut t = MemTable::new();
    put(&mut t, "a", "1", 1);
    t.put(Entry::delete(b"a".to_vec(), 2));
    let e = t.get(b"a").unwrap();
    assert!(e.is_tombstone()); // present, but marked deleted
}

#[test]
fn iter_is_sorted_by_key() {
    let mut t = MemTable::new();
    put(&mut t, "c", "3", 1);
    put(&mut t, "a", "1", 2);
    put(&mut t, "b", "2", 3);
    let keys: Vec<_> = t.iter().map(|e| e.key.clone()).collect();
    assert_eq!(keys, vec![b"a".to_vec(), b"b".to_vec(), b"c".to_vec()]);
}
