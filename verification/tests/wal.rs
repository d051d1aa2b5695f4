use cairn::error::StoreError;
use cairn::wal::whole_length;
use cairn::{Entry, Wal};

#[test]
fn append_then_replay_roundtrips_in_order() {
    let mut wal = Wal::open(Vec::new());
    wal.append(&Entry::put(b"a".to_vec(), b"1".to_vec(), 1))
        .unwrap();
    wal.append(&Entry::delete(b"a".to_vec(), 2)).unwrap();
    wal.append(&Entry::put(b"b".to_vec(), b"2".to_vec(), 3))
        .unwrap();

    let entries = Wal::replay(wal.bytes()).unwrap();
    assert_eq!(
        entries,
        vec![
            Entry::put(b"a".to_vec(), b"1".to_vec(), 1),
            Entry::delete(b"a".to_vec(), 2),
            Entry::put(b"b".to_vec(), b"2".to_vec(), 3),
        ]
    );
}

#[test]
fn truncate_empties_the_log_then_appends_continue() {
    let mut wal = Wal::open(Vec::new());
    wal.append(&Entry::put(b"a".to_vec(), b"1".to_vec(), 1))
        .unwrap();
    wal.truncate();
    assert_eq!(wal.bytes().len(), 0);

    // The log keeps working after truncation.
    wal.append(&Entry::put(b"b".to_vec(), b"2".to_vec(), 2))
        .unwrap();
    let entries = Wal::replay(wal.bytes()).unwrap();
    assert_eq!(entries, vec![Entry::put(b"b".to_vec(), b"2".to_vec(), 2)]);
}

#[test]
fn replay_missing_file_is_empty() {
    // A log that was never written has no bytes.
    assert!(Wal::replay(&[]).unwrap().is_empty());
}

#[test]
fn torn_tail_record_is_discarded() {
    let mut wal = Wal::open(Vec::new());
    wal.append(&Entry::put(b"a".to_vec(), b"1".to_vec(), 1))
        .unwrap();
    wal.append(&Entry::put(b"b".to_vec(), b"2".to_vec(), 2))
        .unwrap();
    // Simulate a crash mid-append by lopping bytes off the end.
    let len = wal.bytes().len();

    // The first (intact) record survives; the torn second one is dropped.
    let entries = Wal::replay(&wal.bytes()[..len - 3]).unwrap();
    assert_eq!(entries, vec![Entry::put(b"a".to_vec(), b"1".to_vec(), 1)]);
}

#[test]
fn a_log_torn_anywhere_yields_the_whole_records_before() {
    let first = Entry::put(b"key".to_vec(), b"value".to_vec(), 7);
    let mut wal = Wal::open(Vec::new());
    wal.append(&first).unwrap();
    let whole = wal.bytes().len();
    wal.append(&Entry::delete(b"key".to_vec(), 8)).unwrap();
    for cut in whole..wal.bytes().len() {
        assert_eq!(Wal::replay(&wal.bytes()[..cut]).unwrap(), vec![first.clone()]);
    }
}

#[test]
fn appends_go_behind_an_existing_log() {
    let mut wal = Wal::open(Vec::new());
    wal.append(&Entry::put(b"a".to_vec(), b"1".to_vec(), 1))
        .unwrap();
    let mut again = Wal::open(wal.into_bytes());
    again.append(&Entry::delete(b"a".to_vec(), 2)).unwrap();
    assert_eq!(
        Wal::replay(&again.into_bytes()).unwrap(),
        vec![
            Entry::put(b"a".to_vec(), b"1".to_vec(), 1),
            Entry::delete(b"a".to_vec(), 2),
        ]
    );
}

#[test]
fn what_is_appended_after_a_torn_tail_is_replayed() {
    let mut wal = Wal::open(Vec::new());
    wal.append(&Entry::put(b"a".to_vec(), b"1".to_vec(), 1))
        .unwrap();
    let whole = wal.bytes().len();
    wal.append(&Entry::put(b"b".to_vec(), b"2".to_vec(), 2))
        .unwrap();
    let bytes = wal.into_bytes();
    for cut in whole..bytes.len() {
        assert_eq!(whole_length(&bytes[..cut]), whole);
        let mut again = Wal::open(bytes[..cut].to_vec());
        assert_eq!(again.bytes().len(), whole);
        again
            .append(&Entry::put(b"c".to_vec(), b"3".to_vec(), 3))
            .unwrap();
        assert_eq!(
            Wal::replay(again.bytes()).unwrap(),
            vec![
                Entry::put(b"a".to_vec(), b"1".to_vec(), 1),
                Entry::put(b"c".to_vec(), b"3".to_vec(), 3),
            ]
        );
    }
}

#[test]
fn opening_keeps_whole_records_that_do_not_decode() {
    // Only a torn tail is cut off; the record of one byte is whole.
    let wal = Wal::open(vec![1, 0, 0, 0, 7, 9, 9]);
    assert_eq!(wal.bytes(), &[1, 0, 0, 0, 7][..]);
}

#[test]
fn record_layout_is_length_then_fields() {
    let mut wal = Wal::open(Vec::new());
    wal.append(&Entry::put(b"ab".to_vec(), b"c".to_vec(), 258))
        .unwrap();
    let mut expected = vec![31, 0, 0, 0];
    expected.extend([2, 0, 0, 0, 0, 0, 0, 0, b'a', b'b']);
    expected.extend([1, 0, 0, 0, 0, 0, 0, 0, b'c']);
    expected.extend([0, 0, 0, 0]); // a put
    expected.extend([2, 1, 0, 0, 0, 0, 0, 0]);
    assert_eq!(wal.bytes(), expected.as_slice());

    wal.truncate();
    wal.append(&Entry::delete(Vec::new(), 0)).unwrap();
    let mut expected = vec![28, 0, 0, 0];
    expected.extend([0; 16]);
    expected.extend([1, 0, 0, 0]); // a delete
    expected.extend([0; 8]);
    assert_eq!(wal.bytes(), expected.as_slice());
}

#[test]
fn a_whole_record_that_does_not_decode_fails_the_log() {
    let mut wal = Wal::open(Vec::new());
    wal.append(&Entry::put(b"ab".to_vec(), b"c".to_vec(), 1))
        .unwrap();
    let mut bytes = wal.into_bytes();
    bytes[23] = 9; // no such kind of entry
    assert_eq!(Wal::replay(&bytes), Err(StoreError::Corrupt));

    // A length that stops short of the entry.
    assert_eq!(Wal::replay(&[1, 0, 0, 0, 0]), Err(StoreError::Corrupt));
}

#[test]
fn bytes_behind_the_entry_of_a_record_are_ignored() {
    let entry = Entry::put(b"ab".to_vec(), b"c".to_vec(), 1);
    let mut wal = Wal::open(Vec::new());
    wal.append(&entry).unwrap();
    let mut bytes = wal.into_bytes();
    bytes[0] += 2;
    bytes.extend([0xff, 0xff]);
    assert_eq!(Wal::replay(&bytes).unwrap(), vec![entry]);
}
