use cairn::names::{is_stale_temp, sstable_files, table_name, table_number};

#[test]
fn a_number_is_padded_to_six_digits() {
    assert_eq!(table_name(0), b"sst-000000.sst");
    assert_eq!(table_name(7), b"sst-000007.sst");
    assert_eq!(table_name(123456), b"sst-123456.sst");
    assert_eq!(table_name(1234567), b"sst-1234567.sst");
    assert_eq!(table_name(u64::MAX), b"sst-18446744073709551615.sst");
}

#[test]
fn a_name_gives_its_number_back() {
    for number in [0, 1, 9, 10, 999999, 1000000, u64::MAX] {
        assert_eq!(table_number(&table_name(number)), Some(number));
    }
}

#[test]
fn other_spellings_of_a_number_are_read() {
    assert_eq!(table_number(b"sst-1.sst"), Some(1));
    assert_eq!(table_number(b"sst-+12.sst"), Some(12));
    assert_eq!(table_number(b"sst-0000000000000000000000001.sst"), Some(1));
}

#[test]
fn other_files_are_no_tables() {
    let names: [&[u8]; 12] = [
        b"wal.log",
        b"sst-000001.sst.tmp",
        b"sst-000001",
        b"sst-.sst",
        b"sst-+.sst",
        b"sst--1.sst",
        b"sst-12x.sst",
        b"tab-000001.sst",
        b".sst",
        b"",
        b"sst-1.2.sst",
        b"sst-18446744073709551616.sst",
    ];
    for name in names {
        assert_eq!(table_number(name), None);
    }
}

#[test]
fn a_temp_file_is_told_by_its_extension() {
    assert!(is_stale_temp(b"sst-000001.sst.tmp"));
    assert!(is_stale_temp(b"other.sst.tmp"));
    assert!(!is_stale_temp(b"notes.tmp"));
    assert!(is_stale_temp(b".sst.tmp"));
    assert!(!is_stale_temp(b"sst.tmp"));
    assert!(!is_stale_temp(b"sst-000001.sst.tmp.bak"));
    assert!(!is_stale_temp(b"wal.log"));
    assert!(!is_stale_temp(b".tmp"));
    assert!(!is_stale_temp(b"tmp"));
    assert!(!is_stale_temp(b"sst-000001.sst"));
}

#[test]
fn tables_are_listed_by_number() {
    let names: Vec<Vec<u8>> = ["sst-000010.sst", "wal.log", "sst-000002.sst", "sst-9.sst"]
        .iter()
        .map(|name| name.as_bytes().to_vec())
        .collect();
    assert_eq!(
        sstable_files(names),
        vec![
            (2, b"sst-000002.sst".to_vec()),
            (9, b"sst-9.sst".to_vec()),
            (10, b"sst-000010.sst".to_vec()),
        ]
    );
}
