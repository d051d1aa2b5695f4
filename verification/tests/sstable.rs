use std::path::PathBuf;

use cairn::codec::decode_index;
use cairn::error::StoreError;
use cairn::sstable::{Cursor, Examined, Footer, FOOTER_SIZE, KIND_COMPACTION, KIND_FLUSH, MAGIC};
use cairn::{Entry, SsTable};

fn put(key: &str, val: &str, seq: u64) -> Entry {
    Entry::put(key.as_bytes().to_vec(), val.as_bytes().to_vec(), seq)
}

/// A filter shape for this many keys at a false-positive rate of one in a hundred.
fn shape(keys: usize) -> (u64, u32) {
    let n = keys.max(1) as f64;
    let ln2 = std::f64::consts::LN_2;
    let num_bits = (-n * 0.01f64.ln() / (ln2 * ln2)).ceil().max(1.0) as u64;
    let k = ((num_bits as f64 / n) * ln2).round().max(1.0) as u32;
    (num_bits, k)
}

fn path() -> PathBuf {
    PathBuf::from("sst-000001.sst")
}

fn image(entries: &Vec<Entry>) -> Vec<u8> {
    let (num_bits, k) = shape(entries.len());
    SsTable::create(entries, num_bits, k).unwrap()
}

fn footer(file: &[u8]) -> Footer {
    Footer::parse(&file[file.len() - FOOTER_SIZE..]).unwrap()
}

#[test]
fn create_then_scan_roundtrips_in_order() {
    let entries = vec![put("a", "1", 1), put("b", "2", 2), put("c", "3", 3)];
    let file = image(&entries);

    let read = SsTable::open(path(), &file).unwrap().scan(&file).unwrap();
    assert_eq!(read, entries);
}

#[test]
fn point_lookup_across_many_blocks() {
    // 500 keys k000..k499 -> spans ~31 index blocks.
    let entries: Vec<_> = (0..500)
        .map(|i| put(&format!("k{i:03}"), &format!("v{i}"), i as u64 + 1))
        .collect();
    let file = image(&entries);
    let sst = SsTable::open(path(), &file).unwrap();

    // Hits at block boundaries and mid-block.
    assert_eq!(sst.get(&file, b"k000").unwrap().unwrap().value, b"v0");
    assert_eq!(sst.get(&file, b"k016").unwrap().unwrap().value, b"v16");
    assert_eq!(sst.get(&file, b"k255").unwrap().unwrap().value, b"v255");
    assert_eq!(sst.get(&file, b"k499").unwrap().unwrap().value, b"v499");

    // Misses: before first, after last, and a gap.
    assert!(sst.get(&file, b"k500").unwrap().is_none());
    assert!(sst.get(&file, b"aaa").unwrap().is_none()); // precedes everything
    assert!(sst.get(&file, b"k0005").unwrap().is_none()); // between k000 and k001
}

#[test]
fn every_key_of_a_table_is_found() {
    let entries: Vec<_> = (0..100)
        .map(|i| put(&format!("k{i:03}"), &format!("v{i}"), i as u64 + 1))
        .collect();
    let file = image(&entries);
    let sst = SsTable::open(path(), &file).unwrap();
    for entry in &entries {
        assert!(sst.may_contain(&entry.key));
        assert_eq!(sst.get(&file, &entry.key).unwrap().as_ref(), Some(entry));
    }
}

#[test]
fn tombstones_are_retrievable() {
    let entries = vec![put("a", "1", 1), Entry::delete(b"b".to_vec(), 2)];
    let file = image(&entries);
    let sst = SsTable::open(path(), &file).unwrap();
    assert!(!sst.get(&file, b"a").unwrap().unwrap().is_tombstone());
    assert!(sst.get(&file, b"b").unwrap().unwrap().is_tombstone());
}

#[test]
fn footer_carries_max_seq() {
    let entries = vec![put("a", "1", 7), put("b", "2", 42), put("c", "3", 13)];
    let file = image(&entries);
    // Read from the footer, not recomputed.
    assert_eq!(footer(&file).max_seq, 42);
    assert_eq!(SsTable::open(path(), &file).unwrap().max_seq(), 42);
}

#[test]
fn a_table_keeps_its_path() {
    let file = image(&vec![put("a", "1", 1)]);
    assert_eq!(SsTable::open(path(), &file).unwrap().path(), &path());
}

#[test]
fn only_a_compaction_output_is_superseding() {
    let entries = vec![put("a", "1", 1)];
    let flushed = SsTable::create(&entries, 64, 3).unwrap();
    let compacted = SsTable::create_compaction(&entries, 64, 3).unwrap();
    assert_eq!(footer(&flushed).kind, KIND_FLUSH);
    assert_eq!(footer(&compacted).kind, KIND_COMPACTION);
    assert!(!SsTable::open(path(), &flushed).unwrap().is_superseding());
    assert!(SsTable::open(path(), &compacted).unwrap().is_superseding());
}

#[test]
fn an_empty_table_holds_nothing() {
    let file = image(&Vec::new());
    let sst = SsTable::open(path(), &file).unwrap();
    assert!(sst.scan(&file).unwrap().is_empty());
    assert!(sst.get(&file, b"a").unwrap().is_none());
    assert_eq!(sst.max_seq(), 0);
}

#[test]
fn file_layout_is_data_index_filter_footer() {
    // 17 records of 32 + 2 + 1 bytes: the index has the first and the last.
    let entries: Vec<_> = (0..17).map(|i| put(&format!("{i:02}"), "v", 1)).collect();
    let file = SsTable::create(&entries, 8, 1).unwrap();
    let f = footer(&file);
    assert_eq!(f.index_offset, 17 * 35);
    assert_eq!(f.index_len, 8 + 2 * (8 + 2 + 8));
    assert_eq!(f.bloom_offset, f.index_offset + f.index_len);
    assert_eq!(f.bloom_len, 8 + 1 + 8 + 4);
    assert_eq!(
        file.len() as u64,
        f.bloom_offset + f.bloom_len + FOOTER_SIZE as u64
    );
    let index = &file[f.index_offset as usize..f.bloom_offset as usize];
    let mut expected = vec![2, 0, 0, 0, 0, 0, 0, 0];
    expected.extend([2, 0, 0, 0, 0, 0, 0, 0, b'0', b'0']);
    expected.extend(0u64.to_le_bytes());
    expected.extend([2, 0, 0, 0, 0, 0, 0, 0, b'1', b'6']);
    expected.extend((16u64 * 35).to_le_bytes());
    assert_eq!(index, expected.as_slice());
    assert_eq!(&file[file.len() - 8..], &MAGIC.to_le_bytes()[..]);
}

#[test]
fn a_file_shorter_than_a_footer_is_refused() {
    assert_eq!(
        SsTable::open(path(), &[0; FOOTER_SIZE - 1]).err(),
        Some(StoreError::TableTooSmall)
    );
}

#[test]
fn a_file_without_the_magic_number_is_refused() {
    let mut file = image(&vec![put("a", "1", 1)]);
    let last = file.len() - 1;
    file[last] ^= 1;
    assert_eq!(
        SsTable::open(path(), &file).err(),
        Some(StoreError::BadMagic)
    );
}

#[test]
fn sections_beyond_the_file_are_refused() {
    let file = image(&vec![put("a", "1", 1)]);
    let at = file.len() - FOOTER_SIZE;

    let mut far = file.clone();
    far[at..at + 8].copy_from_slice(&(file.len() as u64).to_le_bytes());
    assert_eq!(
        SsTable::open(path(), &far).err(),
        Some(StoreError::UnexpectedEof)
    );

    let mut farther = file.clone();
    farther[at..at + 8].copy_from_slice(&(i64::MAX as u64).to_le_bytes());
    assert_eq!(
        SsTable::open(path(), &farther).err(),
        Some(StoreError::UnexpectedEof)
    );

    // No file can be read there, so it is not the end of this one that is met.
    for field in [0, 16] {
        let mut nowhere = file.clone();
        nowhere[at + field..at + field + 8].copy_from_slice(&(1u64 << 63).to_le_bytes());
        assert_eq!(
            SsTable::open(path(), &nowhere).err(),
            Some(StoreError::BadOffset)
        );
    }
}

#[test]
fn a_damaged_index_or_filter_is_refused() {
    let file = image(&vec![put("a", "1", 1)]);
    let at = file.len() - FOOTER_SIZE;

    let mut no_index = file.clone();
    no_index[at + 8..at + 16].copy_from_slice(&0u64.to_le_bytes());
    assert_eq!(
        SsTable::open(path(), &no_index).err(),
        Some(StoreError::Corrupt)
    );

    let mut no_filter = file.clone();
    no_filter[at + 24..at + 32].copy_from_slice(&0u64.to_le_bytes());
    assert_eq!(
        SsTable::open(path(), &no_filter).err(),
        Some(StoreError::Corrupt)
    );
}

#[test]
fn a_table_loads_from_its_sections() {
    let entries = vec![put("a", "1", 1), put("b", "2", 9)];
    let file = image(&entries);
    let f = footer(&file);
    let index = &file[f.index_offset as usize..(f.index_offset + f.index_len) as usize];
    let bloom = &file[f.bloom_offset as usize..(f.bloom_offset + f.bloom_len) as usize];
    let index = decode_index(index).unwrap();
    let sst = SsTable::load(path(), &f, index, bloom).unwrap();
    assert!(sst.can_ask(b"a"));
    assert_eq!(sst.max_seq(), 9);
    assert_eq!(sst.scan(&file).unwrap(), entries);
    assert_eq!(
        SsTable::load(path(), &f, Vec::new(), &[]).err(),
        Some(StoreError::Corrupt)
    );
    let nowhere = Footer {
        index_offset: 1 << 63,
        ..f
    };
    assert_eq!(
        SsTable::load(path(), &nowhere, Vec::new(), bloom).err(),
        Some(StoreError::BadOffset)
    );
}

#[test]
fn a_lookup_reads_record_by_record() {
    let entries = vec![put("a", "1", 1), put("c", "3", 2)];
    let file = image(&entries);
    let sst = SsTable::open(path(), &file).unwrap();
    let cursor = sst.start_of(b"c").unwrap();
    assert_eq!(cursor, Cursor { pos: 0, left: 16 });

    // The payloads of the two records, 30 bytes each behind a length of four.
    let first = &file[4..34];
    let second = &file[38..68];
    let next = Cursor { pos: 34, left: 15 };
    assert_eq!(sst.examine(cursor, first, b"c"), Ok(Examined::More(next)));
    assert_eq!(
        sst.examine(next, second, b"c"),
        Ok(Examined::Found(entries[1].clone()))
    );
    assert_eq!(sst.examine(next, second, b"b"), Ok(Examined::Absent)); // passed
    assert_eq!(sst.examine(next, second, b"d"), Ok(Examined::Absent)); // the end
    let last = Cursor { pos: 0, left: 1 };
    assert_eq!(sst.examine(last, first, b"c"), Ok(Examined::Absent)); // the last to read
    assert_eq!(
        sst.examine(cursor, &[1, 2, 3], b"c"),
        Err(StoreError::Corrupt)
    );
}

#[test]
fn a_table_cut_short_fails_to_scan() {
    let entries = vec![put("a", "1", 1), put("b", "2", 2)];
    let file = image(&entries);
    let sst = SsTable::open(path(), &file).unwrap();
    assert_eq!(sst.scan(&file[..40]), Err(StoreError::UnexpectedEof));
    assert_eq!(sst.get(&file[..40], b"b"), Err(StoreError::UnexpectedEof));
}

#[test]
fn a_lookup_starts_in_the_block_of_its_key() {
    // Records of 32 + 4 + 1 bytes.
    let entries: Vec<_> = (0..100).map(|i| put(&format!("k{i:03}"), "v", 1)).collect();
    let file = image(&entries);
    let sst = SsTable::open(path(), &file).unwrap();
    for (i, entry) in entries.iter().enumerate() {
        let cursor = Cursor {
            pos: (i - i % 16) as u64 * 37,
            left: 16,
        };
        assert_eq!(sst.start_of(&entry.key), Some(cursor));
    }
}

#[test]
fn a_lookup_of_an_absent_key_stays_in_its_block() {
    // A filter of one bit lets every key through. The key sorts between the last
    // record of the first block and the first record of the second.
    let entries: Vec<_> = (0..40).map(|i| put(&format!("k{i:03}"), "v", 1)).collect();
    let file = SsTable::create(&entries, 1, 1).unwrap();
    let sst = SsTable::open(path(), &file).unwrap();
    let mut cursor = sst.start_of(b"k0155").unwrap();
    assert_eq!(cursor.pos, 0);
    let mut read = 0;
    loop {
        let at = cursor.pos as usize;
        read += 1;
        match sst.examine(cursor, &file[at + 4..at + 37], b"k0155").unwrap() {
            Examined::More(next) => cursor = next,
            outcome => {
                assert_eq!(outcome, Examined::Absent);
                break;
            }
        }
    }
    assert_eq!(read, 16);
    assert_eq!(sst.get(&file, b"k0155"), Ok(None));

    // So the records of the second block need not be readable.
    assert_eq!(sst.get(&file[..16 * 37], b"k0155"), Ok(None));
    assert_eq!(sst.get(&file[..16 * 37], b"k015").unwrap().unwrap().value, b"v");
}

#[test]
fn where_the_next_index_slot_points_does_not_matter() {
    // Keys in the index are in order, and the second slot points back to the start.
    let entries: Vec<_> = (0..20).map(|i| put(&format!("k{i:03}"), "v", 1)).collect();
    let mut file = SsTable::create(&entries, 1, 1).unwrap();
    let slot = footer(&file).bloom_offset as usize - 8;
    file[slot..slot + 8].copy_from_slice(&0u64.to_le_bytes());
    let sst = SsTable::open(path(), &file).unwrap();
    assert_eq!(sst.get(&file, b"k005").unwrap(), Some(entries[5].clone()));
    // The keys of the second block are sixteen records away from there, or more.
    assert_eq!(sst.get(&file, b"k016"), Ok(None));
}

#[test]
fn an_index_out_of_order_yields_no_other_key() {
    let entries: Vec<_> = (0..60).map(|i| put(&format!("k{i:03}"), "v", 1)).collect();
    let mut file = SsTable::create(&entries, 1, 1).unwrap();
    // The key of the second slot becomes the largest.
    let index = footer(&file).index_offset as usize;
    let key = index + 8 + (8 + 4 + 8) + 8;
    assert_eq!(&file[key..key + 4], b"k016");
    file[key] = b'z';
    let sst = SsTable::open(path(), &file).unwrap();
    for entry in &entries {
        if let Some(found) = sst.get(&file, &entry.key).unwrap() {
            assert_eq!(&found, entry);
        }
    }
}

#[test]
fn a_footer_is_seven_little_endian_numbers() {
    let mut bytes = Vec::new();
    for number in [1, 2, 3, 4, 5, 6, MAGIC] {
        bytes.extend(u64::to_le_bytes(number));
    }
    assert_eq!(
        Footer::parse(&bytes),
        Ok(Footer {
            index_offset: 1,
            index_len: 2,
            bloom_offset: 3,
            bloom_len: 4,
            max_seq: 5,
            kind: 6,
        })
    );
}
