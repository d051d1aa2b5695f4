use cairn::bloom::{fnv1a, Bloom, FNV_OFFSET_A, FNV_OFFSET_B};
use cairn::error::StoreError;

/// The number of bits, and of bits per key, for this many keys at a false-positive
/// rate of one in a hundred.
fn shape(keys: usize) -> (u64, u32) {
    let n = keys.max(1) as f64;
    let ln2 = std::f64::consts::LN_2;
    let num_bits = (-n * 0.01f64.ln() / (ln2 * ln2)).ceil().max(1.0) as u64;
    let k = ((num_bits as f64 / n) * ln2).round().max(1.0) as u32;
    (num_bits, k)
}

fn filter_over(keys: &[Vec<u8>]) -> Bloom {
    let refs: Vec<&[u8]> = keys.iter().map(|k| k.as_slice()).collect();
    let (num_bits, k) = shape(keys.len());
    Bloom::build(&refs, num_bits, k)
}

#[test]
fn never_false_negative() {
    let keys: Vec<Vec<u8>> = (0..1000).map(|i| format!("key-{i}").into_bytes()).collect();
    let bloom = filter_over(&keys);
    // Every inserted key MUST be reported present.
    for key in &keys {
        assert!(bloom.contains(key), "false negative for {key:?}");
    }
}

#[test]
fn empty_filter_contains_nothing() {
    let bloom = filter_over(&[]);
    assert!(!bloom.contains(b"anything"));
}

#[test]
fn false_positive_rate_is_roughly_bounded() {
    let keys: Vec<Vec<u8>> = (0..1000)
        .map(|i| format!("present-{i}").into_bytes())
        .collect();
    let bloom = filter_over(&keys);

    let mut fps = 0;
    let trials = 10_000;
    for i in 0..trials {
        if bloom.contains(format!("absent-{i}").as_bytes()) {
            fps += 1;
        }
    }
    // Target is 1%; allow generous slack so the test isn't flaky.
    let rate = fps as f64 / trials as f64;
    assert!(rate < 0.05, "false-positive rate too high: {rate}");
}

#[test]
fn survives_serialization() {
    let keys: Vec<Vec<u8>> = (0..200).map(|i| format!("k{i}").into_bytes()).collect();
    let bloom = filter_over(&keys);

    let bytes = bloom.to_bytes().unwrap();
    let restored = Bloom::from_bytes(&bytes).unwrap();
    for key in &keys {
        assert!(restored.contains(key));
    }
}

#[test]
fn hash_is_fnv1a() {
    // Published values of the 64-bit FNV-1a.
    assert_eq!(fnv1a(b"", FNV_OFFSET_A), 0xcbf2_9ce4_8422_2325);
    assert_eq!(fnv1a(b"a", FNV_OFFSET_A), 0xaf63_dc4c_8601_ec8c);
    assert_eq!(fnv1a(b"foobar", FNV_OFFSET_A), 0x8594_4171_f739_67e8);
}

#[test]
fn filter_encoding_is_length_bits_shape() {
    let bloom = Bloom::new(12, 3);
    let bytes = bloom.to_bytes().unwrap();
    let mut expected = vec![2, 0, 0, 0, 0, 0, 0, 0]; // two bytes of bits
    expected.extend([0, 0]);
    expected.extend([12, 0, 0, 0, 0, 0, 0, 0]);
    expected.extend([3, 0, 0, 0]);
    assert_eq!(bytes, expected);
}

#[test]
fn inserting_sets_the_bits_of_the_key() {
    // One bit per key: the first hash, modulo the number of bits.
    let mut bloom = Bloom::new(8, 1);
    bloom.insert(b"a");
    let bytes = bloom.to_bytes().unwrap();
    assert_eq!(bytes[8], 1 << (0xaf63_dc4c_8601_ec8cu64 % 8));
    assert!(bloom.contains(b"a"));
}

#[test]
fn short_filter_bytes_are_corrupt() {
    let bytes = Bloom::new(12, 3).to_bytes().unwrap();
    assert_eq!(
        Bloom::from_bytes(&bytes[..bytes.len() - 1]).err(),
        Some(StoreError::Corrupt)
    );
}

/// A filter as it is read from these fields.
fn filter_of(bits: &[u8], num_bits: u64, k: u32) -> Bloom {
    let mut bytes = (bits.len() as u64).to_le_bytes().to_vec();
    bytes.extend(bits);
    bytes.extend(num_bits.to_le_bytes());
    bytes.extend(k.to_le_bytes());
    Bloom::from_bytes(&bytes).unwrap()
}

#[test]
fn a_filter_can_be_asked_as_far_as_its_bits_go() {
    assert!(Bloom::new(64, 2).can_ask(b"a"));
    assert!(!filter_of(&[], 64, 2).can_ask(b"a")); // no bits at all
    assert!(!filter_of(&[0], 0, 1).can_ask(b"a")); // no number to reduce by
    assert!(filter_of(&[], 0, 0).can_ask(b"a")); // nothing to look at
    assert!(filter_of(&[], 0, 0).contains(b"a"));

    // The first bit of "a" is bit 12 of these 64: with two bytes of bits it is there. It
    // decides if it is not set; if it is, the second bit is needed, which is not there.
    assert_eq!(fnv1a(b"a", FNV_OFFSET_A) % 64, 12);
    let second = fnv1a(b"a", FNV_OFFSET_A).wrapping_add(fnv1a(b"a", FNV_OFFSET_B)) % 64;
    assert!(second >= 16);
    let unset = filter_of(&[0, 0], 64, 2);
    assert!(unset.can_ask(b"a"));
    assert!(!unset.contains(b"a"));
    assert!(!filter_of(&[0, 1 << 4], 64, 2).can_ask(b"a"));
}

#[test]
fn inserting_a_key_keeps_the_others() {
    let mut bloom = Bloom::new(64, 4);
    for i in 0..20u8 {
        bloom.insert(&[i]);
        for j in 0..=i {
            assert!(bloom.contains(&[j]));
        }
    }
}
