//! A Bloom filter: a compact, probabilistic set that answers "is this key
//! *definitely not* here?" cheaply.
//!
//! It never reports a false negative, but it may report a false positive: a
//! `false` lets a read skip a table with no disk access, a `true` just means "go
//! check for real".
//!
//! Hashing is FNV-1a with two bases, combined by double hashing
//! (`h1 + i * h2`). The filter is persisted, so the same bytes must hash the
//! same way on every future run.
use crate::codec::{
    decode_filter, encode_filter, filter_enc, filter_of, lemma_filter_enc_len, lemma_filter_of,
};
use crate::error::StoreError;
use vstd::prelude::*;

verus! {

pub const FNV_OFFSET_A: u64 = 0xcbf2_9ce4_8422_2325;

pub const FNV_OFFSET_B: u64 = 0x9e37_79b9_7f4a_7c15;

pub const FNV_PRIME: u64 = 0x0000_0100_0000_01b3;

/// FNV-1a over `data`, from the starting value `hash`.
pub open spec fn fnv(data: Seq<u8>, hash: u64) -> u64
    decreases data.len(),
{
    if data.len() == 0 {
        hash
    } else {
        (fnv(data.drop_last(), hash) ^ (data.last() as u64)).wrapping_mul(FNV_PRIME)
    }
}

/// The `i`-th of the bits that stand for `key` in a filter of `num_bits` bits.
pub open spec fn key_bit(num_bits: u64, key: Seq<u8>, i: u32) -> u64 {
    fnv(key, FNV_OFFSET_A).wrapping_add((i as u64).wrapping_mul(fnv(key, FNV_OFFSET_B))) % num_bits
}

/// Whether bit `j` is set.
pub open spec fn bit(bits: Seq<u8>, j: int) -> bool {
    bits[j / 8] & (1u8 << ((j % 8) as u8)) != 0
}

/// The content of a filter: its bits, how many of them are in use, and how many
/// of them stand for each key.
#[verifier::ext_equal]
pub struct BloomView {
    pub bits: Seq<u8>,
    pub num_bits: u64,
    pub k: u32,
}

impl BloomView {
    /// Every bit that can be asked for is there.
    pub open spec fn wf(self) -> bool {
        self.k == 0 || (0 < self.num_bits <= 8 * self.bits.len())
    }

    /// The first `i` of the bits that stand for `key` are set.
    pub open spec fn set_up_to(self, key: Seq<u8>, i: u32) -> bool {
        forall|j: u32|
            0 <= j < i ==> bit(self.bits, #[trigger] key_bit(self.num_bits, key, j) as int)
    }

    /// The bits that stand for `key` are there, as far as they have to be looked at:
    /// up to the first that is not set.
    pub open spec fn askable(self, key: Seq<u8>) -> bool {
        self.k == 0 || {
            &&& self.num_bits > 0
            &&& forall|i: u32|
                0 <= i < self.k && #[trigger] self.set_up_to(key, i) ==> key_bit(
                    self.num_bits,
                    key,
                    i,
                ) < 8 * self.bits.len()
        }
    }

    /// All the bits that stand for `key` are there.
    pub open spec fn insertable(self, key: Seq<u8>) -> bool {
        self.k == 0 || {
            &&& self.num_bits > 0
            &&& forall|i: u32|
                0 <= i < self.k ==> #[trigger] key_bit(self.num_bits, key, i) < 8 * self.bits.len()
        }
    }

    /// Where every bit is there, any key can be asked for and inserted.
    pub proof fn lemma_wf(self, key: Seq<u8>)
        requires
            self.wf(),
        ensures
            self.askable(key),
            self.insertable(key),
    {
    }

    /// All the bits that stand for `key` are set.
    pub open spec fn may_contain(self, key: Seq<u8>) -> bool {
        forall|i: u32|
            0 <= i < self.k ==> bit(self.bits, #[trigger] key_bit(self.num_bits, key, i) as int)
    }

    /// `j` is one of the bits that stand for `key`.
    pub open spec fn stands_for(self, key: Seq<u8>, j: int) -> bool {
        exists|i: u32| 0 <= i < self.k && #[trigger] key_bit(self.num_bits, key, i) == j
    }

    /// `after` is this filter with the bits that stand for `key` set, and no
    /// other change.
    pub open spec fn inserted(self, key: Seq<u8>, after: BloomView) -> bool {
        &&& after.num_bits == self.num_bits
        &&& after.k == self.k
        &&& after.bits.len() == self.bits.len()
        &&& forall|j: int|
            0 <= j < 8 * self.bits.len() ==> #[trigger] bit(after.bits, j) == (bit(self.bits, j)
                || self.stands_for(key, j))
    }

    /// Exactly the bits that stand for one of `keys` are set.
    pub open spec fn built_from(self, keys: Seq<Seq<u8>>) -> bool {
        forall|j: int|
            0 <= j < 8 * self.bits.len() ==> #[trigger] bit(self.bits, j) == exists|n: int|
                0 <= n < keys.len() && self.stands_for(#[trigger] keys[n], j)
    }

    /// No bit is set.
    pub open spec fn is_empty(self) -> bool {
        forall|j: int| 0 <= j < 8 * self.bits.len() ==> !#[trigger] bit(self.bits, j)
    }
}

proof fn lemma_set_bit(byte: u8, a: u8, b: u8)
    requires
        a < 8,
        b < 8,
    ensures
        (byte | (1u8 << a)) & (1u8 << b) != 0 <==> (byte & (1u8 << b) != 0 || a == b),
{
    assert((byte | (1u8 << a)) & (1u8 << b) != 0 <==> (byte & (1u8 << b) != 0 || a == b))
        by (bit_vector)
        requires
            a < 8,
            b < 8,
    ;
}

/// FNV-1a over `data`, from the starting value `hash`.
pub fn fnv1a(data: &[u8], hash: u64) -> (r: u64)
    ensures
        r == fnv(data@, hash),
{
    let mut h: u64 = hash;
    let mut i: usize = 0;
    let total: usize = data.len();
    assert(data@.take(0) =~= Seq::<u8>::empty());
    while i < total
        invariant
            i <= total,
            total == data@.len(),
            h == fnv(data@.take(i as int), hash),
        decreases total - i,
    {
        assert(data@.take(i + 1).drop_last() =~= data@.take(i as int));
        h = (h ^ (data[i] as u64)).wrapping_mul(FNV_PRIME);
        i = i + 1;
    }
    assert(data@.take(total as int) =~= data@);
    h
}

pub struct Bloom {
    bits: Vec<u8>,
    num_bits: u64,
    k: u32,
}

impl View for Bloom {
    type V = BloomView;

    closed spec fn view(&self) -> BloomView {
        BloomView { bits: self.bits@, num_bits: self.num_bits, k: self.k }
    }
}

impl Bloom {
    /// An empty filter of `num_bits` bits, `k` of which stand for each key.
    pub fn new(num_bits: u64, k: u32) -> (r: Bloom)
        requires
            0 < num_bits,
            (num_bits + 7) / 8 <= usize::MAX,
        ensures
            r@.wf(),
            r@.is_empty(),
            forall|i: int| 0 <= i < r@.bits.len() ==> #[trigger] r@.bits[i] == 0,
            r@.bits.len() == (num_bits + 7) / 8,
            r@.num_bits == num_bits,
            r@.k == k,
    {
        let whole: u64 = num_bits / 8;
        let bytes: u64 = if num_bits % 8 == 0 {
            whole
        } else {
            whole + 1
        };
        let r = Bloom { bits: vec![0u8; bytes as usize], num_bits, k };
        proof {
            assert forall|j: int| 0 <= j < 8 * r@.bits.len() implies !#[trigger] bit(
                r@.bits,
                j,
            ) by {
                assert(r.bits@[j / 8] == 0);
                let s = (j % 8) as u8;
                assert(0u8 & (1u8 << s) == 0) by (bit_vector);
            }
        }
        r
    }

    /// A filter of that shape, populated with `keys`.
    pub fn build(keys: &[&[u8]], num_bits: u64, k: u32) -> (r: Bloom)
        requires
            0 < num_bits,
            (num_bits + 7) / 8 <= usize::MAX,
        ensures
            r@.wf(),
            r@.built_from(keys@.map_values(|key: &[u8]| key@)),
            r@.bits.len() == (num_bits + 7) / 8,
            r@.num_bits == num_bits,
            r@.k == k,
    {
        let ghost all = keys@.map_values(|key: &[u8]| key@);
        let mut bloom = Bloom::new(num_bits, k);
        let mut i: usize = 0;
        let total: usize = keys.len();
        while i < total
            invariant
                i <= total,
                total == keys@.len(),
                all == keys@.map_values(|key: &[u8]| key@),
                bloom@.wf(),
                bloom@.built_from(all.take(i as int)),
                bloom@.bits.len() == (num_bits + 7) / 8,
                bloom@.num_bits == num_bits,
                bloom@.k == k,
            decreases total - i,
        {
            let ghost before = bloom@;
            proof {
                bloom@.lemma_wf(keys@[i as int]@);
            }
            bloom.insert(keys[i]);
            proof {
                lemma_built_step(before, all.take(i as int), all[i as int], bloom@);
                assert(all.take(i as int).push(all[i as int]) =~= all.take(i + 1));
            }
            i = i + 1;
        }
        assert(all.take(total as int) =~= all);
        bloom
    }

    /// The two hashes that double hashing combines.
    fn hashes(key: &[u8]) -> (r: (u64, u64))
        ensures
            r.0 == fnv(key@, FNV_OFFSET_A),
            r.1 == fnv(key@, FNV_OFFSET_B),
    {
        (fnv1a(key, FNV_OFFSET_A), fnv1a(key, FNV_OFFSET_B))
    }

    fn bit_index(&self, h1: u64, h2: u64, i: u32) -> (r: u64)
        requires
            self@.num_bits > 0,
        ensures
            r == h1.wrapping_add((i as u64).wrapping_mul(h2)) % self@.num_bits,
            r < self@.num_bits,
    {
        h1.wrapping_add((i as u64).wrapping_mul(h2)) % self.num_bits
    }

    pub fn insert(&mut self, key: &[u8])
        requires
            old(self)@.insertable(key@),
        ensures
            old(self)@.inserted(key@, final(self)@),
            final(self)@.num_bits == old(self)@.num_bits,
            final(self)@.k == old(self)@.k,
            final(self)@.bits.len() == old(self)@.bits.len(),
    {
        let (h1, h2) = Bloom::hashes(key);
        let ghost before = self@;
        let mut i: u32 = 0;
        while i < self.k
            invariant
                i <= self.k,
                before.insertable(key@),
                before == old(self)@,
                self@.num_bits == before.num_bits,
                self@.k == before.k,
                self@.bits.len() == before.bits.len(),
                h1 == fnv(key@, FNV_OFFSET_A),
                h2 == fnv(key@, FNV_OFFSET_B),
                forall|j: int|
                    0 <= j < 8 * before.bits.len() ==> #[trigger] bit(self@.bits, j) == (bit(
                        before.bits,
                        j,
                    ) || exists|n: u32|
                        0 <= n < i && #[trigger] key_bit(before.num_bits, key@, n) == j),
            decreases self.k - i,
        {
            let idx: u64 = self.bit_index(h1, h2, i);
            let ghost prior = self@.bits;
            assert(idx == key_bit(before.num_bits, key@, i));
            assert(idx / 8 < self.bits.len());
            let at: usize = (idx / 8) as usize;
            let shift: u8 = (idx % 8) as u8;
            let byte: u8 = self.bits[at];
            self.bits[at] = byte | (1u8 << shift);
            proof {
                assert forall|j: int| 0 <= j < 8 * before.bits.len() implies #[trigger] bit(
                    self@.bits,
                    j,
                ) == (bit(before.bits, j) || exists|n: u32|
                    0 <= n < i + 1 && #[trigger] key_bit(before.num_bits, key@, n) == j) by {
                    let b = (j % 8) as u8;
                    if j / 8 == at {
                        lemma_set_bit(byte, shift, b);
                        assert(bit(self@.bits, j) == (bit(prior, j) || shift == b));
                    } else {
                        assert(bit(self@.bits, j) == bit(prior, j));
                    }
                    assert(bit(self@.bits, j) == (bit(prior, j) || j == idx));
                    if exists|n: u32| 0 <= n < i + 1 && #[trigger] key_bit(
                        before.num_bits,
                        key@,
                        n,
                    ) == j {
                        let n = choose|n: u32|
                            0 <= n < i + 1 && #[trigger] key_bit(before.num_bits, key@, n) == j;
                        if n < i {
                            assert(bit(prior, j));
                        }
                    }
                    if j == idx {
                        assert(key_bit(before.num_bits, key@, i) == j);
                    }
                }
            }
            i = i + 1;
        }
    }

    /// Returns `false` only if `key` was definitely never inserted. A `true` may
    /// be a false positive.
    pub fn contains(&self, key: &[u8]) -> (r: bool)
        requires
            self@.askable(key@),
        ensures
            r == self@.may_contain(key@),
            r == forall|i: u32|
                0 <= i < self@.k ==> bit(
                    self@.bits,
                    #[trigger] key_bit(self@.num_bits, key@, i) as int,
                ),
    {
        let (h1, h2) = Bloom::hashes(key);
        let mut i: u32 = 0;
        while i < self.k
            invariant
                i <= self.k,
                self@.askable(key@),
                h1 == fnv(key@, FNV_OFFSET_A),
                h2 == fnv(key@, FNV_OFFSET_B),
                forall|n: u32|
                    0 <= n < i ==> bit(
                        self@.bits,
                        #[trigger] key_bit(self@.num_bits, key@, n) as int,
                    ),
            decreases self.k - i,
        {
            let idx: u64 = self.bit_index(h1, h2, i);
            assert(idx == key_bit(self@.num_bits, key@, i));
            assert(self@.set_up_to(key@, i));
            assert(idx / 8 < self.bits.len());
            if self.bits[(idx / 8) as usize] & (1u8 << ((idx % 8) as u8)) == 0 {
                assert(!bit(self@.bits, idx as int));
                return false;
            }
            i = i + 1;
        }
        true
    }

    /// Whether the filter holds the bits that have to be looked at for `key`, as one
    /// that was read from a file might not.
    pub fn can_ask(&self, key: &[u8]) -> (r: bool)
        ensures
            r == self@.askable(key@),
    {
        if self.k > 0 && self.num_bits == 0 {
            return false;
        }
        let (h1, h2) = Bloom::hashes(key);
        let mut i: u32 = 0;
        while i < self.k
            invariant
                i <= self.k,
                self.k > 0 ==> self.num_bits > 0,
                h1 == fnv(key@, FNV_OFFSET_A),
                h2 == fnv(key@, FNV_OFFSET_B),
                self@.set_up_to(key@, i),
                forall|n: u32|
                    0 <= n < i ==> #[trigger] key_bit(self@.num_bits, key@, n) < 8
                        * self@.bits.len(),
            decreases self.k - i,
        {
            let idx: u64 = self.bit_index(h1, h2, i);
            assert(idx == key_bit(self@.num_bits, key@, i));
            if idx / 8 >= self.bits.len() as u64 {
                return false;
            }
            if self.bits[(idx / 8) as usize] & (1u8 << ((idx % 8) as u8)) == 0 {
                assert(!bit(self@.bits, idx as int));
                assert forall|n: u32|
                    0 <= n < self@.k && #[trigger] self@.set_up_to(key@, n) implies key_bit(
                    self@.num_bits,
                    key@,
                    n,
                ) < 8 * self@.bits.len() by {
                    if n > i {
                        assert(bit(self@.bits, key_bit(self@.num_bits, key@, i) as int));
                    }
                }
                return true;
            }
            i = i + 1;
        }
        true
    }

    /// The filter's encoding, as it stands in a table file.
    pub fn to_bytes(&self) -> (r: Result<Vec<u8>, StoreError>)
        requires
            self@.bits.len() + 20 <= usize::MAX,
        ensures
            r is Ok,
            r->Ok_0@ == filter_enc(self@.bits, self@.num_bits, self@.k),
    {
        proof {
            lemma_filter_enc_len(self@.bits, self@.num_bits, self@.k);
        }
        encode_filter(&self.bits, self.num_bits, self.k)
    }

    /// The filter whose encoding `bytes` begins with.
    pub fn from_bytes(bytes: &[u8]) -> (r: Result<Bloom, StoreError>)
        ensures
            match r {
                Ok(bloom) => filter_of(bytes@) == Some(
                    (bloom@.bits, bloom@.num_bits, bloom@.k),
                ),
                Err(error) => error == StoreError::Corrupt && filter_of(bytes@) is None,
            },
    {
        let (bits, num_bits, k) = decode_filter(bytes)?;
        Ok(Bloom { bits, num_bits, k })
    }
}

proof fn lemma_built_step(
    before: BloomView,
    keys: Seq<Seq<u8>>,
    key: Seq<u8>,
    after: BloomView,
)
    requires
        before.built_from(keys),
        before.inserted(key, after),
    ensures
        after.built_from(keys.push(key)),
{
    let more = keys.push(key);
    assert forall|j: int| 0 <= j < 8 * after.bits.len() implies #[trigger] bit(after.bits, j)
        == exists|n: int| 0 <= n < more.len() && after.stands_for(#[trigger] more[n], j) by {
        assert(bit(after.bits, j) == (bit(before.bits, j) || before.stands_for(key, j)));
        assert forall|x: Seq<u8>| after.stands_for(x, j) == before.stands_for(x, j) by {
        }
        if bit(before.bits, j) {
            let n = choose|n: int|
                0 <= n < keys.len() && before.stands_for(#[trigger] keys[n], j);
            assert(more[n] == keys[n]);
            assert(after.stands_for(more[n], j));
        }
        if before.stands_for(key, j) {
            assert(more[keys.len() as int] == key);
            assert(after.stands_for(more[keys.len() as int], j));
        }
        if exists|n: int| 0 <= n < more.len() && after.stands_for(#[trigger] more[n], j) {
            let n = choose|n: int|
                0 <= n < more.len() && after.stands_for(#[trigger] more[n], j);
            if n < keys.len() {
                assert(before.stands_for(keys[n], j));
            }
        }
    }
}

/// The hash takes in every byte of a key, one after the other: each is combined with what
/// came of those before it, and that multiplied, within 64 bits.
pub proof fn law_hash_takes_in_every_byte(data: Seq<u8>, byte: u8, hash: u64)
    ensures
        fnv(Seq::empty(), hash) == hash,
        fnv(data.push(byte), hash) == ((fnv(data, hash) ^ (byte as u64)) * 0x100_0000_01b3)
            % 0x1_0000_0000_0000_0000,
{
    assert(data.push(byte).drop_last() =~= data);
}

/// Which bits stand for a key: the two hashes of the whole key, from these two starting
/// values, are combined to `h1 + i * h2` within 64 bits, and that is folded to the filter's
/// length.
pub proof fn law_which_bits_stand_for_a_key(num_bits: u64, key: Seq<u8>, i: u32)
    requires
        num_bits > 0,
    ensures
        key_bit(num_bits, key, i) == ((fnv(key, 0xcbf2_9ce4_8422_2325) + i * fnv(
            key,
            0x9e37_79b9_7f4a_7c15,
        )) % 0x1_0000_0000_0000_0000) % num_bits as int,
        key_bit(num_bits, key, i) < num_bits,
{
    let a = fnv(key, FNV_OFFSET_A);
    let b = fnv(key, FNV_OFFSET_B);
    let range = 0x1_0000_0000_0000_0000int;
    let product = (i as u64) as int * b as int;
    assert((i as u64).wrapping_mul(b) == product % range);
    vstd::arithmetic::div_mod::lemma_add_mod_noop(a as int, product, range);
    let sum = a as int + product % range;
    assert(a as int % range == a as int) by {
        vstd::arithmetic::div_mod::lemma_small_mod(a as nat, range as nat);
    }
    assert(sum % range == (a as int + product) % range);
    if sum >= range {
        vstd::arithmetic::div_mod::lemma_mod_sub_multiples_vanish(sum, range);
        vstd::arithmetic::div_mod::lemma_small_mod((sum - range) as nat, range as nat);
    } else {
        vstd::arithmetic::div_mod::lemma_small_mod(sum as nat, range as nat);
    }
    assert(a.wrapping_add((i as u64).wrapping_mul(b)) == sum % range);
}

/// Bits are counted from the first byte on, and in each byte from the lowest on.
pub proof fn law_where_a_bit_stands(bits: Seq<u8>, j: int)
    requires
        0 <= j < 8 * bits.len(),
    ensures
        bit(bits, j) <==> (bits[j / 8] >> ((j % 8) as u8)) & 1u8 == 1,
{
    let byte = bits[j / 8];
    let shift = (j % 8) as u8;
    assert((byte & (1u8 << shift) != 0) <==> ((byte >> shift) & 1u8 == 1)) by (bit_vector)
        requires
            shift < 8,
    ;
}

/// A filter reports a key present where all the bits that stand for it are set, and absent
/// where one of them is not, whatever the key and however many there are.
pub proof fn law_present_where_all_bits_are_set(filter: BloomView, key: Seq<u8>)
    ensures
        filter.may_contain(key) <==> forall|i: u32|
            0 <= i < filter.k ==> bit(
                filter.bits,
                #[trigger] key_bit(filter.num_bits, key, i) as int,
            ),
{
}

/// Inserting a key sets the bits that stand for it, and changes no other: the filter keeps
/// its size, its shape, and what was set before.
pub proof fn law_insert_sets_the_bits_of_the_key(
    before: BloomView,
    key: Seq<u8>,
    after: BloomView,
    j: int,
)
    requires
        before.inserted(key, after),
        0 <= j < 8 * before.bits.len(),
    ensures
        after.bits.len() == before.bits.len(),
        after.num_bits == before.num_bits,
        after.k == before.k,
        bit(after.bits, j) <==> bit(before.bits, j) || exists|i: u32|
            0 <= i < before.k && #[trigger] key_bit(before.num_bits, key, i) == j,
{
}

/// In a filter built from some keys a bit is set exactly where it stands for one of them.
pub proof fn law_built_filter_holds_the_keys(filter: BloomView, keys: Seq<Seq<u8>>, j: int)
    requires
        filter.built_from(keys),
        0 <= j < 8 * filter.bits.len(),
    ensures
        bit(filter.bits, j) <==> exists|n: int, i: u32|
            0 <= n < keys.len() && 0 <= i < filter.k && #[trigger] key_bit(
                filter.num_bits,
                keys[n],
                i,
            ) == j,
{
    if bit(filter.bits, j) {
        let n = choose|n: int| 0 <= n < keys.len() && filter.stands_for(#[trigger] keys[n], j);
        let i = choose|i: u32|
            0 <= i < filter.k && #[trigger] key_bit(filter.num_bits, keys[n], i) == j;
        assert(key_bit(filter.num_bits, keys[n], i) == j);
    }
    if exists|n: int, i: u32|
        0 <= n < keys.len() && 0 <= i < filter.k && #[trigger] key_bit(filter.num_bits, keys[n], i)
            == j {
        let (n, i) = choose|n: int, i: u32|
            0 <= n < keys.len() && 0 <= i < filter.k && #[trigger] key_bit(
                filter.num_bits,
                keys[n],
                i,
            ) == j;
        assert(filter.stands_for(keys[n], j));
    }
}

/// A filter can be asked for any key where it has as many bits as it says, and for a key
/// whose first bit it lacks, it cannot.
pub proof fn law_what_can_be_asked(filter: BloomView, key: Seq<u8>)
    ensures
        0 < filter.num_bits <= 8 * filter.bits.len() ==> filter.askable(key) && filter.insertable(
            key,
        ),
        filter.k == 0 ==> filter.askable(key) && filter.insertable(key),
        filter.k > 0 && filter.num_bits == 0 ==> !filter.askable(key) && !filter.insertable(key),
        filter.k > 0 && key_bit(filter.num_bits, key, 0) >= 8 * filter.bits.len()
            ==> !filter.askable(key) && !filter.insertable(key),
{
    assert(filter.set_up_to(key, 0));
}

/// A key that was inserted is reported present.
pub proof fn law_inserted_key_is_contained(before: BloomView, key: Seq<u8>, after: BloomView)
    requires
        before.insertable(key),
        before.inserted(key, after),
    ensures
        after.may_contain(key),
{
    assert forall|i: u32| 0 <= i < after.k implies bit(
        after.bits,
        #[trigger] key_bit(after.num_bits, key, i) as int,
    ) by {
        assert(before.stands_for(key, key_bit(before.num_bits, key, i) as int));
    }
}

/// Inserting a key never makes the filter forget another.
pub proof fn law_insert_keeps_other_keys(
    before: BloomView,
    key: Seq<u8>,
    after: BloomView,
    other: Seq<u8>,
)
    requires
        before.insertable(other),
        before.inserted(key, after),
        before.may_contain(other),
    ensures
        after.may_contain(other),
{
    assert forall|i: u32| 0 <= i < after.k implies bit(
        after.bits,
        #[trigger] key_bit(after.num_bits, other, i) as int,
    ) by {
        assert(bit(before.bits, key_bit(before.num_bits, other, i) as int));
    }
}

/// A filter built from some keys reports every one of them present: there are no
/// false negatives.
pub proof fn law_no_false_negatives(filter: BloomView, keys: Seq<Seq<u8>>, n: int)
    requires
        filter.wf(),
        filter.built_from(keys),
        0 <= n < keys.len(),
    ensures
        filter.may_contain(keys[n]),
{
    assert forall|i: u32| 0 <= i < filter.k implies bit(
        filter.bits,
        #[trigger] key_bit(filter.num_bits, keys[n], i) as int,
    ) by {
        assert(filter.stands_for(keys[n], key_bit(filter.num_bits, keys[n], i) as int));
    }
}

/// A filter with nothing in it reports every key absent.
pub proof fn law_empty_filter_contains_nothing(filter: BloomView, key: Seq<u8>)
    requires
        filter.wf(),
        filter.is_empty(),
        filter.k > 0,
    ensures
        !filter.may_contain(key),
{
    assert(!bit(filter.bits, key_bit(filter.num_bits, key, 0) as int));
}

/// A filter survives being written out and read back, whatever follows it.
pub proof fn law_filter_survives_encoding(filter: BloomView, tail: Seq<u8>)
    requires
        filter.bits.len() <= u64::MAX,
    ensures
        filter_of(filter_enc(filter.bits, filter.num_bits, filter.k) + tail) == Some(
            (filter.bits, filter.num_bits, filter.k),
        ),
{
    let enc = filter_enc(filter.bits, filter.num_bits, filter.k);
    assert(enc =~= (enc + tail).take(enc.len() as int));
    lemma_filter_of(enc + tail, (filter.bits, filter.num_bits, filter.k));
}

} // verus!
