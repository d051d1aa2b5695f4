//! Little-endian integers.
use vstd::arithmetic::power::{lemma_pow0, lemma_pow1, lemma_pow_adds, lemma_pow_positive, pow};
use vstd::prelude::*;

verus! {

/// The `width` low-order base-256 digits of `x`, least significant first.
pub open spec fn le_bytes(x: nat, width: nat) -> Seq<u8>
    decreases width,
{
    if width == 0 {
        Seq::empty()
    } else {
        seq![(x % 256) as u8] + le_bytes(x / 256, (width - 1) as nat)
    }
}

/// The number whose base-256 digits are `s`, least significant first.
pub open spec fn le_value(s: Seq<u8>) -> nat
    decreases s.len(),
{
    if s.len() == 0 {
        0
    } else {
        s[0] as nat + 256 * le_value(s.skip(1))
    }
}

/// How many numbers `width` bytes can tell apart.
pub open spec fn le_limit(width: nat) -> nat {
    pow(256, width) as nat
}

pub proof fn lemma_le_limits()
    ensures
        le_limit(4) == 0x1_0000_0000,
        le_limit(8) == 0x1_0000_0000_0000_0000,
{
    lemma_pow1(256);
    lemma_pow_adds(256, 1, 1);
    lemma_pow_adds(256, 2, 2);
    lemma_pow_adds(256, 4, 4);
    let quarter = pow(256, 2);
    let half = pow(256, 4);
    assert(quarter == 0x1_0000);
    assert(quarter * quarter == 0x1_0000_0000) by (nonlinear_arith)
        requires
            quarter == 0x1_0000,
    ;
    assert(half * half == 0x1_0000_0000_0000_0000) by (nonlinear_arith)
        requires
            half == 0x1_0000_0000,
    ;
}

proof fn lemma_limit_step(width: nat)
    requires
        width > 0,
    ensures
        le_limit(width) == 256 * le_limit((width - 1) as nat),
        le_limit((width - 1) as nat) > 0,
{
    lemma_pow_adds(256, 1, (width - 1) as nat);
    lemma_pow1(256);
    lemma_pow_positive(256, (width - 1) as nat);
}

pub proof fn lemma_le_bytes_len(x: nat, width: nat)
    ensures
        le_bytes(x, width).len() == width,
    decreases width,
{
    if width > 0 {
        lemma_le_bytes_len(x / 256, (width - 1) as nat);
    }
}

/// Reading back a number that was written in enough bytes gives that number.
pub proof fn lemma_le_value_of_bytes(x: nat, width: nat)
    requires
        x < le_limit(width),
    ensures
        le_value(le_bytes(x, width)) == x,
    decreases width,
{
    if width == 0 {
        lemma_pow0(256);
    } else {
        lemma_limit_step(width);
        lemma_le_bytes_len(x, width);
        let rest = le_bytes(x / 256, (width - 1) as nat);
        assert(le_bytes(x, width).skip(1) =~= rest);
        assert(x / 256 < le_limit((width - 1) as nat));
        lemma_le_value_of_bytes(x / 256, (width - 1) as nat);
    }
}

/// Writing a number in as many bytes as it was read from gives those bytes.
pub proof fn lemma_le_bytes_of_value(s: Seq<u8>)
    ensures
        le_value(s) < le_limit(s.len()),
        le_bytes(le_value(s), s.len()) == s,
    decreases s.len(),
{
    if s.len() == 0 {
        lemma_pow0(256);
        assert(le_bytes(le_value(s), s.len()) =~= s);
    } else {
        let rest = s.skip(1);
        lemma_le_bytes_of_value(rest);
        lemma_limit_step(s.len());
        let x = le_value(s);
        assert(x == s[0] as nat + 256 * le_value(rest));
        assert(x % 256 == s[0] as nat);
        assert(x / 256 == le_value(rest));
        assert(le_bytes(x, s.len()) =~= s);
    }
}

/// Two numbers that fit are equal when their bytes are.
pub proof fn lemma_le_injective(x: nat, y: nat, width: nat)
    requires
        x < le_limit(width),
        y < le_limit(width),
        le_bytes(x, width) == le_bytes(y, width),
    ensures
        x == y,
{
    lemma_le_value_of_bytes(x, width);
    lemma_le_value_of_bytes(y, width);
}

/// What four bytes stand for: the first counts ones, and each counts 256 times what the
/// one before it counts.
pub proof fn law_four_bytes(s: Seq<u8>)
    requires
        s.len() == 4,
    ensures
        le_value(s) == s[0] + 0x100 * s[1] + 0x1_0000 * s[2] + 0x100_0000 * s[3],
{
    let s1 = s.skip(1);
    let s2 = s1.skip(1);
    let s3 = s2.skip(1);
    let s4 = s3.skip(1);
    assert(s4.len() == 0);
    assert(le_value(s4) == 0);
    assert(le_value(s3) == s[3] + 256 * le_value(s4));
    assert(le_value(s2) == s[2] + 256 * le_value(s3));
    assert(le_value(s1) == s[1] + 256 * le_value(s2));
}

/// What eight bytes stand for: what the first four do, and 2^32 times what the others do.
pub proof fn law_eight_bytes(s: Seq<u8>)
    requires
        s.len() == 8,
    ensures
        le_value(s) == s[0] + 0x100 * s[1] + 0x1_0000 * s[2] + 0x100_0000 * s[3] + 0x1_0000_0000 * (
        s[4] + 0x100 * s[5] + 0x1_0000 * s[6] + 0x100_0000 * s[7]),
{
    let s1 = s.skip(1);
    let s2 = s1.skip(1);
    let s3 = s2.skip(1);
    let s4 = s3.skip(1);
    law_four_bytes(s4);
    assert(le_value(s3) == s[3] + 256 * le_value(s4));
    assert(le_value(s2) == s[2] + 256 * le_value(s3));
    assert(le_value(s1) == s[1] + 256 * le_value(s2));
}

/// A number is read back from the bytes it was written in: four, if it is below 2^32, or
/// eight, if it is below 2^64.
pub proof fn law_number_round_trip(x: nat)
    ensures
        x < 0x1_0000_0000 ==> le_bytes(x, 4).len() == 4 && le_value(le_bytes(x, 4)) == x,
        x < 0x1_0000_0000_0000_0000 ==> le_bytes(x, 8).len() == 8 && le_value(le_bytes(x, 8)) == x,
{
    lemma_le_limits();
    lemma_le_bytes_len(x, 4);
    lemma_le_bytes_len(x, 8);
    if x < 0x1_0000_0000 {
        lemma_le_value_of_bytes(x, 4);
    }
    if x < 0x1_0000_0000_0000_0000 {
        lemma_le_value_of_bytes(x, 8);
    }
}

/// Appends the `width` low-order bytes of `x` to `out`.
pub fn push_le(out: &mut Vec<u8>, x: u64, width: usize)
    ensures
        final(out)@ == old(out)@ + le_bytes(x as nat, width as nat),
{
    let mut rest: u64 = x;
    let mut left: usize = width;
    while left > 0
        invariant
            left <= width,
            out@ + le_bytes(rest as nat, left as nat) == old(out)@ + le_bytes(
                x as nat,
                width as nat,
            ),
        decreases left,
    {
        let digit: u8 = (rest % 256) as u8;
        let ghost before = out@;
        out.push(digit);
        proof {
            let tail = le_bytes((rest / 256) as nat, (left - 1) as nat);
            assert(before + le_bytes(rest as nat, left as nat) =~= out@ + tail);
        }
        rest = rest / 256;
        left = left - 1;
    }
    assert(out@ + le_bytes(rest as nat, 0) =~= out@);
}

/// The number held by the `width` bytes of `bytes` that start at `at`.
pub fn read_le(bytes: &[u8], at: usize, width: usize) -> (x: u64)
    requires
        at + width <= bytes@.len(),
        width <= 8,
    ensures
        x as nat == le_value(bytes@.subrange(at as int, at + width)),
{
    let size: usize = bytes.len();
    assert(at + width <= size);
    let mut i: usize = at + width;
    let mut x: u64 = 0;
    assert(bytes@.subrange(at + width, at + width) =~= Seq::<u8>::empty());
    while i > at
        invariant
            at <= i <= at + width,
            at + width <= bytes@.len(),
            width <= 8,
            x as nat == le_value(bytes@.subrange(i as int, at + width)),
        decreases i - at,
    {
        i = i - 1;
        let ghost digits = bytes@.subrange(i as int, at + width);
        proof {
            assert(digits.skip(1) =~= bytes@.subrange(i + 1, at + width));
            lemma_le_bytes_of_value(digits);
            lemma_le_limit_monotonic(digits.len(), 8);
            lemma_le_limits();
        }
        x = bytes[i] as u64 + 256 * x;
    }
    x
}

proof fn lemma_le_limit_monotonic(a: nat, b: nat)
    requires
        a <= b,
    ensures
        le_limit(a) <= le_limit(b),
    decreases b - a,
{
    if a < b {
        lemma_le_limit_monotonic(a, (b - 1) as nat);
        lemma_limit_step(b);
    }
}

} // verus!
