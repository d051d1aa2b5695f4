//! The names of the files in a store's directory.
//!
//! A table is `sst-NNNNNN.sst`, its number in at least six decimal digits. While
//! a table is being written its file ends in `.sst.tmp`, and is renamed once it is
//! complete: one that is found on startup was left behind by a crash.
use crate::run::reversed;
use vstd::prelude::*;

verus! {

pub const DOT: u8 = 46;

pub const PLUS: u8 = 43;

pub const ZERO: u8 = 48;

/// `sst-`, what a table's name begins with.
pub open spec fn table_prefix() -> Seq<u8> {
    seq![115u8, 115u8, 116u8, 45u8]
}

/// `sst`, the extension of a table's name.
pub open spec fn table_extension() -> Seq<u8> {
    seq![115u8, 115u8, 116u8]
}

/// `.sst.tmp`, what an unfinished file's name ends in.
pub open spec fn temp_suffix() -> Seq<u8> {
    seq![46u8, 115u8, 115u8, 116u8, 46u8, 116u8, 109u8, 112u8]
}

/// The place of the last dot in a name, or -1 where there is none.
pub open spec fn last_dot(name: Seq<u8>) -> int
    decreases name.len(),
{
    if name.len() == 0 {
        -1
    } else if name.last() == DOT {
        name.len() - 1
    } else {
        last_dot(name.drop_last())
    }
}

/// What stands behind the last dot of a name. A dot that begins the name does not
/// count.
pub open spec fn extension_of(name: Seq<u8>) -> Option<Seq<u8>> {
    if last_dot(name) <= 0 {
        None
    } else {
        Some(name.skip(last_dot(name) + 1))
    }
}

/// What stands before a name's extension.
pub open spec fn stem_of(name: Seq<u8>) -> Seq<u8> {
    if last_dot(name) <= 0 {
        name
    } else {
        name.take(last_dot(name))
    }
}

pub open spec fn is_digit(c: u8) -> bool {
    48 <= c <= 57
}

pub open spec fn all_digits(s: Seq<u8>) -> bool {
    forall|i: int| 0 <= i < s.len() ==> is_digit(#[trigger] s[i])
}

/// The number that decimal digits write.
pub open spec fn digits_value(s: Seq<u8>) -> nat
    decreases s.len(),
{
    if s.len() == 0 {
        0
    } else {
        10 * digits_value(s.drop_last()) + (s.last() - ZERO) as nat
    }
}

/// The number that `s` writes: decimal digits, with a plus sign before them or
/// not, that stay within 64 bits.
pub open spec fn number_of(s: Seq<u8>) -> Option<u64> {
    let digits = if s.len() > 0 && s[0] == PLUS {
        s.skip(1)
    } else {
        s
    };
    if digits.len() > 0 && all_digits(digits) && digits_value(digits) <= u64::MAX {
        Some(digits_value(digits) as u64)
    } else {
        None
    }
}

/// The number of the table that a file with this name holds, if it is a table's
/// name.
pub open spec fn table_number_of(name: Seq<u8>) -> Option<u64> {
    let stem = stem_of(name);
    if extension_of(name) == Some(table_extension()) && table_prefix().is_prefix_of(stem) {
        number_of(stem.skip(4))
    } else {
        None
    }
}

/// The decimal digits of a number, without leading zeros.
pub open spec fn digits_of(n: nat) -> Seq<u8>
    decreases n,
{
    if n < 10 {
        seq![(ZERO + n) as u8]
    } else {
        digits_of(n / 10).push((ZERO + n % 10) as u8)
    }
}

/// Zeros in front of digits, so that there are at least six of them.
pub open spec fn padded(digits: Seq<u8>) -> Seq<u8> {
    if digits.len() < 6 {
        Seq::new((6 - digits.len()) as nat, |i: int| ZERO) + digits
    } else {
        digits
    }
}

/// The name of the file that holds the table with this number.
pub open spec fn table_name_of(number: u64) -> Seq<u8> {
    table_prefix() + padded(digits_of(number as nat)) + seq![DOT] + table_extension()
}

fn find_last_dot(name: &[u8]) -> (r: Option<usize>)
    ensures
        match r {
            Some(i) => last_dot(name@) == i && i < name@.len() <= usize::MAX,
            None => last_dot(name@) == -1,
        },
{
    let mut i: usize = name.len();
    assert(name@.take(i as int) =~= name@);
    while i > 0
        invariant
            i <= name@.len(),
            last_dot(name@) == last_dot(name@.take(i as int)),
        decreases i,
    {
        assert(name@.take(i as int).drop_last() =~= name@.take(i - 1));
        i = i - 1;
        if name[i] == DOT {
            return Some(i);
        }
    }
    None
}

/// Whether `name[from..]` is exactly these three bytes.
fn ends_with_three(name: &[u8], from: usize, a: u8, b: u8, c: u8) -> (r: bool)
    requires
        from <= name@.len(),
    ensures
        r == (name@.skip(from as int) == seq![a, b, c]),
{
    let total: usize = name.len();
    let r = total - from == 3 && name[from] == a && name[from + 1] == b && name[from + 2] == c;
    proof {
        let tail = name@.skip(from as int);
        if r {
            assert(tail =~= seq![a, b, c]);
        } else if tail == seq![a, b, c] {
            assert(tail.len() == 3);
            assert(tail[0] == name@[from as int]);
            assert(tail[1] == name@[from + 1]);
            assert(tail[2] == name@[from + 2]);
        }
    }
    r
}

/// A name that ends in `.sst.tmp`.
pub open spec fn is_temp_name(name: Seq<u8>) -> bool {
    temp_suffix().is_suffix_of(name)
}

/// Whether a file with this name was left behind by a crash while a table was
/// being written: a name that ends in `.sst.tmp`.
pub fn is_stale_temp(name: &[u8]) -> (r: bool)
    ensures
        r == is_temp_name(name@),
{
    let total: usize = name.len();
    if total < 8 {
        return false;
    }
    let at: usize = total - 8;
    let r = name[at] == DOT && name[at + 1] == 115 && name[at + 2] == 115 && name[at + 3] == 116
        && name[at + 4] == DOT && ends_with_three(name, at + 5, 116, 109, 112);
    proof {
        let suffix = temp_suffix();
        let tail = name@.subrange(at as int, total as int);
        let end = name@.skip(at + 5);
        if r {
            assert(end[0] == 116 && end[1] == 109 && end[2] == 112);
            assert(tail =~= suffix);
        } else if tail == suffix {
            assert forall|i: int| 0 <= i < 8 implies name@[at + i] == suffix[i] by {
                assert(tail[i] == suffix[i]);
            }
            assert(end =~= seq![116u8, 109u8, 112u8]);
        }
    }
    r
}

proof fn lemma_digits_value_grows(s: Seq<u8>, i: int)
    requires
        0 <= i <= s.len(),
    ensures
        digits_value(s.take(i)) <= digits_value(s),
    decreases s.len(),
{
    if i < s.len() {
        lemma_digits_value_grows(s.drop_last(), i);
        assert(s.drop_last().take(i) =~= s.take(i));
    } else {
        assert(s.take(i) =~= s);
    }
}

/// The number that `name[from..to]` writes.
fn parse_number(name: &[u8], from: usize, to: usize) -> (r: Option<u64>)
    requires
        from <= to <= name@.len(),
    ensures
        r == number_of(name@.subrange(from as int, to as int)),
{
    let ghost s = name@.subrange(from as int, to as int);
    let begin: usize = if from < to && name[from] == PLUS {
        from + 1
    } else {
        from
    };
    let ghost digits = name@.subrange(begin as int, to as int);
    proof {
        if begin > from {
            assert(s[0] == PLUS);
            assert(digits =~= s.skip(1));
        } else {
            assert(digits =~= s);
        }
    }
    if begin == to {
        return None;
    }
    let mut value: u64 = 0;
    let mut i: usize = begin;
    assert(digits.take(0) =~= Seq::<u8>::empty());
    while i < to
        invariant
            from <= begin <= i <= to <= name@.len(),
            s == name@.subrange(from as int, to as int),
            digits == name@.subrange(begin as int, to as int),
            all_digits(digits.take(i - begin)),
            value == digits_value(digits.take(i - begin)),
            begin < to,
            number_of(s) == if all_digits(digits) && digits_value(digits) <= u64::MAX {
                Some(digits_value(digits) as u64)
            } else {
                None
            },
        decreases to - i,
    {
        let c: u8 = name[i];
        let ghost n = i - begin;
        let ghost next = digits.take(n + 1);
        assert(digits[n] == c);
        if c < 48 || c > 57 {
            assert(!is_digit(digits[n]));
            return None;
        }
        proof {
            assert(next.drop_last() =~= digits.take(n));
            assert(next.last() == c);
            lemma_digits_value_grows(digits, n + 1);
            assert forall|j: int| 0 <= j < next.len() implies is_digit(#[trigger] next[j]) by {
                if j < n {
                    assert(is_digit(digits.take(n)[j]));
                }
            }
        }
        let d: u64 = (c - ZERO) as u64;
        if value > (u64::MAX - d) / 10 {
            assert(10 * value + d > u64::MAX);
            return None;
        }
        value = 10 * value + d;
        i = i + 1;
    }
    assert(digits.take(to - begin) =~= digits);
    Some(value)
}

/// The number of the table that a file with this name holds, or `None` for a file
/// that is not a table.
pub fn table_number(name: &[u8]) -> (r: Option<u64>)
    ensures
        r == table_number_of(name@),
{
    let dot: usize = match find_last_dot(name) {
        Some(dot) => dot,
        None => {
            return None;
        },
    };
    if dot == 0 || !ends_with_three(name, dot + 1, 115, 115, 116) {
        return None;
    }
    let ghost stem = stem_of(name@);
    assert(stem =~= name@.take(dot as int));
    if dot < 4 || name[0] != 115 || name[1] != 115 || name[2] != 116 || name[3] != 45 {
        proof {
            if table_prefix().is_prefix_of(stem) {
                assert(stem.take(4)[0] == name@[0]);
                assert(stem.take(4)[1] == name@[1]);
                assert(stem.take(4)[2] == name@[2]);
                assert(stem.take(4)[3] == name@[3]);
            }
        }
        return None;
    }
    proof {
        assert(table_prefix() =~= stem.take(4));
        assert(name@.subrange(4, dot as int) =~= stem.skip(4));
    }
    parse_number(name, 4, dot)
}

/// Appends the decimal digits of `n`.
fn push_digits(out: &mut Vec<u8>, n: u64)
    ensures
        final(out)@ == old(out)@ + digits_of(n as nat),
    decreases n,
{
    if n >= 10 {
        push_digits(out, n / 10);
    }
    let digit: u8 = ZERO + (n % 10) as u8;
    out.push(digit);
    assert(out@ =~= old(out)@ + digits_of(n as nat));
}

/// The name of the file that holds the table with this number.
pub fn table_name(number: u64) -> (r: Vec<u8>)
    ensures
        r@ == table_name_of(number),
{
    let mut digits: Vec<u8> = Vec::new();
    push_digits(&mut digits, number);
    assert(digits@ =~= digits_of(number as nat));
    let mut name: Vec<u8> = vec![115u8, 115u8, 116u8, 45u8];
    assert(name@ =~= table_prefix());
    let count: usize = digits.len();
    let mut missing: usize = if count < 6 {
        6 - count
    } else {
        0
    };
    let ghost zeros = Seq::new(missing as nat, |i: int| ZERO);
    let ghost whole = missing as int;
    assert(name@ =~= table_prefix() + zeros.take(0));
    while missing > 0
        invariant
            0 <= missing <= whole,
            zeros == Seq::new(whole as nat, |i: int| ZERO),
            name@ == table_prefix() + zeros.take(whole - missing),
        decreases missing,
    {
        name.push(ZERO);
        assert(name@ =~= table_prefix() + zeros.take(whole - missing + 1));
        missing = missing - 1;
    }
    assert(zeros.take(whole) =~= zeros);
    assert(zeros + digits@ =~= padded(digits@));
    name.append(&mut digits);
    name.push(DOT);
    name.push(115);
    name.push(115);
    name.push(116);
    assert(name@ =~= table_name_of(number));
    name
}

/// Decimal digits stand for a number as they are written: each digit behind some others
/// counts ones, and makes them count ten times as much.
pub proof fn law_digits_are_decimal(s: Seq<u8>, c: u8)
    requires
        48 <= c <= 57,
    ensures
        digits_value(Seq::empty()) == 0,
        digits_value(s.push(c)) == 10 * digits_value(s) + (c - 48),
{
    assert(s.push(c).drop_last() =~= s);
}

proof fn lemma_last_dot(name: Seq<u8>)
    ensures
        -1 <= last_dot(name) < name.len(),
        last_dot(name) >= 0 ==> name[last_dot(name)] == DOT,
    decreases name.len(),
{
    if name.len() > 0 {
        lemma_last_dot(name.drop_last());
    }
}

proof fn lemma_table_number(middle: Seq<u8>)
    ensures
        table_number_of(table_prefix() + middle + seq![DOT] + table_extension()) == number_of(
            middle,
        ),
{
    let name = table_prefix() + middle + seq![DOT] + table_extension();
    let stem = table_prefix() + middle;
    let n1 = name.drop_last();
    let n2 = n1.drop_last();
    let n3 = n2.drop_last();
    assert(name.last() == 116 && n1.last() == 115 && n2.last() == 115);
    assert(n3.last() == DOT);
    assert(last_dot(name) == last_dot(n1));
    assert(last_dot(n1) == last_dot(n2));
    assert(last_dot(n2) == last_dot(n3));
    assert(last_dot(name) == stem.len());
    assert(name.skip(last_dot(name) + 1) =~= table_extension());
    assert(stem_of(name) =~= stem);
    assert(table_prefix() =~= stem.take(4));
    assert(stem.skip(4) =~= middle);
}

/// Which names are tables', and of which number: those made of `sst-`, decimal digits that
/// stay within 64 bits, a plus sign before them or not, and `.sst`. The number is the one
/// that the digits write, however large it is, and however many digits write it.
pub proof fn law_which_names_are_tables(digits: Seq<u8>, name: Seq<u8>, number: u64)
    ensures
        digits.len() > 0 && digits_value(digits) == number && (forall|i: int|
            0 <= i < digits.len() ==> 48 <= #[trigger] digits[i] <= 57) ==> {
            &&& table_number_of(
                seq![115u8, 115u8, 116u8, 45u8] + digits + seq![46u8, 115u8, 115u8, 116u8],
            ) == Some(number)
            &&& table_number_of(
                seq![115u8, 115u8, 116u8, 45u8, 43u8] + digits + seq![46u8, 115u8, 115u8, 116u8],
            ) == Some(number)
        },
        table_number_of(name) == Some(number) ==> {
            let end = name.len() - 4;
            &&& end >= 5
            &&& name.take(4) == seq![115u8, 115u8, 116u8, 45u8]
            &&& name.skip(end) == seq![46u8, 115u8, 115u8, 116u8]
            &&& name[4] == 43 ==> end > 5 && digits_value(name.subrange(5, end)) == number
            &&& name[4] != 43 ==> digits_value(name.subrange(4, end)) == number
            &&& forall|i: int|
                4 <= i < end ==> 48 <= #[trigger] name[i] <= 57 || (i == 4 && name[i] == 43)
        },
{
    if digits.len() > 0 && digits_value(digits) == number && (forall|i: int|
        0 <= i < digits.len() ==> 48 <= #[trigger] digits[i] <= 57) {
        let plain = seq![115u8, 115u8, 116u8, 45u8] + digits + seq![46u8, 115u8, 115u8, 116u8];
        let plus = seq![115u8, 115u8, 116u8, 45u8, 43u8] + digits + seq![46u8, 115u8, 115u8, 116u8];
        assert(48 <= digits[0]);
        assert(all_digits(digits));
        assert(plain =~= table_prefix() + digits + seq![DOT] + table_extension());
        lemma_table_number(digits);
        let signed = seq![PLUS] + digits;
        assert(plus =~= table_prefix() + signed + seq![DOT] + table_extension());
        lemma_table_number(signed);
        assert(signed.skip(1) =~= digits);
    }
    if table_number_of(name) == Some(number) {
        lemma_last_dot(name);
        let dot = last_dot(name);
        let stem = stem_of(name);
        let tail = name.skip(dot + 1);
        let middle = stem.skip(4);
        assert(tail == table_extension());
        assert(tail.len() == 3);
        assert(dot == name.len() - 4);
        assert(name.take(4) =~= stem.take(4));
        assert(name.skip(dot) =~= seq![name[dot]] + tail);
        assert(name.skip(dot) =~= seq![46u8, 115u8, 115u8, 116u8]);
        assert(middle =~= name.subrange(4, dot));
        assert(middle.len() > 0);
        assert(middle[0] == name[4]);
        if name[4] == PLUS {
            assert(middle.skip(1) =~= name.subrange(5, dot));
            assert forall|i: int| 4 <= i < dot implies 48 <= #[trigger] name[i] <= 57 || (i == 4
                && name[i] == 43) by {
                if i > 4 {
                    assert(is_digit(middle.skip(1)[i - 5]));
                }
            }
        } else {
            assert forall|i: int| 4 <= i < dot implies 48 <= #[trigger] name[i] <= 57 || (i == 4
                && name[i] == 43) by {
                assert(is_digit(middle[i - 4]));
            }
        }
    }
}

proof fn lemma_no_leading_zero(n: nat)
    ensures
        n > 0 ==> digits_of(n)[0] != ZERO,
    decreases n,
{
    if n >= 10 {
        lemma_no_leading_zero(n / 10);
        lemma_digits_round_trip(n / 10);
        assert(digits_of(n)[0] == digits_of(n / 10)[0]);
    }
}

/// How a table's name is made: `sst-`, the number in decimal digits, at least six of them
/// and none in front that is not needed for that, and `.sst`.
pub proof fn law_how_a_table_is_named(number: u64)
    ensures
        ({
            let name = table_name_of(number);
            let digits = name.subrange(4, name.len() - 4);
            &&& name.len() >= 14
            &&& name == seq![115u8, 115u8, 116u8, 45u8] + digits + seq![46u8, 115u8, 115u8, 116u8]
            &&& forall|i: int| 0 <= i < digits.len() ==> 48 <= #[trigger] digits[i] <= 57
            &&& digits_value(digits) == number
            &&& digits.len() > 6 ==> digits[0] != 48
        }),
{
    let name = table_name_of(number);
    let short = digits_of(number as nat);
    let middle = padded(short);
    lemma_digits_round_trip(number as nat);
    lemma_no_leading_zero(number as nat);
    if short.len() < 6 {
        lemma_leading_zeros((6 - short.len()) as nat, short);
    }
    assert(name.subrange(4, name.len() - 4) =~= middle);
    assert(name =~= seq![115u8, 115u8, 116u8, 45u8] + middle + seq![46u8, 115u8, 115u8, 116u8]);
    assert forall|i: int| 0 <= i < middle.len() implies 48 <= #[trigger] middle[i] <= 57 by {
        assert(is_digit(middle[i]));
    }
    if middle.len() > 6 {
        if number == 0 {
            assert(short.len() == 1);
        }
    }
}

/// A file is a leftover where its name ends in `.sst.tmp`, whatever stands before that.
pub proof fn law_which_names_are_leftovers(name: Seq<u8>, front: Seq<u8>)
    ensures
        is_temp_name(
            front + seq![46u8, 115u8, 115u8, 116u8, 46u8, 116u8, 109u8, 112u8],
        ),
        is_temp_name(name) ==> name.len() >= 8 && name == name.take(name.len() - 8) + seq![
            46u8,
            115u8,
            115u8,
            116u8,
            46u8,
            116u8,
            109u8,
            112u8,
        ],
{
    let end = seq![46u8, 115u8, 115u8, 116u8, 46u8, 116u8, 109u8, 112u8];
    let made = front + end;
    assert(made.subrange(made.len() - 8, made.len() as int) =~= end);
    assert(temp_suffix() =~= end);
    if is_temp_name(name) {
        let tail = name.subrange(name.len() - 8, name.len() as int);
        assert(tail == end);
        assert(name =~= name.take(name.len() - 8) + tail);
    }
}

proof fn lemma_digits_round_trip(n: nat)
    ensures
        digits_of(n).len() > 0,
        all_digits(digits_of(n)),
        digits_value(digits_of(n)) == n,
    decreases n,
{
    if n < 10 {
        let s = digits_of(n);
        assert(s.drop_last() =~= Seq::<u8>::empty());
        assert(digits_value(Seq::<u8>::empty()) == 0);
        assert(s.last() == (ZERO + n) as u8);
    } else {
        lemma_digits_round_trip(n / 10);
        let s = digits_of(n);
        assert(s.drop_last() =~= digits_of(n / 10));
    }
}

proof fn lemma_leading_zeros(count: nat, digits: Seq<u8>)
    requires
        all_digits(digits),
    ensures
        all_digits(Seq::new(count, |i: int| ZERO) + digits),
        digits_value(Seq::new(count, |i: int| ZERO) + digits) == digits_value(digits),
    decreases digits.len(), count,
{
    let s = Seq::new(count, |i: int| ZERO) + digits;
    if digits.len() > 0 {
        lemma_leading_zeros(count, digits.drop_last());
        assert(s.drop_last() =~= Seq::new(count, |i: int| ZERO) + digits.drop_last());
    } else if count > 0 {
        lemma_leading_zeros((count - 1) as nat, digits);
        assert(s.drop_last() =~= Seq::new((count - 1) as nat, |i: int| ZERO) + digits);
        assert(s.last() == ZERO);
    } else {
        assert(s =~= digits);
    }
}

/// The number of a table is read back from its file's name, which is not that of an
/// unfinished file.
pub proof fn law_table_name_round_trip(number: u64)
    ensures
        table_number_of(table_name_of(number)) == Some(number),
        !is_temp_name(table_name_of(number)),
{
    let digits = digits_of(number as nat);
    let middle = padded(digits);
    let name = table_name_of(number);
    let stem = table_prefix() + middle;
    lemma_digits_round_trip(number as nat);
    if digits.len() < 6 {
        lemma_leading_zeros((6 - digits.len()) as nat, digits);
    }
    let n1 = name.drop_last();
    let n2 = n1.drop_last();
    let n3 = n2.drop_last();
    assert(name.last() == 116 && n1.last() == 115 && n2.last() == 115);
    assert(n3.last() == DOT);
    assert(last_dot(name) == last_dot(n1));
    assert(last_dot(n1) == last_dot(n2));
    assert(last_dot(n2) == last_dot(n3));
    assert(last_dot(name) == stem.len());
    assert(name.skip(last_dot(name) + 1) =~= table_extension());
    assert(stem_of(name) =~= stem);
    assert(table_prefix() =~= stem.take(4));
    assert(stem.skip(4) =~= middle);
    assert(is_digit(middle[0]));
    assert(temp_suffix()[7] != name.last());
}

/// The tables among some files: number and name of each, in the order given.
pub open spec fn listed(names: Seq<Seq<u8>>) -> Seq<(u64, Seq<u8>)>
    decreases names.len(),
{
    if names.len() == 0 {
        Seq::empty()
    } else {
        let front = listed(names.drop_last());
        match table_number_of(names.last()) {
            Some(number) => front.push((number, names.last())),
            None => front,
        }
    }
}

/// The contents of a vector of names.
pub open spec fn name_views(names: Seq<Vec<u8>>) -> Seq<Seq<u8>> {
    names.map_values(|name: Vec<u8>| name@)
}

/// The contents of a vector of numbered names.
pub open spec fn file_views(files: Seq<(u64, Vec<u8>)>) -> Seq<(u64, Seq<u8>)> {
    files.map_values(|file: (u64, Vec<u8>)| (file.0, file.1@))
}

/// Numbers do not go down.
pub open spec fn numbers_ascend(files: Seq<(u64, Seq<u8>)>) -> bool {
    forall|i: int, j: int| 0 <= i <= j < files.len() ==> (#[trigger] files[i]).0 <= (
    #[trigger] files[j]).0
}

/// Every table among some files is listed, with its number and its name, as often as its
/// name occurs, and nothing else is.
pub proof fn law_every_table_is_listed(names: Seq<Seq<u8>>, number: u64, name: Seq<u8>)
    ensures
        listed(names).to_multiset().count((number, name)) == if table_number_of(name) == Some(
            number,
        ) {
            names.to_multiset().count(name)
        } else {
            0
        },
        names.contains(name) && table_number_of(name) == Some(number) <==> listed(names).contains(
            (number, name),
        ),
    decreases names.len(),
{
    let file = (number, name);
    names.to_multiset_ensures();
    listed(names).to_multiset_ensures();
    if names.len() > 0 {
        let front = names.drop_last();
        let last = names.last();
        law_every_table_is_listed(front, number, name);
        assert(names =~= front.push(last));
        front.to_multiset_ensures();
        listed(front).to_multiset_ensures();
        assert(names.to_multiset() == front.to_multiset().insert(last));
        match table_number_of(last) {
            Some(n) => {
                assert(listed(names) == listed(front).push((n, last)));
                assert(listed(names).to_multiset() == listed(front).to_multiset().insert((n, last)));
            },
            None => {
                assert(listed(names) == listed(front));
            },
        }
    } else {
        assert(!names.contains(name));
        assert(!listed(names).contains(file));
    }
}

/// A table that was written is found again: whatever its number, its file is listed where it
/// is among the files, and under that number.
pub proof fn law_a_written_table_is_listed(names: Seq<Seq<u8>>, number: u64)
    requires
        names.contains(table_name_of(number)),
    ensures
        listed(names).contains((number, table_name_of(number))),
{
    law_table_name_round_trip(number);
    law_every_table_is_listed(names, number, table_name_of(number));
}

/// Names and files are viewed one by one, in their order.
pub proof fn law_names_are_viewed_one_by_one(names: Seq<Vec<u8>>, files: Seq<(u64, Vec<u8>)>)
    ensures
        name_views(names).len() == names.len(),
        forall|i: int| 0 <= i < names.len() ==> #[trigger] name_views(names)[i] == names[i]@,
        file_views(files).len() == files.len(),
        forall|i: int|
            0 <= i < files.len() ==> #[trigger] file_views(files)[i] == (files[i].0, files[i].1@),
{
}

proof fn lemma_multiset_insert<A>(s: Seq<A>, i: int, a: A)
    requires
        0 <= i <= s.len(),
    ensures
        s.insert(i, a).to_multiset() == s.to_multiset().insert(a),
{
    let t = s.insert(i, a);
    assert(t.remove(i) =~= s);
    assert(t[i] == a);
    t.to_multiset_ensures();
    assert(t.contains(a));
    assert(t.to_multiset().remove(a).insert(a) =~= t.to_multiset());
}

/// The tables in a directory, from the names of its files: their numbers and names,
/// sorted by number, the lowest first.
pub fn sstable_files(names: Vec<Vec<u8>>) -> (r: Vec<(u64, Vec<u8>)>)
    ensures
        numbers_ascend(file_views(r@)),
        file_views(r@).to_multiset() == listed(name_views(names@)).to_multiset(),
        forall|number: u64, name: Seq<u8>| #[trigger]
            file_views(r@).to_multiset().count((number, name)) == if table_number_of(name) == Some(
                number,
            ) {
                name_views(names@).to_multiset().count(name)
            } else {
                0
            },
        forall|i: int, j: int|
            0 <= i <= j < r@.len() ==> (#[trigger] r@[i]).0 <= (#[trigger] r@[j]).0,
{
    let ghost all = name_views(names@);
    let mut backward = reversed(names);
    let total: usize = backward.len();
    let mut files: Vec<(u64, Vec<u8>)> = Vec::new();
    assert(file_views(files@) =~= listed(all.take(0)));
    while backward.len() > 0
        invariant
            backward@.len() <= total,
            total == all.len(),
            forall|i: int|
                0 <= i < backward@.len() ==> (#[trigger] backward@[i])@ == all[total - 1 - i],
            numbers_ascend(file_views(files@)),
            file_views(files@).to_multiset() == listed(
                all.take(total - backward@.len()),
            ).to_multiset(),
        decreases backward@.len(),
    {
        let ghost n = backward@.len() as int;
        let ghost next = all.take(total - n + 1);
        let ghost sorted = file_views(files@);
        assert(backward@[n - 1]@ == all[total - n]);
        if let Some(name) = backward.pop() {
            let ghost view = name@;
            assert(next.drop_last() =~= all.take(total - n));
            assert(next.last() == view);
            if let Some(number) = table_number(name.as_slice()) {
                let mut at: usize = files.len();
                while at > 0 && files[at - 1].0 > number
                    invariant
                        at <= files@.len(),
                        sorted == file_views(files@),
                        forall|j: int|
                            at <= j < sorted.len() ==> (#[trigger] sorted[j]).0 > number,
                    decreases at,
                {
                    assert(sorted[at - 1].0 == files@[at - 1].0);
                    at = at - 1;
                }
                proof {
                    let item = (number, view);
                    let placed = sorted.insert(at as int, item);
                    if at > 0 {
                        assert(sorted[at - 1].0 == files@[at - 1].0);
                    }
                    lemma_multiset_insert(sorted, at as int, item);
                    listed(next.drop_last()).to_multiset_ensures();
                    assert forall|i: int, j: int| 0 <= i <= j < placed.len() implies (
                    #[trigger] placed[i]).0 <= (#[trigger] placed[j]).0 by {
                        let x = if i < at {
                            i
                        } else {
                            i - 1
                        };
                        let y = if j < at {
                            j
                        } else {
                            j - 1
                        };
                        if i != at {
                            assert(placed[i] == sorted[x]);
                        }
                        if j != at {
                            assert(placed[j] == sorted[y]);
                        }
                        if i < at {
                            assert(sorted[i].0 <= sorted[at - 1].0);
                        }
                    }
                }
                files.insert(at, (number, name));
                assert(file_views(files@) =~= sorted.insert(at as int, (number, view)));
            }
        }
    }
    assert(all.take(total as int) =~= all);
    proof {
        let views = file_views(files@);
        assert forall|number: u64, name: Seq<u8>| #[trigger]
            views.to_multiset().count((number, name)) == if table_number_of(name) == Some(number) {
            all.to_multiset().count(name)
        } else {
            0
        } by {
            law_every_table_is_listed(all, number, name);
        }
        assert forall|i: int, j: int| 0 <= i <= j < files@.len() implies (#[trigger] files@[i]).0
            <= (#[trigger] files@[j]).0 by {
            assert(views[i].0 <= views[j].0);
        }
    }
    files
}

} // verus!
