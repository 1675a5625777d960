//! Whole numbers in decimal notation.

use vstd::prelude::*;

use crate::text;

verus! {

/// The character of the decimal digit `d`.
pub open spec fn digit(d: int) -> char {
    (d + 48) as char
}

/// `n` in decimal notation, without leading zeros.
pub open spec fn decimal(n: nat) -> Seq<char>
    decreases n,
{
    if n < 10 {
        seq![digit(n as int)]
    } else {
        decimal(n / 10).push(digit((n % 10) as int))
    }
}

/// `n` in decimal notation, with a minus sign where it is negative.
pub open spec fn signed_decimal(n: int) -> Seq<char> {
    if n < 0 {
        seq!['-'] + decimal((-n) as nat)
    } else {
        decimal(n as nat)
    }
}

/// The character of the decimal digit `d`.
fn digit_char(d: u8) -> (c: char)
    requires
        d < 10,
    ensures
        c == digit(d as int),
{
    (d + 48) as char
}

/// `n` in decimal notation.
pub fn decimal_text(n: u64) -> (s: String)
    ensures
        s@ == decimal(n as nat),
    decreases n,
{
    let mut s: String = if n < 10 {
        String::new()
    } else {
        decimal_text(n / 10)
    };
    s.push(digit_char((n % 10) as u8));
    assert(s@ =~= decimal(n as nat));
    s
}

/// `n` in decimal notation, with a minus sign where it is negative.
pub fn signed_decimal_text(n: i32) -> (s: String)
    ensures
        s@ == signed_decimal(n as int),
{
    if n < 0 {
        let mut s: String = String::new();
        s.push('-');
        let wide: i64 = n as i64;
        s.append(decimal_text((-wide) as u64).as_str());
        assert(s@ =~= signed_decimal(n as int));
        s
    } else {
        decimal_text(n as u64)
    }
}

/// `c` is one of the digits `0` to `9`.
pub open spec fn is_digit(c: char) -> bool {
    '0' <= c && c <= '9'
}

/// The number that the digits of `s` write.
pub open spec fn digits_value(s: Seq<char>) -> nat
    decreases s.len(),
{
    if s.len() == 0 {
        0
    } else {
        digits_value(s.drop_last()) * 10 + (s.last() as int - 48) as nat
    }
}

/// `s` is one digit or more.
pub open spec fn all_digits(s: Seq<char>) -> bool {
    s.len() > 0 && forall|i: int| 0 <= i < s.len() ==> is_digit(#[trigger] s[i])
}

/// The number that `s` writes: digits, after a plus or minus sign where there is one.
pub open spec fn written_number(s: Seq<char>) -> Option<int> {
    if s.len() > 0 && s[0] == '-' {
        if all_digits(s.drop_first()) {
            Some(-(digits_value(s.drop_first()) as int))
        } else {
            None
        }
    } else if s.len() > 0 && s[0] == '+' {
        if all_digits(s.drop_first()) {
            Some(digits_value(s.drop_first()) as int)
        } else {
            None
        }
    } else if all_digits(s) {
        Some(digits_value(s) as int)
    } else {
        None
    }
}

/// The number that `s` writes, where it is one that an `i32` can hold.
pub open spec fn written_i32(s: Seq<char>) -> Option<i32> {
    match written_number(s) {
        Some(n) if i32::MIN <= n <= i32::MAX => Some(n as i32),
        _ => None,
    }
}

/// The largest magnitude that an `i32` can have.
const MAGNITUDE_LIMIT: u64 = 2147483648;

/// The number that the digits `v[from..]` write: `None` where they are not digits or are none,
/// and some number over the limit where the number is over it.
fn magnitude(v: &Vec<char>, from: usize) -> (r: Option<u64>)
    requires
        from <= v@.len(),
    ensures
        match r {
            Some(n) => {
                let d = v@.skip(from as int);
                &&& all_digits(d)
                &&& digits_value(d) <= MAGNITUDE_LIMIT ==> n == digits_value(d)
                &&& digits_value(d) > MAGNITUDE_LIMIT ==> n > MAGNITUDE_LIMIT
            },
            None => !all_digits(v@.skip(from as int)),
        },
{
    let ghost d = v@.skip(from as int);
    if from == v.len() {
        return None;
    }
    let mut n: u64 = 0;
    let mut i: usize = from;
    assert(d.take(0) =~= seq![]);
    while i < v.len()
        invariant
            d == v@.skip(from as int),
            from <= i <= v@.len(),
            n <= 10 * MAGNITUDE_LIMIT + 9,
            forall|k: int| 0 <= k < i - from ==> is_digit(#[trigger] d[k]),
            n <= MAGNITUDE_LIMIT ==> n == digits_value(d.take(i - from)),
            n > MAGNITUDE_LIMIT ==> digits_value(d.take(i - from)) > MAGNITUDE_LIMIT,
        decreases v@.len() - i,
    {
        let c: char = v[i];
        assert(d[i - from] == c);
        if c < '0' || c > '9' {
            return None;
        }
        assert(d.take(i - from + 1).drop_last() =~= d.take(i - from));
        assert(d.take(i - from + 1).last() == c);
        if n <= MAGNITUDE_LIMIT {
            n = n * 10 + ((c as u32) - 48) as u64;
        }
        i = i + 1;
    }
    assert(d.take(i - from) =~= d);
    Some(n)
}

/// The number that `s` writes, where it is one that an `i32` can hold.
pub fn parse_i32(s: &str) -> (r: Option<i32>)
    ensures
        r == written_i32(s@),
{
    let v: Vec<char> = text::chars_of(s);
    assert(v@.skip(0) =~= v@);
    if v.len() > 0 {
        assert(v@.skip(1) =~= v@.drop_first());
    }
    if v.len() > 0 && v[0] == '-' {
        match magnitude(&v, 1) {
            Some(n) => if n <= MAGNITUDE_LIMIT {
                Some((-(n as i64)) as i32)
            } else {
                None
            },
            None => None,
        }
    } else {
        let from: usize = if v.len() > 0 && v[0] == '+' {
            1
        } else {
            0
        };
        match magnitude(&v, from) {
            Some(n) => if n < MAGNITUDE_LIMIT {
                Some(n as i32)
            } else {
                None
            },
            None => None,
        }
    }
}

/// Decimal notation holds digits alone, and writes the number it was made from.
pub proof fn lemma_decimal_reads_back(n: nat)
    ensures
        all_digits(decimal(n)),
        digits_value(decimal(n)) == n,
    decreases n,
{
    let s = decimal(n);
    if n < 10 {
        assert(s.drop_last() =~= seq![]);
        assert(s.last() as int == n + 48);
        assert(digits_value(s.drop_last()) == 0);
    } else {
        lemma_decimal_reads_back(n / 10);
        assert(s.drop_last() =~= decimal(n / 10));
        assert forall|i: int| 0 <= i < s.len() implies is_digit(#[trigger] s[i]) by {
            if i < s.len() - 1 {
                assert(s[i] == decimal(n / 10)[i]);
            }
        }
    }
}

/// A number read back from its decimal notation is the number itself.
pub proof fn signed_decimal_reads_back(n: i32)
    ensures
        written_i32(signed_decimal(n as int)) == Some(n),
{
    let s = signed_decimal(n as int);
    if n < 0 {
        lemma_decimal_reads_back((-n) as nat);
        assert(s.drop_first() =~= decimal((-n) as nat));
    } else {
        lemma_decimal_reads_back(n as nat);
        assert(is_digit(s[0]));
    }
}

/// The notation of a number begins with a zero only where the number is zero.
pub proof fn only_zero_begins_with_zero(n: int)
    ensures
        signed_decimal(n).len() > 0,
        signed_decimal(n)[0] == '0' <==> n == 0,
{
    if n < 0 {
        assert(signed_decimal(n)[0] == '-');
    } else {
        lemma_first_digit(n as nat);
    }
}

proof fn lemma_first_digit(n: nat)
    ensures
        decimal(n).len() > 0,
        decimal(n)[0] == '0' <==> n == 0,
    decreases n,
{
    if n < 10 {
        assert(decimal(n)[0] as int == n + 48);
    } else {
        lemma_first_digit(n / 10);
        assert(decimal(n)[0] == decimal(n / 10)[0]);
    }
}

/// A number is read from its digits, in base ten, whatever zeros stand before them; a sign before
/// them makes it that number or its opposite.
pub proof fn numbers_are_read_in_base_ten(digits: Seq<char>, digit: char)
    requires
        all_digits(digits),
        '0' <= digit && digit <= '9',
    ensures
        written_number(digits.push(digit)) == Some(
            written_number(digits)->0 * 10 + (digit as int - '0' as int),
        ),
        written_number(seq!['-'] + digits) == Some(-(written_number(digits)->0)),
        written_number(seq!['+'] + digits) == written_number(digits),
        written_number(seq!['0'] + digits) == written_number(digits),
    decreases digits.len(),
{
    let longer = digits.push(digit);
    assert(longer.drop_last() =~= digits);
    assert(is_digit(digits[0]));
    assert(longer[0] == digits[0]);
    assert(all_digits(longer)) by {
        assert forall|i: int| 0 <= i < longer.len() implies is_digit(#[trigger] longer[i]) by {
            if i < digits.len() {
                assert(longer[i] == digits[i]);
            }
        }
    }
    assert((seq!['-'] + digits).drop_first() =~= digits);
    assert((seq!['+'] + digits).drop_first() =~= digits);
    lemma_leading_zero(digits);
}

proof fn lemma_leading_zero(digits: Seq<char>)
    requires
        all_digits(digits),
    ensures
        all_digits(seq!['0'] + digits),
        digits_value(seq!['0'] + digits) == digits_value(digits),
    decreases digits.len(),
{
    let longer = seq!['0'] + digits;
    assert forall|i: int| 0 <= i < longer.len() implies is_digit(#[trigger] longer[i]) by {
        if i > 0 {
            assert(longer[i] == digits[i - 1]);
        }
    }
    assert(longer.last() == digits.last());
    assert(longer.drop_last() =~= seq!['0'] + digits.drop_last());
    if digits.len() == 1 {
        assert(longer.drop_last() =~= seq!['0']);
        assert(seq!['0'].drop_last() =~= seq![]);
        assert(digits.drop_last() =~= seq![]);
        reveal_with_fuel(digits_value, 3);
    } else {
        let init = digits.drop_last();
        assert forall|i: int| 0 <= i < init.len() implies is_digit(#[trigger] init[i]) by {
            assert(init[i] == digits[i]);
        }
        lemma_leading_zero(init);
    }
}

} // verus!
