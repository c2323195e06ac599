//! Numbers as decimal text.
use vstd::prelude::*;

use crate::text;

verus! {

pub open spec fn is_digit(c: char) -> bool {
    '0' <= c <= '9'
}

/// The character of a digit.
pub open spec fn digit(d: nat) -> char {
    (d + 48) as char
}

/// A number in decimal, without leading zeros.
pub open spec fn decimal(n: nat) -> Seq<char>
    decreases n,
{
    if n < 10 {
        seq![digit(n)]
    } else {
        decimal(n / 10).push(digit(n % 10))
    }
}

/// The number that digits stand for.
pub open spec fn value(digits: Seq<char>) -> nat
    decreases digits.len(),
{
    if digits.len() == 0 {
        0
    } else {
        value(digits.drop_last()) * 10 + (digits.last() as int - 48) as nat
    }
}

pub open spec fn all_digits(s: Seq<char>) -> bool {
    forall|i: int| 0 <= i < s.len() ==> is_digit(#[trigger] s[i])
}

/// The digits of a number that may have a plus sign before them.
pub open spec fn without_sign(s: Seq<char>) -> Seq<char> {
    if s.len() > 0 && s[0] == '+' {
        s.skip(1)
    } else {
        s
    }
}

/// The number that a text stands for: one or more digits with or without a plus
/// sign before them, of a number that is not too large.
pub open spec fn parsed(s: Seq<char>) -> Option<u64> {
    let digits = without_sign(s);
    if digits.len() > 0 && all_digits(digits) && value(digits) <= u64::MAX {
        Some(value(digits) as u64)
    } else {
        None
    }
}

/// A number in decimal has digits only, at least one, and they stand for the number.
pub proof fn lemma_decimal_digits(n: nat)
    ensures
        decimal(n).len() > 0,
        all_digits(decimal(n)),
        value(decimal(n)) == n,
    decreases n,
{
    if n < 10 {
        assert(decimal(n).drop_last() =~= Seq::empty());
        assert(value(decimal(n).drop_last()) == 0);
    } else {
        lemma_decimal_digits(n / 10);
        assert(decimal(n).drop_last() =~= decimal(n / 10));
    }
}

/// How a number is written: a number below ten is its digit, and a digit behind a number
/// other than zero makes ten times the number and the digit. So there are no leading zeros.
pub proof fn lemma_decimal_more(n: nat, d: nat)
    requires
        d < 10,
    ensures
        decimal(d) == seq![('0' as int + d) as char],
        n > 0 ==> decimal(10 * n + d) == decimal(n).push(('0' as int + d) as char),
{
    if n > 0 {
        assert((10 * n + d) / 10 == n && (10 * n + d) % 10 == d);
    }
}

/// A number in decimal stands for that number.
pub proof fn lemma_decimal_parsed(n: u64)
    ensures
        parsed(decimal(n as nat)) == Some(n),
{
    lemma_decimal_digits(n as nat);
    assert(is_digit(decimal(n as nat)[0]));
}

/// What is a number: digits, with or without a plus sign before them, and nothing else.
pub proof fn lemma_parsed_digits(s: Seq<char>)
    requires
        parsed(s) is Some,
    ensures
        s.len() > 0,
        '0' <= s.last() <= '9',
        forall|i: int| 1 <= i < s.len() ==> '0' <= #[trigger] s[i] <= '9',
        s[0] == '+' || '0' <= s[0] <= '9',
{
    let digits = without_sign(s);
    if s[0] == '+' {
        assert forall|i: int| 1 <= i < s.len() implies '0' <= #[trigger] s[i] <= '9' by {
            assert(is_digit(digits[i - 1]));
        }
        assert(s.last() == digits[digits.len() - 1]);
    } else {
        assert forall|i: int| 0 <= i < s.len() implies '0' <= #[trigger] s[i] <= '9' by {
            assert(is_digit(digits[i]));
        }
        assert(s.last() == s[s.len() - 1]);
    }
}

/// A digit more makes ten times the number and the digit, or too large a number.
pub proof fn lemma_digit_more(s: Seq<char>, c: char, n: u64)
    requires
        parsed(s) == Some(n),
        '0' <= c <= '9',
    ensures
        parsed(s.push(c)) == if n * 10 + (c as int - 48) <= u64::MAX {
            Some((n * 10 + (c as int - 48)) as u64)
        } else {
            None
        },
{
    let digits = without_sign(s);
    let more = without_sign(s.push(c));
    assert(s.push(c)[0] == s[0]);
    assert(more =~= digits.push(c));
    assert(more.drop_last() =~= digits);
    assert(all_digits(more)) by {
        assert forall|i: int| 0 <= i < more.len() implies is_digit(#[trigger] more[i]) by {
            if i < digits.len() {
                assert(digits[i] == more[i]);
            }
        }
    }
}

proof fn lemma_value_grows(digits: Seq<char>, i: int)
    requires
        all_digits(digits),
        0 <= i <= digits.len(),
    ensures
        value(digits.take(i)) <= value(digits),
    decreases digits.len(),
{
    if i == digits.len() {
        assert(digits.take(i) =~= digits);
    } else {
        let front = digits.drop_last();
        assert(front.take(i) =~= digits.take(i));
        assert forall|k: int| 0 <= k < front.len() implies is_digit(#[trigger] front[k]) by {
            assert(front[k] == digits[k]);
        }
        lemma_value_grows(front, i);
        assert(is_digit(digits[digits.len() - 1]));
    }
}

/// The character of a digit.
fn digit_char(d: u64) -> (r: char)
    requires
        d < 10,
    ensures
        r == digit(d as nat),
{
    (d as u8 + 48) as char
}

/// Puts a number in decimal at the end of a string.
pub fn push_decimal(out: &mut String, n: u64)
    ensures
        final(out)@ == old(out)@ + decimal(n as nat),
    decreases n,
{
    if n >= 10 {
        push_decimal(out, n / 10);
    }
    out.push(digit_char(n % 10));
    assert(out@ =~= old(out)@ + decimal(n as nat));
}

/// Reads a number in decimal.
pub fn parse_u64(s: &str) -> (r: Option<u64>)
    ensures
        r == parsed(s@),
{
    let chars: Vec<char> = text::to_chars(s);
    let start: usize = if chars.len() > 0 && chars[0] == '+' {
        1
    } else {
        0
    };
    let ghost digits = without_sign(s@);
    assert(digits =~= s@.skip(start as int));
    if chars.len() == start {
        return None;
    }
    let mut n: u64 = 0;
    let mut i: usize = start;
    assert(digits.take(0) =~= Seq::empty());
    while i < chars.len()
        invariant
            chars@ == s@,
            digits == without_sign(s@),
            digits == s@.skip(start as int),
            start <= i <= chars@.len(),
            n == value(digits.take(i - start)),
            forall|k: int| 0 <= k < i - start ==> is_digit(#[trigger] digits[k]),
        decreases chars@.len() - i,
    {
        let c: char = chars[i];
        let ghost at = i - start;
        assert(c == digits[at]);
        if !('0' <= c && c <= '9') {
            return None;
        }
        let d: u64 = (c as u32 - 48) as u64;
        assert(digits.take(at + 1).drop_last() =~= digits.take(at));
        assert(value(digits.take(at + 1)) == n * 10 + d);
        if n > (u64::MAX - d) / 10 {
            proof {
                if all_digits(digits) {
                    lemma_value_grows(digits, at + 1);
                }
            }
            return None;
        }
        n = n * 10 + d;
        i += 1;
    }
    assert(digits.take(i - start) =~= digits);
    Some(n)
}

} // verus!
