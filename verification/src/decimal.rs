//! Decimal notation: from digit strings to integers and back.

use crate::error::ParseError;
use vstd::prelude::*;

verus! {

/// Whether `c` is one of the ten ASCII decimal digits.
pub open spec fn is_digit(c: char) -> bool {
    '0' <= c <= '9'
}

/// The number a decimal digit stands for.
pub open spec fn digit_value(c: char) -> nat
    recommends
        is_digit(c),
{
    (c as int - '0' as int) as nat
}

/// The digit that stands for `d`.
pub open spec fn digit_char(d: nat) -> char
    recommends
        d < 10,
{
    ('0' as int + d) as char
}

/// A digit string is a non-empty run of decimal digits: no sign, no blanks.
pub open spec fn is_digit_string(s: Seq<char>) -> bool {
    s.len() > 0 && forall|i: int| 0 <= i < s.len() ==> is_digit(#[trigger] s[i])
}

/// The number that a run of digits denotes in base ten; leading zeros count for nothing.
pub open spec fn decimal_value(s: Seq<char>) -> nat
    decreases s.len(),
{
    if s.len() == 0 {
        0
    } else {
        10 * decimal_value(s.drop_last()) + digit_value(s.last())
    }
}

/// What the text of an integer literal is worth: its value where the text is a digit
/// string that fits in an `i64`, and the reason for the refusal where it is not.
pub open spec fn literal_value(s: Seq<char>) -> Result<i64, ParseError> {
    if !is_digit_string(s) {
        Err(ParseError::ExpectedLiteral)
    } else if decimal_value(s) > i64::MAX {
        Err(ParseError::LiteralOutOfRange)
    } else {
        Ok(decimal_value(s) as i64)
    }
}

/// The shortest digit string that denotes `n`.
pub open spec fn decimal_digits(n: nat) -> Seq<char>
    decreases n,
{
    if n < 10 {
        seq![digit_char(n)]
    } else {
        decimal_digits(n / 10).push(digit_char(n % 10))
    }
}

/// The decimal text of an integer: a minus sign for a negative one, then its magnitude.
pub open spec fn decimal_text(v: int) -> Seq<char> {
    if v < 0 {
        seq!['-'] + decimal_digits((-v) as nat)
    } else {
        decimal_digits(v as nat)
    }
}

/// The bytes of a text made of ASCII characters.
pub open spec fn ascii_bytes(s: Seq<char>) -> Seq<u8> {
    s.map_values(|c: char| c as u8)
}

/// The line that printing `v` adds to the output: its decimal text and a line feed.
pub open spec fn decimal_line(v: i64) -> Seq<u8> {
    ascii_bytes(decimal_text(v as int)).push(10u8)
}

/// Appending one digit multiplies the value by ten and adds the digit.
pub proof fn lemma_decimal_value_push(s: Seq<char>, c: char)
    ensures
        decimal_value(s.push(c)) == 10 * decimal_value(s) + digit_value(c),
{
    assert(s.push(c).drop_last() =~= s);
}

/// Reading back the shortest notation of `n` gives `n`.
pub proof fn lemma_digits_round_trip(n: nat)
    ensures
        is_digit_string(decimal_digits(n)),
        decimal_value(decimal_digits(n)) == n,
    decreases n,
{
    if n < 10 {
        let s = decimal_digits(n);
        assert(s.drop_last() =~= Seq::<char>::empty());
        assert(decimal_value(s.drop_last()) == 0);
    } else {
        lemma_digits_round_trip(n / 10);
        lemma_decimal_value_push(decimal_digits(n / 10), digit_char(n % 10));
    }
}

/// Whether `c` is a decimal digit.
pub fn is_digit_char(c: char) -> (r: bool)
    ensures
        r == is_digit(c),
{
    '0' <= c && c <= '9'
}

/// Reads the text of an integer literal.
///
/// The text must be a non-empty run of ASCII digits; anything else is no literal. A run
/// of digits that denotes more than `i64::MAX` is out of range, however many leading
/// zeros it has or lacks.
pub fn parse_decimal(s: &str) -> (r: Result<i64, ParseError>)
    ensures
        r == literal_value(s@),
{
    let mut acc: i64 = 0;
    let mut too_large = false;
    let mut seen = false;
    for c in it: s.chars()
        invariant
            it.seq() == s@,
            seen == (it.index() > 0),
            forall|j: int| 0 <= j < it.index() ==> is_digit(#[trigger] s@[j]),
            acc >= 0,
            !too_large ==> acc == decimal_value(s@.take(it.index() as int)),
            too_large ==> decimal_value(s@.take(it.index() as int)) > i64::MAX,
    {
        if !is_digit_char(c) {
            return Err(ParseError::ExpectedLiteral);
        }
        let d: i64 = (c as u32 - '0' as u32) as i64;
        proof {
            let k = it.index() as int;
            assert(s@.take(k + 1) =~= s@.take(k).push(c));
            lemma_decimal_value_push(s@.take(k), c);
        }
        if !too_large {
            match acc.checked_mul(10) {
                Some(tens) => match tens.checked_add(d) {
                    Some(v) => {
                        acc = v;
                    },
                    None => {
                        too_large = true;
                    },
                },
                None => {
                    too_large = true;
                },
            }
        }
        seen = true;
    }
    proof {
        assert(s@.take(s@.len() as int) =~= s@);
    }
    if !seen {
        Err(ParseError::ExpectedLiteral)
    } else if too_large {
        Err(ParseError::LiteralOutOfRange)
    } else {
        Ok(acc)
    }
}

/// The magnitude of `v`, which for `i64::MIN` does not fit in an `i64`.
fn magnitude(v: i64) -> (m: u64)
    ensures
        m == if v < 0 {
            -(v as int)
        } else {
            v as int
        },
{
    if v < 0 {
        let below: i64 = -(v + 1);
        below as u64 + 1
    } else {
        v as u64
    }
}

/// Writes `v` in decimal, as ASCII bytes: a minus sign for a negative value, then the
/// digits of its magnitude with no leading zero.
pub fn format_decimal(v: i64) -> (out: Vec<u8>)
    ensures
        out@ == ascii_bytes(decimal_text(v as int)),
{
    let mag = magnitude(v);
    // Digits come out lowest first.
    let mut low_first: Vec<u8> = Vec::new();
    low_first.push(48u8 + (mag % 10) as u8);
    let mut rest: u64 = mag / 10;
    while rest > 0
        invariant
            low_first@.len() > 0,
            ascii_bytes(decimal_digits(mag as nat)) == if rest > 0 {
                ascii_bytes(decimal_digits(rest as nat)) + low_first@.reverse()
            } else {
                low_first@.reverse()
            },
        decreases rest,
    {
        let ghost before = low_first@;
        let digit: u8 = 48u8 + (rest % 10) as u8;
        low_first.push(digit);
        proof {
            assert(low_first@.reverse() =~= seq![digit] + before.reverse());
            let r = rest as nat;
            if r < 10 {
                assert(ascii_bytes(decimal_digits(r)) =~= seq![digit]);
            } else {
                assert(ascii_bytes(decimal_digits(r)) =~= ascii_bytes(decimal_digits(r / 10)).push(
                    digit,
                ));
                assert(ascii_bytes(decimal_digits(r / 10)).push(digit) + before.reverse()
                    =~= ascii_bytes(decimal_digits(r / 10)) + (seq![digit] + before.reverse()));
            }
        }
        rest = rest / 10;
    }
    let mut out: Vec<u8> = Vec::new();
    if v < 0 {
        out.push(45u8);
    }
    let ghost sign = out@;
    let mut i: usize = low_first.len();
    while i > 0
        invariant
            i <= low_first@.len(),
            out@ == sign + low_first@.reverse().take(low_first@.len() - i),
        decreases i,
    {
        i = i - 1;
        out.push(low_first[i]);
        proof {
            let n = low_first@.len() as int;
            assert(low_first@.reverse().take(n - i) =~= low_first@.reverse().take(n - i - 1).push(
                low_first@[i as int],
            ));
        }
    }
    proof {
        assert(low_first@.reverse().take(low_first@.len() as int) =~= low_first@.reverse());
        if v < 0 {
            assert(sign =~= ascii_bytes(seq!['-']));
            assert(ascii_bytes(seq!['-'] + decimal_digits(mag as nat)) =~= ascii_bytes(seq!['-'])
                + ascii_bytes(decimal_digits(mag as nat)));
        } else {
            assert(sign + low_first@.reverse() =~= low_first@.reverse());
        }
    }
    out
}

} // verus!
