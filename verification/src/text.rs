//! Decimal numerals and white space in text: what they mean, and the
//! standard library's functions that read, write and strip them.

use std::num::ParseIntError;
use vstd::prelude::*;

verus! {

/// `c` is one of the ten decimal digits `0` to `9`.
pub open spec fn is_digit(c: char) -> bool {
    '0' <= c <= '9'
}

/// The value of the decimal digit `c`.
pub open spec fn digit_value(c: char) -> int {
    c as int - '0' as int
}

/// The decimal digit of the value `d`, for `d` from 0 to 9.
pub open spec fn digit_char(d: int) -> char {
    seq!['0', '1', '2', '3', '4', '5', '6', '7', '8', '9'][d]
}

/// `s` is a run of one or more decimal digits.
pub open spec fn is_digits(s: Seq<char>) -> bool {
    s.len() >= 1 && forall|i: int| 0 <= i < s.len() ==> is_digit(#[trigger] s[i])
}

/// The number that a run of decimal digits denotes.
pub open spec fn digits_value(s: Seq<char>) -> int
    decreases s.len(),
{
    if s.len() == 0 {
        0
    } else {
        10 * digits_value(s.drop_last()) + digit_value(s.last())
    }
}

/// The integer that `s` denotes as a decimal numeral: one optional sign, `+`
/// or `-`, and then one or more digits, with nothing before, between or
/// after. `None` where `s` is no such numeral.
pub open spec fn decimal_value(s: Seq<char>) -> Option<int> {
    if s.len() >= 1 && s[0] == '-' {
        if is_digits(s.skip(1)) {
            Some(-digits_value(s.skip(1)))
        } else {
            None
        }
    } else if s.len() >= 1 && s[0] == '+' {
        if is_digits(s.skip(1)) {
            Some(digits_value(s.skip(1)))
        } else {
            None
        }
    } else if is_digits(s) {
        Some(digits_value(s))
    } else {
        None
    }
}

/// The integer that `s` denotes as a decimal numeral, where that integer
/// fits the 32-bit machine integer; `None` otherwise.
pub open spec fn decimal_i32(s: Seq<char>) -> Option<int> {
    match decimal_value(s) {
        Some(v) => if i32::MIN <= v <= i32::MAX {
            Some(v)
        } else {
            None
        },
        None => None,
    }
}

/// The digits of a natural number, most significant first, without leading
/// zeros.
pub open spec fn digits_text(n: int) -> Seq<char>
    decreases n,
{
    if n < 10 {
        seq![digit_char(n)]
    } else {
        digits_text(n / 10).push(digit_char(n % 10))
    }
}

/// The decimal numeral of `n`: its digits, after a `-` where `n` is
/// negative.
pub open spec fn decimal_text(n: int) -> Seq<char> {
    if n < 0 {
        seq!['-'] + digits_text(-n)
    } else {
        digits_text(n)
    }
}

/// The digits written for a natural number are digits, and they denote that
/// number.
pub proof fn lemma_digits_text(n: int)
    requires
        n >= 0,
    ensures
        is_digits(digits_text(n)),
        digits_value(digits_text(n)) == n,
    decreases n,
{
    let s = digits_text(n);
    if n < 10 {
        assert(s.drop_last() =~= Seq::<char>::empty());
        assert(digits_value(s.drop_last()) == 0);
        assert(s.last() == digit_char(n));
    } else {
        lemma_digits_text(n / 10);
        let head = digits_text(n / 10);
        assert(s.drop_last() =~= head);
        assert(s.last() == digit_char(n % 10));
        assert forall|i: int| 0 <= i < s.len() implies is_digit(#[trigger] s[i]) by {
            if i < head.len() {
                assert(s[i] == head[i]);
            }
        }
    }
}

/// What is written is read back: the decimal numeral of a 32-bit integer
/// denotes that integer.
pub proof fn lemma_decimal_round_trip(n: int)
    requires
        i32::MIN <= n <= i32::MAX,
    ensures
        decimal_i32(decimal_text(n)) == Some(n),
{
    let s = decimal_text(n);
    if n < 0 {
        lemma_digits_text(-n);
        assert(s.skip(1) =~= digits_text(-n));
    } else {
        lemma_digits_text(n);
        assert(is_digit(s[0]));
    }
}

/// `c` is white space: a character with the Unicode property `White_Space`.
pub open spec fn is_whitespace(c: char) -> bool {
    ||| '\u{9}' <= c <= '\u{d}'
    ||| c == ' '
    ||| c == '\u{85}'
    ||| c == '\u{a0}'
    ||| c == '\u{1680}'
    ||| '\u{2000}' <= c <= '\u{200a}'
    ||| c == '\u{2028}'
    ||| c == '\u{2029}'
    ||| c == '\u{202f}'
    ||| c == '\u{205f}'
    ||| c == '\u{3000}'
}

/// `s` without the white space at its start.
pub open spec fn trimmed_start(s: Seq<char>) -> Seq<char>
    decreases s.len(),
{
    if s.len() >= 1 && is_whitespace(s.first()) {
        trimmed_start(s.drop_first())
    } else {
        s
    }
}

/// `s` without the white space at its end.
pub open spec fn trimmed_end(s: Seq<char>) -> Seq<char>
    decreases s.len(),
{
    if s.len() >= 1 && is_whitespace(s.last()) {
        trimmed_end(s.drop_last())
    } else {
        s
    }
}

/// `s` without the white space at its start and at its end.
pub open spec fn trimmed(s: Seq<char>) -> Seq<char> {
    trimmed_end(trimmed_start(s))
}

/// The position of the first space in `s`, or the length of `s` where it
/// holds no space.
pub open spec fn first_space(s: Seq<char>) -> int
    decreases s.len(),
{
    if s.len() == 0 || s[0] == ' ' {
        0
    } else {
        1 + first_space(s.skip(1))
    }
}

/// The fields of `s`: the pieces between its spaces, in order. Every single
/// space separates two fields, so `s` has one field more than it has
/// spaces, and a field is empty where a space stands at an end of `s` or
/// next to another space.
pub open spec fn fields(s: Seq<char>) -> Seq<Seq<char>>
    decreases s.len(),
{
    let k = first_space(s);
    if 0 <= k < s.len() {
        seq![s.take(k)] + fields(s.skip(k + 1))
    } else {
        seq![s]
    }
}

/// What [`first_space`] is: a position within `s` or its length, with a
/// space at it in the first case and none before it; and the only such
/// position.
pub proof fn lemma_first_space(s: Seq<char>, k: int)
    ensures
        0 <= first_space(s) <= s.len(),
        first_space(s) < s.len() ==> s[first_space(s)] == ' ',
        forall|i: int| 0 <= i < first_space(s) ==> s[i] != ' ',
        ({
            &&& 0 <= k <= s.len()
            &&& k < s.len() ==> s[k] == ' '
            &&& forall|i: int| 0 <= i < k ==> s[i] != ' '
        }) ==> first_space(s) == k,
    decreases s.len(),
{
    if s.len() == 0 || s[0] == ' ' {
    } else {
        let t = s.skip(1);
        lemma_first_space(t, k - 1);
        assert forall|i: int| 0 <= i < first_space(s) implies s[i] != ' ' by {
            if i > 0 {
                assert(t[i - 1] == s[i]);
            }
        }
        if 0 <= k <= s.len() && (k < s.len() ==> s[k] == ' ') && (forall|i: int|
            0 <= i < k ==> s[i] != ' ') {
            assert(s[0] != ' ');
            assert(k >= 1);
            assert forall|i: int| 0 <= i < k - 1 implies t[i] != ' ' by {
                assert(t[i] == s[i + 1]);
            }
        }
    }
}

/// How [`fields`] begins: with the text before the first space, and, where
/// there is a space, it goes on with the fields of the text after that
/// space.
pub proof fn lemma_fields(s: Seq<char>)
    ensures
        fields(s).len() >= 1,
        fields(s)[0] == s.take(first_space(s)),
        first_space(s) >= s.len() ==> fields(s) == seq![s],
        first_space(s) < s.len() ==> fields(s) == seq![s.take(first_space(s))] + fields(
            s.skip(first_space(s) + 1),
        ),
        first_space(s) < s.len() ==> fields(s).len() == 1 + fields(
            s.skip(first_space(s) + 1),
        ).len(),
{
    lemma_first_space(s, 0);
    let k = first_space(s);
    if k >= s.len() {
        assert(s.take(k) =~= s);
    }
}

/// `std::num::ParseIntError`, the failure of the standard library's integer
/// parser. It is carried as it comes; nothing is read from it.
#[verifier::external_type_specification]
#[verifier::external_body]
pub struct ExParseIntError(ParseIntError);

/// Finds the first space of `s`: its position counted in characters, or the
/// length of `s` where it holds no space.
pub fn find_space(s: &str) -> (at: usize)
    ensures
        at == first_space(s@),
{
    let n = s.unicode_len();
    let mut at: usize = 0;
    for c in it: s.chars()
        invariant
            it.seq() == s@,
            n == s@.len(),
            at == it.index(),
            forall|i: int| 0 <= i < at ==> s@[i] != ' ',
    {
        if c == ' ' {
            proof {
                lemma_first_space(s@, at as int);
            }
            return at;
        }
        at = at + 1;
    }
    proof {
        lemma_first_space(s@, at as int);
    }
    at
}

/// Reads a 32-bit integer with `str::parse`. Not proved: that the standard
/// library accepts exactly the decimal numerals of [`decimal_i32`], which
/// are an optional sign and then digits, within the range of the type, and
/// that it returns the integer denoted.
#[verifier::external_body]
pub(crate) fn parse_i32(field: &str) -> (r: Result<i32, ParseIntError>)
    ensures
        match r {
            Ok(v) => decimal_i32(field@) == Some(v as int),
            Err(_) => decimal_i32(field@) is None,
        },
{
    field.parse::<i32>()
}

/// Writes a 32-bit integer with `i32::to_string`. Not proved: that the
/// standard library writes the decimal numeral of [`decimal_text`], digits
/// without leading zeros after a `-` for a negative integer.
#[verifier::external_body]
pub(crate) fn i32_to_string(n: i32) -> (s: String)
    ensures
        s@ == decimal_text(n as int),
{
    n.to_string()
}

/// Strips white space with `str::trim`. Not proved: that the standard
/// library removes, at both ends, exactly the characters of
/// [`is_whitespace`].
#[verifier::external_body]
pub(crate) fn trim(line: &str) -> (t: &str)
    ensures
        t@ == trimmed(line@),
{
    line.trim()
}

} // verus!
