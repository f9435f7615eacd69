//! Splitting a dimension such as `12px` into its number and its unit.

use vstd::prelude::*;
use vstd::string::StringSliceAdditionalSpecFns;
use vstd::utf8::{decode_utf8_split, encode_utf8_decode_utf8, encode_utf8_valid_utf8};
use crate::ascii::{
    is_digit, is_exponent_mark, is_sign, DIGIT_0, DIGIT_9, DOT, LOWER_E, MINUS, PLUS, UPPER_E,
};
use crate::text::lemma_boundary_after_ascii;

verus! {

/// A dimension, split into its number and its unit. Both are slices of the
/// text that was split.
#[derive(Debug, Clone, PartialEq, Eq)]
pub struct Dimension<'a> {
    pub number: &'a str,
    pub unit: &'a str,
}

impl<'a> Dimension<'a> {
    /// The dimension with the given number and unit.
    pub fn new(number: &'a str, unit: &'a str) -> (dimension: Self)
        ensures
            dimension.number == number,
            dimension.unit == unit,
    {
        Self { number, unit }
    }
}

/// The text starts a number: an optional sign, then a digit, or a dot and a
/// digit.
pub open spec fn starts_number(s: Seq<u8>) -> bool {
    let i = after_sign(s);
    ||| i < s.len() && is_digit(s[i])
    ||| i + 1 < s.len() && s[i] == DOT && is_digit(s[i + 1])
}

/// The index after the sign that the text may start with.
pub open spec fn after_sign(s: Seq<u8>) -> int {
    if s.len() > 0 && is_sign(s[0]) {
        1
    } else {
        0
    }
}

/// The end of the run of digits that starts at `i`.
pub open spec fn digits_end(s: Seq<u8>, i: int) -> int
    decreases s.len() - i,
{
    if 0 <= i < s.len() && is_digit(s[i]) {
        digits_end(s, i + 1)
    } else {
        i
    }
}

/// The index after the fraction that may stand at `i`: a dot and one or more
/// digits.
pub open spec fn after_fraction(s: Seq<u8>, i: int) -> int {
    if 0 <= i && i + 1 < s.len() && s[i] == DOT && is_digit(s[i + 1]) {
        digits_end(s, i + 2)
    } else {
        i
    }
}

/// The index after the exponent that may stand at `i`: `e` or `E`, an
/// optional sign, and one or more digits.
pub open spec fn after_exponent(s: Seq<u8>, i: int) -> int {
    if 0 <= i && i + 1 < s.len() && is_exponent_mark(s[i]) && is_digit(s[i + 1]) {
        digits_end(s, i + 2)
    } else if 0 <= i && i + 2 < s.len() && is_exponent_mark(s[i]) && is_sign(s[i + 1])
        && is_digit(s[i + 2]) {
        digits_end(s, i + 3)
    } else {
        i
    }
}

/// Where the number at the start of the text ends: after the sign, the
/// digits, one fraction and one exponent, each as far as it is there.
pub open spec fn number_end(s: Seq<u8>) -> int {
    after_exponent(s, after_fraction(s, digits_end(s, after_sign(s))))
}

/// A run of digits ends within the text, and holds digits only.
pub proof fn lemma_digits_end(s: Seq<u8>, i: int)
    requires
        0 <= i <= s.len(),
    ensures
        i <= digits_end(s, i) <= s.len(),
        forall|j: int| i <= j < digits_end(s, i) ==> is_digit(#[trigger] s[j]),
        digits_end(s, i) < s.len() ==> !is_digit(s[digits_end(s, i)]),
    decreases s.len() - i,
{
    if i < s.len() && is_digit(s[i]) {
        lemma_digits_end(s, i + 1);
    }
}

/// A number is not empty, ends within the text, and ends with an ASCII byte.
pub proof fn lemma_number_end(s: Seq<u8>)
    requires
        starts_number(s),
    ensures
        0 < number_end(s) <= s.len(),
        s[number_end(s) - 1] < 0x80,
{
    let a = after_sign(s);
    lemma_digits_end(s, a);
    let b = digits_end(s, a);
    if b + 2 <= s.len() {
        lemma_digits_end(s, b + 2);
    }
    let c = after_fraction(s, b);
    if c + 2 <= s.len() {
        lemma_digits_end(s, c + 2);
    }
    if c + 3 <= s.len() {
        lemma_digits_end(s, c + 3);
    }
    // Whichever part comes last, it ends with a digit, or it is the sign or
    // the dot that the text starts with.
}

/// Whether `value` starts a number.
pub fn start_a_number(value: &str) -> (starts: bool)
    ensures
        starts == starts_number(value.spec_bytes()),
{
    let bytes = value.as_bytes();
    let len: usize = bytes.len();
    let first: usize = if len > 0 && (bytes[0] == PLUS || bytes[0] == MINUS) {
        1
    } else {
        0
    };
    if first < len && DIGIT_0 <= bytes[first] && bytes[first] <= DIGIT_9 {
        true
    } else {
        len - first > 1 && bytes[first] == DOT && DIGIT_0 <= bytes[first + 1] && bytes[first + 1]
            <= DIGIT_9
    }
}

/// The end of the run of digits of `bytes` that starts at `from`.
fn skip_digits(bytes: &[u8], from: usize) -> (end: usize)
    requires
        from <= bytes@.len(),
    ensures
        end == digits_end(bytes@, from as int),
        from <= end <= bytes@.len(),
{
    let mut pos: usize = from;
    while pos < bytes.len() && DIGIT_0 <= bytes[pos] && bytes[pos] <= DIGIT_9
        invariant
            from <= pos <= bytes@.len(),
            digits_end(bytes@, pos as int) == digits_end(bytes@, from as int),
        decreases bytes@.len() - pos,
    {
        pos += 1;
    }
    pos
}

/// Splits a dimension into its number and its unit: `None` if `value` does
/// not start a number, and otherwise the number at the start of `value` and
/// what follows it.
pub fn unit<'a>(value: &'a str) -> (dimension: Option<Dimension<'a>>)
    ensures
        dimension is None <==> !starts_number(value.spec_bytes()),
        dimension matches Some(d) ==> {
            &&& d.number.spec_bytes() == value.spec_bytes().subrange(
                0,
                number_end(value.spec_bytes()),
            )
            &&& d.unit.spec_bytes() == value.spec_bytes().subrange(
                number_end(value.spec_bytes()),
                value.spec_bytes().len() as int,
            )
            &&& d.number.spec_bytes() + d.unit.spec_bytes() == value.spec_bytes()
            &&& d.number@ + d.unit@ == value@
        },
{
    if !start_a_number(value) {
        return None;
    }
    let ghost s = value.spec_bytes();
    let bytes = value.as_bytes();
    let len: usize = bytes.len();
    let mut pos: usize = 0;
    if bytes[0] == PLUS || bytes[0] == MINUS {
        pos += 1;
    }
    pos = skip_digits(bytes, pos);
    if len - pos > 1 && bytes[pos] == DOT && DIGIT_0 <= bytes[pos + 1] && bytes[pos + 1]
        <= DIGIT_9 {
        pos = skip_digits(bytes, pos + 2);
    }
    if len - pos > 1 && (bytes[pos] == LOWER_E || bytes[pos] == UPPER_E) {
        if DIGIT_0 <= bytes[pos + 1] && bytes[pos + 1] <= DIGIT_9 {
            pos = skip_digits(bytes, pos + 2);
        } else if len - pos > 2 && (bytes[pos + 1] == PLUS || bytes[pos + 1] == MINUS) && DIGIT_0
            <= bytes[pos + 2] && bytes[pos + 2] <= DIGIT_9 {
            pos = skip_digits(bytes, pos + 3);
        }
    }
    proof {
        lemma_number_end(s);
        encode_utf8_valid_utf8(value@);
        lemma_boundary_after_ascii(s, pos - 1);
    }
    let (number, unit) = value.split_at(pos);
    proof {
        decode_utf8_split(s, pos as int);
        encode_utf8_decode_utf8(value@);
        encode_utf8_decode_utf8(number@);
        encode_utf8_decode_utf8(unit@);
    }
    Some(Dimension::new(number, unit))
}

} // verus!
