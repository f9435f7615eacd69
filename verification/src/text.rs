//! Facts about character boundaries in UTF-8 text.
//!
//! Every `&str` holds valid UTF-8, and may only be cut between two
//! characters. The scanner works on bytes, so it has to show that each place
//! where it cuts the input is such a boundary. All its cuts fall at the start
//! or end of the text, before a byte that is not a continuation byte, or right
//! after an ASCII byte; the lemmas here cover these cases.

use vstd::prelude::*;
use vstd::utf8::{
    is_char_boundary, is_char_boundary_iff_not_is_continuation_byte,
    is_char_boundary_start_end_of_seq, is_continuation_byte, pop_first_scalar, valid_first_scalar,
    valid_utf8, valid_utf8_split,
};

verus! {

/// In valid UTF-8, an index that holds anything but a continuation byte is a
/// character boundary, and so are both ends of the text.
pub proof fn lemma_boundary_at(s: Seq<u8>, i: int)
    requires
        valid_utf8(s),
        0 <= i <= s.len(),
        i < s.len() ==> !is_continuation_byte(s[i]),
    ensures
        is_char_boundary(s, i),
{
    if i < s.len() {
        is_char_boundary_iff_not_is_continuation_byte(s, i);
    } else {
        is_char_boundary_start_end_of_seq(s);
    }
}

/// In valid UTF-8, the index right after an ASCII byte is a character
/// boundary.
pub proof fn lemma_boundary_after_ascii(s: Seq<u8>, i: int)
    requires
        valid_utf8(s),
        0 <= i < s.len(),
        s[i] < 0x80,
    ensures
        is_char_boundary(s, i + 1),
{
    lemma_boundary_at(s, i);
    valid_utf8_split(s, i);
    // The text from `i` on is valid and starts with a character of one byte,
    // so the text from `i + 1` on is valid too.
    let tail = s.subrange(i, s.len() as int);
    let rest = s.subrange(i + 1, s.len() as int);
    assert(valid_first_scalar(tail) && valid_utf8(pop_first_scalar(tail)));
    assert(pop_first_scalar(tail) =~= rest);
    if i + 1 < s.len() {
        // It is not empty, so it starts with the first byte of a character.
        assert(rest[0] == s[i + 1]);
        assert(valid_first_scalar(rest));
    }
    lemma_boundary_at(s, i + 1);
}

/// A character boundary of a text is also one of each prefix that reaches it,
/// provided the prefix itself ends on a boundary.
pub proof fn lemma_boundary_in_prefix(s: Seq<u8>, i: int, end: int)
    requires
        valid_utf8(s),
        0 <= i <= end <= s.len(),
        is_char_boundary(s, i),
        is_char_boundary(s, end),
    ensures
        valid_utf8(s.subrange(0, end)),
        is_char_boundary(s.subrange(0, end), i),
{
    valid_utf8_split(s, end);
    let prefix = s.subrange(0, end);
    if i < end {
        is_char_boundary_iff_not_is_continuation_byte(s, i);
        assert(prefix[i] == s[i]);
    }
    lemma_boundary_at(prefix, i);
}

} // verus!
