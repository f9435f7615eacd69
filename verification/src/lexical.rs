//! The lexical grammar: which token starts at a given offset of the input.
//!
//! Everything here is specification. The input is a sequence of bytes `s`;
//! [`token_at`] says which token starts at offset `p`, and [`tokens_from`]
//! lists the tokens from `p` to the end of the input.

use vstd::prelude::*;
use vstd::utf8::{is_char_boundary, valid_utf8};
use crate::ascii::{
    is_hex_digit, BACKSLASH, CLOSE_PAREN, COLON, COMMA, DOUBLE_QUOTE, LOWER_U, MINUS, OPEN_PAREN,
    PLUS, QUESTION, SINGLE_QUOTE, SLASH, SPACE, STAR, UPPER_U,
};
use crate::text::{lemma_boundary_after_ascii, lemma_boundary_at};
use crate::tokenizer::{TokenType, TokenView};

verus! {

/// The byte at index `n`, or 0 past the end of the input.
pub open spec fn byte_at(s: Seq<u8>, n: int) -> u8 {
    if 0 <= n < s.len() {
        s[n]
    } else {
        0
    }
}

/// A byte that starts a run of white space.
pub open spec fn starts_space(b: u8) -> bool {
    b <= SPACE
}

/// A byte that continues a run of white space.
pub open spec fn is_space(b: u8) -> bool {
    1 <= b <= SPACE
}

/// A quote, single or double.
pub open spec fn is_quote(b: u8) -> bool {
    b == SINGLE_QUOTE || b == DOUBLE_QUOTE
}

/// One of the dividers `/`, `,` and `:`.
pub open spec fn is_divider(b: u8) -> bool {
    b == SLASH || b == COMMA || b == COLON
}

/// A byte that cannot be part of a word unless a backslash precedes it.
pub open spec fn ends_word(b: u8) -> bool {
    b <= SPACE || is_quote(b) || is_divider(b) || b == STAR || b == OPEN_PAREN || b == CLOSE_PAREN
}

/// A comment opens at `p`: the two bytes there are `/*`.
pub open spec fn opens_comment(s: Seq<u8>, p: int) -> bool {
    0 <= p && p + 1 < s.len() && s[p] == SLASH && s[p + 1] == STAR
}

/// The end of the run of white-space bytes that starts at `i`.
pub open spec fn space_end(s: Seq<u8>, i: int) -> int
    decreases s.len() - i,
{
    if 0 <= i < s.len() && is_space(s[i]) {
        space_end(s, i + 1)
    } else {
        i
    }
}

/// The number of consecutive backslashes that stand right before index `i`.
pub open spec fn backslashes_before(s: Seq<u8>, i: int) -> nat
    decreases i,
{
    if 0 < i <= s.len() && s[i - 1] == BACKSLASH {
        1 + backslashes_before(s, i - 1)
    } else {
        0
    }
}

/// The byte at `i` is `quote` and closes a string: the number of backslashes
/// right before it is even.
pub open spec fn closes_string(s: Seq<u8>, quote: u8, i: int) -> bool {
    0 <= i < s.len() && s[i] == quote && backslashes_before(s, i) % 2 == 0
}

/// The end of a string whose body starts at `i`: one past the first closing
/// `quote` at or after `i`, or the end of the input if there is none.
pub open spec fn string_end(s: Seq<u8>, quote: u8, i: int) -> int
    decreases s.len() - i,
{
    if i < 0 || i >= s.len() {
        s.len() as int
    } else if closes_string(s, quote, i) {
        i + 1
    } else {
        string_end(s, quote, i + 1)
    }
}

/// `*/` stands at index `i`.
pub open spec fn closes_comment(s: Seq<u8>, i: int) -> bool {
    0 <= i && i + 2 <= s.len() && s[i] == STAR && s[i + 1] == SLASH
}

/// The index of the first `*/` at or after `i`, or the length of the input if
/// there is none.
pub open spec fn comment_close(s: Seq<u8>, i: int) -> int
    decreases s.len() - i,
{
    if i < 0 || i + 2 > s.len() {
        s.len() as int
    } else if closes_comment(s, i) {
        i
    } else {
        comment_close(s, i + 1)
    }
}

/// The end of the run of word bytes that starts at `i`. A backslash takes the
/// byte after it along, whatever that byte is; a backslash that is the last
/// byte of the input stands alone.
pub open spec fn word_end(s: Seq<u8>, i: int) -> int
    decreases s.len() - i,
{
    if i < 0 || i >= s.len() {
        s.len() as int
    } else if ends_word(s[i]) {
        i
    } else if s[i] == BACKSLASH && i + 1 < s.len() {
        word_end(s, i + 2)
    } else {
        word_end(s, i + 1)
    }
}

/// The text has the form of a unicode range: `u` or `U`, then `+`, then one
/// or more hexadecimal digits, question marks and hyphens.
pub open spec fn is_unicode_range(w: Seq<u8>) -> bool {
    &&& w.len() >= 3
    &&& (w[0] == LOWER_U || w[0] == UPPER_U)
    &&& w[1] == PLUS
    &&& forall|i: int|
        2 <= i < w.len() ==> is_hex_digit(#[trigger] w[i]) || w[i] == QUESTION || w[i] == MINUS
}

/// The token that starts at `p` is found by scanning a word: the byte at
/// `p` starts neither white space, a string, a comment, a divider nor a
/// parenthesis.
pub open spec fn scans_word(s: Seq<u8>, p: int) -> bool
    recommends
        0 <= p < s.len(),
{
    let b = s[p];
    !starts_space(b) && !is_quote(b) && !is_divider(b) && b != OPEN_PAREN && b != CLOSE_PAREN
}

/// The kind of the token that starts at `p`.
pub open spec fn token_kind(s: Seq<u8>, p: int) -> TokenType
    recommends
        0 <= p < s.len(),
{
    let b = s[p];
    if starts_space(b) {
        TokenType::Space
    } else if is_quote(b) {
        TokenType::String
    } else if opens_comment(s, p) {
        TokenType::Comment
    } else if is_divider(b) {
        TokenType::Div
    } else if b == OPEN_PAREN {
        TokenType::OpenParentheses
    } else if b == CLOSE_PAREN {
        TokenType::CloseParentheses
    } else if is_unicode_range(s.subrange(p, token_end(s, p))) {
        TokenType::UnicodeRange
    } else {
        TokenType::Word
    }
}

/// The offset at which the token that starts at `p` ends, and the next one
/// starts.
pub open spec fn token_end(s: Seq<u8>, p: int) -> int
    recommends
        0 <= p < s.len(),
{
    let b = s[p];
    if starts_space(b) {
        space_end(s, p + 1)
    } else if is_quote(b) {
        string_end(s, b, p + 1)
    } else if opens_comment(s, p) {
        let close = comment_close(s, p + 1);
        if close < s.len() {
            close + 2
        } else {
            close
        }
    } else if is_divider(b) || b == OPEN_PAREN || b == CLOSE_PAREN {
        p + 1
    } else if word_end(s, p) == p {
        p + 1
    } else {
        word_end(s, p)
    }
}

/// The content of the token that starts at `p`: the bytes that the token
/// covers, but for a comment, whose content is what stands between `/*` and
/// `*/`.
pub open spec fn token_content(s: Seq<u8>, p: int) -> Seq<u8>
    recommends
        0 <= p < s.len(),
{
    if token_kind(s, p) == TokenType::Comment {
        let close = comment_close(s, p + 1);
        if close < p + 2 {
            Seq::empty()
        } else {
            s.subrange(p + 2, close)
        }
    } else {
        s.subrange(p, token_end(s, p))
    }
}

/// The token that starts at `p`.
pub open spec fn token_at(s: Seq<u8>, p: int) -> TokenView
    recommends
        0 <= p < s.len(),
{
    TokenView {
        kind: token_kind(s, p),
        content: token_content(s, p),
        start: p,
        end: token_end(s, p),
    }
}

/// The run of white space that starts at `i` ends between `i` and the end of
/// the input.
pub proof fn lemma_space_end_bounds(s: Seq<u8>, i: int)
    requires
        0 <= i <= s.len(),
    ensures
        i <= space_end(s, i) <= s.len(),
    decreases s.len() - i,
{
    if i < s.len() && is_space(s[i]) {
        lemma_space_end_bounds(s, i + 1);
    }
}

/// The byte before the end of a run of white space is white space, if the
/// run is not empty.
pub proof fn lemma_space_end_last(s: Seq<u8>, i: int)
    requires
        0 <= i <= s.len(),
    ensures
        i < space_end(s, i) ==> is_space(s[space_end(s, i) - 1]),
    decreases s.len() - i,
{
    lemma_space_end_bounds(s, i);
    if i < s.len() && is_space(s[i]) {
        lemma_space_end_bounds(s, i + 1);
        lemma_space_end_last(s, i + 1);
    }
}

/// A string whose body starts at `i` ends after `i`, unless the input ends
/// there.
pub proof fn lemma_string_end_bounds(s: Seq<u8>, quote: u8, i: int)
    requires
        0 <= i <= s.len(),
    ensures
        i <= string_end(s, quote, i) <= s.len(),
        string_end(s, quote, i) < s.len() ==> closes_string(s, quote, string_end(s, quote, i) - 1),
        string_end(s, quote, i) == i ==> i == s.len(),
    decreases s.len() - i,
{
    if i < s.len() && !closes_string(s, quote, i) {
        lemma_string_end_bounds(s, quote, i + 1);
    }
}

/// Where no byte from `from` up to `to` closes the string, the search for its
/// end may as well start at `to`.
pub proof fn lemma_string_end_skip(s: Seq<u8>, quote: u8, from: int, to: int)
    requires
        0 <= from <= to <= s.len(),
        forall|j: int| from <= j < to ==> !closes_string(s, quote, j),
    ensures
        string_end(s, quote, from) == string_end(s, quote, to),
    decreases to - from,
{
    if from < to {
        lemma_string_end_skip(s, quote, from + 1, to);
    }
}

/// `comment_close` finds the first `*/` at or after `i`, if there is one.
pub proof fn lemma_comment_close(s: Seq<u8>, i: int)
    requires
        0 <= i <= s.len(),
    ensures
        i <= comment_close(s, i) <= s.len(),
        comment_close(s, i) < s.len() ==> closes_comment(s, comment_close(s, i)),
        forall|j: int| i <= j < comment_close(s, i) ==> !closes_comment(s, j),
    decreases s.len() - i,
{
    if i + 2 <= s.len() && !closes_comment(s, i) {
        lemma_comment_close(s, i + 1);
    }
}

/// The first `*/` at or after `from` is what `comment_close` finds.
pub proof fn lemma_comment_close_is(s: Seq<u8>, from: int, i: int)
    requires
        0 <= from <= i <= s.len(),
        i < s.len() ==> closes_comment(s, i),
        forall|j: int| from <= j < i ==> !closes_comment(s, j),
    ensures
        comment_close(s, from) == i,
{
    lemma_comment_close(s, from);
}

/// The run of word bytes that starts at `i` ends between `i` and the end of
/// the input.
pub proof fn lemma_word_end_bounds(s: Seq<u8>, i: int)
    requires
        0 <= i <= s.len(),
    ensures
        i <= word_end(s, i) <= s.len(),
        word_end(s, i) < s.len() ==> ends_word(s[word_end(s, i)]),
        word_end(s, i) == i < s.len() ==> ends_word(s[i]),
    decreases s.len() - i,
{
    if i < s.len() && !ends_word(s[i]) {
        if s[i] == BACKSLASH && i + 1 < s.len() {
            lemma_word_end_bounds(s, i + 2);
        } else {
            lemma_word_end_bounds(s, i + 1);
        }
    }
}

/// Every token holds at least one byte and ends within the input.
pub proof fn lemma_token_end_bounds(s: Seq<u8>, p: int)
    requires
        0 <= p < s.len(),
    ensures
        p < token_end(s, p) <= s.len(),
{
    lemma_space_end_bounds(s, p + 1);
    lemma_string_end_bounds(s, s[p], p + 1);
    lemma_comment_close(s, p + 1);
    lemma_word_end_bounds(s, p);
}

/// In valid UTF-8, a token that starts between two characters ends between
/// two characters.
pub proof fn lemma_token_end_boundary(s: Seq<u8>, p: int)
    requires
        valid_utf8(s),
        0 <= p < s.len(),
    ensures
        is_char_boundary(s, token_end(s, p)),
{
    lemma_token_end_bounds(s, p);
    let end = token_end(s, p);
    let b = s[p];
    if starts_space(b) {
        lemma_space_end_last(s, p + 1);
        lemma_boundary_after_ascii(s, end - 1);
    } else if is_quote(b) {
        lemma_string_end_bounds(s, b, p + 1);
        if end < s.len() {
            lemma_boundary_after_ascii(s, end - 1);
        } else {
            lemma_boundary_at(s, end);
        }
    } else if opens_comment(s, p) {
        lemma_comment_close(s, p + 1);
        if end < s.len() {
            lemma_boundary_after_ascii(s, end - 1);
        } else {
            lemma_boundary_at(s, end);
        }
    } else if is_divider(b) || b == OPEN_PAREN || b == CLOSE_PAREN {
        lemma_boundary_after_ascii(s, p);
    } else {
        lemma_word_end_bounds(s, p);
        if word_end(s, p) == p {
            lemma_boundary_after_ascii(s, p);
        } else {
            lemma_boundary_at(s, end);
        }
    }
}

/// In valid UTF-8, the content of a comment starts and ends between two
/// characters.
pub proof fn lemma_comment_boundaries(s: Seq<u8>, p: int)
    requires
        valid_utf8(s),
        opens_comment(s, p),
    ensures
        is_char_boundary(s, p + 2),
        is_char_boundary(s, comment_close(s, p + 1)),
{
    lemma_boundary_after_ascii(s, p + 1);
    lemma_comment_close(s, p + 1);
    lemma_boundary_at(s, comment_close(s, p + 1));
}

/// A token found by scanning a word is a unicode range if its text has the
/// form of one, and a word if not; no other token is either.
pub proof fn lemma_word_or_unicode_range(s: Seq<u8>, p: int)
    requires
        0 <= p < s.len(),
    ensures
        scans_word(s, p) <==> token_kind(s, p) == TokenType::UnicodeRange || token_kind(s, p)
            == TokenType::Word,
        scans_word(s, p) ==> token_content(s, p) == s.subrange(p, token_end(s, p)),
        scans_word(s, p) ==> (token_kind(s, p) == TokenType::UnicodeRange <==> is_unicode_range(
            token_content(s, p),
        )),
        token_kind(s, p) != TokenType::Unknown,
{
}

/// The content of a divider is the divider itself: `/`, `,` or `:`.
pub proof fn lemma_divider_content(s: Seq<u8>, p: int)
    requires
        0 <= p < s.len(),
        token_kind(s, p) == TokenType::Div,
    ensures
        is_divider(s[p]),
        token_content(s, p) == seq![s[p]],
{
    assert(token_content(s, p) =~= seq![s[p]]);
}

/// The tokens of the input from offset `p` to its end, in order.
pub open spec fn tokens_from(s: Seq<u8>, p: int) -> Seq<TokenView>
    decreases s.len() - p,
    via tokens_from_terminates
{
    if 0 <= p < s.len() {
        seq![token_at(s, p)] + tokens_from(s, token_end(s, p))
    } else {
        Seq::empty()
    }
}

#[via_fn]
proof fn tokens_from_terminates(s: Seq<u8>, p: int) {
    if 0 <= p < s.len() {
        lemma_token_end_bounds(s, p);
    }
}

/// The bytes of the input that the tokens `ts` cover, one token after the
/// other.
pub open spec fn covered(s: Seq<u8>, ts: Seq<TokenView>) -> Seq<u8>
    decreases ts.len(),
{
    if ts.len() == 0 {
        Seq::empty()
    } else {
        s.subrange(ts[0].start, ts[0].end) + covered(s, ts.skip(1))
    }
}

/// The first of the tokens from `p` is the token at `p`, and the others are
/// the tokens from its end.
pub proof fn lemma_tokens_from_step(s: Seq<u8>, p: int)
    requires
        0 <= p < s.len(),
    ensures
        tokens_from(s, p).len() > 0,
        tokens_from(s, p)[0] == token_at(s, p),
        tokens_from(s, p).skip(1) == tokens_from(s, token_end(s, p)),
        p < token_end(s, p) <= s.len(),
{
    lemma_token_end_bounds(s, p);
    assert(tokens_from(s, p).skip(1) =~= tokens_from(s, token_end(s, p)));
}

/// The tokens leave no gap and do not overlap: the tokens from `p` start at
/// `p`, each holds at least one byte and ends where the next one starts, the
/// last one, and no other, ends where the input ends, and the ranges that they
/// cover, put together, give back the input from `p` on.
pub proof fn lemma_tokens_contiguous(s: Seq<u8>, p: int)
    requires
        0 <= p <= s.len(),
    ensures
        tokens_from(s, p).len() == 0 <==> p == s.len(),
        p < s.len() ==> tokens_from(s, p)[0].start == p,
        forall|i: int|
            0 <= i < tokens_from(s, p).len() ==> p <= (#[trigger] tokens_from(s, p)[i]).start
                < tokens_from(s, p)[i].end <= s.len(),
        forall|i: int, j: int|
            0 <= i && j == i + 1 && j < tokens_from(s, p).len() ==> (#[trigger] tokens_from(
                s,
                p,
            )[i]).end == (#[trigger] tokens_from(s, p)[j]).start,
        forall|i: int|
            0 <= i < tokens_from(s, p).len() ==> ((#[trigger] tokens_from(s, p)[i]).end == s.len()
                <==> i == tokens_from(s, p).len() - 1),
        covered(s, tokens_from(s, p)) == s.subrange(p, s.len() as int),
    decreases s.len() - p,
{
    let ts = tokens_from(s, p);
    if p < s.len() {
        lemma_tokens_from_step(s, p);
        let q = token_end(s, p);
        let rest = tokens_from(s, q);
        lemma_tokens_contiguous(s, q);
        // Beyond the first, the tokens from `p` are those from `q`.
        assert forall|i: int| 0 <= i < ts.len() implies p <= (#[trigger] ts[i]).start < ts[i].end
            <= s.len() && (ts[i].end == s.len() <==> i == ts.len() - 1) by {
            if i > 0 {
                assert(ts[i] == rest[i - 1]);
            }
        }
        assert forall|i: int, j: int| 0 <= i && j == i + 1 && j < ts.len() implies (
        #[trigger] ts[i]).end == (#[trigger] ts[j]).start by {
            assert(ts[j] == rest[i]);
            if i > 0 {
                assert(ts[i] == rest[i - 1]);
            }
        }
        assert(covered(s, ts) =~= s.subrange(p, s.len() as int));
    } else {
        assert(covered(s, ts) =~= s.subrange(p, s.len() as int));
    }
}

/// The tokens of a whole input cover it exactly.
pub proof fn lemma_tokens_cover_input(s: Seq<u8>)
    ensures
        covered(s, tokens_from(s, 0)) == s,
{
    lemma_tokens_contiguous(s, 0);
    assert(s.subrange(0, s.len() as int) =~= s);
}

} // verus!
