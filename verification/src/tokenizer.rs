//! The tokenizer: a cursor over the input that hands out one token per call.

use vstd::prelude::*;
use vstd::slice::slice_subrange;
use vstd::string::{is_ascii_spec_bytes, StringSliceAdditionalSpecFns};
use vstd::utf8::{encode_utf8_valid_utf8, is_char_boundary};
use crate::ascii::{
    is_hex_digit, BACKSLASH, CLOSE_PAREN, COLON, COMMA, DIGIT_0, DIGIT_9, DOUBLE_QUOTE, LOWER_A,
    LOWER_F, LOWER_U, MINUS, OPEN_PAREN, PLUS, QUESTION, SINGLE_QUOTE, SLASH, SPACE, STAR, UPPER_A,
    UPPER_F, UPPER_U,
};
use crate::lexical::{
    backslashes_before, byte_at, closes_comment, closes_string, comment_close, is_divider, is_quote,
    is_unicode_range, lemma_comment_boundaries, lemma_comment_close, lemma_comment_close_is,
    lemma_string_end_skip, lemma_token_end_boundary, lemma_token_end_bounds, space_end, string_end,
    token_at, token_content, word_end,
};
use crate::search::{find_byte, find_bytes, occurs_at};
use crate::text::{lemma_boundary_after_ascii, lemma_boundary_at, lemma_boundary_in_prefix};

verus! {

/// The kind of a token.
#[derive(Debug, Clone, Copy, PartialEq, Eq, Structural)]
pub enum TokenType {
    OpenParentheses,
    CloseParentheses,
    Space,
    Word,
    String,
    Div,
    Comment,
    UnicodeRange,
    Unknown,
}

impl TokenType {
    /// The name under which the kind is shown.
    pub open spec fn name(self) -> Seq<char> {
        match self {
            TokenType::OpenParentheses => "("@,
            TokenType::CloseParentheses => ")"@,
            TokenType::Space => "space"@,
            TokenType::Word => "word"@,
            TokenType::String => "string"@,
            TokenType::Div => "div"@,
            TokenType::Comment => "comment"@,
            TokenType::UnicodeRange => "unicode-range"@,
            TokenType::Unknown => "unknown"@,
        }
    }

    /// The name of the kind as a string.
    pub fn to_string(&self) -> (text: String)
        ensures
            text@ == self.name(),
    {
        let name = match self {
            TokenType::OpenParentheses => "(",
            TokenType::CloseParentheses => ")",
            TokenType::Space => "space",
            TokenType::Word => "word",
            TokenType::String => "string",
            TokenType::Div => "div",
            TokenType::Comment => "comment",
            TokenType::UnicodeRange => "unicode-range",
            TokenType::Unknown => "unknown",
        };
        name.to_owned()
    }
}

/// A token: its kind, its content, and the byte offsets in the input at which
/// it starts and ends. The content is a slice of the input.
#[derive(Debug, Clone, PartialEq, Eq)]
pub struct Token<'a>(pub TokenType, pub &'a str, pub usize, pub usize);

/// A token as a mathematical value: its kind, the bytes of its content, and
/// the half-open range `start..end` of the input that it covers.
pub struct TokenView {
    pub kind: TokenType,
    pub content: Seq<u8>,
    pub start: int,
    pub end: int,
}

impl<'a> View for Token<'a> {
    type V = TokenView;

    open spec fn view(&self) -> TokenView {
        TokenView {
            kind: self.0,
            content: self.1.spec_bytes(),
            start: self.2 as int,
            end: self.3 as int,
        }
    }
}

impl<'a> Token<'a> {
    /// A token of the given kind and content that covers `pos..next`.
    pub fn new(kind: TokenType, content: &'a str, pos: usize, next: usize) -> (token: Token<'a>)
        ensures
            token == Token(kind, content, pos, next),
    {
        Token(kind, content, pos, next)
    }
}

/// The length of `s` in bytes.
pub(crate) fn byte_len(s: &str) -> (n: usize)
    ensures
        n == s.spec_bytes().len(),
{
    s.as_bytes().len()
}

/// The byte of `s` at index `n`, or 0 if `s` has no such byte.
pub fn char_code_at(s: &str, n: usize) -> (code: u8)
    ensures
        code == byte_at(s.spec_bytes(), n as int),
{
    let bytes = s.as_bytes();
    if n >= bytes.len() {
        0
    } else {
        bytes[n]
    }
}

/// The part of `s` from byte `start` up to byte `end`, or up to the end of
/// `s` if `end` lies beyond it.
pub fn sub_str<'a>(s: &'a str, start: usize, end: usize) -> (part: &'a str)
    requires
        start <= end,
        start <= s.spec_bytes().len(),
        is_char_boundary(s.spec_bytes(), start as int),
        end < s.spec_bytes().len() ==> is_char_boundary(s.spec_bytes(), end as int),
    ensures
        end < s.spec_bytes().len() ==> part.spec_bytes() == s.spec_bytes().subrange(
            start as int,
            end as int,
        ),
        end >= s.spec_bytes().len() ==> part.spec_bytes() == s.spec_bytes().subrange(
            start as int,
            s.spec_bytes().len() as int,
        ),
{
    if end >= byte_len(s) {
        let (_, tail) = s.split_at(start);
        tail
    } else {
        proof {
            encode_utf8_valid_utf8(s@);
            lemma_boundary_in_prefix(s.spec_bytes(), start as int, end as int);
        }
        let (head, _) = s.split_at(end);
        let (_, part) = head.split_at(start);
        part
    }
}

/// The index of the first byte of `value`, at or after `from_index`, that is
/// equal to `search_value`.
pub fn index_of_byte(value: &str, search_value: u8, from_index: usize) -> (found: Option<usize>)
    requires
        from_index <= value.spec_bytes().len(),
    ensures
        match found {
            Some(i) => {
                &&& from_index <= i < value.spec_bytes().len()
                &&& value.spec_bytes()[i as int] == search_value
                &&& forall|j: int| from_index <= j < i ==> value.spec_bytes()[j] != search_value
            },
            None => forall|j: int|
                from_index <= j < value.spec_bytes().len() ==> value.spec_bytes()[j]
                    != search_value,
        },
{
    let bytes = value.as_bytes();
    let last = slice_subrange(bytes, from_index, bytes.len());
    // The byte at index `j` of the text is the byte at index `j - from_index`
    // of the part that is searched.
    match find_byte(search_value, last) {
        Some(v) => {
            assert forall|j: int| from_index <= j < v + from_index implies bytes@[j]
                != search_value by {
                assert(last@[j - from_index] == bytes@[j]);
            }
            Some(v + from_index)
        },
        None => {
            assert forall|j: int| from_index <= j < bytes@.len() implies bytes@[j]
                != search_value by {
                assert(last@[j - from_index] == bytes@[j]);
            }
            None
        },
    }
}

/// The index of the first `*/` of `value` at or after `from_index`.
pub fn index_of_end_comment(value: &str, from_index: usize) -> (found: Option<usize>)
    requires
        from_index <= value.spec_bytes().len(),
    ensures
        match found {
            Some(i) => i < value.spec_bytes().len() && i == comment_close(
                value.spec_bytes(),
                from_index as int,
            ),
            None => comment_close(value.spec_bytes(), from_index as int)
                == value.spec_bytes().len(),
        },
{
    let bytes = value.as_bytes();
    let last = slice_subrange(bytes, from_index, bytes.len());
    let marker: [u8; 2] = [STAR, SLASH];
    let ghost s = value.spec_bytes();
    proof {
        assert forall|k: int| 0 <= k implies (occurs_at(last@, marker@, k) <==> closes_comment(
            s,
            from_index + k,
        )) by {
            if k + 2 <= last@.len() {
                let run = last@.subrange(k, k + 2);
                if closes_comment(s, from_index + k) {
                    assert(run =~= marker@);
                }
            }
        }
    }
    match find_bytes(last, marker.as_slice()) {
        Some(v) => {
            proof {
                assert forall|j: int| from_index <= j < v + from_index implies !closes_comment(
                    s,
                    j,
                ) by {
                    assert(!occurs_at(last@, marker@, j - from_index));
                }
                lemma_comment_close_is(s, from_index as int, v + from_index);
            }
            Some(v + from_index)
        },
        None => {
            proof {
                assert forall|j: int| from_index <= j < s.len() implies !closes_comment(s, j) by {
                    assert(!occurs_at(last@, marker@, j - from_index));
                }
                lemma_comment_close_is(s, from_index as int, s.len() as int);
            }
            None
        },
    }
}

/// The index at which the word that starts at `start` ends.
pub fn index_of_word_end(s: &str, start: usize) -> (end: usize)
    requires
        start <= s.spec_bytes().len(),
    ensures
        end == word_end(s.spec_bytes(), start as int),
{
    let bytes = s.as_bytes();
    let len: usize = bytes.len();
    let mut i: usize = start;
    while i < len
        invariant
            start <= i <= len,
            len == bytes@.len(),
            bytes@ == s.spec_bytes(),
            word_end(bytes@, i as int) == word_end(bytes@, start as int),
        decreases len - i,
    {
        let b: u8 = bytes[i];
        if b <= SPACE || b == SINGLE_QUOTE || b == DOUBLE_QUOTE || b == COMMA || b == COLON || b
            == SLASH || b == STAR || b == OPEN_PAREN || b == CLOSE_PAREN {
            return i;
        } else if b == BACKSLASH && len - i >= 2 {
            i += 2;
        } else {
            i += 1;
        }
    }
    i
}

/// Whether `s` has the form of a unicode range.
pub fn unicode_range(s: &str) -> (matches: bool)
    ensures
        matches == is_unicode_range(s.spec_bytes()),
{
    let bytes = s.as_bytes();
    let len: usize = bytes.len();
    if len < 3 {
        return false;
    }
    if !(bytes[0] == LOWER_U || bytes[0] == UPPER_U) || bytes[1] != PLUS {
        return false;
    }
    let mut i: usize = 2;
    while i < len
        invariant
            2 <= i <= len,
            len == bytes@.len(),
            bytes@ == s.spec_bytes(),
            forall|j: int|
                2 <= j < i ==> is_hex_digit(#[trigger] bytes@[j]) || bytes@[j] == QUESTION
                    || bytes@[j] == MINUS,
        decreases len - i,
    {
        let b: u8 = bytes[i];
        let allowed = (DIGIT_0 <= b && b <= DIGIT_9) || (LOWER_A <= b && b <= LOWER_F) || (UPPER_A
            <= b && b <= UPPER_F) || b == QUESTION || b == MINUS;
        if !allowed {
            return false;
        }
        i += 1;
    }
    true
}

/// The kind of the token that consists of the single byte `ch`.
pub fn get_token_type(ch: u8) -> (kind: TokenType)
    requires
        is_divider(ch) || ch == OPEN_PAREN || ch == CLOSE_PAREN,
    ensures
        kind == (if ch == OPEN_PAREN {
            TokenType::OpenParentheses
        } else if ch == CLOSE_PAREN {
            TokenType::CloseParentheses
        } else {
            TokenType::Div
        }),
{
    if ch == OPEN_PAREN {
        TokenType::OpenParentheses
    } else if ch == CLOSE_PAREN {
        TokenType::CloseParentheses
    } else {
        TokenType::Div
    }
}

/// The text of the token that consists of the single byte `ch`.
pub fn get_str(ch: u8) -> (text: &'static str)
    requires
        is_divider(ch) || ch == OPEN_PAREN || ch == CLOSE_PAREN,
    ensures
        text.spec_bytes() == seq![ch],
{
    proof {
        reveal_strlit("(");
        reveal_strlit(")");
        reveal_strlit("/");
        reveal_strlit(",");
        reveal_strlit(":");
    }
    let text = if ch == OPEN_PAREN {
        "("
    } else if ch == CLOSE_PAREN {
        ")"
    } else if ch == SLASH {
        "/"
    } else if ch == COMMA {
        ","
    } else {
        ":"
    };
    proof {
        is_ascii_spec_bytes(text);
    }
    text
}

/// The end of the string that opens with the quote at `start`: one past its
/// closing quote, or the end of `value` if it is not closed.
fn index_of_string_end(value: &str, start: usize) -> (end: usize)
    requires
        start < value.spec_bytes().len(),
        is_quote(value.spec_bytes()[start as int]),
    ensures
        end == string_end(value.spec_bytes(), value.spec_bytes()[start as int], start + 1),
{
    let ghost s = value.spec_bytes();
    let len: usize = byte_len(value);
    let quote: u8 = char_code_at(value, start);
    let mut next: usize = start;
    loop
        invariant
            start <= next < len,
            len == s.len(),
            s == value.spec_bytes(),
            quote == s[start as int],
            is_quote(quote),
            string_end(s, quote, next + 1) == string_end(s, quote, start + 1),
        decreases len - next,
    {
        match index_of_byte(value, quote, next + 1) {
            Some(found) => {
                let mut escape_pos: usize = found;
                let mut escaped = false;
                while char_code_at(value, escape_pos - 1) == BACKSLASH
                    invariant
                        start < escape_pos <= found < len,
                        len == s.len(),
                        s == value.spec_bytes(),
                        s[start as int] != BACKSLASH,
                        backslashes_before(s, found as int) == (found - escape_pos)
                            + backslashes_before(s, escape_pos as int),
                        escaped == ((found - escape_pos) % 2 == 1),
                    decreases escape_pos,
                {
                    escape_pos -= 1;
                    escaped = !escaped;
                }
                proof {
                    assert forall|j: int| next + 1 <= j < found implies !closes_string(
                        s,
                        quote,
                        j,
                    ) by {}
                }
                if !escaped {
                    proof {
                        lemma_string_end_skip(s, quote, next + 1, found as int);
                    }
                    return found + 1;
                }
                proof {
                    lemma_string_end_skip(s, quote, next + 1, found + 1);
                }
                next = found;
            },
            None => {
                proof {
                    lemma_string_end_skip(s, quote, next + 1, len as int);
                }
                return len;
            },
        }
    }
}

/// A cursor over a text that hands out its tokens one by one.
#[derive(Debug)]
pub struct Tokenizer<'a> {
    pub value: &'a str,
    length: usize,
    pos: usize,
}

impl<'a> Tokenizer<'a> {
    /// The bytes of the text.
    pub closed spec fn source(&self) -> Seq<u8> {
        self.value.spec_bytes()
    }

    /// The offset of the next token.
    pub closed spec fn cursor(&self) -> int {
        self.pos as int
    }

    /// The tokenizer is in order: it knows the length of its text, and its
    /// cursor stands between two characters of the text or at one end of it.
    pub closed spec fn wf(&self) -> bool {
        &&& self.length == self.source().len()
        &&& self.pos <= self.length
        &&& is_char_boundary(self.source(), self.pos as int)
    }

    /// What `wf` says of the cursor.
    pub proof fn lemma_cursor(&self)
        requires
            self.wf(),
        ensures
            0 <= self.cursor() <= self.source().len(),
            is_char_boundary(self.source(), self.cursor()),
    {
    }

    /// A tokenizer at the start of `value`.
    pub fn new(value: &'a str) -> (tokenizer: Tokenizer<'a>)
        ensures
            tokenizer.wf(),
            tokenizer.source() == value.spec_bytes(),
            tokenizer.cursor() == 0,
    {
        let length: usize = byte_len(value);
        proof {
            encode_utf8_valid_utf8(value@);
            lemma_boundary_at(value.spec_bytes(), 0);
        }
        Tokenizer { value, length, pos: 0 }
    }

    /// The offset of the next token.
    #[inline]
    pub fn position(&self) -> (pos: usize)
        ensures
            pos == self.cursor(),
    {
        self.pos
    }

    /// Whether the cursor has reached the end of the text.
    pub fn end_of_file(&self) -> (at_end: bool)
        requires
            self.wf(),
        ensures
            at_end == (self.cursor() >= self.source().len()),
    {
        self.position() >= self.length
    }

    /// Moves the cursor over one ASCII byte.
    #[inline]
    fn pos_plus_one(&mut self)
        requires
            old(self).wf(),
            old(self).cursor() < old(self).source().len(),
            old(self).source()[old(self).cursor()] < 0x80,
        ensures
            final(self).wf(),
            final(self).source() == old(self).source(),
            final(self).cursor() == old(self).cursor() + 1,
    {
        proof {
            encode_utf8_valid_utf8(self.value@);
            lemma_boundary_after_ascii(self.source(), self.pos as int);
        }
        self.pos = self.pos + 1;
    }

    /// Hands out the token at the cursor and moves the cursor to its end.
    pub fn next_token(&mut self) -> (token: Token<'a>)
        requires
            old(self).wf(),
            old(self).cursor() < old(self).source().len(),
        ensures
            final(self).wf(),
            final(self).source() == old(self).source(),
            token@ == token_at(old(self).source(), old(self).cursor()),
            final(self).cursor() == token@.end,
            final(self).cursor() > old(self).cursor(),
    {
        let ghost s = self.source();
        let pos: usize = self.pos;
        let code: u8 = char_code_at(self.value, pos);
        proof {
            encode_utf8_valid_utf8(self.value@);
            lemma_token_end_bounds(s, pos as int);
            lemma_token_end_boundary(s, pos as int);
        }
        if code <= SPACE {
            let mut next: usize = pos;
            loop
                invariant_except_break
                    pos <= next < self.length,
                    space_end(s, next + 1) == space_end(s, pos + 1),
                invariant
                    s == self.value.spec_bytes(),
                    self.length == s.len(),
                ensures
                    next == space_end(s, pos + 1),
                decreases self.length - next,
            {
                next += 1;
                let code: u8 = char_code_at(self.value, next);
                if !(1 <= code && code <= SPACE) {
                    break ;
                }
            }
            let content = sub_str(self.value, pos, next);
            self.pos = next;
            let token = Token(TokenType::Space, content, pos, next);
            token
        } else if code == SINGLE_QUOTE || code == DOUBLE_QUOTE {
            let next: usize = index_of_string_end(self.value, pos);
            let content = sub_str(self.value, pos, next);
            self.pos = next;
            let token = Token(TokenType::String, content, pos, next);
            token
        } else if code == SLASH && char_code_at(self.value, pos + 1) == STAR {
            let close: usize = match index_of_end_comment(self.value, pos) {
                Some(found) => found,
                None => self.length,
            };
            proof {
                lemma_comment_close(s, pos as int);
                lemma_comment_close(s, pos + 1);
                lemma_comment_close_is(s, pos + 1, close as int);
                lemma_comment_boundaries(s, pos as int);
            }
            // Where the closing marker shares its star with the opening one,
            // nothing stands between the two.
            let content_end: usize = if close < pos + 2 {
                pos + 2
            } else {
                close
            };
            let content = sub_str(self.value, pos + 2, content_end);
            let next: usize = if close < self.length {
                close + 2
            } else {
                close
            };
            self.pos = next;
            let token = Token(TokenType::Comment, content, pos, next);
            assert(token@.content =~= token_content(s, pos as int));
            token
        } else if code == SLASH || code == COMMA || code == COLON || code == OPEN_PAREN || code
            == CLOSE_PAREN {
            let token = Token(get_token_type(code), get_str(code), pos, pos + 1);
            assert(token@.content =~= s.subrange(pos as int, pos + 1));
            self.pos_plus_one();
            token
        } else {
            let mut next: usize = index_of_word_end(self.value, pos);
            if next == pos {
                next += 1;
            }
            let content = sub_str(self.value, pos, next);
            self.pos = next;
            if unicode_range(content) {
                Token::new(TokenType::UnicodeRange, content, pos, next)
            } else {
                Token::new(TokenType::Word, content, pos, next)
            }
        }
    }
}

} // verus!
