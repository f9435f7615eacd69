//! The parser: a recursive descent over the tokens of a value.

use std::borrow::Cow;
use vstd::prelude::*;
use vstd::string::StringSliceAdditionalSpecFns;
use vstd::utf8::{encode_utf8_valid_utf8, is_char_boundary};
use crate::ascii::{COLON, COMMA, LOWER_A, LOWER_C, LOWER_L, LOWER_R, LOWER_U, SLASH};
use crate::grammar::{
    body_item, calc_name, comment_of, div_of, function_body, lemma_body_item_progress,
    lemma_top_item_progress, space_of, stray_run, stray_word, string_of, top_item, top_level,
    unicode_range_of, url_name, url_run, url_word, word_of, word_or_function,
};
use crate::lexical::{lemma_tokens_contiguous, lemma_tokens_from_step, token_at, tokens_from};
use crate::node;
use crate::node::{
    all_borrow, borrows, lemma_function_view, lemma_nodes_view_push, nodes_view, Node, NodeView,
};
use crate::syntax::Lexer;
use crate::tokenizer::{sub_str, Token, TokenType, TokenView};

verus! {

/// A parser over a text. It reads the tokens of the text through a lexer and
/// can look one token ahead.
pub struct Parser<'a> {
    lexer: Lexer<'a>,
    /// The token that was looked at and not yet taken, if any; `Some(None)`
    /// once the lexer was seen to have no more.
    peeked: Option<Option<Token<'a>>>,
    value: &'a str,
}

/// Whether the bytes of `text` are those of `expected`.
fn text_is(text: &str, expected: &[u8]) -> (same: bool)
    ensures
        same == (text.spec_bytes() == expected@),
{
    let bytes = text.as_bytes();
    if bytes.len() != expected.len() {
        return false;
    }
    let mut i: usize = 0;
    while i < bytes.len()
        invariant
            i <= bytes@.len(),
            bytes@.len() == expected@.len(),
            bytes@ == text.spec_bytes(),
            forall|j: int| 0 <= j < i ==> bytes@[j] == expected@[j],
        decreases bytes@.len() - i,
    {
        if bytes[i] != expected[i] {
            return false;
        }
        i += 1;
    }
    assert(bytes@ =~= expected@);
    true
}

/// The name of a group in parentheses: the empty text.
fn no_name() -> (name: &'static str)
    ensures
        name.spec_bytes() == Seq::<u8>::empty(),
{
    proof {
        reveal_strlit("");
    }
    ""
}

/// Adds `node` at the end of `nodes`.
fn append<'a>(nodes: &mut Vec<Node<'a>>, node: Node<'a>)
    requires
        all_borrow(old(nodes)@),
        borrows(node),
    ensures
        final(nodes)@ == old(nodes)@.push(node),
        nodes_view(final(nodes)@) == nodes_view(old(nodes)@) + seq![node@],
        all_borrow(final(nodes)@),
{
    proof {
        lemma_nodes_view_push(nodes@, node);
    }
    nodes.push(node);
}

/// A function as a node.
fn function_node<'a>(item: node::Function<'a>) -> (node: Node<'a>)
    ensures
        node == Node::Function(item),
        node@ == item@,
{
    proof {
        lemma_function_view(item);
    }
    Node::Function(item)
}

/// One step at the top level: where the nodes so far and the tokens left go
/// from `before` and `now` to `after` and `rest` as the first step of the
/// grammar says, the nodes of `now` after `before` are the nodes of `rest`
/// after `after`.
proof fn lemma_top_step(
    now: Seq<TokenView>,
    src: Seq<u8>,
    before: Seq<NodeView>,
    after: Seq<NodeView>,
    rest: Seq<TokenView>,
)
    requires
        now.len() > 0,
        rest == top_item(now, src).rest,
        after == before + top_item(now, src).nodes,
    ensures
        before + top_level(now, src) == after + top_level(rest, src),
{
    lemma_top_item_progress(now, src);
    let item = top_item(now, src);
    assert(before + (item.nodes + top_level(rest, src)) =~= (before + item.nodes) + top_level(
        rest,
        src,
    ));
}

/// One step inside a function: where the nodes so far and the tokens left
/// go from `before` and `now` to `after` and `rest` as the first step of the
/// grammar says, the body parsed from `now` after `before` is the body parsed
/// from `rest` after `after`.
proof fn lemma_body_step(
    now: Seq<TokenView>,
    src: Seq<u8>,
    name: Seq<u8>,
    before: Seq<NodeView>,
    after: Seq<NodeView>,
    rest: Seq<TokenView>,
)
    requires
        now.len() > 0,
        now[0].kind != TokenType::CloseParentheses,
        rest == body_item(now, src, name).rest,
        after == before + body_item(now, src, name).nodes,
    ensures
        before + function_body(now, src, name).nodes == after + function_body(
            rest,
            src,
            name,
        ).nodes,
        function_body(now, src, name).rest == function_body(rest, src, name).rest,
{
    lemma_body_item_progress(now, src, name);
    let item = body_item(now, src, name);
}

/// Whether `name` is `url`.
fn is_url(name: &str) -> (same: bool)
    ensures
        same == (name.spec_bytes() == url_name()),
{
    let expected: [u8; 3] = [LOWER_U, LOWER_R, LOWER_L];
    text_is(name, expected.as_slice())
}

/// Whether `name` is `calc`.
fn is_calc(name: &str) -> (same: bool)
    ensures
        same == (name.spec_bytes() == calc_name()),
{
    let expected: [u8; 4] = [LOWER_C, LOWER_A, LOWER_L, LOWER_C];
    text_is(name, expected.as_slice())
}

/// Whether `content` is the single byte `byte`.
fn is_byte(content: &str, byte: u8) -> (same: bool)
    ensures
        same == (content.spec_bytes() == seq![byte]),
{
    let bytes = content.as_bytes();
    bytes.len() == 1 && bytes[0] == byte
}

impl<'a> Parser<'a> {
    /// The bytes of the text.
    pub closed spec fn source(&self) -> Seq<u8> {
        self.value.spec_bytes()
    }

    /// The offset of the next token that the parser has not yet taken.
    pub closed spec fn cursor(&self) -> int {
        match self.peeked {
            Some(Some(token)) => token.2 as int,
            _ => self.lexer.cursor(),
        }
    }

    /// The parser is in order: its lexer is and reads the same text, and the
    /// token that was looked at is the one at the cursor.
    pub closed spec fn wf(&self) -> bool {
        &&& self.lexer.wf()
        &&& self.lexer.source() == self.source()
        &&& match self.peeked {
            Some(Some(token)) => {
                &&& 0 <= token.2 < self.source().len()
                &&& is_char_boundary(self.source(), token.2 as int)
                &&& token@ == token_at(self.source(), token.2 as int)
                &&& self.lexer.cursor() == token.3
            },
            Some(None) => self.lexer.cursor() == self.source().len(),
            None => true,
        }
    }

    /// The tokens that the parser has not yet taken.
    pub open spec fn remaining(&self) -> Seq<TokenView> {
        tokens_from(self.source(), self.cursor())
    }

    /// What `wf` says of the cursor.
    pub proof fn lemma_cursor(&self)
        requires
            self.wf(),
        ensures
            0 <= self.cursor() <= self.source().len(),
            is_char_boundary(self.source(), self.cursor()),
            self.remaining().len() > 0 <==> self.cursor() < self.source().len(),
    {
        self.lexer.lemma_cursor();
        lemma_tokens_contiguous(self.source(), self.cursor());
    }

    /// A parser at the start of `value`.
    pub fn new(value: &'a str) -> (parser: Parser<'a>)
        ensures
            parser.wf(),
            parser.source() == value.spec_bytes(),
            parser.cursor() == 0,
    {
        Parser { lexer: Lexer::new(value), peeked: None, value }
    }

    /// The kind and the content of the next token, which stays in place.
    pub fn peek(&mut self) -> (next: Option<(TokenType, &'a str)>)
        requires
            old(self).wf(),
        ensures
            final(self).wf(),
            final(self).source() == old(self).source(),
            final(self).cursor() == old(self).cursor(),
            match next {
                Some((kind, content)) => {
                    &&& old(self).remaining().len() > 0
                    &&& kind == old(self).remaining()[0].kind
                    &&& content.spec_bytes() == old(self).remaining()[0].content
                },
                None => old(self).remaining().len() == 0,
            },
    {
        proof {
            self.lemma_cursor();
            self.lexer.lemma_cursor();
            lemma_tokens_contiguous(self.source(), self.cursor());
            if self.cursor() < self.source().len() {
                lemma_tokens_from_step(self.source(), self.cursor());
            }
        }
        if self.peeked.is_none() {
            let token = self.lexer.next();
            self.peeked = Some(token);
        }
        match &self.peeked {
            Some(Some(token)) => Some((token.0, token.1)),
            _ => None,
        }
    }

    /// Takes the next token.
    pub fn bump(&mut self) -> (token: Token<'a>)
        requires
            old(self).wf(),
            old(self).remaining().len() > 0,
        ensures
            final(self).wf(),
            final(self).source() == old(self).source(),
            token@ == old(self).remaining()[0],
            token@.start == old(self).cursor(),
            final(self).cursor() == token@.end,
            old(self).cursor() < final(self).cursor(),
            final(self).remaining() == old(self).remaining().skip(1),
            final(self).remaining().len() == old(self).remaining().len() - 1,
    {
        proof {
            self.lemma_cursor();
            self.lexer.lemma_cursor();
            lemma_tokens_from_step(self.source(), self.cursor());
        }
        let taken = match &self.peeked {
            Some(Some(token)) => Some(Token(token.0, token.1, token.2, token.3)),
            _ => None,
        };
        self.peeked = None;
        match taken {
            Some(token) => token,
            None => self.lexer.next().unwrap(),
        }
    }

    /// Parses the whole text, from the cursor on.
    pub fn parse(self) -> (nodes: Vec<Node<'a>>)
        requires
            self.wf(),
        ensures
            nodes_view(nodes@) == top_level(self.remaining(), self.source()),
            all_borrow(nodes@),
    {
        let ghost ts = self.remaining();
        let ghost src = self.source();
        let mut parser = self;
        let mut nodes: Vec<Node<'a>> = Vec::new();
        loop
            invariant_except_break
                top_level(ts, src) == nodes_view(nodes@) + top_level(parser.remaining(), src),
            invariant
                parser.wf(),
                parser.source() == src,
                all_borrow(nodes@),
            ensures
                top_level(ts, src) == nodes_view(nodes@),
            decreases parser.remaining().len(),
        {
            let ghost now = parser.remaining();
            let ghost before = nodes@;
            let kind = match parser.peek() {
                Some((kind, _)) => kind,
                None => {
                    break ;
                },
            };
            match kind {
                TokenType::Space => {
                    append(&mut nodes, Node::Space(parser.parse_space()));
                },
                TokenType::Comment => {
                    append(&mut nodes, Node::Comment(parser.parse_comment()));
                },
                TokenType::String => {
                    append(&mut nodes, Node::String(parser.parse_string()));
                },
                TokenType::Div => {
                    append(&mut nodes, Node::Div(parser.parse_div()));
                },
                TokenType::UnicodeRange => {
                    append(&mut nodes, Node::UnicodeRange(parser.parse_unicode_range()));
                },
                TokenType::Word => {
                    append(&mut nodes, parser.parse_word_or_function());
                },
                TokenType::OpenParentheses => {
                    let token = parser.bump();
                    append(&mut nodes, function_node(parser.parse_function(no_name(), token.2)));
                },
                TokenType::CloseParentheses => {
                    append(&mut nodes, Node::Word(parser.parse_stray_word()));
                },
                _ => {
                    parser.bump();
                },
            }
            proof {
                lemma_top_step(
                    now,
                    src,
                    nodes_view(before),
                    nodes_view(nodes@),
                    parser.remaining(),
                );
            }
        }
        nodes
    }

    /// Takes a closing parenthesis that closes nothing, and every token after
    /// it that joins it, and makes one word of them.
    fn parse_stray_word(&mut self) -> (item: node::Word<'a>)
        requires
            old(self).wf(),
            old(self).remaining().len() > 0,
        ensures
            final(self).wf(),
            final(self).source() == old(self).source(),
            seq![item@] == stray_word(old(self).remaining(), old(self).source()).nodes,
            item.value is Borrowed,
            final(self).remaining() == stray_word(old(self).remaining(), old(self).source()).rest,
            final(self).remaining().len() < old(self).remaining().len(),
    {
        let ghost ts = self.remaining();
        let ghost src = self.source();
        proof {
            self.lemma_cursor();
        }
        let token = self.bump();
        let mut end: usize = token.3;
        let ghost mut taken: nat = 0;
        loop
            invariant
                self.wf(),
                self.source() == src,
                ts.len() > 0,
                token@ == ts[0],
                token.2 < end,
                end == self.cursor(),
                1 + taken <= ts.len(),
                end == ts[taken as int].end,
                self.remaining() == ts.skip(1 + taken as int),
                stray_run(ts.skip(1)) == taken + stray_run(self.remaining()),
            ensures
                stray_run(ts.skip(1)) == taken,
            decreases self.remaining().len(),
        {
            let joins = match self.peek() {
                Some((TokenType::CloseParentheses, _)) => true,
                Some((TokenType::Word, _)) => true,
                _ => false,
            };
            if !joins {
                break ;
            }
            let next = self.bump();
            proof {
                taken = taken + 1;
            }
            end = next.3;
        }
        proof {
            self.lemma_cursor();
            encode_utf8_valid_utf8(self.value@);
        }
        let text = sub_str(self.value, token.2, end);
        node::Word { source_index: token.2, value: Cow::Borrowed(text) }
    }

    /// Takes the next token as a comment.
    #[inline]
    pub fn parse_comment(&mut self) -> (item: node::Comment<'a>)
        requires
            old(self).wf(),
            old(self).remaining().len() > 0,
        ensures
            final(self).wf(),
            final(self).source() == old(self).source(),
            item@ == comment_of(old(self).remaining()[0]),
            item.value is Borrowed,
            final(self).remaining() == old(self).remaining().skip(1),
    {
        let token = self.bump();
        node::Comment { source_index: token.2, value: Cow::Borrowed(token.1) }
    }

    /// Takes the next token as a run of white space.
    #[inline]
    pub fn parse_space(&mut self) -> (item: node::Space<'a>)
        requires
            old(self).wf(),
            old(self).remaining().len() > 0,
        ensures
            final(self).wf(),
            final(self).source() == old(self).source(),
            item@ == space_of(old(self).remaining()[0]),
            item.value is Borrowed,
            final(self).remaining() == old(self).remaining().skip(1),
    {
        let token = self.bump();
        node::Space { source_index: token.2, value: Cow::Borrowed(token.1) }
    }

    /// Takes the next token as a divider.
    #[inline]
    pub fn parse_div(&mut self) -> (item: node::Div<'a>)
        requires
            old(self).wf(),
            old(self).remaining().len() > 0,
        ensures
            final(self).wf(),
            final(self).source() == old(self).source(),
            item@ == div_of(old(self).remaining()[0]),
            item.value is Borrowed,
            final(self).remaining() == old(self).remaining().skip(1),
    {
        let token = self.bump();
        node::Div { source_index: token.2, value: Cow::Borrowed(token.1) }
    }

    /// Takes the next token as a word.
    #[inline]
    pub fn parse_word(&mut self) -> (item: node::Word<'a>)
        requires
            old(self).wf(),
            old(self).remaining().len() > 0,
        ensures
            final(self).wf(),
            final(self).source() == old(self).source(),
            item@ == word_of(old(self).remaining()[0]),
            item.value is Borrowed,
            final(self).remaining() == old(self).remaining().skip(1),
    {
        let token = self.bump();
        node::Word { source_index: token.2, value: Cow::Borrowed(token.1) }
    }

    /// Takes the next token as a string.
    #[inline]
    pub fn parse_string(&mut self) -> (item: node::String<'a>)
        requires
            old(self).wf(),
            old(self).remaining().len() > 0,
        ensures
            final(self).wf(),
            final(self).source() == old(self).source(),
            item@ == string_of(old(self).remaining()[0]),
            item.value is Borrowed,
            final(self).remaining() == old(self).remaining().skip(1),
    {
        let token = self.bump();
        node::String { source_index: token.2, value: Cow::Borrowed(token.1) }
    }

    /// Takes the next token as a unicode range.
    #[inline]
    pub fn parse_unicode_range(&mut self) -> (item: node::UnicodeRange<'a>)
        requires
            old(self).wf(),
            old(self).remaining().len() > 0,
        ensures
            final(self).wf(),
            final(self).source() == old(self).source(),
            item@ == unicode_range_of(old(self).remaining()[0]),
            item.value is Borrowed,
            final(self).remaining() == old(self).remaining().skip(1),
    {
        let token = self.bump();
        node::UnicodeRange { source_index: token.2, value: Cow::Borrowed(token.1) }
    }

    /// Takes the next token and every token after it that joins an unquoted
    /// URL, and makes one word of them.
    #[inline]
    pub fn parse_url_word(&mut self) -> (item: node::Word<'a>)
        requires
            old(self).wf(),
            old(self).remaining().len() > 0,
        ensures
            final(self).wf(),
            final(self).source() == old(self).source(),
            seq![item@] == url_word(old(self).remaining(), old(self).source()).nodes,
            item.value is Borrowed,
            final(self).remaining() == url_word(old(self).remaining(), old(self).source()).rest,
            final(self).remaining().len() < old(self).remaining().len(),
    {
        let ghost ts = self.remaining();
        let ghost src = self.source();
        proof {
            self.lemma_cursor();
        }
        let token = self.bump();
        let mut end: usize = token.3;
        let ghost mut taken: nat = 0;
        loop
            invariant
                self.wf(),
                self.source() == src,
                ts.len() > 0,
                token@ == ts[0],
                token.2 < end,
                end == self.cursor(),
                1 + taken <= ts.len(),
                end == ts[taken as int].end,
                self.remaining() == ts.skip(1 + taken as int),
                url_run(ts.skip(1)) == taken + url_run(self.remaining()),
            ensures
                url_run(ts.skip(1)) == taken,
            decreases self.remaining().len(),
        {
            let joins = match self.peek() {
                Some((kind, content)) => match kind {
                    TokenType::Word => true,
                    TokenType::Div => is_byte(content, SLASH) || is_byte(content, COLON),
                    _ => false,
                },
                None => false,
            };
            if !joins {
                break ;
            }
            let next = self.bump();
            proof {
                taken = taken + 1;
            }
            end = next.3;
        }
        proof {
            self.lemma_cursor();
            encode_utf8_valid_utf8(self.value@);
        }
        let text = sub_str(self.value, token.2, end);
        node::Word { source_index: token.2, value: Cow::Borrowed(text) }
    }

    /// Takes a word, and, if an opening parenthesis follows it at once, the
    /// function that the word names.
    fn parse_word_or_function(&mut self) -> (item: Node<'a>)
        requires
            old(self).wf(),
            old(self).remaining().len() > 0,
        ensures
            final(self).wf(),
            final(self).source() == old(self).source(),
            seq![item@] == word_or_function(old(self).remaining(), old(self).source()).nodes,
            borrows(item),
            final(self).remaining() == word_or_function(
                old(self).remaining(),
                old(self).source(),
            ).rest,
            final(self).remaining().len() < old(self).remaining().len(),
        decreases old(self).remaining().len(), 0nat,
    {
        let ghost now = self.remaining();
        let word = self.bump();
        let opens = match self.peek() {
            Some((TokenType::OpenParentheses, _)) => true,
            _ => false,
        };
        if opens {
            self.bump();
            assert(now.skip(1).skip(1) =~= now.skip(2));
            function_node(self.parse_function(word.1, word.2))
        } else {
            Node::Word(node::Word { source_index: word.2, value: Cow::Borrowed(word.1) })
        }
    }

    /// Parses the body of the function `name`, whose name, or opening
    /// parenthesis if it has none, stands at `index`: the tokens up to the
    /// closing parenthesis that ends the function, or all the tokens if there
    /// is none.
    #[inline]
    pub fn parse_function(&mut self, name: &'a str, index: usize) -> (item: node::Function<'a>)
        requires
            old(self).wf(),
        ensures
            final(self).wf(),
            final(self).source() == old(self).source(),
            item@ == (NodeView::Function {
                source_index: index as int,
                value: name.spec_bytes(),
                nodes: function_body(
                    old(self).remaining(),
                    old(self).source(),
                    name.spec_bytes(),
                ).nodes,
            }),
            item.value is Borrowed,
            all_borrow(item.nodes@),
            final(self).remaining() == function_body(
                old(self).remaining(),
                old(self).source(),
                name.spec_bytes(),
            ).rest,
            final(self).remaining().len() <= old(self).remaining().len(),
        decreases old(self).remaining().len(), 1nat,
    {
        let ghost ts = self.remaining();
        let ghost src = self.source();
        let ghost nm = name.spec_bytes();
        let in_url = is_url(name);
        let in_calc = is_calc(name);
        let mut nodes: Vec<Node<'a>> = Vec::new();
        loop
            invariant_except_break
                function_body(ts, src, nm).nodes == nodes_view(nodes@) + function_body(
                    self.remaining(),
                    src,
                    nm,
                ).nodes,
                function_body(ts, src, nm).rest == function_body(self.remaining(), src, nm).rest,
            invariant
                self.wf(),
                self.source() == src,
                all_borrow(nodes@),
                self.remaining().len() <= ts.len(),
                ts == old(self).remaining(),
                nm == name.spec_bytes(),
                in_url == (nm == url_name()),
                in_calc == (nm == calc_name()),
            ensures
                function_body(ts, src, nm).nodes == nodes_view(nodes@),
                function_body(ts, src, nm).rest == self.remaining(),
            decreases self.remaining().len(),
        {
            let ghost now = self.remaining();
            let ghost before = nodes@;
            let (kind, content) = match self.peek() {
                Some(next) => next,
                None => {
                    break ;
                },
            };
            match kind {
                TokenType::Space => {
                    append(&mut nodes, Node::Space(self.parse_space()));
                },
                TokenType::Comment => {
                    append(&mut nodes, Node::Comment(self.parse_comment()));
                },
                TokenType::String => {
                    append(&mut nodes, Node::String(self.parse_string()));
                },
                TokenType::Div => {
                    if is_byte(content, SLASH) && in_url {
                        append(&mut nodes, Node::Word(self.parse_url_word()));
                    } else if is_byte(content, SLASH) && !in_calc {
                        append(&mut nodes, Node::Div(self.parse_div()));
                    } else if is_byte(content, COMMA) || is_byte(content, COLON) {
                        append(&mut nodes, Node::Div(self.parse_div()));
                    } else {
                        append(&mut nodes, Node::Word(self.parse_word()));
                    }
                },
                TokenType::UnicodeRange => {
                    append(&mut nodes, Node::UnicodeRange(self.parse_unicode_range()));
                },
                TokenType::Word => {
                    if in_url {
                        append(&mut nodes, Node::Word(self.parse_url_word()));
                    } else {
                        append(&mut nodes, self.parse_word_or_function());
                    }
                },
                TokenType::OpenParentheses => {
                    let token = self.bump();
                    append(&mut nodes, function_node(self.parse_function(no_name(), token.2)));
                },
                TokenType::CloseParentheses => {
                    self.bump();
                    break ;
                },
                _ => {
                    self.bump();
                },
            }
            proof {
                lemma_body_step(
                    now,
                    src,
                    nm,
                    nodes_view(before),
                    nodes_view(nodes@),
                    self.remaining(),
                );
            }
        }
        node::Function { source_index: index, value: Cow::Borrowed(name), nodes }
    }
}

} // verus!
