//! The grammar: which nodes a sequence of tokens stands for.
//!
//! Everything here is specification. [`top_level`] gives the nodes of a whole
//! value, [`function_body`] those between the parentheses of a function.
//! The tokens are taken from left to right, and each step says which nodes
//! the first tokens make and which tokens are left.

use vstd::prelude::*;
use crate::ascii::{COLON, COMMA, LOWER_A, LOWER_C, LOWER_L, LOWER_R, LOWER_U, SLASH};
use crate::lexical::tokens_from;
use crate::node::NodeView;
use crate::tokenizer::{TokenType, TokenView};

verus! {

/// The outcome of a step: the nodes made, and the tokens not yet used.
pub struct Parsed {
    pub nodes: Seq<NodeView>,
    pub rest: Seq<TokenView>,
}

/// The name `url`.
pub open spec fn url_name() -> Seq<u8> {
    seq![LOWER_U, LOWER_R, LOWER_L]
}

/// The name `calc`.
pub open spec fn calc_name() -> Seq<u8> {
    seq![LOWER_C, LOWER_A, LOWER_L, LOWER_C]
}

/// The token as a word: the node starts where the token starts and holds its
/// content.
pub open spec fn word_of(t: TokenView) -> NodeView {
    NodeView::Word { source_index: t.start, value: t.content }
}

/// The token as a run of white space: the node starts where the token starts and holds its
/// content.
pub open spec fn space_of(t: TokenView) -> NodeView {
    NodeView::Space { source_index: t.start, value: t.content }
}

/// The token as a comment: the node starts where the token starts and holds its
/// content.
pub open spec fn comment_of(t: TokenView) -> NodeView {
    NodeView::Comment { source_index: t.start, value: t.content }
}

/// The token as a unicode range: the node starts where the token starts and holds its
/// content.
pub open spec fn unicode_range_of(t: TokenView) -> NodeView {
    NodeView::UnicodeRange { source_index: t.start, value: t.content }
}

/// The token as a divider: the node starts where the token starts and holds its
/// content.
pub open spec fn div_of(t: TokenView) -> NodeView {
    NodeView::Div { source_index: t.start, value: t.content }
}

/// The token as a string: the node starts where the token starts and holds its
/// content.
pub open spec fn string_of(t: TokenView) -> NodeView {
    NodeView::String { source_index: t.start, value: t.content }
}

/// One node, and the tokens after the first.
pub open spec fn one(node: NodeView, ts: Seq<TokenView>) -> Parsed {
    Parsed { nodes: seq![node], rest: ts.skip(1) }
}

/// No node: the first token is dropped.
pub open spec fn dropped(ts: Seq<TokenView>) -> Parsed {
    Parsed { nodes: Seq::empty(), rest: ts.skip(1) }
}

/// A function with the given name and offset, whose body has been parsed.
pub open spec fn call(source_index: int, name: Seq<u8>, body: Parsed) -> Parsed {
    Parsed {
        nodes: seq![NodeView::Function { source_index, value: name, nodes: body.nodes }],
        rest: body.rest,
    }
}

/// A token that an unquoted URL takes in: a word, or one of the dividers `/`
/// and `:`.
pub open spec fn joins_url(t: TokenView) -> bool {
    t.kind == TokenType::Word || (t.kind == TokenType::Div && (t.content == seq![SLASH]
        || t.content == seq![COLON]))
}

/// A token that a stray closing parenthesis takes in: a word, or another
/// closing parenthesis.
pub open spec fn joins_stray(t: TokenView) -> bool {
    t.kind == TokenType::CloseParentheses || t.kind == TokenType::Word
}

/// How many tokens at the start of `ts` an unquoted URL takes in.
pub open spec fn url_run(ts: Seq<TokenView>) -> nat
    decreases ts.len(),
{
    if ts.len() > 0 && joins_url(ts[0]) {
        1 + url_run(ts.skip(1))
    } else {
        0
    }
}

/// How many tokens at the start of `ts` a stray closing parenthesis takes in.
pub open spec fn stray_run(ts: Seq<TokenView>) -> nat
    decreases ts.len(),
{
    if ts.len() > 0 && joins_stray(ts[0]) {
        1 + stray_run(ts.skip(1))
    } else {
        0
    }
}

/// The first token and the `n` tokens after it as one word. Its text is the
/// part of the input from the start of the first of them to the end of the
/// last.
pub open spec fn merged(ts: Seq<TokenView>, src: Seq<u8>, n: nat) -> Parsed {
    Parsed {
        nodes: seq![
            NodeView::Word {
                source_index: ts[0].start,
                value: src.subrange(ts[0].start, ts[n as int].end),
            },
        ],
        rest: ts.skip(1 + n as int),
    }
}

/// An unquoted URL: the first token and every token after it that joins it.
pub open spec fn url_word(ts: Seq<TokenView>, src: Seq<u8>) -> Parsed {
    merged(ts, src, url_run(ts.skip(1)))
}

/// A stray closing parenthesis, and every token after it that joins it.
pub open spec fn stray_word(ts: Seq<TokenView>, src: Seq<u8>) -> Parsed {
    merged(ts, src, stray_run(ts.skip(1)))
}

/// A word is followed at once by an opening parenthesis: it names a function.
pub open spec fn names_function(ts: Seq<TokenView>) -> bool {
    ts.len() > 1 && ts[1].kind == TokenType::OpenParentheses
}

/// A word, or, if the word names a function, that function, whose body is
/// taken from the tokens after the opening parenthesis.
pub open spec fn word_or_function(ts: Seq<TokenView>, src: Seq<u8>) -> Parsed
    recommends
        ts.len() > 0,
    decreases ts.len(), 0nat,
{
    let t = ts[0];
    if names_function(ts) {
        call(t.start, t.content, function_body(ts.skip(2), src, t.content))
    } else {
        one(word_of(t), ts)
    }
}

/// A group in parentheses: a function without a name, which starts at its
/// opening parenthesis.
pub open spec fn group(ts: Seq<TokenView>, src: Seq<u8>) -> Parsed
    recommends
        ts.len() > 0,
    decreases ts.len(), 0nat,
    when ts.len() > 0
{
    call(ts[0].start, Seq::empty(), function_body(ts.skip(1), src, Seq::empty()))
}

/// What a divider inside the function `name` becomes. A slash is part of the
/// address in `url`, an operator in `calc` and a divider elsewhere; a comma or
/// a colon is a divider everywhere. A divider of any other content, which no
/// input has, is taken as a word.
pub open spec fn divider_in(ts: Seq<TokenView>, src: Seq<u8>, name: Seq<u8>) -> Parsed {
    let t = ts[0];
    if t.content == seq![SLASH] && name == url_name() {
        url_word(ts, src)
    } else if t.content == seq![SLASH] && name != calc_name() {
        one(div_of(t), ts)
    } else if t.content == seq![COMMA] || t.content == seq![COLON] {
        one(div_of(t), ts)
    } else {
        one(word_of(t), ts)
    }
}

/// The first step inside the function `name`, where `ts` does not start with
/// a closing parenthesis.
pub open spec fn body_item(ts: Seq<TokenView>, src: Seq<u8>, name: Seq<u8>) -> Parsed
    recommends
        ts.len() > 0,
    decreases ts.len(), 1nat,
    when ts.len() > 0
{
    let t = ts[0];
    match t.kind {
        TokenType::Space => one(space_of(t), ts),
        TokenType::Comment => one(comment_of(t), ts),
        TokenType::String => one(string_of(t), ts),
        TokenType::UnicodeRange => one(unicode_range_of(t), ts),
        TokenType::Div => divider_in(ts, src, name),
        TokenType::Word => if name == url_name() {
            url_word(ts, src)
        } else {
            word_or_function(ts, src)
        },
        TokenType::OpenParentheses => group(ts, src),
        _ => dropped(ts),
    }
}

/// The nodes inside the function `name`, up to the closing parenthesis that
/// ends it or to the end of the tokens, and the tokens after that parenthesis.
pub open spec fn function_body(ts: Seq<TokenView>, src: Seq<u8>, name: Seq<u8>) -> Parsed
    decreases ts.len(), 2nat,
{
    if ts.len() == 0 {
        Parsed { nodes: Seq::empty(), rest: ts }
    } else if ts[0].kind == TokenType::CloseParentheses {
        dropped(ts)
    } else {
        let item = body_item(ts, src, name);
        // A step always uses at least one token; the test is what shows that
        // this definition is well founded.
        if item.rest.len() < ts.len() {
            let others = function_body(item.rest, src, name);
            Parsed { nodes: item.nodes + others.nodes, rest: others.rest }
        } else {
            item
        }
    }
}

/// The first step at the top level.
pub open spec fn top_item(ts: Seq<TokenView>, src: Seq<u8>) -> Parsed
    recommends
        ts.len() > 0,
{
    let t = ts[0];
    match t.kind {
        TokenType::Space => one(space_of(t), ts),
        TokenType::Comment => one(comment_of(t), ts),
        TokenType::String => one(string_of(t), ts),
        TokenType::Div => one(div_of(t), ts),
        TokenType::UnicodeRange => one(unicode_range_of(t), ts),
        TokenType::Word => word_or_function(ts, src),
        TokenType::OpenParentheses => group(ts, src),
        TokenType::CloseParentheses => stray_word(ts, src),
        TokenType::Unknown => dropped(ts),
    }
}

/// The nodes of the tokens `ts` at the top level.
pub open spec fn top_level(ts: Seq<TokenView>, src: Seq<u8>) -> Seq<NodeView>
    decreases ts.len(),
{
    if ts.len() == 0 {
        Seq::empty()
    } else {
        let item = top_item(ts, src);
        // As in `function_body`.
        if item.rest.len() < ts.len() {
            item.nodes + top_level(item.rest, src)
        } else {
            item.nodes
        }
    }
}

/// The nodes of the value `src`.
pub open spec fn value_nodes(src: Seq<u8>) -> Seq<NodeView> {
    top_level(tokens_from(src, 0), src)
}

/// A run is no longer than the tokens it is taken from.
pub proof fn lemma_url_run_bound(ts: Seq<TokenView>)
    ensures
        url_run(ts) <= ts.len(),
    decreases ts.len(),
{
    if ts.len() > 0 && joins_url(ts[0]) {
        lemma_url_run_bound(ts.skip(1));
    }
}

/// A run is no longer than the tokens it is taken from.
pub proof fn lemma_stray_run_bound(ts: Seq<TokenView>)
    ensures
        stray_run(ts) <= ts.len(),
    decreases ts.len(),
{
    if ts.len() > 0 && joins_stray(ts[0]) {
        lemma_stray_run_bound(ts.skip(1));
    }
}

/// A step inside a function uses at least one token.
pub proof fn lemma_body_item_progress(ts: Seq<TokenView>, src: Seq<u8>, name: Seq<u8>)
    requires
        ts.len() > 0,
    ensures
        body_item(ts, src, name).rest.len() < ts.len(),
    decreases ts.len(), 0nat,
{
    lemma_url_run_bound(ts.skip(1));
    if ts.len() > 1 {
        lemma_function_body_rest(ts.skip(2), src, ts[0].content);
    }
    lemma_function_body_rest(ts.skip(1), src, Seq::empty());
}

/// The body of a function leaves no more tokens than it was given.
pub proof fn lemma_function_body_rest(ts: Seq<TokenView>, src: Seq<u8>, name: Seq<u8>)
    ensures
        function_body(ts, src, name).rest.len() <= ts.len(),
        ts.len() > 0 ==> function_body(ts, src, name).rest.len() < ts.len(),
    decreases ts.len(), 1nat,
{
    if ts.len() > 0 && ts[0].kind != TokenType::CloseParentheses {
        lemma_body_item_progress(ts, src, name);
        lemma_function_body_rest(body_item(ts, src, name).rest, src, name);
    }
}

/// A step at the top level uses at least one token.
pub proof fn lemma_top_item_progress(ts: Seq<TokenView>, src: Seq<u8>)
    requires
        ts.len() > 0,
    ensures
        top_item(ts, src).rest.len() < ts.len(),
{
    lemma_stray_run_bound(ts.skip(1));
    if ts.len() > 1 {
        lemma_function_body_rest(ts.skip(2), src, ts[0].content);
    }
    lemma_function_body_rest(ts.skip(1), src, Seq::empty());
}

} // verus!
