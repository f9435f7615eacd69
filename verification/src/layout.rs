//! Where the nodes of a value lie in the input.
//!
//! The nodes of a value follow the input from left to right. Each node holds
//! the text that stands at its offset, no two nodes overlap, and the nodes of
//! a function lie after its opening parenthesis and before the node that
//! follows the function. [`lemma_nodes_in_order`] states this of every input.

use vstd::prelude::*;
use crate::ascii::{OPEN_PAREN, SLASH, STAR};
use crate::grammar::{
    body_item, comment_of, div_of, function_body, group, lemma_body_item_progress,
    lemma_stray_run_bound, lemma_top_item_progress, lemma_url_run_bound, merged, names_function,
    space_of, stray_run, string_of, top_item, top_level, unicode_range_of, url_name, url_run,
    url_word, value_nodes, word_of, word_or_function,
};
use crate::lexical::{
    lemma_comment_close, lemma_tokens_contiguous, lemma_tokens_from_step, token_at, token_end,
    tokens_from,
};
use crate::node::NodeView;
use crate::tokenizer::{TokenType, TokenView};

verus! {

/// The node lies in the part `lo..hi` of the input `src`, and what it holds
/// is what stands there: a comment starts with `/*` and holds the text after
/// it; a function holds its name, an opening parenthesis follows the name,
/// and its nodes lie in order between that parenthesis and `hi`; any other
/// node holds its own text, which is not empty.
pub open spec fn placed(node: NodeView, src: Seq<u8>, lo: int, hi: int) -> bool
    decreases node,
{
    let at = node.source_index();
    let text = node.value();
    match node {
        NodeView::Comment { .. } => {
            &&& 0 <= lo <= at
            &&& at + 2 + text.len() <= hi <= src.len()
            &&& src[at] == SLASH
            &&& src[at + 1] == STAR
            &&& text == src.subrange(at + 2, at + 2 + text.len())
        },
        NodeView::Function { nodes, .. } => {
            &&& 0 <= lo <= at
            &&& at + text.len() < hi <= src.len()
            &&& text == src.subrange(at, at + text.len())
            &&& src[at + text.len()] == OPEN_PAREN
            &&& forall|i: int|
                0 <= i < nodes.len() ==> placed(
                    nodes[i],
                    src,
                    at + text.len() + 1,
                    #[trigger] limit(nodes, i, hi),
                )
        },
        _ => {
            &&& 0 <= lo <= at
            &&& at < at + text.len() <= hi <= src.len()
            &&& text == src.subrange(at, at + text.len())
        },
    }
}

/// The offset before which the node at index `i` has to end: the start of
/// the node after it, or `hi` if it is the last.
pub open spec fn limit(nodes: Seq<NodeView>, i: int, hi: int) -> int {
    if i + 1 < nodes.len() {
        nodes[i + 1].source_index()
    } else {
        hi
    }
}

/// The nodes lie in the part `lo..hi` of the input, one after the other in
/// the order of the sequence.
pub open spec fn in_order(nodes: Seq<NodeView>, src: Seq<u8>, lo: int, hi: int) -> bool {
    forall|i: int|
        0 <= i < nodes.len() ==> placed(nodes[i], src, lo, #[trigger] limit(nodes, i, hi))
}

/// A node that lies in a part of the input lies in every part that holds
/// that part.
pub proof fn lemma_placed_wider(
    node: NodeView,
    src: Seq<u8>,
    lo: int,
    hi: int,
    wider_lo: int,
    wider_hi: int,
)
    requires
        placed(node, src, lo, hi),
        0 <= wider_lo <= lo,
        hi <= wider_hi <= src.len(),
    ensures
        placed(node, src, wider_lo, wider_hi),
    decreases node,
{
    match node {
        NodeView::Function { nodes, .. } => {
            let inner = node.source_index() + node.value().len() + 1;
            assert forall|i: int| 0 <= i < nodes.len() implies placed(
                nodes[i],
                src,
                inner,
                #[trigger] limit(nodes, i, wider_hi),
            ) by {
                assert(placed(nodes[i], src, inner, limit(nodes, i, hi)));
                lemma_placed_wider(
                    nodes[i],
                    src,
                    inner,
                    limit(nodes, i, hi),
                    inner,
                    limit(nodes, i, wider_hi),
                );
            }
        },
        _ => {},
    }
}

/// Nodes in order in one part of the input, followed by nodes in order in
/// the part after it, are in order in the two parts together.
pub proof fn lemma_in_order_joined(
    first: Seq<NodeView>,
    others: Seq<NodeView>,
    src: Seq<u8>,
    lo: int,
    mid: int,
    hi: int,
)
    requires
        in_order(first, src, lo, mid),
        in_order(others, src, mid, hi),
        0 <= lo <= mid <= hi <= src.len(),
    ensures
        in_order(first + others, src, lo, hi),
{
    let all = first + others;
    assert forall|i: int| 0 <= i < all.len() implies placed(
        all[i],
        src,
        lo,
        #[trigger] limit(all, i, hi),
    ) by {
        if i < first.len() {
            assert(placed(first[i], src, lo, limit(first, i, mid)));
            if i + 1 == first.len() {
                // The last of the first nodes ends before `mid`, and what
                // follows it starts at `mid` or later.
                if others.len() > 0 {
                    assert(placed(others[0], src, mid, limit(others, 0, hi)));
                }
                lemma_placed_wider(first[i], src, lo, mid, lo, limit(all, i, hi));
            }
        } else {
            let j = i - first.len();
            lemma_placed_wider(others[j], src, mid, limit(others, j, hi), lo, limit(all, i, hi));
        }
    }
}

/// The offset at which the token at index `k` starts, or the length of the
/// input if there is no such token.
pub open spec fn start_at(ts: Seq<TokenView>, k: int, len: int) -> int {
    if 0 <= k < ts.len() {
        ts[k].start
    } else {
        len
    }
}

/// The tokens from the one at index `k` on are the tokens of the input from
/// the offset at which that one starts.
pub proof fn lemma_tokens_from_skip(src: Seq<u8>, p: int, k: int)
    requires
        0 <= p <= src.len(),
        0 <= k <= tokens_from(src, p).len(),
    ensures
        tokens_from(src, p).skip(k) == tokens_from(
            src,
            start_at(tokens_from(src, p), k, src.len() as int),
        ),
        p <= start_at(tokens_from(src, p), k, src.len() as int) <= src.len(),
        0 < k ==> tokens_from(src, p)[k - 1].end == start_at(
            tokens_from(src, p),
            k,
            src.len() as int,
        ),
    decreases k,
{
    lemma_tokens_contiguous(src, p);
    if k > 0 {
        // Beyond the first, the tokens from `p` are those from the end of
        // the first.
        lemma_tokens_from_step(src, p);
        lemma_tokens_from_skip(src, token_end(src, p), k - 1);
    }
}

/// The node made of a token that is not a comment lies where the token lies.
pub proof fn lemma_leaf_placed(src: Seq<u8>, p: int)
    requires
        0 <= p < src.len(),
        token_at(src, p).kind != TokenType::Comment,
    ensures
        p < token_end(src, p) <= src.len(),
        placed(word_of(token_at(src, p)), src, p, token_end(src, p)),
        placed(space_of(token_at(src, p)), src, p, token_end(src, p)),
        placed(div_of(token_at(src, p)), src, p, token_end(src, p)),
        placed(string_of(token_at(src, p)), src, p, token_end(src, p)),
        placed(unicode_range_of(token_at(src, p)), src, p, token_end(src, p)),
{
    lemma_tokens_from_step(src, p);
}

/// The node made of a comment lies where the comment lies.
pub proof fn lemma_comment_placed(src: Seq<u8>, p: int)
    requires
        0 <= p < src.len(),
        token_at(src, p).kind == TokenType::Comment,
    ensures
        p < token_end(src, p) <= src.len(),
        placed(comment_of(token_at(src, p)), src, p, token_end(src, p)),
{
    lemma_tokens_from_step(src, p);
    lemma_comment_close(src, p + 1);
    let text = token_at(src, p).content;
    assert(text =~= src.subrange(p + 2, p + 2 + text.len()));
}

/// A word made of the token at `p` and the `n` tokens after it lies where
/// these tokens lie, and the tokens left are those from the end of the last
/// of them.
pub proof fn lemma_merged_placed(src: Seq<u8>, p: int, n: nat) -> (q: int)
    requires
        0 <= p < src.len(),
        n < tokens_from(src, p).len(),
    ensures
        p < q <= src.len(),
        q == tokens_from(src, p)[n as int].end,
        merged(tokens_from(src, p), src, n).rest == tokens_from(src, q),
        in_order(merged(tokens_from(src, p), src, n).nodes, src, p, q),
{
    let ts = tokens_from(src, p);
    lemma_tokens_contiguous(src, p);
    lemma_tokens_from_skip(src, p, n as int + 1);
    let q = ts[n as int].end;
    let nodes = merged(ts, src, n).nodes;
    assert forall|i: int| 0 <= i < nodes.len() implies placed(
        nodes[i],
        src,
        p,
        #[trigger] limit(nodes, i, q),
    ) by {}
    q
}

/// One node that lies in a part of the input is in order there.
pub proof fn lemma_one_in_order(node: NodeView, src: Seq<u8>, lo: int, hi: int)
    requires
        placed(node, src, lo, hi),
    ensures
        in_order(seq![node], src, lo, hi),
{
    assert forall|i: int| 0 <= i < seq![node].len() implies placed(
        seq![node][i],
        src,
        lo,
        #[trigger] limit(seq![node], i, hi),
    ) by {}
}

/// A function whose name, if it has one, is the token at `p`, whose opening
/// parenthesis stands at `open`, and whose nodes lie in order after it, lies
/// where all of these lie.
pub proof fn lemma_function_placed(
    src: Seq<u8>,
    p: int,
    open: int,
    name: Seq<u8>,
    nodes: Seq<NodeView>,
    q: int,
)
    requires
        0 <= p <= open < q <= src.len(),
        name == src.subrange(p, open),
        src[open] == OPEN_PAREN,
        in_order(nodes, src, open + 1, q),
    ensures
        in_order(seq![NodeView::Function { source_index: p, value: name, nodes }], src, p, q),
{
    let node = NodeView::Function { source_index: p, value: name, nodes };
    assert forall|i: int| 0 <= i < nodes.len() implies placed(
        nodes[i],
        src,
        p + name.len() + 1,
        #[trigger] limit(nodes, i, q),
    ) by {}
    lemma_one_in_order(node, src, p, q);
}

/// The nodes that a token other than a comment makes as a leaf, each alone,
/// are in order where the token lies.
pub proof fn lemma_leaf_in_order(src: Seq<u8>, p: int)
    requires
        0 <= p < src.len(),
        token_at(src, p).kind != TokenType::Comment,
    ensures
        in_order(seq![word_of(token_at(src, p))], src, p, token_end(src, p)),
        in_order(seq![space_of(token_at(src, p))], src, p, token_end(src, p)),
        in_order(seq![div_of(token_at(src, p))], src, p, token_end(src, p)),
        in_order(seq![string_of(token_at(src, p))], src, p, token_end(src, p)),
        in_order(seq![unicode_range_of(token_at(src, p))], src, p, token_end(src, p)),
{
    let t = token_at(src, p);
    let next = token_end(src, p);
    lemma_leaf_placed(src, p);
    lemma_one_in_order(word_of(t), src, p, next);
    lemma_one_in_order(space_of(t), src, p, next);
    lemma_one_in_order(div_of(t), src, p, next);
    lemma_one_in_order(string_of(t), src, p, next);
    lemma_one_in_order(unicode_range_of(t), src, p, next);
}

/// A group in parentheses that opens at `p` lies between `p` and the offset
/// from which the tokens that are left start.
pub proof fn lemma_group_layout(src: Seq<u8>, p: int) -> (q: int)
    requires
        0 <= p < src.len(),
        token_at(src, p).kind == TokenType::OpenParentheses,
    ensures
        p < q <= src.len(),
        group(tokens_from(src, p), src).rest == tokens_from(src, q),
        in_order(group(tokens_from(src, p), src).nodes, src, p, q),
    decreases src.len() - p, 0nat,
{
    lemma_tokens_from_step(src, p);
    let inner = token_end(src, p);
    let q = lemma_body_layout(src, inner, Seq::empty());
    let body = function_body(tokens_from(src, inner), src, Seq::empty());
    assert(src.subrange(p, p) =~= Seq::<u8>::empty());
    lemma_function_placed(src, p, p, Seq::empty(), body.nodes, q);
    q
}

/// A word at `p`, or the function that it names, lies between `p` and the
/// offset from which the tokens that are left start.
pub proof fn lemma_word_or_function_layout(src: Seq<u8>, p: int) -> (q: int)
    requires
        0 <= p < src.len(),
        token_at(src, p).kind == TokenType::Word,
    ensures
        p < q <= src.len(),
        word_or_function(tokens_from(src, p), src).rest == tokens_from(src, q),
        in_order(word_or_function(tokens_from(src, p), src).nodes, src, p, q),
    decreases src.len() - p, 0nat,
{
    let ts = tokens_from(src, p);
    lemma_tokens_from_step(src, p);
    lemma_leaf_in_order(src, p);
    let t = ts[0];
    let open = token_end(src, p);
    if names_function(ts) {
        lemma_tokens_from_step(src, open);
        assert(ts.skip(2) =~= ts.skip(1).skip(1));
        let inner = token_end(src, open);
        let q = lemma_body_layout(src, inner, t.content);
        let body = function_body(tokens_from(src, inner), src, t.content);
        lemma_function_placed(src, p, open, t.content, body.nodes, q);
        q
    } else {
        open
    }
}

/// The first step inside a function: the nodes made lie in order between
/// the offset at which the step starts and the offset from which the tokens
/// that are left start.
pub proof fn lemma_item_layout(src: Seq<u8>, p: int, name: Seq<u8>) -> (q: int)
    requires
        0 <= p < src.len(),
    ensures
        p < q <= src.len(),
        body_item(tokens_from(src, p), src, name).rest == tokens_from(src, q),
        in_order(body_item(tokens_from(src, p), src, name).nodes, src, p, q),
    decreases src.len() - p, 1nat,
{
    let ts = tokens_from(src, p);
    lemma_tokens_from_step(src, p);
    let t = ts[0];
    let next = token_end(src, p);
    match t.kind {
        TokenType::Comment => {
            lemma_comment_placed(src, p);
            lemma_one_in_order(comment_of(t), src, p, next);
            next
        },
        TokenType::OpenParentheses => lemma_group_layout(src, p),
        TokenType::CloseParentheses | TokenType::Unknown => next,
        TokenType::Word => {
            if name == url_name() {
                lemma_url_run_bound(ts.skip(1));
                lemma_merged_placed(src, p, url_run(ts.skip(1)))
            } else {
                lemma_word_or_function_layout(src, p)
            }
        },
        TokenType::Div => {
            lemma_leaf_in_order(src, p);
            if body_item(ts, src, name) == url_word(ts, src) {
                lemma_url_run_bound(ts.skip(1));
                lemma_merged_placed(src, p, url_run(ts.skip(1)))
            } else {
                next
            }
        },
        _ => {
            lemma_leaf_in_order(src, p);
            next
        },
    }
}

/// The body of a function: its nodes lie in order between the offset at
/// which the body starts and the offset from which the tokens that are left
/// start.
pub proof fn lemma_body_layout(src: Seq<u8>, p: int, name: Seq<u8>) -> (q: int)
    requires
        0 <= p <= src.len(),
    ensures
        p <= q <= src.len(),
        function_body(tokens_from(src, p), src, name).rest == tokens_from(src, q),
        in_order(function_body(tokens_from(src, p), src, name).nodes, src, p, q),
    decreases src.len() - p, 2nat,
{
    let ts = tokens_from(src, p);
    lemma_tokens_contiguous(src, p);
    if p == src.len() {
        p
    } else {
        lemma_tokens_from_step(src, p);
        if ts[0].kind == TokenType::CloseParentheses {
            token_end(src, p)
        } else {
            let mid = lemma_item_layout(src, p, name);
            let q = lemma_body_layout(src, mid, name);
            lemma_body_item_progress(ts, src, name);
            lemma_in_order_joined(
                body_item(ts, src, name).nodes,
                function_body(tokens_from(src, mid), src, name).nodes,
                src,
                p,
                mid,
                q,
            );
            q
        }
    }
}

/// The first step at the top level: as inside a function.
pub proof fn lemma_top_item_layout(src: Seq<u8>, p: int) -> (q: int)
    requires
        0 <= p < src.len(),
    ensures
        p < q <= src.len(),
        top_item(tokens_from(src, p), src).rest == tokens_from(src, q),
        in_order(top_item(tokens_from(src, p), src).nodes, src, p, q),
{
    let ts = tokens_from(src, p);
    lemma_tokens_from_step(src, p);
    let t = ts[0];
    let next = token_end(src, p);
    match t.kind {
        TokenType::Comment => {
            lemma_comment_placed(src, p);
            lemma_one_in_order(comment_of(t), src, p, next);
            next
        },
        TokenType::OpenParentheses => lemma_group_layout(src, p),
        TokenType::CloseParentheses => {
            lemma_stray_run_bound(ts.skip(1));
            lemma_merged_placed(src, p, stray_run(ts.skip(1)))
        },
        TokenType::Unknown => next,
        TokenType::Word => lemma_word_or_function_layout(src, p),
        _ => {
            lemma_leaf_in_order(src, p);
            next
        },
    }
}

/// The nodes at the top level, from the offset `p` on, lie in order between
/// `p` and the end of the input.
pub proof fn lemma_top_layout(src: Seq<u8>, p: int)
    requires
        0 <= p <= src.len(),
    ensures
        in_order(top_level(tokens_from(src, p), src), src, p, src.len() as int),
    decreases src.len() - p,
{
    let ts = tokens_from(src, p);
    lemma_tokens_contiguous(src, p);
    if p < src.len() {
        let mid = lemma_top_item_layout(src, p);
        lemma_top_layout(src, mid);
        lemma_top_item_progress(ts, src);
        lemma_in_order_joined(
            top_item(ts, src).nodes,
            top_level(tokens_from(src, mid), src),
            src,
            p,
            mid,
            src.len() as int,
        );
    }
}

/// The nodes of a value follow the input from left to right: each holds the
/// text that stands at its offset, none overlaps another, and the nodes of a
/// function lie between its opening parenthesis and the node that follows
/// the function.
pub proof fn lemma_nodes_in_order(src: Seq<u8>)
    ensures
        in_order(value_nodes(src), src, 0, src.len() as int),
{
    lemma_top_layout(src, 0);
}

} // verus!
