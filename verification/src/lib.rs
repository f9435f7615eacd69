//! A tolerant parser for CSS declaration values.
//!
//! A value such as `10px solid red`, `rgba(0, 0, 0, .5)` or `url(/a.png)` is
//! cut into tokens by [`tokenizer::Tokenizer`] and assembled by [`parse`] into
//! a tree of [`node::Node`]s, each annotated with its byte offset in the
//! input. [`unit::unit`] splits a dimension such as `12px` into its number
//! and its unit. No input is refused: a string, a comment or a function that
//! is left open ends with the input.
//!
//! What the functions compute is stated over the bytes of the input:
//! [`lexical`] says which tokens an input holds, [`grammar`] which nodes a
//! sequence of tokens stands for, and [`layout`] where these nodes lie in
//! the input.

pub mod ascii;
pub mod grammar;
pub mod layout;
pub mod lexical;
pub mod node;
pub mod parser;
pub mod search;
pub mod syntax;
pub mod text;
pub mod tokenizer;
pub mod unit;

use vstd::prelude::*;
use vstd::string::StringSliceAdditionalSpecFns;
use crate::grammar::value_nodes;
use crate::layout::{in_order, lemma_nodes_in_order};
use crate::node::{all_alike, all_borrow, lemma_view_determines_nodes, nodes_view, Node};
use crate::parser::Parser;

verus! {

/// Parses a CSS value into its nodes: the nodes that the grammar gives for
/// the tokens of `value`. They borrow their text from `value`, and follow it
/// from left to right.
pub fn parse<'a>(value: &'a str) -> (nodes: Vec<Node<'a>>)
    ensures
        nodes_view(nodes@) == value_nodes(value.spec_bytes()),
        all_borrow(nodes@),
        in_order(nodes_view(nodes@), value.spec_bytes(), 0, value.spec_bytes().len() as int),
{
    proof {
        lemma_nodes_in_order(value.spec_bytes());
    }
    Parser::new(value).parse()
}

/// Parsing depends on the text alone: the trees that `parse` gives for one
/// text, whenever it is called, are alike node by node.
pub proof fn lemma_parse_deterministic(
    text: &str,
    first: Vec<Node>,
    again: &str,
    second: Vec<Node>,
)
    requires
        text@ == again@,
        nodes_view(first@) == value_nodes(text.spec_bytes()),
        nodes_view(second@) == value_nodes(again.spec_bytes()),
    ensures
        all_alike(first@, second@),
{
    lemma_view_determines_nodes(first@, second@);
}

} // verus!
