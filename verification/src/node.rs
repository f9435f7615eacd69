//! The nodes of a parsed value.
//!
//! A node holds the byte offset at which it starts in the input and its text.
//! A function also holds the nodes between its parentheses; the parentheses
//! themselves are not nodes.

use std::borrow::Cow;
use vstd::prelude::*;
use vstd::std_specs::convert::FromSpecImpl;
use vstd::utf8::{encode_utf8, encode_utf8_decode_utf8};

verus! {

/// A word: anything that is not one of the other nodes.
#[derive(Debug, Eq, PartialEq)]
pub struct Word<'a> {
    pub source_index: usize,
    pub value: Cow<'a, str>,
}

/// A run of white space.
#[derive(Debug, Eq, PartialEq)]
pub struct Space<'a> {
    pub source_index: usize,
    pub value: Cow<'a, str>,
}

/// A comment; the value is the text between `/*` and `*/`.
#[derive(Debug, Eq, PartialEq)]
pub struct Comment<'a> {
    pub source_index: usize,
    pub value: Cow<'a, str>,
}

/// A unicode range such as `U+0025-00FF`.
#[derive(Debug, Eq, PartialEq)]
pub struct UnicodeRange<'a> {
    pub source_index: usize,
    pub value: Cow<'a, str>,
}

/// One of the dividers `/`, `,` and `:`.
#[derive(Debug, Eq, PartialEq)]
pub struct Div<'a> {
    pub source_index: usize,
    pub value: Cow<'a, str>,
}

/// A quoted string; the value includes the quotes.
#[derive(Debug, Eq, PartialEq)]
pub struct String<'a> {
    pub source_index: usize,
    pub value: Cow<'a, str>,
}

/// A function call, or a group in parentheses. The value is the name of the
/// function, empty for a group; `source_index` is the offset of the name, or
/// of the opening parenthesis of a group.
#[derive(Debug, Eq, PartialEq)]
pub struct Function<'a> {
    pub source_index: usize,
    pub value: Cow<'a, str>,
    pub nodes: Vec<Node<'a>>,
}

/// A node of a parsed value.
#[derive(Debug, Eq, PartialEq)]
pub enum Node<'a> {
    Word(Word<'a>),
    Space(Space<'a>),
    Comment(Comment<'a>),
    UnicodeRange(UnicodeRange<'a>),
    Div(Div<'a>),
    String(String<'a>),
    Function(Function<'a>),
}

/// A node as a mathematical value. The text of a node is given as its bytes.
pub enum NodeView {
    Word { source_index: int, value: Seq<u8> },
    Space { source_index: int, value: Seq<u8> },
    Comment { source_index: int, value: Seq<u8> },
    UnicodeRange { source_index: int, value: Seq<u8> },
    Div { source_index: int, value: Seq<u8> },
    String { source_index: int, value: Seq<u8> },
    Function { source_index: int, value: Seq<u8>, nodes: Seq<NodeView> },
}

impl NodeView {
    /// The offset at which the node starts.
    pub open spec fn source_index(self) -> int {
        match self {
            NodeView::Word { source_index, .. } => source_index,
            NodeView::Space { source_index, .. } => source_index,
            NodeView::Comment { source_index, .. } => source_index,
            NodeView::UnicodeRange { source_index, .. } => source_index,
            NodeView::Div { source_index, .. } => source_index,
            NodeView::String { source_index, .. } => source_index,
            NodeView::Function { source_index, .. } => source_index,
        }
    }

    /// The text of the node.
    pub open spec fn value(self) -> Seq<u8> {
        match self {
            NodeView::Word { value, .. } => value,
            NodeView::Space { value, .. } => value,
            NodeView::Comment { value, .. } => value,
            NodeView::UnicodeRange { value, .. } => value,
            NodeView::Div { value, .. } => value,
            NodeView::String { value, .. } => value,
            NodeView::Function { value, .. } => value,
        }
    }
}

impl<'a> View for Word<'a> {
    type V = NodeView;

    open spec fn view(&self) -> NodeView {
        NodeView::Word { source_index: self.source_index as int, value: encode_utf8(self.value@) }
    }
}

impl<'a> View for Space<'a> {
    type V = NodeView;

    open spec fn view(&self) -> NodeView {
        NodeView::Space { source_index: self.source_index as int, value: encode_utf8(self.value@) }
    }
}

impl<'a> View for Comment<'a> {
    type V = NodeView;

    open spec fn view(&self) -> NodeView {
        NodeView::Comment {
            source_index: self.source_index as int,
            value: encode_utf8(self.value@),
        }
    }
}

impl<'a> View for UnicodeRange<'a> {
    type V = NodeView;

    open spec fn view(&self) -> NodeView {
        NodeView::UnicodeRange {
            source_index: self.source_index as int,
            value: encode_utf8(self.value@),
        }
    }
}

impl<'a> View for Div<'a> {
    type V = NodeView;

    open spec fn view(&self) -> NodeView {
        NodeView::Div { source_index: self.source_index as int, value: encode_utf8(self.value@) }
    }
}

impl<'a> View for String<'a> {
    type V = NodeView;

    open spec fn view(&self) -> NodeView {
        NodeView::String { source_index: self.source_index as int, value: encode_utf8(self.value@) }
    }
}

/// The mathematical value of a node.
pub open spec fn node_view(node: Node) -> NodeView
    decreases node,
{
    match node {
        Node::Word(item) => item@,
        Node::Space(item) => item@,
        Node::Comment(item) => item@,
        Node::UnicodeRange(item) => item@,
        Node::Div(item) => item@,
        Node::String(item) => item@,
        Node::Function(item) => NodeView::Function {
            source_index: item.source_index as int,
            value: encode_utf8(item.value@),
            nodes: Seq::new(
                item.nodes.len() as nat,
                |i: int|
                    if 0 <= i < item.nodes.len() {
                        node_view(item.nodes[i])
                    } else {
                        arbitrary()
                    },
            ),
        },
    }
}

/// The mathematical values of a sequence of nodes.
pub open spec fn nodes_view(nodes: Seq<Node>) -> Seq<NodeView> {
    Seq::new(nodes.len(), |i: int| node_view(nodes[i]))
}

impl<'a> View for Function<'a> {
    type V = NodeView;

    open spec fn view(&self) -> NodeView {
        NodeView::Function {
            source_index: self.source_index as int,
            value: encode_utf8(self.value@),
            nodes: nodes_view(self.nodes@),
        }
    }
}

impl<'a> View for Node<'a> {
    type V = NodeView;

    open spec fn view(&self) -> NodeView {
        node_view(*self)
    }
}

/// A function seen as a node has the view of the function.
pub proof fn lemma_function_view(item: Function)
    ensures
        Node::Function(item)@ == item@,
{
    assert(Node::Function(item)@->Function_nodes =~= nodes_view(item.nodes@));
}

/// Adding a node at the end of a sequence adds its view at the end of the
/// views.
pub proof fn lemma_nodes_view_push(nodes: Seq<Node>, node: Node)
    ensures
        nodes_view(nodes.push(node)) == nodes_view(nodes) + seq![node@],
{
    assert(nodes_view(nodes.push(node)) =~= nodes_view(nodes) + seq![node@]);
}

/// The text of the node, and of every node below it, is borrowed: the node
/// holds no storage of its own but the list of the nodes below it.
pub open spec fn borrows(node: Node) -> bool
    decreases node,
{
    match node {
        Node::Word(item) => item.value is Borrowed,
        Node::Space(item) => item.value is Borrowed,
        Node::Comment(item) => item.value is Borrowed,
        Node::UnicodeRange(item) => item.value is Borrowed,
        Node::Div(item) => item.value is Borrowed,
        Node::String(item) => item.value is Borrowed,
        Node::Function(item) => {
            &&& item.value is Borrowed
            &&& forall|i: int| 0 <= i < item.nodes.len() ==> borrows(item.nodes[i])
        },
    }
}

/// Every node of the sequence borrows its text.
pub open spec fn all_borrow(nodes: Seq<Node>) -> bool {
    forall|i: int| 0 <= i < nodes.len() ==> borrows(nodes[i])
}

/// Two nodes are alike: they are of the same kind, start at the same offset
/// and hold the same text, and two functions hold as many nodes, which are
/// alike one by one.
pub open spec fn alike(a: Node, b: Node) -> bool
    decreases a,
{
    match (a, b) {
        (Node::Word(x), Node::Word(y)) => x.source_index == y.source_index && x.value@
            == y.value@,
        (Node::Space(x), Node::Space(y)) => x.source_index == y.source_index && x.value@
            == y.value@,
        (Node::Comment(x), Node::Comment(y)) => x.source_index == y.source_index && x.value@
            == y.value@,
        (Node::UnicodeRange(x), Node::UnicodeRange(y)) => x.source_index == y.source_index
            && x.value@ == y.value@,
        (Node::Div(x), Node::Div(y)) => x.source_index == y.source_index && x.value@ == y.value@,
        (Node::String(x), Node::String(y)) => x.source_index == y.source_index && x.value@
            == y.value@,
        (Node::Function(x), Node::Function(y)) => {
            &&& x.source_index == y.source_index
            &&& x.value@ == y.value@
            &&& x.nodes.len() == y.nodes.len()
            &&& forall|i: int| 0 <= i < x.nodes.len() ==> alike(x.nodes[i], y.nodes[i])
        },
        _ => false,
    }
}

/// Two sequences of nodes are alike: they are as long, and their nodes are
/// alike one by one.
pub open spec fn all_alike(a: Seq<Node>, b: Seq<Node>) -> bool {
    a.len() == b.len() && forall|i: int| 0 <= i < a.len() ==> alike(a[i], b[i])
}

/// Two texts with the same bytes are the same text.
pub proof fn lemma_text_by_bytes(a: Seq<char>, b: Seq<char>)
    requires
        encode_utf8(a) == encode_utf8(b),
    ensures
        a == b,
{
    encode_utf8_decode_utf8(a);
    encode_utf8_decode_utf8(b);
}

/// The view of a node leaves nothing out: two nodes with the same view are
/// alike.
pub proof fn lemma_view_determines_node(a: Node, b: Node)
    requires
        a@ == b@,
    ensures
        alike(a, b),
    decreases a,
{
    match (a, b) {
        (Node::Word(x), Node::Word(y)) => {
            lemma_text_by_bytes(x.value@, y.value@);
        },
        (Node::Space(x), Node::Space(y)) => {
            lemma_text_by_bytes(x.value@, y.value@);
        },
        (Node::Comment(x), Node::Comment(y)) => {
            lemma_text_by_bytes(x.value@, y.value@);
        },
        (Node::UnicodeRange(x), Node::UnicodeRange(y)) => {
            lemma_text_by_bytes(x.value@, y.value@);
        },
        (Node::Div(x), Node::Div(y)) => {
            lemma_text_by_bytes(x.value@, y.value@);
        },
        (Node::String(x), Node::String(y)) => {
            lemma_text_by_bytes(x.value@, y.value@);
        },
        (Node::Function(x), Node::Function(y)) => {
            lemma_text_by_bytes(x.value@, y.value@);
            lemma_function_view(x);
            lemma_function_view(y);
            assert(nodes_view(x.nodes@).len() == nodes_view(y.nodes@).len());
            assert forall|i: int| 0 <= i < x.nodes.len() implies alike(x.nodes[i], y.nodes[i]) by {
                assert(nodes_view(x.nodes@)[i] == nodes_view(y.nodes@)[i]);
                lemma_view_determines_node(x.nodes[i], y.nodes[i]);
            }
        },
        _ => {},
    }
}

/// Two sequences of nodes with the same views are alike.
pub proof fn lemma_view_determines_nodes(a: Seq<Node>, b: Seq<Node>)
    requires
        nodes_view(a) == nodes_view(b),
    ensures
        all_alike(a, b),
{
    assert(nodes_view(a).len() == a.len());
    assert forall|i: int| 0 <= i < a.len() implies alike(a[i], b[i]) by {
        assert(nodes_view(a)[i] == a[i]@);
        lemma_view_determines_node(a[i], b[i]);
    }
}

/// A copy of a text; a borrowed text stays borrowed.
fn clone_text<'a>(text: &Cow<'a, str>) -> (copy: Cow<'a, str>)
    ensures
        copy@ == text@,
{
    match text {
        Cow::Borrowed(slice) => Cow::Borrowed(*slice),
        Cow::Owned(owned) => Cow::Owned(owned.clone()),
    }
}

/// A copy of a node and of all the nodes below it.
fn clone_node<'a>(node: &Node<'a>) -> (copy: Node<'a>)
    ensures
        copy@ == node@,
    decreases node,
{
    match node {
        Node::Word(item) => Node::Word(item.clone()),
        Node::Space(item) => Node::Space(item.clone()),
        Node::Comment(item) => Node::Comment(item.clone()),
        Node::UnicodeRange(item) => Node::UnicodeRange(item.clone()),
        Node::Div(item) => Node::Div(item.clone()),
        Node::String(item) => Node::String(item.clone()),
        Node::Function(item) => {
            let copy = Function {
                source_index: item.source_index,
                value: clone_text(&item.value),
                nodes: clone_nodes(&item.nodes),
            };
            proof {
                lemma_function_view(*item);
                lemma_function_view(copy);
            }
            Node::Function(copy)
        },
    }
}

/// A copy of a list of nodes.
fn clone_nodes<'a>(nodes: &Vec<Node<'a>>) -> (copy: Vec<Node<'a>>)
    ensures
        nodes_view(copy@) == nodes_view(nodes@),
    decreases nodes,
{
    let mut copy: Vec<Node<'a>> = Vec::new();
    let mut i: usize = 0;
    while i < nodes.len()
        invariant
            i <= nodes.len(),
            copy@.len() == i,
            forall|j: int| 0 <= j < i ==> (#[trigger] copy@[j])@ == nodes@[j]@,
        decreases nodes.len() - i,
    {
        let item = clone_node(&nodes[i]);
        copy.push(item);
        i += 1;
    }
    copy
}

impl<'a> Clone for Word<'a> {
    fn clone(&self) -> (copy: Self)
        ensures
            copy@ == self@,
    {
        Word { source_index: self.source_index, value: clone_text(&self.value) }
    }
}

impl<'a> Clone for Space<'a> {
    fn clone(&self) -> (copy: Self)
        ensures
            copy@ == self@,
    {
        Space { source_index: self.source_index, value: clone_text(&self.value) }
    }
}

impl<'a> Clone for Comment<'a> {
    fn clone(&self) -> (copy: Self)
        ensures
            copy@ == self@,
    {
        Comment { source_index: self.source_index, value: clone_text(&self.value) }
    }
}

impl<'a> Clone for UnicodeRange<'a> {
    fn clone(&self) -> (copy: Self)
        ensures
            copy@ == self@,
    {
        UnicodeRange { source_index: self.source_index, value: clone_text(&self.value) }
    }
}

impl<'a> Clone for Div<'a> {
    fn clone(&self) -> (copy: Self)
        ensures
            copy@ == self@,
    {
        Div { source_index: self.source_index, value: clone_text(&self.value) }
    }
}

impl<'a> Clone for String<'a> {
    fn clone(&self) -> (copy: Self)
        ensures
            copy@ == self@,
    {
        String { source_index: self.source_index, value: clone_text(&self.value) }
    }
}

impl<'a> Clone for Function<'a> {
    fn clone(&self) -> (copy: Self)
        ensures
            copy@ == self@,
    {
        Function {
            source_index: self.source_index,
            value: clone_text(&self.value),
            nodes: clone_nodes(&self.nodes),
        }
    }
}

impl<'a> Clone for Node<'a> {
    fn clone(&self) -> (copy: Self)
        ensures
            copy@ == self@,
    {
        clone_node(self)
    }
}

impl<'a> From<Word<'a>> for Node<'a> {
    fn from(item: Word<'a>) -> (node: Self)
        ensures
            node == Node::Word(item),
    {
        Node::Word(item)
    }
}

impl<'a> FromSpecImpl<Word<'a>> for Node<'a> {
    open spec fn obeys_from_spec() -> bool {
        true
    }

    open spec fn from_spec(item: Word<'a>) -> Self {
        Node::Word(item)
    }
}

impl<'a> From<Space<'a>> for Node<'a> {
    fn from(item: Space<'a>) -> (node: Self)
        ensures
            node == Node::Space(item),
    {
        Node::Space(item)
    }
}

impl<'a> FromSpecImpl<Space<'a>> for Node<'a> {
    open spec fn obeys_from_spec() -> bool {
        true
    }

    open spec fn from_spec(item: Space<'a>) -> Self {
        Node::Space(item)
    }
}

impl<'a> From<Comment<'a>> for Node<'a> {
    fn from(item: Comment<'a>) -> (node: Self)
        ensures
            node == Node::Comment(item),
    {
        Node::Comment(item)
    }
}

impl<'a> FromSpecImpl<Comment<'a>> for Node<'a> {
    open spec fn obeys_from_spec() -> bool {
        true
    }

    open spec fn from_spec(item: Comment<'a>) -> Self {
        Node::Comment(item)
    }
}

impl<'a> From<UnicodeRange<'a>> for Node<'a> {
    fn from(item: UnicodeRange<'a>) -> (node: Self)
        ensures
            node == Node::UnicodeRange(item),
    {
        Node::UnicodeRange(item)
    }
}

impl<'a> FromSpecImpl<UnicodeRange<'a>> for Node<'a> {
    open spec fn obeys_from_spec() -> bool {
        true
    }

    open spec fn from_spec(item: UnicodeRange<'a>) -> Self {
        Node::UnicodeRange(item)
    }
}

impl<'a> From<Div<'a>> for Node<'a> {
    fn from(item: Div<'a>) -> (node: Self)
        ensures
            node == Node::Div(item),
    {
        Node::Div(item)
    }
}

impl<'a> FromSpecImpl<Div<'a>> for Node<'a> {
    open spec fn obeys_from_spec() -> bool {
        true
    }

    open spec fn from_spec(item: Div<'a>) -> Self {
        Node::Div(item)
    }
}

impl<'a> From<String<'a>> for Node<'a> {
    fn from(item: String<'a>) -> (node: Self)
        ensures
            node == Node::String(item),
    {
        Node::String(item)
    }
}

impl<'a> FromSpecImpl<String<'a>> for Node<'a> {
    open spec fn obeys_from_spec() -> bool {
        true
    }

    open spec fn from_spec(item: String<'a>) -> Self {
        Node::String(item)
    }
}

impl<'a> From<Function<'a>> for Node<'a> {
    fn from(item: Function<'a>) -> (node: Self)
        ensures
            node == Node::Function(item),
    {
        Node::Function(item)
    }
}

impl<'a> FromSpecImpl<Function<'a>> for Node<'a> {
    open spec fn obeys_from_spec() -> bool {
        true
    }

    open spec fn from_spec(item: Function<'a>) -> Self {
        Node::Function(item)
    }
}

/// Marks a node that can be left open at the end of the input.
pub trait ClosableNode {
    /// Whether the input ended before the node was closed.
    fn unclosed(&self) -> bool;
}

/// Marks a node that knows the text around it.
pub trait AdjacentAwareNode<'a> {
    /// The text right before the node.
    fn before(&self) -> Cow<'a, str>;

    /// The text right after the node.
    fn after(&self) -> Cow<'a, str>;
}

} // verus!
