use vstd::prelude::*;

use crate::lexer::{byte_len, TextRange, Token};
use crate::parser::Shape;
use crate::syntax::{syntax_kind_of, SyntaxKind};
use crate::token_kind::TokenKind;

verus! {

/// A leaf of the tree: a token with its kind, text and UTF-8 length.
#[derive(Debug, Clone)]
pub struct GreenToken {
    pub kind: SyntaxKind,
    pub text: String,
    pub len: usize,
}

/// A child of a node: a node or a token.
#[derive(Debug)]
pub enum GreenElement {
    Node(GreenNode),
    Token(GreenToken),
}

/// An inner node of the tree: its kind and its children in order.
#[derive(Debug)]
pub struct GreenNode {
    pub kind: SyntaxKind,
    pub children: Vec<GreenElement>,
}

/// The model of a leaf: its kind and its text.
pub type Leaf = (SyntaxKind, Seq<char>);

/// The leaves under an element, in order.
pub open spec fn elem_leaves(e: GreenElement) -> Seq<Leaf>
    decreases e,
{
    match e {
        GreenElement::Node(n) => children_leaves(n.children@),
        GreenElement::Token(t) => seq![(t.kind, t.text@)],
    }
}

/// The leaves under a run of siblings, in order.
pub open spec fn children_leaves(cs: Seq<GreenElement>) -> Seq<Leaf>
    decreases cs,
{
    if cs.len() == 0 {
        seq![]
    } else {
        children_leaves(cs.drop_last()) + elem_leaves(cs.last())
    }
}

/// The leaves under a node.
pub open spec fn node_leaves(n: GreenNode) -> Seq<Leaf> {
    children_leaves(n.children@)
}

/// The texts of leaves, one after the other.
pub open spec fn leaf_text(ls: Seq<Leaf>) -> Seq<char>
    decreases ls.len(),
{
    if ls.len() == 0 {
        seq![]
    } else {
        leaf_text(ls.drop_last()) + ls.last().1
    }
}

/// The text of an element.
pub open spec fn elem_text(e: GreenElement) -> Seq<char> {
    leaf_text(elem_leaves(e))
}

/// The text under a node.
pub open spec fn node_text(n: GreenNode) -> Seq<char> {
    leaf_text(node_leaves(n))
}

/// The leaf that a lexed token becomes.
pub open spec fn leaf_of(t: Token) -> Leaf {
    (syntax_kind_of(t.kind), t.text@)
}

/// The leaves that a token sequence becomes.
pub open spec fn leaves_of(ts: Seq<Token>) -> Seq<Leaf> {
    ts.map_values(|t: Token| leaf_of(t))
}

/// Every token of an element knows its UTF-8 length.
pub open spec fn elem_wf(e: GreenElement) -> bool
    decreases e,
{
    match e {
        GreenElement::Node(n) => children_wf(n.children@),
        GreenElement::Token(t) => t.len == byte_len(t.text@),
    }
}

pub open spec fn children_wf(cs: Seq<GreenElement>) -> bool
    decreases cs,
{
    if cs.len() == 0 {
        true
    } else {
        children_wf(cs.drop_last()) && elem_wf(cs.last())
    }
}

/// The structure of an element as the grammar records it: nodes open and
/// close, significant tokens appear, trivia leaves no mark.
pub open spec fn elem_shapes(e: GreenElement) -> Seq<Shape>
    decreases e,
{
    match e {
        GreenElement::Node(n) => seq![Shape::Start(n.kind)] + children_shapes(n.children@) + seq![
            Shape::Finish,
        ],
        GreenElement::Token(t) => if t.kind.spec_is_trivia() {
            seq![]
        } else {
            seq![Shape::Token]
        },
    }
}

pub open spec fn children_shapes(cs: Seq<GreenElement>) -> Seq<Shape>
    decreases cs,
{
    if cs.len() == 0 {
        seq![]
    } else {
        children_shapes(cs.drop_last()) + elem_shapes(cs.last())
    }
}

/// The full layout of an element: like its structure, with a mark for each trivia token.
pub open spec fn elem_layout(e: GreenElement) -> Seq<Shape>
    decreases e,
{
    match e {
        GreenElement::Node(n) => seq![Shape::Start(n.kind)] + children_layout(n.children@) + seq![
            Shape::Finish,
        ],
        GreenElement::Token(t) => if t.kind.spec_is_trivia() {
            seq![Shape::Trivia]
        } else {
            seq![Shape::Token]
        },
    }
}

pub open spec fn children_layout(cs: Seq<GreenElement>) -> Seq<Shape>
    decreases cs,
{
    if cs.len() == 0 {
        seq![]
    } else {
        children_layout(cs.drop_last()) + elem_layout(cs.last())
    }
}

/// A log's events with errors and pending starts left out.
pub open spec fn structural(sh: Seq<Shape>) -> Seq<Shape>
    decreases sh.len(),
{
    if sh.len() == 0 {
        seq![]
    } else {
        structural(sh.drop_last()) + match sh.last() {
            Shape::Error(_, _, _) => seq![],
            Shape::Pending => seq![],
            s => seq![s],
        }
    }
}

/// For each error a log records, in order: what was found, what was looked
/// for, and where it is reported.
pub open spec fn error_entries(sh: Seq<Shape>) -> Seq<(Option<TokenKind>, Seq<TokenKind>, TextRange)>
    decreases sh.len(),
{
    if sh.len() == 0 {
        seq![]
    } else {
        error_entries(sh.drop_last()) + match sh.last() {
            Shape::Error(found, expected, range) => seq![(found, expected, range)],
            _ => seq![],
        }
    }
}

pub proof fn lemma_leaf_text_append(a: Seq<Leaf>, b: Seq<Leaf>)
    ensures
        leaf_text(a + b) == leaf_text(a) + leaf_text(b),
    decreases b.len(),
{
    if b.len() == 0 {
        assert(a + b =~= a);
        assert(leaf_text(a) + leaf_text(b) =~= leaf_text(a));
    } else {
        lemma_leaf_text_append(a, b.drop_last());
        assert((a + b).drop_last() =~= a + b.drop_last());
        assert((a + b).last() == b.last());
        assert(leaf_text(a) + leaf_text(b) =~= leaf_text(a) + leaf_text(b.drop_last()) + b.last().1);
    }
}

pub proof fn lemma_children_leaves_push(cs: Seq<GreenElement>, e: GreenElement)
    ensures
        children_leaves(cs.push(e)) == children_leaves(cs) + elem_leaves(e),
        children_wf(cs.push(e)) == (children_wf(cs) && elem_wf(e)),
        children_shapes(cs.push(e)) == children_shapes(cs) + elem_shapes(e),
        children_layout(cs.push(e)) == children_layout(cs) + elem_layout(e),
{
    assert(cs.push(e).drop_last() =~= cs);
}

} // verus!
