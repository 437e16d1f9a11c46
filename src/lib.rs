//! A front end for a small expression language: a lexer, an event-based
//! precedence-climbing parser, a lossless syntax tree, a typed view over it
//! and a lowering into an arena-indexed intermediate representation.
use vstd::prelude::*;

pub mod token_kind;
pub mod lexer;
pub mod syntax;
pub mod parser;
pub mod grammar;
pub mod tree;
pub mod sink;
pub mod ast;
pub mod render;
pub mod hir;

use crate::hir::lower_stmt_nodes;
use crate::lexer::{byte_len, concat_texts, lemma_lex_from_lossless, lex, lexed_ranges, spec_lex};
use crate::grammar::program_events;
use crate::parser::{kinds_of, report_ranges, sig_kinds, ParseError, Parser, Shape};
use crate::sink::laid_out;
use crate::render::{children_len, debug_text, elem_len, lemma_elem_len, render};
use crate::syntax::{syntax_kind_of, SyntaxKind};
use crate::token_kind::TokenKind;
use crate::tree::{
    elem_layout, elem_shapes, elem_wf, error_entries, leaf_text, node_leaves, node_text, structural, GreenElement, GreenNode,
    Leaf,
};

verus! {

/// The kinds of the tokens of `s`.
pub open spec fn lexed_kinds(s: Seq<char>) -> Seq<TokenKind> {
    spec_lex(s).map_values(|p: (TokenKind, Seq<char>)| p.0)
}

/// The grammar's events over the significant tokens of `s`.
pub open spec fn parse_events(s: Seq<char>) -> Seq<Shape> {
    program_events(sig_kinds(lexed_kinds(s)), report_ranges(lexed_kinds(s), lexed_ranges(s)))
}

/// The structure of the tree that parsing `s` gives: the grammar's events,
/// errors left out.
pub open spec fn parse_shapes(s: Seq<char>) -> Seq<Shape> {
    structural(parse_events(s))
}

/// The full layout of the tree that parsing `s` gives, trivia included.
pub open spec fn parse_layout(s: Seq<char>) -> Seq<Shape> {
    laid_out(parse_events(s), lexed_kinds(s))
}

/// The leaves that the tokens of `s` become in a tree.
pub open spec fn lex_leaves(s: Seq<char>) -> Seq<Leaf> {
    spec_lex(s).map_values(|p: (TokenKind, Seq<char>)| (syntax_kind_of(p.0), p.1))
}

/// The result of parsing: a lossless tree and the syntax errors met on the way.
pub struct Parse {
    green_node: GreenNode,
    errors: Vec<ParseError>,
}

impl Parse {
    /// The root of the tree.
    pub closed spec fn spec_root(&self) -> GreenNode {
        self.green_node
    }

    /// Well-formedness: every token knows its UTF-8 length, and the whole
    /// text's length fits in a `usize`.
    pub closed spec fn wf(&self) -> bool {
        &&& elem_wf(GreenElement::Node(self.green_node))
        &&& byte_len(node_text(self.green_node)) <= usize::MAX
    }

    pub fn root(&self) -> (r: &GreenNode)
        ensures
            *r == self.spec_root(),
    {
        &self.green_node
    }

    /// The syntax errors, in the order they were met.
    pub closed spec fn spec_errors(&self) -> Seq<ParseError> {
        self.errors@
    }

    pub fn errors(&self) -> (r: &Vec<ParseError>)
        ensures
            r@ == self.spec_errors(),
    {
        &self.errors
    }

    /// The tree, one line per element with its kind and byte range (and a
    /// token's quoted text), followed by one line per error.
    pub fn debug_tree(&self) -> (r: String)
        requires
            self.wf(),
        ensures
            r@ == debug_text(self.spec_root(), self.spec_errors()),
    {
        proof {
            lemma_elem_len(GreenElement::Node(self.green_node));
        }
        render(&self.green_node, &self.errors)
    }
}

/// Parses `input` into a tree whose leaves are the tokens of `input`, in order.
pub fn parse(input: &str) -> (r: Parse)
    requires
        byte_len(input@) <= usize::MAX,
    ensures
        r.wf(),
        node_leaves(r.spec_root()) == lex_leaves(input@),
        node_text(r.spec_root()) == input@,
        children_len(r.spec_root().children@) == byte_len(input@),
        elem_shapes(GreenElement::Node(r.spec_root())) == parse_shapes(input@),
        elem_layout(GreenElement::Node(r.spec_root())) == parse_layout(input@),
        r.spec_errors().map_values(|e: ParseError| (e.found, e.expected@, e.range)) == error_entries(
            parse_events(input@),
        ),
{
    let tokens = lex(input);
    let parser = Parser::new(tokens.as_slice());
    let events = parser.parse();
    proof {
        assert forall|k: int| 0 <= k < tokens.len() implies #[trigger] tokens@[k].range.start
            <= tokens@[k].range.end && tokens@[k].range.end - tokens@[k].range.start == byte_len(
            tokens@[k].text@,
        ) by {
            assert(tokens[k].range.end - tokens[k].range.start == byte_len(tokens[k].text@));
        }
    }
    let (root, errors) = sink::build(&tokens, &events);
    proof {
        assert(tree::leaves_of(tokens@) =~= lex_leaves(input@));
        assert(parser::ranges_of(tokens@) =~= lexer::lexed_ranges(input@)) by {
            assert(parser::ranges_of(tokens@) =~= tokens@.map_values(|t: lexer::Token| t.range));
        }
        assert(kinds_of(tokens@) =~= lexed_kinds(input@)) by {
            assert forall|k: int| 0 <= k < tokens@.len() implies kinds_of(tokens@)[k] == lexed_kinds(
                input@,
            )[k] by {
                assert(tokens@.map_values(|t: lexer::Token| t@)[k] == spec_lex(input@)[k]);
            }
        }
        lemma_lex_leaves_text(input@);
        lemma_elem_len(GreenElement::Node(root));
    }
    Parse { green_node: root, errors }
}

/// Where the child at `i` of a node that starts at `offset` starts.
pub open spec fn child_offset(cs: Seq<GreenElement>, offset: nat, i: int) -> nat {
    offset + children_len(cs.take(i))
}

/// Spans tile: the first child starts where its parent starts, each child
/// starts where the one before it ends (so siblings never overlap), and the
/// last one ends where the parent ends (so a node's span is the union of its
/// children's spans).
pub proof fn lemma_spans_tile(cs: Seq<GreenElement>, offset: nat)
    ensures
        child_offset(cs, offset, 0) == offset,
        forall|i: int|
            0 <= i < cs.len() ==> #[trigger] child_offset(cs, offset, i + 1) == child_offset(
                cs,
                offset,
                i,
            ) + elem_len(cs[i]),
        child_offset(cs, offset, cs.len() as int) == offset + children_len(cs),
{
    assert(cs.take(0) =~= Seq::<GreenElement>::empty());
    assert(cs.take(cs.len() as int) =~= cs);
    assert forall|i: int| 0 <= i < cs.len() implies #[trigger] child_offset(cs, offset, i + 1)
        == child_offset(cs, offset, i) + elem_len(cs[i]) by {
        assert(cs.take(i + 1).drop_last() =~= cs.take(i));
    }
}

/// The root of a parse spans the whole input: from 0 to its length in bytes.
pub proof fn lemma_root_span(input: &str, p: &Parse)
    requires
        children_len(p.spec_root().children@) == byte_len(input@),
    ensures
        child_offset(p.spec_root().children@, 0, p.spec_root().children@.len() as int) == byte_len(
            input@,
        ),
{
    lemma_spans_tile(p.spec_root().children@, 0);
}

/// Re-lexing the text of a tree built from `s`'s tokens gives back the same tokens.
pub proof fn lemma_round_trip(n: GreenNode, s: Seq<char>)
    requires
        node_leaves(n) == lex_leaves(s),
    ensures
        lex_leaves(node_text(n)) == node_leaves(n),
{
    lemma_lex_leaves_text(s);
}

/// Lowering drops no statement: there is one lowered statement per
/// top-level statement node, definitions without a name included.
pub proof fn lemma_lowering_total(ns: Seq<GreenNode>)
    ensures
        lower_stmt_nodes(ns).len() == ns.len(),
    decreases ns.len(),
{
    if ns.len() > 0 {
        lemma_lowering_total(ns.drop_last());
    }
}

/// The leaves of `s`'s tokens spell `s` again.
pub proof fn lemma_lex_leaves_text(s: Seq<char>)
    ensures
        leaf_text(lex_leaves(s)) == s,
{
    lemma_lex_from_lossless(s, 0);
    assert(s.subrange(0, s.len() as int) =~= s);
    lemma_leaf_text_of_tokens(spec_lex(s));
}

proof fn lemma_leaf_text_of_tokens(ts: Seq<(TokenKind, Seq<char>)>)
    ensures
        leaf_text(ts.map_values(|p: (TokenKind, Seq<char>)| (syntax_kind_of(p.0), p.1)))
            == concat_texts(ts),
    decreases ts.len(),
{
    let m = ts.map_values(|p: (TokenKind, Seq<char>)| (syntax_kind_of(p.0), p.1));
    if ts.len() > 0 {
        lemma_leaf_text_of_tokens(ts.drop_last());
        assert(m.drop_last() =~= ts.drop_last().map_values(
            |p: (TokenKind, Seq<char>)| (syntax_kind_of(p.0), p.1),
        ));
    }
}

} // verus!
