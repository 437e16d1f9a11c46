use vstd::prelude::*;

use crate::lexer::{byte_len, chars_of, lemma_byte_len_append, string_of};
use crate::parser::ParseError;
use crate::syntax::SyntaxKind;
use crate::token_kind::TokenKind;
use crate::tree::{
    children_leaves, children_wf, elem_leaves, elem_text, elem_wf, leaf_text,
    lemma_leaf_text_append, GreenElement, GreenNode,
};

verus! {

// ---------------------------------------------------------------------------
// Lengths
// ---------------------------------------------------------------------------
/// The length in bytes of an element's text, summed over its tokens.
pub open spec fn elem_len(e: GreenElement) -> nat
    decreases e,
{
    match e {
        GreenElement::Node(n) => children_len(n.children@),
        GreenElement::Token(t) => t.len as nat,
    }
}

/// The length in bytes of a run of siblings.
pub open spec fn children_len(cs: Seq<GreenElement>) -> nat
    decreases cs,
{
    if cs.len() == 0 {
        0
    } else {
        children_len(cs.drop_last()) + elem_len(cs.last())
    }
}

/// In a well-formed element the summed lengths are the UTF-8 length of its text.
pub proof fn lemma_elem_len(e: GreenElement)
    requires
        elem_wf(e),
    ensures
        elem_len(e) == byte_len(elem_text(e)),
    decreases e,
{
    match e {
        GreenElement::Node(n) => {
            lemma_children_len(n.children@);
        },
        GreenElement::Token(t) => {
            let ls = elem_leaves(e);
            assert(ls.drop_last() =~= Seq::<(SyntaxKind, Seq<char>)>::empty());
            assert(leaf_text(ls.drop_last()) =~= Seq::<char>::empty());
            assert(leaf_text(ls) =~= t.text@);
        },
    }
}

pub proof fn lemma_children_len(cs: Seq<GreenElement>)
    requires
        children_wf(cs),
    ensures
        children_len(cs) == byte_len(leaf_text(children_leaves(cs))),
    decreases cs,
{
    if cs.len() == 0 {
        assert(leaf_text(children_leaves(cs)) =~= Seq::<char>::empty());
    } else {
        lemma_children_len(cs.drop_last());
        lemma_elem_len(cs.last());
        lemma_leaf_text_append(children_leaves(cs.drop_last()), elem_leaves(cs.last()));
        lemma_byte_len_append(
            leaf_text(children_leaves(cs.drop_last())),
            leaf_text(elem_leaves(cs.last())),
        );
    }
}

proof fn lemma_children_len_prefix(cs: Seq<GreenElement>, i: int)
    requires
        0 <= i < cs.len(),
    ensures
        children_len(cs.take(i + 1)) == children_len(cs.take(i)) + elem_len(cs[i]),
        children_len(cs.take(i + 1)) <= children_len(cs),
{
    assert(cs.take(i + 1).drop_last() =~= cs.take(i));
    lemma_children_len_grows(cs, i + 1);
}

proof fn lemma_children_len_grows(cs: Seq<GreenElement>, i: int)
    requires
        0 <= i <= cs.len(),
    ensures
        children_len(cs.take(i)) <= children_len(cs),
    decreases cs.len() - i,
{
    if i < cs.len() {
        lemma_children_len_grows(cs, i + 1);
        assert(cs.take(i + 1).drop_last() =~= cs.take(i));
    } else {
        assert(cs.take(i) =~= cs);
    }
}

/// The length in bytes of a node's text.
pub fn node_len(n: &GreenNode) -> (r: usize)
    requires
        children_len(n.children@) <= usize::MAX,
    ensures
        r == children_len(n.children@),
    decreases *n,
{
    let cs = &n.children;
    let mut total: usize = 0;
    let mut i: usize = 0;
    proof {
        assert(cs@.take(0) =~= Seq::<GreenElement>::empty());
    }
    while i < cs.len()
        invariant
            i <= cs.len(),
            cs == n.children,
            children_len(cs@) <= usize::MAX,
            total == children_len(cs@.take(i as int)),
        decreases cs.len() - i,
    {
        proof {
            lemma_children_len_prefix(cs@, i as int);
        }
        let l = match &cs[i] {
            GreenElement::Node(c) => {
                proof {
                    assert(decreases_to!(*n => n.children));
                    assert(decreases_to!(n.children => n.children@));
                    assert(decreases_to!(n.children@ => n.children@[i as int]));
                    assert(decreases_to!(n.children@[i as int] => n.children@[i as int]->Node_0));
                }
                node_len(c)
            },
            GreenElement::Token(t) => t.len,
        };
        total = total + l;
        i = i + 1;
    }
    proof {
        assert(cs@.take(i as int) =~= cs@);
    }
    total
}

// ---------------------------------------------------------------------------
// Text pieces
// ---------------------------------------------------------------------------
pub open spec fn digit_char(d: nat) -> char {
    if d == 0 {
        '0'
    } else if d == 1 {
        '1'
    } else if d == 2 {
        '2'
    } else if d == 3 {
        '3'
    } else if d == 4 {
        '4'
    } else if d == 5 {
        '5'
    } else if d == 6 {
        '6'
    } else if d == 7 {
        '7'
    } else if d == 8 {
        '8'
    } else {
        '9'
    }
}

/// The decimal digits of `n`.
pub open spec fn decimal(n: nat) -> Seq<char>
    decreases n,
{
    if n < 10 {
        seq![digit_char(n)]
    } else {
        decimal(n / 10) + seq![digit_char(n % 10)]
    }
}

fn digit_char_exec(d: usize) -> (r: char)
    requires
        d < 10,
    ensures
        r == digit_char(d as nat),
{
    if d == 0 {
        '0'
    } else if d == 1 {
        '1'
    } else if d == 2 {
        '2'
    } else if d == 3 {
        '3'
    } else if d == 4 {
        '4'
    } else if d == 5 {
        '5'
    } else if d == 6 {
        '6'
    } else if d == 7 {
        '7'
    } else if d == 8 {
        '8'
    } else {
        '9'
    }
}

fn push_decimal(out: &mut Vec<char>, n: usize)
    ensures
        final(out)@ == old(out)@ + decimal(n as nat),
    decreases n,
{
    if n >= 10 {
        push_decimal(out, n / 10);
    }
    out.push(digit_char_exec(n % 10));
    proof {
        assert(out@ =~= old(out)@ + decimal(n as nat));
    }
}

fn push_str(out: &mut Vec<char>, s: &str)
    ensures
        final(out)@ == old(out)@ + s@,
{
    let cs = chars_of(s);
    push_chars(out, &cs);
}

fn push_chars(out: &mut Vec<char>, cs: &Vec<char>)
    ensures
        final(out)@ == old(out)@ + cs@,
{
    let mut i: usize = 0;
    while i < cs.len()
        invariant
            i <= cs.len(),
            out@ == old(out)@ + cs@.take(i as int),
        decreases cs.len() - i,
    {
        out.push(cs[i]);
        i = i + 1;
        proof {
            assert(out@ =~= old(out)@ + cs@.take(i as int));
        }
    }
    proof {
        assert(cs@.take(i as int) =~= cs@);
    }
}

/// How `str`'s `Debug` impl shows a text: quoted, with escapes.
pub uninterp spec fn debug_quoted(s: Seq<char>) -> Seq<char>;

/// Relies on `str`'s `Debug` impl: the text between double quotes, special
/// characters escaped; the result depends on the text alone.
#[verifier::external_body]
fn quoted(s: &str) -> (r: String)
    ensures
        r@ == debug_quoted(s@),
{
    format!("{:?}", s)
}

// ---------------------------------------------------------------------------
// Rendering a tree
// ---------------------------------------------------------------------------
/// `Kind@start..end` after the indentation.
pub open spec fn header(ind: Seq<char>, k: SyntaxKind, start: nat, end: nat) -> Seq<char> {
    ind + k.spec_name() + seq!['@'] + decimal(start) + seq!['.', '.'] + decimal(end)
}

/// One line per element, children indented by two more spaces than their parent;
/// a token's line ends with its quoted text.
pub open spec fn render_elem(e: GreenElement, offset: nat, ind: Seq<char>) -> Seq<char>
    decreases e,
{
    match e {
        GreenElement::Node(n) => header(ind, n.kind, offset, offset + children_len(n.children@))
            + seq!['\n'] + render_children(n.children@, offset, ind + seq![' ', ' ']),
        GreenElement::Token(t) => header(ind, t.kind, offset, offset + t.len as nat) + seq![' ']
            + debug_quoted(t.text@) + seq!['\n'],
    }
}

pub open spec fn render_children(cs: Seq<GreenElement>, offset: nat, ind: Seq<char>) -> Seq<char>
    decreases cs,
{
    if cs.len() == 0 {
        seq![]
    } else {
        render_children(cs.drop_last(), offset, ind) + render_elem(
            cs.last(),
            offset + children_len(cs.drop_last()),
            ind,
        )
    }
}

fn push_header(out: &mut Vec<char>, ind: &Vec<char>, k: SyntaxKind, start: usize, end: usize)
    ensures
        final(out)@ == old(out)@ + header(ind@, k, start as nat, end as nat),
{
    push_chars(out, ind);
    push_str(out, k.name());
    out.push('@');
    push_decimal(out, start);
    out.push('.');
    out.push('.');
    push_decimal(out, end);
    proof {
        assert(out@ =~= old(out)@ + header(ind@, k, start as nat, end as nat));
    }
}

fn render_node(out: &mut Vec<char>, n: &GreenNode, offset: usize, ind: &Vec<char>)
    requires
        offset + children_len(n.children@) <= usize::MAX,
    ensures
        final(out)@ == old(out)@ + render_elem(GreenElement::Node(*n), offset as nat, ind@),
    decreases *n,
{
    let end = offset + node_len(n);
    push_header(out, ind, n.kind, offset, end);
    out.push('\n');
    let ghost head = out@;
    let mut inner = ind.clone();
    inner.push(' ');
    inner.push(' ');
    proof {
        assert(inner@ =~= ind@ + seq![' ', ' ']);
    }
    let cs = &n.children;
    let mut at = offset;
    let mut i: usize = 0;
    proof {
        assert(cs@.take(0) =~= Seq::<GreenElement>::empty());
    }
    while i < cs.len()
        invariant
            i <= cs.len(),
            cs == n.children,
            inner@ == ind@ + seq![' ', ' '],
            offset + children_len(cs@) <= usize::MAX,
            at == offset + children_len(cs@.take(i as int)),
            out@ == head + render_children(cs@.take(i as int), offset as nat, inner@),
        decreases cs.len() - i,
    {
        proof {
            lemma_children_len_prefix(cs@, i as int);
            assert(cs@.take(i + 1).drop_last() =~= cs@.take(i as int));
            assert(cs@.take(i + 1).last() == cs@[i as int]);
        }
        let ghost out_before = out@;
        let ghost at_before = at;
        match &cs[i] {
            GreenElement::Node(c) => {
                proof {
                    assert(decreases_to!(*n => n.children));
                    assert(decreases_to!(n.children => n.children@));
                    assert(decreases_to!(n.children@ => n.children@[i as int]));
                    assert(decreases_to!(n.children@[i as int] => n.children@[i as int]->Node_0));
                }
                render_node(out, c, at, &inner);
                at = at + node_len(c);
            },
            GreenElement::Token(t) => {
                push_header(out, &inner, t.kind, at, at + t.len);
                out.push(' ');
                let q = quoted(t.text.as_str());
                push_str(out, q.as_str());
                out.push('\n');
                at = at + t.len;
                proof {
                    assert(out@ =~= out_before + render_elem(cs@[i as int], at_before as nat, inner@));
                }
            },
        }
        proof {
            assert(out@ == out_before + render_elem(cs@[i as int], at_before as nat, inner@));
            assert(render_children(cs@.take(i + 1), offset as nat, inner@) == render_children(cs@.take(i as int), offset as nat, inner@) + render_elem(cs@[i as int], at_before as nat, inner@));
        }
        i = i + 1;
        proof {
            assert(out@ =~= head + render_children(cs@.take(i as int), offset as nat, inner@));
        }
    }
    proof {
        assert(cs@.take(i as int) =~= cs@);
        assert(old(out)@ + header(ind@, n.kind, offset as nat, end as nat) + seq!['\n'] =~= head);
        assert(out@ =~= old(out)@ + render_elem(GreenElement::Node(*n), offset as nat, ind@));
    }
}

// ---------------------------------------------------------------------------
// Rendering errors
// ---------------------------------------------------------------------------
/// The kinds' names separated by commas.
pub open spec fn names_joined(ks: Seq<TokenKind>) -> Seq<char>
    decreases ks.len(),
{
    if ks.len() == 0 {
        seq![]
    } else if ks.len() == 1 {
        ks[0].spec_name()
    } else {
        names_joined(ks.drop_last()) + ", "@ + ks.last().spec_name()
    }
}

/// The kinds' names as a list: commas, and `or` before the last.
pub open spec fn expected_text(ks: Seq<TokenKind>) -> Seq<char> {
    if ks.len() <= 1 {
        names_joined(ks)
    } else {
        names_joined(ks.drop_last()) + " or "@ + ks.last().spec_name()
    }
}

/// `error at start..end: expected …`, and what was found where something was.
pub open spec fn error_text(e: ParseError) -> Seq<char> {
    "error at "@ + decimal(e.range.start as nat) + ".."@ + decimal(e.range.end as nat)
        + ": expected "@ + expected_text(e.expected@) + found_text(e.found)
}

/// What was found instead, where anything was.
pub open spec fn found_text(found: Option<TokenKind>) -> Seq<char> {
    match found {
        Some(k) => ", but found "@ + k.spec_name(),
        None => seq![],
    }
}

fn push_names_joined(out: &mut Vec<char>, ks: &Vec<TokenKind>, n: usize)
    requires
        n <= ks.len(),
    ensures
        final(out)@ == old(out)@ + names_joined(ks@.take(n as int)),
{
    let mut i: usize = 0;
    proof {
        assert(names_joined(ks@.take(0)) =~= Seq::<char>::empty());
    }
    while i < n
        invariant
            i <= n <= ks.len(),
            out@ == old(out)@ + names_joined(ks@.take(i as int)),
        decreases n - i,
    {
        if i > 0 {
            push_str(out, ", ");
        }
        push_str(out, ks[i].name());
        proof {
            assert(ks@.take(i + 1).drop_last() =~= ks@.take(i as int));
            if i == 0 {
                assert(names_joined(ks@.take(1)) == ks@[0].spec_name());
            }
            assert(out@ =~= old(out)@ + names_joined(ks@.take(i + 1)));
        }
        i = i + 1;
    }
}

fn push_expected(out: &mut Vec<char>, ks: &Vec<TokenKind>)
    ensures
        final(out)@ == old(out)@ + expected_text(ks@),
{
    if ks.len() <= 1 {
        push_names_joined(out, ks, ks.len());
        proof {
            assert(ks@.take(ks.len() as int) =~= ks@);
        }
    } else {
        push_names_joined(out, ks, ks.len() - 1);
        push_str(out, " or ");
        push_str(out, ks[ks.len() - 1].name());
        proof {
            assert(ks@.take(ks.len() - 1) =~= ks@.drop_last());
            assert(out@ =~= old(out)@ + expected_text(ks@));
        }
    }
}

fn push_found(out: &mut Vec<char>, found: Option<TokenKind>)
    ensures
        final(out)@ == old(out)@ + found_text(found),
{
    match found {
        Some(k) => {
            push_str(out, ", but found ");
            push_str(out, k.name());
            proof {
                assert(out@ =~= old(out)@ + found_text(found));
            }
        },
        None => {
            proof {
                assert(out@ =~= old(out)@ + found_text(found));
            }
        },
    }
}

fn push_error(out: &mut Vec<char>, e: &ParseError)
    ensures
        final(out)@ == old(out)@ + error_text(*e),
{
    push_str(out, "error at ");
    push_decimal(out, e.range.start);
    push_str(out, "..");
    push_decimal(out, e.range.end);
    push_str(out, ": expected ");
    push_expected(out, &e.expected);
    push_found(out, e.found);
    proof {
        assert(out@ =~= old(out)@ + error_text(*e));
    }
}

/// The rendered tree without its final newline, then one line per error.
pub open spec fn debug_text(root: GreenNode, errors: Seq<ParseError>) -> Seq<char> {
    render_elem(GreenElement::Node(root), 0, seq![]).drop_last() + errors_text(errors)
}

pub open spec fn errors_text(errors: Seq<ParseError>) -> Seq<char>
    decreases errors.len(),
{
    if errors.len() == 0 {
        seq![]
    } else {
        errors_text(errors.drop_last()) + seq!['\n'] + error_text(errors.last())
    }
}

pub fn render(root: &GreenNode, errors: &Vec<ParseError>) -> (r: String)
    requires
        children_len(root.children@) <= usize::MAX,
    ensures
        r@ == debug_text(*root, errors@),
{
    let mut out: Vec<char> = Vec::new();
    let ind: Vec<char> = Vec::new();
    render_node(&mut out, root, 0, &ind);
    proof {
        assert(ind@ =~= Seq::<char>::empty());
        assert(out@ =~= render_elem(GreenElement::Node(*root), 0, seq![]));
    }
    // The rendering ends with a newline, which is dropped.
    if out.len() > 0 {
        out.pop();
    }
    let ghost tree = out@;
    let mut i: usize = 0;
    proof {
        assert(errors@.take(0) =~= Seq::<ParseError>::empty());
        assert(out@ =~= tree + errors_text(errors@.take(0)));
    }
    while i < errors.len()
        invariant
            i <= errors.len(),
            out@ == tree + errors_text(errors@.take(i as int)),
        decreases errors.len() - i,
    {
        out.push('\n');
        push_error(&mut out, &errors[i]);
        proof {
            assert(errors@.take(i + 1).drop_last() =~= errors@.take(i as int));
            assert(out@ =~= tree + errors_text(errors@.take(i + 1)));
        }
        i = i + 1;
    }
    proof {
        assert(errors@.take(i as int) =~= errors@);
        let full = render_elem(GreenElement::Node(*root), 0, seq![]);
        assert(tree == full.drop_last());
    }
    string_of(out.as_slice())
}

} // verus!
