use vstd::prelude::*;

use crate::lexer::{byte_len, TextRange, Token};
use crate::parser::{
    added, delta, depth, kinds_of, lemma_significant_count_grows, next_significant, shape, shapes,
    significant_count, tally, weight, well_nested, Event, ParseError, Shape,
};
use crate::syntax::SyntaxKind;
use crate::token_kind::TokenKind;
use crate::tree::{
    children_layout, children_leaves, children_shapes, children_wf, elem_layout, elem_leaves,
    elem_shapes, elem_wf, error_entries, leaf_of,
    leaves_of, lemma_children_leaves_push, node_leaves, structural, GreenElement, GreenNode,
    GreenToken, Leaf,
};

verus! {

/// Each token's range is as long as the UTF-8 encoding of its text.
pub open spec fn tokens_wf(ts: Seq<Token>) -> bool {
    forall|k: int|
        0 <= k < ts.len() ==> #[trigger] ts[k].range.start <= ts[k].range.end
            && ts[k].range.end - ts[k].range.start == byte_len(ts[k].text@)
}

/// `n` trivia marks.
pub open spec fn trivia_marks(n: int) -> Seq<Shape>
    decreases n,
{
    if n <= 0 {
        seq![]
    } else {
        trivia_marks(n - 1).push(Shape::Trivia)
    }
}

/// Where the significant token with index `c` stands (or the end of the tokens).
pub open spec fn sig_position(ks: Seq<TokenKind>, c: nat) -> int
    decreases c,
{
    if c == 0 {
        next_significant(ks, 0)
    } else {
        next_significant(ks, sig_position(ks, (c - 1) as nat) + 1)
    }
}

/// How many tokens a run of events adds.
pub open spec fn token_count(sh: Seq<Shape>) -> nat
    decreases sh.len(),
{
    if sh.len() == 0 {
        0
    } else {
        token_count(sh.drop_last()) + if sh.last() is Token {
            1nat
        } else {
            0nat
        }
    }
}

/// The layout of the tree that the events `sh` build over tokens of kinds `ks`:
/// the trivia that precedes every significant token goes right after the
/// first node's start, and the trivia that follows a significant token goes
/// right after that token, in the node open at that point.
pub open spec fn laid_out(sh: Seq<Shape>, ks: Seq<TokenKind>) -> Seq<Shape>
    decreases sh.len(),
{
    if sh.len() == 0 {
        seq![]
    } else {
        let prev = sh.drop_last();
        laid_out(prev, ks) + match sh.last() {
            Shape::Start(k) => if prev.len() == 0 {
                seq![Shape::Start(k)] + trivia_marks(next_significant(ks, 0))
            } else {
                seq![Shape::Start(k)]
            },
            Shape::Token => {
                let after = sig_position(ks, token_count(prev)) + 1;
                seq![Shape::Token] + trivia_marks(next_significant(ks, after) - after)
            },
            Shape::Finish => seq![Shape::Finish],
            _ => seq![],
        }
    }
}

proof fn lemma_token_count_take(evs: Seq<Event>, i: int)
    requires
        0 <= i <= evs.len(),
    ensures
        token_count(shapes(evs.take(i))) == tally(evs, i, false),
    decreases i,
{
    if i > 0 {
        lemma_token_count_take(evs, i - 1);
        assert(shapes(evs.take(i)).drop_last() =~= shapes(evs.take(i - 1)));
    } else {
        assert(shapes(evs.take(i)) =~= Seq::<Shape>::empty());
    }
}

/// A copy of a list of kinds.
fn copy_kinds(v: &Vec<TokenKind>) -> (r: Vec<TokenKind>)
    ensures
        r@ == v@,
{
    let mut r: Vec<TokenKind> = Vec::new();
    let mut i: usize = 0;
    while i < v.len()
        invariant
            i <= v.len(),
            r@ == v@.take(i as int),
        decreases v.len() - i,
    {
        r.push(v[i]);
        i = i + 1;
        proof {
            assert(r@ =~= v@.take(i as int));
        }
    }
    proof {
        assert(v@.take(i as int) =~= v@);
    }
    r
}

/// A node under construction.
struct Frame {
    kind: SyntaxKind,
    children: Vec<GreenElement>,
}

spec fn frames_leaves(fs: Seq<Frame>) -> Seq<Leaf>
    decreases fs.len(),
{
    if fs.len() == 0 {
        seq![]
    } else {
        frames_leaves(fs.drop_last()) + children_leaves(fs.last().children@)
    }
}

/// The structure recorded so far: each open node's start and its finished children.
spec fn frames_shapes(fs: Seq<Frame>) -> Seq<Shape>
    decreases fs.len(),
{
    if fs.len() == 0 {
        seq![]
    } else {
        frames_shapes(fs.drop_last()) + seq![Shape::Start(fs.last().kind)] + children_shapes(
            fs.last().children@,
        )
    }
}

/// The layout recorded so far: each open node's start and its finished children.
spec fn frames_layout(fs: Seq<Frame>) -> Seq<Shape>
    decreases fs.len(),
{
    if fs.len() == 0 {
        seq![]
    } else {
        frames_layout(fs.drop_last()) + seq![Shape::Start(fs.last().kind)] + children_layout(
            fs.last().children@,
        )
    }
}

spec fn frames_wf(fs: Seq<Frame>) -> bool
    decreases fs.len(),
{
    if fs.len() == 0 {
        true
    } else {
        frames_wf(fs.drop_last()) && children_wf(fs.last().children@)
    }
}

fn leaf(t: &Token) -> (r: GreenElement)
    requires
        t.range.start <= t.range.end,
        t.range.end - t.range.start == byte_len(t.text@),
    ensures
        elem_leaves(r) == seq![leaf_of(*t)],
        elem_wf(r),
        elem_shapes(r) == (if t.kind.spec_is_trivia() {
            seq![]
        } else {
            seq![Shape::Token]
        }),
        elem_layout(r) == (if t.kind.spec_is_trivia() {
            seq![Shape::Trivia]
        } else {
            seq![Shape::Token]
        }),
{
    GreenElement::Token(
        GreenToken {
            kind: SyntaxKind::from(t.kind),
            text: t.text.clone(),
            len: t.range.end - t.range.start,
        },
    )
}

/// Appends `e` to the innermost open node.
fn push_child(stack: &mut Vec<Frame>, e: GreenElement)
    requires
        old(stack).len() > 0,
    ensures
        final(stack).len() == old(stack).len(),
        frames_leaves(final(stack)@) == frames_leaves(old(stack)@) + elem_leaves(e),
        frames_wf(final(stack)@) == (frames_wf(old(stack)@) && elem_wf(e)),
        frames_shapes(final(stack)@) == frames_shapes(old(stack)@) + elem_shapes(e),
        frames_layout(final(stack)@) == frames_layout(old(stack)@) + elem_layout(e),
{
    let ghost s0 = stack@;
    let mut top = stack.pop().unwrap();
    proof {
        assert(s0.drop_last() == stack@);
        lemma_children_leaves_push(top.children@, e);
    }
    let ghost e_copy = e;
    top.children.push(e);
    let ghost s1 = stack@;
    stack.push(top);
    proof {
        assert(stack@.drop_last() == s1);
        assert(frames_leaves(stack@) =~= frames_leaves(s0) + elem_leaves(e_copy));
        assert(frames_shapes(stack@) =~= frames_shapes(s0) + elem_shapes(e_copy));
        assert(frames_layout(stack@) =~= frames_layout(s0) + elem_layout(e_copy));
    }
}

/// Closes the innermost open node; hands it back when it was the outermost.
fn close(stack: &mut Vec<Frame>) -> (r: Option<GreenNode>)
    requires
        old(stack).len() > 0,
    ensures
        final(stack).len() == old(stack).len() - 1,
        r is Some <==> final(stack).len() == 0,
        r is None ==> frames_leaves(final(stack)@) == frames_leaves(old(stack)@),
        r is None ==> frames_wf(final(stack)@) == frames_wf(old(stack)@),
        r is Some ==> node_leaves(r->0) == frames_leaves(old(stack)@),
        r is Some ==> (frames_wf(old(stack)@) ==> elem_wf(GreenElement::Node(r->0))),
        r is None ==> frames_shapes(final(stack)@) == frames_shapes(old(stack)@) + seq![Shape::Finish],
        r is Some ==> elem_shapes(GreenElement::Node(r->0)) == frames_shapes(old(stack)@) + seq![
            Shape::Finish,
        ],
        r is None ==> frames_layout(final(stack)@) == frames_layout(old(stack)@) + seq![Shape::Finish],
        r is Some ==> elem_layout(GreenElement::Node(r->0)) == frames_layout(old(stack)@) + seq![
            Shape::Finish,
        ],
{
    let ghost s0 = stack@;
    let top = stack.pop().unwrap();
    proof {
        assert(s0.drop_last() == stack@);
    }
    let node = GreenNode { kind: top.kind, children: top.children };
    if stack.len() == 0 {
        proof {
            assert(frames_leaves(stack@) =~= Seq::<Leaf>::empty());
            assert(frames_leaves(s0) =~= children_leaves(node.children@));
            assert(frames_shapes(stack@) =~= Seq::<Shape>::empty());
            assert(frames_shapes(s0) =~= seq![Shape::Start(node.kind)] + children_shapes(node.children@));
            assert(frames_layout(stack@) =~= Seq::<Shape>::empty());
            assert(frames_layout(s0) =~= seq![Shape::Start(node.kind)] + children_layout(node.children@));
        }
        Some(node)
    } else {
        let ghost n = GreenElement::Node(node);
        push_child(stack, GreenElement::Node(node));
        proof {
            assert(elem_leaves(n) == children_leaves(top.children@));
            assert(frames_leaves(s0) =~= frames_leaves(s0.drop_last()) + children_leaves(top.children@));
            assert(frames_shapes(s0) =~= frames_shapes(s0.drop_last()) + seq![Shape::Start(top.kind)]
                + children_shapes(top.children@));
            assert(frames_layout(s0) =~= frames_layout(s0.drop_last()) + seq![Shape::Start(top.kind)]
                + children_layout(top.children@));
        }
        None
    }
}

proof fn lemma_added_grows(evs: Seq<Event>, a: int, b: int)
    requires
        0 <= a <= b <= evs.len(),
    ensures
        tally(evs, a, false) <= tally(evs, b, false),
    decreases b - a,
{
    if a < b {
        lemma_added_grows(evs, a, b - 1);
    }
}

proof fn lemma_leaves_of_step(ts: Seq<Token>, c: int)
    requires
        0 <= c < ts.len(),
    ensures
        leaves_of(ts.subrange(0, c + 1)) == leaves_of(ts.subrange(0, c)) + seq![leaf_of(ts[c])],
{
    assert(leaves_of(ts.subrange(0, c + 1)) =~= leaves_of(ts.subrange(0, c)) + seq![leaf_of(ts[c])]);
}

/// Replays a parser's event log over the tokens it read, attaching the trivia
/// that the grammar stepped over to the node that is open at that point.
/// The tree's leaves are the tokens, in order; the errors are those of the log.
pub fn build(tokens: &Vec<Token>, events: &Vec<Event>) -> (r: (GreenNode, Vec<ParseError>))
    requires
        well_nested(events@),
        added(events@) == significant_count(kinds_of(tokens@), tokens.len() as int),
        tokens_wf(tokens@),
    ensures
        node_leaves(r.0) == leaves_of(tokens@),
        elem_wf(GreenElement::Node(r.0)),
        elem_shapes(GreenElement::Node(r.0)) == structural(shapes(events@)),
        r.1@.map_values(|e: ParseError| (e.found, e.expected@, e.range)) == error_entries(shapes(events@)),
        elem_layout(GreenElement::Node(r.0)) == laid_out(shapes(events@), kinds_of(tokens@)),
{
    let ghost evs = events@;
    let ghost ks = kinds_of(tokens@);
    let n = events.len();
    let mut stack: Vec<Frame> = Vec::new();
    let mut errors: Vec<ParseError> = Vec::new();
    let mut root: Option<GreenNode> = None;
    let mut cursor: usize = 0;
    let mut i: usize = 0;
    proof {
        assert(shapes(evs.take(0)) =~= Seq::<Shape>::empty());
        assert(errors@.map_values(|e: ParseError| (e.found, e.expected@, e.range)) =~= Seq::<(Option<TokenKind>, Seq<TokenKind>, TextRange)>::empty());
        assert(leaves_of(tokens@.subrange(0, 0)) =~= Seq::<Leaf>::empty());
        assert(frames_leaves(stack@) =~= Seq::<Leaf>::empty());
    }
    while i < n
        invariant
            n == events.len(),
            evs == events@,
            ks == kinds_of(tokens@),
            well_nested(evs),
            added(evs) == significant_count(ks, tokens.len() as int),
            tokens_wf(tokens@),
            0 <= i <= n,
            cursor <= tokens.len(),
            stack.len() == depth(evs, i as int),
            i < n ==> frames_leaves(stack@) == leaves_of(tokens@.subrange(0, cursor as int)),
            i < n ==> frames_wf(stack@),
            i < n ==> frames_shapes(stack@) == structural(shapes(evs.take(i as int))),
            errors@.map_values(|e: ParseError| (e.found, e.expected@, e.range)) == error_entries(shapes(evs.take(i as int))),
            i < n ==> frames_layout(stack@) == laid_out(shapes(evs.take(i as int)), ks),
            1 <= i < n ==> cursor == sig_position(ks, tally(evs, i as int, false) as nat),
            i == 0 ==> cursor == 0,
            i == n ==> elem_layout(GreenElement::Node(root->0)) == laid_out(shapes(evs), ks),
            tally(evs, i as int, false) == significant_count(ks, cursor as int),
            1 <= i < n ==> (cursor < tokens.len() ==> !ks[cursor as int].spec_is_trivia()),
            i < n ==> root is None,
            i == n ==> root is Some && cursor == tokens.len() && node_leaves(root->0)
                == leaves_of(tokens@) && elem_wf(GreenElement::Node(root->0)),
            i == n ==> elem_shapes(GreenElement::Node(root->0)) == structural(shapes(evs)),
        decreases n - i,
    {
        proof {
            assert(depth(evs, i + 1) == depth(evs, i as int) + delta(evs[i as int]));
            assert(tally(evs, i + 1, false) == tally(evs, i as int, false) + weight(evs[i as int], false));
            if i + 1 < n {
                assert(depth(evs, i + 1) >= 1);
            }
            if i >= 1 {
                assert(depth(evs, i as int) >= 1);
            }
            assert(shapes(evs.take(i + 1)) =~= shapes(evs.take(i as int)).push(shape(evs[i as int])));
            assert(shapes(evs.take(i + 1)).drop_last() == shapes(evs.take(i as int)));
            if i + 1 == n {
                assert(evs.take(i + 1) =~= evs);
            }
            assert(evs.take(0) =~= Seq::<Event>::empty());
            lemma_token_count_take(evs, i as int);
            lemma_added_grows(evs, 0, i as int);
            assert(tally(evs, 0, false) == 0);
        }
        let ghost layout_before = frames_layout(stack@);
        if i + 1 == n {
            proof {
                // The last event closes the outermost node, and every token has been placed.
                assert(evs[i as int] is FinishNode);
                if cursor < tokens.len() {
                    lemma_significant_count_grows(ks, cursor as int, tokens.len() as int);
                }
                assert(cursor == tokens.len());
                assert(tokens@.subrange(0, cursor as int) =~= tokens@);
            }
        }
        match &events[i] {
            Event::StartNode { kind } => {
                let ghost before = stack@;
                stack.push(Frame { kind: *kind, children: Vec::new() });
                proof {
                    assert(stack@.drop_last() == before);
                    assert(children_leaves(stack@.last().children@) =~= Seq::<Leaf>::empty());
                    assert(frames_leaves(stack@) =~= frames_leaves(before));
                }
            },
            Event::AddToken => {
                proof {
                    lemma_added_grows(evs, i + 1, n as int);
                    if cursor == tokens.len() {
                        assert(significant_count(ks, cursor as int) == significant_count(ks, tokens.len() as int));
                    }
                    lemma_significant_count_grows(ks, cursor as int, cursor + 1);
                    lemma_leaves_of_step(tokens@, cursor as int);
                }
                let e = leaf(&tokens[cursor]);
                push_child(&mut stack, e);
                cursor = cursor + 1;
            },
            Event::FinishNode => {
                let closed = close(&mut stack);
                if let Some(node) = closed {
                    root = Some(node);
                }
            },
            Event::Error(err) => {
                let ghost before = errors@;
                let expected = copy_kinds(&err.expected);
                errors.push(ParseError { expected, found: err.found, range: err.range });
                proof {
                    assert(errors@.map_values(|e: ParseError| (e.found, e.expected@, e.range)) =~= before.map_values(
                        |e: ParseError| (e.found, e.expected@, e.range),
                    ).push((err.found, err.expected@, err.range)));
                }
            },
            Event::Placeholder => {},
        }
        proof {
            if stack.len() > 0 {
                assert(frames_shapes(stack@) == structural(shapes(evs.take(i + 1))));
            }
        }
        let ghost start = cursor;
        let ghost layout_mid = frames_layout(stack@);
        proof {
            assert(trivia_marks(0) =~= Seq::<Shape>::empty());
            assert(layout_mid =~= layout_mid + trivia_marks(cursor - start));
        }
        if stack.len() > 0 {
            while cursor < tokens.len() && tokens[cursor].kind.is_trivia()
                invariant
                    ks == kinds_of(tokens@),
                    tokens_wf(tokens@),
                    cursor <= tokens.len(),
                    stack.len() > 0,
                    stack.len() == depth(evs, i + 1),
                    frames_leaves(stack@) == leaves_of(tokens@.subrange(0, cursor as int)),
                    frames_wf(stack@),
                    tally(evs, i + 1, false) == significant_count(ks, cursor as int),
                    frames_shapes(stack@) == structural(shapes(evs.take(i + 1))),
                    start <= cursor,
                    next_significant(ks, cursor as int) == next_significant(ks, start as int),
                    frames_layout(stack@) == layout_mid + trivia_marks(cursor - start),
                decreases tokens.len() - cursor,
            {
                proof {
                    lemma_leaves_of_step(tokens@, cursor as int);
                }
                let e = leaf(&tokens[cursor]);
                push_child(&mut stack, e);
                cursor = cursor + 1;
                proof {
                    assert(trivia_marks(cursor - start) == trivia_marks(cursor - start - 1).push(
                        Shape::Trivia,
                    ));
                    assert(frames_layout(stack@) =~= layout_mid + trivia_marks(cursor - start));
                }
            }
        }
        proof {
            if stack.len() > 0 {
                assert(cursor == next_significant(ks, start as int));
            }
        }
        i = i + 1;
    }
    proof {
        assert(evs.take(n as int) =~= evs);
    }
    (root.unwrap(), errors)
}

} // verus!
