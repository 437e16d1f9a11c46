use vstd::prelude::*;

use crate::hir::{BinaryOp, UnaryOp};
use crate::parser::{
    error_events, expect_events, lemma_extends_push, lemma_extends_refl, lemma_extends_trans,
    lemma_open_node, peek_sig, well_nested, CompletedMarker, Event, Parsed, Parser, Shape,
};
use crate::lexer::TextRange;
use crate::syntax::SyntaxKind;
use crate::token_kind::TokenKind;

verus! {

// ---------------------------------------------------------------------------
// The grammar, over the significant tokens
// ---------------------------------------------------------------------------
/// Whether a token of kind `k` can start an operand.
pub open spec fn starts_operand(k: Option<TokenKind>) -> bool {
    k == Some(TokenKind::Number) || k == Some(TokenKind::Identifier) || k == Some(TokenKind::Minus)
        || k == Some(TokenKind::LBrace)
}

/// The kind of node that an operand starting with a token of kind `k` becomes.
pub open spec fn operand_kind(k: TokenKind) -> SyntaxKind {
    if k == TokenKind::Number {
        SyntaxKind::Literal
    } else if k == TokenKind::Identifier {
        SyntaxKind::VariableRef
    } else if k == TokenKind::Minus {
        SyntaxKind::PrefixExpression
    } else {
        SyntaxKind::ParenExpression
    }
}

/// The binary operator that a token of kind `k` stands for.
pub open spec fn infix_op(k: Option<TokenKind>) -> Option<BinaryOp> {
    if k == Some(TokenKind::Plus) {
        Some(BinaryOp::Add)
    } else if k == Some(TokenKind::Minus) {
        Some(BinaryOp::Sub)
    } else if k == Some(TokenKind::Star) {
        Some(BinaryOp::Mul)
    } else if k == Some(TokenKind::Slash) {
        Some(BinaryOp::Div)
    } else {
        None
    }
}

/// The kinds an operand is looked for as, in order.
pub open spec fn operand_checks() -> Seq<TokenKind> {
    seq![TokenKind::Number, TokenKind::Identifier, TokenKind::Minus, TokenKind::LBrace]
}

/// The operator kinds looked for before one of kind `k` is found (all four
/// when none is).
pub open spec fn operator_checks(k: Option<TokenKind>) -> Seq<TokenKind> {
    if k == Some(TokenKind::Plus) {
        seq![TokenKind::Plus]
    } else if k == Some(TokenKind::Minus) {
        seq![TokenKind::Plus, TokenKind::Minus]
    } else if k == Some(TokenKind::Star) {
        seq![TokenKind::Plus, TokenKind::Minus, TokenKind::Star]
    } else {
        seq![TokenKind::Plus, TokenKind::Minus, TokenKind::Star, TokenKind::Slash]
    }
}

/// An operand at position `i`, after the kinds `ex` were looked for: a
/// literal, a variable, a negation whose operand binds at the prefix power,
/// or a parenthesised expression.
pub open spec fn lhs_events(sig: Seq<TokenKind>, rs: Seq<TextRange>, i: int, ex: Seq<TokenKind>) -> Parsed
    decreases sig.len() - i, 1int,
{
    let k = peek_sig(sig, i);
    if k == Some(TokenKind::Number) {
        Parsed {
            events: seq![Shape::Start(SyntaxKind::Literal), Shape::Token, Shape::Finish],
            pos: i + 1,
            ok: true,
            ex: seq![],
        }
    } else if k == Some(TokenKind::Identifier) {
        Parsed {
            events: seq![Shape::Start(SyntaxKind::VariableRef), Shape::Token, Shape::Finish],
            pos: i + 1,
            ok: true,
            ex: seq![],
        }
    } else if k == Some(TokenKind::Minus) {
        let r = expr_events(sig, rs, i + 1, UnaryOp::Neg.spec_binding_power().1, seq![]);
        Parsed {
            events: seq![Shape::Start(SyntaxKind::PrefixExpression), Shape::Token] + r.events
                + seq![Shape::Finish],
            pos: r.pos,
            ok: true,
            ex: r.ex,
        }
    } else if k == Some(TokenKind::LBrace) {
        let r = expr_events(sig, rs, i + 1, 0, seq![]);
        let c = expect_events(sig, rs, r.pos, TokenKind::RBrace, r.ex);
        Parsed {
            events: seq![Shape::Start(SyntaxKind::ParenExpression), Shape::Token] + r.events
                + c.events + seq![Shape::Finish],
            pos: c.pos,
            ok: true,
            ex: c.ex,
        }
    } else {
        error_events(sig, rs, i, ex + operand_checks())
    }
}

/// An expression at position `i` whose operators bind at least at `min`.
pub open spec fn expr_events(
    sig: Seq<TokenKind>,
    rs: Seq<TextRange>,
    i: int,
    min: u8,
    ex: Seq<TokenKind>,
) -> Parsed
    decreases sig.len() - i, 2int,
{
    let l = lhs_events(sig, rs, i, ex);
    if !l.ok || l.pos < i || l.pos > sig.len() {
        l
    } else {
        infix_events(sig, rs, l.pos, min, l.events, l.ex)
    }
}

/// The operators after an operand whose events are `acc`: each one binding
/// at least at `min` wraps everything so far, with its right operand, in an
/// infix node. A missing right operand ends the chain.
pub open spec fn infix_events(
    sig: Seq<TokenKind>,
    rs: Seq<TextRange>,
    i: int,
    min: u8,
    acc: Seq<Shape>,
    ex: Seq<TokenKind>,
) -> Parsed
    decreases sig.len() - i, 0int,
{
    let k = peek_sig(sig, i);
    match infix_op(k) {
        None => Parsed { events: acc, pos: i, ok: true, ex: ex + operator_checks(k) },
        Some(op) => if op.spec_binding_power().0 < min {
            Parsed { events: acc, pos: i, ok: true, ex: ex + operator_checks(k) }
        } else {
            let r = expr_events(sig, rs, i + 1, op.spec_binding_power().1, seq![]);
            let wrapped = seq![Shape::Start(SyntaxKind::InfixExpression)] + acc + seq![Shape::Token]
                + r.events + seq![Shape::Finish];
            if !r.ok || r.pos <= i || r.pos > sig.len() {
                Parsed { events: wrapped, pos: r.pos, ok: true, ex: r.ex }
            } else {
                infix_events(sig, rs, r.pos, min, wrapped, r.ex)
            }
        },
    }
}

/// A definition at position `i`: `def`, a name, `=` and an expression.
pub open spec fn variable_def_events(sig: Seq<TokenKind>, rs: Seq<TextRange>, i: int) -> Parsed {
    let a = expect_events(sig, rs, i + 1, TokenKind::Identifier, seq![]);
    let b = expect_events(sig, rs, a.pos, TokenKind::Equals, a.ex);
    let e = expr_events(sig, rs, b.pos, 0, b.ex);
    Parsed {
        events: seq![Shape::Start(SyntaxKind::VariableDef), Shape::Token] + a.events + b.events
            + e.events + seq![Shape::Finish],
        pos: e.pos,
        ok: true,
        ex: e.ex,
    }
}

/// A statement at position `i`, after the kinds `ex` were looked for.
pub open spec fn stmt_events(sig: Seq<TokenKind>, rs: Seq<TextRange>, i: int, ex: Seq<TokenKind>) -> Parsed {
    if peek_sig(sig, i) == Some(TokenKind::Define) {
        variable_def_events(sig, rs, i)
    } else {
        expr_events(sig, rs, i, 0, ex.push(TokenKind::Define))
    }
}

/// Statements from position `i` to the end.
pub open spec fn stmts_events(sig: Seq<TokenKind>, rs: Seq<TextRange>, i: int, ex: Seq<TokenKind>) -> Parsed
    decreases sig.len() - i,
{
    if i < 0 || i >= sig.len() {
        Parsed { events: seq![], pos: i, ok: true, ex }
    } else {
        let s = stmt_events(sig, rs, i, ex);
        if s.pos <= i || s.pos > sig.len() {
            s
        } else {
            let rest = stmts_events(sig, rs, s.pos, s.ex);
            Parsed { events: s.events + rest.events, pos: rest.pos, ok: true, ex: rest.ex }
        }
    }
}

/// The events of a whole program: its statements under one `Root` node.
pub open spec fn program_events(sig: Seq<TokenKind>, rs: Seq<TextRange>) -> Seq<Shape> {
    seq![Shape::Start(SyntaxKind::Root)] + stmts_events(sig, rs, 0, seq![]).events + seq![Shape::Finish]
}

/// A chain of operators after an operand always succeeds.
pub proof fn lemma_infix_ok(sig: Seq<TokenKind>, rs: Seq<TextRange>, i: int, min: u8, acc: Seq<Shape>, ex: Seq<TokenKind>)
    ensures
        infix_events(sig, rs, i, min, acc, ex).ok,
    decreases sig.len() - i,
{
    match infix_op(peek_sig(sig, i)) {
        None => {},
        Some(op) => {
            if op.spec_binding_power().0 >= min {
                let r = expr_events(sig, rs, i + 1, op.spec_binding_power().1, seq![]);
                let wrapped = seq![Shape::Start(SyntaxKind::InfixExpression)] + acc + seq![Shape::Token]
                    + r.events + seq![Shape::Finish];
                if !(!r.ok || r.pos <= i || r.pos > sig.len()) {
                    lemma_infix_ok(sig, rs, r.pos, min, wrapped, r.ex);
                }
            }
        },
    }
}

// ---------------------------------------------------------------------------
// The rules
// ---------------------------------------------------------------------------
/// A program: statements up to the end of the input, under one `Root` node.
pub fn root(p: &mut Parser) -> (cm: CompletedMarker)
    requires
        old(p).inv(),
        old(p).evs().len() == 0,
        old(p).sig_pos() == 0,
        old(p).expected() == Seq::<TokenKind>::empty(),
    ensures
        final(p).inv(),
        final(p).tokens() == old(p).tokens(),
        final(p).next_kind() is None,
        well_nested(final(p).evs()),
        final(p).shapes() == program_events(old(p).sig(), old(p).ranges()),
        cm.pos == 0,
{
    let ghost o = *p;
    let ghost sig = p.sig();
    let ghost rs = p.ranges();
    let m = p.start();
    let ghost s = *p;
    let ghost mut acc: Seq<Shape> = seq![];
    proof {
        lemma_extends_refl(&s);
        o.lemma_next_kind();
        s.lemma_sig_pos_grows(&o);
        o.lemma_sig_pos_grows(&s);
        assert(s.shapes() =~= seq![Shape::Pending] + acc);
        assert(stmts_events(sig, rs, 0, seq![]).events =~= acc + stmts_events(sig, rs, s.sig_pos(), s.expected()).events);
    }
    while !p.at_end()
        invariant
            p.extends(&s),
            s.evs() == o.evs().push(Event::Placeholder),
            s.tokens() == o.tokens(),
            s.inv(),
            o.inv(),
            sig == o.sig(),
            rs == o.ranges(),
            m.pos == 0,
            !m.preceding,
            p.shapes() == seq![Shape::Pending] + acc,
            stmts_events(sig, rs, 0, seq![]).events == acc + stmts_events(sig, rs, p.sig_pos(), p.expected()).events,
        decreases p.remaining(),
    {
        let ghost before = *p;
        proof {
            p.lemma_pos_bounds();
            p.lemma_next_kind();
        }
        stmt(p);
        proof {
            lemma_extends_trans(&s, &before, p);
            p.lemma_pos_bounds();
            p.lemma_next_kind();
            before.lemma_sig_pos_strict(p);
            let st = stmt_events(sig, rs, before.sig_pos(), before.expected());
            assert(stmts_events(sig, rs, before.sig_pos(), before.expected()).events == st.events + stmts_events(
                sig,
                rs,
                p.sig_pos(),
                p.expected(),
            ).events);
            assert(p.shapes() =~= seq![Shape::Pending] + (acc + st.events));
            assert(stmts_events(sig, rs, 0, seq![]).events =~= (acc + st.events) + stmts_events(
                sig,
                rs,
                p.sig_pos(),
                p.expected(),
            ).events);
            acc = acc + st.events;
        }
    }
    proof {
        lemma_open_node(&o, &s, p);
        p.lemma_next_kind();
        assert(stmts_events(sig, rs, p.sig_pos(), p.expected()).events =~= Seq::<Shape>::empty());
        assert(acc =~= stmts_events(sig, rs, 0, seq![]).events);
    }
    let cm = m.complete(p, SyntaxKind::Root);
    proof {
        assert(p.shapes() =~= program_events(sig, rs));
    }
    cm
}

/// A statement: a variable definition or a bare expression.
pub fn stmt(p: &mut Parser) -> (r: Option<CompletedMarker>)
    requires
        old(p).inv(),
        old(p).kinds().len() > 0,
        old(p).next_kind() is Some,
    ensures
        final(p).extends(old(p)),
        final(p).pos() > old(p).pos(),
        r is Some <==> (old(p).next_kind() == Some(TokenKind::Define) || starts_operand(
            old(p).next_kind(),
        )),
        final(p).shapes() == old(p).shapes() + stmt_events(old(p).sig(), old(p).ranges(), old(p).sig_pos(), old(p).expected()).events,
        final(p).sig_pos() == stmt_events(old(p).sig(), old(p).ranges(), old(p).sig_pos(), old(p).expected()).pos,
        final(p).expected() == stmt_events(old(p).sig(), old(p).ranges(), old(p).sig_pos(), old(p).expected()).ex,
{
    proof {
        p.lemma_next_kind();
    }
    if p.at(TokenKind::Define) {
        Some(variable_def(p))
    } else {
        expr(p)
    }
}

/// `def` identifier `=` expression.
pub fn variable_def(p: &mut Parser) -> (cm: CompletedMarker)
    requires
        old(p).inv(),
        old(p).kinds().len() > 0,
        old(p).next_kind() == Some(TokenKind::Define),
    ensures
        final(p).extends(old(p)),
        final(p).pos() > old(p).pos(),
        cm.pos == old(p).evs().len(),
        final(p).evs()[cm.pos as int] == (Event::StartNode { kind: SyntaxKind::VariableDef }),
        final(p).shapes() == old(p).shapes() + variable_def_events(old(p).sig(), old(p).ranges(), old(p).sig_pos()).events,
        final(p).sig_pos() == variable_def_events(old(p).sig(), old(p).ranges(), old(p).sig_pos()).pos,
        final(p).expected() == variable_def_events(old(p).sig(), old(p).ranges(), old(p).sig_pos()).ex,
{
    let ghost o = *p;
    let m = p.start();
    let ghost s = *p;
    p.bump();
    let ghost s2 = *p;
    proof {
        lemma_extends_push(&s, &s2, Event::AddToken);
    }
    p.expect(TokenKind::Identifier);
    let ghost s3 = *p;
    proof {
        lemma_extends_trans(&s, &s2, &s3);
    }
    p.expect(TokenKind::Equals);
    let ghost s4 = *p;
    proof {
        lemma_extends_trans(&s, &s3, &s4);
    }
    expr(p);
    proof {
        lemma_extends_trans(&s, &s4, p);
        lemma_open_node(&o, &s, p);
    }
    let ghost before = *p;
    let cm = m.complete(p, SyntaxKind::VariableDef);
    proof {
        let a = expect_events(o.sig(), o.ranges(), s2.sig_pos(), TokenKind::Identifier, s2.expected());
        let b = expect_events(o.sig(), o.ranges(), s3.sig_pos(), TokenKind::Equals, s3.expected());
        let e = expr_events(o.sig(), o.ranges(), s4.sig_pos(), 0, s4.expected());
        assert(before.shapes() =~= o.shapes() + seq![Shape::Pending, Shape::Token] + a.events
            + b.events + e.events);
        assert(p.shapes() =~= o.shapes() + variable_def_events(o.sig(), o.ranges(), o.sig_pos()).events);
    }
    cm
}

/// An expression at the loosest binding power.
pub fn expr(p: &mut Parser) -> (r: Option<CompletedMarker>)
    requires
        old(p).inv(),
        old(p).kinds().len() > 0,
    ensures
        final(p).extends(old(p)),
        r is Some ==> r->0.pos == old(p).evs().len() && final(p).pos() > old(p).pos(),
        r is Some <==> starts_operand(old(p).next_kind()),
        old(p).next_kind() is Some && old(p).next_kind() != Some(TokenKind::Define)
            ==> final(p).pos() > old(p).pos(),
        final(p).shapes() == old(p).shapes() + expr_events(old(p).sig(), old(p).ranges(), old(p).sig_pos(), 0, old(p).expected()).events,
        final(p).sig_pos() == expr_events(old(p).sig(), old(p).ranges(), old(p).sig_pos(), 0, old(p).expected()).pos,
        final(p).expected() == expr_events(old(p).sig(), old(p).ranges(), old(p).sig_pos(), 0, old(p).expected()).ex,
{
    proof {
        p.lemma_pos_bounds();
    }
    expr_binding_power(p, 0)
}

/// Precedence climbing: an operand, then operators binding at least as
/// tightly as `minimum_binding_power`, each wrapping what came before.
pub fn expr_binding_power(p: &mut Parser, minimum_binding_power: u8) -> (r: Option<
    CompletedMarker,
>)
    requires
        old(p).inv(),
        old(p).kinds().len() > 0,
    ensures
        final(p).extends(old(p)),
        r is Some ==> r->0.pos == old(p).evs().len() && final(p).pos() > old(p).pos(),
        r is Some <==> starts_operand(old(p).next_kind()),
        old(p).next_kind() is Some && old(p).next_kind() != Some(TokenKind::Define)
            ==> final(p).pos() > old(p).pos(),
        final(p).shapes() == old(p).shapes() + expr_events(
            old(p).sig(),
            old(p).ranges(),
            old(p).sig_pos(),
            minimum_binding_power,
            old(p).expected(),
        ).events,
        final(p).sig_pos() == expr_events(old(p).sig(), old(p).ranges(), old(p).sig_pos(), minimum_binding_power, old(p).expected()).pos,
        final(p).expected() == expr_events(old(p).sig(), old(p).ranges(), old(p).sig_pos(), minimum_binding_power, old(p).expected()).ex,
        (r is Some) == expr_events(old(p).sig(), old(p).ranges(), old(p).sig_pos(), minimum_binding_power, old(p).expected()).ok,
    decreases old(p).remaining(), 2int,
{
    let ghost o = *p;
    let ghost sig = p.sig();
    let ghost rs = p.ranges();
    proof {
        p.lemma_pos_bounds();
    }
    let mut lhs = match lhs(p) {
        Some(cm) => cm,
        None => {
            return None;
        },
    };
    let ghost mut acc = lhs_events(sig, rs, o.sig_pos(), o.expected()).events;
    proof {
        p.lemma_next_kind();
        o.lemma_sig_pos_grows(p);
    }
    loop
        invariant_except_break
            expr_events(sig, rs, o.sig_pos(), minimum_binding_power, o.expected()) == infix_events(
                sig,
                rs,
                p.sig_pos(),
                minimum_binding_power,
                acc,
                p.expected(),
            ),
        invariant
            p.extends(&o),
            p.pos() > o.pos(),
            lhs.pos == o.evs().len(),
            o.kinds().len() > 0,
            o.inv(),
            o == *old(p),
            sig == o.sig(),
            rs == o.ranges(),
            p.shapes() == o.shapes() + acc,
            o.sig_pos() <= p.sig_pos() <= sig.len(),
        ensures
            p.extends(&o),
            p.pos() > o.pos(),
            lhs.pos == o.evs().len(),
            p.shapes() == o.shapes() + expr_events(sig, rs, o.sig_pos(), minimum_binding_power, o.expected()).events,
            p.sig_pos() == expr_events(sig, rs, o.sig_pos(), minimum_binding_power, o.expected()).pos,
            p.expected() == expr_events(sig, rs, o.sig_pos(), minimum_binding_power, o.expected()).ex,
        decreases p.remaining(),
    {
        let ghost before = *p;
        proof {
            p.lemma_next_kind();
        }
        let op = if p.at(TokenKind::Plus) {
            BinaryOp::Add
        } else if p.at(TokenKind::Minus) {
            BinaryOp::Sub
        } else if p.at(TokenKind::Star) {
            BinaryOp::Mul
        } else if p.at(TokenKind::Slash) {
            BinaryOp::Div
        } else {
            break ;
        };
        proof {
            assert(infix_op(peek_sig(sig, p.sig_pos())) == Some(op));
            assert(p.expected() =~= before.expected() + operator_checks(peek_sig(sig, p.sig_pos())));
        }
        let (left_binding_power, right_binding_power) = op.binding_power();
        if left_binding_power < minimum_binding_power {
            break ;
        }
        // Eat the operator's token.

        p.bump();
        let ghost s2 = *p;
        proof {
            lemma_extends_push(&before, &s2, Event::AddToken);
            lemma_extends_trans(&o, &before, &s2);
            p.lemma_pos_bounds();
        }
        let m = lhs.precede();
        let parsed_rhs = expr_binding_power(p, right_binding_power).is_some();
        let ghost s3 = *p;
        proof {
            lemma_extends_trans(&o, &s2, &s3);
            p.lemma_next_kind();
        }
        lhs = m.complete(p, SyntaxKind::InfixExpression);
        proof {
            assert(p.evs().subrange(0, o.evs().len() as int) == o.evs()) by {
                assert(s3.evs().subrange(0, o.evs().len() as int) == o.evs());
            }
            let r = expr_events(sig, rs, s2.sig_pos(), right_binding_power, seq![]);
            let wrapped = seq![Shape::Start(SyntaxKind::InfixExpression)] + acc + seq![Shape::Token]
                + r.events + seq![Shape::Finish];
            assert(s2.shapes() =~= o.shapes() + acc + seq![Shape::Token]);
            assert(s3.shapes() == o.shapes() + acc + seq![Shape::Token] + r.events);
            let l = o.evs().len() as int;
            assert(o.shapes().len() == l);
            assert(s3.shapes().subrange(0, l) =~= o.shapes());
            assert(s3.shapes().subrange(l, s3.shapes().len() as int) =~= acc + seq![Shape::Token]
                + r.events);
            assert(p.shapes() =~= o.shapes() + wrapped);
            p.lemma_pos_bounds();
            p.lemma_next_kind();
            o.lemma_sig_pos_grows(p);
            before.lemma_sig_pos_grows(&s2);
            s2.lemma_sig_pos_grows(p);
            assert(infix_events(sig, rs, before.sig_pos(), minimum_binding_power, acc, before.expected()) == (if !r.ok
                || r.pos <= before.sig_pos() || r.pos > sig.len() {
                Parsed { events: wrapped, pos: r.pos, ok: true, ex: r.ex }
            } else {
                infix_events(sig, rs, r.pos, minimum_binding_power, wrapped, r.ex)
            }));
            acc = wrapped;
        }
        if !parsed_rhs {
            break ;
        }
    }
    proof {
        lemma_infix_ok(sig, rs, lhs_events(sig, rs, o.sig_pos(), o.expected()).pos, minimum_binding_power, lhs_events(sig, rs, o.sig_pos(), o.expected()).events, lhs_events(sig, rs, o.sig_pos(), o.expected()).ex);
    }
    Some(lhs)
}

/// An operand: a literal, a variable, a negation or a parenthesised expression.
pub fn lhs(p: &mut Parser) -> (r: Option<CompletedMarker>)
    requires
        old(p).inv(),
        old(p).kinds().len() > 0,
    ensures
        final(p).extends(old(p)),
        r is Some ==> r->0.pos == old(p).evs().len() && final(p).pos() > old(p).pos(),
        r is Some <==> starts_operand(old(p).next_kind()),
        r is Some ==> final(p).evs()[r->0.pos as int] == (Event::StartNode {
            kind: operand_kind(old(p).next_kind()->0),
        }),
        old(p).next_kind() is Some && old(p).next_kind() != Some(TokenKind::Define)
            ==> final(p).pos() > old(p).pos(),
        final(p).shapes() == old(p).shapes() + lhs_events(old(p).sig(), old(p).ranges(), old(p).sig_pos(), old(p).expected()).events,
        final(p).sig_pos() == lhs_events(old(p).sig(), old(p).ranges(), old(p).sig_pos(), old(p).expected()).pos,
        final(p).expected() == lhs_events(old(p).sig(), old(p).ranges(), old(p).sig_pos(), old(p).expected()).ex,
        (r is Some) == lhs_events(old(p).sig(), old(p).ranges(), old(p).sig_pos(), old(p).expected()).ok,
    decreases old(p).remaining(), 1int,
{
    proof {
        p.lemma_next_kind();
    }
    let cm = if p.at(TokenKind::Number) {
        literal(p)
    } else if p.at(TokenKind::Identifier) {
        variable_ref(p)
    } else if p.at(TokenKind::Minus) {
        prefix_expr(p)
    } else if p.at(TokenKind::LBrace) {
        paren_expr(p)
    } else {
        proof {
            assert(p.expected() =~= old(p).expected() + operand_checks());
        }
        p.error();
        return None;
    };
    Some(cm)
}

/// A node of kind `kind` around the next token alone.
fn single_token_node(p: &mut Parser, kind: SyntaxKind) -> (cm: CompletedMarker)
    requires
        old(p).inv(),
        old(p).next_kind() is Some,
    ensures
        final(p).extends(old(p)),
        final(p).pos() > old(p).pos(),
        cm.pos == old(p).evs().len(),
        final(p).evs()[cm.pos as int] == (Event::StartNode { kind }),
        final(p).shapes() == old(p).shapes() + seq![Shape::Start(kind), Shape::Token, Shape::Finish],
        final(p).sig_pos() == old(p).sig_pos() + 1,
        final(p).expected() == Seq::<TokenKind>::empty(),
{
    let ghost o = *p;
    let m = p.start();
    let ghost s = *p;
    p.bump();
    proof {
        lemma_extends_push(&s, p, Event::AddToken);
        lemma_open_node(&o, &s, p);
    }
    let cm = m.complete(p, kind);
    proof {
        assert(p.shapes() =~= o.shapes() + seq![Shape::Start(kind), Shape::Token, Shape::Finish]);
    }
    cm
}

/// A number.
pub fn literal(p: &mut Parser) -> (cm: CompletedMarker)
    requires
        old(p).inv(),
        old(p).next_kind() == Some(TokenKind::Number),
    ensures
        final(p).extends(old(p)),
        final(p).pos() > old(p).pos(),
        cm.pos == old(p).evs().len(),
        final(p).evs()[cm.pos as int] == (Event::StartNode { kind: SyntaxKind::Literal }),
        final(p).shapes() == old(p).shapes() + seq![
            Shape::Start(SyntaxKind::Literal),
            Shape::Token,
            Shape::Finish,
        ],
        final(p).sig_pos() == old(p).sig_pos() + 1,
        final(p).expected() == Seq::<TokenKind>::empty(),
{
    single_token_node(p, SyntaxKind::Literal)
}

/// A reference to a variable.
pub fn variable_ref(p: &mut Parser) -> (cm: CompletedMarker)
    requires
        old(p).inv(),
        old(p).next_kind() == Some(TokenKind::Identifier),
    ensures
        final(p).extends(old(p)),
        final(p).pos() > old(p).pos(),
        cm.pos == old(p).evs().len(),
        final(p).evs()[cm.pos as int] == (Event::StartNode { kind: SyntaxKind::VariableRef }),
        final(p).shapes() == old(p).shapes() + seq![
            Shape::Start(SyntaxKind::VariableRef),
            Shape::Token,
            Shape::Finish,
        ],
        final(p).sig_pos() == old(p).sig_pos() + 1,
        final(p).expected() == Seq::<TokenKind>::empty(),
{
    single_token_node(p, SyntaxKind::VariableRef)
}

/// A negation: `-` and an operand bound at the prefix binding power.
pub fn prefix_expr(p: &mut Parser) -> (cm: CompletedMarker)
    requires
        old(p).inv(),
        old(p).kinds().len() > 0,
        old(p).next_kind() == Some(TokenKind::Minus),
    ensures
        final(p).extends(old(p)),
        final(p).pos() > old(p).pos(),
        cm.pos == old(p).evs().len(),
        final(p).evs()[cm.pos as int] == (Event::StartNode { kind: SyntaxKind::PrefixExpression }),
        final(p).shapes() == old(p).shapes() + seq![
            Shape::Start(SyntaxKind::PrefixExpression),
            Shape::Token,
        ] + expr_events(old(p).sig(), old(p).ranges(), old(p).sig_pos() + 1, 5, seq![]).events + seq![Shape::Finish],
        final(p).sig_pos() == expr_events(old(p).sig(), old(p).ranges(), old(p).sig_pos() + 1, 5, seq![]).pos,
        final(p).expected() == expr_events(old(p).sig(), old(p).ranges(), old(p).sig_pos() + 1, 5, seq![]).ex,
    decreases old(p).remaining(), 0int,
{
    let ghost o = *p;
    proof {
        p.lemma_pos_bounds();
    }
    let m = p.start();
    let ghost s = *p;
    let op = UnaryOp::Neg;
    let ((), right_binding_power) = op.binding_power();
    // Eat the operator's token.
    p.bump();
    let ghost s2 = *p;
    proof {
        lemma_extends_push(&s, &s2, Event::AddToken);
        p.lemma_pos_bounds();
    }
    expr_binding_power(p, right_binding_power);
    proof {
        lemma_extends_trans(&s, &s2, p);
        lemma_open_node(&o, &s, p);
    }
    let cm = m.complete(p, SyntaxKind::PrefixExpression);
    proof {
        assert(p.shapes() =~= o.shapes() + seq![
            Shape::Start(SyntaxKind::PrefixExpression),
            Shape::Token,
        ] + expr_events(o.sig(), o.ranges(), o.sig_pos() + 1, 5, seq![]).events + seq![Shape::Finish]);
    }
    cm
}

/// `(` expression `)`.
pub fn paren_expr(p: &mut Parser) -> (cm: CompletedMarker)
    requires
        old(p).inv(),
        old(p).kinds().len() > 0,
        old(p).next_kind() == Some(TokenKind::LBrace),
    ensures
        final(p).extends(old(p)),
        final(p).pos() > old(p).pos(),
        cm.pos == old(p).evs().len(),
        final(p).evs()[cm.pos as int] == (Event::StartNode { kind: SyntaxKind::ParenExpression }),
        final(p).shapes() == old(p).shapes() + seq![
            Shape::Start(SyntaxKind::ParenExpression),
            Shape::Token,
        ] + expr_events(old(p).sig(), old(p).ranges(), old(p).sig_pos() + 1, 0, seq![]).events + expect_events(
            old(p).sig(),
            old(p).ranges(),
            expr_events(old(p).sig(), old(p).ranges(), old(p).sig_pos() + 1, 0, seq![]).pos,
            TokenKind::RBrace,
            expr_events(old(p).sig(), old(p).ranges(), old(p).sig_pos() + 1, 0, seq![]).ex,
        ).events + seq![Shape::Finish],
        final(p).sig_pos() == expect_events(
            old(p).sig(),
            old(p).ranges(),
            expr_events(old(p).sig(), old(p).ranges(), old(p).sig_pos() + 1, 0, seq![]).pos,
            TokenKind::RBrace,
            expr_events(old(p).sig(), old(p).ranges(), old(p).sig_pos() + 1, 0, seq![]).ex,
        ).pos,
        final(p).expected() == Seq::<TokenKind>::empty(),
    decreases old(p).remaining(), 0int,
{
    let ghost o = *p;
    proof {
        p.lemma_pos_bounds();
    }
    let m = p.start();
    let ghost s = *p;
    p.bump();
    let ghost s2 = *p;
    proof {
        lemma_extends_push(&s, &s2, Event::AddToken);
        p.lemma_pos_bounds();
    }
    expr_binding_power(p, 0);
    let ghost s3 = *p;
    proof {
        lemma_extends_trans(&s, &s2, &s3);
    }
    p.expect(TokenKind::RBrace);
    proof {
        lemma_extends_trans(&s, &s3, p);
        lemma_open_node(&o, &s, p);
    }
    let cm = m.complete(p, SyntaxKind::ParenExpression);
    proof {
        let r = expr_events(o.sig(), o.ranges(), o.sig_pos() + 1, 0, seq![]);
        assert(p.shapes() =~= o.shapes() + seq![
            Shape::Start(SyntaxKind::ParenExpression),
            Shape::Token,
        ] + r.events + expect_events(o.sig(), o.ranges(), r.pos, TokenKind::RBrace, r.ex).events + seq![Shape::Finish]);
    }
    cm
}

} // verus!
