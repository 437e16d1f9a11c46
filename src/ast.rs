use vstd::prelude::*;

use crate::lexer::is_digit;
use crate::syntax::SyntaxKind;
use crate::tree::{GreenElement, GreenNode};

verus! {

// ---------------------------------------------------------------------------
// Finding children
// ---------------------------------------------------------------------------
pub open spec fn is_expr_kind(k: SyntaxKind) -> bool {
    k == SyntaxKind::InfixExpression || k == SyntaxKind::Literal || k == SyntaxKind::ParenExpression
        || k == SyntaxKind::PrefixExpression || k == SyntaxKind::VariableRef
}

pub open spec fn is_stmt_kind(k: SyntaxKind) -> bool {
    k == SyntaxKind::VariableDef || is_expr_kind(k)
}

pub open spec fn is_operator_kind(k: SyntaxKind) -> bool {
    k == SyntaxKind::Plus || k == SyntaxKind::Minus || k == SyntaxKind::Star || k == SyntaxKind::Slash
}

/// Which children a search looks for.
#[derive(Debug, Clone, Copy, PartialEq, Eq, Structural)]
pub enum Wanted {
    /// A node of an expression kind.
    ExprNode,
    /// A node of a statement kind.
    StmtNode,
    /// A token of an operator kind.
    OperatorToken,
    /// A token of kind `Identifier`.
    IdentifierToken,
    /// Any token.
    AnyToken,
}

pub open spec fn wanted(e: GreenElement, w: Wanted) -> bool {
    match w {
        Wanted::ExprNode => e is Node && is_expr_kind(e->Node_0.kind),
        Wanted::StmtNode => e is Node && is_stmt_kind(e->Node_0.kind),
        Wanted::OperatorToken => e is Token && is_operator_kind(e->Token_0.kind),
        Wanted::IdentifierToken => e is Token && e->Token_0.kind == SyntaxKind::Identifier,
        Wanted::AnyToken => e is Token,
    }
}

/// The index of the first wanted child at or after `from`, or `cs.len()`.
pub open spec fn find_from(cs: Seq<GreenElement>, from: int, w: Wanted) -> int
    decreases cs.len() - from,
{
    if from < 0 || from >= cs.len() {
        cs.len() as int
    } else if wanted(cs[from], w) {
        from
    } else {
        find_from(cs, from + 1, w)
    }
}

/// The indices of all wanted children at or after `from`, in order.
pub open spec fn find_all_from(cs: Seq<GreenElement>, from: int, w: Wanted) -> Seq<int>
    decreases cs.len() - from,
{
    if from < 0 || from >= cs.len() {
        seq![]
    } else if wanted(cs[from], w) {
        seq![from] + find_all_from(cs, from + 1, w)
    } else {
        find_all_from(cs, from + 1, w)
    }
}

pub proof fn lemma_find_from_bounds(cs: Seq<GreenElement>, from: int, w: Wanted)
    requires
        0 <= from,
    ensures
        find_from(cs, from, w) == cs.len() || (from <= find_from(cs, from, w) < cs.len()
            && wanted(cs[find_from(cs, from, w)], w)),
    decreases cs.len() - from,
{
    if from < cs.len() && !wanted(cs[from], w) {
        lemma_find_from_bounds(cs, from + 1, w);
    }
}

fn wanted_exec(e: &GreenElement, w: Wanted) -> (r: bool)
    ensures
        r == wanted(*e, w),
{
    match e {
        GreenElement::Node(n) => match w {
            Wanted::ExprNode => matches!(n.kind, SyntaxKind::InfixExpression | SyntaxKind::Literal
                | SyntaxKind::ParenExpression | SyntaxKind::PrefixExpression | SyntaxKind::VariableRef),
            Wanted::StmtNode => matches!(n.kind, SyntaxKind::VariableDef | SyntaxKind::InfixExpression
                | SyntaxKind::Literal | SyntaxKind::ParenExpression | SyntaxKind::PrefixExpression
                | SyntaxKind::VariableRef),
            _ => false,
        },
        GreenElement::Token(t) => match w {
            Wanted::OperatorToken => matches!(t.kind, SyntaxKind::Plus | SyntaxKind::Minus
                | SyntaxKind::Star | SyntaxKind::Slash),
            Wanted::IdentifierToken => t.kind == SyntaxKind::Identifier,
            Wanted::AnyToken => true,
            _ => false,
        },
    }
}

/// The index of the first wanted child at or after `from`, or `cs.len()`.
pub fn find(cs: &Vec<GreenElement>, from: usize, w: Wanted) -> (r: usize)
    requires
        from <= cs.len(),
    ensures
        r == find_from(cs@, from as int, w),
{
    let mut i = from;
    while i < cs.len() && !wanted_exec(&cs[i], w)
        invariant
            from <= i <= cs.len(),
            find_from(cs@, from as int, w) == find_from(cs@, i as int, w),
        decreases cs.len() - i,
    {
        i = i + 1;
    }
    i
}

// ---------------------------------------------------------------------------
// Typed views
// ---------------------------------------------------------------------------
/// The whole program.
#[derive(Debug)]
pub struct Root<'a> {
    pub node: &'a GreenNode,
}

/// A variable definition.
#[derive(Debug)]
pub struct VariableDef<'a> {
    pub node: &'a GreenNode,
}

/// An infix expression.
#[derive(Debug)]
pub struct BinaryExpr<'a> {
    pub node: &'a GreenNode,
}

/// A numeric literal.
#[derive(Debug)]
pub struct Literal<'a> {
    pub node: &'a GreenNode,
}

/// A parenthesised expression.
#[derive(Debug)]
pub struct ParenExpr<'a> {
    pub node: &'a GreenNode,
}

/// A prefix (negation) expression.
#[derive(Debug)]
pub struct UnaryExpr<'a> {
    pub node: &'a GreenNode,
}

/// A reference to a variable.
#[derive(Debug)]
pub struct VariableRef<'a> {
    pub node: &'a GreenNode,
}

/// An expression of any shape.
#[derive(Debug)]
pub enum Expr<'a> {
    BinaryExpr(BinaryExpr<'a>),
    Literal(Literal<'a>),
    ParenExpr(ParenExpr<'a>),
    UnaryExpr(UnaryExpr<'a>),
    VariableRef(VariableRef<'a>),
}

/// A statement.
#[derive(Debug)]
pub enum Stmt<'a> {
    VariableDef(VariableDef<'a>),
    Expr(Expr<'a>),
}

impl<'a> Expr<'a> {
    /// The node under the view.
    pub open spec fn node(&self) -> GreenNode {
        match self {
            Expr::BinaryExpr(e) => *e.node,
            Expr::Literal(e) => *e.node,
            Expr::ParenExpr(e) => *e.node,
            Expr::UnaryExpr(e) => *e.node,
            Expr::VariableRef(e) => *e.node,
        }
    }

    /// Views `node` as an expression; `None` when its kind is no expression kind.
    pub fn cast(node: &'a GreenNode) -> (r: Option<Expr<'a>>)
        ensures
            r is Some <==> is_expr_kind(node.kind),
            r is Some ==> r->0.node() == *node,
            r is Some ==> (r->0 is BinaryExpr <==> node.kind == SyntaxKind::InfixExpression),
            r is Some ==> (r->0 is Literal <==> node.kind == SyntaxKind::Literal),
            r is Some ==> (r->0 is ParenExpr <==> node.kind == SyntaxKind::ParenExpression),
            r is Some ==> (r->0 is UnaryExpr <==> node.kind == SyntaxKind::PrefixExpression),
            r is Some ==> (r->0 is VariableRef <==> node.kind == SyntaxKind::VariableRef),
    {
        match node.kind {
            SyntaxKind::InfixExpression => Some(Expr::BinaryExpr(BinaryExpr { node })),
            SyntaxKind::Literal => Some(Expr::Literal(Literal { node })),
            SyntaxKind::ParenExpression => Some(Expr::ParenExpr(ParenExpr { node })),
            SyntaxKind::PrefixExpression => Some(Expr::UnaryExpr(UnaryExpr { node })),
            SyntaxKind::VariableRef => Some(Expr::VariableRef(VariableRef { node })),
            _ => None,
        }
    }
}

impl<'a> Stmt<'a> {
    /// Views `node` as a statement; `None` when its kind is no statement kind.
    pub fn cast(node: &'a GreenNode) -> (r: Option<Stmt<'a>>)
        ensures
            r is Some <==> is_stmt_kind(node.kind),
            r is Some ==> (r->0 is VariableDef <==> node.kind == SyntaxKind::VariableDef),
            r is Some && r->0 is VariableDef ==> *r->0->VariableDef_0.node == *node,
            r is Some && r->0 is Expr ==> r->0->Expr_0.node() == *node,
    {
        if node.kind == SyntaxKind::VariableDef {
            Some(Stmt::VariableDef(VariableDef { node }))
        } else {
            match Expr::cast(node) {
                Some(e) => Some(Stmt::Expr(e)),
                None => None,
            }
        }
    }
}

/// The expression child at index `i`, if `i` is in range and holds one.
fn expr_at<'a>(cs: &'a Vec<GreenElement>, i: usize) -> (r: Option<Expr<'a>>)
    requires
        i == cs.len() || (i < cs.len() && wanted(cs@[i as int], Wanted::ExprNode)),
    ensures
        i == cs.len() ==> r is None,
        i < cs.len() ==> r is Some && r->0.node() == cs@[i as int]->Node_0,
{
    if i < cs.len() {
        match &cs[i] {
            GreenElement::Node(n) => Expr::cast(n),
            GreenElement::Token(_) => None,
        }
    } else {
        None
    }
}

impl<'a> Root<'a> {
    pub fn cast(node: &'a GreenNode) -> (r: Option<Root<'a>>)
        ensures
            r is Some <==> node.kind == SyntaxKind::Root,
            r is Some ==> *r->0.node == *node,
    {
        if node.kind == SyntaxKind::Root {
            Some(Root { node })
        } else {
            None
        }
    }

    /// The statements of the program, in order.
    pub fn stmts(&self) -> (r: Vec<Stmt<'a>>)
        ensures
            r.len() == find_all_from(self.node.children@, 0, Wanted::StmtNode).len(),
            forall|k: int| 0 <= k < r.len() ==> stmt_node(#[trigger] r@[k]) == self.node.children@[find_all_from(self.node.children@, 0, Wanted::StmtNode)[k]]->Node_0,
    {
        let cs = &self.node.children;
        let mut out: Vec<Stmt<'a>> = Vec::new();
        let mut i: usize = 0;
        proof {
            lemma_find_all_from_bounds(cs@, 0, Wanted::StmtNode);
        }
        while i < cs.len()
            invariant
                i <= cs.len(),
                cs@ == self.node.children@,
                out@.len() + find_all_from(cs@, i as int, Wanted::StmtNode).len() == find_all_from(cs@, 0, Wanted::StmtNode).len(),
                forall|k: int| 0 <= k < out.len() ==> stmt_node(#[trigger] out@[k]) == cs@[find_all_from(cs@, 0, Wanted::StmtNode)[k]]->Node_0,
                forall|k: int| 0 <= k < find_all_from(cs@, i as int, Wanted::StmtNode).len() ==> find_all_from(cs@, 0, Wanted::StmtNode)[out.len() + k] == #[trigger] find_all_from(cs@, i as int, Wanted::StmtNode)[k],
            decreases cs.len() - i,
        {
            let ghost all = find_all_from(cs@, 0, Wanted::StmtNode);
            let ghost rest = find_all_from(cs@, i as int, Wanted::StmtNode);
            if let GreenElement::Node(n) = &cs[i] {
                if let Some(s) = Stmt::cast(n) {
                    proof {
                        assert(rest == seq![i as int] + find_all_from(cs@, i + 1, Wanted::StmtNode));
                        assert(rest[0] == i);
                        assert(all[out.len() as int] == i);
                    }
                    out.push(s);
                    proof {
                        let rest2 = find_all_from(cs@, i + 1, Wanted::StmtNode);
                        assert forall|k: int| 0 <= k < rest2.len() implies all[out.len() + k] == #[trigger] rest2[k] by {
                            assert(rest[k + 1] == rest2[k]);
                        }
                    }
                }
            }
            i = i + 1;
        }
        out
    }
}

/// The node under a statement.
pub open spec fn stmt_node(s: Stmt) -> GreenNode {
    match s {
        Stmt::VariableDef(d) => *d.node,
        Stmt::Expr(e) => e.node(),
    }
}

pub proof fn lemma_find_all_from_bounds(cs: Seq<GreenElement>, from: int, w: Wanted)
    requires
        0 <= from,
    ensures
        forall|k: int| 0 <= k < find_all_from(cs, from, w).len() ==> from <= #[trigger] find_all_from(cs, from, w)[k] < cs.len() && wanted(cs[find_all_from(cs, from, w)[k]], w),
    decreases cs.len() - from,
{
    if from < cs.len() {
        lemma_find_all_from_bounds(cs, from + 1, w);
        let r = find_all_from(cs, from + 1, w);
        if wanted(cs[from], w) {
            assert forall|k: int| 0 <= k < find_all_from(cs, from, w).len() implies from <= #[trigger] find_all_from(cs, from, w)[k] < cs.len() && wanted(cs[find_all_from(cs, from, w)[k]], w) by {
                if k > 0 {
                    assert(find_all_from(cs, from, w)[k] == r[k - 1]);
                }
            }
        }
    }
}

// ---------------------------------------------------------------------------
// Accessors
// ---------------------------------------------------------------------------
/// The text of the first token child of a node, if it has one.
pub open spec fn first_token_text(n: GreenNode) -> Option<Seq<char>> {
    let i = find_from(n.children@, 0, Wanted::AnyToken);
    if 0 <= i < n.children@.len() {
        Some(n.children@[i]->Token_0.text@)
    } else {
        None
    }
}

fn first_token_text_exec(n: &GreenNode) -> (r: Option<&String>)
    ensures
        r is Some <==> first_token_text(*n) is Some,
        r is Some ==> r->0@ == first_token_text(*n)->0,
{
    let i = find(&n.children, 0, Wanted::AnyToken);
    proof {
        lemma_find_from_bounds(n.children@, 0, Wanted::AnyToken);
    }
    if i < n.children.len() {
        match &n.children[i] {
            GreenElement::Token(t) => Some(&t.text),
            GreenElement::Node(_) => None,
        }
    } else {
        None
    }
}

impl<'a> VariableDef<'a> {
    /// The name being defined: the first identifier token.
    pub fn name(&self) -> (r: Option<&'a String>)
        ensures
            r is Some <==> find_from(self.node.children@, 0, Wanted::IdentifierToken) < self.node.children@.len(),
            r is Some ==> r->0@ == self.node.children@[find_from(self.node.children@, 0, Wanted::IdentifierToken)]->Token_0.text@,
    {
        let cs = &self.node.children;
        let i = find(cs, 0, Wanted::IdentifierToken);
        proof {
            lemma_find_from_bounds(cs@, 0, Wanted::IdentifierToken);
        }
        if i < cs.len() {
            match &cs[i] {
                GreenElement::Token(t) => Some(&t.text),
                GreenElement::Node(_) => None,
            }
        } else {
            None
        }
    }

    /// The value: the first expression child.
    pub fn value(&self) -> (r: Option<Expr<'a>>)
        ensures
            find_from(self.node.children@, 0, Wanted::ExprNode) == self.node.children@.len() ==> r is None,
            find_from(self.node.children@, 0, Wanted::ExprNode) < self.node.children@.len() ==> r is Some
                && r->0.node() == self.node.children@[find_from(self.node.children@, 0, Wanted::ExprNode)]->Node_0,
    {
        expr_child(&self.node.children, 0)
    }
}

fn expr_child<'a>(cs: &'a Vec<GreenElement>, from: usize) -> (r: Option<Expr<'a>>)
    requires
        from <= cs.len(),
    ensures
        find_from(cs@, from as int, Wanted::ExprNode) == cs@.len() ==> r is None,
        find_from(cs@, from as int, Wanted::ExprNode) < cs@.len() ==> r is Some && r->0.node()
            == cs@[find_from(cs@, from as int, Wanted::ExprNode)]->Node_0,
{
    let i = find(cs, from, Wanted::ExprNode);
    proof {
        lemma_find_from_bounds(cs@, from as int, Wanted::ExprNode);
    }
    expr_at(cs, i)
}

/// Index of the second expression child, or the number of children.
pub open spec fn second_expr_index(cs: Seq<GreenElement>) -> int {
    let first = find_from(cs, 0, Wanted::ExprNode);
    if first < cs.len() {
        find_from(cs, first + 1, Wanted::ExprNode)
    } else {
        cs.len() as int
    }
}

/// The kind of the first operator token child, if there is one.
pub open spec fn operator_of(cs: Seq<GreenElement>) -> Option<SyntaxKind> {
    let i = find_from(cs, 0, Wanted::OperatorToken);
    if 0 <= i < cs.len() {
        Some(cs[i]->Token_0.kind)
    } else {
        None
    }
}

fn operator_exec(cs: &Vec<GreenElement>) -> (r: Option<SyntaxKind>)
    ensures
        r == operator_of(cs@),
{
    let i = find(cs, 0, Wanted::OperatorToken);
    proof {
        lemma_find_from_bounds(cs@, 0, Wanted::OperatorToken);
    }
    if i < cs.len() {
        match &cs[i] {
            GreenElement::Token(t) => Some(t.kind),
            GreenElement::Node(_) => None,
        }
    } else {
        None
    }
}

impl<'a> BinaryExpr<'a> {
    /// The left operand: the first expression child.
    pub fn lhs(&self) -> (r: Option<Expr<'a>>)
        ensures
            find_from(self.node.children@, 0, Wanted::ExprNode) == self.node.children@.len() ==> r is None,
            find_from(self.node.children@, 0, Wanted::ExprNode) < self.node.children@.len() ==> r is Some
                && r->0.node() == self.node.children@[find_from(self.node.children@, 0, Wanted::ExprNode)]->Node_0,
    {
        expr_child(&self.node.children, 0)
    }

    /// The right operand: the second expression child.
    pub fn rhs(&self) -> (r: Option<Expr<'a>>)
        ensures
            second_expr_index(self.node.children@) == self.node.children@.len() ==> r is None,
            second_expr_index(self.node.children@) < self.node.children@.len() ==> r is Some
                && r->0.node() == self.node.children@[second_expr_index(self.node.children@)]->Node_0,
    {
        let cs = &self.node.children;
        let first = find(cs, 0, Wanted::ExprNode);
        proof {
            lemma_find_from_bounds(cs@, 0, Wanted::ExprNode);
        }
        if first < cs.len() {
            expr_child(cs, first + 1)
        } else {
            None
        }
    }

    /// The kind of the operator token.
    pub fn op(&self) -> (r: Option<SyntaxKind>)
        ensures
            r == operator_of(self.node.children@),
    {
        operator_exec(&self.node.children)
    }
}

impl<'a> ParenExpr<'a> {
    /// The expression between the parentheses.
    pub fn expr(&self) -> (r: Option<Expr<'a>>)
        ensures
            find_from(self.node.children@, 0, Wanted::ExprNode) == self.node.children@.len() ==> r is None,
            find_from(self.node.children@, 0, Wanted::ExprNode) < self.node.children@.len() ==> r is Some
                && r->0.node() == self.node.children@[find_from(self.node.children@, 0, Wanted::ExprNode)]->Node_0,
    {
        expr_child(&self.node.children, 0)
    }
}

impl<'a> UnaryExpr<'a> {
    /// The operand.
    pub fn expr(&self) -> (r: Option<Expr<'a>>)
        ensures
            find_from(self.node.children@, 0, Wanted::ExprNode) == self.node.children@.len() ==> r is None,
            find_from(self.node.children@, 0, Wanted::ExprNode) < self.node.children@.len() ==> r is Some
                && r->0.node() == self.node.children@[find_from(self.node.children@, 0, Wanted::ExprNode)]->Node_0,
    {
        expr_child(&self.node.children, 0)
    }

    /// The kind of the operator token.
    pub fn op(&self) -> (r: Option<SyntaxKind>)
        ensures
            r == operator_of(self.node.children@),
    {
        operator_exec(&self.node.children)
    }
}

// ---------------------------------------------------------------------------
// Numbers
// ---------------------------------------------------------------------------
/// The value of a run of decimal digits.
pub open spec fn digits_value(s: Seq<char>) -> int
    decreases s.len(),
{
    if s.len() == 0 {
        0
    } else {
        digits_value(s.drop_last()) * 10 + (s.last() as int - '0' as int)
    }
}

pub open spec fn all_digits(s: Seq<char>) -> bool {
    forall|i: int| 0 <= i < s.len() ==> is_digit(#[trigger] s[i])
}

/// What reading `s` as an unsigned 64-bit decimal gives: an optional `+`, at
/// least one digit, and a value that fits.
pub open spec fn parse_u64(s: Seq<char>) -> Option<u64> {
    let d = unsigned_digits(s);
    if d.len() > 0 && all_digits(d) && digits_value(d) <= u64::MAX {
        Some(digits_value(d) as u64)
    } else {
        None
    }
}

/// The digits of a decimal: what follows an optional leading `+`.
pub open spec fn unsigned_digits(s: Seq<char>) -> Seq<char> {
    if s.len() > 0 && s[0] == '+' {
        s.drop_first()
    } else {
        s
    }
}

proof fn lemma_digits_value_grows(s: Seq<char>, k: int)
    requires
        0 <= k <= s.len(),
        all_digits(s),
    ensures
        digits_value(s.subrange(0, k)) <= digits_value(s),
        0 <= digits_value(s.subrange(0, k)),
    decreases s.len() - k,
{
    if k < s.len() {
        lemma_digits_value_grows(s, k + 1);
        assert(s.subrange(0, k + 1).drop_last() =~= s.subrange(0, k));
        assert(is_digit(s[k]));
    } else {
        assert(s.subrange(0, k) =~= s);
        lemma_digits_value_nonneg(s);
    }
}

proof fn lemma_digits_value_nonneg(s: Seq<char>)
    requires
        all_digits(s),
    ensures
        0 <= digits_value(s),
    decreases s.len(),
{
    if s.len() > 0 {
        assert(is_digit(s[s.len() - 1]));
        lemma_digits_value_nonneg(s.drop_last());
    }
}

/// Reads `s` as an unsigned 64-bit decimal number.
pub fn parse_number(s: &String) -> (r: Option<u64>)
    ensures
        r == parse_u64(s@),
{
    let cs = crate::lexer::chars_of(s.as_str());
    let ghost d = unsigned_digits(s@);
    let start: usize = if cs.len() > 0 && cs[0] == '+' {
        1
    } else {
        0
    };
    proof {
        assert(d =~= cs@.subrange(start as int, cs@.len() as int));
    }
    if start >= cs.len() {
        return None;
    }
    let mut value: u64 = 0;
    let mut i = start;
    while i < cs.len()
        invariant
            start <= i <= cs.len(),
            d == unsigned_digits(s@),
            d =~= cs@.subrange(start as int, cs@.len() as int),
            all_digits(cs@.subrange(start as int, i as int)),
            value as int == digits_value(cs@.subrange(start as int, i as int)),
        decreases cs.len() - i,
    {
        let c = cs[i];
        if !('0' <= c && c <= '9') {
            proof {
                assert(d[i - start] == c);
                assert(!is_digit(d[i - start]));
                assert(!all_digits(d));
            }
            return None;
        }
        let digit = (c as u32 - '0' as u32) as u64;
        proof {
            assert(cs@.subrange(start as int, i + 1).drop_last() =~= cs@.subrange(start as int, i as int));
            assert(cs@.subrange(start as int, i + 1).last() == c);
            assert(all_digits(cs@.subrange(start as int, i + 1)));
            assert(digit as int == c as int - '0' as int);
            assert(digits_value(cs@.subrange(start as int, i + 1)) == value * 10 + digit);
        }
        if value > (u64::MAX - digit) / 10 {
            proof {
                assert(digits_value(cs@.subrange(start as int, i + 1)) > u64::MAX) by (nonlinear_arith)
                    requires
                        value > (u64::MAX - digit) / 10,
                        digits_value(cs@.subrange(start as int, i + 1)) == value * 10 + digit,
                        digit <= 9,
                ;
                if all_digits(d) {
                    lemma_digits_value_grows(d, i + 1 - start);
                    assert(d.subrange(0, i + 1 - start) =~= cs@.subrange(start as int, i + 1));
                    assert(digits_value(d) > u64::MAX);
                }
            }
            return None;
        }
        proof {
            assert(value * 10 + digit <= u64::MAX) by (nonlinear_arith)
                requires
                    value <= (u64::MAX - digit) / 10,
                    digit <= 9,
            ;
        }
        value = value * 10 + digit;
        i = i + 1;
    }
    proof {
        assert(cs@.subrange(start as int, i as int) =~= d);
    }
    Some(value)
}

impl<'a> Literal<'a> {
    /// The literal's value: its first token read as a `u64`, when that succeeds.
    pub fn parse(&self) -> (r: Option<u64>)
        ensures
            first_token_text(*self.node) is None ==> r is None,
            first_token_text(*self.node) is Some ==> r == parse_u64(first_token_text(*self.node)->0),
    {
        match first_token_text_exec(self.node) {
            Some(t) => parse_number(t),
            None => None,
        }
    }
}

impl<'a> VariableRef<'a> {
    /// The variable's name: the text of its first token.
    pub fn name(&self) -> (r: Option<&'a String>)
        ensures
            r is Some <==> first_token_text(*self.node) is Some,
            r is Some ==> r->0@ == first_token_text(*self.node)->0,
    {
        first_token_text_exec(self.node)
    }
}

} // verus!
