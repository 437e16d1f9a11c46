use vstd::prelude::*;

use crate::ast::{
    find_from, first_token_text, operator_of, parse_u64, second_expr_index,
    find_all_from, lemma_find_all_from_bounds, stmt_node, Expr as AstExpr, Root, Stmt as AstStmt,
    Wanted,
};
use crate::syntax::SyntaxKind;
use crate::tree::{GreenElement, GreenNode};
use la_arena::{Arena, Idx, RawIdx};

verus! {

/// The binary operators.
#[derive(Debug, Clone, Copy, PartialEq, Eq, Structural)]
pub enum BinaryOp {
    Add,
    Sub,
    Mul,
    Div,
}

/// The unary operators.
#[derive(Debug, Clone, Copy, PartialEq, Eq, Structural)]
pub enum UnaryOp {
    Neg,
}

impl BinaryOp {
    /// The (left, right) binding power: additive operators bind at (1, 2),
    /// multiplicative ones at (3, 4).
    pub open spec fn spec_binding_power(&self) -> (u8, u8) {
        match self {
            BinaryOp::Add | BinaryOp::Sub => (1, 2),
            BinaryOp::Mul | BinaryOp::Div => (3, 4),
        }
    }

    #[verifier::when_used_as_spec(spec_binding_power)]
    pub fn binding_power(&self) -> (r: (u8, u8))
        ensures
            r == self.spec_binding_power(),
    {
        match self {
            BinaryOp::Add | BinaryOp::Sub => (1, 2),
            BinaryOp::Mul | BinaryOp::Div => (3, 4),
        }
    }
}

impl UnaryOp {
    /// A prefix operator has only a right binding power, tighter than any binary one.
    pub open spec fn spec_binding_power(&self) -> ((), u8) {
        match self {
            UnaryOp::Neg => ((), 5),
        }
    }

    #[verifier::when_used_as_spec(spec_binding_power)]
    pub fn binding_power(&self) -> (r: ((), u8))
        ensures
            r == self.spec_binding_power(),
    {
        match self {
            UnaryOp::Neg => ((), 5),
        }
    }
}

// ---------------------------------------------------------------------------
// The intermediate representation
// ---------------------------------------------------------------------------
/// An index into the expression arena.
#[derive(Debug, Clone, Copy, PartialEq, Eq, Hash, Structural)]
pub struct ExprIdx {
    pub raw: u32,
}

impl ExprIdx {
    pub fn into_raw(self) -> (r: u32)
        ensures
            r == self.raw,
    {
        self.raw
    }
}

/// An expression; its operands are indices into the same arena.
#[derive(Debug, PartialEq)]
pub enum Expr {
    Missing,
    Binary { op: BinaryOp, lhs: ExprIdx, rhs: ExprIdx },
    Literal { n: Option<u64> },
    Unary { op: UnaryOp, expr: ExprIdx },
    VariableRef { var: String },
}

/// A statement.
#[derive(Debug, PartialEq)]
pub enum Stmt {
    VariableDef { name: String, value: ExprIdx },
    Expr(ExprIdx),
}

// ---------------------------------------------------------------------------
// The arena
// ---------------------------------------------------------------------------
#[verifier::external_type_specification]
#[verifier::external_body]
#[verifier::reject_recursive_types(T)]
pub struct ExArena<T>(la_arena::Arena<T>);

/// The values held by an arena, in the order of their indices.
pub uninterp spec fn arena_items(a: la_arena::Arena<Expr>) -> Seq<Expr>;

/// Relies on `la_arena::Arena::new`: a new arena holds nothing.
#[verifier::external_body]
fn arena_new() -> (r: Arena<Expr>)
    ensures
        arena_items(r) == Seq::<Expr>::empty(),
{
    Arena::new()
}

/// Relies on `la_arena::Arena::alloc`: the value is appended, and its index is
/// the number of values held before.
#[verifier::external_body]
fn arena_alloc(a: &mut Arena<Expr>, e: Expr) -> (r: ExprIdx)
    requires
        arena_items(*old(a)).len() < u32::MAX,
    ensures
        arena_items(*final(a)) == arena_items(*old(a)).push(e),
        r.raw == arena_items(*old(a)).len(),
{
    ExprIdx { raw: u32::from(a.alloc(e).into_raw()) }
}

/// Relies on `la_arena::Arena`'s `Index` impl: the value at an index.
#[verifier::external_body]
fn arena_get(a: &Arena<Expr>, i: ExprIdx) -> (r: &Expr)
    requires
        (i.raw as int) < arena_items(*a).len(),
    ensures
        *r == arena_items(*a)[i.raw as int],
{
    &a[Idx::from_raw(RawIdx::from(i.raw))]
}

/// Relies on `la_arena::Arena::len`: the number of values held.
#[verifier::external_body]
fn arena_len(a: &Arena<Expr>) -> (r: usize)
    ensures
        r == arena_items(*a).len(),
{
    a.len()
}

// ---------------------------------------------------------------------------
// What lowering means
// ---------------------------------------------------------------------------
/// An expression of the intermediate representation as a tree.
pub enum HirTree {
    Missing,
    Literal(Option<u64>),
    VariableRef(Seq<char>),
    Unary(UnaryOp, Box<HirTree>),
    Binary(BinaryOp, Box<HirTree>, Box<HirTree>),
}

/// A statement of the intermediate representation, with its expression as a tree.
pub enum HirStmt {
    VariableDef(Seq<char>, HirTree),
    Expr(HirTree),
}

pub open spec fn binary_op_of(k: Option<SyntaxKind>) -> Option<BinaryOp> {
    match k {
        Some(SyntaxKind::Plus) => Some(BinaryOp::Add),
        Some(SyntaxKind::Minus) => Some(BinaryOp::Sub),
        Some(SyntaxKind::Star) => Some(BinaryOp::Mul),
        Some(SyntaxKind::Slash) => Some(BinaryOp::Div),
        _ => None,
    }
}

/// What the child at `i` lowers to: `Missing` where there is none.
pub open spec fn lower_child(cs: Seq<GreenElement>, i: int) -> HirTree
    decreases cs,
{
    if 0 <= i < cs.len() && cs[i] is Node {
        lower_node(cs[i]->Node_0)
    } else {
        HirTree::Missing
    }
}

/// What an expression node lowers to. Parentheses leave no trace; an absent
/// operand is `Missing`; a literal that is no `u64` keeps no value.
pub open spec fn lower_node(n: GreenNode) -> HirTree
    decreases n,
{
    let cs = n.children@;
    let first = find_from(cs, 0, Wanted::ExprNode);
    match n.kind {
        SyntaxKind::InfixExpression => match binary_op_of(operator_of(cs)) {
            Some(op) => HirTree::Binary(
                op,
                Box::new(lower_child(cs, first)),
                Box::new(lower_child(cs, second_expr_index(cs))),
            ),
            None => HirTree::Missing,
        },
        SyntaxKind::Literal => HirTree::Literal(
            match first_token_text(n) {
                Some(t) => parse_u64(t),
                None => None,
            },
        ),
        SyntaxKind::ParenExpression => lower_child(cs, first),
        SyntaxKind::PrefixExpression => if operator_of(cs) == Some(SyntaxKind::Minus) {
            HirTree::Unary(UnaryOp::Neg, Box::new(lower_child(cs, first)))
        } else {
            HirTree::Missing
        },
        SyntaxKind::VariableRef => HirTree::VariableRef(
            match first_token_text(n) {
                Some(t) => t,
                None => seq![],
            },
        ),
        _ => HirTree::Missing,
    }
}

/// The number of expressions in a tree.
pub open spec fn hir_size(t: HirTree) -> nat
    decreases t,
{
    match t {
        HirTree::Unary(_, e) => 1 + hir_size(*e),
        HirTree::Binary(_, l, r) => 1 + hir_size(*l) + hir_size(*r),
        _ => 1,
    }
}

/// The expression at index `i` of `items`, with its operands followed.
pub open spec fn resolve(items: Seq<Expr>, i: int) -> HirTree
    decreases i,
{
    if 0 <= i < items.len() {
        match items[i] {
            Expr::Missing => HirTree::Missing,
            Expr::Literal { n } => HirTree::Literal(n),
            Expr::VariableRef { var } => HirTree::VariableRef(var@),
            Expr::Unary { op, expr } => if (expr.raw as int) < i {
                HirTree::Unary(op, Box::new(resolve(items, expr.raw as int)))
            } else {
                HirTree::Missing
            },
            Expr::Binary { op, lhs, rhs } => if (lhs.raw as int) < i && (rhs.raw as int) < i {
                HirTree::Binary(
                    op,
                    Box::new(resolve(items, lhs.raw as int)),
                    Box::new(resolve(items, rhs.raw as int)),
                )
            } else {
                HirTree::Missing
            },
        }
    } else {
        HirTree::Missing
    }
}

/// The item at `i` sits in post-order: a unary operand is the item just
/// before it; a binary node's right operand is the item just before it, and
/// its left operand ends right where the right operand's expressions begin.
pub open spec fn item_wf(items: Seq<Expr>, i: int) -> bool {
    match items[i] {
        Expr::Binary { lhs, rhs, .. } => rhs.raw as int == i - 1 && lhs.raw as int + hir_size(
            resolve(items, rhs.raw as int),
        ) == i - 1,
        Expr::Unary { expr, .. } => expr.raw as int == i - 1,
        _ => true,
    }
}

/// Every item of the arena is in post-order: operands come before the
/// expressions that use them, each subtree in one contiguous run.
pub open spec fn arena_wf(items: Seq<Expr>) -> bool {
    forall|i: int| 0 <= i < items.len() ==> #[trigger] item_wf(items, i)
}

/// Appending an item in post-order keeps the whole arena in post-order.
pub proof fn lemma_arena_wf_push(items: Seq<Expr>, e: Expr)
    requires
        arena_wf(items),
        item_wf(items.push(e), items.len() as int),
    ensures
        arena_wf(items.push(e)),
{
    let all = items.push(e);
    assert forall|i: int| 0 <= i < all.len() implies #[trigger] item_wf(all, i) by {
        if i < items.len() {
            assert(item_wf(items, i));
            assert(all[i] == items[i]);
            assert(items + seq![e] =~= all);
            match items[i] {
                Expr::Binary { lhs, rhs, .. } => {
                    lemma_resolve_extend(items, seq![e], rhs.raw as int);
                },
                _ => {},
            }
        }
    }
}

/// Appending to the arena does not change what an existing index stands for.
pub proof fn lemma_resolve_extend(items: Seq<Expr>, more: Seq<Expr>, i: int)
    requires
        0 <= i < items.len(),
    ensures
        resolve(items + more, i) == resolve(items, i),
    decreases i,
{
    let all = items + more;
    assert(all[i] == items[i]);
    match items[i] {
        Expr::Unary { op, expr } => {
            if (expr.raw as int) < i {
                lemma_resolve_extend(items, more, expr.raw as int);
            }
        },
        Expr::Binary { op, lhs, rhs } => {
            if (lhs.raw as int) < i && (rhs.raw as int) < i {
                lemma_resolve_extend(items, more, lhs.raw as int);
                lemma_resolve_extend(items, more, rhs.raw as int);
            }
        },
        _ => {},
    }
}

/// What a statement node lowers to. A definition without a name keeps an
/// empty name; a missing value is `Missing`.
pub open spec fn lower_stmt_node(n: GreenNode) -> HirStmt {
    let cs = n.children@;
    if n.kind == SyntaxKind::VariableDef {
        let i = find_from(cs, 0, Wanted::IdentifierToken);
        let name = if 0 <= i < cs.len() {
            cs[i]->Token_0.text@
        } else {
            seq![]
        };
        HirStmt::VariableDef(name, lower_child(cs, find_from(cs, 0, Wanted::ExprNode)))
    } else {
        HirStmt::Expr(lower_node(n))
    }
}

/// The statements that a run of statement nodes lowers to, in order.
pub open spec fn lower_stmt_nodes(ns: Seq<GreenNode>) -> Seq<HirStmt>
    decreases ns.len(),
{
    if ns.len() == 0 {
        seq![]
    } else {
        lower_stmt_nodes(ns.drop_last()).push(lower_stmt_node(ns.last()))
    }
}

/// The number of expressions that lowering a statement allocates.
pub open spec fn stmt_size(s: HirStmt) -> nat {
    match s {
        HirStmt::VariableDef(_, t) => hir_size(t),
        HirStmt::Expr(t) => hir_size(t),
    }
}

/// The number of expressions that lowering a run of statement nodes allocates.
pub open spec fn stmt_nodes_size(ns: Seq<GreenNode>) -> nat
    decreases ns.len(),
{
    if ns.len() == 0 {
        0
    } else {
        stmt_nodes_size(ns.drop_last()) + stmt_size(lower_stmt_node(ns.last()))
    }
}

/// The statement nodes directly under a root node.
pub open spec fn stmt_nodes(root: GreenNode) -> Seq<GreenNode> {
    find_all_from(root.children@, 0, Wanted::StmtNode).map_values(
        |i: int| root.children@[i]->Node_0,
    )
}

/// The index that a statement holds.
pub open spec fn stmt_idx(s: Stmt) -> int {
    match s {
        Stmt::VariableDef { value, .. } => value.raw as int,
        Stmt::Expr(e) => e.raw as int,
    }
}

/// A lowered statement, read back through the arena.
pub open spec fn resolve_stmt(items: Seq<Expr>, s: Stmt) -> HirStmt {
    match s {
        Stmt::VariableDef { name, value } => HirStmt::VariableDef(name@, resolve(items, value.raw as int)),
        Stmt::Expr(e) => HirStmt::Expr(resolve(items, e.raw as int)),
    }
}

// ---------------------------------------------------------------------------
// Lowering
// ---------------------------------------------------------------------------
/// The arena that lowering fills.
#[derive(Debug)]
pub struct Database {
    exprs: Arena<Expr>,
}

impl Database {
    /// The expressions, in the order of their indices.
    pub closed spec fn items(&self) -> Seq<Expr> {
        arena_items(self.exprs)
    }

    pub fn new() -> (r: Database)
        ensures
            r.items() == Seq::<Expr>::empty(),
            arena_wf(r.items()),
    {
        Database { exprs: arena_new() }
    }

    /// The number of expressions.
    pub fn len(&self) -> (r: usize)
        ensures
            r == self.items().len(),
    {
        arena_len(&self.exprs)
    }

    /// The expression at `idx`.
    pub fn expr(&self, idx: ExprIdx) -> (r: &Expr)
        requires
            (idx.raw as int) < self.items().len(),
        ensures
            *r == self.items()[idx.raw as int],
    {
        arena_get(&self.exprs, idx)
    }

    fn push_expr(&mut self, e: Expr) -> (r: ExprIdx)
        requires
            old(self).items().len() < u32::MAX,
        ensures
            final(self).items() == old(self).items().push(e),
            r.raw == old(self).items().len(),
    {
        arena_alloc(&mut self.exprs, e)
    }

    /// Lowers the child at `i` of `cs` (`Missing` where there is none).
    fn lower_child(&mut self, cs: &Vec<GreenElement>, i: usize) -> (r: ExprIdx)
        requires
            i <= cs.len(),
            i < cs.len() ==> cs@[i as int] is Node,
            old(self).items().len() + hir_size(lower_child(cs@, i as int)) <= u32::MAX,
            arena_wf(old(self).items()),
        ensures
            arena_wf(final(self).items()),
            r.raw == final(self).items().len() - 1,
            final(self).items().len() == old(self).items().len() + hir_size(lower_child(cs@, i as int)),
            final(self).items().subrange(0, old(self).items().len() as int) == old(self).items(),
            (r.raw as int) < final(self).items().len(),
            resolve(final(self).items(), r.raw as int) == lower_child(cs@, i as int),
        decreases cs@, 0int,
    {
        if i < cs.len() {
            match &cs[i] {
                GreenElement::Node(n) => {
                    proof {
                        assert(decreases_to!(cs@ => cs@[i as int]));
                        assert(decreases_to!(cs@[i as int] => cs@[i as int]->Node_0));
                    }
                    self.lower_node(n)
                },
                GreenElement::Token(_) => self.alloc_missing(),
            }
        } else {
            self.alloc_missing()
        }
    }

    /// Lowers a statement; a definition without a name lowers to nothing.
    pub fn lower_stmt(&mut self, ast: &AstStmt) -> (r: Stmt)
        requires
            old(self).items().len() + stmt_size(lower_stmt_node(stmt_node(*ast))) <= u32::MAX,
            arena_wf(old(self).items()),
        ensures
            final(self).items().len() == old(self).items().len() + stmt_size(lower_stmt_node(stmt_node(*ast))),
            final(self).items().subrange(0, old(self).items().len() as int) == old(self).items(),
            stmt_idx(r) == final(self).items().len() - 1,
            resolve_stmt(final(self).items(), r) == lower_stmt_node(stmt_node(*ast)),
            arena_wf(final(self).items()),
    {
        let n: &GreenNode = match ast {
            AstStmt::VariableDef(d) => d.node,
            AstStmt::Expr(AstExpr::BinaryExpr(x)) => x.node,
            AstStmt::Expr(AstExpr::Literal(x)) => x.node,
            AstStmt::Expr(AstExpr::ParenExpr(x)) => x.node,
            AstStmt::Expr(AstExpr::UnaryExpr(x)) => x.node,
            AstStmt::Expr(AstExpr::VariableRef(x)) => x.node,
        };
        proof {
            assert(*n == stmt_node(*ast));
            crate::ast::lemma_find_from_bounds(n.children@, 0, Wanted::IdentifierToken);
        }
        if n.kind == SyntaxKind::VariableDef {
            let d = crate::ast::VariableDef { node: n };
            let name = match d.name() {
                Some(t) => t.clone(),
                None => String::new(),
            };
            let cs = &n.children;
            let first = crate::ast::find(cs, 0, Wanted::ExprNode);
            proof {
                crate::ast::lemma_find_from_bounds(cs@, 0, Wanted::ExprNode);
            }
            let value = self.lower_child(cs, first);
            Stmt::VariableDef { name, value }
        } else {
            let idx = self.lower_node(n);
            Stmt::Expr(idx)
        }
    }

    fn alloc_missing(&mut self) -> (r: ExprIdx)
        requires
            old(self).items().len() + 1 <= u32::MAX,
            arena_wf(old(self).items()),
        ensures
            arena_wf(final(self).items()),
            r.raw == final(self).items().len() - 1,
            final(self).items().len() == old(self).items().len() + 1,
            final(self).items().subrange(0, old(self).items().len() as int) == old(self).items(),
            (r.raw as int) < final(self).items().len(),
            resolve(final(self).items(), r.raw as int) == HirTree::Missing,
    {
        let r = self.push_expr(Expr::Missing);
        proof {
            assert(self.items().subrange(0, old(self).items().len() as int) =~= old(self).items());
            lemma_arena_wf_push(old(self).items(), Expr::Missing);
        }
        r
    }

    /// Lowers an expression node, children first; the node's own expression
    /// is allocated last.
    fn lower_node(&mut self, n: &GreenNode) -> (r: ExprIdx)
        requires
            old(self).items().len() + hir_size(lower_node(*n)) <= u32::MAX,
            arena_wf(old(self).items()),
        ensures
            arena_wf(final(self).items()),
            r.raw == final(self).items().len() - 1,
            final(self).items().len() == old(self).items().len() + hir_size(lower_node(*n)),
            final(self).items().subrange(0, old(self).items().len() as int) == old(self).items(),
            (r.raw as int) < final(self).items().len(),
            resolve(final(self).items(), r.raw as int) == lower_node(*n),
        decreases *n, 1int,
    {
        let ghost items0 = self.items();
        let cs = &n.children;
        proof {
            assert(decreases_to!(*n => n.children));
            assert(decreases_to!(n.children => n.children@));
            crate::ast::lemma_find_from_bounds(cs@, 0, Wanted::ExprNode);
        }
        match AstExpr::cast(n) {
            Some(AstExpr::BinaryExpr(b)) => {
                let op = match b.op() {
                    Some(SyntaxKind::Plus) => BinaryOp::Add,
                    Some(SyntaxKind::Minus) => BinaryOp::Sub,
                    Some(SyntaxKind::Star) => BinaryOp::Mul,
                    Some(SyntaxKind::Slash) => BinaryOp::Div,
                    _ => {
                        return self.alloc_missing();
                    },
                };
                let first = crate::ast::find(cs, 0, Wanted::ExprNode);
                let second = if first < cs.len() {
                    crate::ast::find(cs, first + 1, Wanted::ExprNode)
                } else {
                    cs.len()
                };
                proof {
                    if first < cs.len() {
                        crate::ast::lemma_find_from_bounds(cs@, first + 1, Wanted::ExprNode);
                    }
                }
                let lhs = self.lower_child(cs, first);
                let ghost items1 = self.items();
                let rhs = self.lower_child(cs, second);
                let ghost items2 = self.items();
                proof {
                    lemma_resolve_extend(items1, items2.subrange(items1.len() as int, items2.len() as int), lhs.raw as int);
                    assert(items1 + items2.subrange(items1.len() as int, items2.len() as int) =~= items2);
                }
                let r = self.push_expr(Expr::Binary { op, lhs, rhs });
                proof {
                    let items3 = self.items();
                    lemma_resolve_extend(items2, seq![Expr::Binary { op, lhs, rhs }], lhs.raw as int);
                    lemma_resolve_extend(items2, seq![Expr::Binary { op, lhs, rhs }], rhs.raw as int);
                    assert(items2 + seq![Expr::Binary { op, lhs, rhs }] =~= items3);
                    assert(item_wf(items3, items2.len() as int));
                    lemma_arena_wf_push(items2, Expr::Binary { op, lhs, rhs });
                    assert(items3.subrange(0, items0.len() as int) =~= items0) by {
                        assert(items2.subrange(0, items1.len() as int) == items1);
                        assert(items1.subrange(0, items0.len() as int) == items0);
                    }
                }
                r
            },
            Some(AstExpr::Literal(l)) => {
                let v = l.parse();
                let r = self.push_expr(Expr::Literal { n: v });
                proof {
                    assert(self.items().subrange(0, items0.len() as int) =~= items0);
                    lemma_arena_wf_push(items0, Expr::Literal { n: v });
                }
                r
            },
            Some(AstExpr::ParenExpr(_)) => {
                let first = crate::ast::find(cs, 0, Wanted::ExprNode);
                self.lower_child(cs, first)
            },
            Some(AstExpr::UnaryExpr(u)) => {
                if u.op() != Some(SyntaxKind::Minus) {
                    return self.alloc_missing();
                }
                let first = crate::ast::find(cs, 0, Wanted::ExprNode);
                let operand = self.lower_child(cs, first);
                let ghost items1 = self.items();
                let r = self.push_expr(Expr::Unary { op: UnaryOp::Neg, expr: operand });
                proof {
                    let items2 = self.items();
                    lemma_resolve_extend(items1, seq![Expr::Unary { op: UnaryOp::Neg, expr: operand }], operand.raw as int);
                    assert(items1 + seq![Expr::Unary { op: UnaryOp::Neg, expr: operand }] =~= items2);
                    lemma_arena_wf_push(items1, Expr::Unary { op: UnaryOp::Neg, expr: operand });
                    assert(items2.subrange(0, items0.len() as int) =~= items0) by {
                        assert(items1.subrange(0, items0.len() as int) == items0);
                    }
                }
                r
            },
            Some(AstExpr::VariableRef(v)) => {
                let var = match v.name() {
                    Some(t) => t.clone(),
                    None => String::new(),
                };
                let ghost e = Expr::VariableRef { var };
                let r = self.push_expr(Expr::VariableRef { var });
                proof {
                    assert(self.items().subrange(0, items0.len() as int) =~= items0);
                    lemma_arena_wf_push(items0, e);
                }
                r
            },
            None => self.alloc_missing(),
        }
    }
}

/// Lowers every statement of the program, in order, into one arena: one
/// statement per top-level statement node, each one's expressions allocated
/// in post-order after those of the statements before it.
pub fn lower(ast: Root) -> (r: (Database, Vec<Stmt>))
    requires
        stmt_nodes_size(stmt_nodes(*ast.node)) <= u32::MAX,
    ensures
        r.1@.len() == stmt_nodes(*ast.node).len(),
        r.1@.map_values(|s: Stmt| resolve_stmt(r.0.items(), s)) == lower_stmt_nodes(stmt_nodes(*ast.node)),
        r.0.items().len() == stmt_nodes_size(stmt_nodes(*ast.node)),
        arena_wf(r.0.items()),
        forall|k: int|
            0 <= k < r.1@.len() ==> #[trigger] stmt_idx(r.1@[k]) == stmt_nodes_size(
                stmt_nodes(*ast.node).take(k + 1),
            ) - 1,
        forall|k: int| 0 <= k < r.1@.len() ==> #[trigger] stmt_idx(r.1@[k]) < r.0.items().len(),
{
    let mut db = Database::new();
    let stmts = ast.stmts();
    let ghost ns = stmt_nodes(*ast.node);
    proof {
        lemma_find_all_from_bounds(ast.node.children@, 0, Wanted::StmtNode);
        assert forall|k: int| 0 <= k < stmts.len() implies stmt_node(#[trigger] stmts@[k]) == ns[k] by {
        }
        assert(ns.take(0) =~= Seq::<GreenNode>::empty());
    }
    let mut out: Vec<Stmt> = Vec::new();
    let mut k: usize = 0;
    let ghost n = stmts.len();
    while k < stmts.len()
        invariant
            0 <= k <= n,
            n == ns.len(),
            stmts.len() == n,
            out.len() == k,
            forall|j: int| 0 <= j < stmts.len() ==> stmt_node(#[trigger] stmts@[j]) == ns[j],
            db.items().len() == stmt_nodes_size(ns.take(k as int)),
            stmt_nodes_size(ns) <= u32::MAX,
            arena_wf(db.items()),
            forall|j: int| 0 <= j < out.len() ==> #[trigger] stmt_idx(out@[j]) == stmt_nodes_size(ns.take(j + 1)) - 1,
            forall|j: int| 0 <= j < out.len() ==> #[trigger] stmt_idx(out@[j]) < db.items().len(),
            out@.map_values(|s: Stmt| resolve_stmt(db.items(), s)) == lower_stmt_nodes(ns.take(k as int)),
        decreases n - k,
    {
        let s = &stmts[k];
        proof {
            assert(stmt_node(*s) == ns[k as int]);
            lemma_stmt_nodes_size_grows(ns, k as int + 1);
            assert(ns.take(k + 1).drop_last() =~= ns.take(k as int));
        }
        let ghost before = db.items();
        let ghost out_before = out@;
        let st = db.lower_stmt(s);
        proof {
            let after = db.items();
            assert(before + after.subrange(before.len() as int, after.len() as int) =~= after);
            assert forall|j: int| 0 <= j < out_before.len() implies resolve_stmt(after, #[trigger] out_before[j]) == resolve_stmt(before, out_before[j]) by {
                assert(stmt_idx(out_before[j]) < before.len());
                match out_before[j] {
                    Stmt::VariableDef { value, .. } => lemma_resolve_extend(before, after.subrange(before.len() as int, after.len() as int), value.raw as int),
                    Stmt::Expr(e) => lemma_resolve_extend(before, after.subrange(before.len() as int, after.len() as int), e.raw as int),
                }
            }
        }
        out.push(st);
        proof {
            let after = db.items();
            assert(out@.map_values(|s: Stmt| resolve_stmt(after, s)) =~= out_before.map_values(|s: Stmt| resolve_stmt(before, s)).push(resolve_stmt(after, st)));
            assert(out@[k as int] == st);
            assert forall|j: int| 0 <= j < out.len() implies #[trigger] stmt_idx(out@[j]) == stmt_nodes_size(ns.take(j + 1)) - 1 by {
                if j < k {
                    assert(out@[j] == out_before[j]);
                }
            }
        }
        k = k + 1;
    }
    proof {
        assert(ns.take(n as int) =~= ns);
    }
    (db, out)
}

/// The most expressions one arena can index.
pub const ARENA_CAPACITY: u64 = 4294967295;

pub open spec fn capped(n: nat) -> u64 {
    if n < ARENA_CAPACITY {
        n as u64
    } else {
        ARENA_CAPACITY
    }
}

fn capped_add(a: u64, b: u64) -> (r: u64)
    requires
        a <= ARENA_CAPACITY,
        b <= ARENA_CAPACITY,
    ensures
        r == if a + b < ARENA_CAPACITY {
            (a + b) as u64
        } else {
            ARENA_CAPACITY
        },
{
    if a + b < ARENA_CAPACITY {
        a + b
    } else {
        ARENA_CAPACITY
    }
}

/// The number of expressions that lowering the child at `i` allocates, capped.
fn child_size(cs: &Vec<GreenElement>, i: usize) -> (r: u64)
    requires
        i <= cs.len(),
    ensures
        r == capped(hir_size(lower_child(cs@, i as int))),
    decreases cs@, 0int,
{
    if i < cs.len() {
        match &cs[i] {
            GreenElement::Node(n) => {
                proof {
                    assert(decreases_to!(cs@ => cs@[i as int]));
                    assert(decreases_to!(cs@[i as int] => cs@[i as int]->Node_0));
                }
                node_size(n)
            },
            GreenElement::Token(_) => 1,
        }
    } else {
        1
    }
}

/// The number of expressions that lowering an expression node allocates, capped.
fn node_size(n: &GreenNode) -> (r: u64)
    ensures
        r == capped(hir_size(lower_node(*n))),
    decreases *n, 1int,
{
    let cs = &n.children;
    proof {
        assert(decreases_to!(*n => n.children));
        assert(decreases_to!(n.children => n.children@));
        crate::ast::lemma_find_from_bounds(cs@, 0, Wanted::ExprNode);
    }
    match AstExpr::cast(n) {
        Some(AstExpr::BinaryExpr(b)) => {
            match b.op() {
                Some(SyntaxKind::Plus) | Some(SyntaxKind::Minus) | Some(SyntaxKind::Star) | Some(
                    SyntaxKind::Slash,
                ) => {},
                _ => {
                    return 1;
                },
            }
            let first = crate::ast::find(cs, 0, Wanted::ExprNode);
            let second = if first < cs.len() {
                crate::ast::find(cs, first + 1, Wanted::ExprNode)
            } else {
                cs.len()
            };
            proof {
                if first < cs.len() {
                    crate::ast::lemma_find_from_bounds(cs@, first + 1, Wanted::ExprNode);
                }
            }
            let l = child_size(cs, first);
            let r = child_size(cs, second);
            capped_add(1, capped_add(l, r))
        },
        Some(AstExpr::ParenExpr(_)) => {
            let first = crate::ast::find(cs, 0, Wanted::ExprNode);
            child_size(cs, first)
        },
        Some(AstExpr::UnaryExpr(u)) => {
            if u.op() != Some(SyntaxKind::Minus) {
                return 1;
            }
            let first = crate::ast::find(cs, 0, Wanted::ExprNode);
            capped_add(1, child_size(cs, first))
        },
        _ => 1,
    }
}

/// The number of expressions that lowering the statement node `n` allocates, capped.
fn stmt_size_exec(n: &GreenNode) -> (r: u64)
    ensures
        r == capped(stmt_size(lower_stmt_node(*n))),
{
    proof {
        crate::ast::lemma_find_from_bounds(n.children@, 0, Wanted::IdentifierToken);
    }
    if n.kind == SyntaxKind::VariableDef {
        let cs = &n.children;
        let first = crate::ast::find(cs, 0, Wanted::ExprNode);
        proof {
            crate::ast::lemma_find_from_bounds(cs@, 0, Wanted::ExprNode);
        }
        child_size(cs, first)
    } else {
        node_size(n)
    }
}

/// How many expressions lowering `ast` allocates, or `None` when that reaches
/// `u32::MAX` (then the arena's indices may not hold it).
pub fn lowered_size(ast: &Root) -> (r: Option<u32>)
    ensures
        r is Some <==> stmt_nodes_size(stmt_nodes(*ast.node)) < u32::MAX,
        r is Some ==> r->0 == stmt_nodes_size(stmt_nodes(*ast.node)),
{
    let stmts = ast.stmts();
    let ghost ns = stmt_nodes(*ast.node);
    proof {
        lemma_find_all_from_bounds(ast.node.children@, 0, Wanted::StmtNode);
        assert(ns.take(0) =~= Seq::<GreenNode>::empty());
    }
    let mut total: u64 = 0;
    let mut k: usize = 0;
    while k < stmts.len()
        invariant
            k <= stmts.len(),
            stmts.len() == ns.len(),
            forall|j: int| 0 <= j < stmts.len() ==> stmt_node(#[trigger] stmts@[j]) == ns[j],
            total == capped(stmt_nodes_size(ns.take(k as int))),
        decreases stmts.len() - k,
    {
        let n: &GreenNode = match &stmts[k] {
            AstStmt::VariableDef(d) => d.node,
            AstStmt::Expr(AstExpr::BinaryExpr(x)) => x.node,
            AstStmt::Expr(AstExpr::Literal(x)) => x.node,
            AstStmt::Expr(AstExpr::ParenExpr(x)) => x.node,
            AstStmt::Expr(AstExpr::UnaryExpr(x)) => x.node,
            AstStmt::Expr(AstExpr::VariableRef(x)) => x.node,
        };
        proof {
            assert(*n == stmt_node(stmts@[k as int]));
            assert(ns.take(k + 1).drop_last() =~= ns.take(k as int));
        }
        let s = stmt_size_exec(n);
        total = capped_add(total, s);
        k = k + 1;
    }
    proof {
        assert(ns.take(k as int) =~= ns);
    }
    if total < ARENA_CAPACITY {
        Some(total as u32)
    } else {
        None
    }
}

proof fn lemma_stmt_nodes_size_grows(ns: Seq<GreenNode>, k: int)
    requires
        0 <= k <= ns.len(),
    ensures
        stmt_nodes_size(ns.take(k)) <= stmt_nodes_size(ns),
    decreases ns.len() - k,
{
    if k < ns.len() {
        lemma_stmt_nodes_size_grows(ns, k + 1);
        assert(ns.take(k + 1).drop_last() =~= ns.take(k));
    } else {
        assert(ns.take(k) =~= ns);
    }
}

} // verus!
