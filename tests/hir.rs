use prate::ast::Root;
use prate::hir::{lower, lowered_size, BinaryOp, Database, Expr, ExprIdx, Stmt, UnaryOp};
use prate::parse;
use prate::syntax::{PrateLng, SyntaxKind};
use prate::token_kind::TokenKind;

fn lower_text(input: &str) -> (Database, Vec<Stmt>) {
    let parse = parse(input);
    let root = Root::cast(parse.root()).unwrap();
    lower(root)
}

fn idx(raw: u32) -> ExprIdx {
    ExprIdx { raw }
}

#[test]
fn lower_binary_expression_children_first() {
    let (db, stmts) = lower_text("1+2");
    assert_eq!(db.len(), 3);
    assert_eq!(db.expr(idx(0)), &Expr::Literal { n: Some(1) });
    assert_eq!(db.expr(idx(1)), &Expr::Literal { n: Some(2) });
    assert_eq!(db.expr(idx(2)), &Expr::Binary { op: BinaryOp::Add, lhs: idx(0), rhs: idx(1) });
    assert_eq!(stmts, vec![Stmt::Expr(idx(2))]);
}

#[test]
fn lower_precedence_and_operators() {
    let (db, stmts) = lower_text("8/2-3*4");
    assert_eq!(stmts, vec![Stmt::Expr(idx(6))]);
    assert_eq!(db.expr(idx(2)), &Expr::Binary { op: BinaryOp::Div, lhs: idx(0), rhs: idx(1) });
    assert_eq!(db.expr(idx(5)), &Expr::Binary { op: BinaryOp::Mul, lhs: idx(3), rhs: idx(4) });
    assert_eq!(db.expr(idx(6)), &Expr::Binary { op: BinaryOp::Sub, lhs: idx(2), rhs: idx(5) });
}

#[test]
fn lower_definition_with_negation() {
    let (db, stmts) = lower_text("def x = -5");
    assert_eq!(db.expr(idx(0)), &Expr::Literal { n: Some(5) });
    assert_eq!(db.expr(idx(1)), &Expr::Unary { op: UnaryOp::Neg, expr: idx(0) });
    assert_eq!(stmts, vec![Stmt::VariableDef { name: "x".to_string(), value: idx(1) }]);
}

#[test]
fn lower_parentheses_leave_no_trace() {
    let (db, stmts) = lower_text("((7))");
    assert_eq!(db.len(), 1);
    assert_eq!(db.expr(idx(0)), &Expr::Literal { n: Some(7) });
    assert_eq!(stmts, vec![Stmt::Expr(idx(0))]);
}

#[test]
fn lower_variable_reference() {
    let (db, stmts) = lower_text("def a = 1\na");
    assert_eq!(db.expr(idx(1)), &Expr::VariableRef { var: "a".to_string() });
    assert_eq!(
        stmts,
        vec![Stmt::VariableDef { name: "a".to_string(), value: idx(0) }, Stmt::Expr(idx(1))]
    );
}

#[test]
fn lower_missing_value_is_missing() {
    let (db, stmts) = lower_text("def a =\ndef b = a");
    assert_eq!(db.expr(idx(0)), &Expr::Missing);
    assert_eq!(db.expr(idx(1)), &Expr::VariableRef { var: "a".to_string() });
    assert_eq!(
        stmts,
        vec![
            Stmt::VariableDef { name: "a".to_string(), value: idx(0) },
            Stmt::VariableDef { name: "b".to_string(), value: idx(1) },
        ]
    );
}

#[test]
fn lower_missing_right_operand_is_missing() {
    let (db, stmts) = lower_text("(1+");
    assert_eq!(db.expr(idx(1)), &Expr::Missing);
    assert_eq!(db.expr(idx(2)), &Expr::Binary { op: BinaryOp::Add, lhs: idx(0), rhs: idx(1) });
    assert_eq!(stmts, vec![Stmt::Expr(idx(2))]);
}

#[test]
fn lower_literal_too_large_keeps_no_value() {
    let (db, _) = lower_text("18446744073709551616");
    assert_eq!(db.expr(idx(0)), &Expr::Literal { n: None });
    let (db, _) = lower_text("18446744073709551615");
    assert_eq!(db.expr(idx(0)), &Expr::Literal { n: Some(u64::MAX) });
}

#[test]
fn lower_empty_input() {
    let (db, stmts) = lower_text("");
    assert_eq!(db.len(), 0);
    assert!(stmts.is_empty());
}

#[test]
fn lower_unparseable_input_is_total() {
    let (_, stmts) = lower_text("@ # ) ]");
    assert!(stmts.is_empty());
    let (_, stmts) = lower_text("1 2 3");
    assert_eq!(stmts.len(), 3);
}

#[test]
fn lower_definition_without_name_keeps_its_statement() {
    let (db, stmts) = lower_text("1\ndef = 2");
    assert_eq!(
        stmts,
        vec![Stmt::Expr(idx(0)), Stmt::VariableDef { name: String::new(), value: idx(1) }]
    );
    assert_eq!(db.expr(idx(1)), &Expr::Missing);
}

#[test]
fn binding_powers() {
    assert_eq!(BinaryOp::Add.binding_power(), (1, 2));
    assert_eq!(BinaryOp::Sub.binding_power(), (1, 2));
    assert_eq!(BinaryOp::Mul.binding_power(), (3, 4));
    assert_eq!(BinaryOp::Div.binding_power(), (3, 4));
    assert_eq!(UnaryOp::Neg.binding_power(), ((), 5));
}

#[test]
fn syntax_kind_from_token_kind() {
    assert_eq!(SyntaxKind::from(TokenKind::Plus), SyntaxKind::Plus);
    assert_eq!(SyntaxKind::from(TokenKind::LCurlyBrace), SyntaxKind::LCurlyBrace);
    assert_eq!(SyntaxKind::from(TokenKind::Undefined), SyntaxKind::Undefined);
}

#[test]
fn syntax_kind_raw_round_trip() {
    for raw in 0..25u16 {
        assert_eq!(PrateLng::kind_to_raw(PrateLng::kind_from_raw(raw)), raw);
    }
    assert_eq!(PrateLng::kind_to_raw(SyntaxKind::Whitespace), 0);
    assert_eq!(PrateLng::kind_from_raw(18), SyntaxKind::Root);
    assert_eq!(PrateLng::kind_to_raw(SyntaxKind::VariableDef), 24);
}

#[test]
fn root_cast_rejects_other_kinds() {
    let parse = parse("1");
    let root = parse.root();
    assert!(Root::cast(root).is_some());
    match &root.children[0] {
        prate::tree::GreenElement::Node(n) => assert!(Root::cast(n).is_none()),
        prate::tree::GreenElement::Token(_) => panic!("expected a node"),
    }
}

#[test]
fn lowered_size_counts_the_expressions_lowering_allocates() {
    for (input, expected) in [("", 0u32), ("1+2", 3), ("def a =", 1), ("((4))", 1), ("-x * (y)", 4), ("1\ndef = 2", 2)] {
        let parse = parse(input);
        let root = Root::cast(parse.root()).unwrap();
        assert_eq!(lowered_size(&root), Some(expected));
        let (db, _) = lower(root);
        assert_eq!(db.len(), expected as usize);
    }
}

#[test]
fn lower_allocates_in_post_order() {
    let (db, stmts) = lower_text("1-2*3");
    assert_eq!(db.expr(idx(0)), &Expr::Literal { n: Some(1) });
    assert_eq!(db.expr(idx(1)), &Expr::Literal { n: Some(2) });
    assert_eq!(db.expr(idx(2)), &Expr::Literal { n: Some(3) });
    assert_eq!(db.expr(idx(3)), &Expr::Binary { op: BinaryOp::Mul, lhs: idx(1), rhs: idx(2) });
    assert_eq!(db.expr(idx(4)), &Expr::Binary { op: BinaryOp::Sub, lhs: idx(0), rhs: idx(3) });
    assert_eq!(stmts, vec![Stmt::Expr(idx(4))]);
}
