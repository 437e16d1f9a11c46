use prate::parse;
use prate::token_kind::TokenKind;

fn check(input: &str, expected_tree: &str) {
    let parse = parse(input);
    assert_eq!(parse.debug_tree(), expected_tree);
}

#[test]
fn expr_parse_number() {
    check(
        "123",
        r#"Root@0..3
  Literal@0..3
    Number@0..3 "123""#,
    );
}

#[test]
fn expr_parse_variable_ref() {
    check(
        "counter",
        r#"Root@0..7
  VariableRef@0..7
    Identifier@0..7 "counter""#,
    );
}

#[test]
fn expr_parse_simple_binary_expression() {
    check(
        "1+2",
        r#"Root@0..3
  InfixExpression@0..3
    Literal@0..1
      Number@0..1 "1"
    Plus@1..2 "+"
    Literal@2..3
      Number@2..3 "2""#,
    );
}

#[test]
fn expr_parse_left_associative_binary_expression() {
    check(
        "1+2+3+4",
        r#"Root@0..7
  InfixExpression@0..7
    InfixExpression@0..5
      InfixExpression@0..3
        Literal@0..1
          Number@0..1 "1"
        Plus@1..2 "+"
        Literal@2..3
          Number@2..3 "2"
      Plus@3..4 "+"
      Literal@4..5
        Number@4..5 "3"
    Plus@5..6 "+"
    Literal@6..7
      Number@6..7 "4""#,
    );
}

#[test]
fn expr_parse_binary_expression_with_mixed_binding_power() {
    check(
        "1+2*3-4",
        r#"Root@0..7
  InfixExpression@0..7
    InfixExpression@0..5
      Literal@0..1
        Number@0..1 "1"
      Plus@1..2 "+"
      InfixExpression@2..5
        Literal@2..3
          Number@2..3 "2"
        Star@3..4 "*"
        Literal@4..5
          Number@4..5 "3"
    Minus@5..6 "-"
    Literal@6..7
      Number@6..7 "4""#,
    );
}

#[test]
fn expr_parse_negation() {
    check(
        "-10",
        r#"Root@0..3
  PrefixExpression@0..3
    Minus@0..1 "-"
    Literal@1..3
      Number@1..3 "10""#,
    );
}

#[test]
fn expr_negation_has_higher_binding_power_than_infix_operators() {
    check(
        "-20+20",
        r#"Root@0..6
  InfixExpression@0..6
    PrefixExpression@0..3
      Minus@0..1 "-"
      Literal@1..3
        Number@1..3 "20"
    Plus@3..4 "+"
    Literal@4..6
      Number@4..6 "20""#,
    );
}

#[test]
fn expr_parse_nested_parentheses() {
    check(
        "((((((10))))))",
        r#"Root@0..14
  ParenExpression@0..14
    LBrace@0..1 "("
    ParenExpression@1..13
      LBrace@1..2 "("
      ParenExpression@2..12
        LBrace@2..3 "("
        ParenExpression@3..11
          LBrace@3..4 "("
          ParenExpression@4..10
            LBrace@4..5 "("
            ParenExpression@5..9
              LBrace@5..6 "("
              Literal@6..8
                Number@6..8 "10"
              RBrace@8..9 ")"
            RBrace@9..10 ")"
          RBrace@10..11 ")"
        RBrace@11..12 ")"
      RBrace@12..13 ")"
    RBrace@13..14 ")""#,
    );
}

#[test]
fn expr_parentheses_affect_precedence() {
    check(
        "5*(2+1)",
        r#"Root@0..7
  InfixExpression@0..7
    Literal@0..1
      Number@0..1 "5"
    Star@1..2 "*"
    ParenExpression@2..7
      LBrace@2..3 "("
      InfixExpression@3..6
        Literal@3..4
          Number@3..4 "2"
        Plus@4..5 "+"
        Literal@5..6
          Number@5..6 "1"
      RBrace@6..7 ")""#,
    );
}

#[test]
fn expr_parse_number_preceded_by_whitespace() {
    check(
        "   9876",
        r#"Root@0..7
  Whitespace@0..3 "   "
  Literal@3..7
    Number@3..7 "9876""#,
    );
}

#[test]
fn expr_parse_number_followed_by_whitespace() {
    check(
        "999   ",
        r#"Root@0..6
  Literal@0..6
    Number@0..3 "999"
    Whitespace@3..6 "   ""#,
    );
}

#[test]
fn expr_parse_number_surrounded_by_whitespace() {
    check(
        " 123     ",
        r#"Root@0..9
  Whitespace@0..1 " "
  Literal@1..9
    Number@1..4 "123"
    Whitespace@4..9 "     ""#,
    );
}

#[test]
fn expr_parse_binary_expression_with_whitespace() {
    check(
        " 1 +   2* 3 ",
        r#"Root@0..12
  Whitespace@0..1 " "
  InfixExpression@1..12
    Literal@1..3
      Number@1..2 "1"
      Whitespace@2..3 " "
    Plus@3..4 "+"
    Whitespace@4..7 "   "
    InfixExpression@7..12
      Literal@7..8
        Number@7..8 "2"
      Star@8..9 "*"
      Whitespace@9..10 " "
      Literal@10..12
        Number@10..11 "3"
        Whitespace@11..12 " ""#,
    );
}

#[test]
fn do_not_parse_operator_if_gettting_rhs_failed() {
    check(
        "(1+",
        r#"Root@0..3
  ParenExpression@0..3
    LBrace@0..1 "("
    InfixExpression@1..3
      Literal@1..2
        Number@1..2 "1"
      Plus@2..3 "+"
error at 2..3: expected number, identifier, ‘-’ or ‘(’
error at 2..3: expected ‘)’"#,
    );
}

#[test]
fn parse_variable_definition() {
    check(
        "def foo = abc123",
        r#"Root@0..16
  VariableDef@0..16
    Define@0..3 "def"
    Whitespace@3..4 " "
    Identifier@4..7 "foo"
    Whitespace@7..8 " "
    Equals@8..9 "="
    Whitespace@9..10 " "
    VariableRef@10..16
      Identifier@10..16 "abc123""#,
    );
}

#[test]
fn recover_on_def_token() {
    check(
        "def a =\ndef b = a",
        r#"Root@0..17
  VariableDef@0..8
    Define@0..3 "def"
    Whitespace@3..4 " "
    Identifier@4..5 "a"
    Whitespace@5..6 " "
    Equals@6..7 "="
    Whitespace@7..8 "\n"
  VariableDef@8..17
    Define@8..11 "def"
    Whitespace@11..12 " "
    Identifier@12..13 "b"
    Whitespace@13..14 " "
    Equals@14..15 "="
    Whitespace@15..16 " "
    VariableRef@16..17
      Identifier@16..17 "a"
error at 8..11: expected number, identifier, ‘-’ or ‘(’, but found def"#,
    );
}

#[test]
fn parse_multiple_statements() {
    check(
        "def a = 1\na",
        r#"Root@0..11
  VariableDef@0..10
    Define@0..3 "def"
    Whitespace@3..4 " "
    Identifier@4..5 "a"
    Whitespace@5..6 " "
    Equals@6..7 "="
    Whitespace@7..8 " "
    Literal@8..10
      Number@8..9 "1"
      Whitespace@9..10 "\n"
  VariableRef@10..11
    Identifier@10..11 "a""#,
    );
}

#[test]
fn parse_unclosed_parentheses() {
    check(
        "(foo",
        r#"Root@0..4
  ParenExpression@0..4
    LBrace@0..1 "("
    VariableRef@1..4
      Identifier@1..4 "foo"
error at 1..4: expected ‘+’, ‘-’, ‘*’, ‘/’ or ‘)’"#,
    );
}

#[test]
fn parser_parse_nothing() {
    check("", r#"Root@0..0"#);
}

#[test]
fn parser_parse_whitespace() {
    check(
        "   ",
        r#"Root@0..3
  Whitespace@0..3 "   ""#,
    );
}

#[test]
fn parser_parse_whitespace_with_id() {
    check(
        "\r\n\r",
        r#"Root@0..3
  Whitespace@0..1 "\r"
  Whitespace@1..2 "\n"
  Whitespace@2..3 "\r""#,
    );
}

#[test]
fn parser_parse_comment() {
    check(
        "// hello!",
        r#"Root@0..9
  Comment@0..9 "// hello!""#,
    );
}

#[test]
fn parser_parse_binary_expression_interspersed_with_comments() {
    check(
        "
1
  + 1 // Add one
  + 10 // Add ten",
        r#"Root@0..37
  Whitespace@0..1 "\n"
  InfixExpression@1..37
    InfixExpression@1..22
      Literal@1..5
        Number@1..2 "1"
        Whitespace@2..5 "\n  "
      Plus@5..6 "+"
      Whitespace@6..7 " "
      Literal@7..22
        Number@7..8 "1"
        Whitespace@8..9 " "
        Comment@9..19 "// Add one"
        Whitespace@19..22 "\n  "
    Plus@22..23 "+"
    Whitespace@23..24 " "
    Literal@24..37
      Number@24..26 "10"
      Whitespace@26..27 " "
      Comment@27..37 "// Add ten""#,
    );
}

fn leaf_text(node: &prate::tree::GreenNode, out: &mut String) {
    for child in &node.children {
        match child {
            prate::tree::GreenElement::Node(n) => leaf_text(n, out),
            prate::tree::GreenElement::Token(t) => out.push_str(&t.text),
        }
    }
}

#[test]
fn tree_text_is_the_input() {
    for input in ["", "def a =\ndef b = a", "(1+", "1 + @ * /* x */ (", "é = -(-3)", "))((", "def def def"] {
        let parse = parse(input);
        let mut text = String::new();
        leaf_text(parse.root(), &mut text);
        assert_eq!(text, input);
    }
}

#[test]
fn root_spans_the_whole_input() {
    for input in ["", "  ", "1+2 // c", "é"] {
        let tree = parse(input).debug_tree();
        let first = tree.lines().next().unwrap().to_string();
        assert_eq!(first, format!("Root@0..{}", input.len()));
    }
}

#[test]
fn multibyte_text_is_measured_in_bytes() {
    check(
        "é",
        r#"Root@0..2
  Undefined@0..2
    Undefined@0..2 "é"
error at 0..2: expected def, number, identifier, ‘-’ or ‘(’, but found an unrecognized token"#,
    );
}

#[test]
fn recovery_records_one_error_at_the_second_def() {
    let parse = parse("def a =\ndef b = a");
    let errors = parse.errors();
    assert_eq!(errors.len(), 1);
    assert_eq!(errors[0].found, Some(TokenKind::Define));
    assert_eq!((errors[0].range.start, errors[0].range.end), (8, 11));
    assert_eq!(
        errors[0].expected,
        vec![TokenKind::Number, TokenKind::Identifier, TokenKind::Minus, TokenKind::LBrace]
    );
}

#[test]
fn unexpected_token_is_wrapped_and_skipped() {
    check(
        "=1",
        r#"Root@0..2
  Undefined@0..1
    Equals@0..1 "="
  Literal@1..2
    Number@1..2 "1"
error at 0..1: expected def, number, identifier, ‘-’ or ‘(’, but found ‘=’"#,
    );
}

#[test]
fn definition_missing_its_name() {
    check(
        "def = 2",
        r#"Root@0..7
  VariableDef@0..7
    Define@0..3 "def"
    Whitespace@3..4 " "
    Undefined@4..6
      Equals@4..5 "="
      Whitespace@5..6 " "
    Undefined@6..7
      Number@6..7 "2"
error at 4..5: expected identifier, but found ‘=’
error at 6..7: expected ‘=’, but found number
error at 6..7: expected number, identifier, ‘-’ or ‘(’"#,
    );
}

#[test]
fn quoted_token_text_is_escaped() {
    let tree = parse("\"").debug_tree();
    assert!(tree.contains(r#"Undefined@0..1 "\"""#));
}

#[test]
fn errors_record_what_was_looked_for_and_where() {
    let parse = parse("(1+");
    let errors = parse.errors();
    assert_eq!(errors.len(), 2);
    assert_eq!(
        errors[0].expected,
        vec![TokenKind::Number, TokenKind::Identifier, TokenKind::Minus, TokenKind::LBrace]
    );
    assert_eq!(errors[0].found, None);
    assert_eq!((errors[0].range.start, errors[0].range.end), (2, 3));
    assert_eq!(errors[1].expected, vec![TokenKind::RBrace]);
    assert_eq!(errors[1].found, None);
    assert_eq!((errors[1].range.start, errors[1].range.end), (2, 3));
}
