use prate::lexer::{lex, Lexer};
use prate::token_kind::TokenKind;

fn check_lex(input: &str, kind: TokenKind) {
    let mut lexer = Lexer::new(input);
    let token = lexer.next().map(|t| (t.kind, t.text));
    assert_eq!(token, Some((kind, input.to_string())));
}

#[test]
fn token_kind_lex_ws() {
    check_lex("   ", TokenKind::Whitespace);
}

#[test]
fn token_kind_lex_function_keyword() {
    check_lex("callable", TokenKind::Function);
}

#[test]
fn token_kind_lex_def_keyword() {
    check_lex("def", TokenKind::Define);
}

#[test]
fn token_kind_lex_identifier_all() {
    check_lex("asdyxyS123aAB11", TokenKind::Identifier);
}

#[test]
fn token_kind_lex_identifier_letters() {
    check_lex("asdyxAsdgqQW", TokenKind::Identifier);
}

#[test]
fn token_kind_lex_nr() {
    check_lex("123111204895", TokenKind::Number);
}

#[test]
fn token_kind_lex_plus() {
    check_lex("+", TokenKind::Plus);
}

#[test]
fn token_kind_lex_minus() {
    check_lex("-", TokenKind::Minus);
}

#[test]
fn token_kind_lex_star() {
    check_lex("*", TokenKind::Star);
}

#[test]
fn token_kind_lex_slash() {
    check_lex("/", TokenKind::Slash);
}

#[test]
fn token_kind_lex_equal() {
    check_lex("=", TokenKind::Equals);
}

#[test]
fn token_kind_lex_left_brace() {
    check_lex("(", TokenKind::LBrace);
}

#[test]
fn token_kind_lex_right_brace() {
    check_lex(")", TokenKind::RBrace);
}

#[test]
fn token_kind_lex_curly_right_brace() {
    check_lex("}", TokenKind::RCurlyBrace);
}

#[test]
fn token_kind_lex_curly_left_brace() {
    check_lex("{", TokenKind::LCurlyBrace);
}

#[test]
fn token_kind_lex_square_left_brace() {
    check_lex("[", TokenKind::LSquareBrace);
}

#[test]
fn token_kind_lex_square_right_brace() {
    check_lex("]", TokenKind::RSquareBrace);
}

#[test]
fn token_kind_lex_single_char_identifier() {
    check_lex("x", TokenKind::Identifier);
}

#[test]
fn lexer_lex_ws() {
    check_lex("   ", TokenKind::Whitespace);
}

#[test]
fn lexer_lex_function_keyword() {
    check_lex("callable", TokenKind::Function);
}

#[test]
fn lexer_lex_def_keyword() {
    check_lex("def", TokenKind::Define);
}

#[test]
fn lexer_lex_identifier_all() {
    check_lex("asdyxyS123aAB11", TokenKind::Identifier);
}

#[test]
fn lexer_lex_identifier_letters() {
    check_lex("asdyxAsdgqQW", TokenKind::Identifier);
}

#[test]
fn lexer_lex_nr() {
    check_lex("123111204895", TokenKind::Number);
}

#[test]
fn lexer_lex_plus() {
    check_lex("+", TokenKind::Plus);
}

#[test]
fn lexer_lex_minus() {
    check_lex("-", TokenKind::Minus);
}

#[test]
fn lexer_lex_star() {
    check_lex("*", TokenKind::Star);
}

#[test]
fn lexer_lex_slash() {
    check_lex("/", TokenKind::Slash);
}

#[test]
fn lexer_lex_equal() {
    check_lex("=", TokenKind::Equals);
}

#[test]
fn lexer_lex_left_brace() {
    check_lex("(", TokenKind::LBrace);
}

#[test]
fn lexer_lex_right_brace() {
    check_lex(")", TokenKind::RBrace);
}

#[test]
fn lexer_lex_curly_right_brace() {
    check_lex("}", TokenKind::RCurlyBrace);
}

#[test]
fn lexer_lex_curly_left_brace() {
    check_lex("{", TokenKind::LCurlyBrace);
}

#[test]
fn lexer_lex_square_left_brace() {
    check_lex("[", TokenKind::LSquareBrace);
}

#[test]
fn lexer_lex_square_right_brace() {
    check_lex("]", TokenKind::RSquareBrace);
}

#[test]
fn lexer_lex_single_char_identifier() {
    check_lex("x", TokenKind::Identifier);
}

#[test]
fn lex_comment_one_line() {
    check_lex("// foo", TokenKind::Comment);
}

#[test]
fn lex_comment_multi_line() {
    check_lex(
        r"/* abc
        long cmd 
        */",
        TokenKind::Comment,
    );
}

#[test]
fn lex_spaces_and_newlines() {
    check_lex("  \n ", TokenKind::Whitespace);
}

#[test]
fn lex_comment_multi_line1() {
    check_lex("/*1*/", TokenKind::Comment);
}

#[test]
fn lex_unterminated_block_comment_runs_to_the_end() {
    check_lex("/* never closed", TokenKind::Comment);
}

#[test]
fn lex_line_comment_stops_before_newline() {
    let tokens = lex("// a\nb");
    let kinds: Vec<TokenKind> = tokens.iter().map(|t| t.kind).collect();
    assert_eq!(kinds, vec![TokenKind::Comment, TokenKind::Whitespace, TokenKind::Identifier]);
    assert_eq!(tokens[0].text, "// a");
}

#[test]
fn lex_keyword_prefix_is_an_identifier() {
    check_lex("define", TokenKind::Identifier);
    check_lex("callables", TokenKind::Identifier);
}

#[test]
fn lex_unknown_characters_are_single_undefined_tokens() {
    let tokens = lex("@é#");
    let kinds: Vec<TokenKind> = tokens.iter().map(|t| t.kind).collect();
    assert_eq!(kinds, vec![TokenKind::Undefined, TokenKind::Undefined, TokenKind::Undefined]);
    assert_eq!(tokens[1].text, "é");
    assert_eq!((tokens[1].range.start, tokens[1].range.end), (1, 3));
    assert_eq!((tokens[2].range.start, tokens[2].range.end), (3, 4));
}

#[test]
fn lex_tab_is_not_whitespace() {
    check_lex("\t", TokenKind::Undefined);
}

#[test]
fn lex_carriage_returns_and_blanks_are_separate_runs() {
    let tokens = lex("\r\r \n");
    let texts: Vec<String> = tokens.iter().map(|t| t.text.clone()).collect();
    assert_eq!(texts, vec!["\r\r".to_string(), " \n".to_string()]);
}

#[test]
fn lex_tokens_cover_the_input() {
    for input in ["", "def x = 1 + 2", "(a*b)/ -c // end", "1\r\n/* c */x@y", "αβγ + 3"] {
        let tokens = lex(input);
        let joined: String = tokens.iter().map(|t| t.text.as_str()).collect();
        assert_eq!(joined, input);
        let mut at = 0;
        for t in &tokens {
            assert_eq!(t.range.start, at);
            assert_eq!(t.range.end - t.range.start, t.text.len());
            at = t.range.end;
        }
        assert_eq!(at, input.len());
    }
}

#[test]
fn lex_again_gives_the_same_tokens() {
    for input in ["def a = 1\na", " 1 +   2* 3 ", "-(x)/*z*/", "@@ 12ab"] {
        let tokens = lex(input);
        let joined: String = tokens.iter().map(|t| t.text.as_str()).collect();
        assert_eq!(lex(&joined), tokens);
    }
}

#[test]
fn token_kind_names() {
    assert_eq!(TokenKind::Number.name(), "number");
    assert_eq!(TokenKind::LBrace.name(), "‘(’");
    assert_eq!(TokenKind::Define.name(), "def");
    assert!(TokenKind::Comment.is_trivia());
    assert!(!TokenKind::Plus.is_trivia());
}
