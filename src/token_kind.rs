use vstd::prelude::*;

verus! {

/// The terminal categories produced by the lexer.
#[derive(Debug, Clone, Copy, PartialEq, Eq, Hash, Structural)]
pub enum TokenKind {
    Whitespace,
    Function,
    Define,
    Identifier,
    Number,
    Plus,
    Minus,
    Star,
    Slash,
    Equals,
    LCurlyBrace,
    RCurlyBrace,
    LBrace,
    RBrace,
    RSquareBrace,
    LSquareBrace,
    Comment,
    Undefined,
}

impl TokenKind {
    /// Trivia carries no meaning for the grammar: whitespace and comments.
    pub open spec fn spec_is_trivia(self) -> bool {
        self == TokenKind::Whitespace || self == TokenKind::Comment
    }

    #[verifier::when_used_as_spec(spec_is_trivia)]
    pub fn is_trivia(self) -> (r: bool)
        ensures
            r == self.spec_is_trivia(),
    {
        matches!(self, TokenKind::Whitespace | TokenKind::Comment)
    }

    /// How a kind is named in a diagnostic.
    pub open spec fn spec_name(self) -> Seq<char> {
        match self {
            TokenKind::Whitespace => "whitespace"@,
            TokenKind::Function => "callable"@,
            TokenKind::Define => "def"@,
            TokenKind::Identifier => "identifier"@,
            TokenKind::Number => "number"@,
            TokenKind::Plus => "‘+’"@,
            TokenKind::Minus => "‘-’"@,
            TokenKind::Star => "‘*’"@,
            TokenKind::Slash => "‘/’"@,
            TokenKind::Equals => "‘=’"@,
            TokenKind::LCurlyBrace => "‘{’"@,
            TokenKind::RCurlyBrace => "‘}’"@,
            TokenKind::LBrace => "‘(’"@,
            TokenKind::RBrace => "‘)’"@,
            TokenKind::RSquareBrace => "‘]’"@,
            TokenKind::LSquareBrace => "‘[’"@,
            TokenKind::Comment => "comment"@,
            TokenKind::Undefined => "an unrecognized token"@,
        }
    }

    pub fn name(self) -> (r: &'static str)
        ensures
            r@ == self.spec_name(),
    {
        proof {
            reveal_strlit("whitespace");
            reveal_strlit("callable");
            reveal_strlit("def");
            reveal_strlit("identifier");
            reveal_strlit("number");
            reveal_strlit("‘+’");
            reveal_strlit("‘-’");
            reveal_strlit("‘*’");
            reveal_strlit("‘/’");
            reveal_strlit("‘=’");
            reveal_strlit("‘{’");
            reveal_strlit("‘}’");
            reveal_strlit("‘(’");
            reveal_strlit("‘)’");
            reveal_strlit("‘]’");
            reveal_strlit("‘[’");
            reveal_strlit("comment");
            reveal_strlit("an unrecognized token");
        }
        match self {
            TokenKind::Whitespace => "whitespace",
            TokenKind::Function => "callable",
            TokenKind::Define => "def",
            TokenKind::Identifier => "identifier",
            TokenKind::Number => "number",
            TokenKind::Plus => "‘+’",
            TokenKind::Minus => "‘-’",
            TokenKind::Star => "‘*’",
            TokenKind::Slash => "‘/’",
            TokenKind::Equals => "‘=’",
            TokenKind::LCurlyBrace => "‘{’",
            TokenKind::RCurlyBrace => "‘}’",
            TokenKind::LBrace => "‘(’",
            TokenKind::RBrace => "‘)’",
            TokenKind::RSquareBrace => "‘]’",
            TokenKind::LSquareBrace => "‘[’",
            TokenKind::Comment => "comment",
            TokenKind::Undefined => "an unrecognized token",
        }
    }
}

} // verus!
