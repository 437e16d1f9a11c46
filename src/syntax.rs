use vstd::prelude::*;

use crate::token_kind::TokenKind;

verus! {

/// The kinds of the tree's elements: every token kind, and the node kinds.
#[derive(Debug, Clone, Copy, PartialEq, Eq, PartialOrd, Ord, Hash, Structural)]
pub enum SyntaxKind {
    Whitespace,
    Function,
    Define,
    Identifier,
    Number,
    Plus,
    Minus,
    Star,
    Slash,
    Equals,
    LBrace,
    RBrace,
    LCurlyBrace,
    RCurlyBrace,
    LSquareBrace,
    RSquareBrace,
    Comment,
    Undefined,
    Root,
    InfixExpression,
    Literal,
    ParenExpression,
    PrefixExpression,
    VariableRef,
    VariableDef,
}

/// The syntax kind that a token of kind `t` has in the tree.
pub open spec fn syntax_kind_of(t: TokenKind) -> SyntaxKind {
    match t {
        TokenKind::Whitespace => SyntaxKind::Whitespace,
        TokenKind::Function => SyntaxKind::Function,
        TokenKind::Define => SyntaxKind::Define,
        TokenKind::Identifier => SyntaxKind::Identifier,
        TokenKind::Number => SyntaxKind::Number,
        TokenKind::Plus => SyntaxKind::Plus,
        TokenKind::Minus => SyntaxKind::Minus,
        TokenKind::Star => SyntaxKind::Star,
        TokenKind::Slash => SyntaxKind::Slash,
        TokenKind::Equals => SyntaxKind::Equals,
        TokenKind::LCurlyBrace => SyntaxKind::LCurlyBrace,
        TokenKind::RCurlyBrace => SyntaxKind::RCurlyBrace,
        TokenKind::LBrace => SyntaxKind::LBrace,
        TokenKind::RBrace => SyntaxKind::RBrace,
        TokenKind::RSquareBrace => SyntaxKind::RSquareBrace,
        TokenKind::LSquareBrace => SyntaxKind::LSquareBrace,
        TokenKind::Comment => SyntaxKind::Comment,
        TokenKind::Undefined => SyntaxKind::Undefined,
    }
}

impl From<TokenKind> for SyntaxKind {
    fn from(t: TokenKind) -> SyntaxKind {
        match t {
            TokenKind::Whitespace => SyntaxKind::Whitespace,
            TokenKind::Function => SyntaxKind::Function,
            TokenKind::Define => SyntaxKind::Define,
            TokenKind::Identifier => SyntaxKind::Identifier,
            TokenKind::Number => SyntaxKind::Number,
            TokenKind::Plus => SyntaxKind::Plus,
            TokenKind::Minus => SyntaxKind::Minus,
            TokenKind::Star => SyntaxKind::Star,
            TokenKind::Slash => SyntaxKind::Slash,
            TokenKind::Equals => SyntaxKind::Equals,
            TokenKind::LCurlyBrace => SyntaxKind::LCurlyBrace,
            TokenKind::RCurlyBrace => SyntaxKind::RCurlyBrace,
            TokenKind::LBrace => SyntaxKind::LBrace,
            TokenKind::RBrace => SyntaxKind::RBrace,
            TokenKind::RSquareBrace => SyntaxKind::RSquareBrace,
            TokenKind::LSquareBrace => SyntaxKind::LSquareBrace,
            TokenKind::Comment => SyntaxKind::Comment,
            TokenKind::Undefined => SyntaxKind::Undefined,
        }
    }
}

impl vstd::std_specs::convert::FromSpecImpl<TokenKind> for SyntaxKind {
    open spec fn obeys_from_spec() -> bool {
        true
    }

    open spec fn from_spec(t: TokenKind) -> SyntaxKind {
        syntax_kind_of(t)
    }
}

/// Number of syntax kinds.
pub const KIND_COUNT: u16 = 25;

/// The number of a kind: its place in the declaration, from 0.
pub open spec fn kind_number(k: SyntaxKind) -> u16 {
    match k {
        SyntaxKind::Whitespace => 0,
        SyntaxKind::Function => 1,
        SyntaxKind::Define => 2,
        SyntaxKind::Identifier => 3,
        SyntaxKind::Number => 4,
        SyntaxKind::Plus => 5,
        SyntaxKind::Minus => 6,
        SyntaxKind::Star => 7,
        SyntaxKind::Slash => 8,
        SyntaxKind::Equals => 9,
        SyntaxKind::LBrace => 10,
        SyntaxKind::RBrace => 11,
        SyntaxKind::LCurlyBrace => 12,
        SyntaxKind::RCurlyBrace => 13,
        SyntaxKind::LSquareBrace => 14,
        SyntaxKind::RSquareBrace => 15,
        SyntaxKind::Comment => 16,
        SyntaxKind::Undefined => 17,
        SyntaxKind::Root => 18,
        SyntaxKind::InfixExpression => 19,
        SyntaxKind::Literal => 20,
        SyntaxKind::ParenExpression => 21,
        SyntaxKind::PrefixExpression => 22,
        SyntaxKind::VariableRef => 23,
        SyntaxKind::VariableDef => 24,
    }
}

impl SyntaxKind {
    /// Whether a token of this kind is trivia.
    pub open spec fn spec_is_trivia(self) -> bool {
        self == SyntaxKind::Whitespace || self == SyntaxKind::Comment
    }

    #[verifier::when_used_as_spec(spec_is_trivia)]
    pub fn is_trivia(self) -> (r: bool)
        ensures
            r == self.spec_is_trivia(),
    {
        matches!(self, SyntaxKind::Whitespace | SyntaxKind::Comment)
    }
}

/// The language tag of the tree: it numbers the kinds for a raw representation.
#[derive(Debug, Clone, Copy, PartialEq, Eq, PartialOrd, Ord, Hash)]
pub struct PrateLng;

impl PrateLng {
    /// The kind that bears the number `raw`.
    pub fn kind_from_raw(raw: u16) -> (r: SyntaxKind)
        requires
            raw < KIND_COUNT,
        ensures
            kind_number(r) == raw,
    {
        match raw {
            0 => SyntaxKind::Whitespace,
            1 => SyntaxKind::Function,
            2 => SyntaxKind::Define,
            3 => SyntaxKind::Identifier,
            4 => SyntaxKind::Number,
            5 => SyntaxKind::Plus,
            6 => SyntaxKind::Minus,
            7 => SyntaxKind::Star,
            8 => SyntaxKind::Slash,
            9 => SyntaxKind::Equals,
            10 => SyntaxKind::LBrace,
            11 => SyntaxKind::RBrace,
            12 => SyntaxKind::LCurlyBrace,
            13 => SyntaxKind::RCurlyBrace,
            14 => SyntaxKind::LSquareBrace,
            15 => SyntaxKind::RSquareBrace,
            16 => SyntaxKind::Comment,
            17 => SyntaxKind::Undefined,
            18 => SyntaxKind::Root,
            19 => SyntaxKind::InfixExpression,
            20 => SyntaxKind::Literal,
            21 => SyntaxKind::ParenExpression,
            22 => SyntaxKind::PrefixExpression,
            23 => SyntaxKind::VariableRef,
            _ => SyntaxKind::VariableDef,
        }
    }

    /// The number of `kind`.
    pub fn kind_to_raw(kind: SyntaxKind) -> (r: u16)
        ensures
            r == kind_number(kind),
            r < KIND_COUNT,
    {
        match kind {
            SyntaxKind::Whitespace => 0,
            SyntaxKind::Function => 1,
            SyntaxKind::Define => 2,
            SyntaxKind::Identifier => 3,
            SyntaxKind::Number => 4,
            SyntaxKind::Plus => 5,
            SyntaxKind::Minus => 6,
            SyntaxKind::Star => 7,
            SyntaxKind::Slash => 8,
            SyntaxKind::Equals => 9,
            SyntaxKind::LBrace => 10,
            SyntaxKind::RBrace => 11,
            SyntaxKind::LCurlyBrace => 12,
            SyntaxKind::RCurlyBrace => 13,
            SyntaxKind::LSquareBrace => 14,
            SyntaxKind::RSquareBrace => 15,
            SyntaxKind::Comment => 16,
            SyntaxKind::Undefined => 17,
            SyntaxKind::Root => 18,
            SyntaxKind::InfixExpression => 19,
            SyntaxKind::Literal => 20,
            SyntaxKind::ParenExpression => 21,
            SyntaxKind::PrefixExpression => 22,
            SyntaxKind::VariableRef => 23,
            SyntaxKind::VariableDef => 24,
        }
    }
}



impl SyntaxKind {
    /// The kind's name as it appears in a rendered tree.
    pub open spec fn spec_name(self) -> Seq<char> {
        match self {
            SyntaxKind::Whitespace => "Whitespace"@,
            SyntaxKind::Function => "Function"@,
            SyntaxKind::Define => "Define"@,
            SyntaxKind::Identifier => "Identifier"@,
            SyntaxKind::Number => "Number"@,
            SyntaxKind::Plus => "Plus"@,
            SyntaxKind::Minus => "Minus"@,
            SyntaxKind::Star => "Star"@,
            SyntaxKind::Slash => "Slash"@,
            SyntaxKind::Equals => "Equals"@,
            SyntaxKind::LBrace => "LBrace"@,
            SyntaxKind::RBrace => "RBrace"@,
            SyntaxKind::LCurlyBrace => "LCurlyBrace"@,
            SyntaxKind::RCurlyBrace => "RCurlyBrace"@,
            SyntaxKind::LSquareBrace => "LSquareBrace"@,
            SyntaxKind::RSquareBrace => "RSquareBrace"@,
            SyntaxKind::Comment => "Comment"@,
            SyntaxKind::Undefined => "Undefined"@,
            SyntaxKind::Root => "Root"@,
            SyntaxKind::InfixExpression => "InfixExpression"@,
            SyntaxKind::Literal => "Literal"@,
            SyntaxKind::ParenExpression => "ParenExpression"@,
            SyntaxKind::PrefixExpression => "PrefixExpression"@,
            SyntaxKind::VariableRef => "VariableRef"@,
            SyntaxKind::VariableDef => "VariableDef"@,
        }
    }

    pub fn name(self) -> (r: &'static str)
        ensures
            r@ == self.spec_name(),
    {
        proof {
            reveal_strlit("Whitespace");
            reveal_strlit("Function");
            reveal_strlit("Define");
            reveal_strlit("Identifier");
            reveal_strlit("Number");
            reveal_strlit("Plus");
            reveal_strlit("Minus");
            reveal_strlit("Star");
            reveal_strlit("Slash");
            reveal_strlit("Equals");
            reveal_strlit("LBrace");
            reveal_strlit("RBrace");
            reveal_strlit("LCurlyBrace");
            reveal_strlit("RCurlyBrace");
            reveal_strlit("LSquareBrace");
            reveal_strlit("RSquareBrace");
            reveal_strlit("Comment");
            reveal_strlit("Undefined");
            reveal_strlit("Root");
            reveal_strlit("InfixExpression");
            reveal_strlit("Literal");
            reveal_strlit("ParenExpression");
            reveal_strlit("PrefixExpression");
            reveal_strlit("VariableRef");
            reveal_strlit("VariableDef");
        }
        match self {
            SyntaxKind::Whitespace => "Whitespace",
            SyntaxKind::Function => "Function",
            SyntaxKind::Define => "Define",
            SyntaxKind::Identifier => "Identifier",
            SyntaxKind::Number => "Number",
            SyntaxKind::Plus => "Plus",
            SyntaxKind::Minus => "Minus",
            SyntaxKind::Star => "Star",
            SyntaxKind::Slash => "Slash",
            SyntaxKind::Equals => "Equals",
            SyntaxKind::LBrace => "LBrace",
            SyntaxKind::RBrace => "RBrace",
            SyntaxKind::LCurlyBrace => "LCurlyBrace",
            SyntaxKind::RCurlyBrace => "RCurlyBrace",
            SyntaxKind::LSquareBrace => "LSquareBrace",
            SyntaxKind::RSquareBrace => "RSquareBrace",
            SyntaxKind::Comment => "Comment",
            SyntaxKind::Undefined => "Undefined",
            SyntaxKind::Root => "Root",
            SyntaxKind::InfixExpression => "InfixExpression",
            SyntaxKind::Literal => "Literal",
            SyntaxKind::ParenExpression => "ParenExpression",
            SyntaxKind::PrefixExpression => "PrefixExpression",
            SyntaxKind::VariableRef => "VariableRef",
            SyntaxKind::VariableDef => "VariableDef",
        }
    }
}

} // verus!
