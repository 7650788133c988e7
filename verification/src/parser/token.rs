//! The tokens of the first scanner.

use vstd::prelude::*;
use crate::position::{Location, Position};

verus! {

/// The kinds of token of the first scanner.
#[derive(Clone, Copy, Debug, PartialEq, Eq, Structural)]
pub enum TokenType {
    LeftParen,
    RightParen,
    LeftSquare,
    RightSquare,
    Equal,
    Dot,
    Star,
    Semicolon,
    Mod,
    Minus,
    EqualSlash,
    TerminalBinary,
    TerminalDecimal,
    TerminalHexadecimal,
    String,
    Number,
    Identifier,
    EOF,
}

/// The value that a token stands for.
#[derive(Clone)]
pub enum TokenLiteral {
    StringLiteral(String),
    NumberLiteral(i32),
    IdentifierLiteral(TokenType),
}

/// A [`TokenLiteral`] as a mathematical value.
pub enum LiteralView {
    StringLiteral(Seq<char>),
    NumberLiteral(int),
    IdentifierLiteral(TokenType),
}

impl View for TokenLiteral {
    type V = LiteralView;

    open spec fn view(&self) -> LiteralView {
        match self {
            TokenLiteral::StringLiteral(s) => LiteralView::StringLiteral(s@),
            TokenLiteral::NumberLiteral(n) => LiteralView::NumberLiteral(*n as int),
            TokenLiteral::IdentifierLiteral(k) => LiteralView::IdentifierLiteral(*k),
        }
    }
}

/// The view of an optional literal.
pub open spec fn literal_view(literal: Option<TokenLiteral>) -> Option<LiteralView> {
    match literal {
        Some(l) => Some(l@),
        None => None,
    }
}

impl TokenLiteral {
    /// A literal with the same value.
    pub fn duplicate(&self) -> (copy: Self)
        ensures
            copy@ == self@,
    {
        match self {
            TokenLiteral::StringLiteral(s) => TokenLiteral::StringLiteral(s.clone()),
            TokenLiteral::NumberLiteral(n) => TokenLiteral::NumberLiteral(*n),
            TokenLiteral::IdentifierLiteral(k) => TokenLiteral::IdentifierLiteral(*k),
        }
    }
}

/// A token of the first scanner: its kind, its text, the value that it
/// stands for, if any, and its place.
#[derive(Clone)]
pub struct Token {
    kind: TokenType,
    lexeme: String,
    literal: Option<TokenLiteral>,
    pos: Position,
}

/// What a [`Token`] says, as mathematical values.
pub struct TokenView {
    pub kind: TokenType,
    pub lexeme: Seq<char>,
    pub literal: Option<LiteralView>,
    pub pos: Location,
}

impl View for Token {
    type V = TokenView;

    closed spec fn view(&self) -> TokenView {
        TokenView {
            kind: self.kind,
            lexeme: self.lexeme@,
            literal: literal_view(self.literal),
            pos: self.pos@,
        }
    }
}

impl Token {
    /// A token of the given kind, text, value and place.
    pub fn new(kind: TokenType, lexeme: String, literal: Option<TokenLiteral>, pos: Position) -> (t:
        Self)
        ensures
            t@ == (TokenView {
                kind,
                lexeme: lexeme@,
                literal: literal_view(literal),
                pos: pos@,
            }),
    {
        Token { kind, lexeme, literal, pos }
    }

    /// The text of the token.
    pub fn get_lexeme(&self) -> (lexeme: String)
        ensures
            lexeme@ == self@.lexeme,
    {
        self.lexeme.clone()
    }

    /// The kind of the token.
    pub fn get_kind(&self) -> (kind: TokenType)
        ensures
            kind == self@.kind,
    {
        self.kind
    }

    /// The place of the token.
    pub fn get_pos(&self) -> (pos: Position)
        ensures
            pos@ == self@.pos,
    {
        self.pos
    }

    /// The value that the token stands for, if any.
    pub fn get_literal(&self) -> (literal: Option<TokenLiteral>)
        ensures
            literal_view(literal) == self@.literal,
    {
        match &self.literal {
            Some(l) => Some(l.duplicate()),
            None => None,
        }
    }

    /// A token that says the same.
    pub fn duplicate(&self) -> (copy: Self)
        ensures
            copy@ == self@,
    {
        Token {
            kind: self.kind,
            lexeme: self.lexeme.clone(),
            literal: self.get_literal(),
            pos: self.pos,
        }
    }
}

} // verus!
