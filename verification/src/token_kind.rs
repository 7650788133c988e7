//! The kinds of token.

use vstd::prelude::*;

verus! {

/// The kinds of token.
///
/// `Paren`, `Square` and `Angle` name a family of brackets. They are kept on
/// the stack of open brackets and never appear as the kind of a token.
#[derive(Clone, Copy, Debug, PartialEq, Eq, Structural)]
pub enum TokenKind {
    Equal,
    Dot,
    Star,
    Mod,
    Range,
    Slash,
    Paren,
    LeftParen,
    RightParen,
    Square,
    LeftSquare,
    RightSquare,
    Angle,
    LeftAngle,
    RightAngle,
    EqualSlash,
    TerminalBinary,
    Binary,
    TerminalDecimal,
    Decimal,
    TerminalHexadecimal,
    Hexadecimal,
    String,
    Number,
    Identifier,
    Whitespace,
    EOF,
}

} // verus!
