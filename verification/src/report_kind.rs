//! The kinds of finding and their messages.

use vstd::prelude::*;

verus! {

/// Everything that the scanner can find wrong.
#[derive(Clone, Copy, Debug, PartialEq, Eq, Structural)]
pub enum ReportKind {
    UnableToParseError,
    UnableToAdvanceError,
    InternalLexerError,
    EofError,
    UnclosedBracketError,
    MismatchedClosingBracketError,
    UnexpectedClosingBracketError,
    NoTerminalFoundError,
    IncorrectTerminalFoundError,
    BinaryTerminalError,
    SevenBitsError,
    DecimalTerminalError,
    HexadecimalTerminalError,
    NaHexNError,
    UnterminatedStringError,
    NaNError,
}

impl ReportKind {
    /// The fixed message of each kind.
    pub open spec fn message(self) -> Seq<char> {
        match self {
            ReportKind::UnableToParseError => "lexer was unable to tokenize file"@,
            ReportKind::UnableToAdvanceError => "Unable To advance tokenstream"@,
            ReportKind::InternalLexerError => "you should never see this error"@,
            ReportKind::EofError => "reached end of file before complete expression"@,
            ReportKind::MismatchedClosingBracketError => "one or more brackets are never closed"@,
            ReportKind::UnexpectedClosingBracketError => "unexpected closing bracket"@,
            ReportKind::UnclosedBracketError => "one or more brackets are never closed"@,
            ReportKind::NoTerminalFoundError => "expected terminal (b, d, x) after %, found none"@,
            ReportKind::IncorrectTerminalFoundError => "expected terminal (b, d, x) after %"@,
            ReportKind::BinaryTerminalError => "expected binary representation (0, 1)"@,
            ReportKind::SevenBitsError => "expected 7 bits after terminal received more or less"@,
            ReportKind::DecimalTerminalError => "decimal terminal should be in range 0..=127"@,
            ReportKind::HexadecimalTerminalError => "hexadecimal terminal should be in range 00..=7E"@,
            ReportKind::UnterminatedStringError => "string was never closed"@,
            ReportKind::NaNError => "expected a number"@,
            ReportKind::NaHexNError => "expected a 2 character hexadecimal"@,
        }
    }

    /// The message that a reader is shown for this kind.
    pub fn msg(&self) -> (m: &'static str)
        ensures
            m@ == self.message(),
    {
        match self {
            ReportKind::UnableToParseError => "lexer was unable to tokenize file",
            ReportKind::UnableToAdvanceError => "Unable To advance tokenstream",
            ReportKind::InternalLexerError => "you should never see this error",
            ReportKind::EofError => "reached end of file before complete expression",
            ReportKind::MismatchedClosingBracketError => "one or more brackets are never closed",
            ReportKind::UnexpectedClosingBracketError => "unexpected closing bracket",
            ReportKind::UnclosedBracketError => "one or more brackets are never closed",
            ReportKind::NoTerminalFoundError => "expected terminal (b, d, x) after %, found none",
            ReportKind::IncorrectTerminalFoundError => "expected terminal (b, d, x) after %",
            ReportKind::BinaryTerminalError => "expected binary representation (0, 1)",
            ReportKind::SevenBitsError => "expected 7 bits after terminal received more or less",
            ReportKind::DecimalTerminalError => "decimal terminal should be in range 0..=127",
            ReportKind::HexadecimalTerminalError => "hexadecimal terminal should be in range 00..=7E",
            ReportKind::UnterminatedStringError => "string was never closed",
            ReportKind::NaNError => "expected a number",
            ReportKind::NaHexNError => "expected a 2 character hexadecimal",
        }
    }
}

} // verus!
