//! What the scanner can be told.

use vstd::prelude::*;

verus! {

/// What the scanner can be told. With `extended` set, decimal and
/// hexadecimal terminals may exceed 126, and a hexadecimal terminal may have
/// more than two digits.
#[derive(Clone, Copy, Debug, PartialEq, Eq, Structural)]
pub struct LexerConfig {
    pub extended: bool,
}

/// The whole configuration: one section for each component.
#[derive(Clone, Copy, Debug, PartialEq, Eq, Structural)]
pub struct Config {
    pub lexer: LexerConfig,
}

} // verus!
