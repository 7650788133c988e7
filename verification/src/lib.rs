//! A lexical scanner for ABNF grammar text.
//!
//! The scanner turns a source text into a sequence of tokens, each with its
//! kind, its place in the text and its length, or into the list of everything
//! that is wrong with the text.
//!
//! What the scanner returns is stated over a mathematical model of the scan
//! (module [`scan`]), and the executable scanner (module [`lexer`]) is proved
//! to compute exactly that. What holds of every scan is proved of the model:
//! how symbols and brackets are scanned and that comments stay on their line
//! (module [`laws`]), that the tokens come in the order of the text and end
//! with the one end-of-input token (module [`order`]), that a scan goes on
//! from the start of a line as the rest of the text is scanned by itself
//! (module [`resume`]), and that two texts joined by a line feed are scanned
//! one behind the other (module [`join`]).
//!
//! Module [`parser`] holds the first scanner, which knows brackets, a few
//! operators and comments only.

pub mod config;
pub mod join;
pub mod laws;
pub mod lexer;
pub mod order;
pub mod parser;
pub mod position;
pub mod report;
pub mod report_kind;
pub mod resume;
pub mod scan;
pub mod terminal;
pub mod text;
pub mod token;
pub mod token_kind;
