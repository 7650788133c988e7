//! The first scanner: brackets, a few operators and comments, by character
//! index.

pub mod lexer;
pub mod token;
