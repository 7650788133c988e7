//! Tokens, and the text that each of them covers.

use vstd::prelude::*;
use vstd::string::StringSliceAdditionalSpecFns;
use vstd::utf8::{
    decode_utf8, encode_utf8, encode_utf8_decode_utf8, encode_utf8_valid_utf8, is_char_boundary,
    is_char_boundary_iff_not_is_continuation_byte, is_char_boundary_start_end_of_seq, valid_utf8,
    valid_utf8_split,
};
use crate::position::{Location, Position};
use crate::text::{byte_offset, lemma_decode_between, lemma_offset_is_boundary};
use crate::token_kind::TokenKind;

verus! {

/// A token: its kind, the place of its first character, its length in bytes,
/// and the source text that it was cut from.
#[derive(Clone, Copy, Debug, PartialEq)]
pub struct Token<'s> {
    pub kind: TokenKind,
    pub pos: Position,
    pub length: usize,
    pub src: &'s str,
}

/// What a [`Token`] says, as mathematical values.
pub struct TokenView {
    pub kind: TokenKind,
    pub pos: Location,
    pub length: int,
    pub source: Seq<char>,
}

impl TokenView {
    /// The bytes of the source text that the token covers.
    pub open spec fn bytes(self) -> Seq<u8> {
        encode_utf8(self.source).subrange(self.pos.offset, self.pos.offset + self.length)
    }

    /// The text of the token: the characters that its bytes encode.
    pub open spec fn lexeme(self) -> Seq<char> {
        decode_utf8(self.bytes())
    }

    /// The token begins and ends between two characters of its source text.
    pub open spec fn on_boundaries(self) -> bool {
        &&& 0 <= self.pos.offset
        &&& 0 <= self.length
        &&& is_char_boundary(encode_utf8(self.source), self.pos.offset)
        &&& is_char_boundary(encode_utf8(self.source), self.pos.offset + self.length)
    }

    /// The token covers the characters of its source text from index `from`
    /// up to index `to`.
    pub open spec fn covers(self, from: int, to: int) -> bool {
        &&& 0 <= from <= to <= self.source.len()
        &&& self.pos.offset == byte_offset(self.source, from)
        &&& self.pos.offset + self.length == byte_offset(self.source, to)
    }
}

impl<'s> View for Token<'s> {
    type V = TokenView;

    open spec fn view(&self) -> TokenView {
        TokenView {
            kind: self.kind,
            pos: self.pos@,
            length: self.length as int,
            source: self.src@,
        }
    }
}

/// In valid UTF-8, a boundary that lies behind another boundary is a boundary
/// of what follows the first.
proof fn lemma_boundary_in_suffix(bytes: Seq<u8>, a: int, n: int)
    requires
        valid_utf8(bytes),
        0 <= a,
        0 <= n,
        is_char_boundary(bytes, a),
        is_char_boundary(bytes, a + n),
    ensures
        a + n <= bytes.len(),
        valid_utf8(bytes.subrange(a, bytes.len() as int)),
        is_char_boundary(bytes.subrange(a, bytes.len() as int), n),
{
    let tail = bytes.subrange(a, bytes.len() as int);
    valid_utf8_split(bytes, a);
    if n == 0 {
    } else if a + n == bytes.len() {
        is_char_boundary_start_end_of_seq(tail);
    } else {
        is_char_boundary_iff_not_is_continuation_byte(bytes, a + n);
        assert(tail[n] == bytes[a + n]);
        is_char_boundary_iff_not_is_continuation_byte(tail, n);
    }
}

/// A token that covers the characters between two indices lies on
/// boundaries, and its text is those characters.
pub proof fn lemma_covered_lexeme(t: TokenView, from: int, to: int)
    requires
        t.covers(from, to),
    ensures
        t.on_boundaries(),
        t.lexeme() == t.source.subrange(from, to),
{
    lemma_offset_is_boundary(t.source, from);
    lemma_offset_is_boundary(t.source, to);
    lemma_decode_between(t.source, from, to);
}

impl<'s> Token<'s> {
    /// The text of the token, cut from the source text.
    pub fn get_lexeme(&self) -> (text: &'s str)
        requires
            self@.on_boundaries(),
        ensures
            text@ == self@.lexeme(),
    {
        let ghost bytes = self.src.spec_bytes();
        proof {
            encode_utf8_valid_utf8(self.src@);
            lemma_boundary_in_suffix(bytes, self.pos.offset as int, self.length as int);
        }
        let (_, tail) = self.src.split_at(self.pos.offset);
        let (text, _) = tail.split_at(self.length);
        proof {
            assert(text.spec_bytes() =~= self@.bytes());
            encode_utf8_decode_utf8(text@);
        }
        text
    }
}

} // verus!
