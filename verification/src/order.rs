//! What holds of every state of a scan, and therefore of what it returns.

use vstd::prelude::*;
use crate::report::ReportView;
use crate::scan::{
    all_digits, bracket_kind, family, is_digit, is_letter, is_separator, lemma_run_end_bounds,
    lemma_scan_lexeme_progress, run_end, scan_all, scan_lexeme, scan_values, single_kind,
    tokenize_from, tokenize_text, with_report, CharClass, ScanState,
};
use crate::text::{byte_offset, lemma_offset_grows};
use crate::token::{lemma_covered_lexeme, TokenView};
use crate::token_kind::TokenKind;

verus! {

/// A kind that a token cut from the text can have: any but the end-of-input
/// token and the three families of brackets.
pub open spec fn is_lexeme_kind(kind: TokenKind) -> bool {
    kind != TokenKind::EOF && kind != TokenKind::Paren && kind != TokenKind::Square && kind
        != TokenKind::Angle
}

/// A marker of a family of brackets.
pub open spec fn is_family(kind: TokenKind) -> bool {
    kind == TokenKind::Paren || kind == TokenKind::Square || kind == TokenKind::Angle
}

/// The byte offset behind the last byte of a token.
pub open spec fn token_end(t: TokenView) -> int {
    t.pos.offset + t.length
}

/// The tokens come in the order of the text and do not overlap.
pub open spec fn in_text_order(tokens: Seq<TokenView>) -> bool {
    forall|k: int, m: int|
        0 <= k < m < tokens.len() ==> token_end(#[trigger] tokens[k]) <= (
        #[trigger] tokens[m]).pos.offset
}

/// The state is one that a scan of `src` reaches from its start: it is well
/// formed, its tokens are of the kinds of lexemes, come in the order of the
/// text without overlap and end before the current token starts, and only
/// families of brackets are on the stack of open brackets.
pub open spec fn orderly(st: ScanState, src: Seq<char>) -> bool {
    &&& st.wf(src)
    &&& forall|k: int|
        0 <= k < st.tokens.len() ==> is_lexeme_kind((#[trigger] st.tokens[k]).kind) && token_end(
            st.tokens[k],
        ) <= st.start.offset
    &&& in_text_order(st.tokens)
    &&& forall|k: int| 0 <= k < st.open.len() ==> is_family(#[trigger] st.open[k])
}

proof fn lemma_advance_to_orderly(src: Seq<char>, st: ScanState, to: int)
    requires
        orderly(st, src),
        st.index <= to <= src.len(),
    ensures
        orderly(st.advance_to(src, to), src),
        st.advance_to(src, to).end.offset >= st.end.offset + (to - st.index),
{
    lemma_offset_grows(src, st.index, to);
}

proof fn lemma_emit_orderly(src: Seq<char>, st: ScanState, kind: TokenKind)
    requires
        orderly(st, src),
        is_lexeme_kind(kind),
    ensures
        orderly(st.emit(src, kind), src),
{
    let token = st.pending(src, kind);
    lemma_offset_grows(src, st.start_index, st.index);
    lemma_covered_lexeme(token, st.start_index, st.index);
    let after = st.emit(src, kind);
    assert forall|k: int| 0 <= k < after.tokens.len() implies (#[trigger] after.tokens[k]).source
        == src && after.tokens[k].on_boundaries() && is_lexeme_kind(after.tokens[k].kind)
        && token_end(after.tokens[k]) <= after.start.offset by {
        if k < st.tokens.len() {
            assert(after.tokens[k] == st.tokens[k]);
        }
    }
    assert forall|k: int, m: int| 0 <= k < m < after.tokens.len() implies token_end(
        #[trigger] after.tokens[k],
    ) <= (#[trigger] after.tokens[m]).pos.offset by {
        assert(after.tokens[k] == st.tokens[k]);
        if m < st.tokens.len() {
            assert(after.tokens[m] == st.tokens[m]);
        }
    }
}

proof fn lemma_restart_orderly(src: Seq<char>, st: ScanState)
    requires
        orderly(st, src),
    ensures
        orderly(st.restart(), src),
{
    lemma_offset_grows(src, st.start_index, st.index);
}

proof fn lemma_new_line_orderly(src: Seq<char>, st: ScanState)
    requires
        orderly(st, src),
        st.end.line <= st.end.offset,
    ensures
        orderly(st.new_line(src), src),
{
    lemma_offset_grows(src, st.start_index, st.index);
}

pub proof fn lemma_values_orderly(src: Seq<char>, st: ScanState, kind: TokenKind)
    requires
        orderly(st, src),
        is_lexeme_kind(kind),
    ensures
        orderly(scan_values(src, st, kind), src),
    decreases src.len() - st.index,
{
    if st.index < src.len() && is_digit(src[st.index]) {
        lemma_advance_to_orderly(src, st, st.index + 1);
        lemma_values_orderly(src, st.advance(src), kind);
    } else if st.index < src.len() && is_separator(src[st.index]) {
        lemma_emit_orderly(src, st, kind);
        lemma_advance_to_orderly(src, st.emit(src, kind), st.index + 1);
        lemma_restart_orderly(src, st.emit(src, kind).advance(src));
        lemma_values_orderly(src, st.emit(src, kind).advance(src).restart(), kind);
    }
}

/// The values of a terminal are runs of digits: where nothing but digits is
/// pending when the values begin, every token that is emitted for a value
/// covers digits only, and so does the text of the last value, which the
/// terminal is judged by. The separators belong to no token.
pub proof fn lemma_values_are_digit_runs(src: Seq<char>, st: ScanState, kind: TokenKind)
    requires
        orderly(st, src),
        is_lexeme_kind(kind),
        all_digits(st.pending_text(src)),
    ensures
        ({
            let last = scan_values(src, st, kind);
            &&& all_digits(last.pending_text(src))
            &&& st.tokens.len() <= last.tokens.len()
            &&& forall|k: int| 0 <= k < st.tokens.len() ==> last.tokens[k] == st.tokens[k]
            &&& forall|k: int|
                st.tokens.len() <= k < last.tokens.len() ==> (#[trigger] last.tokens[k]).kind
                    == kind && exists|from: int, to: int|
                    last.tokens[k].covers(from, to) && all_digits(src.subrange(from, to))
        }),
    decreases src.len() - st.index,
{
    let text = st.pending_text(src);
    if st.index < src.len() && is_digit(src[st.index]) {
        let next = st.advance(src);
        let more = next.pending_text(src);
        lemma_advance_to_orderly(src, st, st.index + 1);
        assert forall|k: int| 0 <= k < more.len() implies is_digit(#[trigger] more[k]) by {
            if k < text.len() {
                assert(more[k] == text[k]);
            }
        }
        lemma_values_are_digit_runs(src, next, kind);
    } else if st.index < src.len() && is_separator(src[st.index]) {
        let emitted = st.emit(src, kind);
        let next = emitted.advance(src).restart();
        lemma_emit_orderly(src, st, kind);
        lemma_advance_to_orderly(src, emitted, st.index + 1);
        lemma_restart_orderly(src, emitted.advance(src));
        assert(next.pending_text(src) =~= Seq::<char>::empty());
        lemma_values_are_digit_runs(src, next, kind);
        let last = scan_values(src, st, kind);
        let token = st.pending(src, kind);
        assert(next.tokens[st.tokens.len() as int] == token);
        assert(token.covers(st.start_index, st.index));
        assert forall|k: int| st.tokens.len() <= k < last.tokens.len() implies (
        #[trigger] last.tokens[k]).kind == kind && exists|from: int, to: int|
            last.tokens[k].covers(from, to) && all_digits(src.subrange(from, to)) by {
            if k == st.tokens.len() {
                assert(last.tokens[k] == token);
                assert(token.covers(st.start_index, st.index) && all_digits(
                    src.subrange(st.start_index, st.index),
                ));
            }
        }
        assert forall|k: int| 0 <= k < st.tokens.len() implies last.tokens[k] == st.tokens[k] by {
            assert(next.tokens[k] == st.tokens[k]);
        }
    }
}

/// The state behind a character and a token of the given kind.
proof fn lemma_single_orderly(src: Seq<char>, st: ScanState, kind: TokenKind)
    requires
        orderly(st, src),
        st.index < src.len(),
        is_lexeme_kind(kind),
    ensures
        orderly(st.advance(src).emit(src, kind), src),
{
    lemma_advance_to_orderly(src, st, st.index + 1);
    lemma_emit_orderly(src, st.advance(src), kind);
}

/// The state behind `%` and the letter of a terminal is orderly.
pub proof fn lemma_marked_orderly(src: Seq<char>, st: ScanState, letter: TokenKind)
    requires
        orderly(st, src),
        0 <= st.index < src.len(),
        st.index + 1 < src.len(),
        is_lexeme_kind(letter),
    ensures
        orderly(
            st.advance(src).emit(src, TokenKind::Mod).advance(src).emit(src, letter),
            src,
        ),
{
    lemma_single_orderly(src, st, TokenKind::Mod);
    lemma_single_orderly(src, st.advance(src).emit(src, TokenKind::Mod), letter);
}

proof fn lemma_terminal_orderly(src: Seq<char>, extended: bool, st: ScanState)
    requires
        orderly(st, src),
        0 <= st.index < src.len(),
        src[st.index] == '%',
    ensures
        orderly(scan_lexeme(src, extended, st).state, src),
{
    lemma_single_orderly(src, st, TokenKind::Mod);
    let marked = st.advance(src).emit(src, TokenKind::Mod);
    if marked.index < src.len() {
        let c = src[marked.index];
        if c == 'b' {
            lemma_single_orderly(src, marked, TokenKind::TerminalBinary);
            let lettered = marked.advance(src).emit(src, TokenKind::TerminalBinary);
            lemma_values_orderly(src, lettered, TokenKind::Binary);
            lemma_emit_orderly(src, scan_values(src, lettered, TokenKind::Binary), TokenKind::Binary);
        } else if c == 'd' {
            lemma_single_orderly(src, marked, TokenKind::TerminalDecimal);
            let lettered = marked.advance(src).emit(src, TokenKind::TerminalDecimal);
            lemma_values_orderly(src, lettered, TokenKind::Decimal);
            lemma_emit_orderly(
                src,
                scan_values(src, lettered, TokenKind::Decimal),
                TokenKind::Decimal,
            );
        } else if c == 'x' {
            lemma_single_orderly(src, marked, TokenKind::TerminalHexadecimal);
            let lettered = marked.advance(src).emit(src, TokenKind::TerminalHexadecimal);
            if lettered.index + 2 <= src.len() {
                lemma_advance_to_orderly(src, lettered, lettered.index + 1);
                let one = lettered.advance(src);
                lemma_advance_to_orderly(src, one, one.index + 1);
                let pair = one.advance(src);
                lemma_run_end_bounds(src, CharClass::HexDigit, pair.index);
                lemma_advance_to_orderly(
                    src,
                    pair,
                    run_end(src, CharClass::HexDigit, pair.index),
                );
                lemma_emit_orderly(src, pair, TokenKind::Hexadecimal);
                lemma_emit_orderly(
                    src,
                    pair.skip_run(src, CharClass::HexDigit),
                    TokenKind::Hexadecimal,
                );
            }
        }
    }
}

/// Scanning one lexeme leads from an orderly state to an orderly state.
pub proof fn lemma_scan_lexeme_orderly(src: Seq<char>, extended: bool, st: ScanState)
    requires
        orderly(st, src),
        0 <= st.index < src.len(),
    ensures
        orderly(scan_lexeme(src, extended, st).state, src),
{
    let c = src[st.index];
    let i = st.index;
    lemma_advance_to_orderly(src, st, i + 1);
    let one = st.advance(src);
    if bracket_kind(c) is Some {
        let kind = bracket_kind(c)->0;
        lemma_single_orderly(src, st.push_open(family(kind)), kind);
        lemma_single_orderly(src, st.pop_open(), kind);
    } else if single_kind(c) is Some {
        lemma_single_orderly(src, st, single_kind(c)->0);
    } else if c == '=' {
        lemma_emit_orderly(src, one, TokenKind::Equal);
        if one.index < src.len() {
            lemma_single_orderly(src, one, TokenKind::EqualSlash);
        }
    } else if c == ';' {
        lemma_run_end_bounds(src, CharClass::InLine, i);
        lemma_advance_to_orderly(src, st, run_end(src, CharClass::InLine, i));
    } else if c == '%' {
        lemma_terminal_orderly(src, extended, st);
    } else if c == ' ' || c == '\t' {
        lemma_run_end_bounds(src, CharClass::Blank, i);
        lemma_advance_to_orderly(src, st, run_end(src, CharClass::Blank, i));
        lemma_emit_orderly(src, st.skip_run(src, CharClass::Blank), TokenKind::Whitespace);
    } else if c == '\n' || c == '\r' {
        lemma_new_line_orderly(src, one);
        if one.index < src.len() {
            lemma_advance_to_orderly(src, one, one.index + 1);
            lemma_new_line_orderly(src, one.advance(src));
        }
    } else if c == '"' {
        lemma_run_end_bounds(src, CharClass::InString, i + 1);
        let to = run_end(src, CharClass::InString, i + 1);
        lemma_advance_to_orderly(src, one, to);
        let body = one.skip_run(src, CharClass::InString);
        if body.index < src.len() {
            lemma_single_orderly(src, body, TokenKind::String);
        }
    } else if is_digit(c) {
        lemma_run_end_bounds(src, CharClass::Digit, i);
        lemma_advance_to_orderly(src, st, run_end(src, CharClass::Digit, i));
        lemma_emit_orderly(src, st.skip_run(src, CharClass::Digit), TokenKind::Number);
    } else if is_letter(c) {
        lemma_run_end_bounds(src, CharClass::NameChar, i + 1);
        lemma_advance_to_orderly(src, one, run_end(src, CharClass::NameChar, i + 1));
        lemma_emit_orderly(src, one.skip_run(src, CharClass::NameChar), TokenKind::Identifier);
    }
}

/// A scan leads from an orderly state to an orderly state at the end of the
/// text.
pub proof fn lemma_scan_all_orderly(
    src: Seq<char>,
    extended: bool,
    st: ScanState,
    found: Seq<ReportView>,
)
    requires
        orderly(st, src),
    ensures
        orderly(scan_all(src, extended, st, found).0, src),
        scan_all(src, extended, st, found).0.index == src.len(),
        scan_all(src, extended, st, found).1.len() >= found.len(),
    decreases src.len() - st.index,
{
    if st.index < src.len() {
        let out = scan_lexeme(src, extended, st);
        lemma_scan_lexeme_progress(src, extended, st);
        lemma_scan_lexeme_orderly(src, extended, st);
        lemma_scan_all_orderly(src, extended, out.state, with_report(found, out.report));
    }
}

/// The state in which the scan of a text begins is orderly.
pub proof fn lemma_initial_orderly(src: Seq<char>)
    ensures
        orderly(ScanState::initial(src), src),
{
}

/// What a scan returns that goes on from an orderly state is either tokens
/// or findings, never both and never nothing.
///
/// The findings are at least one. The tokens are at least one: the last is
/// the end-of-input token, of length zero at the end of the text, and there
/// is no other; none is a family of brackets. Every token was cut from the
/// text between two of its characters, and the tokens come in the order of
/// the text and do not overlap.
pub proof fn lemma_result_of_orderly_scan(src: Seq<char>, extended: bool, st: ScanState)
    requires
        orderly(st, src),
    ensures
        match tokenize_from(src, extended, st) {
            Ok(tokens) => {
                &&& tokens.len() >= 1
                &&& tokens.last().kind == TokenKind::EOF
                &&& tokens.last().length == 0
                &&& tokens.last().pos.offset == byte_offset(src, src.len() as int)
                &&& forall|k: int|
                    0 <= k < tokens.len() - 1 ==> is_lexeme_kind((#[trigger] tokens[k]).kind)
                &&& forall|k: int|
                    0 <= k < tokens.len() ==> (#[trigger] tokens[k]).source == src
                        && tokens[k].on_boundaries()
                &&& in_text_order(tokens)
            },
            Err(found) => found.len() >= 1,
        },
{
    let none = Seq::<ReportView>::empty();
    lemma_scan_all_orderly(src, extended, st, none);
    let (last, found) = scan_all(src, extended, st, none);
    let flushed = last.restart();
    lemma_restart_orderly(src, last);
    let end = flushed.pending(src, TokenKind::EOF);
    lemma_covered_lexeme(end, last.index, last.index);
    let tokens = last.emit_eof(src).tokens;
    assert(tokens == last.tokens.push(end));
    assert forall|k: int| 0 <= k < tokens.len() implies (#[trigger] tokens[k]).source == src
        && tokens[k].on_boundaries() by {
        if k < last.tokens.len() {
            assert(tokens[k] == last.tokens[k]);
        }
    }
    assert forall|k: int| 0 <= k < tokens.len() - 1 implies is_lexeme_kind(
        (#[trigger] tokens[k]).kind,
    ) by {
        assert(tokens[k] == last.tokens[k]);
    }
    assert forall|k: int, m: int| 0 <= k < m < tokens.len() implies token_end(
        #[trigger] tokens[k],
    ) <= (#[trigger] tokens[m]).pos.offset by {
        assert(tokens[k] == last.tokens[k]);
        if m < last.tokens.len() {
            assert(tokens[m] == last.tokens[m]);
        } else {
            lemma_offset_grows(src, last.start_index, last.index);
        }
    }
}

/// What the scan of a text returns is either tokens or findings, never both
/// and never nothing: see [`lemma_result_of_orderly_scan`].
pub proof fn lemma_result_of_scan(src: Seq<char>, extended: bool)
    ensures
        match tokenize_text(src, extended) {
            Ok(tokens) => {
                &&& tokens.len() >= 1
                &&& tokens.last().kind == TokenKind::EOF
                &&& tokens.last().length == 0
                &&& tokens.last().pos.offset == byte_offset(src, src.len() as int)
                &&& forall|k: int|
                    0 <= k < tokens.len() - 1 ==> is_lexeme_kind((#[trigger] tokens[k]).kind)
                &&& forall|k: int|
                    0 <= k < tokens.len() ==> (#[trigger] tokens[k]).source == src
                        && tokens[k].on_boundaries()
                &&& in_text_order(tokens)
            },
            Err(found) => found.len() >= 1,
        },
{
    lemma_initial_orderly(src);
    lemma_result_of_orderly_scan(src, extended, ScanState::initial(src));
}

} // verus!
