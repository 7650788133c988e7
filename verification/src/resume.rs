//! A scan that has come to the start of a line goes on as a scan of the rest
//! of the text goes by itself.

use vstd::prelude::*;
use crate::order::{
    is_family, lemma_marked_orderly, lemma_scan_lexeme_orderly, lemma_values_orderly, orderly,
};
use crate::position::Location;
use crate::report::ReportView;
use crate::scan::{
    bracket_kind, family, is_digit, is_letter, is_separator, lemma_run_end_bounds,
    lemma_scan_lexeme_progress, run_end, scan_all, scan_lexeme, scan_values, single_kind,
    with_report, CharClass, Outcome, ScanState,
};
use crate::text::{byte_offset, lemma_offset_of_suffix, span_width};
use crate::token::TokenView;
use crate::token_kind::TokenKind;

verus! {

/// How a text lies in a longer one: behind `chars` characters, which take
/// `bytes` bytes and end `lines` lines; and the tokens that the scan of the
/// longer text found in what lies before.
pub struct Setting {
    /// The longer text.
    pub src: Seq<char>,
    /// The number of characters before the text.
    pub chars: int,
    /// The number of bytes before the text.
    pub bytes: int,
    /// The number of lines before the text.
    pub lines: int,
    /// The tokens of what lies before the text.
    pub before: Seq<TokenView>,
}

impl Setting {
    /// The text `tail` is what the longer text holds from `chars` on.
    pub open spec fn holds(self, tail: Seq<char>) -> bool {
        &&& 0 <= self.chars <= self.src.len()
        &&& tail == self.src.skip(self.chars)
        &&& self.bytes == byte_offset(self.src, self.chars)
    }

    /// A place of the text as a place of the longer text: so many lines
    /// further down and bytes further on, in the same column.
    pub open spec fn place(self, p: Location) -> Location {
        Location { line: p.line + self.lines, column: p.column, offset: p.offset + self.bytes }
    }

    /// A token of the text as a token of the longer text.
    pub open spec fn token(self, t: TokenView) -> TokenView {
        TokenView { kind: t.kind, pos: self.place(t.pos), length: t.length, source: self.src }
    }

    /// Tokens of the text as tokens of the longer text.
    pub open spec fn tokens(self, tokens: Seq<TokenView>) -> Seq<TokenView> {
        tokens.map_values(|t: TokenView| self.token(t))
    }

    /// A finding in the text as a finding in the longer text.
    pub open spec fn report(self, r: ReportView) -> ReportView {
        ReportView {
            kind: r.kind,
            pos: match r.pos {
                Some(p) => Some(self.place(p)),
                None => None,
            },
            line: r.line,
        }
    }

    /// Findings in the text as findings in the longer text.
    pub open spec fn reports(self, found: Seq<ReportView>) -> Seq<ReportView> {
        found.map_values(|r: ReportView| self.report(r))
    }

    /// A state of the scan of the text as a state of the scan of the longer
    /// text.
    pub open spec fn state(self, st: ScanState) -> ScanState {
        ScanState {
            index: st.index + self.chars,
            start_index: st.start_index + self.chars,
            start: self.place(st.start),
            end: self.place(st.end),
            line: st.line,
            open: st.open,
            tokens: self.before + self.tokens(st.tokens),
        }
    }

    /// The outcome of a lexeme of the text as that of a lexeme of the longer
    /// text.
    pub open spec fn outcome(self, out: Outcome) -> Outcome {
        Outcome {
            state: self.state(out.state),
            report: match out.report {
                Some(r) => Some(self.report(r)),
                None => None,
            },
        }
    }
}

proof fn lemma_run_end_moved(at: Setting, tail: Seq<char>, class: CharClass, i: int)
    requires
        at.holds(tail),
        0 <= i <= tail.len(),
    ensures
        run_end(at.src, class, i + at.chars) == run_end(tail, class, i) + at.chars,
    decreases tail.len() - i,
{
    if i < tail.len() {
        assert(tail[i] == at.src[i + at.chars]);
        lemma_run_end_moved(at, tail, class, i + 1);
    }
}

proof fn lemma_span_moved(at: Setting, tail: Seq<char>, i: int, j: int)
    requires
        at.holds(tail),
        0 <= i <= tail.len(),
        0 <= j <= tail.len(),
    ensures
        span_width(at.src, i + at.chars, j + at.chars) == span_width(tail, i, j),
{
    lemma_offset_of_suffix(at.src, at.chars, at.chars + i);
    lemma_offset_of_suffix(at.src, at.chars, at.chars + j);
}

proof fn lemma_advance_to_moved(at: Setting, tail: Seq<char>, st: ScanState, to: int)
    requires
        at.holds(tail),
        0 <= st.index <= tail.len(),
        0 <= to <= tail.len(),
    ensures
        at.state(st.advance_to(tail, to)) == at.state(st).advance_to(at.src, to + at.chars),
{
    lemma_span_moved(at, tail, st.index, to);
}

proof fn lemma_skip_run_moved(at: Setting, tail: Seq<char>, st: ScanState, class: CharClass)
    requires
        at.holds(tail),
        0 <= st.index <= tail.len(),
    ensures
        at.state(st.skip_run(tail, class)) == at.state(st).skip_run(at.src, class),
        st.index <= st.skip_run(tail, class).index <= tail.len(),
{
    lemma_run_end_bounds(tail, class, st.index);
    lemma_run_end_moved(at, tail, class, st.index);
    lemma_advance_to_moved(at, tail, st, run_end(tail, class, st.index));
}

proof fn lemma_emit_moved(at: Setting, tail: Seq<char>, st: ScanState, kind: TokenKind)
    requires
        at.holds(tail),
    ensures
        at.state(st.emit(tail, kind)) == at.state(st).emit(at.src, kind),
{
    let token = st.pending(tail, kind);
    assert(at.token(token) == at.state(st).pending(at.src, kind));
    assert(at.tokens(st.tokens.push(token)) =~= at.tokens(st.tokens).push(at.token(token)));
    assert(at.before + at.tokens(st.tokens).push(at.token(token)) =~= (at.before + at.tokens(
        st.tokens,
    )).push(at.token(token)));
}

proof fn lemma_new_line_moved(at: Setting, tail: Seq<char>, st: ScanState)
    requires
        at.holds(tail),
        0 <= st.index <= tail.len(),
    ensures
        at.state(st.new_line(tail)) == at.state(st).new_line(at.src),
{
    lemma_run_end_bounds(tail, CharClass::InLine, st.index);
    lemma_run_end_moved(at, tail, CharClass::InLine, st.index);
    let end = run_end(tail, CharClass::InLine, st.index);
    assert(tail.subrange(st.index, end) =~= at.src.subrange(
        st.index + at.chars,
        end + at.chars,
    ));
}

proof fn lemma_single_moved(at: Setting, tail: Seq<char>, st: ScanState, kind: TokenKind)
    requires
        at.holds(tail),
        0 <= st.index < tail.len(),
    ensures
        at.state(st.advance(tail).emit(tail, kind)) == at.state(st).advance(at.src).emit(
            at.src,
            kind,
        ),
{
    lemma_advance_to_moved(at, tail, st, st.index + 1);
    lemma_emit_moved(at, tail, st.advance(tail), kind);
}

proof fn lemma_values_moved(at: Setting, tail: Seq<char>, st: ScanState, kind: TokenKind)
    requires
        at.holds(tail),
        0 <= st.index <= tail.len(),
    ensures
        at.state(scan_values(tail, st, kind)) == scan_values(at.src, at.state(st), kind),
    decreases tail.len() - st.index,
{
    if st.index < tail.len() {
        assert(tail[st.index] == at.src[st.index + at.chars]);
        if is_digit(tail[st.index]) {
            lemma_advance_to_moved(at, tail, st, st.index + 1);
            lemma_values_moved(at, tail, st.advance(tail), kind);
        } else if is_separator(tail[st.index]) {
            lemma_emit_moved(at, tail, st, kind);
            lemma_advance_to_moved(at, tail, st.emit(tail, kind), st.index + 1);
            lemma_values_moved(at, tail, st.emit(tail, kind).advance(tail).restart(), kind);
        }
    }
}

proof fn lemma_terminal_moved(at: Setting, tail: Seq<char>, extended: bool, st: ScanState)
    requires
        at.holds(tail),
        orderly(st, tail),
        0 <= st.index < tail.len(),
        tail[st.index] == '%',
    ensures
        at.outcome(scan_lexeme(tail, extended, st)) == scan_lexeme(at.src, extended, at.state(st)),
{
    assert(tail[st.index] == at.src[st.index + at.chars]);
    lemma_single_moved(at, tail, st, TokenKind::Mod);
    let marked = st.advance(tail).emit(tail, TokenKind::Mod);
    if marked.index < tail.len() {
        let c = tail[marked.index];
        assert(c == at.src[marked.index + at.chars]);
        if c == 'b' || c == 'd' {
            let letter = if c == 'b' {
                TokenKind::TerminalBinary
            } else {
                TokenKind::TerminalDecimal
            };
            let kind = if c == 'b' {
                TokenKind::Binary
            } else {
                TokenKind::Decimal
            };
            lemma_single_moved(at, tail, marked, letter);
            let lettered = marked.advance(tail).emit(tail, letter);
            lemma_values_moved(at, tail, lettered, kind);
            let last = scan_values(tail, lettered, kind);
            lemma_marked_orderly(tail, st, letter);
            lemma_values_orderly(tail, lettered, kind);
            lemma_emit_moved(at, tail, last, kind);
            assert(last.pending_text(tail) =~= at.state(last).pending_text(at.src));
        } else if c == 'x' {
            lemma_single_moved(at, tail, marked, TokenKind::TerminalHexadecimal);
            let lettered = marked.advance(tail).emit(tail, TokenKind::TerminalHexadecimal);
            if lettered.index + 2 <= tail.len() {
                assert(tail[lettered.index] == at.src[lettered.index + at.chars]);
                assert(tail[lettered.index + 1] == at.src[lettered.index + 1 + at.chars]);
                lemma_advance_to_moved(at, tail, lettered, lettered.index + 1);
                let one = lettered.advance(tail);
                lemma_advance_to_moved(at, tail, one, one.index + 1);
                let pair = one.advance(tail);
                lemma_skip_run_moved(at, tail, pair, CharClass::HexDigit);
                lemma_emit_moved(at, tail, pair, TokenKind::Hexadecimal);
                lemma_emit_moved(
                    at,
                    tail,
                    pair.skip_run(tail, CharClass::HexDigit),
                    TokenKind::Hexadecimal,
                );
            }
        }
    }
}

/// Scanning one lexeme of a text gives what scanning it in the longer text
/// gives, moved to its place there.
pub proof fn lemma_scan_lexeme_moved(at: Setting, tail: Seq<char>, extended: bool, st: ScanState)
    requires
        at.holds(tail),
        orderly(st, tail),
        0 <= st.index < tail.len(),
    ensures
        at.outcome(scan_lexeme(tail, extended, st)) == scan_lexeme(at.src, extended, at.state(st)),
{
    let c = tail[st.index];
    let i = st.index;
    assert(c == at.src[i + at.chars]);
    lemma_advance_to_moved(at, tail, st, i + 1);
    let one = st.advance(tail);
    if bracket_kind(c) is Some {
        let kind = bracket_kind(c)->0;
        lemma_single_moved(at, tail, st.push_open(family(kind)), kind);
        lemma_single_moved(at, tail, st.pop_open(), kind);
    } else if single_kind(c) is Some {
        lemma_single_moved(at, tail, st, single_kind(c)->0);
    } else if c == '=' {
        lemma_emit_moved(at, tail, one, TokenKind::Equal);
        if one.index < tail.len() {
            assert(tail[one.index] == at.src[one.index + at.chars]);
            lemma_single_moved(at, tail, one, TokenKind::EqualSlash);
        }
    } else if c == ';' {
        lemma_skip_run_moved(at, tail, st, CharClass::InLine);
    } else if c == '%' {
        lemma_terminal_moved(at, tail, extended, st);
    } else if c == ' ' || c == '\t' {
        lemma_skip_run_moved(at, tail, st, CharClass::Blank);
        lemma_emit_moved(at, tail, st.skip_run(tail, CharClass::Blank), TokenKind::Whitespace);
    } else if c == '\n' || c == '\r' {
        lemma_new_line_moved(at, tail, one);
        if one.index < tail.len() {
            assert(tail[one.index] == at.src[one.index + at.chars]);
            lemma_advance_to_moved(at, tail, one, one.index + 1);
            lemma_new_line_moved(at, tail, one.advance(tail));
        }
    } else if c == '"' {
        lemma_skip_run_moved(at, tail, one, CharClass::InString);
        let body = one.skip_run(tail, CharClass::InString);
        if body.index < tail.len() {
            lemma_single_moved(at, tail, body, TokenKind::String);
        }
    } else if is_digit(c) {
        lemma_skip_run_moved(at, tail, st, CharClass::Digit);
        lemma_emit_moved(at, tail, st.skip_run(tail, CharClass::Digit), TokenKind::Number);
    } else if is_letter(c) {
        lemma_skip_run_moved(at, tail, one, CharClass::NameChar);
        lemma_emit_moved(
            at,
            tail,
            one.skip_run(tail, CharClass::NameChar),
            TokenKind::Identifier,
        );
    }
}

/// The scan of a text from an orderly state gives what the scan of the
/// longer text gives from the state moved into it: the state at the end and
/// the findings, moved to their places in the longer text.
pub proof fn lemma_scan_all_moved(
    at: Setting,
    tail: Seq<char>,
    extended: bool,
    st: ScanState,
    found: Seq<ReportView>,
)
    requires
        at.holds(tail),
        orderly(st, tail),
    ensures
        scan_all(at.src, extended, at.state(st), at.reports(found)) == (
            at.state(scan_all(tail, extended, st, found).0),
            at.reports(scan_all(tail, extended, st, found).1),
        ),
    decreases tail.len() - st.index,
{
    if st.index < tail.len() {
        let out = scan_lexeme(tail, extended, st);
        lemma_scan_lexeme_progress(tail, extended, st);
        lemma_scan_lexeme_orderly(tail, extended, st);
        lemma_scan_lexeme_moved(at, tail, extended, st);
        let more = with_report(found, out.report);
        assert(at.reports(more) =~= with_report(at.reports(found), at.outcome(out).report));
        lemma_scan_all_moved(at, tail, extended, out.state, more);
    }
}

/// The state stands at the start of a line of `src`: no token is being
/// read, the column is 1, and the current line is the text up to the next
/// line feed. The state in which a scan begins is such a state, and so is the
/// state behind every end of line.
pub open spec fn at_line_start(st: ScanState, src: Seq<char>) -> bool {
    &&& 0 <= st.index <= src.len()
    &&& st.start_index == st.index
    &&& st.start == st.end
    &&& st.end.column == 1
    &&& st.end.offset == byte_offset(src, st.index)
    &&& st.line == src.subrange(st.index, run_end(src, CharClass::InLine, st.index))
    &&& forall|k: int| 0 <= k < st.open.len() ==> is_family(#[trigger] st.open[k])
}

/// The rest of the text, seen from a state of the scan of `src`: what lies
/// before it, and what was found there.
pub open spec fn setting_of(st: ScanState, src: Seq<char>) -> Setting {
    Setting {
        src,
        chars: st.index,
        bytes: st.end.offset,
        lines: st.end.line - 1,
        before: st.tokens,
    }
}

/// The state in which the scan of the rest of the text begins by itself,
/// with the brackets that are open in `st`.
pub open spec fn begun_alone(st: ScanState, src: Seq<char>) -> ScanState {
    ScanState { open: st.open, ..ScanState::initial(src.skip(st.index)) }
}

/// The state in which a scan begins stands at the start of a line.
pub proof fn lemma_scan_begins_at_line_start(src: Seq<char>)
    ensures
        at_line_start(ScanState::initial(src), src),
{
}

/// The state behind an end of line stands at the start of a line.
pub proof fn lemma_end_of_line_begins_a_line(src: Seq<char>, extended: bool, st: ScanState)
    requires
        orderly(st, src),
        0 <= st.index < src.len(),
        src[st.index] == '\n' || src[st.index] == '\r',
        scan_lexeme(src, extended, st).report is None,
    ensures
        at_line_start(scan_lexeme(src, extended, st).state, src),
{
    lemma_scan_lexeme_orderly(src, extended, st);
    lemma_scan_lexeme_progress(src, extended, st);
}

/// A scan that stands at the start of a line goes on as the scan of the
/// rest of the text goes by itself, begun with the same open brackets.
///
/// It comes to the same state and makes the same findings, but that every
/// place lies as many lines further down and bytes further on as lie before
/// the rest: the tokens that it adds are those of the rest, each of the
/// same kind and length and in the same column, and so are the findings.
pub proof fn lemma_scan_goes_on_line_by_line(src: Seq<char>, extended: bool, st: ScanState)
    requires
        at_line_start(st, src),
    ensures
        ({
            let rest = src.skip(st.index);
            let at = setting_of(st, src);
            let (last, found) = scan_all(src, extended, st, Seq::empty());
            let (alone, found_alone) = scan_all(
                rest,
                extended,
                begun_alone(st, src),
                Seq::empty(),
            );
            &&& last == at.state(alone)
            &&& last.tokens == st.tokens + at.tokens(alone.tokens)
            &&& found == at.reports(found_alone)
        }),
{
    let rest = src.skip(st.index);
    let at = setting_of(st, src);
    let fresh = begun_alone(st, src);
    let none = Seq::<ReportView>::empty();
    assert(at.holds(rest));
    lemma_run_end_bounds(rest, CharClass::InLine, 0);
    lemma_run_end_moved(at, rest, CharClass::InLine, 0);
    assert(rest.subrange(0, run_end(rest, CharClass::InLine, 0)) =~= src.subrange(
        st.index,
        run_end(src, CharClass::InLine, st.index),
    ));
    assert(at.tokens(fresh.tokens) =~= Seq::<TokenView>::empty());
    assert(at.before + at.tokens(fresh.tokens) =~= st.tokens);
    assert(at.state(fresh) == st);
    assert(at.reports(none) =~= none);
    assert(orderly(fresh, rest));
    lemma_scan_all_moved(at, rest, extended, fresh, none);
}

} // verus!
