//! Two texts that are joined by a line feed are scanned one behind the
//! other.

use vstd::prelude::*;
use crate::order::{
    lemma_initial_orderly, lemma_marked_orderly, lemma_scan_all_orderly,
    lemma_scan_lexeme_orderly, lemma_values_orderly, orderly,
};
use crate::report::ReportView;
use crate::resume::{
    at_line_start, begun_alone, lemma_scan_goes_on_line_by_line, setting_of, Setting,
};
use crate::scan::{
    bracket_kind, family, in_class, is_digit, is_letter, is_separator, lemma_run_end_bounds,
    lemma_scan_lexeme_progress, run_end, scan_all, scan_lexeme, scan_values, single_kind,
    tokenize_text, CharClass, Outcome, ScanState,
};
use crate::text::{byte_offset, lemma_offset_of_prefix, span_width};
use crate::token::TokenView;
use crate::token_kind::TokenKind;

verus! {

/// A token with the same kind, place and length, cut from another text.
pub open spec fn token_in(t: TokenView, src: Seq<char>) -> TokenView {
    TokenView { source: src, ..t }
}

/// Tokens with the same kinds, places and lengths, cut from another text.
pub open spec fn tokens_in(tokens: Seq<TokenView>, src: Seq<char>) -> Seq<TokenView> {
    tokens.map_values(|t: TokenView| token_in(t, src))
}

/// A state of the scan of a text as a state of the scan of a text that
/// begins with it.
pub open spec fn state_in(st: ScanState, src: Seq<char>) -> ScanState {
    ScanState { tokens: tokens_in(st.tokens, src), ..st }
}

/// The outcome of a lexeme of a text as that of a lexeme of a text that
/// begins with it.
pub open spec fn outcome_in(out: Outcome, src: Seq<char>) -> Outcome {
    Outcome { state: state_in(out.state, src), report: out.report }
}

/// The text `whole` begins with `a`, and a line feed follows `a` in it.
pub open spec fn ends_a_line_of(a: Seq<char>, whole: Seq<char>) -> bool {
    &&& a.len() < whole.len()
    &&& forall|k: int| 0 <= k < a.len() ==> #[trigger] whole[k] == a[k]
    &&& whole[a.len() as int] == '\n'
}

proof fn lemma_run_end_in(a: Seq<char>, whole: Seq<char>, class: CharClass, i: int)
    requires
        ends_a_line_of(a, whole),
        0 <= i <= a.len(),
        class == CharClass::InString ==> run_end(a, class, i) < a.len(),
    ensures
        run_end(whole, class, i) == run_end(a, class, i),
    decreases a.len() - i,
{
    if i < a.len() {
        assert(whole[i] == a[i]);
        if in_class(class, a[i]) {
            lemma_run_end_in(a, whole, class, i + 1);
        }
    }
}

proof fn lemma_span_in(a: Seq<char>, whole: Seq<char>, i: int, j: int)
    requires
        ends_a_line_of(a, whole),
        0 <= i <= a.len(),
        0 <= j <= a.len(),
    ensures
        span_width(whole, i, j) == span_width(a, i, j),
        byte_offset(whole, i) == byte_offset(a, i),
{
    lemma_offset_of_prefix(whole, a, i);
    lemma_offset_of_prefix(whole, a, j);
}

proof fn lemma_advance_to_in(a: Seq<char>, whole: Seq<char>, st: ScanState, to: int)
    requires
        ends_a_line_of(a, whole),
        0 <= st.index <= a.len(),
        0 <= to <= a.len(),
    ensures
        state_in(st.advance_to(a, to), whole) == state_in(st, whole).advance_to(whole, to),
{
    lemma_span_in(a, whole, st.index, to);
}

proof fn lemma_skip_run_in(a: Seq<char>, whole: Seq<char>, st: ScanState, class: CharClass)
    requires
        ends_a_line_of(a, whole),
        0 <= st.index <= a.len(),
        class == CharClass::InString ==> run_end(a, class, st.index) < a.len(),
    ensures
        state_in(st.skip_run(a, class), whole) == state_in(st, whole).skip_run(whole, class),
        st.index <= st.skip_run(a, class).index <= a.len(),
{
    lemma_run_end_bounds(a, class, st.index);
    lemma_run_end_in(a, whole, class, st.index);
    lemma_advance_to_in(a, whole, st, run_end(a, class, st.index));
}

proof fn lemma_emit_in(a: Seq<char>, whole: Seq<char>, st: ScanState, kind: TokenKind)
    ensures
        state_in(st.emit(a, kind), whole) == state_in(st, whole).emit(whole, kind),
{
    let token = st.pending(a, kind);
    assert(tokens_in(st.tokens.push(token), whole) =~= tokens_in(st.tokens, whole).push(
        token_in(token, whole),
    ));
}

proof fn lemma_new_line_in(a: Seq<char>, whole: Seq<char>, st: ScanState)
    requires
        ends_a_line_of(a, whole),
        0 <= st.index <= a.len(),
    ensures
        state_in(st.new_line(a), whole) == state_in(st, whole).new_line(whole),
{
    lemma_run_end_bounds(a, CharClass::InLine, st.index);
    lemma_run_end_in(a, whole, CharClass::InLine, st.index);
    let end = run_end(a, CharClass::InLine, st.index);
    assert(a.subrange(st.index, end) =~= whole.subrange(st.index, end));
}

proof fn lemma_single_in(a: Seq<char>, whole: Seq<char>, st: ScanState, kind: TokenKind)
    requires
        ends_a_line_of(a, whole),
        0 <= st.index < a.len(),
    ensures
        state_in(st.advance(a).emit(a, kind), whole) == state_in(st, whole).advance(whole).emit(
            whole,
            kind,
        ),
{
    lemma_advance_to_in(a, whole, st, st.index + 1);
    lemma_emit_in(a, whole, st.advance(a), kind);
}

proof fn lemma_values_in(a: Seq<char>, whole: Seq<char>, st: ScanState, kind: TokenKind)
    requires
        ends_a_line_of(a, whole),
        0 <= st.index <= a.len(),
    ensures
        state_in(scan_values(a, st, kind), whole) == scan_values(whole, state_in(st, whole), kind),
    decreases a.len() - st.index,
{
    if st.index < a.len() {
        assert(whole[st.index] == a[st.index]);
        if is_digit(a[st.index]) {
            lemma_advance_to_in(a, whole, st, st.index + 1);
            lemma_values_in(a, whole, st.advance(a), kind);
        } else if is_separator(a[st.index]) {
            lemma_emit_in(a, whole, st, kind);
            lemma_advance_to_in(a, whole, st.emit(a, kind), st.index + 1);
            lemma_values_in(a, whole, st.emit(a, kind).advance(a).restart(), kind);
        }
    }
}

proof fn lemma_terminal_in(a: Seq<char>, whole: Seq<char>, extended: bool, st: ScanState)
    requires
        ends_a_line_of(a, whole),
        orderly(st, a),
        0 <= st.index < a.len(),
        a[st.index] == '%',
        scan_lexeme(a, extended, st).report is None,
    ensures
        scan_lexeme(whole, extended, state_in(st, whole)) == outcome_in(
            scan_lexeme(a, extended, st),
            whole,
        ),
{
    assert(whole[st.index] == a[st.index]);
    lemma_single_in(a, whole, st, TokenKind::Mod);
    let marked = st.advance(a).emit(a, TokenKind::Mod);
    if marked.index < a.len() {
        let c = a[marked.index];
        assert(c == whole[marked.index]);
        if c == 'b' || c == 'd' {
            let letter = if c == 'b' {
                TokenKind::TerminalBinary
            } else {
                TokenKind::TerminalDecimal
            };
            let kind = if c == 'b' {
                TokenKind::Binary
            } else {
                TokenKind::Decimal
            };
            lemma_single_in(a, whole, marked, letter);
            let lettered = marked.advance(a).emit(a, letter);
            lemma_values_in(a, whole, lettered, kind);
            let last = scan_values(a, lettered, kind);
            lemma_marked_orderly(a, st, letter);
            lemma_values_orderly(a, lettered, kind);
            lemma_emit_in(a, whole, last, kind);
            assert(last.pending_text(a) =~= state_in(last, whole).pending_text(whole));
        } else if c == 'x' {
            lemma_single_in(a, whole, marked, TokenKind::TerminalHexadecimal);
            let lettered = marked.advance(a).emit(a, TokenKind::TerminalHexadecimal);
            if lettered.index + 2 <= a.len() {
                assert(whole[lettered.index] == a[lettered.index]);
                assert(whole[lettered.index + 1] == a[lettered.index + 1]);
                lemma_advance_to_in(a, whole, lettered, lettered.index + 1);
                let one = lettered.advance(a);
                lemma_advance_to_in(a, whole, one, one.index + 1);
                let pair = one.advance(a);
                lemma_skip_run_in(a, whole, pair, CharClass::HexDigit);
                lemma_emit_in(a, whole, pair, TokenKind::Hexadecimal);
                lemma_emit_in(a, whole, pair.skip_run(a, CharClass::HexDigit), TokenKind::Hexadecimal);
            }
        }
    }
}

/// A lexeme of a text with which nothing is wrong is scanned in the same
/// way where a line feed and more text follow the text.
proof fn lemma_scan_lexeme_in(a: Seq<char>, whole: Seq<char>, extended: bool, st: ScanState)
    requires
        ends_a_line_of(a, whole),
        orderly(st, a),
        0 <= st.index < a.len(),
        scan_lexeme(a, extended, st).report is None,
    ensures
        scan_lexeme(whole, extended, state_in(st, whole)) == outcome_in(
            scan_lexeme(a, extended, st),
            whole,
        ),
{
    let c = a[st.index];
    let i = st.index;
    assert(c == whole[i]);
    assert(whole[a.len() as int] == '\n');
    lemma_advance_to_in(a, whole, st, i + 1);
    let one = st.advance(a);
    if bracket_kind(c) is Some {
        let kind = bracket_kind(c)->0;
        lemma_single_in(a, whole, st.push_open(family(kind)), kind);
        lemma_single_in(a, whole, st.pop_open(), kind);
    } else if single_kind(c) is Some {
        lemma_single_in(a, whole, st, single_kind(c)->0);
    } else if c == '=' {
        lemma_emit_in(a, whole, one, TokenKind::Equal);
        if one.index < a.len() {
            assert(whole[one.index] == a[one.index]);
            lemma_single_in(a, whole, one, TokenKind::EqualSlash);
        }
    } else if c == ';' {
        lemma_skip_run_in(a, whole, st, CharClass::InLine);
    } else if c == '%' {
        lemma_terminal_in(a, whole, extended, st);
    } else if c == ' ' || c == '\t' {
        lemma_skip_run_in(a, whole, st, CharClass::Blank);
        lemma_emit_in(a, whole, st.skip_run(a, CharClass::Blank), TokenKind::Whitespace);
    } else if c == '\n' || c == '\r' {
        lemma_new_line_in(a, whole, one);
        if one.index < a.len() {
            assert(whole[one.index] == a[one.index]);
            lemma_advance_to_in(a, whole, one, one.index + 1);
            lemma_new_line_in(a, whole, one.advance(a));
        }
    } else if c == '"' {
        lemma_run_end_bounds(a, CharClass::InString, i + 1);
        lemma_skip_run_in(a, whole, one, CharClass::InString);
        let body = one.skip_run(a, CharClass::InString);
        lemma_single_in(a, whole, body, TokenKind::String);
    } else if is_digit(c) {
        lemma_skip_run_in(a, whole, st, CharClass::Digit);
        lemma_emit_in(a, whole, st.skip_run(a, CharClass::Digit), TokenKind::Number);
    } else if is_letter(c) {
        lemma_skip_run_in(a, whole, one, CharClass::NameChar);
        lemma_emit_in(a, whole, one.skip_run(a, CharClass::NameChar), TokenKind::Identifier);
    }
}

/// The scan of a text with which nothing is wrong is the beginning of the
/// scan of a text in which a line feed and more text follow it.
proof fn lemma_scan_all_in(
    a: Seq<char>,
    whole: Seq<char>,
    extended: bool,
    st: ScanState,
    found: Seq<ReportView>,
)
    requires
        ends_a_line_of(a, whole),
        orderly(st, a),
        scan_all(a, extended, st, Seq::empty()).1.len() == 0,
    ensures
        scan_all(whole, extended, state_in(st, whole), found) == scan_all(
            whole,
            extended,
            state_in(scan_all(a, extended, st, Seq::empty()).0, whole),
            found,
        ),
    decreases a.len() - st.index,
{
    if st.index < a.len() {
        let out = scan_lexeme(a, extended, st);
        lemma_scan_lexeme_progress(a, extended, st);
        lemma_scan_lexeme_orderly(a, extended, st);
        let none = Seq::<ReportView>::empty();
        if out.report is Some {
            lemma_scan_all_orderly(a, extended, out.state, none.push(out.report->0));
        }
        lemma_scan_lexeme_in(a, whole, extended, st);
        lemma_scan_all_in(a, whole, extended, out.state, found);
    }
}

/// Two texts with which nothing is wrong, joined by a line feed, are
/// scanned one behind the other.
///
/// The tokens of the joined text are those of the first text without its
/// end-of-input token, at the places that they have there, and behind them
/// those of the second text: each of the same kind and length and in the
/// same column as in the second text by itself, as many lines further down
/// as the first text has, and as many bytes further on as the first text
/// and the line feed take.
pub proof fn lemma_scan_of_two_texts(a: Seq<char>, b: Seq<char>, extended: bool)
    requires
        tokenize_text(a, extended) is Ok,
        tokenize_text(b, extended) is Ok,
    ensures
        ({
            let whole = a.push('\n') + b;
            let first = tokenize_text(a, extended)->Ok_0;
            let second = tokenize_text(b, extended)->Ok_0;
            let end = first.last();
            let below = Setting {
                src: whole,
                chars: a.len() as int + 1,
                bytes: end.pos.offset + 1,
                lines: end.pos.line,
                before: Seq::empty(),
            };
            &&& first.len() >= 1
            &&& tokenize_text(whole, extended) == Ok::<Seq<TokenView>, Seq<ReportView>>(
                tokens_in(first.drop_last(), whole) + below.tokens(second),
            )
        }),
{
    let whole = a.push('\n') + b;
    let none = Seq::<ReportView>::empty();
    assert(ends_a_line_of(a, whole));
    // The first text.
    lemma_initial_orderly(a);
    lemma_scan_all_orderly(a, extended, ScanState::initial(a), none);
    let (last_a, found_a) = scan_all(a, extended, ScanState::initial(a), none);
    assert(found_a.len() == 0 && last_a.open.len() == 0);
    let first = tokenize_text(a, extended)->Ok_0;
    let end = first.last();
    assert(first == last_a.tokens.push(end));
    assert(first.drop_last() =~= last_a.tokens);
    // The joined text begins as the first text.
    lemma_run_end_bounds(a, CharClass::InLine, 0);
    lemma_run_end_in(a, whole, CharClass::InLine, 0);
    assert(a.subrange(0, run_end(a, CharClass::InLine, 0)) =~= whole.subrange(
        0,
        run_end(a, CharClass::InLine, 0),
    ));
    assert(tokens_in(ScanState::initial(a).tokens, whole) =~= Seq::<TokenView>::empty());
    assert(state_in(ScanState::initial(a), whole) == ScanState::initial(whole));
    lemma_scan_all_in(a, whole, extended, ScanState::initial(a), none);
    // The line feed between the two.
    let mid = state_in(last_a, whole);
    lemma_span_in(a, whole, a.len() as int, a.len() as int);
    let line = mid.advance(whole).new_line(whole);
    assert(scan_lexeme(whole, extended, mid).state == line);
    assert(scan_lexeme(whole, extended, mid).report is None);
    assert(scan_all(whole, extended, mid, none) == scan_all(whole, extended, line, none));
    assert(at_line_start(line, whole));
    // The second text.
    assert(whole.skip(a.len() as int + 1) =~= b);
    assert(line.index == a.len() + 1);
    assert(line.open =~= Seq::<TokenKind>::empty());
    assert(begun_alone(line, whole) == ScanState::initial(b));
    lemma_scan_goes_on_line_by_line(whole, extended, line);
    let at = setting_of(line, whole);
    let (last_b, found_b) = scan_all(b, extended, ScanState::initial(b), none);
    assert(found_b.len() == 0 && last_b.open.len() == 0);
    let (last, found) = scan_all(whole, extended, line, none);
    assert(found.len() == 0);
    assert(last == at.state(last_b));
    let second = tokenize_text(b, extended)->Ok_0;
    let end_b = second.last();
    assert(second == last_b.tokens.push(end_b));
    let below = Setting {
        src: whole,
        chars: a.len() as int + 1,
        bytes: end.pos.offset + 1,
        lines: end.pos.line,
        before: Seq::empty(),
    };
    let result = last.emit_eof(whole).tokens;
    assert(result == last.tokens.push(at.token(end_b)));
    assert(at.tokens(second) =~= at.tokens(last_b.tokens).push(at.token(end_b)));
    assert(at.tokens(second) =~= below.tokens(second));
    assert(result =~= tokens_in(first.drop_last(), whole) + below.tokens(second));
}

} // verus!
