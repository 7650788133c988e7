//! What holds of every scan.

use vstd::prelude::*;
use crate::report::ReportView;
use crate::report_kind::ReportKind;
use crate::scan::{
    bracket_kind, closes, conclude, family, lemma_run_end_bounds, lemma_run_end_stops, opens,
    scan_all, scan_lexeme, single_kind, tokenize_text, with_report, CharClass, ScanState,
};
use crate::text::span_width;
use crate::token::TokenView;
use crate::token_kind::TokenKind;

verus! {

/// The kinds of a sequence of tokens.
pub open spec fn token_kinds(tokens: Seq<TokenView>) -> Seq<TokenKind> {
    tokens.map_values(|t: TokenView| t.kind)
}

/// The kinds of a sequence of findings.
pub open spec fn report_kinds(found: Seq<ReportView>) -> Seq<ReportKind> {
    found.map_values(|r: ReportView| r.kind)
}

// ---------------------------------------------------------------------------
// Texts of symbols
// ---------------------------------------------------------------------------

/// A character that is a symbol by itself: a bracket, `.`, `-`, `*`, `/` or
/// `=`.
pub open spec fn is_symbol(c: char) -> bool {
    bracket_kind(c) is Some || single_kind(c) is Some || c == '='
}

/// A text that holds symbols only.
pub open spec fn symbols_only(src: Seq<char>) -> bool {
    forall|i: int| 0 <= i < src.len() ==> is_symbol(#[trigger] src[i])
}

/// The kind of token that a symbol is.
pub open spec fn symbol_kind(c: char) -> TokenKind {
    if bracket_kind(c) is Some {
        bracket_kind(c)->0
    } else if single_kind(c) is Some {
        single_kind(c)->0
    } else {
        TokenKind::Equal
    }
}

/// The kinds of the symbols of a text from index `i` on, one for each
/// character, but that `=` and a `/` right behind it are the one symbol `=/`.
pub open spec fn symbol_kinds(src: Seq<char>, i: int) -> Seq<TokenKind>
    decreases src.len() - i,
{
    if i < 0 || i >= src.len() {
        Seq::empty()
    } else if src[i] == '=' && i + 1 < src.len() && src[i + 1] == '/' {
        seq![TokenKind::EqualSlash] + symbol_kinds(src, i + 2)
    } else {
        seq![symbol_kind(src[i])] + symbol_kinds(src, i + 1)
    }
}

/// The open brackets behind a character, given those before it: an opener
/// adds its family, a closer takes the innermost away, whatever its family.
pub open spec fn open_behind(c: char, open: Seq<TokenKind>) -> Seq<TokenKind> {
    match bracket_kind(c) {
        None => open,
        Some(kind) => if opens(kind) {
            open.push(family(kind))
        } else if open.len() > 0 {
            open.drop_last()
        } else {
            open
        },
    }
}

/// What is wrong with a character as a closing bracket, given the open
/// brackets before it: nothing if it is no closer or closes the innermost.
pub open spec fn closer_fault(c: char, open: Seq<TokenKind>) -> Option<ReportKind> {
    match bracket_kind(c) {
        None => None,
        Some(kind) => if opens(kind) {
            None
        } else if open.len() == 0 {
            Some(ReportKind::UnexpectedClosingBracketError)
        } else if open.last() != family(kind) {
            Some(ReportKind::MismatchedClosingBracketError)
        } else {
            None
        },
    }
}

/// The faults of the closing brackets of a text from index `i` on, one for
/// each closer that does not close the innermost open bracket, given the
/// brackets that are open at `i`.
pub open spec fn bracket_faults(src: Seq<char>, i: int, open: Seq<TokenKind>) -> Seq<ReportKind>
    decreases src.len() - i,
{
    if i < 0 || i >= src.len() {
        Seq::empty()
    } else {
        let here = match closer_fault(src[i], open) {
            Some(kind) => seq![kind],
            None => Seq::empty(),
        };
        here + bracket_faults(src, i + 1, open_behind(src[i], open))
    }
}

/// The brackets that are open at the end of a text, given those that are
/// open at index `i`.
pub open spec fn open_at_end(src: Seq<char>, i: int, open: Seq<TokenKind>) -> Seq<TokenKind>
    decreases src.len() - i,
{
    if i < 0 || i >= src.len() {
        open
    } else {
        open_at_end(src, i + 1, open_behind(src[i], open))
    }
}

/// The brackets of a text are well nested: every closer closes the innermost
/// open bracket, and none is open at the end.
pub open spec fn well_nested(src: Seq<char>) -> bool {
    &&& bracket_faults(src, 0, Seq::empty()).len() == 0
    &&& open_at_end(src, 0, Seq::empty()).len() == 0
}

/// The scan of a text of symbols from any state: it ends at the end of the
/// text, it finds the faults of the closing brackets and nothing else, it
/// leaves open what the brackets leave open, and it emits one token for each
/// symbol.
proof fn lemma_scan_symbols(src: Seq<char>, extended: bool, st: ScanState, found: Seq<ReportView>)
    requires
        symbols_only(src),
        0 <= st.index <= src.len(),
    ensures
        ({
            let (last, all) = scan_all(src, extended, st, found);
            &&& last.index == src.len()
            &&& last.open == open_at_end(src, st.index, st.open)
            &&& report_kinds(all) == report_kinds(found) + bracket_faults(src, st.index, st.open)
            &&& token_kinds(last.tokens) == token_kinds(st.tokens) + symbol_kinds(src, st.index)
        }),
    decreases src.len() - st.index,
{
    let i = st.index;
    if i < src.len() {
        let c = src[i];
        assert(is_symbol(c));
        let out = scan_lexeme(src, extended, st);
        let next = out.state;
        let more = with_report(found, out.report);
        if c == '=' && i + 1 < src.len() && src[i + 1] == '/' {
            assert(is_symbol(src[i + 1]));
            assert(next.index == i + 2);
            assert(bracket_faults(src, i, st.open) =~= bracket_faults(src, i + 2, st.open)) by {
                assert(bracket_faults(src, i + 1, st.open) =~= bracket_faults(
                    src,
                    i + 2,
                    st.open,
                ));
            }
            assert(open_at_end(src, i, st.open) == open_at_end(src, i + 2, st.open)) by {
                assert(open_at_end(src, i + 1, st.open) == open_at_end(src, i + 2, st.open));
            }
        } else {
            assert(next.index == i + 1);
        }
        assert(next.open == open_behind(c, st.open));
        let here = match closer_fault(c, st.open) {
            Some(kind) => seq![kind],
            None => Seq::<ReportKind>::empty(),
        };
        assert(report_kinds(more) =~= report_kinds(found) + here);
        let emitted = if c == '=' && i + 1 < src.len() && src[i + 1] == '/' {
            TokenKind::EqualSlash
        } else {
            symbol_kind(c)
        };
        assert(token_kinds(next.tokens) =~= token_kinds(st.tokens).push(emitted));
        lemma_scan_symbols(src, extended, next, more);
        let (last, all) = scan_all(src, extended, st, found);
        assert((last, all) == scan_all(src, extended, next, more));
        assert(report_kinds(all) =~= report_kinds(found) + bracket_faults(src, i, st.open));
        assert(token_kinds(last.tokens) =~= token_kinds(st.tokens) + symbol_kinds(src, i));
    } else {
        assert(report_kinds(found) + bracket_faults(src, i, st.open) =~= report_kinds(found));
        assert(token_kinds(st.tokens) + symbol_kinds(src, i) =~= token_kinds(st.tokens));
    }
}

/// A text that holds symbols only is scanned symbol by symbol, and nothing
/// but its brackets can be wrong with it.
///
/// The findings are the faults of its closing brackets, one for each closer
/// that does not close the innermost open bracket, in their order, and then
/// one finding for the brackets that are left open, if any is, however many
/// they are. With well nested brackets there is no finding: the result is
/// then the tokens, whose kinds are those of the symbols, one for one, and
/// the end-of-input token behind them.
pub proof fn lemma_symbols_are_tokens(src: Seq<char>, extended: bool)
    requires
        symbols_only(src),
    ensures
        ({
            let faults = bracket_faults(src, 0, Seq::empty());
            let open = open_at_end(src, 0, Seq::empty());
            let unclosed = if open.len() > 0 {
                seq![ReportKind::UnclosedBracketError]
            } else {
                Seq::empty()
            };
            match tokenize_text(src, extended) {
                Ok(tokens) => well_nested(src) && token_kinds(tokens) == symbol_kinds(src, 0).push(
                    TokenKind::EOF,
                ),
                Err(found) => !well_nested(src) && report_kinds(found) == faults + unclosed,
            }
        }),
{
    let st = ScanState::initial(src);
    let none = Seq::<ReportView>::empty();
    lemma_scan_symbols(src, extended, st, none);
    let (last, all) = scan_all(src, extended, st, none);
    let faults = bracket_faults(src, 0, Seq::empty());
    assert(report_kinds(none) + faults =~= faults);
    assert(report_kinds(all) == faults);
    assert(all.len() == faults.len());
    assert(token_kinds(st.tokens) + symbol_kinds(src, 0) =~= symbol_kinds(src, 0));
    match tokenize_text(src, extended) {
        Ok(tokens) => {
            assert(tokens == last.emit_eof(src).tokens);
            assert(token_kinds(tokens) =~= token_kinds(last.tokens).push(TokenKind::EOF));
        },
        Err(found) => {
            if last.open.len() > 0 {
                let unclosed = last.finding(ReportKind::UnclosedBracketError, None);
                assert(found == all.push(unclosed));
                assert(report_kinds(found) =~= faults + seq![ReportKind::UnclosedBracketError]);
            } else {
                assert(found == all);
                assert(faults + Seq::<ReportKind>::empty() =~= faults);
            }
        },
    }
}

// ---------------------------------------------------------------------------
// Brackets in any text
// ---------------------------------------------------------------------------

/// In any state, a closing bracket that closes the innermost open bracket is
/// not found wrong, and any other is found wrong exactly once, at the place
/// where it stands: as unexpected where no bracket is open, as mismatched
/// where the innermost is of another family. Its token is emitted in either
/// case, and the innermost open bracket, if there is one, is open no more.
pub proof fn lemma_closer_is_judged_once(src: Seq<char>, extended: bool, st: ScanState)
    requires
        0 <= st.index < src.len(),
        bracket_kind(src[st.index]) is Some,
        closes(bracket_kind(src[st.index])->0),
    ensures
        ({
            let kind = bracket_kind(src[st.index])->0;
            let out = scan_lexeme(src, extended, st);
            &&& out.state.tokens == st.tokens.push(st.advance(src).pending(src, kind))
            &&& out.state.open == open_behind(src[st.index], st.open)
            &&& match out.report {
                None => st.open.len() > 0 && st.open.last() == family(kind),
                Some(r) => r.pos == Some(st.end) && r.line == st.line && Some(r.kind)
                    == closer_fault(src[st.index], st.open),
            }
        }),
{
}

/// At the end of a scan, brackets that are still open are found wrong
/// exactly once, however many they are, and behind every other finding;
/// with no bracket open nothing is added to the findings.
pub proof fn lemma_unclosed_is_found_once(src: Seq<char>, st: ScanState, found: Seq<ReportView>)
    ensures
        st.open.len() > 0 ==> conclude(src, st, found) == Err::<Seq<TokenView>, Seq<ReportView>>(
            found.push(st.finding(ReportKind::UnclosedBracketError, None)),
        ),
        st.open.len() == 0 && found.len() > 0 ==> conclude(src, st, found) == Err::<
            Seq<TokenView>,
            Seq<ReportView>,
        >(found),
        st.open.len() == 0 && found.len() == 0 ==> conclude(src, st, found) == Ok::<
            Seq<TokenView>,
            Seq<ReportView>,
        >(st.emit_eof(src).tokens),
{
}

// ---------------------------------------------------------------------------
// Comments
// ---------------------------------------------------------------------------

/// A comment emits no token and is not found wrong. It ends before the next
/// line feed, or at the end of the text where there is none: the line
/// number stays, the column grows by the bytes of the comment and no more,
/// and the line feed is still to be scanned.
pub proof fn lemma_comment_stays_on_its_line(src: Seq<char>, extended: bool, st: ScanState)
    requires
        0 <= st.index < src.len(),
        src[st.index] == ';',
    ensures
        ({
            let out = scan_lexeme(src, extended, st);
            let end = out.state.index;
            &&& out.report is None
            &&& out.state.tokens == st.tokens
            &&& out.state.open == st.open
            &&& out.state.line == st.line
            &&& out.state.start == st.start
            &&& st.index < end <= src.len()
            &&& forall|k: int| st.index <= k < end ==> #[trigger] src[k] != '\n'
            &&& end < src.len() ==> src[end] == '\n'
            &&& out.state.end.line == st.end.line
            &&& out.state.end.column == st.end.column + span_width(src, st.index, end)
            &&& out.state.end.offset == st.end.offset + span_width(src, st.index, end)
        }),
{
    lemma_run_end_bounds(src, CharClass::InLine, st.index + 1);
    lemma_run_end_stops(src, CharClass::InLine, st.index);
}

} // verus!
