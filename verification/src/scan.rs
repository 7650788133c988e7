//! The mathematical model of a scan.
//!
//! The source text is a sequence of characters. A [`ScanState`] says how far
//! the scan has come and what it has found so far. For each class of lexeme a
//! spec function says which state follows and whether something wrong was
//! found. [`scan_all`] repeats that until the text is used up, and
//! [`tokenize_from`] says what the scanner finally returns.

use vstd::prelude::*;
use crate::position::Location;
use crate::report::ReportView;
use crate::report_kind::ReportKind;
use crate::text::{byte_offset, span_width};
use crate::token::TokenView;
use crate::token_kind::TokenKind;

verus! {

// ---------------------------------------------------------------------------
// Classes of characters
// ---------------------------------------------------------------------------

/// A decimal digit.
pub open spec fn is_digit(c: char) -> bool {
    '0' <= c && c <= '9'
}

/// An ASCII letter.
pub open spec fn is_letter(c: char) -> bool {
    ('a' <= c && c <= 'z') || ('A' <= c && c <= 'Z')
}

/// A character that may follow the first letter of an identifier.
pub open spec fn is_name_char(c: char) -> bool {
    is_letter(c) || is_digit(c) || c == '-'
}

/// A space or a tab.
pub open spec fn is_blank(c: char) -> bool {
    c == ' ' || c == '\t'
}

/// A hexadecimal digit, in either case.
pub open spec fn is_hex_digit(c: char) -> bool {
    is_digit(c) || ('a' <= c && c <= 'f') || ('A' <= c && c <= 'F')
}

/// The character that joins two values of a terminal: `-` for a range, `.`
/// for a sequence.
pub open spec fn is_separator(c: char) -> bool {
    c == '-' || c == '.'
}

/// The classes of characters of which the scanner consumes whole runs.
#[derive(Clone, Copy, Debug, PartialEq, Eq, Structural)]
pub enum CharClass {
    /// Decimal digits.
    Digit,
    /// Letters, digits and `-`.
    NameChar,
    /// Spaces and tabs.
    Blank,
    /// Hexadecimal digits.
    HexDigit,
    /// Everything but a line feed.
    InLine,
    /// Everything but a double quote.
    InString,
}

/// Whether a character belongs to a class.
pub open spec fn in_class(class: CharClass, c: char) -> bool {
    match class {
        CharClass::Digit => is_digit(c),
        CharClass::NameChar => is_name_char(c),
        CharClass::Blank => is_blank(c),
        CharClass::HexDigit => is_hex_digit(c),
        CharClass::InLine => c != '\n',
        CharClass::InString => c != '"',
    }
}

/// The end of the longest run of characters of a class that begins at index
/// `i`: the first index from `i` on that holds no character of the class, or
/// the length of the text.
pub open spec fn run_end(src: Seq<char>, class: CharClass, i: int) -> int
    decreases src.len() - i,
{
    if 0 <= i < src.len() && in_class(class, src[i]) {
        run_end(src, class, i + 1)
    } else {
        i
    }
}

// ---------------------------------------------------------------------------
// Numbers
// ---------------------------------------------------------------------------

/// The value of a decimal digit.
pub open spec fn digit_value(c: char) -> int {
    c as int - '0' as int
}

/// The value of a hexadecimal digit.
pub open spec fn hex_value(c: char) -> int {
    if is_digit(c) {
        c as int - '0' as int
    } else if 'a' <= c && c <= 'f' {
        c as int - 'a' as int + 10
    } else {
        c as int - 'A' as int + 10
    }
}

/// Whether a text holds decimal digits only.
pub open spec fn all_digits(s: Seq<char>) -> bool {
    forall|k: int| 0 <= k < s.len() ==> is_digit(#[trigger] s[k])
}

/// The number that a text of decimal digits denotes.
pub open spec fn decimal_value(s: Seq<char>) -> int
    decreases s.len(),
{
    if s.len() == 0 {
        0
    } else {
        decimal_value(s.drop_last()) * 10 + digit_value(s.last())
    }
}

/// A text read as a decimal number of 32 bits: at least one decimal digit
/// and nothing else; `None` where the text has another form or the number
/// is greater than the greatest signed integer of 32 bits.
pub open spec fn decimal_number(s: Seq<char>) -> Option<int> {
    if s.len() > 0 && all_digits(s) && decimal_value(s) <= i32::MAX {
        Some(decimal_value(s))
    } else {
        None
    }
}

/// Two characters read as a number in base 16: two hexadecimal digits, or a
/// `+` and one hexadecimal digit; `None` for any other pair.
pub open spec fn hex_pair(a: char, b: char) -> Option<int> {
    if a == '+' && is_hex_digit(b) {
        Some(hex_value(b))
    } else if is_hex_digit(a) && is_hex_digit(b) {
        Some(16 * hex_value(a) + hex_value(b))
    } else {
        None
    }
}

/// The rule on the value of a decimal or hexadecimal terminal: it is not
/// negative, and it is at most 126 unless the extended profile is chosen.
pub open spec fn within_terminal_range(value: int, extended: bool) -> bool {
    0 <= value && (extended || value <= 126)
}

/// A binary digit.
pub open spec fn is_bit(c: char) -> bool {
    c == '0' || c == '1'
}

/// Whether a text holds the digits `0` and `1` only.
pub open spec fn all_bits(s: Seq<char>) -> bool {
    forall|k: int| 0 <= k < s.len() ==> is_bit(#[trigger] s[k])
}

// ---------------------------------------------------------------------------
// Brackets
// ---------------------------------------------------------------------------

/// Whether a kind is that of an opening bracket.
pub open spec fn opens(kind: TokenKind) -> bool {
    kind == TokenKind::LeftParen || kind == TokenKind::LeftSquare || kind == TokenKind::LeftAngle
}

/// Whether a kind is that of a closing bracket.
pub open spec fn closes(kind: TokenKind) -> bool {
    kind == TokenKind::RightParen || kind == TokenKind::RightSquare || kind
        == TokenKind::RightAngle
}

/// The family of a bracket: the marker that is kept on the stack of open
/// brackets.
pub open spec fn family(kind: TokenKind) -> TokenKind {
    match kind {
        TokenKind::LeftParen | TokenKind::RightParen => TokenKind::Paren,
        TokenKind::LeftSquare | TokenKind::RightSquare => TokenKind::Square,
        TokenKind::LeftAngle | TokenKind::RightAngle => TokenKind::Angle,
        _ => kind,
    }
}

// ---------------------------------------------------------------------------
// The state of a scan
// ---------------------------------------------------------------------------

/// How far a scan has come.
pub struct ScanState {
    /// The number of characters consumed.
    pub index: int,
    /// The index of the first character of the token that is being read.
    pub start_index: int,
    /// The place of the first character of the token that is being read.
    pub start: Location,
    /// The place of the next character.
    pub end: Location,
    /// The text of the current line, as a finding would quote it.
    pub line: Seq<char>,
    /// The families of the brackets that are open, innermost last.
    pub open: Seq<TokenKind>,
    /// The tokens found so far.
    pub tokens: Seq<TokenView>,
}

/// What scanning one lexeme gives: the state that follows, and what was found
/// wrong, if anything.
pub struct Outcome {
    pub state: ScanState,
    pub report: Option<ReportView>,
}

impl ScanState {
    /// The state in which the scan of a text begins. The current line is the
    /// text up to its first line feed.
    pub open spec fn initial(src: Seq<char>) -> ScanState {
        ScanState {
            index: 0,
            start_index: 0,
            start: Location::origin(),
            end: Location::origin(),
            line: src.subrange(0, run_end(src, CharClass::InLine, 0)),
            open: Seq::empty(),
            tokens: Seq::empty(),
        }
    }

    /// The state is one that a scan of `src` can be in: the indices lie in
    /// the text, the offsets are those of the indices, lines and columns
    /// count from 1 and are bounded by the offset, and every token was cut
    /// from `src` between two of its characters.
    pub open spec fn wf(self, src: Seq<char>) -> bool {
        &&& 0 <= self.start_index <= self.index <= src.len()
        &&& self.end.offset == byte_offset(src, self.index)
        &&& self.start.offset == byte_offset(src, self.start_index)
        &&& 1 <= self.end.line <= self.end.offset + 1
        &&& 1 <= self.end.column <= self.end.offset + 1
        &&& forall|k: int|
            0 <= k < self.tokens.len() ==> (#[trigger] self.tokens[k]).source == src
                && self.tokens[k].on_boundaries()
    }

    /// Whether the text is used up.
    pub open spec fn at_end(self, src: Seq<char>) -> bool {
        self.index >= src.len()
    }

    /// The next character, if there is one.
    pub open spec fn peek(self, src: Seq<char>) -> Option<char> {
        if 0 <= self.index < src.len() {
            Some(src[self.index])
        } else {
            None
        }
    }

    /// The state after the characters up to index `to` are consumed: offset
    /// and column grow by the number of bytes that these characters take.
    pub open spec fn advance_to(self, src: Seq<char>, to: int) -> ScanState {
        ScanState { index: to, end: self.end.shift(span_width(src, self.index, to)), ..self }
    }

    /// The state after the next character is consumed.
    pub open spec fn advance(self, src: Seq<char>) -> ScanState {
        self.advance_to(src, self.index + 1)
    }

    /// The state after the longest run of characters of a class is consumed.
    pub open spec fn skip_run(self, src: Seq<char>, class: CharClass) -> ScanState {
        self.advance_to(src, run_end(src, class, self.index))
    }

    /// The token that reaches from the start of the current token to the
    /// next character.
    pub open spec fn pending(self, src: Seq<char>, kind: TokenKind) -> TokenView {
        TokenView {
            kind,
            pos: self.start,
            length: self.end.offset - self.start.offset,
            source: src,
        }
    }

    /// The text of the token that is being read.
    pub open spec fn pending_text(self, src: Seq<char>) -> Seq<char> {
        src.subrange(self.start_index, self.index)
    }

    /// The state after a token of the given kind is emitted: the token reaches
    /// from the start of the current token to the next character, where the
    /// following token then starts.
    pub open spec fn emit(self, src: Seq<char>, kind: TokenKind) -> ScanState {
        ScanState {
            tokens: self.tokens.push(self.pending(src, kind)),
            start: self.end,
            start_index: self.index,
            ..self
        }
    }

    /// The state at the start of the line that follows a consumed end of
    /// line: the line number grows by one, the column is 1 again, the current
    /// line is the text up to the next line feed, and the current token
    /// starts here.
    pub open spec fn new_line(self, src: Seq<char>) -> ScanState {
        ScanState {
            line: src.subrange(self.index, run_end(src, CharClass::InLine, self.index)),
            end: self.end.next_line(),
            start: self.end.next_line(),
            start_index: self.index,
            ..self
        }
    }

    /// The state with one more open bracket.
    pub open spec fn push_open(self, marker: TokenKind) -> ScanState {
        ScanState { open: self.open.push(marker), ..self }
    }

    /// The state without the innermost open bracket, if there is one.
    pub open spec fn pop_open(self) -> ScanState {
        ScanState {
            open: if self.open.len() > 0 {
                self.open.drop_last()
            } else {
                self.open
            },
            ..self
        }
    }

    /// The state in which the current token starts at the next character:
    /// what was consumed since the last token belongs to no token.
    pub open spec fn restart(self) -> ScanState {
        ScanState { start: self.end, start_index: self.index, ..self }
    }

    /// The state after the end-of-input token is emitted: a token of length
    /// zero at the end of the text.
    pub open spec fn emit_eof(self, src: Seq<char>) -> ScanState {
        self.restart().emit(src, TokenKind::EOF)
    }

    /// A finding of the given kind, quoting the current line.
    pub open spec fn finding(self, kind: ReportKind, pos: Option<Location>) -> ReportView {
        ReportView { kind, pos, line: self.line }
    }
}

/// The outcome of a lexeme with which nothing is wrong.
pub open spec fn clean(state: ScanState) -> Outcome {
    Outcome { state, report: None }
}

/// The outcome of a lexeme with which something is wrong.
pub open spec fn failed(state: ScanState, kind: ReportKind, pos: Option<Location>) -> Outcome {
    Outcome { state, report: Some(state.finding(kind, pos)) }
}

// ---------------------------------------------------------------------------
// One lexeme of each class
// ---------------------------------------------------------------------------

/// One character that is a token by itself.
pub open spec fn scan_single(src: Seq<char>, st: ScanState, kind: TokenKind) -> Outcome {
    clean(st.advance(src).emit(src, kind))
}

/// A closing bracket. The innermost open bracket is taken from the stack and
/// the token is emitted in any case. With no bracket open, the closer is
/// unexpected; with one of another family open, it is mismatched. The
/// finding is at the place of the closer.
pub open spec fn scan_closer(src: Seq<char>, st: ScanState, kind: TokenKind) -> Outcome {
    let after = st.pop_open().advance(src).emit(src, kind);
    if st.open.len() == 0 {
        failed(after, ReportKind::UnexpectedClosingBracketError, Some(st.end))
    } else if st.open.last() == family(kind) {
        clean(after)
    } else {
        failed(after, ReportKind::MismatchedClosingBracketError, Some(st.end))
    }
}

/// A bracket of the given kind: an opener puts its family on the stack, a
/// closer takes one off. Any other kind is an internal error.
pub open spec fn scan_bracket(src: Seq<char>, st: ScanState, kind: TokenKind) -> Outcome {
    if opens(kind) {
        scan_single(src, st.push_open(family(kind)), kind)
    } else if closes(kind) {
        scan_closer(src, st, kind)
    } else {
        failed(st, ReportKind::InternalLexerError, Some(st.end))
    }
}

/// `=`, or `=/` where a slash follows at once.
pub open spec fn scan_assignment(src: Seq<char>, st: ScanState) -> Outcome {
    let st1 = st.advance(src);
    if st1.peek(src) == Some('/') {
        clean(st1.advance(src).emit(src, TokenKind::EqualSlash))
    } else {
        clean(st1.emit(src, TokenKind::Equal))
    }
}

/// A comment: everything up to the next line feed, which is left in place.
/// No token is emitted.
pub open spec fn scan_comment(src: Seq<char>, st: ScanState) -> Outcome {
    clean(st.skip_run(src, CharClass::InLine))
}

/// A run of spaces and tabs: one token.
pub open spec fn scan_whitespace(src: Seq<char>, st: ScanState) -> Outcome {
    clean(st.skip_run(src, CharClass::Blank).emit(src, TokenKind::Whitespace))
}

/// A run of decimal digits, which may be empty: one token of the given kind.
pub open spec fn scan_number(src: Seq<char>, st: ScanState, kind: TokenKind) -> Outcome {
    clean(st.skip_run(src, CharClass::Digit).emit(src, kind))
}

/// An identifier: one character, then a run of letters, digits and `-`.
pub open spec fn scan_identifier(src: Seq<char>, st: ScanState) -> Outcome {
    clean(st.advance(src).skip_run(src, CharClass::NameChar).emit(src, TokenKind::Identifier))
}

/// A string: the opening quote, everything up to the next quote, and that
/// quote. Where the text ends first, the string is unterminated, which is
/// found at the start of the current token, and no token is emitted.
pub open spec fn scan_string(src: Seq<char>, st: ScanState) -> Outcome {
    let body = st.advance(src).skip_run(src, CharClass::InString);
    if body.at_end(src) {
        failed(body, ReportKind::UnterminatedStringError, Some(st.start))
    } else {
        clean(body.advance(src).emit(src, TokenKind::String))
    }
}

/// An end of line: a line feed, or a carriage return and a line feed. A
/// carriage return that no line feed follows is consumed and is an internal
/// error.
pub open spec fn scan_eol(src: Seq<char>, st: ScanState) -> Outcome {
    if st.peek(src) == Some('\r') {
        let st1 = st.advance(src);
        if st1.peek(src) == Some('\n') {
            clean(st1.advance(src).new_line(src))
        } else {
            failed(st1, ReportKind::InternalLexerError, None)
        }
    } else {
        clean(st.advance(src).new_line(src))
    }
}

/// A character that begins no lexeme: it is consumed, and found wrong at the
/// place behind it.
pub open spec fn scan_unknown(src: Seq<char>, st: ScanState) -> Outcome {
    let st1 = st.advance(src);
    failed(st1, ReportKind::UnableToParseError, Some(st1.end))
}

// ---------------------------------------------------------------------------
// Terminals
// ---------------------------------------------------------------------------

/// The values of a binary or decimal terminal: runs of digits, joined by `-`
/// for a range or `.` for a sequence. Each value is one token of the given
/// kind, whose text is its run of digits. A value but the last is emitted
/// when the separator behind it is met; the separator is consumed and
/// belongs to no token, and the next value starts behind it. The result is
/// the state behind the last value, whose token is still to be emitted.
pub open spec fn scan_values(src: Seq<char>, st: ScanState, kind: TokenKind) -> ScanState
    decreases src.len() - st.index,
{
    if 0 <= st.index < src.len() && is_digit(src[st.index]) {
        scan_values(src, st.advance(src), kind)
    } else if 0 <= st.index < src.len() && is_separator(src[st.index]) {
        scan_values(src, st.emit(src, kind).advance(src).restart(), kind)
    } else {
        st
    }
}

/// A binary terminal, behind `%b`: one value, or several that are joined by
/// `-` or `.`. The text of the last value must have 7 characters, each of
/// them `0` or `1`.
pub open spec fn scan_terminal_binary(src: Seq<char>, st: ScanState) -> Outcome {
    let last = scan_values(src, st, TokenKind::Binary);
    let text = last.pending_text(src);
    let after = last.emit(src, TokenKind::Binary);
    if text.len() != 7 {
        failed(after, ReportKind::SevenBitsError, Some(after.end))
    } else if !all_bits(text) {
        failed(after, ReportKind::BinaryTerminalError, Some(after.end))
    } else {
        clean(after)
    }
}

/// A decimal terminal, behind `%d`: one value, or several that are joined
/// by `-` or `.`. The text of the last value must read as a number, and
/// that number must be within the range of terminals.
pub open spec fn scan_terminal_decimal(src: Seq<char>, extended: bool, st: ScanState) -> Outcome {
    let last = scan_values(src, st, TokenKind::Decimal);
    let text = last.pending_text(src);
    let after = last.emit(src, TokenKind::Decimal);
    match decimal_number(text) {
        None => failed(after, ReportKind::NaNError, Some(after.end)),
        Some(value) => if within_terminal_range(value, extended) {
            clean(after)
        } else {
            failed(after, ReportKind::DecimalTerminalError, Some(after.end))
        },
    }
}

/// A hexadecimal terminal, behind `%x`. Two characters must follow and read
/// as a number in base 16; nothing is consumed where they do not. In the
/// extended profile the hexadecimal digits that follow belong to the
/// terminal too. The number that the first two characters denote must be
/// within the range of terminals.
pub open spec fn scan_terminal_hexadecimal(
    src: Seq<char>,
    extended: bool,
    st: ScanState,
) -> Outcome {
    if st.index + 2 > src.len() {
        failed(st, ReportKind::EofError, Some(st.end))
    } else {
        match hex_pair(src[st.index], src[st.index + 1]) {
            None => failed(st, ReportKind::NaHexNError, Some(st.end)),
            Some(value) => {
                let pair = st.advance(src).advance(src);
                let digits = if extended {
                    pair.skip_run(src, CharClass::HexDigit)
                } else {
                    pair
                };
                let after = digits.emit(src, TokenKind::Hexadecimal);
                if within_terminal_range(value, extended) {
                    clean(after)
                } else {
                    failed(after, ReportKind::HexadecimalTerminalError, Some(after.end))
                }
            },
        }
    }
}

/// A terminal: `%`, then `b`, `d` or `x` and the values in that base. The
/// marker and the letter are one token each.
pub open spec fn scan_terminal(src: Seq<char>, extended: bool, st: ScanState) -> Outcome {
    let marked = st.advance(src).emit(src, TokenKind::Mod);
    match marked.peek(src) {
        None => failed(marked, ReportKind::EofError, Some(marked.end)),
        Some(c) => if c == 'b' {
            scan_terminal_binary(src, marked.advance(src).emit(src, TokenKind::TerminalBinary))
        } else if c == 'd' {
            scan_terminal_decimal(
                src,
                extended,
                marked.advance(src).emit(src, TokenKind::TerminalDecimal),
            )
        } else if c == 'x' {
            scan_terminal_hexadecimal(
                src,
                extended,
                marked.advance(src).emit(src, TokenKind::TerminalHexadecimal),
            )
        } else if is_blank(c) {
            failed(marked, ReportKind::NoTerminalFoundError, Some(marked.end))
        } else {
            failed(marked, ReportKind::IncorrectTerminalFoundError, Some(marked.end))
        },
    }
}

// ---------------------------------------------------------------------------
// The whole text
// ---------------------------------------------------------------------------

/// The kind of token that a character is by itself, if it is one.
pub open spec fn single_kind(c: char) -> Option<TokenKind> {
    if c == '.' {
        Some(TokenKind::Dot)
    } else if c == '-' {
        Some(TokenKind::Range)
    } else if c == '*' {
        Some(TokenKind::Star)
    } else if c == '/' {
        Some(TokenKind::Slash)
    } else {
        None
    }
}

/// The kind of bracket that a character is, if it is one.
pub open spec fn bracket_kind(c: char) -> Option<TokenKind> {
    if c == '(' {
        Some(TokenKind::LeftParen)
    } else if c == ')' {
        Some(TokenKind::RightParen)
    } else if c == '[' {
        Some(TokenKind::LeftSquare)
    } else if c == ']' {
        Some(TokenKind::RightSquare)
    } else if c == '<' {
        Some(TokenKind::LeftAngle)
    } else if c == '>' {
        Some(TokenKind::RightAngle)
    } else {
        None
    }
}

/// The lexeme that begins with the next character: which class it is of is
/// decided by that character alone.
pub open spec fn scan_lexeme(src: Seq<char>, extended: bool, st: ScanState) -> Outcome
    recommends
        0 <= st.index < src.len(),
{
    let c = src[st.index];
    if bracket_kind(c) is Some {
        scan_bracket(src, st, bracket_kind(c)->0)
    } else if single_kind(c) is Some {
        scan_single(src, st, single_kind(c)->0)
    } else if c == '=' {
        scan_assignment(src, st)
    } else if c == ';' {
        scan_comment(src, st)
    } else if c == '%' {
        scan_terminal(src, extended, st)
    } else if is_blank(c) {
        scan_whitespace(src, st)
    } else if c == '\n' || c == '\r' {
        scan_eol(src, st)
    } else if c == '"' {
        scan_string(src, st)
    } else if is_digit(c) {
        scan_number(src, st, TokenKind::Number)
    } else if is_letter(c) {
        scan_identifier(src, st)
    } else {
        scan_unknown(src, st)
    }
}

/// The findings so far, with one more if there is one.
pub open spec fn with_report(found: Seq<ReportView>, report: Option<ReportView>) -> Seq<
    ReportView,
> {
    match report {
        Some(r) => found.push(r),
        None => found,
    }
}

/// The end of a run never lies before its start.
pub proof fn lemma_run_end_bounds(src: Seq<char>, class: CharClass, i: int)
    requires
        0 <= i <= src.len(),
    ensures
        i <= run_end(src, class, i) <= src.len(),
    decreases src.len() - i,
{
    if i < src.len() && in_class(class, src[i]) {
        lemma_run_end_bounds(src, class, i + 1);
    }
}

/// A run holds characters of its class only, and what follows it is none.
pub proof fn lemma_run_end_stops(src: Seq<char>, class: CharClass, i: int)
    requires
        0 <= i <= src.len(),
    ensures
        forall|k: int| i <= k < run_end(src, class, i) ==> in_class(class, #[trigger] src[k]),
        run_end(src, class, i) < src.len() ==> !in_class(class, src[run_end(src, class, i)]),
    decreases src.len() - i,
{
    if i < src.len() && in_class(class, src[i]) {
        lemma_run_end_stops(src, class, i + 1);
    }
}

/// Consuming up to one index and then up to another is consuming up to the
/// second.
pub proof fn lemma_advance_to_twice(src: Seq<char>, st: ScanState, j: int, k: int)
    ensures
        st.advance_to(src, j).advance_to(src, k) == st.advance_to(src, k),
        st.advance_to(src, st.index) == st,
{
}

/// The digits at which the values of a terminal begin can be consumed as
/// one run.
pub proof fn lemma_values_after_digits(src: Seq<char>, st: ScanState, kind: TokenKind)
    requires
        0 <= st.index <= src.len(),
    ensures
        scan_values(src, st.skip_run(src, CharClass::Digit), kind) == scan_values(src, st, kind),
    decreases src.len() - st.index,
{
    if st.index < src.len() && is_digit(src[st.index]) {
        let next = st.advance(src);
        lemma_values_after_digits(src, next, kind);
        lemma_advance_to_twice(src, st, st.index + 1, run_end(src, CharClass::Digit, next.index));
        assert(next.skip_run(src, CharClass::Digit) == st.skip_run(src, CharClass::Digit));
    } else {
        lemma_advance_to_twice(src, st, st.index, st.index);
    }
}

/// The values of a terminal end at or behind the place where they begin.
pub proof fn lemma_scan_values_index(src: Seq<char>, st: ScanState, kind: TokenKind)
    requires
        0 <= st.index <= src.len(),
    ensures
        st.index <= scan_values(src, st, kind).index <= src.len(),
    decreases src.len() - st.index,
{
    if st.index < src.len() && is_digit(src[st.index]) {
        lemma_scan_values_index(src, st.advance(src), kind);
    } else if st.index < src.len() && is_separator(src[st.index]) {
        lemma_scan_values_index(src, st.emit(src, kind).advance(src).restart(), kind);
    }
}

/// Every lexeme consumes at least one character, and none reaches beyond the
/// end of the text.
pub proof fn lemma_scan_lexeme_progress(src: Seq<char>, extended: bool, st: ScanState)
    requires
        0 <= st.index < src.len(),
    ensures
        st.index < scan_lexeme(src, extended, st).state.index <= src.len(),
{
    let c = src[st.index];
    let i = st.index;
    lemma_run_end_bounds(src, CharClass::InLine, i + 1);
    lemma_run_end_bounds(src, CharClass::Blank, i + 1);
    lemma_run_end_bounds(src, CharClass::Digit, i + 1);
    lemma_run_end_bounds(src, CharClass::NameChar, i + 1);
    lemma_run_end_bounds(src, CharClass::InString, i + 1);
    if c == '%' {
        let marked = st.advance(src).emit(src, TokenKind::Mod);
        if marked.index < src.len() {
            let lettered = marked.advance(src).emit(src, TokenKind::TerminalBinary);
            lemma_scan_values_index(src, lettered, TokenKind::Binary);
            let lettered = marked.advance(src).emit(src, TokenKind::TerminalDecimal);
            lemma_scan_values_index(src, lettered, TokenKind::Decimal);
            if i + 4 <= src.len() {
                lemma_run_end_bounds(src, CharClass::HexDigit, i + 4);
            }
        }
    }
}

/// The scan from a state to the end of the text: the state at the end, and
/// the findings in the order in which they were made, behind those found
/// before.
pub open spec fn scan_all(
    src: Seq<char>,
    extended: bool,
    st: ScanState,
    found: Seq<ReportView>,
) -> (ScanState, Seq<ReportView>)
    decreases src.len() - st.index,
    via scan_all_terminates
{
    if 0 <= st.index < src.len() {
        let out = scan_lexeme(src, extended, st);
        scan_all(src, extended, out.state, with_report(found, out.report))
    } else {
        (st, found)
    }
}

#[via_fn]
proof fn scan_all_terminates(
    src: Seq<char>,
    extended: bool,
    st: ScanState,
    found: Seq<ReportView>,
) {
    if 0 <= st.index < src.len() {
        lemma_scan_lexeme_progress(src, extended, st);
    }
}

/// What a scan returns at the end of the text, from the state that it is in
/// and the findings that it made. Brackets that are still open are one more
/// finding, however many there are. With any finding the result is the list
/// of findings; with none it is the tokens, with the end-of-input token as
/// their last.
pub open spec fn conclude(src: Seq<char>, st: ScanState, found: Seq<ReportView>) -> Result<
    Seq<TokenView>,
    Seq<ReportView>,
> {
    let all = if st.open.len() > 0 {
        found.push(st.finding(ReportKind::UnclosedBracketError, None))
    } else {
        found
    };
    if all.len() > 0 {
        Err(all)
    } else {
        Ok(st.emit_eof(src).tokens)
    }
}

/// What a scan returns that goes on from the given state.
pub open spec fn tokenize_from(src: Seq<char>, extended: bool, st: ScanState) -> Result<
    Seq<TokenView>,
    Seq<ReportView>,
> {
    let (last, found) = scan_all(src, extended, st, Seq::empty());
    conclude(src, last, found)
}

/// What the scan of a text returns: its tokens, or everything that is wrong
/// with it.
pub open spec fn tokenize_text(src: Seq<char>, extended: bool) -> Result<
    Seq<TokenView>,
    Seq<ReportView>,
> {
    tokenize_from(src, extended, ScanState::initial(src))
}

} // verus!
