//! The scanner.

use vstd::prelude::*;
use vstd::utf8::{char_u32_cast, is_scalar};
use crate::config::LexerConfig;
use crate::position::Position;
use crate::report::{place_view, Report, ReportView};
use crate::report_kind::ReportKind;
use crate::scan::{
    closes, in_class, is_blank, lemma_advance_to_twice, lemma_run_end_bounds,
    lemma_run_end_stops, lemma_scan_lexeme_progress, lemma_values_after_digits, run_end, scan_all, scan_assignment, scan_bracket, scan_closer,
    scan_comment, scan_eol, scan_identifier, scan_lexeme, scan_number, scan_single, scan_string,
    scan_terminal, scan_terminal_binary, scan_terminal_decimal, scan_terminal_hexadecimal,
    scan_values, scan_whitespace, tokenize_from, CharClass, Outcome, ScanState,
};
use crate::terminal::{count_bits, parse_decimal, parse_hex_pair, within_terminal_range};
use crate::text::{
    byte_offset, code_at, cut, is_lead_of, lead_at, lead_width, lead_width_of,
    lemma_encoded_len, lemma_offset_grows, starts_with,
};
use crate::token::{lemma_covered_lexeme, Token, TokenView};
use crate::token_kind::TokenKind;

verus! {

/// The views of a sequence of tokens.
pub open spec fn token_views(tokens: Seq<Token<'_>>) -> Seq<TokenView> {
    tokens.map_values(|t: Token| t@)
}

/// The views of a sequence of findings.
pub open spec fn report_views(reports: Seq<Report>) -> Seq<ReportView> {
    reports.map_values(|r: Report| r@)
}

/// The view of what a scan returns.
pub open spec fn result_view(res: Result<Vec<Token<'_>>, Vec<Report>>) -> Result<
    Seq<TokenView>,
    Seq<ReportView>,
> {
    match res {
        Ok(tokens) => Ok(token_views(tokens@)),
        Err(reports) => Err(report_views(reports@)),
    }
}

/// What scanning one lexeme gave: the state that the scanner is in, and the
/// finding that it returned, if any.
pub open spec fn outcome_of(state: ScanState, res: Result<(), Report>) -> Outcome {
    Outcome {
        state,
        report: match res {
            Ok(_) => None,
            Err(r) => Some(r@),
        },
    }
}

/// A text is short enough to be scanned: a column one beyond its last byte
/// can still be counted.
pub open spec fn fits(src: Seq<char>) -> bool {
    byte_offset(src, src.len() as int) < usize::MAX
}

/// Whether a character, known by the first byte of its encoding, belongs to
/// a class.
fn byte_in_class(class: CharClass, b: u8, Ghost(c): Ghost<char>) -> (r: bool)
    requires
        is_lead_of(b, c),
    ensures
        r == in_class(class, c),
{
    match class {
        CharClass::Digit => ('0' as u8) <= b && b <= ('9' as u8),
        CharClass::NameChar => (('a' as u8) <= b && b <= ('z' as u8)) || (('A' as u8) <= b && b
            <= ('Z' as u8)) || (('0' as u8) <= b && b <= ('9' as u8)) || b == ('-' as u8),
        CharClass::Blank => b == (' ' as u8) || b == ('\t' as u8),
        CharClass::HexDigit => (('0' as u8) <= b && b <= ('9' as u8)) || (('a' as u8) <= b && b
            <= ('f' as u8)) || (('A' as u8) <= b && b <= ('F' as u8)),
        CharClass::InLine => b != ('\n' as u8),
        CharClass::InString => b != ('"' as u8),
    }
}

/// The end of the longest run of characters of a class that begins at byte
/// offset `offset`, which is the offset of the character with index `i`: the
/// byte offset of the end, and its index.
fn run_to(src: &str, class: CharClass, offset: usize, Ghost(i): Ghost<int>) -> (end: (
    usize,
    Ghost<int>,
))
    requires
        0 <= i <= src@.len(),
        offset == byte_offset(src@, i),
    ensures
        end.1@ == run_end(src@, class, i),
        i <= end.1@ <= src@.len(),
        end.0 == byte_offset(src@, end.1@),
{
    let mut at = offset;
    let ghost mut k = i;
    loop
        invariant
            0 <= i <= k <= src@.len(),
            at == byte_offset(src@, k),
            run_end(src@, class, k) == run_end(src@, class, i),
        ensures
            run_end(src@, class, k) == k,
        decreases src@.len() - k,
    {
        match lead_at(src, at, Ghost(k)) {
            Some(b) => {
                if byte_in_class(class, b, Ghost(src@[k])) {
                    at = at + lead_width(b);
                    proof {
                        k = k + 1;
                    }
                } else {
                    break ;
                }
            },
            None => {
                break ;
            },
        }
    }
    (at, Ghost(k))
}

/// A scanner over one source text.
pub struct Lexer<'s> {
    src: &'s str,
    tokens: Vec<Token<'s>>,
    token_start: Position,
    token_end: Position,
    current_line: &'s str,
    open_brackets: Vec<TokenKind>,
    config: LexerConfig,
    index: Ghost<int>,
    start_index: Ghost<int>,
}

impl<'s> View for Lexer<'s> {
    type V = ScanState;

    /// How far the scanner has come.
    closed spec fn view(&self) -> ScanState {
        ScanState {
            index: self.index@,
            start_index: self.start_index@,
            start: self.token_start@,
            end: self.token_end@,
            line: self.current_line@,
            open: self.open_brackets@,
            tokens: token_views(self.tokens@),
        }
    }
}

impl<'s> Lexer<'s> {
    /// The text that is scanned.
    pub closed spec fn source(&self) -> Seq<char> {
        self.src@
    }

    /// Whether the extended profile is chosen.
    pub closed spec fn extended(&self) -> bool {
        self.config.extended
    }

    /// The scanner is in a state that a scan of its text can be in.
    pub closed spec fn wf(&self) -> bool {
        &&& fits(self.src@)
        &&& self@.wf(self.src@)
    }

    /// The scanner works on the same text, in the same profile, as `before`.
    pub open spec fn kept(&self, before: &Self) -> bool {
        &&& self.source() == before.source()
        &&& self.extended() == before.extended()
    }

    /// A scanner at the start of `source`.
    pub fn new(source: &'s str, config: LexerConfig) -> (lexer: Self)
        requires
            fits(source@),
        ensures
            lexer.wf(),
            lexer.source() == source@,
            lexer.extended() == config.extended,
            lexer@ == ScanState::initial(source@),
    {
        let (end, Ghost(j)) = run_to(source, CharClass::InLine, 0, Ghost(0));
        let line = cut(source, 0, end, Ghost(0), Ghost(j));
        let tokens: Vec<Token<'s>> = Vec::new();
        proof {
            assert(token_views(tokens@) =~= Seq::empty());
        }
        Lexer {
            src: source,
            token_start: Position::new(),
            token_end: Position::new(),
            tokens,
            open_brackets: Vec::new(),
            current_line: line,
            config,
            index: Ghost(0),
            start_index: Ghost(0),
        }
    }

    /// The first byte of the next character; `None` at the end of the text.
    fn lead(&self) -> (lead: Option<u8>)
        requires
            self.wf(),
        ensures
            lead is None <==> self@.at_end(self.src@),
            match lead {
                Some(b) => self@.index < self.src@.len() && is_lead_of(b, self.src@[self@.index])
                    && self@.end.offset + lead_width_of(b) == byte_offset(
                    self.src@,
                    self@.index + 1,
                ) && byte_offset(self.src@, self@.index + 1) <= usize::MAX,
                None => true,
            },
    {
        lead_at(self.src, self.token_end.offset, Ghost(self.index@))
    }

    /// The text that is still to be scanned.
    fn rest(&self) -> (rest: &'s str)
        requires
            self.wf(),
        ensures
            rest@ == self.src@.skip(self@.index),
    {
        let ghost len = self.src@.len() as int;
        proof {
            lemma_encoded_len(self.src@);
        }
        cut(self.src, self.token_end.offset, self.src.len(), Ghost(self.index@), Ghost(len))
    }

    /// Whether the text that is still to be scanned begins with `prefix`.
    fn peek_rest(&self, prefix: &str) -> (begins: bool)
        requires
            self.wf(),
        ensures
            begins == prefix@.is_prefix_of(self.src@.skip(self@.index)),
    {
        starts_with(self.rest(), prefix)
    }

    /// Whether the text is used up.
    pub fn is_at_end(&self) -> (end: bool)
        requires
            self.wf(),
        ensures
            end == self@.at_end(self.source()),
    {
        self.rest().is_empty()
    }

    /// The number of the next character, decoded from the text; `None` at
    /// the end of the text.
    fn next_code(&self) -> (code: Option<u32>)
        requires
            self.wf(),
        ensures
            match code {
                Some(n) => self@.peek(self.src@) == Some(n as char) && n == self.src@[self@.index]
                    as u32 && is_scalar(n),
                None => self@.peek(self.src@) is None,
            },
    {
        match self.lead() {
            Some(_) => Some(code_at(self.src, self.token_end.offset, Ghost(self.index@))),
            None => None,
        }
    }

    /// Whether the next character is `c`.
    fn next_is(&self, c: char) -> (is: bool)
        requires
            self.wf(),
        ensures
            is == (self@.peek(self.src@) == Some(c)),
    {
        proof {
            char_u32_cast(c, c as u32);
        }
        match self.next_code() {
            Some(n) => n == c as u32,
            None => false,
        }
    }

    /// Whether the next character is a space or a tab.
    fn next_is_whitespace(&self) -> (is: bool)
        requires
            self.wf(),
        ensures
            is == (self@.peek(self.src@) is Some && is_blank(self@.peek(self.src@)->0)),
    {
        self.next_is(' ') || self.next_is('\t')
    }

    /// A finding of the given kind at the given place, on the current line.
    fn report(&self, kind: ReportKind, pos: Option<Position>) -> (r: Report)
        ensures
            r@ == self@.finding(kind, place_view(pos)),
    {
        Report::new(kind, pos, self.current_line.to_owned())
    }

    /// Consumes the next character: offset and column grow by its width in
    /// bytes. At the end of the text nothing changes and the scanner reports
    /// that it cannot advance.
    pub fn advance(&mut self) -> (res: Result<(), Report>)
        requires
            old(self).wf(),
        ensures
            final(self).wf(),
            final(self).kept(old(self)),
            match res {
                Ok(_) => !old(self)@.at_end(old(self).source()) && final(self)@ == old(self)@.advance(
                    old(self).source(),
                ),
                Err(r) => old(self)@.at_end(old(self).source()) && final(self)@ == old(self)@ && r@
                    == old(self)@.finding(ReportKind::UnableToAdvanceError, None),
            },
    {
        match lead_at(self.src, self.token_end.offset, Ghost(self.index@)) {
            Some(b) => {
                let width = lead_width(b);
                self.token_end.offset += width;
                self.token_end.column += width;
                proof {
                    self.index@ = self.index@ + 1;
                }
                Ok(())
            },
            None => Err(self.report(ReportKind::UnableToAdvanceError, None)),
        }
    }

    /// Consumes the longest run of characters of a class.
    fn skip_run(&mut self, class: CharClass)
        requires
            old(self).wf(),
        ensures
            final(self).wf(),
            final(self).kept(old(self)),
            final(self)@ == old(self)@.skip_run(old(self).source(), class),
    {
        let (end, Ghost(j)) = run_to(self.src, class, self.token_end.offset, Ghost(self.index@));
        proof {
            lemma_encoded_len(self.src@);
            lemma_offset_grows(self.src@, j, self.src@.len() as int);
            lemma_offset_grows(self.src@, self.index@, j);
        }
        let width = end - self.token_end.offset;
        self.token_end.offset = end;
        self.token_end.column += width;
        proof {
            self.index@ = j;
        }
    }

    /// Emits a token of the given kind, which reaches from the start of the
    /// current token to the next character. The following token starts there.
    fn add_token(&mut self, kind: TokenKind)
        requires
            old(self).wf(),
        ensures
            final(self).wf(),
            final(self).kept(old(self)),
            final(self)@ == old(self)@.emit(old(self).source(), kind),
    {
        proof {
            lemma_offset_grows(self.src@, self.start_index@, self.index@);
        }
        let token = Token {
            pos: self.token_start,
            src: self.src,
            length: self.token_end.offset - self.token_start.offset,
            kind,
        };
        proof {
            lemma_covered_lexeme(token@, self.start_index@, self.index@);
            assert(token_views(self.tokens@.push(token)) =~= token_views(self.tokens@).push(
                token@,
            ));
        }
        self.tokens.push(token);
        self.token_start = self.token_end;
        proof {
            self.start_index@ = self.index@;
        }
    }

    /// Consumes the next character if it lies between `low` and `high`, and
    /// tells whether it did.
    fn advance_if_next_is_in_range(&mut self, low: char, high: char) -> (res: Result<bool, Report>)
        requires
            old(self).wf(),
        ensures
            final(self).wf(),
            final(self).kept(old(self)),
            res is Ok,
            res->Ok_0 == (old(self)@.peek(old(self).source()) is Some && low <= old(self)@.peek(
                old(self).source(),
            )->0 <= high),
            final(self)@ == (if res->Ok_0 {
                old(self)@.advance(old(self).source())
            } else {
                old(self)@
            }),
    {
        if let Some(n) = self.next_code() {
            if low as u32 <= n && n <= high as u32 {
                self.advance()?;
                Ok(true)
            } else {
                Ok(false)
            }
        } else {
            Ok(false)
        }
    }

    /// Consumes the next character if it is `c`, and tells whether it did.
    fn advance_if_next_is(&mut self, c: char) -> (res: Result<bool, Report>)
        requires
            old(self).wf(),
        ensures
            final(self).wf(),
            final(self).kept(old(self)),
            res is Ok,
            res->Ok_0 == (old(self)@.peek(old(self).source()) == Some(c)),
            final(self)@ == (if res->Ok_0 {
                old(self)@.advance(old(self).source())
            } else {
                old(self)@
            }),
    {
        self.advance_if_next_is_in_range(c, c)
    }

    /// Lets the current token start at the next character.
    fn restart(&mut self)
        requires
            old(self).wf(),
        ensures
            final(self).wf(),
            final(self).kept(old(self)),
            final(self)@ == old(self)@.restart(),
    {
        self.token_start = self.token_end;
        proof {
            self.start_index@ = self.index@;
        }
    }

    /// One character that is a token by itself.
    pub fn lex_single(&mut self, kind: TokenKind) -> (res: Result<(), Report>)
        requires
            old(self).wf(),
            !old(self)@.at_end(old(self).source()),
        ensures
            final(self).wf(),
            final(self).kept(old(self)),
            outcome_of(final(self)@, res) == scan_single(old(self).source(), old(self)@, kind),
    {
        self.advance()?;
        self.add_token(kind);
        Ok(())
    }

    /// Puts the family of an opening bracket on the stack of open brackets.
    fn open_bracket(&mut self, marker: TokenKind)
        requires
            old(self).wf(),
        ensures
            final(self).wf(),
            final(self).kept(old(self)),
            final(self)@ == old(self)@.push_open(marker),
    {
        self.open_brackets.push(marker);
    }

    /// A closing bracket: takes the innermost open bracket from the stack.
    /// Where it is of the closer's family, the closer is still to be
    /// consumed. Where it is not, or where no bracket is open, the closer is
    /// consumed and emitted here, and found wrong at the place where it
    /// stood.
    pub fn close_bracket(&mut self, kind: TokenKind) -> (res: Result<(), Report>)
        requires
            old(self).wf(),
            !old(self)@.at_end(old(self).source()),
            closes(kind),
        ensures
            final(self).wf(),
            final(self).kept(old(self)),
            match res {
                Ok(_) => final(self)@ == old(self)@.pop_open() && scan_closer(
                    old(self).source(),
                    old(self)@,
                    kind,
                ) == scan_single(old(self).source(), final(self)@, kind),
                Err(_) => outcome_of(final(self)@, res) == scan_closer(
                    old(self).source(),
                    old(self)@,
                    kind,
                ),
            },
    {
        let marker = match kind {
            TokenKind::RightParen => TokenKind::Paren,
            TokenKind::RightSquare => TokenKind::Square,
            _ => TokenKind::Angle,
        };
        match self.open_brackets.pop() {
            Some(open) => {
                if open == marker {
                    Ok(())
                } else {
                    let before = self.token_end;
                    self.lex_single(kind)?;
                    Err(self.report(ReportKind::MismatchedClosingBracketError, Some(before)))
                }
            },
            None => {
                let before = self.token_end;
                self.lex_single(kind)?;
                Err(self.report(ReportKind::UnexpectedClosingBracketError, Some(before)))
            },
        }
    }

    /// A bracket of the given kind.
    pub fn lex_bracket(&mut self, kind: TokenKind) -> (res: Result<(), Report>)
        requires
            old(self).wf(),
            !old(self)@.at_end(old(self).source()),
        ensures
            final(self).wf(),
            final(self).kept(old(self)),
            outcome_of(final(self)@, res) == scan_bracket(old(self).source(), old(self)@, kind),
    {
        match kind {
            TokenKind::LeftParen => self.open_bracket(TokenKind::Paren),
            TokenKind::RightParen => self.close_bracket(TokenKind::RightParen)?,
            TokenKind::LeftSquare => self.open_bracket(TokenKind::Square),
            TokenKind::RightSquare => self.close_bracket(TokenKind::RightSquare)?,
            TokenKind::LeftAngle => self.open_bracket(TokenKind::Angle),
            TokenKind::RightAngle => self.close_bracket(TokenKind::RightAngle)?,
            _ => {
                return Err(self.report(ReportKind::InternalLexerError, Some(self.token_end)));
            },
        }
        self.lex_single(kind)
    }

    /// `=`, or `=/` where a slash follows at once.
    pub fn lex_assignment(&mut self) -> (res: Result<(), Report>)
        requires
            old(self).wf(),
            !old(self)@.at_end(old(self).source()),
        ensures
            final(self).wf(),
            final(self).kept(old(self)),
            outcome_of(final(self)@, res) == scan_assignment(old(self).source(), old(self)@),
    {
        self.advance()?;
        let token = if self.advance_if_next_is('/')? {
            TokenKind::EqualSlash
        } else {
            TokenKind::Equal
        };
        self.add_token(token);
        Ok(())
    }

    /// A comment: consumes everything up to the next line feed, which it
    /// leaves in place, and emits nothing.
    pub fn lex_comment(&mut self) -> (res: Result<(), Report>)
        requires
            old(self).wf(),
        ensures
            final(self).wf(),
            final(self).kept(old(self)),
            outcome_of(final(self)@, res) == scan_comment(old(self).source(), old(self)@),
    {
        self.skip_run(CharClass::InLine);
        Ok(())
    }

    /// A run of spaces and tabs: one token.
    pub fn lex_whitespace(&mut self) -> (res: Result<(), Report>)
        requires
            old(self).wf(),
        ensures
            final(self).wf(),
            final(self).kept(old(self)),
            outcome_of(final(self)@, res) == scan_whitespace(old(self).source(), old(self)@),
    {
        let ghost src = self.src@;
        let ghost entry = self@;
        proof {
            lemma_advance_to_twice(src, entry, entry.index, entry.index);
        }
        while self.next_is_whitespace()
            invariant
                self.wf(),
                self.kept(&*old(self)),
                self.src@ == src,
                entry == old(self)@,
                entry.index <= self@.index <= src.len(),
                self@ == entry.advance_to(src, self@.index),
                run_end(src, CharClass::Blank, self@.index) == run_end(
                    src,
                    CharClass::Blank,
                    entry.index,
                ),
            decreases src.len() - self@.index,
        {
            proof {
                lemma_advance_to_twice(src, entry, self@.index, self@.index + 1);
            }
            self.advance()?;
        }
        self.add_token(TokenKind::Whitespace);
        Ok(())
    }

    /// A run of decimal digits, which may be empty: one token of the given
    /// kind.
    pub fn lex_number_literal(&mut self, kind: TokenKind) -> (res: Result<(), Report>)
        requires
            old(self).wf(),
        ensures
            final(self).wf(),
            final(self).kept(old(self)),
            outcome_of(final(self)@, res) == scan_number(old(self).source(), old(self)@, kind),
    {
        self.skip_run(CharClass::Digit);
        self.add_token(kind);
        Ok(())
    }

    /// An identifier: one character, then a run of letters, digits and `-`.
    pub fn lex_identifier(&mut self) -> (res: Result<(), Report>)
        requires
            old(self).wf(),
            !old(self)@.at_end(old(self).source()),
        ensures
            final(self).wf(),
            final(self).kept(old(self)),
            outcome_of(final(self)@, res) == scan_identifier(old(self).source(), old(self)@),
    {
        self.advance()?;
        self.skip_run(CharClass::NameChar);
        self.add_token(TokenKind::Identifier);
        Ok(())
    }

    /// A string: the opening quote, everything up to the next quote, and
    /// that quote.
    pub fn lex_string_literal(&mut self) -> (res: Result<(), Report>)
        requires
            old(self).wf(),
            !old(self)@.at_end(old(self).source()),
        ensures
            final(self).wf(),
            final(self).kept(old(self)),
            outcome_of(final(self)@, res) == scan_string(old(self).source(), old(self)@),
    {
        self.advance()?;
        self.skip_run(CharClass::InString);
        if self.is_at_end() {
            return Err(self.report(ReportKind::UnterminatedStringError, Some(self.token_start)));
        }
        self.advance()?;
        self.add_token(TokenKind::String);
        Ok(())
    }

    /// An end of line: a line feed, or a carriage return and a line feed.
    /// The next line begins behind it.
    pub fn lex_eol(&mut self) -> (res: Result<(), Report>)
        requires
            old(self).wf(),
            !old(self)@.at_end(old(self).source()),
        ensures
            final(self).wf(),
            final(self).kept(old(self)),
            outcome_of(final(self)@, res) == scan_eol(old(self).source(), old(self)@),
    {
        if self.advance_if_next_is('\r')? {
            if !self.advance_if_next_is('\n')? {
                return Err(self.report(ReportKind::InternalLexerError, None));
            }
        } else {
            self.advance()?;
        }
        let (end, Ghost(j)) = run_to(
            self.src,
            CharClass::InLine,
            self.token_end.offset,
            Ghost(self.index@),
        );
        self.current_line = cut(
            self.src,
            self.token_end.offset,
            end,
            Ghost(self.index@),
            Ghost(j),
        );
        proof {
            lemma_offset_grows(self.src@, old(self)@.index, self.index@);
            lemma_offset_grows(self.src@, self.index@, self.src@.len() as int);
            assert(self@.end.line == old(self)@.end.line);
            assert(old(self)@.end.line <= old(self)@.end.offset + 1);
        }
        self.token_end.column = 1;
        self.token_end.line += 1;
        self.token_start = self.token_end;
        proof {
            self.start_index@ = self.index@;
        }
        Ok(())
    }

    /// The values of a binary or decimal terminal: runs of digits, joined
    /// by `-` or `.`, each emitted as a token of the given kind. A separator
    /// belongs to no token: the next value starts behind it. Returns the
    /// index of the first character of the last value.
    fn lex_values(&mut self, kind: TokenKind) -> (res: Result<Ghost<int>, Report>)
        requires
            old(self).wf(),
        ensures
            final(self).wf(),
            final(self).kept(old(self)),
            res is Ok,
            scan_values(old(self).source(), old(self)@, kind).wf(old(self).source()),
            final(self)@ == scan_values(old(self).source(), old(self)@, kind).emit(
                old(self).source(),
                kind,
            ),
            res->Ok_0@ == scan_values(old(self).source(), old(self)@, kind).start_index,
    {
        let ghost src = self.src@;
        let ghost entry = self@;
        let ghost mut first = self.start_index@;
        loop
            invariant_except_break
                scan_values(src, self@, kind) == scan_values(src, entry, kind),
            invariant
                self.wf(),
                self.kept(&*old(self)),
                self.src@ == src,
            ensures
                scan_values(src, entry, kind).wf(src),
                self@ == scan_values(src, entry, kind).emit(src, kind),
                first == scan_values(src, entry, kind).start_index,
            decreases src.len() - self@.index,
        {
            let ghost before = self@;
            proof {
                first = self.start_index@;
                lemma_values_after_digits(src, before, kind);
                lemma_run_end_stops(src, CharClass::Digit, before.index);
                lemma_run_end_bounds(src, CharClass::Digit, before.index);
            }
            self.lex_number_literal(kind)?;
            let mut joined = self.advance_if_next_is('-')?;
            if !joined {
                joined = self.advance_if_next_is('.')?;
            }
            if !joined {
                break ;
            }
            self.restart();
        }
        Ok(Ghost(first))
    }

    /// A binary terminal, behind `%b`: the text of its last value must have
    /// 7 characters, each of them `0` or `1`.
    pub fn lex_terminal_binary(&mut self) -> (res: Result<(), Report>)
        requires
            old(self).wf(),
        ensures
            final(self).wf(),
            final(self).kept(old(self)),
            outcome_of(final(self)@, res) == scan_terminal_binary(old(self).source(), old(self)@),
    {
        let Ghost(first) = self.lex_values(TokenKind::Binary)?;
        proof {
            let views = token_views(self.tokens@);
            assert(views.last() == self.tokens@.last()@);
        }
        if let Some(last) = self.tokens.last() {
            let (count, bits) = count_bits(
                self.src,
                last.pos.offset,
                last.pos.offset + last.length,
                Ghost(first),
                Ghost(self.index@),
            );
            if count != 7 {
                return Err(self.report(ReportKind::SevenBitsError, Some(self.token_end)));
            }
            if !bits {
                return Err(self.report(ReportKind::BinaryTerminalError, Some(self.token_end)));
            }
        } else {
            return Err(self.report(ReportKind::InternalLexerError, None));
        }
        Ok(())
    }

    /// A decimal terminal, behind `%d`: the text of its last value must read
    /// as an integer within the range of terminals.
    pub fn lex_terminal_decimal(&mut self) -> (res: Result<(), Report>)
        requires
            old(self).wf(),
        ensures
            final(self).wf(),
            final(self).kept(old(self)),
            outcome_of(final(self)@, res) == scan_terminal_decimal(
                old(self).source(),
                old(self).extended(),
                old(self)@,
            ),
    {
        let Ghost(first) = self.lex_values(TokenKind::Decimal)?;
        proof {
            let views = token_views(self.tokens@);
            assert(views.last() == self.tokens@.last()@);
        }
        if let Some(last) = self.tokens.last() {
            let n = parse_decimal(
                self.src,
                last.pos.offset,
                last.pos.offset + last.length,
                Ghost(first),
                Ghost(self.index@),
            );
            match n {
                Some(num) => {
                    if !within_terminal_range(num, self.config.extended) {
                        return Err(
                            self.report(ReportKind::DecimalTerminalError, Some(self.token_end)),
                        );
                    }
                },
                None => {
                    return Err(self.report(ReportKind::NaNError, Some(self.token_end)));
                },
            }
        } else {
            return Err(self.report(ReportKind::InternalLexerError, None));
        }
        Ok(())
    }

    /// A hexadecimal terminal, behind `%x`: two characters that read as a
    /// number in base 16 and, in the extended profile, the hexadecimal
    /// digits that follow them.
    pub fn lex_terminal_hexadecimal(&mut self) -> (res: Result<(), Report>)
        requires
            old(self).wf(),
        ensures
            final(self).wf(),
            final(self).kept(old(self)),
            outcome_of(final(self)@, res) == scan_terminal_hexadecimal(
                old(self).source(),
                old(self).extended(),
                old(self)@,
            ),
    {
        let ghost src = self.src@;
        let ghost at = self.index@;
        let first = match self.lead() {
            Some(b) => b,
            None => {
                return Err(self.report(ReportKind::EofError, Some(self.token_end)));
            },
        };
        let behind = lead_at(
            self.src,
            self.token_end.offset + lead_width(first),
            Ghost(self.index@ + 1),
        );
        let second = match behind {
            Some(b) => b,
            None => {
                return Err(self.report(ReportKind::EofError, Some(self.token_end)));
            },
        };
        match parse_hex_pair(first, second, Ghost(src[at]), Ghost(src[at + 1])) {
            Some(hex) => {
                self.advance()?;
                self.advance()?;
                if self.config.extended {
                    self.skip_run(CharClass::HexDigit);
                }
                self.add_token(TokenKind::Hexadecimal);
                if !within_terminal_range(hex, self.config.extended) {
                    return Err(
                        self.report(ReportKind::HexadecimalTerminalError, Some(self.token_end)),
                    );
                }
            },
            None => {
                return Err(self.report(ReportKind::NaHexNError, Some(self.token_end)));
            },
        }
        Ok(())
    }

    /// A terminal: `%`, then `b`, `d` or `x` and the values in that base.
    pub fn lex_terminal(&mut self) -> (res: Result<(), Report>)
        requires
            old(self).wf(),
            !old(self)@.at_end(old(self).source()),
        ensures
            final(self).wf(),
            final(self).kept(old(self)),
            outcome_of(final(self)@, res) == scan_terminal(
                old(self).source(),
                old(self).extended(),
                old(self)@,
            ),
    {
        self.lex_single(TokenKind::Mod)?;
        let terminal = match self.lead() {
            None => {
                return Err(self.report(ReportKind::EofError, Some(self.token_end)));
            },
            Some(b) => {
                if b == 'b' as u8 {
                    TokenKind::TerminalBinary
                } else if b == 'd' as u8 {
                    TokenKind::TerminalDecimal
                } else if b == 'x' as u8 {
                    TokenKind::TerminalHexadecimal
                } else if b == ' ' as u8 || b == '\t' as u8 {
                    return Err(
                        self.report(ReportKind::NoTerminalFoundError, Some(self.token_end)),
                    );
                } else {
                    return Err(
                        self.report(ReportKind::IncorrectTerminalFoundError, Some(self.token_end)),
                    );
                }
            },
        };
        self.lex_single(terminal)?;
        match terminal {
            TokenKind::TerminalBinary => self.lex_terminal_binary()?,
            TokenKind::TerminalDecimal => self.lex_terminal_decimal()?,
            _ => self.lex_terminal_hexadecimal()?,
        };
        Ok(())
    }

    /// The lexeme that begins with the next character, whose first byte is
    /// `start`.
    fn lex(&mut self, start: u8) -> (res: Result<(), Report>)
        requires
            old(self).wf(),
            !old(self)@.at_end(old(self).source()),
            is_lead_of(start, old(self).source()[old(self)@.index]),
        ensures
            final(self).wf(),
            final(self).kept(old(self)),
            outcome_of(final(self)@, res) == scan_lexeme(
                old(self).source(),
                old(self).extended(),
                old(self)@,
            ),
    {
        if start == '(' as u8 {
            self.lex_bracket(TokenKind::LeftParen)
        } else if start == ')' as u8 {
            self.lex_bracket(TokenKind::RightParen)
        } else if start == '[' as u8 {
            self.lex_bracket(TokenKind::LeftSquare)
        } else if start == ']' as u8 {
            self.lex_bracket(TokenKind::RightSquare)
        } else if start == '<' as u8 {
            self.lex_bracket(TokenKind::LeftAngle)
        } else if start == '>' as u8 {
            self.lex_bracket(TokenKind::RightAngle)
        } else if start == '.' as u8 {
            self.lex_single(TokenKind::Dot)
        } else if start == '-' as u8 {
            self.lex_single(TokenKind::Range)
        } else if start == '*' as u8 {
            self.lex_single(TokenKind::Star)
        } else if start == '/' as u8 {
            self.lex_single(TokenKind::Slash)
        } else if start == '=' as u8 {
            self.lex_assignment()
        } else if start == ';' as u8 {
            self.lex_comment()
        } else if start == '%' as u8 {
            self.lex_terminal()
        } else if start == ' ' as u8 || start == '\t' as u8 {
            self.lex_whitespace()
        } else if start == '\n' as u8 || start == '\r' as u8 {
            self.lex_eol()
        } else if start == '"' as u8 {
            self.lex_string_literal()
        } else if '0' as u8 <= start && start <= '9' as u8 {
            self.lex_number_literal(TokenKind::Number)
        } else if ('a' as u8 <= start && start <= 'z' as u8) || ('A' as u8 <= start && start
            <= 'Z' as u8) {
            self.lex_identifier()
        } else {
            self.advance()?;
            Err(self.report(ReportKind::UnableToParseError, Some(self.token_end)))
        }
    }

    /// Scans the rest of the text. Returns the tokens, the last of which
    /// marks the end of the input, if nothing is wrong with the text, and
    /// else everything that is wrong with it, in the order in which it was
    /// found.
    pub fn tokenize(&mut self) -> (res: Result<Vec<Token<'s>>, Vec<Report>>)
        requires
            old(self).wf(),
        ensures
            final(self).wf(),
            final(self).source() == old(self).source(),
            final(self).extended() == old(self).extended(),
            result_view(res) == tokenize_from(old(self).source(), old(self).extended(), old(self)@),
            res matches Ok(tokens) ==> forall|k: int|
                0 <= k < tokens.len() ==> (#[trigger] tokens[k])@.on_boundaries(),
            final(self)@ == scan_all(
                old(self).source(),
                old(self).extended(),
                old(self)@,
                Seq::empty(),
            ).0.emit_eof(old(self).source()),
    {
        let ghost src = self.src@;
        let ghost extended = self.config.extended;
        let ghost entry = self@;
        let mut reports: Vec<Report> = Vec::new();
        proof {
            assert(report_views(reports@) =~= Seq::empty());
        }
        while !self.is_at_end()
            invariant
                self.wf(),
                self.kept(&*old(self)),
                src == self.src@,
                extended == self.config.extended,
                scan_all(src, extended, self@, report_views(reports@)) == scan_all(
                    src,
                    extended,
                    entry,
                    Seq::empty(),
                ),
            ensures
                self@.at_end(self.src@),
            decreases src.len() - self@.index,
        {
            let start = match self.lead() {
                Some(start) => start,
                None => {
                    break ;
                },
            };
            proof {
                lemma_scan_lexeme_progress(src, extended, self@);
            }
            let ghost found = report_views(reports@);
            if let Err(report) = self.lex(start) {
                proof {
                    assert(report_views(reports@.push(report)) =~= found.push(report@));
                }
                reports.push(report);
            }
        }
        self.restart();
        self.add_token(TokenKind::EOF);
        if self.open_brackets.len() > 0 {
            let unclosed = self.report(ReportKind::UnclosedBracketError, None);
            proof {
                assert(report_views(reports@.push(unclosed)) =~= report_views(reports@).push(
                    unclosed@,
                ));
            }
            reports.push(unclosed);
        }
        if reports.len() > 0 {
            return Err(reports);
        }
        let tokens = self.tokens.clone();
        proof {
            assert forall|k: int| 0 <= k < tokens.len() implies (#[trigger] tokens[k])@.on_boundaries() by {
                assert(token_views(tokens@)[k] == tokens[k]@);
                assert(self@.tokens[k].on_boundaries());
            }
        }
        Ok(tokens)
    }
}

} // verus!
