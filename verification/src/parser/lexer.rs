//! The first scanner and the model of what it does.

use vstd::prelude::*;
use vstd::string::StrSliceExecFns;
use crate::lexer::{fits, report_views};
use crate::parser::token::{literal_view, Token, TokenLiteral, TokenType, TokenView};
use crate::position::{Location, Position};
use crate::report::{Report, ReportView};
use crate::report_kind::ReportKind;
use crate::scan::with_report;
use crate::text::{byte_offset, lemma_encoded_len};

verus! {

// ---------------------------------------------------------------------------
// The model
// ---------------------------------------------------------------------------

/// The character with the given index, if the text has one.
pub open spec fn char_at(src: Seq<char>, i: int) -> Option<char> {
    if 0 <= i < src.len() {
        Some(src[i])
    } else {
        None
    }
}

/// The characters of a text from index `start` up to index `end`, both cut
/// down to the length of the text; nothing where `end` is not behind `start`.
pub open spec fn substring_of(src: Seq<char>, start: int, end: int) -> Seq<char> {
    if end <= start {
        Seq::empty()
    } else {
        let from = if start < src.len() {
            start
        } else {
            src.len() as int
        };
        let to = if end < src.len() {
            end
        } else {
            src.len() as int
        };
        src.subrange(from, to)
    }
}

/// The number of bytes of a text. The scanner counts characters, and stops
/// when it has counted as many as the text has bytes.
pub open spec fn byte_len(src: Seq<char>) -> int {
    byte_offset(src, src.len() as int)
}

/// The kind of token that a character is by itself, if it is one.
pub open spec fn plain_kind(c: char) -> Option<TokenType> {
    if c == '(' {
        Some(TokenType::LeftParen)
    } else if c == ')' {
        Some(TokenType::RightParen)
    } else if c == '[' {
        Some(TokenType::LeftSquare)
    } else if c == ']' {
        Some(TokenType::RightSquare)
    } else if c == '.' {
        Some(TokenType::Dot)
    } else if c == '-' {
        Some(TokenType::Minus)
    } else if c == '*' {
        Some(TokenType::Star)
    } else {
        None
    }
}

/// How far a scan has come.
pub struct Progress {
    /// The index of the first character of the current token.
    pub start: int,
    /// The number of characters counted.
    pub current: int,
    /// The place of the scan: its line, and its column, which counts the
    /// characters of the line.
    pub pos: Location,
    /// The tokens found so far.
    pub tokens: Seq<TokenView>,
}

impl Progress {
    /// The state in which a scan begins.
    pub open spec fn initial() -> Progress {
        Progress { start: 0, current: 0, pos: Location::origin(), tokens: Seq::empty() }
    }

    /// The state after `n` more characters are counted.
    pub open spec fn step(self, n: int) -> Progress {
        Progress {
            current: self.current + n,
            pos: Location { column: self.pos.column + n, ..self.pos },
            ..self
        }
    }

    /// The state after a token of the given kind is emitted: its text are the
    /// characters from the start of the token up to the current one, its
    /// place is that of the scan.
    pub open spec fn emit(self, src: Seq<char>, kind: TokenType) -> Progress {
        Progress {
            tokens: self.tokens.push(
                TokenView {
                    kind,
                    lexeme: substring_of(src, self.start, self.current),
                    literal: None,
                    pos: self.pos,
                },
            ),
            ..self
        }
    }

    /// The state at the start of the next line: column 0 of the line behind.
    pub open spec fn next_line(self) -> Progress {
        Progress {
            pos: Location { line: self.pos.line + 1, column: 0, offset: self.pos.offset },
            ..self
        }
    }

    /// The token that marks the end of the input.
    pub open spec fn end_token(self) -> TokenView {
        TokenView { kind: TokenType::EOF, lexeme: Seq::empty(), literal: None, pos: self.pos }
    }

    /// The state is one that a scan of `src` can be in.
    pub open spec fn wf(self, src: Seq<char>) -> bool {
        &&& 0 <= self.start <= self.current <= byte_len(src)
        &&& 0 <= self.pos.column <= self.current + 1
        &&& 1 <= self.pos.line <= self.current + 1
    }
}

/// A finding of the first scanner: it quotes no line.
pub open spec fn finding(pos: Option<Location>) -> ReportView {
    ReportView { kind: ReportKind::UnableToParseError, pos, line: Seq::empty() }
}

/// One token, or what else begins at the current character. The character
/// is counted first. Brackets, `.`, `-` and `*` are tokens; `=` is one, or
/// `=/` where a slash follows, and also where no character can be read
/// behind it before the count reaches the number of bytes. A semicolon
/// begins a comment, which reaches to the end of the text unless a line
/// feed follows the semicolon at once. Spaces, tabs and carriage returns
/// are passed over, a line feed begins the next line. Any other character is
/// found wrong at the place behind it, and so is a count at which the text
/// has no character.
pub open spec fn scan_token(src: Seq<char>, st: Progress) -> (Progress, Option<ReportView>) {
    let at = st.step(1);
    let limit = byte_len(src);
    match char_at(src, st.current) {
        None => (at, Some(finding(None))),
        Some(c) => if plain_kind(c) is Some {
            (at.emit(src, plain_kind(c)->0), None)
        } else if c == ';' {
            if at.current < limit && char_at(src, at.current) is Some && char_at(src, at.current)
                != Some('\n') {
                (at.step(limit - at.current), None)
            } else {
                (at, None)
            }
        } else if c == '=' {
            if at.current < limit && (char_at(src, at.current) == Some('/') || char_at(
                src,
                at.current,
            ) is None) {
                (at.step(1).emit(src, TokenType::EqualSlash), None)
            } else {
                (at.emit(src, TokenType::Equal), None)
            }
        } else if c == ' ' || c == '\r' || c == '\t' {
            (at, None)
        } else if c == '\n' {
            (at.next_line(), None)
        } else {
            (at, Some(finding(Some(at.pos))))
        },
    }
}

/// The scan from a state to the end of the text: the state at the end, and
/// the findings in the order in which they were made, behind those found
/// before. Each token starts at the character that is current when its scan
/// begins.
pub open spec fn scan_rest(src: Seq<char>, st: Progress, found: Seq<ReportView>) -> (
    Progress,
    Seq<ReportView>,
)
    decreases byte_len(src) - st.current,
{
    if st.current < byte_len(src) {
        let (next, report) = scan_token(src, Progress { start: st.current, ..st });
        scan_rest(src, next, with_report(found, report))
    } else {
        (st, found)
    }
}

/// What a scan returns that goes on from the given state: the findings if
/// there is any, and else the tokens, with the end-of-input token as their
/// last.
pub open spec fn scan_from(src: Seq<char>, st: Progress) -> Result<
    Seq<TokenView>,
    Seq<ReportView>,
> {
    let (last, found) = scan_rest(src, st, Seq::empty());
    if found.len() > 0 {
        Err(found)
    } else {
        Ok(last.tokens.push(last.end_token()))
    }
}

/// The views of a sequence of tokens.
pub open spec fn token_views(tokens: Seq<Token>) -> Seq<TokenView> {
    tokens.map_values(|t: Token| t@)
}

/// The view of what a scan returns.
pub open spec fn result_view(res: Result<Vec<Token>, Vec<Report>>) -> Result<
    Seq<TokenView>,
    Seq<ReportView>,
> {
    match res {
        Ok(tokens) => Ok(token_views(tokens@)),
        Err(reports) => Err(report_views(reports@)),
    }
}

// ---------------------------------------------------------------------------
// The scanner
// ---------------------------------------------------------------------------

/// `substring::Substring::substring` on a `str`. It returns the characters
/// of the text from index `start` up to index `end`, where an index beyond
/// the text counts as its end, and the empty text where `end` is not behind
/// `start`.
#[verifier::external_body]
fn substring<'a>(text: &'a str, start: usize, end: usize) -> (part: &'a str)
    ensures
        part@ == substring_of(text@, start as int, end as int),
{
    substring::Substring::substring(text, start, end)
}

/// Tokens that say the same as the given ones.
fn duplicate_all(tokens: &Vec<Token>) -> (copy: Vec<Token>)
    ensures
        token_views(copy@) == token_views(tokens@),
{
    let mut copy: Vec<Token> = Vec::new();
    let mut i: usize = 0;
    while i < tokens.len()
        invariant
            0 <= i <= tokens.len(),
            copy.len() == i,
            forall|k: int| 0 <= k < i ==> (#[trigger] copy[k])@ == tokens[k]@,
        decreases tokens.len() - i,
    {
        copy.push(tokens[i].duplicate());
        i += 1;
    }
    proof {
        assert(token_views(copy@) =~= token_views(tokens@));
    }
    copy
}

/// The first scanner, over a text of its own.
pub struct Lexer {
    source: String,
    pos: Position,
    start: usize,
    current: usize,
    tokens: Vec<Token>,
}

impl View for Lexer {
    type V = Progress;

    /// How far the scanner has come.
    closed spec fn view(&self) -> Progress {
        Progress {
            start: self.start as int,
            current: self.current as int,
            pos: self.pos@,
            tokens: token_views(self.tokens@),
        }
    }
}

impl Lexer {
    /// The text that is scanned.
    pub closed spec fn source(&self) -> Seq<char> {
        self.source@
    }

    /// The scanner is in a state that a scan of its text can be in.
    pub closed spec fn wf(&self) -> bool {
        &&& fits(self.source@)
        &&& self@.wf(self.source@)
    }

    /// A scanner at the start of `source`.
    pub fn new(source: String) -> (lexer: Self)
        requires
            fits(source@),
        ensures
            lexer.wf(),
            lexer.source() == source@,
            lexer@ == Progress::initial(),
    {
        let tokens: Vec<Token> = Vec::new();
        proof {
            assert(token_views(tokens@) =~= Seq::empty());
            lemma_encoded_len(source@);
        }
        Lexer { source, pos: Position::new(), start: 0, current: 0, tokens }
    }

    /// Scans the rest of the text. Returns the tokens, the last of which
    /// marks the end of the input, if nothing is wrong with the text, and
    /// else everything that is wrong with it.
    pub fn scan_tokens(&mut self) -> (res: Result<Vec<Token>, Vec<Report>>)
        requires
            old(self).wf(),
        ensures
            final(self).wf(),
            final(self).source() == old(self).source(),
            result_view(res) == scan_from(old(self).source(), old(self)@),
    {
        let ghost src = self.source@;
        let ghost entry = self@;
        let mut reports: Vec<Report> = Vec::new();
        proof {
            assert(report_views(reports@) =~= Seq::empty());
        }
        while !self.is_at_end()
            invariant
                self.wf(),
                self.source@ == src,
                scan_rest(src, self@, report_views(reports@)) == scan_rest(
                    src,
                    entry,
                    Seq::empty(),
                ),
            decreases byte_len(src) - self@.current,
        {
            self.start = self.current;
            let ghost found = report_views(reports@);
            if let Err(report) = self.scan_token() {
                proof {
                    assert(report_views(reports@.push(report)) =~= found.push(report@));
                }
                reports.push(report);
            }
        }
        let end = Token::new(TokenType::EOF, String::new(), None, self.pos);
        proof {
            assert(token_views(self.tokens@.push(end)) =~= token_views(self.tokens@).push(end@));
        }
        self.tokens.push(end);
        if reports.len() > 0 {
            return Err(reports);
        }
        Ok(duplicate_all(&self.tokens))
    }

    /// One token, or what else begins at the current character.
    fn scan_token(&mut self) -> (res: Result<(), Report>)
        requires
            old(self).wf(),
            old(self)@.current < byte_len(old(self).source@),
        ensures
            final(self).wf(),
            final(self).source@ == old(self).source@,
            final(self)@.current > old(self)@.current,
            (final(self)@, match res {
                Ok(_) => None,
                Err(r) => Some(r@),
            }) == scan_token(old(self).source@, old(self)@),
    {
        if let Some(character) = self.advance() {
            if character == '(' {
                self.add_token(TokenType::LeftParen)
            } else if character == ')' {
                self.add_token(TokenType::RightParen)
            } else if character == '[' {
                self.add_token(TokenType::LeftSquare)
            } else if character == ']' {
                self.add_token(TokenType::RightSquare)
            } else if character == '.' {
                self.add_token(TokenType::Dot)
            } else if character == '-' {
                self.add_token(TokenType::Minus)
            } else if character == '*' {
                self.add_token(TokenType::Star)
            } else if character == ';' {
                match self.peek() {
                    Some(peeked) => {
                        while peeked != '\n' && !self.is_at_end()
                            invariant
                                self.wf(),
                                self.source@ == old(self).source@,
                                self@.current > old(self)@.current,
                                self@ == old(self)@.step(self@.current - old(self)@.current),
                                peeked == '\n' ==> self@.current == old(self)@.current + 1,
                            decreases byte_len(self.source@) - self@.current,
                        {
                            self.advance();
                        }
                    },
                    None => {},
                }
            } else if character == '=' {
                let token = if self.if_match_advance('/') {
                    TokenType::EqualSlash
                } else {
                    TokenType::Equal
                };
                self.add_token(token)
            } else if character == ' ' || character == '\r' || character == '\t' {
            } else if character == '\n' {
                self.pos.line += 1;
                self.pos.column = 0;
            } else {
                return Err(
                    Report::new(ReportKind::UnableToParseError, Some(self.pos), String::new()),
                );
            }
            Ok(())
        } else {
            Err(Report::new(ReportKind::UnableToParseError, None, String::new()))
        }
    }

    /// Emits a token of the given kind that stands for no value.
    fn add_token(&mut self, token_type: TokenType)
        requires
            old(self).wf(),
        ensures
            final(self).wf(),
            final(self).source@ == old(self).source@,
            final(self)@ == old(self)@.emit(old(self).source@, token_type),
    {
        self.add_token_literal(token_type, None);
    }

    /// Emits a token of the given kind: its text are the characters from the
    /// start of the token up to the current one.
    fn add_token_literal(&mut self, token_type: TokenType, literal: Option<TokenLiteral>)
        requires
            old(self).wf(),
        ensures
            final(self).wf(),
            final(self).source@ == old(self).source@,
            final(self)@.start == old(self)@.start,
            final(self)@.current == old(self)@.current,
            final(self)@.pos == old(self)@.pos,
            final(self)@.tokens == old(self)@.tokens.push(
                TokenView {
                    kind: token_type,
                    lexeme: substring_of(
                        old(self).source@,
                        old(self)@.start,
                        old(self)@.current,
                    ),
                    literal: literal_view(literal),
                    pos: old(self)@.pos,
                },
            ),
    {
        let lexeme: String = substring(self.source.as_str(), self.start, self.current).to_owned();
        let token = Token::new(token_type, lexeme, literal, self.pos);
        proof {
            assert(token_views(self.tokens@.push(token)) =~= token_views(self.tokens@).push(
                token@,
            ));
        }
        self.tokens.push(token);
    }

    /// Whether as many characters are counted as the text has bytes.
    fn is_at_end(&self) -> (end: bool)
        requires
            self.wf(),
        ensures
            end == (self@.current >= byte_len(self.source@)),
    {
        proof {
            lemma_encoded_len(self.source@);
        }
        self.current >= self.source.as_str().len()
    }

    /// The character with the given index, if the text has one.
    fn nth(&self, i: usize) -> (c: Option<char>)
        ensures
            c == char_at(self.source@, i as int),
    {
        let text = self.source.as_str();
        if i < text.unicode_len() {
            Some(text.get_char(i))
        } else {
            None
        }
    }

    /// Counts the current character if it is `ch`, or if the text has no
    /// character there, and tells whether it did. At the end it does not.
    fn if_match_advance(&mut self, ch: char) -> (matched: bool)
        requires
            old(self).wf(),
        ensures
            final(self).wf(),
            final(self).source@ == old(self).source@,
            matched == (old(self)@.current < byte_len(old(self).source@) && (char_at(
                old(self).source@,
                old(self)@.current,
            ) == Some(ch) || char_at(old(self).source@, old(self)@.current) is None)),
            final(self)@ == (if matched {
                old(self)@.step(1)
            } else {
                old(self)@
            }),
    {
        if self.is_at_end() {
            return false;
        }
        if let Some(m) = self.nth(self.current) {
            if m != ch {
                return false;
            }
        }
        self.current += 1;
        self.pos.column += 1;
        return true;
    }

    /// The current character; the null character at the end.
    fn peek(&self) -> (c: Option<char>)
        requires
            self.wf(),
        ensures
            c == (if self@.current >= byte_len(self.source@) {
                Some('\0')
            } else {
                char_at(self.source@, self@.current)
            }),
    {
        if self.is_at_end() {
            return Some('\0');
        }
        self.nth(self.current)
    }

    /// The character behind the current one; the null character where the
    /// count behind the current one reaches the number of bytes.
    fn peek_next(&self) -> (c: Option<char>)
        requires
            self.wf(),
        ensures
            c == (if self@.current + 1 >= byte_len(self.source@) {
                Some('\0')
            } else {
                char_at(self.source@, self@.current + 1)
            }),
    {
        proof {
            lemma_encoded_len(self.source@);
        }
        if self.current + 1 >= self.source.as_str().len() {
            return Some('\0');
        }
        self.nth(self.current + 1)
    }

    /// Counts the current character and returns it, if the text has one
    /// there.
    fn advance(&mut self) -> (c: Option<char>)
        requires
            old(self).wf(),
            old(self)@.current < byte_len(old(self).source@),
        ensures
            final(self).wf(),
            final(self).source@ == old(self).source@,
            final(self)@ == old(self)@.step(1),
            c == char_at(old(self).source@, old(self)@.current),
    {
        self.current += 1;
        self.pos.column += 1;
        self.nth(self.current - 1)
    }
}

} // verus!
