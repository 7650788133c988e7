use abnf_toolkit::config::{Config, LexerConfig};
use abnf_toolkit::lexer::Lexer;
use abnf_toolkit::position::Position;
use abnf_toolkit::report::Report;
use abnf_toolkit::report_kind::ReportKind;
use abnf_toolkit::terminal::within_terminal_range;
use abnf_toolkit::token::Token;
use abnf_toolkit::token_kind::TokenKind;

fn scan(text: &str, extended: bool) -> Result<Vec<Token<'_>>, Vec<Report>> {
    assert!(text.len() < usize::MAX);
    let config = Config { lexer: LexerConfig { extended } };
    let mut lexer = Lexer::new(text, config.lexer);
    lexer.tokenize()
}

fn tokens_of(text: &str, extended: bool) -> Vec<Token<'_>> {
    match scan(text, extended) {
        Ok(tokens) => tokens,
        Err(reports) => {
            let kinds: Vec<ReportKind> = reports.iter().map(|r| r.get_kind()).collect();
            panic!("findings: {kinds:?}")
        }
    }
}

fn reports_of(text: &str, extended: bool) -> Vec<Report> {
    match scan(text, extended) {
        Ok(tokens) => {
            let kinds: Vec<TokenKind> = tokens.iter().map(|t| t.kind).collect();
            panic!("tokens: {kinds:?}")
        }
        Err(reports) => reports,
    }
}

fn kinds_of(text: &str, extended: bool) -> Vec<TokenKind> {
    tokens_of(text, extended).iter().map(|t| t.kind).collect()
}

fn faults_of(text: &str, extended: bool) -> Vec<ReportKind> {
    reports_of(text, extended).iter().map(|r| r.get_kind()).collect()
}

fn lexemes_of(text: &str, extended: bool) -> Vec<String> {
    tokens_of(text, extended).iter().map(|t| t.get_lexeme().to_string()).collect()
}

fn at(line: usize, column: usize, offset: usize) -> Position {
    Position { line, column, offset }
}

// ---------------------------------------------------------------------------
// Symbols
// ---------------------------------------------------------------------------

#[test]
fn symbols_map_one_to_one() {
    assert_eq!(
        kinds_of("(.-*/)=/=[<>]", false),
        vec![
            TokenKind::LeftParen,
            TokenKind::Dot,
            TokenKind::Range,
            TokenKind::Star,
            TokenKind::Slash,
            TokenKind::RightParen,
            TokenKind::EqualSlash,
            TokenKind::Equal,
            TokenKind::LeftSquare,
            TokenKind::LeftAngle,
            TokenKind::RightAngle,
            TokenKind::RightSquare,
            TokenKind::EOF,
        ]
    );
}

#[test]
fn symbols_have_their_places() {
    let tokens = tokens_of("(=/)", false);
    let places: Vec<(Position, usize)> = tokens.iter().map(|t| (t.pos, t.length)).collect();
    assert_eq!(
        places,
        vec![(at(1, 1, 0), 1), (at(1, 2, 1), 2), (at(1, 4, 3), 1), (at(1, 5, 4), 0)]
    );
}

#[test]
fn equal_then_equal_slash() {
    assert_eq!(
        kinds_of("==/", false),
        vec![TokenKind::Equal, TokenKind::EqualSlash, TokenKind::EOF]
    );
}

#[test]
fn empty_text_is_one_end_token() {
    let tokens = tokens_of("", false);
    assert_eq!(tokens.len(), 1);
    assert_eq!(tokens[0].kind, TokenKind::EOF);
    assert_eq!(tokens[0].pos, at(1, 1, 0));
    assert_eq!(tokens[0].length, 0);
    assert_eq!(tokens[0].get_lexeme(), "");
}

// ---------------------------------------------------------------------------
// Brackets
// ---------------------------------------------------------------------------

#[test]
fn brackets_well_nested() {
    assert_eq!(kinds_of("([<>]())", false).len(), 9);
    assert_eq!(kinds_of("()[]<>", false).len(), 7);
}

#[test]
fn bracket_unexpected_closer() {
    let reports = reports_of(" )", false);
    assert_eq!(reports.len(), 1);
    assert_eq!(reports[0].get_kind(), ReportKind::UnexpectedClosingBracketError);
    assert_eq!(reports[0].get_pos(), Some(at(1, 2, 1)));
    assert_eq!(reports[0].get_line(), " )");
}

#[test]
fn bracket_mismatched_closer() {
    let reports = reports_of("(]", false);
    assert_eq!(reports.len(), 1);
    assert_eq!(reports[0].get_kind(), ReportKind::MismatchedClosingBracketError);
    assert_eq!(reports[0].get_pos(), Some(at(1, 2, 1)));
}

#[test]
fn bracket_mismatch_closes_the_innermost() {
    // `)` takes `[` from the stack, then `]` takes `(`: both are mismatched
    // and nothing is left open.
    assert_eq!(
        faults_of("([)]", false),
        vec![
            ReportKind::MismatchedClosingBracketError,
            ReportKind::MismatchedClosingBracketError
        ]
    );
}

#[test]
fn bracket_unclosed_is_found_once() {
    assert_eq!(faults_of("(", false), vec![ReportKind::UnclosedBracketError]);
    assert_eq!(faults_of("((([[<", false), vec![ReportKind::UnclosedBracketError]);
    assert_eq!(faults_of("(()", false), vec![ReportKind::UnclosedBracketError]);
    let reports = reports_of("a\n(b", false);
    assert_eq!(reports[0].get_pos(), None);
    assert_eq!(reports[0].get_line(), "(b");
}

#[test]
fn bracket_unexpected_then_unclosed() {
    assert_eq!(
        faults_of(")(", false),
        vec![ReportKind::UnexpectedClosingBracketError, ReportKind::UnclosedBracketError]
    );
}

#[test]
fn bracket_families_do_not_close_one_another() {
    assert_eq!(faults_of("<)", false), vec![ReportKind::MismatchedClosingBracketError]);
    assert_eq!(faults_of("[>", false), vec![ReportKind::MismatchedClosingBracketError]);
    assert_eq!(faults_of("(>", false), vec![ReportKind::MismatchedClosingBracketError]);
}

// ---------------------------------------------------------------------------
// Binary terminals
// ---------------------------------------------------------------------------

#[test]
fn binary_terminal_lexemes() {
    assert_eq!(lexemes_of("%b1100110", false), vec!["%", "b", "1100110", ""]);
}

#[test]
fn binary_terminal_more_than_seven_bits() {
    assert_eq!(faults_of("%b11001100", false), vec![ReportKind::SevenBitsError]);
}

#[test]
fn binary_terminal_without_digits() {
    assert_eq!(faults_of("%b", false), vec![ReportKind::SevenBitsError]);
}

#[test]
fn binary_terminal_findings_have_the_place_behind_the_value() {
    let reports = reports_of("%b110 ", false);
    assert_eq!(reports[0].get_pos(), Some(at(1, 6, 5)));
    assert_eq!(reports[0].get_line(), "%b110 ");
}

#[test]
fn binary_terminal_sequence_is_one_token_for_each_value() {
    assert_eq!(
        kinds_of("%b1100110.1100111", false),
        vec![
            TokenKind::Mod,
            TokenKind::TerminalBinary,
            TokenKind::Binary,
            TokenKind::Binary,
            TokenKind::EOF
        ]
    );
    // The separator belongs to no token.
    assert_eq!(lexemes_of("%b1100110.1100111", false), vec!["%", "b", "1100110", "1100111", ""]);
    assert_eq!(lexemes_of("%b0000000-1111111", false), vec!["%", "b", "0000000", "1111111", ""]);
    let tokens = tokens_of("%b1100110.1100111", false);
    assert_eq!(tokens[3].pos, at(1, 11, 10));
    assert_eq!(tokens[3].length, 7);
}

#[test]
fn binary_terminal_sequence_checks_the_last_value() {
    assert_eq!(faults_of("%b1100110.110011", false), vec![ReportKind::SevenBitsError]);
    assert_eq!(faults_of("%b1100110-1100112", false), vec![ReportKind::BinaryTerminalError]);
    assert_eq!(faults_of("%b1100110.", false), vec![ReportKind::SevenBitsError]);
    // The values before the last are not checked.
    assert_eq!(lexemes_of("%b11.1100110", false), vec!["%", "b", "11", "1100110", ""]);
}

// ---------------------------------------------------------------------------
// Decimal terminals
// ---------------------------------------------------------------------------

#[test]
fn decimal_terminal_lexemes() {
    assert_eq!(lexemes_of("%d50", false), vec!["%", "d", "50", ""]);
}

#[test]
fn decimal_terminal_bounds() {
    assert!(scan("%d0", false).is_ok());
    assert!(scan("%d126", false).is_ok());
    assert_eq!(faults_of("%d127", false), vec![ReportKind::DecimalTerminalError]);
    assert!(scan("%d127", true).is_ok());
    assert!(scan("%d128", true).is_ok());
    assert!(scan("%d2147483647", true).is_ok());
    assert_eq!(faults_of("%d2147483648", true), vec![ReportKind::NaNError]);
    assert_eq!(faults_of("%d99999999999999999999999", true), vec![ReportKind::NaNError]);
    assert!(scan("%d000000000000000000000005", false).is_ok());
}

#[test]
fn decimal_terminal_range_is_one_token_for_each_value() {
    assert_eq!(
        kinds_of("%d50-60", false),
        vec![
            TokenKind::Mod,
            TokenKind::TerminalDecimal,
            TokenKind::Decimal,
            TokenKind::Decimal,
            TokenKind::EOF
        ]
    );
    // The separator belongs to no token.
    assert_eq!(lexemes_of("%d50-60", false), vec!["%", "d", "50", "60", ""]);
    assert_eq!(lexemes_of("%d13.10.0", false), vec!["%", "d", "13", "10", "0", ""]);
    let tokens = tokens_of("%d50-60", false);
    assert_eq!(tokens[3].pos, at(1, 6, 5));
    assert_eq!(tokens[3].length, 2);
}

#[test]
fn decimal_terminal_range_checks_the_last_value() {
    assert_eq!(faults_of("%d50-127", false), vec![ReportKind::DecimalTerminalError]);
    assert!(scan("%d50-127", true).is_ok());
    assert_eq!(faults_of("%d50-", false), vec![ReportKind::NaNError]);
    assert_eq!(faults_of("%d50.x", false)[0], ReportKind::NaNError);
    assert_eq!(lexemes_of("%d50--5", false), vec!["%", "d", "50", "", "5", ""]);
    // The values before the last are not checked.
    assert_eq!(lexemes_of("%d999-0", false), vec!["%", "d", "999", "0", ""]);
    assert_eq!(lexemes_of("%d-5", false), vec!["%", "d", "", "5", ""]);
}

#[test]
fn decimal_terminal_finding_place() {
    let reports = reports_of("=\n%d128 x", false);
    assert_eq!(reports.len(), 1);
    assert_eq!(reports[0].get_kind(), ReportKind::DecimalTerminalError);
    assert_eq!(reports[0].get_pos(), Some(at(2, 6, 7)));
    assert_eq!(reports[0].get_line(), "%d128 x");
    assert_eq!(reports[0].get_msg(), "decimal terminal should be in range 0..=127");
}

// ---------------------------------------------------------------------------
// Hexadecimal terminals
// ---------------------------------------------------------------------------

#[test]
fn hexadecimal_terminal_lexemes() {
    assert_eq!(lexemes_of("%x50", false), vec!["%", "x", "50", ""]);
    assert_eq!(lexemes_of("%x7E", false), vec!["%", "x", "7E", ""]);
    assert_eq!(lexemes_of("%x7e", false), vec!["%", "x", "7e", ""]);
}

#[test]
fn hexadecimal_terminal_bounds() {
    assert_eq!(faults_of("%x7F", false), vec![ReportKind::HexadecimalTerminalError]);
    assert_eq!(faults_of("%xff", false), vec![ReportKind::HexadecimalTerminalError]);
    assert!(scan("%x80", true).is_ok());
    assert!(scan("%xFF", true).is_ok());
}

#[test]
fn hexadecimal_terminal_takes_two_characters() {
    assert_eq!(
        kinds_of("%x5050", false),
        vec![
            TokenKind::Mod,
            TokenKind::TerminalHexadecimal,
            TokenKind::Hexadecimal,
            TokenKind::Number,
            TokenKind::EOF
        ]
    );
    assert_eq!(lexemes_of("%x5050", false), vec!["%", "x", "50", "50", ""]);
}

#[test]
fn hexadecimal_terminal_extended_takes_all_digits() {
    assert_eq!(lexemes_of("%x50aF09 ", true), vec!["%", "x", "50aF09", " ", ""]);
    assert_eq!(lexemes_of("%x50g", true), vec!["%", "x", "50", "g", ""]);
}

#[test]
fn hexadecimal_terminal_too_short() {
    assert_eq!(faults_of("%x", false), vec![ReportKind::EofError]);
    assert_eq!(faults_of("%x5", false)[0], ReportKind::EofError);
    let reports = reports_of("%x", false);
    assert_eq!(reports[0].get_pos(), Some(at(1, 3, 2)));
}

#[test]
fn hexadecimal_terminal_counts_characters() {
    // One character of two bytes is one character too few.
    assert_eq!(faults_of("%x\u{e9}", false)[0], ReportKind::EofError);
    assert_eq!(faults_of("%xa\u{e9}", false)[0], ReportKind::NaHexNError);
}

#[test]
fn hexadecimal_terminal_not_a_number() {
    // Nothing is consumed: `lo` is scanned as an identifier.
    let reports = reports_of("%xlo", false);
    assert_eq!(reports.len(), 1);
    assert_eq!(reports[0].get_kind(), ReportKind::NaHexNError);
    assert_eq!(reports[0].get_pos(), Some(at(1, 3, 2)));
    assert_eq!(faults_of("%x5g", false), vec![ReportKind::NaHexNError]);
    assert_eq!(faults_of("%x-5", false)[0], ReportKind::NaHexNError);
}

#[test]
fn hexadecimal_terminal_with_a_sign() {
    assert_eq!(lexemes_of("%x+5", false), vec!["%", "x", "+5", ""]);
    assert_eq!(faults_of("%x++", false)[0], ReportKind::NaHexNError);
}

// ---------------------------------------------------------------------------
// Terminal markers
// ---------------------------------------------------------------------------

#[test]
fn terminal_marker_at_the_end() {
    let reports = reports_of("%", false);
    assert_eq!(reports.len(), 1);
    assert_eq!(reports[0].get_kind(), ReportKind::EofError);
    assert_eq!(reports[0].get_pos(), Some(at(1, 2, 1)));
}

#[test]
fn terminal_marker_before_a_blank() {
    assert_eq!(faults_of("% b", false), vec![ReportKind::NoTerminalFoundError]);
    assert_eq!(faults_of("%\tb", false), vec![ReportKind::NoTerminalFoundError]);
}

#[test]
fn terminal_marker_before_another_character() {
    assert_eq!(faults_of("%q", false), vec![ReportKind::IncorrectTerminalFoundError]);
    assert_eq!(faults_of("%\n", false), vec![ReportKind::IncorrectTerminalFoundError]);
    assert_eq!(faults_of("%B1100110", false), vec![ReportKind::IncorrectTerminalFoundError]);
}

// ---------------------------------------------------------------------------
// Strings
// ---------------------------------------------------------------------------

#[test]
fn string_lexeme_keeps_its_quotes() {
    let tokens = tokens_of("\"abc\"", false);
    assert_eq!(tokens.len(), 2);
    assert_eq!(tokens[0].kind, TokenKind::String);
    assert_eq!(tokens[0].get_lexeme(), "\"abc\"");
    assert_eq!(tokens[0].pos, at(1, 1, 0));
    assert_eq!(tokens[0].length, 5);
}

#[test]
fn string_unterminated_has_no_token() {
    let reports = reports_of("\"abc", false);
    assert_eq!(reports.len(), 1);
    assert_eq!(reports[0].get_kind(), ReportKind::UnterminatedStringError);
    assert_eq!(reports[0].get_pos(), Some(at(1, 1, 0)));
    assert_eq!(reports[0].get_line(), "\"abc");
}

#[test]
fn string_empty() {
    assert_eq!(lexemes_of("\"\"", false), vec!["\"\"", ""]);
}

#[test]
fn string_holds_any_character() {
    let text = "\"a;%(\u{e9}\n\" *";
    let tokens = tokens_of(text, false);
    assert_eq!(tokens[0].get_lexeme(), "\"a;%(\u{e9}\n\"");
    assert_eq!(tokens[0].length, 9);
    // A line feed inside a string begins no line.
    assert_eq!(tokens[2].kind, TokenKind::Star);
    assert_eq!(tokens[2].pos, at(1, 11, 10));
}

// ---------------------------------------------------------------------------
// Numbers, identifiers, white space
// ---------------------------------------------------------------------------

#[test]
fn number_is_a_run_of_digits() {
    assert_eq!(lexemes_of("0123 45", false), vec!["0123", " ", "45", ""]);
    assert_eq!(
        kinds_of("0123 45", false),
        vec![TokenKind::Number, TokenKind::Whitespace, TokenKind::Number, TokenKind::EOF]
    );
}

#[test]
fn identifier_takes_letters_digits_and_hyphens() {
    assert_eq!(lexemes_of("rule-name1 = b2-", false), vec!["rule-name1", " ", "=", " ", "b2-", ""]);
    assert_eq!(
        kinds_of("a1.b", false),
        vec![TokenKind::Identifier, TokenKind::Dot, TokenKind::Identifier, TokenKind::EOF]
    );
    assert_eq!(
        kinds_of("1a", false),
        vec![TokenKind::Number, TokenKind::Identifier, TokenKind::EOF]
    );
}

#[test]
fn whitespace_is_one_token_for_a_run() {
    let tokens = tokens_of(" \t  *", false);
    assert_eq!(tokens[0].kind, TokenKind::Whitespace);
    assert_eq!(tokens[0].length, 4);
    assert_eq!(tokens[1].pos, at(1, 5, 4));
}

// ---------------------------------------------------------------------------
// Lines
// ---------------------------------------------------------------------------

#[test]
fn line_feed_begins_a_line() {
    let tokens = tokens_of("ab\ncd\n\nef", false);
    let places: Vec<Position> = tokens.iter().map(|t| t.pos).collect();
    assert_eq!(places, vec![at(1, 1, 0), at(2, 1, 3), at(4, 1, 7), at(4, 3, 9)]);
}

#[test]
fn carriage_return_and_line_feed_are_one_end_of_line() {
    let tokens = tokens_of("ab\r\ncd", false);
    let places: Vec<Position> = tokens.iter().map(|t| t.pos).collect();
    assert_eq!(places, vec![at(1, 1, 0), at(2, 1, 4), at(2, 3, 6)]);
}

#[test]
fn lone_carriage_return_is_an_internal_error() {
    let reports = reports_of("ab\rcd", false);
    assert_eq!(reports.len(), 1);
    assert_eq!(reports[0].get_kind(), ReportKind::InternalLexerError);
    assert_eq!(reports[0].get_pos(), None);
    assert_eq!(reports[0].get_line(), "ab\rcd");
    assert_eq!(faults_of("\r", false), vec![ReportKind::InternalLexerError]);
}

#[test]
fn findings_quote_their_line() {
    let reports = reports_of("a\n)\r\n b ]\n", false);
    assert_eq!(reports.len(), 2);
    assert_eq!(reports[0].get_line(), ")\r");
    assert_eq!(reports[0].get_pos(), Some(at(2, 1, 2)));
    assert_eq!(reports[1].get_line(), " b ]");
    assert_eq!(reports[1].get_pos(), Some(at(3, 4, 8)));
}

#[test]
fn two_texts_joined_by_a_line_feed_scan_one_behind_the_other() {
    let a = "a = %d50-60 ; one\r\n  / (b c)";
    let b = "%x41 \"s\"\nlast ; two";
    let joined = format!("{a}\n{b}");
    let first = tokens_of(a, false);
    let second = tokens_of(b, false);
    let whole = tokens_of(&joined, false);
    let end = first[first.len() - 1];
    assert_eq!(end.kind, TokenKind::EOF);
    assert_eq!(end.pos, at(2, 10, 28));
    assert_eq!(whole.len(), first.len() - 1 + second.len());
    let places = |t: &Token| (t.kind, t.pos.line, t.pos.column, t.pos.offset, t.length);
    for (t, f) in whole.iter().zip(first[..first.len() - 1].iter()) {
        assert_eq!(places(t), places(f));
        assert_eq!(t.get_lexeme(), f.get_lexeme());
    }
    for (t, s) in whole[first.len() - 1..].iter().zip(second.iter()) {
        assert_eq!(t.kind, s.kind);
        assert_eq!(t.length, s.length);
        assert_eq!(t.pos.column, s.pos.column);
        assert_eq!(t.pos.line, s.pos.line + end.pos.line);
        assert_eq!(t.pos.offset, s.pos.offset + a.len() + 1);
        assert_eq!(t.get_lexeme(), s.get_lexeme());
    }
    assert_eq!(whole.last().map(|t| t.pos), Some(at(4, 11, 48)));
}

#[test]
fn rest_of_a_text_scans_as_it_does_alone() {
    // Behind two lines of 16 bytes, every token of the rest has the kind,
    // column and length that it has when the rest is scanned by itself.
    let head = "first = %d65\r\n;\n";
    let rest = "second =/ (a / \"b\")\n  third";
    let text = format!("{head}{rest}");
    assert_eq!(head.len(), 16);
    let whole = tokens_of(&text, false);
    let alone = tokens_of(rest, false);
    let skipped = whole.len() - alone.len();
    assert_eq!(skipped, 7);
    for (t, a) in whole[skipped..].iter().zip(alone.iter()) {
        assert_eq!(t.kind, a.kind);
        assert_eq!(t.length, a.length);
        assert_eq!(t.pos.column, a.pos.column);
        assert_eq!(t.pos.line, a.pos.line + 2);
        assert_eq!(t.pos.offset, a.pos.offset + 16);
        assert_eq!(t.get_lexeme(), a.get_lexeme());
    }
}

// ---------------------------------------------------------------------------
// Comments
// ---------------------------------------------------------------------------

#[test]
fn comment_leaves_the_line_feed() {
    let tokens = tokens_of("; a comment ( % \"\n*", false);
    let places: Vec<(TokenKind, Position)> = tokens.iter().map(|t| (t.kind, t.pos)).collect();
    assert_eq!(
        places,
        vec![(TokenKind::Star, at(2, 1, 18)), (TokenKind::EOF, at(2, 2, 19))]
    );
}

#[test]
fn comment_at_the_end_of_the_text() {
    let tokens = tokens_of("=;abc", false);
    assert_eq!(tokens.len(), 2);
    assert_eq!(tokens[0].kind, TokenKind::Equal);
    // The end-of-input token has no length and stands at the end.
    assert_eq!(tokens[1].kind, TokenKind::EOF);
    assert_eq!(tokens[1].pos, at(1, 6, 5));
    assert_eq!(tokens[1].length, 0);
}

#[test]
fn comment_before_carriage_return() {
    let tokens = tokens_of(";c\r\n*", false);
    assert_eq!(tokens[0].kind, TokenKind::Star);
    assert_eq!(tokens[0].pos, at(2, 1, 4));
}

// ---------------------------------------------------------------------------
// Characters that begin no lexeme
// ---------------------------------------------------------------------------

#[test]
fn unknown_character_is_found_behind_itself() {
    let reports = reports_of("a @", false);
    assert_eq!(reports.len(), 1);
    assert_eq!(reports[0].get_kind(), ReportKind::UnableToParseError);
    assert_eq!(reports[0].get_pos(), Some(at(1, 4, 3)));
    assert_eq!(reports[0].get_line(), "a @");
}

#[test]
fn unknown_character_does_not_stop_the_scan() {
    assert_eq!(
        faults_of("@ ) # (", false),
        vec![
            ReportKind::UnableToParseError,
            ReportKind::UnexpectedClosingBracketError,
            ReportKind::UnableToParseError,
            ReportKind::UnclosedBracketError
        ]
    );
}

#[test]
fn unknown_character_of_several_bytes() {
    // Offset and column count bytes.
    let reports = reports_of("\u{e9}", false);
    assert_eq!(reports.len(), 1);
    assert_eq!(reports[0].get_pos(), Some(at(1, 3, 2)));
    let reports = reports_of("\u{20ac}\u{1f600}", false);
    assert_eq!(reports.len(), 2);
    assert_eq!(reports[0].get_pos(), Some(at(1, 4, 3)));
    assert_eq!(reports[1].get_pos(), Some(at(1, 8, 7)));
    assert_eq!(reports[1].get_line(), "\u{20ac}\u{1f600}");
}

#[test]
fn unterminated_string_behind_an_unknown_character() {
    // The unknown character begins the text that the string is part of.
    let reports = reports_of("@\"abc", false);
    assert_eq!(reports.len(), 2);
    assert_eq!(reports[1].get_kind(), ReportKind::UnterminatedStringError);
    assert_eq!(reports[1].get_pos(), Some(at(1, 1, 0)));
}

// ---------------------------------------------------------------------------
// The scanner as a whole
// ---------------------------------------------------------------------------

#[test]
fn a_rule_is_scanned() {
    let text = "rule = 1*DIGIT / %d48-57 / \"a\" ; comment\n";
    assert_eq!(
        lexemes_of(text, false),
        vec![
            "rule", " ", "=", " ", "1", "*", "DIGIT", " ", "/", " ", "%", "d", "48", "57", " ",
            "/", " ", "\"a\"", " ", ""
        ]
    );
}

#[test]
fn every_finding_of_one_pass_is_returned() {
    assert_eq!(
        faults_of("%b110 %d200 %x80 \")", false),
        vec![
            ReportKind::SevenBitsError,
            ReportKind::DecimalTerminalError,
            ReportKind::HexadecimalTerminalError,
            ReportKind::UnterminatedStringError
        ]
    );
}

#[test]
fn scanner_goes_on_from_where_it_is() {
    let mut lexer = Lexer::new("*", LexerConfig { extended: false });
    assert_eq!(lexer.tokenize().map(|t| t.len()).unwrap_or(0), 2);
    // At the end of the text one more scan adds one more end-of-input token.
    let again = lexer.tokenize().unwrap_or_default();
    let kinds: Vec<TokenKind> = again.iter().map(|t| t.kind).collect();
    assert_eq!(kinds, vec![TokenKind::Star, TokenKind::EOF, TokenKind::EOF]);
}

// ---------------------------------------------------------------------------
// The parts
// ---------------------------------------------------------------------------

#[test]
fn terminal_range_rule() {
    assert!(within_terminal_range(0, false));
    assert!(within_terminal_range(126, false));
    assert!(!within_terminal_range(127, false));
    assert!(within_terminal_range(127, true));
    assert!(within_terminal_range(i32::MAX, true));
    assert!(!within_terminal_range(-1, false));
    assert!(!within_terminal_range(-1, true));
    assert!(!within_terminal_range(i32::MIN, true));
}

#[test]
fn position_starts_at_line_one_column_one() {
    assert_eq!(Position::new(), at(1, 1, 0));
}

#[test]
fn report_says_what_it_was_given() {
    let report = Report::new(ReportKind::NaNError, Some(at(2, 3, 4)), "%dk".to_string());
    assert_eq!(report.get_kind(), ReportKind::NaNError);
    assert_eq!(report.get_msg(), "expected a number");
    assert_eq!(report.get_pos(), Some(at(2, 3, 4)));
    assert_eq!(report.get_line(), "%dk");
    let report = Report::new(ReportKind::UnclosedBracketError, None, String::new());
    assert_eq!(report.get_pos(), None);
    assert_eq!(report.get_line(), "");
}

#[test]
fn report_kind_messages() {
    let messages = [
        (ReportKind::UnableToParseError, "lexer was unable to tokenize file"),
        (ReportKind::UnableToAdvanceError, "Unable To advance tokenstream"),
        (ReportKind::InternalLexerError, "you should never see this error"),
        (ReportKind::EofError, "reached end of file before complete expression"),
        (ReportKind::MismatchedClosingBracketError, "one or more brackets are never closed"),
        (ReportKind::UnexpectedClosingBracketError, "unexpected closing bracket"),
        (ReportKind::UnclosedBracketError, "one or more brackets are never closed"),
        (ReportKind::NoTerminalFoundError, "expected terminal (b, d, x) after %, found none"),
        (ReportKind::IncorrectTerminalFoundError, "expected terminal (b, d, x) after %"),
        (ReportKind::BinaryTerminalError, "expected binary representation (0, 1)"),
        (ReportKind::SevenBitsError, "expected 7 bits after terminal received more or less"),
        (ReportKind::DecimalTerminalError, "decimal terminal should be in range 0..=127"),
        (ReportKind::HexadecimalTerminalError, "hexadecimal terminal should be in range 00..=7E"),
        (ReportKind::UnterminatedStringError, "string was never closed"),
        (ReportKind::NaNError, "expected a number"),
        (ReportKind::NaHexNError, "expected a 2 character hexadecimal"),
    ];
    for (kind, message) in messages {
        assert_eq!(kind.msg(), message);
    }
}

#[test]
fn token_lexeme_is_cut_from_its_source() {
    let token = Token { kind: TokenKind::Identifier, pos: at(1, 3, 2), length: 3, src: "a \u{e9}bc" };
    assert_eq!(token.get_lexeme(), "\u{e9}b");
}

// ---------------------------------------------------------------------------
// One lexeme at a time
// ---------------------------------------------------------------------------

#[test]
fn advance_fails_at_the_end_of_the_text() {
    let mut lexer = Lexer::new("ab", LexerConfig { extended: false });
    assert!(!lexer.is_at_end());
    assert!(lexer.advance().is_ok());
    assert!(lexer.advance().is_ok());
    assert!(lexer.is_at_end());
    match lexer.advance() {
        Ok(()) => panic!("advanced beyond the end"),
        Err(report) => {
            assert_eq!(report.get_kind(), ReportKind::UnableToAdvanceError);
            assert_eq!(report.get_pos(), None);
            assert_eq!(report.get_line(), "ab");
        }
    }
    assert!(lexer.is_at_end());
}

#[test]
fn comment_by_itself_emits_nothing() {
    let mut lexer = Lexer::new("; ( c\n*", LexerConfig { extended: false });
    assert!(lexer.lex_comment().is_ok());
    assert!(!lexer.is_at_end());
    let tokens = lexer.tokenize().unwrap_or_default();
    let places: Vec<(TokenKind, Position)> = tokens.iter().map(|t| (t.kind, t.pos)).collect();
    assert_eq!(places, vec![(TokenKind::Star, at(2, 1, 6)), (TokenKind::EOF, at(2, 2, 7))]);
}

#[test]
fn assignment_by_itself_is_one_token() {
    let mut lexer = Lexer::new("=/=x", LexerConfig { extended: false });
    assert!(lexer.lex_assignment().is_ok());
    assert!(lexer.lex_assignment().is_ok());
    let tokens = lexer.tokenize().unwrap_or_default();
    let found: Vec<(TokenKind, usize, usize)> =
        tokens.iter().map(|t| (t.kind, t.pos.offset, t.length)).collect();
    assert_eq!(
        found,
        vec![
            (TokenKind::EqualSlash, 0, 2),
            (TokenKind::Equal, 2, 1),
            (TokenKind::Identifier, 3, 1),
            (TokenKind::EOF, 4, 0)
        ]
    );
}

#[test]
fn closer_by_itself_takes_the_innermost_open_bracket() {
    let mut lexer = Lexer::new("(])", LexerConfig { extended: false });
    assert!(lexer.lex_bracket(TokenKind::LeftParen).is_ok());
    // A closer of another family is consumed and found wrong where it stood.
    match lexer.close_bracket(TokenKind::RightSquare) {
        Ok(()) => panic!("closed a bracket of another family"),
        Err(report) => {
            assert_eq!(report.get_kind(), ReportKind::MismatchedClosingBracketError);
            assert_eq!(report.get_pos(), Some(at(1, 2, 1)));
        }
    }
    // Nothing is open any more.
    match lexer.close_bracket(TokenKind::RightParen) {
        Ok(()) => panic!("closed a bracket that was not open"),
        Err(report) => {
            assert_eq!(report.get_kind(), ReportKind::UnexpectedClosingBracketError);
            assert_eq!(report.get_pos(), Some(at(1, 3, 2)));
        }
    }
    assert!(lexer.is_at_end());
}

#[test]
fn closer_of_the_open_family_is_left_to_be_consumed() {
    let mut lexer = Lexer::new("<>", LexerConfig { extended: false });
    assert!(lexer.lex_bracket(TokenKind::LeftAngle).is_ok());
    assert!(lexer.close_bracket(TokenKind::RightAngle).is_ok());
    assert!(!lexer.is_at_end());
    assert!(lexer.lex_single(TokenKind::RightAngle).is_ok());
    assert!(lexer.is_at_end());
    assert_eq!(lexer.tokenize().map(|t| t.len()).unwrap_or(0), 3);
}

#[test]
fn binary_values_by_themselves() {
    let mut lexer = Lexer::new("1100110.1100111", LexerConfig { extended: false });
    assert!(lexer.lex_terminal_binary().is_ok());
    let tokens = lexer.tokenize().unwrap_or_default();
    let found: Vec<(TokenKind, &str)> = tokens.iter().map(|t| (t.kind, t.get_lexeme())).collect();
    assert_eq!(
        found,
        vec![
            (TokenKind::Binary, "1100110"),
            (TokenKind::Binary, "1100111"),
            (TokenKind::EOF, "")
        ]
    );
}

#[test]
fn decimal_values_by_themselves() {
    let mut lexer = Lexer::new("50-60", LexerConfig { extended: false });
    assert!(lexer.lex_terminal_decimal().is_ok());
    let mut lexer = Lexer::new("50-600", LexerConfig { extended: false });
    assert!(lexer.lex_terminal_decimal().is_err());
    let mut lexer = Lexer::new("50-600", LexerConfig { extended: true });
    assert!(lexer.lex_terminal_decimal().is_ok());
}
