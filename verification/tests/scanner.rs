use abnf_toolkit::config::LexerConfig;
use abnf_toolkit::lexer::Lexer;
use abnf_toolkit::position::Position;
use abnf_toolkit::report::Report;
use abnf_toolkit::report_kind::ReportKind;
use abnf_toolkit::token::Token;
use abnf_toolkit::token_kind::TokenKind;

fn scan(text: &str, extended: bool) -> Result<Vec<Token<'_>>, Vec<Report>> {
    assert!(text.len() < usize::MAX);
    let mut lexer = Lexer::new(text, LexerConfig { extended });
    lexer.tokenize()
}

fn test(
    text: &str,
    want_kinds: Option<&[TokenKind]>,
    want_report_kinds: Option<&[ReportKind]>,
    expect_error: bool,
) {
    match scan(text, false) {
        Ok(tokens) => {
            let have_kinds = tokens.iter().map(|t| t.kind.clone()).collect::<Vec<TokenKind>>();

            // safe unwrap as it is a guarantee
            assert_eq!(have_kinds, want_kinds.unwrap(), "{have_kinds:?}");
        }
        Err(err) => {
            if !expect_error {
                for e in err {
                    println!("{:?} -- {}", e.get_kind(), e.get_msg());
                }
                panic!("== test produces errors, run test command with --nocapture to see output ==")
            }

            let have_report_kinds = err.iter().map(|r| r.get_kind()).collect::<Vec<ReportKind>>();

            // safe unwrap
            assert_eq!(have_report_kinds, want_report_kinds.unwrap(), "{have_report_kinds:?}")
        }
    }
}

#[test]
fn char_delim_paren() {
    let kinds: &[TokenKind] = &[TokenKind::LeftParen, TokenKind::RightParen, TokenKind::EOF];
    test("()", Some(kinds), None, false);
}

#[test]
fn char_delim_square() {
    let kinds: &[TokenKind] = &[TokenKind::LeftSquare, TokenKind::RightSquare, TokenKind::EOF];
    test("[]", Some(kinds), None, false);
}

#[test]
fn char_delim_angle() {
    let kinds: &[TokenKind] = &[TokenKind::LeftAngle, TokenKind::RightAngle, TokenKind::EOF];
    test("<>", Some(kinds), None, false);
}

#[test]
fn char_dot() {
    let kinds: &[TokenKind] = &[TokenKind::Dot, TokenKind::EOF];
    test(".", Some(kinds), None, false);
}

#[test]
fn char_range() {
    let kinds: &[TokenKind] = &[TokenKind::Range, TokenKind::EOF];
    test("-", Some(kinds), None, false);
}

#[test]
fn char_star() {
    let kinds: &[TokenKind] = &[TokenKind::Star, TokenKind::EOF];
    test("*", Some(kinds), None, false);
}

#[test]
fn char_slash() {
    let kinds: &[TokenKind] = &[TokenKind::Slash, TokenKind::EOF];
    test("/", Some(kinds), None, false);
}

#[test]
fn char_equal() {
    let kinds: &[TokenKind] = &[TokenKind::Equal, TokenKind::EOF];
    test("=", Some(kinds), None, false);
}

#[test]
fn char_equal_slash() {
    let kinds: &[TokenKind] = &[TokenKind::EqualSlash, TokenKind::EOF];
    test("=/", Some(kinds), None, false);
}

#[test]
fn char_whitespace() {
    let kinds: &[TokenKind] = &[TokenKind::Whitespace, TokenKind::EOF];
    test(" ", Some(kinds), None, false);
}

#[test]
fn newline_safe() {
    let kinds: &[TokenKind] = &[
        TokenKind::Star,
        TokenKind::Range,
        TokenKind::EqualSlash,
        TokenKind::Equal,
        TokenKind::EOF,
    ];
    test("*\n-\n=/\n=", Some(kinds), None, false);
}

#[test]
fn comment_ignored() {
    let kinds: &[TokenKind] = &[TokenKind::Equal, TokenKind::Star, TokenKind::EOF];
    test("=; = = * *\n*", Some(kinds), None, false);
}

#[test]
fn terminal_decimal() {
    let kinds: &[TokenKind] =
        &[TokenKind::Mod, TokenKind::TerminalDecimal, TokenKind::Decimal, TokenKind::EOF];
    test("%d50", Some(kinds), None, false);
}

#[test]
fn decimal_terminal_error() {
    let kinds: &[ReportKind] = &[ReportKind::DecimalTerminalError];
    test("%d128", None, Some(kinds), true);
}

#[test]
fn decimal_nan_error() {
    let kinds: &[ReportKind] = &[ReportKind::NaNError];
    test("%dk", None, Some(kinds), true);
}

#[test]
fn terminal_binary() {
    let kinds: &[TokenKind] =
        &[TokenKind::Mod, TokenKind::TerminalBinary, TokenKind::Binary, TokenKind::EOF];
    test("%b1100110", Some(kinds), None, false);
}

#[test]
fn binary_terminal_error() {
    let kinds: &[ReportKind] = &[ReportKind::BinaryTerminalError];
    test("%b1001302", None, Some(kinds), true);
}

#[test]
fn binary_seven_bits_error() {
    let kinds: &[ReportKind] = &[ReportKind::SevenBitsError];
    test("%b110", None, Some(kinds), true);
}

#[test]
fn hex_binary() {
    let kinds: &[TokenKind] =
        &[TokenKind::Mod, TokenKind::TerminalHexadecimal, TokenKind::Hexadecimal, TokenKind::EOF];
    test("%x50", Some(kinds), None, false);
}

#[test]
fn hex_terminal_error() {
    let kinds: &[ReportKind] = &[ReportKind::HexadecimalTerminalError];
    test("%x80", None, Some(kinds), true);
}

#[test]
fn nahex_error() {
    let kinds: &[ReportKind] = &[ReportKind::NaHexNError, ReportKind::NaHexNError];
    test("%xlo\n%x \n", None, Some(kinds), true);
}

#[test]
fn string_literal() {
    let kinds: &[TokenKind] = &[TokenKind::String, TokenKind::EOF];
    test("\"string\"", Some(kinds), None, false);
}

#[test]
fn unterminated_string_error() {
    let kinds: &[ReportKind] = &[ReportKind::UnterminatedStringError];
    test("\"unterminated string", None, Some(kinds), true);
}
