use abnf_toolkit::parser::lexer::Lexer;
use abnf_toolkit::parser::token::{Token, TokenLiteral, TokenType};
use abnf_toolkit::position::Position;
use abnf_toolkit::report::Report;
use abnf_toolkit::report_kind::ReportKind;

fn scan(text: &str) -> Result<Vec<Token>, Vec<Report>> {
    assert!(text.len() < usize::MAX);
    let mut lexer = Lexer::new(text.to_string());
    lexer.scan_tokens()
}

fn scan_clean(text: &str) -> Vec<Token> {
    match scan(text) {
        Ok(tokens) => tokens,
        Err(reports) => panic!("{} findings", reports.len()),
    }
}

fn scan_faulty(text: &str) -> Vec<Report> {
    match scan(text) {
        Ok(tokens) => panic!("{} tokens", tokens.len()),
        Err(reports) => reports,
    }
}

fn kinds(tokens: &[Token]) -> Vec<TokenType> {
    tokens.iter().map(|t| t.get_kind()).collect()
}

#[test]
fn parse_tokens() {
    let source: String = "*\n ( [] ) \n = =/".into();

    assert!(source.len() < usize::MAX);
    let mut lexer = Lexer::new(source);

    if let Ok(tokens) = lexer.scan_tokens() {
        assert_eq!(tokens[0].get_kind(), TokenType::Star);
        assert_eq!(tokens[0].get_pos().line, 1);
        assert_eq!(tokens[6].get_kind(), TokenType::EqualSlash);
        assert_eq!(tokens[6].get_pos().line, 3);
    }
}

#[test]
fn parse_tokens_with_comments() {
    let source: String = "= =/ / ;;IGNORE\n ;IGNORE / [] \n *".into();

    assert!(source.len() < usize::MAX);
    let mut lexer = Lexer::new(source);

    match lexer.scan_tokens() {
        Ok(tokens) => {
            for t in tokens {
                println!(
                    "Token at line {} char {}: {} -- {:?}",
                    t.get_pos().line,
                    t.get_pos().column,
                    t.get_lexeme(),
                    t.get_kind()
                )
            }
        }
        Err(err) => {
            for e in err {
                println!("ERROR -- {:?} -- {}", e.get_kind(), e.get_msg())
            }
        }
    }
}

#[test]
fn first_scanner_finds_all_seven_tokens() {
    let tokens = scan_clean("*\n ( [] ) \n = =/");
    assert_eq!(
        kinds(&tokens),
        vec![
            TokenType::Star,
            TokenType::LeftParen,
            TokenType::LeftSquare,
            TokenType::RightSquare,
            TokenType::RightParen,
            TokenType::Equal,
            TokenType::EqualSlash,
            TokenType::EOF,
        ]
    );
    let lines: Vec<usize> = tokens.iter().map(|t| t.get_pos().line).collect();
    assert_eq!(lines, vec![1, 2, 2, 2, 2, 3, 3, 3]);
    // The column is counted behind the token, and starts at 0 behind a line feed.
    let columns: Vec<usize> = tokens.iter().map(|t| t.get_pos().column).collect();
    assert_eq!(columns, vec![2, 2, 4, 5, 7, 2, 5, 5]);
}

#[test]
fn first_scanner_cuts_each_lexeme_from_the_text() {
    let tokens = scan_clean("( =/ *");
    let lexemes: Vec<String> = tokens.iter().map(|t| t.get_lexeme()).collect();
    assert_eq!(lexemes, vec!["(", "=/", "*", ""]);
    assert!(tokens.iter().all(|t| t.get_literal().is_none()));
}

#[test]
fn first_scanner_empty_text() {
    let tokens = scan_clean("");
    assert_eq!(kinds(&tokens), vec![TokenType::EOF]);
    assert_eq!(tokens[0].get_pos(), Position { line: 1, column: 1, offset: 0 });
    assert_eq!(tokens[0].get_lexeme(), "");
}

#[test]
fn first_scanner_passes_over_blanks() {
    let tokens = scan_clean(" \t\r.-");
    assert_eq!(kinds(&tokens), vec![TokenType::Dot, TokenType::Minus, TokenType::EOF]);
}

#[test]
fn first_scanner_unknown_character() {
    let reports = scan_faulty("* / *");
    assert_eq!(reports.len(), 1);
    assert_eq!(reports[0].get_kind(), ReportKind::UnableToParseError);
    assert_eq!(reports[0].get_pos(), Some(Position { line: 1, column: 4, offset: 0 }));
    assert_eq!(reports[0].get_line(), "");
}

#[test]
fn first_scanner_reports_every_unknown_character() {
    let reports = scan_faulty("a*b");
    assert_eq!(reports.len(), 2);
    assert_eq!(reports[0].get_pos(), Some(Position { line: 1, column: 2, offset: 0 }));
    assert_eq!(reports[1].get_pos(), Some(Position { line: 1, column: 4, offset: 0 }));
}

#[test]
fn first_scanner_comment_runs_to_the_end_of_the_text() {
    // Anything but a line feed right behind the semicolon makes the comment
    // reach to the end of the text.
    let tokens = scan_clean("* ; abc\n*");
    assert_eq!(kinds(&tokens), vec![TokenType::Star, TokenType::EOF]);
    assert_eq!(tokens[1].get_pos(), Position { line: 1, column: 10, offset: 0 });
}

#[test]
fn first_scanner_empty_comment() {
    let tokens = scan_clean(";\n*");
    assert_eq!(kinds(&tokens), vec![TokenType::Star, TokenType::EOF]);
    assert_eq!(tokens[0].get_pos(), Position { line: 2, column: 1, offset: 0 });
}

#[test]
fn first_scanner_semicolon_at_the_end() {
    let tokens = scan_clean("*;");
    assert_eq!(kinds(&tokens), vec![TokenType::Star, TokenType::EOF]);
}

#[test]
fn first_scanner_equal_at_the_end() {
    let tokens = scan_clean("=");
    assert_eq!(kinds(&tokens), vec![TokenType::Equal, TokenType::EOF]);
    assert_eq!(tokens[0].get_lexeme(), "=");
}

#[test]
fn first_scanner_counts_characters_against_bytes() {
    // One character of two bytes: it is unknown, and the count of 1 is
    // still below the two bytes, where the text has no character.
    let reports = scan_faulty("\u{e9}");
    assert_eq!(reports.len(), 2);
    assert_eq!(reports[0].get_kind(), ReportKind::UnableToParseError);
    assert_eq!(reports[0].get_pos(), Some(Position { line: 1, column: 2, offset: 0 }));
    assert_eq!(reports[1].get_kind(), ReportKind::UnableToParseError);
    assert_eq!(reports[1].get_pos(), None);
}

#[test]
fn first_scanner_equal_before_the_missing_character() {
    // Behind `=` the text has no character, but the count is below the
    // number of bytes: the scanner takes that for the slash.
    let reports = scan_faulty("\u{e9}=");
    assert_eq!(reports.len(), 1);
    let mut lexer = Lexer::new("\u{e9}=".to_string());
    assert!(lexer.scan_tokens().is_err());
}

#[test]
fn first_scanner_token_getters() {
    let pos = Position { line: 3, column: 4, offset: 5 };
    let token = Token::new(
        TokenType::Number,
        "42".to_string(),
        Some(TokenLiteral::NumberLiteral(42)),
        pos,
    );
    assert_eq!(token.get_kind(), TokenType::Number);
    assert_eq!(token.get_lexeme(), "42");
    assert_eq!(token.get_pos(), pos);
    assert!(matches!(token.get_literal(), Some(TokenLiteral::NumberLiteral(42))));
    let copy = token.duplicate();
    assert_eq!(copy.get_lexeme(), "42");
    assert!(matches!(copy.get_literal(), Some(TokenLiteral::NumberLiteral(42))));

    let text = Token::new(
        TokenType::String,
        "\"a\"".to_string(),
        Some(TokenLiteral::StringLiteral("a".to_string())),
        pos,
    );
    match text.get_literal() {
        Some(TokenLiteral::StringLiteral(s)) => assert_eq!(s, "a"),
        _ => panic!("no string"),
    }
    let name = TokenLiteral::IdentifierLiteral(TokenType::Identifier);
    assert!(matches!(name.duplicate(), TokenLiteral::IdentifierLiteral(TokenType::Identifier)));
}

#[test]
fn first_scanner_scans_on_from_where_it_is() {
    let mut lexer = Lexer::new("*".to_string());
    let first = lexer.scan_tokens();
    assert_eq!(first.map(|t| t.len()).unwrap_or(0), 2);
    // At the end of the text one more scan adds one more end-of-input token.
    let second = lexer.scan_tokens();
    assert_eq!(second.map(|t| t.len()).unwrap_or(0), 3);
}
