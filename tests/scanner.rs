use ownpy::common::{LiteralValue, Token, TokenType};
use ownpy::scanner::{ScanProblem, Scanner};
use ownpy::utils::{is_alpha, is_alpha_numeric, is_digit};

fn scan(source: &str) -> Vec<Token> {
    Scanner::new(source.to_string()).scan_tokens().expect("scans")
}

fn kinds(tokens: &[Token]) -> Vec<TokenType> {
    tokens.iter().map(|t| t.token_type).collect()
}

#[test]
fn scan_ends_in_single_eof() {
    let tokens = scan("var a = 1;\nprint a;");
    assert_eq!(tokens.last().unwrap().token_type, TokenType::EOF);
    let eofs = tokens.iter().filter(|t| t.token_type == TokenType::EOF).count();
    assert_eq!(eofs, 1);
}

#[test]
fn scan_empty_source() {
    let tokens = scan("");
    assert_eq!(kinds(&tokens), vec![TokenType::EOF]);
    assert_eq!(tokens[0].line, 1);
    assert_eq!(tokens[0].lexeme, "");
}

#[test]
fn scan_lexemes_are_source_slices() {
    let source = "var name = \"two\nlines\" + 42; // done\nprint name >= 7;";
    let tokens = scan(source);
    let mut from = 0;
    for t in &tokens[..tokens.len() - 1] {
        let at = source[from..].find(t.lexeme.as_str()).expect("lexeme in source");
        from += at + t.lexeme.len();
    }
    assert_eq!(tokens[tokens.len() - 1].lexeme, "");
}

#[test]
fn scan_lines_non_decreasing() {
    let tokens = scan("a\n\nb /* x\ny */ c \"s\nt\" d\n");
    let lines: Vec<u32> = tokens.iter().map(|t| t.line).collect();
    assert_eq!(lines, vec![1, 3, 4, 5, 5, 6]);
    for w in lines.windows(2) {
        assert!(w[0] <= w[1]);
    }
}

#[test]
fn scan_whitespace_only() {
    let tokens = scan(" \t\r\n  \n");
    assert_eq!(kinds(&tokens), vec![TokenType::EOF]);
    assert_eq!(tokens[0].line, 3);
}

#[test]
fn scan_line_comment_only() {
    assert_eq!(kinds(&scan("// nothing here")), vec![TokenType::EOF]);
}

#[test]
fn scan_block_comment_only() {
    let tokens = scan("/* one\ntwo */");
    assert_eq!(kinds(&tokens), vec![TokenType::EOF]);
    assert_eq!(tokens[0].line, 2);
}

#[test]
fn scan_unclosed_block_comment_reads_to_end() {
    assert_eq!(kinds(&scan("/* a * b")), vec![TokenType::EOF]);
    assert_eq!(kinds(&scan("1 /* never * closed")), vec![TokenType::Number, TokenType::EOF]);
}

#[test]
fn scan_block_comment_then_code() {
    let tokens = scan("/**/ x");
    assert_eq!(kinds(&tokens), vec![TokenType::Identifier, TokenType::EOF]);
}

#[test]
fn scan_string_with_newline() {
    let tokens = scan("\"a\nb\"");
    assert_eq!(tokens[0].token_type, TokenType::String);
    assert_eq!(tokens[0].lexeme, "\"a\nb\"");
    assert_eq!(tokens[0].literal_value, LiteralValue::Str("a\nb".to_string()));
    assert_eq!(tokens[0].line, 2);
    assert_eq!(tokens[1].line, 2);
}

#[test]
fn scan_operators() {
    let tokens = scan("! != = == < <= > >= & | / * - + ; , . ( ) { }");
    assert_eq!(
        kinds(&tokens),
        vec![
            TokenType::Bang,
            TokenType::BangEqual,
            TokenType::Equal,
            TokenType::EqualEqual,
            TokenType::Less,
            TokenType::LessEqual,
            TokenType::Greater,
            TokenType::GreaterEqual,
            TokenType::BitwiseAnd,
            TokenType::BitwiseOr,
            TokenType::Slash,
            TokenType::Star,
            TokenType::Minus,
            TokenType::Plus,
            TokenType::Semicolon,
            TokenType::Comma,
            TokenType::Dot,
            TokenType::LeftParen,
            TokenType::RightParen,
            TokenType::LeftBrace,
            TokenType::RightBrace,
            TokenType::EOF,
        ]
    );
}

#[test]
fn scan_keywords_and_identifiers() {
    let tokens = scan("and class else false fun for if nil or print return super this true var while _x9 vars");
    assert_eq!(
        kinds(&tokens),
        vec![
            TokenType::And,
            TokenType::Class,
            TokenType::Else,
            TokenType::False,
            TokenType::Fun,
            TokenType::For,
            TokenType::If,
            TokenType::Nil,
            TokenType::Or,
            TokenType::Print,
            TokenType::Return,
            TokenType::Super,
            TokenType::This,
            TokenType::True,
            TokenType::Var,
            TokenType::While,
            TokenType::Identifier,
            TokenType::Identifier,
            TokenType::EOF,
        ]
    );
    assert_eq!(tokens[16].lexeme, "_x9");
    assert_eq!(tokens[16].literal_value, LiteralValue::Nil);
}

#[test]
fn scan_integer_literals() {
    let tokens = scan("0 123 9223372036854775807");
    assert_eq!(tokens[0].literal_value, LiteralValue::Integer(0));
    assert_eq!(tokens[1].literal_value, LiteralValue::Integer(123));
    assert_eq!(tokens[2].literal_value, LiteralValue::Integer(i64::MAX));
    assert_eq!(tokens[2].lexeme, "9223372036854775807");
}

#[test]
fn scan_number_then_dot() {
    let tokens = scan("12.");
    assert_eq!(kinds(&tokens), vec![TokenType::Number, TokenType::Dot, TokenType::EOF]);
}

#[test]
fn scan_number_too_large() {
    let err = Scanner::new("9223372036854775808".to_string()).scan_tokens().unwrap_err();
    assert_eq!(err.problem, ScanProblem::NumberTooLarge);
    assert_eq!(err.line, 1);
}

#[test]
fn scan_fractional_number() {
    let err = Scanner::new("\n1.5".to_string()).scan_tokens().unwrap_err();
    assert_eq!(err.problem, ScanProblem::FractionalNumber);
    assert_eq!(err.line, 2);
}

#[test]
fn scan_unterminated_string() {
    let err = Scanner::new("\"abc\ndef".to_string()).scan_tokens().unwrap_err();
    assert_eq!(err.problem, ScanProblem::UnterminatedString);
    assert_eq!(err.line, 2);
    assert_eq!(err.report(), "[line 2] Error: Unterminated string.");
}

#[test]
fn scan_unexpected_character() {
    let err = Scanner::new("a\n@".to_string()).scan_tokens().unwrap_err();
    assert_eq!(err.problem, ScanProblem::UnexpectedCharacter);
    assert_eq!(err.line, 2);
    assert_eq!(err.message(), "Unexpected character.");
}

#[test]
fn scan_twice_gives_same_tokens() {
    let mut scanner = Scanner::new("print 1;".to_string());
    let first = scanner.scan_tokens().unwrap();
    let second = scanner.scan_tokens().unwrap();
    assert_eq!(kinds(&first), kinds(&second));
}

#[test]
fn character_classes() {
    assert!(is_digit('0') && is_digit('9') && !is_digit('a'));
    assert!(is_alpha('a') && is_alpha('Z') && is_alpha('_') && !is_alpha('1'));
    assert!(is_alpha_numeric('7') && is_alpha_numeric('q') && !is_alpha_numeric('-'));
}

#[test]
fn scan_mixed_whitespace_and_comments() {
    let tokens = scan("  // one\n/* two\n * three */\t\r\n/**/ // four");
    assert_eq!(kinds(&tokens), vec![TokenType::EOF]);
    assert_eq!(tokens[0].line, 4);
}

#[test]
fn scan_lexemes_in_order_with_blanks_between() {
    let source = "x/*c*/=\n\"s\"; // end";
    let tokens = scan(source);
    let lexemes: Vec<&str> = tokens.iter().map(|t| t.lexeme.as_str()).collect();
    assert_eq!(lexemes, vec!["x", "=", "\"s\"", ";", ""]);
    let lines: Vec<u32> = tokens.iter().map(|t| t.line).collect();
    assert_eq!(lines, vec![1, 1, 2, 2, 2]);
}
