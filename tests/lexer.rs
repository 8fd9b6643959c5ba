use expr_resolver::lexer::Lexer;
use expr_resolver::token::Token;

fn number(text: &str) -> Token {
    Token::Number(text.to_string())
}

#[test]
fn basic() {
    let mut lexer = Lexer::new("2 + 2".to_string());
    lexer.scan();

    assert_eq!(lexer.len, 5);
    assert_eq!(lexer.tokens.len(), 4);
}

#[test]
fn basic_tokenization() {
    let mut lexer = Lexer::new("2 ++  2".to_string());
    lexer.scan();

    assert_eq!(lexer.tokens.len(), 5);

    match &lexer.tokens[4] {
        Token::Number(n) => assert!(n.parse::<f64>().unwrap() == 2_f64, "Token is not 2."),
        _ => {
            assert!(!true, "Token is not number.");
        }
    }
    assert!(matches!(lexer.tokens[2], Token::Plus));
    assert!(matches!(lexer.tokens[3], Token::Plus));
}

#[test]
fn basic_number_scanning() {
    let mut lexer = Lexer::new("1414141 141.141 141".to_string());
    lexer.scan();

    match &lexer.tokens[3] {
        Token::Number(n) => {
            assert!(n.parse::<f64>().unwrap() == 1414141_f64, "Token is not 1414141.")
        }
        _ => {
            assert!(!true, "Token is not number.");
        }
    }

    match &lexer.tokens[2] {
        Token::Number(n) => {
            assert!(n.parse::<f64>().unwrap() == 141.141_f64, "Token is not 1414141.")
        }
        _ => {
            assert!(!true, "Token is not number.");
        }
    }
}

#[test]
fn error_flag() {
    let mut lexer = Lexer::new("2(2".to_string());
    lexer.scan();

    assert!(lexer.has_errors);
}

#[test]
fn tokens_come_out_in_reading_order() {
    let mut lexer = Lexer::new("12.5*3!-/".to_string());
    lexer.scan();
    assert!(!lexer.has_errors);
    assert_eq!(lexer.current, lexer.len);
    let mut read = Vec::new();
    loop {
        assert_eq!(lexer.peek(), lexer.tokens.last().cloned().unwrap_or(Token::Eof));
        let token = lexer.next_token();
        if token == Token::Eof {
            break;
        }
        read.push(token);
    }
    assert_eq!(
        read,
        vec![number("12.5"), Token::Star, number("3"), Token::Bang, Token::Minus, Token::Slash]
    );
    assert_eq!(lexer.next_token(), Token::Eof);
    assert_eq!(lexer.peek(), Token::Eof);
}

#[test]
fn empty_input_scans_to_end_marker() {
    let mut lexer = Lexer::new(String::new());
    lexer.scan();
    assert_eq!(lexer.len, 0);
    assert_eq!(lexer.tokens, vec![Token::Eof]);
    assert!(!lexer.has_errors);
}

#[test]
fn blanks_are_skipped() {
    let mut lexer = Lexer::new(" 1\t+\r2 ".to_string());
    lexer.scan();
    assert!(!lexer.has_errors);
    assert_eq!(lexer.tokens, vec![Token::Eof, number("2"), Token::Plus, number("1")]);
}

#[test]
fn newline_is_a_lexical_error() {
    let mut lexer = Lexer::new("1\n2".to_string());
    lexer.scan();
    assert!(lexer.has_errors);
}

#[test]
fn point_without_digits_after_it_is_an_error() {
    let mut lexer = Lexer::new("2.".to_string());
    lexer.scan();
    assert!(lexer.has_errors);
    assert_eq!(lexer.tokens, vec![Token::Eof, number("2")]);

    let mut lexer = Lexer::new(".5".to_string());
    lexer.scan();
    assert!(lexer.has_errors);
    assert_eq!(lexer.tokens, vec![Token::Eof, number("5")]);
}

#[test]
fn second_point_ends_a_numeral() {
    let mut lexer = Lexer::new("1.2.3".to_string());
    lexer.scan();
    assert!(lexer.has_errors);
    assert_eq!(lexer.tokens, vec![Token::Eof, number("3"), number("1.2")]);
}

#[test]
fn length_counts_characters() {
    let lexer = Lexer::new("2×2".to_string());
    assert_eq!(lexer.len, 3);
    assert_eq!(lexer.source_chars, vec!['2', '×', '2']);
    let mut lexer = lexer;
    lexer.scan();
    assert!(lexer.has_errors);
}

#[test]
fn token_text_pads_with_spaces() {
    assert_eq!(number("12").to_text(), " 12 ");
    assert_eq!(Token::Bang.to_text(), " ! ");
    assert_eq!(Token::Eof.to_text(), " EOF ");
    assert_eq!(Token::LeftParen.duplicate(), Token::LeftParen);
    assert_eq!(number("7").duplicate(), number("7"));
}
