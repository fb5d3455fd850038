use lexer::{tokenize, ErrorKind, LexError, Lexer, Token, TypeConversion};

fn ident(s: &str) -> Token {
    Token::Identifier(s.to_string())
}

fn lit(s: &str) -> Token {
    Token::StringLiteral(s.to_string())
}

fn err(kind: ErrorKind, position: usize) -> LexError {
    LexError { kind, position }
}

#[test]
fn operators_map_one_to_one() {
    let toks = tokenize("+-*/!=<>()").unwrap();
    assert_eq!(
        toks,
        vec![
            Token::Plus,
            Token::Minus,
            Token::Asterisk,
            Token::Slash,
            Token::Bang,
            Token::Equal,
            Token::LessThan,
            Token::GreaterThan,
            Token::LParen,
            Token::RParen,
            Token::EndOfInput,
        ]
    );
    assert_eq!(
        tokenize("))=(").unwrap(),
        vec![Token::RParen, Token::RParen, Token::Equal, Token::LParen, Token::EndOfInput]
    );
}

#[test]
fn empty_source_gives_end_of_input() {
    assert_eq!(tokenize("").unwrap(), vec![Token::EndOfInput]);
    assert_eq!(tokenize("   \n\n  ").unwrap(), vec![Token::EndOfInput]);
}

#[test]
fn print_keyword() {
    assert_eq!(tokenize("print").unwrap(), vec![Token::Print, Token::EndOfInput]);
}

#[test]
fn printer_is_print_then_identifier() {
    assert_eq!(
        tokenize("printer").unwrap(),
        vec![Token::Print, ident("er"), Token::EndOfInput]
    );
}

#[test]
fn numbers_and_identifiers() {
    assert_eq!(tokenize("123").unwrap(), vec![Token::Number(123), Token::EndOfInput]);
    assert_eq!(tokenize("abc").unwrap(), vec![ident("abc"), Token::EndOfInput]);
    assert_eq!(
        tokenize("a1").unwrap(),
        vec![ident("a"), Token::Number(1), Token::EndOfInput]
    );
    assert_eq!(
        tokenize("7x").unwrap(),
        vec![Token::Number(7), ident("x"), Token::EndOfInput]
    );
    assert_eq!(tokenize("007").unwrap(), vec![Token::Number(7), Token::EndOfInput]);
}

#[test]
fn largest_number() {
    assert_eq!(
        tokenize("2147483647").unwrap(),
        vec![Token::Number(i32::MAX), Token::EndOfInput]
    );
}

#[test]
fn number_overflow() {
    assert_eq!(
        tokenize("1 + 2147483648"),
        Err(err(ErrorKind::NumberOverflow, 4))
    );
    assert_eq!(
        tokenize("99999999999999999999999"),
        Err(err(ErrorKind::NumberOverflow, 0))
    );
}

#[test]
fn comment_is_skipped() {
    assert_eq!(
        tokenize("# comment\n42").unwrap(),
        vec![Token::Number(42), Token::EndOfInput]
    );
    assert_eq!(
        tokenize("1 # to the end").unwrap(),
        vec![Token::Number(1), Token::EndOfInput]
    );
}

#[test]
fn docstring_is_discarded() {
    assert_eq!(
        tokenize("\"\"\"doc\"\"\"42").unwrap(),
        vec![Token::Number(42), Token::EndOfInput]
    );
    assert_eq!(
        tokenize("\"\"\"a \"quoted\" word\"\"\"\n1").unwrap(),
        vec![Token::Number(1), Token::EndOfInput]
    );
    assert_eq!(tokenize("\"\"\"\"\"\"").unwrap(), vec![Token::EndOfInput]);
}

#[test]
fn unterminated_docstring() {
    assert_eq!(
        tokenize("1 \"\"\"never closed"),
        Err(err(ErrorKind::Unterminated, 2))
    );
}

#[test]
fn string_literal_excludes_quotes() {
    assert_eq!(
        tokenize("\"hi\"42").unwrap(),
        vec![lit("hi"), Token::Number(42), Token::EndOfInput]
    );
    assert_eq!(
        tokenize("\"\"x").unwrap(),
        vec![lit(""), ident("x"), Token::EndOfInput]
    );
}

#[test]
fn string_literal_keeps_non_ascii_text() {
    assert_eq!(
        tokenize("\"h\u{e9}llo w\u{f6}rld \u{1f600}\"").unwrap(),
        vec![lit("h\u{e9}llo w\u{f6}rld \u{1f600}"), Token::EndOfInput]
    );
    assert_eq!(
        tokenize("# \u{e9}t\u{e9}\nabc").unwrap(),
        vec![ident("abc"), Token::EndOfInput]
    );
}

#[test]
fn unterminated_string_literal() {
    assert_eq!(tokenize("\"abc"), Err(err(ErrorKind::Unterminated, 0)));
}

#[test]
fn int_with_quoted_argument() {
    assert_eq!(
        tokenize("int\"5\"").unwrap(),
        vec![
            Token::TypeConversion(TypeConversion::StringToInt("5".to_string())),
            Token::EndOfInput
        ]
    );
    assert_eq!(
        tokenize("int\"42\"+1").unwrap(),
        vec![
            Token::TypeConversion(TypeConversion::StringToInt("42".to_string())),
            Token::Plus,
            Token::Number(1),
            Token::EndOfInput
        ]
    );
}

#[test]
fn int_with_digit_argument() {
    assert_eq!(
        tokenize("int7").unwrap(),
        vec![
            Token::TypeConversion(TypeConversion::FloatToInt),
            Token::Number(7),
            Token::EndOfInput
        ]
    );
}

#[test]
fn float_conversions() {
    assert_eq!(
        tokenize("float\"1.5\"").unwrap(),
        vec![
            Token::TypeConversion(TypeConversion::StringToFloat("1.5".to_string())),
            Token::EndOfInput
        ]
    );
    assert_eq!(
        tokenize("float3").unwrap(),
        vec![
            Token::TypeConversion(TypeConversion::IntToFloat),
            Token::Number(3),
            Token::EndOfInput
        ]
    );
}

#[test]
fn str_ignores_what_follows() {
    assert_eq!(
        tokenize("str").unwrap(),
        vec![Token::TypeConversion(TypeConversion::IntToString), Token::EndOfInput]
    );
    assert_eq!(
        tokenize("strabc").unwrap(),
        vec![
            Token::TypeConversion(TypeConversion::IntToString),
            ident("abc"),
            Token::EndOfInput
        ]
    );
    assert_eq!(
        tokenize("str\"x\"").unwrap(),
        vec![
            Token::TypeConversion(TypeConversion::IntToString),
            lit("x"),
            Token::EndOfInput
        ]
    );
}

#[test]
fn conversion_keyword_errors() {
    assert_eq!(tokenize("int"), Err(err(ErrorKind::UnexpectedEnd, 3)));
    assert_eq!(tokenize("int x"), Err(err(ErrorKind::UnrecognizedByte(b' '), 3)));
    assert_eq!(tokenize("int\"5"), Err(err(ErrorKind::Unterminated, 3)));
    assert_eq!(tokenize("float"), Err(err(ErrorKind::UnexpectedEnd, 5)));
    assert_eq!(tokenize("if"), Err(err(ErrorKind::UnrecognizedByte(b'i'), 0)));
    assert_eq!(tokenize("fl"), Err(err(ErrorKind::UnrecognizedByte(b'f'), 0)));
    assert_eq!(tokenize("sum"), Err(err(ErrorKind::UnrecognizedByte(b's'), 0)));
    assert_eq!(tokenize("pr"), Err(err(ErrorKind::UnrecognizedByte(b'p'), 0)));
}

#[test]
fn unrecognized_bytes() {
    assert_eq!(tokenize("1 @"), Err(err(ErrorKind::UnrecognizedByte(b'@'), 2)));
    assert_eq!(tokenize("\t1"), Err(err(ErrorKind::UnrecognizedByte(b'\t'), 0)));
    assert_eq!(tokenize("a_b"), Err(err(ErrorKind::UnrecognizedByte(b'_'), 1)));
}

#[test]
fn blanks_between_tokens() {
    assert_eq!(
        tokenize("print  x\n\n\n= \\\n 2").unwrap(),
        vec![Token::Print, ident("x"), Token::Equal, Token::Number(2), Token::EndOfInput]
    );
}

#[test]
fn end_of_input_repeats() {
    let mut lexer = Lexer::new("1".to_string());
    assert_eq!(lexer.next_token(), Ok(Token::Number(1)));
    assert_eq!(lexer.next_token(), Ok(Token::EndOfInput));
    assert_eq!(lexer.position(), 1);
    for _ in 0..3 {
        assert_eq!(lexer.next_token(), Ok(Token::EndOfInput));
        assert_eq!(lexer.position(), 1);
    }
}

#[test]
fn cursor_rests_at_failed_token() {
    let mut lexer = Lexer::new("  \"open".to_string());
    let e = lexer.next_token().unwrap_err();
    assert_eq!(e, err(ErrorKind::Unterminated, 2));
    assert_eq!(lexer.position(), 2);
    assert_eq!(lexer.next_token().unwrap_err(), e);
}

#[test]
fn tokens_one_at_a_time() {
    let mut lexer = Lexer::new("print \"a\" # c\n+ 3".to_string());
    let mut seen = Vec::new();
    loop {
        let t = lexer.next_token().unwrap();
        let end = t.is_end_of_input();
        seen.push(t);
        if end {
            break;
        }
    }
    assert_eq!(
        seen,
        vec![Token::Print, lit("a"), Token::Plus, Token::Number(3), Token::EndOfInput]
    );
}

#[test]
fn cursor_primitives() {
    let mut lexer = Lexer::new("   ab12".to_string());
    assert_eq!(lexer.current_char(), Some(b' '));
    lexer.quit_whitespace();
    assert_eq!(lexer.position(), 3);
    assert_eq!(lexer.read_identifier(), "ab".to_string());
    assert_eq!(lexer.position(), 5);
    assert_eq!(lexer.read_identifier(), String::new());
    assert_eq!(lexer.read_number(), Ok(12));
    assert_eq!(lexer.current_char(), None);
    let mut other = Lexer::new("xy".to_string());
    other.consume();
    assert_eq!(other.current_char(), Some(b'y'));
}

#[test]
fn read_number_overflow_keeps_cursor() {
    let mut lexer = Lexer::new("a3000000000".to_string());
    lexer.consume();
    assert_eq!(lexer.read_number(), Err(err(ErrorKind::NumberOverflow, 1)));
    assert_eq!(lexer.position(), 1);
}
