use minilex::lexer::File;
use minilex::token::LexError;
use minilex::token::Token;
use minilex::token::TokenType;

fn lex_ok(src: &str) -> Vec<Token> {
    let mut file = File::new(src.as_bytes().to_vec());
    let r = file.tokenize();
    assert!(r.is_ok(), "expected a successful scan of {:?}, got {:?}", src, r);
    file.tokens
}

fn lex_err(src: &str) -> LexError {
    let mut file = File::new(src.as_bytes().to_vec());
    let r = file.tokenize();
    assert!(r.is_err(), "expected a failed scan of {:?}", src);
    assert_eq!(file.tokens.len(), 0, "a failed scan must keep no tokens");
    r.unwrap_err()
}

fn tok(token_type: TokenType, start: usize, end: usize, line: usize) -> Token {
    Token { token_type, start, end, line }
}

#[test]
fn assignment_expression_tokens() {
    // An identifier, an assignment and a small sum, every token on line 1.
    let ts = lex_ok("x = 1 + 2 ;\n");
    assert_eq!(
        ts,
        vec![
            tok(TokenType::Identifier, 0, 0, 1),
            tok(TokenType::Assign, 2, 2, 1),
            tok(TokenType::Integer, 4, 4, 1),
            tok(TokenType::Plus, 6, 6, 1),
            tok(TokenType::Integer, 8, 8, 1),
            tok(TokenType::Semicolon, 10, 10, 1),
        ]
    );
}

#[test]
fn semicolon_directly_after_integer_is_fatal() {
    // Only a space, a newline or the end of input may follow the digits
    // of a numeric literal; a delimiter right after them is an error.
    let e = lex_err("x = 1 + 2;\n");
    assert_eq!(e, LexError::InvalidNumericLiteral { byte: b';', offset: 9, line: 1 });
}

#[test]
fn float_assignment_tokens() {
    let ts = lex_ok("a = 3.14 ;\n");
    assert_eq!(
        ts,
        vec![
            tok(TokenType::Identifier, 0, 0, 1),
            tok(TokenType::Assign, 2, 2, 1),
            tok(TokenType::Float, 4, 7, 1),
            tok(TokenType::Semicolon, 9, 9, 1),
        ]
    );
}

#[test]
fn semicolon_directly_after_float_is_fatal() {
    let e = lex_err("a = 3.14;\n");
    assert_eq!(e, LexError::InvalidNumericLiteral { byte: b';', offset: 8, line: 1 });
}

#[test]
fn unterminated_string_fails_with_no_tokens() {
    let e = lex_err("\"abc");
    assert_eq!(e, LexError::UnterminatedString { line: 1 });
}

#[test]
fn letter_inside_number_is_fatal() {
    let e = lex_err("12a");
    assert_eq!(e, LexError::InvalidNumericLiteral { byte: b'a', offset: 2, line: 1 });
}

#[test]
fn return_alone_is_the_keyword() {
    let ts = lex_ok("return");
    assert_eq!(ts, vec![tok(TokenType::Return, 0, 5, 1)]);
}

#[test]
fn trailing_assign_at_end_of_buffer() {
    // The lookahead for `==` must stop at the end of the buffer.
    let ts = lex_ok("x=");
    assert_eq!(
        ts,
        vec![tok(TokenType::Identifier, 0, 0, 1), tok(TokenType::Assign, 1, 1, 1)]
    );
}

#[test]
fn empty_buffer_scans_to_nothing() {
    let ts = lex_ok("");
    assert_eq!(ts, vec![]);
}

#[test]
fn operators_partition_at_whitespace() {
    let ts = lex_ok("+= -= == <= >= < > = + - * / , ; : ( ) { } [ ] & | !");
    let kinds: Vec<TokenType> = ts.iter().map(|t| t.token_type).collect();
    assert_eq!(
        kinds,
        vec![
            TokenType::PlusAssign,
            TokenType::MinusAssign,
            TokenType::Equal,
            TokenType::LessEqual,
            TokenType::GreaterEqual,
            TokenType::Less,
            TokenType::Greater,
            TokenType::Assign,
            TokenType::Plus,
            TokenType::Minus,
            TokenType::Asterisk,
            TokenType::Slash,
            TokenType::Comma,
            TokenType::Semicolon,
            TokenType::Colon,
            TokenType::LeftParen,
            TokenType::RightParen,
            TokenType::LeftBrace,
            TokenType::RightBrace,
            TokenType::LeftSquare,
            TokenType::RightSquare,
            TokenType::And,
            TokenType::Or,
            TokenType::Bang,
        ]
    );
    for t in &ts {
        assert_eq!(t.line, 1);
    }
}

#[test]
fn bang_never_pairs_with_assign() {
    // `!` is a one-byte token; `!=` scans as Bang then Assign.
    let ts = lex_ok("!=");
    assert_eq!(
        ts,
        vec![tok(TokenType::Bang, 0, 0, 1), tok(TokenType::Assign, 1, 1, 1)]
    );
}

#[test]
fn two_byte_operators_without_separator() {
    let ts = lex_ok("x==1\n");
    assert_eq!(
        ts,
        vec![
            tok(TokenType::Identifier, 0, 0, 1),
            tok(TokenType::Equal, 1, 2, 1),
            tok(TokenType::Integer, 3, 3, 1),
        ]
    );
}

#[test]
fn string_literal_span_excludes_quotes() {
    let ts = lex_ok("\"hello\"");
    assert_eq!(ts, vec![tok(TokenType::StringLiteral, 1, 5, 1)]);
}

#[test]
fn empty_string_literal() {
    let ts = lex_ok("\"\"");
    assert_eq!(ts, vec![tok(TokenType::StringLiteral, 1, 0, 1)]);
}

#[test]
fn escaped_quote_stays_inside_string() {
    // "a\"b" is one literal: the quote after the backslash does not close it.
    let ts = lex_ok("\"a\\\"b\"");
    assert_eq!(ts, vec![tok(TokenType::StringLiteral, 1, 4, 1)]);
}

#[test]
fn escaped_final_quote_leaves_string_open() {
    let e = lex_err("\"ab\\\"");
    assert_eq!(e, LexError::UnterminatedString { line: 1 });
}

#[test]
fn newline_inside_string_does_not_count() {
    // Only the dispatcher consumes newlines for the line counter; a
    // newline inside string content is plain content.
    let ts = lex_ok("\"a\nb\" x");
    assert_eq!(
        ts,
        vec![
            tok(TokenType::StringLiteral, 1, 3, 1),
            tok(TokenType::Identifier, 6, 6, 1),
        ]
    );
}

#[test]
fn line_numbers_advance_on_newlines() {
    let ts = lex_ok("a\nb\n\nc\n");
    assert_eq!(
        ts,
        vec![
            tok(TokenType::Identifier, 0, 0, 1),
            tok(TokenType::Identifier, 2, 2, 2),
            tok(TokenType::Identifier, 5, 5, 4),
        ]
    );
}

#[test]
fn integer_flushed_at_end_of_input() {
    let ts = lex_ok("42");
    assert_eq!(ts, vec![tok(TokenType::Integer, 0, 1, 1)]);
}

#[test]
fn float_flushed_at_end_of_input() {
    let ts = lex_ok("3.14");
    assert_eq!(ts, vec![tok(TokenType::Float, 0, 3, 1)]);
}

#[test]
fn float_with_trailing_dot() {
    let ts = lex_ok("7. ");
    assert_eq!(ts, vec![tok(TokenType::Float, 0, 1, 1)]);
}

#[test]
fn second_dot_in_float_is_fatal() {
    let e = lex_err("1.2.3");
    assert_eq!(e, LexError::MalformedFloat { offset: 3, line: 1 });
}

#[test]
fn tab_directly_after_digit_is_fatal() {
    // A tab is skipped whitespace for the dispatcher but no terminator
    // for a numeric literal.
    let e = lex_err("1\t");
    assert_eq!(e, LexError::InvalidNumericLiteral { byte: b'\t', offset: 1, line: 1 });
}

#[test]
fn unknown_byte_is_fatal_with_location() {
    let e = lex_err("\n\n#");
    assert_eq!(e, LexError::UnknownCharacter { byte: b'#', offset: 2, line: 3 });
}

#[test]
fn error_line_counts_preceding_newlines() {
    let e = lex_err("a\nb\n\"oops");
    assert_eq!(e, LexError::UnterminatedString { line: 3 });
}

#[test]
fn small_program_with_braces_and_lines() {
    let ts = lex_ok("if a<b {\nc=1\n}");
    assert_eq!(
        ts,
        vec![
            tok(TokenType::If, 0, 1, 1),
            tok(TokenType::Identifier, 3, 3, 1),
            tok(TokenType::Less, 4, 4, 1),
            tok(TokenType::Identifier, 5, 5, 1),
            tok(TokenType::LeftBrace, 7, 7, 1),
            tok(TokenType::Identifier, 9, 9, 2),
            tok(TokenType::Assign, 10, 10, 2),
            tok(TokenType::Integer, 11, 11, 2),
            tok(TokenType::RightBrace, 13, 13, 3),
        ]
    );
}
