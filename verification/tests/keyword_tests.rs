use minilex::lexer::get_token;
use minilex::lexer::File;
use minilex::token::Token;
use minilex::token::TokenType;

fn single_token(src: &str) -> Token {
    let mut file = File::new(src.as_bytes().to_vec());
    let r = file.tokenize();
    assert!(r.is_ok(), "expected a successful scan of {:?}, got {:?}", src, r);
    assert_eq!(file.tokens.len(), 1, "expected one token from {:?}", src);
    file.tokens[0]
}

#[test]
fn every_keyword_has_its_own_kind() {
    assert_eq!(single_token("function").token_type, TokenType::Function);
    assert_eq!(single_token("if").token_type, TokenType::If);
    assert_eq!(single_token("else").token_type, TokenType::Else);
    assert_eq!(single_token("for").token_type, TokenType::For);
    assert_eq!(single_token("while").token_type, TokenType::While);
    assert_eq!(single_token("return").token_type, TokenType::Return);
    assert_eq!(single_token("true").token_type, TokenType::True);
    assert_eq!(single_token("false").token_type, TokenType::False);
}

#[test]
fn keyword_lookup_is_exact() {
    assert_eq!(get_token(b"return"), Some(TokenType::Return));
    assert_eq!(get_token(b"function"), Some(TokenType::Function));
    assert_eq!(get_token(b"retur"), None);
    assert_eq!(get_token(b"returns"), None);
    assert_eq!(get_token(b""), None);
}

#[test]
fn keyword_lookup_is_case_sensitive() {
    assert_eq!(get_token(b"True"), None);
    assert_eq!(single_token("True").token_type, TokenType::Identifier);
}

#[test]
fn longer_spelling_is_an_identifier() {
    assert_eq!(single_token("returns").token_type, TokenType::Identifier);
    assert_eq!(single_token("iffy").token_type, TokenType::Identifier);
}

#[test]
fn keyword_followed_by_delimiter_is_still_a_keyword() {
    let mut file = File::new(b"return;".to_vec());
    assert!(file.tokenize().is_ok());
    assert_eq!(file.tokens.len(), 2);
    assert_eq!(file.tokens[0].token_type, TokenType::Return);
    assert_eq!(file.tokens[0].start, 0);
    assert_eq!(file.tokens[0].end, 5);
    assert_eq!(file.tokens[1].token_type, TokenType::Semicolon);
}

#[test]
fn identifier_may_contain_digits_after_first_letter() {
    let t = single_token("x2y");
    assert_eq!(t.token_type, TokenType::Identifier);
    assert_eq!((t.start, t.end), (0, 2));
}
