use loxide::Keyword;
use loxide::Lexer;
use loxide::Span;
use loxide::Token;
use loxide::TokenType;

#[test]
fn every_reserved_word_is_recognized() {
    let table = [
        ("and", Keyword::And),
        ("class", Keyword::Class),
        ("else", Keyword::Else),
        ("false", Keyword::False),
        ("fun", Keyword::Fun),
        ("for", Keyword::For),
        ("if", Keyword::If),
        ("nil", Keyword::Nil),
        ("or", Keyword::Or),
        ("print", Keyword::Print),
        ("return", Keyword::Return),
        ("super", Keyword::Super),
        ("this", Keyword::This),
        ("true", Keyword::True),
        ("var", Keyword::Var),
        ("while", Keyword::While),
    ];
    for (text, kw) in table {
        assert_eq!(Keyword::from_str(text.as_bytes()), Some(kw));
    }
}

#[test]
fn non_keywords_are_rejected() {
    for text in ["", "an", "andx", "And", "VAR", "whil", "whiles", "_var", "var_", "42"] {
        assert_eq!(Keyword::from_str(text.as_bytes()), None);
    }
}

#[test]
fn keyword_lookup_is_case_sensitive_in_scan() {
    let src = "Var var";
    let mut lexer = Lexer::new(src.as_bytes().to_vec());
    let tokens = lexer.scan_tokens();
    assert_eq!(tokens[0].token_type, TokenType::Identifier);
    assert_eq!(tokens[1].token_type, TokenType::Keyword(Keyword::Var));
}

#[test]
fn keyword_prefix_scans_as_identifier() {
    let src = "andor fortune iffy";
    let mut lexer = Lexer::new(src.as_bytes().to_vec());
    let tokens = lexer.scan_tokens();
    assert_eq!(tokens.len(), 4);
    for t in &tokens[..3] {
        assert_eq!(t.token_type, TokenType::Identifier);
    }
}

#[test]
fn token_new_sets_all_fields() {
    let t = Token::new(TokenType::Plus, Span { start: 3, end: 4 }, 7);
    assert_eq!(t.token_type, TokenType::Plus);
    assert_eq!(t.lexeme, Span { start: 3, end: 4 });
    assert_eq!(t.line, 7);
}
