use loxide::Diagnostic;
use loxide::Keyword;
use loxide::Lexer;
use loxide::Token;
use loxide::TokenType;
use loxide::tokens::lexeme_of;

fn scan(src: &str) -> (Vec<Token>, Vec<Diagnostic>) {
    let mut lexer = Lexer::new(src.as_bytes().to_vec());
    let tokens = lexer.scan_tokens();
    (tokens, lexer.diagnostics)
}

fn lexeme_str(src: &str, t: &Token) -> String {
    let bytes = lexeme_of(&src.as_bytes().to_vec(), t);
    String::from_utf8(bytes).unwrap()
}

fn kinds(tokens: &[Token]) -> Vec<TokenType> {
    tokens.iter().map(|t| t.token_type).collect()
}

#[test]
fn punct_sequence_corresponds() {
    let src = "( ) { } , . - + ; * /";
    let (tokens, diags) = scan(src);
    assert_eq!(
        kinds(&tokens),
        vec![
            TokenType::LeftParen,
            TokenType::RightParen,
            TokenType::LeftBrace,
            TokenType::RightBrace,
            TokenType::Comma,
            TokenType::Dot,
            TokenType::Minus,
            TokenType::Plus,
            TokenType::Semicolon,
            TokenType::Star,
            TokenType::Slash,
            TokenType::Eof,
        ]
    );
    assert!(diags.is_empty());
    let marks = ["(", ")", "{", "}", ",", ".", "-", "+", ";", "*", "/"];
    for (i, m) in marks.iter().enumerate() {
        assert_eq!(lexeme_str(src, &tokens[i]), *m);
    }
}

#[test]
fn number_literal_with_fraction() {
    let src = "123.45";
    let (tokens, diags) = scan(src);
    assert_eq!(tokens.len(), 2);
    assert_eq!(tokens[0].token_type, TokenType::Number);
    assert_eq!(lexeme_str(src, &tokens[0]), "123.45");
    let value: f64 = lexeme_str(src, &tokens[0]).parse().unwrap();
    assert_eq!(value, 123.45);
    assert_eq!(tokens[1].token_type, TokenType::Eof);
    assert!(diags.is_empty());
}

#[test]
fn string_literal_excludes_quotes() {
    let src = "\"hello\"";
    let (tokens, diags) = scan(src);
    assert_eq!(tokens.len(), 2);
    assert_eq!(tokens[0].token_type, TokenType::StringLit);
    assert_eq!(lexeme_str(src, &tokens[0]), "hello");
    assert_eq!(tokens[1].token_type, TokenType::Eof);
    assert!(diags.is_empty());
}

#[test]
fn bang_equal_and_bang() {
    let src = "!=";
    let (tokens, _) = scan(src);
    assert_eq!(kinds(&tokens), vec![TokenType::BangEqual, TokenType::Eof]);
    assert_eq!(lexeme_str(src, &tokens[0]), "!=");

    let src2 = "!";
    let (tokens2, _) = scan(src2);
    assert_eq!(kinds(&tokens2), vec![TokenType::Bang, TokenType::Eof]);
    assert_eq!(lexeme_str(src2, &tokens2[0]), "!");
}

#[test]
fn comment_then_number() {
    let src = "// comment\n42";
    let (tokens, diags) = scan(src);
    assert_eq!(tokens.len(), 2);
    assert_eq!(tokens[0].token_type, TokenType::Number);
    assert_eq!(lexeme_str(src, &tokens[0]), "42");
    let value: f64 = lexeme_str(src, &tokens[0]).parse().unwrap();
    assert_eq!(value, 42.0);
    assert_eq!(tokens[0].line, 2);
    assert_eq!(tokens[1].token_type, TokenType::Eof);
    assert!(diags.is_empty());
}

#[test]
fn var_declaration_tokens() {
    let src = "var x = 10;";
    let (tokens, diags) = scan(src);
    assert_eq!(
        kinds(&tokens),
        vec![
            TokenType::Keyword(Keyword::Var),
            TokenType::Identifier,
            TokenType::Equal,
            TokenType::Number,
            TokenType::Semicolon,
            TokenType::Eof,
        ]
    );
    assert_eq!(lexeme_str(src, &tokens[0]), "var");
    assert_eq!(lexeme_str(src, &tokens[1]), "x");
    assert_eq!(lexeme_str(src, &tokens[2]), "=");
    assert_eq!(lexeme_str(src, &tokens[3]), "10");
    assert_eq!(lexeme_str(src, &tokens[4]), ";");
    assert!(diags.is_empty());
}

#[test]
fn unterminated_string() {
    let src = "\"abc";
    let (tokens, diags) = scan(src);
    assert_eq!(diags, vec![Diagnostic::UnterminatedString]);
    assert_eq!(kinds(&tokens), vec![TokenType::Eof]);
}

#[test]
fn unexpected_character() {
    let src = "@";
    let (tokens, diags) = scan(src);
    assert_eq!(
        diags,
        vec![Diagnostic::UnexpectedCharacter { byte: b'@', line: 1 }]
    );
    assert_eq!(kinds(&tokens), vec![TokenType::Eof]);
}

#[test]
fn scanning_twice_is_idempotent() {
    let src = "var x = 10; // note\n\"s\" != 3.5";
    let (tokens1, diags1) = scan(src);
    let (tokens2, diags2) = scan(src);
    assert_eq!(tokens1, tokens2);
    assert_eq!(diags1, diags2);
}

#[test]
fn lexemes_match_recorded_spans() {
    let src = "var _x1 = 10.5; // c\n\"ab\" <= >= == != < > = ! + - * / ( ) { } , .";
    let (tokens, _) = scan(src);
    let bytes = src.as_bytes();
    for t in &tokens {
        assert!(t.lexeme.start <= t.lexeme.end);
        assert!(t.lexeme.end <= bytes.len());
        let sliced = &bytes[t.lexeme.start..t.lexeme.end];
        assert_eq!(sliced, lexeme_of(&bytes.to_vec(), t).as_slice());
    }
    let expected = [
        "var", "_x1", "=", "10.5", ";", "ab", "<=", ">=", "==", "!=", "<", ">", "=", "!", "+",
        "-", "*", "/", "(", ")", "{", "}", ",", ".", "",
    ];
    assert_eq!(tokens.len(), expected.len());
    for (i, e) in expected.iter().enumerate() {
        assert_eq!(lexeme_str(src, &tokens[i]), *e);
    }
}

#[test]
fn empty_input_gives_only_eof() {
    let (tokens, diags) = scan("");
    assert_eq!(tokens.len(), 1);
    assert_eq!(tokens[0].token_type, TokenType::Eof);
    assert_eq!(tokens[0].line, 1);
    assert_eq!(lexeme_str("", &tokens[0]), "");
    assert!(diags.is_empty());
}

#[test]
fn one_and_two_byte_operators() {
    let src = "= == < <= > >=";
    let (tokens, _) = scan(src);
    assert_eq!(
        kinds(&tokens),
        vec![
            TokenType::Equal,
            TokenType::EqualEqual,
            TokenType::Less,
            TokenType::LessEqual,
            TokenType::Greater,
            TokenType::GreaterEqual,
            TokenType::Eof,
        ]
    );
}

#[test]
fn trailing_dot_is_not_a_fraction() {
    let src = "123.";
    let (tokens, _) = scan(src);
    assert_eq!(
        kinds(&tokens),
        vec![TokenType::Number, TokenType::Dot, TokenType::Eof]
    );
    assert_eq!(lexeme_str(src, &tokens[0]), "123");
}

#[test]
fn second_dot_ends_the_number() {
    let src = "1.2.3";
    let (tokens, _) = scan(src);
    assert_eq!(
        kinds(&tokens),
        vec![TokenType::Number, TokenType::Dot, TokenType::Number, TokenType::Eof]
    );
    assert_eq!(lexeme_str(src, &tokens[0]), "1.2");
    assert_eq!(lexeme_str(src, &tokens[2]), "3");
}

#[test]
fn multiline_string_counts_lines() {
    let src = "\"a\nb\"x";
    let (tokens, diags) = scan(src);
    assert_eq!(
        kinds(&tokens),
        vec![TokenType::StringLit, TokenType::Identifier, TokenType::Eof]
    );
    assert_eq!(lexeme_str(src, &tokens[0]), "a\nb");
    assert_eq!(tokens[0].line, 1);
    assert_eq!(tokens[1].line, 2);
    assert_eq!(tokens[2].line, 2);
    assert!(diags.is_empty());
}

#[test]
fn all_errors_reported_in_one_pass() {
    let src = "@ #\n$";
    let (tokens, diags) = scan(src);
    assert_eq!(
        diags,
        vec![
            Diagnostic::UnexpectedCharacter { byte: b'@', line: 1 },
            Diagnostic::UnexpectedCharacter { byte: b'#', line: 1 },
            Diagnostic::UnexpectedCharacter { byte: b'$', line: 2 },
        ]
    );
    assert_eq!(kinds(&tokens), vec![TokenType::Eof]);
}

#[test]
fn comment_at_end_of_input() {
    let (tokens, diags) = scan("// just a comment");
    assert_eq!(kinds(&tokens), vec![TokenType::Eof]);
    assert!(diags.is_empty());
}

#[test]
fn whitespace_only_input() {
    let (tokens, diags) = scan(" \t\r ");
    assert_eq!(kinds(&tokens), vec![TokenType::Eof]);
    assert!(diags.is_empty());
}

#[test]
fn empty_string_literal() {
    let src = "\"\"";
    let (tokens, _) = scan(src);
    assert_eq!(kinds(&tokens), vec![TokenType::StringLit, TokenType::Eof]);
    assert_eq!(lexeme_str(src, &tokens[0]), "");
}

#[test]
fn exactly_one_eof_always_last() {
    for src in ["", "var", "\"abc", "@", "1 + 2 // x", "a\nb\nc"] {
        let (tokens, _) = scan(src);
        let eof_count = tokens
            .iter()
            .filter(|t| t.token_type == TokenType::Eof)
            .count();
        assert_eq!(eof_count, 1);
        assert_eq!(tokens.last().unwrap().token_type, TokenType::Eof);
        assert_eq!(tokens.last().unwrap().lexeme.start, tokens.last().unwrap().lexeme.end);
    }
}

#[test]
fn lines_never_decrease() {
    let src = "a\nb \"x\ny\" c\n// t\nd";
    let (tokens, _) = scan(src);
    for w in tokens.windows(2) {
        assert!(w[0].line <= w[1].line);
    }
}

#[test]
fn error_recovery_continues_scan() {
    let src = "@ 42";
    let (tokens, diags) = scan(src);
    assert_eq!(kinds(&tokens), vec![TokenType::Number, TokenType::Eof]);
    assert_eq!(lexeme_str(src, &tokens[0]), "42");
    assert_eq!(
        diags,
        vec![Diagnostic::UnexpectedCharacter { byte: b'@', line: 1 }]
    );
}
