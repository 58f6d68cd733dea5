use lingo::lexer::Lexer;
use lingo::token::{lookup_ident, Token, TokenKind};

fn walk_through_input_token(mut lex: Lexer, expected_tokens: Vec<(TokenKind, &str)>) {
    for (i, (expected_kind, expected_literal)) in expected_tokens.into_iter().enumerate() {
        let token: Token = lex.next_token();
        assert_eq!(
            token.kind, expected_kind,
            "tests[{}] - kind wrong. expected={:?}, got={:?}",
            i, expected_kind, token.kind
        );
        assert_eq!(
            token.literal.as_str(),
            expected_literal,
            "tests[{}] - literal wrong. expected={}, got={}",
            i,
            expected_literal,
            token.literal
        );
    }
}

#[test]
fn test_next_token() {
    let input = "=+(){},;";
    let lex = Lexer::new(input.to_string());

    let tests = vec![
        (TokenKind::Assign, "="),
        (TokenKind::Plus, "+"),
        (TokenKind::LParen, "("),
        (TokenKind::RParen, ")"),
        (TokenKind::LBrace, "{"),
        (TokenKind::RBrace, "}"),
        (TokenKind::Comma, ","),
        (TokenKind::Semicolon, ";"),
        (TokenKind::EndOfFile, ""),
    ];

    walk_through_input_token(lex, tests);

    let input = r#"
            let five = 5;
            let ten = 10;

            let add = fn(x, y) {
                x + y;
            };

            let result = add(five, ten);
            !-/*5;
            5 < 10 > 5;

            if (5 < 10) {
                return true;
            } else {
                return false;
            }

            10 == 10;
            10 != 9;
            "#;
    let lex = Lexer::new(input.to_string());

    let tests = vec![
        (TokenKind::Let, "let"),
        (TokenKind::Identifier, "five"),
        (TokenKind::Assign, "="),
        (TokenKind::Integer, "5"),
        (TokenKind::Semicolon, ";"),
        (TokenKind::Let, "let"),
        (TokenKind::Identifier, "ten"),
        (TokenKind::Assign, "="),
        (TokenKind::Integer, "10"),
        (TokenKind::Semicolon, ";"),
        (TokenKind::Let, "let"),
        (TokenKind::Identifier, "add"),
        (TokenKind::Assign, "="),
        (TokenKind::Function, "fn"),
        (TokenKind::LParen, "("),
        (TokenKind::Identifier, "x"),
        (TokenKind::Comma, ","),
        (TokenKind::Identifier, "y"),
        (TokenKind::RParen, ")"),
        (TokenKind::LBrace, "{"),
        (TokenKind::Identifier, "x"),
        (TokenKind::Plus, "+"),
        (TokenKind::Identifier, "y"),
        (TokenKind::Semicolon, ";"),
        (TokenKind::RBrace, "}"),
        (TokenKind::Semicolon, ";"),
        (TokenKind::Let, "let"),
        (TokenKind::Identifier, "result"),
        (TokenKind::Assign, "="),
        (TokenKind::Identifier, "add"),
        (TokenKind::LParen, "("),
        (TokenKind::Identifier, "five"),
        (TokenKind::Comma, ","),
        (TokenKind::Identifier, "ten"),
        (TokenKind::RParen, ")"),
        (TokenKind::Semicolon, ";"),
        (TokenKind::Bang, "!"),
        (TokenKind::Minus, "-"),
        (TokenKind::Slash, "/"),
        (TokenKind::Asterisk, "*"),
        (TokenKind::Integer, "5"),
        (TokenKind::Semicolon, ";"),
        (TokenKind::Integer, "5"),
        (TokenKind::LessThan, "<"),
        (TokenKind::Integer, "10"),
        (TokenKind::GreaterThan, ">"),
        (TokenKind::Integer, "5"),
        (TokenKind::Semicolon, ";"),
        (TokenKind::If, "if"),
        (TokenKind::LParen, "("),
        (TokenKind::Integer, "5"),
        (TokenKind::LessThan, "<"),
        (TokenKind::Integer, "10"),
        (TokenKind::RParen, ")"),
        (TokenKind::LBrace, "{"),
        (TokenKind::Return, "return"),
        (TokenKind::True, "true"),
        (TokenKind::Semicolon, ";"),
        (TokenKind::RBrace, "}"),
        (TokenKind::Else, "else"),
        (TokenKind::LBrace, "{"),
        (TokenKind::Return, "return"),
        (TokenKind::False, "false"),
        (TokenKind::Semicolon, ";"),
        (TokenKind::RBrace, "}"),
        (TokenKind::Integer, "10"),
        (TokenKind::Equal, "=="),
        (TokenKind::Integer, "10"),
        (TokenKind::Semicolon, ";"),
        (TokenKind::Integer, "10"),
        (TokenKind::NotEqual, "!="),
        (TokenKind::Integer, "9"),
        (TokenKind::Semicolon, ";"),
        (TokenKind::EndOfFile, ""),
    ];

    walk_through_input_token(lex, tests);
}

#[test]
fn test_lex_let_five_statement() {
    let lex = Lexer::new("let five = 5;".to_string());
    let tests = vec![
        (TokenKind::Let, "let"),
        (TokenKind::Identifier, "five"),
        (TokenKind::Assign, "="),
        (TokenKind::Integer, "5"),
        (TokenKind::Semicolon, ";"),
        (TokenKind::EndOfFile, ""),
    ];
    walk_through_input_token(lex, tests);
}

#[test]
fn test_end_of_file_is_idempotent() {
    let mut lex = Lexer::new("x".to_string());
    let first = lex.next_token();
    assert_eq!(first.kind, TokenKind::Identifier);
    for _ in 0..10 {
        let token = lex.next_token();
        assert_eq!(token.kind, TokenKind::EndOfFile);
        assert_eq!(token.literal, "");
    }

    let mut empty = Lexer::new(String::new());
    for _ in 0..10 {
        let token = empty.next_token();
        assert_eq!(token.kind, TokenKind::EndOfFile);
        assert_eq!(token.literal, "");
    }
}

#[test]
fn test_illegal_character() {
    let mut lex = Lexer::new("@ #".to_string());
    let first = lex.next_token();
    assert_eq!(first.kind, TokenKind::Illegal);
    assert_eq!(first.literal, "@");
    let second = lex.next_token();
    assert_eq!(second.kind, TokenKind::Illegal);
    assert_eq!(second.literal, "#");
    assert_eq!(lex.next_token().kind, TokenKind::EndOfFile);
}

#[test]
fn test_underscore_identifier() {
    let mut lex = Lexer::new("_foo bar_baz".to_string());
    let first = lex.next_token();
    assert_eq!(first.kind, TokenKind::Identifier);
    assert_eq!(first.literal, "_foo");
    let second = lex.next_token();
    assert_eq!(second.kind, TokenKind::Identifier);
    assert_eq!(second.literal, "bar_baz");
}

#[test]
fn test_lookup_ident_keywords() {
    assert_eq!(lookup_ident("fn"), TokenKind::Function);
    assert_eq!(lookup_ident("let"), TokenKind::Let);
    assert_eq!(lookup_ident("true"), TokenKind::True);
    assert_eq!(lookup_ident("false"), TokenKind::False);
    assert_eq!(lookup_ident("if"), TokenKind::If);
    assert_eq!(lookup_ident("else"), TokenKind::Else);
    assert_eq!(lookup_ident("return"), TokenKind::Return);
    assert_eq!(lookup_ident("foobar"), TokenKind::Identifier);
    assert_eq!(lookup_ident("lets"), TokenKind::Identifier);
}

#[test]
fn test_token_new_single_char() {
    let token = Token::new(TokenKind::Plus, '+');
    assert_eq!(token.kind, TokenKind::Plus);
    assert_eq!(token.literal, "+");
}

#[test]
fn test_embedded_nul_is_terminal() {
    // once the scanner has answered EndOfFile it keeps answering EndOfFile,
    // even when more bytes follow a NUL in the input
    let mut lex = Lexer::new("a\0b".to_string());
    let first = lex.next_token();
    assert_eq!(first.kind, TokenKind::Identifier);
    assert_eq!(first.literal, "a");
    for _ in 0..5 {
        let token = lex.next_token();
        assert_eq!(token.kind, TokenKind::EndOfFile);
        assert_eq!(token.literal, "");
    }
}

#[test]
fn test_whitespace_is_skipped() {
    let mut lex = Lexer::new("  let\t five \r\n =\n5 ;".to_string());
    let expected = [
        (TokenKind::Let, "let"),
        (TokenKind::Identifier, "five"),
        (TokenKind::Assign, "="),
        (TokenKind::Integer, "5"),
        (TokenKind::Semicolon, ";"),
        (TokenKind::EndOfFile, ""),
    ];
    for (kind, literal) in expected {
        let token = lex.next_token();
        assert_eq!(token.kind, kind);
        assert_eq!(token.literal, literal);
    }
}
