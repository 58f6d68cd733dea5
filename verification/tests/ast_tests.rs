use lingo::ast::{Expression, Identifier, LetStatement, Program, Statement};
use lingo::token::{Token, TokenKind};

#[test]
fn test_node_format() {
    let program = Program {
        statements: vec![Statement::Let(LetStatement {
            token: Token { kind: TokenKind::Let, literal: "let".to_string() },
            name: Identifier {
                token: Token { kind: TokenKind::Identifier, literal: "myVar".to_string() },
                value: "myVar".to_string(),
            },
            value: Some(Expression::Ident(Identifier {
                token: Token { kind: TokenKind::Identifier, literal: "anotherVar".to_string() },
                value: "anotherVar".to_string(),
            })),
        })],
    };

    assert_eq!(program.format(), "let myVar = anotherVar;");
}

#[test]
fn test_program_token_literal() {
    let program = Program { statements: vec![] };
    assert_eq!(program.token_literal(), "");
    assert_eq!(program.format(), "");
}
