use lingo::ast::{Expression, Program, Statement};
use lingo::lexer::Lexer;
use lingo::parser::{parse_integer, Diagnostic, Parser};
use lingo::token::TokenKind;

fn parse(code: &str) -> (Program, Vec<String>) {
    let lexer = Lexer::new(code.to_string());
    let mut parser = Parser::new(lexer);
    let program = parser.parse_program();
    let messages = parser.errors().iter().map(|e| e.message()).collect();
    (program, messages)
}

fn check_parser_errors(messages: &[String]) {
    if messages.is_empty() {
        return;
    }
    println!("parser has {} errors", messages.len());
    for err in messages {
        println!("parser error: {}", err);
    }
    panic!("parser reported errors");
}

fn expression_of(statement: &Statement) -> &Expression {
    match statement {
        Statement::Expr(expression_statement) => {
            expression_statement.expression.as_ref().expect("statement has no expression")
        },
        _ => panic!("statement not ExpressionStatement"),
    }
}

fn test_let_statement(statement: &Statement, name: &str) -> bool {
    if statement.token_literal() != "let" {
        println!("statement token_literal not 'let'. got={}", statement.token_literal());
        return false;
    }
    let let_stat = match statement {
        Statement::Let(let_stat) => let_stat,
        _ => panic!("statement not LetStatement."),
    };
    if let_stat.name.value != name {
        println!("let_stat name's value not '{}'. got={}", name, let_stat.name.value);
        return false;
    }
    if let_stat.name.token_literal() != name {
        println!("stat name not '{}'. got={}", name, let_stat.name.token_literal());
        return false;
    }
    true
}

fn test_integer_literal(expression: &Expression, value: usize) -> bool {
    let integer_literal = match expression {
        Expression::Int(n) => n,
        _ => panic!("expression not IntegerLiteral"),
    };
    if integer_literal.value != value {
        println!("integer_literal's value not {}. got={}", value, integer_literal.value);
        return false;
    }
    if integer_literal.token_literal() != value.to_string().as_str() {
        println!(
            "integer_literal's token_literal not {}. got={}",
            value,
            integer_literal.token_literal()
        );
        return false;
    }
    true
}

fn lingo_source_code_parser(code: &str, len: usize) {
    let (program, messages) = parse(code);
    check_parser_errors(&messages);

    assert_eq!(
        program.statements.len(),
        len,
        "program statements does not contain {} statements. got={}",
        len,
        program.statements.len()
    );

    let tests = ["x", "y", "foobar"];

    for (i, expected_identifier) in tests.into_iter().enumerate() {
        let stat = program.statements.get(i).unwrap();
        assert!(test_let_statement(stat, expected_identifier));
    }
}

#[test]
fn test_let_statements() {
    // valid lingo source code
    let input = r#"
        let x = 5;
        let y = 10;
        let foobar = 838383;
        "#;

    lingo_source_code_parser(input, 3);

    // invalid input where tokens are missing: every statement is malformed,
    // so none is kept and each leaves one diagnostic
    let input = r#"
        let x 5;
        let = 10;
        let 838383;
        "#;
    let (program, messages) = parse(input);
    assert_eq!(program.statements.len(), 0);
    assert_eq!(messages.len(), 3);
    assert_eq!(messages[0], "expected next token to be =, got INT instead");
    assert_eq!(messages[1], "expected next token to be IDENT, got = instead");
    assert_eq!(messages[2], "expected next token to be IDENT, got INT instead");
}

#[test]
fn test_return_statements() {
    let input = r#"
        return 5;
        return 10;
        return 993322;
        "#;

    let (program, messages) = parse(input);
    check_parser_errors(&messages);

    assert_eq!(
        program.statements.len(),
        3,
        "program statements does not contain 3 statements. got={}",
        program.statements.len()
    );

    for stat in &program.statements {
        let return_stat = match stat {
            Statement::Return(return_stat) => return_stat,
            _ => panic!("statement not ReturnStatement"),
        };
        assert_eq!(
            return_stat.token_literal(),
            "return",
            "return_statement token_literal not 'return', got {}",
            return_stat.token_literal()
        );
    }
}

#[test]
fn test_identifier_expression() {
    let code = "foobar;";

    let (program, messages) = parse(code);
    check_parser_errors(&messages);

    assert_eq!(program.statements.len(), 1);

    let identifier = match expression_of(program.statements.first().unwrap()) {
        Expression::Ident(identifier) => identifier,
        _ => panic!("expression not Identifier"),
    };

    assert_eq!(identifier.value, "foobar");
    assert_eq!(identifier.token_literal(), "foobar");
}

#[test]
fn test_integer_literal_expression() {
    let code = "5;";

    let (program, messages) = parse(code);
    check_parser_errors(&messages);

    assert_eq!(program.statements.len(), 1);

    let literal = match expression_of(program.statements.first().unwrap()) {
        Expression::Int(literal) => literal,
        _ => panic!("expression not IntegerLiteral"),
    };

    assert_eq!(literal.value, 5_usize);
    assert_eq!(literal.token_literal(), "5");
}

#[test]
fn test_parsing_prefix_expressions() {
    let prefixs = vec![("!5;", "!", 5_usize), ("-15;", "-", 15)];

    for (input, operator, value) in prefixs {
        let (program, messages) = parse(input);
        check_parser_errors(&messages);

        assert_eq!(program.statements.len(), 1);

        let expression = match expression_of(program.statements.first().unwrap()) {
            Expression::Prefix(expression) => expression,
            _ => panic!("expression not PrefixExpression"),
        };

        assert_eq!(expression.operator, operator);

        assert!(test_integer_literal(&expression.right, value));
    }
}

#[test]
fn test_parsing_infix_expressions() {
    let infixs = vec![
        ("5 + 5;", 5_usize, "+", 5_usize),
        ("5 - 5;", 5, "-", 5),
        ("5 * 5;", 5, "*", 5),
        ("5 / 5;", 5, "/", 5),
        ("5 > 5;", 5, ">", 5),
        ("5 < 5;", 5, "<", 5),
        ("5 == 5;", 5, "==", 5),
        ("5 != 5;", 5, "!=", 5),
    ];

    for (input, left_value, operator, right_value) in infixs {
        let (program, messages) = parse(input);
        check_parser_errors(&messages);

        assert_eq!(program.statements.len(), 1);

        let expression = match expression_of(program.statements.first().unwrap()) {
            Expression::Infix(expression) => expression,
            _ => panic!("expression not InfixExpression"),
        };

        assert!(test_integer_literal(&expression.left, left_value));

        assert_eq!(expression.operator, operator);

        assert!(test_integer_literal(&expression.right, right_value));
    }
}

#[test]
fn test_operator_precedence_parsing() {
    let expressions = vec![
        ("-a * b", "((-a) * b)"),
        ("!-a", "(!(-a))"),
        ("a + b + c", "((a + b) + c)"),
        ("a + b - c", "((a + b) - c)"),
        ("a * b * c", "((a * b) * c)"),
        ("a * b / c", "((a * b) / c)"),
        ("a + b * c + d / e - f", "(((a + (b * c)) + (d / e)) - f)"),
        ("3 + 4; -5 * 5", "(3 + 4)((-5) * 5)"),
        ("5 > 4 == 3 < 4", "((5 > 4) == (3 < 4))"),
        ("5 < 4 != 3 > 4", "((5 < 4) != (3 > 4))"),
        ("3 + 4 * 5 == 3 * 1 + 4 * 5", "((3 + (4 * 5)) == ((3 * 1) + (4 * 5)))"),
        ("3 + 4 * 5 == 3 * 1 + 4 * 5", "((3 + (4 * 5)) == ((3 * 1) + (4 * 5)))"),
    ];
    for (input, expected) in expressions {
        let (program, messages) = parse(input);
        check_parser_errors(&messages);

        assert_eq!(program.format(), expected);
    }
}

#[test]
fn test_expression_precedence_parsing() {
    let input = "2 + 2 + 3 * 1 - 2 + 5 * 4 - 1";
    let (program, messages) = parse(input);
    check_parser_errors(&messages);

    println!("{}", program.format());
    assert_eq!(program.format(), "(((((2 + 2) + (3 * 1)) - 2) + (5 * 4)) - 1)");
}

#[test]
fn test_let_statement_attaches_value() {
    let (program, messages) = parse("let x = 5;");
    assert!(messages.is_empty());
    assert_eq!(program.statements.len(), 1);
    let let_stat = match &program.statements[0] {
        Statement::Let(let_stat) => let_stat,
        _ => panic!("statement not LetStatement"),
    };
    assert_eq!(let_stat.name.token_literal(), "x");
    assert_eq!(let_stat.name.value, "x");
    let value = let_stat.value.as_ref().expect("let statement has no value");
    assert!(test_integer_literal(value, 5));
    assert_eq!(program.format(), "let x = 5;");
}

#[test]
fn test_missing_assign_reports_one_diagnostic() {
    let lexer = Lexer::new("let x 5;".to_string());
    let mut parser = Parser::new(lexer);
    let program = parser.parse_program();
    assert_eq!(program.statements.len(), 0);
    let errors = parser.errors();
    assert_eq!(errors.len(), 1);
    assert_eq!(
        errors[0],
        Diagnostic::UnexpectedToken { expected: TokenKind::Assign, got: TokenKind::Integer }
    );
    assert_eq!(errors[0].message(), "expected next token to be =, got INT instead");
}

#[test]
fn test_grouping_round_trip() {
    let (program, messages) = parse("(5 + 5) * 2");
    check_parser_errors(&messages);
    assert_eq!(program.format(), "((5 + 5) * 2)");
}

#[test]
fn test_boolean_expressions() {
    let (program, messages) = parse("true; false; !true;");
    check_parser_errors(&messages);
    assert_eq!(program.statements.len(), 3);
    match expression_of(&program.statements[0]) {
        Expression::Bool(b) => assert!(b.value),
        _ => panic!("expression not Boolean"),
    }
    match expression_of(&program.statements[1]) {
        Expression::Bool(b) => assert!(!b.value),
        _ => panic!("expression not Boolean"),
    }
    assert_eq!(program.format(), "truefalse(!true)");
}

#[test]
fn test_format_then_reparse_is_identity() {
    let inputs = vec![
        "-a * b",
        "a + b * c + d / e - f",
        "(5 + 5) * 2",
        "3 + 4 * 5 == 3 * 1 + 4 * 5",
        "!-a",
        "!true",
    ];
    for input in inputs {
        let (program, messages) = parse(input);
        check_parser_errors(&messages);
        assert_eq!(program.statements.len(), 1);
        let formatted = program.format();
        let (reparsed, messages2) = parse(formatted.as_str());
        check_parser_errors(&messages2);
        assert_eq!(reparsed.statements.len(), 1);
        assert_eq!(
            expression_of(&program.statements[0]),
            expression_of(&reparsed.statements[0])
        );
        assert_eq!(reparsed.format(), formatted);
    }
}

#[test]
fn test_no_prefix_parse_fn_diagnostic() {
    let lexer = Lexer::new("+;".to_string());
    let mut parser = Parser::new(lexer);
    let program = parser.parse_program();
    assert_eq!(program.statements.len(), 0);
    let errors = parser.errors();
    assert_eq!(errors.len(), 1);
    assert_eq!(errors[0], Diagnostic::NoPrefixParseFn { got: TokenKind::Plus });
    assert_eq!(errors[0].message(), "no prefix parse function for + found");
}

#[test]
fn test_missing_closing_paren_diagnostic() {
    let lexer = Lexer::new("(5 + 5".to_string());
    let mut parser = Parser::new(lexer);
    let program = parser.parse_program();
    assert_eq!(program.statements.len(), 0);
    let errors = parser.errors();
    assert_eq!(errors.len(), 1);
    assert_eq!(
        errors[0],
        Diagnostic::UnexpectedToken { expected: TokenKind::RParen, got: TokenKind::EndOfFile }
    );
}

#[test]
fn test_integer_literal_too_large() {
    let lexer = Lexer::new("99999999999999999999999999;".to_string());
    let mut parser = Parser::new(lexer);
    let program = parser.parse_program();
    assert_eq!(program.statements.len(), 0);
    let errors = parser.errors();
    assert_eq!(errors.len(), 1);
    match &errors[0] {
        Diagnostic::BadIntegerLiteral { literal } => {
            assert_eq!(literal, "99999999999999999999999999");
        },
        other => panic!("expected BadIntegerLiteral, got {:?}", other),
    }
    assert_eq!(
        errors[0].message(),
        "could not parse 99999999999999999999999999 as integer"
    );
}

#[test]
fn test_parse_integer_bounds() {
    assert_eq!(parse_integer("0"), Some(0));
    assert_eq!(parse_integer("42"), Some(42));
    assert_eq!(parse_integer("007"), Some(7));
    assert_eq!(parse_integer(""), None);
    assert_eq!(parse_integer("12a"), None);
    assert_eq!(parse_integer("18446744073709551615"), Some(usize::MAX));
    assert_eq!(parse_integer("18446744073709551616"), None);
}

#[test]
fn test_left_associativity_of_same_precedence() {
    let cases = vec![
        ("a + b + c", "((a + b) + c)"),
        ("a - b - c", "((a - b) - c)"),
        ("a * b * c", "((a * b) * c)"),
        ("a / b / c", "((a / b) / c)"),
        ("a < b > c", "((a < b) > c)"),
        ("a == b != c", "((a == b) != c)"),
    ];
    for (input, expected) in cases {
        let (program, messages) = parse(input);
        check_parser_errors(&messages);
        assert_eq!(program.format(), expected);
    }
}

#[test]
fn test_error_recovery_continues_after_bad_statement() {
    let (program, messages) = parse("let x 5; let y = 7;");
    assert_eq!(messages.len(), 1);
    assert_eq!(program.statements.len(), 1);
    assert!(test_let_statement(&program.statements[0], "y"));
    assert_eq!(program.format(), "let y = 7;");
}

#[test]
fn test_longer_chain_stays_left_nested() {
    let (program, messages) = parse("a + b + c + d + e");
    check_parser_errors(&messages);
    assert_eq!(program.format(), "((((a + b) + c) + d) + e)");
}

#[test]
fn test_return_statement_format() {
    let (program, messages) = parse("return 5;");
    check_parser_errors(&messages);
    assert_eq!(program.format(), "return 5;");
}

#[test]
fn test_semicolon_is_optional() {
    let (program, messages) = parse("a + b");
    check_parser_errors(&messages);
    assert_eq!(program.statements.len(), 1);
    assert_eq!(program.format(), "(a + b)");
}
