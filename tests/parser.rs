use monkey::ast::{Expression, Program, Statement};
use monkey::lexer::Lexer;
use monkey::parser::{OperatorPrecedence, Parser, ParserError};
use monkey::token::Token;

fn parse(input: &str) -> Result<Program, ParserError> {
    let lexer = Lexer::new(input.to_string());
    let mut parser = Parser::new(lexer);
    parser.parse_program()
}

fn let_statement_components(statement: &Statement, name: &str) {
    match statement {
        Statement::Let(let_statement) => {
            assert_eq!(let_statement.token_literal(), "let");
            assert_eq!(let_statement.name.value, name);
        }
        _ => panic!("statement not LetStatement"),
    }
}

fn check_let_statements() {
    let input = r#"let x = 5;
        let y = 10;
        let foobar = 838383;"#;

    let lexer = Lexer::new(input.into());
    let mut parser = Parser::new(lexer);

    let program = parser.parse_program().unwrap();

    if program.statements.len() != 3 {
        panic!("program.Statements does not contain 3 statements, got {}", program.statements.len())
    }

    let expected_identifiers = vec!["x", "y", "foobar"];

    for (idx, ident) in expected_identifiers.iter().enumerate() {
        let_statement_components(&program.statements[idx], ident);
    }
}

#[test]
fn mod_let_statements() {
    check_let_statements();
}

#[test]
fn parser_let_statements() {
    check_let_statements();
}

#[test]
fn return_statements() {
    let input = r#"return 5;
        return 10;
        return 993322; "#;

    let lexer = Lexer::new(input.into());
    let mut parser = Parser::new(lexer);

    let program = parser.parse_program().unwrap();

    if program.statements.len() != 3 {
        panic!("program.Statements does not contain 3 statements, got {}", program.statements.len())
    }

    for statement in program.statements {
        match statement {
            Statement::Return(return_statement) => {
                assert_eq!(return_statement.token_literal(), "return");
            }
            _ => panic!("statement not ReturnStatement"),
        }
    }
}

#[test]
fn identifier_expression() {
    let input = "foobar";

    let lexer = Lexer::new(input.to_string());
    let mut parser = Parser::new(lexer);

    let program = parser.parse_program().unwrap();

    if program.statements.len() != 1 {
        panic!("program.Statements does not contain 3 statements, got {}", program.statements.len())
    }
    for statement in program.statements {
        match statement {
            Statement::Expression(expression_statement) => {
                assert_eq!(expression_statement.token_literal(), "foobar");
                println!("{}", expression_statement.token_literal());
                assert_eq!(expression_statement.expression.to_string(), "foobar")
            }
            _ => panic!("Statement not ExpressionStatement"),
        }
    }
}

#[test]
fn let_values_are_parsed() {
    let program = parse("let x = 5;\nlet y = 10;\nlet foobar = 838383;").unwrap();
    assert_eq!(program.to_string(), "let x = 5;let y = 10;let foobar = 838383;");
    let program = parse("return 5;\nreturn 10;\nreturn 993322;").unwrap();
    assert_eq!(program.to_string(), "return 5;return 10;return 993322;");
}

#[test]
fn missing_assign_is_unexpected_token() {
    match parse("let x 5;") {
        Err(ParserError::UnexpectedToken { want, got }) => {
            assert_eq!(want, "=");
            assert_eq!(got, "5");
        }
        other => panic!("expected UnexpectedToken, got {:?}", other),
    }
}

#[test]
fn missing_name_is_missing_identifier() {
    match parse("let = 5;") {
        Err(ParserError::MissingIdentifier(token)) => assert_eq!(token, Token::Assign),
        other => panic!("expected MissingIdentifier, got {:?}", other),
    }
    match parse("let 5 = 5;") {
        Err(ParserError::MissingIdentifier(token)) => assert_eq!(token, Token::Int("5".into())),
        other => panic!("expected MissingIdentifier, got {:?}", other),
    }
}

#[test]
fn token_without_prefix_handler_is_an_error() {
    match parse("x; ;") {
        Err(ParserError::PrefixExpressionNotImplemented(token)) => assert_eq!(token, Token::Semicolon),
        other => panic!("expected PrefixExpressionNotImplemented, got {:?}", other),
    }
    match parse("let x = ;") {
        Err(ParserError::PrefixExpressionNotImplemented(token)) => assert_eq!(token, Token::Semicolon),
        other => panic!("expected PrefixExpressionNotImplemented, got {:?}", other),
    }
}

#[test]
fn unclosed_group_is_unexpected_token() {
    match parse("(a + b") {
        Err(ParserError::UnexpectedToken { want, got }) => {
            assert_eq!(want, ")");
            assert_eq!(got, "EOF");
        }
        other => panic!("expected UnexpectedToken, got {:?}", other),
    }
}

#[test]
fn error_messages() {
    let e = ParserError::UnexpectedToken { want: "=".to_string(), got: "5".to_string() };
    assert_eq!(e.to_string(), "parser found unexpected token: 5, expected: =");
    let e = ParserError::MissingIdentifier(Token::Assign);
    assert_eq!(e.to_string(), "Was expecting identifier, got =");
    let e = ParserError::PrefixExpressionNotImplemented(Token::Semicolon);
    assert_eq!(e.to_string(), "Expression for token ; not implemented on prefix");
}

#[test]
fn empty_program_has_no_statements() {
    let program = parse("").unwrap();
    assert_eq!(program.statements.len(), 0);
    assert_eq!(program.to_string(), "");
    let program = parse("  \n\t ").unwrap();
    assert_eq!(program.statements.len(), 0);
}

#[test]
fn first_error_aborts_the_parse() {
    assert!(parse("let a = 1; let b 2; let c = 3;").is_err());
}

#[test]
fn operator_precedence() {
    let cases = [
        ("a + b * c", "(a + (b * c))"),
        ("a * b + c", "((a * b) + c)"),
        ("a + b + c", "((a + b) + c)"),
        ("a - b / c", "(a - (b / c))"),
        ("-a * b", "((-a) * b)"),
        ("!-a", "(!(-a))"),
        ("a + b == c < d", "((a + b) == (c < d))"),
        ("5 > 4 != 3 < 4", "((5 > 4) != (3 < 4))"),
        ("(a + b) * c", "((a + b) * c)"),
        ("-(5 + 5)", "(-(5 + 5))"),
    ];
    for (input, expect) in cases {
        let program = parse(input).unwrap();
        assert_eq!(program.statements.len(), 1);
        assert_eq!(program.to_string(), expect, "input {}", input);
    }
}

#[test]
fn semicolons_are_optional_after_statements() {
    let program = parse("let a = 1 return a x").unwrap();
    assert_eq!(program.statements.len(), 3);
    assert_eq!(program.to_string(), "let a = 1;return a;x");
}

#[test]
fn rendered_statement_parses_back_to_the_same_text() {
    for input in ["let x = -a * (b + c);", "return !x == y;", "a + b * c"] {
        let first = parse(input).unwrap();
        let text = first.to_string();
        let second = parse(&text).unwrap();
        assert_eq!(second.statements.len(), 1);
        assert_eq!(second.to_string(), text);
    }
}

#[test]
fn expression_statement_keeps_its_first_token() {
    let program = parse("-x;").unwrap();
    match &program.statements[0] {
        Statement::Expression(s) => {
            assert_eq!(s.token, Token::Minus);
            match &s.expression {
                Expression::Prefix { operator, .. } => assert_eq!(*operator, Token::Minus),
                _ => panic!("not a prefix expression"),
            }
        }
        _ => panic!("not an expression statement"),
    }
}

#[test]
fn precedence_scale_is_ordered() {
    assert_eq!(OperatorPrecedence::Lowest.rank(), 0);
    assert_eq!(OperatorPrecedence::Sum.rank(), 3);
    assert_eq!(OperatorPrecedence::Call.rank(), 6);
    assert!(OperatorPrecedence::Product > OperatorPrecedence::Sum);
}
