use monkey::ast::{Expression, Identifier, LetStatement, Program, ReturnStatement, Statement};
use monkey::token::Token;

fn int_expression(digits: &str) -> Expression {
    Expression::Identifier(Identifier {
        token: Token::Int(digits.to_string()),
        value: digits.to_string(),
    })
}

fn let_statement(name: &str, digits: &str) -> LetStatement {
    LetStatement {
        token: Token::Let,
        name: Identifier {
            token: Token::Ident(name.to_string()),
            value: name.to_string(),
        },
        value: int_expression(digits),
    }
}

#[test]
fn format_return_statement() {
    let expect = vec!["return 5;", "return 10;", "return 25;"];
    let statements = vec![
        ReturnStatement { token: Token::Return, return_value: int_expression("5") },
        ReturnStatement { token: Token::Return, return_value: int_expression("10") },
        ReturnStatement { token: Token::Return, return_value: int_expression("25") },
    ];
    for (stmt, expect) in statements.iter().zip(expect) {
        assert_eq!(stmt.to_string(), expect)
    }
}

#[test]
fn format_let_statement() {
    let expect = vec!["let x = 5;", "let y = 10;", "let z = 25;"];
    let statements = vec![let_statement("x", "5"), let_statement("y", "10"), let_statement("z", "25")];
    for (stmt, expect) in statements.iter().zip(expect) {
        assert_eq!(stmt.to_string(), expect)
    }
}

#[test]
fn format_identifier() {
    let expect = vec!["x", "y", "z"];
    let identifiers = vec![
        Identifier { token: Token::Ident("x".to_string()), value: "x".to_string() },
        Identifier { token: Token::Ident("y".to_string()), value: "y".to_string() },
        Identifier { token: Token::Ident("z".to_string()), value: "z".to_string() },
    ];
    for (ident, expect) in identifiers.iter().zip(expect) {
        assert_eq!(ident.to_string(), expect)
    }
}

#[test]
fn format_expression() {
    let expression = Expression::Identifier(Identifier {
        token: Token::Ident("x".to_string()),
        value: "x".to_string(),
    });
    assert_eq!(expression.to_string(), "x");
}

#[test]
fn format_program_single_statement() {
    let program = Program { statements: vec![Statement::Let(let_statement("x", "5"))] };
    assert_eq!(program.to_string(), "let x = 5;");
}

#[test]
fn format_program_multiple_statements() {
    let program = Program {
        statements: vec![
            Statement::Let(let_statement("x", "5")),
            Statement::Return(ReturnStatement { token: Token::Return, return_value: int_expression("10") }),
            Statement::Let(let_statement("y", "15")),
            Statement::Return(ReturnStatement { token: Token::Return, return_value: int_expression("20") }),
        ],
    };
    assert_eq!(program.to_string(), "let x = 5;return 10;let y = 15;return 20;");
}

#[test]
fn format_program_no_statements() {
    let program = Program { statements: vec![] };
    assert_eq!(program.to_string(), "");
}

#[test]
fn program_token_literal_is_first_statements() {
    let program = Program {
        statements: vec![
            Statement::Return(ReturnStatement { token: Token::Return, return_value: int_expression("1") }),
            Statement::Let(let_statement("x", "5")),
        ],
    };
    assert_eq!(program.token_literal(), "return");
    assert_eq!(Program { statements: vec![] }.token_literal(), "");
}

#[test]
fn format_operator_expressions() {
    let sum = Expression::Infix {
        left: Box::new(int_expression("1")),
        operator: Token::Plus,
        right: Box::new(Expression::Prefix { operator: Token::Minus, right: Box::new(int_expression("2")) }),
    };
    assert_eq!(sum.to_string(), "(1 + (-2))");
}
