use monkey::lexer::Lexer;
use monkey::token::Token;

fn scan_all(input: &str) -> Vec<Token> {
    let mut lexer = Lexer::new(input.to_string());
    let mut tokens = Vec::new();
    loop {
        let token = lexer.next_token();
        if token == Token::EOF {
            return tokens;
        }
        tokens.push(token);
    }
}

#[test]
fn get_next_token() {
    let input = "=+(){},;";
    let mut lexer = Lexer::new(input.into());
    let tokens = vec![
        Token::Assign,
        Token::Plus,
        Token::LParen,
        Token::RParen,
        Token::LBrace,
        Token::RBrace,
        Token::Comma,
        Token::Semicolon,
    ];
    for token in tokens {
        let next_token = lexer.next_token();
        println!("Expected token: {:?}, got token: {:?}", token, next_token);
        assert_eq!(token, next_token)
    }
}

#[test]
fn get_next_token_complex() {
    let input = r#"let five = 5;
        let ten = 10;
        let add = fn(x, y) {
            x + y;
        };
        let result = add(five, ten);
            !-/*5;
            5 < 10 > 5;
            if (5 < 10) {
                return true;
            } else {
                return false;
            }

            10 == 10;
            10 != 9;
    "#;

    let mut lexer = Lexer::new(input.into());

    let tokens = vec![
        Token::Let,
        Token::Ident("five".into()),
        Token::Assign,
        Token::Int("5".into()),
        Token::Semicolon,
        Token::Let,
        Token::Ident("ten".into()),
        Token::Assign,
        Token::Int("10".into()),
        Token::Semicolon,
        Token::Let,
        Token::Ident("add".into()),
        Token::Assign,
        Token::Function,
        Token::LParen,
        Token::Ident("x".into()),
        Token::Comma,
        Token::Ident("y".into()),
        Token::RParen,
        Token::LBrace,
        Token::Ident("x".into()),
        Token::Plus,
        Token::Ident("y".into()),
        Token::Semicolon,
        Token::RBrace,
        Token::Semicolon,
        Token::Let,
        Token::Ident("result".into()),
        Token::Assign,
        Token::Ident("add".into()),
        Token::LParen,
        Token::Ident("five".into()),
        Token::Comma,
        Token::Ident("ten".into()),
        Token::RParen,
        Token::Semicolon,
        Token::Bang,
        Token::Minus,
        Token::Slash,
        Token::Asterisk,
        Token::Int("5".into()),
        Token::Semicolon,
        Token::Int("5".into()),
        Token::LessThan,
        Token::Int("10".into()),
        Token::GreaterThan,
        Token::Int("5".into()),
        Token::Semicolon,
        Token::If,
        Token::LParen,
        Token::Int("5".into()),
        Token::LessThan,
        Token::Int("10".into()),
        Token::RParen,
        Token::LBrace,
        Token::Return,
        Token::True,
        Token::Semicolon,
        Token::RBrace,
        Token::Else,
        Token::LBrace,
        Token::Return,
        Token::False,
        Token::Semicolon,
        Token::RBrace,
        Token::Int("10".into()),
        Token::Equal,
        Token::Int("10".into()),
        Token::Semicolon,
        Token::Int("10".into()),
        Token::NotEqual,
        Token::Int("9".into()),
        Token::Semicolon,
        Token::EOF,
    ];

    for token in tokens {
        let next_token = lexer.next_token();
        println!("Expected token: {:?}, got token: {:?}", token, next_token);
        assert_eq!(token, next_token)
    }
}

#[test]
fn whitespace_only_gives_end_of_input() {
    for input in ["", " ", "\t\n\r  \n"] {
        let mut lexer = Lexer::new(input.to_string());
        assert_eq!(lexer.next_token(), Token::EOF);
    }
}

#[test]
fn end_of_input_repeats() {
    let mut lexer = Lexer::new("x".to_string());
    assert_eq!(lexer.next_token(), Token::Ident("x".to_string()));
    for _ in 0..3 {
        assert_eq!(lexer.next_token(), Token::EOF);
    }
}

#[test]
fn every_single_byte_symbol_maps_one_to_one() {
    assert_eq!(
        scan_all("=+-!*/<>,;(){}"),
        vec![
            Token::Assign,
            Token::Plus,
            Token::Minus,
            Token::Bang,
            Token::Asterisk,
            Token::Slash,
            Token::LessThan,
            Token::GreaterThan,
            Token::Comma,
            Token::Semicolon,
            Token::LParen,
            Token::RParen,
            Token::LBrace,
            Token::RBrace,
        ]
    );
}

#[test]
fn two_byte_operators_scan_as_one_token() {
    assert_eq!(scan_all("=="), vec![Token::Equal]);
    assert_eq!(scan_all("!="), vec![Token::NotEqual]);
    assert_eq!(scan_all("= ="), vec![Token::Assign, Token::Assign]);
    assert_eq!(scan_all("=!"), vec![Token::Assign, Token::Bang]);
    assert_eq!(scan_all("!!="), vec![Token::Bang, Token::NotEqual]);
    assert_eq!(scan_all("==="), vec![Token::Equal, Token::Assign]);
}

#[test]
fn unrecognised_bytes_become_illegal_tokens() {
    assert_eq!(scan_all("a?b"), vec![Token::Ident("a".into()), Token::Illegal, Token::Ident("b".into())]);
    // 'é' is two bytes in UTF-8: each is its own illegal token.
    assert_eq!(scan_all("é"), vec![Token::Illegal, Token::Illegal]);
    assert_eq!(scan_all("\0"), vec![Token::Illegal]);
}

#[test]
fn words_and_numbers_are_maximal_runs() {
    assert_eq!(
        scan_all("let_x1 42fn"),
        vec![
            Token::Ident("let_x".into()),
            Token::Int("1".into()),
            Token::Int("42".into()),
            Token::Function,
        ]
    );
    assert_eq!(scan_all("_under"), vec![Token::Ident("_under".into())]);
}

#[test]
fn token_literals_are_total() {
    assert_eq!(Token::Ident("abc".into()).token_literal(), "abc");
    assert_eq!(Token::Int("7".into()).token_literal(), "7");
    assert_eq!(Token::Equal.token_literal(), "==");
    assert_eq!(Token::NotEqual.token_literal(), "!=");
    assert_eq!(Token::Function.token_literal(), "fn");
    assert_eq!(Token::Return.token_literal(), "return");
    assert_eq!(Token::Illegal.token_literal(), "ILLEGAL");
    assert_eq!(Token::EOF.token_literal(), "EOF");
}
