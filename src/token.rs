use vstd::prelude::*;

verus! {

/// A classified unit of source text.
#[derive(Debug)]
pub enum Token {
    Ident(String),
    Int(String),
    Assign,
    Plus,
    Minus,
    Bang,
    Asterisk,
    Slash,
    LessThan,
    GreaterThan,
    Equal,
    NotEqual,
    Comma,
    Semicolon,
    LParen,
    RParen,
    LBrace,
    RBrace,
    Function,
    Let,
    True,
    False,
    If,
    Else,
    Return,
    Illegal,
    EOF,
}

/// The mathematical model of a token: the same kinds, with text payloads as
/// character sequences.
pub enum TokenView {
    Ident(Seq<char>),
    Int(Seq<char>),
    Assign,
    Plus,
    Minus,
    Bang,
    Asterisk,
    Slash,
    LessThan,
    GreaterThan,
    Equal,
    NotEqual,
    Comma,
    Semicolon,
    LParen,
    RParen,
    LBrace,
    RBrace,
    Function,
    Let,
    True,
    False,
    If,
    Else,
    Return,
    Illegal,
    EOF,
}

impl View for Token {
    type V = TokenView;

    open spec fn view(&self) -> TokenView {
        match self {
            Token::Ident(s) => TokenView::Ident(s@),
            Token::Int(s) => TokenView::Int(s@),
            Token::Assign => TokenView::Assign,
            Token::Plus => TokenView::Plus,
            Token::Minus => TokenView::Minus,
            Token::Bang => TokenView::Bang,
            Token::Asterisk => TokenView::Asterisk,
            Token::Slash => TokenView::Slash,
            Token::LessThan => TokenView::LessThan,
            Token::GreaterThan => TokenView::GreaterThan,
            Token::Equal => TokenView::Equal,
            Token::NotEqual => TokenView::NotEqual,
            Token::Comma => TokenView::Comma,
            Token::Semicolon => TokenView::Semicolon,
            Token::LParen => TokenView::LParen,
            Token::RParen => TokenView::RParen,
            Token::LBrace => TokenView::LBrace,
            Token::RBrace => TokenView::RBrace,
            Token::Function => TokenView::Function,
            Token::Let => TokenView::Let,
            Token::True => TokenView::True,
            Token::False => TokenView::False,
            Token::If => TokenView::If,
            Token::Else => TokenView::Else,
            Token::Return => TokenView::Return,
            Token::Illegal => TokenView::Illegal,
            Token::EOF => TokenView::EOF,
        }
    }
}

/// The canonical surface text of a token kind.
pub open spec fn literal_of(t: TokenView) -> Seq<char> {
    match t {
        TokenView::Ident(s) => s,
        TokenView::Int(s) => s,
        TokenView::Assign => seq!['='],
        TokenView::Plus => seq!['+'],
        TokenView::Minus => seq!['-'],
        TokenView::Bang => seq!['!'],
        TokenView::Asterisk => seq!['*'],
        TokenView::Slash => seq!['/'],
        TokenView::LessThan => seq!['<'],
        TokenView::GreaterThan => seq!['>'],
        TokenView::Equal => seq!['=', '='],
        TokenView::NotEqual => seq!['!', '='],
        TokenView::Comma => seq![','],
        TokenView::Semicolon => seq![';'],
        TokenView::LParen => seq!['('],
        TokenView::RParen => seq![')'],
        TokenView::LBrace => seq!['{'],
        TokenView::RBrace => seq!['}'],
        TokenView::Function => seq!['f', 'n'],
        TokenView::Let => seq!['l', 'e', 't'],
        TokenView::True => seq!['t', 'r', 'u', 'e'],
        TokenView::False => seq!['f', 'a', 'l', 's', 'e'],
        TokenView::If => seq!['i', 'f'],
        TokenView::Else => seq!['e', 'l', 's', 'e'],
        TokenView::Return => seq!['r', 'e', 't', 'u', 'r', 'n'],
        TokenView::Illegal => seq!['I', 'L', 'L', 'E', 'G', 'A', 'L'],
        TokenView::EOF => seq!['E', 'O', 'F'],
    }
}

impl Token {
    /// The canonical surface text of this token.
    pub fn token_literal(&self) -> (r: &str)
        ensures
            r@ == literal_of(self@),
    {
        match self {
            Token::Ident(s) => s.as_str(),
            Token::Int(s) => s.as_str(),
            Token::Assign => {
                proof { reveal_strlit("="); }
                "="
            },
            Token::Plus => {
                proof { reveal_strlit("+"); }
                "+"
            },
            Token::Minus => {
                proof { reveal_strlit("-"); }
                "-"
            },
            Token::Bang => {
                proof { reveal_strlit("!"); }
                "!"
            },
            Token::Asterisk => {
                proof { reveal_strlit("*"); }
                "*"
            },
            Token::Slash => {
                proof { reveal_strlit("/"); }
                "/"
            },
            Token::LessThan => {
                proof { reveal_strlit("<"); }
                "<"
            },
            Token::GreaterThan => {
                proof { reveal_strlit(">"); }
                ">"
            },
            Token::Equal => {
                proof { reveal_strlit("=="); }
                "=="
            },
            Token::NotEqual => {
                proof { reveal_strlit("!="); }
                "!="
            },
            Token::Comma => {
                proof { reveal_strlit(","); }
                ","
            },
            Token::Semicolon => {
                proof { reveal_strlit(";"); }
                ";"
            },
            Token::LParen => {
                proof { reveal_strlit("("); }
                "("
            },
            Token::RParen => {
                proof { reveal_strlit(")"); }
                ")"
            },
            Token::LBrace => {
                proof { reveal_strlit("{"); }
                "{"
            },
            Token::RBrace => {
                proof { reveal_strlit("}"); }
                "}"
            },
            Token::Function => {
                proof { reveal_strlit("fn"); }
                "fn"
            },
            Token::Let => {
                proof { reveal_strlit("let"); }
                "let"
            },
            Token::True => {
                proof { reveal_strlit("true"); }
                "true"
            },
            Token::False => {
                proof { reveal_strlit("false"); }
                "false"
            },
            Token::If => {
                proof { reveal_strlit("if"); }
                "if"
            },
            Token::Else => {
                proof { reveal_strlit("else"); }
                "else"
            },
            Token::Return => {
                proof { reveal_strlit("return"); }
                "return"
            },
            Token::Illegal => {
                proof { reveal_strlit("ILLEGAL"); }
                "ILLEGAL"
            },
            Token::EOF => {
                proof { reveal_strlit("EOF"); }
                "EOF"
            },
        }
    }

    /// A copy of this token.
    pub fn duplicate(&self) -> (r: Token)
        ensures
            r@ == self@,
    {
        match self {
            Token::Ident(s) => Token::Ident(s.clone()),
            Token::Int(s) => Token::Int(s.clone()),
            Token::Assign => Token::Assign,
            Token::Plus => Token::Plus,
            Token::Minus => Token::Minus,
            Token::Bang => Token::Bang,
            Token::Asterisk => Token::Asterisk,
            Token::Slash => Token::Slash,
            Token::LessThan => Token::LessThan,
            Token::GreaterThan => Token::GreaterThan,
            Token::Equal => Token::Equal,
            Token::NotEqual => Token::NotEqual,
            Token::Comma => Token::Comma,
            Token::Semicolon => Token::Semicolon,
            Token::LParen => Token::LParen,
            Token::RParen => Token::RParen,
            Token::LBrace => Token::LBrace,
            Token::RBrace => Token::RBrace,
            Token::Function => Token::Function,
            Token::Let => Token::Let,
            Token::True => Token::True,
            Token::False => Token::False,
            Token::If => Token::If,
            Token::Else => Token::Else,
            Token::Return => Token::Return,
            Token::Illegal => Token::Illegal,
            Token::EOF => Token::EOF,
        }
    }

    /// Whether this is the end-of-input sentinel.
    pub fn is_eof(&self) -> (r: bool)
        ensures
            r == (self@ == TokenView::EOF),
    {
        match self {
            Token::EOF => true,
            _ => false,
        }
    }
}

/// Token equality compares kinds, and text for the two payload-bearing kinds.
impl PartialEq for Token {
    fn eq(&self, other: &Token) -> (r: bool)
        ensures
            r == (self@ == other@),
    {
        match self {
            Token::Ident(a) => match other {
                Token::Ident(b) => a.eq(b),
                _ => false,
            },
            Token::Int(a) => match other {
                Token::Int(b) => a.eq(b),
                _ => false,
            },
            _ => match other {
                Token::Ident(_) => false,
                Token::Int(_) => false,
                _ => same_kind(self, other),
            },
        }
    }
}

impl vstd::std_specs::cmp::PartialEqSpecImpl for Token {
    open spec fn obeys_eq_spec() -> bool {
        true
    }

    open spec fn eq_spec(&self, other: &Token) -> bool {
        self@ == other@
    }
}

/// Numbers each payload-free kind; both payload kinds share one number.
pub open spec fn kind_code(t: TokenView) -> nat {
    match t {
        TokenView::Ident(_) => 0,
        TokenView::Int(_) => 0,
        TokenView::Assign => 1,
        TokenView::Plus => 2,
        TokenView::Minus => 3,
        TokenView::Bang => 4,
        TokenView::Asterisk => 5,
        TokenView::Slash => 6,
        TokenView::LessThan => 7,
        TokenView::GreaterThan => 8,
        TokenView::Equal => 9,
        TokenView::NotEqual => 10,
        TokenView::Comma => 11,
        TokenView::Semicolon => 12,
        TokenView::LParen => 13,
        TokenView::RParen => 14,
        TokenView::LBrace => 15,
        TokenView::RBrace => 16,
        TokenView::Function => 17,
        TokenView::Let => 18,
        TokenView::True => 19,
        TokenView::False => 20,
        TokenView::If => 21,
        TokenView::Else => 22,
        TokenView::Return => 23,
        TokenView::Illegal => 24,
        TokenView::EOF => 25,
    }
}

fn code(t: &Token) -> (r: u8)
    ensures
        r as nat == kind_code(t@),
{
    match t {
        Token::Ident(_) => 0,
        Token::Int(_) => 0,
        Token::Assign => 1,
        Token::Plus => 2,
        Token::Minus => 3,
        Token::Bang => 4,
        Token::Asterisk => 5,
        Token::Slash => 6,
        Token::LessThan => 7,
        Token::GreaterThan => 8,
        Token::Equal => 9,
        Token::NotEqual => 10,
        Token::Comma => 11,
        Token::Semicolon => 12,
        Token::LParen => 13,
        Token::RParen => 14,
        Token::LBrace => 15,
        Token::RBrace => 16,
        Token::Function => 17,
        Token::Let => 18,
        Token::True => 19,
        Token::False => 20,
        Token::If => 21,
        Token::Else => 22,
        Token::Return => 23,
        Token::Illegal => 24,
        Token::EOF => 25,
    }
}

fn same_kind(a: &Token, b: &Token) -> (r: bool)
    requires
        !(a@ is Ident) && !(a@ is Int) && !(b@ is Ident) && !(b@ is Int),
    ensures
        r == (a@ == b@),
{
    code(a) == code(b)
}

} // verus!
