use vstd::prelude::*;
use vstd::string::StringExecFns;
use crate::token::{Token, TokenView, literal_of};
use crate::lexer::Lexer;
use crate::ast::{
    ExprView, Expression, ExpressionStatement, Identifier, IntegerLiteral, LetStatement, Program,
    ReturnStatement, Statement, StmtView,
};

verus! {

/// A syntax error: the first one found ends the parse.
#[derive(Debug)]
pub enum ParserError {
    /// A required token was not the next one.
    UnexpectedToken { want: String, got: String },
    /// A name was required and this token stood in its place.
    MissingIdentifier(Token),
    /// No expression can start with this token.
    PrefixExpressionNotImplemented(Token),
}

/// The mathematical model of a syntax error.
pub enum ErrorView {
    UnexpectedToken { want: Seq<char>, got: Seq<char> },
    MissingIdentifier(TokenView),
    PrefixExpressionNotImplemented(TokenView),
}

impl View for ParserError {
    type V = ErrorView;

    open spec fn view(&self) -> ErrorView {
        match self {
            ParserError::UnexpectedToken { want, got } => ErrorView::UnexpectedToken { want: want@, got: got@ },
            ParserError::MissingIdentifier(t) => ErrorView::MissingIdentifier(t@),
            ParserError::PrefixExpressionNotImplemented(t) => ErrorView::PrefixExpressionNotImplemented(t@),
        }
    }
}

/// The human-readable text of a syntax error.
pub open spec fn message_of(e: ErrorView) -> Seq<char> {
    match e {
        ErrorView::UnexpectedToken { want, got } => "parser found unexpected token: "@ + got + ", expected: "@ + want,
        ErrorView::MissingIdentifier(t) => "Was expecting identifier, got "@ + literal_of(t),
        ErrorView::PrefixExpressionNotImplemented(t) => "Expression for token "@ + literal_of(t)
            + " not implemented on prefix"@,
    }
}

impl ParserError {
    /// The human-readable text of this error.
    pub fn to_string(&self) -> (r: String)
        ensures
            r@ == message_of(self@),
    {
        let mut out = String::new();
        match self {
            ParserError::UnexpectedToken { want, got } => {
                out.append("parser found unexpected token: ");
                out.append(got.as_str());
                out.append(", expected: ");
                out.append(want.as_str());
            },
            ParserError::MissingIdentifier(t) => {
                out.append("Was expecting identifier, got ");
                out.append(t.token_literal());
            },
            ParserError::PrefixExpressionNotImplemented(t) => {
                out.append("Expression for token ");
                out.append(t.token_literal());
                out.append(" not implemented on prefix");
            },
        }
        proof {
            assert(out@ =~= message_of(self@));
        }
        out
    }
}

/// Binding strength, weakest first.
#[derive(Debug, PartialEq, Eq, Structural, PartialOrd)]
pub enum OperatorPrecedence {
    Lowest,
    Equals,
    LessGreater,
    Sum,
    Product,
    Prefix,
    Call,
}

impl OperatorPrecedence {
    pub open spec fn spec_rank(&self) -> nat {
        match self {
            OperatorPrecedence::Lowest => 0,
            OperatorPrecedence::Equals => 1,
            OperatorPrecedence::LessGreater => 2,
            OperatorPrecedence::Sum => 3,
            OperatorPrecedence::Product => 4,
            OperatorPrecedence::Prefix => 5,
            OperatorPrecedence::Call => 6,
        }
    }

    /// The position of this level on the scale, from 0 for `Lowest`.
    pub fn rank(&self) -> (r: u8)
        ensures
            r as nat == self.spec_rank(),
    {
        match self {
            OperatorPrecedence::Lowest => 0,
            OperatorPrecedence::Equals => 1,
            OperatorPrecedence::LessGreater => 2,
            OperatorPrecedence::Sum => 3,
            OperatorPrecedence::Product => 4,
            OperatorPrecedence::Prefix => 5,
            OperatorPrecedence::Call => 6,
        }
    }
}

/// How strongly a token binds as an infix operator; `Lowest` for a token
/// that is not one.
pub open spec fn precedence_of(t: TokenView) -> OperatorPrecedence {
    match t {
        TokenView::Equal | TokenView::NotEqual => OperatorPrecedence::Equals,
        TokenView::LessThan | TokenView::GreaterThan => OperatorPrecedence::LessGreater,
        TokenView::Plus | TokenView::Minus => OperatorPrecedence::Sum,
        TokenView::Asterisk | TokenView::Slash => OperatorPrecedence::Product,
        _ => OperatorPrecedence::Lowest,
    }
}

pub fn token_precedence(t: &Token) -> (p: OperatorPrecedence)
    ensures
        p == precedence_of(t@),
{
    match t {
        Token::Equal | Token::NotEqual => OperatorPrecedence::Equals,
        Token::LessThan | Token::GreaterThan => OperatorPrecedence::LessGreater,
        Token::Plus | Token::Minus => OperatorPrecedence::Sum,
        Token::Asterisk | Token::Slash => OperatorPrecedence::Product,
        _ => OperatorPrecedence::Lowest,
    }
}

/// The token at index `i` of a stream, with the end-of-input token past its end.
pub open spec fn tok_at(ts: Seq<TokenView>, i: int) -> TokenView {
    if 0 <= i < ts.len() {
        ts[i]
    } else {
        TokenView::EOF
    }
}

/// The expression that starts at index `i`, taking in only operators that bind
/// more strongly than level `p`; with the index of its last token.
pub open spec fn parse_expr(ts: Seq<TokenView>, i: int, p: nat) -> Result<(ExprView, int), ErrorView>
    decreases ts.len() - i, 2nat,
{
    match parse_prefix(ts, i) {
        Ok((left, j)) => if i <= j < ts.len() {
            climb(ts, left, j, p)
        } else {
            Ok((left, j))
        },
        Err(e) => Err(e),
    }
}

/// The expression that the token at index `i` begins, before any infix operator.
pub open spec fn parse_prefix(ts: Seq<TokenView>, i: int) -> Result<(ExprView, int), ErrorView>
    decreases ts.len() - i, 1nat,
{
    match tok_at(ts, i) {
        TokenView::Ident(s) => Ok((ExprView::Ident { token: TokenView::Ident(s), value: s }, i)),
        TokenView::Int(s) => Ok((ExprView::Int { token: TokenView::Int(s), value: s }, i)),
        TokenView::Bang => parse_prefix_operator(ts, i),
        TokenView::Minus => parse_prefix_operator(ts, i),
        TokenView::LParen => parse_grouped(ts, i),
        t => Err(ErrorView::PrefixExpressionNotImplemented(t)),
    }
}

/// A unary operator at index `i` applied to the operand after it.
pub open spec fn parse_prefix_operator(ts: Seq<TokenView>, i: int) -> Result<(ExprView, int), ErrorView>
    decreases ts.len() - i, 0nat,
{
    if 0 <= i < ts.len() {
        match parse_expr(ts, i + 1, OperatorPrecedence::Prefix.spec_rank()) {
            Ok((right, j)) => Ok((ExprView::Prefix { operator: ts[i], right: Box::new(right) }, j)),
            Err(e) => Err(e),
        }
    } else {
        Err(ErrorView::PrefixExpressionNotImplemented(TokenView::EOF))
    }
}

/// An expression in parentheses, the `(` at index `i`.
pub open spec fn parse_grouped(ts: Seq<TokenView>, i: int) -> Result<(ExprView, int), ErrorView>
    decreases ts.len() - i, 0nat,
{
    if 0 <= i < ts.len() {
        match parse_expr(ts, i + 1, OperatorPrecedence::Lowest.spec_rank()) {
            Ok((e, j)) => if tok_at(ts, j + 1) == TokenView::RParen {
                Ok((e, j + 1))
            } else {
                Err(ErrorView::UnexpectedToken { want: literal_of(TokenView::RParen), got: literal_of(tok_at(ts, j + 1)) })
            },
            Err(e) => Err(e),
        }
    } else {
        Err(ErrorView::PrefixExpressionNotImplemented(TokenView::EOF))
    }
}

/// Folds `left`, which ends at index `j`, into every following infix operator
/// that binds more strongly than level `p`.
pub open spec fn climb(ts: Seq<TokenView>, left: ExprView, j: int, p: nat) -> Result<(ExprView, int), ErrorView>
    decreases ts.len() - j, 0nat,
{
    let op = tok_at(ts, j + 1);
    if p < precedence_of(op).spec_rank() && 0 <= j && j + 1 < ts.len() {
        match parse_expr(ts, j + 2, precedence_of(op).spec_rank()) {
            Ok((right, k)) => {
                let joined = ExprView::Infix { left: Box::new(left), operator: op, right: Box::new(right) };
                if j < k < ts.len() {
                    climb(ts, joined, k, p)
                } else {
                    Ok((joined, k))
                }
            },
            Err(e) => Err(e),
        }
    } else {
        Ok((left, j))
    }
}

/// Index `j`, or the index after it where a `;` follows.
pub open spec fn past_semicolon(ts: Seq<TokenView>, j: int) -> int {
    if tok_at(ts, j + 1) == TokenView::Semicolon {
        j + 1
    } else {
        j
    }
}

/// The statement that starts at index `i`, with the index of its last token.
pub open spec fn parse_stmt(ts: Seq<TokenView>, i: int) -> Result<(StmtView, int), ErrorView> {
    match tok_at(ts, i) {
        TokenView::Let => match tok_at(ts, i + 1) {
            TokenView::Ident(n) => if tok_at(ts, i + 2) == TokenView::Assign {
                match parse_expr(ts, i + 3, 0) {
                    Ok((v, j)) => Ok((
                        StmtView::Let { token: TokenView::Let, name_token: TokenView::Ident(n), name: n, value: v },
                        past_semicolon(ts, j),
                    )),
                    Err(e) => Err(e),
                }
            } else {
                Err(ErrorView::UnexpectedToken { want: literal_of(TokenView::Assign), got: literal_of(tok_at(ts, i + 2)) })
            },
            t => Err(ErrorView::MissingIdentifier(t)),
        },
        TokenView::Return => match parse_expr(ts, i + 1, 0) {
            Ok((v, j)) => Ok((StmtView::Return { token: TokenView::Return, value: v }, past_semicolon(ts, j))),
            Err(e) => Err(e),
        },
        t => match parse_expr(ts, i, 0) {
            Ok((v, j)) => Ok((StmtView::Expr { token: t, value: v }, past_semicolon(ts, j))),
            Err(e) => Err(e),
        },
    }
}

/// The statements from index `i` to the end of the stream, or the first error.
pub open spec fn parse_stmts(ts: Seq<TokenView>, i: int) -> Result<Seq<StmtView>, ErrorView>
    decreases ts.len() - i,
{
    if i < 0 || i >= ts.len() {
        Ok(Seq::empty())
    } else {
        match parse_stmt(ts, i) {
            Ok((s, j)) => if i <= j < ts.len() {
                match parse_stmts(ts, j + 1) {
                    Ok(rest) => Ok(seq![s] + rest),
                    Err(e) => Err(e),
                }
            } else {
                Ok(seq![s])
            },
            Err(e) => Err(e),
        }
    }
}

/// The program that a token stream spells, or its first syntax error.
pub open spec fn parse_tokens(ts: Seq<TokenView>) -> Result<Seq<StmtView>, ErrorView> {
    parse_stmts(ts, 0)
}

/// Drives a scanner, holding the current token and the one after it.
pub struct Parser {
    lexer: Lexer,
    current_token: Token,
    peek_token: Token,
    tokens: Ghost<Seq<TokenView>>,
    index: Ghost<int>,
}

impl Parser {
    /// The whole token stream this parser reads, end of input excluded.
    pub closed spec fn tokens(&self) -> Seq<TokenView> {
        self.tokens@
    }

    /// The index of the current token in that stream.
    pub closed spec fn index(&self) -> int {
        self.index@
    }

    pub closed spec fn wf(&self) -> bool {
        let ts = self.tokens@;
        let i = self.index@;
        &&& self.lexer.wf()
        &&& 0 <= i
        &&& forall|k: int| 0 <= k < ts.len() ==> #[trigger] ts[k] != TokenView::EOF
        &&& self.current_token@ == tok_at(ts, i)
        &&& self.peek_token@ == tok_at(ts, i + 1)
        &&& self.lexer.rest() == (if i + 2 <= ts.len() { ts.subrange(i + 2, ts.len() as int) } else { Seq::empty() })
    }

    /// A parser at the first token that `lexer` has still to give.
    pub fn new(lexer: Lexer) -> (p: Parser)
        requires
            lexer.wf(),
        ensures
            p.wf(),
            p.tokens() == lexer.rest(),
            p.index() == 0,
    {
        let ghost ts = lexer.rest();
        proof {
            lexer.lemma_wf_cursor();
            crate::lexer::lemma_lex_no_eof(lexer.bytes(), lexer.cursor());
        }
        let mut lexer = lexer;
        let current_token = lexer.next_token();
        let peek_token = lexer.next_token();
        proof {
            if ts.len() >= 2 {
                assert(ts.subrange(2, ts.len() as int) =~= ts.drop_first().drop_first());
            }
        }
        Parser { lexer, current_token, peek_token, tokens: Ghost(ts), index: Ghost(0) }
    }

    /// Moves one token on: the peek token becomes the current one.
    pub fn next_token(&mut self)
        requires
            old(self).wf(),
        ensures
            final(self).wf(),
            final(self).tokens() == old(self).tokens(),
            final(self).index() == old(self).index() + 1,
    {
        let ghost ts = self.tokens@;
        let ghost i = self.index@;
        let mut t = self.lexer.next_token();
        std::mem::swap(&mut self.peek_token, &mut t);
        self.current_token = t;
        self.index = Ghost(i + 1);
        proof {
            if i + 3 <= ts.len() {
                assert(ts.subrange(i + 3, ts.len() as int) =~= ts.subrange(i + 2, ts.len() as int).drop_first());
            }
        }
    }

    fn peek_token_is(&self, token: &Token) -> (r: bool)
        ensures
            r == (self.peek_token@ == token@),
    {
        self.peek_token == *token
    }

    /// Moves on when the peek token is `token`; otherwise reports what stood there.
    fn expect_peek(&mut self, token: Token) -> (r: Result<(), ParserError>)
        requires
            old(self).wf(),
        ensures
            final(self).wf(),
            final(self).tokens() == old(self).tokens(),
            tok_at(old(self).tokens(), old(self).index() + 1) == token@ ==> r is Ok && final(self).index() == old(self).index() + 1,
            tok_at(old(self).tokens(), old(self).index() + 1) != token@ ==> r is Err && r->Err_0@ == (ErrorView::UnexpectedToken {
                want: literal_of(token@),
                got: literal_of(tok_at(old(self).tokens(), old(self).index() + 1)),
            }),
    {
        if self.peek_token_is(&token) {
            self.next_token();
            Ok(())
        } else {
            let want = token.token_literal().to_string();
            let got = self.peek_token.token_literal().to_string();
            Err(ParserError::UnexpectedToken { want, got })
        }
    }

    /// The name held by the current token, which must be an identifier.
    fn read_identifier(&self) -> (r: Result<String, ParserError>)
        requires
            self.wf(),
        ensures
            match tok_at(self.tokens(), self.index()) {
                TokenView::Ident(n) => r is Ok && r->Ok_0@ == n,
                t => r is Err && r->Err_0@ == ErrorView::MissingIdentifier(t),
            },
    {
        match &self.current_token {
            Token::Ident(name) => Ok(name.clone()),
            _ => Err(ParserError::MissingIdentifier(self.current_token.duplicate())),
        }
    }

    /// The current identifier token as an expression.
    fn parse_identifier(&self) -> (e: Expression)
        requires
            self.current_token@ is Ident,
        ensures
            e@ == (ExprView::Ident { token: self.current_token@, value: self.current_token@->Ident_0 }),
    {
        let token = self.current_token.duplicate();
        let value = match &self.current_token {
            Token::Ident(name) => name.clone(),
            _ => String::new(),
        };
        Expression::Identifier(Identifier { token, value })
    }

    /// The current integer token as an expression.
    fn parse_integer_literal(&self) -> (e: Expression)
        requires
            self.current_token@ is Int,
        ensures
            e@ == (ExprView::Int { token: self.current_token@, value: self.current_token@->Int_0 }),
    {
        let token = self.current_token.duplicate();
        let value = match &self.current_token {
            Token::Int(digits) => digits.clone(),
            _ => String::new(),
        };
        Expression::IntegerLiteral(IntegerLiteral { token, value })
    }

    /// Parses an expression from the current token on, folding in each infix
    /// operator that binds more strongly than `precedence`. Ends with the
    /// expression's last token current.
    fn parse_expression(&mut self, precedence: OperatorPrecedence) -> (r: Result<Expression, ParserError>)
        requires
            old(self).wf(),
        ensures
            final(self).wf(),
            final(self).tokens() == old(self).tokens(),
            match parse_expr(old(self).tokens(), old(self).index(), precedence.spec_rank()) {
                Ok((e, j)) => r is Ok && r->Ok_0@ == e && final(self).index() == j
                    && old(self).index() <= j < old(self).tokens().len(),
                Err(err) => r is Err && r->Err_0@ == err,
            },
        decreases old(self).tokens().len() - old(self).index(), 2nat,
    {
        let ghost ts = self.tokens@;
        let ghost i = self.index@;
        let mut left = match self.parse_prefix() {
            Ok(e) => e,
            Err(e) => return Err(e),
        };
        while precedence.rank() < token_precedence(&self.peek_token).rank()
            invariant
                self.wf(),
                self.tokens@ == ts,
                ts == old(self).tokens@,
                i == old(self).index@,
                i <= self.index@ < ts.len(),
                climb(ts, left@, self.index@, precedence.spec_rank()) == parse_expr(ts, i, precedence.spec_rank()),
            decreases ts.len() - self.index@,
        {
            let ghost j = self.index@;
            assert(j + 1 < ts.len());
            self.next_token();
            let operator = self.current_token.duplicate();
            let operator_precedence = token_precedence(&operator);
            self.next_token();
            let right = match self.parse_expression(operator_precedence) {
                Ok(e) => e,
                Err(e) => return Err(e),
            };
            left = Expression::Infix { left: Box::new(left), operator, right: Box::new(right) };
        }
        Ok(left)
    }

    /// Parses the expression that the current token begins, before any infix operator.
    fn parse_prefix(&mut self) -> (r: Result<Expression, ParserError>)
        requires
            old(self).wf(),
        ensures
            final(self).wf(),
            final(self).tokens() == old(self).tokens(),
            match parse_prefix(old(self).tokens(), old(self).index()) {
                Ok((e, j)) => r is Ok && r->Ok_0@ == e && final(self).index() == j
                    && old(self).index() <= j < old(self).tokens().len(),
                Err(err) => r is Err && r->Err_0@ == err,
            },
        decreases old(self).tokens().len() - old(self).index(), 1nat,
    {
        match &self.current_token {
            Token::Ident(_) => Ok(self.parse_identifier()),
            Token::Int(_) => Ok(self.parse_integer_literal()),
            Token::Bang => self.parse_prefix_operator(),
            Token::Minus => self.parse_prefix_operator(),
            Token::LParen => self.parse_grouped_expression(),
            _ => Err(ParserError::PrefixExpressionNotImplemented(self.current_token.duplicate())),
        }
    }

    /// Parses a unary operator and its operand.
    fn parse_prefix_operator(&mut self) -> (r: Result<Expression, ParserError>)
        requires
            old(self).wf(),
            old(self).current_token@ is Bang || old(self).current_token@ is Minus,
        ensures
            final(self).wf(),
            final(self).tokens() == old(self).tokens(),
            match parse_prefix_operator(old(self).tokens(), old(self).index()) {
                Ok((e, j)) => r is Ok && r->Ok_0@ == e && final(self).index() == j
                    && old(self).index() <= j < old(self).tokens().len(),
                Err(err) => r is Err && r->Err_0@ == err,
            },
        decreases old(self).tokens().len() - old(self).index(), 0nat,
    {
        let operator = self.current_token.duplicate();
        self.next_token();
        match self.parse_expression(OperatorPrecedence::Prefix) {
            Ok(right) => Ok(Expression::Prefix { operator, right: Box::new(right) }),
            Err(e) => Err(e),
        }
    }

    /// Parses an expression between parentheses, ending at the `)`.
    fn parse_grouped_expression(&mut self) -> (r: Result<Expression, ParserError>)
        requires
            old(self).wf(),
            old(self).current_token@ is LParen,
        ensures
            final(self).wf(),
            final(self).tokens() == old(self).tokens(),
            match parse_grouped(old(self).tokens(), old(self).index()) {
                Ok((e, j)) => r is Ok && r->Ok_0@ == e && final(self).index() == j
                    && old(self).index() <= j < old(self).tokens().len(),
                Err(err) => r is Err && r->Err_0@ == err,
            },
        decreases old(self).tokens().len() - old(self).index(), 0nat,
    {
        self.next_token();
        let e = match self.parse_expression(OperatorPrecedence::Lowest) {
            Ok(e) => e,
            Err(e) => return Err(e),
        };
        match self.expect_peek(Token::RParen) {
            Ok(()) => Ok(e),
            Err(err) => Err(err),
        }
    }

    /// Moves onto a `;` that follows the current token, if one does.
    fn skip_semicolon(&mut self)
        requires
            old(self).wf(),
        ensures
            final(self).wf(),
            final(self).tokens() == old(self).tokens(),
            final(self).index() == past_semicolon(old(self).tokens(), old(self).index()),
    {
        if self.peek_token_is(&Token::Semicolon) {
            self.next_token();
        }
    }

    /// `let <identifier> = <expression>`, with an optional `;`.
    fn parse_let_statement(&mut self) -> (r: Result<LetStatement, ParserError>)
        requires
            old(self).wf(),
            old(self).current_token@ is Let,
        ensures
            final(self).wf(),
            final(self).tokens() == old(self).tokens(),
            match parse_stmt(old(self).tokens(), old(self).index()) {
                Ok((st, j)) => r is Ok && Statement::Let(r->Ok_0)@ == st && final(self).index() == j
                    && old(self).index() <= j < old(self).tokens().len(),
                Err(err) => r is Err && r->Err_0@ == err,
            },
    {
        self.next_token();
        let name = match self.read_identifier() {
            Ok(name) => name,
            Err(e) => return Err(e),
        };
        match self.expect_peek(Token::Assign) {
            Ok(()) => {},
            Err(e) => return Err(e),
        }
        self.next_token();
        let value = match self.parse_expression(OperatorPrecedence::Lowest) {
            Ok(e) => e,
            Err(e) => return Err(e),
        };
        self.skip_semicolon();
        Ok(LetStatement { token: Token::Let, name: Identifier { token: Token::Ident(name.clone()), value: name }, value })
    }

    /// `return <expression>`, with an optional `;`.
    fn parse_return_statement(&mut self) -> (r: Result<ReturnStatement, ParserError>)
        requires
            old(self).wf(),
            old(self).current_token@ is Return,
        ensures
            final(self).wf(),
            final(self).tokens() == old(self).tokens(),
            match parse_stmt(old(self).tokens(), old(self).index()) {
                Ok((st, j)) => r is Ok && Statement::Return(r->Ok_0)@ == st && final(self).index() == j
                    && old(self).index() <= j < old(self).tokens().len(),
                Err(err) => r is Err && r->Err_0@ == err,
            },
    {
        self.next_token();
        let return_value = match self.parse_expression(OperatorPrecedence::Lowest) {
            Ok(e) => e,
            Err(e) => return Err(e),
        };
        self.skip_semicolon();
        Ok(ReturnStatement { token: Token::Return, return_value })
    }

    /// An expression standing alone, with an optional `;`.
    fn parse_expression_statement(&mut self) -> (r: Result<ExpressionStatement, ParserError>)
        requires
            old(self).wf(),
            !(old(self).current_token@ is Let),
            !(old(self).current_token@ is Return),
        ensures
            final(self).wf(),
            final(self).tokens() == old(self).tokens(),
            match parse_stmt(old(self).tokens(), old(self).index()) {
                Ok((st, j)) => r is Ok && Statement::Expression(r->Ok_0)@ == st && final(self).index() == j
                    && old(self).index() <= j < old(self).tokens().len(),
                Err(err) => r is Err && r->Err_0@ == err,
            },
    {
        let token = self.current_token.duplicate();
        let expression = match self.parse_expression(OperatorPrecedence::Lowest) {
            Ok(e) => e,
            Err(e) => return Err(e),
        };
        self.skip_semicolon();
        Ok(ExpressionStatement { token, expression })
    }

    /// Parses the statement that the current token begins, ending at its last token.
    fn parse_statement(&mut self) -> (r: Result<Statement, ParserError>)
        requires
            old(self).wf(),
        ensures
            final(self).wf(),
            final(self).tokens() == old(self).tokens(),
            match parse_stmt(old(self).tokens(), old(self).index()) {
                Ok((st, j)) => r is Ok && r->Ok_0@ == st && final(self).index() == j
                    && old(self).index() <= j < old(self).tokens().len(),
                Err(err) => r is Err && r->Err_0@ == err,
            },
    {
        match &self.current_token {
            Token::Let => match self.parse_let_statement() {
                Ok(s) => Ok(Statement::Let(s)),
                Err(e) => Err(e),
            },
            Token::Return => match self.parse_return_statement() {
                Ok(s) => Ok(Statement::Return(s)),
                Err(e) => Err(e),
            },
            _ => match self.parse_expression_statement() {
                Ok(s) => Ok(Statement::Expression(s)),
                Err(e) => Err(e),
            },
        }
    }

    /// Parses statements until the end of input, in source order. The first
    /// syntax error ends the parse and is returned.
    pub fn parse_program(&mut self) -> (r: Result<Program, ParserError>)
        requires
            old(self).wf(),
        ensures
            final(self).wf(),
            final(self).tokens() == old(self).tokens(),
            match parse_stmts(old(self).tokens(), old(self).index()) {
                Ok(ss) => r is Ok && r->Ok_0@ == ss,
                Err(err) => r is Err && r->Err_0@ == err,
            },
    {
        let mut program = Program { statements: Vec::new() };
        proof {
            assert(program@ =~= Seq::<StmtView>::empty());
        }
        while !self.current_token.is_eof()
            invariant
                self.wf(),
                self.tokens@ == old(self).tokens@,
                old(self).index@ <= self.index@,
                parse_stmts(self.tokens@, old(self).index@) == (match parse_stmts(self.tokens@, self.index@) {
                    Ok(rest) => Ok(program@ + rest),
                    Err(e) => Err(e),
                }),
            decreases self.tokens@.len() - self.index@,
        {
            let ghost ts = self.tokens@;
            let ghost before = program@;
            let statement = match self.parse_statement() {
                Ok(s) => s,
                Err(e) => return Err(e),
            };
            let ghost st = statement@;
            program.statements.push(statement);
            self.next_token();
            proof {
                assert(program@ =~= before.push(st));
                match parse_stmts(ts, self.index@) {
                    Ok(rest) => {
                        assert(before + (seq![st] + rest) =~= program@ + rest);
                    },
                    Err(_) => {},
                }
            }
        }
        proof {
            assert(program@ + Seq::<StmtView>::empty() =~= program@);
        }
        Ok(program)
    }
}

} // verus!
