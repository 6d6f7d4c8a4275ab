use vstd::prelude::*;
use vstd::string::StringExecFns;
use crate::token::{Token, TokenView, literal_of};

verus! {

/// A name, with the token it was read from.
#[derive(Debug)]
pub struct Identifier {
    pub token: Token,
    pub value: String,
}

/// An integer literal, kept as its digits.
#[derive(Debug)]
pub struct IntegerLiteral {
    pub token: Token,
    pub value: String,
}

#[derive(Debug)]
pub enum Expression {
    Identifier(Identifier),
    IntegerLiteral(IntegerLiteral),
    /// A unary operator (`-` or `!`) applied to an operand.
    Prefix { operator: Token, right: Box<Expression> },
    /// A binary operator joining two operands.
    Infix { left: Box<Expression>, operator: Token, right: Box<Expression> },
}

/// `let <name> = <value>;`
#[derive(Debug)]
pub struct LetStatement {
    pub token: Token,
    pub name: Identifier,
    pub value: Expression,
}

/// `return <value>;`
#[derive(Debug)]
pub struct ReturnStatement {
    pub token: Token,
    pub return_value: Expression,
}

/// An expression standing alone as a statement; `token` is its first token.
#[derive(Debug)]
pub struct ExpressionStatement {
    pub token: Token,
    pub expression: Expression,
}

#[derive(Debug)]
pub enum Statement {
    Let(LetStatement),
    Return(ReturnStatement),
    Expression(ExpressionStatement),
}

/// The statements of a source text, in source order.
#[derive(Debug)]
pub struct Program {
    pub statements: Vec<Statement>,
}

#[derive(Debug)]
pub enum Node {
    Program(Program),
    Statement(Statement),
    Expression(Expression),
}

/// The mathematical model of an expression.
pub enum ExprView {
    Ident { token: TokenView, value: Seq<char> },
    Int { token: TokenView, value: Seq<char> },
    Prefix { operator: TokenView, right: Box<ExprView> },
    Infix { left: Box<ExprView>, operator: TokenView, right: Box<ExprView> },
}

/// The mathematical model of a statement.
pub enum StmtView {
    Let { token: TokenView, name_token: TokenView, name: Seq<char>, value: ExprView },
    Return { token: TokenView, value: ExprView },
    Expr { token: TokenView, value: ExprView },
}

impl View for Expression {
    type V = ExprView;

    open spec fn view(&self) -> ExprView
        decreases self,
    {
        match self {
            Expression::Identifier(i) => ExprView::Ident { token: i.token@, value: i.value@ },
            Expression::IntegerLiteral(i) => ExprView::Int { token: i.token@, value: i.value@ },
            Expression::Prefix { operator, right } => ExprView::Prefix {
                operator: operator@,
                right: Box::new((**right).view()),
            },
            Expression::Infix { left, operator, right } => ExprView::Infix {
                left: Box::new((**left).view()),
                operator: operator@,
                right: Box::new((**right).view()),
            },
        }
    }
}

impl View for Statement {
    type V = StmtView;

    open spec fn view(&self) -> StmtView {
        match self {
            Statement::Let(s) => StmtView::Let {
                token: s.token@,
                name_token: s.name.token@,
                name: s.name.value@,
                value: s.value@,
            },
            Statement::Return(s) => StmtView::Return { token: s.token@, value: s.return_value@ },
            Statement::Expression(s) => StmtView::Expr { token: s.token@, value: s.expression@ },
        }
    }
}

impl View for Program {
    type V = Seq<StmtView>;

    open spec fn view(&self) -> Seq<StmtView> {
        self.statements@.map_values(|s: Statement| s@)
    }
}

/// The text of an expression: operator applications are fully parenthesised.
pub open spec fn render_expr(e: ExprView) -> Seq<char>
    decreases e,
{
    match e {
        ExprView::Ident { value, .. } => value,
        ExprView::Int { value, .. } => value,
        ExprView::Prefix { operator, right } => seq!['('] + literal_of(operator) + render_expr(*right) + seq![')'],
        ExprView::Infix { left, operator, right } => seq!['('] + render_expr(*left) + seq![' '] + literal_of(operator)
            + seq![' '] + render_expr(*right) + seq![')'],
    }
}

/// The text of a statement.
pub open spec fn render_stmt(s: StmtView) -> Seq<char> {
    match s {
        StmtView::Let { name, value, .. } => seq!['l', 'e', 't', ' '] + name + seq![' ', '=', ' '] + render_expr(value)
            + seq![';'],
        StmtView::Return { value, .. } => seq!['r', 'e', 't', 'u', 'r', 'n', ' '] + render_expr(value) + seq![';'],
        StmtView::Expr { value, .. } => render_expr(value),
    }
}

/// The text of a sequence of statements: their texts one after another.
pub open spec fn render_stmts(ss: Seq<StmtView>) -> Seq<char>
    decreases ss.len(),
{
    if ss.len() == 0 {
        Seq::empty()
    } else {
        render_stmts(ss.drop_last()) + render_stmt(ss.last())
    }
}

/// The surface text of the first statement's token, or nothing for an empty sequence.
pub open spec fn first_literal(ss: Seq<StmtView>) -> Seq<char> {
    if ss.len() == 0 {
        Seq::empty()
    } else {
        match ss[0] {
            StmtView::Let { token, .. } => literal_of(token),
            StmtView::Return { token, .. } => literal_of(token),
            StmtView::Expr { token, .. } => literal_of(token),
        }
    }
}

impl Identifier {
    pub fn token_literal(&self) -> (r: &str)
        ensures
            r@ == literal_of(self.token@),
    {
        self.token.token_literal()
    }

    pub fn to_string(&self) -> (r: String)
        ensures
            r@ == self.value@,
    {
        self.value.clone()
    }
}

impl IntegerLiteral {
    pub fn token_literal(&self) -> (r: &str)
        ensures
            r@ == literal_of(self.token@),
    {
        self.token.token_literal()
    }

    pub fn to_string(&self) -> (r: String)
        ensures
            r@ == self.value@,
    {
        self.value.clone()
    }
}

impl Expression {
    /// Appends the text of this expression to `out`.
    pub fn write_to(&self, out: &mut String)
        ensures
            final(out)@ == old(out)@ + render_expr(self@),
        decreases self,
    {
        match self {
            Expression::Identifier(i) => out.append(i.value.as_str()),
            Expression::IntegerLiteral(i) => out.append(i.value.as_str()),
            Expression::Prefix { operator, right } => {
                proof { reveal_strlit("("); reveal_strlit(")"); }
                out.append("(");
                out.append(operator.token_literal());
                right.write_to(out);
                out.append(")");
                proof { assert(out@ =~= old(out)@ + render_expr(self@)); }
            },
            Expression::Infix { left, operator, right } => {
                proof { reveal_strlit("("); reveal_strlit(")"); reveal_strlit(" "); }
                out.append("(");
                left.write_to(out);
                out.append(" ");
                out.append(operator.token_literal());
                out.append(" ");
                right.write_to(out);
                out.append(")");
                proof { assert(out@ =~= old(out)@ + render_expr(self@)); }
            },
        }
    }

    pub fn to_string(&self) -> (r: String)
        ensures
            r@ == render_expr(self@),
    {
        let mut out = String::new();
        self.write_to(&mut out);
        proof { assert(out@ =~= render_expr(self@)); }
        out
    }
}

impl LetStatement {
    pub fn token_literal(&self) -> (r: &str)
        ensures
            r@ == literal_of(self.token@),
    {
        self.token.token_literal()
    }

    pub fn to_string(&self) -> (r: String)
        ensures
            r@ == render_stmt(StmtView::Let {
                token: self.token@,
                name_token: self.name.token@,
                name: self.name.value@,
                value: self.value@,
            }),
    {
        proof { reveal_strlit("let "); reveal_strlit(" = "); reveal_strlit(";"); }
        let mut out = String::new();
        out.append("let ");
        out.append(self.name.value.as_str());
        out.append(" = ");
        self.value.write_to(&mut out);
        out.append(";");
        proof {
            assert(out@ =~= render_stmt(StmtView::Let {
                token: self.token@,
                name_token: self.name.token@,
                name: self.name.value@,
                value: self.value@,
            }));
        }
        out
    }
}

impl ReturnStatement {
    pub fn token_literal(&self) -> (r: &str)
        ensures
            r@ == literal_of(self.token@),
    {
        self.token.token_literal()
    }

    pub fn to_string(&self) -> (r: String)
        ensures
            r@ == render_stmt(StmtView::Return { token: self.token@, value: self.return_value@ }),
    {
        proof { reveal_strlit("return "); reveal_strlit(";"); }
        let mut out = String::new();
        out.append("return ");
        self.return_value.write_to(&mut out);
        out.append(";");
        proof {
            assert(out@ =~= render_stmt(StmtView::Return { token: self.token@, value: self.return_value@ }));
        }
        out
    }
}

impl ExpressionStatement {
    pub fn token_literal(&self) -> (r: &str)
        ensures
            r@ == literal_of(self.token@),
    {
        self.token.token_literal()
    }

    pub fn to_string(&self) -> (r: String)
        ensures
            r@ == render_expr(self.expression@),
    {
        self.expression.to_string()
    }
}

impl Statement {
    pub fn token_literal(&self) -> (r: &str)
        ensures
            r@ == first_literal(seq![self@]),
    {
        match self {
            Statement::Let(s) => s.token_literal(),
            Statement::Return(s) => s.token_literal(),
            Statement::Expression(s) => s.token_literal(),
        }
    }

    pub fn to_string(&self) -> (r: String)
        ensures
            r@ == render_stmt(self@),
    {
        match self {
            Statement::Let(s) => s.to_string(),
            Statement::Return(s) => s.to_string(),
            Statement::Expression(s) => s.to_string(),
        }
    }
}

impl Program {
    /// The surface text of the first statement's token, or `""` for an empty program.
    pub fn token_literal(&self) -> (r: &str)
        ensures
            r@ == first_literal(self@),
    {
        if self.statements.len() > 0 {
            let r = self.statements[0].token_literal();
            proof { assert(self@[0] == self.statements@[0]@); }
            r
        } else {
            proof { reveal_strlit(""); }
            ""
        }
    }

    /// The statements' texts one after another.
    pub fn to_string(&self) -> (r: String)
        ensures
            r@ == render_stmts(self@),
    {
        let mut out = String::new();
        let mut i: usize = 0;
        while i < self.statements.len()
            invariant
                i <= self.statements.len(),
                out@ == render_stmts(self@.subrange(0, i as int)),
            decreases self.statements.len() - i,
        {
            let s = self.statements[i].to_string();
            out.append(s.as_str());
            proof {
                let prefix = self@.subrange(0, i as int + 1);
                assert(prefix.drop_last() =~= self@.subrange(0, i as int));
                assert(prefix.last() == self.statements@[i as int]@);
            }
            i = i + 1;
        }
        proof { assert(self@.subrange(0, i as int) =~= self@); }
        out
    }
}

impl Node {
    pub fn to_string(&self) -> (r: String)
        ensures
            match self {
                Node::Program(p) => r@ == render_stmts(p@),
                Node::Statement(s) => r@ == render_stmt(s@),
                Node::Expression(e) => r@ == render_expr(e@),
            },
    {
        match self {
            Node::Program(p) => p.to_string(),
            Node::Statement(s) => s.to_string(),
            Node::Expression(e) => e.to_string(),
        }
    }
}

} // verus!
