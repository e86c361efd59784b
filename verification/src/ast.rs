//! Token and syntax-tree definitions shared by the lexer, parser and
//! code generator.

use vstd::prelude::*;

verus! {

/// One lexical token of the input language.
#[derive(Debug, Clone, PartialEq)]
pub enum Token {
    Identifier(String),
    Number(i32),
    Let,
    Mut,
    Print,
    If,
    While,
    Assign,
    Plus,
    Minus,
    Multiply,
    Divide,
    Equal,
    NotEqual,
    Less,
    Greater,
    Semicolon,
    LeftBrace,
    RightBrace,
    LeftParen,
    RightParen,
    Exclamation,
    Eof,
}

/// The variant of a token, without its payload.  The parser dispatches on
/// kinds, so that two `Identifier` tokens with different names still match.
#[derive(Debug, Clone, Copy, PartialEq, Eq, Structural)]
pub enum TokenKind {
    Identifier,
    Number,
    Let,
    Mut,
    Print,
    If,
    While,
    Assign,
    Plus,
    Minus,
    Multiply,
    Divide,
    Equal,
    NotEqual,
    Less,
    Greater,
    Semicolon,
    LeftBrace,
    RightBrace,
    LeftParen,
    RightParen,
    Exclamation,
    Eof,
}

/// The kind of a token, as a spec-level function.
pub open spec fn spec_kind(t: Token) -> TokenKind {
    match t {
        Token::Identifier(_) => TokenKind::Identifier,
        Token::Number(_) => TokenKind::Number,
        Token::Let => TokenKind::Let,
        Token::Mut => TokenKind::Mut,
        Token::Print => TokenKind::Print,
        Token::If => TokenKind::If,
        Token::While => TokenKind::While,
        Token::Assign => TokenKind::Assign,
        Token::Plus => TokenKind::Plus,
        Token::Minus => TokenKind::Minus,
        Token::Multiply => TokenKind::Multiply,
        Token::Divide => TokenKind::Divide,
        Token::Equal => TokenKind::Equal,
        Token::NotEqual => TokenKind::NotEqual,
        Token::Less => TokenKind::Less,
        Token::Greater => TokenKind::Greater,
        Token::Semicolon => TokenKind::Semicolon,
        Token::LeftBrace => TokenKind::LeftBrace,
        Token::RightBrace => TokenKind::RightBrace,
        Token::LeftParen => TokenKind::LeftParen,
        Token::RightParen => TokenKind::RightParen,
        Token::Exclamation => TokenKind::Exclamation,
        Token::Eof => TokenKind::Eof,
    }
}

impl Token {
    /// The variant of this token, with its payload dropped.
    pub fn kind(&self) -> (k: TokenKind)
        ensures
            k == spec_kind(*self),
    {
        match self {
            Token::Identifier(_) => TokenKind::Identifier,
            Token::Number(_) => TokenKind::Number,
            Token::Let => TokenKind::Let,
            Token::Mut => TokenKind::Mut,
            Token::Print => TokenKind::Print,
            Token::If => TokenKind::If,
            Token::While => TokenKind::While,
            Token::Assign => TokenKind::Assign,
            Token::Plus => TokenKind::Plus,
            Token::Minus => TokenKind::Minus,
            Token::Multiply => TokenKind::Multiply,
            Token::Divide => TokenKind::Divide,
            Token::Equal => TokenKind::Equal,
            Token::NotEqual => TokenKind::NotEqual,
            Token::Less => TokenKind::Less,
            Token::Greater => TokenKind::Greater,
            Token::Semicolon => TokenKind::Semicolon,
            Token::LeftBrace => TokenKind::LeftBrace,
            Token::RightBrace => TokenKind::RightBrace,
            Token::LeftParen => TokenKind::LeftParen,
            Token::RightParen => TokenKind::RightParen,
            Token::Exclamation => TokenKind::Exclamation,
            Token::Eof => TokenKind::Eof,
        }
    }
}

/// A binary operator of the input language.
#[derive(Debug, Clone, Copy, PartialEq, Eq, Structural)]
pub enum BinaryOp {
    Add,
    Sub,
    Mul,
    Div,
    Equal,
    NotEqual,
    Less,
    Greater,
}

/// An expression: a literal, a variable read, or a binary operation.
#[derive(Debug, PartialEq)]
pub enum Expr {
    Number(i32),
    Variable(String),
    Binary { left: Box<Expr>, operator: BinaryOp, right: Box<Expr> },
}

/// A statement of the input language.
#[derive(Debug, PartialEq)]
pub enum Stmt {
    Let { name: String, mutable: bool, value: Expr },
    Assign { name: String, value: Expr },
    Print(Expr),
    If { condition: Expr, body: Vec<Stmt> },
    While { condition: Expr, body: Vec<Stmt> },
}

/// A whole program: an ordered sequence of statements.
pub type Program = Vec<Stmt>;

/// Traversal of a program, one callback per syntactic class.
pub trait Visitor<T> {
    fn visit_program(&mut self, program: &Program) -> T;

    fn visit_stmt(&mut self, stmt: &Stmt) -> T;

    fn visit_expr(&mut self, expr: &Expr) -> T;
}

impl Expr {
    /// A number literal expression.
    pub fn number(value: i32) -> (e: Expr)
        ensures
            e == Expr::Number(value),
    {
        Expr::Number(value)
    }

    /// A variable-read expression.
    pub fn variable(name: String) -> (e: Expr)
        ensures
            e == Expr::Variable(name),
    {
        Expr::Variable(name)
    }

    /// A binary operation applied to two subexpressions.
    pub fn binary(left: Expr, op: BinaryOp, right: Expr) -> (e: Expr)
        ensures
            e matches Expr::Binary { left: l, operator, right: r }
                && *l == left && operator == op && *r == right,
    {
        Expr::Binary { left: Box::new(left), operator: op, right: Box::new(right) }
    }
}

impl Stmt {
    /// A `let` statement binding `name` to `value`.
    pub fn let_stmt(name: String, mutable: bool, value: Expr) -> (s: Stmt)
        ensures
            s == (Stmt::Let { name, mutable, value }),
    {
        Stmt::Let { name, mutable, value }
    }

    /// An assignment to an existing variable.
    pub fn assign(name: String, value: Expr) -> (s: Stmt)
        ensures
            s == (Stmt::Assign { name, value }),
    {
        Stmt::Assign { name, value }
    }

    /// A `print` statement.
    pub fn print(expr: Expr) -> (s: Stmt)
        ensures
            s == Stmt::Print(expr),
    {
        Stmt::Print(expr)
    }

    /// An `if` statement with its body block.
    pub fn if_stmt(condition: Expr, body: Vec<Stmt>) -> (s: Stmt)
        ensures
            s == (Stmt::If { condition, body }),
    {
        Stmt::If { condition, body }
    }

    /// A `while` statement with its body block.
    pub fn while_stmt(condition: Expr, body: Vec<Stmt>) -> (s: Stmt)
        ensures
            s == (Stmt::While { condition, body }),
    {
        Stmt::While { condition, body }
    }
}

/// An expression as the specification sees it: names are character
/// sequences and numbers unbounded integers.
pub enum ExprModel {
    Number(int),
    Variable(Seq<char>),
    Binary { left: Box<ExprModel>, operator: BinaryOp, right: Box<ExprModel> },
}

/// A statement as the specification sees it.
pub enum StmtModel {
    Let { name: Seq<char>, mutable: bool, value: ExprModel },
    Assign { name: Seq<char>, value: ExprModel },
    Print(ExprModel),
    If { condition: ExprModel, body: Seq<StmtModel> },
    While { condition: ExprModel, body: Seq<StmtModel> },
}

/// The model of an executable expression.
pub open spec fn expr_model(e: Expr) -> ExprModel
    decreases e,
{
    match e {
        Expr::Number(n) => ExprModel::Number(n as int),
        Expr::Variable(name) => ExprModel::Variable(name@),
        Expr::Binary { left, operator, right } => ExprModel::Binary {
            left: Box::new(expr_model(*left)),
            operator,
            right: Box::new(expr_model(*right)),
        },
    }
}

/// The model of an executable statement.
pub open spec fn stmt_model(s: Stmt) -> StmtModel
    decreases s,
{
    match s {
        Stmt::Let { name, mutable, value } => StmtModel::Let {
            name: name@,
            mutable,
            value: expr_model(value),
        },
        Stmt::Assign { name, value } => StmtModel::Assign { name: name@, value: expr_model(value) },
        Stmt::Print(value) => StmtModel::Print(expr_model(value)),
        Stmt::If { condition, body } => StmtModel::If {
            condition: expr_model(condition),
            body: stmts_model(body@),
        },
        Stmt::While { condition, body } => StmtModel::While {
            condition: expr_model(condition),
            body: stmts_model(body@),
        },
    }
}

/// The models of a statement sequence.
pub open spec fn stmts_model(ss: Seq<Stmt>) -> Seq<StmtModel>
    decreases ss,
{
    if ss.len() == 0 {
        Seq::empty()
    } else {
        stmts_model(ss.drop_last()).push(stmt_model(ss.last()))
    }
}

} // verus!

