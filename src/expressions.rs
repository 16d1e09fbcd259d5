use vstd::prelude::*;

verus! {

/// Unary operators.
#[derive(Debug, Clone, Copy, PartialEq, Eq, Hash, Structural)]
pub enum Op1 {
    Add1,
    Sub1,
    IsNum,
    IsBool,
    Print,
}

/// Binary operators.
#[derive(Debug, Clone, Copy, PartialEq, Eq, Hash, Structural)]
pub enum Op2 {
    Plus,
    Minus,
    Times,
    Equal,
    Greater,
    GreaterEqual,
    Less,
    LessEqual,
}

/// An expression of the language.
#[derive(Debug, PartialEq, Eq, Hash)]
pub enum Expr {
    Number(i64),
    Boolean(bool),
    Id(String),
    Let(Vec<(String, Expr)>, Box<Expr>),
    UnOp(Op1, Box<Expr>),
    BinOp(Op2, Box<Expr>, Box<Expr>),
    If(Box<Expr>, Box<Expr>, Box<Expr>),
    Loop(Box<Expr>),
    Break(Box<Expr>),
    Assign(String, Box<Expr>),
    Block(Vec<Expr>),
    Call(String, Vec<Expr>),
}

/// A function definition: name, parameter names, body.
#[derive(Debug, PartialEq, Eq, Hash)]
pub enum Defenition {
    Fun(String, Vec<String>, Box<Expr>),
}

/// One form typed at the interactive prompt.
#[derive(Debug, PartialEq, Eq, Hash)]
pub enum ReplExpr {
    Define(String, Box<Expr>),
    Expr(Box<Expr>),
    Fun(String, Vec<String>, Box<Expr>),
}

/// A whole program: function definitions, then the main expression.
#[derive(Debug, PartialEq, Eq, Hash)]
pub struct Program {
    pub defs: Vec<Defenition>,
    pub main: Expr,
}

} // verus!
