//! The data shared by the lexer, the parser and the evaluator.
use vstd::prelude::*;

verus! {

/// The kind of a token, with the text of literals and names.
#[derive(Debug, PartialEq, Eq)]
pub enum TokKind {
    /// A run of decimal digits.
    Num(String),
    /// A name that is not a keyword.
    Ident(String),
    Let,
    Fn,
    Plus,
    Minus,
    Star,
    Slash,
    LParen,
    RParen,
    Comma,
    Equals,
    Semi,
}

/// A token and the half-open range of character positions it was read from.
#[derive(Debug)]
pub struct Token {
    pub kind: TokKind,
    pub start: usize,
    pub end: usize,
}

/// What the parser found wrong.
#[derive(Debug, Clone, Copy, PartialEq, Eq)]
pub enum SyntaxErrorKind {
    /// A character that starts no token.
    UnexpectedChar,
    /// An expression was expected.
    ExpectedExpr,
    /// A name was expected (after `let` or `fn`).
    ExpectedName,
    /// `=` was expected.
    ExpectedEquals,
    /// `;` was expected.
    ExpectedSemi,
    /// `)` was expected.
    ExpectedRParen,
    /// `,` or `)` was expected in an argument list.
    ExpectedCommaOrRParen,
    /// The input should have ended here.
    ExpectedEnd,
}

/// A syntax error over the half-open range `start..end` of character positions.
/// An error at the end of the input has `start == end == ` the input's length.
#[derive(Debug, Clone, Copy, PartialEq, Eq)]
pub struct SyntaxError {
    pub kind: SyntaxErrorKind,
    pub start: usize,
    pub end: usize,
}

/// An expression tree.
#[derive(Debug, PartialEq)]
pub enum Expr {
    /// An integer literal, kept as its decimal digits.
    Num(String),
    Var(String),
    Neg(Box<Expr>),
    Add(Box<Expr>, Box<Expr>),
    Sub(Box<Expr>, Box<Expr>),
    Mul(Box<Expr>, Box<Expr>),
    Div(Box<Expr>, Box<Expr>),
    Call(String, Vec<Expr>),
    Let { name: String, rhs: Box<Expr>, then: Box<Expr> },
    Fn { name: String, params: Vec<String>, body: Box<Expr>, then: Box<Expr> },
}

/// The result of an evaluation: a closed arithmetic term over integer literals.
/// Its number is what floating-point arithmetic gives when the term is computed
/// bottom-up, left operand first.
#[derive(Debug, PartialEq)]
pub enum Value {
    Lit(String),
    Neg(Box<Value>),
    Add(Box<Value>, Box<Value>),
    Sub(Box<Value>, Box<Value>),
    Mul(Box<Value>, Box<Value>),
    Div(Box<Value>, Box<Value>),
}

/// Why an evaluation failed.
#[derive(Debug, PartialEq, Eq)]
pub enum EvalError {
    UnboundVariable(String),
    UndefinedFunction(String),
    /// The function's name, the number of its parameters, the number of arguments.
    ArityMismatch(String, usize, usize),
    /// Calls nested deeper than the evaluation's limit.
    RecursionLimitExceeded,
}

} // verus!
