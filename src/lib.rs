//! An evaluator for a small expression language: arithmetic, `let` bindings and
//! first-order `fn` definitions.
//!
//! Source text is split into tokens ([`lexer`]), parsed into an [`syntax::Expr`]
//! ([`parser`]), and reduced to a closed arithmetic [`syntax::Value`] ([`eval`])
//! under two stacks of bindings. Turning a `Value` into a floating-point number
//! is left to the host program. [`unambiguity`] shows that programs without
//! functions have at most one tree.
pub mod syntax;
pub mod lexer;
pub mod eval;
pub mod parser;
pub mod unambiguity;
