//! Runtime for a small Lisp-family language: a lexer that turns source text
//! into positioned tokens, a recursive-descent parser that builds a
//! recoverable syntax tree, and a tree-walking evaluator with lexical
//! scoping, closures and a bounded call stack.

pub mod ast;
pub mod builtins;
pub mod interpreter;
pub mod laws;
pub mod lexer;
pub mod node;
pub mod numfmt;
pub mod objects;
pub mod strutil;
