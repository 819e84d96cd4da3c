//! A symbolic infix-expression library: tokenization, infix-to-postfix
//! conversion (shunting-yard), postfix-to-tree construction, tree-to-infix
//! rendering, and a pattern-based algebraic simplifier.

pub mod ast;
pub mod tokenize;
pub mod lexer;
pub mod postfix;
pub mod builder;
pub mod render;
pub mod simplifier;
pub mod pipeline;
