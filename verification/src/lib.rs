pub mod builder;
pub mod grammar;
pub mod lexer;
pub mod parser;
pub mod reconcile;
pub mod span;
pub mod statement;
pub mod syntax_kind;
pub mod text;
pub mod tree;
