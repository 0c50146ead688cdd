//! A small markup-language engine: a lexer for a bracket-delimited text
//! format with inline function calls, a recursive-descent parser producing a
//! parse tree, and a tree-walking evaluator that dispatches named function
//! calls through a registry supplied by the embedding host.

pub mod argument;
pub mod attribute;
pub mod context;
pub mod error;
pub mod evaluator;
pub mod function;
pub mod lexer;
pub mod parse_tree;
pub mod parser;
pub mod registry;
pub mod return_value;
pub mod value;
pub mod variadic;
