//! Pebble template engine: the template lexer, the statement and expression
//! parsers, the name and escaping rules, the scope chain of the evaluator,
//! the renderer's string, list and map operations and statement execution,
//! with their contracts.
pub mod text;

pub mod lexer;
pub mod value;
pub mod ast;
pub mod expr_tokens;
pub mod expr_grammar;
pub mod expr_parser;
pub mod stmt_grammar;
pub mod parser;
pub mod engine;
pub mod render;
pub mod step;
