//! Lexer, s-expression parser and contract reader for the textual form of
//! Marlowe contracts.
pub mod types;
pub mod chars;
pub mod lexer;
pub mod main_parser;
pub mod ast;
