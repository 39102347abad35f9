pub mod expr;
pub mod lexer;
pub mod parser;
pub mod stmt;
pub mod token;
