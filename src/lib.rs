pub mod token;
pub mod lexer;
pub mod ast;
pub mod parser;
pub mod round_trip;
