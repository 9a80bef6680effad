pub mod token;
pub mod scanner;
pub mod expr;
pub mod parser;
pub mod lox;
