pub mod ast;
pub mod lexer;
pub mod literal;
pub mod parser;
pub mod ir;
pub mod codegen;
pub mod printer;
