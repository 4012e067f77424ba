pub mod ast;
pub mod error;
pub mod evaluator;
pub mod parser;
