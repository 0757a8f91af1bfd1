pub mod agreement;
pub mod ast;
pub mod composition;
pub mod grammar;
pub mod laws;
pub mod parser;
pub mod span;
pub mod tokenizer;
