pub mod strs;
pub mod typing;
pub mod grammar;
pub mod judgment;
pub mod validation;
pub mod notation;
pub mod context;
pub mod ast;
pub mod load;
pub mod save;
pub mod tokenizer;
pub mod parser;
pub mod codec;
