pub mod utils;
pub mod table;
pub mod types;
pub mod eval;
pub mod lexer;
pub mod parser;
