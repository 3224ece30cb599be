pub mod checker;
pub mod marker;
pub mod parser;
pub mod types;
