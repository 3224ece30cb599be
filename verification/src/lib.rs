pub mod checker;
pub mod cli;
pub mod cmd;
pub mod engine;
pub mod extractor;
pub mod injector;
pub mod marker;
pub mod output;
pub mod text;
pub mod types;
pub mod validator;
