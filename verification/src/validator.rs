pub mod error;
pub mod file;
pub mod id;

pub use error::ValidatorError;
