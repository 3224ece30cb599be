pub mod check;
pub mod inject;
pub mod list;
pub mod utils;
