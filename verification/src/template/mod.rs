pub mod parser;
pub mod template;
