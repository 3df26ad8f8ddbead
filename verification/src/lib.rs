pub mod engine;
pub mod laws;
pub mod parser;
pub mod types;
