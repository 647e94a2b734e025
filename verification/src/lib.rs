pub mod config;
pub mod filter;
pub mod json;
pub mod parser;
pub mod proxy;
pub mod text;
