pub mod chunk;
pub mod command;
pub mod config;
pub mod crypto;
pub mod errors;
pub mod parser;
pub mod paths;
pub mod pipeline;
pub mod transfer;
