pub mod backends;
pub mod cli;
pub mod config;
pub mod formatter;
pub mod history;
pub mod json;
pub mod mdict;
pub mod runner;
pub mod server;
pub mod text;
pub mod transformer;
pub mod types;
