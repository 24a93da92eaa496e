pub mod formatter;
pub mod runner;
