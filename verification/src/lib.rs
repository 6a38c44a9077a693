pub mod cli;
pub mod common;
pub mod format;
pub mod json;
pub mod parser;
pub mod paths;
pub mod persistence;
pub mod popquiz;
pub mod quiz;
pub mod quiz2;
pub mod random;
pub mod repetition;
pub mod results;
pub mod session;
pub mod text;
