pub mod regex_engine;
pub mod text;
pub mod search;
pub mod cli;
