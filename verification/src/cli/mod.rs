pub mod args;
pub mod colorizer;
pub mod error;
pub mod output;
pub mod gitignore;
pub mod app;
