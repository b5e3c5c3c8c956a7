pub mod ast;
pub mod error;
pub mod scanner;
pub mod parser;
pub mod nfa;
pub mod vm;
pub mod fragment;
pub mod compiler;
pub mod regex;
pub mod prefilter;
