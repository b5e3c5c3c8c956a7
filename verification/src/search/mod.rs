pub mod line_match;
pub mod matcher;
pub mod searcher;
