//! A line reported by a search.
use std::ops::Range;
use vstd::prelude::*;

verus! {

/// A line of the input: a hit, or context around one.
pub struct LineMatch {
    /// Its number, counting from 1.
    pub line_number: usize,
    /// Its text, with its line break if it had one.
    pub line: String,
    /// Byte spans of the matches in the line (none for context lines and for
    /// hits of an inverted search).
    pub match_spans: Vec<Range<usize>>,
    /// Whether the line is only shown as context.
    pub is_context: bool,
}

impl LineMatch {
    /// The span of the first match in the line, if any.
    pub fn match_span(&self) -> (r: Option<Range<usize>>)
        ensures
            self.match_spans@.len() == 0 ==> r is None,
            self.match_spans@.len() > 0 ==> r == Some(self.match_spans@[0]),
    {
        if self.match_spans.len() == 0 {
            None
        } else {
            let first = &self.match_spans[0];
            Some(first.start..first.end)
        }
    }
}

} // verus!
