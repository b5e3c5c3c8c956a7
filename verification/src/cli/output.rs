//! What the program prints for the lines a search reports: the lines
//! themselves, a count, or the name of the input.
use std::ops::Range;
use vstd::prelude::*;
use crate::cli::colorizer::{Colorizer, wrap_spec};
use crate::search::line_match::LineMatch;
use crate::search::matcher::is_span;
use crate::text::{byte_len, byte_pos, char_index_of_byte, chars_of, decimal, push_chars, push_decimal};

verus! {

#[derive(Debug, Clone, Copy, PartialEq, Eq, Structural)]
pub enum OutputMode {
    Matches,
    Count,
    Files,
}

/// The characters `trim_end` removes: those with the Unicode White_Space
/// property.
pub open spec fn white_space(c: char) -> bool {
    let n = c as u32;
    (9 <= n <= 13) || n == 32 || n == 0x85 || n == 0xA0 || n == 0x1680 || (0x2000 <= n <= 0x200A) || n == 0x2028
        || n == 0x2029 || n == 0x202F || n == 0x205F || n == 0x3000
}

/// `t` without its trailing white space.
pub open spec fn trimmed(t: Seq<char>) -> Seq<char>
    decreases t.len(),
{
    if t.len() > 0 && white_space(t.last()) {
        trimmed(t.drop_last())
    } else {
        t
    }
}

/// Character index of the byte offset `b` in `t` (a character boundary).
pub open spec fn char_at_byte(t: Seq<char>, b: int) -> int {
    choose|k: int| 0 <= k <= t.len() && byte_pos(t, k) == b
}

/// The piece of `t` between two byte offsets that are character boundaries.
pub open spec fn piece(t: Seq<char>, a: int, b: int) -> Seq<char> {
    t.subrange(char_at_byte(t, a), char_at_byte(t, b))
}

/// Every span of every reported line is a span of the line without its
/// trailing white space.
pub open spec fn spans_fit(lines: Seq<LineMatch>) -> bool {
    forall|i: int, j: int|
        0 <= i < lines.len() && 0 <= j < lines[i].match_spans@.len() ==> is_span(
            trimmed(lines[i].line@),
            (#[trigger] lines[i].match_spans@[j]).start as int,
            lines[i].match_spans@[j].end as int,
        )
}

/// The line `t` with the spans from index `k` on highlighted, the text before
/// `last_end` having been written.
pub open spec fn highlighted(c: Colorizer, t: Seq<char>, spans: Seq<Range<usize>>, k: int, last_end: int) -> Seq<char>
    decreases spans.len() - k,
{
    if k < 0 || k >= spans.len() {
        if last_end < byte_len(t) {
            piece(t, last_end, byte_len(t) as int) + seq!['\n']
        } else {
            seq!['\n']
        }
    } else {
        let s = spans[k].start as int;
        let e = spans[k].end as int;
        (if last_end < s {
            piece(t, last_end, s)
        } else {
            Seq::empty()
        }) + wrap_spec(c.is_enabled(), piece(t, s, e), seq!['1', ';', '3', '1']) + highlighted(c, t, spans, k + 1, e)
    }
}

/// Each match of the line `t` from index `k` on, on a line of its own.
pub open spec fn only_matches(c: Colorizer, n: usize, t: Seq<char>, spans: Seq<Range<usize>>, k: int) -> Seq<char>
    decreases spans.len() - k,
{
    if k < 0 || k >= spans.len() {
        Seq::empty()
    } else {
        wrap_spec(c.is_enabled(), decimal(n as nat), seq!['3', '2']) + seq![':'] + wrap_spec(
            c.is_enabled(),
            piece(t, spans[k].start as int, spans[k].end as int),
            seq!['1', ';', '3', '1'],
        ) + seq!['\n'] + only_matches(c, n, t, spans, k + 1)
    }
}

/// The text printed for one reported line.
pub open spec fn line_text(c: Colorizer, only_matching: bool, m: LineMatch) -> Seq<char> {
    let t = trimmed(m.line@);
    let number = wrap_spec(c.is_enabled(), decimal(m.line_number as nat), seq!['3', '2']);
    if m.match_spans@.len() == 0 {
        number + seq![':'] + t + seq!['\n']
    } else if only_matching {
        only_matches(c, m.line_number, t, m.match_spans@, 0)
    } else {
        number + seq![':'] + highlighted(c, t, m.match_spans@, 0, 0)
    }
}

/// The reported lines from index `k` on, with `--` between lines that are
/// not next to each other when separators are shown.
pub open spec fn lines_text(
    c: Colorizer,
    only_matching: bool,
    show_separator: bool,
    lines: Seq<LineMatch>,
    k: int,
    last: Option<usize>,
) -> Seq<char>
    decreases lines.len() - k,
{
    if k < 0 || k >= lines.len() {
        Seq::empty()
    } else {
        let m = lines[k];
        let sep = if show_separator && (last matches Some(l) && m.line_number > l + 1) {
            seq!['-', '-', '\n']
        } else {
            Seq::empty()
        };
        sep + line_text(c, only_matching, m) + lines_text(c, only_matching, show_separator, lines, k + 1, Some(m.line_number))
    }
}

/// Prints what a search reports, and remembers whether anything was
/// reported.
pub struct Output {
    mode: OutputMode,
    colorizer: Colorizer,
    text: String,
    show_header: bool,
    separator_needed: bool,
    show_separator: bool,
    matched: bool,
    only_matching: bool,
}

impl Output {
    pub closed spec fn printed(&self) -> Seq<char> {
        self.text@
    }

    pub closed spec fn has_matched(&self) -> bool {
        self.matched
    }

    pub closed spec fn mode_spec(&self) -> OutputMode {
        self.mode
    }

    pub closed spec fn colors(&self) -> Colorizer {
        self.colorizer
    }

    pub closed spec fn headers(&self) -> bool {
        self.show_header
    }

    /// A header was printed already, so the next one needs a blank line
    /// before it.
    pub closed spec fn header_printed(&self) -> bool {
        self.separator_needed
    }

    pub closed spec fn separators(&self) -> bool {
        self.show_separator
    }

    pub closed spec fn only(&self) -> bool {
        self.only_matching
    }

    /// The text printed for `lines` from the input named `path`, and whether
    /// a header is printed by then.
    pub open spec fn report_text(&self, lines: Seq<LineMatch>, path: Option<Seq<char>>) -> (Seq<char>, bool) {
        let c = self.colors();
        if lines.len() == 0 {
            (Seq::empty(), self.header_printed())
        } else {
            match self.mode_spec() {
                OutputMode::Matches => {
                    let (header, printed) = if self.headers() && path is Some {
                        (
                            (if self.header_printed() {
                                seq!['\n']
                            } else {
                                Seq::empty()
                            }) + wrap_spec(c.is_enabled(), path->0, seq!['3', '5']) + seq!['\n'],
                            true,
                        )
                    } else {
                        (Seq::empty(), self.header_printed())
                    };
                    (header + lines_text(c, self.only(), self.separators(), lines, 0, None), printed)
                },
                OutputMode::Count => (
                    (match path {
                        Some(p) => wrap_spec(c.is_enabled(), p, seq!['3', '5']) + seq![':'],
                        None => Seq::empty(),
                    }) + decimal(lines.len()) + seq!['\n'],
                    self.header_printed(),
                ),
                OutputMode::Files => (
                    wrap_spec(
                        c.is_enabled(),
                        match path {
                            Some(p) => p,
                            None => "<stdin>"@,
                        },
                        seq!['3', '5'],
                    ) + seq!['\n'],
                    self.header_printed(),
                ),
            }
        }
    }

    pub fn new(
        mode: OutputMode,
        show_header: bool,
        show_separator: bool,
        colorizer: Colorizer,
        only_matching: bool,
    ) -> (r: Self)
        ensures
            r.printed() == Seq::<char>::empty(),
            !r.has_matched(),
            r.mode_spec() == mode,
            r.colors() == colorizer,
            r.headers() == show_header,
            !r.header_printed(),
            r.separators() == show_separator,
            r.only() == only_matching,
    {
        Output {
            mode,
            colorizer,
            text: String::new(),
            show_header,
            separator_needed: false,
            show_separator,
            matched: false,
            only_matching,
        }
    }

    /// What is printed for the lines reported.
    pub fn mode(&self) -> (r: OutputMode)
        ensures
            r == self.mode_spec(),
    {
        self.mode
    }

    /// Whether any line was reported so far.
    pub fn matched(&self) -> (r: bool)
        ensures
            r == self.has_matched(),
    {
        self.matched
    }

    /// Everything printed so far.
    pub fn contents(&self) -> (r: &str)
        ensures
            r@ == self.printed(),
    {
        self.text.as_str()
    }

    /// Hands over what was printed so far, and starts afresh.
    pub fn take_contents(&mut self) -> (r: String)
        ensures
            r@ == old(self).printed(),
            final(self).printed() == Seq::<char>::empty(),
            final(self).has_matched() == old(self).has_matched(),
            final(self).mode_spec() == old(self).mode_spec(),
            final(self).colors() == old(self).colors(),
            final(self).headers() == old(self).headers(),
            final(self).header_printed() == old(self).header_printed(),
            final(self).separators() == old(self).separators(),
            final(self).only() == old(self).only(),
    {
        let mut taken = String::new();
        std::mem::swap(&mut taken, &mut self.text);
        taken
    }

    /// Prints the lines a search of the input named `path` reported.
    pub fn report(&mut self, matches: &Vec<LineMatch>, path: Option<&str>)
        requires
            old(self).mode_spec() == OutputMode::Matches ==> spans_fit(matches@),
        ensures
            ({
                let path_chars = match path {
                    Some(p) => Some(p@),
                    None => None,
                };
                let (more, printed) = old(self).report_text(matches@, path_chars);
                &&& final(self).printed() == old(self).printed() + more
                &&& final(self).header_printed() == printed
            }),
            final(self).has_matched() == (old(self).has_matched() || matches@.len() > 0),
            final(self).mode_spec() == old(self).mode_spec(),
            final(self).colors() == old(self).colors(),
            final(self).headers() == old(self).headers(),
            final(self).separators() == old(self).separators(),
            final(self).only() == old(self).only(),
    {
        match self.mode {
            OutputMode::Matches => self.report_matches(matches, path),
            OutputMode::Count => self.report_count(matches, path),
            OutputMode::Files => self.report_files(matches, path),
        }
    }

    #[verifier::rlimit(60)]
    fn report_matches(&mut self, matches: &Vec<LineMatch>, path: Option<&str>)
        requires
            spans_fit(matches@),
            old(self).mode_spec() == OutputMode::Matches,
        ensures
            ({
                let path_chars = match path {
                    Some(p) => Some(p@),
                    None => None,
                };
                let (more, printed) = old(self).report_text(matches@, path_chars);
                &&& final(self).printed() == old(self).printed() + more
                &&& final(self).header_printed() == printed
            }),
            final(self).has_matched() == (old(self).has_matched() || matches@.len() > 0),
            final(self).mode_spec() == old(self).mode_spec(),
            final(self).colors() == old(self).colors(),
            final(self).headers() == old(self).headers(),
            final(self).separators() == old(self).separators(),
            final(self).only() == old(self).only(),
    {
        let ghost start = self.text@;
        if matches.len() == 0 {
            proof {
                assert(self.text@ =~= start + Seq::<char>::empty());
            }
            return;
        }
        self.matched = true;
        if self.show_header {
            match path {
                Some(p) => {
                    if self.separator_needed {
                        self.text.push('\n');
                    } else {
                        self.separator_needed = true;
                    }
                    let header = self.colorizer.path(p);
                    self.text.append(header.as_str());
                    self.text.push('\n');
                },
                None => {},
            }
        }
        let ghost after_header = self.text@;
        let ghost settings = *self;
        proof {
            let path_chars = match path {
                Some(p) => Some(p@),
                None => None,
            };
            let (more, printed) = old(self).report_text(matches@, path_chars);
            assert(more =~= (after_header.subrange(start.len() as int, after_header.len() as int)) + lines_text(
                self.colorizer,
                self.only_matching,
                self.show_separator,
                matches@,
                0,
                None,
            )) by {
                reveal_strlit("<stdin>");
            }
            assert(after_header =~= start + after_header.subrange(start.len() as int, after_header.len() as int));
            assert(printed == self.separator_needed);
        }
        let mut last_line_number: Option<usize> = None;
        let mut k: usize = 0;
        while k < matches.len()
            invariant
                spans_fit(matches@),
                same_settings(*self, settings),
                k <= matches@.len(),
                k > 0 ==> last_line_number == Some(matches@[k - 1].line_number),
                k == 0 ==> last_line_number is None,
                after_header + lines_text(self.colorizer, self.only_matching, self.show_separator, matches@, 0, None)
                    == self.text@ + lines_text(
                    self.colorizer,
                    self.only_matching,
                    self.show_separator,
                    matches@,
                    k as int,
                    last_line_number,
                ),
            decreases matches@.len() - k,
        {
            let line_match = &matches[k];
            let ghost before_line = self.text@;
            proof {
                reveal_strlit("--\n");
            }
            if self.show_separator {
                match last_line_number {
                    Some(last) => {
                        if line_match.line_number > last && line_match.line_number - last > 1 {
                            self.text.append("--\n");
                        }
                    },
                    None => {},
                }
            }
            last_line_number = Some(line_match.line_number);
            let ghost before_body = self.text@;
            proof {
                assert(spans_fit_line(matches@[k as int])) by {
                    assert forall|j: int| 0 <= j < matches@[k as int].match_spans@.len() implies is_span(
                        trimmed(matches@[k as int].line@),
                        (#[trigger] matches@[k as int].match_spans@[j]).start as int,
                        matches@[k as int].match_spans@[j].end as int,
                    ) by {}
                }
            }
            self.print_line(line_match);
            proof {
                let sep = if self.show_separator && (old_last(matches@, k as int) matches Some(l)
                    && matches@[k as int].line_number > l + 1) {
                    seq!['-', '-', '\n']
                } else {
                    Seq::empty()
                };
                assert(self.text@ =~= before_body + line_text(self.colorizer, self.only_matching, matches@[k as int]));
                assert(before_body =~= before_line + sep);
                assert(lines_text(self.colorizer, self.only_matching, self.show_separator, matches@, k as int, old_last(matches@, k as int))
                    == sep + line_text(self.colorizer, self.only_matching, matches@[k as int]) + lines_text(
                    self.colorizer,
                    self.only_matching,
                    self.show_separator,
                    matches@,
                    k + 1,
                    Some(matches@[k as int].line_number),
                ));
            }
            k = k + 1;
        }
        proof {
            let c = self.colorizer;
            assert(self.text@ =~= self.text@ + lines_text(c, self.only_matching, self.show_separator, matches@, k as int, last_line_number));
            assert(self.text@ =~= after_header + lines_text(c, self.only_matching, self.show_separator, matches@, 0, None));
        }
    }

    /// Prints one reported line.
    fn print_line(&mut self, m: &LineMatch)
        requires
            spans_fit_line(*m),
        ensures
            final(self).printed() == old(self).printed() + line_text(old(self).colors(), old(self).only(), *m),
            same_settings(*final(self), *old(self)),
    {
        let ghost start = self.text@;
        let all = chars_of(m.line.as_str());
        let t = trim_end(&all);
        let number = self.colorizer.line_number(m.line_number);
        if m.match_spans.len() == 0 {
            self.text.append(number.as_str());
            self.text.push(':');
            push_chars(&mut self.text, t.as_slice());
            self.text.push('\n');
            proof {
                assert(self.text@ =~= start + line_text(self.colorizer, self.only_matching, *m));
            }
        } else if self.only_matching {
            self.print_only_matches(&t, &number, m);
        } else {
            self.text.append(number.as_str());
            self.text.push(':');
            let _n = crate::text::str_byte_len(m.line.as_str());
            proof {
                lemma_trimmed_prefix(m.line@);
                lemma_prefix_byte_len(m.line@, t@.len() as int);
            }
            let ghost mid = self.text@;
            self.print_highlighted(&t, &m.match_spans);
            proof {
                assert(self.text@ =~= start + line_text(old(self).colors(), old(self).only(), *m));
            }
        }
    }

    /// Prints each match of the line `t` on a line of its own.
    fn print_only_matches(&mut self, t: &Vec<char>, number: &String, m: &LineMatch)
        requires
            spans_fit_line(*m),
            t@ == trimmed(m.line@),
            number@ == wrap_spec(old(self).colors().is_enabled(), decimal(m.line_number as nat), seq!['3', '2']),
        ensures
            final(self).printed() == old(self).printed() + only_matches(old(self).colors(), m.line_number, t@, m.match_spans@, 0),
            same_settings(*final(self), *old(self)),
    {
        let ghost start = self.text@;
        let mut k: usize = 0;
        while k < m.match_spans.len()
            invariant
                spans_fit_line(*m),
                t@ == trimmed(m.line@),
                number@ == wrap_spec(self.colorizer.is_enabled(), decimal(m.line_number as nat), seq!['3', '2']),
                same_settings(*self, *old(self)),
                k <= m.match_spans@.len(),
                start + only_matches(self.colorizer, m.line_number, t@, m.match_spans@, 0) == self.text@
                    + only_matches(self.colorizer, m.line_number, t@, m.match_spans@, k as int),
            decreases m.match_spans@.len() - k,
        {
            let span = &m.match_spans[k];
            let ghost before = self.text@;
            proof {
                assert(is_span(trimmed(m.line@), m.match_spans@[k as int].start as int, m.match_spans@[k as int].end as int));
            }
            let matched = self.piece_of(t, span.start, span.end);
            let colored = self.colorizer.matched(matched.as_str());
            self.text.append(number.as_str());
            self.text.push(':');
            self.text.append(colored.as_str());
            self.text.push('\n');
            proof {
                assert(self.text@ =~= before + (wrap_spec(self.colorizer.is_enabled(), decimal(m.line_number as nat), seq!['3', '2'])
                    + seq![':'] + wrap_spec(
                    self.colorizer.is_enabled(),
                    piece(t@, m.match_spans@[k as int].start as int, m.match_spans@[k as int].end as int),
                    seq!['1', ';', '3', '1'],
                ) + seq!['\n']));
                assert(only_matches(self.colorizer, m.line_number, t@, m.match_spans@, k as int) =~= (wrap_spec(
                    self.colorizer.is_enabled(),
                    decimal(m.line_number as nat),
                    seq!['3', '2'],
                ) + seq![':'] + wrap_spec(
                    self.colorizer.is_enabled(),
                    piece(t@, m.match_spans@[k as int].start as int, m.match_spans@[k as int].end as int),
                    seq!['1', ';', '3', '1'],
                ) + seq!['\n']) + only_matches(self.colorizer, m.line_number, t@, m.match_spans@, k + 1));
            }
            k = k + 1;
        }
        proof {
            assert(self.text@ =~= start + only_matches(self.colorizer, m.line_number, t@, m.match_spans@, 0));
        }
    }

    /// Prints the line `t` with the spans highlighted, and a line break.
    fn print_highlighted(&mut self, t: &Vec<char>, spans: &Vec<Range<usize>>)
        requires
            byte_len(t@) <= usize::MAX,
            forall|j: int|
                0 <= j < spans@.len() ==> is_span(t@, (#[trigger] spans@[j]).start as int, spans@[j].end as int),
        ensures
            final(self).printed() == old(self).printed() + highlighted(old(self).colors(), t@, spans@, 0, 0),
            same_settings(*final(self), *old(self)),
    {
        let ghost start = self.text@;
        proof {
            lemma_start_boundary(t@);
        }
        let total = byte_length(t);
        let mut last_end: usize = 0;
        let mut k: usize = 0;
        while k < spans.len()
            invariant
                forall|j: int|
                    0 <= j < spans@.len() ==> is_span(t@, (#[trigger] spans@[j]).start as int, spans@[j].end as int),
                total == byte_len(t@),
                same_settings(*self, *old(self)),
                k <= spans@.len(),
                boundary(t@, last_end as int),
                start + highlighted(self.colorizer, t@, spans@, 0, 0) == self.text@ + highlighted(
                    self.colorizer,
                    t@,
                    spans@,
                    k as int,
                    last_end as int,
                ),
            decreases spans@.len() - k,
        {
            let span = &spans[k];
            let ghost before = self.text@;
            proof {
                assert(is_span(t@, spans@[k as int].start as int, spans@[k as int].end as int));
                lemma_span_boundaries(t@, span.start as int, span.end as int);
            }
            let gap = if last_end < span.start {
                proof {
                    lemma_span_of_boundaries(t@, last_end as int, span.start as int);
                }
                self.piece_of(t, last_end, span.start)
            } else {
                String::new()
            };
            self.text.append(gap.as_str());
            let matched = self.piece_of(t, span.start, span.end);
            let colored = self.colorizer.matched(matched.as_str());
            self.text.append(colored.as_str());
            proof {
                let piece_gap = if last_end < spans@[k as int].start {
                    piece(t@, last_end as int, spans@[k as int].start as int)
                } else {
                    Seq::empty()
                };
                let lit = wrap_spec(
                    self.colorizer.is_enabled(),
                    piece(t@, spans@[k as int].start as int, spans@[k as int].end as int),
                    seq!['1', ';', '3', '1'],
                );
                assert(gap@ == piece_gap);
                assert(self.text@ =~= before + piece_gap + lit);
                assert(highlighted(self.colorizer, t@, spans@, k as int, last_end as int) == piece_gap + lit
                    + highlighted(self.colorizer, t@, spans@, k + 1, spans@[k as int].end as int));
            }
            last_end = span.end;
            k = k + 1;
        }
        let ghost before_tail = self.text@;
        if last_end < total {
            proof {
                lemma_end_boundary(t@);
                lemma_span_of_boundaries(t@, last_end as int, total as int);
            }
            let rest = self.piece_of(t, last_end, total);
            self.text.append(rest.as_str());
            self.text.push('\n');
        } else {
            self.text.push('\n');
        }
        proof {
            assert(self.text@ =~= before_tail + highlighted(self.colorizer, t@, spans@, k as int, last_end as int));
            assert(self.text@ =~= start + highlighted(self.colorizer, t@, spans@, 0, 0));
        }
    }

    fn report_count(&mut self, matches: &Vec<LineMatch>, path: Option<&str>)
        requires
            old(self).mode_spec() == OutputMode::Count,
        ensures
            ({
                let path_chars = match path {
                    Some(p) => Some(p@),
                    None => None,
                };
                let (more, printed) = old(self).report_text(matches@, path_chars);
                &&& final(self).printed() == old(self).printed() + more
                &&& final(self).header_printed() == printed
            }),
            final(self).has_matched() == (old(self).has_matched() || matches@.len() > 0),
            final(self).mode_spec() == old(self).mode_spec(),
            final(self).colors() == old(self).colors(),
            final(self).headers() == old(self).headers(),
            final(self).separators() == old(self).separators(),
            final(self).only() == old(self).only(),
    {
        let ghost start = self.text@;
        if matches.len() > 0 {
            match path {
                Some(p) => {
                    let label = self.colorizer.path(p);
                    self.text.append(label.as_str());
                    self.text.push(':');
                },
                None => {},
            }
            push_decimal(&mut self.text, matches.len());
            self.text.push('\n');
            self.matched = true;
        }
        proof {
            let path_chars = match path {
                Some(p) => Some(p@),
                None => None,
            };
            assert(self.text@ =~= start + old(self).report_text(matches@, path_chars).0);
        }
    }

    fn report_files(&mut self, matches: &Vec<LineMatch>, path: Option<&str>)
        requires
            old(self).mode_spec() == OutputMode::Files,
        ensures
            ({
                let path_chars = match path {
                    Some(p) => Some(p@),
                    None => None,
                };
                let (more, printed) = old(self).report_text(matches@, path_chars);
                &&& final(self).printed() == old(self).printed() + more
                &&& final(self).header_printed() == printed
            }),
            final(self).has_matched() == (old(self).has_matched() || matches@.len() > 0),
            final(self).mode_spec() == old(self).mode_spec(),
            final(self).colors() == old(self).colors(),
            final(self).headers() == old(self).headers(),
            final(self).separators() == old(self).separators(),
            final(self).only() == old(self).only(),
    {
        let ghost start = self.text@;
        if matches.len() > 0 {
            let label = match path {
                Some(p) => self.colorizer.path(p),
                None => self.colorizer.path("<stdin>"),
            };
            self.text.append(label.as_str());
            self.text.push('\n');
            self.matched = true;
        }
        proof {
            let path_chars = match path {
                Some(p) => Some(p@),
                None => None,
            };
            assert(self.text@ =~= start + old(self).report_text(matches@, path_chars).0);
        }
    }

    /// The characters of `t` between two byte offsets that are character
    /// boundaries.
    fn piece_of(&self, t: &Vec<char>, a: usize, b: usize) -> (r: String)
        requires
            is_span(t@, a as int, b as int),
        ensures
            r@ == piece(t@, a as int, b as int),
    {
        proof {
            lemma_span_boundaries(t@, a as int, b as int);
        }
        let i = match char_index_of_byte(t.as_slice(), a) {
            Some(i) => i,
            None => 0,
        };
        let j = match char_index_of_byte(t.as_slice(), b) {
            Some(j) => j,
            None => 0,
        };
        proof {
            lemma_char_at_byte(t@, i as int);
            lemma_char_at_byte(t@, j as int);
            if j < i {
                crate::text::lemma_byte_pos_mono(t@, j as int, i as int);
            }
        }
        let mut r = String::new();
        let mut k = i;
        while k < j
            invariant
                i <= k <= j <= t@.len(),
                r@ == t@.subrange(i as int, k as int),
            decreases j - k,
        {
            r.push(t[k]);
            k = k + 1;
            assert(r@ =~= t@.subrange(i as int, k as int));
        }
        r
    }
}

/// Everything but the printed text is the same in `a` and `b`.
pub open spec fn same_settings(a: Output, b: Output) -> bool {
    &&& a.has_matched() == b.has_matched()
    &&& a.mode_spec() == b.mode_spec()
    &&& a.colors() == b.colors()
    &&& a.headers() == b.headers()
    &&& a.header_printed() == b.header_printed()
    &&& a.separators() == b.separators()
    &&& a.only() == b.only()
}

/// `b` is the byte offset of a character boundary of `t`.
pub open spec fn boundary(t: Seq<char>, b: int) -> bool {
    exists|k: int| 0 <= k <= t.len() && #[trigger] byte_pos(t, k) == b
}

proof fn lemma_span_boundaries(t: Seq<char>, a: int, b: int)
    requires
        is_span(t, a, b),
    ensures
        boundary(t, a),
        boundary(t, b),
        a <= b,
{
    let (s, e) = choose|s: int, e: int|
        #![trigger byte_pos(t, s), byte_pos(t, e)]
        0 <= s <= e <= t.len() && a == byte_pos(t, s) && b == byte_pos(t, e);
    crate::text::lemma_byte_pos_mono(t, s, e);
}

proof fn lemma_span_of_boundaries(t: Seq<char>, a: int, b: int)
    requires
        boundary(t, a),
        boundary(t, b),
        a <= b,
    ensures
        is_span(t, a, b),
{
    let ka = choose|k: int| 0 <= k <= t.len() && #[trigger] byte_pos(t, k) == a;
    let kb = choose|k: int| 0 <= k <= t.len() && #[trigger] byte_pos(t, k) == b;
    if kb < ka {
        crate::text::lemma_byte_pos_mono(t, kb, ka);
    }
}

proof fn lemma_start_boundary(t: Seq<char>)
    ensures
        boundary(t, 0),
{
    assert(t.take(0) =~= Seq::<char>::empty());
    assert(byte_pos(t, 0) == 0);
}

proof fn lemma_end_boundary(t: Seq<char>)
    ensures
        boundary(t, byte_len(t) as int),
{
    assert(t.take(t.len() as int) =~= t);
    assert(byte_pos(t, t.len() as int) == byte_len(t));
}

/// The byte offset of character `k` names character `k`.
proof fn lemma_char_at_byte(t: Seq<char>, k: int)
    requires
        0 <= k <= t.len(),
    ensures
        char_at_byte(t, byte_pos(t, k) as int) == k,
{
    let k2 = char_at_byte(t, byte_pos(t, k) as int);
    assert(0 <= k2 <= t.len() && byte_pos(t, k2) == byte_pos(t, k));
    crate::text::lemma_byte_pos_injective(t, k, k2);
}

/// Trimming only drops characters from the end.
proof fn lemma_trimmed_prefix(t: Seq<char>)
    ensures
        trimmed(t).len() <= t.len(),
        trimmed(t) == t.take(trimmed(t).len() as int),
    decreases t.len(),
{
    if t.len() > 0 && white_space(t.last()) {
        lemma_trimmed_prefix(t.drop_last());
        assert(t.drop_last().take(trimmed(t).len() as int) =~= t.take(trimmed(t).len() as int));
    } else {
        assert(t.take(t.len() as int) =~= t);
    }
}

/// A prefix takes no more bytes than the whole.
proof fn lemma_prefix_byte_len(t: Seq<char>, n: int)
    requires
        0 <= n <= t.len(),
    ensures
        byte_len(t.take(n)) <= byte_len(t),
{
    crate::text::lemma_byte_pos_mono(t, n, t.len() as int);
}

/// Every span of the line is a span of the line without its trailing white
/// space.
pub open spec fn spans_fit_line(m: LineMatch) -> bool {
    forall|j: int|
        0 <= j < m.match_spans@.len() ==> is_span(
            trimmed(m.line@),
            (#[trigger] m.match_spans@[j]).start as int,
            m.match_spans@[j].end as int,
        )
}

pub open spec fn old_last(lines: Seq<LineMatch>, k: int) -> Option<usize> {
    if k > 0 {
        Some(lines[k - 1].line_number)
    } else {
        None
    }
}

/// Whether `c` has the Unicode White_Space property.
pub fn is_white_space(c: char) -> (r: bool)
    ensures
        r == white_space(c),
{
    let n = c as u32;
    (9 <= n && n <= 13) || n == 32 || n == 0x85 || n == 0xA0 || n == 0x1680 || (0x2000 <= n && n <= 0x200A) || n
        == 0x2028 || n == 0x2029 || n == 0x202F || n == 0x205F || n == 0x3000
}

/// `t` without its trailing white space.
pub fn trim_end(t: &Vec<char>) -> (r: Vec<char>)
    ensures
        r@ == trimmed(t@),
{
    let mut n = t.len();
    proof {
        assert(t@.take(n as int) =~= t@);
    }
    while n > 0 && is_white_space(t[n - 1])
        invariant
            n <= t@.len(),
            trimmed(t@) == trimmed(t@.take(n as int)),
        decreases n,
    {
        proof {
            assert(t@.take(n as int).drop_last() =~= t@.take(n - 1));
        }
        n = n - 1;
    }
    let mut r: Vec<char> = Vec::new();
    let mut k: usize = 0;
    while k < n
        invariant
            n <= t@.len(),
            k <= n,
            r@ == t@.take(k as int),
        decreases n - k,
    {
        r.push(t[k]);
        k = k + 1;
        assert(r@ =~= t@.take(k as int));
    }
    proof {
        if n > 0 {
            assert(t@.take(n as int).last() == t@[n - 1]);
        }
        assert(trimmed(t@.take(n as int)) == t@.take(n as int));
    }
    r
}

/// Number of bytes of the UTF-8 encoding of `t`.
fn byte_length(t: &Vec<char>) -> (r: usize)
    requires
        byte_len(t@) <= usize::MAX,
    ensures
        r == byte_len(t@),
{
    let r = crate::text::byte_offset(t.as_slice(), t.len(), Ghost(byte_len(t@)));
    proof {
        assert(t@.take(t@.len() as int) =~= t@);
    }
    r
}


/// Whether every span of every line is a span of the line without its
/// trailing white space, as printing the lines needs.
pub fn lines_fit(lines: &Vec<LineMatch>) -> (r: bool)
    ensures
        r == spans_fit(lines@),
{
    let mut i: usize = 0;
    while i < lines.len()
        invariant
            i <= lines@.len(),
            forall|a: int, j: int|
                0 <= a < i && 0 <= j < lines@[a].match_spans@.len() ==> is_span(
                    trimmed(lines@[a].line@),
                    (#[trigger] lines@[a].match_spans@[j]).start as int,
                    lines@[a].match_spans@[j].end as int,
                ),
        decreases lines@.len() - i,
    {
        let all = chars_of(lines[i].line.as_str());
        let t = trim_end(&all);
        let spans = &lines[i].match_spans;
        let mut j: usize = 0;
        while j < spans.len()
            invariant
                i < lines@.len(),
                *spans == lines@[i as int].match_spans,
                t@ == trimmed(lines@[i as int].line@),
                j <= spans@.len(),
                forall|a: int, jj: int|
                    0 <= a < i && 0 <= jj < lines@[a].match_spans@.len() ==> is_span(
                        trimmed(lines@[a].line@),
                        (#[trigger] lines@[a].match_spans@[jj]).start as int,
                        lines@[a].match_spans@[jj].end as int,
                    ),
                forall|jj: int| 0 <= jj < j ==> is_span(t@, (#[trigger] spans@[jj]).start as int, spans@[jj].end as int),
            decreases spans@.len() - j,
        {
            let a = spans[j].start;
            let b = spans[j].end;
            let ka = char_index_of_byte(t.as_slice(), a);
            let kb = char_index_of_byte(t.as_slice(), b);
            let ok = match (ka, kb) {
                (Some(x), Some(y)) => x <= y,
                _ => false,
            };
            if !ok {
                proof {
                    if is_span(t@, a as int, b as int) {
                        let (s1, e1) = choose|s1: int, e1: int|
                            #![trigger byte_pos(t@, s1), byte_pos(t@, e1)]
                            0 <= s1 <= e1 <= t@.len() && a == byte_pos(t@, s1) && b == byte_pos(t@, e1);
                        if let (Some(x), Some(y)) = (ka, kb) {
                            crate::text::lemma_byte_pos_injective(t@, x as int, s1);
                            crate::text::lemma_byte_pos_injective(t@, y as int, e1);
                        }
                    }
                    assert(!is_span(trimmed(lines@[i as int].line@), lines@[i as int].match_spans@[j as int].start as int,
                        lines@[i as int].match_spans@[j as int].end as int));
                }
                return false;
            }
            proof {
                let x = ka->0;
                let y = kb->0;
                assert(is_span(t@, a as int, b as int)) by {
                    assert(byte_pos(t@, x as int) == a && byte_pos(t@, y as int) == b);
                }
            }
            j = j + 1;
        }
        i = i + 1;
    }
    true
}
/// The spans lie on character boundaries of `t`, in order and apart.
pub open spec fn spans_in_order(t: Seq<char>, spans: Seq<Range<usize>>) -> bool {
    &&& forall|k: int| 0 <= k < spans.len() ==> is_span(t, (#[trigger] spans[k]).start as int, spans[k].end as int)
    &&& forall|a: int, b: int| 0 <= a < b < spans.len() ==> (#[trigger] spans[a]).end <= (#[trigger] spans[b]).start
}

proof fn lemma_char_at_boundary(t: Seq<char>, s: int)
    requires
        0 <= s <= t.len(),
    ensures
        char_at_byte(t, byte_pos(t, s) as int) == s,
{
    let b = byte_pos(t, s) as int;
    assert(0 <= s <= t.len() && byte_pos(t, s) == b);
    let k = char_at_byte(t, b);
    crate::text::lemma_byte_pos_injective(t, k, s);
}

proof fn lemma_highlight_rest(c: Colorizer, t: Seq<char>, spans: Seq<Range<usize>>, k: int, ls: int)
    requires
        !c.is_enabled(),
        spans_in_order(t, spans),
        0 <= k <= spans.len(),
        0 <= ls <= t.len(),
        k < spans.len() ==> byte_pos(t, ls) <= spans[k].start,
    ensures
        highlighted(c, t, spans, k, byte_pos(t, ls) as int) == t.subrange(ls, t.len() as int) + seq!['\n'],
    decreases spans.len() - k,
{
    let last = byte_pos(t, ls) as int;
    assert(t.take(t.len() as int) =~= t);
    lemma_char_at_boundary(t, ls);
    lemma_char_at_boundary(t, t.len() as int);
    crate::text::lemma_byte_pos_mono(t, ls, t.len() as int);
    if k >= spans.len() {
        if last < byte_len(t) {
            assert(piece(t, last, byte_len(t) as int) == t.subrange(ls, t.len() as int));
        } else {
            assert(ls == t.len());
            assert(t.subrange(ls, t.len() as int) + seq!['\n'] =~= seq!['\n']);
        }
    } else {
        let sk = spans[k].start as int;
        let ek = spans[k].end as int;
        assert(is_span(t, sk, ek));
        let (cs, ce) = choose|cs: int, ce: int|
            #![trigger byte_pos(t, cs), byte_pos(t, ce)]
            0 <= cs <= ce <= t.len() && sk == byte_pos(t, cs) && ek == byte_pos(t, ce);
        lemma_char_at_boundary(t, cs);
        lemma_char_at_boundary(t, ce);
        if cs < ls {
            crate::text::lemma_byte_pos_mono(t, cs, ls);
        }
        if k + 1 < spans.len() {
            assert(spans[k].end <= spans[k + 1].start);
        }
        lemma_highlight_rest(c, t, spans, k + 1, ce);
        let pre = if last < sk {
            piece(t, last, sk)
        } else {
            Seq::empty()
        };
        if last < sk {
            assert(pre == t.subrange(ls, cs));
        } else {
            crate::text::lemma_byte_pos_injective(t, ls, cs);
            assert(pre =~= t.subrange(ls, cs));
        }
        assert(wrap_spec(c.is_enabled(), piece(t, sk, ek), seq!['1', ';', '3', '1']) == t.subrange(cs, ce));
        assert(t.subrange(ls, cs) + t.subrange(cs, ce) + (t.subrange(ce, t.len() as int) + seq!['\n'])
            =~= t.subrange(ls, t.len() as int) + seq!['\n']);
    }
}

/// With colours off and whole lines printed, a reported line prints as its
/// number, a colon and the line without its trailing white space, whatever
/// its spans (in order, apart, on character boundaries): highlighting neither
/// drops nor repeats text.
pub proof fn lemma_plain_line(c: Colorizer, m: LineMatch)
    requires
        !c.is_enabled(),
        spans_in_order(trimmed(m.line@), m.match_spans@),
    ensures
        line_text(c, false, m) == decimal(m.line_number as nat) + seq![':'] + trimmed(m.line@) + seq!['\n'],
{
    let t = trimmed(m.line@);
    if m.match_spans@.len() > 0 {
        assert(t.take(0) =~= Seq::<char>::empty());
        lemma_highlight_rest(c, t, m.match_spans@, 0, 0);
        assert(t.subrange(0, t.len() as int) =~= t);
        assert(decimal(m.line_number as nat) + seq![':'] + (t + seq!['\n']) =~= decimal(m.line_number as nat) + seq![':']
            + t + seq!['\n']);
    }
}

/// The lines from index `k` on, each as its number, a colon and the line
/// without its trailing white space.
pub open spec fn plain_lines(lines: Seq<LineMatch>, k: int) -> Seq<char>
    decreases lines.len() - k,
{
    if k < 0 || k >= lines.len() {
        Seq::empty()
    } else {
        decimal(lines[k].line_number as nat) + seq![':'] + trimmed(lines[k].line@) + seq!['\n'] + plain_lines(lines, k + 1)
    }
}

/// With colours off, whole lines printed and no separators, the reported
/// lines print as themselves, each after its number and a colon.
pub proof fn lemma_plain_lines(c: Colorizer, lines: Seq<LineMatch>, k: int, last: Option<usize>)
    requires
        !c.is_enabled(),
        0 <= k,
        forall|i: int| 0 <= i < lines.len() ==> spans_in_order(trimmed((#[trigger] lines[i]).line@), lines[i].match_spans@),
    ensures
        lines_text(c, false, false, lines, k, last) == plain_lines(lines, k),
    decreases lines.len() - k,
{
    if k < lines.len() {
        lemma_plain_line(c, lines[k]);
        lemma_plain_lines(c, lines, k + 1, Some(lines[k].line_number));
        assert(Seq::<char>::empty() + line_text(c, false, lines[k]) + plain_lines(lines, k + 1) =~= line_text(
            c,
            false,
            lines[k],
        ) + plain_lines(lines, k + 1));
    }
}

/// With colours off, counting prints the path (if any) and a colon, then the
/// number of reported lines, on a line of its own.
pub proof fn lemma_count_report(o: Output, lines: Seq<LineMatch>, path: Option<Seq<char>>)
    requires
        o.mode_spec() == OutputMode::Count,
        !o.colors().is_enabled(),
        lines.len() >= 1,
    ensures
        o.report_text(lines, path).0 == match path {
            Some(p) => p + seq![':'] + decimal(lines.len()) + seq!['\n'],
            None => decimal(lines.len()) + seq!['\n'],
        },
{
    if path is None {
        assert(Seq::<char>::empty() + decimal(lines.len()) + seq!['\n'] =~= decimal(lines.len()) + seq!['\n']);
    }
}

/// With colours off, the matches of a line from index `k` on print one line
/// each, in order: the line number, a colon and the matched text.
proof fn lemma_only_matches_from(c: Colorizer, n: usize, t: Seq<char>, spans: Seq<Range<usize>>, k: int)
    requires
        !c.is_enabled(),
        0 <= k <= spans.len(),
    ensures
        only_matches(c, n, t, spans, k) == Seq::new(
            (spans.len() - k) as nat,
            |j: int| decimal(n as nat) + seq![':'] + piece(t, spans[k + j].start as int, spans[k + j].end as int) + seq!['\n'],
        ).flatten(),
    decreases spans.len() - k,
{
    let lines = Seq::new(
        (spans.len() - k) as nat,
        |j: int| decimal(n as nat) + seq![':'] + piece(t, spans[k + j].start as int, spans[k + j].end as int) + seq!['\n'],
    );
    if k < spans.len() {
        lemma_only_matches_from(c, n, t, spans, k + 1);
        let rest = Seq::new(
            (spans.len() - (k + 1)) as nat,
            |j: int| decimal(n as nat) + seq![':'] + piece(t, spans[k + 1 + j].start as int, spans[k + 1 + j].end as int) + seq!['\n'],
        );
        assert(lines.drop_first() =~= rest);
        assert(lines.first() == decimal(n as nat) + seq![':'] + piece(t, spans[k].start as int, spans[k].end as int) + seq!['\n']);
    } else {
        assert(lines =~= Seq::<Seq<char>>::empty());
    }
}

/// In only-matching mode with colours off, a line with matches prints one
/// line per match, in the order of the matches, each the line number, a
/// colon and the matched text.
pub proof fn lemma_only_matching_prints_every_match(c: Colorizer, m: LineMatch)
    requires
        !c.is_enabled(),
        m.match_spans@.len() > 0,
    ensures
        line_text(c, true, m) == Seq::new(
            m.match_spans@.len(),
            |j: int| decimal(m.line_number as nat) + seq![':'] + piece(
                trimmed(m.line@),
                m.match_spans@[j].start as int,
                m.match_spans@[j].end as int,
            ) + seq!['\n'],
        ).flatten(),
{
    let t = trimmed(m.line@);
    lemma_only_matches_from(c, m.line_number, t, m.match_spans@, 0);
    assert(Seq::new(
        (m.match_spans@.len() - 0) as nat,
        |j: int| decimal(m.line_number as nat) + seq![':'] + piece(t, m.match_spans@[0 + j].start as int, m.match_spans@[0 + j].end as int) + seq!['\n'],
    ) =~= Seq::new(
        m.match_spans@.len(),
        |j: int| decimal(m.line_number as nat) + seq![':'] + piece(t, m.match_spans@[j].start as int, m.match_spans@[j].end as int) + seq!['\n'],
    ));
}

} // verus!
