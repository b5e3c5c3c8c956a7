//! Line-by-line search of a text, with lines of context before and after
//! each hit.
use std::collections::VecDeque;
use std::ops::Range;
use vstd::prelude::*;
use crate::search::line_match::LineMatch;
use crate::search::matcher::{Matcher, is_span, span_value, spans_found};

verus! {

/// Index just past the end of the line that starts at `p`: after its line
/// break, or the end of the text.
pub open spec fn line_end(t: Seq<char>, p: int) -> int
    decreases t.len() - p,
{
    if p >= t.len() {
        t.len() as int
    } else if t[p] == '\n' {
        p + 1
    } else {
        line_end(t, p + 1)
    }
}

/// The lines of `t` from position `p` on, each with its line break if it
/// has one.
pub open spec fn lines_from(t: Seq<char>, p: int) -> Seq<Seq<char>>
    decreases t.len() - p,
{
    if p < 0 || p >= t.len() {
        Seq::empty()
    } else {
        let e = line_end(t, p);
        if e <= p || e > t.len() {
            Seq::empty()
        } else {
            seq![t.subrange(p, e)] + lines_from(t, e)
        }
    }
}

/// The lines of `t`.
pub open spec fn lines_of(t: Seq<char>) -> Seq<Seq<char>> {
    lines_from(t, 0)
}

/// What the search remembers between lines: the number of the last line
/// read, the lines kept for before-context, and how many more lines are
/// after-context.
pub struct ScanState {
    pub line_number: nat,
    pub buffer: Seq<(nat, Seq<char>)>,
    pub after_remaining: nat,
}

/// A reported line: its number, its text and whether it is context.
pub type Reported = (nat, Seq<char>, bool);

pub open spec fn scan_start() -> ScanState {
    ScanState { line_number: 0, buffer: Seq::empty(), after_remaining: 0 }
}

/// The buffered lines, reported as context.
pub open spec fn as_context(b: Seq<(nat, Seq<char>)>) -> Seq<Reported> {
    Seq::new(b.len(), |i: int| (b[i].0, b[i].1, true))
}

/// One line read: the next state and the lines reported because of it.
pub open spec fn scan_step(s: ScanState, line: Seq<char>, hit: bool, before: nat, after: nat) -> (ScanState, Seq<Reported>) {
    let n = s.line_number + 1;
    if hit {
        (
            ScanState { line_number: n, buffer: Seq::empty(), after_remaining: after },
            as_context(s.buffer).push((n, line, false)),
        )
    } else if s.after_remaining > 0 {
        (
            ScanState { line_number: n, buffer: s.buffer, after_remaining: (s.after_remaining - 1) as nat },
            seq![(n, line, true)],
        )
    } else if before > 0 {
        let kept = if s.buffer.len() == before {
            s.buffer.drop_first()
        } else {
            s.buffer
        };
        (ScanState { line_number: n, buffer: kept.push((n, line)), after_remaining: 0 }, Seq::empty())
    } else {
        (ScanState { line_number: n, buffer: s.buffer, after_remaining: 0 }, Seq::empty())
    }
}

/// The state and everything reported after the first `k` lines.
pub open spec fn scan(lines: Seq<Seq<char>>, hits: Seq<bool>, before: nat, after: nat, k: nat) -> (ScanState, Seq<Reported>)
    decreases k,
{
    if k == 0 {
        (scan_start(), Seq::empty())
    } else {
        let (s, out) = scan(lines, hits, before, after, (k - 1) as nat);
        let (s2, more) = scan_step(s, lines[k - 1], hits[k - 1], before, after);
        (s2, out + more)
    }
}

/// A line as reported: number, text, context flag.
pub open spec fn reported(m: LineMatch) -> Reported {
    (m.line_number as nat, m.line@, m.is_context)
}

/// Line by line, whether the search hit: something found, or, inverted,
/// nothing found.
pub open spec fn hit_flags(results: Seq<Option<(int, int)>>, invert: bool) -> Seq<bool> {
    Seq::new(results.len(), |i: int| (results[i] is Some) != invert)
}

/// What is reported after the first `k` lines depends only on whether those
/// lines were hits.
pub proof fn lemma_scan_prefix(lines: Seq<Seq<char>>, h1: Seq<bool>, h2: Seq<bool>, before: nat, after: nat, k: nat)
    requires
        k <= h1.len(),
        k <= h2.len(),
        forall|i: int| 0 <= i < k ==> h1[i] == h2[i],
    ensures
        scan(lines, h1, before, after, k) == scan(lines, h2, before, after, k),
    decreases k,
{
    if k > 0 {
        lemma_scan_prefix(lines, h1, h2, before, after, (k - 1) as nat);
    }
}

/// Whether the line at index `j` among the first `k` lines is shown: some
/// hit among those lines lies at most `after` lines before it or at most
/// `before` lines after it (a hit shows itself).
pub open spec fn shown(hits: Seq<bool>, before: nat, after: nat, k: nat, j: int) -> bool {
    0 <= j < k && exists|i: int| 0 <= i < k && #[trigger] hits[i] && j - after <= i <= j + before
}

/// The shown lines among the first `m`, in order, each with its number, its
/// text and whether it is context (not a hit), where the hits among the
/// first `k` lines decide what is shown.
pub open spec fn shown_lines(lines: Seq<Seq<char>>, hits: Seq<bool>, before: nat, after: nat, k: nat, m: nat) -> Seq<
    Reported,
>
    decreases m,
{
    if m == 0 {
        Seq::empty()
    } else {
        let rest = shown_lines(lines, hits, before, after, k, (m - 1) as nat);
        if shown(hits, before, after, k, m - 1) {
            rest.push((m, lines[m - 1], !hits[m - 1]))
        } else {
            rest
        }
    }
}

/// What holds after the first `k` lines were read: the state the search
/// keeps and what it reported.
spec fn scan_inv(lines: Seq<Seq<char>>, hits: Seq<bool>, before: nat, after: nat, k: nat, s: ScanState, out: Seq<Reported>) -> bool {
    let len = s.buffer.len();
    &&& s.line_number == k
    &&& s.after_remaining <= after
    &&& forall|h: int| 0 <= h < k && #[trigger] hits[h] ==> h + 1 + after - k <= s.after_remaining
    &&& s.after_remaining > 0 ==> exists|h: int|
        0 <= h < k && #[trigger] hits[h] && s.after_remaining == h + 1 + after - k
    &&& len <= before
    &&& len <= k
    &&& forall|t: int| 0 <= t < len ==> #[trigger] s.buffer[t] == ((k - len + t + 1) as nat, lines[k - len + t])
    &&& forall|j: int| 0 <= j < k && k - before <= j ==> (k - len <= j <==> !#[trigger] shown(hits, before, after, k, j))
    &&& out == shown_lines(lines, hits, before, after, k, k)
}

/// Shown lines do not change with more lines where the two settings agree.
proof fn lemma_shown_lines_same(lines: Seq<Seq<char>>, hits: Seq<bool>, before: nat, after: nat, k1: nat, k2: nat, m: nat)
    requires
        forall|j: int| 0 <= j < m ==> shown(hits, before, after, k1, j) == shown(hits, before, after, k2, j),
    ensures
        shown_lines(lines, hits, before, after, k1, m) == shown_lines(lines, hits, before, after, k2, m),
    decreases m,
{
    if m > 0 {
        lemma_shown_lines_same(lines, hits, before, after, k1, k2, (m - 1) as nat);
    }
}

/// A hit after the first `k` lines shows the lines kept for before-context.
proof fn lemma_hit_shows_buffer(lines: Seq<Seq<char>>, hits: Seq<bool>, before: nat, after: nat, k: nat, s: ScanState, out: Seq<Reported>, m: nat)
    requires
        k < hits.len(),
        hits[k as int],
        scan_inv(lines, hits, before, after, k, s, out),
        m <= k,
    ensures
        shown_lines(lines, hits, before, after, k + 1, m) == shown_lines(lines, hits, before, after, k, m) + (if m
            <= k - s.buffer.len() {
            Seq::empty()
        } else {
            as_context(s.buffer).take(m - (k - s.buffer.len()))
        }),
    decreases m,
{
    let len = s.buffer.len();
    if m > 0 {
        lemma_hit_shows_buffer(lines, hits, before, after, k, s, out, (m - 1) as nat);
        let j = m - 1;
        if j < k - len {
            if shown(hits, before, after, k + 1, j) && !shown(hits, before, after, k, j) {
                let i = choose|i: int| 0 <= i < k + 1 && #[trigger] hits[i] && j - after <= i <= j + before;
                assert(i == k);
                assert(k - before <= j);
            }
            if shown(hits, before, after, k, j) {
                let i = choose|i: int| 0 <= i < k && #[trigger] hits[i] && j - after <= i <= j + before;
                assert(shown(hits, before, after, k + 1, j));
            }
        } else {
            assert(k - before <= j);
            assert(!shown(hits, before, after, k, j));
            assert(hits[k as int] && j - after <= k <= j + before);
            assert(shown(hits, before, after, k + 1, j));
            if hits[j] {
                assert(shown(hits, before, after, k, j));
            }
            let t = j - (k - len);
            assert(s.buffer[t] == ((k - len + t + 1) as nat, lines[k - len + t]));
            assert(as_context(s.buffer).take(m - (k - len)) =~= as_context(s.buffer).take(j - (k - len)).push(
                (m, lines[j], true),
            ));
        }
    }
}

/// One more line keeps what holds of the search.
proof fn lemma_scan_inv_step(lines: Seq<Seq<char>>, hits: Seq<bool>, before: nat, after: nat, k: nat)
    requires
        k < hits.len(),
        k < lines.len(),
        scan_inv(lines, hits, before, after, k, scan(lines, hits, before, after, k).0, scan(lines, hits, before, after, k).1),
    ensures
        scan_inv(lines, hits, before, after, k + 1, scan(lines, hits, before, after, k + 1).0, scan(lines, hits, before, after, k + 1).1),
{
    let (s, out) = scan(lines, hits, before, after, k);
    let (s2, out2) = scan(lines, hits, before, after, k + 1);
    let len = s.buffer.len();
    let n = k + 1;
    assert((s2, out2) == ({
        let (t, more) = scan_step(s, lines[k as int], hits[k as int], before, after);
        (t, out + more)
    }));
    if hits[k as int] {
        lemma_hit_shows_buffer(lines, hits, before, after, k, s, out, k);
        assert(as_context(s.buffer).take(k - (k - len)) =~= as_context(s.buffer));
        assert(shown(hits, before, after, n, k as int));
        assert forall|j: int| 0 <= j < n && n - before <= j implies #[trigger] shown(hits, before, after, n, j) by {
            assert(hits[k as int] && j - after <= k <= j + before);
        }
        assert forall|h: int| 0 <= h < n && #[trigger] hits[h] implies h + 1 + after - n <= s2.after_remaining by {}
        assert(s2.buffer.len() == 0);
        if len == 0 {
            assert(as_context(s.buffer) =~= Seq::<Reported>::empty());
        }
        assert(out2 =~= shown_lines(lines, hits, before, after, n, n));
    } else if s.after_remaining > 0 {
        let h = choose|h: int| 0 <= h < k && #[trigger] hits[h] && s.after_remaining == h + 1 + after - k;
        if len > 0 {
            assert(hits[h] && k - 1 - after <= h <= k - 1 + before);
            assert(shown(hits, before, after, k, k - 1));
        }
        assert(len == 0);
        assert forall|j: int| 0 <= j < k implies shown(hits, before, after, n, j) == shown(hits, before, after, k, j) by {
            if shown(hits, before, after, n, j) {
                let i = choose|i: int| 0 <= i < n && #[trigger] hits[i] && j - after <= i <= j + before;
                assert(i < k);
            }
        }
        lemma_shown_lines_same(lines, hits, before, after, n, k, k);
        assert(hits[h] && k - after <= h <= k + before);
        assert(shown(hits, before, after, n, k as int));
        assert forall|j: int| 0 <= j < n && n - before <= j implies #[trigger] shown(hits, before, after, n, j) by {
            assert(hits[h] && j - after <= h <= j + before);
        }
        assert(s2.after_remaining == h + 1 + after - n);
        assert(out2 =~= shown_lines(lines, hits, before, after, n, n));
    } else {
        assert forall|j: int| 0 <= j < k implies shown(hits, before, after, n, j) == shown(hits, before, after, k, j) by {
            if shown(hits, before, after, n, j) {
                let i = choose|i: int| 0 <= i < n && #[trigger] hits[i] && j - after <= i <= j + before;
                assert(i < k);
            }
        }
        assert(!shown(hits, before, after, n, k as int)) by {
            if shown(hits, before, after, n, k as int) {
                let i = choose|i: int| 0 <= i < n && #[trigger] hits[i] && k - after <= i <= k + before;
                assert(i < k);
            }
        }
        lemma_shown_lines_same(lines, hits, before, after, n, k, k);
        assert(out2 =~= shown_lines(lines, hits, before, after, n, n));
        let len2 = s2.buffer.len();
        if before > 0 {
            assert forall|t: int| 0 <= t < len2 implies #[trigger] s2.buffer[t] == ((n - len2 + t + 1) as nat, lines[n - len2 + t]) by {
                if len == before {
                    if t < len2 - 1 {
                        assert(s2.buffer[t] == s.buffer[t + 1]);
                    }
                } else {
                    if t < len2 - 1 {
                        assert(s2.buffer[t] == s.buffer[t]);
                    }
                }
            }
        }
        assert forall|j: int| 0 <= j < n && n - before <= j implies (n - len2 <= j <==> !#[trigger] shown(hits, before, after, n, j)) by {
            if j < k {
                assert(shown(hits, before, after, n, j) == shown(hits, before, after, k, j));
            }
        }
    }
}

/// Which lines a search reports: exactly the shown ones, in order, each
/// once; a line is shown when it is a hit, or lies at most `after` lines
/// after a hit, or at most `before` lines before one, and it is reported as
/// context exactly when it is not a hit itself.
pub proof fn lemma_context(lines: Seq<Seq<char>>, hits: Seq<bool>, before: nat, after: nat, k: nat)
    requires
        k <= hits.len(),
        k <= lines.len(),
    ensures
        scan(lines, hits, before, after, k).1 == shown_lines(lines, hits, before, after, k, k),
{
    lemma_scan_inv(lines, hits, before, after, k);
}

proof fn lemma_scan_inv(lines: Seq<Seq<char>>, hits: Seq<bool>, before: nat, after: nat, k: nat)
    requires
        k <= hits.len(),
        k <= lines.len(),
    ensures
        scan_inv(lines, hits, before, after, k, scan(lines, hits, before, after, k).0, scan(lines, hits, before, after, k).1),
    decreases k,
{
    if k > 0 {
        lemma_scan_inv(lines, hits, before, after, (k - 1) as nat);
        lemma_scan_inv_step(lines, hits, before, after, (k - 1) as nat);
    } else {
        let (s, out) = scan(lines, hits, before, after, 0);
        assert(s.buffer.len() == 0);
    }
}

/// The search over the lines of one input.
pub struct Matches {
    line_number: usize,
    invert_match: bool,
    before_context: usize,
    after_context: usize,
    before_buffer: VecDeque<(usize, String)>,
    after_remaining: usize,
}

impl Matches {
    pub closed spec fn state(&self) -> ScanState {
        ScanState {
            line_number: self.line_number as nat,
            buffer: Seq::new(self.before_buffer@.len(), |i: int| (self.before_buffer@[i].0 as nat, self.before_buffer@[i].1@)),
            after_remaining: self.after_remaining as nat,
        }
    }

    pub closed spec fn inverted(&self) -> bool {
        self.invert_match
    }

    pub closed spec fn before(&self) -> nat {
        self.before_context as nat
    }

    pub closed spec fn after(&self) -> nat {
        self.after_context as nat
    }

    pub fn new(invert_match: bool, before_context: usize, after_context: usize) -> (r: Self)
        ensures
            r.state() == scan_start(),
            r.inverted() == invert_match,
            r.before() == before_context,
            r.after() == after_context,
    {
        let r = Matches {
            line_number: 0,
            invert_match,
            before_context,
            after_context,
            before_buffer: VecDeque::new(),
            after_remaining: 0,
        };
        assert(r.state().buffer =~= Seq::<(nat, Seq<char>)>::empty());
        r
    }

    /// Takes the next line, whose search found a match or not, and gives
    /// back the lines to report now. `spans` are the spans of the matches in
    /// the line, kept for a hit of a search that is not inverted.
    pub fn next_line(&mut self, line: String, found: bool, spans: Vec<Range<usize>>) -> (out: Vec<LineMatch>)
        requires
            old(self).state().line_number < usize::MAX,
        ensures
            final(self).inverted() == old(self).inverted(),
            final(self).before() == old(self).before(),
            final(self).after() == old(self).after(),
            ({
                let (s2, more) = scan_step(
                    old(self).state(),
                    line@,
                    found != old(self).inverted(),
                    old(self).before(),
                    old(self).after(),
                );
                &&& final(self).state() == s2
                &&& out@.len() == more.len()
                &&& forall|i: int| 0 <= i < out@.len() ==> reported(#[trigger] out@[i]) == more[i]
            }),
            forall|i: int|
                0 <= i < out@.len() ==> (#[trigger] out@[i]).match_spans@ == (if !out@[i].is_context
                    && !old(self).inverted() {
                    spans@
                } else {
                    Seq::empty()
                }),
    {
        let ghost s0 = self.state();
        let ghost line_v = line@;
        let ghost expected = scan_step(s0, line@, found != self.invert_match, self.before_context as nat, self.after_context as nat);
        let ghost buf0 = self.before_buffer@;
        self.line_number = self.line_number + 1;
        let n = self.line_number;
        let is_hit = found != self.invert_match;
        let mut out: Vec<LineMatch> = Vec::new();
        if is_hit {
            let kept = if self.invert_match {
                Vec::new()
            } else {
                spans
            };
            let mut before_buffer: VecDeque<(usize, String)> = VecDeque::new();
            std::mem::swap(&mut before_buffer, &mut self.before_buffer);
            let mut i: usize = 0;
            while i < before_buffer.len()
                invariant
                    i <= before_buffer@.len(),
                    out@.len() == i,
                    forall|j: int|
                        0 <= j < i ==> reported(#[trigger] out@[j]) == (
                            before_buffer@[j].0 as nat,
                            before_buffer@[j].1@,
                            true,
                        ) && out@[j].match_spans@ == Seq::<Range<usize>>::empty(),
                decreases before_buffer@.len() - i,
            {
                let line_number = before_buffer[i].0;
                let text = before_buffer[i].1.clone();
                out.push(LineMatch { line_number, line: text, match_spans: Vec::new(), is_context: true });
                i = i + 1;
            }
            out.push(LineMatch { line_number: n, line, match_spans: kept, is_context: false });
            self.after_remaining = self.after_context;
        } else if self.after_remaining > 0 {
            out.push(LineMatch { line_number: n, line, match_spans: Vec::new(), is_context: true });
            self.after_remaining = self.after_remaining - 1;
        } else if self.before_context > 0 {
            if self.before_buffer.len() == self.before_context {
                self.before_buffer.pop_front();
            }
            self.before_buffer.push_back((n, line));
        }
        proof {
            assert(self.state().buffer =~= expected.0.buffer);
            assert(self.state() == expected.0);
        }
        out
    }
}

/// The lines of `text`, each with its line break if it has one.
pub fn split_lines(text: &str) -> (r: Vec<String>)
    ensures
        r@.len() == lines_of(text@).len(),
        forall|i: int| 0 <= i < r@.len() ==> (#[trigger] r@[i])@ == lines_of(text@)[i],
{
    let chars = crate::text::chars_of(text);
    let mut r: Vec<String> = Vec::new();
    let mut current = String::new();
    let mut start: usize = 0;
    let mut i: usize = 0;
    while i < chars.len()
        invariant
            chars@ == text@,
            start <= i <= chars@.len(),
            current@ == chars@.subrange(start as int, i as int),
            forall|j: int| start <= j < i ==> chars@[j] != '\n',
            line_end(chars@, start as int) == line_end(chars@, i as int),
            lines_of(chars@) == ({
                let done = Seq::new(r@.len(), |k: int| r@[k]@);
                done + lines_from(chars@, start as int)
            }),
        decreases chars@.len() - i,
    {
        let c = chars[i];
        current.push(c);
        if c == '\n' {
            let ghost done = Seq::new(r@.len(), |k: int| r@[k]@);
            proof {
                assert(line_end(chars@, i as int) == i + 1);
                assert(current@ =~= chars@.subrange(start as int, i + 1));
                assert(lines_from(chars@, start as int) == seq![current@] + lines_from(chars@, i + 1));
            }
            r.push(current);
            current = String::new();
            proof {
                let done2 = Seq::new(r@.len(), |k: int| r@[k]@);
                assert(done2 =~= done.push(chars@.subrange(start as int, i + 1)));
                assert(done + (seq![chars@.subrange(start as int, i + 1)] + lines_from(chars@, i + 1)) =~= done2
                    + lines_from(chars@, i + 1));
            }
            start = i + 1;
        } else {
            proof {
                assert(current@ =~= chars@.subrange(start as int, i + 1));
            }
        }
        i = i + 1;
    }
    if start < i {
        let ghost done = Seq::new(r@.len(), |k: int| r@[k]@);
        proof {
            assert(line_end(chars@, start as int) == chars@.len());
            assert(lines_from(chars@, chars@.len() as int) == Seq::<Seq<char>>::empty());
            assert(lines_from(chars@, start as int) == seq![current@] + lines_from(chars@, chars@.len() as int));
        }
        r.push(current);
        proof {
            let done2 = Seq::new(r@.len(), |k: int| r@[k]@);
            assert(done2 =~= done.push(current@));
            assert(lines_of(chars@) =~= done2);
        }
    } else {
        proof {
            let done = Seq::new(r@.len(), |k: int| r@[k]@);
            assert(lines_of(chars@) =~= done);
        }
    }
    proof {
        let done = Seq::new(r@.len(), |k: int| r@[k]@);
        assert(lines_of(text@) =~= done);
        assert forall|k: int| 0 <= k < r@.len() implies (#[trigger] r@[k])@ == lines_of(text@)[k] by {
            assert(done[k] == r@[k]@);
        }
    }
    r
}

/// Every line of `text` that `matcher` finds something in (or, inverted,
/// finds nothing in), with the requested lines of context around each,
/// in order and each at most once.
pub fn search<M: Matcher + ?Sized>(
    matcher: &M,
    text: &str,
    invert_match: bool,
    before_context: usize,
    after_context: usize,
) -> (r: Vec<LineMatch>)
    ensures
        exists|results: Seq<Option<(int, int)>>|
            #![trigger hit_flags(results, invert_match)]
            results.len() == lines_of(text@).len() && (forall|i: int|
                0 <= i < results.len() ==> matcher.finds(lines_of(text@)[i], #[trigger] results[i])) && ({
                let out = scan(
                    lines_of(text@),
                    hit_flags(results, invert_match),
                    before_context as nat,
                    after_context as nat,
                    lines_of(text@).len(),
                ).1;
                &&& out == shown_lines(
                    lines_of(text@),
                    hit_flags(results, invert_match),
                    before_context as nat,
                    after_context as nat,
                    lines_of(text@).len(),
                    lines_of(text@).len(),
                )
                &&& r@.len() == out.len()
                &&& forall|i: int| 0 <= i < r@.len() ==> reported(#[trigger] r@[i]) == out[i]
            }),
        forall|i: int|
            0 <= i < r@.len() ==> forall|j: int|
                0 <= j < (#[trigger] r@[i]).match_spans@.len() ==> is_span(
                    r@[i].line@,
                    (#[trigger] r@[i].match_spans@[j]).start as int,
                    r@[i].match_spans@[j].end as int,
                ),
        forall|i: int| 0 <= i < r@.len() && ((#[trigger] r@[i]).is_context || invert_match) ==> r@[i].match_spans@.len() == 0,
        forall|i: int|
            0 <= i < r@.len() && !(#[trigger] r@[i]).is_context && !invert_match ==> spans_found(
                |u: Seq<char>, x: Option<(int, int)>| matcher.finds(u, x),
                r@[i].line@,
                r@[i].match_spans@,
            ),
{
    let lines = split_lines(text);
    let ghost all = lines_of(text@);
    let mut matches = Matches::new(invert_match, before_context, after_context);
    let mut result: Vec<LineMatch> = Vec::new();
    let ghost mut hits: Seq<bool> = Seq::empty();
    let ghost mut results: Seq<Option<(int, int)>> = Seq::empty();
    let mut k: usize = 0;
    while k < lines.len()
        invariant
            lines@.len() == all.len(),
            forall|i: int| 0 <= i < lines@.len() ==> (#[trigger] lines@[i])@ == all[i],
            k <= lines@.len(),
            hits.len() == k,
            matches.inverted() == invert_match,
            matches.before() == before_context,
            matches.after() == after_context,
            matches.state().line_number == k,
            results.len() == k,
            forall|i: int|
                0 <= i < k ==> matcher.finds(all[i], #[trigger] results[i]) && hits[i] == ((results[i] is Some)
                    != invert_match),
            ({
                let (s, out) = scan(all, hits, before_context as nat, after_context as nat, k as nat);
                &&& matches.state() == s
                &&& result@.len() == out.len()
                &&& forall|i: int| 0 <= i < result@.len() ==> reported(#[trigger] result@[i]) == out[i]
            }),
            forall|i: int|
                0 <= i < result@.len() ==> forall|j: int|
                    0 <= j < (#[trigger] result@[i]).match_spans@.len() ==> is_span(
                        result@[i].line@,
                        (#[trigger] result@[i].match_spans@[j]).start as int,
                        result@[i].match_spans@[j].end as int,
                    ),
            forall|i: int|
                0 <= i < result@.len() && ((#[trigger] result@[i]).is_context || invert_match) ==> result@[i].match_spans@.len()
                    == 0,
            forall|i: int|
                0 <= i < result@.len() && !(#[trigger] result@[i]).is_context && !invert_match ==> spans_found(
                    |u: Seq<char>, x: Option<(int, int)>| matcher.finds(u, x),
                    result@[i].line@,
                    result@[i].match_spans@,
                ),
        decreases lines@.len() - k,
    {
        let line = lines[k].clone();
        let found = matcher.find(line.as_str());
        let is_found = found.is_some();
        let spans = if is_found != invert_match && !invert_match {
            matcher.find_all(line.as_str())
        } else {
            Vec::new()
        };
        let ghost old_hits = hits;
        let ghost old_result = result@;
        let ghost old_state = matches.state();
        let ghost line_text = line@;
        let ghost old_results = results;
        proof {
            hits = hits.push(is_found != invert_match);
            results = results.push(span_value(found));
            lemma_scan_prefix(all, old_hits, hits, before_context as nat, after_context as nat, k as nat);
            assert(line_text == all[k as int]);
            assert(matcher.finds(all[k as int], span_value(found)) && hits[k as int] == ((span_value(found) is Some)
                != invert_match));
            assert(hits.len() == k + 1);
        }
        let mut out = matches.next_line(line, is_found, spans);
        let ghost out0 = out@;
        result.append(&mut out);
        proof {
            let (s, prev) = scan(all, old_hits, before_context as nat, after_context as nat, k as nat);
            let (s2, more) = scan_step(s, all[k as int], hits[k as int], before_context as nat, after_context as nat);
            assert(scan(all, hits, before_context as nat, after_context as nat, (k + 1) as nat) == (s2, prev + more));
            assert(result@ == old_result + out0);
            assert forall|i: int| 0 <= i < result@.len() implies reported(#[trigger] result@[i]) == (prev + more)[i] by {
                if i < old_result.len() {
                    assert(result@[i] == old_result[i]);
                } else {
                    assert(result@[i] == out0[i - old_result.len()]);
                }
            }
            assert forall|i: int|
                0 <= i < k + 1 implies matcher.finds(all[i], #[trigger] results[i]) && hits[i] == ((results[i] is Some)
                    != invert_match) by {
                if i < k {
                    assert(hits[i] == old_hits[i]);
                    assert(results[i] == old_results[i]);
                }
            }
            assert forall|i: int|
                0 <= i < result@.len() implies forall|j: int|
                    0 <= j < (#[trigger] result@[i]).match_spans@.len() ==> is_span(
                        result@[i].line@,
                        (#[trigger] result@[i].match_spans@[j]).start as int,
                        result@[i].match_spans@[j].end as int,
                    ) by {
                if i < old_result.len() {
                    assert(result@[i] == old_result[i]);
                } else {
                    assert(result@[i] == out0[i - old_result.len()]);
                }
            }
            assert forall|i: int|
                0 <= i < result@.len() && ((#[trigger] result@[i]).is_context || invert_match) implies result@[i].match_spans@.len()
                    == 0 by {
                if i < old_result.len() {
                    assert(result@[i] == old_result[i]);
                } else {
                    assert(result@[i] == out0[i - old_result.len()]);
                }
            }
            assert forall|i: int|
                0 <= i < result@.len() && !(#[trigger] result@[i]).is_context && !invert_match implies spans_found(
                    |u: Seq<char>, x: Option<(int, int)>| matcher.finds(u, x),
                    result@[i].line@,
                    result@[i].match_spans@,
                ) by {
                if i < old_result.len() {
                    assert(result@[i] == old_result[i]);
                } else {
                    let m = i - old_result.len();
                    assert(result@[i] == out0[m]);
                    assert(reported(out0[m]) == more[m]);
                    if hits[k as int] && m < s.buffer.len() {
                        assert(more[m] == as_context(s.buffer)[m]);
                    }
                    assert(out0[m].line@ == line_text);
                }
            }
        }
        k = k + 1;
    }
    proof {
        assert(hits =~= hit_flags(results, invert_match));
        assert(all == lines_of(text@));
        lemma_context(all, hits, before_context as nat, after_context as nat, all.len());
        assert(results.len() == lines_of(text@).len() && (forall|i: int|
            0 <= i < results.len() ==> matcher.finds(lines_of(text@)[i], #[trigger] results[i])) && ({
            let out = scan(
                lines_of(text@),
                hit_flags(results, invert_match),
                before_context as nat,
                after_context as nat,
                lines_of(text@).len(),
            ).1;
            &&& out == shown_lines(
                lines_of(text@),
                hit_flags(results, invert_match),
                before_context as nat,
                after_context as nat,
                lines_of(text@).len(),
                lines_of(text@).len(),
            )
            &&& result@.len() == out.len()
            &&& forall|i: int| 0 <= i < result@.len() ==> reported(#[trigger] result@[i]) == out[i]
        }));
    }
    result
}

} // verus!
