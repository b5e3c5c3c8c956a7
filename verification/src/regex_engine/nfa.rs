//! Character ranges and the non-deterministic automaton that patterns are
//! compiled to.
use vstd::prelude::*;
use crate::text::{lower, upper, word_char};

verus! {

/// A state of the automaton.
#[derive(Debug, Clone, PartialEq, Eq)]
pub enum State {
    /// Moves, without reading input, to any of the listed states.
    Split(Vec<usize>),
    /// Reads one character that falls in one of the ranges, then moves on.
    Consuming(Vec<CharRange>, usize),
    /// Moves on without reading input when the condition holds here.
    Assert(AssertKind, usize),
    /// Accepts.
    Match,
}

#[derive(Debug, Clone, Copy, PartialEq, Eq)]
pub enum AssertKind {
    Start,
    End,
    WordBoundary,
    WordStart,
    WordEnd,
}

/// The characters from `start` to `end`, both included.
#[derive(Debug, Clone, Copy, PartialEq, Eq)]
pub struct CharRange {
    start: char,
    end: char,
}

/// Whether some range of `rs` contains `c`.
pub open spec fn covers(rs: Seq<CharRange>, c: char) -> bool {
    exists|k: int| 0 <= k < rs.len() && (#[trigger] rs[k]).contains_spec(c)
}

/// Whether some range of `rs` contains the number `n` (ranges read as
/// intervals of code point numbers).
pub open spec fn covers_num(rs: Seq<CharRange>, n: int) -> bool {
    exists|k: int| 0 <= k < rs.len() && (#[trigger] rs[k]).lo() as int <= n <= rs[k].hi() as int
}

/// Every range is non-empty.
pub open spec fn all_valid(rs: Seq<CharRange>) -> bool {
    forall|k: int| 0 <= k < rs.len() ==> (#[trigger] rs[k]).lo() <= rs[k].hi()
}

/// Non-empty ranges in increasing order, each separated from the next by at
/// least one code point number that neither contains.
pub open spec fn normalized(rs: Seq<CharRange>) -> bool {
    &&& all_valid(rs)
    &&& forall|i: int, j: int|
        0 <= i < j < rs.len() ==> (#[trigger] rs[i]).hi() as int + 1 < (#[trigger] rs[j]).lo() as int
}

/// Ranges in increasing order of their first characters.
pub open spec fn sorted_by_start(rs: Seq<CharRange>) -> bool {
    forall|i: int, j: int| 0 <= i < j < rs.len() ==> (#[trigger] rs[i]).lo() <= (#[trigger] rs[j]).lo()
}

/// `a` and `b` are consecutive characters: no character lies strictly
/// between them (the surrogate block is no character).
pub open spec fn consecutive(a: char, b: char) -> bool {
    (a as u32) + 1 == (b as u32) || ((a as u32) == 0xD7FF && (b as u32) == 0xE000)
}

pub proof fn lemma_consecutive(a: char, b: char, e: char)
    requires
        consecutive(a, b),
    ensures
        a < b,
        !(a < e && e < b),
{
    vstd::utf8::char_is_scalar(e);
}

/// The first character, U+0000.
fn first_char() -> (c: char)
    ensures
        c as u32 == 0,
{
    match char::from_u32(0) {
        Some(c) => c,
        None => '\0',
    }
}

/// The last character, U+10FFFF.
fn last_char() -> (c: char)
    ensures
        c as u32 == 0x10FFFF,
{
    match char::from_u32(0x10FFFF) {
        Some(c) => c,
        None => '\0',
    }
}

/// Some range of `s.push(r)` contains `c` just when some range of `s` or `r`
/// does.
pub proof fn lemma_covers_push(s: Seq<CharRange>, r: CharRange, c: char)
    ensures
        covers(s.push(r), c) <==> covers(s, c) || r.contains_spec(c),
{
    if covers(s.push(r), c) {
        let i = choose|i: int| 0 <= i < s.push(r).len() && (#[trigger] s.push(r)[i]).contains_spec(c);
        if i < s.len() {
            assert(s.push(r)[i] == s[i]);
        }
    }
    if covers(s, c) {
        let i = choose|i: int| 0 <= i < s.len() && (#[trigger] s[i]).contains_spec(c);
        assert(s.push(r)[i] == s[i]);
    }
    if r.contains_spec(c) {
        assert(s.push(r)[s.len() as int] == r);
    }
}

/// In normalized ranges, nothing before the first range is covered.
pub proof fn lemma_not_covered_before(m: Seq<CharRange>, c: char)
    requires
        normalized(m),
        m.len() > 0,
        c < m[0].lo(),
    ensures
        !covers(m, c),
{
    assert forall|q: int| 0 <= q < m.len() implies !(#[trigger] m[q]).contains_spec(c) by {
        if q > 0 {
            assert(m[0].hi() as int + 1 < m[q].lo() as int);
        }
    }
}

/// In normalized ranges, nothing after the last range is covered.
pub proof fn lemma_not_covered_after(m: Seq<CharRange>, c: char)
    requires
        normalized(m),
        m.len() > 0,
        c > m[m.len() - 1].hi(),
    ensures
        !covers(m, c),
{
    assert forall|q: int| 0 <= q < m.len() implies !(#[trigger] m[q]).contains_spec(c) by {
        if q < m.len() - 1 {
            assert(m[q].hi() as int + 1 < m[m.len() - 1].lo() as int);
        }
    }
}

/// In normalized ranges, nothing strictly between two neighbouring ranges is
/// covered.
pub proof fn lemma_not_covered_between(m: Seq<CharRange>, k: int, c: char)
    requires
        normalized(m),
        0 <= k < m.len() - 1,
        m[k].hi() < c < m[k + 1].lo(),
    ensures
        !covers(m, c),
{
    assert forall|q: int| 0 <= q < m.len() implies !(#[trigger] m[q]).contains_spec(c) by {
        if q < k {
            assert(m[q].hi() as int + 1 < m[k].lo() as int);
        } else if q > k + 1 {
            assert(m[k + 1].hi() as int + 1 < m[q].lo() as int);
        }
    }
}

/// Each range ends before the next one starts.
pub open spec fn increasing(rs: Seq<CharRange>) -> bool {
    forall|i: int, j: int| 0 <= i < j < rs.len() ==> (#[trigger] rs[i]).hi() < (#[trigger] rs[j]).lo()
}

/// `result` is the complement of `m` below `bound`: increasing ranges, all
/// before `bound`, that cover a character before `bound` just when `m` does
/// not.
spec fn complement_below(result: Seq<CharRange>, m: Seq<CharRange>, bound: char) -> bool {
    &&& increasing(result)
    &&& forall|i: int| 0 <= i < result.len() ==> (#[trigger] result[i]).hi() < bound
    &&& forall|c: char| c < bound ==> (covers(result, c) <==> !covers(m, c))
}

/// Adding a non-empty range keeps every range non-empty.
proof fn lemma_valid_push(s: Seq<CharRange>, r: CharRange)
    requires
        all_valid(s),
        r.lo() <= r.hi(),
    ensures
        all_valid(s.push(r)),
{
    assert forall|k: int| 0 <= k < s.push(r).len() implies (#[trigger] s.push(r)[k]).lo() <= s.push(r)[k].hi() by {
        if k < s.len() {
            assert(s.push(r)[k] == s[k]);
        }
    }
}

/// A range that holds nothing adds nothing to a complement.
proof fn lemma_below_without_empty(result: Seq<CharRange>, gap: CharRange, m: Seq<CharRange>, bound: char)
    requires
        complement_below(result.push(gap), m, bound),
        gap.hi() < gap.lo(),
    ensures
        complement_below(result, m, bound),
{
    let next = result.push(gap);
    assert forall|i: int, j: int| 0 <= i < j < result.len() implies (#[trigger] result[i]).hi() < (#[trigger] result[j]).lo() by {
        assert(next[i] == result[i]);
        assert(next[j] == result[j]);
    }
    assert forall|i: int| 0 <= i < result.len() implies (#[trigger] result[i]).hi() < bound by {
        assert(next[i] == result[i]);
    }
    assert forall|c: char| c < bound implies (covers(result, c) <==> !covers(m, c)) by {
        lemma_covers_push(result, gap, c);
    }
}

/// Ranges that cover the same numbers cover the same characters.
proof fn lemma_same_numbers_same_chars(a: Seq<CharRange>, b: Seq<CharRange>)
    requires
        forall|n: int| covers_num(a, n) <==> covers_num(b, n),
    ensures
        forall|c: char| covers(a, c) <==> covers(b, c),
{
    assert forall|c: char| covers(a, c) <==> covers(b, c) by {
        if covers(a, c) {
            let k = choose|k: int| 0 <= k < a.len() && (#[trigger] a[k]).contains_spec(c);
            assert(covers_num(a, c as int));
            let q = choose|q: int| 0 <= q < b.len() && (#[trigger] b[q]).lo() as int <= c as int <= b[q].hi() as int;
            assert(b[q].contains_spec(c));
        }
        if covers(b, c) {
            let k = choose|k: int| 0 <= k < b.len() && (#[trigger] b[k]).contains_spec(c);
            assert(covers_num(b, c as int));
            let q = choose|q: int| 0 <= q < a.len() && (#[trigger] a[q]).lo() as int <= c as int <= a[q].hi() as int;
            assert(a[q].contains_spec(c));
        }
    }
}

/// The gap from U+0000 up to the first range starts the complement.
proof fn lemma_leading_gap(m: Seq<CharRange>, gap: CharRange)
    requires
        normalized(m),
        m.len() > 0,
        gap.lo() as u32 == 0,
        consecutive(gap.hi(), m[0].lo()),
    ensures
        complement_below(Seq::empty().push(gap), m, m[0].lo()),
{
    let result = Seq::<CharRange>::empty().push(gap);
    lemma_consecutive(gap.hi(), m[0].lo(), gap.hi());
    assert(result[0] == gap);
    assert forall|c: char| c < m[0].lo() implies (covers(result, c) <==> !covers(m, c)) by {
        lemma_not_covered_before(m, c);
        lemma_consecutive(gap.hi(), m[0].lo(), c);
        lemma_first_char(c, gap.lo());
        lemma_covers_push(Seq::empty(), gap, c);
    }
}

/// The gap between two neighbouring ranges extends the complement.
proof fn lemma_inner_gap(m: Seq<CharRange>, k: int, result: Seq<CharRange>, gap: CharRange)
    requires
        normalized(m),
        0 <= k < m.len() - 1,
        complement_below(result, m, m[k].lo()),
        consecutive(m[k].hi(), gap.lo()),
        consecutive(gap.hi(), m[k + 1].lo()),
    ensures
        complement_below(result.push(gap), m, m[k + 1].lo()),
{
    let r1 = m[k];
    let r2 = m[k + 1];
    let next = result.push(gap);
    lemma_consecutive(r1.hi(), gap.lo(), r1.hi());
    lemma_consecutive(gap.hi(), r2.lo(), gap.hi());
    assert(r1.lo() <= r1.hi());
    assert forall|c: char| c < r2.lo() implies (covers(next, c) <==> !covers(m, c)) by {
        lemma_consecutive(r1.hi(), gap.lo(), c);
        lemma_consecutive(gap.hi(), r2.lo(), c);
        lemma_covers_push(result, gap, c);
        if c < r1.lo() {
        } else if c <= r1.hi() {
            assert(m[k].contains_spec(c));
            if covers(result, c) {
                let i = choose|i: int| 0 <= i < result.len() && (#[trigger] result[i]).contains_spec(c);
            }
        } else {
            lemma_not_covered_between(m, k, c);
            if covers(result, c) {
                let i = choose|i: int| 0 <= i < result.len() && (#[trigger] result[i]).contains_spec(c);
            }
        }
    }
    assert forall|i: int| 0 <= i < next.len() implies (#[trigger] next[i]).hi() < r2.lo() by {
        if i < result.len() {
            assert(next[i] == result[i]);
        }
    }
    assert forall|i: int, j: int| 0 <= i < j < next.len() implies (#[trigger] next[i]).hi() < (#[trigger] next[j]).lo() by {
        assert(next[i] == result[i]);
        if j < result.len() {
            assert(next[j] == result[j]);
        }
    }
}

/// The gap from the last range up to U+10FFFF ends the complement.
proof fn lemma_trailing_gap(m: Seq<CharRange>, result: Seq<CharRange>, gap: CharRange)
    requires
        normalized(m),
        m.len() > 0,
        complement_below(result, m, m[m.len() - 1].lo()),
        consecutive(m[m.len() - 1].hi(), gap.lo()),
        gap.hi() as u32 == 0x10FFFF,
    ensures
        forall|c: char| covers(result.push(gap), c) <==> !covers(m, c),
        increasing(result.push(gap)),
{
    let last = m[m.len() - 1];
    let next = result.push(gap);
    lemma_consecutive(last.hi(), gap.lo(), last.hi());
    assert(last.lo() <= last.hi());
    assert forall|c: char| covers(next, c) <==> !covers(m, c) by {
        lemma_covers_push(result, gap, c);
        lemma_consecutive(last.hi(), gap.lo(), c);
        lemma_last_char(c, gap.hi());
        if c < last.lo() {
        } else if c <= last.hi() {
            assert(m[m.len() - 1].contains_spec(c));
            if covers(result, c) {
                let i = choose|i: int| 0 <= i < result.len() && (#[trigger] result[i]).contains_spec(c);
            }
        } else {
            lemma_not_covered_after(m, c);
            if covers(result, c) {
                let i = choose|i: int| 0 <= i < result.len() && (#[trigger] result[i]).contains_spec(c);
            }
        }
    }
    assert forall|i: int, j: int| 0 <= i < j < next.len() implies (#[trigger] next[i]).hi() < (#[trigger] next[j]).lo() by {
        assert(next[i] == result[i]);
        if j < result.len() {
            assert(next[j] == result[j]);
        }
    }
}

/// No character comes before U+0000.
pub proof fn lemma_first_char(c: char, first: char)
    requires
        first as u32 == 0,
    ensures
        first <= c,
{
}

/// No character comes after U+10FFFF.
pub proof fn lemma_last_char(c: char, last: char)
    requires
        last as u32 == 0x10FFFF,
    ensures
        c <= last,
{
    vstd::utf8::char_is_scalar(c);
}

impl CharRange {
    pub closed spec fn lo(&self) -> char {
        self.start
    }

    pub closed spec fn hi(&self) -> char {
        self.end
    }

    pub open spec fn contains_spec(&self, c: char) -> bool {
        self.lo() <= c && c <= self.hi()
    }

    pub fn new(start: char, end: char) -> (r: Self)
        requires
            start <= end,
        ensures
            r.lo() == start,
            r.hi() == end,
    {
        CharRange { start, end }
    }

    pub fn contains(&self, c: char) -> (r: bool)
        ensures
            r == self.contains_spec(c),
    {
        self.start <= c && self.end >= c
    }

    /// Sorts ranges by their first character.
    fn sort_by_start(v: &mut Vec<CharRange>)
        ensures
            final(v)@.len() == old(v)@.len(),
            sorted_by_start(final(v)@),
            forall|x: CharRange| final(v)@.contains(x) <==> old(v)@.contains(x),
    {
        let n = v.len();
        if n == 0 {
            return;
        }
        let mut i: usize = 1;
        while i < n
            invariant
                1 <= i <= n,
                n == v@.len(),
                forall|a: int, b: int| 0 <= a < b < i ==> (#[trigger] v@[a]).lo() <= (#[trigger] v@[b]).lo(),
                forall|x: CharRange| v@.contains(x) <==> old(v)@.contains(x),
            decreases n - i,
        {
            let mut j: usize = i;
            while j > 0 && v[j - 1].start > v[j].start
                invariant
                    0 <= j <= i < n,
                    n == v@.len(),
                    forall|a: int, b: int|
                        0 <= a < b <= i && a != j && b != j ==> (#[trigger] v@[a]).lo() <= (#[trigger] v@[b]).lo(),
                    forall|b: int| j < b <= i ==> v@[j as int].lo() <= (#[trigger] v@[b]).lo(),
                    forall|x: CharRange| v@.contains(x) <==> old(v)@.contains(x),
                decreases j,
            {
                let x = v[j - 1];
                let y = v[j];
                let ghost before = v@;
                v.set(j - 1, y);
                v.set(j, x);
                proof {
                    assert forall|z: CharRange| v@.contains(z) <==> before.contains(z) by {
                        if before.contains(z) {
                            let k = choose|k: int| 0 <= k < before.len() && before[k] == z;
                            if k == j - 1 {
                                assert(v@[j as int] == z);
                            } else if k == j {
                                assert(v@[j - 1] == z);
                            } else {
                                assert(v@[k] == z);
                            }
                        }
                        if v@.contains(z) {
                            let k = choose|k: int| 0 <= k < v@.len() && v@[k] == z;
                            if k == j - 1 {
                                assert(before[j as int] == z);
                            } else if k == j {
                                assert(before[j - 1] == z);
                            } else {
                                assert(before[k] == z);
                            }
                        }
                    }
                }
                j = j - 1;
            }
            i = i + 1;
        }
    }

    /// The same characters as `ranges`, as few ranges as possible: sorted,
    /// with overlapping or adjacent ranges joined.
    pub fn merge(ranges: &[CharRange]) -> (r: Vec<CharRange>)
        requires
            all_valid(ranges@),
        ensures
            normalized(r@),
            forall|n: int| covers_num(r@, n) <==> covers_num(ranges@, n),
    {
        let mut sorted: Vec<CharRange> = Vec::new();
        let mut k: usize = 0;
        while k < ranges.len()
            invariant
                k <= ranges@.len(),
                sorted@ == ranges@.take(k as int),
            decreases ranges@.len() - k,
        {
            sorted.push(ranges[k]);
            k = k + 1;
            assert(sorted@ =~= ranges@.take(k as int));
        }
        assert(ranges@.take(ranges@.len() as int) =~= ranges@);
        let ghost unsorted = sorted@;
        Self::sort_by_start(&mut sorted);
        let mut merged: Vec<CharRange> = Vec::new();
        let mut i: usize = 0;
        while i < sorted.len()
            invariant
                i <= sorted@.len(),
                sorted_by_start(sorted@),
                forall|x: CharRange| sorted@.contains(x) <==> ranges@.contains(x),
                all_valid(ranges@),
                normalized(merged@),
                i > 0 ==> merged@.len() > 0,
                forall|m: int, q: int|
                    0 <= m < merged@.len() && i <= q < sorted@.len() ==> (#[trigger] merged@[m]).lo()
                        <= (#[trigger] sorted@[q]).lo(),
                forall|n: int| covers_num(merged@, n) <==> covers_num(sorted@.take(i as int), n),
            decreases sorted@.len() - i,
        {
            let range = sorted[i];
            proof {
                assert(sorted@.contains(range));
                let kk = choose|kk: int| 0 <= kk < ranges@.len() && ranges@[kk] == range;
                assert(range.lo() <= range.hi());
            }
            let ghost old_merged = merged@;
            if merged.len() == 0 {
                merged.push(range);
                proof {
                    assert forall|n: int| covers_num(merged@, n) <==> covers_num(sorted@.take(i + 1), n) by {
                        if covers_num(sorted@.take(i + 1), n) {
                            let q = choose|q: int| 0 <= q < sorted@.take(i + 1).len() && (#[trigger] sorted@.take(i + 1)[q]).lo() as int <= n <= sorted@.take(i + 1)[q].hi() as int;
                            if q < i {
                                assert(covers_num(sorted@.take(i as int), n));
                                assert(covers_num(old_merged, n));
                            }
                            assert(merged@[0] == range);
                        }
                        if covers_num(merged@, n) {
                            assert(sorted@.take(i + 1)[i as int] == range);
                        }
                    }
                }
            } else {
                let last_idx = merged.len() - 1;
                let last = merged[last_idx];
                if (range.start as u32) > (last.end as u32) + 1 {
                    merged.push(range);
                    proof {
                        assert forall|n: int| covers_num(merged@, n) <==> covers_num(sorted@.take(i + 1), n) by {
                            if covers_num(sorted@.take(i + 1), n) {
                                let q = choose|q: int| 0 <= q < sorted@.take(i + 1).len() && (#[trigger] sorted@.take(i + 1)[q]).lo() as int <= n <= sorted@.take(i + 1)[q].hi() as int;
                                if q < i {
                                    assert(sorted@.take(i as int)[q] == sorted@.take(i + 1)[q]);
                                    assert(covers_num(sorted@.take(i as int), n));
                                    assert(covers_num(old_merged, n));
                                    let m = choose|m: int| 0 <= m < old_merged.len() && (#[trigger] old_merged[m]).lo() as int <= n <= old_merged[m].hi() as int;
                                    assert(merged@[m] == old_merged[m]);
                                } else {
                                    assert(merged@[old_merged.len() as int] == range);
                                }
                            }
                            if covers_num(merged@, n) {
                                let m = choose|m: int| 0 <= m < merged@.len() && (#[trigger] merged@[m]).lo() as int <= n <= merged@[m].hi() as int;
                                if m < old_merged.len() {
                                    assert(merged@[m] == old_merged[m]);
                                    assert(covers_num(old_merged, n));
                                    assert(covers_num(sorted@.take(i as int), n));
                                    let q = choose|q: int| 0 <= q < sorted@.take(i as int).len() && (#[trigger] sorted@.take(i as int)[q]).lo() as int <= n <= sorted@.take(i as int)[q].hi() as int;
                                    assert(sorted@.take(i + 1)[q] == sorted@.take(i as int)[q]);
                                } else {
                                    assert(sorted@.take(i + 1)[i as int] == range);
                                }
                            }
                        }
                    }
                } else if range.end > last.end {
                    let joined = CharRange { start: last.start, end: range.end };
                    merged.set(last_idx, joined);
                    proof {
                        assert(last.lo() <= range.lo());
                        assert forall|n: int| covers_num(merged@, n) <==> covers_num(sorted@.take(i + 1), n) by {
                            if covers_num(sorted@.take(i + 1), n) {
                                let q = choose|q: int| 0 <= q < sorted@.take(i + 1).len() && (#[trigger] sorted@.take(i + 1)[q]).lo() as int <= n <= sorted@.take(i + 1)[q].hi() as int;
                                if q < i {
                                    assert(sorted@.take(i as int)[q] == sorted@.take(i + 1)[q]);
                                    assert(covers_num(sorted@.take(i as int), n));
                                    assert(covers_num(old_merged, n));
                                    let m = choose|m: int| 0 <= m < old_merged.len() && (#[trigger] old_merged[m]).lo() as int <= n <= old_merged[m].hi() as int;
                                    if m == last_idx {
                                        assert(merged@[m] == joined);
                                    } else {
                                        assert(merged@[m] == old_merged[m]);
                                    }
                                } else {
                                    assert(merged@[last_idx as int] == joined);
                                }
                            }
                            if covers_num(merged@, n) {
                                let m = choose|m: int| 0 <= m < merged@.len() && (#[trigger] merged@[m]).lo() as int <= n <= merged@[m].hi() as int;
                                if m < last_idx {
                                    assert(merged@[m] == old_merged[m]);
                                    assert(covers_num(old_merged, n));
                                    assert(covers_num(sorted@.take(i as int), n));
                                    let q = choose|q: int| 0 <= q < sorted@.take(i as int).len() && (#[trigger] sorted@.take(i as int)[q]).lo() as int <= n <= sorted@.take(i as int)[q].hi() as int;
                                    assert(sorted@.take(i + 1)[q] == sorted@.take(i as int)[q]);
                                } else if n <= last.hi() as int {
                                    assert(old_merged[m] == last);
                                    assert(covers_num(old_merged, n));
                                    assert(covers_num(sorted@.take(i as int), n));
                                    let q = choose|q: int| 0 <= q < sorted@.take(i as int).len() && (#[trigger] sorted@.take(i as int)[q]).lo() as int <= n <= sorted@.take(i as int)[q].hi() as int;
                                    assert(sorted@.take(i + 1)[q] == sorted@.take(i as int)[q]);
                                } else {
                                    assert(sorted@.take(i + 1)[i as int] == range);
                                }
                            }
                        }
                    }
                } else {
                    proof {
                        assert forall|n: int| covers_num(merged@, n) <==> covers_num(sorted@.take(i + 1), n) by {
                            if covers_num(sorted@.take(i + 1), n) {
                                let q = choose|q: int| 0 <= q < sorted@.take(i + 1).len() && (#[trigger] sorted@.take(i + 1)[q]).lo() as int <= n <= sorted@.take(i + 1)[q].hi() as int;
                                if q < i {
                                    assert(sorted@.take(i as int)[q] == sorted@.take(i + 1)[q]);
                                    assert(covers_num(sorted@.take(i as int), n));
                                } else {
                                    assert(merged@[last_idx as int] == last);
                                    assert(last.lo() <= range.lo());
                                }
                            }
                            if covers_num(merged@, n) {
                                assert(covers_num(sorted@.take(i as int), n));
                                let q = choose|q: int| 0 <= q < sorted@.take(i as int).len() && (#[trigger] sorted@.take(i as int)[q]).lo() as int <= n <= sorted@.take(i as int)[q].hi() as int;
                                assert(sorted@.take(i + 1)[q] == sorted@.take(i as int)[q]);
                            }
                        }
                    }
                }
            }
            i = i + 1;
        }
        proof {
            assert(sorted@.take(sorted@.len() as int) =~= sorted@);
            assert forall|n: int| covers_num(sorted@, n) <==> covers_num(ranges@, n) by {
                if covers_num(sorted@, n) {
                    let q = choose|q: int| 0 <= q < sorted@.len() && (#[trigger] sorted@[q]).lo() as int <= n <= sorted@[q].hi() as int;
                    assert(sorted@.contains(sorted@[q]));
                    let kk = choose|kk: int| 0 <= kk < ranges@.len() && ranges@[kk] == sorted@[q];
                    assert(ranges@[kk].lo() as int <= n <= ranges@[kk].hi() as int);
                }
                if covers_num(ranges@, n) {
                    let q = choose|q: int| 0 <= q < ranges@.len() && (#[trigger] ranges@[q]).lo() as int <= n <= ranges@[q].hi() as int;
                    assert(ranges@.contains(ranges@[q]));
                    let kk = choose|kk: int| 0 <= kk < sorted@.len() && sorted@[kk] == ranges@[q];
                    assert(sorted@[kk].lo() as int <= n <= sorted@[kk].hi() as int);
                }
            }
        }
        merged
    }

    /// The characters that none of `ranges` contains, as ranges in
    /// increasing order.
    pub fn complement(ranges: &[CharRange]) -> (r: Vec<CharRange>)
        requires
            all_valid(ranges@),
        ensures
            forall|c: char| covers(r@, c) <==> !covers(ranges@, c),
            increasing(r@),
            all_valid(r@),
    {
        let m = Self::merge(ranges);
        proof {
            lemma_same_numbers_same_chars(m@, ranges@);
        }
        let mut result: Vec<CharRange> = Vec::new();
        if m.len() == 0 {
            let everything = CharRange { start: first_char(), end: last_char() };
            result.push(everything);
            proof {
                assert(result@ == Seq::<CharRange>::empty().push(everything));
                assert forall|c: char| covers(result@, c) <==> !covers(ranges@, c) by {
                    lemma_first_char(c, everything.lo());
                    lemma_last_char(c, everything.hi());
                    lemma_covers_push(Seq::empty(), everything, c);
                }
                lemma_first_char(everything.hi(), everything.lo());
                lemma_valid_push(Seq::empty(), everything);
            }
            return result;
        }
        let first = m[0].start;
        let zero = first_char();
        if first > zero {
            let before = match Self::char_before(first) {
                Some(d) => d,
                None => first,
            };
            let gap = CharRange { start: zero, end: before };
            proof {
                lemma_first_char(before, zero);
                lemma_valid_push(result@, gap);
            }
            result.push(gap);
            proof {
                lemma_leading_gap(m@, gap);
            }
        } else {
            proof {
                assert forall|c: char| c < m@[0].lo() implies (covers(result@, c) <==> !covers(m@, c)) by {
                    lemma_first_char(c, zero);
                }
            }
        }
        let mut k: usize = 0;
        while k < m.len() - 1
            invariant
                k < m@.len(),
                normalized(m@),
                forall|c: char| covers(m@, c) <==> covers(ranges@, c),
                complement_below(result@, m@, m@[k as int].lo()),
                all_valid(result@),
            decreases m@.len() - k,
        {
            let r1 = m[k];
            let r2 = m[k + 1];
            proof {
                assert(r1.hi() as int + 1 < r2.lo() as int);
                vstd::utf8::char_is_scalar(r1.hi());
            }
            let after = match Self::char_after(r1.end) {
                Some(d) => d,
                None => r1.end,
            };
            let before = match Self::char_before(r2.start) {
                Some(d) => d,
                None => r2.start,
            };
            let gap = CharRange { start: after, end: before };
            proof {
                lemma_inner_gap(m@, k as int, result@, gap);
            }
            if after <= before {
                proof {
                    lemma_valid_push(result@, gap);
                }
                result.push(gap);
            } else {
                proof {
                    lemma_below_without_empty(result@, gap, m@, m@[k + 1].lo());
                }
            }
            k = k + 1;
        }
        let last = m[m.len() - 1];
        proof {
            vstd::utf8::char_is_scalar(last.hi());
        }
        if last.end < last_char() {
            let after = match Self::char_after(last.end) {
                Some(d) => d,
                None => last.end,
            };
            let top = last_char();
            let gap = CharRange { start: after, end: top };
            proof {
                lemma_trailing_gap(m@, result@, gap);
                lemma_last_char(after, top);
                lemma_valid_push(result@, gap);
            }
            result.push(gap);
        } else {
            proof {
                assert forall|c: char| covers(result@, c) <==> !covers(m@, c) by {
                    lemma_last_char(c, last.hi());
                    if c >= last.lo() {
                        assert(m@[m@.len() - 1].contains_spec(c));
                    }
                }
            }
        }
        result
    }

    /// The next character after `c`, if `c` is not the last one.
    pub fn char_after(c: char) -> (r: Option<char>)
        ensures
            r is None <==> (c as u32) == 0x10FFFF,
            r matches Some(d) ==> consecutive(c, d),
    {
        proof {
            vstd::utf8::char_is_scalar(c);
        }
        if c >= last_char() {
            return None;
        }
        let n = c as u32 + 1;
        if n == 0xD800 {
            char::from_u32(0xE000)
        } else {
            char::from_u32(n)
        }
    }

    /// The character before `c`, if `c` is not the first one.
    pub fn char_before(c: char) -> (r: Option<char>)
        ensures
            r is None <==> (c as u32) == 0,
            r matches Some(d) ==> consecutive(d, c),
    {
        proof {
            vstd::utf8::char_is_scalar(c);
        }
        if c <= first_char() {
            return None;
        }
        let n = c as u32 - 1;
        if n == 0xDFFF {
            char::from_u32(0xD7FF)
        } else {
            char::from_u32(n)
        }
    }
}


/// Whether `s` is a state that a thread of the automaton rests in between two
/// characters: one that reads input, or the accepting one.
pub open spec fn is_resting(s: State) -> bool {
    s is Consuming || s is Match
}

/// Every state that `s` leads to is below `n`.
pub open spec fn targets_below(s: State, n: nat) -> bool {
    match s {
        State::Split(ts) => forall|k: int| 0 <= k < ts@.len() ==> (#[trigger] ts@[k]) < n,
        State::Consuming(_, t) => t < n,
        State::Assert(_, t) => t < n,
        State::Match => true,
    }
}

/// A word character stands just before position `p` of `t`.
pub open spec fn word_before(t: Seq<char>, p: int) -> bool {
    0 < p <= t.len() && word_char(t[p - 1])
}

/// A word character stands at position `p` of `t`.
pub open spec fn word_after(t: Seq<char>, p: int) -> bool {
    0 <= p < t.len() && word_char(t[p])
}

/// Whether the condition `kind` holds at position `p` of `t`.
pub open spec fn assert_holds(kind: AssertKind, t: Seq<char>, p: int) -> bool {
    match kind {
        AssertKind::Start => p == 0,
        AssertKind::End => p == t.len(),
        AssertKind::WordBoundary => word_before(t, p) != word_after(t, p),
        AssertKind::WordStart => !word_before(t, p),
        AssertKind::WordEnd => !word_after(t, p),
    }
}

/// Whether a state reading `rs` accepts the character `c`; without regard
/// to ASCII case when `ci` is set.
pub open spec fn char_ok(rs: Seq<CharRange>, c: char, ci: bool) -> bool {
    covers(rs, c) || (ci && (covers(rs, lower(c)) || covers(rs, upper(c))))
}

/// One move of the automaton with states `st` on the text `t`, from the
/// configuration `a` to `b` (a configuration is a state and a position).
pub open spec fn step(st: Seq<State>, t: Seq<char>, ci: bool, a: (int, int), b: (int, int)) -> bool {
    &&& 0 <= a.0 < st.len()
    &&& 0 <= a.1 <= t.len()
    &&& match st[a.0] {
        State::Split(ts) => b.1 == a.1 && exists|k: int| 0 <= k < ts@.len() && (#[trigger] ts@[k]) == b.0,
        State::Assert(kind, target) => b.1 == a.1 && b.0 == target && assert_holds(kind, t, a.1),
        State::Consuming(rs, target) => a.1 < t.len() && b.1 == a.1 + 1 && b.0 == target && char_ok(rs@, t[a.1], ci),
        State::Match => false,
    }
}

/// The move from the `k`-th configuration of `path` to the next is a move of
/// the automaton.
pub open spec fn run_step(st: Seq<State>, t: Seq<char>, ci: bool, path: Seq<(int, int)>, k: int) -> bool {
    step(st, t, ci, path[k], path[k + 1])
}

/// `path` is a run: a non-empty sequence of configurations, each one move
/// after the one before.
pub open spec fn is_run(st: Seq<State>, t: Seq<char>, ci: bool, path: Seq<(int, int)>) -> bool {
    &&& path.len() >= 1
    &&& forall|k: int| 0 <= k < path.len() - 1 ==> #[trigger] run_step(st, t, ci, path, k)
}

/// `b` is reached from `a` by some run.
pub open spec fn reach(st: Seq<State>, t: Seq<char>, ci: bool, a: (int, int), b: (int, int)) -> bool {
    exists|path: Seq<(int, int)>| #[trigger] is_run(st, t, ci, path) && path[0] == a && path.last() == b
}

pub proof fn lemma_reach_refl(st: Seq<State>, t: Seq<char>, ci: bool, a: (int, int))
    ensures
        reach(st, t, ci, a, a),
{
    let path = seq![a];
    assert(is_run(st, t, ci, path));
}

pub proof fn lemma_reach_step(st: Seq<State>, t: Seq<char>, ci: bool, a: (int, int), b: (int, int), c: (int, int))
    requires
        reach(st, t, ci, a, b),
        step(st, t, ci, b, c),
    ensures
        reach(st, t, ci, a, c),
{
    let path = choose|path: Seq<(int, int)>| #[trigger] is_run(st, t, ci, path) && path[0] == a && path.last() == b;
    let longer = path.push(c);
    assert forall|k: int| 0 <= k < longer.len() - 1 implies #[trigger] run_step(st, t, ci, longer, k) by {
        if k < path.len() - 1 {
            assert(run_step(st, t, ci, path, k));
            assert(longer[k] == path[k]);
            assert(longer[k + 1] == path[k + 1]);
        } else {
            assert(longer[k] == b);
            assert(longer[k + 1] == c);
        }
    }
    assert(is_run(st, t, ci, longer));
    assert(longer[0] == a);
}

/// No configuration of `path` but the last is in state `x`.
pub open spec fn avoids(path: Seq<(int, int)>, x: int) -> bool {
    forall|k: int| 0 <= k < path.len() - 1 ==> (#[trigger] path[k]).0 != x
}

/// Some run from `a` comes to state `x` for the first time at position `e`.
pub open spec fn reach_first(st: Seq<State>, t: Seq<char>, ci: bool, a: (int, int), x: int, e: int) -> bool {
    exists|path: Seq<(int, int)>|
        #[trigger] is_run(st, t, ci, path) && path[0] == a && path.last() == (x, e) && avoids(path, x)
}

/// A run followed by a run that starts where the first ends is a run.
pub proof fn lemma_run_join(st: Seq<State>, t: Seq<char>, ci: bool, p1: Seq<(int, int)>, p2: Seq<(int, int)>)
    requires
        is_run(st, t, ci, p1),
        is_run(st, t, ci, p2),
        p1.last() == p2[0],
    ensures
        is_run(st, t, ci, p1 + p2.drop_first()),
        (p1 + p2.drop_first()).len() == p1.len() + p2.len() - 1,
        (p1 + p2.drop_first())[0] == p1[0],
        (p1 + p2.drop_first()).last() == p2.last(),
        forall|k: int| 0 <= k < p1.len() ==> (p1 + p2.drop_first())[k] == p1[k],
        forall|k: int| 0 <= k < p2.len() ==> (p1 + p2.drop_first())[p1.len() - 1 + k] == p2[k],
{
    let j = p1 + p2.drop_first();
    assert forall|k: int| 0 <= k < j.len() - 1 implies #[trigger] run_step(st, t, ci, j, k) by {
        if k < p1.len() - 1 {
            assert(run_step(st, t, ci, p1, k));
            assert(j[k] == p1[k]);
            assert(j[k + 1] == p1[k + 1]);
        } else {
            let m = k - (p1.len() - 1);
            assert(run_step(st, t, ci, p2, m));
            assert(j[k] == p2[m]);
            assert(j[k + 1] == p2[m + 1]);
        }
    }
    assert forall|k: int| 0 <= k < p2.len() implies j[p1.len() - 1 + k] == p2[k] by {
        if k > 0 {
            assert(j[p1.len() - 1 + k] == p2.drop_first()[k - 1]);
        }
    }
}

/// Along a run, positions never go back, and after the first configuration
/// they never pass the end of the text.
pub proof fn lemma_run_positions(st: Seq<State>, t: Seq<char>, ci: bool, path: Seq<(int, int)>, k: int)
    requires
        is_run(st, t, ci, path),
        0 <= k < path.len(),
    ensures
        path[0].1 <= path[k].1,
        k > 0 ==> path[k].1 <= t.len(),
        k > 0 ==> path[k - 1].1 <= path[k].1 <= path[k - 1].1 + 1,
    decreases k,
{
    if k > 0 {
        assert(run_step(st, t, ci, path, k - 1));
        lemma_run_positions(st, t, ci, path, k - 1);
    }
}

/// Along a run, a later configuration is at a later or the same position.
pub proof fn lemma_run_mono(st: Seq<State>, t: Seq<char>, ci: bool, path: Seq<(int, int)>, i: int, j: int)
    requires
        is_run(st, t, ci, path),
        0 <= i <= j < path.len(),
    ensures
        path[i].1 <= path[j].1,
    decreases j - i,
{
    if i < j {
        lemma_run_mono(st, t, ci, path, i, j - 1);
        lemma_run_positions(st, t, ci, path, j);
    }
}

pub proof fn lemma_reach_positions(st: Seq<State>, t: Seq<char>, ci: bool, a: (int, int), b: (int, int))
    requires
        reach(st, t, ci, a, b),
    ensures
        a.1 <= b.1,
        a != b ==> b.1 <= t.len(),
{
    let path = choose|path: Seq<(int, int)>| #[trigger] is_run(st, t, ci, path) && path[0] == a && path.last() == b;
    lemma_run_positions(st, t, ci, path, path.len() - 1);
}

/// A piece of a run is a run.
pub proof fn lemma_run_subrange(st: Seq<State>, t: Seq<char>, ci: bool, path: Seq<(int, int)>, i: int, j: int)
    requires
        is_run(st, t, ci, path),
        0 <= i < j <= path.len(),
    ensures
        is_run(st, t, ci, path.subrange(i, j)),
{
    let sub = path.subrange(i, j);
    assert forall|k: int| 0 <= k < sub.len() - 1 implies #[trigger] run_step(st, t, ci, sub, k) by {
        assert(run_step(st, t, ci, path, i + k));
        assert(sub[k] == path[i + k]);
        assert(sub[k + 1] == path[i + k + 1]);
    }
}

/// A run that ends one position further than `p`, from a configuration at
/// or before `p`, has a last move that reads the character at `p`: it leaves
/// from a reading state reached at `p`, and the rest stays at `p + 1`.
pub proof fn lemma_last_read(st: Seq<State>, t: Seq<char>, ci: bool, a: (int, int), q: int, p: int)
    requires
        reach(st, t, ci, a, (q, p + 1)),
        a.1 <= p,
    ensures
        exists|q2: int, tg: int|
            #![trigger reach(st, t, ci, a, (q2, p)), reach(st, t, ci, (tg, p + 1), (q, p + 1))]
            reach(st, t, ci, a, (q2, p)) && st[q2] is Consuming && step(st, t, ci, (q2, p), (tg, p + 1))
                && reach(st, t, ci, (tg, p + 1), (q, p + 1)),
{
    let path = choose|path: Seq<(int, int)>| #[trigger] is_run(st, t, ci, path) && path[0] == a && path.last() == (q, p + 1);
    let k = lemma_last_read_index(st, t, ci, path, p, path.len() - 1);
    lemma_run_subrange(st, t, ci, path, 0, k + 1);
    lemma_run_subrange(st, t, ci, path, k + 1, path.len() as int);
    assert(run_step(st, t, ci, path, k));
    let q2 = path[k].0;
    let tg = path[k + 1].0;
    assert(path.subrange(0, k + 1)[0] == a);
    assert(path.subrange(0, k + 1).last() == (q2, p));
    assert(reach(st, t, ci, a, (q2, p)));
    assert(path.subrange(k + 1, path.len() as int)[0] == (tg, p + 1));
    assert(path.subrange(k + 1, path.len() as int).last() == (q, p + 1));
    assert(reach(st, t, ci, (tg, p + 1), (q, p + 1)));
}

/// The index of the move that goes from `p` to `p + 1`, looking back from
/// index `j` of a run that starts at or before `p` and is at `p + 1` there.
proof fn lemma_last_read_index(st: Seq<State>, t: Seq<char>, ci: bool, path: Seq<(int, int)>, p: int, j: int) -> (k: int)
    requires
        is_run(st, t, ci, path),
        0 <= j < path.len(),
        path[0].1 <= p,
        path[j].1 == p + 1,
        forall|m: int| j <= m < path.len() ==> (#[trigger] path[m]).1 == p + 1,
    ensures
        0 <= k < j,
        path[k].1 == p,
        forall|m: int| k < m < path.len() ==> (#[trigger] path[m]).1 == p + 1,
    decreases j,
{
    if j == 0 {
        assert(false);
        0
    } else {
        lemma_run_positions(st, t, ci, path, j);
        if path[j - 1].1 == p {
            j - 1
        } else {
            lemma_last_read_index(st, t, ci, path, p, j - 1)
        }
    }
}

/// The automaton: a table of states, the state runs start in and the
/// accepting state.
#[derive(Debug, Clone, PartialEq, Eq)]
pub struct Nfa {
    start: usize,
    accept: usize,
    states: Vec<State>,
}

impl Nfa {
    pub closed spec fn start_index(&self) -> int {
        self.start as int
    }

    pub closed spec fn accept_index(&self) -> int {
        self.accept as int
    }

    pub closed spec fn table(&self) -> Seq<State> {
        self.states@
    }

    /// Start and accepting states exist, every move leads to a state of the
    /// table, and the accepting state is the only one that accepts.
    pub open spec fn wf(&self) -> bool {
        &&& 0 <= self.start_index() < self.table().len()
        &&& 0 <= self.accept_index() < self.table().len()
        &&& self.table()[self.accept_index()] is Match
        &&& forall|q: int| 0 <= q < self.table().len() ==> targets_below(#[trigger] self.table()[q], self.table().len())
        &&& forall|q: int| 0 <= q < self.table().len() && (#[trigger] self.table()[q]) is Match ==> q == self.accept_index()
    }

    /// The automaton accepts `t` from character position `s` to `e`.
    pub open spec fn matches(&self, t: Seq<char>, ci: bool, s: int, e: int) -> bool {
        0 <= s <= t.len() && reach(self.table(), t, ci, (self.start_index(), s), (self.accept_index(), e))
    }

    pub fn start(&self) -> (r: usize)
        ensures
            r == self.start_index(),
    {
        self.start
    }

    pub fn accept(&self) -> (r: usize)
        ensures
            r == self.accept_index(),
    {
        self.accept
    }

    pub fn state(&self, index: usize) -> (r: &State)
        requires
            index < self.table().len(),
        ensures
            *r == self.table()[index as int],
    {
        &self.states[index]
    }

    pub fn states_count(&self) -> (r: usize)
        ensures
            r == self.table().len(),
    {
        self.states.len()
    }
}

/// A table of states under construction.
#[derive(Debug, Clone, PartialEq, Eq)]
pub struct NfaBuilder {
    states: Vec<State>,
}

impl NfaBuilder {
    pub closed spec fn table(&self) -> Seq<State> {
        self.states@
    }

    pub fn new() -> (r: Self)
        ensures
            r.table() == Seq::<State>::empty(),
    {
        NfaBuilder { states: Vec::new() }
    }

    /// Appends `state` and returns its index.
    pub fn push_state(&mut self, state: State) -> (pos: usize)
        ensures
            pos == old(self).table().len(),
            final(self).table() == old(self).table().push(state),
    {
        let pos = self.states.len();
        self.states.push(state);
        pos
    }

    /// Replaces the state at `pos`.
    pub fn patch_state(&mut self, pos: usize, state: State)
        requires
            pos < old(self).table().len(),
        ensures
            final(self).table() == old(self).table().update(pos as int, state),
    {
        self.states.set(pos, state);
    }

    pub fn build(self, start: usize, accept: usize) -> (r: Nfa)
        ensures
            r.table() == self.table(),
            r.start_index() == start,
            r.accept_index() == accept,
    {
        Nfa { states: self.states, start, accept }
    }
}

} // verus!
