//! Things that find matches in a line: compiled patterns, fixed strings, and
//! several of them at once.
use std::ops::Range;
use vstd::prelude::*;
use crate::regex_engine::ast::Term;
use crate::regex_engine::regex::Regex;
use crate::regex_engine::regex::{earliest_term_match, matches_in};
use crate::text::{
    byte_len, byte_offset, byte_pos, char_index_of_byte, chars_of, is_word_char, lemma_byte_len_concat,
    lemma_byte_pos_mono, lemma_case_folds_agree, lemma_lower_folds_capitals, lower, upper, str_byte_len, string_of, to_lower, word_char,
};

verus! {

/// The byte span `a..b` runs from one character boundary of `t` to a later
/// one.
pub open spec fn is_span(t: Seq<char>, a: int, b: int) -> bool {
    exists|s: int, e: int|
        #![trigger byte_pos(t, s), byte_pos(t, e)]
        0 <= s <= e <= t.len() && a == byte_pos(t, s) && b == byte_pos(t, e)
}

/// A found range as a pair of numbers.
pub open spec fn span_value(r: Option<Range<usize>>) -> Option<(int, int)> {
    match r {
        Some(rg) => Some((rg.start as int, rg.end as int)),
        None => None,
    }
}

/// Where a search goes on after a match from character `s` to `e`: where
/// the match ended, or one character further when it was empty.
pub open spec fn resume(s: int, e: int) -> int {
    if e > s {
        e
    } else {
        e + 1
    }
}

/// The character at which the search for the `i`-th of the spans `cs`
/// starts: the start of the text, then where the span before resumes.
pub open spec fn search_start(cs: Seq<(int, int)>, i: int) -> int {
    if i == 0 {
        0
    } else {
        resume(cs[i - 1].0, cs[i - 1].1)
    }
}

/// `cs` are the character spans found in `t` one after another by a search
/// whose possible results `finds` tells:
/// each search runs on the rest of the text from where the one before
/// resumes and finds the next span; after the last span the search ends,
/// at an empty match at the end of the text, past the end of the text, or
/// where nothing more is found.
pub open spec fn finds_in_turn(finds: spec_fn(Seq<char>, Option<(int, int)>) -> bool, t: Seq<char>, cs: Seq<(int, int)>) -> bool {
    &&& forall|i: int| 0 <= i < cs.len() ==> #[trigger] found_at(finds, t, cs, i)
    &&& {
        let p = search_start(cs, cs.len() as int);
        ||| (cs.len() > 0 && cs.last().0 == cs.last().1 && cs.last().1 == t.len())
        ||| p > t.len()
        ||| finds(t.skip(p), None)
    }
}

/// The `i`-th of the spans `cs` is what the search from where it starts
/// finds in the rest of `t`.
pub open spec fn found_at(finds: spec_fn(Seq<char>, Option<(int, int)>) -> bool, t: Seq<char>, cs: Seq<(int, int)>, i: int) -> bool {
    let p = search_start(cs, i);
    &&& 0 <= p <= cs[i].0 <= cs[i].1 <= t.len()
    &&& finds(t.skip(p), Some((byte_pos(t.skip(p), cs[i].0 - p) as int, byte_pos(t.skip(p), cs[i].1 - p) as int)))
}

/// One more span found keeps what holds of the ones before.
proof fn lemma_found_push(
    finds: spec_fn(Seq<char>, Option<(int, int)>) -> bool,
    t: Seq<char>,
    cs: Seq<(int, int)>,
    c: (int, int),
)
    requires
        forall|i: int| 0 <= i < cs.len() ==> #[trigger] found_at(finds, t, cs, i),
        found_at(finds, t, cs.push(c), cs.len() as int),
    ensures
        forall|i: int| 0 <= i < cs.len() + 1 ==> #[trigger] found_at(finds, t, cs.push(c), i),
{
    assert forall|i: int| 0 <= i < cs.len() + 1 implies #[trigger] found_at(finds, t, cs.push(c), i) by {
        if i < cs.len() {
            assert(found_at(finds, t, cs, i));
            assert(cs.push(c)[i] == cs[i]);
            assert(search_start(cs.push(c), i) == search_start(cs, i));
        }
    }
}

/// `spans` are the byte spans of the matches found in `t` one after
/// another by a search whose possible results `finds` tells.
pub open spec fn spans_found(finds: spec_fn(Seq<char>, Option<(int, int)>) -> bool, t: Seq<char>, spans: Seq<Range<usize>>) -> bool {
    exists|cs: Seq<(int, int)>|
        #[trigger] finds_in_turn(finds, t, cs) && cs.len() == spans.len() && forall|i: int|
            0 <= i < cs.len() ==> (#[trigger] spans[i]).start == byte_pos(t, cs[i].0) && spans[i].end == byte_pos(
                t,
                cs[i].1,
            )
}

/// Something that finds a match in a text.
pub trait Matcher: Send + Sync {
    /// `r` is a result that `find` may give for the text `t` (byte spans).
    spec fn finds(&self, t: Seq<char>, r: Option<(int, int)>) -> bool;

    /// A match in `text`, as a byte range.
    fn find(&self, text: &str) -> (r: Option<Range<usize>>)
        ensures
            self.finds(text@, span_value(r)),
            r matches Some(rg) ==> is_span(text@, rg.start as int, rg.end as int),
    ;

    /// The matches found one after another from the start of `text`: after
    /// each one the search goes on where it ended, or one character further
    /// when it was empty.
        fn find_all(&self, text: &str) -> (r: Vec<Range<usize>>)
        ensures
            spans_found(|u: Seq<char>, x: Option<(int, int)>| self.finds(u, x), text@, r@),
            forall|i: int| 0 <= i < r@.len() ==> is_span(text@, (#[trigger] r@[i]).start as int, r@[i].end as int),
            forall|i: int, j: int| 0 <= i < j < r@.len() ==> (#[trigger] r@[i]).end <= (#[trigger] r@[j]).start,
            forall|i: int, j: int| 0 <= i < j < r@.len() ==> (#[trigger] r@[i]).start < (#[trigger] r@[j]).start,
    {
        let chars = chars_of(text);
        let n = chars.len();
        let _total = str_byte_len(text);
        let mut result: Vec<Range<usize>> = Vec::new();
        let mut offset: usize = 0;
        let ghost mut cs: Seq<(int, int)> = Seq::empty();
        let ghost f = |u: Seq<char>, x: Option<(int, int)>| self.finds(u, x);
        while offset <= n
            invariant_except_break
                offset <= n ==> forall|i: int| 0 <= i < result@.len() ==> (#[trigger] result@[i]).end <= byte_pos(text@, offset as int),
                offset <= n ==> forall|i: int| 0 <= i < result@.len() ==> (#[trigger] result@[i]).start < byte_pos(text@, offset as int),
                offset == search_start(cs, cs.len() as int),
            invariant
                n == chars@.len(),
                chars@ == text@,
                byte_len(text@) <= usize::MAX,
                offset <= n + 1,
                forall|i: int| 0 <= i < result@.len() ==> is_span(text@, (#[trigger] result@[i]).start as int, result@[i].end as int),
                forall|i: int, j: int| 0 <= i < j < result@.len() ==> (#[trigger] result@[i]).end <= (#[trigger] result@[j]).start,
                forall|i: int, j: int| 0 <= i < j < result@.len() ==> (#[trigger] result@[i]).start < (#[trigger] result@[j]).start,
                cs.len() == result@.len(),
                forall|i: int|
                    0 <= i < cs.len() ==> #[trigger] found_at(f, text@, cs, i),
                f == (|u: Seq<char>, x: Option<(int, int)>| self.finds(u, x)),
                forall|i: int|
                    0 <= i < cs.len() ==> (#[trigger] result@[i]).start == byte_pos(text@, cs[i].0) && result@[i].end
                        == byte_pos(text@, cs[i].1),
            ensures
                finds_in_turn(f, text@, cs),
            decreases n + 1 - offset,
        {
            let rest = text.substring_char(offset, n);
            let rest_chars = chars_of(rest);
            proof {
                assert(rest@ =~= text@.skip(offset as int));
            }
            let found = self.find(rest);
            let relative = match found {
                Some(rg) => rg,
                None => {
                    break;
                },
            };
            let found_start = char_index_of_byte(rest_chars.as_slice(), relative.start);
            let found_end = char_index_of_byte(rest_chars.as_slice(), relative.end);
            proof {
                let (a, b) = choose|a: int, b: int|
                    #![trigger byte_pos(rest@, a), byte_pos(rest@, b)]
                    0 <= a <= b <= rest@.len() && relative.start == byte_pos(rest@, a) && relative.end == byte_pos(rest@, b);
                if found_start is Some {
                    crate::text::lemma_byte_pos_injective(rest@, a, found_start->Some_0 as int);
                }
                if found_end is Some {
                    crate::text::lemma_byte_pos_injective(rest@, b, found_end->Some_0 as int);
                }
            }
            let (ks, ke) = match (found_start, found_end) {
                (Some(a), Some(b)) => (a, b),
                _ => {
                    proof {
                        assert(false);
                    }
                    break;
                },
            };
            if ks > ke {
                proof {
                    assert(false);
                }
                break;
            }
            let start_c = offset + ks;
            let end_c = offset + ke;
            let start = byte_offset(chars.as_slice(), start_c, Ghost(byte_len(text@)));
            let end = byte_offset(chars.as_slice(), end_c, Ghost(byte_len(text@)));
            let ghost old_result = result@;
            let ghost old_cs = cs;
            proof {
                lemma_byte_pos_mono(text@, offset as int, start_c as int);
                lemma_byte_pos_mono(text@, start_c as int, end_c as int);
                assert(is_span(text@, start as int, end as int));
            }
            result.push(start..end);
            proof {
                cs = cs.push((start_c as int, end_c as int));
                assert(search_start(cs, old_cs.len() as int) == offset);
                assert(found_at(f, text@, cs, old_cs.len() as int));
                lemma_found_push(f, text@, old_cs, (start_c as int, end_c as int));
                assert forall|i: int| 0 <= i < cs.len() implies (#[trigger] result@[i]).start == byte_pos(text@, cs[i].0)
                    && result@[i].end == byte_pos(text@, cs[i].1) by {
                    if i < old_cs.len() {
                        assert(cs[i] == old_cs[i]);
                        assert(result@[i] == old_result[i]);
                    }
                }
                assert forall|i: int| 0 <= i < result@.len() implies is_span(text@, (#[trigger] result@[i]).start as int, result@[i].end as int) by {
                    if i < old_result.len() {
                        assert(result@[i] == old_result[i]);
                    }
                }
                assert forall|i: int, j: int| 0 <= i < j < result@.len() implies (#[trigger] result@[i]).end <= (#[trigger] result@[j]).start
                    && result@[i].start < result@[j].start by {
                    assert(result@[i] == old_result[i]);
                    if j < old_result.len() {
                        assert(result@[j] == old_result[j]);
                    }
                }
            }
            if end_c == start_c && end_c == n {
                break;
            }
            let next = if end_c > start_c {
                end_c
            } else {
                end_c + 1
            };
            proof {
                lemma_byte_pos_mono(text@, end_c as int, next as int);
                lemma_byte_pos_mono(text@, start_c as int, next as int);
                assert forall|i: int| 0 <= i < result@.len() implies (#[trigger] result@[i]).end <= byte_pos(text@, next as int)
                    && result@[i].start < byte_pos(text@, next as int) by {
                    if i < old_result.len() {
                        assert(result@[i] == old_result[i]);
                    }
                }
            }
            offset = next;
        }
        result
    }
}

/// What a search for `term` gives in `t`: the byte span of the match that
/// ends as early as any and, of those, starts first, or nothing when there is
/// no match.
pub open spec fn pattern_finds(term: Term, ci: bool, t: Seq<char>, r: Option<(int, int)>) -> bool {
    match r {
        None => !matches_in(term, t, ci),
        Some((a, b)) => exists|s: int, e: int|
            #![trigger earliest_term_match(term, t, ci, s, e)]
            earliest_term_match(term, t, ci, s, e) && a == byte_pos(t, s) && b == byte_pos(t, e),
    }
}

/// What `Regex::find` gives: the match that ends as early as any and, of
/// those, starts first, or nothing when there is no match.
pub open spec fn regex_finds(re: &Regex, t: Seq<char>, r: Option<(int, int)>) -> bool {
    pattern_finds(re.pattern(), re.ignores_case(), t, r)
}

/// What a search for the fixed string `pattern` gives in `t`: the first
/// occurrence it accepts, compared without regard to ASCII case when `ci`
/// is set.
pub open spec fn fixed_finds(pattern: Seq<char>, ci: bool, whole_word: bool, t: Seq<char>, r: Option<(int, int)>) -> bool {
    r == literal_result(
        if ci {
            fold_case(t)
        } else {
            t
        },
        if ci {
            fold_case(pattern)
        } else {
            pattern
        },
        whole_word,
    )
}

impl Matcher for Regex {
    open spec fn finds(&self, t: Seq<char>, r: Option<(int, int)>) -> bool {
        regex_finds(self, t, r)
    }

    fn find(&self, text: &str) -> (r: Option<Range<usize>>) {
        match Regex::find(self, text) {
            Some(m) => {
                let start = m.start();
                let end = m.end();
                proof {
                    assert(earliest_term_match(self.pattern(), text@, self.ignores_case(), m.first(), m.last()));
                    assert(regex_finds(self, text@, Some((start as int, end as int))));
                    assert(is_span(text@, start as int, end as int));
                    assert(self.finds(text@, Some((start as int, end as int))));
                }
                let r = start..end;
                assert(r.start == start && r.end == end);
                assert(span_value(Some(r)) == Some((start as int, end as int)));
                Some(r)
            },
            None => None,
        }
    }
}

/// `t` with every ASCII capital letter made small.
pub open spec fn fold_case(t: Seq<char>) -> Seq<char> {
    Seq::new(t.len(), |i: int| lower(t[i]))
}

/// Folding the case of a text leaves no ASCII capital in it, and a text
/// written in capitals folds to the same text as the text itself.
pub proof fn lemma_fold_case_ignores_case(t: Seq<char>)
    ensures
        fold_case(t).len() == t.len(),
        forall|i: int| 0 <= i < t.len() ==> !('A' <= #[trigger] fold_case(t)[i] && fold_case(t)[i] <= 'Z'),
        fold_case(Seq::new(t.len(), |i: int| upper(t[i]))) == fold_case(t),
{
    assert forall|i: int| 0 <= i < t.len() implies !('A' <= #[trigger] fold_case(t)[i] && fold_case(t)[i] <= 'Z') by {
        lemma_lower_folds_capitals(t[i]);
    }
    let u = Seq::new(t.len(), |i: int| upper(t[i]));
    assert forall|i: int| 0 <= i < t.len() implies fold_case(u)[i] == fold_case(t)[i] by {
        lemma_case_folds_agree(t[i]);
    }
    assert(fold_case(u) =~= fold_case(t));
}

/// `p` stands in `t` at character position `k`.
pub open spec fn occurs_at(t: Seq<char>, p: Seq<char>, k: int) -> bool {
    0 <= k && k + p.len() <= t.len() && t.subrange(k, k + p.len()) == p
}

/// The character at index `i` of `t` is a word character.
pub open spec fn word_at(t: Seq<char>, i: int) -> bool {
    0 <= i < t.len() && word_char(t[i])
}

/// An occurrence of `p` at `k` that the whole-word rule lets through: for
/// whole words, no word character stands just before it or just after it.
pub open spec fn literal_accepts(t: Seq<char>, p: Seq<char>, whole_word: bool, k: int) -> bool {
    &&& occurs_at(t, p, k)
    &&& whole_word ==> !((k > 0 && word_at(t, k - 1)) || word_at(t, k + p.len()))
}

/// The byte span of the first accepted occurrence, if any.
pub open spec fn literal_result(t: Seq<char>, p: Seq<char>, whole_word: bool) -> Option<(int, int)> {
    if exists|k: int| #[trigger] literal_accepts(t, p, whole_word, k) {
        let k = choose|k: int|
            #[trigger] literal_accepts(t, p, whole_word, k) && forall|j: int| 0 <= j < k ==> !literal_accepts(t, p, whole_word, j);
        Some((byte_pos(t, k) as int, (byte_pos(t, k) + byte_len(p)) as int))
    } else {
        None
    }
}

/// Finds a fixed string, optionally without regard to ASCII case and only
/// as a whole word.
pub struct LiteralMatcher {
    pattern: String,
    case_insensitive: bool,
    whole_word: bool,
}

/// `s` with ASCII capitals made small.
fn fold_chars(s: &Vec<char>) -> (r: Vec<char>)
    ensures
        r@ == fold_case(s@),
{
    let mut r: Vec<char> = Vec::new();
    let mut i: usize = 0;
    while i < s.len()
        invariant
            i <= s@.len(),
            r@ == fold_case(s@).take(i as int),
        decreases s@.len() - i,
    {
        r.push(to_lower(s[i]));
        i = i + 1;
        assert(r@ =~= fold_case(s@).take(i as int));
    }
    assert(fold_case(s@).take(s@.len() as int) =~= fold_case(s@));
    r
}

proof fn lemma_fold_widths(t: Seq<char>, k: int)
    requires
        0 <= k <= t.len(),
    ensures
        byte_pos(fold_case(t), k) == byte_pos(t, k),
    decreases k,
{
    if k > 0 {
        lemma_fold_widths(t, k - 1);
        crate::text::lemma_byte_pos_step(t, k - 1);
        crate::text::lemma_byte_pos_step(fold_case(t), k - 1);
    }
}

impl LiteralMatcher {
    /// The string searched for (made small if case is ignored).
    pub closed spec fn needle(&self) -> Seq<char> {
        self.pattern@
    }

    pub closed spec fn ignores_case(&self) -> bool {
        self.case_insensitive
    }

    pub closed spec fn words_only(&self) -> bool {
        self.whole_word
    }

    pub fn new(pattern: &str, case_insensitive: bool, whole_word: bool) -> (r: Self)
        ensures
            r.needle() == (if case_insensitive {
                fold_case(pattern@)
            } else {
                pattern@
            }),
            r.ignores_case() == case_insensitive,
            r.words_only() == whole_word,
    {
        let chars = chars_of(pattern);
        let pattern = if case_insensitive {
            let folded = fold_chars(&chars);
            string_of(folded.as_slice())
        } else {
            string_of(chars.as_slice())
        };
        LiteralMatcher { pattern, case_insensitive, whole_word }
    }
}

/// Whether `p` stands in `t` at `k`.
fn occurs(t: &Vec<char>, p: &Vec<char>, k: usize) -> (r: bool)
    requires
        k + p.len() <= t.len(),
    ensures
        r == occurs_at(t@, p@, k as int),
{
    let mut i: usize = 0;
    while i < p.len()
        invariant
            k + p.len() <= t.len(),
            i <= p@.len(),
            forall|j: int| 0 <= j < i ==> t@[k + j] == p@[j],
        decreases p@.len() - i,
    {
        if t[k + i] != p[i] {
            proof {
                assert(t@.subrange(k as int, k + p@.len())[i as int] != p@[i as int]);
            }
            return false;
        }
        i = i + 1;
    }
    assert(t@.subrange(k as int, k + p@.len()) =~= p@);
    true
}

fn word_char_at(t: &Vec<char>, i: usize) -> (r: bool)
    ensures
        r == word_at(t@, i as int),
{
    i < t.len() && is_word_char(t[i])
}

impl Matcher for LiteralMatcher {
    open spec fn finds(&self, t: Seq<char>, r: Option<(int, int)>) -> bool {
        r == literal_result(
            if self.ignores_case() {
                fold_case(t)
            } else {
                t
            },
            self.needle(),
            self.words_only(),
        )
    }

    fn find(&self, text: &str) -> (r: Option<Range<usize>>) {
        let raw = chars_of(text);
        let t = if self.case_insensitive {
            fold_chars(&raw)
        } else {
            raw
        };
        let p = chars_of(self.pattern.as_str());
        let ghost tt = t@;
        let _total = str_byte_len(text);
        proof {
            assert(tt == if self.ignores_case() { fold_case(text@) } else { text@ });
            assert(p@ == self.needle());
            assert forall|k: int| 0 <= k <= text@.len() implies byte_pos(tt, k) == byte_pos(text@, k) by {
                if self.case_insensitive {
                    lemma_fold_widths(text@, k);
                }
            }
            assert(byte_len(tt) == byte_pos(tt, tt.len() as int)) by {
                assert(tt.take(tt.len() as int) =~= tt);
            }
            assert(byte_len(text@) == byte_pos(text@, text@.len() as int)) by {
                assert(text@.take(text@.len() as int) =~= text@);
            }
        }
        let plen = str_byte_len(self.pattern.as_str());
        if p.len() > t.len() {
            proof {
                assert forall|k: int| !(#[trigger] literal_accepts(tt, p@, self.whole_word, k)) by {}
                assert(literal_result(tt, p@, self.whole_word) == None::<(int, int)>);
                assert(self.finds(text@, None));
            }
            return None;
        }
        let last = t.len() - p.len();
        let mut k: usize = 0;
        let mut bk: usize = 0;
        loop
            invariant
                tt == t@,
                tt == if self.ignores_case() { fold_case(text@) } else { text@ },
                p@ == self.pattern@,
                plen == byte_len(p@),
                last + p@.len() == t@.len(),
                byte_len(tt) <= usize::MAX,
                forall|q: int| 0 <= q <= text@.len() ==> byte_pos(tt, q) == byte_pos(text@, q),
                tt.len() == text@.len(),
                k <= last,
                bk == byte_pos(tt, k as int),
                forall|j: int| 0 <= j < k ==> !(#[trigger] literal_accepts(tt, p@, self.whole_word, j)),
            ensures
                forall|j: int| 0 <= j <= last ==> !(#[trigger] literal_accepts(tt, p@, self.whole_word, j)),
            decreases last - k,
        {
            if occurs(&t, &p, k) {
                proof {
                    assert(tt.take(k + p@.len()) =~= tt.take(k as int) + p@);
                    lemma_byte_len_concat(tt.take(k as int), p@);
                    lemma_byte_pos_mono(tt, (k + p@.len()) as int, tt.len() as int);
                    assert(tt.take(tt.len() as int) =~= tt);
                }
                let end = bk + plen;
                let after = k + (t.len() - last);
                let rejected = self.whole_word && ((k > 0 && word_char_at(&t, k - 1)) || word_char_at(&t, after));
                if !rejected {
                    proof {
                        assert(literal_accepts(tt, p@, self.whole_word, k as int));
                        let k0 = choose|k0: int|
                            #[trigger] literal_accepts(tt, p@, self.whole_word, k0) && forall|j: int|
                                0 <= j < k0 ==> !literal_accepts(tt, p@, self.whole_word, j);
                        assert(k0 == k) by {
                            if k0 < k {
                            } else if k0 > k {
                                assert(!literal_accepts(tt, p@, self.whole_word, k as int));
                            }
                        }
                        assert(is_span(text@, bk as int, end as int)) by {
                            assert(byte_pos(text@, k as int) == bk);
                            assert(byte_pos(text@, k + p@.len()) == end);
                        }
                        assert(literal_result(tt, p@, self.whole_word) == Some((bk as int, end as int)));
                        assert(self.words_only() == self.whole_word);
                        assert(tt == if self.ignores_case() { fold_case(text@) } else { text@ });
                        assert(p@ == self.needle());
                        assert(self.finds(text@, Some((bk as int, end as int))));
                    }
                    let r = bk..end;
                    assert(span_value(Some(r)) == Some((bk as int, end as int)));
                    return Some(r);
                }
            }
            if k == last {
                break;
            }
            proof {
                crate::text::lemma_byte_pos_step(tt, k as int);
                lemma_byte_pos_mono(tt, (k + 1) as int, tt.len() as int);
                assert(tt.take(tt.len() as int) =~= tt);
            }
            bk = bk + crate::text::char_width(t[k]);
            k = k + 1;
        }
        proof {
            assert forall|k2: int| !(#[trigger] literal_accepts(tt, p@, self.whole_word, k2)) by {
                if 0 <= k2 <= last {
                }
            }
            assert(literal_result(tt, p@, self.whole_word) == None::<(int, int)>);
            assert(self.finds(text@, None));
        }
        None
    }
}

/// The first of the results with the smallest start.
pub open spec fn leftmost(rs: Seq<Option<(int, int)>>) -> Option<(int, int)>
    decreases rs.len(),
{
    if rs.len() == 0 {
        None
    } else {
        let best = leftmost(rs.drop_last());
        match rs.last() {
            None => best,
            Some(x) => match best {
                None => Some(x),
                Some(y) => if x.0 < y.0 {
                    Some(x)
                } else {
                    Some(y)
                },
            },
        }
    }
}

/// Several matchers at once: the match that starts first wins.
pub struct MultiMatcher {
    matchers: Vec<Box<dyn Matcher>>,
}

impl MultiMatcher {
    pub closed spec fn parts(&self) -> Seq<Box<dyn Matcher>> {
        self.matchers@
    }

    pub fn new(matchers: Vec<Box<dyn Matcher>>) -> (r: Self)
        ensures
            r.parts() == matchers@,
    {
        MultiMatcher { matchers }
    }
}

impl Matcher for MultiMatcher {
    /// `r` is the leftmost of results that the parts may give.
    open spec fn finds(&self, t: Seq<char>, r: Option<(int, int)>) -> bool {
        exists|rs: Seq<Option<(int, int)>>|
            #[trigger] leftmost(rs) == r && rs.len() == self.parts().len() && forall|i: int|
                0 <= i < rs.len() ==> self.parts()[i].finds(t, #[trigger] rs[i])
    }

    fn find(&self, text: &str) -> (r: Option<Range<usize>>) {
        let mut best: Option<Range<usize>> = None;
        let ghost mut rs: Seq<Option<(int, int)>> = Seq::empty();
        let mut i: usize = 0;
        while i < self.matchers.len()
            invariant
                i <= self.matchers@.len(),
                rs.len() == i,
                forall|j: int| 0 <= j < i ==> self.matchers@[j].finds(text@, #[trigger] rs[j]),
                forall|j: int| 0 <= j < i ==> ((#[trigger] rs[j]) matches Some(x) ==> is_span(text@, x.0, x.1)),
                span_value(best) == leftmost(rs),
                best matches Some(rg) ==> is_span(text@, rg.start as int, rg.end as int),
            decreases self.matchers@.len() - i,
        {
            let found = self.matchers[i].find(text);
            let ghost old_rs = rs;
            proof {
                rs = rs.push(span_value(found));
                assert(rs.drop_last() =~= old_rs);
            }
            match found {
                Some(rg) => {
                    let replace = match &best {
                        Some(b) => rg.start < b.start,
                        None => true,
                    };
                    if replace {
                        best = Some(rg);
                    }
                },
                None => {},
            }
            proof {
                assert forall|j: int| 0 <= j < i + 1 implies self.matchers@[j].finds(text@, #[trigger] rs[j]) by {
                    if j < i {
                        assert(rs[j] == old_rs[j]);
                    }
                }
                assert forall|j: int| 0 <= j < i + 1 implies ((#[trigger] rs[j]) matches Some(x) ==> is_span(text@, x.0, x.1)) by {
                    if j < i {
                        assert(rs[j] == old_rs[j]);
                    }
                }
            }
            i = i + 1;
        }
        proof {
            assert(leftmost(rs) == span_value(best) && rs.len() == self.parts().len() && forall|j: int|
                0 <= j < rs.len() ==> self.parts()[j].finds(text@, #[trigger] rs[j]));
            assert(self.finds(text@, span_value(best)));
        }
        best
    }
}

} // verus!
