//! `.gitignore` rules: parsing, matching paths against them, and the rules
//! of nested directories taken together.
use vstd::prelude::*;
use crate::search::searcher::{lines_of, split_lines};
use crate::text::chars_of;

verus! {

/// One rule of a `.gitignore` file.
#[derive(Clone)]
pub struct Pattern {
    negative: bool,
    anchored: bool,
    dir_only: bool,
    glob: String,
}

/// A rule as plain values: negated, anchored, for directories only, glob.
pub type Rule = (bool, bool, bool, Seq<char>);

pub closed spec fn rule_of(p: Pattern) -> Rule {
    (p.negative, p.anchored, p.dir_only, p.glob@)
}

/// A line as `str::lines` gives it: without its line break (`\n` or
/// `\r\n`).
pub open spec fn line_body(l: Seq<char>) -> Seq<char> {
    if l.len() > 0 && l.last() == '\n' {
        let l2 = l.drop_last();
        if l2.len() > 0 && l2.last() == '\r' {
            l2.drop_last()
        } else {
            l2
        }
    } else {
        l
    }
}

/// `s` without all the copies of `c` at its start.
pub open spec fn strip_start(s: Seq<char>, c: char) -> Seq<char>
    decreases s.len(),
{
    if s.len() > 0 && s[0] == c {
        strip_start(s.drop_first(), c)
    } else {
        s
    }
}

/// `s` without all the copies of `c` at its end.
pub open spec fn strip_end(s: Seq<char>, c: char) -> Seq<char>
    decreases s.len(),
{
    if s.len() > 0 && s.last() == c {
        strip_end(s.drop_last(), c)
    } else {
        s
    }
}

/// The rule a line of a `.gitignore` file states, if any: blank lines and
/// comments state none.
pub open spec fn rule_of_line(line: Seq<char>) -> Option<Rule> {
    if line.len() == 0 || line[0] == '#' {
        None
    } else {
        let negative = line[0] == '!';
        let l1 = if negative {
            strip_start(line, '!')
        } else {
            line
        };
        let dir_only = l1.len() > 0 && l1.last() == '/';
        let l2 = if dir_only {
            strip_end(l1, '/')
        } else {
            l1
        };
        let leading = l2.len() > 0 && l2[0] == '/';
        let l3 = if leading {
            strip_start(l2, '/')
        } else {
            l2
        };
        Some((negative, leading || l2.contains('/'), dir_only, l3))
    }
}

/// The rules stated by the first `n` lines.
pub open spec fn rules_of_lines(lines: Seq<Seq<char>>, n: nat) -> Seq<Rule>
    decreases n,
{
    if n == 0 || n > lines.len() {
        Seq::empty()
    } else {
        let before = rules_of_lines(lines, (n - 1) as nat);
        match rule_of_line(line_body(lines[n - 1])) {
            Some(r) => before.push(r),
            None => before,
        }
    }
}

/// The rules of a `.gitignore` file with the given contents.
pub open spec fn rules_of(contents: Seq<char>) -> Seq<Rule> {
    rules_of_lines(lines_of(contents), lines_of(contents).len())
}

/// Whether `glob` matches all of `text`: `*` stands for any run of
/// characters but `/`, `?` for one character but `/`, anything else for
/// itself.
pub open spec fn glob_matches(glob: Seq<u8>, text: Seq<u8>) -> bool
    decreases glob.len(), text.len(),
{
    if glob.len() == 0 {
        text.len() == 0
    } else if glob[0] == 42u8 {
        glob_matches(glob.drop_first(), text) || (text.len() > 0 && text[0] != 47u8 && glob_matches(glob, text.drop_first()))
    } else if glob[0] == 63u8 {
        text.len() > 0 && text[0] != 47u8 && glob_matches(glob.drop_first(), text.drop_first())
    } else {
        text.len() > 0 && text[0] == glob[0] && glob_matches(glob.drop_first(), text.drop_first())
    }
}

/// No character of `t` before index `k` is `/`.
pub open spec fn no_slash_before(t: Seq<u8>, k: int) -> bool {
    forall|i: int| 0 <= i < k ==> #[trigger] t[i] != 47u8
}

/// A `*` at the front of a glob matches a text exactly when some run at the
/// front of the text, empty or not and holding no `/`, can be skipped and
/// the rest of the glob matches what is left.
pub proof fn lemma_star_skips_a_run(g: Seq<u8>, t: Seq<u8>)
    ensures
        glob_matches(seq![42u8] + g, t) <==> exists|k: int|
            0 <= k <= t.len() && no_slash_before(t, k) && #[trigger] glob_matches(g, t.skip(k)),
    decreases t.len(),
{
    let sg = seq![42u8] + g;
    assert(sg.drop_first() =~= g);
    assert(sg[0] == 42u8);
    assert(t.skip(0) =~= t);
    if glob_matches(g, t) {
        assert(no_slash_before(t, 0));
        assert(glob_matches(g, t.skip(0)));
    }
    if t.len() > 0 {
        let t1 = t.drop_first();
        lemma_star_skips_a_run(g, t1);
        if glob_matches(sg, t) {
            if !glob_matches(g, t) {
                let k1 = choose|k1: int| 0 <= k1 <= t1.len() && no_slash_before(t1, k1) && #[trigger] glob_matches(g, t1.skip(k1));
                assert(t1.skip(k1) =~= t.skip(k1 + 1));
                assert forall|i: int| 0 <= i < k1 + 1 implies #[trigger] t[i] != 47u8 by {
                    if i > 0 {
                        assert(t[i] == t1[i - 1]);
                    }
                }
                assert(glob_matches(g, t.skip(k1 + 1)));
            }
        }
        if exists|k: int| 0 <= k <= t.len() && no_slash_before(t, k) && #[trigger] glob_matches(g, t.skip(k)) {
            let k = choose|k: int| 0 <= k <= t.len() && no_slash_before(t, k) && #[trigger] glob_matches(g, t.skip(k));
            if k > 0 {
                assert(t1.skip(k - 1) =~= t.skip(k));
                assert forall|i: int| 0 <= i < k - 1 implies #[trigger] t1[i] != 47u8 by {
                    assert(t1[i] == t[i + 1]);
                }
                assert(glob_matches(g, t1.skip(k - 1)));
                assert(t[0] != 47u8);
            }
        }
    } else {
        if exists|k: int| 0 <= k <= t.len() && no_slash_before(t, k) && #[trigger] glob_matches(g, t.skip(k)) {
            let k = choose|k: int| 0 <= k <= t.len() && no_slash_before(t, k) && #[trigger] glob_matches(g, t.skip(k));
            assert(k == 0);
        }
    }
}

/// A `*` may stand for nothing: whatever a glob matches, the glob with a
/// `*` in front matches too.
pub proof fn lemma_star_matches_empty_run(g: Seq<u8>, t: Seq<u8>)
    requires
        glob_matches(g, t),
    ensures
        glob_matches(seq![42u8] + g, t),
{
    assert(t.skip(0) =~= t);
    lemma_star_skips_a_run(g, t);
}

/// A `?` at the front of a glob stands for exactly one character, not `/`.
pub proof fn lemma_question_reads_one(g: Seq<u8>, t: Seq<u8>)
    ensures
        glob_matches(seq![63u8] + g, t) <==> (t.len() > 0 && t[0] != 47u8 && glob_matches(g, t.drop_first())),
{
    assert((seq![63u8] + g).drop_first() =~= g);
    assert((seq![63u8] + g)[0] == 63u8);
}

/// A glob with neither `*` nor `?` matches exactly the text spelled like it.
pub proof fn lemma_plain_glob_matches_itself(g: Seq<u8>, t: Seq<u8>)
    requires
        forall|i: int| 0 <= i < g.len() ==> #[trigger] g[i] != 42u8 && g[i] != 63u8,
    ensures
        glob_matches(g, t) <==> t == g,
    decreases g.len(),
{
    if g.len() > 0 {
        assert forall|i: int| 0 <= i < g.drop_first().len() implies #[trigger] g.drop_first()[i] != 42u8 && g.drop_first()[i]
            != 63u8 by {
            assert(g.drop_first()[i] == g[i + 1]);
        }
        if t.len() > 0 {
            lemma_plain_glob_matches_itself(g.drop_first(), t.drop_first());
            if t[0] == g[0] && t.drop_first() == g.drop_first() {
                assert forall|i: int| 0 <= i < t.len() implies t[i] == g[i] by {
                    if i > 0 {
                        assert(t[i] == t.drop_first()[i - 1]);
                        assert(g[i] == g.drop_first()[i - 1]);
                    }
                }
                assert(t =~= g);
            }
        }
        if t == g {
            assert(t.drop_first() =~= g.drop_first());
        }
    } else {
        if t.len() == 0 {
            assert(t =~= g);
        }
    }
}

/// Whether the pattern `glob[gi..]` matches all of `text[ti..]`.
fn glob_match_from(glob: &[u8], gi: usize, text: &[u8], ti: usize) -> (r: bool)
    requires
        gi <= glob@.len(),
        ti <= text@.len(),
    ensures
        r == glob_matches(glob@.skip(gi as int), text@.skip(ti as int)),
    decreases glob@.len() - gi, text@.len() - ti,
{
    let ghost g = glob@.skip(gi as int);
    let ghost t = text@.skip(ti as int);
    proof {
        if gi < glob@.len() {
            assert(g.drop_first() =~= glob@.skip(gi + 1));
        }
        if ti < text@.len() {
            assert(t.drop_first() =~= text@.skip(ti + 1));
        }
    }
    if gi == glob.len() {
        return ti == text.len();
    }
    let c = glob[gi];
    if c == 42u8 {
        if glob_match_from(glob, gi + 1, text, ti) {
            return true;
        }
        ti < text.len() && text[ti] != 47u8 && glob_match_from(glob, gi, text, ti + 1)
    } else if c == 63u8 {
        ti < text.len() && text[ti] != 47u8 && glob_match_from(glob, gi + 1, text, ti + 1)
    } else {
        ti < text.len() && text[ti] == c && glob_match_from(glob, gi + 1, text, ti + 1)
    }
}

/// Whether `glob` matches all of `text`, byte by byte.
pub fn glob_match(glob: &[u8], text: &[u8]) -> (r: bool)
    ensures
        r == glob_matches(glob@, text@),
{
    proof {
        assert(glob@.skip(0) =~= glob@);
        assert(text@.skip(0) =~= text@);
    }
    glob_match_from(glob, 0, text, 0)
}

/// The last component of a relative path, as `Path::file_name` gives it:
/// empty segments and `.` segments do not count, and a last component `..`
/// gives nothing.
pub open spec fn last_segment_start(p: Seq<char>, end: int) -> int
    decreases end,
{
    if end <= 0 {
        0
    } else if p[end - 1] == '/' {
        end
    } else {
        last_segment_start(p, end - 1)
    }
}

pub open spec fn file_name_in(p: Seq<char>, end: int) -> Seq<char>
    decreases end,
{
    if end <= 0 {
        Seq::empty()
    } else {
        let s = last_segment_start(p, end);
        let seg = p.subrange(s, end);
        if seg.len() == 0 || seg == seq!['.'] {
            if s > 0 && s <= end {
                file_name_in(p, s - 1)
            } else {
                Seq::empty()
            }
        } else if seg == seq!['.', '.'] {
            Seq::empty()
        } else {
            seg
        }
    }
}

pub open spec fn file_name(p: Seq<char>) -> Seq<char> {
    file_name_in(p, p.len() as int)
}

/// The bytes of the UTF-8 encoding of `s`.
pub open spec fn utf8(s: Seq<char>) -> Seq<u8> {
    vstd::utf8::encode_utf8(s)
}

/// Whether a rule matches `path` (relative to the directory of its file):
/// the whole path when anchored, else its last component.
pub open spec fn rule_matches(r: Rule, path: Seq<char>) -> bool {
    if r.1 {
        glob_matches(utf8(r.3), utf8(path))
    } else {
        glob_matches(utf8(r.3), utf8(file_name(path)))
    }
}

/// What the first `n` rules say of `path`: the verdict of the last one that
/// applies (ignored unless negated), if any does.
pub open spec fn verdict_of(rules: Seq<Rule>, path: Seq<char>, is_dir: bool, n: nat) -> Option<bool>
    decreases n,
{
    if n == 0 || n > rules.len() {
        None
    } else {
        let r = rules[n - 1];
        if !(r.2 && !is_dir) && rule_matches(r, path) {
            Some(!r.0)
        } else {
            verdict_of(rules, path, is_dir, (n - 1) as nat)
        }
    }
}

/// The last component of a path, as `file_name` defines it.
pub fn last_component_of(p: &Vec<char>) -> (r: Vec<char>)
    ensures
        r@ == file_name(p@),
{
    last_component(p)
}

fn last_component(p: &Vec<char>) -> (r: Vec<char>)
    ensures
        r@ == file_name(p@),
{
    let mut end = p.len();
    loop
        invariant
            end <= p@.len(),
            file_name(p@) == file_name_in(p@, end as int),
        decreases end,
    {
        if end == 0 {
            return Vec::new();
        }
        let mut s = end;
        while s > 0 && p[s - 1] != '/'
            invariant
                s <= end <= p@.len(),
                last_segment_start(p@, end as int) == last_segment_start(p@, s as int),
                forall|k: int| s <= k < end ==> p@[k] != '/',
            decreases s,
        {
            s = s - 1;
        }
        let mut seg: Vec<char> = Vec::new();
        let mut k = s;
        while k < end
            invariant
                s <= k <= end <= p@.len(),
                seg@ == p@.subrange(s as int, k as int),
            decreases end - k,
        {
            seg.push(p[k]);
            k = k + 1;
            assert(seg@ =~= p@.subrange(s as int, k as int));
        }
        let is_dot = seg.len() == 1 && seg[0] == '.';
        let is_dots = seg.len() == 2 && seg[0] == '.' && seg[1] == '.';
        proof {
            assert(is_dot == (seg@ == seq!['.'])) by {
                if seg@ == seq!['.'] {
                    assert(seg@[0] == '.');
                }
                if is_dot {
                    assert(seg@ =~= seq!['.']);
                }
            }
            assert(is_dots == (seg@ == seq!['.', '.'])) by {
                if seg@ == seq!['.', '.'] {
                    assert(seg@[1] == '.');
                }
                if is_dots {
                    assert(seg@ =~= seq!['.', '.']);
                }
            }
            assert(s <= end);
        }
        if seg.len() == 0 || is_dot {
            if s > 0 {
                end = s - 1;
            } else {
                return Vec::new();
            }
        } else if is_dots {
            return Vec::new();
        } else {
            return seg;
        }
    }
}

impl Pattern {
    /// Whether this rule matches `path`.
    fn matches(&self, path: &str) -> (r: bool)
        ensures
            r == rule_matches(rule_of(*self), path@),
    {
        if self.anchored {
            glob_match(self.glob.as_str().as_bytes(), path.as_bytes())
        } else {
            let p = chars_of(path);
            let name = last_component(&p);
            let name_text = crate::text::string_of(name.as_slice());
            glob_match(self.glob.as_str().as_bytes(), name_text.as_str().as_bytes())
        }
    }
}

/// The rule a line states, if any.
fn parse_line(line: &Vec<char>) -> (r: Option<Pattern>)
    ensures
        match rule_of_line(line@) {
            Some(rule) => r matches Some(p) && rule_of(p) == rule,
            None => r is None,
        },
{
    if line.len() == 0 || line[0] == '#' {
        return None;
    }
    let negative = line[0] == '!';
    let mut lo: usize = 0;
    proof {
        assert(line@.subrange(0, line@.len() as int) =~= line@);
    }
    if negative {
        while lo < line.len() && line[lo] == '!'
            invariant
                lo <= line@.len(),
                strip_start(line@, '!') == strip_start(line@.subrange(lo as int, line@.len() as int), '!'),
            decreases line@.len() - lo,
        {
            proof {
                assert(line@.subrange(lo as int, line@.len() as int).drop_first() =~= line@.subrange(
                    lo + 1,
                    line@.len() as int,
                ));
            }
            lo = lo + 1;
        }
    }
    let ghost l1 = line@.subrange(lo as int, line@.len() as int);
    proof {
        assert(line@.subrange(0, line@.len() as int) =~= line@);
        assert(l1 == (if negative {
            strip_start(line@, '!')
        } else {
            line@
        }));
    }
    let mut hi: usize = line.len();
    let dir_only = hi > lo && line[hi - 1] == '/';
    if dir_only {
        while hi > lo && line[hi - 1] == '/'
            invariant
                lo <= hi <= line@.len(),
                strip_end(l1, '/') == strip_end(line@.subrange(lo as int, hi as int), '/'),
            decreases hi,
        {
            proof {
                assert(line@.subrange(lo as int, hi as int).drop_last() =~= line@.subrange(lo as int, hi - 1));
            }
            hi = hi - 1;
        }
    }
    let ghost l2 = line@.subrange(lo as int, hi as int);
    proof {
        assert(l2 == (if dir_only {
            strip_end(l1, '/')
        } else {
            l1
        }));
    }
    let leading = hi > lo && line[lo] == '/';
    let mut has_slash = false;
    let mut k = lo;
    while k < hi
        invariant
            lo <= k <= hi <= line@.len(),
            has_slash == exists|m: int| lo <= m < k && line@[m] == '/',
        decreases hi - k,
    {
        if line[k] == '/' {
            has_slash = true;
        }
        k = k + 1;
    }
    proof {
        assert(has_slash == l2.contains('/')) by {
            if has_slash {
                let m = choose|m: int| lo <= m < hi && line@[m] == '/';
                assert(l2[m - lo] == '/');
            }
            if l2.contains('/') {
                let m = choose|m: int| 0 <= m < l2.len() && l2[m] == '/';
                assert(line@[lo + m] == '/');
            }
        }
    }
    let mut start = lo;
    if leading {
        while start < hi && line[start] == '/'
            invariant
                lo <= start <= hi <= line@.len(),
                strip_start(l2, '/') == strip_start(line@.subrange(start as int, hi as int), '/'),
            decreases hi - start,
        {
            proof {
                assert(line@.subrange(start as int, hi as int).drop_first() =~= line@.subrange(start + 1, hi as int));
            }
            start = start + 1;
        }
    }
    let mut glob = String::new();
    let mut m = start;
    while m < hi
        invariant
            start <= m <= hi <= line@.len(),
            glob@ == line@.subrange(start as int, m as int),
        decreases hi - m,
    {
        glob.push(line[m]);
        m = m + 1;
        assert(glob@ =~= line@.subrange(start as int, m as int));
    }
    proof {
        assert(glob@ == (if leading {
            strip_start(l2, '/')
        } else {
            l2
        }));
    }
    Some(Pattern { negative, anchored: leading || has_slash, dir_only, glob })
}

/// The rules of one `.gitignore` file.
#[derive(Clone)]
pub struct Gitignore {
    patterns: Vec<Pattern>,
}

impl Gitignore {
    pub closed spec fn rules(&self) -> Seq<Rule> {
        Seq::new(self.patterns@.len(), |i: int| rule_of(self.patterns@[i]))
    }

    /// No rules at all.
    pub fn empty() -> (r: Self)
        ensures
            r.rules() == Seq::<Rule>::empty(),
    {
        let r = Gitignore { patterns: Vec::new() };
        assert(r.rules() =~= Seq::<Rule>::empty());
        r
    }

    /// The rules stated by the lines of `contents`.
    pub fn parse(contents: &str) -> (r: Self)
        ensures
            r.rules() == rules_of(contents@),
    {
        let lines = split_lines(contents);
        let mut patterns: Vec<Pattern> = Vec::new();
        let mut k: usize = 0;
        while k < lines.len()
            invariant
                k <= lines@.len(),
                lines@.len() == lines_of(contents@).len(),
                forall|i: int| 0 <= i < lines@.len() ==> (#[trigger] lines@[i])@ == lines_of(contents@)[i],
                Seq::new(patterns@.len(), |i: int| rule_of(patterns@[i])) == rules_of_lines(lines_of(contents@), k as nat),
            decreases lines@.len() - k,
        {
            let raw = chars_of(lines[k].as_str());
            let body = strip_line_break(&raw);
            let ghost before = patterns@;
            match parse_line(&body) {
                Some(p) => {
                    patterns.push(p);
                    proof {
                        assert(Seq::new(patterns@.len(), |i: int| rule_of(patterns@[i])) =~= Seq::new(
                            before.len(),
                            |i: int| rule_of(before[i]),
                        ).push(rule_of(p)));
                    }
                },
                None => {},
            }
            k = k + 1;
        }
        let r = Gitignore { patterns };
        r
    }

    /// Number of rules.
    pub fn pattern_count(&self) -> (r: usize)
        ensures
            r == self.rules().len(),
    {
        self.patterns.len()
    }

    /// The glob of the rule at `index`.
    pub fn pattern_glob(&self, index: usize) -> (r: &str)
        requires
            index < self.rules().len(),
        ensures
            r@ == self.rules()[index as int].3,
    {
        self.patterns[index].glob.as_str()
    }

    /// What the rules say of `relative_path`: `Some(true)` if the last rule
    /// that applies ignores it, `Some(false)` if it is negated, `None` if no
    /// rule applies.
    pub fn verdict(&self, relative_path: &str, is_dir: bool) -> (r: Option<bool>)
        ensures
            r == verdict_of(self.rules(), relative_path@, is_dir, self.rules().len()),
    {
        let mut ignored: Option<bool> = None;
        let mut k: usize = 0;
        while k < self.patterns.len()
            invariant
                k <= self.patterns@.len(),
                self.rules().len() == self.patterns@.len(),
                forall|j: int| 0 <= j < self.patterns@.len() ==> self.rules()[j] == rule_of(#[trigger] self.patterns@[j]),
                ignored == verdict_of(self.rules(), relative_path@, is_dir, k as nat),
            decreases self.patterns@.len() - k,
        {
            let pattern = &self.patterns[k];
            if pattern.dir_only && !is_dir {
            } else if pattern.matches(relative_path) {
                ignored = Some(!pattern.negative);
            }
            k = k + 1;
        }
        ignored
    }

    /// Whether the rules ignore `relative_path`.
    pub fn is_ignored(&self, relative_path: &str, is_dir: bool) -> (r: bool)
        ensures
            r == (verdict_of(self.rules(), relative_path@, is_dir, self.rules().len()) == Some(true)),
    {
        match self.verdict(relative_path, is_dir) {
            Some(v) => v,
            None => false,
        }
    }
}

/// A line without its line break.
fn strip_line_break(l: &Vec<char>) -> (r: Vec<char>)
    ensures
        r@ == line_body(l@),
{
    let mut n = l.len();
    if n > 0 && l[n - 1] == '\n' {
        n = n - 1;
        if n > 0 && l[n - 1] == '\r' {
            n = n - 1;
        }
    }
    let mut r: Vec<char> = Vec::new();
    let mut k: usize = 0;
    while k < n
        invariant
            k <= n <= l@.len(),
            r@ == l@.take(k as int),
        decreases n - k,
    {
        r.push(l[k]);
        k = k + 1;
        assert(r@ =~= l@.take(k as int));
    }
    proof {
        if l@.len() > 0 && l@.last() == '\n' {
            assert(l@.drop_last() =~= l@.take(l@.len() - 1));
            if l@.len() > 1 && l@[l@.len() - 2] == '\r' {
                assert(l@.drop_last().drop_last() =~= l@.take(l@.len() - 2));
            }
        } else {
            assert(l@.take(l@.len() as int) =~= l@);
        }
    }
    r
}


/// The directories whose `.gitignore` files bear on `p`, outermost first:
/// the root (empty), then each directory on the way down to the one holding
/// `p`.
pub open spec fn levels(p: Seq<char>) -> Seq<Seq<char>> {
    if p.len() == 0 {
        Seq::empty()
    } else {
        seq![Seq::<char>::empty()] + levels_from(p, 1)
    }
}

pub open spec fn levels_from(p: Seq<char>, k: int) -> Seq<Seq<char>>
    decreases p.len() - k,
{
    if k < 1 || k >= p.len() - 1 {
        Seq::empty()
    } else if p[k] == '/' {
        seq![p.take(k)] + levels_from(p, k + 1)
    } else {
        levels_from(p, k + 1)
    }
}

/// `p` seen from the directory `dir` that holds it.
pub open spec fn relative_to(p: Seq<char>, dir: Seq<char>) -> Seq<char> {
    if dir.len() == 0 {
        p
    } else if dir.len() + 1 > p.len() {
        Seq::empty()
    } else {
        p.skip(dir.len() + 1 as int)
    }
}

/// Whether two strings have the same characters.
fn same_text(a: &str, b: &str) -> (r: bool)
    ensures
        r == (a@ == b@),
{
    let x = chars_of(a);
    let y = chars_of(b);
    if x.len() != y.len() {
        return false;
    }
    let mut i: usize = 0;
    while i < x.len()
        invariant
            x@ == a@,
            y@ == b@,
            x@.len() == y@.len(),
            i <= x@.len(),
            forall|k: int| 0 <= k < i ==> x@[k] == y@[k],
        decreases x@.len() - i,
    {
        if x[i] != y[i] {
            return false;
        }
        i = i + 1;
    }
    assert(x@ =~= y@);
    true
}

/// The rules loaded for `dir`: those of its first entry, or none.
pub open spec fn rules_for(cache: Seq<(Seq<char>, Seq<Rule>)>, dir: Seq<char>) -> Seq<Rule>
    decreases cache.len(),
{
    if cache.len() == 0 {
        Seq::empty()
    } else if cache[0].0 == dir {
        cache[0].1
    } else {
        rules_for(cache.drop_first(), dir)
    }
}

/// Whether `p` is ignored after the first `n` levels: the deepest level
/// whose rules say something about it decides, and it is not ignored if
/// none does.
pub open spec fn ignored_after(cache: Seq<(Seq<char>, Seq<Rule>)>, p: Seq<char>, is_dir: bool, n: nat) -> bool
    decreases n,
{
    let ls = levels(p);
    if n == 0 || n > ls.len() {
        false
    } else {
        let dir = ls[n - 1];
        let rules = rules_for(cache, dir);
        match verdict_of(rules, relative_to(p, dir), is_dir, rules.len()) {
            Some(v) => v,
            None => ignored_after(cache, p, is_dir, (n - 1) as nat),
        }
    }
}

/// The rules of every directory of a tree, loaded as they are needed.
pub struct GitignoreCache {
    root: String,
    cache: Vec<(String, Gitignore)>,
}

impl GitignoreCache {
    pub closed spec fn loaded(&self) -> Seq<(Seq<char>, Seq<Rule>)> {
        Seq::new(self.cache@.len(), |i: int| (self.cache@[i].0@, self.cache@[i].1.rules()))
    }

    pub closed spec fn root_dir(&self) -> Seq<char> {
        self.root@
    }

    pub fn new(root: String) -> (r: Self)
        ensures
            r.root_dir() == root@,
            r.loaded() == Seq::<(Seq<char>, Seq<Rule>)>::empty(),
    {
        let r = GitignoreCache { root, cache: Vec::new() };
        assert(r.loaded() =~= Seq::<(Seq<char>, Seq<Rule>)>::empty());
        r
    }

    /// The directory whose rules this cache holds.
    pub fn root(&self) -> (r: &str)
        ensures
            r@ == self.root_dir(),
    {
        self.root.as_str()
    }

    /// Whether rules are loaded for `dir`.
    pub fn is_loaded(&self, dir: &str) -> (r: bool)
        ensures
            r == exists|i: int| 0 <= i < self.loaded().len() && (#[trigger] self.loaded()[i]).0 == dir@,
    {
        let mut k: usize = 0;
        while k < self.cache.len()
            invariant
                k <= self.cache@.len(),
                self.loaded().len() == self.cache@.len(),
                forall|i: int| 0 <= i < k ==> (#[trigger] self.loaded()[i]).0 != dir@,
            decreases self.cache@.len() - k,
        {
            if same_text(self.cache[k].0.as_str(), dir) {
                proof {
                    assert(self.loaded()[k as int].0 == dir@);
                }
                return true;
            }
            k = k + 1;
        }
        false
    }

    /// Keeps the rules read for `dir`.
    pub fn insert(&mut self, dir: String, gitignore: Gitignore)
        ensures
            final(self).root_dir() == old(self).root_dir(),
            final(self).loaded() == old(self).loaded().push((dir@, gitignore.rules())),
    {
        let ghost before = self.loaded();
        let ghost entry = (dir@, gitignore.rules());
        self.cache.push((dir, gitignore));
        proof {
            assert(self.loaded() =~= before.push(entry));
        }
    }

    /// The directories whose rules bear on `relative_path`, outermost
    /// first.
    pub fn levels(relative_path: &str) -> (r: Vec<String>)
        ensures
            r@.len() == levels(relative_path@).len(),
            forall|i: int| 0 <= i < r@.len() ==> (#[trigger] r@[i])@ == levels(relative_path@)[i],
    {
        let p = chars_of(relative_path);
        let mut r: Vec<String> = Vec::new();
        if p.len() == 0 {
            return r;
        }
        r.push(String::new());
        let mut k: usize = 1;
        proof {
            assert(Seq::new(r@.len(), |i: int| r@[i]@) =~= seq![Seq::<char>::empty()]);
        }
        while k < p.len() - 1
            invariant
                p@ == relative_path@,
                1 <= k <= p@.len(),
                levels(p@) == Seq::new(r@.len(), |i: int| r@[i]@) + levels_from(p@, k as int),
            decreases p@.len() - k,
        {
            let ghost done = Seq::new(r@.len(), |i: int| r@[i]@);
            if p[k] == '/' {
                let mut dir = String::new();
                let mut m: usize = 0;
                while m < k
                    invariant
                        m <= k < p@.len(),
                        dir@ == p@.take(m as int),
                    decreases k - m,
                {
                    dir.push(p[m]);
                    m = m + 1;
                    assert(dir@ =~= p@.take(m as int));
                }
                r.push(dir);
                proof {
                    assert(Seq::new(r@.len(), |i: int| r@[i]@) =~= done.push(p@.take(k as int)));
                    assert(done + levels_from(p@, k as int) =~= Seq::new(r@.len(), |i: int| r@[i]@) + levels_from(
                        p@,
                        k + 1,
                    ));
                }
            }
            k = k + 1;
        }
        proof {
            assert(levels_from(p@, k as int) == Seq::<Seq<char>>::empty());
            assert(levels(p@) =~= Seq::new(r@.len(), |i: int| r@[i]@));
            assert forall|i: int| 0 <= i < r@.len() implies (#[trigger] r@[i])@ == levels(relative_path@)[i] by {
                assert(Seq::new(r@.len(), |j: int| r@[j]@)[i] == r@[i]@);
            }
        }
        r
    }

    /// The rules loaded for `dir`, or none.
    fn rules_of_dir(&self, dir: &str) -> (r: Option<&Gitignore>)
        ensures
            match r {
                Some(g) => g.rules() == rules_for(self.loaded(), dir@),
                None => rules_for(self.loaded(), dir@) == Seq::<Rule>::empty(),
            },
    {
        let mut k: usize = 0;
        proof {
            assert(self.loaded().skip(0) =~= self.loaded());
        }
        while k < self.cache.len()
            invariant
                k <= self.cache@.len(),
                self.loaded().len() == self.cache@.len(),
                rules_for(self.loaded(), dir@) == rules_for(self.loaded().skip(k as int), dir@),
            decreases self.cache@.len() - k,
        {
            proof {
                assert(self.loaded().skip(k as int)[0] == self.loaded()[k as int]);
                assert(self.loaded().skip(k as int).drop_first() =~= self.loaded().skip(k + 1));
                assert(self.loaded()[k as int] == (self.cache@[k as int].0@, self.cache@[k as int].1.rules()));
            }
            if same_text(self.cache[k].0.as_str(), dir) {
                return Some(&self.cache[k].1);
            }
            k = k + 1;
        }
        proof {
            assert(self.loaded().skip(k as int).len() == 0);
        }
        None
    }

    /// Whether `relative_path` is ignored by the rules loaded for the
    /// directories on its way; a directory with no rules loaded has none.
    pub fn is_ignored(&self, relative_path: &str, is_dir: bool) -> (r: bool)
        ensures
            r == ignored_after(self.loaded(), relative_path@, is_dir, levels(relative_path@).len()),
    {
        let dirs = Self::levels(relative_path);
        let p = chars_of(relative_path);
        let mut ignored = false;
        let mut k: usize = 0;
        while k < dirs.len()
            invariant
                p@ == relative_path@,
                dirs@.len() == levels(relative_path@).len(),
                forall|i: int| 0 <= i < dirs@.len() ==> (#[trigger] dirs@[i])@ == levels(relative_path@)[i],
                k <= dirs@.len(),
                ignored == ignored_after(self.loaded(), relative_path@, is_dir, k as nat),
            decreases dirs@.len() - k,
        {
            let dir = dirs[k].as_str();
            let rel = relative_path_of(&p, dir);
            let verdict = match self.rules_of_dir(dir) {
                Some(g) => g.verdict(rel.as_str(), is_dir),
                None => None,
            };
            proof {
                assert(dirs@[k as int]@ == levels(relative_path@)[k as int]);
            }
            match verdict {
                Some(v) => {
                    ignored = v;
                },
                None => {},
            }
            k = k + 1;
        }
        ignored
    }
}

/// `p` seen from the directory `dir` that holds it.
fn relative_path_of(p: &Vec<char>, dir: &str) -> (r: String)
    ensures
        r@ == relative_to(p@, dir@),
{
    let d = chars_of(dir);
    if d.len() == 0 {
        return crate::text::string_of(p.as_slice());
    }
    let mut r = String::new();
    if d.len() >= p.len() {
        return r;
    }
    let mut k = d.len() + 1;
    let start = k;
    while k < p.len()
        invariant
            start <= k <= p@.len(),
            start == d@.len() + 1,
            r@ == p@.subrange(start as int, k as int),
        decreases p@.len() - k,
    {
        r.push(p[k]);
        k = k + 1;
        assert(r@ =~= p@.subrange(start as int, k as int));
    }
    proof {
        assert(r@ =~= p@.skip(start as int));
    }
    r
}
} // verus!
