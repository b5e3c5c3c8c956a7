//! Compiled patterns and the matches they find.
use vstd::prelude::*;
use crate::regex_engine::ast::{
    Ast,
    Term,
    class_ranges_ok,
    lemma_asts_terms_len,
    lemma_concat_matches,
    lemma_condition_matches,
    lemma_group_matches,
    lemma_leaf_terms,
    lemma_matches_range,
    pieces,
    term_matches,
};
use crate::regex_engine::compiler::Compiler;
use crate::regex_engine::error::ParseError;
use crate::regex_engine::nfa::{AssertKind, Nfa, word_after, word_before};
use crate::regex_engine::parser::{Parser, spec_parse};
use crate::regex_engine::vm::{earliest_match, find_chars, is_match, matches_somewhere};
use crate::text::{byte_len, byte_offset, byte_pos, chars_of, str_byte_len};

verus! {

/// A compiled pattern.
pub struct Regex {
    nfa: Nfa,
    case_insensitive: bool,
    term: Ghost<Term>,
}

/// What a pattern asks for: the parsed term, or, for whole words only, the
/// term between the start of a word and the end of one.
pub open spec fn pattern_term(parsed: Term, whole_word: bool) -> Term {
    if whole_word {
        Term::Concat(seq![Term::WordStart, Term::Group(Box::new(parsed)), Term::WordEnd])
    } else {
        parsed
    }
}

/// The automaton accepts exactly what `term` matches.
pub open spec fn recognizes(nfa: Nfa, term: Term) -> bool {
    forall|t: Seq<char>, ci: bool, s: int, e: int|
        #[trigger] nfa.matches(t, ci, s, e) <==> term_matches(term, t, ci, s, e)
}

/// `term` matches somewhere in `t`.
pub open spec fn matches_in(term: Term, t: Seq<char>, ci: bool) -> bool {
    exists|s: int, e: int| #[trigger] term_matches(term, t, ci, s, e)
}

/// `term` matches `t` from `s` to `e`, no match of it ends before `e`, and
/// none that ends at `e` starts before `s`.
pub open spec fn earliest_term_match(term: Term, t: Seq<char>, ci: bool, s: int, e: int) -> bool {
    &&& term_matches(term, t, ci, s, e)
    &&& forall|s2: int, e2: int| #[trigger] term_matches(term, t, ci, s2, e2) ==> e <= e2 && (e2 == e ==> s <= s2)
}

/// A whole-word pattern matches where the pattern matches with no word
/// character right before the match and none right after it.
pub proof fn lemma_whole_word_matches(parsed: Term, t: Seq<char>, ci: bool, s: int, e: int)
    ensures
        term_matches(pattern_term(parsed, true), t, ci, s, e) <==> (term_matches(parsed, t, ci, s, e) && !word_before(
            t,
            s,
        ) && !word_after(t, e)),
{
    let ts = seq![Term::WordStart, Term::Group(Box::new(parsed)), Term::WordEnd];
    lemma_concat_matches(ts, t, ci, s, e);
    if term_matches(pattern_term(parsed, true), t, ci, s, e) {
        let ps = choose|ps: Seq<int>|
            #[trigger] pieces(ps, ts.len() as int, s, e) && forall|k: int|
                0 <= k < ts.len() ==> #[trigger] term_matches(ts[k], t, ci, ps[k], ps[k + 1]);
        let (k0, k1, k2) = (0int, 1int, 2int);
        assert(term_matches(ts[k0], t, ci, ps[k0], ps[k0 + 1]));
        assert(term_matches(ts[k1], t, ci, ps[k1], ps[k1 + 1]));
        assert(term_matches(ts[k2], t, ci, ps[k2], ps[k2 + 1]));
        lemma_condition_matches(Term::WordStart, AssertKind::WordStart, t, ci, ps[0], ps[1]);
        lemma_condition_matches(Term::WordEnd, AssertKind::WordEnd, t, ci, ps[2], ps[3]);
        lemma_group_matches(parsed, t, ci, ps[1], ps[2]);
    }
    if term_matches(parsed, t, ci, s, e) && !word_before(t, s) && !word_after(t, e) {
        lemma_matches_range(parsed, t, ci, s, e);
        let ps = seq![s, s, e, e];
        lemma_condition_matches(Term::WordStart, AssertKind::WordStart, t, ci, s, s);
        lemma_condition_matches(Term::WordEnd, AssertKind::WordEnd, t, ci, e, e);
        lemma_group_matches(parsed, t, ci, s, e);
        assert(pieces(ps, ts.len() as int, s, e));
        assert(term_matches(ts[0], t, ci, ps[0], ps[1]));
        assert(term_matches(ts[1], t, ci, ps[1], ps[2]));
        assert(term_matches(ts[2], t, ci, ps[2], ps[3]));
        assert forall|k: int| 0 <= k < ts.len() implies #[trigger] term_matches(ts[k], t, ci, ps[k], ps[k + 1]) by {
            assert(k == 0 || k == 1 || k == 2);
        }
    }
}

/// Parses `pattern` and compiles what it asks for.
fn compile_pattern(pattern: &str, whole_word: bool) -> (r: Result<Nfa, ParseError>)
    ensures
        match spec_parse(pattern@) {
            Ok(a) => r matches Ok(nfa) && nfa.wf() && recognizes(nfa, pattern_term(a, whole_word)),
            Err(e) => r == Err::<Nfa, ParseError>(e),
        },
{
    let mut parser = Parser::new(pattern);
    let ast = match parser.parse() {
        Ok(a) => a,
        Err(e) => return Err(e),
    };
    let ast = if whole_word {
        let mut items: Vec<Ast> = Vec::new();
        items.push(Ast::WordStart);
        items.push(Ast::Group(Box::new(ast)));
        items.push(Ast::WordEnd);
        let wrapped = Ast::Concat(items);
        proof {
            assert(class_ranges_ok(items@[0]));
            assert(class_ranges_ok(items@[1]));
            assert(class_ranges_ok(items@[2]));
            assert(class_ranges_ok(wrapped));
            lemma_asts_terms_len(items@);
            lemma_leaf_terms('a');
            assert(crate::regex_engine::ast::asts_terms(items@) =~= seq![
                Term::WordStart,
                Term::Group(Box::new(spec_parse(pattern@)->Ok_0)),
                Term::WordEnd,
            ]);
        }
        wrapped
    } else {
        ast
    };
    let compiler = Compiler::new();
    Ok(compiler.build(&ast))
}

impl Regex {
    #[verifier::type_invariant]
    spec fn inv(&self) -> bool {
        &&& self.nfa.wf()
        &&& recognizes(self.nfa, self.term@)
    }

    /// What the pattern matches.
    pub closed spec fn pattern(&self) -> Term {
        self.term@
    }

    pub closed spec fn ignores_case(&self) -> bool {
        self.case_insensitive
    }

    /// Compiles `pattern`, matching case exactly; fails with the error at
    /// which the pattern stops being valid.
    pub fn new(pattern: &str) -> (r: Result<Regex, ParseError>)
        ensures
            match spec_parse(pattern@) {
                Ok(a) => r matches Ok(re) && !re.ignores_case() && re.pattern() == a,
                Err(e) => r == Err::<Regex, ParseError>(e),
            },
    {
        match compile_pattern(pattern, false) {
            Ok(nfa) => Ok(Regex { nfa, case_insensitive: false, term: Ghost(spec_parse(pattern@)->Ok_0) }),
            Err(e) => Err(e),
        }
    }

    /// Whether the pattern matches somewhere in `text`.
    pub fn is_match(&self, text: &str) -> (r: bool)
        ensures
            r == matches_in(self.pattern(), text@, self.ignores_case()),
    {
        proof {
            use_type_invariant(self);
        }
        let r = is_match(&self.nfa, text, self.case_insensitive);
        proof {
            if r {
                let (s, e) = choose|s: int, e: int| #[trigger] self.nfa.matches(text@, self.case_insensitive, s, e);
                assert(term_matches(self.term@, text@, self.case_insensitive, s, e));
            }
            if matches_in(self.pattern(), text@, self.ignores_case()) {
                let (s, e) = choose|s: int, e: int| #[trigger] term_matches(self.term@, text@, self.case_insensitive, s, e);
                assert(self.nfa.matches(text@, self.case_insensitive, s, e));
            }
        }
        r
    }

    /// A match that ends as early as any match in `text` does and, of those,
    /// starts first, if there is one.
    pub fn find<'t>(&self, text: &'t str) -> (r: Option<Match<'t>>)
        ensures
            r is None <==> !matches_in(self.pattern(), text@, self.ignores_case()),
            r matches Some(m) ==> 0 <= m.first() <= m.last() <= text@.len(),
            r matches Some(m) ==> m.haystack() == text@ && earliest_term_match(
                self.pattern(),
                text@,
                self.ignores_case(),
                m.first(),
                m.last(),
            ),
    {
        proof {
            use_type_invariant(self);
            let ci = self.case_insensitive;
            if matches_in(self.pattern(), text@, ci) {
                let (s, e) = choose|s: int, e: int| #[trigger] term_matches(self.term@, text@, ci, s, e);
                assert(self.nfa.matches(text@, ci, s, e));
            }
            if matches_somewhere(&self.nfa, text@, ci) {
                let (s, e) = choose|s: int, e: int| #[trigger] self.nfa.matches(text@, ci, s, e);
                assert(term_matches(self.term@, text@, ci, s, e));
            }
            assert forall|s: int, e: int| earliest_match(&self.nfa, text@, ci, s, e) implies earliest_term_match(
                self.term@,
                text@,
                ci,
                s,
                e,
            ) by {
                assert forall|s2: int, e2: int| #[trigger] term_matches(self.term@, text@, ci, s2, e2) implies e <= e2 && (e2
                    == e ==> s <= s2) by {
                    assert(self.nfa.matches(text@, ci, s2, e2));
                }
            }
        }
        let chars = chars_of(text);
        match find_chars(&self.nfa, &chars, self.case_insensitive) {
            None => None,
            Some((s, e)) => {
                proof {
                    crate::regex_engine::nfa::lemma_reach_positions(
                        self.nfa.table(),
                        text@,
                        self.case_insensitive,
                        (self.nfa.start_index(), s as int),
                        (self.nfa.accept_index(), e as int),
                    );
                }
                let _total = str_byte_len(text);
                let start = byte_offset(chars.as_slice(), s, Ghost(byte_len(text@)));
                let end = byte_offset(chars.as_slice(), e, Ghost(byte_len(text@)));
                Some(Match { text, start, end, first: s, last: e })
            },
        }
    }
}

/// Where a match lies in the text it was found in: byte offsets, and the
/// character positions they stand for.
pub struct Match<'t> {
    text: &'t str,
    start: usize,
    end: usize,
    first: usize,
    last: usize,
}

impl<'t> Match<'t> {
    #[verifier::type_invariant]
    spec fn inv(&self) -> bool {
        &&& self.first <= self.last <= self.text@.len()
        &&& self.start == byte_pos(self.text@, self.first as int)
        &&& self.end == byte_pos(self.text@, self.last as int)
    }

    /// The characters of the searched text.
    pub closed spec fn haystack(&self) -> Seq<char> {
        self.text@
    }

    /// Character position where the match starts.
    pub closed spec fn first(&self) -> int {
        self.first as int
    }

    /// Character position where the match ends.
    pub closed spec fn last(&self) -> int {
        self.last as int
    }

    /// Byte offset of the start.
    pub fn start(&self) -> (r: usize)
        ensures
            r == byte_pos(self.haystack(), self.first()),
    {
        proof {
            use_type_invariant(self);
        }
        self.start
    }

    /// Byte offset of the end.
    pub fn end(&self) -> (r: usize)
        ensures
            r == byte_pos(self.haystack(), self.last()),
    {
        proof {
            use_type_invariant(self);
        }
        self.end
    }

    /// The matched text.
    pub fn as_str(&self) -> (r: &'t str)
        ensures
            r@ == self.haystack().subrange(self.first(), self.last()),
    {
        proof {
            use_type_invariant(self);
        }
        self.text.substring_char(self.first, self.last)
    }
}

/// Settings for a pattern before it is compiled.
pub struct RegexBuilder {
    pattern: String,
    case_insensitive: bool,
    whole_word: bool,
}

impl RegexBuilder {
    pub closed spec fn pattern_text(&self) -> Seq<char> {
        self.pattern@
    }

    pub closed spec fn ignores_case(&self) -> bool {
        self.case_insensitive
    }

    pub closed spec fn words_only(&self) -> bool {
        self.whole_word
    }

    pub fn new(pattern: String) -> (r: Self)
        ensures
            r.pattern_text() == pattern@,
            !r.ignores_case(),
            !r.words_only(),
    {
        RegexBuilder { pattern, case_insensitive: false, whole_word: false }
    }

    pub fn case_insensitive(self, value: bool) -> (r: Self)
        ensures
            r.pattern_text() == self.pattern_text(),
            r.ignores_case() == value,
            r.words_only() == self.words_only(),
    {
        let mut this = self;
        this.case_insensitive = value;
        this
    }

    /// Whether the pattern must match whole words only: nothing but a
    /// non-word character (or the edge of the text) may stand right before
    /// and right after a match.
    pub fn whole_word(self, value: bool) -> (r: Self)
        ensures
            r.pattern_text() == self.pattern_text(),
            r.ignores_case() == self.ignores_case(),
            r.words_only() == value,
    {
        let mut this = self;
        this.whole_word = value;
        this
    }

    pub fn build(self) -> (r: Result<Regex, ParseError>)
        ensures
            match spec_parse(self.pattern_text()) {
                Ok(a) => r matches Ok(re) && re.ignores_case() == self.ignores_case() && re.pattern()
                    == pattern_term(a, self.words_only()),
                Err(e) => r == Err::<Regex, ParseError>(e),
            },
    {
        match compile_pattern(self.pattern.as_str(), self.whole_word) {
            Ok(nfa) => Ok(
                Regex {
                    nfa,
                    case_insensitive: self.case_insensitive,
                    term: Ghost(pattern_term(spec_parse(self.pattern@)->Ok_0, self.whole_word)),
                },
            ),
            Err(e) => Err(e),
        }
    }
}

} // verus!
