//! Syntax tree of a pattern, its mathematical model `Term`, and what a term
//! matches.
use vstd::prelude::*;
use crate::regex_engine::nfa::{AssertKind, assert_holds};
use crate::text::{lower, upper};

verus! {

/// A parsed pattern.
#[derive(Debug, PartialEq, Eq)]
pub enum Ast {
    Alternation(Vec<Ast>),
    Concat(Vec<Ast>),
    Repetition { kind: RepetitionKind, inner: Box<Ast> },
    Group(Box<Ast>),
    CharClass { negative: bool, items: Vec<ClassItem> },
    Literal(char),
    Dot,
    StartAnchor,
    EndAnchor,
    WordBoundary,
    WordStart,
    WordEnd,
}

#[derive(Debug, Clone, Copy, PartialEq, Eq)]
pub enum RepetitionKind {
    ZeroOrMore,
    OneOrMore,
    ZeroOrOne,
}

#[derive(Debug, Clone, Copy, PartialEq, Eq)]
pub enum ClassItem {
    Char(char),
    Range(char, char),
}

/// The model of an `Ast`: the same tree with sequences in place of vectors.
pub enum Term {
    Alternation(Seq<Term>),
    Concat(Seq<Term>),
    Repetition(RepetitionKind, Box<Term>),
    Group(Box<Term>),
    CharClass(bool, Seq<ClassItem>),
    Literal(char),
    Dot,
    StartAnchor,
    EndAnchor,
    WordBoundary,
    WordStart,
    WordEnd,
}

pub open spec fn ast_term(a: Ast) -> Term
    decreases a,
{
    match a {
        Ast::Alternation(items) => Term::Alternation(asts_terms(items@)),
        Ast::Concat(items) => Term::Concat(asts_terms(items@)),
        Ast::Repetition { kind, inner } => Term::Repetition(kind, Box::new(ast_term(*inner))),
        Ast::Group(inner) => Term::Group(Box::new(ast_term(*inner))),
        Ast::CharClass { negative, items } => Term::CharClass(negative, items@),
        Ast::Literal(c) => Term::Literal(c),
        Ast::Dot => Term::Dot,
        Ast::StartAnchor => Term::StartAnchor,
        Ast::EndAnchor => Term::EndAnchor,
        Ast::WordBoundary => Term::WordBoundary,
        Ast::WordStart => Term::WordStart,
        Ast::WordEnd => Term::WordEnd,
    }
}

pub open spec fn asts_terms(s: Seq<Ast>) -> Seq<Term>
    decreases s,
{
    if s.len() == 0 {
        Seq::empty()
    } else {
        seq![ast_term(s[0])] + asts_terms(s.subrange(1, s.len() as int))
    }
}

impl View for Ast {
    type V = Term;

    open spec fn view(&self) -> Term {
        ast_term(*self)
    }
}

/// A class item is well formed: a range does not run backwards.
pub open spec fn item_ok(it: ClassItem) -> bool {
    match it {
        ClassItem::Char(_) => true,
        ClassItem::Range(lo, hi) => lo <= hi,
    }
}

/// Every range `a-b` of a character class in `a` has `a <= b`.
pub open spec fn class_ranges_ok(a: Ast) -> bool
    decreases a,
{
    match a {
        Ast::Alternation(items) => forall|k: int| 0 <= k < items@.len() ==> class_ranges_ok(#[trigger] items@[k]),
        Ast::Concat(items) => forall|k: int| 0 <= k < items@.len() ==> class_ranges_ok(#[trigger] items@[k]),
        Ast::Repetition { kind, inner } => class_ranges_ok(*inner),
        Ast::Group(inner) => class_ranges_ok(*inner),
        Ast::CharClass { negative, items } => forall|k: int| 0 <= k < items@.len() ==> item_ok(#[trigger] items@[k]),
        _ => true,
    }
}

/// Whether the class item `it` holds the character `c`.
pub open spec fn item_covers(it: ClassItem, c: char) -> bool {
    match it {
        ClassItem::Char(d) => c == d,
        ClassItem::Range(lo, hi) => lo <= c && c <= hi,
    }
}

/// Whether some item of a class holds `c`.
pub open spec fn class_covers(items: Seq<ClassItem>, c: char) -> bool {
    exists|k: int| 0 <= k < items.len() && #[trigger] item_covers(items[k], c)
}

/// The characters a term that reads one character accepts: a literal its
/// own character, a dot anything but a line break, a class what it holds
/// (or, negated, what it does not hold).
pub open spec fn reads(term: Term, c: char) -> bool {
    match term {
        Term::Literal(d) => c == d,
        Term::Dot => c != '\n',
        Term::CharClass(negative, items) => class_covers(items, c) != negative,
        _ => false,
    }
}

/// `c` is read as it is, or, without regard to case, in ASCII lower or
/// upper case.
pub open spec fn reads_ci(term: Term, c: char, ci: bool) -> bool {
    reads(term, c) || (ci && (reads(term, lower(c)) || reads(term, upper(c))))
}

/// `ps` cuts a match from `s` to `e` into `n` pieces.
pub open spec fn pieces(ps: Seq<int>, n: int, s: int, e: int) -> bool {
    ps.len() == n + 1 && ps[0] == s && ps[n] == e
}

/// How many times a repetition may repeat its term.
pub open spec fn count_ok(kind: RepetitionKind, n: int) -> bool {
    match kind {
        RepetitionKind::ZeroOrMore => n >= 0,
        RepetitionKind::OneOrMore => n >= 1,
        RepetitionKind::ZeroOrOne => 0 <= n <= 1,
    }
}

/// Why a term matches a stretch of text: which branch of an alternation
/// matched, where a sequence or a repetition was cut into pieces and why
/// each piece matched, and why the term in a group matched.
pub enum Derivation {
    Leaf,
    Branch(nat, Box<Derivation>),
    Cut(Seq<int>, Seq<Derivation>),
    Inner(Box<Derivation>),
}

/// `n` copies of `term`, one for each piece of a repetition.
pub open spec fn copies(term: Term, n: nat) -> Seq<Term> {
    Seq::new(n, |i: int| term)
}

/// `d` shows that `term` matches the characters of `t` from position `s`
/// to position `e`; `ci` reads characters without regard to ASCII case.
pub open spec fn derives(d: Derivation, term: Term, t: Seq<char>, ci: bool, s: int, e: int) -> bool
    decreases d, 0int,
{
    &&& 0 <= s <= e <= t.len()
    &&& match term {
        Term::Alternation(ts) => match d {
            Derivation::Branch(k, sub) => k < ts.len() && derives(*sub, ts[k as int], t, ci, s, e),
            _ => false,
        },
        Term::Concat(ts) => match d {
            Derivation::Cut(ps, ds) => pieces(ps, ts.len() as int, s, e) && ds.len() == ts.len() && derives_all(
                ds,
                ts,
                ps,
                t,
                ci,
                ts.len() as int,
            ),
            _ => false,
        },
        Term::Repetition(kind, inner) => match d {
            Derivation::Cut(ps, ds) => pieces(ps, ds.len() as int, s, e) && count_ok(kind, ds.len() as int)
                && derives_all(ds, copies(*inner, ds.len()), ps, t, ci, ds.len() as int),
            _ => false,
        },
        Term::Group(inner) => match d {
            Derivation::Inner(sub) => derives(*sub, *inner, t, ci, s, e),
            _ => false,
        },
        Term::StartAnchor => s == e && assert_holds(AssertKind::Start, t, s),
        Term::EndAnchor => s == e && assert_holds(AssertKind::End, t, s),
        Term::WordBoundary => s == e && assert_holds(AssertKind::WordBoundary, t, s),
        Term::WordStart => s == e && assert_holds(AssertKind::WordStart, t, s),
        Term::WordEnd => s == e && assert_holds(AssertKind::WordEnd, t, s),
        _ => e == s + 1 && reads_ci(term, t[s], ci),
    }
}

/// The first `k` derivations of `ds` show that the first `k` terms of `ts`
/// match the pieces that `ps` cuts.
pub open spec fn derives_all(ds: Seq<Derivation>, ts: Seq<Term>, ps: Seq<int>, t: Seq<char>, ci: bool, k: int) -> bool
    decreases ds, k,
{
    if k <= 0 {
        true
    } else if k > ds.len() {
        false
    } else {
        derives(ds[k - 1], ts[k - 1], t, ci, ps[k - 1], ps[k]) && derives_all(ds, ts, ps, t, ci, k - 1)
    }
}

/// Whether `term` matches the characters of `t` from position `s` to
/// position `e`; `ci` reads characters without regard to ASCII case.
pub open spec fn term_matches(term: Term, t: Seq<char>, ci: bool, s: int, e: int) -> bool {
    exists|d: Derivation| #[trigger] derives(d, term, t, ci, s, e)
}

/// A match is a stretch of the text, from a position to one at or after it.
pub proof fn lemma_matches_range(term: Term, t: Seq<char>, ci: bool, s: int, e: int)
    requires
        term_matches(term, t, ci, s, e),
    ensures
        0 <= s <= e <= t.len(),
{
    let d = choose|d: Derivation| #[trigger] derives(d, term, t, ci, s, e);
}

/// Pieces each matched by its term go forward.
pub proof fn lemma_pieces_forward(ts: Seq<Term>, t: Seq<char>, ci: bool, ps: Seq<int>, k: int)
    requires
        0 <= k < ps.len(),
        k <= ts.len(),
        forall|i: int| 0 <= i < k ==> #[trigger] term_matches(ts[i], t, ci, ps[i], ps[i + 1]),
    ensures
        ps[0] <= ps[k],
    decreases k,
{
    if k > 0 {
        lemma_pieces_forward(ts, t, ci, ps, k - 1);
        let i = k - 1;
        assert(term_matches(ts[i], t, ci, ps[i], ps[i + 1]));
        lemma_matches_range(ts[i], t, ci, ps[i], ps[i + 1]);
    }
}

/// `derives_all` says that each piece has its derivation.
pub proof fn lemma_derives_all(ds: Seq<Derivation>, ts: Seq<Term>, ps: Seq<int>, t: Seq<char>, ci: bool, k: int)
    requires
        0 <= k <= ds.len(),
    ensures
        derives_all(ds, ts, ps, t, ci, k) <==> forall|i: int|
            0 <= i < k ==> #[trigger] derives(ds[i], ts[i], t, ci, ps[i], ps[i + 1]),
    decreases k,
{
    if k > 0 {
        lemma_derives_all(ds, ts, ps, t, ci, k - 1);
        if derives_all(ds, ts, ps, t, ci, k) {
            assert(derives(ds[k - 1], ts[k - 1], t, ci, ps[k - 1], ps[k]));
        }
        if forall|i: int| 0 <= i < k ==> #[trigger] derives(ds[i], ts[i], t, ci, ps[i], ps[i + 1]) {
            let i = k - 1;
            assert(derives(ds[i], ts[i], t, ci, ps[i], ps[i + 1]));
            assert(derives_all(ds, ts, ps, t, ci, k - 1));
        }
    }
}

/// A match of an alternation is a match of one of its branches.
pub proof fn lemma_alternation_matches(ts: Seq<Term>, t: Seq<char>, ci: bool, s: int, e: int)
    ensures
        term_matches(Term::Alternation(ts), t, ci, s, e) <==> exists|k: int|
            0 <= k < ts.len() && #[trigger] term_matches(ts[k], t, ci, s, e),
{
    if term_matches(Term::Alternation(ts), t, ci, s, e) {
        let d = choose|d: Derivation| #[trigger] derives(d, Term::Alternation(ts), t, ci, s, e);
        let k = d->Branch_0;
        assert(derives(*d->Branch_1, ts[k as int], t, ci, s, e));
        assert(term_matches(ts[k as int], t, ci, s, e));
    }
    if exists|k: int| 0 <= k < ts.len() && #[trigger] term_matches(ts[k], t, ci, s, e) {
        let k = choose|k: int| 0 <= k < ts.len() && #[trigger] term_matches(ts[k], t, ci, s, e);
        let sub = choose|d: Derivation| #[trigger] derives(d, ts[k], t, ci, s, e);
        let d = Derivation::Branch(k as nat, Box::new(sub));
        assert(derives(d, Term::Alternation(ts), t, ci, s, e));
    }
}

/// A match of a sequence of terms is cut into pieces, each a match of the
/// term in its place.
pub proof fn lemma_concat_matches(ts: Seq<Term>, t: Seq<char>, ci: bool, s: int, e: int)
    ensures
        term_matches(Term::Concat(ts), t, ci, s, e) <==> (0 <= s <= e <= t.len() && exists|ps: Seq<int>|
            #[trigger] pieces(ps, ts.len() as int, s, e) && forall|k: int|
                0 <= k < ts.len() ==> #[trigger] term_matches(ts[k], t, ci, ps[k], ps[k + 1])),
{
    if term_matches(Term::Concat(ts), t, ci, s, e) {
        let d = choose|d: Derivation| #[trigger] derives(d, Term::Concat(ts), t, ci, s, e);
        let ps = d->Cut_0;
        let ds = d->Cut_1;
        lemma_derives_all(ds, ts, ps, t, ci, ts.len() as int);
        assert forall|k: int| 0 <= k < ts.len() implies #[trigger] term_matches(ts[k], t, ci, ps[k], ps[k + 1]) by {
            assert(derives(ds[k], ts[k], t, ci, ps[k], ps[k + 1]));
        }
        assert(pieces(ps, ts.len() as int, s, e));
    }
    if 0 <= s <= e <= t.len() && exists|ps: Seq<int>|
        #[trigger] pieces(ps, ts.len() as int, s, e) && forall|k: int|
            0 <= k < ts.len() ==> #[trigger] term_matches(ts[k], t, ci, ps[k], ps[k + 1]) {
        let ps = choose|ps: Seq<int>|
            #[trigger] pieces(ps, ts.len() as int, s, e) && forall|k: int|
                0 <= k < ts.len() ==> #[trigger] term_matches(ts[k], t, ci, ps[k], ps[k + 1]);
        let ds = Seq::new(
            ts.len(),
            |k: int| choose|d: Derivation| #[trigger] derives(d, ts[k], t, ci, ps[k], ps[k + 1]),
        );
        assert forall|k: int| 0 <= k < ts.len() implies #[trigger] derives(ds[k], ts[k], t, ci, ps[k], ps[k + 1]) by {
            assert(term_matches(ts[k], t, ci, ps[k], ps[k + 1]));
        }
        lemma_derives_all(ds, ts, ps, t, ci, ts.len() as int);
        assert(derives(Derivation::Cut(ps, ds), Term::Concat(ts), t, ci, s, e));
    }
}

/// A match of a repetition is cut into as many pieces as the repetition
/// allows, each a match of the repeated term.
pub proof fn lemma_repetition_matches(kind: RepetitionKind, inner: Term, t: Seq<char>, ci: bool, s: int, e: int)
    ensures
        term_matches(Term::Repetition(kind, Box::new(inner)), t, ci, s, e) <==> (0 <= s <= e <= t.len()
            && exists|ps: Seq<int>|
            #[trigger] pieces(ps, ps.len() - 1, s, e) && count_ok(kind, ps.len() - 1) && forall|k: int|
                0 <= k < ps.len() - 1 ==> #[trigger] term_matches(inner, t, ci, ps[k], ps[k + 1])),
{
    let term = Term::Repetition(kind, Box::new(inner));
    if term_matches(term, t, ci, s, e) {
        let d = choose|d: Derivation| #[trigger] derives(d, term, t, ci, s, e);
        let ps = d->Cut_0;
        let ds = d->Cut_1;
        let ts = copies(inner, ds.len());
        lemma_derives_all(ds, ts, ps, t, ci, ds.len() as int);
        assert forall|k: int| 0 <= k < ps.len() - 1 implies #[trigger] term_matches(inner, t, ci, ps[k], ps[k + 1]) by {
            assert(derives(ds[k], ts[k], t, ci, ps[k], ps[k + 1]));
        }
        assert(pieces(ps, ps.len() - 1, s, e));
    }
    if 0 <= s <= e <= t.len() && exists|ps: Seq<int>|
        #[trigger] pieces(ps, ps.len() - 1, s, e) && count_ok(kind, ps.len() - 1) && forall|k: int|
            0 <= k < ps.len() - 1 ==> #[trigger] term_matches(inner, t, ci, ps[k], ps[k + 1]) {
        let ps = choose|ps: Seq<int>|
            #[trigger] pieces(ps, ps.len() - 1, s, e) && count_ok(kind, ps.len() - 1) && forall|k: int|
                0 <= k < ps.len() - 1 ==> #[trigger] term_matches(inner, t, ci, ps[k], ps[k + 1]);
        let n = (ps.len() - 1) as nat;
        let ts = copies(inner, n);
        let ds = Seq::new(n, |k: int| choose|d: Derivation| #[trigger] derives(d, inner, t, ci, ps[k], ps[k + 1]));
        assert forall|k: int| 0 <= k < n implies #[trigger] derives(ds[k], ts[k], t, ci, ps[k], ps[k + 1]) by {
            assert(term_matches(inner, t, ci, ps[k], ps[k + 1]));
        }
        lemma_derives_all(ds, ts, ps, t, ci, n as int);
        assert(derives(Derivation::Cut(ps, ds), term, t, ci, s, e));
    }
}

/// A group matches what the term in it matches.
pub proof fn lemma_group_matches(inner: Term, t: Seq<char>, ci: bool, s: int, e: int)
    ensures
        term_matches(Term::Group(Box::new(inner)), t, ci, s, e) <==> term_matches(inner, t, ci, s, e),
{
    let term = Term::Group(Box::new(inner));
    if term_matches(term, t, ci, s, e) {
        let d = choose|d: Derivation| #[trigger] derives(d, term, t, ci, s, e);
        assert(derives(*d->Inner_0, inner, t, ci, s, e));
    }
    if term_matches(inner, t, ci, s, e) {
        let sub = choose|d: Derivation| #[trigger] derives(d, inner, t, ci, s, e);
        assert(derives(Derivation::Inner(Box::new(sub)), term, t, ci, s, e));
    }
}

/// A term that reads one character matches it where it reads it.
pub proof fn lemma_leaf_matches(term: Term, t: Seq<char>, ci: bool, s: int, e: int)
    requires
        term is Literal || term is Dot || term is CharClass,
    ensures
        term_matches(term, t, ci, s, e) <==> (0 <= s < t.len() && e == s + 1 && reads_ci(term, t[s], ci)),
{
    if 0 <= s < t.len() && e == s + 1 && reads_ci(term, t[s], ci) {
        assert(derives(Derivation::Leaf, term, t, ci, s, e));
    }
}

/// A condition matches nothing, where it holds.
pub proof fn lemma_condition_matches(term: Term, kind: AssertKind, t: Seq<char>, ci: bool, s: int, e: int)
    requires
        term is StartAnchor ==> kind is Start,
        term is EndAnchor ==> kind is End,
        term is WordBoundary ==> kind is WordBoundary,
        term is WordStart ==> kind is WordStart,
        term is WordEnd ==> kind is WordEnd,
        term is StartAnchor || term is EndAnchor || term is WordBoundary || term is WordStart || term is WordEnd,
    ensures
        term_matches(term, t, ci, s, e) <==> (0 <= s <= t.len() && s == e && assert_holds(kind, t, s)),
{
    if 0 <= s <= t.len() && s == e && assert_holds(kind, t, s) {
        assert(derives(Derivation::Leaf, term, t, ci, s, e));
    }
}

pub proof fn lemma_asts_terms_len(s: Seq<Ast>)
    ensures
        asts_terms(s).len() == s.len(),
        forall|k: int| 0 <= k < s.len() ==> #[trigger] asts_terms(s)[k] == ast_term(s[k]),
    decreases s.len(),
{
    if s.len() > 0 {
        lemma_asts_terms_len(s.subrange(1, s.len() as int));
    }
}

pub proof fn lemma_asts_terms_push(s: Seq<Ast>, a: Ast)
    ensures
        asts_terms(s.push(a)) == asts_terms(s).push(ast_term(a)),
{
    lemma_asts_terms_len(s);
    lemma_asts_terms_len(s.push(a));
    assert(asts_terms(s.push(a)) =~= asts_terms(s).push(ast_term(a)));
}

} // verus!

verus! {

/// The models of the leaf nodes, which hold no character class.
pub proof fn lemma_leaf_terms(c: char)
    ensures
        ast_term(Ast::Literal(c)) == Term::Literal(c),
        ast_term(Ast::Dot) == Term::Dot,
        ast_term(Ast::StartAnchor) == Term::StartAnchor,
        ast_term(Ast::EndAnchor) == Term::EndAnchor,
        ast_term(Ast::WordBoundary) == Term::WordBoundary,
        ast_term(Ast::WordStart) == Term::WordStart,
        ast_term(Ast::WordEnd) == Term::WordEnd,
        class_ranges_ok(Ast::Literal(c)),
        class_ranges_ok(Ast::Dot),
        class_ranges_ok(Ast::StartAnchor),
        class_ranges_ok(Ast::EndAnchor),
        class_ranges_ok(Ast::WordBoundary),
{
}

} // verus!
