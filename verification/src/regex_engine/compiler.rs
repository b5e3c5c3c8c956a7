//! Turns a syntax tree into an automaton, piece by piece: every node becomes
//! a fragment with an entry state and an exit state that is linked up later.
use vstd::prelude::*;
use crate::regex_engine::ast::{
    Ast,
    ClassItem,
    RepetitionKind,
    Term,
    asts_terms,
    class_covers,
    class_ranges_ok,
    item_covers,
    item_ok,
    lemma_asts_terms_len,
    lemma_leaf_terms,
    reads,
    term_matches,
};
use crate::regex_engine::fragment::{
    closed_region,
    fragment_of,
    lemma_alternation_fragment,
    lemma_assert_fragment,
    lemma_closed_frame,
    lemma_closed_join,
    lemma_concat_step,
    lemma_empty_concat_fragment,
    lemma_fragment_frame,
    lemma_group_fragment,
    lemma_reading_fragment,
    lemma_repetition_fragment,
    lemma_single_concat_fragment,
    targets_within,
};
use crate::regex_engine::nfa::{
    AssertKind,
    CharRange,
    Nfa,
    NfaBuilder,
    State,
    avoids,
    covers,
    is_run,
    reach,
    reach_first,
    run_step,
    targets_below,
};

verus! {

/// Every state of the table leads only to states of the table, and none of
/// them accepts yet.
pub open spec fn table_ok(tbl: Seq<State>) -> bool {
    forall|q: int|
        0 <= q < tbl.len() ==> targets_below(#[trigger] tbl[q], tbl.len()) && !(tbl[q] is Match)
}

/// A piece of automaton under construction: where it is entered and the
/// state it leaves by.
pub struct Fragment {
    pub entry: usize,
    pub exit: usize,
}

pub struct Compiler {
    builder: NfaBuilder,
}

proof fn lemma_targets_grow(s: State, n: nat, m: nat)
    requires
        targets_below(s, n),
        n <= m,
    ensures
        targets_below(s, m),
{
}

proof fn lemma_table_push(tbl: Seq<State>, s: State)
    requires
        table_ok(tbl),
        targets_below(s, tbl.len() + 1),
        !(s is Match),
    ensures
        table_ok(tbl.push(s)),
{
    assert forall|q: int| 0 <= q < tbl.push(s).len() implies targets_below(#[trigger] tbl.push(s)[q], tbl.push(s).len())
        && !(tbl.push(s)[q] is Match) by {
        if q < tbl.len() {
            assert(tbl.push(s)[q] == tbl[q]);
            lemma_targets_grow(tbl[q], tbl.len(), tbl.len() + 1);
        }
    }
}

proof fn lemma_table_update(tbl: Seq<State>, pos: int, s: State)
    requires
        table_ok(tbl),
        0 <= pos < tbl.len(),
        targets_below(s, tbl.len()),
        !(s is Match),
    ensures
        table_ok(tbl.update(pos, s)),
{
    assert forall|q: int| 0 <= q < tbl.update(pos, s).len() implies targets_below(#[trigger] tbl.update(pos, s)[q], tbl.update(pos, s).len())
        && !(tbl.update(pos, s)[q] is Match) by {
        if q != pos {
            assert(tbl.update(pos, s)[q] == tbl[q]);
        }
    }
}

impl Compiler {
    pub closed spec fn table(&self) -> Seq<State> {
        self.builder.table()
    }

    pub fn new() -> (r: Self)
        ensures
            r.table() == Seq::<State>::empty(),
    {
        Compiler { builder: NfaBuilder::new() }
    }

    /// The automaton for `ast`: its start state is the entry of the whole
    /// pattern's fragment, and its accepting state the exit; it matches
    /// exactly what the pattern matches.
    pub fn build(self, ast: &Ast) -> (r: Nfa)
        requires
            self.table() == Seq::<State>::empty(),
            class_ranges_ok(*ast),
        ensures
            r.wf(),
            forall|t: Seq<char>, ci: bool, s: int, e: int|
                #[trigger] r.matches(t, ci, s, e) <==> term_matches(ast@, t, ci, s, e),
    {
        let mut this = self;
        let fragment = this.compile(ast);
        let ghost before = this.table();
        this.builder.patch_state(fragment.exit, State::Match);
        let Compiler { builder } = this;
        let nfa = builder.build(fragment.entry, fragment.exit);
        proof {
            let tbl = nfa.table();
            assert(tbl == before.update(fragment.exit as int, State::Match));
            assert forall|q: int| 0 <= q < tbl.len() implies targets_below(#[trigger] tbl[q], tbl.len()) by {
                if q != fragment.exit {
                    assert(tbl[q] == before[q]);
                }
            }
            assert forall|q: int| 0 <= q < tbl.len() && (#[trigger] tbl[q]) is Match implies q == nfa.accept_index() by {
                if q != fragment.exit {
                    assert(tbl[q] == before[q]);
                }
            }
            lemma_fragment_frame(before, tbl, ast@, 0, tbl.len() as int, fragment.entry as int, fragment.exit as int);
            assert forall|t: Seq<char>, ci: bool, s: int, e: int|
                #[trigger] nfa.matches(t, ci, s, e) <==> term_matches(ast@, t, ci, s, e) by {
                let a = (fragment.entry as int, s);
                let x = fragment.exit as int;
                if nfa.matches(t, ci, s, e) {
                    lemma_accept_is_last(tbl, t, ci, a, x, e);
                }
                if term_matches(ast@, t, ci, s, e) {
                    crate::regex_engine::ast::lemma_matches_range(ast@, t, ci, s, e);
                    assert(reach_first(tbl, t, ci, a, x, e));
                    let path = choose|path: Seq<(int, int)>|
                        #[trigger] is_run(tbl, t, ci, path) && path[0] == a && path.last() == (x, e) && avoids(path, x);
                    assert(reach(tbl, t, ci, a, (x, e)));
                }
            }
        }
        nfa
    }

    fn push(&mut self, state: State) -> (pos: usize)
        requires
            table_ok(old(self).table()),
            targets_below(state, old(self).table().len() + 1),
            !(state is Match),
        ensures
            pos == old(self).table().len(),
            final(self).table() == old(self).table().push(state),
            table_ok(final(self).table()),
    {
        proof {
            lemma_table_push(self.table(), state);
        }
        self.builder.push_state(state)
    }

    fn patch(&mut self, pos: usize, state: State)
        requires
            table_ok(old(self).table()),
            pos < old(self).table().len(),
            targets_below(state, old(self).table().len()),
            !(state is Match),
        ensures
            final(self).table() == old(self).table().update(pos as int, state),
            table_ok(final(self).table()),
    {
        proof {
            lemma_table_update(self.table(), pos as int, state);
        }
        self.builder.patch_state(pos, state);
    }

    /// The fragment for `ast`, laid out after the states there were.
    fn compile(&mut self, ast: &Ast) -> (f: Fragment)
        requires
            table_ok(old(self).table()),
            class_ranges_ok(*ast),
        ensures
            compiled(old(self).table(), final(self).table(), ast@, f),
        decreases ast, 0nat,
    {
        proof {
            lemma_leaf_terms('a');
        }
        match ast {
            Ast::Literal(c) => {
                proof {
                    lemma_leaf_terms(*c);
                }
                self.compile_literal(*c)
            },
            Ast::Concat(values) => self.compile_concat(values),
            Ast::Alternation(values) => self.compile_alternation(values),
            Ast::Group(value) => self.compile_group(value),
            Ast::Dot => self.compile_dot(),
            Ast::CharClass { negative, items } => self.compile_char_class(items, *negative),
            Ast::Repetition { kind, inner } => self.compile_repetition(*kind, inner),
            Ast::StartAnchor => self.compile_assert(AssertKind::Start, Ghost(Term::StartAnchor)),
            Ast::EndAnchor => self.compile_assert(AssertKind::End, Ghost(Term::EndAnchor)),
            Ast::WordBoundary => self.compile_assert(AssertKind::WordBoundary, Ghost(Term::WordBoundary)),
            Ast::WordStart => self.compile_assert(AssertKind::WordStart, Ghost(Term::WordStart)),
            Ast::WordEnd => self.compile_assert(AssertKind::WordEnd, Ghost(Term::WordEnd)),
        }
    }

    /// A placeholder exit: a state that leads nowhere until it is patched.
    fn push_exit(&mut self) -> (pos: usize)
        requires
            table_ok(old(self).table()),
        ensures
            pos == old(self).table().len(),
            final(self).table().len() == old(self).table().len() + 1,
            forall|q: int| 0 <= q < pos ==> final(self).table()[q] == old(self).table()[q],
            final(self).table()[pos as int] is Split,
            final(self).table()[pos as int]->Split_0@.len() == 0,
            table_ok(final(self).table()),
    {
        let empty: Vec<usize> = Vec::new();
        self.push(State::Split(empty))
    }

    /// A state that reads a character in `ranges`, after its exit.
    fn compile_reading(&mut self, ranges: Vec<CharRange>, term: Ghost<Term>) -> (f: Fragment)
        requires
            table_ok(old(self).table()),
            term@ is Literal || term@ is Dot || term@ is CharClass,
            forall|c: char| #[trigger] covers(ranges@, c) == reads(term@, c),
        ensures
            compiled(old(self).table(), final(self).table(), term@, f),
    {
        let exit = self.push_exit();
        let entry = self.push(State::Consuming(ranges, exit));
        proof {
            lemma_reading_fragment(self.table(), exit as int, ranges, term@);
        }
        Fragment { entry, exit }
    }

    fn compile_literal(&mut self, c: char) -> (f: Fragment)
        requires
            table_ok(old(self).table()),
        ensures
            compiled(old(self).table(), final(self).table(), Term::Literal(c), f),
    {
        let mut ranges: Vec<CharRange> = Vec::new();
        ranges.push(CharRange::new(c, c));
        proof {
            assert forall|d: char| #[trigger] covers(ranges@, d) == reads(Term::Literal(c), d) by {
                if d == c {
                    assert(ranges@[0].contains_spec(d));
                }
            }
        }
        self.compile_reading(ranges, Ghost(Term::Literal(c)))
    }

    fn compile_concat(&mut self, values: &Vec<Ast>) -> (f: Fragment)
        requires
            table_ok(old(self).table()),
            forall|k: int| 0 <= k < values@.len() ==> class_ranges_ok(#[trigger] values@[k]),
        ensures
            compiled(old(self).table(), final(self).table(), Term::Concat(asts_terms(values@)), f),
        decreases values, 1nat,
    {
        let ghost ts = asts_terms(values@);
        proof {
            lemma_asts_terms_len(values@);
        }
        if values.len() == 0 {
            let exit = self.push_exit();
            let mut targets: Vec<usize> = Vec::new();
            targets.push(exit);
            let entry = self.push(State::Split(targets));
            proof {
                lemma_empty_concat_fragment(self.table(), exit as int, targets);
                assert(ts =~= Seq::<Term>::empty());
            }
            return Fragment { entry, exit };
        }
        let ghost start = old(self).table();
        let first_fragment = self.compile(&values[0]);
        proof {
            lemma_single_concat_fragment(
                self.table(),
                ts[0],
                start.len() as int,
                self.table().len() as int,
                first_fragment.entry as int,
                first_fragment.exit as int,
            );
            assert(ts.take(1) =~= seq![ts[0]]);
        }
        let mut exit_prev = first_fragment.exit;
        let mut k: usize = 1;
        while k < values.len()
            invariant
                1 <= k <= values@.len(),
                forall|m: int| 0 <= m < values@.len() ==> class_ranges_ok(#[trigger] values@[m]),
                ts == asts_terms(values@),
                ts.len() == values@.len(),
                forall|m: int| 0 <= m < values@.len() ==> #[trigger] ts[m] == values@[m]@,
                table_ok(self.table()),
                start.len() <= self.table().len(),
                forall|q: int| 0 <= q < start.len() ==> self.table()[q] == start[q],
                fragment_of(
                    self.table(),
                    Term::Concat(ts.take(k as int)),
                    start.len() as int,
                    self.table().len() as int,
                    first_fragment.entry as int,
                    exit_prev as int,
                ),
            decreases values@.len() - k,
        {
            let ghost before = self.table();
            let fragment = self.compile(&values[k]);
            let ghost middle = self.table();
            let mut targets: Vec<usize> = Vec::new();
            targets.push(fragment.entry);
            self.patch(exit_prev, State::Split(targets));
            proof {
                let tbl = self.table();
                lemma_fragment_frame(
                    before,
                    tbl,
                    Term::Concat(ts.take(k as int)),
                    start.len() as int,
                    before.len() as int,
                    first_fragment.entry as int,
                    exit_prev as int,
                );
                lemma_fragment_frame(
                    middle,
                    tbl,
                    ts[k as int],
                    before.len() as int,
                    middle.len() as int,
                    fragment.entry as int,
                    fragment.exit as int,
                );
                lemma_concat_step(
                    tbl,
                    ts.take(k as int),
                    ts[k as int],
                    start.len() as int,
                    before.len() as int,
                    middle.len() as int,
                    first_fragment.entry as int,
                    exit_prev as int,
                    fragment.entry as int,
                    fragment.exit as int,
                    targets,
                );
                assert(ts.take(k as int).push(ts[k as int]) =~= ts.take(k + 1));
            }
            exit_prev = fragment.exit;
            k = k + 1;
        }
        proof {
            assert(ts.take(k as int) =~= ts);
        }
        Fragment { entry: first_fragment.entry, exit: exit_prev }
    }

    fn compile_alternation(&mut self, values: &Vec<Ast>) -> (f: Fragment)
        requires
            table_ok(old(self).table()),
            forall|k: int| 0 <= k < values@.len() ==> class_ranges_ok(#[trigger] values@[k]),
        ensures
            compiled(old(self).table(), final(self).table(), Term::Alternation(asts_terms(values@)), f),
        decreases values, 1nat,
    {
        let ghost ts = asts_terms(values@);
        proof {
            lemma_asts_terms_len(values@);
        }
        let ghost start = old(self).table();
        let entry = self.push_exit();
        let exit = self.push_exit();
        let mut split_values: Vec<usize> = Vec::new();
        let ghost mut los: Seq<int> = Seq::empty();
        let ghost mut his: Seq<int> = Seq::empty();
        let ghost mut ens: Seq<int> = Seq::empty();
        let ghost mut exs: Seq<int> = Seq::empty();
        proof {
            assert(closed_region(self.table(), entry as int, self.table().len() as int, exit as int));
        }
        let mut k: usize = 0;
        while k < values.len()
            invariant
                k <= values@.len(),
                forall|m: int| 0 <= m < values@.len() ==> class_ranges_ok(#[trigger] values@[m]),
                ts == asts_terms(values@),
                ts.len() == values@.len(),
                forall|m: int| 0 <= m < values@.len() ==> #[trigger] ts[m] == values@[m]@,
                table_ok(self.table()),
                entry == start.len(),
                exit == entry + 1,
                exit < self.table().len(),
                forall|q: int| 0 <= q < start.len() ==> self.table()[q] == start[q],
                self.table()[entry as int] is Split,
                self.table()[entry as int]->Split_0@.len() == 0,
                closed_region(self.table(), entry as int, self.table().len() as int, exit as int),
                split_values@.len() == k,
                los.len() == k,
                his.len() == k,
                ens.len() == k,
                exs.len() == k,
                forall|m: int| 0 <= m < k ==> #[trigger] split_values@[m] == ens[m],
                forall|m: int|
                    0 <= m < k ==> #[trigger] fragment_of(self.table(), ts[m], los[m], his[m], ens[m], exs[m]),
                forall|m: int| 0 <= m < k ==> exit + 1 <= #[trigger] los[m] && his[m] <= self.table().len(),
                forall|m: int|
                    0 <= m < k ==> self.table()[#[trigger] exs[m]] is Split && self.table()[exs[m]]->Split_0@ == seq![
                        exit,
                    ],
            decreases values@.len() - k,
        {
            let ghost before = self.table();
            let fragment = self.compile(&values[k]);
            let ghost middle = self.table();
            split_values.push(fragment.entry);
            let mut targets: Vec<usize> = Vec::new();
            targets.push(exit);
            self.patch(fragment.exit, State::Split(targets));
            proof {
                let tbl = self.table();
                assert forall|m: int| 0 <= m < k implies #[trigger] fragment_of(tbl, ts[m], los[m], his[m], ens[m], exs[m]) by {
                    lemma_fragment_frame(before, tbl, ts[m], los[m], his[m], ens[m], exs[m]);
                }
                lemma_fragment_frame(
                    middle,
                    tbl,
                    ts[k as int],
                    before.len() as int,
                    middle.len() as int,
                    fragment.entry as int,
                    fragment.exit as int,
                );
                lemma_closed_frame(before, tbl, entry as int, before.len() as int, exit as int);
                assert(targets_within(tbl[fragment.exit as int], entry as int, tbl.len() as int));
                lemma_closed_join(
                    tbl,
                    entry as int,
                    before.len() as int,
                    tbl.len() as int,
                    exit as int,
                    fragment.exit as int,
                    exit as int,
                );
                los = los.push(before.len() as int);
                his = his.push(middle.len() as int);
                ens = ens.push(fragment.entry as int);
                exs = exs.push(fragment.exit as int);
                assert forall|m: int|
                    0 <= m < k + 1 implies tbl[#[trigger] exs[m]] is Split && tbl[exs[m]]->Split_0@ == seq![exit] by {
                    if m < k {
                        assert(fragment_of(before, ts[m], los[m], his[m], ens[m], exs[m]));
                        assert(exs[m] < before.len());
                        assert(middle[exs[m]] == before[exs[m]]);
                        assert(tbl[exs[m]] == before[exs[m]]);
                    }
                }
            }
            k = k + 1;
        }
        let ghost before = self.table();
        let ghost v = split_values;
        proof {
            assert forall|kk: int| 0 <= kk < split_values@.len() implies (#[trigger] split_values@[kk]) < before.len() by {
                assert(fragment_of(before, ts[kk], los[kk], his[kk], ens[kk], exs[kk]));
            }
        }
        self.patch(entry, State::Split(split_values));
        proof {
            let tbl = self.table();
            assert forall|m: int| 0 <= m < k implies #[trigger] fragment_of(tbl, ts[m], los[m], his[m], ens[m], exs[m]) by {
                lemma_fragment_frame(before, tbl, ts[m], los[m], his[m], ens[m], exs[m]);
            }
            assert forall|q: int| entry <= q < tbl.len() && q != exit implies targets_within(#[trigger] tbl[q], entry as int, tbl.len() as int) by {
                if q != entry {
                    assert(tbl[q] == before[q]);
                } else {
                    assert forall|kk: int| 0 <= kk < v@.len() implies entry <= #[trigger] v@[kk] < tbl.len() by {
                        assert(fragment_of(tbl, ts[kk], los[kk], his[kk], ens[kk], exs[kk]));
                    }
                }
            }
            assert forall|m: int| 0 <= m < k implies tbl[#[trigger] exs[m]] is Split && tbl[exs[m]]->Split_0@ == seq![(entry + 1) as usize] by {
                assert(fragment_of(tbl, ts[m], los[m], his[m], ens[m], exs[m]));
                assert(tbl[exs[m]] == before[exs[m]]);
            }
            lemma_alternation_fragment(tbl, ts, entry as int, tbl.len() as int, v, los, his, ens, exs);
        }
        Fragment { entry, exit }
    }

    fn compile_group(&mut self, value: &Ast) -> (f: Fragment)
        requires
            table_ok(old(self).table()),
            class_ranges_ok(*value),
        ensures
            compiled(old(self).table(), final(self).table(), Term::Group(Box::new(value@)), f),
        decreases value, 1nat,
    {
        let f = self.compile(value);
        proof {
            lemma_group_fragment(
                self.table(),
                value@,
                old(self).table().len() as int,
                self.table().len() as int,
                f.entry as int,
                f.exit as int,
            );
        }
        f
    }

    fn compile_dot(&mut self) -> (f: Fragment)
        requires
            table_ok(old(self).table()),
        ensures
            compiled(old(self).table(), final(self).table(), Term::Dot, f),
    {
        let mut newline: Vec<CharRange> = Vec::new();
        newline.push(CharRange::new('\n', '\n'));
        let ranges = CharRange::complement(newline.as_slice());
        proof {
            assert forall|d: char| #[trigger] covers(ranges@, d) == reads(Term::Dot, d) by {
                if d == '\n' {
                    assert(newline@[0].contains_spec(d));
                }
            }
        }
        self.compile_reading(ranges, Ghost(Term::Dot))
    }

    fn compile_char_class(&mut self, items: &Vec<ClassItem>, negative: bool) -> (f: Fragment)
        requires
            table_ok(old(self).table()),
            forall|k: int| 0 <= k < items@.len() ==> item_ok(#[trigger] items@[k]),
        ensures
            compiled(old(self).table(), final(self).table(), Term::CharClass(negative, items@), f),
    {
        let mut ranges: Vec<CharRange> = Vec::new();
        let mut k: usize = 0;
        while k < items.len()
            invariant
                k <= items@.len(),
                forall|m: int| 0 <= m < items@.len() ==> item_ok(#[trigger] items@[m]),
                ranges@.len() == k,
                crate::regex_engine::nfa::all_valid(ranges@),
                forall|m: int, c: char| 0 <= m < k ==> #[trigger] ranges@[m].contains_spec(c) == item_covers(items@[m], c),
            decreases items@.len() - k,
        {
            let range = match items[k] {
                ClassItem::Char(c) => CharRange::new(c, c),
                ClassItem::Range(c1, c2) => CharRange::new(c1, c2),
            };
            ranges.push(range);
            k = k + 1;
        }
        proof {
            assert forall|c: char| #[trigger] covers(ranges@, c) == class_covers(items@, c) by {
                if covers(ranges@, c) {
                    let m = choose|m: int| 0 <= m < ranges@.len() && (#[trigger] ranges@[m]).contains_spec(c);
                    assert(item_covers(items@[m], c));
                }
                if class_covers(items@, c) {
                    let m = choose|m: int| 0 <= m < items@.len() && #[trigger] item_covers(items@[m], c);
                    assert(ranges@[m].contains_spec(c));
                }
            }
        }
        if negative {
            ranges = CharRange::complement(ranges.as_slice());
        }
        self.compile_reading(ranges, Ghost(Term::CharClass(negative, items@)))
    }

    fn compile_repetition(&mut self, kind: RepetitionKind, value: &Ast) -> (f: Fragment)
        requires
            table_ok(old(self).table()),
            class_ranges_ok(*value),
        ensures
            compiled(old(self).table(), final(self).table(), Term::Repetition(kind, Box::new(value@)), f),
        decreases value, 1nat,
    {
        let ghost start = old(self).table();
        let inner = self.compile(value);
        let ghost after_inner = self.table();
        let exit = self.push_exit();
        let mut entry_targets: Vec<usize> = Vec::new();
        entry_targets.push(inner.entry);
        let mut exit_targets: Vec<usize> = Vec::new();
        match kind {
            RepetitionKind::ZeroOrOne => {
                entry_targets.push(exit);
                exit_targets.push(exit);
                assert(entry_targets@ =~= seq![inner.entry, exit]);
                assert(exit_targets@ =~= seq![exit]);
            },
            RepetitionKind::ZeroOrMore => {
                entry_targets.push(exit);
                exit_targets.push(inner.entry);
                exit_targets.push(exit);
                assert(entry_targets@ =~= seq![inner.entry, exit]);
                assert(exit_targets@ =~= seq![inner.entry, exit]);
            },
            RepetitionKind::OneOrMore => {
                exit_targets.push(inner.entry);
                exit_targets.push(exit);
                assert(entry_targets@ =~= seq![inner.entry]);
                assert(exit_targets@ =~= seq![inner.entry, exit]);
            },
        }
        let ghost xv = exit_targets;
        let entry = self.push(State::Split(entry_targets));
        let ghost ev = entry_targets;
        self.patch(inner.exit, State::Split(exit_targets));
        proof {
            let tbl = self.table();
            lemma_fragment_frame(
                after_inner,
                tbl,
                value@,
                start.len() as int,
                after_inner.len() as int,
                inner.entry as int,
                inner.exit as int,
            );
            assert(tbl[entry as int] == State::Split(ev));
            assert(tbl[inner.exit as int] == State::Split(xv));
            lemma_repetition_fragment(
                tbl,
                kind,
                value@,
                start.len() as int,
                exit as int,
                inner.entry as int,
                inner.exit as int,
                ev,
            );
        }
        Fragment { entry, exit }
    }

    /// A fragment that moves on only where `kind` holds.
    fn compile_assert(&mut self, kind: AssertKind, term: Ghost<Term>) -> (f: Fragment)
        requires
            table_ok(old(self).table()),
            term@ is StartAnchor ==> kind is Start,
            term@ is EndAnchor ==> kind is End,
            term@ is WordBoundary ==> kind is WordBoundary,
            term@ is WordStart ==> kind is WordStart,
            term@ is WordEnd ==> kind is WordEnd,
            term@ is StartAnchor || term@ is EndAnchor || term@ is WordBoundary || term@ is WordStart
                || term@ is WordEnd,
        ensures
            compiled(old(self).table(), final(self).table(), term@, f),
    {
        let exit = self.push_exit();
        let entry = self.push(State::Assert(kind, exit));
        proof {
            lemma_assert_fragment(self.table(), exit as int, kind, term@);
        }
        Fragment { entry, exit }
    }
}

/// The table `after` is the table `before` with a fragment for `term`
/// laid out after it: the states before are kept, the new states are all
/// that follow them, and they form a fragment entered at `f.entry` and left
/// by `f.exit`.
pub open spec fn compiled(before: Seq<State>, after: Seq<State>, term: Term, f: Fragment) -> bool {
    &&& table_ok(after)
    &&& before.len() <= after.len()
    &&& forall|q: int| 0 <= q < before.len() ==> after[q] == before[q]
    &&& fragment_of(after, term, before.len() as int, after.len() as int, f.entry as int, f.exit as int)
}

/// A run that comes to an accepting state ends there.
proof fn lemma_accept_is_last(tbl: Seq<State>, t: Seq<char>, ci: bool, a: (int, int), x: int, e: int)
    requires
        0 <= x < tbl.len(),
        tbl[x] is Match,
        reach(tbl, t, ci, a, (x, e)),
    ensures
        reach_first(tbl, t, ci, a, x, e),
{
    let path = choose|path: Seq<(int, int)>| #[trigger] is_run(tbl, t, ci, path) && path[0] == a && path.last() == (x, e);
    assert forall|k: int| 0 <= k < path.len() - 1 implies (#[trigger] path[k]).0 != x by {
        assert(run_step(tbl, t, ci, path, k));
    }
}

} // verus!
