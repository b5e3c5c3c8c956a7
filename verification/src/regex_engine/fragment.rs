//! What a fragment of automaton under construction matches: the states of a
//! stretch of the table, entered at one state and left by another, accept
//! exactly what a term matches.
use vstd::prelude::*;
use crate::regex_engine::ast::{
    RepetitionKind,
    Term,
    count_ok,
    lemma_alternation_matches,
    lemma_concat_matches,
    lemma_condition_matches,
    lemma_group_matches,
    lemma_leaf_matches,
    lemma_matches_range,
    lemma_pieces_forward,
    lemma_repetition_matches,
    pieces,
    reads,
    term_matches,
};
use crate::regex_engine::nfa::{
    AssertKind,
    CharRange,
    State,
    avoids,
    char_ok,
    covers,
    is_run,
    lemma_run_join,
    lemma_run_positions,
    lemma_run_subrange,
    reach_first,
    run_step,
    step,
};

verus! {

/// Every state that `s` leads to lies in `lo..hi`.
pub open spec fn targets_within(s: State, lo: int, hi: int) -> bool {
    match s {
        State::Split(ts) => forall|k: int| 0 <= k < ts@.len() ==> lo <= #[trigger] ts@[k] < hi,
        State::Consuming(_, t) => lo <= t < hi,
        State::Assert(_, t) => lo <= t < hi,
        State::Match => true,
    }
}

/// The states `lo..hi` of `tbl`, but `x`, lead only to states `lo..hi`.
pub open spec fn closed_region(tbl: Seq<State>, lo: int, hi: int, x: int) -> bool {
    &&& 0 <= lo <= hi <= tbl.len()
    &&& forall|q: int| lo <= q < hi && q != x ==> targets_within(#[trigger] tbl[q], lo, hi)
}

/// The states `lo..hi` of `tbl` are a fragment for `term`: entered at
/// `entry`, they come to `exit` from position `s` at position `e` exactly
/// when `term` matches from `s` to `e`.
pub open spec fn fragment_of(tbl: Seq<State>, term: Term, lo: int, hi: int, entry: int, exit: int) -> bool {
    &&& lo <= entry < hi
    &&& lo <= exit < hi
    &&& entry != exit
    &&& closed_region(tbl, lo, hi, exit)
    &&& forall|t: Seq<char>, ci: bool, s: int, e: int|
        #![trigger reach_first(tbl, t, ci, (entry, s), exit, e)]
        #![trigger term_matches(term, t, ci, s, e)]
        0 <= s <= t.len() ==> (reach_first(tbl, t, ci, (entry, s), exit, e) <==> term_matches(term, t, ci, s, e))
}

pub proof fn lemma_within_grow(s: State, lo: int, hi: int, lo2: int, hi2: int)
    requires
        targets_within(s, lo, hi),
        lo2 <= lo,
        hi <= hi2,
    ensures
        targets_within(s, lo2, hi2),
{
}

/// A run that starts in a closed region and has not come to its exit stays
/// in the region.
pub proof fn lemma_run_in_region(
    tbl: Seq<State>,
    lo: int,
    hi: int,
    x: int,
    t: Seq<char>,
    ci: bool,
    path: Seq<(int, int)>,
    k: int,
)
    requires
        closed_region(tbl, lo, hi, x),
        is_run(tbl, t, ci, path),
        lo <= path[0].0 < hi,
        0 <= k < path.len(),
        forall|m: int| 0 <= m < k ==> (#[trigger] path[m]).0 != x,
    ensures
        lo <= path[k].0 < hi,
    decreases k,
{
    if k > 0 {
        lemma_run_in_region(tbl, lo, hi, x, t, ci, path, k - 1);
        assert(run_step(tbl, t, ci, path, k - 1));
        let q = path[k - 1].0;
        assert(path[k - 1].0 != x);
        assert(targets_within(tbl[q], lo, hi));
        match tbl[q] {
            State::Split(ts) => {
                let kk = choose|kk: int| 0 <= kk < ts@.len() && (#[trigger] ts@[kk]) == path[k].0;
                assert(lo <= ts@[kk] < hi);
            },
            _ => {},
        }
    }
}

/// The first index at which a run that starts in a closed region and ends
/// outside it, or at its exit, is at the exit.
pub proof fn lemma_exit_index(
    tbl: Seq<State>,
    lo: int,
    hi: int,
    x: int,
    t: Seq<char>,
    ci: bool,
    path: Seq<(int, int)>,
    k: int,
) -> (j: int)
    requires
        closed_region(tbl, lo, hi, x),
        is_run(tbl, t, ci, path),
        lo <= path[0].0 < hi,
        !(lo <= path.last().0 < hi) || path.last().0 == x,
        0 <= k < path.len(),
        forall|m: int| 0 <= m < k ==> (#[trigger] path[m]).0 != x,
    ensures
        k <= j < path.len(),
        path[j].0 == x,
        forall|m: int| 0 <= m < j ==> (#[trigger] path[m]).0 != x,
        forall|m: int| 0 <= m <= j ==> lo <= (#[trigger] path[m]).0 < hi,
    decreases path.len() - k,
{
    lemma_run_in_region(tbl, lo, hi, x, t, ci, path, k);
    if path[k].0 == x {
        assert forall|m: int| 0 <= m <= k implies lo <= (#[trigger] path[m]).0 < hi by {
            lemma_run_in_region(tbl, lo, hi, x, t, ci, path, m);
        }
        k
    } else {
        if k == path.len() - 1 {
            assert(false);
        }
        lemma_exit_index(tbl, lo, hi, x, t, ci, path, k + 1)
    }
}

/// The part of a run up to its first visit of `x` comes first to `x` there.
pub proof fn lemma_prefix_first(st: Seq<State>, t: Seq<char>, ci: bool, path: Seq<(int, int)>, j: int, x: int)
    requires
        is_run(st, t, ci, path),
        0 <= j < path.len(),
        path[j].0 == x,
        forall|m: int| 0 <= m < j ==> (#[trigger] path[m]).0 != x,
    ensures
        reach_first(st, t, ci, path[0], x, path[j].1),
{
    lemma_run_subrange(st, t, ci, path, 0, j + 1);
    let pre = path.subrange(0, j + 1);
    assert(pre[0] == path[0]);
    assert(pre.last() == (x, path[j].1));
    assert forall|m: int| 0 <= m < pre.len() - 1 implies (#[trigger] pre[m]).0 != x by {
        assert(pre[m] == path[m]);
    }
}

/// The part of a run from index `j` on, where the run avoids `x`.
pub proof fn lemma_suffix_first(st: Seq<State>, t: Seq<char>, ci: bool, path: Seq<(int, int)>, j: int, x: int, e: int)
    requires
        is_run(st, t, ci, path),
        0 <= j < path.len(),
        path.last() == (x, e),
        avoids(path, x),
    ensures
        reach_first(st, t, ci, path[j], x, e),
{
    lemma_run_subrange(st, t, ci, path, j, path.len() as int);
    let post = path.subrange(j, path.len() as int);
    assert(post[0] == path[j]);
    assert(post.last() == path.last());
    assert forall|m: int| 0 <= m < post.len() - 1 implies (#[trigger] post[m]).0 != x by {
        assert(post[m] == path[j + m]);
    }
}

/// First visits of the exit of a closed region, from inside it, do not
/// depend on the states outside the region or on the exit itself.
pub proof fn lemma_reach_first_frame(
    tbl1: Seq<State>,
    tbl2: Seq<State>,
    lo: int,
    hi: int,
    x: int,
    t: Seq<char>,
    ci: bool,
    a: (int, int),
    e: int,
)
    requires
        closed_region(tbl1, lo, hi, x),
        hi <= tbl2.len(),
        lo <= a.0 < hi,
        forall|q: int| lo <= q < hi && q != x ==> tbl2[q] == tbl1[q],
        reach_first(tbl1, t, ci, a, x, e),
    ensures
        reach_first(tbl2, t, ci, a, x, e),
{
    let path = choose|path: Seq<(int, int)>|
        #[trigger] is_run(tbl1, t, ci, path) && path[0] == a && path.last() == (x, e) && avoids(path, x);
    assert forall|k: int| 0 <= k < path.len() - 1 implies #[trigger] run_step(tbl2, t, ci, path, k) by {
        lemma_run_in_region(tbl1, lo, hi, x, t, ci, path, k);
        assert(run_step(tbl1, t, ci, path, k));
        assert(path[k].0 != x);
        assert(tbl2[path[k].0] == tbl1[path[k].0]);
    }
    assert(is_run(tbl2, t, ci, path));
}

/// A fragment stays a fragment when only states outside it, or its exit,
/// change.
pub proof fn lemma_fragment_frame(tbl1: Seq<State>, tbl2: Seq<State>, term: Term, lo: int, hi: int, entry: int, exit: int)
    requires
        fragment_of(tbl1, term, lo, hi, entry, exit),
        hi <= tbl2.len(),
        forall|q: int| lo <= q < hi && q != exit ==> tbl2[q] == tbl1[q],
    ensures
        fragment_of(tbl2, term, lo, hi, entry, exit),
{
    assert forall|q: int| lo <= q < hi && q != exit implies targets_within(#[trigger] tbl2[q], lo, hi) by {
        assert(tbl2[q] == tbl1[q]);
    }
    assert(closed_region(tbl2, lo, hi, exit));
    assert forall|t: Seq<char>, ci: bool, s: int, e: int| 0 <= s <= t.len() implies (reach_first(
        tbl2,
        t,
        ci,
        (entry, s),
        exit,
        e,
    ) <==> term_matches(term, t, ci, s, e)) by {
        if reach_first(tbl1, t, ci, (entry, s), exit, e) {
            lemma_reach_first_frame(tbl1, tbl2, lo, hi, exit, t, ci, (entry, s), e);
        }
        if reach_first(tbl2, t, ci, (entry, s), exit, e) {
            lemma_reach_first_frame(tbl2, tbl1, lo, hi, exit, t, ci, (entry, s), e);
        }
        assert(reach_first(tbl1, t, ci, (entry, s), exit, e) <==> term_matches(term, t, ci, s, e));
    }
}

/// Two adjacent closed regions make one, when each exit but the new one
/// leads into the whole.
pub proof fn lemma_closed_join(tbl: Seq<State>, lo: int, mid: int, hi: int, x1: int, x2: int, x: int)
    requires
        closed_region(tbl, lo, mid, x1),
        closed_region(tbl, mid, hi, x2),
        lo <= x1 < mid && x1 != x ==> targets_within(tbl[x1], lo, hi),
        mid <= x2 < hi && x2 != x ==> targets_within(tbl[x2], lo, hi),
    ensures
        closed_region(tbl, lo, hi, x),
{
    assert forall|q: int| lo <= q < hi && q != x implies targets_within(#[trigger] tbl[q], lo, hi) by {
        if q < mid {
            if q != x1 {
                lemma_within_grow(tbl[q], lo, mid, lo, hi);
            }
        } else {
            if q != x2 {
                lemma_within_grow(tbl[q], mid, hi, lo, hi);
            }
        }
    }
}


/// A run that ends elsewhere than it starts has a first move, and a run
/// that came to `x` for the first time ends there.
proof fn lemma_first_move(st: Seq<State>, t: Seq<char>, ci: bool, path: Seq<(int, int)>, x: int, e: int)
    requires
        is_run(st, t, ci, path),
        path.last() == (x, e),
        path[0].0 != x,
    ensures
        path.len() >= 2,
        step(st, t, ci, path[0], path[1]),
        path[0].1 <= e <= t.len(),
{
    if path.len() == 1 {
        assert(path[0] == path.last());
    }
    assert(run_step(st, t, ci, path, 0));
    lemma_run_positions(st, t, ci, path, path.len() - 1);
}

/// A reading state that leads to the state just before it is a fragment for
/// a term that reads one character, when its ranges cover what the term
/// reads.
pub proof fn lemma_reading_fragment(tbl: Seq<State>, lo: int, rs: Vec<CharRange>, term: Term)
    requires
        0 <= lo < usize::MAX,
        lo + 2 <= tbl.len(),
        tbl[lo + 1] == State::Consuming(rs, lo as usize),
        term is Literal || term is Dot || term is CharClass,
        forall|c: char| #[trigger] covers(rs@, c) == reads(term, c),
    ensures
        fragment_of(tbl, term, lo, lo + 2, lo + 1, lo),
{
    assert(targets_within(tbl[lo + 1], lo, lo + 2));
    assert(closed_region(tbl, lo, lo + 2, lo));
    assert forall|t: Seq<char>, ci: bool, s: int, e: int| 0 <= s <= t.len() implies (reach_first(
        tbl,
        t,
        ci,
        (lo + 1, s),
        lo,
        e,
    ) <==> term_matches(term, t, ci, s, e)) by {
        lemma_leaf_matches(term, t, ci, s, e);
        if reach_first(tbl, t, ci, (lo + 1, s), lo, e) {
            let path = choose|path: Seq<(int, int)>|
                #[trigger] is_run(tbl, t, ci, path) && path[0] == (lo + 1, s) && path.last() == (lo, e) && avoids(path, lo);
            lemma_first_move(tbl, t, ci, path, lo, e);
            if path.len() > 2 {
                assert(path[1].0 != lo);
            }
            assert(path[1] == path.last());
            assert(char_ok(rs@, t[s], ci));
        }
        if term_matches(term, t, ci, s, e) {
            let path = seq![(lo + 1, s), (lo, s + 1)];
            assert(char_ok(rs@, t[s], ci));
            assert(run_step(tbl, t, ci, path, 0));
            assert(is_run(tbl, t, ci, path));
            assert(avoids(path, lo));
        }
    }
}

/// A condition state that leads to the state just before it is a fragment
/// for the condition term of the same kind.
pub proof fn lemma_assert_fragment(tbl: Seq<State>, lo: int, kind: AssertKind, term: Term)
    requires
        0 <= lo < usize::MAX,
        lo + 2 <= tbl.len(),
        tbl[lo + 1] == State::Assert(kind, lo as usize),
        term is StartAnchor ==> kind is Start,
        term is EndAnchor ==> kind is End,
        term is WordBoundary ==> kind is WordBoundary,
        term is WordStart ==> kind is WordStart,
        term is WordEnd ==> kind is WordEnd,
        term is StartAnchor || term is EndAnchor || term is WordBoundary || term is WordStart || term is WordEnd,
    ensures
        fragment_of(tbl, term, lo, lo + 2, lo + 1, lo),
{
    assert(targets_within(tbl[lo + 1], lo, lo + 2));
    assert(closed_region(tbl, lo, lo + 2, lo));
    assert forall|t: Seq<char>, ci: bool, s: int, e: int| 0 <= s <= t.len() implies (reach_first(
        tbl,
        t,
        ci,
        (lo + 1, s),
        lo,
        e,
    ) <==> term_matches(term, t, ci, s, e)) by {
        lemma_condition_matches(term, kind, t, ci, s, e);
        if reach_first(tbl, t, ci, (lo + 1, s), lo, e) {
            let path = choose|path: Seq<(int, int)>|
                #[trigger] is_run(tbl, t, ci, path) && path[0] == (lo + 1, s) && path.last() == (lo, e) && avoids(path, lo);
            lemma_first_move(tbl, t, ci, path, lo, e);
            if path.len() > 2 {
                assert(path[1].0 != lo);
            }
            assert(path[1] == path.last());
        }
        if term_matches(term, t, ci, s, e) {
            let path = seq![(lo + 1, s), (lo, s)];
            assert(run_step(tbl, t, ci, path, 0));
            assert(is_run(tbl, t, ci, path));
            assert(avoids(path, lo));
        }
    }
}

/// A state that moves straight on to the state before it is a fragment for
/// the empty sequence of terms.
pub proof fn lemma_empty_concat_fragment(tbl: Seq<State>, lo: int, v: Vec<usize>)
    requires
        0 <= lo < usize::MAX,
        lo + 2 <= tbl.len(),
        tbl[lo + 1] == State::Split(v),
        v@ == seq![lo as usize],
    ensures
        fragment_of(tbl, Term::Concat(Seq::empty()), lo, lo + 2, lo + 1, lo),
{
    assert(targets_within(tbl[lo + 1], lo, lo + 2));
    assert(closed_region(tbl, lo, lo + 2, lo));
    let ts = Seq::<Term>::empty();
    assert forall|t: Seq<char>, ci: bool, s: int, e: int| 0 <= s <= t.len() implies (reach_first(
        tbl,
        t,
        ci,
        (lo + 1, s),
        lo,
        e,
    ) <==> term_matches(Term::Concat(ts), t, ci, s, e)) by {
        lemma_concat_matches(ts, t, ci, s, e);
        if reach_first(tbl, t, ci, (lo + 1, s), lo, e) {
            let path = choose|path: Seq<(int, int)>|
                #[trigger] is_run(tbl, t, ci, path) && path[0] == (lo + 1, s) && path.last() == (lo, e) && avoids(path, lo);
            lemma_first_move(tbl, t, ci, path, lo, e);
            if path.len() > 2 {
                assert(path[1].0 != lo);
            }
            assert(path[1] == path.last());
            assert(pieces(seq![s], ts.len() as int, s, e));
        }
        if term_matches(Term::Concat(ts), t, ci, s, e) {
            let path = seq![(lo + 1, s), (lo, s)];
            assert(v@[0] == lo as usize);
            assert(run_step(tbl, t, ci, path, 0));
            assert(is_run(tbl, t, ci, path));
            assert(avoids(path, lo));
        }
    }
}

/// A fragment for a term is one for the term in a group.
pub proof fn lemma_group_fragment(tbl: Seq<State>, term: Term, lo: int, hi: int, entry: int, exit: int)
    requires
        fragment_of(tbl, term, lo, hi, entry, exit),
    ensures
        fragment_of(tbl, Term::Group(Box::new(term)), lo, hi, entry, exit),
{
    assert forall|t: Seq<char>, ci: bool, s: int, e: int| 0 <= s <= t.len() implies (reach_first(
        tbl,
        t,
        ci,
        (entry, s),
        exit,
        e,
    ) <==> term_matches(Term::Group(Box::new(term)), t, ci, s, e)) by {
        lemma_group_matches(term, t, ci, s, e);
        assert(reach_first(tbl, t, ci, (entry, s), exit, e) <==> term_matches(term, t, ci, s, e));
    }
}

/// A fragment for a term is one for the sequence of that term alone.
pub proof fn lemma_single_concat_fragment(tbl: Seq<State>, term: Term, lo: int, hi: int, entry: int, exit: int)
    requires
        fragment_of(tbl, term, lo, hi, entry, exit),
    ensures
        fragment_of(tbl, Term::Concat(seq![term]), lo, hi, entry, exit),
{
    let ts = seq![term];
    assert forall|t: Seq<char>, ci: bool, s: int, e: int| 0 <= s <= t.len() implies (reach_first(
        tbl,
        t,
        ci,
        (entry, s),
        exit,
        e,
    ) <==> term_matches(Term::Concat(ts), t, ci, s, e)) by {
        lemma_concat_matches(ts, t, ci, s, e);
        assert(reach_first(tbl, t, ci, (entry, s), exit, e) <==> term_matches(term, t, ci, s, e));
        if term_matches(term, t, ci, s, e) {
            let ps = seq![s, e];
            assert(pieces(ps, ts.len() as int, s, e));
            assert(ts[0] == term);
            assert(term_matches(ts[0], t, ci, ps[0], ps[1]));
        }
        if term_matches(Term::Concat(ts), t, ci, s, e) {
            let ps = choose|ps: Seq<int>|
                #[trigger] pieces(ps, ts.len() as int, s, e) && forall|k: int|
                    0 <= k < ts.len() ==> #[trigger] term_matches(ts[k], t, ci, ps[k], ps[k + 1]);
            assert(term_matches(ts[0], t, ci, ps[0], ps[1]));
        }
    }
}


/// A move from `a` to `b`, then a first visit of `x` from `b`: a first
/// visit of `x` from `a`.
pub proof fn lemma_prepend(tbl: Seq<State>, t: Seq<char>, ci: bool, a: (int, int), b: (int, int), x: int, e: int)
    requires
        step(tbl, t, ci, a, b),
        a.0 != x,
        reach_first(tbl, t, ci, b, x, e),
    ensures
        reach_first(tbl, t, ci, a, x, e),
{
    let p2 = choose|path: Seq<(int, int)>|
        #[trigger] is_run(tbl, t, ci, path) && path[0] == b && path.last() == (x, e) && avoids(path, x);
    let link = seq![a, b];
    assert(run_step(tbl, t, ci, link, 0));
    assert(is_run(tbl, t, ci, link));
    lemma_run_join(tbl, t, ci, link, p2);
    let r = link + p2.drop_first();
    assert forall|k: int| 0 <= k < r.len() - 1 implies (#[trigger] r[k]).0 != x by {
        if k > 0 {
            assert(r[1 + (k - 1)] == p2[k - 1]);
        }
    }
}

/// The first move of a first visit of `x` from elsewhere, and the rest.
pub proof fn lemma_unprepend(tbl: Seq<State>, t: Seq<char>, ci: bool, a: (int, int), x: int, e: int) -> (b: (int, int))
    requires
        reach_first(tbl, t, ci, a, x, e),
        a.0 != x,
    ensures
        step(tbl, t, ci, a, b),
        reach_first(tbl, t, ci, b, x, e),
{
    let path = choose|path: Seq<(int, int)>|
        #[trigger] is_run(tbl, t, ci, path) && path[0] == a && path.last() == (x, e) && avoids(path, x);
    lemma_first_move(tbl, t, ci, path, x, e);
    lemma_suffix_first(tbl, t, ci, path, 1, x, e);
    path[1]
}

/// A first visit of `x1` from `a` inside a closed region, a move from `x1`
/// to `y` in place, and a first visit of `x2`, outside the region, from
/// `y`: a first visit of `x2` from `a`.
pub proof fn lemma_chain(
    tbl: Seq<State>,
    lo: int,
    hi: int,
    t: Seq<char>,
    ci: bool,
    a: (int, int),
    x1: int,
    m: int,
    y: int,
    x2: int,
    e: int,
)
    requires
        closed_region(tbl, lo, hi, x1),
        lo <= a.0 < hi,
        !(lo <= x2 < hi),
        reach_first(tbl, t, ci, a, x1, m),
        step(tbl, t, ci, (x1, m), (y, m)),
        reach_first(tbl, t, ci, (y, m), x2, e),
    ensures
        reach_first(tbl, t, ci, a, x2, e),
{
    let p1 = choose|path: Seq<(int, int)>|
        #[trigger] is_run(tbl, t, ci, path) && path[0] == a && path.last() == (x1, m) && avoids(path, x1);
    let p2 = choose|path: Seq<(int, int)>|
        #[trigger] is_run(tbl, t, ci, path) && path[0] == (y, m) && path.last() == (x2, e) && avoids(path, x2);
    let link = seq![(x1, m), (y, m)];
    assert(run_step(tbl, t, ci, link, 0));
    assert(is_run(tbl, t, ci, link));
    lemma_run_join(tbl, t, ci, p1, link);
    let q = p1 + link.drop_first();
    lemma_run_join(tbl, t, ci, q, p2);
    let r = q + p2.drop_first();
    assert forall|k: int| 0 <= k < r.len() - 1 implies (#[trigger] r[k]).0 != x2 by {
        if k < p1.len() {
            assert(r[k] == q[k]);
            assert(q[k] == p1[k]);
            lemma_run_in_region(tbl, lo, hi, x1, t, ci, p1, k);
        } else {
            let i = k - (p1.len() as int);
            assert(r[q.len() - 1 + i] == p2[i]);
        }
    }
}

/// A first visit of `x2` from `a` in a closed region whose exit `x1` moves
/// on in place, where `x2` lies outside the region: it passes through
/// `x1`, at the position it returns first, then moves on to the state it
/// returns second.
pub proof fn lemma_unchain(
    tbl: Seq<State>,
    lo: int,
    hi: int,
    t: Seq<char>,
    ci: bool,
    a: (int, int),
    x1: int,
    x2: int,
    e: int,
) -> (r: (int, int))
    requires
        closed_region(tbl, lo, hi, x1),
        lo <= a.0 < hi,
        !(lo <= x2 < hi),
        tbl[x1] is Split,
        reach_first(tbl, t, ci, a, x2, e),
    ensures
        reach_first(tbl, t, ci, a, x1, r.0),
        step(tbl, t, ci, (x1, r.0), (r.1, r.0)),
        reach_first(tbl, t, ci, (r.1, r.0), x2, e),
        0 <= r.0 <= t.len(),
{
    let path = choose|path: Seq<(int, int)>|
        #[trigger] is_run(tbl, t, ci, path) && path[0] == a && path.last() == (x2, e) && avoids(path, x2);
    let j = lemma_exit_index(tbl, lo, hi, x1, t, ci, path, 0);
    lemma_prefix_first(tbl, t, ci, path, j, x1);
    if j == path.len() - 1 {
        assert(path[j].0 == x2);
    }
    assert(run_step(tbl, t, ci, path, j));
    lemma_suffix_first(tbl, t, ci, path, j + 1, x2, e);
    (path[j].1, path[j + 1].0)
}

/// A fragment for a sequence of terms, whose exit moves on to the entry of
/// a fragment for one more term just after it, makes with it a fragment
/// for the longer sequence.
pub proof fn lemma_concat_step(
    tbl: Seq<State>,
    ts: Seq<Term>,
    u: Term,
    lo: int,
    mid: int,
    hi: int,
    ea: int,
    xa: int,
    eb: int,
    xb: int,
    v: Vec<usize>,
)
    requires
        fragment_of(tbl, Term::Concat(ts), lo, mid, ea, xa),
        fragment_of(tbl, u, mid, hi, eb, xb),
        tbl[xa] == State::Split(v),
        v@.len() == 1,
        v@[0] == eb,
    ensures
        fragment_of(tbl, Term::Concat(ts.push(u)), lo, hi, ea, xb),
{
    assert(targets_within(tbl[xa], lo, hi));
    lemma_closed_join(tbl, lo, mid, hi, xa, xb, xb);
    let us = ts.push(u);
    let n = ts.len() as int;
    assert forall|t: Seq<char>, ci: bool, s: int, e: int| 0 <= s <= t.len() implies (reach_first(
        tbl,
        t,
        ci,
        (ea, s),
        xb,
        e,
    ) <==> term_matches(Term::Concat(us), t, ci, s, e)) by {
        lemma_concat_matches(us, t, ci, s, e);
        if reach_first(tbl, t, ci, (ea, s), xb, e) {
            let r = lemma_unchain(tbl, lo, mid, t, ci, (ea, s), xa, xb, e);
            let m = r.0;
            assert(r.1 == eb);
            assert(term_matches(Term::Concat(ts), t, ci, s, m));
            assert(term_matches(u, t, ci, m, e));
            lemma_matches_range(u, t, ci, m, e);
            lemma_matches_range(Term::Concat(ts), t, ci, s, m);
            lemma_concat_matches(ts, t, ci, s, m);
            let ps = choose|ps: Seq<int>|
                #[trigger] pieces(ps, ts.len() as int, s, m) && forall|k: int|
                    0 <= k < ts.len() ==> #[trigger] term_matches(ts[k], t, ci, ps[k], ps[k + 1]);
            let ps2 = ps.push(e);
            assert(pieces(ps2, us.len() as int, s, e));
            assert forall|k: int| 0 <= k < us.len() implies #[trigger] term_matches(us[k], t, ci, ps2[k], ps2[k + 1]) by {
                if k < n {
                    assert(us[k] == ts[k]);
                    assert(ps2[k] == ps[k]);
                    assert(ps2[k + 1] == ps[k + 1]);
                } else {
                    assert(us[k] == u);
                    assert(ps2[k] == m);
                }
            }
        }
        if term_matches(Term::Concat(us), t, ci, s, e) {
            let ps2 = choose|ps: Seq<int>|
                #[trigger] pieces(ps, us.len() as int, s, e) && forall|k: int|
                    0 <= k < us.len() ==> #[trigger] term_matches(us[k], t, ci, ps[k], ps[k + 1]);
            let m = ps2[n];
            let ps = ps2.take(n + 1);
            assert forall|k: int| 0 <= k < ts.len() implies #[trigger] term_matches(ts[k], t, ci, ps[k], ps[k + 1]) by {
                assert(us[k] == ts[k]);
                assert(term_matches(us[k], t, ci, ps2[k], ps2[k + 1]));
            }
            lemma_pieces_forward(ts, t, ci, ps, n);
            assert(term_matches(us[n], t, ci, ps2[n], ps2[n + 1]));
            assert(us[n] == u);
            lemma_matches_range(u, t, ci, m, e);
            assert(pieces(ps, ts.len() as int, s, m));
            lemma_concat_matches(ts, t, ci, s, m);
            assert(reach_first(tbl, t, ci, (ea, s), xa, m));
            assert(reach_first(tbl, t, ci, (eb, m), xb, e));
            assert(v@[0] == eb);
            assert(step(tbl, t, ci, (xa, m), (eb, m)));
            lemma_chain(tbl, lo, mid, t, ci, (ea, s), xa, m, eb, xb, e);
        }
    }
}

/// A state is first visited where a run starts in it, and only there.
pub proof fn lemma_first_here(tbl: Seq<State>, t: Seq<char>, ci: bool, x: int, p: int, e: int)
    ensures
        reach_first(tbl, t, ci, (x, p), x, p),
        reach_first(tbl, t, ci, (x, p), x, e) ==> e == p,
{
    let path = seq![(x, p)];
    assert(is_run(tbl, t, ci, path));
    assert(avoids(path, x));
    if reach_first(tbl, t, ci, (x, p), x, e) {
        let q = choose|path: Seq<(int, int)>|
            #[trigger] is_run(tbl, t, ci, path) && path[0] == (x, p) && path.last() == (x, e) && avoids(path, x);
        if q.len() > 1 {
            assert(q[0].0 != x);
        }
        assert(q[0] == q.last());
    }
}

/// A first visit of another state than the one a run starts in lies ahead
/// in the text.
pub proof fn lemma_first_range(tbl: Seq<State>, t: Seq<char>, ci: bool, a: (int, int), x: int, e: int)
    requires
        reach_first(tbl, t, ci, a, x, e),
        a.0 != x,
    ensures
        a.1 <= e <= t.len(),
        0 <= a.1,
{
    let path = choose|path: Seq<(int, int)>|
        #[trigger] is_run(tbl, t, ci, path) && path[0] == a && path.last() == (x, e) && avoids(path, x);
    lemma_first_move(tbl, t, ci, path, x, e);
}

/// An entry at `lo` that moves to the entries of fragments for the branches,
/// each of whose exits moves to the exit at `lo + 1`: a fragment for the
/// alternation of the branches.
pub proof fn lemma_alternation_fragment(
    tbl: Seq<State>,
    ts: Seq<Term>,
    lo: int,
    hi: int,
    v: Vec<usize>,
    los: Seq<int>,
    his: Seq<int>,
    ens: Seq<int>,
    exs: Seq<int>,
)
    requires
        0 <= lo,
        lo + 2 <= hi,
        lo + 1 <= usize::MAX,
        closed_region(tbl, lo, hi, lo + 1),
        tbl[lo] == State::Split(v),
        v@.len() == ts.len(),
        los.len() == ts.len(),
        his.len() == ts.len(),
        ens.len() == ts.len(),
        exs.len() == ts.len(),
        forall|m: int| 0 <= m < ts.len() ==> #[trigger] v@[m] == ens[m],
        forall|m: int| 0 <= m < ts.len() ==> #[trigger] fragment_of(tbl, ts[m], los[m], his[m], ens[m], exs[m]),
        forall|m: int| 0 <= m < ts.len() ==> lo + 2 <= #[trigger] los[m] && his[m] <= hi,
        forall|m: int|
            0 <= m < ts.len() ==> tbl[#[trigger] exs[m]] is Split && tbl[exs[m]]->Split_0@ == seq![(lo + 1) as usize],
    ensures
        fragment_of(tbl, Term::Alternation(ts), lo, hi, lo, lo + 1),
{
    let x = lo + 1;
    assert forall|t: Seq<char>, ci: bool, s: int, e: int| 0 <= s <= t.len() implies (reach_first(
        tbl,
        t,
        ci,
        (lo, s),
        x,
        e,
    ) <==> term_matches(Term::Alternation(ts), t, ci, s, e)) by {
        lemma_alternation_matches(ts, t, ci, s, e);
        if reach_first(tbl, t, ci, (lo, s), x, e) {
            let b = lemma_unprepend(tbl, t, ci, (lo, s), x, e);
            let k = choose|k: int| 0 <= k < v@.len() && (#[trigger] v@[k]) == b.0;
            assert(v@[k] == ens[k]);
            assert(fragment_of(tbl, ts[k], los[k], his[k], ens[k], exs[k]));
            assert(tbl[exs[k]] is Split);
            let r = lemma_unchain(tbl, los[k], his[k], t, ci, b, exs[k], x, e);
            assert(tbl[exs[k]]->Split_0@[0] == x);
            lemma_first_here(tbl, t, ci, x, r.0, e);
            assert(term_matches(ts[k], t, ci, s, e));
        }
        if term_matches(Term::Alternation(ts), t, ci, s, e) {
            let k = choose|k: int| 0 <= k < ts.len() && #[trigger] term_matches(ts[k], t, ci, s, e);
            assert(fragment_of(tbl, ts[k], los[k], his[k], ens[k], exs[k]));
            lemma_matches_range(ts[k], t, ci, s, e);
            assert(reach_first(tbl, t, ci, (ens[k], s), exs[k], e));
            assert(tbl[exs[k]] is Split);
            assert(tbl[exs[k]]->Split_0@[0] == x);
            assert(step(tbl, t, ci, (exs[k], e), (x, e)));
            lemma_first_here(tbl, t, ci, x, e, e);
            lemma_chain(tbl, los[k], his[k], t, ci, (ens[k], s), exs[k], e, x, x, e);
            assert(v@[k] == ens[k]);
            assert(step(tbl, t, ci, (lo, s), (ens[k], s)));
            lemma_prepend(tbl, t, ci, (lo, s), (ens[k], s), x, e);
        }
    }
}

/// A run of a loop, from the entry of the repeated fragment, that leaves
/// by `x` gives the pieces that the repeated term matched.
proof fn lemma_loop_pieces(
    tbl: Seq<State>,
    inner: Term,
    lo: int,
    hi: int,
    ie: int,
    ix: int,
    x: int,
    t: Seq<char>,
    ci: bool,
    path: Seq<(int, int)>,
    p: int,
    e: int,
) -> (ps: Seq<int>)
    requires
        fragment_of(tbl, inner, lo, hi, ie, ix),
        !(lo <= x < hi),
        tbl[ix] is Split,
        tbl[ix]->Split_0@.len() == 2,
        tbl[ix]->Split_0@[0] == ie,
        tbl[ix]->Split_0@[1] == x,
        0 <= p <= t.len(),
        is_run(tbl, t, ci, path),
        path[0] == (ie, p),
        path.last() == (x, e),
        avoids(path, x),
    ensures
        ps.len() >= 2,
        pieces(ps, ps.len() - 1, p, e),
        forall|k: int| 0 <= k < ps.len() - 1 ==> #[trigger] term_matches(inner, t, ci, ps[k], ps[k + 1]),
    decreases path.len(),
{
    let j = lemma_exit_index(tbl, lo, hi, ix, t, ci, path, 0);
    lemma_prefix_first(tbl, t, ci, path, j, ix);
    let m = path[j].1;
    assert(term_matches(inner, t, ci, p, m));
    lemma_matches_range(inner, t, ci, p, m);
    if j == path.len() - 1 {
        assert(path[j].0 == x);
    }
    assert(run_step(tbl, t, ci, path, j));
    let next = path[j + 1];
    assert(next.1 == m);
    if next.0 == x {
        if j + 1 < path.len() - 1 {
            assert(path[j + 1].0 != x);
        }
        let ps = seq![p, m];
        assert(ps[0] == p && ps[1] == m);
        ps
    } else {
        assert(next.0 == ie);
        lemma_run_subrange(tbl, t, ci, path, j + 1, path.len() as int);
        let sub = path.subrange(j + 1, path.len() as int);
        assert forall|k: int| 0 <= k < sub.len() - 1 implies (#[trigger] sub[k]).0 != x by {
            assert(sub[k] == path[j + 1 + k]);
        }
        assert(sub[0] == next);
        assert(sub.last() == path.last());
        let rest = lemma_loop_pieces(tbl, inner, lo, hi, ie, ix, x, t, ci, sub, m, e);
        let ps = seq![p] + rest;
        assert forall|k: int| 0 <= k < ps.len() - 1 implies #[trigger] term_matches(inner, t, ci, ps[k], ps[k + 1]) by {
            if k == 0 {
                assert(ps[0] == p);
                assert(ps[1] == rest[0]);
            } else {
                let i = k - 1;
                assert(term_matches(inner, t, ci, rest[i], rest[i + 1]));
                assert(ps[k] == rest[i]);
                assert(ps[k + 1] == rest[i + 1]);
            }
        }
        assert(ps[ps.len() - 1] == rest[rest.len() - 1]);
        ps
    }
}

/// Pieces that the repeated term matches, from the `k`-th on, make a run
/// of the loop from the entry of the repeated fragment that leaves by `x`.
proof fn lemma_loop_run(
    tbl: Seq<State>,
    inner: Term,
    lo: int,
    hi: int,
    ie: int,
    ix: int,
    x: int,
    t: Seq<char>,
    ci: bool,
    ps: Seq<int>,
    k: int,
)
    requires
        fragment_of(tbl, inner, lo, hi, ie, ix),
        !(lo <= x < hi),
        tbl[ix] is Split,
        tbl[ix]->Split_0@.len() == 2,
        tbl[ix]->Split_0@[0] == ie,
        tbl[ix]->Split_0@[1] == x,
        0 <= k < ps.len() - 1,
        forall|i: int| 0 <= i < ps.len() - 1 ==> #[trigger] term_matches(inner, t, ci, ps[i], ps[i + 1]),
    ensures
        reach_first(tbl, t, ci, (ie, ps[k]), x, ps[ps.len() - 1]),
    decreases ps.len() - k,
{
    assert(term_matches(inner, t, ci, ps[k], ps[k + 1]));
    lemma_matches_range(inner, t, ci, ps[k], ps[k + 1]);
    assert(reach_first(tbl, t, ci, (ie, ps[k]), ix, ps[k + 1]));
    if k + 1 == ps.len() - 1 {
        assert(step(tbl, t, ci, (ix, ps[k + 1]), (x, ps[k + 1])));
        lemma_first_here(tbl, t, ci, x, ps[k + 1], ps[k + 1]);
        lemma_chain(tbl, lo, hi, t, ci, (ie, ps[k]), ix, ps[k + 1], x, x, ps[k + 1]);
    } else {
        lemma_loop_run(tbl, inner, lo, hi, ie, ix, x, t, ci, ps, k + 1);
        assert(step(tbl, t, ci, (ix, ps[k + 1]), (ie, ps[k + 1])));
        lemma_chain(tbl, lo, hi, t, ci, (ie, ps[k]), ix, ps[k + 1], ie, x, ps[ps.len() - 1]);
    }
}

/// A fragment for a term, an exit at `hi` and an entry at `hi + 1`, linked
/// as the compiler links a repetition of the given kind, make a fragment for
/// the repetition.
pub proof fn lemma_repetition_fragment(
    tbl: Seq<State>,
    kind: RepetitionKind,
    inner: Term,
    lo: int,
    hi: int,
    ie: int,
    ix: int,
    ev: Vec<usize>,
)
    requires
        fragment_of(tbl, inner, lo, hi, ie, ix),
        hi + 2 <= tbl.len(),
        hi + 1 <= usize::MAX,
        tbl[hi + 1] == State::Split(ev),
        tbl[ix] is Split,
        kind is ZeroOrOne ==> ev@ == seq![ie as usize, hi as usize] && tbl[ix]->Split_0@ == seq![hi as usize],
        kind is ZeroOrMore ==> ev@ == seq![ie as usize, hi as usize] && tbl[ix]->Split_0@ == seq![
            ie as usize,
            hi as usize,
        ],
        kind is OneOrMore ==> ev@ == seq![ie as usize] && tbl[ix]->Split_0@ == seq![ie as usize, hi as usize],
    ensures
        fragment_of(tbl, Term::Repetition(kind, Box::new(inner)), lo, hi + 2, hi + 1, hi),
{
    let x = hi;
    let en = hi + 1;
    let term = Term::Repetition(kind, Box::new(inner));
    assert forall|q: int| lo <= q < hi + 2 && q != x implies targets_within(#[trigger] tbl[q], lo, hi + 2) by {
        if q < hi && q != ix {
            lemma_within_grow(tbl[q], lo, hi, lo, hi + 2);
        }
    }
    assert(closed_region(tbl, lo, hi + 2, x));
    assert forall|t: Seq<char>, ci: bool, s: int, e: int| 0 <= s <= t.len() implies (reach_first(
        tbl,
        t,
        ci,
        (en, s),
        x,
        e,
    ) <==> term_matches(term, t, ci, s, e)) by {
        lemma_repetition_matches(kind, inner, t, ci, s, e);
        if reach_first(tbl, t, ci, (en, s), x, e) {
            lemma_first_range(tbl, t, ci, (en, s), x, e);
            let b = lemma_unprepend(tbl, t, ci, (en, s), x, e);
            assert(b.1 == s);
            if b.0 == x {
                lemma_first_here(tbl, t, ci, x, s, e);
                let ps = seq![s];
                assert(pieces(ps, ps.len() - 1, s, e));
                assert(!(kind is OneOrMore));
                assert(count_ok(kind, ps.len() - 1));
            } else {
                assert(b.0 == ie);
                if kind is ZeroOrOne {
                    let r = lemma_unchain(tbl, lo, hi, t, ci, b, ix, x, e);
                    assert(tbl[ix]->Split_0@[0] == x);
                    lemma_first_here(tbl, t, ci, x, r.0, e);
                    assert(term_matches(inner, t, ci, s, e));
                    let ps = seq![s, e];
                    assert(pieces(ps, ps.len() - 1, s, e));
                    assert(count_ok(kind, ps.len() - 1));
                    assert(term_matches(inner, t, ci, ps[0], ps[1]));
                } else {
                    let path = choose|path: Seq<(int, int)>|
                        #[trigger] is_run(tbl, t, ci, path) && path[0] == b && path.last() == (x, e) && avoids(path, x);
                    assert(tbl[ix]->Split_0@[1] == x);
                    let ps = lemma_loop_pieces(tbl, inner, lo, hi, ie, ix, x, t, ci, path, s, e);
                    assert(count_ok(kind, ps.len() - 1));
                }
            }
        }
        if term_matches(term, t, ci, s, e) {
            let ps = choose|ps: Seq<int>|
                #[trigger] pieces(ps, ps.len() - 1, s, e) && count_ok(kind, ps.len() - 1) && forall|k: int|
                    0 <= k < ps.len() - 1 ==> #[trigger] term_matches(inner, t, ci, ps[k], ps[k + 1]);
            if ps.len() == 1 {
                assert(s == e);
                assert(ev@[1] == x);
                assert(step(tbl, t, ci, (en, s), (x, s)));
                lemma_first_here(tbl, t, ci, x, s, s);
                lemma_prepend(tbl, t, ci, (en, s), (x, s), x, e);
            } else {
                assert(ev@[0] == ie);
                assert(step(tbl, t, ci, (en, s), (ie, s)));
                if kind is ZeroOrOne {
                    assert(term_matches(inner, t, ci, ps[0], ps[1]));
                    assert(reach_first(tbl, t, ci, (ie, s), ix, e));
                    assert(tbl[ix]->Split_0@[0] == x);
                    assert(step(tbl, t, ci, (ix, e), (x, e)));
                    lemma_first_here(tbl, t, ci, x, e, e);
                    lemma_chain(tbl, lo, hi, t, ci, (ie, s), ix, e, x, x, e);
                } else {
                    assert(tbl[ix]->Split_0@[1] == x);
                    lemma_loop_run(tbl, inner, lo, hi, ie, ix, x, t, ci, ps, 0);
                }
                lemma_prepend(tbl, t, ci, (en, s), (ie, s), x, e);
            }
        }
    }
}

/// A closed region stays closed when only states outside it, or its exit,
/// change.
pub proof fn lemma_closed_frame(tbl1: Seq<State>, tbl2: Seq<State>, lo: int, hi: int, x: int)
    requires
        closed_region(tbl1, lo, hi, x),
        hi <= tbl2.len(),
        forall|q: int| lo <= q < hi && q != x ==> tbl2[q] == tbl1[q],
    ensures
        closed_region(tbl2, lo, hi, x),
{
    assert forall|q: int| lo <= q < hi && q != x implies targets_within(#[trigger] tbl2[q], lo, hi) by {
        assert(tbl2[q] == tbl1[q]);
    }
}

} // verus!
