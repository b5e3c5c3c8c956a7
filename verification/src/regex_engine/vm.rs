//! Runs an automaton over a text, all threads in step, and reports where the
//! first match ends.
use std::collections::VecDeque;
use vstd::prelude::*;
use crate::regex_engine::nfa::{
    AssertKind, CharRange, Nfa, State, assert_holds, char_ok, covers, is_resting, reach, step,
    targets_below, word_after, word_before, lemma_last_read, lemma_reach_positions, lemma_reach_refl,
    lemma_reach_step,
};
use crate::text::{byte_len, byte_pos, byte_offset, chars_of, is_word_char, lower, str_byte_len, to_lower, to_upper, upper};

verus! {

/// The automaton matches `t` from character `s` to character `e`, no match
/// of it ends before `e`, and none that ends at `e` starts before `s`.
pub open spec fn earliest_match(nfa: &Nfa, t: Seq<char>, ci: bool, s: int, e: int) -> bool {
    &&& nfa.matches(t, ci, s, e)
    &&& forall|s2: int, e2: int| #[trigger] nfa.matches(t, ci, s2, e2) ==> e <= e2 && (e2 == e ==> s <= s2)
}

/// The automaton matches somewhere in `t`.
pub open spec fn matches_somewhere(nfa: &Nfa, t: Seq<char>, ci: bool) -> bool {
    exists|s: int, e: int| #[trigger] nfa.matches(t, ci, s, e)
}

/// Whether a match of `nfa` in `text` is found.
pub fn is_match(nfa: &Nfa, text: &str, case_insensitive: bool) -> (r: bool)
    requires
        nfa.wf(),
    ensures
        r == matches_somewhere(nfa, text@, case_insensitive),
{
    find(nfa, text, case_insensitive).is_some()
}

/// The byte span of a match of `nfa` in `text` that ends as early as any
/// match can and, of those, starts first, if there is a match.
pub fn find(nfa: &Nfa, text: &str, case_insensitive: bool) -> (r: Option<(usize, usize)>)
    requires
        nfa.wf(),
    ensures
        r is None <==> !matches_somewhere(nfa, text@, case_insensitive),
        r matches Some((bs, be)) ==> exists|s: int, e: int|
            #![trigger earliest_match(nfa, text@, case_insensitive, s, e)]
            earliest_match(nfa, text@, case_insensitive, s, e) && bs == byte_pos(text@, s) && be == byte_pos(text@, e),
{
    let total = str_byte_len(text);
    let chars = chars_of(text);
    match find_chars(nfa, &chars, case_insensitive) {
        None => None,
        Some((s, e)) => {
            proof {
                lemma_reach_positions(nfa.table(), text@, case_insensitive, (nfa.start_index(), s as int), (nfa.accept_index(), e as int));
            }
            let bs = byte_offset(chars.as_slice(), s, Ghost(byte_len(text@)));
            let be = byte_offset(chars.as_slice(), e, Ghost(byte_len(text@)));
            proof {
                assert(earliest_match(nfa, text@, case_insensitive, s as int, e as int));
            }
            Some((bs, be))
        },
    }
}

/// What holds at one position of the text, for the automaton's conditions.
struct Context {
    at_start: bool,
    at_end: bool,
    at_word_boundary: bool,
    at_word_start: bool,
    at_word_end: bool,
}

spec fn context_ok(ctx: Context, t: Seq<char>, p: int) -> bool {
    &&& ctx.at_start == assert_holds(AssertKind::Start, t, p)
    &&& ctx.at_end == assert_holds(AssertKind::End, t, p)
    &&& ctx.at_word_boundary == assert_holds(AssertKind::WordBoundary, t, p)
    &&& ctx.at_word_start == assert_holds(AssertKind::WordStart, t, p)
    &&& ctx.at_word_end == assert_holds(AssertKind::WordEnd, t, p)
}

fn word_char_before(t: &Vec<char>, pos: usize) -> (r: bool)
    requires
        pos <= t@.len(),
    ensures
        r == word_before(t@, pos as int),
{
    pos > 0 && is_word_char(t[pos - 1])
}

fn word_char_after(t: &Vec<char>, pos: usize) -> (r: bool)
    requires
        pos <= t@.len(),
    ensures
        r == word_after(t@, pos as int),
{
    pos < t.len() && is_word_char(t[pos])
}

/// A word character stands on exactly one side of `pos`.
fn is_word_boundary(t: &Vec<char>, pos: usize) -> (r: bool)
    requires
        pos <= t@.len(),
    ensures
        r == assert_holds(AssertKind::WordBoundary, t@, pos as int),
{
    let before = word_char_before(t, pos);
    let after = word_char_after(t, pos);
    before != after
}

/// No word character stands just before `pos`.
fn is_word_start(t: &Vec<char>, pos: usize) -> (r: bool)
    requires
        pos <= t@.len(),
    ensures
        r == assert_holds(AssertKind::WordStart, t@, pos as int),
{
    !word_char_before(t, pos)
}

/// No word character stands at `pos`.
fn is_word_end(t: &Vec<char>, pos: usize) -> (r: bool)
    requires
        pos <= t@.len(),
    ensures
        r == assert_holds(AssertKind::WordEnd, t@, pos as int),
{
    !word_char_after(t, pos)
}

fn context_at(t: &Vec<char>, pos: usize) -> (ctx: Context)
    requires
        pos <= t@.len(),
    ensures
        context_ok(ctx, t@, pos as int),
{
    Context {
        at_start: pos == 0,
        at_end: pos == t.len(),
        at_word_boundary: is_word_boundary(t, pos),
        at_word_start: is_word_start(t, pos),
        at_word_end: is_word_end(t, pos),
    }
}

fn condition_holds(ctx: &Context, kind: AssertKind, Ghost(t): Ghost<Seq<char>>, Ghost(p): Ghost<int>) -> (r: bool)
    requires
        context_ok(*ctx, t, p),
    ensures
        r == assert_holds(kind, t, p),
{
    match kind {
        AssertKind::Start => ctx.at_start,
        AssertKind::End => ctx.at_end,
        AssertKind::WordBoundary => ctx.at_word_boundary,
        AssertKind::WordStart => ctx.at_word_start,
        AssertKind::WordEnd => ctx.at_word_end,
    }
}

/// Whether a reading state with `ranges` takes the character `c`.
fn accepts_char(ranges: &Vec<CharRange>, c: char, case_insensitive: bool) -> (r: bool)
    ensures
        r == char_ok(ranges@, c, case_insensitive),
{
    let lc = to_lower(c);
    let uc = to_upper(c);
    let mut i: usize = 0;
    while i < ranges.len()
        invariant
            i <= ranges@.len(),
            lc == lower(c),
            uc == upper(c),
            forall|k: int| 0 <= k < i ==> !(#[trigger] ranges@[k]).contains_spec(c)
                && !(case_insensitive && (ranges@[k].contains_spec(lc) || ranges@[k].contains_spec(uc))),
        decreases ranges@.len() - i,
    {
        let r = &ranges[i];
        if r.contains(c) || (case_insensitive && (r.contains(lc) || r.contains(uc))) {
            proof {
                assert(ranges@[i as int] == *r);
                if r.contains_spec(c) {
                    assert(covers(ranges@, c));
                } else if r.contains_spec(lc) {
                    assert(covers(ranges@, lc));
                } else {
                    assert(covers(ranges@, uc));
                }
            }
            return true;
        }
        i = i + 1;
    }
    false
}

/// Number of entries of `s` that are `false`.
spec fn count_false(s: Seq<bool>) -> nat
    decreases s.len(),
{
    if s.len() == 0 {
        0
    } else {
        count_false(s.drop_last()) + if s.last() {
            0nat
        } else {
            1nat
        }
    }
}

proof fn lemma_count_false_all(n: nat)
    ensures
        count_false(Seq::new(n, |i: int| false)) == n,
    decreases n,
{
    if n > 0 {
        lemma_count_false_all((n - 1) as nat);
        assert(Seq::new(n, |i: int| false).drop_last() =~= Seq::new((n - 1) as nat, |i: int| false));
    }
}

proof fn lemma_count_false_set(s: Seq<bool>, i: int)
    requires
        0 <= i < s.len(),
        !s[i],
    ensures
        count_false(s.update(i, true)) + 1 == count_false(s),
    decreases s.len(),
{
    if i < s.len() - 1 {
        lemma_count_false_set(s.drop_last(), i);
        assert(s.update(i, true).drop_last() =~= s.drop_last().update(i, true));
    } else {
        assert(s.update(i, true).drop_last() =~= s.drop_last());
    }
}

/// `(state, start)` is a thread at `pos`: its state is reached at `pos` by a
/// run that entered the automaton at `start`.
spec fn thread_ok(st: Seq<State>, start: int, t: Seq<char>, ci: bool, pos: int, th: (usize, usize)) -> bool {
    &&& th.0 < st.len()
    &&& th.1 <= pos
    &&& reach(st, t, ci, (start, th.1 as int), (th.0 as int, pos))
}

/// The bookkeeping of the search for states: `visited` marks exactly the
/// states of `wl`, and counts what is left to visit.
spec fn tracked_ok(n: nat, vis: Seq<bool>, wl: Seq<(usize, usize)>) -> bool {
    &&& vis.len() == n
    &&& wl.len() + count_false(vis) == n
    &&& forall|m: int| 0 <= m < wl.len() ==> (#[trigger] wl[m]).0 < n && vis[wl[m].0 as int]
    &&& forall|q: int| 0 <= q < n && #[trigger] vis[q] ==> exists|m: int| 0 <= m < wl.len() && (#[trigger] wl[m]).0 == q
}

spec fn threads_ok(st: Seq<State>, start: int, t: Seq<char>, ci: bool, pos: int, wl: Seq<(usize, usize)>) -> bool {
    forall|m: int| 0 <= m < wl.len() ==> #[trigger] thread_ok(st, start, t, ci, pos, wl[m])
}

/// Puts `target` on the worklist, entered at `sp`, unless it was seen before.
fn enqueue(visited: &mut Vec<bool>, worklist: &mut VecDeque<(usize, usize)>, target: usize, sp: usize)
    requires
        target < old(visited)@.len(),
    ensures
        final(visited)@ == old(visited)@.update(target as int, true),
        old(visited)@[target as int] ==> final(worklist)@ == old(worklist)@,
        !old(visited)@[target as int] ==> final(worklist)@ == old(worklist)@.push((target, sp)),
{
    if !visited[target] {
        worklist.push_back((target, sp));
        visited.set(target, true);
    }
}

proof fn lemma_enqueue(
    st: Seq<State>,
    start: int,
    t: Seq<char>,
    ci: bool,
    pos: int,
    vis: Seq<bool>,
    wl: Seq<(usize, usize)>,
    target: usize,
    sp: usize,
)
    requires
        tracked_ok(st.len(), vis, wl),
        threads_ok(st, start, t, ci, pos, wl),
        target < st.len(),
        thread_ok(st, start, t, ci, pos, (target, sp)),
    ensures
        ({
            let vis2 = vis.update(target as int, true);
            let wl2 = if vis[target as int] { wl } else { wl.push((target, sp)) };
            &&& tracked_ok(st.len(), vis2, wl2)
            &&& threads_ok(st, start, t, ci, pos, wl2)
            &&& wl.len() <= wl2.len()
            &&& forall|m: int| 0 <= m < wl.len() ==> wl2[m] == wl[m]
            &&& forall|q: int| 0 <= q < vis.len() && vis[q] ==> vis2[q]
            &&& vis2[target as int]
        }),
{
    let vis2 = vis.update(target as int, true);
    if vis[target as int] {
        assert(vis2 =~= vis);
    } else {
        let wl2 = wl.push((target, sp));
        lemma_count_false_set(vis, target as int);
        assert forall|m: int| 0 <= m < wl2.len() implies (#[trigger] wl2[m]).0 < st.len() && vis2[wl2[m].0 as int] by {
            if m < wl.len() {
                assert(wl2[m] == wl[m]);
            }
        }
        assert forall|q: int| 0 <= q < st.len() && #[trigger] vis2[q] implies exists|m: int| 0 <= m < wl2.len() && (#[trigger] wl2[m]).0 == q by {
            if q == target {
                assert(wl2[wl.len() as int].0 == q);
            } else {
                assert(vis[q]);
                let m = choose|m: int| 0 <= m < wl.len() && (#[trigger] wl[m]).0 == q;
                assert(wl2[m] == wl[m]);
            }
        }
        assert forall|m: int| 0 <= m < wl2.len() implies #[trigger] thread_ok(st, start, t, ci, pos, wl2[m]) by {
            if m < wl.len() {
                assert(wl2[m] == wl[m]);
                assert(thread_ok(st, start, t, ci, pos, wl[m]));
            }
        }
    }
}

/// A set of states that holds every state one move away, at `pos`, from any
/// of its states holds every state reached at `pos` from any of them.
proof fn lemma_closed_reach(st: Seq<State>, t: Seq<char>, ci: bool, pos: int, vis: Seq<bool>, a: int, b: int)
    requires
        vis.len() == st.len(),
        0 <= a < st.len(),
        vis[a],
        forall|q: int, q2: int|
            #![trigger vis[q], step(st, t, ci, (q, pos), (q2, pos))]
            0 <= q < st.len() && vis[q] && step(st, t, ci, (q, pos), (q2, pos)) ==> 0 <= q2 < st.len() && vis[q2],
        reach(st, t, ci, (a, pos), (b, pos)),
    ensures
        0 <= b < st.len(),
        vis[b],
{
    let path = choose|path: Seq<(int, int)>|
        #[trigger] crate::regex_engine::nfa::is_run(st, t, ci, path) && path[0] == (a, pos) && path.last() == (b, pos);
    lemma_closed_run(st, t, ci, pos, vis, path, path.len() - 1);
}

proof fn lemma_closed_run(st: Seq<State>, t: Seq<char>, ci: bool, pos: int, vis: Seq<bool>, path: Seq<(int, int)>, k: int)
    requires
        vis.len() == st.len(),
        crate::regex_engine::nfa::is_run(st, t, ci, path),
        0 <= k < path.len(),
        path[0].1 == pos,
        path.last().1 == pos,
        0 <= path[0].0 < st.len(),
        vis[path[0].0],
        forall|q: int, q2: int|
            #![trigger vis[q], step(st, t, ci, (q, pos), (q2, pos))]
            0 <= q < st.len() && vis[q] && step(st, t, ci, (q, pos), (q2, pos)) ==> 0 <= q2 < st.len() && vis[q2],
    ensures
        path[k].1 == pos,
        0 <= path[k].0 < st.len(),
        vis[path[k].0],
    decreases k,
{
    crate::regex_engine::nfa::lemma_run_positions(st, t, ci, path, k);
    crate::regex_engine::nfa::lemma_run_positions(st, t, ci, path, path.len() - 1);
    if k > 0 {
        lemma_closed_run(st, t, ci, pos, vis, path, k - 1);
        assert(crate::regex_engine::nfa::run_step(st, t, ci, path, k - 1));
        if path[k].1 != pos {
            crate::regex_engine::nfa::lemma_run_mono(st, t, ci, path, k, path.len() - 1);
        }
        assert(path[k - 1] == (path[k - 1].0, pos));
        assert(path[k] == (path[k].0, pos));
        assert(step(st, t, ci, (path[k - 1].0, pos), (path[k].0, pos)));
    }
}

/// Thread `th` carries the entry position of seed `o`, and seed `o` reaches
/// its state at `pos`.
spec fn seeded(st: Seq<State>, t: Seq<char>, ci: bool, pos: int, seeds: Seq<(usize, usize)>, o: int, th: (usize, usize)) -> bool {
    &&& 0 <= o < seeds.len()
    &&& th.1 == seeds[o].1
    &&& reach(st, t, ci, (seeds[o].0 as int, pos), (th.0 as int, pos))
}

/// No seed before seed `o` reaches state `q` at `pos`.
spec fn first_reach(st: Seq<State>, t: Seq<char>, ci: bool, pos: int, seeds: Seq<(usize, usize)>, o: int, q: int) -> bool {
    forall|k: int| 0 <= k < o ==> !#[trigger] reach(st, t, ci, (seeds[k].0 as int, pos), (q, pos))
}

/// Thread `th` carries the entry position of the first seed that reaches its
/// state at `pos`.
spec fn from_first_seed(st: Seq<State>, t: Seq<char>, ci: bool, pos: int, seeds: Seq<(usize, usize)>, th: (usize, usize)) -> bool {
    exists|o: int| #[trigger] seeded(st, t, ci, pos, seeds, o, th) && first_reach(st, t, ci, pos, seeds, o, th.0 as int)
}

/// Each thread of `wl` carries the entry position of the first seed that
/// reaches its state; `wo` holds the index of that seed, in order.
spec fn origins_ok(
    st: Seq<State>,
    t: Seq<char>,
    ci: bool,
    pos: int,
    seeds: Seq<(usize, usize)>,
    wl: Seq<(usize, usize)>,
    wo: Seq<int>,
) -> bool {
    &&& wo.len() == wl.len()
    &&& forall|m: int|
        0 <= m < wl.len() ==> seeded(st, t, ci, pos, seeds, wo[m], #[trigger] wl[m]) && first_reach(
            st,
            t,
            ci,
            pos,
            seeds,
            wo[m],
            wl[m].0 as int,
        )
    &&& forall|a: int, b: int| 0 <= a <= b < wo.len() ==> #[trigger] wo[a] <= #[trigger] wo[b]
}

/// No state occurs twice among the threads of `wl`.
spec fn distinct_states(wl: Seq<(usize, usize)>) -> bool {
    forall|a: int, b: int| 0 <= a < b < wl.len() ==> (#[trigger] wl[a]).0 != (#[trigger] wl[b]).0
}

/// The entry positions of the threads of `wl` never decrease.
spec fn starts_sorted(wl: Seq<(usize, usize)>) -> bool {
    forall|a: int, b: int| 0 <= a <= b < wl.len() ==> (#[trigger] wl[a]).1 <= (#[trigger] wl[b]).1
}

/// Every state one move away, at `pos`, from a state of `vis` is in `vis`.
spec fn closed(st: Seq<State>, t: Seq<char>, ci: bool, pos: int, vis: Seq<bool>) -> bool {
    forall|q: int, q2: int|
        #![trigger vis[q], step(st, t, ci, (q, pos), (q2, pos))]
        0 <= q < st.len() && vis[q] && step(st, t, ci, (q, pos), (q2, pos)) ==> 0 <= q2 < st.len() && vis[q2]
}

/// Putting a thread of seed `k` on the worklist keeps the origins of its
/// threads, and of those already taken off it, in order.
proof fn lemma_enqueue_first(
    st: Seq<State>,
    start: int,
    t: Seq<char>,
    ci: bool,
    pos: int,
    seeds: Seq<(usize, usize)>,
    k: int,
    vis_k: Seq<bool>,
    vis: Seq<bool>,
    wl: Seq<(usize, usize)>,
    wo: Seq<int>,
    res: Seq<(usize, usize)>,
    head: int,
    target: usize,
    sp: usize,
)
    requires
        tracked_ok(st.len(), vis, wl),
        threads_ok(st, start, t, ci, pos, wl),
        origins_ok(st, t, ci, pos, seeds, wl, wo),
        distinct_states(wl),
        forall|m: int| 0 <= m < wo.len() ==> wo[m] <= k,
        closed(st, t, ci, pos, vis_k),
        vis_k.len() == st.len(),
        forall|q: int| 0 <= q < st.len() && vis_k[q] ==> vis[q],
        forall|m: int| 0 <= m < k ==> vis_k[(#[trigger] seeds[m]).0 as int],
        threads_ok(st, start, t, ci, pos, seeds),
        threads_ok(st, start, t, ci, pos, res),
        forall|j: int| 0 <= j < res.len() ==> vis[(#[trigger] res[j]).0 as int],
        forall|j: int, m: int| 0 <= j < res.len() && head <= m < wl.len() ==> (#[trigger] res[j]).0 != (#[trigger] wl[m]).0,
        0 <= head,
        target < st.len(),
        thread_ok(st, start, t, ci, pos, (target, sp)),
        seeded(st, t, ci, pos, seeds, k, (target, sp)),
    ensures
        ({
            let vis2 = vis.update(target as int, true);
            let wl2 = if vis[target as int] { wl } else { wl.push((target, sp)) };
            let wo2 = if vis[target as int] { wo } else { wo.push(k) };
            &&& tracked_ok(st.len(), vis2, wl2)
            &&& threads_ok(st, start, t, ci, pos, wl2)
            &&& origins_ok(st, t, ci, pos, seeds, wl2, wo2)
            &&& distinct_states(wl2)
            &&& forall|m: int| 0 <= m < wo2.len() ==> wo2[m] <= k
            &&& forall|q: int| 0 <= q < st.len() && vis_k[q] ==> vis2[q]
            &&& forall|j: int| 0 <= j < res.len() ==> vis2[(#[trigger] res[j]).0 as int]
            &&& forall|j: int, m: int|
                0 <= j < res.len() && head <= m < wl2.len() ==> (#[trigger] res[j]).0 != (#[trigger] wl2[m]).0
            &&& wl.len() <= wl2.len()
            &&& forall|m: int| 0 <= m < wl.len() ==> wl2[m] == wl[m]
            &&& forall|q: int| 0 <= q < vis.len() && vis[q] ==> vis2[q]
            &&& vis2[target as int]
        }),
{
    lemma_enqueue(st, start, t, ci, pos, vis, wl, target, sp);
    let vis2 = vis.update(target as int, true);
    assert forall|j: int| 0 <= j < res.len() implies vis2[(#[trigger] res[j]).0 as int] by {
        assert(thread_ok(st, start, t, ci, pos, res[j]));
        assert(vis[res[j].0 as int]);
    }
    if !vis[target as int] {
        let wl2 = wl.push((target, sp));
        let wo2 = wo.push(k);
        assert(!vis_k[target as int]);
        assert forall|k2: int| 0 <= k2 < k implies !#[trigger] reach(st, t, ci, (seeds[k2].0 as int, pos), (target as int, pos)) by {
            assert(vis_k[seeds[k2].0 as int]);
            assert(thread_ok(st, start, t, ci, pos, seeds[k2]));
            if reach(st, t, ci, (seeds[k2].0 as int, pos), (target as int, pos)) {
                lemma_closed_reach(st, t, ci, pos, vis_k, seeds[k2].0 as int, target as int);
            }
        }
        assert forall|m: int|
            0 <= m < wl2.len() implies seeded(st, t, ci, pos, seeds, wo2[m], #[trigger] wl2[m]) && first_reach(
                st,
                t,
                ci,
                pos,
                seeds,
                wo2[m],
                wl2[m].0 as int,
            ) by {
            if m < wl.len() {
                assert(wl2[m] == wl[m]);
                assert(wo2[m] == wo[m]);
            }
        }
        assert forall|a: int, b: int| 0 <= a <= b < wo2.len() implies #[trigger] wo2[a] <= #[trigger] wo2[b] by {
            if b < wo.len() {
                assert(wo2[a] == wo[a] && wo2[b] == wo[b]);
            } else if a < wo.len() {
                assert(wo2[a] == wo[a]);
            }
        }
        assert forall|a: int, b: int| 0 <= a < b < wl2.len() implies (#[trigger] wl2[a]).0 != (#[trigger] wl2[b]).0 by {
            assert(wl2[a] == wl[a]);
            if b < wl.len() {
                assert(wl2[b] == wl[b]);
            } else {
                assert(vis[wl[a].0 as int]);
            }
        }
        assert forall|j: int, m: int|
            0 <= j < res.len() && head <= m < wl2.len() implies (#[trigger] res[j]).0 != (#[trigger] wl2[m]).0 by {
            if m < wl.len() {
                assert(wl2[m] == wl[m]);
            } else {
                assert(vis[res[j].0 as int]);
            }
        }
        assert forall|m: int| 0 <= m < wo2.len() implies wo2[m] <= k by {
            if m < wo.len() {
                assert(wo2[m] == wo[m]);
            }
        }
    } else {
        assert(vis2 =~= vis);
    }
}

/// Every state that is resting (reads input or accepts) and is reached at
/// `pos` from a seed, each once, with the entry position of the first seed
/// that reaches it.
fn epsilon_closure(
    nfa: &Nfa,
    seeds: &Vec<(usize, usize)>,
    ctx: &Context,
    Ghost(t): Ghost<Seq<char>>,
    Ghost(ci): Ghost<bool>,
    Ghost(pos): Ghost<int>,
) -> (r: Vec<(usize, usize)>)
    requires
        nfa.wf(),
        context_ok(*ctx, t, pos),
        0 <= pos <= t.len(),
        threads_ok(nfa.table(), nfa.start_index(), t, ci, pos, seeds@),
        starts_sorted(seeds@),
    ensures
        threads_ok(nfa.table(), nfa.start_index(), t, ci, pos, r@),
        forall|j: int| 0 <= j < r@.len() ==> is_resting(nfa.table()[(#[trigger] r@[j]).0 as int]),
        distinct_states(r@),
        starts_sorted(r@),
        forall|j: int| 0 <= j < r@.len() ==> from_first_seed(nfa.table(), t, ci, pos, seeds@, #[trigger] r@[j]),
        forall|k: int, q: int|
            0 <= k < seeds@.len() && 0 <= q < nfa.table().len() && is_resting(nfa.table()[q]) && #[trigger] reach(
                nfa.table(),
                t,
                ci,
                (seeds@[k].0 as int, pos),
                (q, pos),
            ) ==> exists|j: int| 0 <= j < r@.len() && (#[trigger] r@[j]).0 == q && r@[j].1 <= seeds@[k].1,
{
    let ghost st = nfa.table();
    let ghost start = nfa.start_index();
    let n = nfa.states_count();
    let mut visited: Vec<bool> = Vec::new();
    let mut z: usize = 0;
    while z < n
        invariant
            z <= n,
            visited@ =~= Seq::new(z as nat, |i: int| false),
        decreases n - z,
    {
        visited.push(false);
        z = z + 1;
    }
    proof {
        lemma_count_false_all(n as nat);
    }
    let mut result: Vec<(usize, usize)> = Vec::new();
    let mut queue: VecDeque<(usize, usize)> = VecDeque::new();
    let ghost mut wl: Seq<(usize, usize)> = Seq::empty();
    let ghost mut wo: Seq<int> = Seq::empty();
    let ghost mut ro: Seq<int> = Seq::empty();
    let ghost mut head: int = 0;
    let mut k: usize = 0;
    while k < seeds.len()
        invariant
            nfa.wf(),
            st == nfa.table(),
            start == nfa.start_index(),
            n == st.len(),
            context_ok(*ctx, t, pos),
            0 <= pos <= t.len(),
            k <= seeds@.len(),
            threads_ok(st, start, t, ci, pos, seeds@),
            head == wl.len(),
            queue@.len() == 0,
            tracked_ok(n as nat, visited@, wl),
            threads_ok(st, start, t, ci, pos, wl),
            origins_ok(st, t, ci, pos, seeds@, wl, wo),
            distinct_states(wl),
            forall|m: int| 0 <= m < wo.len() ==> wo[m] < k,
            forall|m: int| 0 <= m < k ==> visited@[(#[trigger] seeds@[m]).0 as int],
            closed(st, t, ci, pos, visited@),
            threads_ok(st, start, t, ci, pos, result@),
            forall|j: int| 0 <= j < result@.len() ==> is_resting(st[(#[trigger] result@[j]).0 as int]),
            origins_ok(st, t, ci, pos, seeds@, result@, ro),
            distinct_states(result@),
            forall|j: int| 0 <= j < ro.len() ==> ro[j] < k,
            forall|j: int| 0 <= j < result@.len() ==> visited@[(#[trigger] result@[j]).0 as int],
            forall|m: int|
                0 <= m < wl.len() && is_resting(st[(#[trigger] wl[m]).0 as int]) ==> exists|j: int|
                    0 <= j < result@.len() && (#[trigger] result@[j]) == wl[m],
        decreases seeds@.len() - k,
    {
        let (q0, sp0) = seeds[k];
        let ghost vis_k = visited@;
        let ghost pb = wl.len() as int;
        proof {
            assert(thread_ok(st, start, t, ci, pos, seeds@[k as int]));
            lemma_reach_refl(st, t, ci, (q0 as int, pos));
            assert(seeded(st, t, ci, pos, seeds@, k as int, (q0, sp0)));
            lemma_enqueue_first(st, start, t, ci, pos, seeds@, k as int, vis_k, visited@, wl, wo, result@, head, q0, sp0);
            if !visited@[q0 as int] {
                wo = wo.push(k as int);
                wl = wl.push((q0, sp0));
            }
        }
        enqueue(&mut visited, &mut queue, q0, sp0);
        proof {
            assert(queue@ =~= wl.subrange(head, wl.len() as int));
            assert forall|m: int, q2: int|
                #![trigger wl[m], step(st, t, ci, (wl[m].0 as int, pos), (q2, pos))]
                0 <= m < head && step(st, t, ci, (wl[m].0 as int, pos), (q2, pos)) implies 0 <= q2 < n
                    && visited@[q2] by {
                assert(vis_k[wl[m].0 as int]);
            }
            assert forall|m: int| 0 <= m < k + 1 implies visited@[(#[trigger] seeds@[m]).0 as int] by {
                assert(thread_ok(st, start, t, ci, pos, seeds@[m]));
                if m < k {
                    assert(vis_k[seeds@[m].0 as int]);
                }
            }
        }
        while queue.len() > 0
            invariant
                queue@ == wl.subrange(head, wl.len() as int),
                nfa.wf(),
                st == nfa.table(),
                start == nfa.start_index(),
                n == st.len(),
                context_ok(*ctx, t, pos),
                0 <= pos <= t.len(),
                k < seeds@.len(),
                0 <= pb <= head <= wl.len(),
                threads_ok(st, start, t, ci, pos, seeds@),
                tracked_ok(n as nat, visited@, wl),
                threads_ok(st, start, t, ci, pos, wl),
                origins_ok(st, t, ci, pos, seeds@, wl, wo),
                distinct_states(wl),
                forall|m: int| 0 <= m < wo.len() ==> wo[m] <= k,
                forall|m: int| pb <= m < wo.len() ==> wo[m] == k,
                closed(st, t, ci, pos, vis_k),
                vis_k.len() == n,
                forall|q: int| 0 <= q < n && vis_k[q] ==> visited@[q],
                forall|m: int| 0 <= m < k ==> vis_k[(#[trigger] seeds@[m]).0 as int],
                forall|m: int| 0 <= m < k + 1 ==> visited@[(#[trigger] seeds@[m]).0 as int],
                forall|m: int, q2: int|
                    #![trigger wl[m], step(st, t, ci, (wl[m].0 as int, pos), (q2, pos))]
                    0 <= m < head && step(st, t, ci, (wl[m].0 as int, pos), (q2, pos)) ==> 0 <= q2 < n
                        && visited@[q2],
                threads_ok(st, start, t, ci, pos, result@),
                forall|j: int| 0 <= j < result@.len() ==> is_resting(st[(#[trigger] result@[j]).0 as int]),
                origins_ok(st, t, ci, pos, seeds@, result@, ro),
                distinct_states(result@),
                forall|j: int| 0 <= j < ro.len() ==> ro[j] <= k,
                forall|j: int| 0 <= j < result@.len() ==> visited@[(#[trigger] result@[j]).0 as int],
                forall|j: int, m: int|
                    0 <= j < result@.len() && head <= m < wl.len() ==> (#[trigger] result@[j]).0
                        != (#[trigger] wl[m]).0,
                forall|m: int|
                    0 <= m < head && is_resting(st[(#[trigger] wl[m]).0 as int]) ==> exists|j: int|
                        0 <= j < result@.len() && (#[trigger] result@[j]) == wl[m],
            decreases n - head,
        {
            let ghost qv = queue@;
            let (q, sp) = queue.pop_front().unwrap();
            proof {
                assert(qv[0] == wl[head]);
                assert(queue@ =~= wl.subrange(head + 1, wl.len() as int));
                assert(thread_ok(st, start, t, ci, pos, wl[head]));
                assert(seeded(st, t, ci, pos, seeds@, wo[head], wl[head]));
                assert(wo[head] == k);
                assert(targets_below(st[q as int], n as nat));
            }
            let ghost wl0 = wl;
            let ghost vis0 = visited@;
            let ghost res0 = result@;
            let ghost wo0 = wo;
            let ghost ro0 = ro;
            match nfa.state(q) {
                State::Split(values) => {
                    let mut v: usize = 0;
                    while v < values.len()
                        invariant
                            queue@ == wl.subrange(head + 1, wl.len() as int),
                            nfa.wf(),
                            st == nfa.table(),
                            n == st.len(),
                            st[q as int] == State::Split(*values),
                            0 <= pb <= head < wl0.len(),
                            wl0[head] == (q, sp),
                            0 <= pos <= t.len(),
                            v <= values@.len(),
                            k < seeds@.len(),
                            threads_ok(st, start, t, ci, pos, seeds@),
                            thread_ok(st, start, t, ci, pos, (q, sp)),
                            seeded(st, t, ci, pos, seeds@, k as int, (q, sp)),
                            forall|k2: int| 0 <= k2 < values@.len() ==> (#[trigger] values@[k2]) < n,
                            tracked_ok(n as nat, visited@, wl),
                            threads_ok(st, start, t, ci, pos, wl),
                            origins_ok(st, t, ci, pos, seeds@, wl, wo),
                            distinct_states(wl),
                            forall|m: int| 0 <= m < wo.len() ==> wo[m] <= k,
                            forall|m: int| pb <= m < wo.len() ==> wo[m] == k,
                            closed(st, t, ci, pos, vis_k),
                            vis_k.len() == n,
                            forall|q3: int| 0 <= q3 < n && vis_k[q3] ==> visited@[q3],
                            forall|m: int| 0 <= m < k ==> vis_k[(#[trigger] seeds@[m]).0 as int],
                            threads_ok(st, start, t, ci, pos, res0),
                            forall|j: int| 0 <= j < res0.len() ==> visited@[(#[trigger] res0[j]).0 as int],
                            forall|j: int, m: int|
                                0 <= j < res0.len() && head <= m < wl.len() ==> (#[trigger] res0[j]).0
                                    != (#[trigger] wl[m]).0,
                            wl0.len() <= wl.len(),
                            forall|m: int| 0 <= m < wl0.len() ==> wl[m] == wl0[m],
                            wo0.len() == wl0.len(),
                            forall|m: int| 0 <= m < wl0.len() ==> wo[m] == wo0[m],
                            forall|q3: int| 0 <= q3 < n && vis0[q3] ==> visited@[q3],
                            vis0.len() == n,
                            forall|k2: int| 0 <= k2 < v ==> visited@[(#[trigger] values@[k2]) as int],
                        decreases values@.len() - v,
                    {
                        let target = values[v];
                        let ghost vis1 = visited@;
                        let ghost wl1 = wl;
                        let ghost wo1 = wo;
                        proof {
                            assert(values@[v as int] == target);
                            assert(step(st, t, ci, (q as int, pos), (target as int, pos)));
                            lemma_reach_step(st, t, ci, (start, sp as int), (q as int, pos), (target as int, pos));
                            lemma_reach_step(st, t, ci, (seeds@[k as int].0 as int, pos), (q as int, pos), (target as int, pos));
                            lemma_enqueue_first(st, start, t, ci, pos, seeds@, k as int, vis_k, visited@, wl, wo, res0, head, target, sp);
                            if !visited@[target as int] {
                                wo = wo.push(k as int);
                                wl = wl.push((target, sp));
                            }
                        }
                        enqueue(&mut visited, &mut queue, target, sp);
                        proof {
                            assert(queue@ =~= wl.subrange(head + 1, wl.len() as int));
                            assert forall|q3: int| 0 <= q3 < n && vis0[q3] implies visited@[q3] by {
                                assert(vis1[q3]);
                            }
                            assert forall|k2: int| 0 <= k2 < v + 1 implies visited@[(#[trigger] values@[k2]) as int] by {
                                if k2 < v {
                                    assert(vis1[values@[k2] as int]);
                                }
                            }
                            assert forall|m: int| 0 <= m < wl0.len() implies wl[m] == wl0[m] by {
                                assert(wl1[m] == wl0[m]);
                            }
                            assert forall|m: int| 0 <= m < wl0.len() implies wo[m] == wo0[m] by {
                                assert(wo1[m] == wo0[m]);
                            }
                            assert forall|m: int| pb <= m < wo.len() implies wo[m] == k by {
                                if m < wo1.len() {
                                    assert(wo[m] == wo1[m]);
                                }
                            }
                        }
                        v = v + 1;
                    }
                    proof {
                        assert forall|q2: int| step(st, t, ci, (q as int, pos), (q2, pos)) implies 0 <= q2 < n && visited@[q2] by {
                            let k2 = choose|k2: int| 0 <= k2 < values@.len() && (#[trigger] values@[k2]) == q2;
                        }
                    }
                },
                State::Consuming(_, _) | State::Match => {
                    result.push((q, sp));
                    proof {
                        ro = ro.push(k as int);
                        assert(result@ == res0.push((q, sp)));
                        assert forall|j: int|
                            0 <= j < result@.len() implies seeded(st, t, ci, pos, seeds@, ro[j], #[trigger] result@[j])
                                && first_reach(st, t, ci, pos, seeds@, ro[j], result@[j].0 as int) by {
                            if j < res0.len() {
                                assert(result@[j] == res0[j]);
                                assert(ro[j] == ro0[j]);
                            } else {
                                assert(seeded(st, t, ci, pos, seeds@, wo[head], wl[head]));
                            }
                        }
                        assert forall|a: int, b: int| 0 <= a <= b < ro.len() implies #[trigger] ro[a] <= #[trigger] ro[b] by {
                            if b < ro0.len() {
                                assert(ro[a] == ro0[a] && ro[b] == ro0[b]);
                            } else if a < ro0.len() {
                                assert(ro[a] == ro0[a]);
                            }
                        }
                        assert forall|a: int, b: int| 0 <= a < b < result@.len() implies (#[trigger] result@[a]).0
                            != (#[trigger] result@[b]).0 by {
                            assert(result@[a] == res0[a]);
                            if b < res0.len() {
                                assert(result@[b] == res0[b]);
                            }
                        }
                        assert forall|j: int| 0 <= j < ro.len() implies ro[j] <= k by {
                            if j < ro0.len() {
                                assert(ro[j] == ro0[j]);
                            }
                        }
                    }
                },
                State::Assert(kind, target) => {
                    let target = *target;
                    if condition_holds(ctx, *kind, Ghost(t), Ghost(pos)) {
                        proof {
                            assert(step(st, t, ci, (q as int, pos), (target as int, pos)));
                            lemma_reach_step(st, t, ci, (start, sp as int), (q as int, pos), (target as int, pos));
                            lemma_reach_step(st, t, ci, (seeds@[k as int].0 as int, pos), (q as int, pos), (target as int, pos));
                            lemma_enqueue_first(st, start, t, ci, pos, seeds@, k as int, vis_k, visited@, wl, wo, result@, head, target, sp);
                            if !visited@[target as int] {
                                wo = wo.push(k as int);
                                wl = wl.push((target, sp));
                            }
                        }
                        enqueue(&mut visited, &mut queue, target, sp);
                        proof {
                            assert(queue@ =~= wl.subrange(head + 1, wl.len() as int));
                            assert forall|q3: int| 0 <= q3 < n && vis0[q3] implies visited@[q3] by {
                                assert(vis0.update(target as int, true)[q3]);
                            }
                            assert forall|m: int| pb <= m < wo.len() implies wo[m] == k by {
                                if m < wo0.len() {
                                    assert(wo[m] == wo0[m]);
                                }
                            }
                        }
                    }
                },
            }
            proof {
                assert forall|q3: int| 0 <= q3 < n && vis0[q3] implies visited@[q3] by {}
                assert(wl[head] == (q, sp));
                assert forall|m: int| 0 <= m < k + 1 implies visited@[(#[trigger] seeds@[m]).0 as int] by {
                    assert(thread_ok(st, start, t, ci, pos, seeds@[m]));
                    assert(vis0[seeds@[m].0 as int]);
                }
                assert forall|j: int| 0 <= j < result@.len() implies visited@[(#[trigger] result@[j]).0 as int] by {
                    if j < res0.len() {
                        assert(result@[j] == res0[j]);
                        assert(vis0[res0[j].0 as int]);
                    } else {
                        assert(vis0[q as int]);
                    }
                }
                assert forall|j: int, m: int|
                    0 <= j < result@.len() && head + 1 <= m < wl.len() implies (#[trigger] result@[j]).0
                        != (#[trigger] wl[m]).0 by {
                    if j < res0.len() {
                        assert(result@[j] == res0[j]);
                    } else {
                        assert(wl[head].0 != wl[m].0);
                    }
                }
                assert forall|m: int|
                    0 <= m < head + 1 && is_resting(st[(#[trigger] wl[m]).0 as int]) implies exists|j: int|
                        0 <= j < result@.len() && (#[trigger] result@[j]) == wl[m] by {
                    if m < head {
                        assert(wl[m] == wl0[m]);
                        let j = choose|j: int| 0 <= j < res0.len() && (#[trigger] res0[j]) == wl0[m];
                        assert(result@[j] == res0[j]);
                    } else {
                        assert(result@[res0.len() as int] == (q, sp));
                    }
                }
                assert forall|m: int, q2: int|
                    #![trigger wl[m], step(st, t, ci, (wl[m].0 as int, pos), (q2, pos))]
                    0 <= m < head + 1 && step(st, t, ci, (wl[m].0 as int, pos), (q2, pos)) implies 0 <= q2 < n
                        && visited@[q2] by {
                    if m < head {
                        assert(wl[m] == wl0[m]);
                        assert(step(st, t, ci, (wl0[m].0 as int, pos), (q2, pos)));
                    }
                }
            }
            proof {
                head = head + 1;
            }
        }
        proof {
            assert forall|q1: int, q2: int|
                #![trigger visited@[q1], step(st, t, ci, (q1, pos), (q2, pos))]
                0 <= q1 < n && visited@[q1] && step(st, t, ci, (q1, pos), (q2, pos)) implies 0 <= q2 < n
                    && visited@[q2] by {
                let m = choose|m: int| 0 <= m < wl.len() && (#[trigger] wl[m]).0 == q1;
                assert(step(st, t, ci, (wl[m].0 as int, pos), (q2, pos)));
            }
        }
        k = k + 1;
    }
    proof {
        assert forall|k2: int, q: int|
            0 <= k2 < seeds@.len() && 0 <= q < n && is_resting(st[q]) && #[trigger] reach(
                st,
                t,
                ci,
                (seeds@[k2].0 as int, pos),
                (q, pos),
            ) implies exists|j: int| 0 <= j < result@.len() && (#[trigger] result@[j]).0 == q && result@[j].1
                <= seeds@[k2].1 by {
            assert(thread_ok(st, start, t, ci, pos, seeds@[k2]));
            assert(visited@[seeds@[k2].0 as int]);
            lemma_closed_reach(st, t, ci, pos, visited@, seeds@[k2].0 as int, q);
            let m = choose|m: int| 0 <= m < wl.len() && (#[trigger] wl[m]).0 == q;
            let j = choose|j: int| 0 <= j < result@.len() && (#[trigger] result@[j]) == wl[m];
            assert(seeded(st, t, ci, pos, seeds@, wo[m], wl[m]));
            assert(first_reach(st, t, ci, pos, seeds@, wo[m], q));
            assert(wo[m] <= k2);
            assert(seeds@[wo[m]].1 <= seeds@[k2].1);
            assert(result@[j].0 == q);
        }
        assert forall|a: int, b: int| 0 <= a <= b < result@.len() implies (#[trigger] result@[a]).1
            <= (#[trigger] result@[b]).1 by {
            assert(seeded(st, t, ci, pos, seeds@, ro[a], result@[a]));
            assert(seeded(st, t, ci, pos, seeds@, ro[b], result@[b]));
            assert(ro[a] <= ro[b]);
            assert(seeds@[ro[a]].1 <= seeds@[ro[b]].1);
        }
        assert forall|j: int| 0 <= j < result@.len() implies from_first_seed(st, t, ci, pos, seeds@, #[trigger] result@[j]) by {
            assert(seeded(st, t, ci, pos, seeds@, ro[j], result@[j]));
        }
    }
    result
}

/// Character positions of a match that ends as early as any, starting as
/// early as any match that ends there, if there is one.
pub(crate) fn find_chars(nfa: &Nfa, text: &Vec<char>, case_insensitive: bool) -> (r: Option<(usize, usize)>)
    requires
        nfa.wf(),
    ensures
        r is None <==> !matches_somewhere(nfa, text@, case_insensitive),
        r matches Some((s, e)) ==> earliest_match(nfa, text@, case_insensitive, s as int, e as int),
{
    let ghost t = text@;
    let ghost ci = case_insensitive;
    let ghost st = nfa.table();
    let ghost start = nfa.start_index() as int;
    let ghost accept = nfa.accept_index() as int;
    let n = text.len();
    let ctx0 = context_at(text, 0);
    let mut seeds: Vec<(usize, usize)> = Vec::new();
    seeds.push((nfa.start(), 0));
    proof {
        lemma_reach_refl(st, t, ci, (start, 0));
        assert(thread_ok(st, start, t, ci, 0, seeds@[0]));
    }
    let mut current = epsilon_closure(nfa, &seeds, &ctx0, Ghost(t), Ghost(ci), Ghost(0));
    proof {
        assert forall|q: int, s: int|
            0 <= s <= 0 && 0 <= q < st.len() && is_resting(st[q]) && #[trigger] reach(st, t, ci, (start, s), (q, 0))
                implies exists|j: int| 0 <= j < current@.len() && (#[trigger] current@[j]).0 == q && current@[j].1 <= s by {
            assert(reach(st, t, ci, (seeds@[0].0 as int, 0), (q, 0)));
        }
    }
    proof {
        assert forall|s: int, e: int| #[trigger] nfa.matches(t, ci, s, e) implies 0 <= e by {
            lemma_reach_positions(st, t, ci, (start, s), (accept, e));
        }
    }
    let mut i: usize = 0;
    while i < n
        invariant
            nfa.wf(),
            t == text@,
            ci == case_insensitive,
            st == nfa.table(),
            start == nfa.start_index(),
            accept == nfa.accept_index(),
            n == t.len(),
            i <= n,
            threads_ok(st, start, t, ci, i as int, current@),
            starts_sorted(current@),
            distinct_states(current@),
            forall|j: int| 0 <= j < current@.len() ==> is_resting(st[(#[trigger] current@[j]).0 as int]),
            forall|q: int, s: int|
                0 <= s <= i && 0 <= q < st.len() && is_resting(st[q]) && #[trigger] reach(st, t, ci, (start, s), (q, i as int))
                    ==> exists|j: int| 0 <= j < current@.len() && (#[trigger] current@[j]).0 == q && current@[j].1 <= s,
            forall|s: int, e: int| #[trigger] nfa.matches(t, ci, s, e) ==> i <= e,
        decreases n - i,
    {
        let c = text[i];
        let mut collected: Vec<(usize, usize)> = Vec::new();
        let mut j: usize = 0;
        while j < current.len()
            invariant
                nfa.wf(),
                t == text@,
                ci == case_insensitive,
                st == nfa.table(),
                start == nfa.start_index(),
                accept == nfa.accept_index(),
                n == t.len(),
                i < n,
                c == t[i as int],
                j <= current@.len(),
                threads_ok(st, start, t, ci, i as int, current@),
                starts_sorted(current@),
                distinct_states(current@),
                forall|j2: int| 0 <= j2 < current@.len() ==> is_resting(st[(#[trigger] current@[j2]).0 as int]),
                forall|q: int, s: int|
                    0 <= s <= i && 0 <= q < st.len() && is_resting(st[q]) && #[trigger] reach(st, t, ci, (start, s), (q, i as int))
                        ==> exists|j2: int| 0 <= j2 < current@.len() && (#[trigger] current@[j2]).0 == q && current@[j2].1 <= s,
                forall|s: int, e: int| #[trigger] nfa.matches(t, ci, s, e) ==> i <= e,
                threads_ok(st, start, t, ci, i + 1, collected@),
                starts_sorted(collected@),
                forall|k2: int|
                    0 <= k2 < collected@.len() && j < current@.len() ==> (#[trigger] collected@[k2]).1 <= current@[j as int].1,
                forall|j2: int| 0 <= j2 < j ==> !(st[(#[trigger] current@[j2]).0 as int] is Match),
                forall|j2: int, tg: int|
                    0 <= j2 < j && #[trigger] step(st, t, ci, (current@[j2].0 as int, i as int), (tg, i + 1))
                        ==> exists|k: int| 0 <= k < collected@.len() && (#[trigger] collected@[k]).0 == tg && collected@[k].1 == current@[j2].1,
            decreases current@.len() - j,
        {
            let (q, sp) = current[j];
            proof {
                assert(thread_ok(st, start, t, ci, i as int, current@[j as int]));
                assert(targets_below(st[q as int], st.len()));
            }
            let ghost col0 = collected@;
            match nfa.state(q) {
                State::Consuming(ranges, target) => {
                    if accepts_char(ranges, c, case_insensitive) {
                        proof {
                            assert(step(st, t, ci, (q as int, i as int), (*target as int, i + 1)));
                            lemma_reach_step(st, t, ci, (start, sp as int), (q as int, i as int), (*target as int, i + 1));
                            assert(thread_ok(st, start, t, ci, i + 1, (*target, sp)));
                        }
                        collected.push((*target, sp));
                        proof {
                            assert forall|m: int| 0 <= m < collected@.len() implies #[trigger] thread_ok(st, start, t, ci, i + 1, collected@[m]) by {
                                if m < col0.len() {
                                    assert(collected@[m] == col0[m]);
                                    assert(thread_ok(st, start, t, ci, i + 1, col0[m]));
                                }
                            }
                            assert forall|a: int, b: int| 0 <= a <= b < collected@.len() implies (#[trigger] collected@[a]).1
                                <= (#[trigger] collected@[b]).1 by {
                                if b < col0.len() {
                                    assert(collected@[a] == col0[a] && collected@[b] == col0[b]);
                                } else if a < col0.len() {
                                    assert(collected@[a] == col0[a]);
                                }
                            }
                        }
                    }
                },
                State::Match => {
                    proof {
                        assert(q == accept);
                        assert(nfa.matches(t, ci, sp as int, i as int));
                        assert forall|s2: int, e2: int| #[trigger] nfa.matches(t, ci, s2, e2) implies i <= e2 && (e2 == i ==> sp <= s2) by {
                            if e2 == i {
                                lemma_reach_positions(st, t, ci, (start, s2), (accept, e2));
                                let j2 = choose|j2: int| 0 <= j2 < current@.len() && (#[trigger] current@[j2]).0 == accept && current@[j2].1 <= s2;
                                if j2 != j {
                                    if j2 < j {
                                        assert(current@[j2].0 != current@[j as int].0);
                                    } else {
                                        assert(current@[j as int].0 != current@[j2].0);
                                    }
                                }
                            }
                        }
                    }
                    return Some((sp, i));
                },
                _ => {},
            }
            proof {
                assert forall|j2: int, tg: int|
                    0 <= j2 < j + 1 && #[trigger] step(st, t, ci, (current@[j2].0 as int, i as int), (tg, i + 1))
                        implies exists|k: int| 0 <= k < collected@.len() && (#[trigger] collected@[k]).0 == tg && collected@[k].1 == current@[j2].1 by {
                    if j2 < j {
                        let k = choose|k: int| 0 <= k < col0.len() && (#[trigger] col0[k]).0 == tg && col0[k].1 == current@[j2].1;
                        assert(collected@[k] == col0[k]);
                    } else {
                        assert(collected@[col0.len() as int].0 == tg);
                    }
                }
                assert forall|k2: int|
                    0 <= k2 < collected@.len() && j + 1 < current@.len() implies (#[trigger] collected@[k2]).1 <= current@[j + 1].1 by {
                    assert(current@[j as int].1 <= current@[j + 1].1);
                    if k2 < col0.len() {
                        assert(collected@[k2] == col0[k2]);
                    }
                }
            }
            j = j + 1;
        }
        let ghost col1 = collected@;
        collected.push((nfa.start(), i + 1));
        proof {
            lemma_reach_refl(st, t, ci, (start, i + 1));
            assert forall|m: int| 0 <= m < collected@.len() implies #[trigger] thread_ok(st, start, t, ci, i + 1, collected@[m]) by {
                if m < col1.len() {
                    assert(collected@[m] == col1[m]);
                    assert(thread_ok(st, start, t, ci, i + 1, col1[m]));
                }
            }
            assert forall|a: int, b: int| 0 <= a <= b < collected@.len() implies (#[trigger] collected@[a]).1
                <= (#[trigger] collected@[b]).1 by {
                assert(thread_ok(st, start, t, ci, i + 1, collected@[a]));
                if b < col1.len() {
                    assert(collected@[a] == col1[a] && collected@[b] == col1[b]);
                }
            }
        }
        let ctx = context_at(text, i + 1);
        let next = epsilon_closure(nfa, &collected, &ctx, Ghost(t), Ghost(ci), Ghost(i + 1));
        proof {
            assert forall|q: int, s: int|
                0 <= s <= i + 1 && 0 <= q < st.len() && is_resting(st[q]) && #[trigger] reach(
                    st,
                    t,
                    ci,
                    (start, s),
                    (q, i + 1),
                ) implies exists|j2: int| 0 <= j2 < next@.len() && (#[trigger] next@[j2]).0 == q && next@[j2].1 <= s by {
                if s == i + 1 {
                    assert(collected@[col1.len() as int].0 as int == start);
                    assert(reach(st, t, ci, (collected@[col1.len() as int].0 as int, i + 1), (q, i + 1)));
                } else {
                    lemma_last_read(st, t, ci, (start, s), q, i as int);
                    let (q2, tg) = choose|q2: int, tg: int|
                        #![trigger reach(st, t, ci, (start, s), (q2, i as int)), reach(st, t, ci, (tg, i + 1), (q, i + 1))]
                        reach(st, t, ci, (start, s), (q2, i as int)) && st[q2] is Consuming && step(
                            st,
                            t,
                            ci,
                            (q2, i as int),
                            (tg, i + 1),
                        ) && reach(st, t, ci, (tg, i + 1), (q, i + 1));
                    let j2 = choose|j2: int| 0 <= j2 < current@.len() && (#[trigger] current@[j2]).0 == q2 && current@[j2].1 <= s;
                    assert(step(st, t, ci, (current@[j2].0 as int, i as int), (tg, i + 1)));
                    let k = choose|k: int| 0 <= k < col1.len() && (#[trigger] col1[k]).0 == tg && col1[k].1 == current@[j2].1;
                    assert(collected@[k] == col1[k]);
                    assert(reach(st, t, ci, (collected@[k].0 as int, i + 1), (q, i + 1)));
                }
            }
            assert forall|s: int, e: int| #[trigger] nfa.matches(t, ci, s, e) implies i + 1 <= e by {
                if e == i {
                    lemma_reach_positions(st, t, ci, (start, s), (accept, e));
                    let j2 = choose|j2: int| 0 <= j2 < current@.len() && (#[trigger] current@[j2]).0 == accept && current@[j2].1 <= s;
                }
            }
        }
        current = next;
        i = i + 1;
    }
    let mut j: usize = 0;
    while j < current.len()
        invariant
            nfa.wf(),
            t == text@,
            ci == case_insensitive,
            st == nfa.table(),
            start == nfa.start_index(),
            accept == nfa.accept_index(),
            n == t.len(),
            i == n,
            j <= current@.len(),
            threads_ok(st, start, t, ci, i as int, current@),
            distinct_states(current@),
            forall|q: int, s: int|
                0 <= s <= i && 0 <= q < st.len() && is_resting(st[q]) && #[trigger] reach(st, t, ci, (start, s), (q, i as int))
                    ==> exists|j2: int| 0 <= j2 < current@.len() && (#[trigger] current@[j2]).0 == q && current@[j2].1 <= s,
            forall|s: int, e: int| #[trigger] nfa.matches(t, ci, s, e) ==> i <= e,
            forall|j2: int| 0 <= j2 < j ==> (#[trigger] current@[j2]).0 != accept,
        decreases current@.len() - j,
    {
        let (q, sp) = current[j];
        if q == nfa.accept() {
            proof {
                assert(thread_ok(st, start, t, ci, i as int, current@[j as int]));
                assert(nfa.matches(t, ci, sp as int, n as int));
                assert forall|s2: int, e2: int| #[trigger] nfa.matches(t, ci, s2, e2) implies n <= e2 && (e2 == n ==> sp <= s2) by {
                    if e2 == n {
                        lemma_reach_positions(st, t, ci, (start, s2), (accept, e2));
                        let j2 = choose|j2: int| 0 <= j2 < current@.len() && (#[trigger] current@[j2]).0 == accept && current@[j2].1 <= s2;
                        if j2 != j {
                            if j2 < j {
                                assert(current@[j2].0 != current@[j as int].0);
                            } else {
                                assert(current@[j as int].0 != current@[j2].0);
                            }
                        }
                    }
                }
            }
            return Some((sp, n));
        }
        j = j + 1;
    }
    proof {
        assert forall|s: int, e: int| !(#[trigger] nfa.matches(t, ci, s, e)) by {
            if nfa.matches(t, ci, s, e) {
                lemma_reach_positions(st, t, ci, (start, s), (accept, e));
                assert(e == n);
                let j2 = choose|j2: int| 0 <= j2 < current@.len() && (#[trigger] current@[j2]).0 == accept && current@[j2].1 <= s;
            }
        }
    }
    None
}

} // verus!
