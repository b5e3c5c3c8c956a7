//! Literal text that a pattern pins down, usable to rule lines out before
//! running the automaton.
use vstd::prelude::*;
use crate::regex_engine::ast::{
    Ast,
    ast_term,
    asts_terms,
    lemma_asts_terms_len,
    lemma_concat_matches,
    lemma_condition_matches,
    lemma_group_matches,
    lemma_leaf_matches,
    lemma_leaf_terms,
    lemma_matches_range,
    pieces,
    term_matches,
};
use crate::regex_engine::nfa::AssertKind;
use crate::text::{byte_len, str_byte_len};

verus! {

/// The characters of an optional string.
pub open spec fn opt_chars(o: Option<String>) -> Option<Seq<char>> {
    match o {
        Some(s) => Some(s@),
        None => None,
    }
}

/// The text that `a` always matches exactly, if it is made only of literal
/// characters, groups, concatenations and zero-width conditions.
pub open spec fn exact_spec(a: Ast) -> Option<Seq<char>>
    decreases a, 0nat,
{
    match a {
        Ast::Literal(c) => Some(seq![c]),
        Ast::Group(inner) => exact_spec(*inner),
        Ast::Concat(items) => exact_items(items@, items@.len()),
        Ast::Repetition { .. } | Ast::CharClass { .. } | Ast::Dot | Ast::Alternation(_) => None,
        Ast::StartAnchor | Ast::EndAnchor | Ast::WordBoundary | Ast::WordStart | Ast::WordEnd => Some(
            Seq::empty(),
        ),
    }
}

/// The exact texts of the first `n` items, one after the other, if each
/// has one.
pub open spec fn exact_items(items: Seq<Ast>, n: nat) -> Option<Seq<char>>
    decreases items, n,
{
    if n == 0 {
        Some(Seq::empty())
    } else if n > items.len() {
        None
    } else {
        match exact_items(items, (n - 1) as nat) {
            None => None,
            Some(pre) => match exact_spec(items[n - 1]) {
                None => None,
                Some(x) => Some(pre + x),
            },
        }
    }
}

/// Of two optional texts, the longer in bytes; the first one on a tie.
pub open spec fn longer_spec(a: Option<Seq<char>>, b: Option<Seq<char>>) -> Option<Seq<char>> {
    match (a, b) {
        (Some(x), Some(y)) => if byte_len(x) >= byte_len(y) {
            Some(x)
        } else {
            Some(y)
        },
        (Some(x), None) => Some(x),
        (None, y) => y,
    }
}

/// A text that every match of `a` contains: the longest run of consecutive
/// exact pieces (or one found inside a piece that is not exact), if any.
pub open spec fn required_spec(a: Ast) -> Option<Seq<char>>
    decreases a, 1nat,
{
    match a {
        Ast::Literal(c) => Some(seq![c]),
        Ast::Group(inner) => required_spec(*inner),
        Ast::Concat(items) => {
            let (best, current) = required_fold(items@, items@.len());
            longer_spec(best, current)
        },
        Ast::Repetition { .. } | Ast::CharClass { .. } | Ast::Dot | Ast::Alternation(_) => None,
        Ast::StartAnchor | Ast::EndAnchor | Ast::WordBoundary | Ast::WordStart | Ast::WordEnd => Some(
            Seq::empty(),
        ),
    }
}

/// After the first `n` items of a concatenation: the best run closed so far
/// and the run of exact pieces still open.
pub open spec fn required_fold(items: Seq<Ast>, n: nat) -> (Option<Seq<char>>, Option<Seq<char>>)
    decreases items, n,
{
    if n == 0 || n > items.len() {
        (None, None)
    } else {
        let (best, current) = required_fold(items, (n - 1) as nat);
        match exact_spec(items[n - 1]) {
            Some(x) => (
                best,
                Some(
                    match current {
                        Some(c) => c + x,
                        None => x,
                    },
                ),
            ),
            None => (longer_spec(longer_spec(best, current), required_spec(items[n - 1])), None),
        }
    }
}

fn single(c: char) -> (r: String)
    ensures
        r@ == seq![c],
{
    let mut r = String::new();
    r.push(c);
    r
}

/// The longest text that every match of `ast` contains, as far as the
/// structure of the pattern shows it.
pub fn required_literal(ast: &Ast) -> (r: Option<String>)
    ensures
        opt_chars(r) == required_spec(*ast),
    decreases ast, 1nat,
{
    match ast {
        Ast::Literal(c) => Some(single(*c)),
        Ast::Group(inner) => required_literal(inner),
        Ast::Concat(items) => {
            let mut best_run: Option<String> = None;
            let mut current_run: Option<String> = None;
            let mut k: usize = 0;
            while k < items.len()
                invariant
                    k <= items@.len(),
                    *ast == Ast::Concat(*items),
                    (opt_chars(best_run), opt_chars(current_run)) == required_fold(items@, k as nat),
                decreases items@.len() - k,
            {
                let item = &items[k];
                match exact_literal(item) {
                    Some(result) => {
                        current_run = match current_run {
                            Some(current) => {
                                let mut current = current;
                                current.append(result.as_str());
                                Some(current)
                            },
                            None => Some(result),
                        };
                    },
                    None => {
                        let closed = current_run;
                        current_run = None;
                        best_run = longer(best_run, closed);
                        proof {
                            assert(decreases_to!(*ast => (*ast)->Concat_0));
                            assert(decreases_to!(*items => items@));
                            assert(decreases_to!(items@ => items@[k as int]));
                        }
                        let literal_run = required_literal(&items[k]);
                        best_run = longer(best_run, literal_run);
                    },
                }
                k = k + 1;
            }
            longer(best_run, current_run)
        },
        Ast::Repetition { .. } | Ast::CharClass { .. } | Ast::Dot | Ast::Alternation(_) => None,
        Ast::StartAnchor | Ast::EndAnchor | Ast::WordBoundary | Ast::WordStart | Ast::WordEnd => Some(
            String::new(),
        ),
    }
}

/// The text `ast` always matches, if it is fully literal.
pub fn exact_literal(ast: &Ast) -> (r: Option<String>)
    ensures
        opt_chars(r) == exact_spec(*ast),
    decreases ast, 0nat,
{
    match ast {
        Ast::Literal(c) => Some(single(*c)),
        Ast::Group(inner) => exact_literal(inner),
        Ast::Concat(items) => {
            let mut current_run = String::new();
            let mut k: usize = 0;
            while k < items.len()
                invariant
                    k <= items@.len(),
                    *ast == Ast::Concat(*items),
                    exact_items(items@, k as nat) == Some(current_run@),
                decreases items@.len() - k,
            {
                match exact_literal(&items[k]) {
                    Some(value) => current_run.append(value.as_str()),
                    None => {
                        proof {
                            lemma_exact_items_none(items@, (k + 1) as nat, items@.len());
                        }
                        return None;
                    },
                }
                k = k + 1;
            }
            Some(current_run)
        },
        Ast::Repetition { .. } | Ast::CharClass { .. } | Ast::Dot | Ast::Alternation(_) => None,
        Ast::StartAnchor | Ast::EndAnchor | Ast::WordBoundary | Ast::WordStart | Ast::WordEnd => Some(
            String::new(),
        ),
    }
}

/// Once a prefix of the items has no exact text, no longer prefix has one.
proof fn lemma_exact_items_none(items: Seq<Ast>, n: nat, m: nat)
    requires
        exact_items(items, n) is None,
        n <= m,
    ensures
        exact_items(items, m) is None,
    decreases m - n,
{
    if n < m {
        lemma_exact_items_none(items, n, (m - 1) as nat);
    }
}

/// The longer of two optional strings, in bytes; the first one on a tie.
pub fn longer(a: Option<String>, b: Option<String>) -> (r: Option<String>)
    ensures
        opt_chars(r) == longer_spec(opt_chars(a), opt_chars(b)),
{
    match (a, b) {
        (Some(a), Some(b)) => {
            if str_byte_len(a.as_str()) >= str_byte_len(b.as_str()) {
                Some(a)
            } else {
                Some(b)
            }
        },
        (Some(a), None) => Some(a),
        (None, Some(b)) => Some(b),
        (None, None) => None,
    }
}

/// `w` stands somewhere in `t` between positions `s` and `e`.
pub open spec fn occurs_within(t: Seq<char>, w: Seq<char>, s: int, e: int) -> bool {
    exists|k: int| s <= k && k + w.len() <= e && #[trigger] t.subrange(k, k + w.len()) == w
}

/// Where a fully literal pattern matches, exactly characters of its text
/// stand, when case is read exactly.
pub proof fn lemma_exact_matches(a: Ast, t: Seq<char>, s: int, e: int)
    requires
        exact_spec(a) is Some,
        term_matches(a@, t, false, s, e),
    ensures
        e - s == exact_spec(a)->Some_0.len(),
        t.subrange(s, e) == exact_spec(a)->Some_0,
    decreases a, 0nat,
{
    lemma_matches_range(a@, t, false, s, e);
    lemma_leaf_terms('a');
    match a {
        Ast::Literal(c) => {
            lemma_leaf_terms(c);
            lemma_leaf_matches(a@, t, false, s, e);
            assert(t.subrange(s, e) =~= seq![c]);
        },
        Ast::Group(inner) => {
            lemma_group_matches(ast_term(*inner), t, false, s, e);
            lemma_exact_matches(*inner, t, s, e);
        },
        Ast::Concat(items) => {
            let ts = asts_terms(items@);
            lemma_asts_terms_len(items@);
            lemma_concat_matches(ts, t, false, s, e);
            let ps = choose|ps: Seq<int>|
                #[trigger] pieces(ps, ts.len() as int, s, e) && forall|k: int|
                    0 <= k < ts.len() ==> #[trigger] term_matches(ts[k], t, false, ps[k], ps[k + 1]);
            assert(decreases_to!(a => items));
            lemma_exact_items_matches(items@, t, ps, items@.len());
        },
        Ast::StartAnchor => {
            lemma_condition_matches(a@, AssertKind::Start, t, false, s, e);
        },
        Ast::EndAnchor => {
            lemma_condition_matches(a@, AssertKind::End, t, false, s, e);
        },
        Ast::WordBoundary => {
            lemma_condition_matches(a@, AssertKind::WordBoundary, t, false, s, e);
        },
        Ast::WordStart => {
            lemma_condition_matches(a@, AssertKind::WordStart, t, false, s, e);
        },
        Ast::WordEnd => {
            lemma_condition_matches(a@, AssertKind::WordEnd, t, false, s, e);
        },
        _ => {},
    }
}

/// The first `n` items of a fully literal sequence match exactly their
/// texts, one after the other.
proof fn lemma_exact_items_matches(items: Seq<Ast>, t: Seq<char>, ps: Seq<int>, n: nat)
    requires
        n <= items.len(),
        ps.len() == items.len() + 1,
        0 <= ps[0] <= t.len(),
        exact_items(items, n) is Some,
        forall|k: int| 0 <= k < items.len() ==> #[trigger] term_matches(asts_terms(items)[k], t, false, ps[k], ps[k + 1]),
    ensures
        ps[n as int] - ps[0] == exact_items(items, n)->Some_0.len(),
        t.subrange(ps[0], ps[n as int]) == exact_items(items, n)->Some_0,
    decreases items, n,
{
    lemma_asts_terms_len(items);
    if n == 0 {
        assert(t.subrange(ps[0], ps[0]) =~= Seq::<char>::empty());
    } else {
        let i = n - 1;
        lemma_exact_items_matches(items, t, ps, (n - 1) as nat);
        assert(term_matches(asts_terms(items)[i], t, false, ps[i], ps[i + 1]));
        assert(asts_terms(items)[i] == items[i]@);
        assert(decreases_to!(items => items[i]));
        lemma_exact_matches(items[i], t, ps[i], ps[i + 1]);
        lemma_matches_range(items[i]@, t, false, ps[i], ps[i + 1]);
        lemma_pieces_mono_between(asts_terms(items), t, ps, 0, i);
        assert(t.subrange(ps[0], ps[n as int]) =~= t.subrange(ps[0], ps[i]) + t.subrange(ps[i], ps[i + 1]));
    }
}

/// Where a pattern matches, with case read exactly, the text it requires
/// stands within the match.
pub proof fn lemma_required_occurs(a: Ast, t: Seq<char>, s: int, e: int)
    requires
        required_spec(a) is Some,
        term_matches(a@, t, false, s, e),
    ensures
        occurs_within(t, required_spec(a)->Some_0, s, e),
    decreases a, 1nat,
{
    lemma_matches_range(a@, t, false, s, e);
    lemma_leaf_terms('a');
    match a {
        Ast::Literal(c) => {
            lemma_exact_matches(a, t, s, e);
            assert(t.subrange(s, s + 1) == seq![c]);
        },
        Ast::Group(inner) => {
            lemma_group_matches(ast_term(*inner), t, false, s, e);
            lemma_required_occurs(*inner, t, s, e);
        },
        Ast::Concat(items) => {
            let ts = asts_terms(items@);
            lemma_asts_terms_len(items@);
            lemma_concat_matches(ts, t, false, s, e);
            let ps = choose|ps: Seq<int>|
                #[trigger] pieces(ps, ts.len() as int, s, e) && forall|k: int|
                    0 <= k < ts.len() ==> #[trigger] term_matches(ts[k], t, false, ps[k], ps[k + 1]);
            assert(decreases_to!(a => items));
            lemma_required_fold_occurs(items@, t, ps, items@.len());
            let (best, current) = required_fold(items@, items@.len());
            if best is Some && current is Some {
                let w = required_spec(a)->Some_0;
                if w == best->Some_0 {
                } else {
                    let j = choose|j: int| 0 <= j <= items@.len() && t.subrange(ps[j], ps[items@.len() as int])
                        == current->Some_0;
                    lemma_pieces_mono_between(ts, t, ps, 0, j);
                    lemma_pieces_mono_between(ts, t, ps, j, items@.len() as int);
                    assert(t.subrange(ps[j], ps[j] + w.len()) == w);
                }
            } else if current is Some {
                let w = current->Some_0;
                let j = choose|j: int| 0 <= j <= items@.len() && t.subrange(ps[j], ps[items@.len() as int]) == w;
                lemma_pieces_mono_between(ts, t, ps, 0, j);
                lemma_pieces_mono_between(ts, t, ps, j, items@.len() as int);
                assert(t.subrange(ps[j], ps[j] + w.len()) == w);
            }
        },
        _ => {
            assert(t.subrange(s, s + 0) =~= Seq::<char>::empty());
        },
    }
}

/// After the first `n` items of a sequence that matches, piece by piece:
/// the best run closed so far stands within the match of those items, and
/// the run still open ends where they end.
proof fn lemma_required_fold_occurs(items: Seq<Ast>, t: Seq<char>, ps: Seq<int>, n: nat)
    requires
        n <= items.len(),
        ps.len() == items.len() + 1,
        0 <= ps[0] <= t.len(),
        forall|k: int| 0 <= k < items.len() ==> #[trigger] term_matches(asts_terms(items)[k], t, false, ps[k], ps[k + 1]),
    ensures
        required_fold(items, n).0 matches Some(b) ==> occurs_within(t, b, ps[0], ps[n as int]),
        required_fold(items, n).1 matches Some(c) ==> exists|j: int|
            0 <= j <= n && t.subrange(ps[j], ps[n as int]) == c,
    decreases items, n,
{
    lemma_asts_terms_len(items);
    let ts = asts_terms(items);
    if n > 0 {
        let i = n - 1;
        lemma_required_fold_occurs(items, t, ps, (n - 1) as nat);
        assert(term_matches(ts[i], t, false, ps[i], ps[i + 1]));
        assert(ts[i] == items[i]@);
        lemma_matches_range(items[i]@, t, false, ps[i], ps[i + 1]);
        lemma_pieces_mono_between(ts, t, ps, 0, i);
        let (best, current) = required_fold(items, (n - 1) as nat);
        assert(decreases_to!(items => items[i]));
        if best is Some {
            let b = best->Some_0;
            let k = choose|k: int| ps[0] <= k && k + b.len() <= ps[i] && #[trigger] t.subrange(k, k + b.len()) == b;
            assert(occurs_within(t, b, ps[0], ps[n as int]));
        }
        match exact_spec(items[i]) {
            Some(x) => {
                lemma_exact_matches(items[i], t, ps[i], ps[i + 1]);
                match current {
                    Some(c) => {
                        let j = choose|j: int| 0 <= j <= n - 1 && t.subrange(ps[j], ps[i]) == c;
                        lemma_pieces_mono_between(ts, t, ps, 0, j);
                        lemma_pieces_mono_between(ts, t, ps, j, i);
                        assert(t.subrange(ps[j], ps[n as int]) =~= t.subrange(ps[j], ps[i]) + t.subrange(ps[i], ps[i + 1]));
                    },
                    None => {
                        assert(t.subrange(ps[i], ps[n as int]) == x);
                    },
                }
            },
            None => {
                if current is Some {
                    let c = current->Some_0;
                    let j = choose|j: int| 0 <= j <= n - 1 && t.subrange(ps[j], ps[i]) == c;
                    lemma_pieces_mono_between(ts, t, ps, 0, j);
                    lemma_pieces_mono_between(ts, t, ps, j, i);
                    assert(t.subrange(ps[j], ps[j] + c.len()) == c);
                    assert(occurs_within(t, c, ps[0], ps[n as int]));
                }
                if required_spec(items[i]) is Some {
                    lemma_required_occurs(items[i], t, ps[i], ps[i + 1]);
                    let r = required_spec(items[i])->Some_0;
                    let k = choose|k: int| ps[i] <= k && k + r.len() <= ps[i + 1] && #[trigger] t.subrange(k, k + r.len()) == r;
                    assert(occurs_within(t, r, ps[0], ps[n as int]));
                }
            },
        }
    }
}

/// Pieces each matched by its term go forward, from any piece to a later one.
proof fn lemma_pieces_mono_between(ts: Seq<crate::regex_engine::ast::Term>, t: Seq<char>, ps: Seq<int>, i: int, j: int)
    requires
        0 <= i <= j < ps.len(),
        j <= ts.len(),
        forall|k: int| 0 <= k < ts.len() ==> #[trigger] term_matches(ts[k], t, false, ps[k], ps[k + 1]),
    ensures
        ps[i] <= ps[j],
    decreases j - i,
{
    if i < j {
        lemma_pieces_mono_between(ts, t, ps, i, j - 1);
        let k = j - 1;
        assert(term_matches(ts[k], t, false, ps[k], ps[k + 1]));
        lemma_matches_range(ts[k], t, false, ps[k], ps[k + 1]);
    }
}

} // verus!
