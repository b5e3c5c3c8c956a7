use rgrep::regex_engine::ast::{Ast, ClassItem, RepetitionKind};
use rgrep::regex_engine::compiler::Compiler;
use rgrep::regex_engine::nfa::{AssertKind, CharRange, State};


#[test]
fn contains_within_range() {
    let range = CharRange::new('a', 'z');
    assert!(range.contains('a'));
    assert!(range.contains('m'));
    assert!(range.contains('z'));
}

#[test]
fn contains_outside_range() {
    let range = CharRange::new('a', 'z');
    assert!(!range.contains('A'));
    assert!(!range.contains('0'));
}

#[test]
fn merge_empty_is_empty() {
    assert_eq!(CharRange::merge(&[]), vec![]);
}

#[test]
fn merge_single_range_is_unchanged() {
    let ranges = vec![CharRange::new('a', 'z')];
    assert_eq!(CharRange::merge(&ranges), ranges);
}

#[test]
fn merge_overlapping_ranges() {
    let ranges = vec![CharRange::new('a', 'm'), CharRange::new('g', 'z')];
    assert_eq!(CharRange::merge(&ranges), vec![CharRange::new('a', 'z')]);
}

#[test]
fn merge_adjacent_ranges() {
    let ranges = vec![CharRange::new('a', 'm'), CharRange::new('n', 'z')];
    assert_eq!(CharRange::merge(&ranges), vec![CharRange::new('a', 'z')]);
}

#[test]
fn merge_disjoint_ranges_stay_separate() {
    let ranges = vec![CharRange::new('a', 'c'), CharRange::new('x', 'z')];
    assert_eq!(
        CharRange::merge(&ranges),
        vec![CharRange::new('a', 'c'), CharRange::new('x', 'z')]
    );
}

#[test]
fn merge_sorts_unsorted_input() {
    let ranges = vec![CharRange::new('x', 'z'), CharRange::new('a', 'c')];
    assert_eq!(
        CharRange::merge(&ranges),
        vec![CharRange::new('a', 'c'), CharRange::new('x', 'z')]
    );
}

#[test]
fn merge_absorbs_contained_range() {
    let ranges = vec![CharRange::new('a', 'z'), CharRange::new('c', 'e')];
    assert_eq!(CharRange::merge(&ranges), vec![CharRange::new('a', 'z')]);
}

#[test]
fn complement_of_empty_is_everything() {
    assert_eq!(
        CharRange::complement(&[]),
        vec![CharRange::new(char::MIN, char::MAX)]
    );
}

#[test]
fn complement_of_everything_is_empty() {
    let ranges = vec![CharRange::new(char::MIN, char::MAX)];
    assert_eq!(CharRange::complement(&ranges), vec![]);
}

#[test]
fn complement_of_single_char_in_the_middle() {
    let ranges = vec![CharRange::new('\n', '\n')];
    assert_eq!(
        CharRange::complement(&ranges),
        vec![
            CharRange::new(char::MIN, '\t'),
            CharRange::new('\u{B}', char::MAX),
        ]
    );
}

#[test]
fn complement_with_no_leading_gap() {
    let ranges = vec![CharRange::new(char::MIN, 'm')];
    assert_eq!(
        CharRange::complement(&ranges),
        vec![CharRange::new('n', char::MAX)]
    );
}

#[test]
fn complement_with_no_trailing_gap() {
    let ranges = vec![CharRange::new('m', char::MAX)];
    assert_eq!(
        CharRange::complement(&ranges),
        vec![CharRange::new(char::MIN, 'l')]
    );
}

#[test]
fn complement_skips_surrogate_hole_going_up() {
    let last_before_hole = char::from_u32(0xD7FF).unwrap();
    let first_after_hole = char::from_u32(0xE000).unwrap();
    let ranges = vec![CharRange::new(char::MIN, last_before_hole)];
    assert_eq!(
        CharRange::complement(&ranges),
        vec![CharRange::new(first_after_hole, char::MAX)]
    );
}

#[test]
fn complement_skips_surrogate_hole_going_down() {
    let last_before_hole = char::from_u32(0xD7FF).unwrap();
    let first_after_hole = char::from_u32(0xE000).unwrap();
    let ranges = vec![CharRange::new(first_after_hole, char::MAX)];
    assert_eq!(
        CharRange::complement(&ranges),
        vec![CharRange::new(char::MIN, last_before_hole)]
    );
}

#[test]
fn char_before_min_is_none() {
    assert_eq!(CharRange::char_before(char::MIN), None);
}

#[test]
fn char_after_max_is_none() {
    assert_eq!(CharRange::char_after(char::MAX), None);
}

#[test]
fn compile_single_literal() {
    let nfa = Compiler::new().build(&Ast::Literal('a'));
    assert_eq!(nfa.states_count(), 2);
    assert_eq!(
        *nfa.state(nfa.start()),
        State::Consuming(vec![CharRange::new('a', 'a')], nfa.accept())
    );
    assert_eq!(*nfa.state(nfa.accept()), State::Match);
}

#[test]
fn compile_concat_chains_literals() {
    let ast = Ast::Concat(vec![Ast::Literal('a'), Ast::Literal('b')]);
    let nfa = Compiler::new().build(&ast);
    assert_eq!(nfa.states_count(), 4);
    assert_eq!(*nfa.state(nfa.accept()), State::Match);

    let State::Consuming(ranges_a, next) = nfa.state(nfa.start()) else {
        panic!("expected Consuming state at start");
    };
    assert_eq!(*ranges_a, vec![CharRange::new('a', 'a')]);

    let State::Split(targets) = nfa.state(*next) else {
        panic!("expected Split state chaining to the second literal");
    };
    assert_eq!(targets.len(), 1);

    let State::Consuming(ranges_b, final_exit) = nfa.state(targets[0]) else {
        panic!("expected Consuming state for second literal");
    };
    assert_eq!(*ranges_b, vec![CharRange::new('b', 'b')]);
    assert_eq!(*final_exit, nfa.accept());
}

#[test]
fn compile_alternation_converges_to_shared_exit() {
    let ast = Ast::Alternation(vec![Ast::Literal('a'), Ast::Literal('b')]);
    let nfa = Compiler::new().build(&ast);

    let State::Split(branches) = nfa.state(nfa.start()) else {
        panic!("expected Split state at start");
    };
    assert_eq!(branches.len(), 2);

    for &branch_entry in branches {
        let State::Consuming(_, branch_exit) = nfa.state(branch_entry) else {
            panic!("expected Consuming state for each branch");
        };
        let State::Split(targets) = nfa.state(*branch_exit) else {
            panic!("expected Split state converging each branch");
        };
        assert_eq!(targets, &vec![nfa.accept()]);
    }
}

#[test]
fn compile_zero_or_more_loops_back_to_inner_entry() {
    let ast = Ast::Repetition {
        kind: RepetitionKind::ZeroOrMore,
        inner: Box::new(Ast::Literal('a')),
    };
    let nfa = Compiler::new().build(&ast);

    let State::Split(start_targets) = nfa.state(nfa.start()) else {
        panic!("expected Split state at start (bypass + inner)");
    };
    assert!(start_targets.contains(&nfa.accept()));

    let inner_entry = *start_targets.iter().find(|&&s| s != nfa.accept()).unwrap();
    let State::Consuming(_, inner_exit) = nfa.state(inner_entry) else {
        panic!("expected Consuming state for inner");
    };

    let State::Split(loop_targets) = nfa.state(*inner_exit) else {
        panic!("expected Split state after inner (loop back + exit)");
    };
    assert!(loop_targets.contains(&inner_entry));
    assert!(loop_targets.contains(&nfa.accept()));
}

#[test]
fn compile_negative_char_class_uses_complement() {
    let ast = Ast::CharClass {
        negative: true,
        items: vec![ClassItem::Char('a')],
    };
    let nfa = Compiler::new().build(&ast);

    let State::Consuming(ranges, _) = nfa.state(nfa.start()) else {
        panic!("expected Consuming state at start");
    };
    assert_eq!(*ranges, CharRange::complement(&[CharRange::new('a', 'a')]));
}

#[test]
fn compile_start_anchor_produces_assert_state() {
    let nfa = Compiler::new().build(&Ast::StartAnchor);
    assert_eq!(
        *nfa.state(nfa.start()),
        State::Assert(AssertKind::Start, nfa.accept())
    );
}

#[test]
fn compile_end_anchor_produces_assert_state() {
    let nfa = Compiler::new().build(&Ast::EndAnchor);
    assert_eq!(
        *nfa.state(nfa.start()),
        State::Assert(AssertKind::End, nfa.accept())
    );
}
