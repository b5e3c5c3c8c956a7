use rgrep::cli::args::{parse, Args, ArgsError, ArgsErrorKind};
use rgrep::cli::output::OutputMode;


fn parse_vec(v: Vec<&str>) -> Result<Args, ArgsError> {
    let args: Vec<String> = v.into_iter().map(String::from).collect();
    parse(&args)
}

#[test]
fn pattern_only() {
    let args = parse_vec(vec!["ab"]).unwrap();
    assert_eq!(args.pattern, "ab");
    assert_eq!(args.path, None);
}

#[test]
fn pattern_and_path() {
    let args = parse_vec(vec!["ab", "file.txt"]).unwrap();
    assert_eq!(args.pattern, "ab");
    assert_eq!(args.path, Some("file.txt".to_string()));
}

#[test]
fn no_args_is_missing_pattern() {
    let err = parse_vec(vec![]).unwrap_err();
    assert_eq!(err.kind, ArgsErrorKind::MissingPattern);
}

#[test]
fn pattern_starting_with_dash_is_unexpected() {
    let err = parse_vec(vec!["-ab"]).unwrap_err();
    assert_eq!(err.kind, ArgsErrorKind::UnexpectedArgument("-ab".into()));
}

#[test]
fn path_starting_with_dash_is_unexpected() {
    let err = parse_vec(vec!["ab", "-x"]).unwrap_err();
    assert_eq!(err.kind, ArgsErrorKind::UnexpectedArgument("-x".into()));
}

#[test]
fn extra_positional_argument_is_unexpected() {
    let err = parse_vec(vec!["ab", "file.txt", "extra"]).unwrap_err();
    assert_eq!(err.kind, ArgsErrorKind::UnexpectedArgument("extra".into()));
}

#[test]
fn default_output_mode_is_matches() {
    let args = parse_vec(vec!["ab"]).unwrap();
    assert_eq!(args.output_mode, OutputMode::Matches);
}

#[test]
fn short_count_flag_sets_count_mode() {
    let args = parse_vec(vec!["-c", "ab"]).unwrap();
    assert_eq!(args.output_mode, OutputMode::Count);
}

#[test]
fn short_files_flag_sets_files_mode() {
    let args = parse_vec(vec!["-l", "ab"]).unwrap();
    assert_eq!(args.output_mode, OutputMode::Files);
}

#[test]
fn long_count_flag_sets_count_mode() {
    let args = parse_vec(vec!["--count", "ab"]).unwrap();
    assert_eq!(args.output_mode, OutputMode::Count);
}

#[test]
fn long_files_flag_sets_files_mode() {
    let args = parse_vec(vec!["--files-with-matches", "ab"]).unwrap();
    assert_eq!(args.output_mode, OutputMode::Files);
}

#[test]
fn bundled_short_flags_the_last_character_wins() {
    let args = parse_vec(vec!["-lc", "ab"]).unwrap();
    assert_eq!(args.output_mode, OutputMode::Count);

    let args = parse_vec(vec!["-cl", "ab"]).unwrap();
    assert_eq!(args.output_mode, OutputMode::Files);
}

#[test]
fn later_flag_wins_over_an_earlier_one() {
    let args = parse_vec(vec!["-c", "-l", "ab"]).unwrap();
    assert_eq!(args.output_mode, OutputMode::Files);

    let args = parse_vec(vec!["-l", "-c", "ab"]).unwrap();
    assert_eq!(args.output_mode, OutputMode::Count);
}

#[test]
fn unknown_short_flag_in_a_bundle_is_unexpected() {
    let err = parse_vec(vec!["-lx", "ab"]).unwrap_err();
    assert_eq!(err.kind, ArgsErrorKind::UnexpectedArgument("-lx".into()));
}

#[test]
fn unknown_long_flag_is_unexpected() {
    let err = parse_vec(vec!["--bogus", "ab"]).unwrap_err();
    assert_eq!(
        err.kind,
        ArgsErrorKind::UnexpectedArgument("--bogus".into())
    );
}

#[test]
fn default_case_insensitive_is_false() {
    let args = parse_vec(vec!["ab"]).unwrap();
    assert!(!args.case_insensitive);
}

#[test]
fn short_ignore_case_flag_sets_case_insensitive() {
    let args = parse_vec(vec!["-i", "ab"]).unwrap();
    assert!(args.case_insensitive);
}

#[test]
fn long_ignore_case_flag_sets_case_insensitive() {
    let args = parse_vec(vec!["--ignore-case", "ab"]).unwrap();
    assert!(args.case_insensitive);
}

#[test]
fn ignore_case_can_be_bundled_with_other_short_flags() {
    let args = parse_vec(vec!["-ic", "ab"]).unwrap();
    assert!(args.case_insensitive);
    assert_eq!(args.output_mode, OutputMode::Count);
}

#[test]
fn default_whole_word_is_false() {
    let args = parse_vec(vec!["ab"]).unwrap();
    assert!(!args.whole_word);
}

#[test]
fn short_word_regexp_flag_sets_whole_word() {
    let args = parse_vec(vec!["-w", "ab"]).unwrap();
    assert!(args.whole_word);
}

#[test]
fn long_word_regexp_flag_sets_whole_word() {
    let args = parse_vec(vec!["--word-regexp", "ab"]).unwrap();
    assert!(args.whole_word);
}

#[test]
fn word_regexp_can_be_bundled_with_other_short_flags() {
    let args = parse_vec(vec!["-wi", "ab"]).unwrap();
    assert!(args.whole_word);
    assert!(args.case_insensitive);
}

#[test]
fn default_invert_match_is_false() {
    let args = parse_vec(vec!["ab"]).unwrap();
    assert!(!args.invert_match);
}

#[test]
fn short_invert_match_flag_sets_invert_match() {
    let args = parse_vec(vec!["-v", "ab"]).unwrap();
    assert!(args.invert_match);
}

#[test]
fn long_invert_match_flag_sets_invert_match() {
    let args = parse_vec(vec!["--invert-match", "ab"]).unwrap();
    assert!(args.invert_match);
}

#[test]
fn invert_match_can_be_bundled_with_other_short_flags() {
    let args = parse_vec(vec!["-vi", "ab"]).unwrap();
    assert!(args.invert_match);
    assert!(args.case_insensitive);
}

#[test]
fn default_context_is_zero() {
    let args = parse_vec(vec!["ab"]).unwrap();
    assert_eq!(args.before_context, 0);
    assert_eq!(args.after_context, 0);
}

#[test]
fn long_after_context_flag_sets_after_context() {
    let args = parse_vec(vec!["--after-context", "2", "ab"]).unwrap();
    assert_eq!(args.after_context, 2);
    assert_eq!(args.before_context, 0);
}

#[test]
fn long_before_context_flag_sets_before_context() {
    let args = parse_vec(vec!["--before-context", "3", "ab"]).unwrap();
    assert_eq!(args.before_context, 3);
    assert_eq!(args.after_context, 0);
}

#[test]
fn long_context_flag_sets_both_before_and_after_context() {
    let args = parse_vec(vec!["--context", "2", "ab"]).unwrap();
    assert_eq!(args.before_context, 2);
    assert_eq!(args.after_context, 2);
}

#[test]
fn long_after_context_flag_without_a_value_is_unexpected_eoi() {
    let err = parse_vec(vec!["--after-context"]).unwrap_err();
    assert_eq!(err.kind, ArgsErrorKind::UnexpectedEOI);
}

#[test]
fn long_after_context_flag_with_a_non_numeric_value_is_unexpected() {
    let err = parse_vec(vec!["--after-context", "x", "ab"]).unwrap_err();
    assert_eq!(err.kind, ArgsErrorKind::UnexpectedArgument("x".into()));
}

#[test]
fn short_after_context_flag_with_a_separate_value_sets_after_context() {
    let args = parse_vec(vec!["-A", "4", "ab"]).unwrap();
    assert_eq!(args.after_context, 4);
}

#[test]
fn short_after_context_flag_with_an_attached_value_sets_after_context() {
    let args = parse_vec(vec!["-A4", "ab"]).unwrap();
    assert_eq!(args.after_context, 4);
}

#[test]
fn short_before_context_flag_with_a_separate_value_sets_before_context() {
    let args = parse_vec(vec!["-B", "4", "ab"]).unwrap();
    assert_eq!(args.before_context, 4);
}

#[test]
fn short_before_context_flag_with_an_attached_value_sets_before_context() {
    let args = parse_vec(vec!["-B4", "ab"]).unwrap();
    assert_eq!(args.before_context, 4);
}

#[test]
fn short_context_flag_sets_both_before_and_after_context() {
    let args = parse_vec(vec!["-C2", "ab"]).unwrap();
    assert_eq!(args.before_context, 2);
    assert_eq!(args.after_context, 2);
}

#[test]
fn short_after_context_flag_without_a_value_is_unexpected_eoi() {
    let err = parse_vec(vec!["-A"]).unwrap_err();
    assert_eq!(err.kind, ArgsErrorKind::UnexpectedEOI);
}

#[test]
fn short_after_context_flag_with_a_non_numeric_attached_value_is_unexpected() {
    let err = parse_vec(vec!["-Ax", "ab"]).unwrap_err();
    assert_eq!(err.kind, ArgsErrorKind::UnexpectedArgument("x".into()));
}

#[test]
fn short_context_flag_can_be_bundled_after_other_short_flags() {
    let args = parse_vec(vec!["-iA2", "ab"]).unwrap();
    assert!(args.case_insensitive);
    assert_eq!(args.after_context, 2);
}
