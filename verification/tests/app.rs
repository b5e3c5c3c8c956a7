use rgrep::cli::app::{build_matcher, create_matcher_from_args, relative_path, App, RunOutcome};
use rgrep::cli::args::Args;
use rgrep::cli::colorizer::Colorizer;
use rgrep::cli::gitignore::{Gitignore, GitignoreCache};
use rgrep::cli::output::{Output, OutputMode};
use rgrep::regex_engine::regex::RegexBuilder;
use rgrep::search::line_match::LineMatch;
use rgrep::search::matcher::Matcher;

fn args_with_patterns(patterns: Vec<&str>) -> Args {
    Args {
        pattern: patterns.first().map(|p| p.to_string()).unwrap_or_default(),
        patterns: patterns.into_iter().map(String::from).collect(),
        path: None,
        output_mode: OutputMode::Matches,
        case_insensitive: false,
        whole_word: false,
        invert_match: false,
        before_context: 0,
        after_context: 0,
        only_matching: false,
        fixed_strings: false,
        threads_count: None,
    }
}

fn make_app(matched: bool) -> App {
    let args = args_with_patterns(vec!["x"]);
    let matcher: Box<dyn Matcher> =
        Box::new(RegexBuilder::new(args.patterns[0].clone()).build().unwrap());
    let gitignore = GitignoreCache::new(String::new());
    let mut output = Output::new(
        OutputMode::Matches,
        false,
        false,
        Colorizer::new(false),
        false,
    );

    if matched {
        output.report(
            #[allow(clippy::single_range_in_vec_init)]
            &vec![LineMatch {
                line_number: 1,
                line: "hello".to_string(),
                match_spans: vec![0..5],
                is_context: false,
            }],
            None,
        );
    }

    App::new(args, matcher, gitignore, output)
}

#[test]
fn run_outcome_is_had_error_when_had_error_is_true_regardless_of_matches() {
    assert!(matches!(
        make_app(true).run_outcome(true),
        RunOutcome::HadError
    ));
    assert!(matches!(
        make_app(false).run_outcome(true),
        RunOutcome::HadError
    ));
}

#[test]
fn run_outcome_is_matched_when_there_was_no_error_and_output_matched() {
    assert!(matches!(
        make_app(true).run_outcome(false),
        RunOutcome::Matched
    ));
}

#[test]
fn run_outcome_is_no_matches_when_there_was_no_error_and_output_did_not_match() {
    assert!(matches!(
        make_app(false).run_outcome(false),
        RunOutcome::NoMatches
    ));
}

#[test]
fn build_matcher_returns_a_regex_matcher_by_default() {
    let args = args_with_patterns(vec!["ab"]);
    let matcher = build_matcher("ab", &args).unwrap();
    assert_eq!(matcher.find("xxabxx"), Some(2..4));
}

#[test]
fn build_matcher_returns_a_literal_matcher_when_fixed_strings_is_set() {
    let mut args = args_with_patterns(vec!["a.c"]);
    args.fixed_strings = true;
    let matcher = build_matcher("a.c", &args).unwrap();
    assert_eq!(matcher.find("abc"), None);
    assert_eq!(matcher.find("xxa.cxx"), Some(2..5));
}

#[test]
fn build_matcher_propagates_invalid_regex_errors() {
    let args = args_with_patterns(vec!["("]);
    assert!(build_matcher("(", &args).is_err());
}

#[test]
fn create_matcher_from_args_matches_any_of_multiple_patterns() {
    let args = args_with_patterns(vec!["foo", "bar"]);
    let matcher = create_matcher_from_args(&args).unwrap();

    assert_eq!(matcher.find("xx bar xx"), Some(3..6));
    assert_eq!(matcher.find("xx foo xx"), Some(3..6));
    assert_eq!(matcher.find("xx baz xx"), None);
}

#[test]
fn create_matcher_from_args_propagates_parse_errors() {
    let args = args_with_patterns(vec!["("]);
    assert!(create_matcher_from_args(&args).is_err());
}

#[test]
fn build_matcher_honours_whole_word_for_patterns() {
    let mut args = args_with_patterns(vec!["cat"]);
    args.whole_word = true;
    let matcher = build_matcher("cat", &args).unwrap();
    assert_eq!(matcher.find("concatenate"), None);
    assert_eq!(matcher.find("a cat sat"), Some(2..5));
}

/// A cache for the tree under `root` with the rules of `dirs` loaded, and
/// no rules for every other directory on the way to `paths`, as a walk
/// that reads each directory's rules before asking would hold it.
fn cache_with(root: &str, dirs: &[(&str, &str)], paths: &[&str]) -> GitignoreCache {
    let mut cache = GitignoreCache::new(root.to_string());
    for (dir, contents) in dirs {
        cache.insert(dir.to_string(), Gitignore::parse(contents));
    }
    for path in paths {
        let relative = relative_path(path, root);
        for dir in GitignoreCache::levels(&relative) {
            if !cache.is_loaded(&dir) {
                cache.insert(dir, Gitignore::empty());
            }
        }
    }
    cache
}

#[test]
fn skips_the_git_directory_regardless_of_gitignore_content() {
    let gitignore = cache_with("/tmp/tree", &[], &["/tmp/tree/.git"]);
    assert!(App::should_skip_path("/tmp/tree/.git", true, "/tmp/tree", &gitignore));
}

#[test]
fn does_not_skip_a_file_that_is_not_a_directory_named_dot_git() {
    let gitignore = cache_with("/tmp/tree", &[], &["/tmp/tree/.git"]);
    assert!(!App::should_skip_path("/tmp/tree/.git", false, "/tmp/tree", &gitignore));
}

#[test]
fn skips_files_matched_by_gitignore() {
    let gitignore = cache_with("/tmp/tree", &[("", "*.log")], &["/tmp/tree/debug.log"]);
    assert!(App::should_skip_path("/tmp/tree/debug.log", false, "/tmp/tree", &gitignore));
}

#[test]
fn does_not_skip_files_not_matched_by_gitignore() {
    let gitignore = cache_with("/tmp/tree", &[("", "*.log")], &["/tmp/tree/main.rs"]);
    assert!(!App::should_skip_path("/tmp/tree/main.rs", false, "/tmp/tree", &gitignore));
}

#[test]
fn matches_relative_to_root_not_the_full_path() {
    let paths = ["/tmp/tree/build", "/tmp/tree/sub/build"];
    let gitignore = cache_with("/tmp/tree", &[("", "/build")], &paths);
    assert!(App::should_skip_path("/tmp/tree/build", true, "/tmp/tree", &gitignore));
    assert!(!App::should_skip_path("/tmp/tree/sub/build", true, "/tmp/tree", &gitignore));
}

#[test]
fn a_nested_gitignore_can_re_include_a_file_ignored_by_a_parent() {
    let paths = ["/tmp/tree/a.log", "/tmp/tree/sub/important.log"];
    let gitignore = cache_with("/tmp/tree", &[("", "*.log"), ("sub", "!important.log")], &paths);
    assert!(App::should_skip_path("/tmp/tree/a.log", false, "/tmp/tree", &gitignore));
    assert!(!App::should_skip_path("/tmp/tree/sub/important.log", false, "/tmp/tree", &gitignore));
}

#[test]
fn a_nested_gitignore_scopes_its_own_ignores_to_its_directory() {
    let paths = ["/tmp/tree/sub/cache.tmp", "/tmp/tree/cache.tmp"];
    let gitignore = cache_with("/tmp/tree", &[("sub", "*.tmp")], &paths);
    assert!(App::should_skip_path("/tmp/tree/sub/cache.tmp", false, "/tmp/tree", &gitignore));
    assert!(!App::should_skip_path("/tmp/tree/cache.tmp", false, "/tmp/tree", &gitignore));
}

#[test]
fn relative_path_strips_the_root_and_its_separator() {
    assert_eq!(relative_path("/tmp/tree/sub/a.rs", "/tmp/tree"), "sub/a.rs");
    assert_eq!(relative_path("/tmp/tree", "/tmp/tree"), "");
    assert_eq!(relative_path("/tmp/treehouse/a.rs", "/tmp/tree"), "/tmp/treehouse/a.rs");
    assert_eq!(relative_path("a.rs", ""), "a.rs");
    assert_eq!(relative_path("tree/sub/a.rs", "tree/"), "sub/a.rs");
}
