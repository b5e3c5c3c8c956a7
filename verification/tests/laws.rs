use rgrep::cli::app::build_matcher;
use rgrep::cli::colorizer::Colorizer;
use rgrep::cli::output::{Output, OutputMode};
use rgrep::regex_engine::nfa::CharRange;
use rgrep::cli::args::{parse, Args, ArgsError, ArgsErrorKind};
use rgrep::cli::error::AppError;
use rgrep::regex_engine::error::{ParseError, ParseErrorKind};
use rgrep::regex_engine::parser::Parser;
use rgrep::regex_engine::prefilter::{exact_literal, required_literal};
use rgrep::regex_engine::regex::{Regex, RegexBuilder};
use rgrep::search::line_match::LineMatch;
use rgrep::search::matcher::{LiteralMatcher, Matcher};
use rgrep::search::searcher::search;

fn numbers(lines: &[LineMatch]) -> Vec<(usize, bool)> {
    lines.iter().map(|m| (m.line_number, m.is_context)).collect()
}

#[test]
fn context_shows_each_line_near_a_hit_once_and_in_order() {
    let re = Regex::new("x").unwrap();
    let text = "a\nx\nb\nc\nd\ne\nx\nf\n";
    let lines = search(&re, text, false, 2, 1);
    assert_eq!(
        numbers(&lines),
        vec![(1, true), (2, false), (3, true), (5, true), (6, true), (7, false), (8, true)]
    );
}

#[test]
fn overlapping_context_windows_do_not_repeat_lines() {
    let re = Regex::new("x").unwrap();
    let text = "x\na\nx\nb\n";
    let lines = search(&re, text, false, 2, 2);
    assert_eq!(numbers(&lines), vec![(1, false), (2, true), (3, false), (4, true)]);
}

#[test]
fn inverted_search_with_context_reports_hits_as_non_context() {
    let re = Regex::new("x").unwrap();
    let text = "x\na\nx\nx\n";
    let lines = search(&re, text, true, 1, 0);
    assert_eq!(numbers(&lines), vec![(1, true), (2, false)]);
    assert!(lines.iter().all(|m| m.match_spans.is_empty()));
}

#[test]
fn repetition_of_a_group_matches_the_whole_run() {
    let re = Regex::new("(ab)+c").unwrap();
    let m = re.find("xxababcx").unwrap();
    assert_eq!(m.as_str(), "ababc");
    assert_eq!((m.start(), m.end()), (2, 7));
}

#[test]
fn optional_and_alternation_decide_what_matches() {
    let re = Regex::new("colou?r|grey").unwrap();
    assert!(re.is_match("my color"));
    assert!(re.is_match("my colour"));
    assert!(re.is_match("grey sky"));
    assert!(!re.is_match("colouur"));
}

#[test]
fn the_match_found_is_the_one_that_ends_first() {
    let re = Regex::new("b|abc").unwrap();
    let m = re.find("abc").unwrap();
    assert_eq!(m.end(), 2);
    assert_eq!(m.as_str(), "b");
}

#[test]
fn negated_class_reads_what_the_class_does_not_hold() {
    let re = Regex::new("[^a-c]").unwrap();
    let m = re.find("abcd").unwrap();
    assert_eq!((m.start(), m.end()), (3, 4));
    assert!(!re.is_match("abc"));
}

#[test]
fn dot_does_not_read_a_line_break() {
    let re = Regex::new("a.b").unwrap();
    assert!(re.is_match("a-b"));
    assert!(!re.is_match("a\nb"));
}

#[test]
fn whole_word_pattern_skips_matches_inside_words() {
    let re = RegexBuilder::new("cat".to_string()).whole_word(true).build().unwrap();
    assert_eq!(re.find("concat cat").map(|m| (m.start(), m.end())), Some((7, 10)));
    assert!(!re.is_match("concatenate"));
}

#[test]
fn case_insensitive_pattern_reads_either_case() {
    let re = RegexBuilder::new("HeLLo".to_string()).case_insensitive(true).build().unwrap();
    assert_eq!(re.find("say hello").map(|m| (m.start(), m.end())), Some((4, 9)));
}

#[test]
fn find_all_spans_are_ordered_and_disjoint() {
    let m = LiteralMatcher::new("aa", false, false);
    let spans = m.find_all("aaaaa");
    assert_eq!(spans, vec![0..2, 2..4]);
}

#[test]
fn parse_error_messages_name_the_error_and_its_position() {
    let e = Regex::new("a(b").err().unwrap();
    assert_eq!(e.message(), "Unexpected EOF at position 3");
    let e = Regex::new("[z-a]").err().unwrap();
    assert_eq!(e.message(), "Invalid range 'z-a' at position 4");
    let e = ParseError { kind: ParseErrorKind::DanglingRepetitionOperator, pos: 12 };
    assert_eq!(e.message(), "Dangling repetition operator at position 12");
    let e = ParseError { kind: ParseErrorKind::EmptyCharClass, pos: 0 };
    assert_eq!(e.message(), "Empty char class at position 0");
}

#[test]
fn argument_error_messages() {
    let e = parse(&vec![]).err().unwrap();
    assert_eq!(e.message(), "Missing pattern");
    let e = parse(&vec!["--nope".to_string(), "p".to_string()]).err().unwrap();
    assert_eq!(e.message(), "UnexpectedArgument '--nope'");
    let e = ArgsError { kind: ArgsErrorKind::UnexpectedEOI };
    assert_eq!(e.message(), "Unexpected end of input");
}

#[test]
fn application_error_messages_are_those_of_their_causes() {
    let e = AppError::from(ArgsError { kind: ArgsErrorKind::MissingPattern });
    assert_eq!(e.message(), "Missing pattern");
    let e = AppError::from(ParseError { kind: ParseErrorKind::UnclosedCharClass, pos: 4 });
    assert_eq!(e.message(), "Unclosed char class at position 4");
    let e = AppError::Io("No such file or directory (os error 2)".to_string());
    assert_eq!(e.message(), "No such file or directory (os error 2)");
}

#[test]
fn the_required_literal_stands_in_every_match() {
    let ast = Parser::new("ab.cde").parse().unwrap();
    let lit = required_literal(&ast).unwrap();
    assert_eq!(lit, "cde");
    let re = Regex::new("ab.cde").unwrap();
    let m = re.find("xxabXcdeyy").unwrap();
    assert_eq!(m.as_str(), "abXcde");
    assert!(m.as_str().contains(&lit));
}

#[test]
fn an_exact_literal_is_all_its_pattern_matches() {
    let ast = Parser::new("^(ab)c").parse().unwrap();
    assert_eq!(exact_literal(&ast), Some("abc".to_string()));
    let re = Regex::new("^(ab)c").unwrap();
    assert_eq!(re.find("abcabc").unwrap().as_str(), "abc");
}

#[test]
fn whole_word_literal_after_a_multi_byte_character_is_found() {
    let m = LiteralMatcher::new("cat", false, true);
    assert_eq!(m.find("é cat"), Some(3..6));
    assert_eq!(m.find("écat"), None);
    assert_eq!(m.find("é cat é"), Some(3..6));
}

#[test]
fn complement_of_ranges_that_cover_every_char_is_empty() {
    let all = [CharRange::new('\0', '\u{D7FF}'), CharRange::new('\u{E000}', char::MAX)];
    assert!(CharRange::complement(&all).is_empty());
}

#[test]
fn count_and_files_modes_accept_spans_outside_the_line() {
    let lines = vec![LineMatch {
        line_number: 1,
        line: "ab".to_string(),
        match_spans: vec![5..9],
        is_context: false,
    }];
    let mut count = Output::new(OutputMode::Count, false, false, Colorizer::new(false), false);
    count.report(&lines, Some("a.txt"));
    assert_eq!(count.contents(), "a.txt:1\n");
    assert!(count.matched());
    let mut files = Output::new(OutputMode::Files, false, false, Colorizer::new(false), false);
    files.report(&lines, Some("a.txt"));
    assert_eq!(files.contents(), "a.txt\n");
}

#[test]
fn fixed_string_matcher_reads_the_pattern_literally() {
    let args = Args {
        pattern: "a.c".to_string(),
        patterns: vec!["a.c".to_string()],
        path: None,
        output_mode: OutputMode::Matches,
        case_insensitive: true,
        whole_word: false,
        invert_match: false,
        before_context: 0,
        after_context: 0,
        only_matching: false,
        fixed_strings: true,
        threads_count: None,
    };
    let m = build_matcher("a.c", &args).unwrap();
    assert_eq!(m.find("abc"), None);
    assert_eq!(m.find("xxA.Cxx"), Some(2..5));
}

#[test]
fn leftmost_start_wins_among_matches_that_end_first() {
    let re = Regex::new("ba()|a").unwrap();
    let m = re.find("ba").unwrap();
    assert_eq!((m.start(), m.end()), (0, 2));
}
