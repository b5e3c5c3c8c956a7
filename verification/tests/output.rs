use rgrep::cli::colorizer::Colorizer;
use rgrep::cli::output::{Output, OutputMode};
use rgrep::search::line_match::LineMatch;


fn line_match(line_number: usize, line: &str, start: usize, end: usize) -> LineMatch {
    #[allow(clippy::single_range_in_vec_init)]
    LineMatch {
        line_number,
        line: line.to_string(),
        match_spans: vec![start..end],
        is_context: false,
    }
}

fn inverted_line_match(line_number: usize, line: &str) -> LineMatch {
    LineMatch {
        line_number,
        line: line.to_string(),
        match_spans: Vec::new(),
        is_context: false,
    }
}

fn report_to_string(
    mode: OutputMode,
    matches: Vec<LineMatch>,
    path: Option<&str>,
    show_header: bool,
) -> String {
    let mut output = Output::new(
        mode,
        show_header,
        false,
        Colorizer::new(false),
        false,
    );
    output.report(&matches, path);
    output.contents().to_string()
}

#[test]
fn matches_mode_prints_each_line_with_number() {
    let matches = vec![
        line_match(1, "hello world", 0, 5),
        line_match(3, "hello again", 0, 5),
    ];

    let output = report_to_string(OutputMode::Matches, matches, None, false);

    assert_eq!(output, "1:hello world\n3:hello again\n");
}

#[test]
fn matches_mode_prints_nothing_when_there_are_no_matches() {
    let output = report_to_string(OutputMode::Matches, vec![], None, false);
    assert!(output.is_empty());
}

#[test]
fn matches_mode_prints_the_header_when_a_path_is_given_and_there_are_matches() {
    let matches = vec![line_match(1, "hello", 0, 5)];
    let path = "a.txt";

    let output = report_to_string(OutputMode::Matches, matches, Some(path), true);

    assert_eq!(output, "a.txt\n1:hello\n");
}

#[test]
fn matches_mode_omits_the_header_when_there_are_no_matches() {
    let path = "a.txt";

    let output = report_to_string(OutputMode::Matches, vec![], Some(path), true);

    assert!(output.is_empty());
}

#[test]
fn matches_mode_does_not_print_a_header_when_show_header_is_false() {
    let matches = vec![line_match(1, "hello", 0, 5)];
    let path = "a.txt";

    let output = report_to_string(OutputMode::Matches, matches, Some(path), false);

    assert_eq!(output, "1:hello\n");
}

#[test]
fn matches_mode_prints_only_the_matched_substring_when_only_matching_is_enabled() {
    let mut output = Output::new(
        OutputMode::Matches,
        false,
        false,
        Colorizer::new(false),
        true,
    );

    output.report(
        &vec![line_match(1, "hello world", 0, 5)],
        None,
    );

    assert_eq!(output.contents().to_string(), "1:hello\n");
}

#[test]
fn matches_mode_prints_the_whole_line_when_only_matching_is_disabled() {
    let mut output = Output::new(
        OutputMode::Matches,
        false,
        false,
        Colorizer::new(false),
        false,
    );

    output.report(
        &vec![line_match(1, "hello world", 0, 5)],
        None,
    );

    assert_eq!(output.contents().to_string(), "1:hello world\n");
}

#[test]
fn matches_mode_prints_the_whole_line_when_only_matching_is_enabled_but_match_span_is_none() {
    let mut output = Output::new(
        OutputMode::Matches,
        false,
        false,
        Colorizer::new(false),
        true,
    );

    output.report(
        &vec![inverted_line_match(1, "no match here")],
        None,
    );

    assert_eq!(
        output.contents().to_string(),
        "1:no match here\n"
    );
}

#[test]
fn matches_mode_reports_matched_even_when_show_header_is_false() {
    let mut output = Output::new(
        OutputMode::Matches,
        false,
        false,
        Colorizer::new(false),
        false,
    );

    output.report(
        &vec![line_match(1, "hello", 0, 5)],
        None,
    );

    assert!(output.matched());
}

#[test]
fn matches_mode_reports_not_matched_when_there_are_no_matches() {
    let mut output = Output::new(
        OutputMode::Matches,
        true,
        false,
        Colorizer::new(false),
        false,
    );

    output.report(
        &Vec::new(),
        Some("a.txt"),
    );

    assert!(!output.matched());
}

#[test]
fn matches_mode_prints_the_whole_line_without_highlight_when_match_span_is_none() {
    let matches = vec![inverted_line_match(1, "no match here")];

    let output = report_to_string(OutputMode::Matches, matches, None, false);

    assert_eq!(output, "1:no match here\n");
}

#[test]
fn matches_mode_separates_successive_headers_with_a_blank_line() {
    let mut output = Output::new(
        OutputMode::Matches,
        true,
        false,
        Colorizer::new(false),
        false,
    );
    let path = "a.txt";

    output.report(
        &vec![line_match(1, "hello", 0, 5)],
        Some(path),
    );
    output.report(
        &vec![line_match(1, "hello", 0, 5)],
        Some(path),
    );

    assert_eq!(
        output.contents().to_string(),
        "a.txt\n1:hello\n\na.txt\n1:hello\n"
    );
}

#[test]
fn matches_mode_inserts_a_separator_between_non_adjacent_line_numbers_when_enabled() {
    let matches = vec![
        line_match(2, "b", 0, 1),
        line_match(3, "MATCH1", 0, 5),
        line_match(10, "i", 0, 1),
        line_match(11, "MATCH2", 0, 5),
    ];

    let mut output = Output::new(
        OutputMode::Matches,
        false,
        true,
        Colorizer::new(false),
        false,
    );
    output.report(&matches, None);

    assert_eq!(
        output.contents().to_string(),
        "2:b\n3:MATCH1\n--\n10:i\n11:MATCH2\n"
    );
}

#[test]
fn matches_mode_does_not_insert_a_separator_for_adjacent_line_numbers() {
    let matches = vec![line_match(1, "a", 0, 1), line_match(2, "b", 0, 1)];

    let mut output = Output::new(
        OutputMode::Matches,
        false,
        true,
        Colorizer::new(false),
        false,
    );
    output.report(&matches, None);

    assert_eq!(output.contents().to_string(), "1:a\n2:b\n");
}

#[test]
fn matches_mode_does_not_insert_a_separator_when_show_separator_is_false() {
    let matches = vec![line_match(2, "b", 0, 1), line_match(10, "i", 0, 1)];

    let mut output = Output::new(
        OutputMode::Matches,
        false,
        false,
        Colorizer::new(false),
        false,
    );
    output.report(&matches, None);

    assert_eq!(output.contents().to_string(), "2:b\n10:i\n");
}

#[test]
fn count_mode_prints_the_total_with_the_path() {
    let matches = vec![
        line_match(1, "hello", 0, 5),
        line_match(2, "hello", 0, 5),
        line_match(4, "hello", 0, 5),
    ];
    let path = "a.txt";

    let output = report_to_string(OutputMode::Count, matches, Some(path), false);

    assert_eq!(output, "a.txt:3\n");
}

#[test]
fn count_mode_prints_just_the_total_without_a_path() {
    let matches = vec![line_match(1, "hello", 0, 5), line_match(2, "hello", 0, 5)];

    let output = report_to_string(OutputMode::Count, matches, None, false);

    assert_eq!(output, "2\n");
}

#[test]
fn count_mode_prints_nothing_when_there_are_no_matches() {
    let path = "a.txt";

    let output = report_to_string(OutputMode::Count, vec![], Some(path), false);

    assert!(output.is_empty());
}

#[test]
fn count_mode_reports_matched_when_there_are_matches() {
    let mut output = Output::new(
        OutputMode::Count,
        false,
        false,
        Colorizer::new(false),
        false,
    );

    output.report(
        &vec![line_match(1, "hello", 0, 5)],
        None,
    );

    assert!(output.matched());
}

#[test]
fn count_mode_reports_not_matched_when_there_are_no_matches() {
    let mut output = Output::new(
        OutputMode::Count,
        false,
        false,
        Colorizer::new(false),
        false,
    );

    output.report(&Vec::new(), None);

    assert!(!output.matched());
}

#[test]
fn files_mode_prints_the_path_when_there_are_matches() {
    let matches = vec![line_match(1, "hello", 0, 5), line_match(2, "hello", 0, 5)];
    let path = "a.txt";

    let output = report_to_string(OutputMode::Files, matches, Some(path), false);

    assert_eq!(output, "a.txt\n");
}

#[test]
fn files_mode_prints_nothing_when_there_are_no_matches() {
    let path = "a.txt";

    let output = report_to_string(OutputMode::Files, vec![], Some(path), false);

    assert!(output.is_empty());
}

#[test]
fn files_mode_reports_matched_when_there_are_matches() {
    let mut output = Output::new(
        OutputMode::Files,
        false,
        false,
        Colorizer::new(false),
        false,
    );

    output.report(
        &vec![line_match(1, "hello", 0, 5)],
        Some("a.txt"),
    );

    assert!(output.matched());
}

#[test]
fn files_mode_reports_not_matched_when_there_are_no_matches() {
    let mut output = Output::new(
        OutputMode::Files,
        false,
        false,
        Colorizer::new(false),
        false,
    );

    output.report(
        &Vec::new(),
        Some("a.txt"),
    );

    assert!(!output.matched());
}

#[test]
fn files_mode_prints_stdin_placeholder_when_there_is_no_path() {
    let matches = vec![line_match(1, "hello", 0, 5)];

    let output = report_to_string(OutputMode::Files, matches, None, false);

    assert_eq!(output, "<stdin>\n");
}
