use rgrep::regex_engine::regex::Regex;


#[test]
fn new_returns_error_for_invalid_pattern() {
    assert!(Regex::new("(").is_err());
}

#[test]
fn new_returns_ok_for_valid_pattern() {
    assert!(Regex::new("abc").is_ok());
}

#[test]
fn is_match_delegates_to_the_compiled_nfa() {
    let re = Regex::new("^ab$").unwrap();
    assert!(re.is_match("ab"));
    assert!(!re.is_match("xab"));
    assert!(!re.is_match("abx"));
}

#[test]
fn is_match_finds_unanchored_substring() {
    let re = Regex::new("ab").unwrap();
    assert!(re.is_match("xxabxx"));
    assert!(!re.is_match("xyz"));
}

#[test]
fn regex_find_returns_none_when_there_is_no_match() {
    let re = Regex::new("abc").unwrap();
    assert!(re.find("xyz").is_none());
}

#[test]
fn find_returns_the_start_and_end_of_the_match() {
    let re = Regex::new("ab").unwrap();
    let m = re.find("xxabxx").unwrap();
    assert_eq!(m.start(), 2);
    assert_eq!(m.end(), 4);
}

#[test]
fn find_as_str_returns_the_matched_substring() {
    let re = Regex::new("ab").unwrap();
    let m = re.find("xxabxx").unwrap();
    assert_eq!(m.as_str(), "ab");
}

#[test]
fn find_respects_anchors() {
    let re = Regex::new("^ab$").unwrap();
    assert!(re.find("ab").is_some());
    assert!(re.find("xab").is_none());
    assert!(re.find("abx").is_none());
}
