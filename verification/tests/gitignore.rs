use rgrep::cli::gitignore::Gitignore;


#[test]
fn skips_blank_lines_and_comments() {
    let gi = Gitignore::parse("\n# comment\n\ntarget\n");
    assert_eq!(gi.pattern_count(), 1);
    assert_eq!(gi.pattern_glob(0), "target");
}

#[test]
fn basename_pattern_matches_at_any_depth() {
    let gi = Gitignore::parse("*.log");
    assert!(gi.is_ignored("a.log", false));
    assert!(gi.is_ignored("sub/a.log", false));
    assert!(!gi.is_ignored("a.txt", false));
}

#[test]
fn leading_slash_anchors_to_root_only() {
    let gi = Gitignore::parse("/build");
    assert!(gi.is_ignored("build", true));
    assert!(!gi.is_ignored("sub/build", true));
}

#[test]
fn internal_slash_anchors_and_keeps_the_slash() {
    let gi = Gitignore::parse("src/gen");
    assert!(gi.is_ignored("src/gen", true));
    assert!(!gi.is_ignored("other/src/gen", true));
}

#[test]
fn trailing_slash_only_matches_directories() {
    let gi = Gitignore::parse("build/");
    assert!(gi.is_ignored("build", true));
    assert!(!gi.is_ignored("build", false));
}

#[test]
fn negation_overrides_a_previous_broader_match() {
    let gi = Gitignore::parse("*.log\n!important.log\n");
    assert!(gi.is_ignored("a.log", false));
    assert!(!gi.is_ignored("important.log", false));
}

#[test]
fn later_pattern_overrides_earlier_negation() {
    let gi = Gitignore::parse("!keep.txt\nkeep.txt\n");
    assert!(gi.is_ignored("keep.txt", false));
}

#[test]
fn unmatched_path_is_not_ignored() {
    let gi = Gitignore::parse("*.log");
    assert!(!gi.is_ignored("readme.md", false));
}
