use hatchdoor_vault::exclude::{default_exclude_patterns, ExcludeMatcher};

fn matcher(patterns: &[&str]) -> ExcludeMatcher {
    let owned: Vec<String> = patterns.iter().map(|p| p.to_string()).collect();
    ExcludeMatcher::new(&owned).expect("valid patterns")
}

#[test]
fn defaults_exclude_tooling_noise() {
    let matcher = matcher(&[]);
    assert!(matcher.is_excluded(".obsidian", true));
    assert!(matcher.is_excluded(".obsidian/workspace.json", false));
    assert!(matcher.is_excluded(".hatchdoor-trash", true));
    assert!(matcher.is_excluded("notes/.DS_Store", false));
    assert!(matcher.is_excluded("notes/draft.tmp", false));
    assert!(matcher.is_excluded("notes/A.sync-conflict-2026.md", false));
    assert!(!matcher.is_excluded("notes/Real Note.md", false));
}

#[test]
fn user_patterns_append_and_negation_reinstates_a_default() {
    let matcher = matcher(&["build/", "!.DS_Store"]);
    assert!(matcher.is_excluded("build", true));
    assert!(!matcher.is_excluded("notes/.DS_Store", false));
}

#[test]
fn marker_file_is_immune_to_every_pattern() {
    let matcher = matcher(&[".*"]);
    assert!(!matcher.is_excluded("sources/.hatchdoor-layer", false));
    assert!(matcher.is_excluded("sources/.other-dotfile", false));
}

#[test]
fn configured_patterns_report_provenance() {
    let matcher = matcher(&["build/"]);
    let patterns = matcher.configured_patterns();
    assert!(patterns.contains(&(".DS_Store".to_string(), "built-in")));
    assert!(patterns.contains(&("build/".to_string(), "HATCHDOOR_EXCLUDE")));
    assert_eq!(patterns.len(), default_exclude_patterns().len() + 1);
}

#[test]
fn unclosed_character_class_matches_literally() {
    let matcher = matcher(&["a["]);
    assert!(matcher.is_excluded("a[", false));
    assert!(!matcher.is_excluded("a", false));
    assert!(!matcher.is_excluded("ab", false));
    assert!(!matcher.is_excluded("a[b", false));
}

#[test]
fn a_pattern_that_cannot_be_compiled_is_refused() {
    let patterns = vec!["a{b".to_string()];
    let error = ExcludeMatcher::new(&patterns).err();
    assert!(error.is_some());
}

#[test]
fn comments_and_blank_lines_hold_no_pattern() {
    let matcher = matcher(&["# note", "", "   ", "foo ", "\\#bar"]);
    assert!(matcher.is_excluded("foo", false));
    assert!(matcher.is_excluded("#bar", false));
    assert!(!matcher.is_excluded("# note", false));
    assert!(!matcher.is_excluded("note", false));
}

#[test]
fn an_escaped_space_at_the_end_belongs_to_the_pattern() {
    let matcher = matcher(&["foo\\ "]);
    assert!(matcher.is_excluded("foo ", false));
    assert!(!matcher.is_excluded("foo", false));
}
