use clipygo::pattern::{any_pattern_matches, compile_patterns, Pattern};
use clipygo::settings::AppSettings;

#[test]
fn compile_patterns_valid() {
    let patterns = compile_patterns(&vec![r"https://meet\.google\.com/\w+".to_string()]);
    assert_eq!(patterns.len(), 1);
}

#[test]
fn compile_patterns_invalid_skipped() {
    let patterns = compile_patterns(&vec!["[invalid".to_string()]);
    assert_eq!(patterns.len(), 0);
}

#[test]
fn compile_patterns_mixed() {
    let patterns = compile_patterns(&vec![
        r"valid\d+".to_string(),
        "[invalid".to_string(),
        r"also_valid".to_string(),
    ]);
    assert_eq!(patterns.len(), 2);
}

#[test]
fn compile_patterns_empty_list() {
    assert_eq!(compile_patterns(&vec![]).len(), 0);
}

#[test]
fn compile_patterns_default_regex_list_all_valid() {
    let defaults = AppSettings::default();
    let patterns = compile_patterns(&defaults.regex_list);
    assert_eq!(patterns.len(), defaults.regex_list.len());
}

#[test]
fn compile_patterns_matches_expected() {
    let patterns = compile_patterns(&vec![
        r"https://meet\.google\.com/[a-z]{3}-[a-z]{4}-[a-z]{3}".to_string(),
    ]);
    assert!(patterns[0].is_match("https://meet.google.com/abc-defg-hij"));
    assert!(!patterns[0].is_match("https://zoom.us/j/123456"));
}

fn default_patterns() -> Vec<Pattern> {
    compile_patterns(&AppSettings::default().regex_list)
}

fn matches_any(text: &str) -> bool {
    any_pattern_matches(&default_patterns(), text)
}

#[test]
fn default_pattern_jetbrains_code_with_me_matches() {
    assert!(matches_any("https://code-with-me.jetbrains.com/abc123-XYZ"));
}

#[test]
fn default_pattern_zoom_matches() {
    assert!(matches_any("https://mycompany.zoom.us/j/98765432100"));
}

#[test]
fn default_pattern_google_meet_matches() {
    assert!(matches_any("https://meet.google.com/abc-defg-hij"));
}

#[test]
fn default_pattern_teams_matches() {
    assert!(matches_any(
        "https://teams.microsoft.com/l/meetup-join/19%3Ameeting_abc%40thread.v2/0?context=%7B%7D"
    ));
}

#[test]
fn default_patterns_reject_plain_url() {
    assert!(!matches_any("https://example.com"));
}

#[test]
fn default_patterns_reject_empty_string() {
    assert!(!matches_any(""));
}

#[test]
fn default_pattern_google_meet_rejects_wrong_format() {
    assert!(!matches_any("https://meet.google.com/toolong-slug"));
}

#[test]
fn pattern_compile_reports_error_and_keeps_source() {
    assert!(Pattern::compile("[invalid").is_err());
    let p = Pattern::compile(r"a(b)").unwrap();
    assert_eq!(p.as_str(), "a(b)");
    assert_eq!(p.replace_all("xaby", "[$1]"), "x[b]y");
}
