use clipygo::morph::{
    apply_builtin, apply_first, compile_rules, morph_preview, morph_test_rule, BuiltinTransform,
    MorphAction, MorphRule,
};
use clipygo::tracking::strip_tracking;

fn replace_rule(name: &str, pattern: &str, find: &str, replace: &str) -> MorphRule {
    MorphRule {
        id: name.to_string(),
        name: name.to_string(),
        enabled: true,
        pattern: pattern.to_string(),
        action: MorphAction::Replace {
            find: find.to_string(),
            replace: replace.to_string(),
        },
    }
}

fn builtin_rule(name: &str, pattern: &str, transform: BuiltinTransform) -> MorphRule {
    MorphRule {
        id: name.to_string(),
        name: name.to_string(),
        enabled: true,
        pattern: pattern.to_string(),
        action: MorphAction::Builtin { transform },
    }
}

#[test]
fn strip_tracking_removes_only_tracking_params() {
    assert_eq!(
        strip_tracking("https://x.com/p?utm_source=a&id=7"),
        "https://x.com/p?id=7"
    );
}

#[test]
fn strip_tracking_drops_query_when_all_removed() {
    assert_eq!(
        strip_tracking("https://x.com/p?utm_source=a&fbclid=z"),
        "https://x.com/p"
    );
}

#[test]
fn strip_tracking_preserves_fragment_and_leading_param() {
    assert_eq!(
        strip_tracking("https://x.com/p?id=7&gclid=abc#section"),
        "https://x.com/p?id=7#section"
    );
}

#[test]
fn strip_tracking_noop_without_tracking() {
    assert_eq!(strip_tracking("https://x.com/p?id=7"), "https://x.com/p?id=7");
}

#[test]
fn trim_builtin() {
    assert_eq!(apply_builtin(BuiltinTransform::Trim, "  hi  "), "hi");
}

#[test]
fn collapse_whitespace_builtin() {
    assert_eq!(
        apply_builtin(BuiltinTransform::CollapseWhitespace, "a   b\t\nc "),
        "a b c"
    );
}

#[test]
fn case_builtins() {
    assert_eq!(apply_builtin(BuiltinTransform::Uppercase, "aB"), "AB");
    assert_eq!(apply_builtin(BuiltinTransform::Lowercase, "aB"), "ab");
    assert_eq!(apply_builtin(BuiltinTransform::TitleCase, "john DOE"), "John Doe");
}

#[test]
fn json_pretty_and_minify() {
    let minified = apply_builtin(BuiltinTransform::JsonMinify, "{ \"a\" : 1 }");
    assert_eq!(minified, "{\"a\":1}");
    let pretty = apply_builtin(BuiltinTransform::JsonPretty, "{\"a\":1}");
    assert!(pretty.contains("\n"));
}

#[test]
fn json_invalid_is_unchanged() {
    assert_eq!(apply_builtin(BuiltinTransform::JsonPretty, "not json"), "not json");
}

#[test]
fn xml_pretty_indents_and_inlines_text() {
    let out = apply_builtin(BuiltinTransform::XmlPretty, "<root><a>hi</a><b/></root>");
    assert_eq!(out, "<root>\n  <a>hi</a>\n  <b/>\n</root>");
}

#[test]
fn xml_pretty_non_xml_unchanged() {
    assert_eq!(apply_builtin(BuiltinTransform::XmlPretty, "plain text"), "plain text");
}

#[test]
fn base64_roundtrip() {
    let enc = apply_builtin(BuiltinTransform::Base64Encode, "hello");
    assert_eq!(enc, "aGVsbG8=");
    assert_eq!(apply_builtin(BuiltinTransform::Base64Decode, &enc), "hello");
}

#[test]
fn base64_decode_invalid_unchanged() {
    assert_eq!(apply_builtin(BuiltinTransform::Base64Decode, "!!!"), "!!!");
}

#[test]
fn percent_encode_decode_roundtrip() {
    let enc = apply_builtin(BuiltinTransform::UrlEncode, "a b&c=d");
    assert_eq!(enc, "a%20b%26c%3Dd");
    assert_eq!(apply_builtin(BuiltinTransform::UrlDecode, &enc), "a b&c=d");
}

#[test]
fn case_conversions() {
    assert_eq!(apply_builtin(BuiltinTransform::SnakeCase, "myXMLValue"), "my_xml_value");
    assert_eq!(apply_builtin(BuiltinTransform::KebabCase, "Hello World"), "hello-world");
    assert_eq!(
        apply_builtin(BuiltinTransform::CamelCase, "hello world-foo"),
        "helloWorldFoo"
    );
}

#[test]
fn strip_html_removes_tags_and_decodes_entities() {
    assert_eq!(
        apply_builtin(BuiltinTransform::StripHtml, "<p>a &amp; <b>b</b></p>"),
        "a & b"
    );
}

#[test]
fn line_ops() {
    assert_eq!(apply_builtin(BuiltinTransform::SortLines, "b\na\nc"), "a\nb\nc");
    assert_eq!(apply_builtin(BuiltinTransform::DedupeLines, "a\nb\na\nc"), "a\nb\nc");
    assert_eq!(apply_builtin(BuiltinTransform::RemoveEmptyLines, "a\n\n  \nb"), "a\nb");
}

#[test]
fn html_encode_escapes_special_chars() {
    assert_eq!(
        apply_builtin(BuiltinTransform::HtmlEncode, "<a href=\"x\">a & b</a>"),
        "&lt;a href=&quot;x&quot;&gt;a &amp; b&lt;/a&gt;"
    );
}

#[test]
fn reverse_lines_builtin() {
    assert_eq!(apply_builtin(BuiltinTransform::ReverseLines, "a\nb\nc"), "c\nb\na");
}

#[test]
fn trim_lines_builtin() {
    assert_eq!(apply_builtin(BuiltinTransform::TrimLines, "  a  \n\tb\t\nc"), "a\nb\nc");
}

#[test]
fn normalize_newlines_builtin() {
    assert_eq!(
        apply_builtin(BuiltinTransform::NormalizeNewlines, "a\r\nb\rc\nd"),
        "a\nb\nc\nd"
    );
}

#[test]
fn remove_diacritics_builtin() {
    assert_eq!(
        apply_builtin(BuiltinTransform::RemoveDiacritics, "Crème brûlée Straße"),
        "Creme brulee Strasse"
    );
}

#[test]
fn slugify_builtin() {
    assert_eq!(apply_builtin(BuiltinTransform::Slugify, "  Héllo, World! 2 "), "hello-world-2");
}

#[test]
fn straighten_quotes_builtin() {
    assert_eq!(
        apply_builtin(
            BuiltinTransform::StraightenQuotes,
            "\u{201C}hi\u{201D} \u{2018}x\u{2019} \u{2014} y\u{2026}"
        ),
        "\"hi\" 'x' - y..."
    );
}

#[test]
fn morph_test_rule_reports_match_and_change() {
    let rule = builtin_rule("upper", r"^\w+$", BuiltinTransform::Uppercase);
    let res = morph_test_rule(rule, "hello".to_string());
    assert!(res.matched);
    assert!(res.changed);
    assert_eq!(res.output, "HELLO");
    assert!(res.error.is_none());
}

#[test]
fn morph_test_rule_reports_no_match() {
    let rule = builtin_rule("upper", r"^\d+$", BuiltinTransform::Uppercase);
    let res = morph_test_rule(rule, "hello".to_string());
    assert!(!res.matched);
    assert!(!res.changed);
    assert_eq!(res.output, "hello");
}

#[test]
fn morph_test_rule_reports_invalid_pattern() {
    let rule = builtin_rule("bad", "[invalid", BuiltinTransform::Trim);
    let res = morph_test_rule(rule, "x".to_string());
    assert!(res.error.is_some());
    assert!(!res.matched);
}

#[test]
fn morph_test_rule_replace_with_groups() {
    let rule = replace_rule("reorder", r"^\S+,\s+\S+$", r"^(\S+),\s+(\S+)$", "$2 $1");
    let res = morph_test_rule(rule, "Doe, John".to_string());
    assert!(res.matched);
    assert_eq!(res.output, "John Doe");
}

#[test]
fn apply_first_picks_first_changing_rule() {
    let rules = compile_rules(&[
        builtin_rule("trim", r"^\s", BuiltinTransform::Trim),
        replace_rule("reorder", r"^\S+,\s+\S+$", r"^(\S+),\s+(\S+)$", "$2 $1"),
    ]);
    let r = apply_first(&rules, "Doe, John").expect("should morph");
    assert_eq!(r.rule_name, "reorder");
    assert_eq!(r.output, "John Doe");
}

#[test]
fn apply_first_returns_none_when_nothing_matches() {
    let rules = compile_rules(&[builtin_rule("upper", r"^\d+$", BuiltinTransform::Uppercase)]);
    assert!(apply_first(&rules, "hello").is_none());
}

#[test]
fn apply_first_skips_matching_but_unchanged_rule() {
    let rules = compile_rules(&[builtin_rule("upper", r".*", BuiltinTransform::Uppercase)]);
    assert!(apply_first(&rules, "ABC").is_none());
}

#[test]
fn compile_rules_skips_disabled_and_invalid() {
    let rules = compile_rules(&[
        MorphRule {
            id: "1".into(),
            name: "disabled".into(),
            enabled: false,
            pattern: ".*".into(),
            action: MorphAction::Builtin {
                transform: BuiltinTransform::Trim,
            },
        },
        MorphRule {
            id: "2".into(),
            name: "bad-pattern".into(),
            enabled: true,
            pattern: "[invalid".into(),
            action: MorphAction::Builtin {
                transform: BuiltinTransform::Trim,
            },
        },
        builtin_rule("ok", ".*", BuiltinTransform::Trim),
    ]);
    assert_eq!(rules.len(), 1);
    assert_eq!(rules[0].name, "ok");
}

#[test]
fn morph_preview_applies_the_transform() {
    assert_eq!(morph_preview("a\nb".to_string(), BuiltinTransform::ReverseLines), "b\na");
}

#[test]
fn morph_test_rule_reports_invalid_find_pattern() {
    let rule = replace_rule("bad-find", ".*", "[oops", "x");
    let res = morph_test_rule(rule, "abc".to_string());
    assert!(res.error.is_some());
    assert_eq!(res.output, "abc");
}

#[test]
fn strip_tracking_is_idempotent() {
    let once = strip_tracking("https://x.com/p?utm_medium=m&q=1&utm_campaign=c#f");
    assert_eq!(once, "https://x.com/p?q=1#f");
    assert_eq!(strip_tracking(&once), once);
}

#[test]
fn morph_test_rule_error_carries_the_regex_message() {
    let rule = replace_rule("bad-find", ".*", "[oops", "x");
    let res = morph_test_rule(rule, "abc".to_string());
    let expected = format!("Invalid find pattern: {}", regex::Regex::new("[oops").unwrap_err());
    assert_eq!(res.error, Some(expected));
    let rule = builtin_rule("bad", "[invalid", BuiltinTransform::Trim);
    let res = morph_test_rule(rule, "x".to_string());
    let expected = format!("Invalid match pattern: {}", regex::Regex::new("[invalid").unwrap_err());
    assert_eq!(res.error, Some(expected));
}

#[test]
fn percent_encoding_uses_only_unreserved_and_escapes() {
    let e = clipygo::transforms::percent_encode("a b&c=d/é~");
    assert!(e.bytes().all(|b| b.is_ascii_alphanumeric() || b"-_.~%".contains(&b)));
    assert_eq!(clipygo::transforms::percent_encode("a b&c=d"), "a%20b%26c%3Dd");
}
