//! Morph: rewriting clipboard text with user rules (a match pattern and either
//! a regex replacement or a built-in transform) or with a built-in transform
//! picked by hand.
use vstd::prelude::*;
use vstd::string::StringExecFns;
use vstd::utf8::{
    decode_utf8, encode_utf8, encode_utf8_decode_utf8, encode_utf8_valid_utf8, valid_utf8,
};

use crate::codec::{base64_decode, base64_encodable, base64_encode};
use crate::json::{json_compact, json_parses, json_pretty, JsonDoc};
use crate::lines::{
    dedupe_lines, dedupe_lines_spec, remove_empty_lines, remove_empty_lines_spec, reverse_lines,
    reverse_lines_spec, sort_lines, sort_lines_spec, trim_lines, trim_lines_spec,
};
use crate::markup::{morph_strip_html, morph_strip_html_spec};
use crate::pattern::{regex_compiles, regex_error_text, regex_is_match, regex_replace_all, Pattern};
use crate::text::{
    str_eq, lower_text, upper_text, to_lowercase, to_uppercase, trim, trim_end,
    trim_start, trim_str,
};
use crate::tracking::{strip_tracking, strip_tracking_spec};
use crate::transforms::{
    camel_case, camel_case_spec, collapse_whitespace, collapse_ws, html_encode, html_encode_spec,
    join_words, join_words_spec, normalize_newlines, normalize_newlines_spec, percent_decode,
    percent_decode_spec, percent_encode, percent_encode_spec, remove_diacritics,
    remove_diacritics_spec, slugify, slugify_spec, straighten_quotes, straighten_quotes_spec,
    string_from_utf8, title_case, title_case_from,
};
use crate::xml::{pretty_xml, pretty_xml_spec};

verus! {

/// The built-in transforms.
#[derive(Clone, Copy, PartialEq, Eq, Debug, Structural)]
pub enum BuiltinTransform {
    StripTracking,
    Trim,
    CollapseWhitespace,
    Uppercase,
    Lowercase,
    TitleCase,
    JsonPretty,
    JsonMinify,
    XmlPretty,
    Base64Encode,
    Base64Decode,
    UrlEncode,
    UrlDecode,
    SnakeCase,
    CamelCase,
    KebabCase,
    StripHtml,
    HtmlEncode,
    SortLines,
    DedupeLines,
    RemoveEmptyLines,
    ReverseLines,
    TrimLines,
    NormalizeNewlines,
    RemoveDiacritics,
    Slugify,
    StraightenQuotes,
}

/// What a rule does to text that its pattern matches.
#[derive(Clone, Debug, PartialEq, Eq)]
pub enum MorphAction {
    /// Replace every match of the regex `find` by the template `replace`.
    Replace { find: String, replace: String },
    /// Apply a built-in transform.
    Builtin { transform: BuiltinTransform },
}

/// A morph rule as the user configures it.
#[derive(Clone, Debug)]
pub struct MorphRule {
    pub id: String,
    pub name: String,
    pub enabled: bool,
    pub pattern: String,
    pub action: MorphAction,
}

/// A rule action with its regex compiled.
pub enum CompiledAction {
    Replace { find: Pattern, replace: String },
    Builtin(BuiltinTransform),
}

/// An enabled rule with its regexes compiled.
pub struct CompiledMorphRule {
    pub name: String,
    pub pattern: Pattern,
    pub action: CompiledAction,
}

/// The rule that rewrote a text and what it wrote.
#[derive(Debug)]
pub struct MorphResult {
    pub rule_name: String,
    pub output: String,
}

/// What trying a rule on a sample gives: whether the pattern matched, whether
/// the text changed, the output, and the regex error if a pattern is invalid.
#[derive(Debug)]
pub struct MorphTestResult {
    pub matched: bool,
    pub changed: bool,
    pub output: String,
    pub error: Option<String>,
}

/// Its UTF-8 encoding is short enough for base64 encoding.
pub open spec fn base64_encodable_text(s: Seq<char>) -> bool {
    base64_encodable(encode_utf8(s).len())
}

/// JSON reformatting: the trimmed text parsed and printed again (pretty or
/// compact); the text unchanged when it does not parse or does not print.
pub open spec fn reformat_json_spec(s: Seq<char>, pretty: bool) -> Seq<char> {
    let t = trim(s);
    if json_parses(t) {
        match (if pretty {
            json_pretty(t)
        } else {
            json_compact(t)
        }) {
            Some(o) => o,
            None => s,
        }
    } else {
        s
    }
}

/// Base64 decoding: the trimmed text decoded and read as UTF-8; the text
/// unchanged when it is not base64 or the bytes are not UTF-8.
pub open spec fn base64_decode_spec(s: Seq<char>) -> Seq<char> {
    match base64_decode(encode_utf8(trim(s))) {
        Some(b) => if valid_utf8(b) {
            decode_utf8(b)
        } else {
            s
        },
        None => s,
    }
}

/// What a built-in transform makes of a text.
pub open spec fn builtin_spec(t: BuiltinTransform, s: Seq<char>) -> Seq<char> {
    match t {
        BuiltinTransform::StripTracking => strip_tracking_spec(s),
        BuiltinTransform::Trim => trim(s),
        BuiltinTransform::CollapseWhitespace => collapse_ws(s),
        BuiltinTransform::Uppercase => upper_text(s),
        BuiltinTransform::Lowercase => lower_text(s),
        BuiltinTransform::TitleCase => title_case_from(true, s),
        BuiltinTransform::JsonPretty => reformat_json_spec(s, true),
        BuiltinTransform::JsonMinify => reformat_json_spec(s, false),
        BuiltinTransform::XmlPretty => pretty_xml_spec(s),
        BuiltinTransform::Base64Encode => base64_encode(encode_utf8(s)),
        BuiltinTransform::Base64Decode => base64_decode_spec(s),
        BuiltinTransform::UrlEncode => percent_encode_spec(encode_utf8(s)),
        BuiltinTransform::UrlDecode => percent_decode_spec(s),
        BuiltinTransform::SnakeCase => join_words_spec(s, seq!['_'], true),
        BuiltinTransform::KebabCase => join_words_spec(s, seq!['-'], true),
        BuiltinTransform::CamelCase => camel_case_spec(s),
        BuiltinTransform::StripHtml => morph_strip_html_spec(s),
        BuiltinTransform::HtmlEncode => html_encode_spec(s),
        BuiltinTransform::SortLines => sort_lines_spec(s),
        BuiltinTransform::DedupeLines => dedupe_lines_spec(s),
        BuiltinTransform::RemoveEmptyLines => remove_empty_lines_spec(s),
        BuiltinTransform::ReverseLines => reverse_lines_spec(s),
        BuiltinTransform::TrimLines => trim_lines_spec(s),
        BuiltinTransform::NormalizeNewlines => normalize_newlines_spec(s),
        BuiltinTransform::RemoveDiacritics => remove_diacritics_spec(s),
        BuiltinTransform::Slugify => slugify_spec(s),
        BuiltinTransform::StraightenQuotes => straighten_quotes_spec(s),
    }
}

/// Re-prints JSON (see `reformat_json_spec`).
pub fn reformat_json(input: &str, pretty: bool) -> (r: String)
    ensures
        r@ == reformat_json_spec(input@, pretty),
{
    let t = trim_str(input);
    match JsonDoc::parse(t.as_str()) {
        Some(doc) => {
            let printed = if pretty {
                doc.to_pretty()
            } else {
                doc.to_compact()
            };
            match printed {
                Some(o) => o,
                None => String::from_str(input),
            }
        },
        None => String::from_str(input),
    }
}

/// Base64 of the UTF-8 bytes of `input`; decoding it (see
/// `base64_decode_spec`) gives `input` back.
pub fn base64_encode_text(input: &str) -> (r: String)
    requires
        base64_encodable_text(input@),
    ensures
        r@ == base64_encode(encode_utf8(input@)),
        base64_decode_spec(r@) == input@,
{
    let r = crate::codec::encode(input.as_bytes());
    proof {
        let e = r@;
        if e.len() > 0 {
            assert(crate::codec::is_base64_char(e[0]));
            assert(crate::codec::is_base64_char(e.last()));
        }
        assert(trim_start(e) == e);
        assert(trim_end(e) == e);
        encode_utf8_valid_utf8(input@);
        encode_utf8_decode_utf8(input@);
    }
    r
}

/// Round trip of the URL transforms: decoding what URL encoding made of a
/// text gives the text back.
pub proof fn lemma_url_transforms_roundtrip(s: Seq<char>)
    ensures
        builtin_spec(
            BuiltinTransform::UrlDecode,
            builtin_spec(BuiltinTransform::UrlEncode, s),
        ) == s,
{
    crate::transforms::lemma_percent_roundtrip(s);
}

/// Decodes base64 text (see `base64_decode_spec`).
pub fn base64_decode_text(input: &str) -> (r: String)
    ensures
        r@ == base64_decode_spec(input@),
{
    let t = trim_str(input);
    match crate::codec::decode(t.as_str().as_bytes()) {
        Some(bytes) => match string_from_utf8(bytes) {
            Some(s) => s,
            None => String::from_str(input),
        },
        None => String::from_str(input),
    }
}

/// Applies a built-in transform to `input` (see `builtin_spec`).
pub fn apply_builtin(transform: BuiltinTransform, input: &str) -> (r: String)
    requires
        transform == BuiltinTransform::Base64Encode ==> base64_encodable_text(input@),
    ensures
        r@ == builtin_spec(transform, input@),
        transform == BuiltinTransform::Base64Encode ==> builtin_spec(
            BuiltinTransform::Base64Decode,
            r@,
        ) == input@,
{
    match transform {
        BuiltinTransform::StripTracking => strip_tracking(input),
        BuiltinTransform::Trim => trim_str(input),
        BuiltinTransform::CollapseWhitespace => collapse_whitespace(input),
        BuiltinTransform::Uppercase => to_uppercase(input),
        BuiltinTransform::Lowercase => to_lowercase(input),
        BuiltinTransform::TitleCase => title_case(input),
        BuiltinTransform::JsonPretty => reformat_json(input, true),
        BuiltinTransform::JsonMinify => reformat_json(input, false),
        BuiltinTransform::XmlPretty => pretty_xml(input),
        BuiltinTransform::Base64Encode => base64_encode_text(input),
        BuiltinTransform::Base64Decode => base64_decode_text(input),
        BuiltinTransform::UrlEncode => percent_encode(input),
        BuiltinTransform::UrlDecode => percent_decode(input),
        BuiltinTransform::SnakeCase => {
            proof {
                reveal_strlit("_");
                assert("_"@ =~= seq!['_']);
            }
            join_words(input, "_", true)
        },
        BuiltinTransform::KebabCase => {
            proof {
                reveal_strlit("-");
                assert("-"@ =~= seq!['-']);
            }
            join_words(input, "-", true)
        },
        BuiltinTransform::CamelCase => camel_case(input),
        BuiltinTransform::StripHtml => morph_strip_html(input),
        BuiltinTransform::HtmlEncode => html_encode(input),
        BuiltinTransform::SortLines => sort_lines(input),
        BuiltinTransform::DedupeLines => dedupe_lines(input),
        BuiltinTransform::RemoveEmptyLines => remove_empty_lines(input),
        BuiltinTransform::ReverseLines => reverse_lines(input),
        BuiltinTransform::TrimLines => trim_lines(input),
        BuiltinTransform::NormalizeNewlines => normalize_newlines(input),
        BuiltinTransform::RemoveDiacritics => remove_diacritics(input),
        BuiltinTransform::Slugify => slugify(input),
        BuiltinTransform::StraightenQuotes => straighten_quotes(input),
    }
}

/// Applies a built-in transform chosen in the picker window: the same result
/// as `apply_builtin` (both are `builtin_spec`).
pub fn morph_preview(text: String, transform: BuiltinTransform) -> (r: String)
    requires
        transform == BuiltinTransform::Base64Encode ==> base64_encodable_text(text@),
    ensures
        r@ == builtin_spec(transform, text@),
{
    apply_builtin(transform, text.as_str())
}

/// What a compiled action makes of a text.
pub open spec fn action_output(a: CompiledAction, s: Seq<char>) -> Seq<char> {
    match a {
        CompiledAction::Replace { find, replace } => regex_replace_all(find@, s, replace@),
        CompiledAction::Builtin(t) => builtin_spec(t, s),
    }
}

/// Applies a compiled action to `input`.
pub fn apply_action(action: &CompiledAction, input: &str) -> (r: String)
    requires
        base64_encodable_text(input@),
    ensures
        r@ == action_output(*action, input@),
{
    match action {
        CompiledAction::Replace { find, replace } => find.replace_all(input, replace.as_str()),
        CompiledAction::Builtin(t) => apply_builtin(*t, input),
    }
}

/// The first rule whose pattern matches `s` and whose action changes it: its
/// name and the output.
pub open spec fn first_morph(rules: Seq<CompiledMorphRule>, s: Seq<char>) -> Option<
    (Seq<char>, Seq<char>),
>
    decreases rules.len(),
{
    if rules.len() == 0 {
        None
    } else if regex_is_match(rules[0].pattern@, s) && action_output(rules[0].action, s) != s {
        Some((rules[0].name@, action_output(rules[0].action, s)))
    } else {
        first_morph(rules.drop_first(), s)
    }
}

/// Whether rule `r` rewrites `s`: its pattern matches and its action changes
/// the text.
pub open spec fn rewrites(r: CompiledMorphRule, s: Seq<char>) -> bool {
    regex_is_match(r.pattern@, s) && action_output(r.action, s) != s
}

/// The earliest rewriting rule wins: a result names a rule that rewrites the
/// input, carries that rule's output, and no rule before it (in the
/// configured order) rewrites the input; there is no result exactly when no
/// rule rewrites it.
pub proof fn lemma_first_morph_earliest(rules: Seq<CompiledMorphRule>, s: Seq<char>)
    ensures
        match first_morph(rules, s) {
            Some((name, out)) => exists|i: int|
                0 <= i < rules.len() && #[trigger] rewrites(rules[i], s) && rules[i].name@ == name
                    && out == action_output(rules[i].action, s) && forall|j: int|
                    0 <= j < i ==> !rewrites(#[trigger] rules[j], s),
            None => forall|j: int| 0 <= j < rules.len() ==> !rewrites(#[trigger] rules[j], s),
        },
    decreases rules.len(),
{
    if rules.len() > 0 {
        let t = rules.drop_first();
        lemma_first_morph_earliest(t, s);
        assert forall|j: int| 0 <= j < t.len() implies #[trigger] t[j] == rules[j + 1] by {}
        if rewrites(rules[0], s) {
            assert(rewrites(rules[0], s));
        } else {
            match first_morph(t, s) {
                Some((name, out)) => {
                    let i = choose|i: int|
                        0 <= i < t.len() && #[trigger] rewrites(t[i], s) && t[i].name@ == name && out
                            == action_output(t[i].action, s) && forall|j: int|
                            0 <= j < i ==> !rewrites(#[trigger] t[j], s);
                    assert(rules[i + 1] == t[i]);
                    assert(rewrites(rules[i + 1], s));
                    assert forall|j: int| 0 <= j < i + 1 implies !rewrites(#[trigger] rules[j], s) by {
                        if j > 0 {
                            assert(rules[j] == t[j - 1]);
                        }
                    }
                },
                None => {
                    assert forall|j: int| 0 <= j < rules.len() implies !rewrites(#[trigger] rules[j], s) by {
                        if j > 0 {
                            assert(rules[j] == t[j - 1]);
                        }
                    }
                },
            }
        }
    }
}

/// Rewrites `input` with the first rule that matches it and changes it; `None`
/// when no rule does.
pub fn apply_first(rules: &[CompiledMorphRule], input: &str) -> (r: Option<MorphResult>)
    requires
        base64_encodable_text(input@),
    ensures
        match first_morph(rules@, input@) {
            Some((name, out)) => r matches Some(m) && m.rule_name@ == name && m.output@ == out,
            None => r is None,
        },
{
    let mut i: usize = 0;
    assert(rules@.skip(0) =~= rules@);
    while i < rules.len()
        invariant
            i <= rules@.len(),
            base64_encodable_text(input@),
            first_morph(rules@, input@) == first_morph(rules@.skip(i as int), input@),
        decreases rules@.len() - i,
    {
        let rule = &rules[i];
        assert(rules@.skip(i as int)[0] == rules@[i as int]);
        assert(rules@.skip(i as int).drop_first() =~= rules@.skip(i + 1));
        if rule.pattern.is_match(input) {
            let output = apply_action(&rule.action, input);
            if !str_eq(output.as_str(), input) {
                return Some(MorphResult { rule_name: rule.name.clone(), output });
            }
        }
        i += 1;
    }
    None
}

/// A configured rule that compiles into a live one: enabled, its pattern
/// compiles and, for a replacement, its `find` regex compiles.
pub open spec fn rule_compiles(r: MorphRule) -> bool {
    r.enabled && regex_compiles(r.pattern@) && match r.action {
        MorphAction::Replace { find, replace } => regex_compiles(find@),
        MorphAction::Builtin { transform } => true,
    }
}

/// The rules that compile, in order.
pub open spec fn live_rules(rules: Seq<MorphRule>) -> Seq<MorphRule>
    decreases rules.len(),
{
    if rules.len() == 0 {
        seq![]
    } else if rule_compiles(rules[0]) {
        seq![rules[0]] + live_rules(rules.drop_first())
    } else {
        live_rules(rules.drop_first())
    }
}

/// `c` is the compiled form of `r`: same name, same pattern and the same
/// action.
pub open spec fn compiled_from(c: CompiledMorphRule, r: MorphRule) -> bool {
    c.name@ == r.name@ && c.pattern@ == r.pattern@ && match (c.action, r.action) {
        (
            CompiledAction::Replace { find: f, replace: p },
            MorphAction::Replace { find, replace },
        ) => f@ == find@ && p@ == replace@,
        (CompiledAction::Builtin(t), MorphAction::Builtin { transform }) => t == transform,
        _ => false,
    }
}

/// Compiles the enabled rules whose regexes compile, in order, skipping the
/// others.
pub fn compile_rules(rules: &[MorphRule]) -> (r: Vec<CompiledMorphRule>)
    ensures
        r@.len() == live_rules(rules@).len(),
        forall|k: int| 0 <= k < r@.len() ==> compiled_from(#[trigger] r@[k], live_rules(rules@)[k]),
{
    let mut out: Vec<CompiledMorphRule> = Vec::new();
    let ghost mut done: Seq<MorphRule> = seq![];
    let mut i: usize = 0;
    assert(rules@.skip(0) =~= rules@);
    assert(done + live_rules(rules@) =~= live_rules(rules@));
    while i < rules.len()
        invariant
            i <= rules@.len(),
            live_rules(rules@) == done + live_rules(rules@.skip(i as int)),
            out@.len() == done.len(),
            forall|k: int| 0 <= k < out@.len() ==> compiled_from(#[trigger] out@[k], done[k]),
        decreases rules@.len() - i,
    {
        let r = &rules[i];
        assert(rules@.skip(i as int)[0] == rules@[i as int]);
        assert(rules@.skip(i as int).drop_first() =~= rules@.skip(i + 1));
        if r.enabled {
            if let Ok(pattern) = Pattern::compile(r.pattern.as_str()) {
                let action = match &r.action {
                    MorphAction::Replace { find, replace } => match Pattern::compile(
                        find.as_str(),
                    ) {
                        Ok(f) => Some(CompiledAction::Replace { find: f, replace: replace.clone() }),
                        Err(_) => None,
                    },
                    MorphAction::Builtin { transform } => Some(CompiledAction::Builtin(*transform)),
                };
                if let Some(a) = action {
                    let c = CompiledMorphRule { name: r.name.clone(), pattern, action: a };
                    assert(compiled_from(c, rules@[i as int]));
                    out.push(c);
                    proof {
                        assert(done.push(rules@[i as int]) + live_rules(rules@.skip(i + 1)) =~= done
                            + (seq![rules@[i as int]] + live_rules(rules@.skip(i + 1))));
                        done = done.push(rules@[i as int]);
                    }
                }
            }
        }
        i += 1;
    }
    assert(rules@.skip(i as int) =~= Seq::<MorphRule>::empty());
    assert(done + Seq::<MorphRule>::empty() =~= done);
    out
}

/// The message prefix of an invalid match pattern.
pub open spec fn match_error_prefix() -> Seq<char> {
    "Invalid match pattern: "@
}

/// The message prefix of an invalid find pattern.
pub open spec fn find_error_prefix() -> Seq<char> {
    "Invalid find pattern: "@
}

/// Tries a rule on `input` as the settings editor previews it: ignores the
/// rule's `enabled` flag; an invalid match or find regex gives no match, the
/// input unchanged and an error message naming which pattern is invalid;
/// otherwise the rule's output where the pattern matches.
pub fn morph_test_rule(rule: MorphRule, input: String) -> (r: MorphTestResult)
    requires
        base64_encodable_text(input@),
    ensures
        !regex_compiles(rule.pattern@) ==> {
            &&& !r.matched && !r.changed && r.output@ == input@
            &&& r.error matches Some(e) && e@ == match_error_prefix() + regex_error_text(rule.pattern@)
        },
        regex_compiles(rule.pattern@) && (rule.action matches MorphAction::Replace { find, .. }
            && !regex_compiles(find@)) ==> {
            &&& !r.matched && !r.changed && r.output@ == input@
            &&& r.error matches Some(e) && e@ == find_error_prefix() + regex_error_text(rule.action->find@)
        },
        regex_compiles(rule.pattern@) && !(rule.action matches MorphAction::Replace { find, .. }
            && !regex_compiles(find@)) ==> {
            &&& r.matched == regex_is_match(rule.pattern@, input@)
            &&& r.output@ == (if r.matched {
                match rule.action {
                    MorphAction::Replace { find, replace } => regex_replace_all(
                        find@,
                        input@,
                        replace@,
                    ),
                    MorphAction::Builtin { transform } => builtin_spec(transform, input@),
                }
            } else {
                input@
            })
            &&& r.changed == (r.output@ != input@)
            &&& r.error is None
        },
{
    let pattern = match Pattern::compile(rule.pattern.as_str()) {
        Ok(p) => p,
        Err(e) => {
            let mut msg = String::from_str("Invalid match pattern: ");
            msg.append(e.as_str());
            proof {
                reveal_strlit("Invalid match pattern: ");
            }
            return MorphTestResult { matched: false, changed: false, output: input, error: Some(msg) };
        },
    };
    let action = match &rule.action {
        MorphAction::Replace { find, replace } => match Pattern::compile(find.as_str()) {
            Ok(re) => CompiledAction::Replace { find: re, replace: replace.clone() },
            Err(e) => {
                let mut msg = String::from_str("Invalid find pattern: ");
                msg.append(e.as_str());
                proof {
                    reveal_strlit("Invalid find pattern: ");
                }
                return MorphTestResult {
                    matched: false,
                    changed: false,
                    output: input,
                    error: Some(msg),
                };
            },
        },
        MorphAction::Builtin { transform } => CompiledAction::Builtin(*transform),
    };
    let matched = pattern.is_match(input.as_str());
    let output = if matched {
        apply_action(&action, input.as_str())
    } else {
        input.clone()
    };
    let changed = !str_eq(output.as_str(), input.as_str());
    MorphTestResult { matched, changed, output, error: None }
}

} // verus!
