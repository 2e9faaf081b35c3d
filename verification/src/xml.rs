//! Pretty-printing XML: a tokenizer for tags, comments, CDATA and text, and a
//! renderer that puts one token per line, indented two spaces per open
//! element, with `<a>text</a>` kept on one line.
use vstd::prelude::*;

use crate::text::{
    chars_of, ends_with, ends_with_exec, extend_chars, find_char_from, find_char_from_exec,
    find_from, find_from_exec, occurs_at, slice_chars, starts_with, starts_with_exec, string_of,
    trim, trim_chars, trim_end, trim_end_chars,
};

verus! {

/// The kinds of XML tokens.
#[derive(Clone, Copy, PartialEq, Eq, Debug, Structural)]
pub enum XmlKind {
    /// `<name ...>`
    Open,
    /// `</name>`
    Close,
    /// `<name .../>`
    SelfClose,
    /// Comments, CDATA sections, processing instructions and declarations.
    Other,
    /// Text between tags, trimmed and not empty.
    Text,
}

/// One XML token and its text.
pub struct XmlToken {
    pub kind: XmlKind,
    pub text: Vec<char>,
}

/// A token as a pair of its kind and text.
pub open spec fn token_view(t: XmlToken) -> (XmlKind, Seq<char>) {
    (t.kind, t.text@)
}

/// The kind of the tag `raw`.
pub open spec fn tag_kind(raw: Seq<char>) -> XmlKind {
    if starts_with(raw, "<!--"@) || starts_with(raw, "<![CDATA["@) || starts_with(raw, "<?"@) {
        XmlKind::Other
    } else if starts_with(raw, "</"@) {
        XmlKind::Close
    } else if ends_with(raw, "/>"@) {
        XmlKind::SelfClose
    } else if starts_with(raw, "<!"@) {
        XmlKind::Other
    } else {
        XmlKind::Open
    }
}

/// Where the tag that starts at `i` (a `<`) ends: after the `-->` of a
/// comment, the `]]>` of a CDATA section, or otherwise the first `>`;
/// `None` when that closing mark is missing.
pub open spec fn tag_end(s: Seq<char>, i: int) -> Option<int> {
    let rest = s.skip(i);
    if starts_with(rest, "<!--"@) {
        match find_from(s, "-->"@, i) {
            Some(j) => Some(j + 3),
            None => None,
        }
    } else if starts_with(rest, "<![CDATA["@) {
        match find_from(s, "]]>"@, i) {
            Some(j) => Some(j + 3),
            None => None,
        }
    } else {
        match find_char_from(s, '>', i) {
            Some(j) => Some(j + 1),
            None => None,
        }
    }
}

/// Where the text that starts at `i` ends: at the next `<` or the end.
pub open spec fn text_end(s: Seq<char>, i: int) -> int {
    match find_char_from(s, '<', i) {
        Some(j) => j,
        None => s.len() as int,
    }
}

/// The tokens of `s` from position `i` on, or `None` when a tag is not
/// closed.
pub open spec fn tokenize_from(s: Seq<char>, i: int) -> Option<Seq<(XmlKind, Seq<char>)>>
    decreases s.len() - i,
{
    if i < 0 || i >= s.len() {
        Some(seq![])
    } else if s[i] == '<' {
        match tag_end(s, i) {
            None => None,
            Some(e) => {
                if i < e <= s.len() {
                    let raw = s.subrange(i, e);
                    match tokenize_from(s, e) {
                        Some(rest) => Some(seq![(tag_kind(raw), raw)] + rest),
                        None => None,
                    }
                } else {
                    None
                }
            },
        }
    } else {
        let p = text_end(s, i);
        if i < p <= s.len() {
            let t = trim(s.subrange(i, p));
            match tokenize_from(s, p) {
                Some(rest) => Some(
                    if t.len() > 0 {
                        seq![(XmlKind::Text, t)] + rest
                    } else {
                        rest
                    },
                ),
                None => None,
            }
        } else {
            None
        }
    }
}

/// Two spaces per level of depth.
pub open spec fn indent(depth: nat) -> Seq<char> {
    Seq::new(2 * depth, |k: int| ' ')
}

/// The rendering of the tokens from position `i` on at nesting `depth`.
pub open spec fn render_from(toks: Seq<(XmlKind, Seq<char>)>, i: int, depth: nat) -> Seq<char>
    decreases toks.len() - i,
{
    if i < 0 || i >= toks.len() {
        seq![]
    } else {
        let (kind, text) = toks[i];
        match kind {
            XmlKind::Close => {
                let d: nat = if depth > 0 {
                    (depth - 1) as nat
                } else {
                    0
                };
                indent(d) + text + seq!['\n'] + render_from(toks, i + 1, d)
            },
            XmlKind::Open => {
                if i + 2 < toks.len() && toks[i + 1].0 == XmlKind::Text && toks[i + 2].0
                    == XmlKind::Close {
                    indent(depth) + text + toks[i + 1].1 + toks[i + 2].1 + seq!['\n']
                        + render_from(toks, i + 3, depth)
                } else {
                    indent(depth) + text + seq!['\n'] + render_from(toks, i + 1, depth + 1)
                }
            },
            _ => indent(depth) + text + seq!['\n'] + render_from(toks, i + 1, depth),
        }
    }
}

/// The pretty-printed form of `s`: unchanged unless its trimmed form starts
/// with `<` and tokenizes; then one token per line, indented, without the
/// trailing whitespace.
pub open spec fn pretty_xml_spec(s: Seq<char>) -> Seq<char> {
    let t = trim(s);
    if !(t.len() > 0 && t[0] == '<') {
        s
    } else {
        match tokenize_from(t, 0) {
            None => s,
            Some(toks) => trim_end(render_from(toks, 0, 0)),
        }
    }
}

proof fn lemma_find_from_bounds(s: Seq<char>, p: Seq<char>, from: int)
    requires
        find_from(s, p, from) is Some,
    ensures
        from <= find_from(s, p, from)->0,
        find_from(s, p, from)->0 + p.len() <= s.len(),
    decreases s.len() + 1 - from,
{
    if !(from < 0 || from + p.len() > s.len()) && !occurs_at(s, p, from) {
        lemma_find_from_bounds(s, p, from + 1);
    }
}

proof fn lemma_find_char_bounds(s: Seq<char>, c: char, from: int)
    requires
        find_char_from(s, c, from) is Some,
    ensures
        from <= find_char_from(s, c, from)->0 < s.len(),
        s[find_char_from(s, c, from)->0] == c,
    decreases s.len() - from,
{
    if from >= 0 && from < s.len() && s[from] != c {
        lemma_find_char_bounds(s, c, from + 1);
    }
}

/// `tag_end` always lies after the start and within the text.
pub proof fn lemma_tag_end(s: Seq<char>, i: int)
    requires
        0 <= i < s.len(),
        s[i] == '<',
        tag_end(s, i) is Some,
    ensures
        i < tag_end(s, i)->0 <= s.len(),
{
    reveal_strlit("-->");
    reveal_strlit("]]>");
    let rest = s.skip(i);
    if starts_with(rest, "<!--"@) {
        lemma_find_from_bounds(s, "-->"@, i);
    } else if starts_with(rest, "<![CDATA["@) {
        lemma_find_from_bounds(s, "]]>"@, i);
    } else {
        lemma_find_char_bounds(s, '>', i);
    }
}

fn lit(s: &str) -> (r: Vec<char>)
    ensures
        r@ == s@,
{
    chars_of(s)
}

/// The end of the tag that starts at `i` (see `tag_end`).
fn tag_end_exec(s: &Vec<char>, i: usize) -> (r: Option<usize>)
    requires
        i < s.len(),
        s@[i as int] == '<',
    ensures
        r matches Some(e) ==> tag_end(s@, i as int) == Some(e as int),
        r is None ==> tag_end(s@, i as int) is None,
{
    let ghost rest = s@.skip(i as int);
    let rest_v = slice_chars(s, i, s.len());
    assert(rest_v@ =~= rest);
    if starts_with_exec(&rest_v, &lit("<!--")) {
        proof {
            reveal_strlit("-->");
        }
        match find_from_exec(s, &lit("-->"), i) {
            Some(j) => {
                proof {
                    lemma_find_from_bounds(s@, "-->"@, i as int);
                }
                Some(j + 3)
            },
            None => None,
        }
    } else if starts_with_exec(&rest_v, &lit("<![CDATA[")) {
        proof {
            reveal_strlit("]]>");
        }
        match find_from_exec(s, &lit("]]>"), i) {
            Some(j) => {
                proof {
                    lemma_find_from_bounds(s@, "]]>"@, i as int);
                }
                Some(j + 3)
            },
            None => None,
        }
    } else {
        match find_char_from_exec(s, '>', i) {
            Some(j) => Some(j + 1),
            None => None,
        }
    }
}

fn tag_kind_exec(raw: &Vec<char>) -> (r: XmlKind)
    ensures
        r == tag_kind(raw@),
{
    if starts_with_exec(raw, &lit("<!--")) || starts_with_exec(raw, &lit("<![CDATA["))
        || starts_with_exec(raw, &lit("<?")) {
        XmlKind::Other
    } else if starts_with_exec(raw, &lit("</")) {
        XmlKind::Close
    } else if ends_with_exec(raw, &lit("/>")) {
        XmlKind::SelfClose
    } else if starts_with_exec(raw, &lit("<!")) {
        XmlKind::Other
    } else {
        XmlKind::Open
    }
}

/// The token views of a token vector.
pub open spec fn token_views(v: Seq<XmlToken>) -> Seq<(XmlKind, Seq<char>)> {
    v.map_values(|t: XmlToken| token_view(t))
}

/// The tokens of `s`, or `None` when a tag is not closed (see
/// `tokenize_from`).
pub fn tokenize_xml(s: &Vec<char>) -> (r: Option<Vec<XmlToken>>)
    ensures
        r matches Some(t) ==> tokenize_from(s@, 0) == Some(token_views(t@)),
        r is None ==> tokenize_from(s@, 0) is None,
{
    let mut toks: Vec<XmlToken> = Vec::new();
    let mut i: usize = 0;
    assert(token_views(toks@) =~= Seq::<(XmlKind, Seq<char>)>::empty());
    while i < s.len()
        invariant
            i <= s.len(),
            tokenize_from(s@, 0) == match tokenize_from(s@, i as int) {
                Some(rest) => Some(token_views(toks@) + rest),
                None => None,
            },
        decreases s.len() - i,
    {
        let ghost before = token_views(toks@);
        if s[i] == '<' {
            match tag_end_exec(s, i) {
                None => {
                    return None;
                },
                Some(e) => {
                    proof {
                        lemma_tag_end(s@, i as int);
                    }
                    let raw = slice_chars(s, i, e);
                    let k = tag_kind_exec(&raw);
                    let ghost rv = raw@;
                    toks.push(XmlToken { kind: k, text: raw });
                    assert(token_views(toks@) =~= before.push((k, rv)));
                    proof {
                        match tokenize_from(s@, e as int) {
                            Some(rest) => {
                                assert(before + (seq![(k, rv)] + rest) =~= before.push((k, rv))
                                    + rest);
                            },
                            None => {},
                        }
                    }
                    i = e;
                },
            }
        } else {
            let p = match find_char_from_exec(s, '<', i) {
                Some(j) => j,
                None => s.len(),
            };
            proof {
                if find_char_from(s@, '<', i as int) is Some {
                    lemma_find_char_bounds(s@, '<', i as int);
                }
                assert(p as int == text_end(s@, i as int));
                if p == i {
                    assert(find_char_from(s@, '<', i as int) == Some(i as int));
                }
            }
            let seg = slice_chars(s, i, p);
            let t = trim_chars(&seg);
            if t.len() > 0 {
                let ghost tv = t@;
                toks.push(XmlToken { kind: XmlKind::Text, text: t });
                assert(token_views(toks@) =~= before.push((XmlKind::Text, tv)));
                proof {
                    match tokenize_from(s@, p as int) {
                        Some(rest) => {
                            assert(before + (seq![(XmlKind::Text, tv)] + rest) =~= before.push(
                                (XmlKind::Text, tv),
                            ) + rest);
                        },
                        None => {},
                    }
                }
            }
            i = p;
        }
    }
    assert(token_views(toks@) + Seq::<(XmlKind, Seq<char>)>::empty() =~= token_views(toks@));
    Some(toks)
}

fn push_indented(out: &mut Vec<char>, depth: usize, content: &Vec<char>)
    ensures
        final(out)@ == old(out)@ + indent(depth as nat) + content@ + seq!['\n'],
{
    let mut k: usize = 0;
    let ghost start = out@;
    while k < depth
        invariant
            k <= depth,
            out@ == start + indent(k as nat),
        decreases depth - k,
    {
        out.push(' ');
        out.push(' ');
        assert(indent((k + 1) as nat) =~= indent(k as nat) + seq![' ', ' ']);
        k += 1;
    }
    extend_chars(out, content);
    out.push('\n');
}

/// Pretty-prints XML (see `pretty_xml_spec`).
#[verifier::rlimit(60)]
pub fn pretty_xml(input: &str) -> (r: String)
    ensures
        r@ == pretty_xml_spec(input@),
{
    let v = chars_of(input);
    let t = trim_chars(&v);
    if !(t.len() > 0 && t[0] == '<') {
        return String::from_str(input);
    }
    let tokens = match tokenize_xml(&t) {
        Some(tk) => tk,
        None => {
            return String::from_str(input);
        },
    };
    let ghost tv = token_views(tokens@);
    let mut out: Vec<char> = Vec::new();
    let mut depth: usize = 0;
    let mut i: usize = 0;
    while i < tokens.len()
        invariant
            i <= tokens.len(),
            depth <= i,
            tv == token_views(tokens@),
            render_from(tv, 0, 0) == out@ + render_from(tv, i as int, depth as nat),
        decreases tokens.len() - i,
    {
        let ghost before = out@;
        assert(tv[i as int] == (tokens@[i as int].kind, tokens@[i as int].text@));
        match tokens[i].kind {
            XmlKind::Close => {
                if depth > 0 {
                    depth -= 1;
                }
                push_indented(&mut out, depth, &tokens[i].text);
                i += 1;
                assert(before + (indent(depth as nat) + tv[i - 1].1 + seq!['\n'] + render_from(
                    tv,
                    i as int,
                    depth as nat,
                )) =~= out@ + render_from(tv, i as int, depth as nat));
            },
            XmlKind::Open => {
                if tokens.len() - i > 2 && tokens[i + 1].kind == XmlKind::Text && tokens[i
                    + 2].kind == XmlKind::Close {
                    assert(tv[i + 1] == (tokens@[i + 1].kind, tokens@[i + 1].text@));
                    assert(tv[i + 2] == (tokens@[i + 2].kind, tokens@[i + 2].text@));
                    let mut line = slice_chars(&tokens[i].text, 0, tokens[i].text.len());
                    extend_chars(&mut line, &tokens[i + 1].text);
                    extend_chars(&mut line, &tokens[i + 2].text);
                    assert(line@ =~= tokens@[i as int].text@ + tokens@[i + 1].text@ + tokens@[i
                        + 2].text@);
                    push_indented(&mut out, depth, &line);
                    i += 3;
                    assert(before + (indent(depth as nat) + line@ + seq!['\n'] + render_from(
                        tv,
                        i as int,
                        depth as nat,
                    )) =~= out@ + render_from(tv, i as int, depth as nat));
                    continue;
                }
                push_indented(&mut out, depth, &tokens[i].text);
                assert(before + (indent(depth as nat) + tv[i as int].1 + seq!['\n'] + render_from(
                    tv,
                    i + 1,
                    (depth + 1) as nat,
                )) =~= out@ + render_from(tv, i + 1, (depth + 1) as nat));
                depth += 1;
                i += 1;
            },
            _ => {
                push_indented(&mut out, depth, &tokens[i].text);
                i += 1;
                assert(before + (indent(depth as nat) + tv[i - 1].1 + seq!['\n'] + render_from(
                    tv,
                    i as int,
                    depth as nat,
                )) =~= out@ + render_from(tv, i as int, depth as nat));
            },
        }
    }
    assert(out@ + Seq::<char>::empty() =~= out@);
    let trimmed = trim_end_chars(&out);
    string_of(&trimmed)
}

} // verus!
