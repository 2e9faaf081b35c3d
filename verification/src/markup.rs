//! Plain text out of HTML and RTF, and the short previews that history
//! listings show.
use vstd::prelude::*;

use crate::lines::views;
use crate::text::{
    chars_eq, chars_of, extend_chars, find_char_from, find_char_from_exec, join, join_exec,
    lines, lines_exec, lines_from, slice_chars, string_of, strip_cr,
};
use crate::transforms::{collapse_ws, collapse_ws_exec, replace_exec, replace_spec};

verus! {

// ---------------------------------------------------------------------------
// HTML
// ---------------------------------------------------------------------------

/// The common HTML entities decoded, one after the other: `&nbsp;` `&amp;`
/// `&lt;` `&gt;` `&quot;` `&#39;`.
pub open spec fn decode_entities(s: Seq<char>) -> Seq<char> {
    replace_spec(
        replace_spec(
            replace_spec(
                replace_spec(
                    replace_spec(replace_spec(s, "&nbsp;"@, " "@), "&amp;"@, "&"@),
                    "&lt;"@,
                    "<"@,
                ),
                "&gt;"@,
                ">"@,
            ),
            "&quot;"@,
            "\""@,
        ),
        "&#39;"@,
        "'"@,
    )
}

fn replace_literal(v: &Vec<char>, pat: &str, rep: &str) -> (r: Vec<char>)
    requires
        pat@.len() > 0,
    ensures
        r@ == replace_spec(v@, pat@, rep@),
{
    let p = chars_of(pat);
    let q = chars_of(rep);
    replace_exec(v, &p, &q)
}

/// Decodes the common HTML entities (see `decode_entities`).
pub fn decode_entities_exec(v: &Vec<char>) -> (r: Vec<char>)
    ensures
        r@ == decode_entities(v@),
{
    proof {
        reveal_strlit("&nbsp;");
        reveal_strlit("&amp;");
        reveal_strlit("&lt;");
        reveal_strlit("&gt;");
        reveal_strlit("&quot;");
        reveal_strlit("&#39;");
    }
    let a = replace_literal(v, "&nbsp;", " ");
    let b = replace_literal(&a, "&amp;", "&");
    let c = replace_literal(&b, "&lt;", "<");
    let d = replace_literal(&c, "&gt;", ">");
    let e = replace_literal(&d, "&quot;", "\"");
    replace_literal(&e, "&#39;", "'")
}

/// The text of `s` outside tags, scanning with `in_tag` telling whether a
/// tag is open: every `<` opens a tag and stands for one space, `>` closes
/// it, characters inside tags are dropped.
pub open spec fn untag_from(in_tag: bool, s: Seq<char>) -> Seq<char>
    decreases s.len(),
{
    if s.len() == 0 {
        seq![]
    } else if s[0] == '<' {
        seq![' '] + untag_from(true, s.drop_first())
    } else if s[0] == '>' {
        untag_from(false, s.drop_first())
    } else if !in_tag {
        seq![s[0]] + untag_from(in_tag, s.drop_first())
    } else {
        untag_from(in_tag, s.drop_first())
    }
}

/// The plain text of an HTML fragment as history stores it for search and
/// preview: tags dropped (each `<` leaves a space), entities decoded,
/// whitespace collapsed.
pub open spec fn html_text_spec(s: Seq<char>) -> Seq<char> {
    collapse_ws(decode_entities(untag_from(false, s)))
}

/// The plain text of an HTML fragment (see `html_text_spec`).
pub fn strip_html_text(input: &Vec<char>) -> (r: Vec<char>)
    ensures
        r@ == html_text_spec(input@),
{
    let mut out: Vec<char> = Vec::new();
    let mut in_tag = false;
    let mut i: usize = 0;
    assert(input@.skip(0) =~= input@);
    while i < input.len()
        invariant
            i <= input.len(),
            untag_from(false, input@) == out@ + untag_from(in_tag, input@.skip(i as int)),
        decreases input.len() - i,
    {
        let c = input[i];
        assert(input@.skip(i as int)[0] == c);
        assert(input@.skip(i as int).drop_first() =~= input@.skip(i + 1));
        let ghost before = out@;
        if c == '<' {
            in_tag = true;
            out.push(' ');
            assert(out@ =~= before + seq![' ']);
        } else if c == '>' {
            in_tag = false;
        } else if !in_tag {
            out.push(c);
            assert(out@ =~= before + seq![c]);
        }
        i += 1;
    }
    assert(input@.skip(i as int) =~= Seq::<char>::empty());
    assert(out@ + Seq::<char>::empty() =~= out@);
    let decoded = decode_entities_exec(&out);
    collapse_ws_exec(&decoded)
}

/// Plain text of an HTML fragment (see `html_text_spec`).
pub fn strip_html(s: &str) -> (r: String)
    ensures
        r@ == html_text_spec(s@),
{
    let v = chars_of(s);
    let t = strip_html_text(&v);
    string_of(&t)
}

/// Plain text of an HTML fragment (see `html_text_spec`).
pub fn html_to_text(s: &str) -> (r: String)
    ensures
        r@ == html_text_spec(s@),
{
    strip_html(s)
}

/// The text of `s` from position `i` on with every complete tag (a `<`, the
/// characters up to the next `>`, and that `>`) replaced by one space; a `<`
/// that no `>` follows stays.
pub open spec fn strip_tags_from(s: Seq<char>, i: int) -> Seq<char>
    decreases s.len() - i,
{
    if i < 0 || i >= s.len() {
        seq![]
    } else if s[i] == '<' && find_char_from(s, '>', i + 1) is Some && i < find_char_from(
        s,
        '>',
        i + 1,
    )->0 < s.len() {
        seq![' '] + strip_tags_from(s, find_char_from(s, '>', i + 1)->0 + 1)
    } else {
        seq![s[i]] + strip_tags_from(s, i + 1)
    }
}

proof fn lemma_find_char_from_bounds(s: Seq<char>, c: char, from: int)
    requires
        find_char_from(s, c, from) is Some,
    ensures
        from <= find_char_from(s, c, from)->0 < s.len(),
        s[find_char_from(s, c, from)->0] == c,
    decreases s.len() - from,
{
    if from >= 0 && from < s.len() && s[from] != c {
        lemma_find_char_from_bounds(s, c, from + 1);
    }
}

/// Text of an HTML fragment as the morph transform gives it: complete tags
/// replaced by spaces, entities decoded, whitespace collapsed.
pub open spec fn morph_strip_html_spec(s: Seq<char>) -> Seq<char> {
    collapse_ws(decode_entities(strip_tags_from(s, 0)))
}

/// Strips tags and decodes entities (see `morph_strip_html_spec`).
pub fn morph_strip_html(input: &str) -> (r: String)
    ensures
        r@ == morph_strip_html_spec(input@),
{
    let v = chars_of(input);
    let mut out: Vec<char> = Vec::new();
    let mut i: usize = 0;
    while i < v.len()
        invariant
            i <= v.len(),
            strip_tags_from(v@, 0) == out@ + strip_tags_from(v@, i as int),
        decreases v.len() - i,
    {
        let ghost before = out@;
        if v[i] == '<' {
            match find_char_from_exec(&v, '>', i + 1) {
                Some(j) => {
                    proof {
                        lemma_find_char_from_bounds(v@, '>', i + 1);
                    }
                    out.push(' ');
                    assert(out@ =~= before + seq![' ']);
                    i = j + 1;
                    continue;
                },
                None => {},
            }
        }
        out.push(v[i]);
        assert(out@ =~= before + seq![v@[i as int]]);
        i += 1;
    }
    assert(out@ + Seq::<char>::empty() =~= out@);
    let decoded = decode_entities_exec(&out);
    let t = collapse_ws_exec(&decoded);
    string_of(&t)
}

// ---------------------------------------------------------------------------
// RTF
// ---------------------------------------------------------------------------

/// An ASCII letter.
pub open spec fn is_ascii_alpha(c: char) -> bool {
    ('a' <= c && c <= 'z') || ('A' <= c && c <= 'Z')
}

/// An ASCII digit.
pub open spec fn is_ascii_digit(c: char) -> bool {
    '0' <= c && c <= '9'
}

/// An ASCII hexadecimal digit.
pub open spec fn is_ascii_hex(c: char) -> bool {
    is_ascii_digit(c) || ('a' <= c && c <= 'f') || ('A' <= c && c <= 'F')
}

/// The end of the run of ASCII letters in `cs` that starts at `j`.
pub open spec fn alpha_end(cs: Seq<char>, j: int) -> int
    decreases cs.len() - j,
{
    if j < 0 || j >= cs.len() || !is_ascii_alpha(cs[j]) {
        j
    } else {
        alpha_end(cs, j + 1)
    }
}

/// The end of the run of ASCII digits in `cs` that starts at `j`.
pub open spec fn digit_end(cs: Seq<char>, j: int) -> int
    decreases cs.len() - j,
{
    if j < 0 || j >= cs.len() || !is_ascii_digit(cs[j]) {
        j
    } else {
        digit_end(cs, j + 1)
    }
}

/// Where a control word's parameter ends: an optional `-` or digit followed
/// by digits, starting at `j`.
pub open spec fn param_end(cs: Seq<char>, j: int) -> int {
    if 0 <= j < cs.len() && (cs[j] == '-' || is_ascii_digit(cs[j])) {
        digit_end(cs, j + 1)
    } else {
        j
    }
}

/// Where a control word ends, after one optional delimiting space.
pub open spec fn control_word_end(cs: Seq<char>, j: int) -> int {
    let p = param_end(cs, alpha_end(cs, j));
    if 0 <= p < cs.len() && cs[p] == ' ' {
        p + 1
    } else {
        p
    }
}

/// A control word that stands for a break in the text (`\par \line \tab
/// \cell \row`).
pub open spec fn rtf_break_word(w: Seq<char>) -> bool {
    w == "par"@ || w == "line"@ || w == "tab"@ || w == "cell"@ || w == "row"@
}

/// A control word that opens a destination whose text is not document text
/// (`\fonttbl \colortbl \stylesheet \info \pict \object \header \footer`).
pub open spec fn rtf_skip_word(w: Seq<char>) -> bool {
    w == "fonttbl"@ || w == "colortbl"@ || w == "stylesheet"@ || w == "info"@ || w == "pict"@
        || w == "object"@ || w == "header"@ || w == "footer"@
}

/// After `\'`, where the (at most two) hex digits starting at `j` end.
pub open spec fn hex_escape_end(cs: Seq<char>, j: int) -> int {
    if 0 <= j < cs.len() && is_ascii_hex(cs[j]) {
        if j + 1 < cs.len() && is_ascii_hex(cs[j + 1]) {
            j + 2
        } else {
            j + 1
        }
    } else {
        j
    }
}

/// The document text of the RTF `cs` from position `i` on, at group depth
/// `depth`, where `skip` is the depth of the group being skipped, if any.
/// Group braces and control symbols produce nothing; break words produce a
/// space; `\*` and the non-text destinations skip the group they are in;
/// every other character is text unless its group is skipped.
pub open spec fn rtf_from(cs: Seq<char>, i: int, depth: nat, skip: Option<nat>) -> Seq<char>
    decreases cs.len() - i,
{
    if i < 0 || i >= cs.len() {
        seq![]
    } else if cs[i] == '{' {
        rtf_from(cs, i + 1, depth + 1, skip)
    } else if cs[i] == '}' {
        rtf_from(
            cs,
            i + 1,
            if depth > 0 {
                (depth - 1) as nat
            } else {
                0
            },
            if skip == Some(depth) {
                None
            } else {
                skip
            },
        )
    } else if cs[i] == '\\' {
        if i + 1 >= cs.len() {
            seq![]
        } else if cs[i + 1] == '*' {
            rtf_from(
                cs,
                i + 2,
                depth,
                if skip is None {
                    Some(depth)
                } else {
                    skip
                },
            )
        } else if is_ascii_alpha(cs[i + 1]) {
            let w = cs.subrange(i + 1, alpha_end(cs, i + 1));
            let e = control_word_end(cs, i + 1);
            proof {
                lemma_control_word_end(cs, i + 1);
            }
            if skip is None && rtf_break_word(w) {
                seq![' '] + rtf_from(cs, e, depth, skip)
            } else if skip is None && rtf_skip_word(w) {
                rtf_from(cs, e, depth, Some(depth))
            } else {
                rtf_from(cs, e, depth, skip)
            }
        } else if cs[i + 1] == '\'' {
            rtf_from(cs, hex_escape_end(cs, i + 2), depth, skip)
        } else {
            rtf_from(cs, i + 2, depth, skip)
        }
    } else if skip is None {
        seq![cs[i]] + rtf_from(cs, i + 1, depth, skip)
    } else {
        rtf_from(cs, i + 1, depth, skip)
    }
}

/// The plain text of an RTF document: its document text with whitespace
/// collapsed.
pub open spec fn rtf_text_spec(s: Seq<char>) -> Seq<char> {
    collapse_ws(rtf_from(s, 0, 0, None))
}

pub proof fn lemma_alpha_end(cs: Seq<char>, j: int)
    requires
        0 <= j <= cs.len(),
    ensures
        j <= alpha_end(cs, j) <= cs.len(),
    decreases cs.len() - j,
{
    if j < cs.len() && is_ascii_alpha(cs[j]) {
        lemma_alpha_end(cs, j + 1);
    }
}

pub proof fn lemma_control_word_end(cs: Seq<char>, j: int)
    requires
        0 <= j < cs.len(),
        is_ascii_alpha(cs[j]),
    ensures
        j < control_word_end(cs, j) <= cs.len(),
{
    lemma_alpha_end(cs, j + 1);
    let a = alpha_end(cs, j);
    assert(a == alpha_end(cs, j + 1));
    if a < cs.len() && (cs[a] == '-' || is_ascii_digit(cs[a])) {
        lemma_digit_end(cs, a + 1);
    }
}

pub proof fn lemma_digit_end(cs: Seq<char>, j: int)
    requires
        0 <= j <= cs.len(),
    ensures
        j <= digit_end(cs, j) <= cs.len(),
    decreases cs.len() - j,
{
    if j < cs.len() && is_ascii_digit(cs[j]) {
        lemma_digit_end(cs, j + 1);
    }
}

fn is_alpha(c: char) -> (r: bool)
    ensures
        r == is_ascii_alpha(c),
{
    ('a' <= c && c <= 'z') || ('A' <= c && c <= 'Z')
}

fn is_digit(c: char) -> (r: bool)
    ensures
        r == is_ascii_digit(c),
{
    '0' <= c && c <= '9'
}

fn is_hex(c: char) -> (r: bool)
    ensures
        r == is_ascii_hex(c),
{
    ('0' <= c && c <= '9') || ('a' <= c && c <= 'f') || ('A' <= c && c <= 'F')
}

fn alpha_end_exec(cs: &Vec<char>, j: usize) -> (r: usize)
    requires
        j <= cs.len(),
    ensures
        r == alpha_end(cs@, j as int),
        j <= r <= cs.len(),
    decreases cs.len() - j,
{
    if j < cs.len() && is_alpha(cs[j]) {
        alpha_end_exec(cs, j + 1)
    } else {
        j
    }
}

fn digit_end_exec(cs: &Vec<char>, j: usize) -> (r: usize)
    requires
        j <= cs.len(),
    ensures
        r == digit_end(cs@, j as int),
        j <= r <= cs.len(),
    decreases cs.len() - j,
{
    if j < cs.len() && is_digit(cs[j]) {
        digit_end_exec(cs, j + 1)
    } else {
        j
    }
}

fn word_is(w: &Vec<char>, lit: &str) -> (r: bool)
    ensures
        r == (w@ == lit@),
{
    let l = chars_of(lit);
    chars_eq(w, &l)
}

fn is_break_word(w: &Vec<char>) -> (r: bool)
    ensures
        r == rtf_break_word(w@),
{
    word_is(w, "par") || word_is(w, "line") || word_is(w, "tab") || word_is(w, "cell") || word_is(
        w,
        "row",
    )
}

fn is_skip_word(w: &Vec<char>) -> (r: bool)
    ensures
        r == rtf_skip_word(w@),
{
    word_is(w, "fonttbl") || word_is(w, "colortbl") || word_is(w, "stylesheet") || word_is(
        w,
        "info",
    ) || word_is(w, "pict") || word_is(w, "object") || word_is(w, "header") || word_is(
        w,
        "footer",
    )
}

/// The plain text of an RTF document (see `rtf_text_spec`).
pub fn strip_rtf_text(cs: &Vec<char>) -> (r: Vec<char>)
    ensures
        r@ == rtf_text_spec(cs@),
{
    let n = cs.len();
    let mut out: Vec<char> = Vec::new();
    let mut i: usize = 0;
    let mut depth: usize = 0;
    let mut skip: Option<usize> = None;
    while i < n
        invariant
            n == cs.len(),
            i <= n,
            depth <= i,
            skip matches Some(d) ==> d <= i,
            rtf_from(cs@, 0, 0, None) == out@ + rtf_from(
                cs@,
                i as int,
                depth as nat,
                match skip {
                    Some(d) => Some(d as nat),
                    None => None,
                },
            ),
        decreases n - i,
    {
        let ghost before = out@;
        let c = cs[i];
        if c == '{' {
            depth += 1;
            i += 1;
        } else if c == '}' {
            if let Some(sd) = skip {
                if depth == sd {
                    skip = None;
                }
            }
            if depth > 0 {
                depth -= 1;
            }
            i += 1;
        } else if c == '\\' {
            if i + 1 >= n {
                assert(out@ + Seq::<char>::empty() =~= out@);
                i = n;
                continue;
            }
            let nc = cs[i + 1];
            if nc == '*' {
                if skip.is_none() {
                    skip = Some(depth);
                }
                i += 2;
            } else if is_alpha(nc) {
                let start = i + 1;
                let we = alpha_end_exec(cs, start);
                let w = slice_chars(cs, start, we);
                let mut e = we;
                if e < n && (cs[e] == '-' || is_digit(cs[e])) {
                    e = digit_end_exec(cs, e + 1);
                }
                if e < n && cs[e] == ' ' {
                    e += 1;
                }
                assert(e == control_word_end(cs@, start as int));
                if skip.is_none() {
                    if is_break_word(&w) {
                        out.push(' ');
                        assert(out@ =~= before + seq![' ']);
                    } else if is_skip_word(&w) {
                        skip = Some(depth);
                    }
                }
                i = e;
            } else if nc == '\'' {
                let mut j = i + 2;
                if j < n && is_hex(cs[j]) {
                    j += 1;
                    if j < n && is_hex(cs[j]) {
                        j += 1;
                    }
                }
                assert(j == hex_escape_end(cs@, i + 2));
                i = j;
            } else {
                i += 2;
            }
        } else {
            if skip.is_none() {
                out.push(c);
                assert(out@ =~= before + seq![c]);
            }
            i += 1;
        }
    }
    assert(out@ + Seq::<char>::empty() =~= out@);
    collapse_ws_exec(&out)
}

/// Plain text of an RTF document (see `rtf_text_spec`).
pub fn strip_rtf(s: &str) -> (r: String)
    ensures
        r@ == rtf_text_spec(s@),
{
    let v = chars_of(s);
    let t = strip_rtf_text(&v);
    string_of(&t)
}

/// Plain text of an RTF document (see `rtf_text_spec`).
pub fn rtf_to_text(s: &str) -> (r: String)
    ensures
        r@ == rtf_text_spec(s@),
{
    strip_rtf(s)
}

// ---------------------------------------------------------------------------
// Previews
// ---------------------------------------------------------------------------

/// The most characters a preview shows before it is cut.
pub const MAX_TEXT_LEN_FOR_PREVIEW: usize = 200;

/// The most lines a text preview shows.
pub const PREVIEW_MAX_LINES: usize = 3;

/// The number of lines that a preview reports: the line count, at least 1,
/// as a `u32`.
pub open spec fn preview_line_count(s: Seq<char>) -> u32 {
    (if lines(s).len() == 0 {
        1
    } else {
        lines(s).len()
    }) as u32
}

/// The preview text of `s`: its first three lines joined by `\n`, cut to 200
/// characters, with `…` added when it was cut or when there are more lines.
pub open spec fn preview_text(s: Seq<char>) -> Seq<char> {
    let ls = lines(s);
    let shown = join(
        ls.take(
            if ls.len() < 3 {
                ls.len() as int
            } else {
                3
            },
        ),
        seq!['\n'],
    );
    let cut = shown.len() > 200;
    let snippet = if cut {
        shown.take(200)
    } else {
        shown
    };
    if cut || preview_line_count(s) > 3 {
        snippet.push('\u{2026}')
    } else {
        snippet
    }
}

/// The preview of a text and its line count (see `preview_text` and
/// `preview_line_count`).
pub fn preview_chars(s: &Vec<char>) -> (r: (Vec<char>, u32))
    ensures
        r.0@ == preview_text(s@),
        r.1 == preview_line_count(s@),
{
    let ls = lines_exec(s);
    let n = ls.len();
    let line_count: u32 = if n == 0 {
        1
    } else {
        #[verifier::truncate]
        (n as u32)
    };
    let k: usize = if n < 3 {
        n
    } else {
        3
    };
    let mut first: Vec<Vec<char>> = Vec::new();
    let mut i: usize = 0;
    while i < k
        invariant
            i <= k <= ls.len(),
            views(first@) == views(ls@).take(i as int),
        decreases k - i,
    {
        let ghost b = views(first@);
        let l = slice_chars(&ls[i], 0, ls[i].len());
        assert(l@ =~= ls@[i as int]@);
        first.push(l);
        assert(views(first@) =~= b.push(l@));
        assert(views(ls@).take(i + 1) =~= views(ls@).take(i as int).push(ls@[i as int]@));
        i += 1;
    }
    let nl = vec!['\n'];
    assert(nl@ =~= seq!['\n']);
    let shown = join_exec(&first, &nl);
    let cut = shown.len() > 200;
    let mut snippet = if cut {
        slice_chars(&shown, 0, 200)
    } else {
        shown
    };
    proof {
        if cut {
            assert(snippet@ =~= shown@.take(200));
        }
    }
    if cut || line_count > 3 {
        snippet.push('\u{2026}');
    }
    (snippet, line_count)
}

/// `p` without its trailing path separators (`/` and `\`).
pub open spec fn trim_end_seps(p: Seq<char>) -> Seq<char>
    decreases p.len(),
{
    if p.len() > 0 && (p.last() == '/' || p.last() == '\\') {
        trim_end_seps(p.drop_last())
    } else {
        p
    }
}

/// The part of `p` after its last path separator.
pub open spec fn last_component(p: Seq<char>) -> Seq<char>
    decreases p.len(),
{
    if p.len() == 0 {
        seq![]
    } else if p.last() == '/' || p.last() == '\\' {
        seq![]
    } else {
        last_component(p.drop_last()).push(p.last())
    }
}

/// The file name of a path: its last component once trailing separators are
/// removed (`C:\Users\me\report.pdf` gives `report.pdf`).
pub open spec fn file_name_spec(p: Seq<char>) -> Seq<char> {
    last_component(trim_end_seps(p))
}

/// The file name of a path (see `file_name_spec`).
pub fn file_name_chars(path: &Vec<char>) -> (r: Vec<char>)
    ensures
        r@ == file_name_spec(path@),
{
    let mut e = path.len();
    assert(path@.take(path.len() as int) =~= path@);
    while e > 0 && (path[e - 1] == '/' || path[e - 1] == '\\')
        invariant
            e <= path.len(),
            trim_end_seps(path@) == trim_end_seps(path@.take(e as int)),
        decreases e,
    {
        assert(path@.take(e as int).drop_last() =~= path@.take(e - 1));
        e -= 1;
    }
    assert(path@.take(path.len() as int) =~= path@);
    let ghost t = path@.take(e as int);
    assert(trim_end_seps(t) == t);
    let mut s = e;
    while s > 0 && path[s - 1] != '/' && path[s - 1] != '\\'
        invariant
            s <= e <= path.len(),
            t == path@.take(e as int),
            last_component(t) == last_component(path@.take(s as int)) + path@.subrange(
                s as int,
                e as int,
            ),
        decreases s,
    {
        assert(path@.take(s as int).drop_last() =~= path@.take(s - 1));
        assert(path@.take(s as int).last() == path@[s - 1]);
        assert(path@.subrange(s - 1, e as int) =~= seq![path@[s - 1]] + path@.subrange(
            s as int,
            e as int,
        ));
        assert(last_component(path@.take(s - 1)).push(path@[s - 1]) + path@.subrange(
            s as int,
            e as int,
        ) =~= last_component(path@.take(s - 1)) + path@.subrange(s - 1, e as int));
        s -= 1;
    }
    assert(last_component(path@.take(s as int)) =~= Seq::<char>::empty());
    assert(Seq::<char>::empty() + path@.subrange(s as int, e as int) =~= path@.subrange(
        s as int,
        e as int,
    ));
    slice_chars(path, s, e)
}

/// The lines of `ls` that are not empty.
pub open spec fn nonempty_lines(ls: Seq<Seq<char>>) -> Seq<Seq<char>>
    decreases ls.len(),
{
    if ls.len() == 0 {
        seq![]
    } else if ls[0].len() == 0 {
        nonempty_lines(ls.drop_first())
    } else {
        seq![ls[0]] + nonempty_lines(ls.drop_first())
    }
}

/// The file paths of a newline-joined file list.
pub open spec fn file_list(joined: Seq<char>) -> Seq<Seq<char>> {
    nonempty_lines(lines(joined))
}

/// A path that survives being joined into a newline-separated list and
/// split again: not empty, and without line breaks.
pub open spec fn plain_path(p: Seq<char>) -> bool {
    p.len() > 0 && forall|i: int| 0 <= i < p.len() ==> #[trigger] p[i] != '\n' && p[i] != '\r'
}

/// Joining with a separator, read from the front.
pub proof fn lemma_join_front(ps: Seq<Seq<char>>, sep: Seq<char>)
    requires
        ps.len() >= 2,
    ensures
        join(ps, sep) == ps[0] + sep + join(ps.drop_first(), sep),
    decreases ps.len(),
{
    if ps.len() == 2 {
        assert(ps.drop_first().len() == 1);
        assert(ps.drop_last().len() == 1);
        assert(join(ps.drop_last(), sep) == ps[0]);
        assert(join(ps.drop_first(), sep) == ps[1]);
    } else {
        lemma_join_front(ps.drop_last(), sep);
        assert(ps.drop_last().drop_first() =~= ps.drop_first().drop_last());
        assert(ps.drop_first().last() == ps.last());
        assert(ps.drop_last()[0] == ps[0]);
    }
}

/// Characters without a line feed only extend the current line.
pub proof fn lemma_lines_no_break(cur: Seq<char>, s: Seq<char>, t: Seq<char>)
    requires
        forall|i: int| 0 <= i < s.len() ==> #[trigger] s[i] != '\n',
    ensures
        lines_from(cur, s + t) == lines_from(cur + s, t),
    decreases s.len(),
{
    if s.len() > 0 {
        assert((s + t)[0] == s[0]);
        assert((s + t).drop_first() =~= s.drop_first() + t);
        lemma_lines_no_break(cur.push(s[0]), s.drop_first(), t);
        assert(cur.push(s[0]) + s.drop_first() =~= cur + s);
    } else {
        assert(s + t =~= t);
        assert(cur + s =~= cur);
    }
}

/// Splitting a newline-joined list of plain paths gives the paths back.
pub proof fn lemma_lines_of_joined(ps: Seq<Seq<char>>)
    requires
        forall|i: int| 0 <= i < ps.len() ==> plain_path(#[trigger] ps[i]),
    ensures
        lines(join(ps, seq!['\n'])) == ps,
    decreases ps.len(),
{
    if ps.len() == 0 {
        assert(lines_from(seq![], seq![]) =~= Seq::<Seq<char>>::empty());
        assert(ps =~= Seq::<Seq<char>>::empty());
    } else if ps.len() == 1 {
        let p = ps[0];
        assert(plain_path(p));
        lemma_lines_no_break(seq![], p, seq![]);
        assert(p + seq![] =~= p);
        assert(seq![] + p =~= p);
        assert(ps =~= seq![p]);
    } else {
        let p = ps[0];
        let rest = ps.drop_first();
        assert(plain_path(p));
        assert forall|i: int| 0 <= i < rest.len() implies plain_path(#[trigger] rest[i]) by {
            assert(rest[i] == ps[i + 1]);
        }
        lemma_join_front(ps, seq!['\n']);
        let rj = join(rest, seq!['\n']);
        lemma_lines_of_joined(rest);
        assert(p + seq!['\n'] + rj =~= p + (seq!['\n'] + rj));
        lemma_lines_no_break(seq![], p, seq!['\n'] + rj);
        assert(seq![] + p =~= p);
        let t = seq!['\n'] + rj;
        assert(t[0] == '\n');
        assert(t.drop_first() =~= rj);
        assert(strip_cr(p) == p) by {
            assert(p.last() == p[p.len() - 1]);
        }
        assert(ps =~= seq![p] + rest);
    }
}

/// Dropping empty lines keeps a list of non-empty lines as it is.
pub proof fn lemma_nonempty_lines_keep(ls: Seq<Seq<char>>)
    requires
        forall|i: int| 0 <= i < ls.len() ==> (#[trigger] ls[i]).len() > 0,
    ensures
        nonempty_lines(ls) == ls,
    decreases ls.len(),
{
    if ls.len() > 0 {
        assert forall|i: int| 0 <= i < ls.drop_first().len() implies (#[trigger] ls.drop_first()[i]).len() > 0 by {
            assert(ls.drop_first()[i] == ls[i + 1]);
        }
        lemma_nonempty_lines_keep(ls.drop_first());
        assert(ls =~= seq![ls[0]] + ls.drop_first());
    }
}

/// Round trip of file lists: reading back a newline-joined list of plain
/// paths gives the paths.
pub proof fn lemma_file_list_roundtrip(ps: Seq<Seq<char>>)
    requires
        forall|i: int| 0 <= i < ps.len() ==> plain_path(#[trigger] ps[i]),
    ensures
        file_list(join(ps, seq!['\n'])) == ps,
{
    lemma_lines_of_joined(ps);
    assert forall|i: int| 0 <= i < ps.len() implies (#[trigger] ps[i]).len() > 0 by {
        assert(plain_path(ps[i]));
    }
    lemma_nonempty_lines_keep(ps);
}

/// The preview of a file list: the file names joined by `, `, cut to 200
/// characters with `…` added when longer.
pub open spec fn files_preview_text(joined: Seq<char>) -> Seq<char> {
    let names = join(file_list(joined).map_values(|p: Seq<char>| file_name_spec(p)), ", "@);
    if names.len() > 200 {
        names.take(200).push('\u{2026}')
    } else {
        names
    }
}

/// The paths of a newline-joined file list.
pub fn file_list_exec(joined: &Vec<char>) -> (r: Vec<Vec<char>>)
    ensures
        views(r@) == file_list(joined@),
{
    let ls = lines_exec(joined);
    let ghost lv = views(ls@);
    let mut out: Vec<Vec<char>> = Vec::new();
    let mut i: usize = 0;
    assert(lv.skip(0) =~= lv);
    assert(views(out@) =~= Seq::<Seq<char>>::empty());
    while i < ls.len()
        invariant
            i <= ls.len(),
            lv == views(ls@),
            nonempty_lines(lv) == views(out@) + nonempty_lines(lv.skip(i as int)),
        decreases ls.len() - i,
    {
        assert(lv.skip(i as int)[0] == ls@[i as int]@);
        assert(lv.skip(i as int).drop_first() =~= lv.skip(i + 1));
        if ls[i].len() > 0 {
            let ghost b = views(out@);
            let l = slice_chars(&ls[i], 0, ls[i].len());
            assert(l@ =~= ls@[i as int]@);
            out.push(l);
            assert(views(out@) =~= b.push(l@));
            assert(b + (seq![l@] + nonempty_lines(lv.skip(i + 1))) =~= b.push(l@) + nonempty_lines(
                lv.skip(i + 1),
            ));
        }
        i += 1;
    }
    assert(lv.skip(i as int) =~= Seq::<Seq<char>>::empty());
    assert(views(out@) + Seq::<Seq<char>>::empty() =~= views(out@));
    out
}

/// The preview of a file list and the number of files (as a `u32`).
pub fn files_preview_chars(joined: &Vec<char>) -> (r: (Vec<char>, u32))
    ensures
        r.0@ == files_preview_text(joined@),
        r.1 == file_list(joined@).len() as u32,
{
    let files = file_list_exec(joined);
    let ghost fv = views(files@);
    let count = files.len() as u32;
    let mut names: Vec<Vec<char>> = Vec::new();
    let mut i: usize = 0;
    while i < files.len()
        invariant
            i <= files.len(),
            fv == views(files@),
            views(names@) == fv.take(i as int).map_values(|p: Seq<char>| file_name_spec(p)),
        decreases files.len() - i,
    {
        let ghost b = views(names@);
        let nm = file_name_chars(&files[i]);
        names.push(nm);
        assert(views(names@) =~= b.push(nm@));
        assert(fv.take(i + 1).map_values(|p: Seq<char>| file_name_spec(p)) =~= fv.take(
            i as int,
        ).map_values(|p: Seq<char>| file_name_spec(p)).push(file_name_spec(fv[i as int])));
        i += 1;
    }
    assert(fv.take(i as int) =~= fv);
    let sep = chars_of(", ");
    let joined_names = join_exec(&names, &sep);
    if joined_names.len() > 200 {
        let mut p = slice_chars(&joined_names, 0, 200);
        assert(p@ =~= joined_names@.take(200));
        p.push('\u{2026}');
        (p, count)
    } else {
        (joined_names, count)
    }
}

/// The preview of a text and its line count (see `preview_text` and
/// `preview_line_count`).
pub fn build_preview(s: &str) -> (r: (String, u32))
    ensures
        r.0@ == preview_text(s@),
        r.1 == preview_line_count(s@),
{
    let (p, n) = preview_chars(&chars_of(s));
    (string_of(&p), n)
}

/// The preview of a newline-joined file list and the number of files (see
/// `files_preview_text`).
pub fn files_preview(joined: &str) -> (r: (String, u32))
    ensures
        r.0@ == files_preview_text(joined@),
        r.1 == file_list(joined@).len() as u32,
{
    let (p, n) = files_preview_chars(&chars_of(joined));
    (string_of(&p), n)
}

/// The file name of a path (see `file_name_spec`).
pub fn file_name_of(path: &str) -> (r: String)
    ensures
        r@ == file_name_spec(path@),
{
    string_of(&file_name_chars(&chars_of(path)))
}

} // verus!
