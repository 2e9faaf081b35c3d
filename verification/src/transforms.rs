//! Character-level text transforms: whitespace, case, HTML and URL encodings,
//! quotes and diacritics.
use vstd::prelude::*;
use vstd::string::StringExecFns;
use vstd::utf8::*;

use crate::text::{
    char_is_alphanumeric, char_is_lowercase, char_is_uppercase, char_is_whitespace, char_lower, lower_char_seq, upper_char_seq, char_upper, chars_of,
    extend_chars, extend_str, is_alphanumeric, is_lowercase, is_uppercase, is_whitespace, join, join_exec, occurs_at_exec, slice_chars,
    starts_with, lower_text, string_of, to_lowercase,
};

verus! {

// ---------------------------------------------------------------------------
// Whitespace
// ---------------------------------------------------------------------------

/// The whitespace-separated words of `s` (`str::split_whitespace`), where
/// `cur` is the part of the current word read so far.
pub open spec fn words_from(cur: Seq<char>, s: Seq<char>) -> Seq<Seq<char>>
    decreases s.len(),
{
    if s.len() == 0 {
        if cur.len() > 0 {
            seq![cur]
        } else {
            seq![]
        }
    } else if char_is_whitespace(s[0]) {
        (if cur.len() > 0 {
            seq![cur]
        } else {
            seq![]
        }) + words_from(seq![], s.drop_first())
    } else {
        words_from(cur.push(s[0]), s.drop_first())
    }
}

/// The whitespace-separated words of `s`.
pub open spec fn words(s: Seq<char>) -> Seq<Seq<char>> {
    words_from(seq![], s)
}

/// The words of `s` joined by single spaces: leading and trailing whitespace
/// removed and every inner run of whitespace replaced by one space.
pub open spec fn collapse_ws(s: Seq<char>) -> Seq<char> {
    join(words(s), seq![' '])
}

/// The whitespace-separated words of `v`.
pub fn words_exec(v: &Vec<char>) -> (r: Vec<Vec<char>>)
    ensures
        r@.map_values(|w: Vec<char>| w@) == words(v@),
{
    let mut out: Vec<Vec<char>> = Vec::new();
    let mut cur: Vec<char> = Vec::new();
    let mut i: usize = 0;
    assert(v@.skip(0) =~= v@);
    assert(out@.map_values(|w: Vec<char>| w@) =~= Seq::<Seq<char>>::empty());
    while i < v.len()
        invariant
            i <= v.len(),
            words(v@) == out@.map_values(|w: Vec<char>| w@) + words_from(cur@, v@.skip(i as int)),
        decreases v.len() - i,
    {
        let c = v[i];
        assert(v@.skip(i as int)[0] == c);
        assert(v@.skip(i as int).drop_first() =~= v@.skip(i + 1));
        if is_whitespace(c) {
            let ghost tail = words_from(seq![], v@.skip(i + 1));
            if cur.len() > 0 {
                let ghost old_out = out@.map_values(|w: Vec<char>| w@);
                let ghost w = cur@;
                out.push(cur);
                assert(out@.map_values(|w: Vec<char>| w@) =~= old_out.push(w));
                assert(old_out + (seq![w] + tail) =~= old_out.push(w) + tail);
                cur = Vec::new();
            } else {
                assert(Seq::<Seq<char>>::empty() + tail =~= tail);
            }
            assert(cur@ =~= Seq::<char>::empty());
        } else {
            cur.push(c);
        }
        i += 1;
    }
    if cur.len() > 0 {
        let ghost old_out = out@.map_values(|w: Vec<char>| w@);
        let ghost w = cur@;
        out.push(cur);
        assert(out@.map_values(|w: Vec<char>| w@) =~= old_out.push(w));
    }
    assert(words(v@) =~= out@.map_values(|w: Vec<char>| w@));
    out
}

/// `v` with whitespace collapsed (see `collapse_ws`).
pub fn collapse_ws_exec(v: &Vec<char>) -> (r: Vec<char>)
    ensures
        r@ == collapse_ws(v@),
{
    let ws = words_exec(v);
    let sep = vec![' '];
    assert(sep@ =~= seq![' ']);
    join_exec(&ws, &sep)
}

/// Collapses whitespace: the input trimmed, with every run of whitespace
/// inside it replaced by one space.
pub fn collapse_whitespace(input: &str) -> (r: String)
    ensures
        r@ == collapse_ws(input@),
{
    let v = chars_of(input);
    let out = collapse_ws_exec(&v);
    string_of(&out)
}

// ---------------------------------------------------------------------------
// Case
// ---------------------------------------------------------------------------

/// Title case: the first character of every word upper-cased, the others
/// lower-cased; `at_start` tells whether the next character starts a word.
pub open spec fn title_case_from(at_start: bool, s: Seq<char>) -> Seq<char>
    decreases s.len(),
{
    if s.len() == 0 {
        seq![]
    } else if char_is_whitespace(s[0]) {
        seq![s[0]] + title_case_from(true, s.drop_first())
    } else if at_start {
        upper_char_seq(s[0]) + title_case_from(false, s.drop_first())
    } else {
        lower_char_seq(s[0]) + title_case_from(false, s.drop_first())
    }
}

/// Title case of `input`.
pub fn title_case(input: &str) -> (r: String)
    ensures
        r@ == title_case_from(true, input@),
{
    let v = chars_of(input);
    let mut out: Vec<char> = Vec::new();
    let mut at_start = true;
    let mut i: usize = 0;
    assert(v@.skip(0) =~= v@);
    while i < v.len()
        invariant
            i <= v.len(),
            title_case_from(true, v@) == out@ + title_case_from(at_start, v@.skip(i as int)),
        decreases v.len() - i,
    {
        let c = v[i];
        assert(v@.skip(i as int)[0] == c);
        assert(v@.skip(i as int).drop_first() =~= v@.skip(i + 1));
        let ghost before = out@;
        if is_whitespace(c) {
            at_start = true;
            out.push(c);
            assert(out@ =~= before + seq![c]);
        } else if at_start {
            let u = char_upper(c);
            extend_chars(&mut out, &u);
            at_start = false;
        } else {
            let l = char_lower(c);
            extend_chars(&mut out, &l);
        }
        assert(before + title_case_from(at_start, v@.skip(i + 1)) + seq![] =~= before + title_case_from(at_start, v@.skip(i + 1)));
        i += 1;
    }
    assert(v@.skip(i as int) =~= Seq::<char>::empty());
    assert(out@ + Seq::<char>::empty() =~= out@);
    string_of(&out)
}

/// `word` with its first character upper-cased and the rest lower-cased.
pub open spec fn capitalize_spec(word: Seq<char>) -> Seq<char> {
    if word.len() == 0 {
        seq![]
    } else {
        upper_char_seq(word[0]) + lower_text(word.drop_first())
    }
}

/// `word` with its first character upper-cased and the rest lower-cased.
pub fn capitalize(word: &Vec<char>) -> (r: Vec<char>)
    ensures
        r@ == capitalize_spec(word@),
{
    if word.len() == 0 {
        return Vec::new();
    }
    let mut out = char_upper(word[0]);
    let rest = slice_chars(word, 1, word.len());
    assert(rest@ =~= word@.drop_first());
    let rest_s = string_of(&rest);
    let low = to_lowercase(rest_s.as_str());
    extend_str(&mut out, low.as_str());
    out
}

// ---------------------------------------------------------------------------
// HTML encoding
// ---------------------------------------------------------------------------

/// The HTML escape of one character.
pub open spec fn html_escape_char(c: char) -> Seq<char> {
    if c == '&' {
        seq!['&', 'a', 'm', 'p', ';']
    } else if c == '<' {
        seq!['&', 'l', 't', ';']
    } else if c == '>' {
        seq!['&', 'g', 't', ';']
    } else if c == '"' {
        seq!['&', 'q', 'u', 'o', 't', ';']
    } else if c == '\'' {
        seq!['&', '#', '3', '9', ';']
    } else {
        seq![c]
    }
}

/// `s` with `& < > " '` replaced by their HTML entities.
pub open spec fn html_encode_spec(s: Seq<char>) -> Seq<char>
    decreases s.len(),
{
    if s.len() == 0 {
        seq![]
    } else {
        html_escape_char(s[0]) + html_encode_spec(s.drop_first())
    }
}

/// Escapes `& < > " '` as HTML entities.
pub fn html_encode(input: &str) -> (r: String)
    ensures
        r@ == html_encode_spec(input@),
{
    let v = chars_of(input);
    let mut out: Vec<char> = Vec::new();
    let mut i: usize = 0;
    assert(v@.skip(0) =~= v@);
    while i < v.len()
        invariant
            i <= v.len(),
            html_encode_spec(v@) == out@ + html_encode_spec(v@.skip(i as int)),
        decreases v.len() - i,
    {
        let c = v[i];
        assert(v@.skip(i as int)[0] == c);
        assert(v@.skip(i as int).drop_first() =~= v@.skip(i + 1));
        let esc: Vec<char> = if c == '&' {
            vec!['&', 'a', 'm', 'p', ';']
        } else if c == '<' {
            vec!['&', 'l', 't', ';']
        } else if c == '>' {
            vec!['&', 'g', 't', ';']
        } else if c == '"' {
            vec!['&', 'q', 'u', 'o', 't', ';']
        } else if c == '\'' {
            vec!['&', '#', '3', '9', ';']
        } else {
            vec![c]
        };
        assert(esc@ =~= html_escape_char(c));
        let ghost before = out@;
        extend_chars(&mut out, &esc);
        assert(before + (html_escape_char(c) + html_encode_spec(v@.skip(i + 1))) =~= out@
            + html_encode_spec(v@.skip(i + 1)));
        i += 1;
    }
    assert(v@.skip(i as int) =~= Seq::<char>::empty());
    assert(out@ + Seq::<char>::empty() =~= out@);
    string_of(&out)
}

// ---------------------------------------------------------------------------
// Replacing substrings
// ---------------------------------------------------------------------------

/// `s` with every non-overlapping occurrence of `pat`, scanned from the left,
/// replaced by `rep` (`str::replace` with a non-empty pattern).
pub open spec fn replace_spec(s: Seq<char>, pat: Seq<char>, rep: Seq<char>) -> Seq<char>
    decreases s.len(),
{
    if pat.len() == 0 || s.len() == 0 {
        s
    } else if starts_with(s, pat) {
        rep + replace_spec(s.skip(pat.len() as int), pat, rep)
    } else {
        seq![s[0]] + replace_spec(s.drop_first(), pat, rep)
    }
}

/// Replaces every occurrence of `pat` (non-empty) in `v` by `rep`.
pub fn replace_exec(v: &Vec<char>, pat: &Vec<char>, rep: &Vec<char>) -> (r: Vec<char>)
    requires
        pat.len() > 0,
    ensures
        r@ == replace_spec(v@, pat@, rep@),
{
    let mut out: Vec<char> = Vec::new();
    let mut i: usize = 0;
    assert(v@.skip(0) =~= v@);
    while i < v.len()
        invariant
            i <= v.len(),
            pat.len() > 0,
            replace_spec(v@, pat@, rep@) == out@ + replace_spec(v@.skip(i as int), pat@, rep@),
        decreases v.len() - i,
    {
        let ghost rest = v@.skip(i as int);
        let ghost before = out@;
        if occurs_at_exec(v, pat, i) {
            assert(rest.take(pat@.len() as int) =~= v@.subrange(i as int, i + pat@.len()));
            assert(rest.skip(pat@.len() as int) =~= v@.skip(i + pat@.len()));
            extend_chars(&mut out, rep);
            i += pat.len();
            assert(before + (rep@ + replace_spec(v@.skip(i as int), pat@, rep@)) =~= out@
                + replace_spec(v@.skip(i as int), pat@, rep@));
        } else {
            proof {
                if starts_with(rest, pat@) {
                    assert(rest.take(pat@.len() as int) =~= v@.subrange(i as int, i + pat@.len()));
                }
            }
            assert(rest[0] == v@[i as int]);
            assert(rest.drop_first() =~= v@.skip(i + 1));
            out.push(v[i]);
            i += 1;
            assert(before + (seq![v@[i - 1]] + replace_spec(v@.skip(i as int), pat@, rep@))
                =~= out@ + replace_spec(v@.skip(i as int), pat@, rep@));
        }
    }
    assert(v@.skip(i as int) =~= Seq::<char>::empty());
    assert(out@ + Seq::<char>::empty() =~= out@);
    out
}

/// `\r\n` and lone `\r` line endings turned into `\n`.
pub open spec fn normalize_newlines_spec(s: Seq<char>) -> Seq<char> {
    replace_spec(replace_spec(s, seq!['\r', '\n'], seq!['\n']), seq!['\r'], seq!['\n'])
}

/// Turns `\r\n` and lone `\r` into `\n`.
pub fn normalize_newlines(input: &str) -> (r: String)
    ensures
        r@ == normalize_newlines_spec(input@),
{
    let v = chars_of(input);
    let crlf = vec!['\r', '\n'];
    let lf = vec!['\n'];
    let cr = vec!['\r'];
    assert(crlf@ =~= seq!['\r', '\n']);
    assert(lf@ =~= seq!['\n']);
    assert(cr@ =~= seq!['\r']);
    let a = replace_exec(&v, &crlf, &lf);
    let b = replace_exec(&a, &cr, &lf);
    string_of(&b)
}

// ---------------------------------------------------------------------------
// Quotes and diacritics
// ---------------------------------------------------------------------------

/// Typographic quotes, dashes and the no-break space mapped to ASCII.
pub open spec fn straighten_char(c: char) -> char {
    if c == '\u{201C}' || c == '\u{201D}' || c == '\u{201E}' || c == '\u{00AB}' || c
        == '\u{00BB}' {
        '"'
    } else if c == '\u{2018}' || c == '\u{2019}' || c == '\u{201A}' || c == '\u{2039}' || c
        == '\u{203A}' {
        '\''
    } else if c == '\u{2013}' || c == '\u{2014}' || c == '\u{2212}' {
        '-'
    } else if c == '\u{00A0}' {
        ' '
    } else {
        c
    }
}

/// Typographic quotes, dashes, no-break spaces and the ellipsis replaced by
/// their ASCII forms.
pub open spec fn straighten_quotes_spec(s: Seq<char>) -> Seq<char> {
    replace_spec(s.map_values(|c: char| straighten_char(c)), seq!['\u{2026}'], seq!['.', '.', '.'])
}

/// Replaces typographic quotes, dashes, no-break spaces and the ellipsis by
/// ASCII.
pub fn straighten_quotes(input: &str) -> (r: String)
    ensures
        r@ == straighten_quotes_spec(input@),
{
    let v = chars_of(input);
    let mut m: Vec<char> = Vec::new();
    let mut i: usize = 0;
    while i < v.len()
        invariant
            i <= v.len(),
            m@ == v@.take(i as int).map_values(|c: char| straighten_char(c)),
        decreases v.len() - i,
    {
        let c = v[i];
        let d = if c == '\u{201C}' || c == '\u{201D}' || c == '\u{201E}' || c == '\u{00AB}' || c
            == '\u{00BB}' {
            '"'
        } else if c == '\u{2018}' || c == '\u{2019}' || c == '\u{201A}' || c == '\u{2039}' || c
            == '\u{203A}' {
            '\''
        } else if c == '\u{2013}' || c == '\u{2014}' || c == '\u{2212}' {
            '-'
        } else if c == '\u{00A0}' {
            ' '
        } else {
            c
        };
        m.push(d);
        assert(v@.take(i + 1).map_values(|c: char| straighten_char(c)) =~= v@.take(
            i as int,
        ).map_values(|c: char| straighten_char(c)).push(straighten_char(c)));
        i += 1;
    }
    assert(v@.take(i as int) =~= v@);
    let ell = vec!['\u{2026}'];
    let dots = vec!['.', '.', '.'];
    assert(ell@ =~= seq!['\u{2026}']);
    assert(dots@ =~= seq!['.', '.', '.']);
    let out = replace_exec(&m, &ell, &dots);
    string_of(&out)
}

/// The ASCII replacement of an accented letter, if it has one.
pub open spec fn deaccent_spec(c: char) -> Option<Seq<char>> {
    if c == 'á' || c == 'à' || c == 'â' || c == 'ä' || c == 'ã' || c == 'å' || c == 'ā' || c
        == 'ă' || c == 'ą' {
        Some(seq!['a'])
    } else if c == 'Á' || c == 'À' || c == 'Â' || c == 'Ä' || c == 'Ã' || c == 'Å' || c == 'Ā'
        || c == 'Ă' || c == 'Ą' {
        Some(seq!['A'])
    } else if c == 'é' || c == 'è' || c == 'ê' || c == 'ë' || c == 'ē' || c == 'ė' || c == 'ę'
        || c == 'ě' {
        Some(seq!['e'])
    } else if c == 'É' || c == 'È' || c == 'Ê' || c == 'Ë' || c == 'Ē' || c == 'Ė' || c == 'Ę'
        || c == 'Ě' {
        Some(seq!['E'])
    } else if c == 'í' || c == 'ì' || c == 'î' || c == 'ï' || c == 'ī' || c == 'į' {
        Some(seq!['i'])
    } else if c == 'Í' || c == 'Ì' || c == 'Î' || c == 'Ï' || c == 'Ī' || c == 'Į' {
        Some(seq!['I'])
    } else if c == 'ó' || c == 'ò' || c == 'ô' || c == 'ö' || c == 'õ' || c == 'ø' || c == 'ō' {
        Some(seq!['o'])
    } else if c == 'Ó' || c == 'Ò' || c == 'Ô' || c == 'Ö' || c == 'Õ' || c == 'Ø' || c == 'Ō' {
        Some(seq!['O'])
    } else if c == 'ú' || c == 'ù' || c == 'û' || c == 'ü' || c == 'ū' || c == 'ů' {
        Some(seq!['u'])
    } else if c == 'Ú' || c == 'Ù' || c == 'Û' || c == 'Ü' || c == 'Ū' || c == 'Ů' {
        Some(seq!['U'])
    } else if c == 'ç' || c == 'ć' || c == 'č' {
        Some(seq!['c'])
    } else if c == 'Ç' || c == 'Ć' || c == 'Č' {
        Some(seq!['C'])
    } else if c == 'ñ' || c == 'ń' {
        Some(seq!['n'])
    } else if c == 'Ñ' || c == 'Ń' {
        Some(seq!['N'])
    } else if c == 'ý' || c == 'ÿ' {
        Some(seq!['y'])
    } else if c == 'Ý' || c == 'Ÿ' {
        Some(seq!['Y'])
    } else if c == 'š' {
        Some(seq!['s'])
    } else if c == 'Š' {
        Some(seq!['S'])
    } else if c == 'ž' {
        Some(seq!['z'])
    } else if c == 'Ž' {
        Some(seq!['Z'])
    } else if c == 'ð' {
        Some(seq!['d'])
    } else if c == 'Ð' {
        Some(seq!['D'])
    } else if c == 'ß' {
        Some(seq!['s', 's'])
    } else if c == 'æ' {
        Some(seq!['a', 'e'])
    } else if c == 'Æ' {
        Some(seq!['A', 'E'])
    } else if c == 'œ' {
        Some(seq!['o', 'e'])
    } else if c == 'Œ' {
        Some(seq!['O', 'E'])
    } else if c == 'þ' {
        Some(seq!['t', 'h'])
    } else if c == 'Þ' {
        Some(seq!['T', 'H'])
    } else {
        None
    }
}

/// The ASCII replacement of an accented letter, if it has one.
pub fn deaccent(c: char) -> (r: Option<Vec<char>>)
    ensures
        r is Some == deaccent_spec(c) is Some,
        r matches Some(v) ==> Some(v@) == deaccent_spec(c),
{
    let r = if c == 'á' || c == 'à' || c == 'â' || c == 'ä' || c == 'ã' || c == 'å' || c == 'ā'
        || c == 'ă' || c == 'ą' {
        Some(vec!['a'])
    } else if c == 'Á' || c == 'À' || c == 'Â' || c == 'Ä' || c == 'Ã' || c == 'Å' || c == 'Ā'
        || c == 'Ă' || c == 'Ą' {
        Some(vec!['A'])
    } else if c == 'é' || c == 'è' || c == 'ê' || c == 'ë' || c == 'ē' || c == 'ė' || c == 'ę'
        || c == 'ě' {
        Some(vec!['e'])
    } else if c == 'É' || c == 'È' || c == 'Ê' || c == 'Ë' || c == 'Ē' || c == 'Ė' || c == 'Ę'
        || c == 'Ě' {
        Some(vec!['E'])
    } else if c == 'í' || c == 'ì' || c == 'î' || c == 'ï' || c == 'ī' || c == 'į' {
        Some(vec!['i'])
    } else if c == 'Í' || c == 'Ì' || c == 'Î' || c == 'Ï' || c == 'Ī' || c == 'Į' {
        Some(vec!['I'])
    } else if c == 'ó' || c == 'ò' || c == 'ô' || c == 'ö' || c == 'õ' || c == 'ø' || c == 'ō' {
        Some(vec!['o'])
    } else if c == 'Ó' || c == 'Ò' || c == 'Ô' || c == 'Ö' || c == 'Õ' || c == 'Ø' || c == 'Ō' {
        Some(vec!['O'])
    } else if c == 'ú' || c == 'ù' || c == 'û' || c == 'ü' || c == 'ū' || c == 'ů' {
        Some(vec!['u'])
    } else if c == 'Ú' || c == 'Ù' || c == 'Û' || c == 'Ü' || c == 'Ū' || c == 'Ů' {
        Some(vec!['U'])
    } else if c == 'ç' || c == 'ć' || c == 'č' {
        Some(vec!['c'])
    } else if c == 'Ç' || c == 'Ć' || c == 'Č' {
        Some(vec!['C'])
    } else if c == 'ñ' || c == 'ń' {
        Some(vec!['n'])
    } else if c == 'Ñ' || c == 'Ń' {
        Some(vec!['N'])
    } else if c == 'ý' || c == 'ÿ' {
        Some(vec!['y'])
    } else if c == 'Ý' || c == 'Ÿ' {
        Some(vec!['Y'])
    } else if c == 'š' {
        Some(vec!['s'])
    } else if c == 'Š' {
        Some(vec!['S'])
    } else if c == 'ž' {
        Some(vec!['z'])
    } else if c == 'Ž' {
        Some(vec!['Z'])
    } else if c == 'ð' {
        Some(vec!['d'])
    } else if c == 'Ð' {
        Some(vec!['D'])
    } else if c == 'ß' {
        Some(vec!['s', 's'])
    } else if c == 'æ' {
        Some(vec!['a', 'e'])
    } else if c == 'Æ' {
        Some(vec!['A', 'E'])
    } else if c == 'œ' {
        Some(vec!['o', 'e'])
    } else if c == 'Œ' {
        Some(vec!['O', 'E'])
    } else if c == 'þ' {
        Some(vec!['t', 'h'])
    } else if c == 'Þ' {
        Some(vec!['T', 'H'])
    } else {
        None
    };
    proof {
        if r is Some {
            assert(Some(r->0@) =~= deaccent_spec(c));
        }
    }
    r
}

/// `s` with every accented letter replaced by its ASCII form.
pub open spec fn remove_diacritics_spec(s: Seq<char>) -> Seq<char>
    decreases s.len(),
{
    if s.len() == 0 {
        seq![]
    } else {
        (match deaccent_spec(s[0]) {
            Some(t) => t,
            None => seq![s[0]],
        }) + remove_diacritics_spec(s.drop_first())
    }
}

/// The letters of the documented table of accented letters.
pub open spec fn documented_diacritic(c: char) -> bool {
    ||| c == 'á' || c == 'à' || c == 'â' || c == 'ä' || c == 'ã' || c == 'å' || c == 'ā' || c == 'ă' || c == 'ą'
    ||| c == 'Á' || c == 'À' || c == 'Â' || c == 'Ä' || c == 'Ã' || c == 'Å' || c == 'Ā' || c == 'Ă' || c == 'Ą'
    ||| c == 'é' || c == 'è' || c == 'ê' || c == 'ë' || c == 'ē' || c == 'ė' || c == 'ę' || c == 'ě'
    ||| c == 'É' || c == 'È' || c == 'Ê' || c == 'Ë' || c == 'Ē' || c == 'Ė' || c == 'Ę' || c == 'Ě'
    ||| c == 'í' || c == 'ì' || c == 'î' || c == 'ï' || c == 'ī' || c == 'į'
    ||| c == 'Í' || c == 'Ì' || c == 'Î' || c == 'Ï' || c == 'Ī' || c == 'Į'
    ||| c == 'ó' || c == 'ò' || c == 'ô' || c == 'ö' || c == 'õ' || c == 'ø' || c == 'ō'
    ||| c == 'Ó' || c == 'Ò' || c == 'Ô' || c == 'Ö' || c == 'Õ' || c == 'Ø' || c == 'Ō'
    ||| c == 'ú' || c == 'ù' || c == 'û' || c == 'ü' || c == 'ū' || c == 'ů'
    ||| c == 'Ú' || c == 'Ù' || c == 'Û' || c == 'Ü' || c == 'Ū' || c == 'Ů'
    ||| c == 'ç' || c == 'ć' || c == 'č'
    ||| c == 'Ç' || c == 'Ć' || c == 'Č'
    ||| c == 'ñ' || c == 'ń'
    ||| c == 'Ñ' || c == 'Ń'
    ||| c == 'ý' || c == 'ÿ'
    ||| c == 'Ý' || c == 'Ÿ'
    ||| c == 'š'
    ||| c == 'Š'
    ||| c == 'ž'
    ||| c == 'Ž'
    ||| c == 'ð'
    ||| c == 'Ð'
    ||| c == 'ß'
    ||| c == 'æ'
    ||| c == 'Æ'
    ||| c == 'œ'
    ||| c == 'Œ'
    ||| c == 'þ'
    ||| c == 'Þ'
}

/// Diacritics removal follows the documented table: each accented letter is
/// written as its ASCII base letter (or letters, for ß, æ, œ, þ), and every
/// character outside the table is kept.
pub proof fn lemma_deaccent_table(c: char)
    ensures
        (c == 'á' || c == 'à' || c == 'â' || c == 'ä' || c == 'ã' || c == 'å' || c == 'ā' || c == 'ă' || c == 'ą') ==> deaccent_spec(c) == Some(seq!['a']),
        (c == 'Á' || c == 'À' || c == 'Â' || c == 'Ä' || c == 'Ã' || c == 'Å' || c == 'Ā' || c == 'Ă' || c == 'Ą') ==> deaccent_spec(c) == Some(seq!['A']),
        (c == 'é' || c == 'è' || c == 'ê' || c == 'ë' || c == 'ē' || c == 'ė' || c == 'ę' || c == 'ě') ==> deaccent_spec(c) == Some(seq!['e']),
        (c == 'É' || c == 'È' || c == 'Ê' || c == 'Ë' || c == 'Ē' || c == 'Ė' || c == 'Ę' || c == 'Ě') ==> deaccent_spec(c) == Some(seq!['E']),
        (c == 'í' || c == 'ì' || c == 'î' || c == 'ï' || c == 'ī' || c == 'į') ==> deaccent_spec(c) == Some(seq!['i']),
        (c == 'Í' || c == 'Ì' || c == 'Î' || c == 'Ï' || c == 'Ī' || c == 'Į') ==> deaccent_spec(c) == Some(seq!['I']),
        (c == 'ó' || c == 'ò' || c == 'ô' || c == 'ö' || c == 'õ' || c == 'ø' || c == 'ō') ==> deaccent_spec(c) == Some(seq!['o']),
        (c == 'Ó' || c == 'Ò' || c == 'Ô' || c == 'Ö' || c == 'Õ' || c == 'Ø' || c == 'Ō') ==> deaccent_spec(c) == Some(seq!['O']),
        (c == 'ú' || c == 'ù' || c == 'û' || c == 'ü' || c == 'ū' || c == 'ů') ==> deaccent_spec(c) == Some(seq!['u']),
        (c == 'Ú' || c == 'Ù' || c == 'Û' || c == 'Ü' || c == 'Ū' || c == 'Ů') ==> deaccent_spec(c) == Some(seq!['U']),
        (c == 'ç' || c == 'ć' || c == 'č') ==> deaccent_spec(c) == Some(seq!['c']),
        (c == 'Ç' || c == 'Ć' || c == 'Č') ==> deaccent_spec(c) == Some(seq!['C']),
        (c == 'ñ' || c == 'ń') ==> deaccent_spec(c) == Some(seq!['n']),
        (c == 'Ñ' || c == 'Ń') ==> deaccent_spec(c) == Some(seq!['N']),
        (c == 'ý' || c == 'ÿ') ==> deaccent_spec(c) == Some(seq!['y']),
        (c == 'Ý' || c == 'Ÿ') ==> deaccent_spec(c) == Some(seq!['Y']),
        (c == 'š') ==> deaccent_spec(c) == Some(seq!['s']),
        (c == 'Š') ==> deaccent_spec(c) == Some(seq!['S']),
        (c == 'ž') ==> deaccent_spec(c) == Some(seq!['z']),
        (c == 'Ž') ==> deaccent_spec(c) == Some(seq!['Z']),
        (c == 'ð') ==> deaccent_spec(c) == Some(seq!['d']),
        (c == 'Ð') ==> deaccent_spec(c) == Some(seq!['D']),
        (c == 'ß') ==> deaccent_spec(c) == Some(seq!['s', 's']),
        (c == 'æ') ==> deaccent_spec(c) == Some(seq!['a', 'e']),
        (c == 'Æ') ==> deaccent_spec(c) == Some(seq!['A', 'E']),
        (c == 'œ') ==> deaccent_spec(c) == Some(seq!['o', 'e']),
        (c == 'Œ') ==> deaccent_spec(c) == Some(seq!['O', 'E']),
        (c == 'þ') ==> deaccent_spec(c) == Some(seq!['t', 'h']),
        (c == 'Þ') ==> deaccent_spec(c) == Some(seq!['T', 'H']),
        !documented_diacritic(c) ==> deaccent_spec(c) is None,
{
}

/// A text with its diacritics removed holds no letter of the table: each
/// one is replaced by ASCII letters.
pub proof fn lemma_no_diacritics_left(s: Seq<char>)
    ensures
        forall|i: int|
            0 <= i < remove_diacritics_spec(s).len() ==> !documented_diacritic(
                #[trigger] remove_diacritics_spec(s)[i],
            ),
    decreases s.len(),
{
    if s.len() > 0 {
        lemma_no_diacritics_left(s.drop_first());
        lemma_deaccent_table(s[0]);
        let head = match deaccent_spec(s[0]) {
            Some(t) => t,
            None => seq![s[0]],
        };
        let r = remove_diacritics_spec(s);
        let rest = remove_diacritics_spec(s.drop_first());
        assert(r == head + rest);
        assert forall|i: int| 0 <= i < r.len() implies !documented_diacritic(#[trigger] r[i]) by {
            if i >= head.len() {
                assert(r[i] == rest[i - head.len()]);
            } else {
                assert(r[i] == head[i]);
                if deaccent_spec(s[0]) is Some {
                    assert(('A' <= head[i] && head[i] <= 'Z') || ('a' <= head[i] && head[i] <= 'z'));
                    lemma_deaccent_table(head[i]);
                }
            }
        }
    }
}

/// Replaces accented letters by their ASCII forms.
pub fn remove_diacritics_chars(v: &Vec<char>) -> (r: Vec<char>)
    ensures
        r@ == remove_diacritics_spec(v@),
{
    let mut out: Vec<char> = Vec::new();
    let mut i: usize = 0;
    assert(v@.skip(0) =~= v@);
    while i < v.len()
        invariant
            i <= v.len(),
            remove_diacritics_spec(v@) == out@ + remove_diacritics_spec(v@.skip(i as int)),
        decreases v.len() - i,
    {
        let c = v[i];
        assert(v@.skip(i as int)[0] == c);
        assert(v@.skip(i as int).drop_first() =~= v@.skip(i + 1));
        let ghost before = out@;
        match deaccent(c) {
            Some(t) => {
                extend_chars(&mut out, &t);
            },
            None => {
                out.push(c);
                assert(out@ =~= before + seq![c]);
            },
        }
        assert(before + ((match deaccent_spec(c) {
            Some(t) => t,
            None => seq![c],
        }) + remove_diacritics_spec(v@.skip(i + 1))) =~= out@ + remove_diacritics_spec(
            v@.skip(i + 1),
        ));
        i += 1;
    }
    assert(v@.skip(i as int) =~= Seq::<char>::empty());
    assert(out@ + Seq::<char>::empty() =~= out@);
    out
}

/// Replaces accented letters by their ASCII forms.
pub fn remove_diacritics(input: &str) -> (r: String)
    ensures
        r@ == remove_diacritics_spec(input@),
{
    let v = chars_of(input);
    let out = remove_diacritics_chars(&v);
    string_of(&out)
}

/// An ASCII letter or digit.
pub open spec fn is_ascii_alnum(c: char) -> bool {
    ('a' <= c && c <= 'z') || ('A' <= c && c <= 'Z') || ('0' <= c && c <= '9')
}

/// The slug of `s`, built from the left: ASCII letters and digits are kept,
/// every other run of characters after the first kept one becomes one `-`.
/// `dash` tells whether the last character produced was such a `-`.
pub open spec fn slug_from(out: Seq<char>, dash: bool, s: Seq<char>) -> Seq<char>
    decreases s.len(),
{
    if s.len() == 0 {
        out
    } else if is_ascii_alnum(s[0]) {
        slug_from(out.push(s[0]), false, s.drop_first())
    } else if out.len() > 0 && !dash {
        slug_from(out.push('-'), true, s.drop_first())
    } else {
        slug_from(out, dash, s.drop_first())
    }
}

/// `s` without leading and trailing `c`.
pub open spec fn trim_char(s: Seq<char>, c: char) -> Seq<char>
    decreases s.len(),
{
    if s.len() > 0 && s[0] == c {
        trim_char(s.drop_first(), c)
    } else if s.len() > 0 && s.last() == c {
        trim_char(s.drop_last(), c)
    } else {
        s
    }
}

/// The URL slug of `s`: diacritics removed, lower-cased, runs of anything but
/// ASCII letters and digits turned into single dashes, no dash at either end.
pub open spec fn slugify_spec(s: Seq<char>) -> Seq<char> {
    trim_char(slug_from(seq![], false, lower_text(remove_diacritics_spec(s))), '-')
}

/// `v` without leading and trailing `c`.
pub fn trim_char_exec(v: &Vec<char>, c: char) -> (r: Vec<char>)
    ensures
        r@ == trim_char(v@, c),
    decreases v.len(),
{
    if v.len() > 0 && v[0] == c {
        let rest = slice_chars(v, 1, v.len());
        assert(rest@ =~= v@.drop_first());
        trim_char_exec(&rest, c)
    } else if v.len() > 0 && v[v.len() - 1] == c {
        let rest = slice_chars(v, 0, v.len() - 1);
        assert(rest@ =~= v@.drop_last());
        trim_char_exec(&rest, c)
    } else {
        slice_chars(v, 0, v.len())
    }
}

/// The URL slug of `input` (see `slugify_spec`).
pub fn slugify(input: &str) -> (r: String)
    ensures
        r@ == slugify_spec(input@),
{
    let v = chars_of(input);
    let plain = remove_diacritics_chars(&v);
    let plain_s = string_of(&plain);
    let lower = to_lowercase(plain_s.as_str());
    let n = chars_of(lower.as_str());
    let mut out: Vec<char> = Vec::new();
    let mut dash = false;
    let mut i: usize = 0;
    assert(n@.skip(0) =~= n@);
    while i < n.len()
        invariant
            i <= n.len(),
            slug_from(seq![], false, n@) == slug_from(out@, dash, n@.skip(i as int)),
        decreases n.len() - i,
    {
        let c = n[i];
        assert(n@.skip(i as int)[0] == c);
        assert(n@.skip(i as int).drop_first() =~= n@.skip(i + 1));
        if ('a' <= c && c <= 'z') || ('A' <= c && c <= 'Z') || ('0' <= c && c <= '9') {
            out.push(c);
            dash = false;
        } else if out.len() > 0 && !dash {
            out.push('-');
            dash = true;
        }
        i += 1;
    }
    assert(n@.skip(i as int) =~= Seq::<char>::empty());
    let t = trim_char_exec(&out, '-');
    string_of(&t)
}

// ---------------------------------------------------------------------------
// Percent encoding
// ---------------------------------------------------------------------------

/// A byte that percent encoding keeps as it is: `A-Z a-z 0-9 - _ . ~`.
pub open spec fn is_unreserved(b: u8) -> bool {
    (65 <= b <= 90) || (97 <= b <= 122) || (48 <= b <= 57) || b == 45 || b == 95 || b == 46
        || b == 126
}

/// The upper-case hexadecimal digit of a value below 16.
pub open spec fn hex_digit_upper(v: u8) -> char {
    if v < 10 {
        (48 + v) as char
    } else {
        (55 + v) as char
    }
}

/// The percent encoding of a byte string: unreserved bytes as characters,
/// every other byte as `%` and two upper-case hex digits.
pub open spec fn percent_encode_spec(b: Seq<u8>) -> Seq<char>
    decreases b.len(),
{
    if b.len() == 0 {
        seq![]
    } else {
        (if is_unreserved(b[0]) {
            seq![b[0] as char]
        } else {
            seq!['%', hex_digit_upper(b[0] / 16), hex_digit_upper(b[0] % 16)]
        }) + percent_encode_spec(b.drop_first())
    }
}

/// The upper-case hexadecimal digit of a value below 16.
pub fn hex_upper(v: u8) -> (r: char)
    requires
        v < 16,
    ensures
        r == hex_digit_upper(v),
{
    if v < 10 {
        (48 + v) as char
    } else {
        (55 + v) as char
    }
}

/// Percent-encodes the UTF-8 bytes of `input`.
pub fn percent_encode(input: &str) -> (r: String)
    ensures
        r@ == percent_encode_spec(encode_utf8(input@)),
{
    let bytes = input.as_bytes();
    let mut out: Vec<char> = Vec::new();
    let mut i: usize = 0;
    assert(bytes@.skip(0) =~= bytes@);
    while i < bytes.len()
        invariant
            i <= bytes@.len(),
            bytes@ == encode_utf8(input@),
            percent_encode_spec(bytes@) == out@ + percent_encode_spec(bytes@.skip(i as int)),
        decreases bytes@.len() - i,
    {
        let b = bytes[i];
        assert(bytes@.skip(i as int)[0] == b);
        assert(bytes@.skip(i as int).drop_first() =~= bytes@.skip(i + 1));
        let ghost before = out@;
        if (65 <= b && b <= 90) || (97 <= b && b <= 122) || (48 <= b && b <= 57) || b == 45 || b
            == 95 || b == 46 || b == 126 {
            out.push(b as char);
            assert(out@ =~= before + seq![b as char]);
        } else {
            out.push('%');
            out.push(hex_upper(b / 16));
            out.push(hex_upper(b % 16));
            assert(out@ =~= before + seq!['%', hex_digit_upper(b / 16), hex_digit_upper(b % 16)]);
        }
        i += 1;
    }
    assert(bytes@.skip(i as int) =~= Seq::<u8>::empty());
    assert(out@ + Seq::<char>::empty() =~= out@);
    string_of(&out)
}

/// The value of an ASCII hexadecimal digit (either case), as `char::to_digit(16)`.
pub open spec fn hex_value(b: u8) -> Option<u8> {
    if 48 <= b <= 57 {
        Some((b - 48) as u8)
    } else if 97 <= b <= 102 {
        Some((b - 87) as u8)
    } else if 65 <= b <= 70 {
        Some((b - 55) as u8)
    } else {
        None
    }
}

/// The value of an ASCII hexadecimal digit (either case).
pub fn hex_value_exec(b: u8) -> (r: Option<u8>)
    ensures
        r == hex_value(b),
        r matches Some(v) ==> v < 16,
{
    if 48 <= b && b <= 57 {
        Some(b - 48)
    } else if 97 <= b && b <= 102 {
        Some(b - 87)
    } else if 65 <= b && b <= 70 {
        Some(b - 55)
    } else {
        None
    }
}

/// The bytes that percent decoding gives: `%` followed by two hex digits
/// becomes the byte they spell, every other byte stays.
pub open spec fn percent_decode_bytes(b: Seq<u8>) -> Seq<u8>
    decreases b.len(),
{
    if b.len() == 0 {
        seq![]
    } else if b.len() >= 3 && b[0] == 37 && hex_value(b[1]) is Some && hex_value(b[2]) is Some {
        seq![(hex_value(b[1])->0 * 16 + hex_value(b[2])->0) as u8] + percent_decode_bytes(
            b.skip(3),
        )
    } else {
        seq![b[0]] + percent_decode_bytes(b.drop_first())
    }
}

/// Percent decoding of `s`: the decoded bytes read as UTF-8, or `s` unchanged
/// where they are not valid UTF-8.
pub open spec fn percent_decode_spec(s: Seq<char>) -> Seq<char> {
    let d = percent_decode_bytes(encode_utf8(s));
    if valid_utf8(d) {
        decode_utf8(d)
    } else {
        s
    }
}

/// The bytes of ASCII characters.
pub open spec fn ascii_bytes(cs: Seq<char>) -> Seq<u8> {
    cs.map_values(|c: char| c as u8)
}

/// Percent encoding yields ASCII characters only.
pub proof fn lemma_percent_encode_ascii(b: Seq<u8>)
    ensures
        is_ascii_chars(percent_encode_spec(b)),
    decreases b.len(),
{
    if b.len() > 0 {
        lemma_percent_encode_ascii(b.drop_first());
        let head = if is_unreserved(b[0]) {
            seq![b[0] as char]
        } else {
            seq!['%', hex_digit_upper(b[0] / 16), hex_digit_upper(b[0] % 16)]
        };
        let e = percent_encode_spec(b);
        let rest = percent_encode_spec(b.drop_first());
        assert(e == head + rest);
        assert forall|i: int| 0 <= i < e.len() implies '\0' <= #[trigger] e[i] <= '\u{7f}' by {
            if i >= head.len() {
                assert(e[i] == rest[i - head.len()]);
            }
        }
    }
}

/// A character that percent encoding may leave in place: `A-Z a-z 0-9 - _ . ~`.
pub open spec fn is_unreserved_char(c: char) -> bool {
    ('A' <= c && c <= 'Z') || ('a' <= c && c <= 'z') || ('0' <= c && c <= '9') || c == '-' || c
        == '_' || c == '.' || c == '~'
}

/// An upper-case hexadecimal digit.
pub open spec fn is_hex_upper(c: char) -> bool {
    ('0' <= c && c <= '9') || ('A' <= c && c <= 'F')
}

/// Percent encoding uses only unreserved characters and `%XX` escapes: every
/// character is unreserved or `%`, and every `%` is followed by two
/// upper-case hexadecimal digits.
pub proof fn lemma_percent_encode_charset(b: Seq<u8>)
    ensures
        forall|i: int|
            0 <= i < percent_encode_spec(b).len() ==> is_unreserved_char(
                #[trigger] percent_encode_spec(b)[i],
            ) || percent_encode_spec(b)[i] == '%',
        forall|i: int|
            0 <= i < percent_encode_spec(b).len() && #[trigger] percent_encode_spec(b)[i] == '%' ==> i
                + 2 < percent_encode_spec(b).len() && is_hex_upper(percent_encode_spec(b)[i + 1])
                && is_hex_upper(percent_encode_spec(b)[i + 2]),
    decreases b.len(),
{
    if b.len() > 0 {
        lemma_percent_encode_charset(b.drop_first());
        let head = if is_unreserved(b[0]) {
            seq![b[0] as char]
        } else {
            seq!['%', hex_digit_upper(b[0] / 16), hex_digit_upper(b[0] % 16)]
        };
        let e = percent_encode_spec(b);
        let rest = percent_encode_spec(b.drop_first());
        assert(e == head + rest);
        let h = head.len() as int;
        assert(is_hex_upper(hex_digit_upper(b[0] / 16)));
        assert(is_hex_upper(hex_digit_upper(b[0] % 16)));
        assert forall|i: int| 0 <= i < e.len() implies is_unreserved_char(#[trigger] e[i]) || e[i]
            == '%' by {
            if i >= h {
                assert(e[i] == rest[i - h]);
            }
        }
        assert forall|i: int| 0 <= i < e.len() && #[trigger] e[i] == '%' implies i + 2 < e.len()
            && is_hex_upper(e[i + 1]) && is_hex_upper(e[i + 2]) by {
            if i >= h {
                assert(e[i] == rest[i - h]);
                assert(rest[i - h] == '%');
                assert(e[i + 1] == rest[i - h + 1]);
                assert(e[i + 2] == rest[i - h + 2]);
            } else if is_unreserved(b[0]) {
                assert(e[i] == b[0] as char);
            }
        }
    }
}

/// The byte a hexadecimal digit stands for is read back by `hex_value`.
pub proof fn lemma_hex_digit_roundtrip(v: u8)
    requires
        v < 16,
    ensures
        hex_value(hex_digit_upper(v) as u8) == Some(v),
{
}

/// Percent decoding undoes percent encoding, byte for byte.
pub proof fn lemma_percent_bytes_roundtrip(b: Seq<u8>)
    ensures
        percent_decode_bytes(ascii_bytes(percent_encode_spec(b))) == b,
    decreases b.len(),
{
    if b.len() > 0 {
        lemma_percent_bytes_roundtrip(b.drop_first());
        let rest = percent_encode_spec(b.drop_first());
        let x = b[0];
        if is_unreserved(x) {
            let e = seq![x as char] + rest;
            assert(percent_encode_spec(b) == e);
            let eb = ascii_bytes(e);
            assert(eb =~= seq![x] + ascii_bytes(rest));
            assert(eb[0] == x);
            assert(eb.drop_first() =~= ascii_bytes(rest));
            assert(percent_decode_bytes(eb) == seq![x] + percent_decode_bytes(ascii_bytes(rest)));
            assert(seq![x] + b.drop_first() =~= b);
        } else {
            let hi = x / 16;
            let lo = x % 16;
            let e = seq!['%', hex_digit_upper(hi), hex_digit_upper(lo)] + rest;
            assert(percent_encode_spec(b) == e);
            let eb = ascii_bytes(e);
            assert(eb =~= seq![37u8, hex_digit_upper(hi) as u8, hex_digit_upper(lo) as u8]
                + ascii_bytes(rest));
            lemma_hex_digit_roundtrip(hi);
            lemma_hex_digit_roundtrip(lo);
            assert(eb[0] == 37 && eb[1] == hex_digit_upper(hi) as u8 && eb[2] == hex_digit_upper(
                lo,
            ) as u8);
            assert(eb.skip(3) =~= ascii_bytes(rest));
            assert((hi * 16 + lo) as u8 == x);
            assert(percent_decode_bytes(eb) == seq![x] + percent_decode_bytes(ascii_bytes(rest)));
            assert(seq![x] + b.drop_first() =~= b);
        }
    }
}

/// Round trip of URL encoding: percent decoding the percent encoding of a
/// text's UTF-8 bytes gives the text back.
pub proof fn lemma_percent_roundtrip(s: Seq<char>)
    ensures
        percent_decode_spec(percent_encode_spec(encode_utf8(s))) == s,
{
    let b = encode_utf8(s);
    let e = percent_encode_spec(b);
    lemma_percent_encode_ascii(b);
    is_ascii_chars_encode_utf8(e);
    assert(encode_utf8(e) =~= ascii_bytes(e));
    lemma_percent_bytes_roundtrip(b);
    encode_utf8_valid_utf8(s);
    encode_utf8_decode_utf8(s);
}

/// `String::from_utf8`: `Ok` exactly when the bytes are valid UTF-8, and then
/// the string that they encode.
#[verifier::external_body]
pub(crate) fn string_from_utf8(bytes: Vec<u8>) -> (r: Option<String>)
    ensures
        r is Some <==> valid_utf8(bytes@),
        r matches Some(s) ==> s@ == decode_utf8(bytes@),
{
    String::from_utf8(bytes).ok()
}

/// Percent-decodes `input` (see `percent_decode_spec`).
pub fn percent_decode(input: &str) -> (r: String)
    ensures
        r@ == percent_decode_spec(input@),
{
    let bytes = input.as_bytes();
    let mut out: Vec<u8> = Vec::new();
    let mut i: usize = 0;
    assert(bytes@.skip(0) =~= bytes@);
    while i < bytes.len()
        invariant
            i <= bytes@.len(),
            percent_decode_bytes(bytes@) == out@ + percent_decode_bytes(bytes@.skip(i as int)),
        decreases bytes@.len() - i,
    {
        let ghost rest = bytes@.skip(i as int);
        let ghost before = out@;
        assert(rest[0] == bytes@[i as int]);
        if bytes[i] == 37 && bytes.len() - i >= 3 {
            let hi = hex_value_exec(bytes[i + 1]);
            let lo = hex_value_exec(bytes[i + 2]);
            assert(rest[1] == bytes@[i + 1]);
            assert(rest[2] == bytes@[i + 2]);
            if let (Some(h), Some(l)) = (hi, lo) {
                out.push(h * 16 + l);
                assert(rest.skip(3) =~= bytes@.skip(i + 3));
                i += 3;
                assert(out@ =~= before + seq![(h * 16 + l) as u8]);
                continue;
            }
        }
        out.push(bytes[i]);
        assert(rest.drop_first() =~= bytes@.skip(i + 1));
        i += 1;
        assert(out@ =~= before + seq![bytes@[i - 1]]);
    }
    assert(bytes@.skip(i as int) =~= Seq::<u8>::empty());
    assert(out@ + Seq::<u8>::empty() =~= out@);
    match string_from_utf8(out) {
        Some(s) => s,
        None => String::from_str(input),
    }
}

// ---------------------------------------------------------------------------
// Identifier-style words
// ---------------------------------------------------------------------------

/// Position `i` of `cs` starts a new word inside a run of letters and digits:
/// a lower-case letter followed by an upper-case one, or the last upper-case
/// letter of an upper-case run that a lower-case letter follows
/// (`myXMLValue` splits as `my`, `XML`, `Value`).
pub open spec fn word_boundary(cs: Seq<char>, i: int) -> bool {
    (char_is_lowercase(cs[i - 1]) && char_is_uppercase(cs[i])) || (char_is_uppercase(cs[i - 1])
        && char_is_uppercase(cs[i]) && i + 1 < cs.len() && char_is_lowercase(cs[i + 1]))
}

/// The words of `cs` from position `i` on, where `cur` is the current word
/// read so far: runs of alphanumeric characters, split further at case
/// boundaries (`word_boundary`).
pub open spec fn split_words_from(cs: Seq<char>, i: int, cur: Seq<char>) -> Seq<Seq<char>>
    decreases cs.len() - i,
{
    if i < 0 || i >= cs.len() {
        if cur.len() > 0 {
            seq![cur]
        } else {
            seq![]
        }
    } else if char_is_alphanumeric(cs[i]) {
        if cur.len() > 0 && word_boundary(cs, i) {
            seq![cur] + split_words_from(cs, i + 1, seq![cs[i]])
        } else {
            split_words_from(cs, i + 1, cur.push(cs[i]))
        }
    } else if cur.len() > 0 {
        seq![cur] + split_words_from(cs, i + 1, seq![])
    } else {
        split_words_from(cs, i + 1, seq![])
    }
}

/// The identifier words of `s` (`"hello world-foo"` gives `hello`, `world`,
/// `foo`; `"myXMLValue"` gives `my`, `XML`, `Value`).
pub open spec fn split_words_spec(s: Seq<char>) -> Seq<Seq<char>> {
    split_words_from(s, 0, seq![])
}

/// The identifier words of `v` (see `split_words_spec`).
pub fn split_words(v: &Vec<char>) -> (r: Vec<Vec<char>>)
    ensures
        r@.map_values(|w: Vec<char>| w@) == split_words_spec(v@),
{
    let mut out: Vec<Vec<char>> = Vec::new();
    let mut cur: Vec<char> = Vec::new();
    let mut i: usize = 0;
    assert(out@.map_values(|w: Vec<char>| w@) =~= Seq::<Seq<char>>::empty());
    while i < v.len()
        invariant
            i <= v.len(),
            cur@.len() > 0 ==> i > 0,
            split_words_spec(v@) == out@.map_values(|w: Vec<char>| w@) + split_words_from(
                v@,
                i as int,
                cur@,
            ),
        decreases v.len() - i,
    {
        let c = v[i];
        let ghost old_out = out@.map_values(|w: Vec<char>| w@);
        let ghost old_cur = cur@;
        if is_alphanumeric(c) {
            let mut boundary = false;
            if cur.len() > 0 {
                let prev = v[i - 1];
                let next_lower = i + 1 < v.len() && is_lowercase(v[i + 1]);
                boundary = (is_lowercase(prev) && is_uppercase(c)) || (is_uppercase(prev)
                    && is_uppercase(c) && next_lower);
            }
            if boundary {
                let ghost w = cur@;
                out.push(cur);
                assert(out@.map_values(|w: Vec<char>| w@) =~= old_out.push(w));
                cur = vec![c];
                assert(cur@ =~= seq![c]);
                assert(old_out + (seq![w] + split_words_from(v@, i + 1, seq![c])) =~= old_out.push(
                    w,
                ) + split_words_from(v@, i + 1, seq![c]));
            } else {
                assert(!(old_cur.len() > 0 && word_boundary(v@, i as int)));
                assert(split_words_from(v@, i as int, old_cur) == split_words_from(
                    v@,
                    i + 1,
                    old_cur.push(c),
                ));
                cur.push(c);
            }
        } else if cur.len() > 0 {
            let ghost w = cur@;
            out.push(cur);
            assert(out@.map_values(|w: Vec<char>| w@) =~= old_out.push(w));
            cur = Vec::new();
            assert(cur@ =~= Seq::<char>::empty());
            assert(old_out + (seq![w] + split_words_from(v@, i + 1, seq![])) =~= old_out.push(w)
                + split_words_from(v@, i + 1, seq![]));
        } else {
            assert(cur@ =~= Seq::<char>::empty());
        }
        i += 1;
    }
    if cur.len() > 0 {
        let ghost old_out = out@.map_values(|w: Vec<char>| w@);
        let ghost w = cur@;
        out.push(cur);
        assert(out@.map_values(|w: Vec<char>| w@) =~= old_out.push(w));
    }
    assert(split_words_spec(v@) =~= out@.map_values(|w: Vec<char>| w@));
    out
}

/// The words lower-cased when `lower` is set.
pub open spec fn maybe_lower(ws: Seq<Seq<char>>, lower: bool) -> Seq<Seq<char>> {
    if lower {
        ws.map_values(|w: Seq<char>| lower_text(w))
    } else {
        ws
    }
}

/// The identifier words of `s` joined by `sep` (lower-cased when `lower`),
/// or `s` itself when it has no words.
pub open spec fn join_words_spec(s: Seq<char>, sep: Seq<char>, lower: bool) -> Seq<char> {
    let ws = split_words_spec(s);
    if ws.len() == 0 {
        s
    } else {
        join(maybe_lower(ws, lower), sep)
    }
}

/// Joins the identifier words of `input` with `sep` (snake_case and
/// kebab-case when lower-cased).
pub fn join_words(input: &str, sep: &str, lower: bool) -> (r: String)
    ensures
        r@ == join_words_spec(input@, sep@, lower),
{
    let v = chars_of(input);
    let ws = split_words(&v);
    if ws.len() == 0 {
        return String::from_str(input);
    }
    let ghost wsv = ws@.map_values(|w: Vec<char>| w@);
    let mut parts: Vec<Vec<char>> = Vec::new();
    let mut i: usize = 0;
    while i < ws.len()
        invariant
            i <= ws.len(),
            wsv == ws@.map_values(|w: Vec<char>| w@),
            parts@.map_values(|w: Vec<char>| w@) == maybe_lower(wsv, lower).take(i as int),
        decreases ws.len() - i,
    {
        let ghost old_parts = parts@.map_values(|w: Vec<char>| w@);
        let w = if lower {
            let s = string_of(&ws[i]);
            let l = to_lowercase(s.as_str());
            chars_of(l.as_str())
        } else {
            slice_chars(&ws[i], 0, ws[i].len())
        };
        assert(w@ =~= maybe_lower(wsv, lower)[i as int]);
        parts.push(w);
        assert(parts@.map_values(|w: Vec<char>| w@) =~= old_parts.push(w@));
        assert(maybe_lower(wsv, lower).take(i + 1) =~= maybe_lower(wsv, lower).take(i as int).push(
            maybe_lower(wsv, lower)[i as int],
        ));
        i += 1;
    }
    assert(maybe_lower(wsv, lower).take(i as int) =~= maybe_lower(wsv, lower));
    let sepv = chars_of(sep);
    let out = join_exec(&parts, &sepv);
    string_of(&out)
}

/// The words after the first one, each capitalized, concatenated.
pub open spec fn capitalized_concat(ws: Seq<Seq<char>>) -> Seq<char>
    decreases ws.len(),
{
    if ws.len() == 0 {
        seq![]
    } else {
        capitalize_spec(ws[0]) + capitalized_concat(ws.drop_first())
    }
}

/// camelCase of `s`: the first word lower-cased, the others capitalized, with
/// nothing between them; `s` itself when it has no words.
pub open spec fn camel_case_spec(s: Seq<char>) -> Seq<char> {
    let ws = split_words_spec(s);
    if ws.len() == 0 {
        s
    } else {
        lower_text(ws[0]) + capitalized_concat(ws.drop_first())
    }
}

/// camelCase of `input` (see `camel_case_spec`).
pub fn camel_case(input: &str) -> (r: String)
    ensures
        r@ == camel_case_spec(input@),
{
    let v = chars_of(input);
    let ws = split_words(&v);
    if ws.len() == 0 {
        return String::from_str(input);
    }
    let ghost wsv = ws@.map_values(|w: Vec<char>| w@);
    let first = string_of(&ws[0]);
    let low = to_lowercase(first.as_str());
    let mut out = chars_of(low.as_str());
    let mut i: usize = 1;
    assert(wsv.drop_first() =~= wsv.skip(1));
    while i < ws.len()
        invariant
            1 <= i <= ws.len(),
            wsv == ws@.map_values(|w: Vec<char>| w@),
            camel_case_spec(v@) == out@ + capitalized_concat(wsv.skip(i as int)),
        decreases ws.len() - i,
    {
        let cap = capitalize(&ws[i]);
        assert(wsv.skip(i as int)[0] == ws@[i as int]@);
        assert(wsv.skip(i as int).drop_first() =~= wsv.skip(i + 1));
        let ghost before = out@;
        extend_chars(&mut out, &cap);
        assert(before + (cap@ + capitalized_concat(wsv.skip(i + 1))) =~= out@ + capitalized_concat(
            wsv.skip(i + 1),
        ));
        i += 1;
    }
    assert(wsv.skip(i as int) =~= Seq::<Seq<char>>::empty());
    assert(out@ + Seq::<char>::empty() =~= out@);
    string_of(&out)
}

} // verus!
