//! Removing tracking parameters (`utm_*`, `gclid`, `fbclid`, ...) from the
//! query strings of URLs in a text.
use vstd::prelude::*;

use crate::lines::views;
use crate::text::{
    char_is_whitespace, chars_eq, chars_of, extend_chars, is_whitespace, join, join_exec,
    slice_chars, starts_with, starts_with_exec, string_of,
};

verus! {

/// ASCII lower case of a character (`char::to_ascii_lowercase`).
pub open spec fn ascii_lower_char(c: char) -> char {
    if 'A' <= c && c <= 'Z' {
        ((c as u32) + 32) as char
    } else {
        c
    }
}

/// ASCII lower case of a string (`str::to_ascii_lowercase`).
pub open spec fn ascii_lower(s: Seq<char>) -> Seq<char> {
    s.map_values(|c: char| ascii_lower_char(c))
}

/// The query parameter names that count as tracking, compared in ASCII lower
/// case: every name that starts with `utm_`, and a fixed list.
pub open spec fn is_tracking_key_spec(key: Seq<char>) -> bool {
    let k = ascii_lower(key);
    starts_with(k, "utm_"@) || k == "gclid"@ || k == "fbclid"@ || k == "mc_eid"@ || k
        == "mc_cid"@ || k == "igshid"@ || k == "_hsenc"@ || k == "_hsmi"@ || k == "yclid"@ || k
        == "msclkid"@ || k == "ref_src"@ || k == "spm"@ || k == "vero_id"@ || k == "oly_anon_id"@
        || k == "oly_enc_id"@ || k == "wickedid"@
}

pub fn ascii_lower_exec(v: &Vec<char>) -> (r: Vec<char>)
    ensures
        r@ == ascii_lower(v@),
{
    let mut out: Vec<char> = Vec::new();
    let mut i: usize = 0;
    while i < v.len()
        invariant
            i <= v.len(),
            out@ == ascii_lower(v@.take(i as int)),
        decreases v.len() - i,
    {
        let c = v[i];
        let d = if 'A' <= c && c <= 'Z' {
            ((c as u8) + 32) as char
        } else {
            c
        };
        assert(d == ascii_lower_char(c));
        out.push(d);
        assert(ascii_lower(v@.take(i + 1)) =~= ascii_lower(v@.take(i as int)).push(
            ascii_lower_char(c),
        ));
        i += 1;
    }
    assert(v@.take(i as int) =~= v@);
    out
}

fn eq_lit(v: &Vec<char>, lit: &str) -> (r: bool)
    ensures
        r == (v@ == lit@),
{
    let l = chars_of(lit);
    chars_eq(v, &l)
}

/// Whether a query parameter name is a tracking parameter (see
/// `is_tracking_key_spec`).
pub fn is_tracking_key(key: &Vec<char>) -> (r: bool)
    ensures
        r == is_tracking_key_spec(key@),
{
    let k = ascii_lower_exec(key);
    let utm = chars_of("utm_");
    starts_with_exec(&k, &utm) || eq_lit(&k, "gclid") || eq_lit(&k, "fbclid") || eq_lit(
        &k,
        "mc_eid",
    ) || eq_lit(&k, "mc_cid") || eq_lit(&k, "igshid") || eq_lit(&k, "_hsenc") || eq_lit(
        &k,
        "_hsmi",
    ) || eq_lit(&k, "yclid") || eq_lit(&k, "msclkid") || eq_lit(&k, "ref_src") || eq_lit(
        &k,
        "spm",
    ) || eq_lit(&k, "vero_id") || eq_lit(&k, "oly_anon_id") || eq_lit(&k, "oly_enc_id")
        || eq_lit(&k, "wickedid")
}

/// The pieces of `s` between occurrences of `sep` (`str::split` on a
/// character), where `cur` is the current piece read so far; there is always
/// at least one piece.
pub open spec fn split_from(cur: Seq<char>, s: Seq<char>, sep: char) -> Seq<Seq<char>>
    decreases s.len(),
{
    if s.len() == 0 {
        seq![cur]
    } else if s[0] == sep {
        seq![cur] + split_from(seq![], s.drop_first(), sep)
    } else {
        split_from(cur.push(s[0]), s.drop_first(), sep)
    }
}

/// The pieces of `s` between occurrences of `sep`.
pub open spec fn split_on(s: Seq<char>, sep: char) -> Seq<Seq<char>> {
    split_from(seq![], s, sep)
}

/// The pieces of `v` between occurrences of `sep`.
pub fn split_on_exec(v: &Vec<char>, sep: char) -> (r: Vec<Vec<char>>)
    ensures
        views(r@) == split_on(v@, sep),
{
    let mut out: Vec<Vec<char>> = Vec::new();
    let mut cur: Vec<char> = Vec::new();
    let mut i: usize = 0;
    assert(v@.skip(0) =~= v@);
    assert(views(out@) =~= Seq::<Seq<char>>::empty());
    while i < v.len()
        invariant
            i <= v.len(),
            split_on(v@, sep) == views(out@) + split_from(cur@, v@.skip(i as int), sep),
        decreases v.len() - i,
    {
        let c = v[i];
        assert(v@.skip(i as int)[0] == c);
        assert(v@.skip(i as int).drop_first() =~= v@.skip(i + 1));
        if c == sep {
            let ghost b = views(out@);
            let ghost w = cur@;
            out.push(cur);
            assert(views(out@) =~= b.push(w));
            cur = Vec::new();
            assert(cur@ =~= Seq::<char>::empty());
            assert(b + (seq![w] + split_from(seq![], v@.skip(i + 1), sep)) =~= b.push(w)
                + split_from(seq![], v@.skip(i + 1), sep));
        } else {
            cur.push(c);
        }
        i += 1;
    }
    let ghost b = views(out@);
    let ghost w = cur@;
    out.push(cur);
    assert(views(out@) =~= b.push(w));
    assert(split_on(v@, sep) =~= views(out@));
    out
}

/// The name of a `name=value` query pair: the part before the first `=`.
pub open spec fn pair_key(pair: Seq<char>) -> Seq<char> {
    split_on(pair, '=')[0]
}

/// The pairs of a query that stay: non-empty and not tracking.
pub open spec fn kept_pairs(pairs: Seq<Seq<char>>) -> Seq<Seq<char>>
    decreases pairs.len(),
{
    if pairs.len() == 0 {
        seq![]
    } else if pairs[0].len() == 0 || is_tracking_key_spec(pair_key(pairs[0])) {
        kept_pairs(pairs.drop_first())
    } else {
        seq![pairs[0]] + kept_pairs(pairs.drop_first())
    }
}

/// The documented tracking parameter names besides the `utm_` family.
pub open spec fn documented_tracking_names() -> Set<Seq<char>> {
    set![
        "gclid"@,
        "fbclid"@,
        "mc_eid"@,
        "mc_cid"@,
        "igshid"@,
        "_hsenc"@,
        "_hsmi"@,
        "yclid"@,
        "msclkid"@,
        "ref_src"@,
        "spm"@,
        "vero_id"@,
        "oly_anon_id"@,
        "oly_enc_id"@,
        "wickedid"@,
    ]
}

/// Every documented tracking name, and every name of the `utm_` family,
/// counts as tracking, in any ASCII case.
pub proof fn lemma_documented_names_are_tracking(key: Seq<char>)
    requires
        starts_with(ascii_lower(key), "utm_"@) || documented_tracking_names().contains(
            ascii_lower(key),
        ),
    ensures
        is_tracking_key_spec(key),
{
}

/// The pairs kept from a query are pairs of the query, in order, none of
/// them empty and none with a tracking name: so no parameter with a
/// documented tracking name survives.
pub proof fn lemma_kept_pairs(pairs: Seq<Seq<char>>)
    ensures
        forall|p: Seq<char>| #[trigger] kept_pairs(pairs).contains(p) ==> pairs.contains(p) && p.len()
            > 0 && !is_tracking_key_spec(pair_key(p)),
        forall|p: Seq<char>|
            #[trigger] kept_pairs(pairs).contains(p) ==> !starts_with(ascii_lower(pair_key(p)), "utm_"@)
                && !documented_tracking_names().contains(ascii_lower(pair_key(p))),
    decreases pairs.len(),
{
    if pairs.len() > 0 {
        let t = pairs.drop_first();
        lemma_kept_pairs(t);
        let kp = kept_pairs(pairs);
        assert forall|p: Seq<char>| #[trigger] kp.contains(p) implies pairs.contains(p) && p.len() > 0
            && !is_tracking_key_spec(pair_key(p)) by {
            let j = choose|j: int| 0 <= j < kp.len() && kp[j] == p;
            if pairs[0].len() == 0 || is_tracking_key_spec(pair_key(pairs[0])) {
                assert(kept_pairs(t).contains(p));
                let m = choose|m: int| 0 <= m < t.len() && t[m] == p;
                assert(pairs[m + 1] == p);
            } else if j == 0 {
                assert(p == pairs[0]);
            } else {
                assert(kp[j] == kept_pairs(t)[j - 1]);
                assert(kept_pairs(t).contains(p));
                let m = choose|m: int| 0 <= m < t.len() && t[m] == p;
                assert(pairs[m + 1] == p);
            }
        }
        assert forall|p: Seq<char>| #[trigger] kp.contains(p) implies !starts_with(
            ascii_lower(pair_key(p)),
            "utm_"@,
        ) && !documented_tracking_names().contains(ascii_lower(pair_key(p))) by {
            assert(!is_tracking_key_spec(pair_key(p)));
            if starts_with(ascii_lower(pair_key(p)), "utm_"@) || documented_tracking_names().contains(
                ascii_lower(pair_key(p)),
            ) {
                lemma_documented_names_are_tracking(pair_key(p));
            }
        }
    }
}

/// What a query string (the part after `?`) becomes: `?` and the kept pairs
/// joined by `&`, or nothing when no pair is kept.
pub open spec fn rewrite_query(q: Seq<char>) -> Seq<char> {
    let kept = kept_pairs(split_on(q, '&'));
    if kept.len() == 0 {
        seq![]
    } else {
        seq!['?'] + join(kept, seq!['&'])
    }
}

/// The length of the query string at the start of `s`: the characters before
/// the first `#` or whitespace.
pub open spec fn query_len(s: Seq<char>) -> nat
    decreases s.len(),
{
    if s.len() == 0 || s[0] == '#' || char_is_whitespace(s[0]) {
        0
    } else {
        1 + query_len(s.drop_first())
    }
}

/// `s` with every query string (a `?` and the characters after it up to `#`,
/// whitespace or the end) rewritten by `rewrite_query`, scanning from the left.
pub open spec fn strip_tracking_spec(s: Seq<char>) -> Seq<char>
    decreases s.len(),
{
    if s.len() == 0 {
        seq![]
    } else if s[0] == '?' {
        let n = query_len(s.drop_first()) as int;
        proof {
            lemma_query_len(s.drop_first());
        }
        rewrite_query(s.subrange(1, 1 + n)) + strip_tracking_spec(s.skip(1 + n))
    } else {
        seq![s[0]] + strip_tracking_spec(s.drop_first())
    }
}

pub proof fn lemma_query_len(s: Seq<char>)
    ensures
        query_len(s) <= s.len(),
        forall|j: int| 0 <= j < query_len(s) ==> s[j] != '#' && !char_is_whitespace(#[trigger] s[j]),
        query_len(s) < s.len() ==> (s[query_len(s) as int] == '#' || char_is_whitespace(
            s[query_len(s) as int],
        )),
    decreases s.len(),
{
    if s.len() > 0 && s[0] != '#' && !char_is_whitespace(s[0]) {
        lemma_query_len(s.drop_first());
        assert forall|j: int| 0 <= j < query_len(s) implies s[j] != '#' && !char_is_whitespace(
            #[trigger] s[j],
        ) by {
            if j > 0 {
                assert(s[j] == s.drop_first()[j - 1]);
            }
        }
    }
}

proof fn lemma_query_len_run(s: Seq<char>, n: int)
    requires
        0 <= n <= s.len(),
        forall|j: int| 0 <= j < n ==> s[j] != '#' && !char_is_whitespace(#[trigger] s[j]),
        n < s.len() ==> (s[n] == '#' || char_is_whitespace(s[n])),
    ensures
        query_len(s) == n,
    decreases n,
{
    if n > 0 {
        let t = s.drop_first();
        assert forall|j: int| 0 <= j < n - 1 implies t[j] != '#' && !char_is_whitespace(
            #[trigger] t[j],
        ) by {
            assert(t[j] == s[j + 1]);
        }
        if n - 1 < t.len() {
            assert(t[n - 1] == s[n]);
        }
        lemma_query_len_run(t, n - 1);
    }
}

/// The name of a query pair (the part before the first `=`).
fn pair_key_exec(pair: &Vec<char>) -> (r: Vec<char>)
    ensures
        r@ == pair_key(pair@),
{
    let parts = split_on_exec(pair, '=');
    proof {
        lemma_split_nonempty(seq![], pair@, '=');
    }
    assert(views(parts@)[0] == parts@[0]@);
    slice_chars(&parts[0], 0, parts[0].len())
}

proof fn lemma_split_nonempty(cur: Seq<char>, s: Seq<char>, sep: char)
    ensures
        split_from(cur, s, sep).len() > 0,
    decreases s.len(),
{
    if s.len() > 0 && s[0] != sep {
        lemma_split_nonempty(cur.push(s[0]), s.drop_first(), sep);
    }
}

/// The rewritten query string (see `rewrite_query`).
fn rewrite_query_exec(q: &Vec<char>) -> (r: Vec<char>)
    ensures
        r@ == rewrite_query(q@),
{
    let pairs = split_on_exec(q, '&');
    let ghost pv = views(pairs@);
    let mut kept: Vec<Vec<char>> = Vec::new();
    let mut i: usize = 0;
    assert(pv.skip(0) =~= pv);
    assert(views(kept@) =~= Seq::<Seq<char>>::empty());
    while i < pairs.len()
        invariant
            i <= pairs.len(),
            pv == views(pairs@),
            kept_pairs(pv) == views(kept@) + kept_pairs(pv.skip(i as int)),
        decreases pairs.len() - i,
    {
        assert(pv.skip(i as int)[0] == pairs@[i as int]@);
        assert(pv.skip(i as int).drop_first() =~= pv.skip(i + 1));
        if pairs[i].len() > 0 {
            let key = pair_key_exec(&pairs[i]);
            if !is_tracking_key(&key) {
                let ghost b = views(kept@);
                let p = slice_chars(&pairs[i], 0, pairs[i].len());
                assert(p@ =~= pairs@[i as int]@);
                kept.push(p);
                assert(views(kept@) =~= b.push(p@));
                assert(b + (seq![p@] + kept_pairs(pv.skip(i + 1))) =~= b.push(p@) + kept_pairs(
                    pv.skip(i + 1),
                ));
            }
        }
        i += 1;
    }
    assert(pv.skip(i as int) =~= Seq::<Seq<char>>::empty());
    assert(views(kept@) + Seq::<Seq<char>>::empty() =~= views(kept@));
    if kept.len() == 0 {
        Vec::new()
    } else {
        let amp = vec!['&'];
        assert(amp@ =~= seq!['&']);
        let body = join_exec(&kept, &amp);
        let mut out = vec!['?'];
        extend_chars(&mut out, &body);
        assert(out@ =~= seq!['?'] + body@);
        out
    }
}

/// Removes tracking parameters from every query string in `input` (see
/// `strip_tracking_spec`).
pub fn strip_tracking(input: &str) -> (r: String)
    ensures
        r@ == strip_tracking_spec(input@),
{
    let v = chars_of(input);
    let mut out: Vec<char> = Vec::new();
    let mut i: usize = 0;
    assert(v@.skip(0) =~= v@);
    while i < v.len()
        invariant
            i <= v.len(),
            strip_tracking_spec(v@) == out@ + strip_tracking_spec(v@.skip(i as int)),
        decreases v.len() - i,
    {
        let ghost rest = v@.skip(i as int);
        let ghost before = out@;
        assert(rest[0] == v@[i as int]);
        if v[i] == '?' {
            let mut e = i + 1;
            while e < v.len() && v[e] != '#' && !is_whitespace(v[e])
                invariant
                    i + 1 <= e <= v.len(),
                    forall|j: int| i + 1 <= j < e ==> v@[j] != '#' && !char_is_whitespace(
                        #[trigger] v@[j],
                    ),
                decreases v.len() - e,
            {
                e += 1;
            }
            proof {
                let t = rest.drop_first();
                assert forall|j: int| 0 <= j < e - i - 1 implies t[j] != '#' && !char_is_whitespace(
                    #[trigger] t[j],
                ) by {
                    assert(t[j] == v@[i + 1 + j]);
                }
                if e < v.len() {
                    assert(t[e - i - 1] == v@[e as int]);
                }
                lemma_query_len_run(t, e - i - 1);
                assert(rest.subrange(1, 1 + (e - i - 1)) =~= v@.subrange(i + 1, e as int));
                assert(rest.skip(1 + (e - i - 1)) =~= v@.skip(e as int));
            }
            let q = slice_chars(&v, i + 1, e);
            let rq = rewrite_query_exec(&q);
            extend_chars(&mut out, &rq);
            i = e;
            assert(before + (rq@ + strip_tracking_spec(v@.skip(i as int))) =~= out@
                + strip_tracking_spec(v@.skip(i as int)));
        } else {
            assert(rest.drop_first() =~= v@.skip(i + 1));
            out.push(v[i]);
            i += 1;
            assert(before + (seq![v@[i - 1]] + strip_tracking_spec(v@.skip(i as int))) =~= out@
                + strip_tracking_spec(v@.skip(i as int)));
        }
    }
    assert(v@.skip(i as int) =~= Seq::<char>::empty());
    assert(out@ + Seq::<char>::empty() =~= out@);
    string_of(&out)
}

} // verus!
