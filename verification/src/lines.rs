//! Line-wise transforms: sorting, de-duplicating, dropping blank lines,
//! reversing and trimming. Each splits its input with `lines` and joins the
//! result with `\n`.
use vstd::prelude::*;

use crate::text::{
    chars_eq, chars_of, join, join_exec, lines, lines_exec, string_of, trim, trim_chars,
};

verus! {

/// The `Seq` views of a vector of character vectors.
pub open spec fn views(v: Seq<Vec<char>>) -> Seq<Seq<char>> {
    v.map_values(|l: Vec<char>| l@)
}

/// The text `ls` joined by newlines.
pub open spec fn unlines(ls: Seq<Seq<char>>) -> Seq<char> {
    join(ls, seq!['\n'])
}

fn unlines_exec(ls: &Vec<Vec<char>>) -> (r: String)
    ensures
        r@ == unlines(views(ls@)),
{
    let nl = vec!['\n'];
    assert(nl@ =~= seq!['\n']);
    let out = join_exec(ls, &nl);
    string_of(&out)
}

fn lines_of_str(input: &str) -> (r: Vec<Vec<char>>)
    ensures
        views(r@) == lines(input@),
{
    let v = chars_of(input);
    lines_exec(&v)
}

proof fn lemma_views_push(v: Seq<Vec<char>>, x: Vec<char>)
    ensures
        views(v.push(x)) == views(v).push(x@),
{
    assert(views(v.push(x)) =~= views(v).push(x@));
}

// ---------------------------------------------------------------------------
// Sorting
// ---------------------------------------------------------------------------

/// Lexicographic order on character sequences by code point, which is the
/// order of `str` (byte-wise on UTF-8, which keeps code point order).
pub open spec fn lex_le(a: Seq<char>, b: Seq<char>) -> bool
    decreases a.len(),
{
    if a.len() == 0 {
        true
    } else if b.len() == 0 {
        false
    } else if a[0] != b[0] {
        (a[0] as u32) < (b[0] as u32)
    } else {
        lex_le(a.drop_first(), b.drop_first())
    }
}

/// `x` inserted into `t` before the first element that it does not exceed.
pub open spec fn insert_sorted(x: Seq<char>, t: Seq<Seq<char>>) -> Seq<Seq<char>>
    decreases t.len(),
{
    if t.len() == 0 {
        seq![x]
    } else if lex_le(x, t[0]) {
        seq![x] + t
    } else {
        seq![t[0]] + insert_sorted(x, t.drop_first())
    }
}

/// The elements of `s` in ascending lexicographic order.
pub open spec fn sort_spec(s: Seq<Seq<char>>) -> Seq<Seq<char>>
    decreases s.len(),
{
    if s.len() == 0 {
        seq![]
    } else {
        insert_sorted(s.last(), sort_spec(s.drop_last()))
    }
}

/// Whether `a` comes before or equals `b` in lexicographic order.
pub fn lex_le_exec(a: &Vec<char>, b: &Vec<char>) -> (r: bool)
    ensures
        r == lex_le(a@, b@),
{
    let mut i: usize = 0;
    assert(a@.skip(0) =~= a@);
    assert(b@.skip(0) =~= b@);
    while i < a.len() && i < b.len() && a[i] == b[i]
        invariant
            i <= a.len(),
            i <= b.len(),
            lex_le(a@, b@) == lex_le(a@.skip(i as int), b@.skip(i as int)),
        decreases a.len() - i,
    {
        assert(a@.skip(i as int).drop_first() =~= a@.skip(i + 1));
        assert(b@.skip(i as int).drop_first() =~= b@.skip(i + 1));
        i += 1;
    }
    if i == a.len() {
        true
    } else if i == b.len() {
        false
    } else {
        assert(a@.skip(i as int)[0] == a@[i as int]);
        assert(b@.skip(i as int)[0] == b@[i as int]);
        (a[i] as u32) < (b[i] as u32)
    }
}

proof fn lemma_insert_sorted_at(x: Seq<char>, t: Seq<Seq<char>>, p: int)
    requires
        0 <= p <= t.len(),
        forall|j: int| 0 <= j < p ==> !lex_le(x, #[trigger] t[j]),
        p < t.len() ==> lex_le(x, t[p]),
    ensures
        insert_sorted(x, t) == t.take(p) + seq![x] + t.skip(p),
    decreases p,
{
    if p == 0 {
        assert(t.take(0) + seq![x] + t.skip(0) =~= seq![x] + t);
    } else {
        let t1 = t.drop_first();
        assert forall|j: int| 0 <= j < p - 1 implies !lex_le(x, #[trigger] t1[j]) by {
            assert(t1[j] == t[j + 1]);
        }
        if p < t.len() {
            assert(t1[p - 1] == t[p]);
        }
        lemma_insert_sorted_at(x, t1, p - 1);
        assert(seq![t[0]] + (t1.take(p - 1) + seq![x] + t1.skip(p - 1)) =~= t.take(p) + seq![x]
            + t.skip(p));
    }
}

/// The lines sorted in ascending lexicographic order (insertion sort).
fn sort_lines_vec(ls: Vec<Vec<char>>) -> (r: Vec<Vec<char>>)
    ensures
        views(r@) == sort_spec(views(ls@)),
{
    let ghost lv = views(ls@);
    let mut out: Vec<Vec<char>> = Vec::new();
    let mut i: usize = 0;
    assert(views(out@) =~= Seq::<Seq<char>>::empty());
    assert(lv.take(0) =~= Seq::<Seq<char>>::empty());
    while i < ls.len()
        invariant
            i <= ls.len(),
            lv == views(ls@),
            views(out@) == sort_spec(lv.take(i as int)),
        decreases ls.len() - i,
    {
        let x = slice_all(&ls[i]);
        let mut p: usize = 0;
        while p < out.len() && !lex_le_exec(&x, &out[p])
            invariant
                p <= out.len(),
                forall|j: int| 0 <= j < p ==> !lex_le(x@, #[trigger] views(out@)[j]),
            decreases out.len() - p,
        {
            p += 1;
        }
        proof {
            lemma_insert_sorted_at(x@, views(out@), p as int);
            assert(lv.take(i + 1).drop_last() =~= lv.take(i as int));
            assert(lv.take(i + 1).last() == x@);
        }
        let ghost before = views(out@);
        out.insert(p, x);
        assert(views(out@) =~= before.take(p as int) + seq![x@] + before.skip(p as int));
        i += 1;
    }
    assert(lv.take(i as int) =~= lv);
    out
}

fn slice_all(v: &Vec<char>) -> (r: Vec<char>)
    ensures
        r@ == v@,
{
    let mut out: Vec<char> = Vec::new();
    let mut i: usize = 0;
    while i < v.len()
        invariant
            i <= v.len(),
            out@ == v@.take(i as int),
        decreases v.len() - i,
    {
        out.push(v[i]);
        assert(v@.take(i + 1) =~= v@.take(i as int).push(v@[i as int]));
        i += 1;
    }
    assert(v@.take(i as int) =~= v@);
    out
}

/// Each element is not after the next one.
pub open spec fn sorted_lines(s: Seq<Seq<char>>) -> bool {
    forall|i: int| 0 <= i < s.len() - 1 ==> lex_le(#[trigger] s[i], s[i + 1])
}

/// Any two sequences are ordered one way or the other.
pub proof fn lemma_lex_le_total(a: Seq<char>, b: Seq<char>)
    ensures
        lex_le(a, b) || lex_le(b, a),
    decreases a.len(),
{
    if a.len() > 0 && b.len() > 0 {
        if a[0] == b[0] {
            lemma_lex_le_total(a.drop_first(), b.drop_first());
        } else {
            vstd::utf8::char_u32_cast(a[0], a[0] as u32);
            vstd::utf8::char_u32_cast(b[0], b[0] as u32);
        }
    }
}

/// Inserting into a sorted sequence keeps it sorted and adds exactly the
/// element.
pub proof fn lemma_insert_sorted(x: Seq<char>, t: Seq<Seq<char>>)
    requires
        sorted_lines(t),
    ensures
        sorted_lines(insert_sorted(x, t)),
        insert_sorted(x, t).to_multiset() == t.to_multiset().insert(x),
        insert_sorted(x, t).len() == t.len() + 1,
        t.len() > 0 ==> (insert_sorted(x, t)[0] == x || insert_sorted(x, t)[0] == t[0]),
    decreases t.len(),
{
    broadcast use vstd::seq_lib::group_to_multiset_ensures, vstd::seq_lib::lemma_multiset_commutative;

    let r = insert_sorted(x, t);
    if t.len() == 0 {
        assert(r =~= seq![x]);
        assert(seq![x] =~= Seq::<Seq<char>>::empty().push(x));
    } else if lex_le(x, t[0]) {
        assert(r == seq![x] + t);
        assert forall|i: int| 0 <= i < r.len() - 1 implies lex_le(#[trigger] r[i], r[i + 1]) by {
            if i > 0 {
                assert(r[i] == t[i - 1] && r[i + 1] == t[i]);
            }
        }
        assert(seq![x] =~= Seq::<Seq<char>>::empty().push(x));
        assert((seq![x] + t).to_multiset() =~= seq![x].to_multiset().add(t.to_multiset()));
    } else {
        let t1 = t.drop_first();
        assert(sorted_lines(t1)) by {
            assert forall|i: int| 0 <= i < t1.len() - 1 implies lex_le(#[trigger] t1[i], t1[i + 1]) by {
                assert(t1[i] == t[i + 1] && t1[i + 1] == t[i + 2]);
            }
        }
        lemma_insert_sorted(x, t1);
        let r1 = insert_sorted(x, t1);
        assert(r == seq![t[0]] + r1);
        lemma_lex_le_total(x, t[0]);
        assert forall|i: int| 0 <= i < r.len() - 1 implies lex_le(#[trigger] r[i], r[i + 1]) by {
            if i == 0 {
                assert(r[0] == t[0] && r[1] == r1[0]);
                if t1.len() > 0 {
                    assert(t[1] == t1[0]);
                }
            } else {
                assert(r[i] == r1[i - 1] && r[i + 1] == r1[i]);
            }
        }
        assert(seq![t[0]] =~= Seq::<Seq<char>>::empty().push(t[0]));
        assert((seq![t[0]] + r1).to_multiset() =~= seq![t[0]].to_multiset().add(r1.to_multiset()));
        assert(t =~= seq![t[0]] + t1);
        assert((seq![t[0]] + t1).to_multiset() =~= seq![t[0]].to_multiset().add(t1.to_multiset()));
    }
}

/// Sorting law: sorted lines are in order and are the same lines, each as
/// often as before.
pub proof fn lemma_sort_spec(s: Seq<Seq<char>>)
    ensures
        sorted_lines(sort_spec(s)),
        sort_spec(s).to_multiset() == s.to_multiset(),
    decreases s.len(),
{
    broadcast use vstd::seq_lib::group_to_multiset_ensures;

    if s.len() == 0 {
        assert(sort_spec(s) =~= s);
    } else {
        lemma_sort_spec(s.drop_last());
        lemma_insert_sorted(s.last(), sort_spec(s.drop_last()));
        assert(s.drop_last().push(s.last()) =~= s);
    }
}

/// The lines of `s` sorted.
pub open spec fn sort_lines_spec(s: Seq<char>) -> Seq<char> {
    unlines(sort_spec(lines(s)))
}

/// Sorts the lines of `input`.
pub fn sort_lines(input: &str) -> (r: String)
    ensures
        r@ == sort_lines_spec(input@),
{
    let ls = lines_of_str(input);
    let sorted = sort_lines_vec(ls);
    unlines_exec(&sorted)
}

// ---------------------------------------------------------------------------
// De-duplicating
// ---------------------------------------------------------------------------

/// The lines of `ls` that are neither in `seen` nor earlier in `ls`.
pub open spec fn dedupe_from(seen: Seq<Seq<char>>, ls: Seq<Seq<char>>) -> Seq<Seq<char>>
    decreases ls.len(),
{
    if ls.len() == 0 {
        seq![]
    } else if seen.contains(ls[0]) {
        dedupe_from(seen, ls.drop_first())
    } else {
        seq![ls[0]] + dedupe_from(seen.push(ls[0]), ls.drop_first())
    }
}

/// De-duplicating law: the kept lines are pairwise distinct, and a line is
/// kept exactly when it occurs in `ls` and is not in `seen`.
pub proof fn lemma_dedupe_from(seen: Seq<Seq<char>>, ls: Seq<Seq<char>>)
    ensures
        forall|i: int, j: int|
            0 <= i < j < dedupe_from(seen, ls).len() ==> #[trigger] dedupe_from(seen, ls)[i]
                != #[trigger] dedupe_from(seen, ls)[j],
        forall|x: Seq<char>|
            #[trigger] dedupe_from(seen, ls).contains(x) <==> (ls.contains(x) && !seen.contains(x)),
    decreases ls.len(),
{
    if ls.len() == 0 {
        assert(dedupe_from(seen, ls) =~= Seq::<Seq<char>>::empty());
    } else {
        let rest = ls.drop_first();
        let x0 = ls[0];
        assert forall|x: Seq<char>| #[trigger] ls.contains(x) <==> (x == x0 || rest.contains(x)) by {
            if ls.contains(x) {
                let k = choose|k: int| 0 <= k < ls.len() && ls[k] == x;
                if k > 0 {
                    assert(rest[k - 1] == x);
                }
            }
            if rest.contains(x) {
                let k = choose|k: int| 0 <= k < rest.len() && rest[k] == x;
                assert(ls[k + 1] == x);
            }
            if x == x0 {
                assert(ls[0] == x);
            }
        }
        if seen.contains(x0) {
            lemma_dedupe_from(seen, rest);
            assert(dedupe_from(seen, ls) == dedupe_from(seen, rest));
            assert forall|x: Seq<char>| #[trigger] dedupe_from(seen, ls).contains(x) <==> (ls.contains(
                x,
            ) && !seen.contains(x)) by {
                assert(dedupe_from(seen, rest).contains(x) <==> (rest.contains(x) && !seen.contains(
                    x,
                )));
                assert(ls.contains(x) <==> (x == x0 || rest.contains(x)));
            }
        } else {
            let seen2 = seen.push(x0);
            lemma_dedupe_from(seen2, rest);
            let r1 = dedupe_from(seen2, rest);
            let r = dedupe_from(seen, ls);
            assert(r == seq![x0] + r1);
            assert(seen2.contains(x0)) by {
                assert(seen2[seen.len() as int] == x0);
            }
            assert forall|x: Seq<char>| #[trigger] seen2.contains(x) <==> (seen.contains(x) || x == x0) by {
                if seen2.contains(x) {
                    let k = choose|k: int| 0 <= k < seen2.len() && seen2[k] == x;
                    if k < seen.len() {
                        assert(seen[k] == x);
                    }
                }
                if seen.contains(x) {
                    let k = choose|k: int| 0 <= k < seen.len() && seen[k] == x;
                    assert(seen2[k] == x);
                }
            }
            assert forall|i: int, j: int| 0 <= i < j < r.len() implies #[trigger] r[i] != #[trigger] r[j] by {
                if i == 0 {
                    assert(r[j] == r1[j - 1]);
                    assert(r1.contains(r1[j - 1]));
                } else {
                    assert(r[i] == r1[i - 1] && r[j] == r1[j - 1]);
                }
            }
            assert forall|x: Seq<char>| #[trigger] r.contains(x) <==> (ls.contains(x) && !seen.contains(x)) by {
                if r.contains(x) {
                    let k = choose|k: int| 0 <= k < r.len() && r[k] == x;
                    if k > 0 {
                        assert(r1[k - 1] == x);
                        assert(r1.contains(x));
                    }
                }
                if x == x0 {
                    assert(r[0] == x);
                } else if r1.contains(x) {
                    let k = choose|k: int| 0 <= k < r1.len() && r1[k] == x;
                    assert(r[k + 1] == x);
                }
            }
        }
    }
}

/// The lines of `s`, each kept only at its first occurrence.
pub open spec fn dedupe_lines_spec(s: Seq<char>) -> Seq<char> {
    unlines(dedupe_from(seq![], lines(s)))
}

fn contains_line(seen: &Vec<Vec<char>>, l: &Vec<char>) -> (r: bool)
    ensures
        r == views(seen@).contains(l@),
{
    let mut i: usize = 0;
    while i < seen.len()
        invariant
            i <= seen.len(),
            forall|j: int| 0 <= j < i ==> views(seen@)[j] != l@,
        decreases seen.len() - i,
    {
        if chars_eq(&seen[i], l) {
            assert(views(seen@)[i as int] == l@);
            return true;
        }
        i += 1;
    }
    false
}

/// Keeps each line of `input` only at its first occurrence.
pub fn dedupe_lines(input: &str) -> (r: String)
    ensures
        r@ == dedupe_lines_spec(input@),
{
    let ls = lines_of_str(input);
    let ghost lv = views(ls@);
    let mut seen: Vec<Vec<char>> = Vec::new();
    let mut out: Vec<Vec<char>> = Vec::new();
    let mut i: usize = 0;
    assert(lv.skip(0) =~= lv);
    assert(views(seen@) =~= Seq::<Seq<char>>::empty());
    assert(views(out@) =~= Seq::<Seq<char>>::empty());
    while i < ls.len()
        invariant
            i <= ls.len(),
            lv == views(ls@),
            dedupe_from(seq![], lv) == views(out@) + dedupe_from(views(seen@), lv.skip(i as int)),
        decreases ls.len() - i,
    {
        assert(lv.skip(i as int)[0] == ls@[i as int]@);
        assert(lv.skip(i as int).drop_first() =~= lv.skip(i + 1));
        if !contains_line(&seen, &ls[i]) {
            let ghost before = views(out@);
            let ghost seen_before = views(seen@);
            let a = slice_all(&ls[i]);
            let b = slice_all(&ls[i]);
            out.push(a);
            seen.push(b);
            proof {
                lemma_views_push(out@.drop_last(), a);
                assert(views(out@) =~= before.push(a@));
                assert(views(seen@) =~= seen_before.push(b@));
                assert(before + (seq![a@] + dedupe_from(seen_before.push(a@), lv.skip(i + 1)))
                    =~= before.push(a@) + dedupe_from(seen_before.push(a@), lv.skip(i + 1)));
            }
        }
        i += 1;
    }
    assert(lv.skip(i as int) =~= Seq::<Seq<char>>::empty());
    assert(views(out@) + Seq::<Seq<char>>::empty() =~= views(out@));
    unlines_exec(&out)
}

// ---------------------------------------------------------------------------
// Blank lines, reversing, trimming
// ---------------------------------------------------------------------------

/// The lines of `ls` that hold something besides whitespace.
pub open spec fn nonblank(ls: Seq<Seq<char>>) -> Seq<Seq<char>>
    decreases ls.len(),
{
    if ls.len() == 0 {
        seq![]
    } else if trim(ls[0]).len() == 0 {
        nonblank(ls.drop_first())
    } else {
        seq![ls[0]] + nonblank(ls.drop_first())
    }
}

/// `s` without its blank lines.
pub open spec fn remove_empty_lines_spec(s: Seq<char>) -> Seq<char> {
    unlines(nonblank(lines(s)))
}

/// Drops the blank lines of `input`.
pub fn remove_empty_lines(input: &str) -> (r: String)
    ensures
        r@ == remove_empty_lines_spec(input@),
{
    let ls = lines_of_str(input);
    let ghost lv = views(ls@);
    let mut out: Vec<Vec<char>> = Vec::new();
    let mut i: usize = 0;
    assert(lv.skip(0) =~= lv);
    assert(views(out@) =~= Seq::<Seq<char>>::empty());
    while i < ls.len()
        invariant
            i <= ls.len(),
            lv == views(ls@),
            nonblank(lv) == views(out@) + nonblank(lv.skip(i as int)),
        decreases ls.len() - i,
    {
        assert(lv.skip(i as int)[0] == ls@[i as int]@);
        assert(lv.skip(i as int).drop_first() =~= lv.skip(i + 1));
        let t = trim_chars(&ls[i]);
        if t.len() > 0 {
            let ghost before = views(out@);
            let a = slice_all(&ls[i]);
            out.push(a);
            assert(views(out@) =~= before.push(a@));
            assert(before + (seq![a@] + nonblank(lv.skip(i + 1))) =~= before.push(a@) + nonblank(
                lv.skip(i + 1),
            ));
        }
        i += 1;
    }
    assert(lv.skip(i as int) =~= Seq::<Seq<char>>::empty());
    assert(views(out@) + Seq::<Seq<char>>::empty() =~= views(out@));
    unlines_exec(&out)
}

/// The lines of `s` in reverse order.
pub open spec fn reverse_lines_spec(s: Seq<char>) -> Seq<char> {
    unlines(lines(s).reverse())
}

/// Reverses the order of the lines of `input`.
pub fn reverse_lines(input: &str) -> (r: String)
    ensures
        r@ == reverse_lines_spec(input@),
{
    let ls = lines_of_str(input);
    let ghost lv = views(ls@);
    let mut out: Vec<Vec<char>> = Vec::new();
    let mut i: usize = ls.len();
    assert(views(out@) =~= Seq::<Seq<char>>::empty());
    while i > 0
        invariant
            i <= ls.len(),
            lv == views(ls@),
            views(out@) == lv.skip(i as int).reverse(),
        decreases i,
    {
        let ghost before = views(out@);
        let a = slice_all(&ls[i - 1]);
        out.push(a);
        assert(views(out@) =~= before.push(a@));
        assert(lv.skip(i - 1).reverse() =~= lv.skip(i as int).reverse().push(lv[i - 1]));
        i -= 1;
    }
    assert(lv.skip(0) =~= lv);
    unlines_exec(&out)
}

/// Every line of `s` trimmed.
pub open spec fn trim_lines_spec(s: Seq<char>) -> Seq<char> {
    unlines(lines(s).map_values(|l: Seq<char>| trim(l)))
}

/// Trims every line of `input`.
pub fn trim_lines(input: &str) -> (r: String)
    ensures
        r@ == trim_lines_spec(input@),
{
    let ls = lines_of_str(input);
    let ghost lv = views(ls@);
    let mut out: Vec<Vec<char>> = Vec::new();
    let mut i: usize = 0;
    assert(views(out@) =~= Seq::<Seq<char>>::empty());
    while i < ls.len()
        invariant
            i <= ls.len(),
            lv == views(ls@),
            views(out@) == lv.take(i as int).map_values(|l: Seq<char>| trim(l)),
        decreases ls.len() - i,
    {
        let ghost before = views(out@);
        let t = trim_chars(&ls[i]);
        out.push(t);
        assert(views(out@) =~= before.push(t@));
        assert(lv.take(i + 1).map_values(|l: Seq<char>| trim(l)) =~= lv.take(i as int).map_values(
            |l: Seq<char>| trim(l),
        ).push(trim(lv[i as int])));
        i += 1;
    }
    assert(lv.take(i as int) =~= lv);
    unlines_exec(&out)
}

} // verus!
