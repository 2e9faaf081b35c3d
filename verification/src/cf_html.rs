//! The Windows `CF_HTML` clipboard format: an ASCII header with byte offsets
//! (`StartHTML`, `EndHTML`, `StartFragment`, `EndFragment`, ten zero-padded
//! digits each) followed by the HTML, which is wrapped in
//! `<html><body><!--StartFragment-->...` unless it is a whole document.
use vstd::prelude::*;
use vstd::string::StringExecFns;
use vstd::utf8::{encode_utf8, is_ascii_chars, is_ascii_chars_encode_utf8};

use crate::text::{
    chars_of, extend_chars, extend_str, slice_chars, starts_with, starts_with_exec, string_of,
    trim_start, trim_start_chars,
};
use crate::tracking::{ascii_lower, ascii_lower_exec};

verus! {

/// The header template; its length is the offset at which the HTML starts.
pub const HEADER: &'static str = "Version:0.9\r\nStartHTML:0000000000\r\nEndHTML:0000000000\r\nStartFragment:0000000000\r\nEndFragment:0000000000\r\n";

/// What goes before a fragment that is not a whole document.
pub const WRAP_PREFIX: &'static str = "<html>\r\n<body>\r\n<!--StartFragment-->";

/// What goes after a fragment that is not a whole document.
pub const WRAP_SUFFIX: &'static str = "<!--EndFragment-->\r\n</body>\r\n</html>";

/// The HTML is a whole document: after leading whitespace, its first nine
/// characters in ASCII lower case start with `<html` or `<!doctype`.
pub open spec fn is_full_document_spec(fragment: Seq<char>) -> bool {
    let t = trim_start(fragment);
    let head = ascii_lower(
        t.take(
            if t.len() < 9 {
                t.len() as int
            } else {
                9
            },
        ),
    );
    starts_with(head, "<html"@) || starts_with(head, "<!doctype"@)
}

/// Whether the HTML is a whole document (see `is_full_document_spec`).
pub fn is_full_document(fragment: &str) -> (r: bool)
    ensures
        r == is_full_document_spec(fragment@),
{
    let v = chars_of(fragment);
    let t = trim_start_chars(&v);
    let k = if t.len() < 9 {
        t.len()
    } else {
        9
    };
    let head_raw = slice_chars(&t, 0, k);
    assert(head_raw@ =~= t@.take(k as int));
    let head = ascii_lower_exec(&head_raw);
    starts_with_exec(&head, &chars_of("<html")) || starts_with_exec(&head, &chars_of("<!doctype"))
}

/// The decimal digit of a value below ten.
pub open spec fn digit_char(d: nat) -> char {
    (48 + d) as char
}

/// The decimal representation of `n`, without leading zeros.
pub open spec fn decimal(n: nat) -> Seq<char>
    decreases n,
{
    if n < 10 {
        seq![digit_char(n)]
    } else {
        decimal(n / 10).push(digit_char(n % 10))
    }
}

/// `n` in decimal, padded with zeros to at least ten characters (`{:010}`).
pub open spec fn pad10(n: nat) -> Seq<char> {
    let d = decimal(n);
    if d.len() >= 10 {
        d
    } else {
        Seq::new((10 - d.len()) as nat, |i: int| '0') + d
    }
}

/// The header with the given offsets filled in.
pub open spec fn cf_header(start_html: nat, end_html: nat, start_frag: nat, end_frag: nat) -> Seq<
    char,
> {
    "Version:0.9\r\nStartHTML:"@ + pad10(start_html) + "\r\nEndHTML:"@ + pad10(end_html)
        + "\r\nStartFragment:"@ + pad10(start_frag) + "\r\nEndFragment:"@ + pad10(end_frag)
        + "\r\n"@
}

/// The byte length of a text in UTF-8.
pub open spec fn utf8_len(s: Seq<char>) -> nat {
    encode_utf8(s).len()
}

/// What a fragment is wrapped in: nothing for a whole document, else the
/// `<html><body><!--StartFragment-->` frame.
pub open spec fn wrap_parts(fragment: Seq<char>) -> (Seq<char>, Seq<char>) {
    if is_full_document_spec(fragment) {
        (seq![], seq![])
    } else {
        (WRAP_PREFIX@, WRAP_SUFFIX@)
    }
}

/// The HTML that the clipboard gives back when the CF_HTML is read: the
/// fragment in its frame.
pub open spec fn readback_spec(fragment: Seq<char>) -> Seq<char> {
    wrap_parts(fragment).0 + fragment + wrap_parts(fragment).1
}

/// Where the HTML starts: after the header.
pub open spec fn start_html_of() -> nat {
    utf8_len(HEADER@)
}

/// Where the fragment starts.
pub open spec fn start_fragment_of(fragment: Seq<char>) -> nat {
    start_html_of() + utf8_len(wrap_parts(fragment).0)
}

/// Where the fragment ends.
pub open spec fn end_fragment_of(fragment: Seq<char>) -> nat {
    start_fragment_of(fragment) + utf8_len(fragment)
}

/// Where the HTML ends.
pub open spec fn end_html_of(fragment: Seq<char>) -> nat {
    end_fragment_of(fragment) + utf8_len(wrap_parts(fragment).1)
}

/// The CF_HTML text for a fragment.
pub open spec fn cf_html_spec(fragment: Seq<char>) -> Seq<char> {
    cf_header(
        start_html_of(),
        end_html_of(fragment),
        start_fragment_of(fragment),
        end_fragment_of(fragment),
    ) + readback_spec(fragment)
}

/// The decimal representation of `n`.
pub fn decimal_exec(n: usize) -> (r: Vec<char>)
    ensures
        r@ == decimal(n as nat),
    decreases n,
{
    if n < 10 {
        vec![((48 + n) as u8) as char]
    } else {
        let mut v = decimal_exec(n / 10);
        v.push(((48 + n % 10) as u8) as char);
        v
    }
}

/// `n` zero-padded to ten digits.
pub fn pad10_exec(n: usize) -> (r: Vec<char>)
    ensures
        r@ == pad10(n as nat),
{
    let d = decimal_exec(n);
    if d.len() >= 10 {
        return d;
    }
    let mut out: Vec<char> = Vec::new();
    let z = 10 - d.len();
    let mut k: usize = 0;
    while k < z
        invariant
            k <= z,
            out@ == Seq::new(k as nat, |i: int| '0'),
        decreases z - k,
    {
        out.push('0');
        assert(out@ =~= Seq::new((k + 1) as nat, |i: int| '0'));
        k += 1;
    }
    extend_chars(&mut out, &d);
    out
}

/// The byte lengths of the header and of the frame.
pub proof fn lemma_literal_lengths()
    ensures
        utf8_len(HEADER@) == 105,
        utf8_len(WRAP_PREFIX@) == 36,
        utf8_len(WRAP_SUFFIX@) == 36,
        is_ascii_chars(HEADER@),
        is_ascii_chars(WRAP_PREFIX@),
        is_ascii_chars(WRAP_SUFFIX@),
{
    reveal_strlit("Version:0.9\r\nStartHTML:0000000000\r\nEndHTML:0000000000\r\nStartFragment:0000000000\r\nEndFragment:0000000000\r\n");
    reveal_strlit("<html>\r\n<body>\r\n<!--StartFragment-->");
    reveal_strlit("<!--EndFragment-->\r\n</body>\r\n</html>");
    is_ascii_chars_encode_utf8(HEADER@);
    is_ascii_chars_encode_utf8(WRAP_PREFIX@);
    is_ascii_chars_encode_utf8(WRAP_SUFFIX@);
}

/// Frames an HTML fragment for the clipboard: the CF_HTML text (header with
/// byte offsets, then the HTML) and the HTML that reading it back gives.
pub fn wrap(fragment: &str) -> (r: (String, String))
    requires
        utf8_len(fragment@) <= usize::MAX - 1000,
    ensures
        r.1@ == readback_spec(fragment@),
        r.0@ == cf_html_spec(fragment@),
{
    let full = is_full_document(fragment);
    let (prefix, suffix): (&str, &str) = if full {
        ("", "")
    } else {
        (WRAP_PREFIX, WRAP_SUFFIX)
    };
    proof {
        reveal_strlit("");
        assert(""@ =~= Seq::<char>::empty());
        lemma_literal_lengths();
    }
    let mut readback_v = chars_of(prefix);
    extend_str(&mut readback_v, fragment);
    extend_str(&mut readback_v, suffix);
    let start_html = HEADER.len();
    let start_fragment = start_html + prefix.len();
    let end_fragment = start_fragment + fragment.len();
    let end_html = end_fragment + suffix.len();
    let mut cf = chars_of("Version:0.9\r\nStartHTML:");
    extend_chars(&mut cf, &pad10_exec(start_html));
    extend_str(&mut cf, "\r\nEndHTML:");
    extend_chars(&mut cf, &pad10_exec(end_html));
    extend_str(&mut cf, "\r\nStartFragment:");
    extend_chars(&mut cf, &pad10_exec(start_fragment));
    extend_str(&mut cf, "\r\nEndFragment:");
    extend_chars(&mut cf, &pad10_exec(end_fragment));
    extend_str(&mut cf, "\r\n");
    extend_chars(&mut cf, &readback_v);
    (string_of(&cf), string_of(&readback_v))
}

/// Ten to the power `k`.
pub open spec fn pow10(k: nat) -> nat
    decreases k,
{
    if k == 0 {
        1
    } else {
        10 * pow10((k - 1) as nat)
    }
}

/// UTF-8 encoding distributes over concatenation.
pub proof fn lemma_encode_concat(a: Seq<char>, b: Seq<char>)
    ensures
        encode_utf8(a + b) == encode_utf8(a) + encode_utf8(b),
    decreases a.len(),
{
    if a.len() == 0 {
        assert(a + b =~= b);
        assert(encode_utf8(a) =~= Seq::<u8>::empty());
        assert(Seq::<u8>::empty() + encode_utf8(b) =~= encode_utf8(b));
    } else {
        assert((a + b).drop_first() =~= a.drop_first() + b);
        assert((a + b)[0] == a[0]);
        lemma_encode_concat(a.drop_first(), b);
        assert(encode_scalar_of(a[0]) + (encode_utf8(a.drop_first()) + encode_utf8(b)) =~= (
        encode_scalar_of(a[0]) + encode_utf8(a.drop_first())) + encode_utf8(b));
    }
}

/// The UTF-8 encoding of one character.
pub open spec fn encode_scalar_of(c: char) -> Seq<u8> {
    vstd::utf8::encode_scalar(c as u32)
}

proof fn lemma_decimal(n: nat, k: nat)
    requires
        n < pow10(k),
        k >= 1,
    ensures
        1 <= decimal(n).len() <= k,
        is_ascii_chars(decimal(n)),
    decreases n,
{
    if n < 10 {
        assert(decimal(n) =~= seq![digit_char(n)]);
    } else {
        assert(k >= 2) by {
            if k == 1 {
                assert(pow10(1) == 10 * pow10(0));
            }
        }
        assert(n / 10 < pow10((k - 1) as nat)) by (nonlinear_arith)
            requires
                n < pow10(k),
                pow10(k) == 10 * pow10((k - 1) as nat),
        ;
        lemma_decimal(n / 10, (k - 1) as nat);
        let d = decimal(n / 10);
        assert(decimal(n) == d.push(digit_char(n % 10)));
        assert forall|i: int| 0 <= i < decimal(n).len() implies '\0' <= #[trigger] decimal(n)[i]
            <= '\u{7f}' by {
            if i < d.len() {
                assert(decimal(n)[i] == d[i]);
            }
        }
    }
}

proof fn lemma_pad10(n: nat)
    requires
        n < 10_000_000_000,
    ensures
        pad10(n).len() == 10,
        is_ascii_chars(pad10(n)),
        encode_utf8(pad10(n)).len() == 10,
{
    assert(pow10(10) == 10_000_000_000) by {
        reveal_with_fuel(pow10, 11);
    }
    lemma_decimal(n, 10);
    let d = decimal(n);
    let p = pad10(n);
    if d.len() < 10 {
        assert forall|i: int| 0 <= i < p.len() implies '\0' <= #[trigger] p[i] <= '\u{7f}' by {
            if i >= 10 - d.len() {
                assert(p[i] == d[i - (10 - d.len())]);
            }
        }
    }
    is_ascii_chars_encode_utf8(p);
}

proof fn lemma_ascii_len(s: Seq<char>)
    requires
        is_ascii_chars(s),
    ensures
        encode_utf8(s).len() == s.len(),
{
    is_ascii_chars_encode_utf8(s);
}

/// The header that `wrap` writes keeps the template's byte length while the
/// offsets fit in ten digits.
pub proof fn lemma_header_len(a: nat, b: nat, c: nat, d: nat)
    requires
        a < 10_000_000_000,
        b < 10_000_000_000,
        c < 10_000_000_000,
        d < 10_000_000_000,
    ensures
        utf8_len(cf_header(a, b, c, d)) == 105,
{
    reveal_strlit("Version:0.9\r\nStartHTML:");
    reveal_strlit("\r\nEndHTML:");
    reveal_strlit("\r\nStartFragment:");
    reveal_strlit("\r\nEndFragment:");
    reveal_strlit("\r\n");
    lemma_pad10(a);
    lemma_pad10(b);
    lemma_pad10(c);
    lemma_pad10(d);
    let s1 = "Version:0.9\r\nStartHTML:"@;
    let s2 = "\r\nEndHTML:"@;
    let s3 = "\r\nStartFragment:"@;
    let s4 = "\r\nEndFragment:"@;
    let s5 = "\r\n"@;
    lemma_ascii_len(s1);
    lemma_ascii_len(s2);
    lemma_ascii_len(s3);
    lemma_ascii_len(s4);
    lemma_ascii_len(s5);
    let (pa, pb, pc, pd) = (pad10(a), pad10(b), pad10(c), pad10(d));
    lemma_encode_concat(s1, pa);
    lemma_encode_concat(s1 + pa, s2);
    lemma_encode_concat(s1 + pa + s2, pb);
    lemma_encode_concat(s1 + pa + s2 + pb, s3);
    lemma_encode_concat(s1 + pa + s2 + pb + s3, pc);
    lemma_encode_concat(s1 + pa + s2 + pb + s3 + pc, s4);
    lemma_encode_concat(s1 + pa + s2 + pb + s3 + pc + s4, pd);
    lemma_encode_concat(s1 + pa + s2 + pb + s3 + pc + s4 + pd, s5);
}

/// Law of the CF_HTML frame: as long as the offsets fit in ten digits, the
/// byte range `StartHTML..EndHTML` of the CF_HTML text is exactly the HTML
/// that reading it back gives, and `StartFragment..EndFragment` is exactly
/// the fragment that was framed; the header keeps its template length, so
/// the HTML starts right after it.
pub proof fn lemma_cf_html_offsets(fragment: Seq<char>)
    requires
        end_html_of(fragment) < 10_000_000_000,
    ensures
        utf8_len(cf_header(
            start_html_of(),
            end_html_of(fragment),
            start_fragment_of(fragment),
            end_fragment_of(fragment),
        )) == start_html_of(),
        encode_utf8(cf_html_spec(fragment)).subrange(
            start_html_of() as int,
            end_html_of(fragment) as int,
        ) == encode_utf8(readback_spec(fragment)),
        encode_utf8(cf_html_spec(fragment)).subrange(
            start_fragment_of(fragment) as int,
            end_fragment_of(fragment) as int,
        ) == encode_utf8(fragment),
{
    lemma_literal_lengths();
    let (p, q) = wrap_parts(fragment);
    if is_full_document_spec(fragment) {
        assert(encode_utf8(p) =~= Seq::<u8>::empty());
        assert(encode_utf8(q) =~= Seq::<u8>::empty());
    }
    let sh = start_html_of();
    let sf = start_fragment_of(fragment);
    let ef = end_fragment_of(fragment);
    let eh = end_html_of(fragment);
    lemma_header_len(sh, eh, sf, ef);
    let h = cf_header(sh, eh, sf, ef);
    lemma_encode_concat(p, fragment);
    lemma_encode_concat(p + fragment, q);
    lemma_encode_concat(h, readback_spec(fragment));
    let eh_bytes = encode_utf8(h);
    let ep = encode_utf8(p);
    let ef_bytes = encode_utf8(fragment);
    let eq = encode_utf8(q);
    assert(encode_utf8(cf_html_spec(fragment)) == eh_bytes + (ep + ef_bytes + eq));
    assert(eh_bytes.len() == 105);
    assert((eh_bytes + (ep + ef_bytes + eq)).subrange(sh as int, eh as int) =~= ep + ef_bytes
        + eq);
    assert((eh_bytes + (ep + ef_bytes + eq)).subrange(sf as int, ef as int) =~= ef_bytes);
}

} // verus!
