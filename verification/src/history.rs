//! Clipboard history: captured clipboard contents kept encrypted, ordered by
//! time, bounded by a byte budget that evicts the oldest unpinned entries,
//! and listed with filters, search and paging.
use vstd::prelude::*;
use vstd::string::StringExecFns;
use vstd::utf8::{decode_utf8, encode_utf8, valid_utf8};

use std::time::{SystemTime, UNIX_EPOCH};

use crate::crypto::{decrypt, encrypt, opened, random_key, sealable};
use crate::markup::{
    file_list, files_preview_chars, files_preview_text, preview_chars, html_text_spec, html_to_text,
    preview_line_count, preview_text, rtf_text_spec, rtf_to_text,
};
use crate::lines::views;
use crate::markup::{file_list_exec, lemma_file_list_roundtrip, plain_path};
use crate::text::{
    chars_of, contains_exec, contains_seq, join, join_exec, lower_text, string_of,
    to_lowercase,
};
use crate::transforms::string_from_utf8;

verus! {

// ---------------------------------------------------------------------------
// Kinds of content
// ---------------------------------------------------------------------------

/// What an entry holds first and foremost, or one of its extra formats.
#[derive(Clone, Copy, Debug, PartialEq, Eq, Structural)]
pub enum EntryKind {
    Files,
    Image,
    Html,
    Rtf,
    Text,
}

/// The name under which a kind is shown and stored.
pub open spec fn kind_tag(k: EntryKind) -> Seq<char> {
    match k {
        EntryKind::Files => "files"@,
        EntryKind::Image => "image"@,
        EntryKind::Html => "html"@,
        EntryKind::Rtf => "rtf"@,
        EntryKind::Text => "text"@,
    }
}

impl EntryKind {
    /// The name of the kind (see `kind_tag`).
    pub fn tag(&self) -> (r: &'static str)
        ensures
            r@ == kind_tag(*self),
    {
        match self {
            EntryKind::Files => "files",
            EntryKind::Image => "image",
            EntryKind::Html => "html",
            EntryKind::Rtf => "rtf",
            EntryKind::Text => "text",
        }
    }
}

// ---------------------------------------------------------------------------
// What is captured
// ---------------------------------------------------------------------------

/// An image taken from the clipboard.
#[derive(Clone, Debug)]
pub struct CapturedImage {
    pub mime: String,
    pub width: u32,
    pub height: u32,
    pub bytes: Vec<u8>,
}

/// Everything the clipboard offered at one moment; any part may be missing.
#[derive(Clone, Debug, Default)]
pub struct CapturedContent {
    pub files: Option<Vec<String>>,
    pub image: Option<CapturedImage>,
    pub html: Option<String>,
    pub rtf: Option<String>,
    pub text: Option<String>,
}

/// The main kind of a capture: files, then image, then HTML, then RTF, then
/// text, whichever is present first; none for an empty capture.
pub open spec fn primary_of(c: CapturedContent) -> Option<EntryKind> {
    if c.files is Some {
        Some(EntryKind::Files)
    } else if c.image is Some {
        Some(EntryKind::Image)
    } else if c.html is Some {
        Some(EntryKind::Html)
    } else if c.rtf is Some {
        Some(EntryKind::Rtf)
    } else if c.text is Some {
        Some(EntryKind::Text)
    } else {
        None
    }
}

impl CapturedContent {
    /// The name of the main kind of the capture (see `primary_of`).
    pub fn primary_kind(&self) -> (r: Option<&'static str>)
        ensures
            r is Some <==> primary_of(*self) is Some,
            r matches Some(t) ==> t@ == kind_tag(primary_of(*self)->0),
    {
        match primary_entry_kind(self) {
            Some(k) => Some(k.tag()),
            None => None,
        }
    }
}

/// The main kind of a capture.
fn primary_entry_kind(c: &CapturedContent) -> (r: Option<EntryKind>)
    ensures
        r == primary_of(*c),
{
    if c.files.is_some() {
        Some(EntryKind::Files)
    } else if c.image.is_some() {
        Some(EntryKind::Image)
    } else if c.html.is_some() {
        Some(EntryKind::Html)
    } else if c.rtf.is_some() {
        Some(EntryKind::Rtf)
    } else if c.text.is_some() {
        Some(EntryKind::Text)
    } else {
        None
    }
}

/// The views of a list of strings.
pub open spec fn strings_view(v: Seq<String>) -> Seq<Seq<char>> {
    v.map_values(|s: String| s@)
}

/// The view of an optional string.
pub open spec fn opt_view(o: Option<String>) -> Option<Seq<char>> {
    match o {
        Some(s) => Some(s@),
        None => None,
    }
}

/// The text of a capture's main kind: the file paths one per line, the HTML,
/// the RTF or the text; an image has none.
pub open spec fn primary_text(c: CapturedContent) -> Option<Seq<char>> {
    match primary_of(c) {
        Some(EntryKind::Files) => Some(join(strings_view(c.files->0@), seq!['\n'])),
        Some(EntryKind::Html) => opt_view(c.html),
        Some(EntryKind::Rtf) => opt_view(c.rtf),
        Some(EntryKind::Text) => opt_view(c.text),
        _ => None,
    }
}

/// The MIME type recorded for a capture: the image's, or that of HTML or RTF.
pub open spec fn mime_of(c: CapturedContent) -> Option<Seq<char>> {
    match primary_of(c) {
        Some(EntryKind::Image) => Some(c.image->0.mime@),
        Some(EntryKind::Html) => Some("text/html"@),
        Some(EntryKind::Rtf) => Some("text/rtf"@),
        _ => None,
    }
}

/// One of the text-like extra formats, if the capture holds it and it is not
/// the main kind.
pub open spec fn extra(c: CapturedContent, k: EntryKind, t: Option<String>) -> Seq<
    (EntryKind, Seq<char>),
> {
    if primary_of(c) != Some(k) && t is Some {
        seq![(k, t->0@)]
    } else {
        seq![]
    }
}

/// The extra formats kept beside the main content, in the order text, HTML,
/// RTF: each one the capture holds that is not its main kind.
pub open spec fn secondaries(c: CapturedContent) -> Seq<(EntryKind, Seq<char>)> {
    extra(c, EntryKind::Text, c.text) + extra(c, EntryKind::Html, c.html) + extra(
        c,
        EntryKind::Rtf,
        c.rtf,
    )
}

/// The sum of the UTF-8 lengths of some texts.
pub open spec fn texts_size(ts: Seq<(EntryKind, Seq<char>)>) -> int
    decreases ts.len(),
{
    if ts.len() == 0 {
        0
    } else {
        texts_size(ts.drop_last()) + encode_utf8(ts.last().1).len()
    }
}

/// The bytes a capture counts against the budget: its main content, its image
/// and its extra formats.
pub open spec fn captured_size(c: CapturedContent) -> int {
    (match primary_text(c) {
        Some(t) => encode_utf8(t).len() as int,
        None => 0int,
    }) + (match c.image {
        Some(i) => i.bytes@.len() as int,
        None => 0int,
    }) + texts_size(secondaries(c))
}

// ---------------------------------------------------------------------------
// Stored entries
// ---------------------------------------------------------------------------

/// One entry of the history as it is stored: every content encrypted under
/// the history's key (see `crate::crypto`).
#[derive(Debug)]
pub struct StoredEntry {
    pub id: u128,
    /// Milliseconds since the Unix epoch at capture.
    pub timestamp: i64,
    pub kind: EntryKind,
    /// The main content (not for an image).
    pub content_ct: Option<Vec<u8>>,
    pub mime: Option<String>,
    pub width: Option<u32>,
    pub height: Option<u32>,
    pub size_bytes: u64,
    pub matched_pattern: Option<String>,
    pub pinned: bool,
    pub last_sent_to: Option<String>,
    /// The image bytes, if the capture had an image.
    pub image_ct: Option<Vec<u8>>,
    /// The extra text formats.
    pub formats: Vec<(EntryKind, Vec<u8>)>,
}

/// An entry is well formed: its size fits the store's signed counters and no
/// extra format occurs twice.
pub open spec fn entry_wf(e: StoredEntry) -> bool {
    &&& e.size_bytes <= i64::MAX
    &&& forall|i: int, j: int|
        0 <= i < j < e.formats@.len() ==> #[trigger] e.formats@[i].0 != #[trigger] e.formats@[j].0
}

/// The store is ordered by timestamp, holds each id once, and every entry is
/// well formed.
pub open spec fn store_wf(es: Seq<StoredEntry>) -> bool {
    &&& forall|i: int, j: int|
        0 <= i < j < es.len() ==> #[trigger] es[i].timestamp <= #[trigger] es[j].timestamp
    &&& forall|i: int, j: int| 0 <= i < j < es.len() ==> #[trigger] es[i].id != #[trigger] es[j].id
    &&& forall|i: int| 0 <= i < es.len() ==> entry_wf(#[trigger] es[i])
}

/// Whether an entry with the id is stored.
pub open spec fn has_id(es: Seq<StoredEntry>, id: u128) -> bool {
    exists|i: int| 0 <= i < es.len() && #[trigger] es[i].id == id
}

/// The sum of the entries' sizes.
pub open spec fn total_size(es: Seq<StoredEntry>) -> int
    decreases es.len(),
{
    if es.len() == 0 {
        0
    } else {
        total_size(es.drop_last()) + es.last().size_bytes
    }
}

/// The store with `e` placed after every entry not newer than it.
pub open spec fn insert_by_time(es: Seq<StoredEntry>, e: StoredEntry) -> Seq<StoredEntry>
    decreases es.len(),
{
    if es.len() == 0 || es.last().timestamp <= e.timestamp {
        es.push(e)
    } else {
        insert_by_time(es.drop_last(), e).push(es.last())
    }
}

/// The position of the oldest unpinned entry.
pub open spec fn first_unpinned(es: Seq<StoredEntry>) -> Option<int>
    decreases es.len(),
{
    if es.len() == 0 {
        None
    } else if !es[0].pinned {
        Some(0)
    } else {
        match first_unpinned(es.drop_first()) {
            Some(i) => Some(i + 1),
            None => None,
        }
    }
}

/// Eviction down to the budget: while the entries take more than `cap`
/// bytes, the oldest unpinned one goes; it stops when none is left. The flag
/// is false when the total no longer fits a signed 64-bit sum, where the
/// eviction stops with an error.
pub open spec fn evict_run(es: Seq<StoredEntry>, cap: u64) -> (Seq<StoredEntry>, bool)
    decreases es.len(),
{
    if total_size(es) > i64::MAX {
        (es, false)
    } else if total_size(es) <= cap {
        (es, true)
    } else {
        match first_unpinned(es) {
            Some(i) => if 0 <= i < es.len() {
                evict_run(es.remove(i), cap)
            } else {
                (es, true)
            },
            None => (es, true),
        }
    }
}

/// The message of a sum that overflows.
pub open spec fn overflow_error() -> Seq<char> {
    "integer overflow"@
}

// ---------------------------------------------------------------------------
// Lemmas on the store
// ---------------------------------------------------------------------------

/// A prefix never weighs more than the whole.
pub proof fn lemma_total_prefix(es: Seq<StoredEntry>, i: int)
    requires
        0 <= i <= es.len(),
    ensures
        total_size(es.take(i)) <= total_size(es),
        total_size(es) >= 0,
    decreases es.len(),
{
    if es.len() > 0 {
        if i == es.len() {
            assert(es.take(i) =~= es);
            lemma_total_prefix(es.drop_last(), 0);
        } else {
            assert(es.drop_last().take(i) =~= es.take(i));
            lemma_total_prefix(es.drop_last(), i);
        }
    }
}

/// The first unpinned entry is unpinned and every entry before it is pinned.
pub proof fn lemma_first_unpinned(es: Seq<StoredEntry>)
    ensures
        match first_unpinned(es) {
            Some(i) => 0 <= i < es.len() && !es[i].pinned && forall|j: int|
                0 <= j < i ==> #[trigger] es[j].pinned,
            None => forall|j: int| 0 <= j < es.len() ==> #[trigger] es[j].pinned,
        },
    decreases es.len(),
{
    if es.len() > 0 {
        lemma_first_unpinned(es.drop_first());
        if es[0].pinned {
            match first_unpinned(es.drop_first()) {
                Some(i) => {
                    assert forall|j: int| 0 <= j < i + 1 implies #[trigger] es[j].pinned by {
                        if j > 0 {
                            assert(es.drop_first()[j - 1] == es[j]);
                        }
                    }
                },
                None => {
                    assert forall|j: int| 0 <= j < es.len() implies #[trigger] es[j].pinned by {
                        if j > 0 {
                            assert(es.drop_first()[j - 1] == es[j]);
                        }
                    }
                },
            }
        }
    }
}

/// Removing an entry keeps the store well formed.
pub proof fn lemma_remove_wf(es: Seq<StoredEntry>, i: int)
    requires
        store_wf(es),
        0 <= i < es.len(),
    ensures
        store_wf(es.remove(i)),
        forall|j: int|
            0 <= j < es.remove(i).len() ==> #[trigger] es.remove(i)[j] == (if j < i {
                es[j]
            } else {
                es[j + 1]
            }),
{
    let r = es.remove(i);
    assert forall|a: int, b: int| 0 <= a < b < r.len() implies #[trigger] r[a].timestamp
        <= #[trigger] r[b].timestamp by {
        let a2 = if a < i {
            a
        } else {
            a + 1
        };
        let b2 = if b < i {
            b
        } else {
            b + 1
        };
        assert(r[a] == es[a2] && r[b] == es[b2]);
        assert(es[a2].timestamp <= es[b2].timestamp);
    }
    assert forall|a: int, b: int| 0 <= a < b < r.len() implies #[trigger] r[a].id
        != #[trigger] r[b].id by {
        let a2 = if a < i {
            a
        } else {
            a + 1
        };
        let b2 = if b < i {
            b
        } else {
            b + 1
        };
        assert(r[a] == es[a2] && r[b] == es[b2]);
        assert(es[a2].id != es[b2].id);
    }
    assert forall|a: int| 0 <= a < r.len() implies entry_wf(#[trigger] r[a]) by {
        let a2 = if a < i {
            a
        } else {
            a + 1
        };
        assert(r[a] == es[a2]);
        assert(entry_wf(es[a2]));
    }
}

/// Eviction drops the oldest unpinned entries first: every entry it drops is
/// unpinned and no newer than any unpinned entry that stays.
pub proof fn lemma_evict_oldest(es: Seq<StoredEntry>, cap: u64)
    requires
        store_wf(es),
    ensures
        forall|x: StoredEntry, y: StoredEntry|
            #![trigger es.contains(x), evict_run(es, cap).0.contains(y)]
            es.contains(x) && !evict_run(es, cap).0.contains(x) && evict_run(es, cap).0.contains(y)
                && !y.pinned ==> !x.pinned && x.timestamp <= y.timestamp,
    decreases es.len(),
{
    lemma_first_unpinned(es);
    if total_size(es) > i64::MAX {
    } else if total_size(es) <= cap {
    } else {
        match first_unpinned(es) {
            Some(i) => {
                lemma_remove_wf(es, i);
                let r = es.remove(i);
                lemma_evict_run(r, cap);
                lemma_evict_oldest(r, cap);
                let res = evict_run(r, cap).0;
                assert(evict_run(es, cap).0 == res);
                assert forall|x: StoredEntry, y: StoredEntry|
                    #![trigger es.contains(x), evict_run(es, cap).0.contains(y)]
                    es.contains(x) && !evict_run(es, cap).0.contains(x) && evict_run(
                        es,
                        cap,
                    ).0.contains(y) && !y.pinned implies !x.pinned && x.timestamp <= y.timestamp by {
                    let j = choose|j: int| 0 <= j < es.len() && es[j] == x;
                    assert(r.contains(y));
                    let k = choose|k: int| 0 <= k < r.len() && r[k] == y;
                    let k2 = if k < i {
                        k
                    } else {
                        k + 1
                    };
                    assert(r[k] == es[k2]);
                    if j != i {
                        let jj = if j < i {
                            j
                        } else {
                            j - 1
                        };
                        assert(r[jj] == es[j]);
                        assert(r.contains(x));
                    } else {
                        assert(!es[k2].pinned);
                        assert(k2 >= i);
                        assert(k2 != i);
                        assert(es[i].timestamp <= es[k2].timestamp);
                    }
                }
            },
            None => {},
        }
    }
}

/// Deleting an entry takes one entry and its size off the counters;
/// deleting an id no entry has changes nothing.
pub proof fn lemma_delete_counts(es: Seq<StoredEntry>, id: u128)
    requires
        store_wf(es),
    ensures
        has_id(es, id) ==> without_id(es, id).len() == es.len() - 1 && total_size(without_id(es, id))
            == total_size(es) - es[id_index(es, id)].size_bytes,
        !has_id(es, id) ==> without_id(es, id) == es,
        forall|i: int|
            0 <= i < es.len() && es[i].id != id ==> without_id(es, id).contains(#[trigger] es[i]),
{
    lemma_delete_forgets(es, id);
    if has_id(es, id) {
        lemma_total_remove(es, id_index(es, id));
    }
}

/// Placing an entry adds its size to the total.
pub proof fn lemma_total_insert(es: Seq<StoredEntry>, e: StoredEntry)
    ensures
        total_size(insert_by_time(es, e)) == total_size(es) + e.size_bytes,
    decreases es.len(),
{
    if es.len() == 0 || es.last().timestamp <= e.timestamp {
        assert(es.push(e).drop_last() =~= es);
    } else {
        let p = es.drop_last();
        lemma_total_insert(p, e);
        assert(insert_by_time(p, e).push(es.last()).drop_last() =~= insert_by_time(p, e));
    }
}

/// Removing an entry takes its size off the total.
pub proof fn lemma_total_remove(es: Seq<StoredEntry>, i: int)
    requires
        0 <= i < es.len(),
    ensures
        total_size(es.remove(i)) == total_size(es) - es[i].size_bytes,
    decreases es.len(),
{
    if i == es.len() - 1 {
        assert(es.remove(i) =~= es.drop_last());
    } else {
        let p = es.drop_last();
        lemma_total_remove(p, i);
        assert(es.remove(i).drop_last() =~= p.remove(i));
        assert(es.remove(i).last() == es.last());
    }
}

/// Eviction stops with an error exactly when the sizes overflow a signed
/// 64-bit counter to begin with.
pub proof fn lemma_evict_ok(es: Seq<StoredEntry>, cap: u64)
    ensures
        evict_run(es, cap).1 <==> total_size(es) <= i64::MAX,
    decreases es.len(),
{
    if total_size(es) > i64::MAX {
    } else if total_size(es) <= cap {
    } else {
        match first_unpinned(es) {
            Some(i) => if 0 <= i < es.len() {
                lemma_total_remove(es, i);
                lemma_evict_ok(es.remove(i), cap);
            },
            None => {},
        }
    }
}

/// Eviction keeps the store well formed, keeps every pinned entry, and only
/// ever drops entries.
pub proof fn lemma_evict_run(es: Seq<StoredEntry>, cap: u64)
    requires
        store_wf(es),
    ensures
        store_wf(evict_run(es, cap).0),
        forall|e: StoredEntry| #[trigger] es.contains(e) && e.pinned ==> evict_run(es, cap).0.contains(e),
        forall|e: StoredEntry| #[trigger] evict_run(es, cap).0.contains(e) ==> es.contains(e),
        evict_run(es, cap).1 ==> total_size(evict_run(es, cap).0) <= cap || forall|j: int|
            0 <= j < evict_run(es, cap).0.len() ==> #[trigger] evict_run(es, cap).0[j].pinned,
    decreases es.len(),
{
    lemma_first_unpinned(es);
    if total_size(es) > i64::MAX {
    } else if total_size(es) <= cap {
    } else {
        match first_unpinned(es) {
            Some(i) => {
                lemma_remove_wf(es, i);
                let r = es.remove(i);
                lemma_evict_run(r, cap);
                assert forall|e: StoredEntry| #[trigger] es.contains(e) && e.pinned implies r.contains(e) by {
                    let k = choose|k: int| 0 <= k < es.len() && es[k] == e;
                    if k < i {
                        assert(r[k] == e);
                    } else {
                        assert(k != i);
                        assert(r[k - 1] == e);
                    }
                }
                assert forall|e: StoredEntry| #[trigger] r.contains(e) implies es.contains(e) by {
                    let k = choose|k: int| 0 <= k < r.len() && r[k] == e;
                    if k < i {
                        assert(es[k] == e);
                    } else {
                        assert(es[k + 1] == e);
                    }
                }
            },
            None => {},
        }
    }
}

// ---------------------------------------------------------------------------
// Outside sources of ids and time
// ---------------------------------------------------------------------------

/// A new random id (`uuid::Uuid::new_v4`, as its 128-bit value); nothing is
/// known of it.
#[verifier::external_body]
fn new_entry_id() -> (r: u128) {
    uuid::Uuid::new_v4().as_u128()
}

/// Milliseconds since the Unix epoch from the system clock (`SystemTime`),
/// 0 for a clock before the epoch; nothing is known of the value.
#[verifier::external_body]
fn now_ms() -> (r: i64) {
    match SystemTime::now().duration_since(UNIX_EPOCH) {
        Ok(d) => d.as_millis() as i64,
        Err(_) => 0,
    }
}

// ---------------------------------------------------------------------------
// Store operations
// ---------------------------------------------------------------------------

/// The total size of the entries, or the overflow error when it does not fit
/// a signed 64-bit sum.
fn checked_total(es: &Vec<StoredEntry>) -> (r: Result<u64, String>)
    ensures
        r is Ok <==> total_size(es@) <= i64::MAX,
        r matches Ok(t) ==> t == total_size(es@),
        r matches Err(m) ==> m@ == overflow_error(),
{
    let mut acc: u64 = 0;
    let mut i: usize = 0;
    while i < es.len()
        invariant
            i <= es.len(),
            acc == total_size(es@.take(i as int)),
            acc <= i64::MAX,
        decreases es.len() - i,
    {
        assert(es@.take(i + 1).drop_last() =~= es@.take(i as int));
        let s = es[i].size_bytes;
        if s > (i64::MAX as u64) - acc {
            proof {
                lemma_total_prefix(es@, i + 1);
                reveal_strlit("integer overflow");
            }
            return Err(String::from_str("integer overflow"));
        }
        acc = acc + s;
        i += 1;
    }
    assert(es@.take(i as int) =~= es@);
    Ok(acc)
}

/// The position of the oldest unpinned entry.
fn first_unpinned_exec(es: &Vec<StoredEntry>) -> (r: Option<usize>)
    ensures
        match r {
            Some(i) => first_unpinned(es@) == Some(i as int),
            None => first_unpinned(es@) is None,
        },
{
    proof {
        lemma_first_unpinned(es@);
    }
    let mut i: usize = 0;
    while i < es.len()
        invariant
            i <= es.len(),
            forall|j: int| 0 <= j < i ==> #[trigger] es@[j].pinned,
        decreases es.len() - i,
    {
        if !es[i].pinned {
            proof {
                lemma_first_unpinned(es@);
                match first_unpinned(es@) {
                    Some(k) => {
                        if k < i {
                            assert(es@[k].pinned);
                        }
                        if k > i {
                            assert(es@[i as int].pinned);
                        }
                    },
                    None => {
                        assert(es@[i as int].pinned);
                    },
                }
            }
            return Some(i);
        }
        i += 1;
    }
    proof {
        lemma_first_unpinned(es@);
        match first_unpinned(es@) {
            Some(k) => {
                assert(es@[k].pinned);
            },
            None => {},
        }
    }
    None
}

/// Evicts the oldest unpinned entries while the store exceeds `cap` (see
/// `evict_run`).
fn evict_entries(es: &mut Vec<StoredEntry>, cap: u64) -> (r: Result<(), String>)
    requires
        store_wf(old(es)@),
    ensures
        final(es)@ == evict_run(old(es)@, cap).0,
        r is Ok <==> evict_run(old(es)@, cap).1,
        r matches Err(m) ==> m@ == overflow_error(),
{
    let ghost start = es@;
    loop
        invariant
            store_wf(es@),
            start == old(es)@,
            evict_run(es@, cap) == evict_run(start, cap),
        decreases es.len(),
    {
        let used = match checked_total(es) {
            Ok(t) => t,
            Err(m) => {
                assert(evict_run(es@, cap) == (es@, false));
                return Err(m);
            },
        };
        if used <= cap {
            return Ok(());
        }
        match first_unpinned_exec(es) {
            Some(i) => {
                proof {
                    lemma_first_unpinned(es@);
                    lemma_remove_wf(es@, i as int);
                }
                es.remove(i);
            },
            None => {
                return Ok(());
            },
        }
    }
}


// ---------------------------------------------------------------------------
// Building and placing a new entry
// ---------------------------------------------------------------------------

/// Whether every part of a capture is short enough to be encrypted.
pub open spec fn all_sealable(c: CapturedContent) -> bool {
    &&& (primary_text(c) matches Some(t) ==> sealable(encode_utf8(t).len()))
    &&& (c.image matches Some(i) ==> sealable(i.bytes@.len()))
    &&& forall|k: int|
        0 <= k < secondaries(c).len() ==> sealable(
            encode_utf8(#[trigger] secondaries(c)[k].1).len(),
        )
}

/// Whether a stored entry holds a capture: its kind, its MIME type and image
/// size, its size, the pattern it matched, and every content encrypted under
/// `key`; it is new (not pinned, never sent).
pub open spec fn holds_capture(
    e: StoredEntry,
    c: CapturedContent,
    mp: Option<String>,
    key: Seq<u8>,
) -> bool {
    &&& primary_of(c) == Some(e.kind)
    &&& match primary_text(c) {
        Some(t) => e.content_ct is Some && opened(key, e.content_ct->0@) == Some(encode_utf8(t)),
        None => e.content_ct is None,
    }
    &&& opt_view(e.mime) == mime_of(c)
    &&& e.width == (match c.image {
        Some(i) => Some(i.width),
        None => None,
    })
    &&& e.height == (match c.image {
        Some(i) => Some(i.height),
        None => None,
    })
    &&& e.size_bytes == captured_size(c)
    &&& opt_view(e.matched_pattern) == opt_view(mp)
    &&& !e.pinned
    &&& e.last_sent_to is None
    &&& match c.image {
        Some(i) => e.image_ct is Some && opened(key, e.image_ct->0@) == Some(i.bytes@),
        None => e.image_ct is None,
    }
    &&& e.formats@.len() == secondaries(c).len()
    &&& forall|k: int|
        0 <= k < e.formats@.len() ==> (#[trigger] e.formats@[k]).0 == secondaries(c)[k].0
            && opened(key, e.formats@[k].1@) == Some(encode_utf8(secondaries(c)[k].1))
}

/// The message of an empty capture.
pub open spec fn empty_capture_error() -> Seq<char> {
    "empty capture"@
}

/// The message of an id that is already stored.
pub open spec fn duplicate_id_error() -> Seq<char> {
    "UNIQUE constraint failed: entries.id"@
}

/// A copy of an optional string.
pub fn copy_opt_string(o: &Option<String>) -> (r: Option<String>)
    ensures
        opt_view(r) == opt_view(*o),
{
    match o {
        Some(s) => Some(s.clone()),
        None => None,
    }
}

/// The paths one per line.
fn join_lines(files: &Vec<String>) -> (r: String)
    ensures
        r@ == join(strings_view(files@), seq!['\n']),
{
    let mut parts: Vec<Vec<char>> = Vec::new();
    let mut i: usize = 0;
    while i < files.len()
        invariant
            i <= files.len(),
            parts@.map_values(|l: Vec<char>| l@) == strings_view(files@).take(i as int),
        decreases files.len() - i,
    {
        let ghost b = parts@.map_values(|l: Vec<char>| l@);
        let v = chars_of(files[i].as_str());
        parts.push(v);
        assert(parts@.map_values(|l: Vec<char>| l@) =~= b.push(v@));
        assert(strings_view(files@).take(i + 1) =~= strings_view(files@).take(i as int).push(
            files@[i as int]@,
        ));
        i += 1;
    }
    assert(strings_view(files@).take(i as int) =~= strings_view(files@));
    let nl = vec!['\n'];
    assert(nl@ =~= seq!['\n']);
    let j = join_exec(&parts, &nl);
    string_of(&j)
}

/// The text of the main kind of a capture (see `primary_text`).
fn primary_text_exec(c: &CapturedContent, primary: EntryKind) -> (r: Option<String>)
    requires
        primary_of(*c) == Some(primary),
    ensures
        opt_view(r) == primary_text(*c),
{
    match primary {
        EntryKind::Files => match &c.files {
            Some(f) => Some(join_lines(f)),
            None => None,
        },
        EntryKind::Html => copy_opt_string(&c.html),
        EntryKind::Rtf => copy_opt_string(&c.rtf),
        EntryKind::Text => copy_opt_string(&c.text),
        EntryKind::Image => None,
    }
}

/// The extra formats of a capture (see `secondaries`).
fn secondaries_exec(c: &CapturedContent, primary: EntryKind) -> (r: Vec<(EntryKind, String)>)
    requires
        primary_of(*c) == Some(primary),
    ensures
        r@.len() == secondaries(*c).len(),
        forall|k: int|
            0 <= k < r@.len() ==> (#[trigger] r@[k]).0 == secondaries(*c)[k].0 && r@[k].1@
                == secondaries(*c)[k].1,
{
    let mut out: Vec<(EntryKind, String)> = Vec::new();
    let ghost a = extra(*c, EntryKind::Text, c.text);
    let ghost b = extra(*c, EntryKind::Html, c.html);
    let ghost d = extra(*c, EntryKind::Rtf, c.rtf);
    if primary != EntryKind::Text {
        if let Some(t) = &c.text {
            out.push((EntryKind::Text, t.clone()));
        }
    }
    assert(out@.len() == a.len());
    let ghost o1 = out@;
    if primary != EntryKind::Html {
        if let Some(t) = &c.html {
            out.push((EntryKind::Html, t.clone()));
        }
    }
    assert(out@.len() == a.len() + b.len());
    assert(out@.take(o1.len() as int) =~= o1);
    let ghost o2 = out@;
    if primary != EntryKind::Rtf {
        if let Some(t) = &c.rtf {
            out.push((EntryKind::Rtf, t.clone()));
        }
    }
    assert(out@.take(o2.len() as int) =~= o2);
    assert(secondaries(*c) == a + b + d);
    assert forall|k: int| 0 <= k < out@.len() implies (#[trigger] out@[k]).0 == secondaries(
        *c,
    )[k].0 && out@[k].1@ == secondaries(*c)[k].1 by {
        if k < a.len() {
            assert(out@[k] == o1[k]);
        } else if k < a.len() + b.len() {
            assert(out@[k] == o2[k]);
        }
    }
    out
}

/// The UTF-8 length of a text, as `u64`.
fn utf8_len_u64(s: &String) -> (r: u64)
    ensures
        r == encode_utf8(s@).len(),
{
    let b = s.as_str().as_bytes();
    b.len() as u64
}

/// Builds the stored form of a capture under `key` with the given id and
/// time; it fails only when some part is too long to encrypt.
fn build_entry(
    key: &[u8; 32],
    c: &CapturedContent,
    mp: Option<String>,
    id: u128,
    ts: i64,
    primary: EntryKind,
) -> (r: Result<StoredEntry, String>)
    requires
        primary_of(*c) == Some(primary),
        captured_size(*c) <= i64::MAX,
    ensures
        r is Ok <==> all_sealable(*c),
        r matches Ok(e) ==> e.id == id && e.timestamp == ts && holds_capture(e, *c, mp, key@)
            && entry_wf(e),
        r matches Err(m) ==> m@ == crate::crypto::encrypt_error(),
{
    let text = primary_text_exec(c, primary);
    let secs = secondaries_exec(c, primary);
    let ghost sv = secondaries(*c);
    // the size: main content, image, extra formats
    let mut size: u64 = match &text {
        Some(t) => utf8_len_u64(t),
        None => 0,
    };
    let ghost base: int = captured_size(*c) - texts_size(sv);
    proof {
        assert(texts_size(sv) >= 0) by {
            lemma_texts_size_nonneg(sv);
        }
    }
    match &c.image {
        Some(i) => {
            size = size + (i.bytes.len() as u64);
        },
        None => {},
    }
    assert(size == base);
    let mut k: usize = 0;
    while k < secs.len()
        invariant
            k <= secs.len(),
            secs@.len() == sv.len(),
            forall|j: int| 0 <= j < secs@.len() ==> (#[trigger] secs@[j]).0 == sv[j].0 && secs@[j].1@ == sv[j].1,
            size == base + texts_size(sv.take(k as int)),
            base + texts_size(sv) <= i64::MAX,
            base >= 0,
        decreases secs.len() - k,
    {
        assert(sv.take(k + 1).drop_last() =~= sv.take(k as int));
        proof {
            lemma_texts_size_prefix(sv, k + 1);
        }
        size = size + utf8_len_u64(&secs[k].1);
        k += 1;
    }
    assert(sv.take(k as int) =~= sv);
    // the encrypted parts
    let content_ct: Option<Vec<u8>> = match &text {
        Some(t) => match encrypt(key, t.as_str().as_bytes()) {
            Ok(b) => Some(b),
            Err(m) => {
                return Err(m);
            },
        },
        None => None,
    };
    let image_ct: Option<Vec<u8>> = match &c.image {
        Some(i) => match encrypt(key, i.bytes.as_slice()) {
            Ok(b) => Some(b),
            Err(m) => {
                assert(!sealable(c.image->0.bytes@.len()));
                assert(!all_sealable(*c));
                return Err(m);
            },
        },
        None => None,
    };
    let mut formats: Vec<(EntryKind, Vec<u8>)> = Vec::new();
    let mut j: usize = 0;
    while j < secs.len()
        invariant
            j <= secs.len(),
            secs@.len() == sv.len(),
            forall|q: int| 0 <= q < secs@.len() ==> (#[trigger] secs@[q]).0 == sv[q].0 && secs@[q].1@ == sv[q].1,
            formats@.len() == j,
            forall|q: int|
                0 <= q < j ==> (#[trigger] formats@[q]).0 == sv[q].0 && opened(key@, formats@[q].1@)
                    == Some(encode_utf8(sv[q].1)),
            forall|q: int| 0 <= q < j ==> sealable(encode_utf8(#[trigger] sv[q].1).len()),
            sv == secondaries(*c),
            size == captured_size(*c),
            primary_text(*c) matches Some(t) ==> sealable(encode_utf8(t).len()),
            c.image matches Some(i) ==> sealable(i.bytes@.len()),
            match primary_text(*c) {
                Some(t) => content_ct is Some && opened(key@, content_ct->0@) == Some(
                    encode_utf8(t),
                ),
                None => content_ct is None,
            },
            match c.image {
                Some(i) => image_ct is Some && opened(key@, image_ct->0@) == Some(i.bytes@),
                None => image_ct is None,
            },
        decreases secs.len() - j,
    {
        match encrypt(key, secs[j].1.as_str().as_bytes()) {
            Ok(b) => {
                formats.push((secs[j].0, b));
            },
            Err(m) => {
                assert(!sealable(encode_utf8(sv[j as int].1).len()));
                return Err(m);
            },
        }
        j += 1;
    }
    proof {
        lemma_secondaries_distinct(*c);
    }
    let mime: Option<String> = match primary {
        EntryKind::Image => match &c.image {
            Some(i) => Some(i.mime.clone()),
            None => None,
        },
        EntryKind::Html => Some(String::from_str("text/html")),
        EntryKind::Rtf => Some(String::from_str("text/rtf")),
        _ => None,
    };
    let (width, height) = match &c.image {
        Some(i) => (Some(i.width), Some(i.height)),
        None => (None, None),
    };
    let e = StoredEntry {
        id,
        timestamp: ts,
        kind: primary,
        content_ct,
        mime,
        width,
        height,
        size_bytes: size,
        matched_pattern: mp,
        pinned: false,
        last_sent_to: None,
        image_ct,
        formats,
    };
    Ok(e)
}

/// Sizes are never negative.
pub proof fn lemma_texts_size_nonneg(ts: Seq<(EntryKind, Seq<char>)>)
    ensures
        texts_size(ts) >= 0,
    decreases ts.len(),
{
    if ts.len() > 0 {
        lemma_texts_size_nonneg(ts.drop_last());
    }
}

/// A prefix of texts never weighs more than all of them.
pub proof fn lemma_texts_size_prefix(ts: Seq<(EntryKind, Seq<char>)>, i: int)
    requires
        0 <= i <= ts.len(),
    ensures
        texts_size(ts.take(i)) <= texts_size(ts),
    decreases ts.len(),
{
    if ts.len() > 0 {
        if i == ts.len() {
            assert(ts.take(i) =~= ts);
        } else {
            assert(ts.drop_last().take(i) =~= ts.take(i));
            lemma_texts_size_prefix(ts.drop_last(), i);
        }
    }
}

/// The extra formats of a capture are of distinct kinds.
pub proof fn lemma_secondaries_distinct(c: CapturedContent)
    ensures
        forall|i: int, j: int|
            0 <= i < j < secondaries(c).len() ==> #[trigger] secondaries(c)[i].0
                != #[trigger] secondaries(c)[j].0,
{
    let a = extra(c, EntryKind::Text, c.text);
    let b = extra(c, EntryKind::Html, c.html);
    let d = extra(c, EntryKind::Rtf, c.rtf);
    let s = secondaries(c);
    assert(s == a + b + d);
    assert forall|i: int, j: int| 0 <= i < j < s.len() implies #[trigger] s[i].0
        != #[trigger] s[j].0 by {
        let ki = if i < a.len() {
            EntryKind::Text
        } else if i < a.len() + b.len() {
            EntryKind::Html
        } else {
            EntryKind::Rtf
        };
        let kj = if j < a.len() {
            EntryKind::Text
        } else if j < a.len() + b.len() {
            EntryKind::Html
        } else {
            EntryKind::Rtf
        };
        assert(s[i].0 == ki);
        assert(s[j].0 == kj);
    }
}


/// Inserting at a position after every entry not newer than `e` and before
/// every newer one keeps the store well formed.
pub proof fn lemma_insert_wf(es: Seq<StoredEntry>, e: StoredEntry, p: int)
    requires
        store_wf(es),
        entry_wf(e),
        !has_id(es, e.id),
        0 <= p <= es.len(),
        p == 0 || es[p - 1].timestamp <= e.timestamp,
        forall|j: int| p <= j < es.len() ==> #[trigger] es[j].timestamp > e.timestamp,
    ensures
        store_wf(es.insert(p, e)),
{
    let r = es.insert(p, e);
    assert forall|j: int| 0 <= j < r.len() implies #[trigger] r[j] == (if j < p {
        es[j]
    } else if j == p {
        e
    } else {
        es[j - 1]
    }) by {}
    assert forall|a: int, b: int| 0 <= a < b < r.len() implies #[trigger] r[a].timestamp
        <= #[trigger] r[b].timestamp by {
        if a < p && b < p {
            assert(es[a].timestamp <= es[b].timestamp);
        } else if a < p && b == p {
            assert(es[a].timestamp <= es[p - 1].timestamp);
        } else if a < p {
            assert(es[a].timestamp <= es[b - 1].timestamp);
        } else if a == p {
            assert(es[b - 1].timestamp > e.timestamp);
        } else {
            assert(es[a - 1].timestamp <= es[b - 1].timestamp);
        }
    }
    assert forall|a: int, b: int| 0 <= a < b < r.len() implies #[trigger] r[a].id
        != #[trigger] r[b].id by {
        if a < p && b < p {
            assert(es[a].id != es[b].id);
        } else if a < p && b == p {
            assert(es[a].id != e.id);
        } else if a < p {
            assert(es[a].id != es[b - 1].id);
        } else if a == p {
            assert(es[b - 1].id != e.id);
        } else {
            assert(es[a - 1].id != es[b - 1].id);
        }
    }
    assert forall|a: int| 0 <= a < r.len() implies entry_wf(#[trigger] r[a]) by {
        if a < p {
            assert(entry_wf(es[a]));
        } else if a > p {
            assert(entry_wf(es[a - 1]));
        }
    }
}

/// Places a new entry after every entry not newer than it.
fn insert_sorted(es: &mut Vec<StoredEntry>, e: StoredEntry)
    requires
        store_wf(old(es)@),
        entry_wf(e),
        !has_id(old(es)@, e.id),
    ensures
        final(es)@ == insert_by_time(old(es)@, e),
        store_wf(final(es)@),
{
    let ghost s = es@;
    let mut p = es.len();
    assert(s.take(p as int) =~= s);
    assert(s.skip(p as int) =~= Seq::<StoredEntry>::empty());
    assert(insert_by_time(s, e) + Seq::<StoredEntry>::empty() =~= insert_by_time(s, e));
    while p > 0 && es[p - 1].timestamp > e.timestamp
        invariant
            p <= es@.len(),
            es@ == s,
            insert_by_time(s, e) == insert_by_time(s.take(p as int), e) + s.skip(p as int),
            forall|j: int| p <= j < s.len() ==> #[trigger] s[j].timestamp > e.timestamp,
        decreases p,
    {
        let ghost t = s.take(p as int);
        assert(t.drop_last() =~= s.take(p - 1));
        assert(t.last() == s[p - 1]);
        assert(insert_by_time(t, e) == insert_by_time(s.take(p - 1), e).push(s[p - 1]));
        assert(insert_by_time(s.take(p - 1), e).push(s[p - 1]) + s.skip(p as int) =~= insert_by_time(
            s.take(p - 1),
            e,
        ) + s.skip(p - 1));
        p -= 1;
    }
    proof {
        assert(insert_by_time(s.take(p as int), e) == s.take(p as int).push(e));
        assert(s.take(p as int).push(e) + s.skip(p as int) =~= s.insert(p as int, e));
        lemma_insert_wf(s, e, p as int);
    }
    es.insert(p, e);
}

/// Whether an entry with the id is stored.
fn contains_id(es: &Vec<StoredEntry>, id: u128) -> (r: bool)
    ensures
        r == has_id(es@, id),
{
    let mut i: usize = 0;
    while i < es.len()
        invariant
            i <= es.len(),
            forall|j: int| 0 <= j < i ==> #[trigger] es@[j].id != id,
        decreases es.len() - i,
    {
        if es[i].id == id {
            return true;
        }
        i += 1;
    }
    false
}

// ---------------------------------------------------------------------------
// The history
// ---------------------------------------------------------------------------

/// The history: its entries, whether it is kept on disk, its byte budget and
/// the key its contents are encrypted under.
pub struct HistoryCoordinator {
    entries: Vec<StoredEntry>,
    persisted: bool,
    cap_bytes: u64,
    key: [u8; 32],
}

/// Counters of the history.
#[derive(Clone, Debug)]
pub struct Stats {
    pub items: u64,
    pub bytes_used: u64,
    pub bytes_cap: u64,
    pub persisted_to_disk: bool,
}

/// What storing a capture under the id `id` and the timestamp `ts` does: an
/// empty capture is refused, a capture too long to encrypt is refused, an id
/// already stored is refused; otherwise the capture is stored as an entry
/// with that id and time, and the store is evicted down to the budget. The
/// store then succeeds exactly when the sizes of the entries together with
/// the new one fit a signed 64-bit counter; otherwise eviction stops with an
/// overflow error.
pub open spec fn insert_with_outcome(
    old: HistoryCoordinator,
    new: HistoryCoordinator,
    c: CapturedContent,
    mp: Option<String>,
    id: u128,
    ts: i64,
    r: Result<u128, String>,
) -> bool {
    &&& new.key_bytes() == old.key_bytes()
    &&& new.cap() == old.cap()
    &&& new.on_disk() == old.on_disk()
    &&& primary_of(c) is None ==> (r matches Err(m) && m@ == empty_capture_error() && new.stored()
        == old.stored())
    &&& (primary_of(c) is Some && !all_sealable(c)) ==> (r matches Err(m) && m@
        == crate::crypto::encrypt_error() && new.stored() == old.stored())
    &&& (primary_of(c) is Some && all_sealable(c) && has_id(old.stored(), id)) ==> (r matches Err(m)
        && m@ == duplicate_id_error() && new.stored() == old.stored())
    &&& (primary_of(c) is Some && all_sealable(c) && !has_id(old.stored(), id)) ==> {
        &&& exists|e: StoredEntry|
            #[trigger] holds_capture(e, c, mp, old.key_bytes()) && e.id == id && e.timestamp == ts
                && entry_wf(e) && new.stored() == evict_run(
                insert_by_time(old.stored(), e),
                old.cap(),
            ).0
        &&& (r is Ok <==> total_size(old.stored()) + captured_size(c) <= i64::MAX)
        &&& (r matches Ok(i) ==> i == id)
        &&& (r matches Err(m) ==> m@ == overflow_error())
    }
}

/// What `insert_captured` does: it draws a new random id and reads the
/// clock, then stores the capture as `insert_with_outcome` says for that id
/// and time. In particular the duplicate-id error needs an entry already
/// stored under the drawn id, so storing into an empty history succeeds for
/// every non-empty capture that can be encrypted.
pub open spec fn insert_outcome(
    old: HistoryCoordinator,
    new: HistoryCoordinator,
    c: CapturedContent,
    mp: Option<String>,
    r: Result<u128, String>,
) -> bool {
    &&& exists|id: u128, ts: i64| #[trigger] insert_with_outcome(old, new, c, mp, id, ts, r)
    &&& (r matches Err(m) && m@ == duplicate_id_error()) ==> old.stored().len() > 0
    &&& (primary_of(c) is Some && all_sealable(c) && old.stored().len() == 0 && captured_size(c)
        <= i64::MAX) ==> r is Ok
}

/// A capture of a text alone.
pub open spec fn text_capture(t: String) -> CapturedContent {
    CapturedContent { files: None, image: None, html: None, rtf: None, text: Some(t) }
}

/// A capture of HTML alone.
pub open spec fn html_capture(t: String) -> CapturedContent {
    CapturedContent { files: None, image: None, html: Some(t), rtf: None, text: None }
}

/// A capture of RTF alone.
pub open spec fn rtf_capture(t: String) -> CapturedContent {
    CapturedContent { files: None, image: None, html: None, rtf: Some(t), text: None }
}

/// A capture of a file list alone.
pub open spec fn files_capture(f: Vec<String>) -> CapturedContent {
    CapturedContent { files: Some(f), image: None, html: None, rtf: None, text: None }
}

/// A capture of an image alone.
pub open spec fn image_capture(i: CapturedImage) -> CapturedContent {
    CapturedContent { files: None, image: Some(i), html: None, rtf: None, text: None }
}

impl HistoryCoordinator {
    #[verifier::type_invariant]
    spec fn well_formed(self) -> bool {
        store_wf(self.entries@)
    }

    /// The stored entries, oldest first.
    pub closed spec fn stored(self) -> Seq<StoredEntry> {
        self.entries@
    }

    /// The byte budget.
    pub closed spec fn cap(self) -> u64 {
        self.cap_bytes
    }

    /// The key the contents are encrypted under.
    pub closed spec fn key_bytes(self) -> Seq<u8> {
        self.key@
    }

    /// Whether the history is kept on disk.
    pub closed spec fn on_disk(self) -> bool {
        self.persisted
    }

    /// An empty history kept in memory, under a fresh random key.
    pub fn new_in_memory(cap_bytes: u64) -> (r: Result<Self, String>)
        ensures
            r matches Ok(h) && h.stored() == Seq::<StoredEntry>::empty() && h.cap() == cap_bytes
                && !h.on_disk(),
    {
        Ok(HistoryCoordinator {
            entries: Vec::new(),
            persisted: false,
            cap_bytes,
            key: random_key(),
        })
    }

    /// A history kept on disk, rebuilt from its stored rows under its key (see
    /// `restored`: malformed rows and repeated ids are left out).
    pub fn restore(key: [u8; 32], cap_bytes: u64, rows: Vec<StoredEntry>) -> (r: Self)
        ensures
            r.stored() == restored(rows@),
            r.key_bytes() == key@,
            r.cap() == cap_bytes,
            r.on_disk(),
    {
        let mut rows = rows;
        let ghost all = rows@;
        let mut es: Vec<StoredEntry> = Vec::new();
        assert(all.skip(all.len() as int) =~= Seq::<StoredEntry>::empty());
        while rows.len() > 0
            invariant
                rows@ == all.take(rows@.len() as int),
                rows@.len() <= all.len(),
                es@ == restored(all.skip(rows@.len() as int)),
                store_wf(es@),
            decreases rows.len(),
        {
            let ghost n = rows@.len();
            let e = rows.pop().unwrap();
            assert(e == all[n - 1]);
            assert(all.skip(n - 1).drop_first() =~= all.skip(n as int));
            assert(all.skip(n - 1)[0] == all[n - 1]);
            assert(rows@ =~= all.take(n - 1));
            if entry_wf_exec(&e) && !contains_id(&es, e.id) {
                insert_sorted(&mut es, e);
            }
        }
        assert(all.skip(0) =~= all);
        HistoryCoordinator { entries: es, persisted: true, cap_bytes, key }
    }

    /// The stored entries, oldest first.
    pub fn entries(&self) -> (r: &Vec<StoredEntry>)
        ensures
            r@ == self.stored(),
            store_wf(r@),
    {
        proof {
            use_type_invariant(self);
        }
        &self.entries
    }

    /// Sets the byte budget and evicts down to it.
    pub fn set_cap(&mut self, cap_bytes: u64) -> (r: Result<(), String>)
        ensures
            final(self).cap() == cap_bytes,
            final(self).key_bytes() == old(self).key_bytes(),
            final(self).on_disk() == old(self).on_disk(),
            final(self).stored() == evict_run(old(self).stored(), cap_bytes).0,
            r is Ok <==> evict_run(old(self).stored(), cap_bytes).1,
            r matches Err(m) ==> m@ == overflow_error(),
    {
        proof {
            use_type_invariant(&*self);
        }
        let mut es: Vec<StoredEntry> = Vec::new();
        std::mem::swap(&mut es, &mut self.entries);
        self.cap_bytes = cap_bytes;
        let res = evict_entries(&mut es, cap_bytes);
        proof {
            lemma_evict_run(old(self).stored(), cap_bytes);
        }
        self.entries = es;
        res
    }

    /// The number of entries, the bytes they take, the budget, and whether the
    /// history is on disk; an error when the byte sum overflows.
    pub fn stats(&self) -> (r: Result<Stats, String>)
        ensures
            r is Ok <==> total_size(self.stored()) <= i64::MAX,
            r matches Ok(s) ==> s.items == self.stored().len() && s.bytes_used == total_size(
                self.stored(),
            ) && s.bytes_cap == self.cap() && s.persisted_to_disk == self.on_disk(),
            r matches Err(m) ==> m@ == overflow_error(),
    {
        let used = match checked_total(&self.entries) {
            Ok(t) => t,
            Err(m) => {
                return Err(m);
            },
        };
        Ok(
            Stats {
                items: self.entries.len() as u64,
                bytes_used: used,
                bytes_cap: self.cap_bytes,
                persisted_to_disk: self.persisted,
            },
        )
    }

    /// Stores a capture under a new random id and the current time (see
    /// `insert_outcome`) and returns the id.
    pub fn insert_captured(&mut self, captured: CapturedContent, matched_pattern: Option<String>) -> (r:
        Result<u128, String>)
        requires
            captured_size(captured) <= i64::MAX,
        ensures
            insert_outcome(*old(self), *final(self), captured, matched_pattern, r),
    {
        let ghost c = captured;
        let ghost mp = matched_pattern;
        let id = new_entry_id();
        let ts = now_ms();
        let r = self.insert_with(captured, matched_pattern, id, ts);
        proof {
            reveal_strlit("empty capture");
            reveal_strlit("UNIQUE constraint failed: entries.id");
            reveal_strlit("integer overflow");
            reveal_strlit("encrypt: aead::Error");
            let o = *old(self);
            let n = *self;
            assert(insert_with_outcome(o, n, c, mp, id, ts, r));
            assert(duplicate_id_error()[0] == 'U');
            assert(empty_capture_error()[0] == 'e');
            assert(crate::crypto::encrypt_error()[0] == 'e');
            assert(overflow_error()[0] == 'i');
            let gr = r;
            if gr is Err && gr->Err_0@ == duplicate_id_error() {
                assert(has_id(o.stored(), id));
            }
            if primary_of(c) is Some && all_sealable(c) && o.stored().len() == 0 {
                assert(!has_id(o.stored(), id));
                assert(total_size(o.stored()) == 0);
            }
        }
        r
    }

    /// Stores a capture under the id `id` and the timestamp `ts` (see
    /// `insert_with_outcome`) and returns the id.
    pub fn insert_with(
        &mut self,
        captured: CapturedContent,
        matched_pattern: Option<String>,
        id: u128,
        ts: i64,
    ) -> (r: Result<u128, String>)
        requires
            captured_size(captured) <= i64::MAX,
        ensures
            insert_with_outcome(*old(self), *final(self), captured, matched_pattern, id, ts, r),
    {
        proof {
            use_type_invariant(&*self);
        }
        let primary = match primary_entry_kind(&captured) {
            Some(k) => k,
            None => {
                proof {
                    reveal_strlit("empty capture");
                }
                return Err(String::from_str("empty capture"));
            },
        };
        let ghost mp = matched_pattern;
        let entry = match build_entry(&self.key, &captured, matched_pattern, id, ts, primary) {
            Ok(e) => e,
            Err(m) => {
                return Err(m);
            },
        };
        let ghost ge = entry;
        assert(holds_capture(ge, captured, mp, old(self).key_bytes()));
        if contains_id(&self.entries, id) {
            proof {
                reveal_strlit("UNIQUE constraint failed: entries.id");
            }
            return Err(String::from_str("UNIQUE constraint failed: entries.id"));
        }
        let mut es: Vec<StoredEntry> = Vec::new();
        std::mem::swap(&mut es, &mut self.entries);
        insert_sorted(&mut es, entry);
        let res = evict_entries(&mut es, self.cap_bytes);
        proof {
            lemma_evict_run(insert_by_time(old(self).stored(), ge), self.cap_bytes);
            lemma_total_insert(old(self).stored(), ge);
            lemma_evict_ok(insert_by_time(old(self).stored(), ge), self.cap_bytes);
        }
        self.entries = es;
        assert(self.stored() == evict_run(insert_by_time(old(self).stored(), ge), old(self).cap()).0);
        match res {
            Ok(()) => Ok(id),
            Err(m) => Err(m),
        }
    }

    /// Stores a text (see `insert_outcome`).
    pub fn insert_text(&mut self, content: String, matched_pattern: Option<String>) -> (r: Result<
        u128,
        String,
    >)
        requires
            captured_size(text_capture(content)) <= i64::MAX,
        ensures
            insert_outcome(*old(self), *final(self), text_capture(content), matched_pattern, r),
    {
        self.insert_captured(
            CapturedContent { files: None, image: None, html: None, rtf: None, text: Some(content) },
            matched_pattern,
        )
    }

    /// Stores HTML (see `insert_outcome`).
    pub fn insert_html(&mut self, html: String, matched_pattern: Option<String>) -> (r: Result<
        u128,
        String,
    >)
        requires
            captured_size(html_capture(html)) <= i64::MAX,
        ensures
            insert_outcome(*old(self), *final(self), html_capture(html), matched_pattern, r),
    {
        self.insert_captured(
            CapturedContent { files: None, image: None, html: Some(html), rtf: None, text: None },
            matched_pattern,
        )
    }

    /// Stores RTF (see `insert_outcome`).
    pub fn insert_rtf(&mut self, rtf: String, matched_pattern: Option<String>) -> (r: Result<
        u128,
        String,
    >)
        requires
            captured_size(rtf_capture(rtf)) <= i64::MAX,
        ensures
            insert_outcome(*old(self), *final(self), rtf_capture(rtf), matched_pattern, r),
    {
        self.insert_captured(
            CapturedContent { files: None, image: None, html: None, rtf: Some(rtf), text: None },
            matched_pattern,
        )
    }

    /// Stores a file list (see `insert_outcome`).
    pub fn insert_files(&mut self, files: Vec<String>, matched_pattern: Option<String>) -> (r:
        Result<u128, String>)
        requires
            captured_size(files_capture(files)) <= i64::MAX,
        ensures
            insert_outcome(*old(self), *final(self), files_capture(files), matched_pattern, r),
    {
        self.insert_captured(
            CapturedContent { files: Some(files), image: None, html: None, rtf: None, text: None },
            matched_pattern,
        )
    }

    /// Stores an image (see `insert_outcome`).
    pub fn insert_image(
        &mut self,
        mime: String,
        width: u32,
        height: u32,
        bytes: Vec<u8>,
        matched_pattern: Option<String>,
    ) -> (r: Result<u128, String>)
        requires
            captured_size(image_capture(CapturedImage { mime, width, height, bytes }))
                <= i64::MAX,
        ensures
            insert_outcome(
                *old(self),
                *final(self),
                image_capture(CapturedImage { mime, width, height, bytes }),
                matched_pattern,
                r,
            ),
    {
        self.insert_captured(
            CapturedContent {
                files: None,
                image: Some(CapturedImage { mime, width, height, bytes }),
                html: None,
                rtf: None,
                text: None,
            },
            matched_pattern,
        )
    }
}

/// Whether an entry is well formed (see `entry_wf`).
fn entry_wf_exec(e: &StoredEntry) -> (r: bool)
    ensures
        r == entry_wf(*e),
{
    if e.size_bytes > (i64::MAX as u64) {
        return false;
    }
    let mut i: usize = 0;
    while i < e.formats.len()
        invariant
            i <= e.formats@.len(),
            forall|a: int, b: int|
                0 <= a < b < e.formats@.len() && a < i ==> #[trigger] e.formats@[a].0
                    != #[trigger] e.formats@[b].0,
        decreases e.formats@.len() - i,
    {
        let mut j: usize = i + 1;
        while j < e.formats.len()
            invariant
                i < e.formats@.len(),
                i + 1 <= j <= e.formats@.len(),
                forall|a: int, b: int|
                    0 <= a < b < e.formats@.len() && a < i ==> #[trigger] e.formats@[a].0
                        != #[trigger] e.formats@[b].0,
                forall|b: int| i < b < j ==> e.formats@[i as int].0 != #[trigger] e.formats@[b].0,
            decreases e.formats@.len() - j,
        {
            if e.formats[i].0 == e.formats[j].0 {
                return false;
            }
            j += 1;
        }
        i += 1;
    }
    true
}

/// The rows kept when a history is rebuilt, taken from the last to the
/// first: a row is placed by time when it is well formed and its id is not
/// taken yet.
pub open spec fn restored(rows: Seq<StoredEntry>) -> Seq<StoredEntry>
    decreases rows.len(),
{
    if rows.len() == 0 {
        seq![]
    } else {
        let r = restored(rows.drop_first());
        let e = rows[0];
        if entry_wf(e) && !has_id(r, e.id) {
            insert_by_time(r, e)
        } else {
            r
        }
    }
}


// ---------------------------------------------------------------------------
// Listing
// ---------------------------------------------------------------------------

/// Which kinds a listing shows.
#[derive(Clone, Copy, Debug, PartialEq, Eq, Structural, Default)]
pub enum FilterKind {
    #[default]
    All,
    Text,
    Image,
    Html,
    Rtf,
    Files,
}

/// A listing's filter: a kind, a search text (blank for none) and whether
/// only pinned entries are shown.
#[derive(Clone, Debug, Default)]
pub struct Filter {
    pub kind: FilterKind,
    pub query: String,
    pub pinned_only: bool,
}

/// One entry as a listing shows it.
#[derive(Clone, Debug)]
pub struct HistoryEntryView {
    pub id: u128,
    pub timestamp: i64,
    pub kind_tag: String,
    pub preview: String,
    pub line_count: u32,
    pub mime: Option<String>,
    pub width: Option<u32>,
    pub height: Option<u32>,
    pub size_bytes: u64,
    pub matched_pattern: Option<String>,
    pub pinned: bool,
    pub last_sent_to: Option<String>,
    pub formats: Vec<String>,
}

/// The content of a listed entry.
pub struct ListedView {
    pub id: u128,
    pub timestamp: i64,
    pub kind_tag: Seq<char>,
    pub preview: Seq<char>,
    pub line_count: u32,
    pub mime: Option<Seq<char>>,
    pub width: Option<u32>,
    pub height: Option<u32>,
    pub size_bytes: u64,
    pub matched_pattern: Option<Seq<char>>,
    pub pinned: bool,
    pub last_sent_to: Option<Seq<char>>,
    pub formats: Seq<Seq<char>>,
}

impl View for HistoryEntryView {
    type V = ListedView;

    open spec fn view(&self) -> ListedView {
        ListedView {
            id: self.id,
            timestamp: self.timestamp,
            kind_tag: self.kind_tag@,
            preview: self.preview@,
            line_count: self.line_count,
            mime: opt_view(self.mime),
            width: self.width,
            height: self.height,
            size_bytes: self.size_bytes,
            matched_pattern: opt_view(self.matched_pattern),
            pinned: self.pinned,
            last_sent_to: opt_view(self.last_sent_to),
            formats: strings_view(self.formats@),
        }
    }
}

/// Whether a filter kind admits an entry kind.
pub open spec fn kind_selected(f: FilterKind, k: EntryKind) -> bool {
    match f {
        FilterKind::All => true,
        FilterKind::Text => k == EntryKind::Text,
        FilterKind::Image => k == EntryKind::Image,
        FilterKind::Html => k == EntryKind::Html,
        FilterKind::Rtf => k == EntryKind::Rtf,
        FilterKind::Files => k == EntryKind::Files,
    }
}

/// The entries among the first `n` whose pinned flag is `pinned` and that the
/// kind and pinned-only settings admit, newest first.
pub open spec fn scan_pass(
    es: Seq<StoredEntry>,
    n: int,
    kind: FilterKind,
    pinned_only: bool,
    pinned: bool,
) -> Seq<StoredEntry>
    decreases n,
{
    if n <= 0 {
        seq![]
    } else {
        let e = es[n - 1];
        let rest = scan_pass(es, n - 1, kind, pinned_only, pinned);
        if e.pinned == pinned && kind_selected(kind, e.kind) && (!pinned_only || e.pinned) {
            seq![e] + rest
        } else {
            rest
        }
    }
}

/// The entries a filter admits in listing order: pinned ones first, each
/// group newest first.
pub open spec fn scan_order(es: Seq<StoredEntry>, kind: FilterKind, pinned_only: bool) -> Seq<
    StoredEntry,
> {
    scan_pass(es, es.len() as int, kind, pinned_only, true) + scan_pass(
        es,
        es.len() as int,
        kind,
        pinned_only,
        false,
    )
}

/// The text a blob holds under `key`, if it opens and is UTF-8.
pub open spec fn decoded(key: Seq<u8>, blob: Seq<u8>) -> Option<Seq<char>> {
    match opened(key, blob) {
        Some(b) => if valid_utf8(b) {
            Some(decode_utf8(b))
        } else {
            None
        },
        None => None,
    }
}

/// The decrypted main content of an entry, if it has one that decrypts to
/// text.
pub open spec fn plain_of(e: StoredEntry, key: Seq<u8>) -> Option<Seq<char>> {
    match e.content_ct {
        Some(ct) => decoded(key, ct@),
        None => None,
    }
}

/// The text a search sees: the plain text of HTML or RTF, else the content.
pub open spec fn searchable_text(k: EntryKind, s: Seq<char>) -> Seq<char> {
    match k {
        EntryKind::Html => html_text_spec(s),
        EntryKind::Rtf => rtf_text_spec(s),
        _ => s,
    }
}

/// Whether an entry matches a (lower-cased) search: a blank search matches
/// everything; a text-like entry matches when its searchable text, lower
/// cased, contains the search (one whose content does not decrypt always
/// matches); an image matches when the pattern it matched, lower cased,
/// contains the search.
pub open spec fn listed(e: StoredEntry, key: Seq<u8>, q: Seq<char>) -> bool {
    if e.kind != EntryKind::Image {
        match plain_of(e, key) {
            Some(s) => q.len() == 0 || contains_seq(
                lower_text(searchable_text(e.kind, s)),
                q,
            ),
            None => true,
        }
    } else {
        q.len() == 0 || match e.matched_pattern {
            Some(p) => contains_seq(lower_text(p@), q),
            None => false,
        }
    }
}

/// The preview text and line count of an entry: for a file list the file
/// names and their count, for other text-like entries the preview of their
/// searchable text; nothing for an image or content that does not decrypt.
pub open spec fn preview_of(e: StoredEntry, key: Seq<u8>) -> (Seq<char>, u32) {
    if e.kind == EntryKind::Image {
        (seq![], 0)
    } else {
        match plain_of(e, key) {
            Some(s) => if e.kind == EntryKind::Files {
                (files_preview_text(s), file_list(s).len() as u32)
            } else {
                (
                    preview_text(searchable_text(e.kind, s)),
                    preview_line_count(searchable_text(e.kind, s)),
                )
            },
            None => (seq![], 0),
        }
    }
}

/// Whether an entry holds a format: as its kind, as its image, or as an
/// extra format.
pub open spec fn has_format(e: StoredEntry, k: EntryKind) -> bool {
    ||| e.kind == k
    ||| (k == EntryKind::Image && e.image_ct is Some)
    ||| exists|i: int| 0 <= i < e.formats@.len() && (#[trigger] e.formats@[i]).0 == k
}

/// The tag of a format if the entry holds it.
pub open spec fn tag_if(e: StoredEntry, k: EntryKind) -> Seq<Seq<char>> {
    if has_format(e, k) {
        seq![kind_tag(k)]
    } else {
        seq![]
    }
}

/// The formats an entry holds, in the order files, image, HTML, RTF, text.
pub open spec fn format_tags(e: StoredEntry) -> Seq<Seq<char>> {
    tag_if(e, EntryKind::Files) + tag_if(e, EntryKind::Image) + tag_if(e, EntryKind::Html)
        + tag_if(e, EntryKind::Rtf) + tag_if(e, EntryKind::Text)
}

/// What a listing shows of an entry.
pub open spec fn listed_view(e: StoredEntry, key: Seq<u8>) -> ListedView {
    ListedView {
        id: e.id,
        timestamp: e.timestamp,
        kind_tag: kind_tag(e.kind),
        preview: preview_of(e, key).0,
        line_count: preview_of(e, key).1,
        mime: opt_view(e.mime),
        width: e.width,
        height: e.height,
        size_bytes: e.size_bytes,
        matched_pattern: opt_view(e.matched_pattern),
        pinned: e.pinned,
        last_sent_to: opt_view(e.last_sent_to),
        formats: format_tags(e),
    }
}

/// The entries of a listing: those the filter admits, in listing order, that
/// match the lower-cased search, after skipping `offset` of them, at most
/// `limit` of them (at most one for a limit of 0).
pub open spec fn listing(
    es: Seq<StoredEntry>,
    key: Seq<u8>,
    f: Filter,
    offset: u32,
    limit: u32,
) -> Seq<StoredEntry> {
    let q = lower_text(f.query@);
    let hits = scan_order(es, f.kind, f.pinned_only).filter(|e: StoredEntry| listed(e, key, q));
    let room: int = if limit == 0 {
        1
    } else {
        limit as int
    };
    let rest = hits.skip(if offset <= hits.len() {
        offset as int
    } else {
        hits.len() as int
    });
    if room <= rest.len() {
        rest.take(room)
    } else {
        rest
    }
}

/// The filtered prefix of a sequence is a prefix of the filtered sequence.
pub proof fn lemma_filter_take<A>(s: Seq<A>, p: spec_fn(A) -> bool, i: int)
    requires
        0 <= i <= s.len(),
    ensures
        s.take(i).filter(p).len() <= s.filter(p).len(),
        s.filter(p).take(s.take(i).filter(p).len() as int) == s.take(i).filter(p),
    decreases s.len(),
{
    reveal(Seq::filter);
    s.take(i).lemma_filter_len(p);
    s.lemma_filter_len(p);
    if i == s.len() {
        assert(s.take(i) =~= s);
        assert(s.filter(p).take(s.filter(p).len() as int) =~= s.filter(p));
    } else {
        assert(s.drop_last().take(i) =~= s.take(i));
        lemma_filter_take(s.drop_last(), p, i);
        assert(s.filter(p) == (if p(s.last()) {
            s.drop_last().filter(p).push(s.last())
        } else {
            s.drop_last().filter(p)
        }));
        let k = s.take(i).filter(p).len() as int;
        assert(s.filter(p).take(k) =~= s.drop_last().filter(p).take(k));
    }
}

/// The positions, in listing order, of the entries among the first `n` that
/// one pass admits, appended to `out`.
fn scan_pass_exec(
    es: &Vec<StoredEntry>,
    kind: FilterKind,
    pinned_only: bool,
    pinned: bool,
    out: &mut Vec<usize>,
)
    requires
        forall|k: int| 0 <= k < old(out)@.len() ==> #[trigger] old(out)@[k] < es@.len(),
    ensures
        forall|k: int| 0 <= k < final(out)@.len() ==> #[trigger] final(out)@[k] < es@.len(),
        final(out)@.map_values(|j: usize| es@[j as int]) == old(out)@.map_values(
            |j: usize| es@[j as int],
        ) + scan_pass(es@, es@.len() as int, kind, pinned_only, pinned),
{
    let ghost base = out@.map_values(|j: usize| es@[j as int]);
    let mut i = es.len();
    assert(scan_pass(es@, 0, kind, pinned_only, pinned) =~= Seq::<StoredEntry>::empty());
    assert(out@.map_values(|j: usize| es@[j as int]) + scan_pass(
        es@,
        es@.len() as int,
        kind,
        pinned_only,
        pinned,
    ) =~= base + scan_pass(es@, es@.len() as int, kind, pinned_only, pinned));
    while i > 0
        invariant
            i <= es@.len(),
            forall|k: int| 0 <= k < out@.len() ==> #[trigger] out@[k] < es@.len(),
            base + scan_pass(es@, es@.len() as int, kind, pinned_only, pinned) == out@.map_values(
                |j: usize| es@[j as int],
            ) + scan_pass(es@, i as int, kind, pinned_only, pinned),
        decreases i,
    {
        let e = &es[i - 1];
        let keep = e.pinned == pinned && kind_matches(kind, e.kind) && (!pinned_only || e.pinned);
        let ghost before = out@.map_values(|j: usize| es@[j as int]);
        let ghost rest = scan_pass(es@, i - 1, kind, pinned_only, pinned);
        if keep {
            out.push(i - 1);
            assert(out@.map_values(|j: usize| es@[j as int]) =~= before.push(es@[i - 1]));
            assert(before.push(es@[i - 1]) + rest =~= before + (seq![es@[i - 1]] + rest));
        }
        i -= 1;
    }
    assert(scan_pass(es@, 0, kind, pinned_only, pinned) =~= Seq::<StoredEntry>::empty());
    assert(out@.map_values(|j: usize| es@[j as int]) + Seq::<StoredEntry>::empty()
        =~= out@.map_values(|j: usize| es@[j as int]));
}

/// Whether a filter kind admits an entry kind.
fn kind_matches(f: FilterKind, k: EntryKind) -> (r: bool)
    ensures
        r == kind_selected(f, k),
{
    match f {
        FilterKind::All => true,
        FilterKind::Text => k == EntryKind::Text,
        FilterKind::Image => k == EntryKind::Image,
        FilterKind::Html => k == EntryKind::Html,
        FilterKind::Rtf => k == EntryKind::Rtf,
        FilterKind::Files => k == EntryKind::Files,
    }
}

/// The text a blob holds under `key` (see `decoded`).
fn decode_blob(key: &[u8; 32], blob: &Vec<u8>) -> (r: Option<String>)
    ensures
        opt_view(r) == decoded(key@, blob@),
{
    match decrypt(key, blob.as_slice()) {
        Ok(b) => string_from_utf8(b),
        Err(_) => None,
    }
}

/// The decrypted main content of an entry (see `plain_of`).
fn plain_text(e: &StoredEntry, key: &[u8; 32]) -> (r: Option<String>)
    ensures
        opt_view(r) == plain_of(*e, key@),
{
    match &e.content_ct {
        Some(ct) => decode_blob(key, ct),
        None => None,
    }
}

/// Whether a lower-cased text contains the search.
fn lower_contains(s: &str, q: &Vec<char>) -> (r: bool)
    ensures
        r == contains_seq(lower_text(s@), q@),
{
    let l = to_lowercase(s);
    let lv = chars_of(l.as_str());
    contains_exec(&lv, q)
}

/// Whether an entry matches the search, and its preview (see `listed` and
/// `preview_of`).
fn inspect_entry(e: &StoredEntry, key: &[u8; 32], q: &Vec<char>) -> (r: (bool, Vec<char>, u32))
    ensures
        r.0 == listed(*e, key@, q@),
        r.1@ == preview_of(*e, key@).0,
        r.2 == preview_of(*e, key@).1,
{
    if e.kind != EntryKind::Image {
        match plain_text(e, key) {
            Some(s) => {
                let searchable: String = match e.kind {
                    EntryKind::Html => html_to_text(s.as_str()),
                    EntryKind::Rtf => rtf_to_text(s.as_str()),
                    _ => s.clone(),
                };
                let sv = chars_of(searchable.as_str());
                let (p, n) = if e.kind == EntryKind::Files {
                    let raw = chars_of(s.as_str());
                    files_preview_chars(&raw)
                } else {
                    preview_chars(&sv)
                };
                let pass = q.len() == 0 || lower_contains(searchable.as_str(), q);
                (pass, p, n)
            },
            None => (true, Vec::new(), 0),
        }
    } else {
        let pass = q.len() == 0 || match &e.matched_pattern {
            Some(p) => lower_contains(p.as_str(), q),
            None => false,
        };
        (pass, Vec::new(), 0)
    }
}

/// Whether an entry holds a format (see `has_format`).
fn has_format_exec(e: &StoredEntry, k: EntryKind) -> (r: bool)
    ensures
        r == has_format(*e, k),
{
    if e.kind == k || (k == EntryKind::Image && e.image_ct.is_some()) {
        return true;
    }
    let mut i: usize = 0;
    while i < e.formats.len()
        invariant
            i <= e.formats@.len(),
            forall|j: int| 0 <= j < i ==> (#[trigger] e.formats@[j]).0 != k,
        decreases e.formats@.len() - i,
    {
        if e.formats[i].0 == k {
            return true;
        }
        i += 1;
    }
    false
}

/// The formats an entry holds (see `format_tags`).
fn format_tags_exec(e: &StoredEntry) -> (r: Vec<String>)
    ensures
        strings_view(r@) == format_tags(*e),
{
    let mut out: Vec<String> = Vec::new();
    let kinds = [EntryKind::Files, EntryKind::Image, EntryKind::Html, EntryKind::Rtf, EntryKind::Text];
    let ghost parts = seq![
        tag_if(*e, EntryKind::Files),
        tag_if(*e, EntryKind::Image),
        tag_if(*e, EntryKind::Html),
        tag_if(*e, EntryKind::Rtf),
        tag_if(*e, EntryKind::Text),
    ];
    let mut i: usize = 0;
    while i < 5
        invariant
            i <= 5,
            kinds@ == seq![EntryKind::Files, EntryKind::Image, EntryKind::Html, EntryKind::Rtf, EntryKind::Text],
            parts == seq![
                tag_if(*e, EntryKind::Files),
                tag_if(*e, EntryKind::Image),
                tag_if(*e, EntryKind::Html),
                tag_if(*e, EntryKind::Rtf),
                tag_if(*e, EntryKind::Text),
            ],
            strings_view(out@) == parts.take(i as int).fold_left(
                Seq::<Seq<char>>::empty(),
                |acc: Seq<Seq<char>>, x: Seq<Seq<char>>| acc + x,
            ),
        decreases 5 - i,
    {
        let k = kinds[i];
        let ghost b = strings_view(out@);
        assert(parts.take(i + 1).drop_last() =~= parts.take(i as int));
        assert(parts[i as int] == tag_if(*e, k));
        if has_format_exec(e, k) {
            out.push(String::from_str(k.tag()));
            assert(strings_view(out@) =~= b + seq![kind_tag(k)]);
        } else {
            assert(strings_view(out@) =~= b + Seq::<Seq<char>>::empty());
        }
        i += 1;
    }
    assert(parts.take(5) =~= parts);
    proof {
        reveal_with_fuel(Seq::fold_left, 6);
        assert(parts.take(1) =~= seq![parts[0]]);
        assert(parts.take(2).drop_last() =~= parts.take(1));
        assert(parts.take(3).drop_last() =~= parts.take(2));
        assert(parts.take(4).drop_last() =~= parts.take(3));
        assert(parts.drop_last() =~= parts.take(4));
        assert(parts.take(1).drop_last() =~= Seq::<Seq<Seq<char>>>::empty());
        assert(Seq::<Seq<char>>::empty() + tag_if(*e, EntryKind::Files) =~= tag_if(
            *e,
            EntryKind::Files,
        ));
    }
    out
}

/// What a listing shows of an entry, given its preview.
fn make_view(e: &StoredEntry, preview: Vec<char>, line_count: u32) -> (r: HistoryEntryView)
    ensures
        r@.id == e.id && r@.timestamp == e.timestamp && r@.kind_tag == kind_tag(e.kind)
            && r@.preview == preview@ && r@.line_count == line_count && r@.mime == opt_view(
            e.mime,
        ) && r@.width == e.width && r@.height == e.height && r@.size_bytes == e.size_bytes
            && r@.matched_pattern == opt_view(e.matched_pattern) && r@.pinned == e.pinned
            && r@.last_sent_to == opt_view(e.last_sent_to) && r@.formats == format_tags(*e),
{
    HistoryEntryView {
        id: e.id,
        timestamp: e.timestamp,
        kind_tag: String::from_str(e.kind.tag()),
        preview: string_of(&preview),
        line_count,
        mime: copy_opt_string(&e.mime),
        width: e.width,
        height: e.height,
        size_bytes: e.size_bytes,
        matched_pattern: copy_opt_string(&e.matched_pattern),
        pinned: e.pinned,
        last_sent_to: copy_opt_string(&e.last_sent_to),
        formats: format_tags_exec(e),
    }
}


/// One more element of a filtered prefix.
pub proof fn lemma_filter_step<A>(s: Seq<A>, p: spec_fn(A) -> bool, i: int)
    requires
        0 <= i < s.len(),
    ensures
        s.take(i + 1).filter(p) == (if p(s[i]) {
            s.take(i).filter(p).push(s[i])
        } else {
            s.take(i).filter(p)
        }),
{
    reveal(Seq::filter);
    assert(s.take(i + 1).drop_last() =~= s.take(i));
    assert(s.take(i + 1).last() == s[i]);
}


impl HistoryCoordinator {
    /// The entries a filter selects (see `listing`), as a listing shows them
    /// (see `listed_view`).
    pub fn list(&self, filter: &Filter, offset: u32, limit: u32) -> (r: Result<
        Vec<HistoryEntryView>,
        String,
    >)
        ensures
            r is Ok,
            r matches Ok(v) ==> v@.map_values(|x: HistoryEntryView| x@) == listing(
                self.stored(),
                self.key_bytes(),
                *filter,
                offset,
                limit,
            ).map_values(|e: StoredEntry| listed_view(e, self.key_bytes())),
    {
        let mut cand: Vec<usize> = Vec::new();
        scan_pass_exec(&self.entries, filter.kind, filter.pinned_only, true, &mut cand);
        scan_pass_exec(&self.entries, filter.kind, filter.pinned_only, false, &mut cand);
        let ghost es = self.entries@;
        let ghost key = self.key@;
        let ghost c = cand@.map_values(|j: usize| es[j as int]);
        assert(c =~= scan_order(es, filter.kind, filter.pinned_only));
        let ql = to_lowercase(filter.query.as_str());
        let q = chars_of(ql.as_str());
        let ghost pred = |e: StoredEntry| listed(e, key, q@);
        let room: usize = if limit == 0 {
            1
        } else {
            limit as usize
        };
        let mut views: Vec<HistoryEntryView> = Vec::new();
        let mut skipped: u32 = 0;
        let mut i: usize = 0;
        assert(c.take(0).filter(pred) =~= Seq::<StoredEntry>::empty()) by {
            reveal(Seq::filter);
        }
        while i < cand.len() && views.len() < room
            invariant
                i <= cand@.len(),
                es == self.entries@,
                key == self.key@,
                c == cand@.map_values(|j: usize| es[j as int]),
                forall|k: int| 0 <= k < cand@.len() ==> #[trigger] cand@[k] < es.len(),
                q@ == lower_text(filter.query@),
                pred == |e: StoredEntry| listed(e, key, q@),
                room == (if limit == 0 {
                    1
                } else {
                    limit as int
                }),
                skipped as int == (if offset <= c.take(i as int).filter(pred).len() {
                    offset as int
                } else {
                    c.take(i as int).filter(pred).len() as int
                }),
                views@.map_values(|x: HistoryEntryView| x@) == c.take(i as int).filter(pred).skip(
                    skipped as int,
                ).map_values(|e: StoredEntry| listed_view(e, key)),
                views@.len() <= room,
            decreases cand.len() - i,
        {
            let e = &self.entries[cand[i]];
            assert(*e == c[i as int]);
            let (pass, p, n) = inspect_entry(e, &self.key, &q);
            proof {
                lemma_filter_step(c, pred, i as int);
            }
            let ghost h = c.take(i as int).filter(pred);
            let ghost before = views@.map_values(|x: HistoryEntryView| x@);
            if pass {
                if skipped < offset {
                    skipped = skipped + 1;
                    assert(h.push(*e).skip(skipped as int) =~= Seq::<StoredEntry>::empty());
                    assert(before =~= Seq::<ListedView>::empty());
                } else {
                    let v = make_view(e, p, n);
                    assert(v@ == listed_view(*e, key));
                    views.push(v);
                    assert(views@.map_values(|x: HistoryEntryView| x@) =~= before.push(
                        listed_view(*e, key),
                    ));
                    assert(h.push(*e).skip(skipped as int) =~= h.skip(skipped as int).push(*e));
                }
            }
            i += 1;
        }
        proof {
            let h = c.take(i as int).filter(pred);
            let hits = c.filter(pred);
            assert(pred =~= |e: StoredEntry| listed(e, key, lower_text(filter.query@)));
            lemma_filter_take(c, pred, i as int);
            if i == cand.len() {
                assert(c.take(i as int) =~= c);
            } else {
                assert(views@.len() == room);
                assert(hits.take(h.len() as int) == h);
                assert(hits.skip(offset as int).take(room as int) =~= h.skip(offset as int));
            }
        }
        Ok(views)
    }
}


// ---------------------------------------------------------------------------
// Reading one entry back
// ---------------------------------------------------------------------------

/// An entry with all its formats decrypted.
#[derive(Clone, Debug, Default)]
pub struct FullEntry {
    pub kind: String,
    pub mime: Option<String>,
    pub text: Option<String>,
    pub html: Option<String>,
    pub rtf: Option<String>,
    pub files: Option<Vec<String>>,
    pub image: Option<Vec<u8>>,
}

/// The content of a `FullEntry`.
pub struct FullView {
    pub kind: Seq<char>,
    pub mime: Option<Seq<char>>,
    pub text: Option<Seq<char>>,
    pub html: Option<Seq<char>>,
    pub rtf: Option<Seq<char>>,
    pub files: Option<Seq<Seq<char>>>,
    pub image: Option<Seq<u8>>,
}

/// The view of an optional list of strings.
pub open spec fn opt_strings_view(o: Option<Vec<String>>) -> Option<Seq<Seq<char>>> {
    match o {
        Some(v) => Some(strings_view(v@)),
        None => None,
    }
}

/// The view of optional bytes.
pub open spec fn opt_bytes_view(o: Option<Vec<u8>>) -> Option<Seq<u8>> {
    match o {
        Some(v) => Some(v@),
        None => None,
    }
}

impl View for FullEntry {
    type V = FullView;

    open spec fn view(&self) -> FullView {
        FullView {
            kind: self.kind@,
            mime: opt_view(self.mime),
            text: opt_view(self.text),
            html: opt_view(self.html),
            rtf: opt_view(self.rtf),
            files: opt_strings_view(self.files),
            image: opt_bytes_view(self.image),
        }
    }
}

/// The position of the last of the first `n` extra formats of kind `k`.
pub open spec fn last_format(fs: Seq<(EntryKind, Vec<u8>)>, k: EntryKind, n: int) -> Option<int>
    decreases n,
{
    if n <= 0 {
        None
    } else if fs[n - 1].0 == k {
        Some(n - 1)
    } else {
        last_format(fs, k, n - 1)
    }
}

/// The text of the extra format of kind `k`, if the entry has one.
pub open spec fn extra_text(e: StoredEntry, key: Seq<u8>, k: EntryKind) -> Option<Seq<char>> {
    match last_format(e.formats@, k, e.formats@.len() as int) {
        Some(j) => decoded(key, e.formats@[j].1@),
        None => None,
    }
}

/// Whether every encrypted part of an entry decrypts (and every text part is
/// UTF-8).
pub open spec fn full_ok(e: StoredEntry, key: Seq<u8>) -> bool {
    &&& (e.content_ct is Some ==> plain_of(e, key) is Some)
    &&& forall|i: int|
        0 <= i < e.formats@.len() ==> decoded(key, (#[trigger] e.formats@[i]).1@) is Some
    &&& (e.image_ct is Some ==> opened(key, e.image_ct->0@) is Some)
}

/// An entry read back: the main content under its kind (text for a text or
/// an image), the extra formats over it, the file list split into its
/// non-empty lines, and the image.
pub open spec fn full_view_of(e: StoredEntry, key: Seq<u8>) -> FullView {
    let prim = plain_of(e, key);
    let n = e.formats@.len() as int;
    FullView {
        kind: kind_tag(e.kind),
        mime: opt_view(e.mime),
        text: if last_format(e.formats@, EntryKind::Text, n) is Some {
            extra_text(e, key, EntryKind::Text)
        } else if e.kind == EntryKind::Text || e.kind == EntryKind::Image {
            prim
        } else {
            None
        },
        html: if last_format(e.formats@, EntryKind::Html, n) is Some {
            extra_text(e, key, EntryKind::Html)
        } else if e.kind == EntryKind::Html {
            prim
        } else {
            None
        },
        rtf: if last_format(e.formats@, EntryKind::Rtf, n) is Some {
            extra_text(e, key, EntryKind::Rtf)
        } else if e.kind == EntryKind::Rtf {
            prim
        } else {
            None
        },
        files: if e.kind == EntryKind::Files {
            match prim {
                Some(t) => Some(file_list(t)),
                None => None,
            }
        } else {
            None
        },
        image: match e.image_ct {
            Some(ct) => opened(key, ct@),
            None => None,
        },
    }
}

/// The position of the entry with the id.
pub open spec fn id_index(es: Seq<StoredEntry>, id: u128) -> int {
    choose|i: int| 0 <= i < es.len() && #[trigger] es[i].id == id
}

/// The position of the entry with the id, if one is stored.
fn find_id(es: &Vec<StoredEntry>, id: u128) -> (r: Option<usize>)
    requires
        store_wf(es@),
    ensures
        r is Some <==> has_id(es@, id),
        r matches Some(i) ==> i < es@.len() && es@[i as int].id == id && i == id_index(es@, id),
{
    let mut i: usize = 0;
    while i < es.len()
        invariant
            i <= es.len(),
            store_wf(es@),
            forall|j: int| 0 <= j < i ==> #[trigger] es@[j].id != id,
        decreases es.len() - i,
    {
        if es[i].id == id {
            proof {
                let k = id_index(es@, id);
                assert(es@[i as int].id == id);
                assert(0 <= k < es@.len() && es@[k].id == id);
                if k != i {
                    if k < i {
                        assert(es@[k].id != es@[i as int].id);
                    } else {
                        assert(es@[i as int].id != es@[k].id);
                    }
                }
            }
            return Some(i);
        }
        i += 1;
    }
    None
}

/// The file paths of a newline-joined list, as strings.
fn file_strings(joined: &String) -> (r: Vec<String>)
    ensures
        strings_view(r@) == file_list(joined@),
{
    let v = chars_of(joined.as_str());
    let ls = file_list_exec(&v);
    let mut out: Vec<String> = Vec::new();
    let mut i: usize = 0;
    while i < ls.len()
        invariant
            i <= ls.len(),
            strings_view(out@) == views(ls@).take(i as int),
        decreases ls.len() - i,
    {
        let ghost b = strings_view(out@);
        out.push(string_of(&ls[i]));
        assert(strings_view(out@) =~= b.push(ls@[i as int]@));
        assert(views(ls@).take(i + 1) =~= views(ls@).take(i as int).push(ls@[i as int]@));
        i += 1;
    }
    assert(views(ls@).take(i as int) =~= views(ls@));
    out
}

/// The message of a blob that does not decrypt under `key` (see `decrypt`).
pub open spec fn decrypt_message(blob: Seq<u8>) -> Seq<char> {
    if blob.len() < 24 {
        crate::crypto::short_blob_error()
    } else {
        crate::crypto::decrypt_error()
    }
}

/// The message of a text part that does not decode: that of decryption, or
/// std's description of the invalid UTF-8.
pub open spec fn decode_message(key: Seq<u8>, blob: Seq<u8>) -> Seq<char> {
    match opened(key, blob) {
        Some(b) => utf8_error_text(b),
        None => decrypt_message(blob),
    }
}

/// The position of the first extra format, from `i` on, that does not decode.
pub open spec fn first_bad_format(key: Seq<u8>, fs: Seq<(EntryKind, Vec<u8>)>, i: int) -> Option<int>
    decreases fs.len() - i,
{
    if i < 0 || i >= fs.len() {
        None
    } else if decoded(key, fs[i].1@) is None {
        Some(i)
    } else {
        first_bad_format(key, fs, i + 1)
    }
}

/// The message `get_full_entry` fails with for an entry: the main content is
/// decoded first, then the extra formats in order, then the image.
pub open spec fn full_error(e: StoredEntry, key: Seq<u8>) -> Seq<char> {
    if e.content_ct is Some && plain_of(e, key) is None {
        decode_message(key, e.content_ct->0@)
    } else {
        match first_bad_format(key, e.formats@, 0) {
            Some(j) => decode_message(key, e.formats@[j].1@),
            None => match e.image_ct {
                Some(ct) => decrypt_message(ct@),
                None => seq![],
            },
        }
    }
}

/// With every format before `i` decoding and the one at `i` not, `i` is the
/// first bad format.
pub proof fn lemma_first_bad_format(key: Seq<u8>, fs: Seq<(EntryKind, Vec<u8>)>, k: int, i: int)
    requires
        0 <= k <= i < fs.len(),
        forall|j: int| 0 <= j < i ==> decoded(key, (#[trigger] fs[j]).1@) is Some,
        decoded(key, fs[i].1@) is None,
    ensures
        first_bad_format(key, fs, k) == Some(i),
    decreases i - k,
{
    if k < i {
        lemma_first_bad_format(key, fs, k + 1, i);
    }
}

/// With every format from `k` on decoding, none is bad.
pub proof fn lemma_no_bad_format(key: Seq<u8>, fs: Seq<(EntryKind, Vec<u8>)>, k: int)
    requires
        0 <= k,
        forall|j: int| k <= j < fs.len() ==> decoded(key, (#[trigger] fs[j]).1@) is Some,
    ensures
        first_bad_format(key, fs, k) is None,
    decreases fs.len() - k,
{
    if k < fs.len() {
        lemma_no_bad_format(key, fs, k + 1);
    }
}

/// Decrypts a text part, or fails with the first message of decryption or of
/// UTF-8 decoding.
fn decode_or_fail(key: &[u8; 32], blob: &Vec<u8>) -> (r: Result<String, String>)
    ensures
        r is Ok <==> decoded(key@, blob@) is Some,
        r matches Ok(t) ==> Some(t@) == decoded(key@, blob@),
        r matches Err(m) ==> m@ == decode_message(key@, blob@),
{
    let b = match decrypt(key, blob.as_slice()) {
        Ok(b) => b,
        Err(m) => {
            return Err(m);
        },
    };
    match str_from_utf8(b.as_slice()) {
        Ok(t) => Ok(t),
        Err(m) => Err(m),
    }
}

impl HistoryCoordinator {
    /// The entry with the id with all its formats decrypted: none when no
    /// entry has the id, an error when some part does not decrypt.
    pub fn get_full_entry(&self, id: u128) -> (r: Result<Option<FullEntry>, String>)
        ensures
            !has_id(self.stored(), id) ==> r matches Ok(None),
            has_id(self.stored(), id) ==> {
                let e = self.stored()[id_index(self.stored(), id)];
                &&& (r is Ok <==> full_ok(e, self.key_bytes()))
                &&& (r matches Ok(o) ==> (o matches Some(f) && f@ == full_view_of(e, self.key_bytes())))
                &&& (r matches Err(m) ==> m@ == full_error(e, self.key_bytes()))
            },
    {
        proof {
            use_type_invariant(self);
        }
        let idx = match find_id(&self.entries, id) {
            Some(i) => i,
            None => {
                return Ok(None);
            },
        };
        let e = &self.entries[idx];
        let ghost key = self.key@;
        let ghost fs = e.formats@;
        let ghost n = fs.len() as int;
        let mut full = FullEntry {
            kind: String::from_str(e.kind.tag()),
            mime: copy_opt_string(&e.mime),
            text: None,
            html: None,
            rtf: None,
            files: None,
            image: None,
        };
        let prim: Option<String> = match &e.content_ct {
            Some(ct) => match decode_or_fail(&self.key, ct) {
                Ok(t) => Some(t),
                Err(m) => {
                    return Err(m);
                },
            },
            None => None,
        };
        assert(opt_view(prim) == plain_of(*e, key));
        match prim {
            Some(t) => {
                match e.kind {
                    EntryKind::Html => {
                        full.html = Some(t);
                    },
                    EntryKind::Rtf => {
                        full.rtf = Some(t);
                    },
                    EntryKind::Files => {
                        full.files = Some(file_strings(&t));
                    },
                    _ => {
                        full.text = Some(t);
                    },
                }
            },
            None => {},
        }
        let ghost base_text = opt_view(full.text);
        let ghost base_html = opt_view(full.html);
        let ghost base_rtf = opt_view(full.rtf);
        let mut i: usize = 0;
        while i < e.formats.len()
            invariant
                i <= fs.len(),
                fs == e.formats@,
                key == self.key@,
                forall|j: int| 0 <= j < i ==> decoded(key, (#[trigger] fs[j]).1@) is Some,
                opt_view(full.text) == (match last_format(fs, EntryKind::Text, i as int) {
                    Some(j) => decoded(key, fs[j].1@),
                    None => base_text,
                }),
                opt_view(full.html) == (match last_format(fs, EntryKind::Html, i as int) {
                    Some(j) => decoded(key, fs[j].1@),
                    None => base_html,
                }),
                opt_view(full.rtf) == (match last_format(fs, EntryKind::Rtf, i as int) {
                    Some(j) => decoded(key, fs[j].1@),
                    None => base_rtf,
                }),
                full.kind@ == kind_tag(e.kind),
                opt_view(full.mime) == opt_view(e.mime),
                opt_strings_view(full.files) == (if e.kind == EntryKind::Files {
                    match plain_of(*e, key) {
                        Some(t) => Some(file_list(t)),
                        None => None,
                    }
                } else {
                    None
                }),
                full.image is None,
                has_id(self.stored(), id),
                idx < self.entries@.len(),
                idx == id_index(self.stored(), id),
                *e == self.entries@[idx as int],
                e.content_ct is Some ==> plain_of(*e, key) is Some,
            decreases fs.len() - i,
        {
            let content = match decode_or_fail(&self.key, &e.formats[i].1) {
                Ok(t) => t,
                Err(m) => {
                    proof {
                        lemma_first_bad_format(key, fs, 0, i as int);
                    }
                    return Err(m);
                },
            };
            match e.formats[i].0 {
                EntryKind::Text => {
                    full.text = Some(content);
                },
                EntryKind::Html => {
                    full.html = Some(content);
                },
                EntryKind::Rtf => {
                    full.rtf = Some(content);
                },
                _ => {},
            }
            i += 1;
        }
        proof {
            lemma_no_bad_format(key, fs, 0);
        }
        match &e.image_ct {
            Some(ct) => match decrypt(&self.key, ct.as_slice()) {
                Ok(b) => {
                    full.image = Some(b);
                },
                Err(m) => {
                    return Err(m);
                },
            },
            None => {},
        }
        assert(full@ == full_view_of(*e, key));
        Ok(Some(full))
    }

    /// The decrypted image of the entry with the id; an error when no entry
    /// with the id has an image (`Query returned no rows`) or when it does
    /// not decrypt.
    pub fn get_image(&self, id: u128) -> (r: Result<Vec<u8>, String>)
        ensures
            !(has_id(self.stored(), id) && self.stored()[id_index(
                self.stored(),
                id,
            )].image_ct is Some) ==> (r matches Err(m) && m@ == no_rows_error()),
            has_id(self.stored(), id) ==> {
                let e = self.stored()[id_index(self.stored(), id)];
                e.image_ct matches Some(ct) ==> (r is Ok <==> opened(self.key_bytes(), ct@) is Some)
                    && (r matches Ok(b) ==> opened(self.key_bytes(), ct@) == Some(b@))
                    && (r matches Err(m) ==> m@ == decrypt_message(ct@))
            },
    {
        proof {
            use_type_invariant(self);
            reveal_strlit("Query returned no rows");
        }
        let idx = match find_id(&self.entries, id) {
            Some(i) => i,
            None => {
                return Err(String::from_str("Query returned no rows"));
            },
        };
        match &self.entries[idx].image_ct {
            Some(ct) => decrypt(&self.key, ct.as_slice()),
            None => Err(String::from_str("Query returned no rows")),
        }
    }
}

/// The message of a lookup that finds nothing.
pub open spec fn no_rows_error() -> Seq<char> {
    "Query returned no rows"@
}


// ---------------------------------------------------------------------------
// Changing entries
// ---------------------------------------------------------------------------

/// The store with the pinned flag of the entry with the id set.
pub open spec fn with_pinned(es: Seq<StoredEntry>, id: u128, pinned: bool) -> Seq<StoredEntry> {
    es.map_values(
        |e: StoredEntry|
            if e.id == id {
                StoredEntry { pinned: pinned, ..e }
            } else {
                e
            },
    )
}

/// Two entries agree on everything but the target they were last sent to.
pub open spec fn same_but_sent_to(a: StoredEntry, b: StoredEntry) -> bool {
    &&& a.id == b.id
    &&& a.timestamp == b.timestamp
    &&& a.kind == b.kind
    &&& a.content_ct == b.content_ct
    &&& a.mime == b.mime
    &&& a.width == b.width
    &&& a.height == b.height
    &&& a.size_bytes == b.size_bytes
    &&& a.matched_pattern == b.matched_pattern
    &&& a.pinned == b.pinned
    &&& a.image_ct == b.image_ct
    &&& a.formats == b.formats
}

/// Whether `new` is `old` with the target of the entry with the id set to `t`.
pub open spec fn sent_to_updated(
    old: Seq<StoredEntry>,
    new: Seq<StoredEntry>,
    id: u128,
    t: Seq<char>,
) -> bool {
    &&& new.len() == old.len()
    &&& forall|i: int|
        0 <= i < old.len() ==> if old[i].id == id {
            same_but_sent_to(#[trigger] new[i], old[i]) && opt_view(new[i].last_sent_to) == Some(t)
        } else {
            new[i] == old[i]
        }
}

/// The store without the entry with the id.
pub open spec fn without_id(es: Seq<StoredEntry>, id: u128) -> Seq<StoredEntry> {
    if has_id(es, id) {
        es.remove(id_index(es, id))
    } else {
        es
    }
}

/// Replacing an entry by one with the same id, time and formats keeps the
/// store well formed.
pub proof fn lemma_update_wf(es: Seq<StoredEntry>, i: int, e: StoredEntry)
    requires
        store_wf(es),
        0 <= i < es.len(),
        e.id == es[i].id,
        e.timestamp == es[i].timestamp,
        e.size_bytes == es[i].size_bytes,
        e.formats == es[i].formats,
    ensures
        store_wf(es.update(i, e)),
{
    let r = es.update(i, e);
    assert forall|a: int, b: int| 0 <= a < b < r.len() implies #[trigger] r[a].timestamp
        <= #[trigger] r[b].timestamp by {
        assert(es[a].timestamp <= es[b].timestamp);
    }
    assert forall|a: int, b: int| 0 <= a < b < r.len() implies #[trigger] r[a].id
        != #[trigger] r[b].id by {
        assert(es[a].id != es[b].id);
    }
    assert forall|a: int| 0 <= a < r.len() implies entry_wf(#[trigger] r[a]) by {
        assert(entry_wf(es[a]));
    }
}

impl HistoryCoordinator {
    /// Pins or unpins the entry with the id (nothing happens when none has it).
    pub fn set_pinned(&mut self, id: u128, pinned: bool) -> (r: Result<(), String>)
        ensures
            r is Ok,
            final(self).stored() == with_pinned(old(self).stored(), id, pinned),
            final(self).key_bytes() == old(self).key_bytes(),
            final(self).cap() == old(self).cap(),
            final(self).on_disk() == old(self).on_disk(),
    {
        proof {
            use_type_invariant(&*self);
        }
        let ghost o = self.entries@;
        match find_id(&self.entries, id) {
            None => {
                assert(with_pinned(o, id, pinned) =~= o);
            },
            Some(i) => {
                let mut es: Vec<StoredEntry> = Vec::new();
                std::mem::swap(&mut es, &mut self.entries);
                let mut e = es.remove(i);
                e.pinned = pinned;
                es.insert(i, e);
                proof {
                    assert(es@ =~= o.update(i as int, es@[i as int]));
                    lemma_update_wf(o, i as int, es@[i as int]);
                    assert forall|j: int| 0 <= j < o.len() implies #[trigger] with_pinned(
                        o,
                        id,
                        pinned,
                    )[j] == es@[j] by {
                        if j != i {
                            if j < i {
                                assert(o[j].id != o[i as int].id);
                            } else {
                                assert(o[i as int].id != o[j].id);
                            }
                        }
                    }
                    assert(with_pinned(o, id, pinned) =~= es@);
                }
                self.entries = es;
            },
        }
        Ok(())
    }

    /// Records the target the entry with the id was last sent to (nothing
    /// happens when none has it).
    pub fn set_last_sent_to(&mut self, id: u128, target: &str) -> (r: Result<(), String>)
        ensures
            r is Ok,
            sent_to_updated(old(self).stored(), final(self).stored(), id, target@),
            final(self).key_bytes() == old(self).key_bytes(),
            final(self).cap() == old(self).cap(),
            final(self).on_disk() == old(self).on_disk(),
    {
        proof {
            use_type_invariant(&*self);
        }
        let ghost o = self.entries@;
        match find_id(&self.entries, id) {
            None => {},
            Some(i) => {
                let mut es: Vec<StoredEntry> = Vec::new();
                std::mem::swap(&mut es, &mut self.entries);
                let mut e = es.remove(i);
                e.last_sent_to = Some(String::from_str(target));
                es.insert(i, e);
                proof {
                    assert(es@ =~= o.update(i as int, es@[i as int]));
                    lemma_update_wf(o, i as int, es@[i as int]);
                    assert forall|j: int| 0 <= j < o.len() && j != i implies o[j].id != id by {
                        if j < i {
                            assert(o[j].id != o[i as int].id);
                        } else {
                            assert(o[i as int].id != o[j].id);
                        }
                    }
                }
                self.entries = es;
            },
        }
        Ok(())
    }

    /// Deletes the entry with the id, with all its formats and its image.
    pub fn delete(&mut self, id: u128) -> (r: Result<(), String>)
        ensures
            r is Ok,
            final(self).stored() == without_id(old(self).stored(), id),
            final(self).key_bytes() == old(self).key_bytes(),
            final(self).cap() == old(self).cap(),
            final(self).on_disk() == old(self).on_disk(),
    {
        proof {
            use_type_invariant(&*self);
        }
        let ghost o = self.entries@;
        match find_id(&self.entries, id) {
            None => {},
            Some(i) => {
                let mut es: Vec<StoredEntry> = Vec::new();
                std::mem::swap(&mut es, &mut self.entries);
                es.remove(i);
                proof {
                    lemma_remove_wf(o, i as int);
                }
                self.entries = es;
            },
        }
        Ok(())
    }

    /// Deletes every entry, or every unpinned one.
    pub fn clear(&mut self, include_pinned: bool) -> (r: Result<(), String>)
        ensures
            r is Ok,
            include_pinned ==> final(self).stored() == Seq::<StoredEntry>::empty(),
            !include_pinned ==> final(self).stored() == keep_pinned(old(self).stored()),
            final(self).key_bytes() == old(self).key_bytes(),
            final(self).cap() == old(self).cap(),
            final(self).on_disk() == old(self).on_disk(),
    {
        proof {
            use_type_invariant(&*self);
        }
        let mut es: Vec<StoredEntry> = Vec::new();
        std::mem::swap(&mut es, &mut self.entries);
        if include_pinned {
            return Ok(());
        }
        let ghost orig = es@;
        assert(orig.len() == es.len());
        let ghost pred = |e: StoredEntry| e.pinned;
        let mut kept: Vec<StoredEntry> = Vec::new();
        let mut i: usize = 0;
        assert(orig.take(0).filter(pred) =~= Seq::<StoredEntry>::empty()) by {
            reveal(Seq::filter);
        }
        assert(orig.skip(0) =~= orig);
        while es.len() > 0
            invariant
                i <= orig.len(),
                orig.len() <= usize::MAX,
                es@ == orig.skip(i as int),
                store_wf(orig),
                pred == |e: StoredEntry| e.pinned,
                kept@ == orig.take(i as int).filter(pred),
                store_wf(kept@),
                forall|k: int|
                    0 <= k < kept@.len() ==> exists|j: int|
                        0 <= j < i && #[trigger] kept@[k] == #[trigger] orig[j],
            decreases es.len(),
        {
            let e = es.remove(0);
            assert(e == orig[i as int]);
            assert(orig.skip(i as int).drop_first() =~= orig.skip(i + 1));
            proof {
                lemma_filter_step(orig, pred, i as int);
            }
            if e.pinned {
                let ghost before = kept@;
                proof {
                    assert forall|k: int| 0 <= k < before.len() implies #[trigger] before[k].timestamp
                        <= e.timestamp && before[k].id != e.id by {
                        let j = choose|j: int| 0 <= j < i && before[k] == orig[j];
                        assert(orig[j].timestamp <= orig[i as int].timestamp);
                        assert(orig[j].id != orig[i as int].id);
                    }
                    assert(entry_wf(orig[i as int]));
                    assert(before.push(e) =~= before.insert(before.len() as int, e));
                    assert(!has_id(before, e.id));
                    lemma_insert_wf(before, e, before.len() as int);
                }
                kept.push(e);
                proof {
                    assert forall|k: int| 0 <= k < kept@.len() implies exists|j: int|
                        0 <= j < i + 1 && #[trigger] kept@[k] == #[trigger] orig[j] by {
                        if k < before.len() {
                            let j = choose|j: int| 0 <= j < i && before[k] == orig[j];
                            assert(kept@[k] == orig[j]);
                        } else {
                            assert(kept@[k] == orig[i as int]);
                        }
                    }
                }
            }
            i += 1;
        }
        assert(orig.take(i as int) =~= orig);
        self.entries = kept;
        Ok(())
    }
}

// ---------------------------------------------------------------------------
// Laws
// ---------------------------------------------------------------------------

/// What reading a capture back gives: its kind and MIME type, its text, HTML
/// and RTF, the non-empty lines of its joined file list, and its image.
pub open spec fn captured_view(c: CapturedContent) -> FullView {
    FullView {
        kind: kind_tag(primary_of(c)->0),
        mime: mime_of(c),
        text: opt_view(c.text),
        html: opt_view(c.html),
        rtf: opt_view(c.rtf),
        files: match c.files {
            Some(f) => Some(file_list(join(strings_view(f@), seq!['\n']))),
            None => None,
        },
        image: match c.image {
            Some(i) => Some(i.bytes@),
            None => None,
        },
    }
}

/// The text a capture holds in a text-like format.
pub open spec fn capture_field(c: CapturedContent, k: EntryKind) -> Option<String> {
    match k {
        EntryKind::Text => c.text,
        EntryKind::Html => c.html,
        EntryKind::Rtf => c.rtf,
        _ => None,
    }
}

/// The last of the first `n` formats of a kind is one of that kind, and no
/// later one is.
pub proof fn lemma_last_format(fs: Seq<(EntryKind, Vec<u8>)>, k: EntryKind, n: int)
    requires
        0 <= n <= fs.len(),
    ensures
        match last_format(fs, k, n) {
            Some(j) => 0 <= j < n && fs[j].0 == k && forall|q: int| j < q < n ==> #[trigger] fs[q].0 != k,
            None => forall|q: int| 0 <= q < n ==> #[trigger] fs[q].0 != k,
        },
    decreases n,
{
    if n > 0 {
        lemma_last_format(fs, k, n - 1);
    }
}

/// An extra format of a stored capture decrypts to the capture's text of that
/// format, and it is there exactly when the capture holds the format beside
/// another main kind.
pub proof fn lemma_capture_extra(
    e: StoredEntry,
    c: CapturedContent,
    mp: Option<String>,
    key: Seq<u8>,
    k: EntryKind,
)
    requires
        holds_capture(e, c, mp, key),
        k == EntryKind::Text || k == EntryKind::Html || k == EntryKind::Rtf,
    ensures
        last_format(e.formats@, k, e.formats@.len() as int) is Some <==> (primary_of(c) != Some(k)
            && capture_field(c, k) is Some),
        last_format(e.formats@, k, e.formats@.len() as int) is Some ==> extra_text(e, key, k)
            == opt_view(capture_field(c, k)),
{
    broadcast use vstd::utf8::encode_utf8_decode_utf8, vstd::utf8::encode_utf8_valid_utf8;

    let fs = e.formats@;
    let n = fs.len() as int;
    let sc = secondaries(c);
    let a = extra(c, EntryKind::Text, c.text);
    let b = extra(c, EntryKind::Html, c.html);
    let d = extra(c, EntryKind::Rtf, c.rtf);
    assert(sc == a + b + d);
    lemma_last_format(fs, k, n);
    // the position the format has among the extras, if any
    let pos: int = if k == EntryKind::Text {
        0
    } else if k == EntryKind::Html {
        a.len() as int
    } else {
        (a.len() + b.len()) as int
    };
    let present = primary_of(c) != Some(k) && capture_field(c, k) is Some;
    assert forall|q: int| 0 <= q < n && #[trigger] fs[q].0 == k implies present && q == pos
        && sc[q].1 == capture_field(c, k)->0@ by {
        assert(fs[q].0 == sc[q].0);
        if q < a.len() {
            assert(sc[q] == a[q]);
        } else if q < a.len() + b.len() {
            assert(sc[q] == b[q - a.len()]);
        } else {
            assert(sc[q] == d[q - a.len() - b.len()]);
        }
    }
    if present {
        assert(0 <= pos < n);
        if k == EntryKind::Text {
            assert(sc[pos] == a[0]);
        } else if k == EntryKind::Html {
            assert(sc[pos] == b[0]);
        } else {
            assert(sc[pos] == d[0]);
        }
        assert(fs[pos].0 == k);
        match last_format(fs, k, n) {
            Some(j) => {
                assert(j == pos);
                assert(decoded(key, fs[j].1@) == Some(decode_utf8(encode_utf8(sc[j].1))));
            },
            None => {
                assert(fs[pos].0 != k);
            },
        }
    }
}

/// Read after write: once a capture is stored as entry `e` (see
/// `insert_outcome`), reading its id back while it is still stored gives the
/// capture (see `captured_view`).
pub proof fn lemma_read_after_write(
    old: Seq<StoredEntry>,
    e: StoredEntry,
    c: CapturedContent,
    mp: Option<String>,
    key: Seq<u8>,
    cap: u64,
    new: Seq<StoredEntry>,
)
    requires
        store_wf(old),
        entry_wf(e),
        holds_capture(e, c, mp, key),
        !has_id(old, e.id),
        evict_run(insert_by_time(old, e), cap).0 == new,
    ensures
        has_id(new, e.id) ==> new[id_index(new, e.id)] == e,
        full_ok(e, key),
        full_view_of(e, key) == captured_view(c),
{
    broadcast use vstd::utf8::encode_utf8_decode_utf8, vstd::utf8::encode_utf8_valid_utf8;

    lemma_insert_by_time(old, e);
    lemma_evict_run(insert_by_time(old, e), cap);
    if has_id(new, e.id) {
        let i = id_index(new, e.id);
        assert(new.contains(new[i]));
        assert(insert_by_time(old, e).contains(new[i]));
        let k = choose|k: int| 0 <= k < insert_by_time(old, e).len() && insert_by_time(old, e)[k] == new[i];
        assert(insert_by_time(old, e).contains(e));
        let m = choose|m: int| 0 <= m < insert_by_time(old, e).len() && insert_by_time(old, e)[m] == e;
        if k != m {
            if k < m {
                assert(insert_by_time(old, e)[k].id != insert_by_time(old, e)[m].id);
            } else {
                assert(insert_by_time(old, e)[m].id != insert_by_time(old, e)[k].id);
            }
        }
    }
    // every part decrypts
    assert forall|i: int| 0 <= i < e.formats@.len() implies decoded(
        key,
        (#[trigger] e.formats@[i]).1@,
    ) is Some by {
        assert(opened(key, e.formats@[i].1@) == Some(encode_utf8(secondaries(c)[i].1)));
    }
    lemma_capture_extra(e, c, mp, key, EntryKind::Text);
    lemma_capture_extra(e, c, mp, key, EntryKind::Html);
    lemma_capture_extra(e, c, mp, key, EntryKind::Rtf);
    let fv = full_view_of(e, key);
    let cv = captured_view(c);
    assert(fv.text == cv.text);
    assert(fv.html == cv.html);
    assert(fv.rtf == cv.rtf);
    assert(fv.files == cv.files);
    assert(fv.image == cv.image);
    assert(fv.kind == cv.kind);
    assert(fv.mime == cv.mime);
}

/// Placing an entry by time keeps every old entry and adds one.
pub proof fn lemma_insert_keeps(es: Seq<StoredEntry>, e: StoredEntry)
    ensures
        insert_by_time(es, e).len() == es.len() + 1,
        forall|x: StoredEntry| #[trigger] es.contains(x) ==> insert_by_time(es, e).contains(x),
    decreases es.len(),
{
    if es.len() == 0 || es.last().timestamp <= e.timestamp {
        assert forall|x: StoredEntry| #[trigger] es.contains(x) implies es.push(e).contains(x) by {
            let j = choose|j: int| 0 <= j < es.len() && es[j] == x;
            assert(es.push(e)[j] == x);
        }
    } else {
        let p = es.drop_last();
        lemma_insert_keeps(p, e);
        let q = insert_by_time(p, e).push(es.last());
        assert forall|x: StoredEntry| #[trigger] es.contains(x) implies q.contains(x) by {
            let j = choose|j: int| 0 <= j < es.len() && es[j] == x;
            if j == es.len() - 1 {
                assert(q[q.len() - 1] == x);
            } else {
                assert(p[j] == x);
                assert(p.contains(x));
                let m = choose|m: int| 0 <= m < insert_by_time(p, e).len() && insert_by_time(p, e)[m] == x;
                assert(q[m] == x);
            }
        }
    }
}

/// Insert then read: after a successful insert that fits the budget, the
/// history holds one entry more and the capture's size more, every earlier
/// entry is still stored, and the new entry (unpinned, never sent, with the
/// capture's match pattern and size) reads back as the capture. A file list
/// of plain paths (see `plain_path`) reads back as those paths.
pub proof fn lemma_insert_then_read(
    old: HistoryCoordinator,
    new: HistoryCoordinator,
    c: CapturedContent,
    mp: Option<String>,
    r: Result<u128, String>,
)
    requires
        store_wf(old.stored()),
        insert_outcome(old, new, c, mp, r),
        r is Ok,
        total_size(old.stored()) + captured_size(c) <= old.cap(),
    ensures
        new.stored().len() == old.stored().len() + 1,
        total_size(new.stored()) == total_size(old.stored()) + captured_size(c),
        forall|x: StoredEntry| #[trigger] old.stored().contains(x) ==> new.stored().contains(x),
        has_id(new.stored(), r->Ok_0),
        ({
            let e = new.stored()[id_index(new.stored(), r->Ok_0)];
            &&& e.size_bytes == captured_size(c)
            &&& !e.pinned
            &&& e.last_sent_to is None
            &&& opt_view(e.matched_pattern) == opt_view(mp)
            &&& full_ok(e, new.key_bytes())
            &&& full_view_of(e, new.key_bytes()) == captured_view(c)
        }),
        c.files matches Some(f) ==> ((forall|i: int| 0 <= i < f@.len() ==> plain_path(#[trigger] f@[i]@))
            ==> captured_view(c).files == Some(strings_view(f@))),
{
    let (id, ts): (u128, i64) = choose|id: u128, ts: i64|
        #[trigger] insert_with_outcome(old, new, c, mp, id, ts, r);
    assert(insert_with_outcome(old, new, c, mp, id, ts, r));
    assert(primary_of(c) is Some);
    assert(all_sealable(c));
    assert(!has_id(old.stored(), id));
    let e = choose|e: StoredEntry|
        #[trigger] holds_capture(e, c, mp, old.key_bytes()) && e.id == id && e.timestamp == ts
            && entry_wf(e) && new.stored() == evict_run(insert_by_time(old.stored(), e), old.cap()).0;
    let ins = insert_by_time(old.stored(), e);
    lemma_total_insert(old.stored(), e);
    lemma_insert_keeps(old.stored(), e);
    lemma_insert_by_time(old.stored(), e);
    assert(new.stored() == ins);
    assert(r->Ok_0 == id);
    assert(ins.contains(e));
    let m = choose|m: int| 0 <= m < ins.len() && ins[m] == e;
    assert(ins[m].id == id);
    assert(has_id(new.stored(), id));
    lemma_read_after_write(old.stored(), e, c, mp, old.key_bytes(), old.cap(), new.stored());
    match c.files {
        Some(f) => {
            if forall|i: int| 0 <= i < f@.len() ==> plain_path(#[trigger] f@[i]@) {
                let ps = strings_view(f@);
                assert forall|i: int| 0 <= i < ps.len() implies plain_path(#[trigger] ps[i]) by {
                    assert(ps[i] == f@[i]@);
                }
                lemma_file_list_roundtrip(ps);
            }
        },
        None => {},
    }
}

/// Placing an entry by time keeps the store well formed and holds exactly
/// the old entries and the new one.
pub proof fn lemma_insert_by_time(es: Seq<StoredEntry>, e: StoredEntry)
    requires
        store_wf(es),
        entry_wf(e),
        !has_id(es, e.id),
    ensures
        store_wf(insert_by_time(es, e)),
        insert_by_time(es, e).contains(e),
        forall|x: StoredEntry| #[trigger] insert_by_time(es, e).contains(x) ==> x == e || es.contains(x),
    decreases es.len(),
{
    if es.len() == 0 || es.last().timestamp <= e.timestamp {
        assert(es.push(e) =~= es.insert(es.len() as int, e));
        lemma_insert_wf(es, e, es.len() as int);
        assert(es.push(e)[es.len() as int] == e);
        assert forall|x: StoredEntry| #[trigger] es.push(e).contains(x) implies x == e || es.contains(x) by {
            let j = choose|j: int| 0 <= j < es.push(e).len() && es.push(e)[j] == x;
            if j < es.len() {
                assert(es[j] == x);
            }
        }
    } else {
        let p = es.drop_last();
        assert forall|a: int, b: int| 0 <= a < b < p.len() implies #[trigger] p[a].timestamp
            <= #[trigger] p[b].timestamp by {
            assert(es[a].timestamp <= es[b].timestamp);
        }
        assert forall|a: int, b: int| 0 <= a < b < p.len() implies #[trigger] p[a].id != #[trigger] p[b].id by {
            assert(es[a].id != es[b].id);
        }
        assert forall|a: int| 0 <= a < p.len() implies entry_wf(#[trigger] p[a]) by {
            assert(entry_wf(es[a]));
        }
        assert(!has_id(p, e.id)) by {
            if has_id(p, e.id) {
                let j = choose|j: int| 0 <= j < p.len() && p[j].id == e.id;
                assert(es[j].id == e.id);
            }
        }
        lemma_insert_by_time(p, e);
        let q = insert_by_time(p, e);
        let r = q.push(es.last());
        assert forall|x: StoredEntry| #[trigger] r.contains(x) implies x == e || es.contains(x) by {
            let j = choose|j: int| 0 <= j < r.len() && r[j] == x;
            if j < q.len() {
                assert(q.contains(x));
                if x != e {
                    let m = choose|m: int| 0 <= m < p.len() && p[m] == x;
                    assert(es[m] == x);
                }
            } else {
                assert(es[es.len() - 1] == x);
            }
        }
        assert(q.contains(e));
        let me = choose|m: int| 0 <= m < q.len() && q[m] == e;
        assert(r[me] == e);
        // the last entry is the newest
        assert forall|a: int, b: int| 0 <= a < b < r.len() implies #[trigger] r[a].timestamp
            <= #[trigger] r[b].timestamp by {
            if b == r.len() - 1 {
                assert(q.contains(r[a]));
                if r[a] == e {
                } else {
                    let m = choose|m: int| 0 <= m < p.len() && p[m] == r[a];
                    assert(es[m].timestamp <= es[es.len() - 1].timestamp);
                }
            }
        }
        assert forall|a: int, b: int| 0 <= a < b < r.len() implies #[trigger] r[a].id != #[trigger] r[b].id by {
            if b == r.len() - 1 {
                assert(q.contains(r[a]));
                if r[a] == e {
                    assert(es[es.len() - 1].id != e.id);
                } else {
                    let m = choose|m: int| 0 <= m < p.len() && p[m] == r[a];
                    assert(es[m].id != es[es.len() - 1].id);
                }
            }
        }
        assert forall|a: int| 0 <= a < r.len() implies entry_wf(#[trigger] r[a]) by {
            if a == r.len() - 1 {
                assert(entry_wf(es[es.len() - 1]));
            }
        }
    }
}


/// Whether a listing puts pinned entries first and, among entries alike in
/// that, newer entries first.
pub open spec fn listing_ordered(s: Seq<StoredEntry>) -> bool {
    forall|i: int, j: int|
        0 <= i < j < s.len() ==> (#[trigger] s[i].pinned && !(#[trigger] s[j]).pinned) || (
        s[i].pinned == s[j].pinned && s[i].timestamp >= s[j].timestamp)
}

/// One pass picks entries with its pinned flag from the first `n`, newest
/// first.
pub proof fn lemma_scan_pass(
    es: Seq<StoredEntry>,
    n: int,
    kind: FilterKind,
    pinned_only: bool,
    pinned: bool,
)
    requires
        store_wf(es),
        0 <= n <= es.len(),
    ensures
        forall|i: int|
            0 <= i < scan_pass(es, n, kind, pinned_only, pinned).len() ==> (#[trigger] scan_pass(
                es,
                n,
                kind,
                pinned_only,
                pinned,
            )[i]).pinned == pinned && exists|m: int|
                0 <= m < n && scan_pass(es, n, kind, pinned_only, pinned)[i] == #[trigger] es[m],
        forall|i: int, j: int|
            0 <= i < j < scan_pass(es, n, kind, pinned_only, pinned).len() ==> (#[trigger] scan_pass(
                es,
                n,
                kind,
                pinned_only,
                pinned,
            )[i]).timestamp >= (#[trigger] scan_pass(es, n, kind, pinned_only, pinned)[j]).timestamp,
    decreases n,
{
    if n > 0 {
        lemma_scan_pass(es, n - 1, kind, pinned_only, pinned);
        let rest = scan_pass(es, n - 1, kind, pinned_only, pinned);
        let sp = scan_pass(es, n, kind, pinned_only, pinned);
        let e = es[n - 1];
        if e.pinned == pinned && kind_selected(kind, e.kind) && (!pinned_only || e.pinned) {
            assert(sp == seq![e] + rest);
            assert forall|i: int| 0 <= i < sp.len() implies (#[trigger] sp[i]).pinned == pinned
                && exists|m: int| 0 <= m < n && sp[i] == #[trigger] es[m] by {
                if i == 0 {
                    assert(sp[0] == es[n - 1]);
                } else {
                    assert(sp[i] == rest[i - 1]);
                    let m = choose|m: int| 0 <= m < n - 1 && rest[i - 1] == #[trigger] es[m];
                    assert(sp[i] == es[m]);
                }
            }
            assert forall|i: int, j: int| 0 <= i < j < sp.len() implies (#[trigger] sp[i]).timestamp
                >= (#[trigger] sp[j]).timestamp by {
                assert(sp[j] == rest[j - 1]);
                if i == 0 {
                    let m = choose|m: int| 0 <= m < n - 1 && rest[j - 1] == #[trigger] es[m];
                    assert(es[m].timestamp <= es[n - 1].timestamp);
                } else {
                    assert(sp[i] == rest[i - 1]);
                }
            }
        }
    }
}

/// The listing order puts pinned entries first, each group newest first.
pub proof fn lemma_scan_order_ordered(es: Seq<StoredEntry>, kind: FilterKind, pinned_only: bool)
    requires
        store_wf(es),
    ensures
        listing_ordered(scan_order(es, kind, pinned_only)),
{
    let n = es.len() as int;
    lemma_scan_pass(es, n, kind, pinned_only, true);
    lemma_scan_pass(es, n, kind, pinned_only, false);
    let a = scan_pass(es, n, kind, pinned_only, true);
    let b = scan_pass(es, n, kind, pinned_only, false);
    let s = a + b;
    assert forall|i: int, j: int| 0 <= i < j < s.len() implies (#[trigger] s[i].pinned && !(
    #[trigger] s[j]).pinned) || (s[i].pinned == s[j].pinned && s[i].timestamp >= s[j].timestamp) by {
        if j < a.len() {
            assert(s[i] == a[i] && s[j] == a[j]);
            assert(a[i].pinned && a[j].pinned);
        } else if i >= a.len() {
            assert(s[i] == b[i - a.len()] && s[j] == b[j - a.len()]);
            assert(!b[i - a.len()].pinned && !b[j - a.len()].pinned);
        } else {
            assert(s[i] == a[i] && s[j] == b[j - a.len()]);
            assert(a[i].pinned && !b[j - a.len()].pinned);
        }
    }
}

/// Filtering keeps the listing order.
#[verifier::spinoff_prover]
pub proof fn lemma_filter_ordered(s: Seq<StoredEntry>, p: spec_fn(StoredEntry) -> bool)
    requires
        listing_ordered(s),
    ensures
        listing_ordered(s.filter(p)),
    decreases s.len(),
{
    reveal(Seq::filter);
    if s.len() > 0 {
        let d = s.drop_last();
        assert(listing_ordered(d)) by {
            assert forall|i: int, j: int| 0 <= i < j < d.len() implies (#[trigger] d[i].pinned && !(
            #[trigger] d[j]).pinned) || (d[i].pinned == d[j].pinned && d[i].timestamp
                >= d[j].timestamp) by {
                assert(d[i] == s[i] && d[j] == s[j]);
                lemma_ordered_at(s, i, j);
            }
        }
        lemma_filter_ordered(d, p);
        let f = d.filter(p);
        if p(s.last()) {
            let g = f.push(s.last());
            assert forall|i: int, j: int| 0 <= i < j < g.len() implies (#[trigger] g[i].pinned && !(
            #[trigger] g[j]).pinned) || (g[i].pinned == g[j].pinned && g[i].timestamp
                >= g[j].timestamp) by {
                if j < f.len() {
                    assert(g[i] == f[i] && g[j] == f[j]);
                    lemma_ordered_at(f, i, j);
                } else {
                    assert(g[i] == f[i]);
                    assert(f.contains(f[i]));
                    d.lemma_filter_contains_rev(p, f[i]);
                    let m = choose|m: int| 0 <= m < d.len() && d[m] == f[i];
                    assert(s[m] == f[i]);
                    assert(g[j] == s[s.len() - 1]);
                    lemma_ordered_at(s, m, s.len() - 1);
                }
            }
        }
    }
}

/// Every entry the filter lets through, in listing order, before paging.
pub open spec fn matching(es: Seq<StoredEntry>, key: Seq<u8>, f: Filter) -> Seq<StoredEntry> {
    let q = lower_text(f.query@);
    scan_order(es, f.kind, f.pinned_only).filter(|e: StoredEntry| listed(e, key, q))
}

/// Paging law: a page is the slice of the matching entries that starts at
/// the offset (or at their end) and holds `limit` of them (one when `limit`
/// is 0), or as many as are left.
pub proof fn lemma_page_is_slice(es: Seq<StoredEntry>, key: Seq<u8>, f: Filter, offset: u32, limit: u32)
    ensures
        ({
            let m = matching(es, key, f);
            let lo: int = if offset <= m.len() {
                offset as int
            } else {
                m.len() as int
            };
            let room: int = if limit == 0 {
                1
            } else {
                limit as int
            };
            let hi: int = if lo + room <= m.len() {
                lo + room
            } else {
                m.len() as int
            };
            listing(es, key, f, offset, limit) == m.subrange(lo, hi)
        }),
{
    let q = lower_text(f.query@);
    let so = scan_order(es, f.kind, f.pinned_only);
    let p1 = |e: StoredEntry| listed(e, key, q);
    assert(so.filter(p1) == matching(es, key, f));
    let m = matching(es, key, f);
    let lo: int = if offset <= m.len() {
        offset as int
    } else {
        m.len() as int
    };
    let room: int = if limit == 0 {
        1
    } else {
        limit as int
    };
    let rest = m.skip(lo);
    if room <= rest.len() {
        assert(rest.take(room) =~= m.subrange(lo, lo + room));
    } else {
        assert(rest =~= m.subrange(lo, m.len() as int));
    }
}

/// Consecutive pages join up: the page of `a` entries at `offset` followed by
/// the page of `b` entries right after it is the page of `a + b` entries at
/// `offset`, so paging through a listing neither skips nor repeats entries.
pub proof fn lemma_pages_adjoin(es: Seq<StoredEntry>, key: Seq<u8>, f: Filter, offset: u32, a: u32, b: u32)
    requires
        a > 0,
        b > 0,
        offset + a <= u32::MAX,
        a + b <= u32::MAX,
    ensures
        listing(es, key, f, offset, a) + listing(es, key, f, (offset + a) as u32, b) == listing(
            es,
            key,
            f,
            offset,
            (a + b) as u32,
        ),
{
    lemma_page_is_slice(es, key, f, offset, a);
    lemma_page_is_slice(es, key, f, (offset + a) as u32, b);
    lemma_page_is_slice(es, key, f, offset, (a + b) as u32);
    let m = matching(es, key, f);
    let n = m.len() as int;
    let lo: int = if offset <= n { offset as int } else { n };
    let mid: int = if lo + a <= n { lo + a } else { n };
    let lo2: int = if offset + a <= n { offset + a } else { n };
    assert(lo2 == mid);
    let hi: int = if mid + b <= n { mid + b } else { n };
    let hi2: int = if lo + a + b <= n { lo + a + b } else { n };
    assert(hi == hi2);
    assert(m.subrange(lo, mid) + m.subrange(mid, hi) =~= m.subrange(lo, hi));
}

/// Every entry one pass picks is one of the first `n` stored entries.
pub proof fn lemma_scan_members(es: Seq<StoredEntry>, n: int, kind: FilterKind, pinned_only: bool, pinned: bool)
    requires
        0 <= n <= es.len(),
    ensures
        forall|x: StoredEntry| #[trigger] scan_pass(es, n, kind, pinned_only, pinned).contains(x) ==> es.contains(x),
    decreases n,
{
    if n > 0 {
        lemma_scan_members(es, n - 1, kind, pinned_only, pinned);
        let rest = scan_pass(es, n - 1, kind, pinned_only, pinned);
        let e = es[n - 1];
        assert forall|x: StoredEntry| #[trigger] scan_pass(es, n, kind, pinned_only, pinned).contains(x) implies es.contains(x) by {
            let sp = scan_pass(es, n, kind, pinned_only, pinned);
            let j = choose|j: int| 0 <= j < sp.len() && sp[j] == x;
            if e.pinned == pinned && kind_selected(kind, e.kind) && (!pinned_only || e.pinned) {
                if j == 0 {
                    assert(x == es[n - 1]);
                } else {
                    assert(sp[j] == rest[j - 1]);
                    assert(rest.contains(x));
                }
            } else {
                assert(rest.contains(x));
            }
        }
    }
}

/// Every listed entry is a stored entry.
pub proof fn lemma_listing_members(es: Seq<StoredEntry>, key: Seq<u8>, f: Filter, offset: u32, limit: u32)
    ensures
        forall|x: StoredEntry| #[trigger] listing(es, key, f, offset, limit).contains(x) ==> es.contains(x),
{
    lemma_page_is_slice(es, key, f, offset, limit);
    lemma_scan_members(es, es.len() as int, f.kind, f.pinned_only, true);
    lemma_scan_members(es, es.len() as int, f.kind, f.pinned_only, false);
    let q = lower_text(f.query@);
    let so = scan_order(es, f.kind, f.pinned_only);
    let a = scan_pass(es, es.len() as int, f.kind, f.pinned_only, true);
    let b = scan_pass(es, es.len() as int, f.kind, f.pinned_only, false);
    let m = matching(es, key, f);
    let l = listing(es, key, f, offset, limit);
    assert forall|x: StoredEntry| #[trigger] l.contains(x) implies es.contains(x) by {
        let j = choose|j: int| 0 <= j < l.len() && l[j] == x;
        let lo: int = if offset <= m.len() { offset as int } else { m.len() as int };
        assert(m[lo + j] == x);
        assert(m.contains(x));
        so.lemma_filter_contains_rev(|e: StoredEntry| listed(e, key, q), x);
        let k = choose|k: int| 0 <= k < so.len() && so[k] == x;
        if k < a.len() {
            assert(so[k] == a[k]);
            assert(a.contains(x));
        } else {
            assert(so[k] == b[k - a.len()]);
            assert(b.contains(x));
        }
    }
}

/// The pinned entries of a store, in order: what clearing keeps.
pub open spec fn keep_pinned(es: Seq<StoredEntry>) -> Seq<StoredEntry> {
    es.filter(|e: StoredEntry| e.pinned)
}

/// One pass reads only the first `n` entries.
pub proof fn lemma_scan_prefix(
    es: Seq<StoredEntry>,
    es2: Seq<StoredEntry>,
    n: int,
    kind: FilterKind,
    pinned_only: bool,
    pinned: bool,
)
    requires
        0 <= n <= es.len(),
        n <= es2.len(),
        forall|i: int| 0 <= i < n ==> es[i] == es2[i],
    ensures
        scan_pass(es, n, kind, pinned_only, pinned) == scan_pass(es2, n, kind, pinned_only, pinned),
    decreases n,
{
    if n > 0 {
        lemma_scan_prefix(es, es2, n - 1, kind, pinned_only, pinned);
    }
}

/// Scanning the pinned entries of a store is scanning the store for pinned
/// entries only.
pub proof fn lemma_scan_kept(es: Seq<StoredEntry>, kind: FilterKind, po: bool)
    ensures
        scan_pass(keep_pinned(es), keep_pinned(es).len() as int, kind, po, true) == scan_pass(
            es,
            es.len() as int,
            kind,
            true,
            true,
        ),
        scan_pass(keep_pinned(es), keep_pinned(es).len() as int, kind, po, false) == Seq::<
            StoredEntry,
        >::empty(),
        scan_pass(es, es.len() as int, kind, true, false) == Seq::<StoredEntry>::empty(),
    decreases es.len(),
{
    reveal(Seq::filter);
    if es.len() > 0 {
        let d = es.drop_last();
        let l = es.last();
        let n = es.len() as int;
        lemma_scan_kept(d, kind, po);
        let kd = keep_pinned(d);
        let m = kd.len() as int;
        assert(keep_pinned(es) == (if l.pinned {
            kd.push(l)
        } else {
            kd
        }));
        assert(es[n - 1] == l);
        lemma_scan_prefix(es, d, n - 1, kind, true, true);
        lemma_scan_prefix(es, d, n - 1, kind, true, false);
        if l.pinned {
            let kp = kd.push(l);
            assert(kp[m] == l);
            lemma_scan_prefix(kp, kd, m, kind, po, true);
            lemma_scan_prefix(kp, kd, m, kind, po, false);
        }
    }
}

/// Listing after clearing, exactly: once the history is cleared keeping
/// pinned entries, a listing shows what the same listing restricted to pinned
/// entries showed before.
pub proof fn lemma_listing_after_clear_same(
    es: Seq<StoredEntry>,
    key: Seq<u8>,
    f: Filter,
    offset: u32,
    limit: u32,
)
    ensures
        listing(keep_pinned(es), key, f, offset, limit) == listing(
            es,
            key,
            Filter { kind: f.kind, query: f.query, pinned_only: true },
            offset,
            limit,
        ),
{
    let g = Filter { kind: f.kind, query: f.query, pinned_only: true };
    lemma_scan_kept(es, f.kind, f.pinned_only);
    let kp = keep_pinned(es);
    assert(scan_order(kp, f.kind, f.pinned_only) =~= scan_order(es, g.kind, g.pinned_only));
    assert(g.query@ == f.query@);
}

/// Listing after clearing: once the history is cleared keeping pinned
/// entries (see `clear`), every listing shows only pinned entries that were
/// stored before; once it is cleared of everything, every listing is empty.
pub proof fn lemma_listing_after_clear(
    es: Seq<StoredEntry>,
    key: Seq<u8>,
    f: Filter,
    offset: u32,
    limit: u32,
)
    ensures
        forall|x: StoredEntry|
            #[trigger] listing(keep_pinned(es), key, f, offset, limit).contains(x)
                ==> x.pinned && es.contains(x),
        listing(Seq::<StoredEntry>::empty(), key, f, offset, limit).len() == 0,
{
    let kept = keep_pinned(es);
    lemma_listing_members(kept, key, f, offset, limit);
    lemma_listing_members(Seq::<StoredEntry>::empty(), key, f, offset, limit);
    assert forall|x: StoredEntry|
        #[trigger] listing(kept, key, f, offset, limit).contains(x) implies x.pinned && es.contains(x) by {
        assert(kept.contains(x));
        es.lemma_filter_contains_rev(|e: StoredEntry| e.pinned, x);
    }
    let l0 = listing(Seq::<StoredEntry>::empty(), key, f, offset, limit);
    if l0.len() > 0 {
        assert(l0.contains(l0[0]));
    }
}

/// Deleting hides an entry everywhere: after `delete`, no listing shows an
/// entry with the id, every listed entry was stored before, and (see
/// `lemma_delete_forgets`) no lookup finds the id.
pub proof fn lemma_listing_after_delete(
    es: Seq<StoredEntry>,
    id: u128,
    key: Seq<u8>,
    f: Filter,
    offset: u32,
    limit: u32,
)
    requires
        store_wf(es),
    ensures
        forall|x: StoredEntry|
            #[trigger] listing(without_id(es, id), key, f, offset, limit).contains(x) ==> x.id != id
                && es.contains(x),
{
    let w = without_id(es, id);
    lemma_delete_forgets(es, id);
    lemma_listing_members(w, key, f, offset, limit);
    assert forall|x: StoredEntry| #[trigger] listing(w, key, f, offset, limit).contains(x) implies x.id
        != id && es.contains(x) by {
        assert(w.contains(x));
        let j = choose|j: int| 0 <= j < w.len() && w[j] == x;
        if has_id(es, id) {
            let k = id_index(es, id);
            if j < k {
                assert(w[j] == es[j]);
            } else {
                assert(w[j] == es[j + 1]);
            }
        }
        if x.id == id {
            assert(has_id(w, id));
        }
    }
}

/// What one pass picks: exactly the entries among the first `n` with the
/// pass's pinned flag that the kind and pinned-only settings admit.
pub proof fn lemma_scan_pass_exact(es: Seq<StoredEntry>, n: int, kind: FilterKind, po: bool, pinned: bool)
    requires
        0 <= n <= es.len(),
    ensures
        forall|x: StoredEntry| #[trigger] scan_pass(es, n, kind, po, pinned).contains(x) ==> x.pinned
            == pinned && kind_selected(kind, x.kind) && (!po || x.pinned),
        forall|m: int|
            0 <= m < n && es[m].pinned == pinned && kind_selected(kind, es[m].kind) && (!po
                || es[m].pinned) ==> #[trigger] scan_pass(es, n, kind, po, pinned).contains(es[m]),
    decreases n,
{
    if n > 0 {
        lemma_scan_pass_exact(es, n - 1, kind, po, pinned);
        let rest = scan_pass(es, n - 1, kind, po, pinned);
        let sp = scan_pass(es, n, kind, po, pinned);
        let e = es[n - 1];
        let sel = e.pinned == pinned && kind_selected(kind, e.kind) && (!po || e.pinned);
        assert forall|x: StoredEntry| #[trigger] sp.contains(x) implies x.pinned == pinned
            && kind_selected(kind, x.kind) && (!po || x.pinned) by {
            let j = choose|j: int| 0 <= j < sp.len() && sp[j] == x;
            if sel {
                if j > 0 {
                    assert(sp[j] == rest[j - 1]);
                    assert(rest.contains(x));
                }
            } else {
                assert(rest.contains(x));
            }
        }
        assert forall|m: int|
            0 <= m < n && es[m].pinned == pinned && kind_selected(kind, es[m].kind) && (!po
                || es[m].pinned) implies #[trigger] sp.contains(es[m]) by {
            if m == n - 1 {
                assert(sp[0] == e);
            } else {
                assert(rest.contains(es[m]));
                let j = choose|j: int| 0 <= j < rest.len() && rest[j] == es[m];
                if sel {
                    assert(sp[j + 1] == rest[j]);
                } else {
                    assert(sp[j] == rest[j]);
                }
            }
        }
    }
}

/// Kind and pinned filtering: under a kind filter other than `All`, every
/// entry that passes the filter (before paging, and so every listed entry) has
/// exactly that kind, and under the pinned-only setting is pinned; and every
/// stored entry of that kind (any kind under `All`) that is pinned where
/// pinned entries only are asked for, and that matches the search, passes.
pub proof fn lemma_kind_filter(es: Seq<StoredEntry>, key: Seq<u8>, f: Filter, offset: u32, limit: u32)
    ensures
        forall|x: StoredEntry|
            #[trigger] matching(es, key, f).contains(x) ==> {
                &&& f.kind == FilterKind::Text ==> x.kind == EntryKind::Text
                &&& f.kind == FilterKind::Image ==> x.kind == EntryKind::Image
                &&& f.kind == FilterKind::Html ==> x.kind == EntryKind::Html
                &&& f.kind == FilterKind::Rtf ==> x.kind == EntryKind::Rtf
                &&& f.kind == FilterKind::Files ==> x.kind == EntryKind::Files
                &&& f.pinned_only ==> x.pinned
                &&& es.contains(x)
            },
        forall|x: StoredEntry|
            #[trigger] listing(es, key, f, offset, limit).contains(x) ==> matching(es, key, f).contains(
                x,
            ),
        forall|i: int|
            0 <= i < es.len() && (f.kind == FilterKind::All || (f.kind == FilterKind::Text
                && es[i].kind == EntryKind::Text) || (f.kind == FilterKind::Image && es[i].kind
                == EntryKind::Image) || (f.kind == FilterKind::Html && es[i].kind == EntryKind::Html)
                || (f.kind == FilterKind::Rtf && es[i].kind == EntryKind::Rtf) || (f.kind
                == FilterKind::Files && es[i].kind == EntryKind::Files)) && (!f.pinned_only
                || es[i].pinned) && listed(es[i], key, lower_text(f.query@)) ==> #[trigger] matching(
                es,
                key,
                f,
            ).contains(es[i]),
{
    let n = es.len() as int;
    let q = lower_text(f.query@);
    let pred = |e: StoredEntry| listed(e, key, q);
    let a = scan_pass(es, n, f.kind, f.pinned_only, true);
    let b = scan_pass(es, n, f.kind, f.pinned_only, false);
    let so = scan_order(es, f.kind, f.pinned_only);
    lemma_scan_pass_exact(es, n, f.kind, f.pinned_only, true);
    lemma_scan_pass_exact(es, n, f.kind, f.pinned_only, false);
    lemma_scan_members(es, n, f.kind, f.pinned_only, true);
    lemma_scan_members(es, n, f.kind, f.pinned_only, false);
    so.filter_lemma(pred);
    let m = matching(es, key, f);
    assert(m == so.filter(pred));
    assert forall|x: StoredEntry| #[trigger] so.contains(x) implies kind_selected(f.kind, x.kind) && (
    !f.pinned_only || x.pinned) && es.contains(x) by {
        let k = choose|k: int| 0 <= k < so.len() && so[k] == x;
        if k < a.len() {
            assert(so[k] == a[k]);
            assert(a.contains(x));
        } else {
            assert(so[k] == b[k - a.len()]);
            assert(b.contains(x));
        }
    }
    assert forall|x: StoredEntry| #[trigger] m.contains(x) implies so.contains(x) by {
        so.lemma_filter_contains_rev(pred, x);
    }
    lemma_listing_members(es, key, f, offset, limit);
    lemma_page_is_slice(es, key, f, offset, limit);
    assert forall|x: StoredEntry| #[trigger] listing(es, key, f, offset, limit).contains(x) implies m.contains(x) by {
        let l = listing(es, key, f, offset, limit);
        let j = choose|j: int| 0 <= j < l.len() && l[j] == x;
        let lo: int = if offset <= m.len() { offset as int } else { m.len() as int };
        assert(m[lo + j] == x);
    }
    assert forall|i: int|
        0 <= i < es.len() && kind_selected(f.kind, es[i].kind) && (!f.pinned_only || es[i].pinned)
            && listed(es[i], key, q) implies #[trigger] m.contains(es[i]) by {
        let x = es[i];
        if x.pinned {
            assert(a.contains(x));
            let j = choose|j: int| 0 <= j < a.len() && a[j] == x;
            assert(so[j] == x);
            assert(pred(so[j]));
        } else {
            assert(b.contains(x));
            let j = choose|j: int| 0 <= j < b.len() && b[j] == x;
            assert(so[a.len() + j] == x);
            assert(pred(so[a.len() + j]));
        }
    }
}

/// Ordering law of listings: every listing shows pinned entries before
/// unpinned ones, and within each group newer entries before older ones.
pub proof fn lemma_listing_ordered(
    es: Seq<StoredEntry>,
    key: Seq<u8>,
    f: Filter,
    offset: u32,
    limit: u32,
)
    requires
        store_wf(es),
    ensures
        listing_ordered(listing(es, key, f, offset, limit)),
{
    let q = lower_text(f.query@);
    let so = scan_order(es, f.kind, f.pinned_only);
    lemma_scan_order_ordered(es, f.kind, f.pinned_only);
    let pred = |e: StoredEntry| listed(e, key, q);
    lemma_filter_ordered(so, pred);
    let hits = so.filter(pred);
    let start: int = if offset <= hits.len() {
        offset as int
    } else {
        hits.len() as int
    };
    let rest = hits.skip(start);
    assert(pred =~= |e: StoredEntry| listed(e, key, lower_text(f.query@)));
    let out = listing(es, key, f, offset, limit);
    assert forall|i: int, j: int| 0 <= i < j < out.len() implies (#[trigger] out[i].pinned && !(
    #[trigger] out[j]).pinned) || (out[i].pinned == out[j].pinned && out[i].timestamp
        >= out[j].timestamp) by {
        assert(out[i] == hits[start + i]);
        assert(out[j] == hits[start + j]);
        let x = hits[start + i];
        let y = hits[start + j];
        lemma_ordered_at(hits, start + i, start + j);
        assert((x.pinned && !y.pinned) || (x.pinned == y.pinned && x.timestamp >= y.timestamp));
    }
}


/// Two entries of an ordered listing are in order.
pub proof fn lemma_ordered_at(s: Seq<StoredEntry>, i: int, j: int)
    requires
        listing_ordered(s),
        0 <= i < j < s.len(),
    ensures
        (s[i].pinned && !s[j].pinned) || (s[i].pinned == s[j].pinned && s[i].timestamp
            >= s[j].timestamp),
{
    assert(s[i].pinned == s[i].pinned);
    assert(s[j] == s[j]);
}

// ---------------------------------------------------------------------------
// The key kept by the system keyring
// ---------------------------------------------------------------------------

/// The message of std's UTF-8 error for some bytes.
pub uninterp spec fn utf8_error_text(bytes: Seq<u8>) -> Seq<char>;

/// `std::str::from_utf8`: the text the bytes encode, or the error's message.
#[verifier::external_body]
fn str_from_utf8(bytes: &[u8]) -> (r: Result<String, String>)
    ensures
        r is Ok <==> valid_utf8(bytes@),
        r matches Ok(s) ==> s@ == decode_utf8(bytes@),
        r matches Err(m) ==> m@ == utf8_error_text(bytes@),
{
    match std::str::from_utf8(bytes) {
        Ok(s) => Ok(s.to_string()),
        Err(e) => Err(e.to_string()),
    }
}

/// What `u8::from_str_radix(s, 16)` gives for a text.
pub uninterp spec fn radix16_parse(s: Seq<char>) -> Option<u8>;

/// The message of std's integer parse error for a text.
pub uninterp spec fn int_error_text(s: Seq<char>) -> Seq<char>;

/// The value of an ASCII hexadecimal digit.
pub open spec fn hex_digit_value(c: char) -> int {
    if '0' <= c && c <= '9' {
        c as int - 48
    } else if 'a' <= c && c <= 'f' {
        c as int - 87
    } else {
        c as int - 55
    }
}

/// An ASCII hexadecimal digit.
pub open spec fn is_hex_digit(c: char) -> bool {
    ('0' <= c && c <= '9') || ('a' <= c && c <= 'f') || ('A' <= c && c <= 'F')
}

/// A text of two ASCII hexadecimal digits.
pub open spec fn two_hex_digits(s: Seq<char>) -> bool {
    s.len() == 2 && is_hex_digit(s[0]) && is_hex_digit(s[1])
}

/// The byte two hexadecimal digits stand for.
pub open spec fn hex_pair_value(s: Seq<char>) -> u8 {
    (16 * hex_digit_value(s[0]) + hex_digit_value(s[1])) as u8
}

/// `u8::from_str_radix(s, 16)`, the error turned into its message. Stated
/// besides the name: two hexadecimal digits give their value (std's
/// documented digit parsing).
#[verifier::external_body]
fn parse_hex_u8(s: &str) -> (r: Result<u8, String>)
    ensures
        r matches Ok(v) ==> radix16_parse(s@) == Some(v),
        r is Err ==> radix16_parse(s@) is None,
        two_hex_digits(s@) ==> r is Ok,
        r matches Ok(v) ==> (two_hex_digits(s@) ==> v == hex_pair_value(s@)),
        r matches Err(m) ==> m@ == int_error_text(s@),
{
    u8::from_str_radix(s, 16).map_err(|e| e.to_string())
}

/// The `i`-th pair of bytes of a key text, decoded.
pub open spec fn key_chunk(s: Seq<char>, i: int) -> Seq<u8> {
    encode_utf8(s).subrange(2 * i, 2 * i + 2)
}

/// Whether the `i`-th pair of bytes of a key text is a hexadecimal byte.
pub open spec fn key_chunk_ok(s: Seq<char>, i: int) -> bool {
    valid_utf8(key_chunk(s, i)) && radix16_parse(decode_utf8(key_chunk(s, i))) is Some
}

/// The message of a key text of the wrong length.
pub open spec fn bad_key_length_error() -> Seq<char> {
    "bad key length"@
}

/// The key a hexadecimal key text gives: it must be 64 bytes long, and each
/// pair of bytes, read as text, a hexadecimal byte; the first pair that is
/// not gives the error.
pub fn hex_to_key(s: &str) -> (r: Result<[u8; 32], String>)
    ensures
        encode_utf8(s@).len() != 64 ==> (r matches Err(m) && m@ == bad_key_length_error()),
        encode_utf8(s@).len() == 64 ==> (r is Ok <==> forall|i: int|
            0 <= i < 32 ==> #[trigger] key_chunk_ok(s@, i)),
        r matches Ok(k) ==> forall|i: int|
            0 <= i < 32 ==> Some(#[trigger] k@[i]) == radix16_parse(decode_utf8(key_chunk(s@, i))),
{
    let b = s.as_bytes();
    if b.len() != 64 {
        proof {
            reveal_strlit("bad key length");
        }
        return Err(String::from_str("bad key length"));
    }
    let mut out = [0u8;32];
    let mut i: usize = 0;
    while i < 32
        invariant
            i <= 32,
            b@ == encode_utf8(s@),
            b@.len() == 64,
            forall|j: int| 0 <= j < i ==> #[trigger] key_chunk_ok(s@, j),
            forall|j: int|
                0 <= j < i ==> Some(#[trigger] out@[j]) == radix16_parse(
                    decode_utf8(key_chunk(s@, j)),
                ),
        decreases 32 - i,
    {
        let chunk = vstd::slice::slice_subrange(b, 2 * i, 2 * i + 2);
        assert(chunk@ == key_chunk(s@, i as int));
        let text = match str_from_utf8(chunk) {
            Ok(t) => t,
            Err(m) => {
                assert(!key_chunk_ok(s@, i as int));
                return Err(m);
            },
        };
        let v = match parse_hex_u8(text.as_str()) {
            Ok(v) => v,
            Err(m) => {
                assert(!key_chunk_ok(s@, i as int));
                return Err(m);
            },
        };
        let ghost before = out@;
        out[i] = v;
        assert forall|j: int| 0 <= j < i + 1 implies Some(#[trigger] out@[j]) == radix16_parse(
            decode_utf8(key_chunk(s@, j)),
        ) by {
            if j < i {
                assert(out@[j] == before[j]);
            }
        }
        i += 1;
    }
    Ok(out)
}

/// Deleting forgets: after `delete`, no entry has the id, and every other
/// entry is still stored.
pub proof fn lemma_delete_forgets(es: Seq<StoredEntry>, id: u128)
    requires
        store_wf(es),
    ensures
        !has_id(without_id(es, id), id),
        forall|i: int| 0 <= i < es.len() && es[i].id != id ==> without_id(es, id).contains(#[trigger] es[i]),
{
    if has_id(es, id) {
        let k = id_index(es, id);
        let r = es.remove(k);
        lemma_remove_wf(es, k);
        if has_id(r, id) {
            let j = choose|j: int| 0 <= j < r.len() && r[j].id == id;
            if j < k {
                assert(es[j].id != es[k].id);
            } else {
                assert(es[k].id != es[j + 1].id);
            }
        }
        assert forall|i: int| 0 <= i < es.len() && es[i].id != id implies r.contains(#[trigger] es[i]) by {
            if i < k {
                assert(r[i] == es[i]);
            } else {
                assert(i != k);
                assert(r[i - 1] == es[i]);
            }
        }
    } else {
        assert forall|i: int| 0 <= i < es.len() && es[i].id != id implies es.contains(#[trigger] es[i]) by {}
    }
}

} // verus!
