use clipygo::crypto::{decrypt, encrypt, NONCE_LEN};
use clipygo::history::{
    hex_to_key, CapturedContent, CapturedImage, EntryKind, Filter, FilterKind,
    HistoryCoordinator, StoredEntry,
};
use clipygo::markup::{build_preview, file_name_of, files_preview, strip_html, strip_rtf};

const KEY_A: [u8; 32] = [7u8; 32];
const KEY_B: [u8; 32] = [9u8; 32];

#[test]
fn encrypt_roundtrip() {
    let pt = b"hello world";
    let ct = encrypt(&KEY_A, pt).unwrap();
    assert_ne!(&ct[NONCE_LEN..], pt);
    let recovered = decrypt(&KEY_A, &ct).unwrap();
    assert_eq!(recovered, pt);
}

#[test]
fn decrypt_with_wrong_key_fails() {
    let ct = encrypt(&KEY_A, b"secret").unwrap();
    assert!(decrypt(&KEY_B, &ct).is_err());
}

#[test]
fn decrypt_reports_short_and_forged_blobs() {
    assert_eq!(decrypt(&KEY_A, &[1u8; 10]).unwrap_err(), "ciphertext too short");
    let mut ct = encrypt(&KEY_A, b"x").unwrap();
    let last = ct.len() - 1;
    ct[last] ^= 1;
    assert_eq!(decrypt(&KEY_A, &ct).unwrap_err(), "decrypt: aead::Error");
}

#[test]
fn insert_text_then_list() {
    let mut h = HistoryCoordinator::new_in_memory(1024 * 1024).unwrap();
    let id = h.insert_text("hello".to_string(), None).unwrap();
    let list = h.list(&Filter::default(), 0, 10).unwrap();
    assert_eq!(list.len(), 1);
    assert_eq!(list[0].id, id);
    assert_eq!(list[0].preview, "hello");
    assert_eq!(list[0].kind_tag, "text");
}

#[test]
fn get_full_entry_roundtrip() {
    let mut h = HistoryCoordinator::new_in_memory(1024 * 1024).unwrap();
    let id = h.insert_text("payload".to_string(), None).unwrap();
    let entry = h.get_full_entry(id).unwrap().unwrap();
    assert_eq!(entry.kind, "text");
    assert_eq!(entry.text.as_deref(), Some("payload"));
}

#[test]
fn insert_image_and_fetch_bytes() {
    let mut h = HistoryCoordinator::new_in_memory(10 * 1024 * 1024).unwrap();
    let bytes = vec![137, 80, 78, 71, 1, 2, 3, 4];
    let id = h
        .insert_image("image/png".into(), 16, 16, bytes.clone(), None)
        .unwrap();
    let fetched = h.get_image(id).unwrap();
    assert_eq!(fetched, bytes);
    let list = h.list(&Filter::default(), 0, 10).unwrap();
    assert_eq!(list.len(), 1);
    assert_eq!(list[0].kind_tag, "image");
    assert_eq!(list[0].width, Some(16));
}

#[test]
fn eviction_drops_oldest_under_cap() {
    let mut h = HistoryCoordinator::new_in_memory(20).unwrap();
    h.insert_text("aaaaaaaaaa".to_string(), None).unwrap();
    h.insert_text("bbbbbbbbbb".to_string(), None).unwrap();
    h.insert_text("cccccccccc".to_string(), None).unwrap();
    let stats = h.stats().unwrap();
    assert!(stats.bytes_used <= 20);
}

#[test]
fn pinned_entries_survive_eviction() {
    let mut h = HistoryCoordinator::new_in_memory(15).unwrap();
    let pinned_id = h.insert_text("PIN1234567".to_string(), None).unwrap();
    h.set_pinned(pinned_id, true).unwrap();
    h.insert_text("xxxxxxxxxx".to_string(), None).unwrap();
    h.insert_text("yyyyyyyyyy".to_string(), None).unwrap();
    let list = h.list(&Filter::default(), 0, 10).unwrap();
    assert!(list.iter().any(|e| e.id == pinned_id));
}

#[test]
fn filter_by_kind_and_query() {
    let mut h = HistoryCoordinator::new_in_memory(1024 * 1024).unwrap();
    h.insert_text("hello world".to_string(), None).unwrap();
    h.insert_text("goodbye world".to_string(), None).unwrap();
    h.insert_image("image/png".into(), 1, 1, vec![1, 2, 3], None)
        .unwrap();
    let only_text = h
        .list(
            &Filter {
                kind: FilterKind::Text,
                ..Default::default()
            },
            0,
            10,
        )
        .unwrap();
    assert_eq!(only_text.len(), 2);
    let only_image = h
        .list(
            &Filter {
                kind: FilterKind::Image,
                ..Default::default()
            },
            0,
            10,
        )
        .unwrap();
    assert_eq!(only_image.len(), 1);
    let search = h
        .list(
            &Filter {
                query: "hello".into(),
                ..Default::default()
            },
            0,
            10,
        )
        .unwrap();
    assert_eq!(search.len(), 1);
    assert_eq!(search[0].preview, "hello world");
}

#[test]
fn build_preview_multiline_reports_line_count() {
    let (preview, lines) = build_preview("line one\nline two\nline three\nline four");
    assert_eq!(lines, 4);
    assert!(preview.starts_with("line one\nline two\nline three"));
    assert!(preview.ends_with('…'));
    let (single, n) = build_preview("just one");
    assert_eq!(n, 1);
    assert_eq!(single, "just one");
}

#[test]
fn strip_html_yields_plain_text() {
    let html = "<p>Hello <b>world</b> &amp; <i>friends</i></p>";
    assert_eq!(strip_html(html), "Hello world & friends");
}

#[test]
fn strip_rtf_skips_control_tables() {
    let rtf = r"{\rtf1\ansi{\fonttbl{\f0 Arial;}}\f0 Hello \b world\b0 .}";
    assert_eq!(strip_rtf(rtf), "Hello world.");
}

#[test]
fn insert_html_lists_with_stripped_preview() {
    let mut h = HistoryCoordinator::new_in_memory(1024 * 1024).unwrap();
    let id = h
        .insert_html("<h1>Title</h1><p>Body text</p>".into(), None)
        .unwrap();
    let list = h.list(&Filter::default(), 0, 10).unwrap();
    assert_eq!(list.len(), 1);
    assert_eq!(list[0].kind_tag, "html");
    assert_eq!(list[0].preview, "Title Body text");
    let entry = h.get_full_entry(id).unwrap().unwrap();
    assert_eq!(entry.kind, "html");
    assert_eq!(entry.html.as_deref(), Some("<h1>Title</h1><p>Body text</p>"));
}

#[test]
fn insert_files_previews_basenames_and_counts() {
    let mut h = HistoryCoordinator::new_in_memory(1024 * 1024).unwrap();
    h.insert_files(
        vec!["C:\\Users\\me\\report.pdf".into(), "/home/me/photo.png".into()],
        None,
    )
    .unwrap();
    let list = h.list(&Filter::default(), 0, 10).unwrap();
    assert_eq!(list[0].kind_tag, "files");
    assert_eq!(list[0].line_count, 2);
    assert_eq!(list[0].preview, "report.pdf, photo.png");
}

#[test]
fn filter_and_search_cover_rich_kinds() {
    let mut h = HistoryCoordinator::new_in_memory(1024 * 1024).unwrap();
    h.insert_html("<p>needle in html</p>".into(), None).unwrap();
    h.insert_rtf(r"{\rtf1 plain rtf text}".into(), None).unwrap();
    h.insert_files(vec!["/tmp/doc.txt".into()], None).unwrap();

    let only_html = h
        .list(
            &Filter {
                kind: FilterKind::Html,
                ..Default::default()
            },
            0,
            10,
        )
        .unwrap();
    assert_eq!(only_html.len(), 1);

    let search = h
        .list(
            &Filter {
                query: "needle".into(),
                ..Default::default()
            },
            0,
            10,
        )
        .unwrap();
    assert_eq!(search.len(), 1);
    assert_eq!(search[0].kind_tag, "html");

    let file_search = h
        .list(
            &Filter {
                query: "doc.txt".into(),
                ..Default::default()
            },
            0,
            10,
        )
        .unwrap();
    assert_eq!(file_search.len(), 1);
    assert_eq!(file_search[0].kind_tag, "files");
}

#[test]
fn insert_captured_stores_all_formats() {
    let mut h = HistoryCoordinator::new_in_memory(1024 * 1024).unwrap();
    let id = h
        .insert_captured(
            CapturedContent {
                html: Some("<b>hi</b>".into()),
                rtf: Some(r"{\rtf1 hi}".into()),
                text: Some("hi".into()),
                ..Default::default()
            },
            None,
        )
        .unwrap();
    let list = h.list(&Filter::default(), 0, 10).unwrap();
    assert_eq!(list.len(), 1);
    assert_eq!(list[0].kind_tag, "html");
    assert_eq!(list[0].formats, vec!["html", "rtf", "text"]);
    let full = h.get_full_entry(id).unwrap().unwrap();
    assert_eq!(full.kind, "html");
    assert_eq!(full.html.as_deref(), Some("<b>hi</b>"));
    assert_eq!(full.rtf.as_deref(), Some(r"{\rtf1 hi}"));
    assert_eq!(full.text.as_deref(), Some("hi"));
    let expected = ("<b>hi</b>".len() + r"{\rtf1 hi}".len() + "hi".len()) as u64;
    assert_eq!(h.stats().unwrap().bytes_used, expected);
}

#[test]
fn insert_captured_image_with_secondary_formats() {
    let mut h = HistoryCoordinator::new_in_memory(10 * 1024 * 1024).unwrap();
    let bytes = vec![1u8, 2, 3, 4];
    let id = h
        .insert_captured(
            CapturedContent {
                image: Some(CapturedImage {
                    mime: "image/png".into(),
                    width: 8,
                    height: 4,
                    bytes: bytes.clone(),
                }),
                html: Some("<img src=\"x\">".into()),
                text: Some("x".into()),
                ..Default::default()
            },
            None,
        )
        .unwrap();
    let list = h.list(&Filter::default(), 0, 10).unwrap();
    assert_eq!(list[0].kind_tag, "image");
    assert_eq!(list[0].width, Some(8));
    assert_eq!(list[0].formats, vec!["image", "html", "text"]);
    let full = h.get_full_entry(id).unwrap().unwrap();
    assert_eq!(full.kind, "image");
    assert_eq!(full.image.as_deref(), Some(bytes.as_slice()));
    assert_eq!(full.html.as_deref(), Some("<img src=\"x\">"));
    assert_eq!(full.text.as_deref(), Some("x"));
    assert_eq!(h.get_image(id).unwrap(), bytes);
}

#[test]
fn get_full_entry_single_format_has_no_extras() {
    let mut h = HistoryCoordinator::new_in_memory(1024 * 1024).unwrap();
    let id = h.insert_text("plain".into(), None).unwrap();
    let list = h.list(&Filter::default(), 0, 10).unwrap();
    assert_eq!(list[0].formats, vec!["text"]);
    let full = h.get_full_entry(id).unwrap().unwrap();
    assert_eq!(full.kind, "text");
    assert_eq!(full.text.as_deref(), Some("plain"));
    assert!(full.html.is_none());
    assert!(full.rtf.is_none());
    assert!(full.image.is_none());
    assert!(full.files.is_none());
}

#[test]
fn get_full_entry_files_split_lines() {
    let mut h = HistoryCoordinator::new_in_memory(1024 * 1024).unwrap();
    let id = h
        .insert_captured(
            CapturedContent {
                files: Some(vec!["C:\\a.txt".into(), "C:\\b.txt".into()]),
                text: Some("C:\\a.txt".into()),
                ..Default::default()
            },
            None,
        )
        .unwrap();
    let full = h.get_full_entry(id).unwrap().unwrap();
    assert_eq!(full.kind, "files");
    assert_eq!(
        full.files,
        Some(vec!["C:\\a.txt".to_string(), "C:\\b.txt".to_string()])
    );
    assert_eq!(full.text.as_deref(), Some("C:\\a.txt"));
}

#[test]
fn delete_removes_secondary_formats() {
    let mut h = HistoryCoordinator::new_in_memory(1024 * 1024).unwrap();
    let id = h
        .insert_captured(
            CapturedContent {
                html: Some("<b>x</b>".into()),
                text: Some("x".into()),
                ..Default::default()
            },
            None,
        )
        .unwrap();
    h.delete(id).unwrap();
    assert!(h.get_full_entry(id).unwrap().is_none());
    let orphans: usize = h.entries().iter().map(|e| e.formats.len()).sum();
    assert_eq!(orphans, 0);
}

#[test]
fn clear_respects_pin_flag() {
    let mut h = HistoryCoordinator::new_in_memory(1024 * 1024).unwrap();
    let p = h.insert_text("pinned".into(), None).unwrap();
    h.set_pinned(p, true).unwrap();
    h.insert_text("transient".into(), None).unwrap();
    h.clear(false).unwrap();
    let list = h.list(&Filter::default(), 0, 10).unwrap();
    assert_eq!(list.len(), 1);
    assert!(list[0].pinned);
    h.clear(true).unwrap();
    let list = h.list(&Filter::default(), 0, 10).unwrap();
    assert!(list.is_empty());
}

// --- further cases ---

#[test]
fn empty_capture_is_refused() {
    let mut h = HistoryCoordinator::new_in_memory(1024).unwrap();
    assert_eq!(
        h.insert_captured(CapturedContent::default(), None).unwrap_err(),
        "empty capture"
    );
    assert_eq!(h.stats().unwrap().items, 0);
}

#[test]
fn primary_kind_prefers_files_then_image_then_html() {
    let c = CapturedContent {
        files: Some(vec!["/a".into()]),
        html: Some("<b>x</b>".into()),
        ..Default::default()
    };
    assert_eq!(c.primary_kind(), Some("files"));
    let c = CapturedContent {
        rtf: Some("{\\rtf1 x}".into()),
        text: Some("x".into()),
        ..Default::default()
    };
    assert_eq!(c.primary_kind(), Some("rtf"));
    assert_eq!(CapturedContent::default().primary_kind(), None);
}

#[test]
fn listing_puts_pinned_first_then_newest() {
    let mut h = HistoryCoordinator::new_in_memory(1024 * 1024).unwrap();
    let a = h.insert_text("first".into(), None).unwrap();
    let b = h.insert_text("second".into(), None).unwrap();
    let c = h.insert_text("third".into(), None).unwrap();
    h.set_pinned(a, true).unwrap();
    let list = h.list(&Filter::default(), 0, 10).unwrap();
    let ids: Vec<u128> = list.iter().map(|e| e.id).collect();
    assert_eq!(ids, vec![a, c, b]);
    let pinned = h
        .list(&Filter { pinned_only: true, ..Default::default() }, 0, 10)
        .unwrap();
    assert_eq!(pinned.len(), 1);
    assert_eq!(pinned[0].id, a);
}

#[test]
fn listing_pages_with_offset_and_limit() {
    let mut h = HistoryCoordinator::new_in_memory(1024 * 1024).unwrap();
    for t in ["one", "two", "three"] {
        h.insert_text(t.into(), None).unwrap();
    }
    let page = h.list(&Filter::default(), 1, 1).unwrap();
    assert_eq!(page.len(), 1);
    assert_eq!(page[0].preview, "two");
    // a limit of 0 still yields one entry
    assert_eq!(h.list(&Filter::default(), 0, 0).unwrap().len(), 1);
    assert!(h.list(&Filter::default(), 5, 10).unwrap().is_empty());
}

#[test]
fn search_is_case_insensitive_and_images_match_their_pattern() {
    let mut h = HistoryCoordinator::new_in_memory(1024 * 1024).unwrap();
    h.insert_text("Hello World".into(), None).unwrap();
    h.insert_image("image/png".into(), 1, 1, vec![0], Some("Zoom-Link".into()))
        .unwrap();
    let q = |s: &str| Filter { query: s.into(), ..Default::default() };
    assert_eq!(h.list(&q("WORLD"), 0, 10).unwrap().len(), 1);
    let img = h.list(&q("zoom"), 0, 10).unwrap();
    assert_eq!(img.len(), 1);
    assert_eq!(img[0].kind_tag, "image");
    assert_eq!(img[0].matched_pattern.as_deref(), Some("Zoom-Link"));
}

#[test]
fn set_last_sent_to_and_cap_eviction() {
    let mut h = HistoryCoordinator::new_in_memory(1024).unwrap();
    let id = h.insert_text("0123456789".into(), None).unwrap();
    h.set_last_sent_to(id, "team-chat").unwrap();
    let list = h.list(&Filter::default(), 0, 10).unwrap();
    assert_eq!(list[0].last_sent_to.as_deref(), Some("team-chat"));
    h.set_cap(5).unwrap();
    let s = h.stats().unwrap();
    assert_eq!(s.items, 0);
    assert_eq!(s.bytes_cap, 5);
    assert!(!s.persisted_to_disk);
}

#[test]
fn get_image_of_missing_entry_reports_no_rows() {
    let mut h = HistoryCoordinator::new_in_memory(1024).unwrap();
    let id = h.insert_text("no image".into(), None).unwrap();
    assert_eq!(h.get_image(id).unwrap_err(), "Query returned no rows");
    assert_eq!(h.get_image(id ^ 1).unwrap_err(), "Query returned no rows");
    assert!(h.get_full_entry(id ^ 1).unwrap().is_none());
}

#[test]
fn restore_orders_rows_and_drops_repeated_ids() {
    let mut src = HistoryCoordinator::new_in_memory(1024).unwrap();
    src.insert_text("x".into(), None).unwrap();
    let row = |id: u128, ts: i64| StoredEntry {
        id,
        timestamp: ts,
        kind: EntryKind::Text,
        content_ct: None,
        mime: None,
        width: None,
        height: None,
        size_bytes: 0,
        matched_pattern: None,
        pinned: false,
        last_sent_to: None,
        image_ct: None,
        formats: vec![],
    };
    let h = HistoryCoordinator::restore(KEY_A, 100, vec![row(1, 30), row(2, 10), row(1, 20)]);
    let ts: Vec<i64> = h.entries().iter().map(|e| e.timestamp).collect();
    assert_eq!(ts.len(), 2);
    assert!(ts[0] <= ts[1]);
    assert_eq!(h.stats().unwrap().persisted_to_disk, true);
}

#[test]
fn hex_to_key_parses_and_rejects() {
    let hex = "00ff".repeat(16);
    let k = hex_to_key(&hex).unwrap();
    assert_eq!(k[0], 0);
    assert_eq!(k[1], 255);
    assert_eq!(k[31], 255);
    assert_eq!(hex_to_key("abc").unwrap_err(), "bad key length");
    assert!(hex_to_key(&"zz".repeat(32)).is_err());
}

#[test]
fn previews_of_files_and_names() {
    assert_eq!(file_name_of("/a/b/c.txt/"), "c.txt");
    assert_eq!(file_name_of("C:\\x\\y.doc"), "y.doc");
    let (p, n) = files_preview("/a/one.txt\n\n/b/two.txt");
    assert_eq!(p, "one.txt, two.txt");
    assert_eq!(n, 2);
}

fn text_capture(t: &str) -> CapturedContent {
    CapturedContent { files: None, image: None, html: None, rtf: None, text: Some(t.to_string()) }
}

#[test]
fn insert_with_refuses_a_taken_id_only() {
    let mut h = HistoryCoordinator::new_in_memory(1024 * 1024).unwrap();
    assert_eq!(h.insert_with(text_capture("a"), None, 42, 1000), Ok(42));
    let before = h.stats().unwrap().items;
    assert_eq!(
        h.insert_with(text_capture("b"), None, 42, 2000),
        Err("UNIQUE constraint failed: entries.id".to_string())
    );
    assert_eq!(h.stats().unwrap().items, before);
    assert_eq!(h.insert_with(text_capture("b"), None, 43, 2000), Ok(43));
    let full = h.get_full_entry(43).unwrap().unwrap();
    assert_eq!(full.text.as_deref(), Some("b"));
    assert_eq!(h.stats().unwrap().bytes_used, 2);
}

#[test]
fn insert_with_refuses_an_empty_capture() {
    let mut h = HistoryCoordinator::new_in_memory(1024).unwrap();
    let empty = CapturedContent { files: None, image: None, html: None, rtf: None, text: None };
    assert_eq!(h.insert_with(empty, None, 1, 1), Err("empty capture".to_string()));
}

#[test]
fn case_insensitive_search_in_ascii() {
    let mut h = HistoryCoordinator::new_in_memory(1048576).unwrap();
    h.insert_text("Hello World".to_string(), None).unwrap();
    let f = Filter { query: "hELLO".to_string(), ..Default::default() };
    let v = h.list(&f, 0, 10).unwrap();
    assert_eq!(v.len(), 1);
    assert_eq!(v[0].preview, "Hello World");
}

#[test]
fn unreadable_entry_reports_the_decryption_message() {
    let bad = StoredEntry {
        id: 1,
        timestamp: 0,
        kind: EntryKind::Text,
        content_ct: Some(vec![1, 2, 3]),
        mime: None,
        width: None,
        height: None,
        size_bytes: 3,
        matched_pattern: None,
        pinned: false,
        last_sent_to: None,
        image_ct: Some(vec![0u8; 40]),
        formats: vec![],
    };
    let h = HistoryCoordinator::restore(KEY_A, 1024, vec![bad]);
    assert_eq!(h.get_full_entry(1).unwrap_err(), "ciphertext too short");
    assert_eq!(h.get_image(1).unwrap_err(), "decrypt: aead::Error");
}

#[test]
fn listing_after_clear_equals_pinned_listing_before() {
    let mut h = HistoryCoordinator::new_in_memory(1024 * 1024).unwrap();
    let a = h.insert_with(text_capture("one"), None, 1, 10).unwrap();
    h.insert_with(text_capture("two"), None, 2, 20).unwrap();
    let c = h.insert_with(text_capture("three"), None, 3, 30).unwrap();
    h.set_pinned(a, true).unwrap();
    h.set_pinned(c, true).unwrap();
    let pinned = Filter { pinned_only: true, ..Default::default() };
    let before: Vec<u128> = h.list(&pinned, 0, u32::MAX).unwrap().iter().map(|e| e.id).collect();
    h.clear(false).unwrap();
    let after: Vec<u128> = h.list(&Filter::default(), 0, u32::MAX).unwrap().iter().map(|e| e.id).collect();
    assert_eq!(before, after);
    assert_eq!(after, vec![3, 1]);
}

#[test]
fn delete_updates_counters() {
    let mut h = HistoryCoordinator::new_in_memory(1024 * 1024).unwrap();
    h.insert_with(text_capture("abc"), None, 1, 10).unwrap();
    h.insert_with(text_capture("hello"), None, 2, 20).unwrap();
    h.delete(2).unwrap();
    let s = h.stats().unwrap();
    assert_eq!((s.items, s.bytes_used), (1, 3));
    h.delete(99).unwrap();
    assert_eq!(h.stats().unwrap().items, 1);
    assert!(h.get_image(2).is_err());
}

#[test]
fn eviction_drops_oldest_unpinned_first() {
    let mut h = HistoryCoordinator::new_in_memory(1024).unwrap();
    h.insert_with(text_capture("aaaaaaaaaa"), None, 1, 10).unwrap();
    h.insert_with(text_capture("bbbbbbbbbb"), None, 2, 20).unwrap();
    h.set_pinned(1, true).unwrap();
    h.insert_with(text_capture("cccccccccc"), None, 3, 30).unwrap();
    h.set_cap(20).unwrap();
    let ids: Vec<u128> = h.entries().iter().map(|e| e.id).collect();
    assert_eq!(ids, vec![1, 3]);
}

#[test]
fn insert_then_read_gives_files_back() {
    let mut h = HistoryCoordinator::new_in_memory(1024 * 1024).unwrap();
    let files = vec!["/tmp/a b.txt".to_string(), "C:\\x\\y.doc".to_string()];
    let c = CapturedContent { files: Some(files.clone()), image: None, html: None, rtf: None, text: None };
    let before = h.stats().unwrap();
    let id = h.insert_captured(c, Some("pat".into())).unwrap();
    let after = h.stats().unwrap();
    assert_eq!(after.items, before.items + 1);
    let full = h.get_full_entry(id).unwrap().unwrap();
    assert_eq!(full.files, Some(files));
}
