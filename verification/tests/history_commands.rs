use clipygo::history::{CapturedContent, FullEntry, HistoryCoordinator};
use clipygo::history_commands::payload_from_full_entry;

#[test]
fn payload_keeps_stored_text() {
    let payload = payload_from_full_entry(FullEntry {
        kind: "html".into(),
        html: Some("<b>rich</b>".into()),
        text: Some("stored".into()),
        ..Default::default()
    });
    assert_eq!(payload.text.as_deref(), Some("stored"));
    assert_eq!(payload.html.as_deref(), Some("<b>rich</b>"));
}

#[test]
fn payload_derives_text_from_html() {
    let payload = payload_from_full_entry(FullEntry {
        kind: "html".into(),
        html: Some("<p>Hello <b>world</b></p>".into()),
        ..Default::default()
    });
    assert_eq!(payload.text.as_deref(), Some("Hello world"));
}

#[test]
fn payload_derives_text_from_rtf() {
    let payload = payload_from_full_entry(FullEntry {
        kind: "rtf".into(),
        rtf: Some(r"{\rtf1\ansi Hello \b world\b0 .}".into()),
        ..Default::default()
    });
    assert_eq!(payload.text.as_deref(), Some("Hello world."));
    assert!(payload.rtf.is_some());
}

#[test]
fn payload_encodes_image_base64() {
    let payload = payload_from_full_entry(FullEntry {
        kind: "image".into(),
        mime: Some("image/png".into()),
        image: Some(vec![1, 2, 3]),
        ..Default::default()
    });
    assert_eq!(payload.kind, "image");
    assert_eq!(payload.image_base64.as_deref(), Some("AQID"));
    assert_eq!(payload.mime.as_deref(), Some("image/png"));
}

#[test]
fn resend_reads_back_a_stored_capture() {
    let mut h = HistoryCoordinator::new_in_memory(1024 * 1024).unwrap();
    let id = h
        .insert_captured(
            CapturedContent {
                html: Some("<i>again</i>".into()),
                ..Default::default()
            },
            None,
        )
        .unwrap();
    let p = h.resend(id).unwrap();
    assert_eq!(p.kind, "html");
    assert_eq!(p.html.as_deref(), Some("<i>again</i>"));
    assert_eq!(p.text.as_deref(), Some("again"));
    assert_eq!(p.mime.as_deref(), Some("text/html"));
    assert_eq!(h.resend(id ^ 1).unwrap_err(), "entry not found");
}

#[test]
fn image_base64_of_stored_image() {
    let mut h = HistoryCoordinator::new_in_memory(1024 * 1024).unwrap();
    let id = h.insert_image("image/png".into(), 1, 1, vec![1, 2, 3], None).unwrap();
    assert_eq!(h.image_base64(id).unwrap(), "AQID");
}
