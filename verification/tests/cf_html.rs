use clipygo::cf_html::{is_full_document, wrap, HEADER, WRAP_PREFIX, WRAP_SUFFIX};

fn header_value(cf: &str, key: &str) -> usize {
    cf.lines()
        .find_map(|l| l.strip_prefix(&format!("{key}:")))
        .unwrap()
        .trim_start_matches('0')
        .parse()
        .unwrap_or(0)
}

#[test]
fn offsets_slice_back_to_readback() {
    let (cf, readback) = wrap("<p>Hello <b>world</b></p>");
    let start = header_value(&cf, "StartHTML");
    let end = header_value(&cf, "EndHTML");
    assert_eq!(&cf[start..end], readback);
    assert!(readback.starts_with(WRAP_PREFIX));
    assert!(readback.ends_with(WRAP_SUFFIX));
}

#[test]
fn fragment_offsets_point_at_fragment() {
    let fragment = "<p>Grüße &amp; Umläute — äöüß</p>";
    let (cf, _) = wrap(fragment);
    let start = header_value(&cf, "StartFragment");
    let end = header_value(&cf, "EndFragment");
    assert_eq!(&cf[start..end], fragment);
}

#[test]
fn full_document_is_not_double_wrapped() {
    let doc = "<html>\r\n<body>\r\n<!--StartFragment--><b>x</b><!--EndFragment-->\r\n</body>\r\n</html>";
    let (cf, readback) = wrap(doc);
    assert_eq!(readback, doc);
    let start = header_value(&cf, "StartHTML");
    let end = header_value(&cf, "EndHTML");
    assert_eq!(&cf[start..end], doc);
}

#[test]
fn doctype_and_case_insensitive_html_detected() {
    assert!(is_full_document("<!DOCTYPE html><html><body>x</body></html>"));
    assert!(is_full_document("<HTML><body>x</body></HTML>"));
    assert!(is_full_document("  <html lang=\"de\"><body>x</body></html>"));
    assert!(!is_full_document("<p>x</p>"));
}

#[test]
fn header_length_matches_template() {
    let (cf, _) = wrap("<p>x</p>");
    assert_eq!(header_value(&cf, "StartHTML"), HEADER.len());
    assert_eq!(cf[..HEADER.len()].len(), HEADER.len());
    assert!(cf[HEADER.len()..].starts_with(WRAP_PREFIX));
}

#[test]
fn cf_html_end_offsets_cover_whole_document() {
    let (cf, readback) = wrap("<i>tail</i>");
    let end = header_value(&cf, "EndHTML");
    assert_eq!(end, cf.len());
    assert_eq!(header_value(&cf, "StartHTML") + readback.len(), end);
}
