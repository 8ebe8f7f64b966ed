use squire::ranges::{
    desc_has_bookmark, is_range_spec, parse_range_position, parse_range_spec,
    range_source_namespace, resolve_range_in_text,
};

#[test]
fn test_parse_range_position_token_only() {
    let pos = parse_range_position("USR_T1_005:chunk_0").unwrap();
    assert_eq!(pos.namespace, "USR_T1_005");
    assert_eq!(pos.bookmark, "chunk_0");
    assert_eq!(pos.offset, 0);
}

#[test]
fn test_parse_range_position_with_offset() {
    let pos = parse_range_position("USR_T1_005:chunk_0:20").unwrap();
    assert_eq!(pos.namespace, "USR_T1_005");
    assert_eq!(pos.bookmark, "chunk_0");
    assert_eq!(pos.offset, 20);
}

#[test]
fn test_parse_range_position_empty_namespace() {
    assert!(parse_range_position(":chunk_0").is_none());
}

#[test]
fn test_parse_range_position_empty_bookmark() {
    assert!(parse_range_position("USR_T1_005:").is_none());
}

#[test]
fn test_parse_range_spec_simple() {
    let spec = parse_range_spec("USR_T1_005:chunk_0→USR_T1_005:chunk_1").unwrap();
    assert_eq!(spec.start.namespace, "USR_T1_005");
    assert_eq!(spec.start.bookmark, "chunk_0");
    assert_eq!(spec.start.offset, 0);
    assert_eq!(spec.end.namespace, "USR_T1_005");
    assert_eq!(spec.end.bookmark, "chunk_1");
    assert_eq!(spec.end.offset, 0);
}

#[test]
fn test_parse_range_spec_with_offsets() {
    let spec = parse_range_spec("USR_T1_005:chunk_0:20→USR_T1_005:chunk_1:3").unwrap();
    assert_eq!(spec.start.namespace, "USR_T1_005");
    assert_eq!(spec.start.offset, 20);
    assert_eq!(spec.end.namespace, "USR_T1_005");
    assert_eq!(spec.end.offset, 3);
}

#[test]
fn test_parse_range_spec_no_arrow() {
    assert!(parse_range_spec("USR_T1_005:chunk_0").is_none());
}

#[test]
fn test_is_range_spec() {
    assert!(is_range_spec("a:b→c:d"));
    assert!(!is_range_spec("a:b-c:d"));
}

const SOURCE: &str =
    "Some leading text.§^<BMK0>§^Hello World This is a test.§^<BMK1>§^And more text here.";

#[test]
fn resolve_range_in_text_computes_byte_length() {
    let spec = parse_range_spec("USR_T1_005:<BMK0>→USR_T1_005:<BMK1>").unwrap();
    let ranges = resolve_range_in_text(&spec, "USR_T1_005", Some(SOURCE)).unwrap();
    assert_eq!(ranges.len(), 1);
    assert_eq!(ranges[0].namespace, "USR_T1_005");
    assert_eq!(ranges[0].bookmark, "<BMK0>");
    assert_eq!(ranges[0].offset, 0);
    assert_eq!(ranges[0].length, Some(39));
}

#[test]
fn resolve_range_in_text_applies_offset() {
    let spec = parse_range_spec("USR_T1_005:<BMK0>:6→USR_T1_005:<BMK1>").unwrap();
    let ranges = resolve_range_in_text(&spec, "USR_T1_005", Some(SOURCE)).unwrap();
    assert_eq!(ranges[0].offset, 6);
    assert_eq!(ranges[0].length, Some(33));
}

#[test]
fn cross_namespace_range_is_rejected() {
    let spec = parse_range_spec("USR_T1_005:<BMK0>→OTHER_TOKEN:<BMK1>").unwrap();
    let err = range_source_namespace(&spec).unwrap_err();
    assert!(err.contains("cross-namespace"));
}

#[test]
fn same_bookmark_on_both_sides_runs_to_end_of_text() {
    let spec = parse_range_spec("<BMK1>→<BMK1>").unwrap();
    assert_eq!(range_source_namespace(&spec).unwrap(), None);
    let ranges = resolve_range_in_text(&spec, "NS", Some(SOURCE)).unwrap();
    assert_eq!(ranges[0].length, Some("And more text here.".len()));
}

#[test]
fn resolution_errors_name_the_missing_piece() {
    let spec = parse_range_spec("NS:<BMK1>→NS:<BMK0>").unwrap();
    let err = resolve_range_in_text(&spec, "NS", Some(SOURCE)).unwrap_err();
    assert_eq!(err, "empty or negative range: start=69 end=30");
    let spec = parse_range_spec("NS:nope→NS:<BMK0>").unwrap();
    let err = resolve_range_in_text(&spec, "NS", Some(SOURCE)).unwrap_err();
    assert_eq!(err, "bookmark nope not found in namespace NS");
    let err = resolve_range_in_text(&spec, "NS", None).unwrap_err();
    assert_eq!(err, "namespace NS not found or has no full_desc");
    assert!(desc_has_bookmark(SOURCE, "§^<BMK1>"));
}

#[test]
fn numeric_second_piece_is_an_offset() {
    let pos = parse_range_position("  chunk_3:+12 ").unwrap();
    assert_eq!((pos.namespace.as_str(), pos.bookmark.as_str(), pos.offset), ("", "chunk_3", 12));
    let pos = parse_range_position("ns:bm:notanumber").unwrap();
    assert_eq!(pos.offset, 0);
}
