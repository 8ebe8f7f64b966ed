use squire::memory::InMemorySquireStore;
use squire::ranges::parse_range_spec;
use squire::resolve::{
    find_token_with_bookmark, resolve_all_range_specs, resolve_range_spec, resolve_ranges, resolve_token_range,
};
use squire::types::{NewTokenSpec, TokenRange};

fn token(id: &str, ty: &str, short: &str, full: Option<&str>) -> NewTokenSpec {
    NewTokenSpec {
        id: id.to_string(),
        token_type: ty.to_string(),
        short_desc: short.to_string(),
        full_desc: full.map(|s| s.to_string()),
        endpoint: None,
        ranges: vec![],
    }
}

fn setup_store_with_chunks() -> InMemorySquireStore {
    let mut store = InMemorySquireStore::new();
    store.upsert_token(
        token(
            "USR_T1_005",
            "source",
            "Test chunk",
            Some("Some leading text.§^<BMK0>§^Hello World This is a test.§^<BMK1>§^And more text here."),
        ),
        1,
        0,
    );
    store
}

#[test]
fn test_resolve_range_spec_basic() {
    let store = setup_store_with_chunks();
    let spec = parse_range_spec("USR_T1_005:<BMK0>→USR_T1_005:<BMK1>").unwrap();
    let ranges = resolve_range_spec(&spec, &store, 0).unwrap();
    assert_eq!(ranges.len(), 1);
    let r = &ranges[0];
    assert_eq!(r.namespace, "USR_T1_005");
    assert_eq!(r.bookmark, "<BMK0>");
    assert_eq!(r.offset, 0);
    assert_eq!(r.length, Some(39));
}

#[test]
fn test_resolve_range_spec_with_offset() {
    let store = setup_store_with_chunks();
    let spec = parse_range_spec("USR_T1_005:<BMK0>:6→USR_T1_005:<BMK1>").unwrap();
    let ranges = resolve_range_spec(&spec, &store, 0).unwrap();
    assert_eq!(ranges.len(), 1);
    let r = &ranges[0];
    assert_eq!(r.offset, 6);
    assert_eq!(r.length, Some(33));
}

#[test]
fn test_resolve_range_spec_multi_token_rejected() {
    let store = setup_store_with_chunks();
    let spec = parse_range_spec("USR_T1_005:<BMK0>→OTHER_TOKEN:<BMK1>").unwrap();
    let result = resolve_range_spec(&spec, &store, 0);
    assert!(result.is_err());
    assert!(result.unwrap_err().contains("cross-namespace"));
}

#[test]
fn test_resolve_all_range_specs_integration() {
    let store = setup_store_with_chunks();
    let mut tokens = vec![
        token("REF_Scene", "referential", "The combat scene", Some("USR_T1_005:<BMK0>→USR_T1_005:<BMK1>")),
        token("CON_Theme", "concept", "Theme of story", None),
    ];
    resolve_all_range_specs(&mut tokens, &store, 0).unwrap();
    let ref_token = &tokens[0];
    assert!(!ref_token.ranges.is_empty(), "ranges should be populated");
    assert_eq!(ref_token.full_desc, None, "full_desc should be cleared");
    let range = &ref_token.ranges[0];
    assert_eq!(range.namespace, "USR_T1_005");
    assert_eq!(range.bookmark, "<BMK0>");
    assert_eq!(range.length, Some(39));
    let concept_token = &tokens[1];
    assert!(concept_token.ranges.is_empty());
    assert_eq!(concept_token.short_desc, "Theme of story");
}

#[test]
fn bare_bookmarks_are_found_by_searching_the_session() {
    let store = setup_store_with_chunks();
    let spec = parse_range_spec("<BMK0>→<BMK1>").unwrap();
    let ranges = resolve_range_spec(&spec, &store, 0).unwrap();
    assert_eq!(ranges[0].namespace, "USR_T1_005");
    assert_eq!(ranges[0].length, Some(39));
}

#[test]
fn find_token_with_bookmark_picks_the_least_holding_id() {
    let mut store = setup_store_with_chunks();
    store.upsert_token(token("USR_T1_002", "source", "Other", Some("x§^<BMK0>§^y")), 1, 0);
    store.upsert_token(token("USR_T1_009", "source", "Later", Some("§^<BMK0>§^z")), 1, 0);
    assert_eq!(find_token_with_bookmark("<BMK0>", &store, 0), Ok("USR_T1_002".to_string()));
    assert_eq!(find_token_with_bookmark("<BMK1>", &store, 0), Ok("USR_T1_005".to_string()));
    assert_eq!(
        find_token_with_bookmark("nope", &store, 0),
        Err("bookmark 'nope' not found in any namespace in this session".to_string())
    );
}

#[test]
fn missing_bookmark_and_empty_range_are_reported() {
    let store = setup_store_with_chunks();
    let spec = parse_range_spec("USR_T1_005:<BMK0>→USR_T1_005:<BMK9>").unwrap();
    assert_eq!(
        resolve_range_spec(&spec, &store, 0),
        Err("bookmark <BMK9> not found in namespace USR_T1_005".to_string())
    );
    let spec = parse_range_spec("USR_T1_005:<BMK1>→USR_T1_005:<BMK0>").unwrap();
    assert_eq!(resolve_range_spec(&spec, &store, 0), Err("empty or negative range: start=69 end=30".to_string()));
    let spec = parse_range_spec("GHOST:<BMK1>→GHOST:<BMK0>").unwrap();
    assert_eq!(
        resolve_range_spec(&spec, &store, 0),
        Err("namespace GHOST not found or has no full_desc".to_string())
    );
}

#[test]
fn same_bookmark_on_both_sides_runs_to_the_end_of_the_text() {
    let store = setup_store_with_chunks();
    let spec = parse_range_spec("USR_T1_005:<BMK1>→USR_T1_005:<BMK1>").unwrap();
    let ranges = resolve_range_spec(&spec, &store, 0).unwrap();
    assert_eq!(ranges[0].length, Some("And more text here.".len()));
}

#[test]
fn resolve_all_stops_at_the_first_bad_spec() {
    let store = setup_store_with_chunks();
    let mut tokens = vec![
        token("A", "referential", "a", Some("USR_T1_005:<BMK0>→USR_T1_005:<BMK1>")),
        token("B", "referential", "b", Some("→")),
        token("C", "referential", "c", Some("USR_T1_005:<BMK0>→USR_T1_005:<BMK1>")),
    ];
    let r = resolve_all_range_specs(&mut tokens, &store, 0);
    assert_eq!(r, Err("invalid range spec in token B: →".to_string()));
    assert_eq!(tokens[0].full_desc, None);
    assert_eq!(tokens[1].full_desc, Some("→".to_string()));
    assert_eq!(tokens[2].full_desc, Some("USR_T1_005:<BMK0>→USR_T1_005:<BMK1>".to_string()));
    assert!(tokens[2].ranges.is_empty());
}

#[test]
fn resolve_token_range_reports_and_drops_unresolvable_specs() {
    let store = setup_store_with_chunks();
    let mut t = token("REF_X", "referential", "x", Some("USR_T1_005:<BMK0>→USR_T1_005:<BMK9>"));
    let r = resolve_token_range(&mut t, &store, 0);
    assert_eq!(r, Some("REF_X: bookmark <BMK9> not found in namespace USR_T1_005".to_string()));
    assert_eq!(t.full_desc, None);
    let mut t = token("REF_Y", "referential", "y", Some("→"));
    assert_eq!(resolve_token_range(&mut t, &store, 0), Some("REF_Y: invalid range spec syntax".to_string()));
    assert_eq!(t.full_desc, Some("→".to_string()));
    let mut t = token("REF_Z", "referential", "z", Some("USR_T1_005:<BMK0>→USR_T1_005:<BMK1>"));
    assert_eq!(resolve_token_range(&mut t, &store, 0), None);
    assert_eq!(t.ranges[0].length, Some(39));
    let mut t = token("CON_W", "concept", "w", Some("plain text"));
    assert_eq!(resolve_token_range(&mut t, &store, 0), None);
    assert_eq!(t.full_desc, Some("plain text".to_string()));
}

#[test]
fn resolve_ranges_joins_slices_and_trims() {
    let store = setup_store_with_chunks();
    let r1 = TokenRange { namespace: "USR_T1_005".into(), bookmark: "<BMK0>".into(), offset: 6, length: Some(5) };
    let r2 = TokenRange { namespace: "USR_T1_005".into(), bookmark: "<BMK1>".into(), offset: 0, length: None };
    let missing = TokenRange { namespace: "NOPE".into(), bookmark: "<BMK1>".into(), offset: 0, length: None };
    let past = TokenRange { namespace: "USR_T1_005".into(), bookmark: "<BMK1>".into(), offset: 500, length: None };
    let text = resolve_ranges(&vec![r1, missing, past, r2], &store);
    assert_eq!(text, "World\nAnd more text here.");
    let long = TokenRange { namespace: "USR_T1_005".into(), bookmark: "<BMK0>".into(), offset: 0, length: Some(1000) };
    assert_eq!(
        resolve_ranges(&vec![long], &store),
        "Hello World This is a test.§^<BMK1>§^And more text here."
    );
}

#[test]
fn expand_for_display_replaces_inline_references() {
    let mut store = setup_store_with_chunks();
    let mut r = token("REF_A", "referential", "ignored", None);
    r.ranges = vec![TokenRange { namespace: "USR_T1_005".into(), bookmark: "<BMK0>".into(), offset: 6, length: Some(5) }];
    store.upsert_token(r, 1, 0);
    store.upsert_token(token("CON_B", "concept", "the theme", None), 1, 0);
    let content = "See §!REF_A, §!CON_B and §!GHOST. Cost: 5§ each.";
    assert!(squire::resolve::display_fits_exec(content, &store));
    assert_eq!(
        squire::resolve::expand_for_display(content, &store),
        "See World, the theme and GHOST. Cost: 5§ each."
    );
}

#[test]
fn expand_for_display_strips_span_markers_first() {
    let mut store = setup_store_with_chunks();
    store.upsert_token(token("CON_B", "concept", "the theme", None), 1, 0);
    let content = "§^REF_S A span§^ about §!CON_B";
    assert_eq!(squire::resolve::expand_for_display(content, &store), "A span about the theme");
}

#[test]
fn ranges_that_cut_a_character_do_not_fit() {
    let store = setup_store_with_chunks();
    let ok = TokenRange { namespace: "USR_T1_005".into(), bookmark: "<BMK0>".into(), offset: 0, length: Some(5) };
    assert!(squire::resolve::ranges_fit(&vec![ok], &store));
    // 28 bytes from the bookmark end inside the `§` of the next tag.
    let bad = TokenRange { namespace: "USR_T1_005".into(), bookmark: "<BMK0>".into(), offset: 0, length: Some(28) };
    assert!(!squire::resolve::ranges_fit(&vec![bad], &store));
}

#[test]
fn resolved_ranges_read_back_the_spanned_text() {
    let store = setup_store_with_chunks();
    let spec = parse_range_spec("USR_T1_005:<BMK0>:6→USR_T1_005:<BMK1>").unwrap();
    let ranges = resolve_range_spec(&spec, &store, 0).unwrap();
    assert_eq!(resolve_ranges(&ranges, &store), "World This is a test.§^<BMK1>§^");
}
