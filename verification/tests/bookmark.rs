use squire::bookmark::{
    fix_concatenated_rel_lines, fix_unclosed_spans, normalize_bookmark_protocol,
    parse_bookmark_protocol, parse_normalized_bookmark_protocol,
};

#[test]
fn auto_closes_unclosed_span_at_end_of_line() {
    let input = "§^REF_wire_format\n\nNext paragraph.";
    let fixed = normalize_bookmark_protocol(input);
    assert!(fixed.matches("§^").count() % 2 == 0, "should have even number of §^ markers");
}

#[test]
fn preserves_already_closed_spans() {
    let input = "§^intro\nHello world\n§^\n\nMore text.";
    let fixed = normalize_bookmark_protocol(input);
    assert!(fixed.contains("§^intro\nHello world\n§^"));
}

#[test]
fn strips_markdown_header_from_section() {
    let input = "### §#new_tokens\nTOKEN | concept | desc\n§#";
    let fixed = normalize_bookmark_protocol(input);
    assert!(fixed.contains("§#new_tokens"));
    assert!(!fixed.contains("### §#new_tokens"));
}

#[test]
fn maps_step_instruction_to_section_header() {
    let input = "### Step 2 — Define referential tokens\nREF_X | referential | desc | range\n§#";
    let fixed = normalize_bookmark_protocol(input);
    assert!(fixed.contains("§#new_tokens"));
}

#[test]
fn maps_step_for_relationships() {
    let input = "### Step 4 — Define relationships\nA | pred | B\n§#";
    let fixed = normalize_bookmark_protocol(input);
    assert!(fixed.contains("§#relationships"));
}

#[test]
fn maps_preserve_step() {
    let input = "### Preserve\nTOKEN_A\n§#";
    let fixed = normalize_bookmark_protocol(input);
    assert!(fixed.contains("§#preserve"));
}

#[test]
fn strips_empty_predicate_field() {
    let input = "CON_A | | CON_B";
    let fixed = normalize_bookmark_protocol(input);
    assert_eq!(fixed, "CON_A | CON_B");
}

#[test]
fn leaves_valid_relationship_alone() {
    let input = "CON_A | Contains | CON_B";
    let fixed = normalize_bookmark_protocol(input);
    assert_eq!(fixed, "CON_A | Contains | CON_B");
}

#[test]
fn integration_scenario() {
    let input = "### Step 2 — Define referential tokens\nREF_intro | referential | Introduction | chunk_0\n\nCON_Decision | concept | Decision matrix | A framework\n\n### Step 4 — Define relationships\nCON_Decision | Contains | CON_Migration\nCON_Migration | | CON_Strategy\n\n### Preserve\nCON_Decision\nCON_Migration\n";
    let fixed = normalize_bookmark_protocol(input);
    assert!(fixed.contains("§#new_tokens"));
    assert!(fixed.contains("§#relationships"));
    assert!(fixed.contains("§#preserve"));
    assert!(!fixed.contains("| |"));
    assert!(fixed.contains("CON_Migration | CON_Strategy"));
    assert!(!fixed.contains("###"));
}

// ---- additional checks of this crate's own ----

#[test]
fn bookmark_protocol_sections_are_parsed() {
    let text = "Hello §!X there.\n\n§#new_tokens:\nX | concept | An x | Full x\nY|concept\n§#relationships\nX | relatesTo | Z\n#preserve\nX\n\n§#ask_user\nWhich one?\nReally?";
    let resp = parse_bookmark_protocol(text);
    assert_eq!(resp.content, "Hello §!X there.");
    assert_eq!(resp.new_tokens.len(), 1);
    assert_eq!(resp.new_tokens[0].id, "X");
    assert_eq!(resp.new_tokens[0].full_desc.as_deref(), Some("Full x"));
    assert_eq!(resp.relationships.len(), 1);
    assert_eq!(resp.relationships[0].predicate, "relatesTo");
    assert_eq!(resp.preserve, vec!["X"]);
    assert_eq!(resp.ask_user, "Which one?\nReally?");
}

#[test]
fn trailing_bare_marker_is_dropped() {
    assert_eq!(fix_unclosed_spans("text  §^"), "text");
    assert_eq!(fix_unclosed_spans("§^a b"), "§^a b§^");
    assert_eq!(fix_unclosed_spans("§^a§^"), "§^a§^");
}

#[test]
fn run_together_relationships_are_split() {
    let out = fix_concatenated_rel_lines("CON_A | HasParent | wire_detailCON_B | HasParent | stream_detail");
    assert_eq!(out, "CON_A | HasParent |\nwire_detailCON_B | HasParent | stream_detail");
    let out = fix_concatenated_rel_lines("A | p | B C | q | D\nplain");
    assert_eq!(out, "A | p |\nB C | q | D\nplain");
}

#[test]
fn normalized_parse_recovers_sections() {
    let resp = parse_normalized_bookmark_protocol("### New Tokens\nA | concept | a\n### Relationships\nA | | B\nA | rel | B");
    assert_eq!(resp.new_tokens.len(), 1);
    assert_eq!(resp.relationships.len(), 1);
    assert_eq!(resp.relationships[0].object, "B");
}
