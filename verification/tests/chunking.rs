use squire::chunking::{
    chunk_user_input, first_sentence, split_into_sentences, text_chunk_tokens, tool_token_id,
    CHUNK_SOFT_LIMIT_CHARS,
};

#[test]
fn chunk_user_input_short_message_is_one_chunk() {
    let chunks = chunk_user_input("What's the weather like today?");
    assert_eq!(chunks, vec!["What's the weather like today?".to_string()]);
}

#[test]
fn chunk_user_input_empty_or_whitespace_produces_no_chunks() {
    assert!(chunk_user_input("").is_empty());
    assert!(chunk_user_input("   \n\n  ").is_empty());
}

#[test]
fn chunk_user_input_splits_on_blank_line_paragraph_boundaries() {
    let text = "First paragraph here.\n\nSecond paragraph here.\n\nThird one.";
    let chunks = chunk_user_input(text);
    assert_eq!(
        chunks,
        vec![
            "First paragraph here.".to_string(),
            "Second paragraph here.".to_string(),
            "Third one.".to_string(),
        ]
    );
}

#[test]
fn chunk_user_input_short_paragraph_is_not_sentence_split() {
    let text = "Hi there. How are you doing today?";
    let chunks = chunk_user_input(text);
    assert_eq!(chunks, vec![text.to_string()]);
}

#[test]
fn chunk_user_input_long_paragraph_is_split_into_sentences() {
    let sentence_a = "A".repeat(200) + ".";
    let sentence_b = "B".repeat(200) + ".";
    let sentence_c = "C".repeat(200) + ".";
    let long_paragraph = format!("{} {} {}", sentence_a, sentence_b, sentence_c);
    assert!(long_paragraph.len() > CHUNK_SOFT_LIMIT_CHARS);

    let chunks = chunk_user_input(&long_paragraph);
    assert_eq!(chunks, vec![sentence_a, sentence_b, sentence_c]);
}

#[test]
fn chunk_user_input_handles_multiple_long_paragraphs_independently() {
    let para1 = format!("{} {}", "X".repeat(250) + ".", "Y".repeat(250) + ".");
    let para2 = "A short second paragraph.";
    let text = format!("{}\n\n{}", para1, para2);

    let chunks = chunk_user_input(&text);
    assert_eq!(chunks.len(), 3);
    assert_eq!(chunks[2], "A short second paragraph.");
}

#[test]
fn first_sentence_extracts_up_to_first_terminator() {
    assert_eq!(
        first_sentence("This is the first sentence. This is the second."),
        "This is the first sentence."
    );
}

#[test]
fn first_sentence_returns_whole_chunk_when_no_terminator_found() {
    assert_eq!(first_sentence("no terminator here"), "no terminator here");
}

#[test]
fn first_sentence_stops_at_newline() {
    assert_eq!(first_sentence("line one\nline two"), "line one");
}

#[test]
fn first_sentence_ignores_inner_dots() {
    assert_eq!(first_sentence("  pi is 3.14 roughly! yes"), "pi is 3.14 roughly!");
}

#[test]
fn chunk_limit_counts_characters() {
    // 207 characters but 407 bytes: within the limit, so one chunk.
    let fits = "é".repeat(200) + ". Next.";
    assert!(fits.len() > CHUNK_SOFT_LIMIT_CHARS);
    assert_eq!(chunk_user_input(&fits), vec![fits.clone()]);
    // 401 characters holding a sentence end: split.
    let long = "a".repeat(390) + ". " + &"b".repeat(9);
    assert_eq!(long.chars().count(), 401);
    assert_eq!(chunk_user_input(&long), vec!["a".repeat(390) + ".", "b".repeat(9)]);
    assert_eq!(chunk_user_input("Hi there. How are you doing today?"), vec!["Hi there. How are you doing today?"]);
}

#[test]
fn split_into_sentences_falls_back_to_paragraph() {
    assert_eq!(split_into_sentences("One! Two? Three"), vec!["One!", "Two?", "Three"]);
    assert_eq!(split_into_sentences("a.b. c"), vec!["a.b.", "c"]);
    assert_eq!(split_into_sentences("   "), vec!["   "]);
}

#[test]
fn tool_token_id_is_registry_name() {
    assert_eq!(tool_token_id("mcp_fs_read_file"), "mcp_fs_read_file");
}

#[test]
fn chunk_tokens_carry_ids_bookmarks_and_first_sentences() {
    let toks = text_chunk_tokens("First paragraph. More.\n\nSecond paragraph.", 3, "USR", "00000000");
    assert_eq!(toks.len(), 2);
    assert_eq!(toks[0].id, "USR_T3_001_00000000");
    assert_eq!(toks[1].id, "USR_T3_002_00000000");
    assert_eq!(toks[0].token_type, "system_referential");
    assert_eq!(toks[0].short_desc, "First paragraph.");
    assert_eq!(toks[0].full_desc.as_deref(), Some("§^chunk_0§^First paragraph. More."));
    assert_eq!(toks[1].full_desc.as_deref(), Some("§^chunk_1§^Second paragraph."));
    assert!(toks[1].endpoint.is_none());
    assert!(toks[1].ranges.is_empty());
    let many: String = (0..120).map(|i| format!("p{}\n\n", i)).collect();
    let toks = text_chunk_tokens(&many, 12, "RESP", "abcdef01");
    assert_eq!(toks[99].id, "RESP_T12_100_abcdef01");
    assert_eq!(toks[9].id, "RESP_T12_010_abcdef01");
}
