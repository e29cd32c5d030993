use chatwith::stream::{process_chunk, process_fragment, DecodeState, StreamError};

#[test]
fn thinking_content_is_rendered_but_not_accumulated() {
    let mut state = DecodeState::new();
    let chunks = [
        "{\"message\":{\"content\":\"<think>\"}}",
        "{\"message\":{\"content\":\"reasoning\"}}",
        "{\"message\":{\"content\":\"</think>\"}}",
        "{\"message\":{\"content\":\"answer\"}}",
    ];
    for chunk in chunks {
        let r = process_chunk(&mut state, chunk);
        assert!(matches!(r, Ok(Some(_))));
    }
    assert_eq!(state.answer, "answer");
}

#[test]
fn think_tags_flip_state_and_styling_edges() {
    let mut state = DecodeState::new();
    let out = process_chunk(&mut state, "{\"message\":{\"content\":\"<think>\"}}")
        .unwrap()
        .unwrap();
    assert!(out.think_start);
    assert!(!out.think_end);
    assert!(state.thinking);
    let out2 = process_chunk(&mut state, "{\"message\":{\"content\":\"</think>\"}}")
        .unwrap()
        .unwrap();
    assert!(!out2.think_start);
    assert!(out2.think_end);
    assert!(!state.thinking);
    assert_eq!(state.answer, "");
}

#[test]
fn escaped_newlines_are_reconstructed() {
    let mut state = DecodeState::new();
    let out = process_chunk(&mut state, "{\"message\":{\"content\":\"line1\\\\nline2\"}}")
        .unwrap()
        .unwrap();
    assert_eq!(out.text, "line1line2");
    assert_eq!(out.newlines, 1);
    assert_eq!(state.answer, "line1line2\n");
}

#[test]
fn plain_content_accumulates_as_is() {
    let mut state = DecodeState::new();
    let out = process_chunk(&mut state, "{\"message\":{\"content\":\"hello\"}}")
        .unwrap()
        .unwrap();
    assert_eq!(out.text, "hello");
    assert_eq!(out.newlines, 0);
    assert_eq!(state.answer, "hello");
}

#[test]
fn malformed_chunk_is_a_parse_error() {
    let mut state = DecodeState::new();
    let r = process_chunk(&mut state, "this is not json");
    assert!(matches!(r, Err(StreamError::ParseError)));
    assert_eq!(state.answer, "");
}

#[test]
fn chunk_without_content_is_skipped() {
    let mut state = DecodeState::new();
    let r = process_chunk(&mut state, "{\"done\":true}");
    assert!(matches!(r, Ok(None)));
    assert_eq!(state.answer, "");
}

#[test]
fn fragment_quote_stripping_is_total() {
    let mut state = DecodeState::new();
    let out = process_fragment(&mut state, "\"say \\\"hi\\\"\"");
    // Every double quote goes; without escaped newlines the backslashes stay.
    assert_eq!(out.text, "say \\hi\\");
}

#[test]
fn newline_only_fragment_yields_blank_line() {
    let mut state = DecodeState::new();
    let out = process_fragment(&mut state, "\"\\n\"");
    assert_eq!(out.text, "");
    assert_eq!(out.newlines, 1);
    assert_eq!(state.answer, "\n");
}

#[test]
fn thinking_suppresses_newlines_too() {
    let mut state = DecodeState::new();
    process_fragment(&mut state, "\"<think>\"");
    let out = process_fragment(&mut state, "\"still thinking\\n\"");
    assert_eq!(out.newlines, 1);
    assert_eq!(state.answer, "");
    process_fragment(&mut state, "\"</think>\"");
    process_fragment(&mut state, "\"done\"");
    assert_eq!(state.answer, "done");
}
