use forge_chat::stream::{
    classify_line, delta_from_fields, detect_command_in, parse_delta, SseBuffer, SseLine, StreamDelta, StreamState,
};

fn delta(reasoning: Option<&str>, content: Option<&str>) -> StreamDelta {
    StreamDelta {
        reasoning: reasoning.map(|s| s.as_bytes().to_vec()),
        content: content.map(|s| s.as_bytes().to_vec()),
    }
}

fn texts(chunks: Vec<Vec<u8>>) -> Vec<String> {
    chunks.into_iter().map(|c| String::from_utf8(c).unwrap()).collect()
}

#[test]
fn lines_are_framed_across_chunks() {
    let mut b = SseBuffer::new();
    b.push_chunk(b"data: {\"a\"");
    assert!(b.next_line().is_none());
    b.push_chunk(b":1}  \r\ndata: [DONE]\nrest");
    assert_eq!(b.next_line(), Some(b"data: {\"a\":1}".to_vec()));
    assert_eq!(b.next_line(), Some(b"data: [DONE]".to_vec()));
    assert_eq!(b.next_line(), None);
    assert_eq!(b.buffer, b"rest".to_vec());
}

#[test]
fn invalid_utf8_is_replaced() {
    let mut b = SseBuffer::new();
    b.push_chunk(b"a\xffb\n");
    assert_eq!(b.next_line(), Some("a\u{fffd}b".as_bytes().to_vec()));
}

#[test]
fn line_kinds() {
    assert!(matches!(classify_line(b"data: [DONE]"), SseLine::Done));
    match classify_line(b"data: {\"x\":2}") {
        SseLine::Data(d) => assert_eq!(d, b"{\"x\":2}".to_vec()),
        _ => panic!("expected data"),
    }
    assert!(matches!(classify_line(b": keep-alive"), SseLine::Other));
    assert!(matches!(classify_line(b"data:[DONE]"), SseLine::Other));
}

#[test]
fn reasoning_field_is_wrapped_in_think_tags() {
    let mut s = StreamState::new();
    assert_eq!(texts(s.on_delta(&delta(Some("plan"), None))), vec!["<think>\nplan"]);
    assert_eq!(texts(s.on_delta(&delta(Some(" more"), None))), vec![" more"]);
    assert!(s.is_reasoning);
    assert_eq!(texts(s.on_delta(&delta(None, Some("Answer")))), vec!["\n</think>\n", "Answer"]);
    assert!(!s.is_reasoning);
    assert_eq!(s.response, b"Answer".to_vec());
    assert_eq!(s.finish(), None);
}

#[test]
fn empty_content_keeps_reasoning_open() {
    let mut s = StreamState::new();
    s.on_delta(&delta(Some("x"), Some("")));
    assert!(s.is_reasoning);
    assert_eq!(s.finish(), Some(b"</think>".to_vec()));
}

#[test]
fn think_tags_in_content() {
    let mut s = StreamState::new();
    assert_eq!(texts(s.on_delta(&delta(None, Some("<think>hmm")))), vec!["<think>hmm"]);
    assert!(s.is_reasoning);
    assert!(!s.reasoning_field_used);
    s.on_delta(&delta(None, Some("done</think>ok")));
    assert!(!s.is_reasoning);
    assert_eq!(s.response, b"<think>hmmdone</think>ok".to_vec());
}

#[test]
fn tool_commands_are_detected() {
    let mut s = StreamState::new();
    s.on_delta(&delta(None, Some("Let me look. @@CODE: read src/")));
    assert!(s.command.is_none());
    s.on_delta(&delta(None, Some("main.rs | 1-20 @@ then")));
    let c = s.take_command().unwrap();
    assert_eq!(c.name, b"read".to_vec());
    assert_eq!(c.arg, b"src/main.rs | 1-20".to_vec());
    assert!(s.command.is_none());
}

#[test]
fn memory_takes_precedence_and_code_without_argument() {
    let c = detect_command_in(b"@@RUN: ls@@ and @@MEMORY: write a.md | hi @@").unwrap();
    assert_eq!((c.name, c.arg), (b"memory".to_vec(), b"write a.md | hi".to_vec()));
    let r = detect_command_in(b"@@RUN:  cargo check @@").unwrap();
    assert_eq!((r.name, r.arg), (b"run".to_vec(), b"cargo check".to_vec()));
    let t = detect_command_in(b"@@CODE: tree@@").unwrap();
    assert_eq!((t.name, t.arg), (b"tree".to_vec(), Vec::new()));
    // an open MEMORY marker hides the RUN command before it
    assert!(detect_command_in(b"@@RUN: ls@@ @@MEMORY: write").is_none());
}

#[test]
fn finish_closes_reasoning_without_command() {
    let mut s = StreamState::new();
    s.on_delta(&delta(None, Some("<|think|>x")));
    assert_eq!(s.finish(), Some(b"</think>".to_vec()));
    s.on_delta(&delta(None, Some("@@CODE: search foo@@")));
    assert_eq!(s.finish(), None);
}

#[test]
fn a_found_command_stays_until_taken() {
    let mut s = StreamState::new();
    s.on_delta(&delta(None, Some("@@RUN: ls@@")));
    s.on_delta(&delta(None, Some(" and more text")));
    s.on_delta(&delta(Some("thinking"), None));
    let c = s.take_command().unwrap();
    assert_eq!((c.name, c.arg), (b"run".to_vec(), b"ls".to_vec()));
    assert_eq!(s.response, b"@@RUN: ls@@ and more text".to_vec());
}

#[test]
fn written_commands_are_detected_as_written() {
    let r = detect_command_in(b"@@RUN: npm test -- --watch=false @@").unwrap();
    assert_eq!((r.name, r.arg), (b"run".to_vec(), b"npm test -- --watch=false".to_vec()));
    let c = detect_command_in(b"@@CODE:  read src/main.rs | 50-100@@").unwrap();
    assert_eq!((c.name, c.arg), (b"read".to_vec(), b"src/main.rs | 50-100".to_vec()));
}

fn parsed(data: &str) -> Option<(Option<String>, Option<String>)> {
    parse_delta(data.as_bytes()).map(|d| {
        (d.reasoning.map(|r| String::from_utf8(r).unwrap()), d.content.map(|c| String::from_utf8(c).unwrap()))
    })
}

#[test]
fn events_are_decoded_from_json() {
    assert_eq!(parsed(r#"{"choices":[{"delta":{"content":"Hi"}}]}"#), Some((None, Some("Hi".to_string()))));
    assert_eq!(
        parsed(r#"{"choices":[{"delta":{"reasoning_content":"a","reasoning":"b","content":"c"}}]}"#),
        Some((Some("a".to_string()), Some("c".to_string())))
    );
    assert_eq!(parsed(r#"{"choices":[{"delta":{"reasoning":"b"}}]}"#), Some((Some("b".to_string()), None)));
    assert_eq!(parsed(r#"{"choices":[{"delta":{"reasoning_content":null,"reasoning":"b"}}]}"#), Some((None, None)));
    assert_eq!(parsed(r#"{"choices":[{"delta":{"content":5}}]}"#), Some((None, None)));
    assert_eq!(parsed(r#"{"choices":[{"delta":{}},{"delta":{"content":"x"}}]}"#), Some((None, None)));
    assert_eq!(parsed(r#"{"choices":[]}"#), None);
    assert_eq!(parsed(r#"{"id":1}"#), None);
    assert_eq!(parsed("not json"), None);
}

#[test]
fn delta_fields_pick_the_reasoning_key() {
    let d = delta_from_fields(Some((true, None, Some(b"r".to_vec()), Some(b"c".to_vec())))).unwrap();
    assert_eq!(d.reasoning, None);
    assert_eq!(d.content, Some(b"c".to_vec()));
    let e = delta_from_fields(Some((false, None, Some(b"r".to_vec()), None))).unwrap();
    assert_eq!(e.reasoning, Some(b"r".to_vec()));
    assert!(delta_from_fields(None).is_none());
}
