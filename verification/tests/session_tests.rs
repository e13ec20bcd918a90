use forge_chat::message::{ChatMessage, MessageContent};
use forge_chat::session::{
    connect_error_message, exhausted_message, stream_message, AgentLoop, ChatSession, Outgoing, Phase, RoundStart, MAX_ITERATIONS,
};
use forge_chat::tools::{ToolOutcome, ToolPlan};

#[test]
fn stream_message_fields() {
    let m = stream_message(b"hi".to_vec(), false, &Some(b"r1".to_vec()));
    assert_eq!(m.message_id, b"r1".to_vec());
    assert_eq!(m.chunk, Some(b"hi".to_vec()));
    assert!(!m.done);
    assert_eq!(m.request_id, Some(b"r1".to_vec()));
    let end = stream_message(Vec::new(), true, &None);
    assert_eq!(end.message_id, b"mock_msg".to_vec());
    assert_eq!(end.chunk, None);
    assert_eq!(end.request_id, None);
    let empty_not_done = stream_message(Vec::new(), false, &None);
    assert_eq!(empty_not_done.chunk, Some(Vec::new()));
}

#[test]
fn at_most_fifteen_requests() {
    let mut l = AgentLoop::new(Vec::new());
    let mut granted = 0;
    for _ in 0..40 {
        if l.begin_round() {
            granted += 1;
        }
    }
    assert_eq!(granted, MAX_ITERATIONS);
    assert_eq!(granted, 15);
}

#[test]
fn tool_round_adds_two_messages() {
    let mut l = AgentLoop::new(vec![ChatMessage { role: b"user".to_vec(), content: MessageContent::Text(b"q".to_vec()) }]);
    l.record_tool_round(b"@@CODE: tree@@".to_vec(), b"Directory tree for /p:\n");
    assert_eq!(l.messages.len(), 3);
    assert_eq!(l.messages[1].role, b"assistant".to_vec());
    assert!(matches!(&l.messages[2].content, MessageContent::Text(t) if t == &b"Tool Result:\nDirectory tree for /p:\n".to_vec()));
    assert_eq!(l.messages[2].role, b"system".to_vec());
}

#[test]
fn error_texts() {
    assert_eq!(exhausted_message(), b"\n\n**Error:** Max codebase iterations reached.".to_vec());
    assert_eq!(
        connect_error_message(b"timeout"),
        b"\n\n**Error:** Failed to connect to AI provider: timeout".to_vec()
    );
}

fn texts(v: Vec<Vec<u8>>) -> Vec<String> {
    v.into_iter().map(|c| String::from_utf8(c).unwrap()).collect()
}

fn sent(v: Vec<Outgoing>) -> Vec<(String, bool)> {
    v.into_iter().map(|m| (String::from_utf8(m.chunk).unwrap(), m.done)).collect()
}

fn event(content: &str) -> String {
    format!("data: {{\"choices\":[{{\"delta\":{{\"content\":\"{}\"}}}}]}}\n", content)
}

#[test]
fn a_reply_without_tool_ends_once() {
    let mut s = ChatSession::new(Vec::new(), b"/p".to_vec());
    assert!(matches!(s.start_round(), RoundStart::Request));
    let first = event("Hel");
    let (chunks, keep) = s.on_chunk(Some(&first.as_bytes()[..10]), false);
    assert!(chunks.is_empty() && keep);
    let (chunks, keep) = s.on_chunk(Some(&first.as_bytes()[10..]), false);
    assert_eq!(texts(chunks), vec!["Hel"]);
    assert!(keep);
    let (chunks, _) = s.on_chunk(Some(format!("{}data: [DONE]\n", event("lo")).as_bytes()), false);
    assert_eq!(texts(chunks), vec!["lo"]);
    let (out, tool) = s.end_stream();
    assert!(tool.is_none());
    assert_eq!(sent(out), vec![(String::new(), true)]);
    assert!(matches!(s.phase, Phase::Done));
}

#[test]
fn a_tool_command_stops_reading_and_runs_the_tool() {
    let mut s = ChatSession::new(Vec::new(), b"/p".to_vec());
    assert!(matches!(s.start_round(), RoundStart::Request));
    let (chunks, keep) = s.on_chunk(Some(event("@@CODE: search tax@@").as_bytes()), false);
    assert_eq!(texts(chunks), vec!["@@CODE: search tax@@"]);
    assert!(!keep);
    assert!(s.command_fits());
    let (out, tool) = s.end_stream();
    assert_eq!(sent(out), vec![("\n> \u{26a1} **Agent Triggered:** `search` on `tax`\n\n".to_string(), false)]);
    match tool {
        Some(ToolPlan::Search { query, root }) => {
            assert_eq!(query, b"tax".to_vec());
            assert_eq!(root, b"/p".to_vec());
        },
        _ => panic!("expected a search"),
    }
    let m = s.tool_finished(ToolOutcome { result: b"r".to_vec(), ui: b"u".to_vec() });
    assert_eq!((m.chunk, m.done), (b"u".to_vec(), false));
    assert!(matches!(s.phase, Phase::Ready));
    assert_eq!(s.agent.messages.len(), 2);
    assert_eq!(s.agent.messages[0].role, b"assistant".to_vec());
    assert!(matches!(&s.agent.messages[0].content, MessageContent::Text(t) if t == &b"@@CODE: search tax@@".to_vec()));
    assert_eq!(s.agent.messages[1].role, b"system".to_vec());
    assert!(matches!(&s.agent.messages[1].content, MessageContent::Text(t) if t == &b"Tool Result:\nr".to_vec()));
}

#[test]
fn cancellation_stops_reading_and_the_reply_still_ends() {
    let mut s = ChatSession::new(Vec::new(), Vec::new());
    assert!(matches!(s.start_round(), RoundStart::Request));
    let (chunks, keep) = s.on_chunk(Some(&b"data: {\"choices\":[{\"delta\":{\"reasoning\":\"hm\"}}]}\n"[..]), false);
    assert_eq!(texts(chunks), vec!["<think>\nhm"]);
    assert!(keep);
    let (chunks, keep) = s.on_chunk(Some(event("ignored").as_bytes()), true);
    assert!(chunks.is_empty() && !keep);
    let (out, _) = s.end_stream();
    assert_eq!(sent(out), vec![("</think>".to_string(), false), (String::new(), true)]);
}

#[test]
fn requests_run_out_and_connection_errors_end_the_reply() {
    let mut s = ChatSession::new(Vec::new(), Vec::new());
    for _ in 0..MAX_ITERATIONS {
        assert!(matches!(s.start_round(), RoundStart::Request));
        s.on_chunk(Some(event("@@CODE: read a@@").as_bytes()), false);
        let (_, tool) = s.end_stream();
        assert!(tool.is_some());
        s.tool_finished(ToolOutcome { result: Vec::new(), ui: Vec::new() });
    }
    match s.start_round() {
        RoundStart::Exhausted(m) => {
            assert_eq!(m.chunk, exhausted_message());
            assert!(m.done);
        },
        RoundStart::Request => panic!("a sixteenth request"),
    }
    let mut t = ChatSession::new(Vec::new(), Vec::new());
    t.start_round();
    let m = t.connect_failed(b"refused");
    assert_eq!(m.chunk, connect_error_message(b"refused"));
    assert!(m.done);
    assert!(matches!(t.phase, Phase::Done));
}
