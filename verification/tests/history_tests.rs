use forge_chat::history::{entry_text_of, history_cuts_ok, select_history, HistoryEntry, HistoryPart};
use forge_chat::message::{ChatMessage, MessageContent};

fn text_entry(role: Option<&str>, text: &str) -> HistoryEntry {
    HistoryEntry {
        role: role.map(|r| r.as_bytes().to_vec()),
        parts: vec![HistoryPart { kind: Some(b"text".to_vec()), text: Some(text.as_bytes().to_vec()) }],
    }
}

fn as_pair(m: &ChatMessage) -> (String, String) {
    let content = match &m.content {
        MessageContent::Text(t) => String::from_utf8(t.clone()).unwrap(),
        MessageContent::Parts(_) => panic!("history messages are plain text"),
    };
    (String::from_utf8(m.role.clone()).unwrap(), content)
}

#[test]
fn entry_text_joins_text_parts_only() {
    let e = HistoryEntry {
        role: None,
        parts: vec![
            HistoryPart { kind: Some(b"text".to_vec()), text: Some(b"ab".to_vec()) },
            HistoryPart { kind: Some(b"image".to_vec()), text: Some(b"zz".to_vec()) },
            HistoryPart { kind: None, text: Some(b"yy".to_vec()) },
            HistoryPart { kind: Some(b"text".to_vec()), text: None },
            HistoryPart { kind: Some(b"text".to_vec()), text: Some(b"cd".to_vec()) },
        ],
    };
    assert_eq!(entry_text_of(&e), b"abcd".to_vec());
}

#[test]
fn history_keeps_most_recent_within_budget() {
    let long = "A".repeat(400);
    let forty = "x".repeat(40);
    let entries = vec![
        text_entry(Some("user"), &long),
        text_entry(Some("assistant"), "hello"),
        text_entry(Some("user"), ""),
        text_entry(None, &forty),
    ];
    assert!(history_cuts_ok(&entries, 100));
    let kept: Vec<(String, String)> = select_history(&entries, 100).iter().map(as_pair).collect();
    assert_eq!(kept, vec![("assistant".to_string(), "hello".to_string()), ("user".to_string(), forty)]);
}

#[test]
fn history_truncates_the_message_that_does_not_fit() {
    let long = "B".repeat(2000);
    let entries = vec![text_entry(Some("user"), "older"), text_entry(Some("assistant"), &long)];
    let kept: Vec<(String, String)> = select_history(&entries, 300).iter().map(as_pair).collect();
    assert_eq!(kept.len(), 1);
    assert_eq!(kept[0].0, "assistant");
    assert_eq!(kept[0].1, format!("...[TRUNCATED HISTORY] {}", "B".repeat(1200)));
}

#[test]
fn history_stops_when_little_budget_is_left() {
    let entries = vec![text_entry(Some("user"), &"C".repeat(1000))];
    assert!(select_history(&entries, 200).is_empty());
    assert!(select_history(&Vec::new(), 5000).is_empty());
}

#[test]
fn history_cut_inside_a_character_is_detected() {
    let text = format!("{}b", "\u{20ac}".repeat(700));
    let entries = vec![text_entry(Some("user"), &text)];
    assert!(!history_cuts_ok(&entries, 300));
    let shifted = format!("{}bbb", "\u{20ac}".repeat(700));
    let entries2 = vec![text_entry(Some("user"), &shifted)];
    assert!(history_cuts_ok(&entries2, 300));
    let kept = select_history(&entries2, 300);
    assert_eq!(kept.len(), 1);
}
