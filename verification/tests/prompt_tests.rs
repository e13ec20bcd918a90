use forge_chat::conversation::{build_conversation, conversation_fits, ConversationInput};
use forge_chat::history::{HistoryEntry, HistoryPart};
use forge_chat::message::{ChatMessage, ContentPart, MessageContent};
use forge_chat::prompt::{
    add_attachments, build_active_file_block, build_knowledge_blocks, build_knowledge_path, build_system_text,
    ActiveFile, Attachment, KnowledgeDoc, Profile, DEFAULT_SYSTEM_PROMPT,
};

fn b(s: &str) -> Vec<u8> {
    s.as_bytes().to_vec()
}

fn profile(id: Option<&str>, sp: Option<&str>) -> Option<Profile> {
    Some(Profile { id: id.map(b), system_prompt: sp.map(b) })
}

#[test]
fn system_text_by_mode() {
    assert_eq!(build_system_text(&None), b(DEFAULT_SYSTEM_PROMPT));
    assert_eq!(build_system_text(&profile(Some("ask"), None)), Vec::<u8>::new());
    assert_eq!(build_system_text(&profile(Some("ask"), Some("Be brief."))), b("Be brief."));
    assert_eq!(
        build_system_text(&profile(None, Some("Be brief."))),
        b(&format!("{}\n\n--- CUSTOM PROFILE INSTRUCTIONS ---\nBe brief.", DEFAULT_SYSTEM_PROMPT))
    );
}

#[test]
fn active_file_block_within_budget() {
    let active = Some(ActiveFile { path: Some(b("src/a.rs")), content: Some(b("fn main() {}")) });
    let block = build_active_file_block(&None, &active, 4096);
    assert_eq!(block, b("\n\n=== ACTIVE FILE (src/a.rs) ===\nfn main() {}\n================\n"));
    // "ask" mode leaves the active file out
    assert!(build_active_file_block(&profile(Some("ask"), None), &active, 4096).is_empty());
    // missing content leaves it out too
    let no_content = Some(ActiveFile { path: Some(b("x")), content: None });
    assert!(build_active_file_block(&None, &no_content, 4096).is_empty());
}

#[test]
fn active_file_block_truncated() {
    // the header takes 7 tokens and the footer 5, which leaves 8 tokens (32 bytes)
    let active = Some(ActiveFile { path: Some(b("f")), content: Some(b(&"z".repeat(100))) });
    let block = build_active_file_block(&None, &active, 20);
    let expected = format!(
        "\n\n=== ACTIVE FILE (f) ===\n{}... [TRUNCATED DUE TO CONTEXT LIMIT]\n================\n",
        "z".repeat(32)
    );
    assert_eq!(block, b(&expected));
}

#[test]
fn knowledge_blocks_and_path() {
    let docs = vec![
        KnowledgeDoc { name: b("a.md"), content: b("alpha") },
        KnowledgeDoc { name: b("b.md"), content: b("beta") },
    ];
    let blocks = build_knowledge_blocks(&docs, 4096);
    assert_eq!(
        blocks,
        b("\n\n<knowledge_base topic=\"a.md\">\nalpha\n</knowledge_base>\n\n\n<knowledge_base topic=\"b.md\">\nbeta\n</knowledge_base>\n")
    );
    assert_eq!(build_knowledge_path(b"/proj//", b"a.md"), b("/proj/.forge/knowledge/a.md"));
}

#[test]
fn attachments_become_parts() {
    let mut parts = vec![ContentPart::Text(b("hi"))];
    let mut est = b("hi");
    let atts = vec![
        Attachment { name: Some(b("notes.txt")), content: Some(b("n")), mime_type: Some(b("text/plain")) },
        Attachment { name: Some(b("p.png")), content: Some(b("data:image/png;base64,AA")), mime_type: Some(b("image/png")) },
        Attachment { name: None, content: Some(b("x")), mime_type: Some(b("text/plain")) },
    ];
    add_attachments(&mut parts, &mut est, &atts);
    assert_eq!(parts.len(), 3);
    match &parts[1] {
        ContentPart::Text(t) => assert_eq!(t, &b("\n\n=== ATTACHMENT: notes.txt ===\nn\n================\n")),
        _ => panic!("text attachment expected"),
    }
    match &parts[2] {
        ContentPart::ImageUrl(u) => assert_eq!(u, &b("data:image/png;base64,AA")),
        _ => panic!("image expected"),
    }
    let text_part = "\n\n=== ATTACHMENT: notes.txt ===\nn\n================\n";
    assert_eq!(est.len(), 2 + text_part.len() + 1000);
}

fn role_and_text(m: &ChatMessage) -> (Vec<u8>, Option<Vec<u8>>) {
    match &m.content {
        MessageContent::Text(t) => (m.role.clone(), Some(t.clone())),
        MessageContent::Parts(_) => (m.role.clone(), None),
    }
}

fn input() -> ConversationInput {
    ConversationInput {
        profile: profile(Some("ask"), Some("Be brief.")),
        prompt: b("What is 2+2?"),
        attachments: Vec::new(),
        active_file: None,
        knowledge: Vec::new(),
        history: vec![HistoryEntry {
            role: Some(b("assistant")),
            parts: vec![HistoryPart { kind: Some(b("text")), text: Some(b("Hello")) }],
        }],
        context_window: 8192,
        output_reserve: 4096,
        file_budget: 4096,
        knowledge_budget: 4096,
    }
}

#[test]
fn conversation_has_system_history_and_user() {
    let inp = input();
    assert!(conversation_fits(&inp));
    let msgs: Vec<_> = build_conversation(&inp).iter().map(role_and_text).collect();
    assert_eq!(
        msgs,
        vec![
            (b("system"), Some(b("Be brief."))),
            (b("assistant"), Some(b("Hello"))),
            (b("user"), Some(b("What is 2+2?"))),
        ]
    );
}

#[test]
fn conversation_puts_context_before_prompt() {
    let mut inp = input();
    inp.profile = None;
    inp.knowledge = vec![KnowledgeDoc { name: b("k.md"), content: b("K") }];
    let msgs = build_conversation(&inp);
    let last = role_and_text(msgs.last().unwrap());
    assert_eq!(
        last,
        (b("user"), Some(b("\n\n<knowledge_base topic=\"k.md\">\nK\n</knowledge_base>\n\n\nWhat is 2+2?")))
    );
    // the default instructions take a system message
    assert_eq!(msgs[0].role, b("system"));
}

#[test]
fn conversation_with_image_is_multipart() {
    let mut inp = input();
    inp.attachments = vec![Attachment {
        name: Some(b("i.png")),
        content: Some(b("data:image/png;base64,AA")),
        mime_type: Some(b("image/png")),
    }];
    let msgs = build_conversation(&inp);
    match &msgs.last().unwrap().content {
        MessageContent::Parts(ps) => {
            assert_eq!(ps.len(), 2);
            assert!(matches!(&ps[0], ContentPart::Text(t) if t == &b("What is 2+2?")));
        },
        MessageContent::Text(_) => panic!("expected parts"),
    }
}

#[test]
fn small_window_leaves_no_history() {
    let mut inp = input();
    inp.context_window = 4600;
    let msgs = build_conversation(&inp);
    assert_eq!(msgs.len(), 2);
}

#[test]
fn system_message_does_not_depend_on_context() {
    let mut a = input();
    a.profile = None;
    let mut b_in = input();
    b_in.profile = None;
    b_in.prompt = b("Something else entirely");
    b_in.knowledge = vec![KnowledgeDoc { name: b("k.md"), content: b("K") }];
    b_in.active_file = Some(ActiveFile { path: Some(b("x.rs")), content: Some(b("fn x() {}")) });
    let ma = build_conversation(&a);
    let mb = build_conversation(&b_in);
    assert_eq!(role_and_text(&ma[0]), role_and_text(&mb[0]));
    assert_eq!(role_and_text(&ma[0]), (b("system"), Some(b(DEFAULT_SYSTEM_PROMPT))));
}
