use forge_chat::json::{get_field, parse_json, parse_str, JsonNode};
use forge_chat::request::{parse_string_list, parses_as_json};
use forge_chat::tools::search_file;
use forge_chat::walk::{locate_in, search_targets_of, EntryKind, WalkDir, WalkEntry};

fn file(id: usize, name: &str) -> WalkEntry {
    WalkEntry {
        id,
        name: name.as_bytes().to_vec(),
        path: format!("/p/{}", name).into_bytes(),
        kind: EntryKind::File,
        children: WalkDir { entries: Vec::new() },
    }
}

fn dir(id: usize, name: &str, entries: Vec<WalkEntry>) -> WalkEntry {
    WalkEntry {
        id,
        name: name.as_bytes().to_vec(),
        path: format!("/p/{}", name).into_bytes(),
        kind: EntryKind::Dir,
        children: WalkDir { entries },
    }
}

fn project() -> WalkDir {
    WalkDir {
        entries: vec![
            file(0, "main.rs"),
            dir(1, "dist", vec![file(2, "main.js")]),
            dir(3, "src", vec![file(4, "lib.rs"), dir(5, "node_modules", vec![file(6, "main.rs")])]),
            WalkEntry {
                id: 7,
                name: b"main.lock".to_vec(),
                path: b"/p/main.lock".to_vec(),
                kind: EntryKind::Unknown,
                children: WalkDir { entries: Vec::new() },
            },
        ],
    }
}

#[test]
fn search_reads_files_outside_skipped_directories_in_order() {
    let targets: Vec<usize> = search_targets_of(&project()).into_iter().map(|(id, _)| id).collect();
    assert_eq!(targets, vec![0, 4]);
}

#[test]
fn locate_looks_at_entries_directory_first_and_skips_fewer_names() {
    let mut results = Vec::new();
    locate_in(&project(), b"main", &mut results);
    let shown: Vec<String> = results.into_iter().map(|r| String::from_utf8(r).unwrap()).collect();
    assert_eq!(shown, vec!["/p/main.rs", "/p/main.js", "/p/main.lock"]);
    let mut src = Vec::new();
    locate_in(&project(), b"s", &mut src);
    assert_eq!(src, vec![b"/p/main.rs".to_vec(), b"/p/dist".to_vec(), b"/p/main.js".to_vec(), b"/p/src".to_vec(), b"/p/lib.rs".to_vec()]);
}

#[test]
fn locate_keeps_twenty_over_a_large_directory() {
    let entries: Vec<WalkEntry> = (0..25).map(|i| file(i, &format!("m{}", i))).collect();
    let mut results = Vec::new();
    locate_in(&WalkDir { entries }, b"m", &mut results);
    assert_eq!(results.len(), 20);
    assert_eq!(results[19], b"/p/m19".to_vec());
}

#[test]
fn search_over_many_files_keeps_fifty() {
    let content = "hit\n".repeat(40);
    let mut results = Vec::new();
    for f in ["a", "b"] {
        search_file(f.as_bytes(), content.as_bytes(), b"hit", &mut results);
    }
    assert_eq!(results.len(), 50);
    assert_eq!(results[40], b"b:1: hit".to_vec());
}

#[test]
fn json_values_one_level_at_a_time() {
    match parse_json(br#"{"b": [1, "x"], "a": null}"#) {
        Some(JsonNode::Object(fields)) => {
            assert_eq!(get_field(&fields, b"a"), Some(b"null".to_vec()));
            let b = get_field(&fields, b"b").unwrap();
            match parse_json(&b) {
                Some(JsonNode::Array(items)) => {
                    assert_eq!(items, vec![b"1".to_vec(), b"\"x\"".to_vec()]);
                    assert_eq!(parse_str(&items[1]), Some(b"x".to_vec()));
                    assert_eq!(parse_str(&items[0]), None);
                },
                _ => panic!("expected an array"),
            }
            assert_eq!(get_field(&fields, b"c"), None);
        },
        _ => panic!("expected an object"),
    }
    assert!(parse_json(b"{").is_none());
    assert!(matches!(parse_json(b" true "), Some(JsonNode::Bool(true))));
}

#[test]
fn string_lists_and_json_texts() {
    assert_eq!(parse_string_list(br#"["a", "b\n"]"#), Some(vec![b"a".to_vec(), b"b\n".to_vec()]));
    assert_eq!(parse_string_list(b"[]"), Some(Vec::new()));
    assert_eq!(parse_string_list(br#"["a", 1]"#), None);
    assert_eq!(parse_string_list(br#""a""#), None);
    assert!(parses_as_json(b"0.5"));
    assert!(!parses_as_json(b"abc"));
}
