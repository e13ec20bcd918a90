use forge_chat::tools::{
    locate_add,
    announce, build_run_report, display_arg_fits, locate_outcome, memory_failed, memory_syntax_error,
    memory_unknown, memory_written, parse_memory, parse_read, plan_tool, read_failed, read_fits, read_outcome,
    resolve_path, run_cuts_fit, run_failed, run_outcome, run_report_of_text, run_timed_out, search_file,
    search_outcome, search_skips, locate_skips, tree_skips, tool_kind, unknown_outcome, MemoryAction, ToolKind, ToolPlan,
};

fn b(s: &str) -> Vec<u8> {
    s.as_bytes().to_vec()
}

fn s(v: &[u8]) -> String {
    String::from_utf8(v.to_vec()).unwrap()
}

#[test]
fn tool_kinds() {
    assert_eq!(tool_kind(b"memory"), ToolKind::Memory);
    assert_eq!(tool_kind(b"search"), ToolKind::Search);
    assert_eq!(tool_kind(b"locate"), ToolKind::Locate);
    assert_eq!(tool_kind(b"tree"), ToolKind::Tree);
    assert_eq!(tool_kind(b"run"), ToolKind::Run);
    assert_eq!(tool_kind(b"read"), ToolKind::Read);
    assert_eq!(tool_kind(b"Read"), ToolKind::Unknown);
}

#[test]
fn announcement_cuts_memory_arguments() {
    let arg = b("write notes.md | a long piece of knowledge");
    assert!(display_arg_fits(b"memory", &arg));
    assert_eq!(
        s(&announce(b"memory", &arg)),
        "\n> \u{26a1} **Agent Triggered:** `memory` on `write notes.md | a long piece ...`\n\n"
    );
    assert_eq!(s(&announce(b"read", &arg)), format!("\n> \u{26a1} **Agent Triggered:** `read` on `{}`\n\n", s(&arg)));
    let accented = format!("{}\u{e9}", "x".repeat(29));
    assert!(!display_arg_fits(b"memory", accented.as_bytes()));
}

#[test]
fn memory_commands() {
    match parse_memory(b"write  notes.md |  Some *markdown*  ", b"/proj/") {
        MemoryAction::Write { filename, content, path } => {
            assert_eq!(filename, b("notes.md"));
            assert_eq!(content, b("Some *markdown*"));
            assert_eq!(path, b("/proj/.forge/knowledge/notes.md"));
        },
        _ => panic!("write expected"),
    }
    assert!(matches!(parse_memory(b"write notes.md", b"/p"), MemoryAction::SyntaxError));
    assert!(matches!(parse_memory(b"delete notes.md", b"/p"), MemoryAction::UnknownCommand));
    let ok = memory_written(b"n.md");
    assert_eq!(s(&ok.result), "Successfully wrote knowledge to n.md");
    assert_eq!(s(&ok.ui), "> \u{1f4be} **Saved to Knowledge Base:** `n.md`\n");
    let bad = memory_failed(b"n.md", b"denied");
    assert_eq!(s(&bad.result), "Failed to write knowledge file n.md: denied");
    assert_eq!(s(&bad.ui), "> \u{274c} **Failed to Save:** `denied`\n");
    assert_eq!(
        s(&memory_syntax_error().result),
        "Error: Invalid syntax for @@MEMORY. Expected `@@MEMORY: write <file> | <content> @@`"
    );
    assert_eq!(s(&memory_unknown().ui), "> \u{274c} **Unknown Memory Command**\n");
}

#[test]
fn skip_lists() {
    assert!(search_skips(b"dist") && search_skips(b".forge") && !search_skips(b"src"));
    assert!(locate_skips(b".git") && !locate_skips(b"dist") && !locate_skips(b"build"));
    assert!(tree_skips(b"build") && tree_skips(b"node_modules") && !tree_skips(b"docs"));
}

#[test]
fn search_lines_of_a_file() {
    let mut results = Vec::new();
    let stop = search_file(b"src/a.rs", b"fn tax() {}\r\n  // tax rate  \nother\n", b"tax", &mut results);
    assert!(!stop);
    assert_eq!(results, vec![b("src/a.rs:1: fn tax() {}"), b("src/a.rs:2: // tax rate")]);
    let out = search_outcome(b"tax", &results);
    assert_eq!(s(&out.result), "Search results for 'tax':\nsrc/a.rs:1: fn tax() {}\nsrc/a.rs:2: // tax rate");
    assert_eq!(s(&out.ui), "> \u{1f50d} **Searched codebase for:** `tax` (2 results)\n\n");
    let none = search_outcome(b"zzz", &Vec::new());
    assert_eq!(s(&none.result), "No results found for 'zzz'");
}

#[test]
fn search_stops_at_fifty() {
    let content = "hit\n".repeat(70);
    let mut results = vec![b("earlier")];
    let stop = search_file(b"f", content.as_bytes(), b"hit", &mut results);
    assert!(stop);
    assert_eq!(results.len(), 50);
    assert_eq!(results[49], b("f:49: hit"));
}

#[test]
fn locate_results() {
    let out = locate_outcome(b"main", &vec![b("/p/src/main.rs")]);
    assert_eq!(s(&out.result), "Files found:\n/p/src/main.rs");
    assert_eq!(s(&out.ui), "> \u{1f9ed} **Located file:** `main` (1 results)\n\n");
    assert_eq!(s(&locate_outcome(b"x", &Vec::new()).result), "No files found matching 'x'");
}

#[test]
fn paths_under_the_root() {
    assert_eq!(resolve_path(b"src", b"/proj/"), b("/proj/src"));
    assert_eq!(resolve_path(b"/etc", b"/proj"), b("/etc"));
    assert_eq!(resolve_path(b"src", b""), b("/src"));
}

#[test]
fn run_reports() {
    let report = build_run_report(b"exit status: 0", b"  built\n", b"");
    assert_eq!(s(&report), "Exit Status: exit status: 0\nSTDOUT:\nbuilt\n");
    let quiet = run_report_of_text(b"exit status: 1", b" ", b"\n");
    assert_eq!(s(&quiet), "Exit Status: exit status: 1\n(No output)\n");
    let both = build_run_report(b"s", b"o", b"e\xff");
    assert_eq!(s(&both), "Exit Status: s\nSTDOUT:\no\nSTDERR:\ne\u{fffd}\n");
    assert!(run_cuts_fit(&report));
    let out = run_outcome(b"cargo check", &report);
    assert_eq!(s(&out.result), s(&report));
    assert_eq!(s(&out.ui), format!("```bash\n$ cargo check\n{}\n```\n", s(&report)));
}

#[test]
fn run_output_is_truncated() {
    let big = "y".repeat(25000);
    let out = run_outcome(b"c", big.as_bytes());
    let marker = "\n... [OUTPUT TRUNCATED DUE TO LENGTH LIMIT]";
    assert_eq!(out.result.len(), 20000);
    assert!(s(&out.result).ends_with(marker));
    assert_eq!(s(&out.ui), format!("```bash\n$ c\n{}... \n\n[OUTPUT TRUNCATED IN UI - AGENT SEES MORE]\n```\n", "y".repeat(1000)));
    let f = run_failed(b"c", b"not found");
    assert_eq!(s(&f.result), "Failed to execute command 'c': not found");
    assert_eq!(s(&f.ui), "```bash\n$ c\nError: not found\n```\n");
    let t = run_timed_out(b"sleep 99");
    assert_eq!(s(&t.result), "Command 'sleep 99' timed out after 15 seconds.");
    assert_eq!(s(&t.ui), "```bash\n$ sleep 99\n[TIMED OUT AFTER 15 SECONDS]\n```\n");
}

#[test]
fn read_arguments() {
    let r = parse_read(b" src/main.rs | 2-3 ", b"/proj/");
    assert_eq!(r.path, b("src/main.rs"));
    assert_eq!(r.full_path, b("/proj/src/main.rs"));
    assert_eq!(r.range, Some((2, 3)));
    let open = parse_read(b"a.rs | x-", b"/p");
    assert_eq!(open.range, Some((1, usize::MAX)));
    let no_dash = parse_read(b"a.rs | 7", b"/p");
    assert_eq!(no_dash.path, b("a.rs"));
    assert_eq!(no_dash.range, None);
    let plain = parse_read(b"/abs/a.rs", b"/p");
    assert_eq!(plain.full_path, b("/abs/a.rs"));
    assert_eq!(plain.range, None);
}

#[test]
fn read_outcomes() {
    let r = parse_read(b"f.txt | 2-3", b"/p");
    let content = b"one\ntwo\nthree\nfour\n";
    assert!(read_fits(&r, content));
    let out = read_outcome(&r, content);
    assert_eq!(s(&out.result), "File content (f.txt, lines 2-3):\ntwo\nthree");
    assert_eq!(s(&out.ui), "> \u{1f4d6} **Read File:** `f.txt` (lines 2-3)\n\n");
    let beyond = parse_read(b"f.txt | 3-99", b"/p");
    assert_eq!(s(&read_outcome(&beyond, content).result), "File content (f.txt, lines 3-99):\nthree\nfour");
    let reversed = parse_read(b"f.txt | 4-2", b"/p");
    assert!(!read_fits(&reversed, content));
    let whole = parse_read(b"f.txt", b"/p");
    let w = read_outcome(&whole, b"abc");
    assert_eq!(s(&w.result), "File content (f.txt):\nabc");
    assert_eq!(s(&w.ui), "> \u{1f4d6} **Read File:** `f.txt` *(Loaded into context)*\n\n");
    let big = "q".repeat(40010);
    let wb = read_outcome(&whole, big.as_bytes());
    assert_eq!(s(&wb.result), format!("File content (f.txt):\n{}... [TRUNCATED]", "q".repeat(40000)));
    let e = read_failed(&whole, b"No such file");
    assert_eq!(s(&e.result), "Failed to read file f.txt: No such file");
    assert_eq!(s(&e.ui), "> \u{274c} **Failed to Read:** `f.txt` (No such file)\n");
}

#[test]
fn tool_plans() {
    assert!(matches!(plan_tool(b"search", b"foo", b"/p"), ToolPlan::Search { query, root } if query == b("foo") && root == b("/p")));
    assert!(matches!(plan_tool(b"tree", b"src", b"/p/"), ToolPlan::Tree { path } if path == b("/p/src")));
    assert!(matches!(plan_tool(b"run", b"ls", b""), ToolPlan::Run { command, dir: None } if command == b("ls")));
    assert!(matches!(plan_tool(b"run", b"ls", b"/p"), ToolPlan::Run { dir: Some(d), .. } if d == b("/p")));
    match plan_tool(b"fly", b"x", b"/p") {
        ToolPlan::Unknown(o) => {
            assert_eq!(s(&o.result), "Unknown command: fly");
            assert_eq!(s(&o.ui), "> \u{2753} **Unknown command:** `fly`\n");
        },
        _ => panic!("unknown expected"),
    }
    let u = unknown_outcome(b"x");
    assert_eq!(s(&u.result), "Unknown command: x");
}

#[test]
fn memory_write_stores_what_was_written() {
    match parse_memory(b"write arch.md | # Architecture\n- api", b"/w") {
        MemoryAction::Write { filename, content, path } => {
            assert_eq!(filename, b("arch.md"));
            assert_eq!(content, b("# Architecture\n- api"));
            assert_eq!(path, b("/w/.forge/knowledge/arch.md"));
        },
        _ => panic!("write expected"),
    }
}

#[test]
fn search_adds_nothing_past_fifty() {
    let mut results: Vec<Vec<u8>> = (0..50).map(|i| format!("old {}", i).into_bytes()).collect();
    let stop = search_file(b"g", b"hit\nhit\n", b"hit", &mut results);
    assert!(stop);
    assert_eq!(results.len(), 50);
    assert_eq!(results[49], b("old 49"));
    let mut full: Vec<Vec<u8>> = (0..49).map(|i| format!("old {}", i).into_bytes()).collect();
    assert!(search_file(b"g", b"x\nhit\n", b"hit", &mut full));
    assert_eq!(full.len(), 50);
    assert_eq!(full[49], b("g:2: hit"));
    let mut few = Vec::new();
    assert!(!search_file(b"g", b"", b"hit", &mut few));
}

#[test]
fn codebase_search_keeps_fifty_over_many_files() {
    let content = "hit\n".repeat(30);
    let mut results = Vec::new();
    let mut stops = Vec::new();
    for f in ["a", "b", "c"] {
        stops.push(search_file(f.as_bytes(), content.as_bytes(), b"hit", &mut results));
    }
    assert_eq!(stops, vec![false, true, true]);
    assert_eq!(results.len(), 50);
    assert_eq!(results[49], b("b:20: hit"));
}

#[test]
fn narrower_query_finds_every_hit_of_a_wider_one() {
    let content = b"let tax_rate = 1;\nfn tax() {}\nrate\n";
    let mut narrow = Vec::new();
    let mut wide = Vec::new();
    search_file(b"f", content, b"tax", &mut narrow);
    search_file(b"f", content, b"tax_rate", &mut wide);
    assert_eq!(wide, vec![b("f:1: let tax_rate = 1;")]);
    assert!(wide.iter().all(|h| narrow.contains(h)));
    assert_eq!(narrow.len(), 2);
}

#[test]
fn file_search_keeps_twenty() {
    let mut results: Vec<Vec<u8>> = (0..19).map(|i| format!("/p/{}", i).into_bytes()).collect();
    locate_add(&mut results, b"notes.md", b("/p/other.md"), b"main");
    assert_eq!(results.len(), 19);
    locate_add(&mut results, b"main.rs", b("/p/main.rs"), b"main");
    assert_eq!(results.len(), 20);
    assert_eq!(results[19], b("/p/main.rs"));
    locate_add(&mut results, b"main.py", b("/p/main.py"), b"main");
    assert_eq!(results.len(), 20);
}
