use forge_chat::tree::{directory_tree, key_less_than, render_dir_into, sorted_order, tree_fits_at, tree_outcome, DirListing, TreeEntry};

fn file(name: &str) -> TreeEntry {
    TreeEntry {
        sort_key: name.as_bytes().to_vec(),
        name: name.as_bytes().to_vec(),
        is_dir: false,
        children: DirListing { readable: true, entries: Vec::new() },
    }
}

fn dir(name: &str, entries: Vec<TreeEntry>) -> TreeEntry {
    TreeEntry {
        sort_key: name.as_bytes().to_vec(),
        name: name.as_bytes().to_vec(),
        is_dir: true,
        children: DirListing { readable: true, entries },
    }
}

#[test]
fn key_order_is_bytewise() {
    assert!(key_less_than(b"B", b"a"));
    assert!(key_less_than(b"ab", b"abc"));
    assert!(!key_less_than(b"abc", b"abc"));
    assert!(!key_less_than(b"b", b"abc"));
}

#[test]
fn sorting_is_stable_by_key() {
    let es = vec![file("b"), file("a"), file("c"), file("a")];
    assert_eq!(sorted_order(&es), vec![1, 3, 0, 2]);
}

#[test]
fn tree_is_drawn_sorted_and_filtered() {
    let root = DirListing {
        readable: true,
        entries: vec![
            file("README.md"),
            dir("target", vec![file("debug")]),
            dir("src", vec![file("main.rs"), file("lib.rs")]),
            file("Cargo.toml"),
        ],
    };
    let t = String::from_utf8(directory_tree(&root)).unwrap();
    let expected = "\u{251c}\u{2500}\u{2500} Cargo.toml\n\
                    \u{251c}\u{2500}\u{2500} README.md\n\
                    \u{2514}\u{2500}\u{2500} src\n    \u{251c}\u{2500}\u{2500} lib.rs\n    \u{2514}\u{2500}\u{2500} main.rs\n";
    assert_eq!(t, expected);
}

#[test]
fn unreadable_and_deep_directories() {
    let bad = DirListing { readable: false, entries: Vec::new() };
    assert_eq!(directory_tree(&bad), "[Error reading directory]\n".as_bytes().to_vec());
    let inner_bad = DirListing {
        readable: true,
        entries: vec![TreeEntry {
            sort_key: b"x".to_vec(),
            name: b"x".to_vec(),
            is_dir: true,
            children: DirListing { readable: false, entries: Vec::new() },
        }],
    };
    assert_eq!(
        String::from_utf8(directory_tree(&inner_bad)).unwrap(),
        "\u{2514}\u{2500}\u{2500} x\n    [Error reading directory]\n"
    );
    // five nested directories: the fifth level is listed, its contents are not
    let mut d = dir("e", vec![file("deepest")]);
    for n in ["d", "c", "b", "a"] {
        d = dir(n, vec![d]);
    }
    let t = String::from_utf8(directory_tree(&DirListing { readable: true, entries: vec![d] })).unwrap();
    assert_eq!(t.lines().count(), 5);
    assert!(!t.contains("deepest"));
}

#[test]
fn tree_outcome_texts() {
    let o = tree_outcome(b"/p/src", b"x\n");
    assert_eq!(o.result, b"Directory tree for /p/src:\nx\n".to_vec());
    assert_eq!(o.ui, b"```plaintext\nx\n\n```\n".to_vec());
}

#[test]
fn any_depth_limit_renders() {
    let root = DirListing { readable: true, entries: vec![dir("a", vec![dir("b", vec![file("c")])])] };
    let mut out = b"> ".to_vec();
    render_dir_into(&root, b"", usize::MAX, 0, &mut out);
    assert_eq!(
        String::from_utf8(out).unwrap(),
        "> \u{2514}\u{2500}\u{2500} a\n    \u{2514}\u{2500}\u{2500} b\n        \u{2514}\u{2500}\u{2500} c\n"
    );
    let mut past = Vec::new();
    render_dir_into(&root, b"p", 0, 2, &mut past);
    assert!(past.is_empty());
    let empty = DirListing { readable: true, entries: vec![dir("target", vec![file("x")])] };
    let mut none = Vec::new();
    render_dir_into(&empty, b"", 3, 1, &mut none);
    assert!(none.is_empty());
}

#[test]
fn depth_must_fit_in_usize() {
    let with_dir = DirListing { readable: true, entries: vec![dir("a", Vec::new())] };
    let files_only = DirListing { readable: true, entries: vec![file("a")] };
    assert!(tree_fits_at(&with_dir, 4, 0));
    assert!(tree_fits_at(&with_dir, usize::MAX, 0));
    assert!(!tree_fits_at(&with_dir, usize::MAX, usize::MAX));
    assert!(tree_fits_at(&files_only, usize::MAX, usize::MAX));
    let mut out = Vec::new();
    render_dir_into(&files_only, b"", usize::MAX, usize::MAX, &mut out);
    assert_eq!(String::from_utf8(out).unwrap(), "\u{2514}\u{2500}\u{2500} a\n");
}

#[test]
fn deeper_tree_only_adds_lines() {
    let root = DirListing {
        readable: true,
        entries: vec![dir("a", vec![dir("b", vec![file("c"), file("d")]), file("e")]), file("f")],
    };
    let draw = |max: usize| {
        let mut out = Vec::new();
        render_dir_into(&root, b"", max, 0, &mut out);
        String::from_utf8(out).unwrap()
    };
    let one = draw(1);
    let two = draw(2);
    assert_eq!(
        one,
        "\u{251c}\u{2500}\u{2500} a\n\u{2502}   \u{251c}\u{2500}\u{2500} b\n\u{2502}   \u{2514}\u{2500}\u{2500} e\n\u{2514}\u{2500}\u{2500} f\n"
    );
    let kept: Vec<&str> = two
        .lines()
        .filter(|l| !(l.starts_with("\u{2502}   \u{2502}   ") || l.starts_with("\u{2502}       ")))
        .collect();
    assert_eq!(kept, one.lines().collect::<Vec<_>>());
    assert_eq!(two.lines().count(), one.lines().count() + 2);
}
