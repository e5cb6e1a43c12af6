use acropad_native::greet;
use acropad_native::order::str_le;
use acropad_native::text::contains_str;
use acropad_native::vault::{
    is_note_name, note_candidates, path_is_valid, scan_select, search_select, Doc, Entry,
};

fn entry(rel: &str, name: &str, is_file: bool) -> Entry {
    Entry { rel: rel.to_string(), name: name.to_string(), is_file }
}

fn doc(rel: &str, content: Option<&str>) -> Doc {
    Doc { rel: rel.to_string(), content: content.map(|c| c.to_string()) }
}

#[test]
fn test_greet() {
    assert!(greet().contains("Hello from Rust"));
}

#[test]
fn empty_listing_gives_empty_results() {
    let entries: Vec<Entry> = Vec::new();
    assert!(scan_select(&entries).is_empty());
    let docs: Vec<Doc> = Vec::new();
    assert!(search_select(&docs, "anything").is_empty());
    assert!(search_select(&docs, "").is_empty());
}

#[test]
fn scenario_scan_and_search() {
    let entries = vec![
        entry("notes", "notes", false),
        entry("notes/b.txt", "b.txt", true),
        entry("notes/a.md", "a.md", true),
        entry("notes/c.png", "c.png", true),
    ];
    let scanned = scan_select(&entries);
    assert_eq!(scanned, vec!["notes/a.md".to_string(), "notes/b.txt".to_string()]);

    let docs = vec![doc("notes/b.txt", Some("banana")), doc("notes/a.md", Some("apple pie"))];
    assert_eq!(search_select(&docs, "pie"), vec!["notes/a.md".to_string()]);
    assert!(search_select(&docs, "xyz").is_empty());
}

#[test]
fn scan_counts_note_files_only() {
    let entries = vec![
        entry("a.md", "a.md", true),
        entry("b.MD", "b.MD", true),
        entry("c.Txt", "c.Txt", true),
        entry("d.TXT", "d.TXT", true),
        entry("e.png", "e.png", true),
        entry("f.markdown", "f.markdown", true),
        entry("g.txt2", "g.txt2", true),
        entry("README", "README", true),
        entry(".md", ".md", true),
        entry("dir.md", "dir.md", false),
    ];
    let scanned = scan_select(&entries);
    assert_eq!(scanned.len(), 4);
    for excluded in ["e.png", "f.markdown", "g.txt2", "README", ".md", "dir.md"] {
        assert!(!scanned.iter().any(|p| p == excluded));
    }
}

#[test]
fn scan_output_is_sorted() {
    let entries = vec![
        entry("zeta.md", "zeta.md", true),
        entry("alpha.txt", "alpha.txt", true),
        entry("notes/late.md", "late.md", true),
        entry("beta.md", "beta.md", true),
        entry("alpha.md", "alpha.md", true),
    ];
    let scanned = scan_select(&entries);
    assert_eq!(scanned.len(), 5);
    for w in scanned.windows(2) {
        assert!(w[0] <= w[1]);
    }
    assert_eq!(scanned[0], "alpha.md");
    assert_eq!(scanned[4], "zeta.md");
}

#[test]
fn search_is_case_insensitive() {
    let docs = vec![doc("h.md", Some("say hello world loudly"))];
    assert_eq!(search_select(&docs, "HELLO"), vec!["h.md".to_string()]);
    let upper = vec![doc("u.md", Some("SAY WÖRLD"))];
    assert_eq!(search_select(&upper, "wörld"), vec!["u.md".to_string()]);
}

#[test]
fn empty_query_returns_every_readable_file() {
    let docs = vec![
        doc("b.txt", Some("banana")),
        doc("broken.md", None),
        doc("a.md", Some("apple")),
        doc("empty.md", Some("")),
    ];
    let found = search_select(&docs, "");
    assert_eq!(
        found,
        vec!["b.txt".to_string(), "a.md".to_string(), "empty.md".to_string()]
    );
}

#[test]
fn empty_query_agrees_with_scan() {
    let entries = vec![
        entry("b.md", "b.md", true),
        entry("a.txt", "a.txt", true),
        entry("x.png", "x.png", true),
    ];
    let scanned = scan_select(&entries);
    let docs: Vec<Doc> = note_candidates(&entries)
        .into_iter()
        .map(|rel| Doc { rel, content: Some(String::new()) })
        .collect();
    let mut found = search_select(&docs, "");
    found.sort();
    assert_eq!(found, scanned);
}

#[test]
fn search_keeps_walk_order() {
    let docs = vec![
        doc("z.md", Some("needle one")),
        doc("a.md", Some("no match here")),
        doc("m.md", Some("a needle too")),
    ];
    assert_eq!(
        search_select(&docs, "needle"),
        vec!["z.md".to_string(), "m.md".to_string()]
    );
}

#[test]
fn note_name_extension_rules() {
    assert!(is_note_name("a.md"));
    assert!(is_note_name("A.MD"));
    assert!(is_note_name("b.Txt"));
    assert!(is_note_name("archive.tar.md"));
    assert!(!is_note_name("c.png"));
    assert!(!is_note_name("README"));
    assert!(!is_note_name(".md"));
    assert!(!is_note_name("note.md.bak"));
    assert!(!is_note_name("ends.with.dot."));
}

#[test]
fn candidates_keep_listing_order() {
    let entries = vec![
        entry("z.md", "z.md", true),
        entry("sub", "sub", false),
        entry("sub/a.txt", "a.txt", true),
        entry("sub/skip.rs", "skip.rs", true),
    ];
    assert_eq!(
        note_candidates(&entries),
        vec!["z.md".to_string(), "sub/a.txt".to_string()]
    );
}

#[test]
fn save_path_validity() {
    assert!(!path_is_valid(""));
    assert!(path_is_valid("notes/a.md"));
}

#[test]
fn substring_containment() {
    assert!(contains_str("hello", ""));
    assert!(contains_str("hello", "ell"));
    assert!(contains_str("hello", "hello"));
    assert!(!contains_str("hello", "elo"));
    assert!(!contains_str("he", "hello"));
    assert!(contains_str("héllo wörld", "wörld"));
}

#[test]
fn path_order_comparisons() {
    assert!(str_le("", "a"));
    assert!(str_le("a", "a"));
    assert!(str_le("a", "b"));
    assert!(!str_le("b", "a"));
    assert!(str_le("ab", "abc"));
    assert!(!str_le("abc", "ab"));
    assert!(str_le("notes/a.md", "notes/b.txt"));
}
