use fks_docs::listing::{is_doc_extension, is_traversal, list_docs, load_doc, FileEntry, FoundFile};
use fks_docs::model::Timestamp;

fn entry(path: &str, is_file: bool, ext: &str, stem: &str, size: u64) -> FileEntry {
    FileEntry {
        path: path.to_string(),
        is_file,
        ext: ext.to_string(),
        stem: stem.to_string(),
        size,
        modified: None,
    }
}

fn paths(v: &[fks_docs::model::DocMeta]) -> Vec<String> {
    v.iter().map(|m| m.path.clone()).collect()
}

#[test]
fn only_document_extensions_are_listed() {
    let es = vec![
        entry("c.json", true, "json", "c", 5),
        entry("a.md", true, "md", "a", 10),
        entry("b.txt", true, "txt", "b", 10),
        entry("d.markdown", true, "markdown", "d", 1),
        entry("e.html", true, "html", "e", 1),
        entry("f.htm", true, "htm", "f", 1),
        entry("g.MD", true, "MD", "g", 1),
        entry("h", true, "", "h", 1),
    ];
    let r = list_docs(&es);
    assert_eq!(paths(&r), vec!["a.md", "b.txt", "d.markdown", "e.html", "f.htm"]);
}

#[test]
fn directories_are_skipped() {
    let es = vec![entry("notes.md", false, "md", "notes", 0), entry("x.md", true, "md", "x", 3)];
    let r = list_docs(&es);
    assert_eq!(paths(&r), vec!["x.md"]);
}

#[test]
fn listing_is_sorted_whatever_the_walk_order() {
    let a = vec![
        entry("z.md", true, "md", "z", 1),
        entry("b/a.md", true, "md", "a", 1),
        entry("a.md", true, "md", "a", 1),
        entry("B.md", true, "md", "B", 1),
    ];
    let mut b = a.clone();
    b.reverse();
    let ra = list_docs(&a);
    let rb = list_docs(&b);
    assert_eq!(paths(&ra), vec!["B.md", "a.md", "b/a.md", "z.md"]);
    assert_eq!(paths(&ra), paths(&rb));
}

#[test]
fn backslashes_become_slashes_and_fields_are_kept() {
    let mut e = entry("guide\\intro.md", true, "md", "intro", 42);
    e.modified = Some(Timestamp { secs: 1_700_000_000, nanos: 5 });
    let r = list_docs(&vec![e]);
    assert_eq!(r.len(), 1);
    assert_eq!(r[0].path, "guide/intro.md");
    assert_eq!(r[0].name, "intro");
    assert_eq!(r[0].ext, "md");
    assert_eq!(r[0].size, 42);
    assert_eq!(r[0].modified, Some(Timestamp { secs: 1_700_000_000, nanos: 5 }));
}

#[test]
fn empty_walk_lists_nothing() {
    assert!(list_docs(&Vec::new()).is_empty());
}

#[test]
fn extension_check_is_exact() {
    assert!(is_doc_extension("md"));
    assert!(is_doc_extension("markdown"));
    assert!(is_doc_extension("txt"));
    assert!(is_doc_extension("html"));
    assert!(is_doc_extension("htm"));
    assert!(!is_doc_extension("json"));
    assert!(!is_doc_extension("Md"));
    assert!(!is_doc_extension(""));
    assert!(!is_doc_extension("mdx"));
}

fn found(content: &str) -> FoundFile {
    FoundFile {
        ext: "txt".to_string(),
        stem: "secret".to_string(),
        size: content.len() as u64,
        modified: None,
        content: content.to_string(),
    }
}

#[test]
fn parent_reference_is_not_found() {
    assert!(is_traversal("../secret.txt"));
    assert!(load_doc("../secret.txt", Some(found("top secret"))).is_none());
    assert!(load_doc("a/../../b.md", Some(found("x"))).is_none());
    assert!(load_doc("..", Some(found("x"))).is_none());
    assert!(load_doc("docs/..", Some(found("x"))).is_none());
    assert!(load_doc("..\\secret.txt", Some(found("x"))).is_none());
    assert!(load_doc("a\\..\\..\\b.md", Some(found("x"))).is_none());
}

#[test]
fn dots_inside_a_name_are_not_a_parent_reference() {
    assert!(!is_traversal("notes..v2.md"));
    assert!(!is_traversal("a/...md"));
    assert!(!is_traversal(".../x.md"));
    assert!(!is_traversal("a/.hidden.md"));
    let (meta, text) = load_doc("notes..v2.md", Some(found("v2"))).unwrap();
    assert_eq!(meta.path, "notes..v2.md");
    assert_eq!(text, "v2");
}

#[test]
fn missing_file_is_not_found() {
    assert!(!is_traversal("docs/readme.md"));
    assert!(load_doc("docs/readme.md", None).is_none());
}

#[test]
fn found_file_keeps_the_requested_path() {
    let (meta, text) = load_doc("dir\\secret.txt", Some(found("hello"))).unwrap();
    assert_eq!(meta.path, "dir\\secret.txt");
    assert_eq!(meta.name, "secret");
    assert_eq!(meta.ext, "txt");
    assert_eq!(meta.size, 5);
    assert_eq!(text, "hello");
}
