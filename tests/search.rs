use fks_docs::listing::{list_docs, FileEntry};
use fks_docs::search::{normalize_query, scan_text, search, search_term, SearchFile};

fn file(path: &str, ext: &str, content: &str) -> SearchFile {
    SearchFile {
        path: path.to_string(),
        is_file: true,
        ext: ext.to_string(),
        content: Some(content.to_string()),
    }
}

fn hit_paths(r: &fks_docs::model::SearchResponse) -> Vec<String> {
    r.results.iter().map(|e| e.path.clone()).collect()
}

#[test]
fn matching_ignores_ascii_case() {
    let files = vec![file("a.md", "md", "Hello World")];
    let r1 = search("hello", &files, 50);
    assert_eq!(r1.total_results, 1);
    assert_eq!(r1.results[0].score, 1);
    assert_eq!(r1.results[0].line_snippets, vec!["1: Hello World".to_string()]);
    let r2 = search("WORLD", &files, 50);
    assert_eq!(r2.total_results, 1);
    let r3 = search("planet", &files, 50);
    assert_eq!(r3.total_results, 0);
}

#[test]
fn ten_matching_lines_keep_five_snippets() {
    let text: String = (0..10).map(|i| format!("match {i}\n")).collect();
    let r = search("match", &vec![file("many.txt", "txt", &text)], 50);
    assert_eq!(r.results[0].score, 10);
    assert_eq!(r.results[0].line_snippets.len(), 5);
    assert_eq!(r.results[0].line_snippets[0], "1: match 0");
    assert_eq!(r.results[0].line_snippets[4], "5: match 4");
}

#[test]
fn lines_count_once_and_snippets_are_trimmed() {
    let (score, snippets) = scan_text(&"ab".chars().collect(), "x\r\n  ab ab  \r\nno\nAB\n");
    assert_eq!(score, 2);
    assert_eq!(snippets, vec!["2: ab ab".to_string(), "4: AB".to_string()]);
}

#[test]
fn ranking_is_by_score_then_path() {
    let files = vec![
        file("B.md", "md", "x"),
        file("A.md", "md", "x\nx\nx"),
        file("C.md", "md", "x\nx\nx"),
    ];
    // Here "A" < "C": A and C tie on score and are ordered by path.
    let r = search("x", &files, 50);
    assert_eq!(hit_paths(&r), vec!["A.md", "C.md", "B.md"]);
    // Here the file with three matches named "m.md" comes before "z.md".
    let files = vec![
        file("z.md", "md", "x\nx\nx"),
        file("b.md", "md", "x"),
        file("m.md", "md", "x\nx\nx"),
    ];
    let r = search("x", &files, 50);
    assert_eq!(hit_paths(&r), vec!["m.md", "z.md", "b.md"]);
}

#[test]
fn empty_query_finds_nothing() {
    let files = vec![file("a.md", "md", "anything")];
    let r = search("", &files, 50);
    assert_eq!(r.query, "");
    assert_eq!(r.total_results, 0);
    assert!(r.results.is_empty());
    assert_eq!(r.took_ms, 0);
    let r = search("%20%20", &files, 50);
    assert_eq!(r.query, "");
    assert_eq!(r.total_results, 0);
}

#[test]
fn query_is_decoded_and_trimmed() {
    assert_eq!(normalize_query("%20beta%20"), "beta");
    assert_eq!(normalize_query("  hello%20world "), "hello world");
    assert_eq!(normalize_query("caf%C3%A9"), "café");
    let r = search("%20beta", &vec![file("b.txt", "txt", "beta gamma")], 50);
    assert_eq!(r.query, "beta");
    assert_eq!(r.total_results, 1);
}

#[test]
fn walk_stops_once_limit_files_match() {
    let files = vec![
        file("z.md", "md", "x"),
        file("nomatch.md", "md", "y"),
        file("a.md", "md", "x\nx"),
    ];
    let r = search("x", &files, 1);
    assert_eq!(hit_paths(&r), vec!["z.md"]);
    let r = search("x", &files, 2);
    assert_eq!(hit_paths(&r), vec!["a.md", "z.md"]);
    let r = search("x", &files, 0);
    assert_eq!(hit_paths(&r), vec!["z.md"]);
}

#[test]
fn unreadable_and_foreign_files_are_skipped() {
    let mut unreadable = file("u.md", "md", "");
    unreadable.content = None;
    let mut dir = file("d.md", "md", "x");
    dir.is_file = false;
    let files = vec![unreadable, dir, file("j.json", "json", "x"), file("k\\t.txt", "txt", "x")];
    let r = search("x", &files, 50);
    assert_eq!(hit_paths(&r), vec!["k/t.txt"]);
}

#[test]
fn search_term_takes_the_term_as_given() {
    let r = search_term("%62", &vec![file("p.md", "md", "%62 here")], 5);
    assert_eq!(r.query, "%62");
    assert_eq!(r.total_results, 1);
    assert_eq!(r.results[0].line_snippets, vec!["1: %62 here".to_string()]);
}

#[test]
fn end_to_end_three_files() {
    let tree = [("a.md", "md", "alpha beta"), ("b.txt", "txt", "beta gamma"), ("c.json", "json", "alpha")];
    let entries: Vec<FileEntry> = tree
        .iter()
        .map(|(p, e, c)| FileEntry {
            path: p.to_string(),
            is_file: true,
            ext: e.to_string(),
            stem: p.split('.').next().unwrap().to_string(),
            size: c.len() as u64,
            modified: None,
        })
        .collect();
    let listed: Vec<String> = list_docs(&entries).iter().map(|m| m.path.clone()).collect();
    assert_eq!(listed, vec!["a.md", "b.txt"]);
    let files: Vec<SearchFile> = tree.iter().map(|(p, e, c)| file(p, e, c)).collect();
    let r = search("beta", &files, 50);
    assert_eq!(hit_paths(&r), vec!["a.md", "b.txt"]);
    assert!(r.results.iter().all(|h| h.score == 1));
    assert_eq!(r.total_results, 2);
}
