use fks_docs::document::{doc_reply, etag_from_digest, fingerprint, is_not_modified, wants_rendering, DocReply};
use fks_docs::model::DocMeta;
use fks_docs::server::{clamp_limit, default_limit, AppState};

fn meta(ext: &str) -> DocMeta {
    DocMeta {
        path: format!("doc.{ext}"),
        name: "doc".to_string(),
        ext: ext.to_string(),
        size: 4,
        modified: None,
    }
}

#[test]
fn fingerprint_is_quoted_sha256_hex() {
    assert_eq!(
        fingerprint(""),
        "\"e3b0c44298fc1c149afbf4c8996fb92427ae41e4649b934ca495991b7852b855\""
    );
    assert_eq!(
        fingerprint("abc"),
        "\"ba7816bf8f01cfea414140de5dae2223b00361a396177a9cb410ff61f20015ad\""
    );
}

#[test]
fn fingerprint_is_stable_and_sensitive() {
    let text = "some document text";
    assert_eq!(fingerprint(text), fingerprint(text));
    assert_ne!(fingerprint(text), fingerprint(&format!("{text} ")));
}

#[test]
fn etag_from_digest_writes_two_digits_a_byte() {
    assert_eq!(etag_from_digest(&vec![0x0f, 0xa0, 0x00, 0xff]), "\"0fa000ff\"");
    assert_eq!(etag_from_digest(&Vec::new()), "\"\"");
}

#[test]
fn not_modified_compares_exactly() {
    let tag = "\"abc\"".to_string();
    assert!(is_not_modified(&Some("\"abc\"".to_string()), &tag));
    assert!(!is_not_modified(&Some("abc".to_string()), &tag));
    assert!(!is_not_modified(&None, &tag));
}

#[test]
fn rendering_only_for_markdown_when_on() {
    assert!(wants_rendering(true, "md"));
    assert!(wants_rendering(true, "markdown"));
    assert!(!wants_rendering(true, "txt"));
    assert!(!wants_rendering(false, "md"));
}

#[test]
fn reply_is_not_modified_for_matching_tag() {
    let tag = fingerprint("# Hi");
    match doc_reply(meta("md"), "# Hi".to_string(), &Some(tag.clone()), true) {
        DocReply::NotModified { etag } => assert_eq!(etag, tag),
        DocReply::Found(_) => panic!("expected not modified"),
    }
}

#[test]
fn reply_carries_rendered_markdown() {
    match doc_reply(meta("md"), "# Hi".to_string(), &Some("\"other\"".to_string()), true) {
        DocReply::Found(d) => {
            assert_eq!(d.etag, fingerprint("# Hi"));
            assert_eq!(d.content, "# Hi");
            assert_eq!(d.meta.path, "doc.md");
            assert!(d.rendered_html.unwrap().contains("<h1>Hi</h1>"));
        }
        DocReply::NotModified { .. } => panic!("expected the document"),
    }
}

#[test]
fn reply_renders_tables() {
    match doc_reply(meta("md"), "| a | b |\n|---|---|\n| 1 | 2 |\n".to_string(), &None, true) {
        DocReply::Found(d) => assert!(d.rendered_html.unwrap().contains("<table>")),
        DocReply::NotModified { .. } => panic!("expected the document"),
    }
}

#[test]
fn reply_without_rendering() {
    for (ext, render) in [("txt", true), ("md", false)] {
        match doc_reply(meta(ext), "# Hi".to_string(), &None, render) {
            DocReply::Found(d) => assert!(d.rendered_html.is_none()),
            DocReply::NotModified { .. } => panic!("expected the document"),
        }
    }
}

#[test]
fn limits() {
    assert_eq!(default_limit(), 50);
    assert_eq!(clamp_limit(10), 10);
    assert_eq!(clamp_limit(200), 200);
    assert_eq!(clamp_limit(201), 200);
    assert_eq!(clamp_limit(usize::MAX), 200);
    let s = AppState { docs_root: "docs".to_string(), render_markdown: true };
    assert_eq!(s.clone().docs_root, "docs");
}
