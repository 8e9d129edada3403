//! Fingerprints of document text, markdown rendering, and the answer to a
//! request for one document.
use vstd::prelude::*;
use crate::model::{DocContent, DocMeta};
use crate::text::{chars_of, string_from_chars};

verus! {

/// The SHA-256 digest of the UTF-8 encoding of `text`.
pub uninterp spec fn sha256_digest(text: Seq<char>) -> Seq<u8>;

/// Relies on `sha2::Sha256::digest`: the digest of the bytes of `s`, 32 bytes
/// long.
#[verifier::external_body]
fn sha256(s: &str) -> (r: Vec<u8>)
    ensures
        r@ == sha256_digest(s@),
        r@.len() == 32,
{
    <sha2::Sha256 as sha2::Digest>::digest(s.as_bytes()).to_vec()
}

/// The HTML that markdown `text` renders to, with tables enabled.
pub uninterp spec fn markdown_html(text: Seq<char>) -> Seq<char>;

/// Relies on `pulldown_cmark::Parser::new_ext` with `Options::ENABLE_TABLES`
/// and `pulldown_cmark::html::push_html`: the HTML of the markdown `text`.
#[verifier::external_body]
pub(crate) fn render_markdown(text: &str) -> (r: String)
    ensures
        r@ == markdown_html(text@),
{
    let mut opts = pulldown_cmark::Options::empty();
    opts.insert(pulldown_cmark::Options::ENABLE_TABLES);
    let parser = pulldown_cmark::Parser::new_ext(text, opts);
    let mut out = String::new();
    pulldown_cmark::html::push_html(&mut out, parser);
    out
}

/// The lowercase hexadecimal digit for `d < 16`.
pub open spec fn hex_digit(d: u8) -> char {
    seq!['0', '1', '2', '3', '4', '5', '6', '7', '8', '9', 'a', 'b', 'c', 'd', 'e', 'f'][d as int]
}

/// `b` in lowercase hexadecimal, two digits a byte, high half first.
pub open spec fn hex_of(b: Seq<u8>) -> Seq<char>
    decreases b.len(),
{
    if b.len() == 0 {
        seq![]
    } else {
        hex_of(b.drop_last()) + seq![hex_digit(b.last() / 16), hex_digit(b.last() % 16)]
    }
}

fn hex_digit_exec(d: u8) -> (r: char)
    requires
        d < 16,
    ensures
        r == hex_digit(d),
{
    match d {
        0 => '0',
        1 => '1',
        2 => '2',
        3 => '3',
        4 => '4',
        5 => '5',
        6 => '6',
        7 => '7',
        8 => '8',
        9 => '9',
        10 => 'a',
        11 => 'b',
        12 => 'c',
        13 => 'd',
        14 => 'e',
        _ => 'f',
    }
}

/// The fingerprint that a digest gives: its lowercase hexadecimal between
/// double quotes, ready to serve as an HTTP entity tag.
pub open spec fn tag_of(digest: Seq<u8>) -> Seq<char> {
    seq!['"'] + hex_of(digest) + seq!['"']
}

/// The fingerprint of `text`.
pub open spec fn fingerprint_of(text: Seq<char>) -> Seq<char> {
    tag_of(sha256_digest(text))
}

/// The entity tag for the digest `digest`.
pub fn etag_from_digest(digest: &Vec<u8>) -> (r: String)
    ensures
        r@ == tag_of(digest@),
{
    let mut out: Vec<char> = Vec::new();
    out.push('"');
    let mut i: usize = 0;
    while i < digest.len()
        invariant
            i <= digest.len(),
            out@ == seq!['"'] + hex_of(digest@.subrange(0, i as int)),
        decreases digest.len() - i,
    {
        let b = digest[i];
        out.push(hex_digit_exec(b / 16));
        out.push(hex_digit_exec(b % 16));
        proof {
            let p = digest@.subrange(0, i + 1);
            assert(p.drop_last() =~= digest@.subrange(0, i as int));
            assert(out@ =~= seq!['"'] + hex_of(p));
        }
        i = i + 1;
    }
    out.push('"');
    assert(digest@.subrange(0, digest.len() as int) =~= digest@);
    assert(out@ =~= tag_of(digest@));
    string_from_chars(&out)
}

/// The fingerprint of `text`: the SHA-256 digest of its bytes in lowercase
/// hexadecimal, between double quotes.
pub fn fingerprint(text: &str) -> (r: String)
    ensures
        r@ == fingerprint_of(text@),
{
    let digest = sha256(text);
    etag_from_digest(&digest)
}

/// Texts that are equal have equal fingerprints.
pub proof fn fingerprint_is_deterministic(a: Seq<char>, b: Seq<char>)
    requires
        a == b,
    ensures
        fingerprint_of(a) == fingerprint_of(b),
{
}

/// The extensions of markdown documents: `md` and `markdown`.
pub open spec fn is_markdown_ext(e: Seq<char>) -> bool {
    e == seq!['m', 'd'] || e == seq!['m', 'a', 'r', 'k', 'd', 'o', 'w', 'n']
}

/// Whether a document with extension `ext` is rendered to HTML, given whether
/// rendering is on.
pub fn wants_rendering(render: bool, ext: &str) -> (r: bool)
    ensures
        r == (render && is_markdown_ext(ext@)),
{
    let c = chars_of(ext);
    let md = c.len() == 2 && c[0] == 'm' && c[1] == 'd';
    let markdown = c.len() == 8 && c[0] == 'm' && c[1] == 'a' && c[2] == 'r' && c[3] == 'k' && c[4]
        == 'd' && c[5] == 'o' && c[6] == 'w' && c[7] == 'n';
    proof {
        if md {
            assert(c@ =~= seq!['m', 'd']);
        }
        if markdown {
            assert(c@ =~= seq!['m', 'a', 'r', 'k', 'd', 'o', 'w', 'n']);
        }
        if c@ == seq!['m', 'd'] {
            assert(c@[0] == 'm' && c@[1] == 'd');
        }
        if c@ == seq!['m', 'a', 'r', 'k', 'd', 'o', 'w', 'n'] {
            assert(c@[0] == 'm' && c@[1] == 'a' && c@[2] == 'r' && c@[3] == 'k');
            assert(c@[4] == 'd' && c@[5] == 'o' && c@[6] == 'w' && c@[7] == 'n');
        }
    }
    render && (md || markdown)
}

/// Whether the client's `If-None-Match` value names the current entity tag.
pub fn is_not_modified(if_none_match: &Option<String>, etag: &String) -> (r: bool)
    ensures
        r == (if_none_match is Some && if_none_match->0@ == etag@),
{
    match if_none_match {
        Some(v) => *v == *etag,
        None => false,
    }
}

/// The answer to a request for one document.
pub enum DocReply {
    /// The client's copy is current.
    NotModified { etag: String },
    /// The document, to be sent whole.
    Found(DocContent),
}

/// The answer for the document `meta` with text `content`: "not modified"
/// where the client's `If-None-Match` value equals the fingerprint, else the
/// document with its fingerprint and, where rendering is on and the document
/// is markdown, its HTML.
pub fn doc_reply(meta: DocMeta, content: String, if_none_match: &Option<String>, render: bool) -> (r:
    DocReply)
    ensures
        match r {
            DocReply::NotModified { etag } => {
                &&& etag@ == fingerprint_of(content@)
                &&& if_none_match is Some && if_none_match->0@ == etag@
            },
            DocReply::Found(d) => {
                &&& !(if_none_match is Some && if_none_match->0@ == fingerprint_of(content@))
                &&& d.meta@ == meta@
                &&& d.etag@ == fingerprint_of(content@)
                &&& d.content@ == content@
                &&& if render && is_markdown_ext(meta.ext@) {
                    d.rendered_html is Some && d.rendered_html->0@ == markdown_html(content@)
                } else {
                    d.rendered_html is None
                }
            },
        },
{
    let etag = fingerprint(content.as_str());
    if is_not_modified(if_none_match, &etag) {
        return DocReply::NotModified { etag };
    }
    let rendered_html = if wants_rendering(render, meta.ext.as_str()) {
        Some(render_markdown(content.as_str()))
    } else {
        None
    };
    DocReply::Found(DocContent { meta, etag, content, rendered_html })
}

} // verus!
