//! Enumeration of the documents of a tree, and loading of one of them.
use vstd::prelude::*;
use crate::model::{metas_view, DocMeta, DocMetaView, Timestamp};
use crate::order::{lemma_seq_le_lt, lemma_seq_lt_asym, lemma_seq_lt_total, path_less, seq_lt};
use crate::text::{chars_of, contains_parent_segment, has_parent_segment, string_from_chars};

verus! {

broadcast use vstd::seq_lib::group_to_multiset_ensures;

/// What a walk of the tree saw of one entry.
#[derive(Clone, Debug)]
pub struct FileEntry {
    /// Relative to the root, with the platform's separators.
    pub path: String,
    /// A regular file, as opposed to a directory, a link or a special file.
    pub is_file: bool,
    /// The extension, empty where the name has none.
    pub ext: String,
    /// The file name without its extension.
    pub stem: String,
    pub size: u64,
    pub modified: Option<Timestamp>,
}

/// The extensions of the documents served: `md`, `markdown`, `txt`, `html`
/// and `htm`, compared exactly.
pub open spec fn is_doc_ext(e: Seq<char>) -> bool {
    ||| e == seq!['m', 'd']
    ||| e == seq!['m', 'a', 'r', 'k', 'd', 'o', 'w', 'n']
    ||| e == seq!['t', 'x', 't']
    ||| e == seq!['h', 't', 'm', 'l']
    ||| e == seq!['h', 't', 'm']
}

pub fn is_doc_extension(ext: &str) -> (r: bool)
    ensures
        r == is_doc_ext(ext@),
{
    let c = chars_of(ext);
    let r = (c.len() == 2 && c[0] == 'm' && c[1] == 'd') || (c.len() == 8 && c[0] == 'm' && c[1]
        == 'a' && c[2] == 'r' && c[3] == 'k' && c[4] == 'd' && c[5] == 'o' && c[6] == 'w' && c[7]
        == 'n') || (c.len() == 3 && c[0] == 't' && c[1] == 'x' && c[2] == 't') || (c.len() == 4
        && c[0] == 'h' && c[1] == 't' && c[2] == 'm' && c[3] == 'l') || (c.len() == 3 && c[0]
        == 'h' && c[1] == 't' && c[2] == 'm');
    proof {
        if c.len() == 2 && c[0] == 'm' && c[1] == 'd' {
            assert(c@ =~= seq!['m', 'd']);
        }
        if c.len() == 8 && c[0] == 'm' && c[1] == 'a' && c[2] == 'r' && c[3] == 'k' && c[4] == 'd'
            && c[5] == 'o' && c[6] == 'w' && c[7] == 'n' {
            assert(c@ =~= seq!['m', 'a', 'r', 'k', 'd', 'o', 'w', 'n']);
        }
        if c.len() == 3 && c[0] == 't' && c[1] == 'x' && c[2] == 't' {
            assert(c@ =~= seq!['t', 'x', 't']);
        }
        if c.len() == 4 && c[0] == 'h' && c[1] == 't' && c[2] == 'm' && c[3] == 'l' {
            assert(c@ =~= seq!['h', 't', 'm', 'l']);
        }
        if c.len() == 3 && c[0] == 'h' && c[1] == 't' && c[2] == 'm' {
            assert(c@ =~= seq!['h', 't', 'm']);
        }
        if is_doc_ext(c@) {
            if c@ == seq!['m', 'd'] {
                assert(c@[0] == 'm' && c@[1] == 'd');
            } else if c@ == seq!['m', 'a', 'r', 'k', 'd', 'o', 'w', 'n'] {
                assert(c@[0] == 'm' && c@[1] == 'a' && c@[7] == 'n');
            } else if c@ == seq!['t', 'x', 't'] {
                assert(c@[0] == 't' && c@[1] == 'x' && c@[2] == 't');
            } else if c@ == seq!['h', 't', 'm', 'l'] {
                assert(c@[0] == 'h' && c@[1] == 't' && c@[3] == 'l');
            } else {
                assert(c@[0] == 'h' && c@[1] == 't' && c@[2] == 'm');
            }
        }
    }
    r
}

/// `s` with each backslash turned into a forward slash.
pub open spec fn slashed(s: Seq<char>) -> Seq<char> {
    s.map_values(|c: char| if c == '\\' { '/' } else { c })
}

pub fn forward_slashes(s: &str) -> (r: String)
    ensures
        r@ == slashed(s@),
{
    let c = chars_of(s);
    let mut out: Vec<char> = Vec::new();
    let mut i: usize = 0;
    while i < c.len()
        invariant
            i <= c.len(),
            out@ == slashed(c@.subrange(0, i as int)),
        decreases c.len() - i,
    {
        out.push(if c[i] == '\\' { '/' } else { c[i] });
        i = i + 1;
        assert(out@ =~= slashed(c@.subrange(0, i as int)));
    }
    assert(c@.subrange(0, c.len() as int) =~= c@);
    string_from_chars(&out)
}

/// An entry is listed when it is a regular file with a document extension.
pub open spec fn is_listed(e: FileEntry) -> bool {
    e.is_file && is_doc_ext(e.ext@)
}

/// The metadata that a listed entry gives.
pub open spec fn meta_of(e: FileEntry) -> DocMetaView {
    DocMetaView {
        path: slashed(e.path@),
        name: e.stem@,
        ext: e.ext@,
        size: e.size,
        modified: e.modified,
    }
}

/// The metadata of the listed entries of `es`, in walk order.
pub open spec fn listed_metas(es: Seq<FileEntry>) -> Seq<DocMetaView>
    decreases es.len(),
{
    if es.len() == 0 {
        seq![]
    } else {
        let rest = listed_metas(es.drop_last());
        if is_listed(es.last()) {
            rest.push(meta_of(es.last()))
        } else {
            rest
        }
    }
}

/// Ascending by path.
pub open spec fn sorted_by_path(v: Seq<DocMetaView>) -> bool {
    forall|i: int, j: int| 0 <= i < j < v.len() ==> !seq_lt(#[trigger] v[j].path, #[trigger] v[i].path)
}

/// The same metadata records as `v`, ascending by path.
pub fn sort_by_path(v: Vec<DocMeta>) -> (r: Vec<DocMeta>)
    ensures
        metas_view(r@).to_multiset() == metas_view(v@).to_multiset(),
        sorted_by_path(metas_view(r@)),
{
    let ghost v0 = v@;
    let mut v = v;
    let mut r: Vec<DocMeta> = Vec::new();
    while v.len() > 0
        invariant
            metas_view(r@).to_multiset().add(metas_view(v@).to_multiset()) == metas_view(
                v0,
            ).to_multiset(),
            sorted_by_path(metas_view(r@)),
        decreases v.len(),
    {
        let ghost before = v@;
        let x = v.pop().unwrap();
        proof {
            assert(before =~= v@.push(x));
            assert(metas_view(before) =~= metas_view(v@).push(x@));
        }
        let mut pos: usize = 0;
        while pos < r.len() && path_less(&r[pos].path, &x.path)
            invariant
                pos <= r.len(),
                forall|k: int| 0 <= k < pos ==> seq_lt(#[trigger] r@[k].path@, x.path@),
            decreases r.len() - pos,
        {
            pos = pos + 1;
        }
        let ghost rv = metas_view(r@);
        r.insert(pos, x);
        proof {
            let nv = metas_view(r@);
            assert(nv =~= rv.insert(pos as int, x@));
            assert forall|i: int, j: int| 0 <= i < j < nv.len() implies !seq_lt(
                #[trigger] nv[j].path,
                #[trigger] nv[i].path,
            ) by {
                if i < pos && j == pos {
                    lemma_seq_lt_asym(rv[i].path, x.path@);
                } else if i == pos && j > pos {
                    if seq_lt(rv[j - 1].path, x.path@) {
                        lemma_seq_le_lt(rv[pos as int].path, rv[j - 1].path, x.path@);
                    }
                } else if i < pos && j > pos {
                    assert(nv[j] == rv[j - 1]);
                } else if i > pos {
                    assert(nv[j] == rv[j - 1] && nv[i] == rv[i - 1]);
                }
            }
        }
    }
    r
}

/// The documents among `entries`: the regular files with a document
/// extension, each with its path written with `/`, ascending by path.
pub fn list_docs(entries: &Vec<FileEntry>) -> (r: Vec<DocMeta>)
    ensures
        metas_view(r@).to_multiset() == listed_metas(entries@).to_multiset(),
        sorted_by_path(metas_view(r@)),
{
    let mut out: Vec<DocMeta> = Vec::new();
    let mut i: usize = 0;
    while i < entries.len()
        invariant
            i <= entries.len(),
            metas_view(out@) == listed_metas(entries@.subrange(0, i as int)),
        decreases entries.len() - i,
    {
        let e = &entries[i];
        proof {
            assert(entries@.subrange(0, i + 1).drop_last() =~= entries@.subrange(0, i as int));
        }
        if e.is_file && is_doc_extension(e.ext.as_str()) {
            let m = DocMeta {
                path: forward_slashes(e.path.as_str()),
                name: e.stem.clone(),
                ext: e.ext.clone(),
                size: e.size,
                modified: e.modified,
            };
            let ghost before = out@;
            out.push(m);
            assert(metas_view(out@) =~= metas_view(before).push(m@));
        }
        i = i + 1;
    }
    assert(entries@.subrange(0, entries.len() as int) =~= entries@);
    sort_by_path(out)
}

/// Whether `rel` may refer outside the root: one of its segments is `..`.
pub fn is_traversal(rel: &str) -> (r: bool)
    ensures
        r == has_parent_segment(rel@),
{
    let c = chars_of(rel);
    contains_parent_segment(&c)
}

/// What the file system gave for a document that exists under the root.
#[derive(Clone, Debug)]
pub struct FoundFile {
    pub ext: String,
    pub stem: String,
    pub size: u64,
    pub modified: Option<Timestamp>,
    /// The whole text of the file.
    pub content: String,
}

/// The document at `rel`, given what was found there: nothing where a
/// segment of `rel` is `..` or no file was found, else its metadata, with `rel` as its
/// path, and its text.
pub fn load_doc(rel: &str, found: Option<FoundFile>) -> (r: Option<(DocMeta, String)>)
    ensures
        has_parent_segment(rel@) || found is None <==> r is None,
        r is Some ==> {
            let f = found->0;
            let (m, text) = r->0;
            &&& m@ == (DocMetaView {
                path: rel@,
                name: f.stem@,
                ext: f.ext@,
                size: f.size,
                modified: f.modified,
            })
            &&& text@ == f.content@
        },
{
    if is_traversal(rel) {
        return None;
    }
    match found {
        None => None,
        Some(f) => {
            let meta = DocMeta {
                path: rel.to_owned(),
                name: f.stem,
                ext: f.ext,
                size: f.size,
                modified: f.modified,
            };
            Some((meta, f.content))
        },
    }
}

/// Every listed document has a document extension and comes from a regular
/// file.
pub proof fn listed_docs_have_doc_extensions(es: Seq<FileEntry>)
    ensures
        forall|k: int|
            0 <= k < listed_metas(es).len() ==> is_doc_ext(#[trigger] listed_metas(es)[k].ext),
        forall|m: DocMetaView|
            #[trigger] listed_metas(es).contains(m) ==> exists|k: int|
                0 <= k < es.len() && is_listed(#[trigger] es[k]) && m == meta_of(es[k]),
    decreases es.len(),
{
    if es.len() > 0 {
        let init = es.drop_last();
        listed_docs_have_doc_extensions(init);
        assert forall|m: DocMetaView| #[trigger] listed_metas(es).contains(m) implies exists|k: int|
            0 <= k < es.len() && is_listed(#[trigger] es[k]) && m == meta_of(es[k]) by {
            if listed_metas(init).contains(m) {
                let k = choose|k: int|
                    0 <= k < init.len() && is_listed(#[trigger] init[k]) && m == meta_of(init[k]);
                assert(es[k] == init[k]);
            } else {
                assert(es[es.len() - 1] == es.last());
            }
        }
        assert forall|k: int| 0 <= k < listed_metas(es).len() implies is_doc_ext(
            #[trigger] listed_metas(es)[k].ext,
        ) by {
            assert(listed_metas(es).contains(listed_metas(es)[k]));
        }
    }
}

/// No two records of `v` share a path.
pub open spec fn paths_distinct(v: Seq<DocMetaView>) -> bool {
    forall|i: int, j: int| 0 <= i < v.len() && 0 <= j < v.len() && i != j ==> #[trigger] v[i].path
        != #[trigger] v[j].path
}

proof fn lemma_sorted_unique(a: Seq<DocMetaView>, b: Seq<DocMetaView>)
    requires
        a.to_multiset() == b.to_multiset(),
        sorted_by_path(a),
        sorted_by_path(b),
        paths_distinct(a),
    ensures
        a == b,
    decreases a.len(),
{
    assert(a.len() == b.len()) by {
        vstd::seq_lib::to_multiset_len(a);
        vstd::seq_lib::to_multiset_len(b);
    }
    if a.len() == 0 {
        assert(a =~= b);
    } else {
        assert(a.to_multiset().count(b[0]) > 0) by {
            assert(b.contains(b[0]));
        }
        assert(b.to_multiset().count(a[0]) > 0) by {
            assert(a.contains(a[0]));
        }
        let k = choose|k: int| 0 <= k < a.len() && a[k] == b[0];
        let m = choose|m: int| 0 <= m < b.len() && b[m] == a[0];
        if k != 0 {
            assert(!seq_lt(a[k].path, a[0].path));
        }
        if m != 0 {
            assert(!seq_lt(b[m].path, b[0].path));
        }
        if k != 0 {
            lemma_seq_lt_total(a[0].path, a[k].path);
        }
        assert(a[0] == b[0]);
        let a1 = a.drop_first();
        let b1 = b.drop_first();
        assert(a1 =~= a.remove(0));
        assert(b1 =~= b.remove(0));
        assert(a1.to_multiset() == b1.to_multiset());
        assert(sorted_by_path(a1)) by {
            assert forall|i: int, j: int| 0 <= i < j < a1.len() implies !seq_lt(
                #[trigger] a1[j].path,
                #[trigger] a1[i].path,
            ) by {
                assert(a1[j] == a[j + 1] && a1[i] == a[i + 1]);
            }
        }
        assert(sorted_by_path(b1)) by {
            assert forall|i: int, j: int| 0 <= i < j < b1.len() implies !seq_lt(
                #[trigger] b1[j].path,
                #[trigger] b1[i].path,
            ) by {
                assert(b1[j] == b[j + 1] && b1[i] == b[i + 1]);
            }
        }
        assert(paths_distinct(a1)) by {
            assert forall|i: int, j: int|
                0 <= i < a1.len() && 0 <= j < a1.len() && i != j implies #[trigger] a1[i].path
                != #[trigger] a1[j].path by {
                assert(a1[j] == a[j + 1] && a1[i] == a[i + 1]);
            }
        }
        lemma_sorted_unique(a1, b1);
        assert(a =~= b) by {
            assert forall|i: int| 0 <= i < a.len() implies a[i] == b[i] by {
                if i > 0 {
                    assert(a[i] == a1[i - 1] && b[i] == b1[i - 1]);
                }
            }
        }
    }
}

proof fn lemma_listing_paths_distinct(es: Seq<FileEntry>, r: Seq<DocMetaView>)
    requires
        paths_distinct(listed_metas(es)),
        r.to_multiset() == listed_metas(es).to_multiset(),
    ensures
        paths_distinct(r),
{
    let l = listed_metas(es);
    assert(all_distinct(l)) by {
        assert forall|i: int, j: int|
            0 <= i < l.len() && 0 <= j < l.len() && i != j implies #[trigger] l[i]
            != #[trigger] l[j] by {
            assert(l[i].path != l[j].path);
        }
    }
    lemma_permutation_distinct(l, r);
    assert forall|i: int, j: int|
        0 <= i < r.len() && 0 <= j < r.len() && i != j implies #[trigger] r[i].path
        != #[trigger] r[j].path by {
        if r[i].path == r[j].path {
            assert(r.to_multiset().count(r[i]) > 0) by {
                assert(r.contains(r[i]));
            }
            assert(l.contains(r[i]));
            assert(r.to_multiset().count(r[j]) > 0) by {
                assert(r.contains(r[j]));
            }
            assert(l.contains(r[j]));
            let p = choose|p: int| 0 <= p < l.len() && l[p] == r[i];
            let q = choose|q: int| 0 <= q < l.len() && l[q] == r[j];
            assert(p != q) by {
                assert(r[i] != r[j]);
            }
            assert(l[p].path != l[q].path);
        }
    }
}

/// The listing is fixed by the entries alone: two listings of the same
/// entries, as `list_docs` describes them, are equal record for record, the
/// walk's paths being distinct as they are in a tree.
pub proof fn listing_is_deterministic(es: Seq<FileEntry>, r1: Seq<DocMetaView>, r2: Seq<DocMetaView>)
    requires
        paths_distinct(listed_metas(es)),
        r1.to_multiset() == listed_metas(es).to_multiset(),
        sorted_by_path(r1),
        r2.to_multiset() == listed_metas(es).to_multiset(),
        sorted_by_path(r2),
    ensures
        r1 == r2,
{
    lemma_listing_paths_distinct(es, r1);
    lemma_sorted_unique(r1, r2);
}

/// Where the walk's paths are distinct, as they are in a tree, a listing as
/// `list_docs` describes it is strictly ascending by path.
pub proof fn listing_is_strictly_ascending(es: Seq<FileEntry>, r: Seq<DocMetaView>)
    requires
        paths_distinct(listed_metas(es)),
        r.to_multiset() == listed_metas(es).to_multiset(),
        sorted_by_path(r),
    ensures
        forall|i: int, j: int| 0 <= i < j < r.len() ==> seq_lt(#[trigger] r[i].path, #[trigger] r[j].path),
{
    lemma_listing_paths_distinct(es, r);
    assert forall|i: int, j: int| 0 <= i < j < r.len() implies seq_lt(
        #[trigger] r[i].path,
        #[trigger] r[j].path,
    ) by {
        if !seq_lt(r[i].path, r[j].path) {
            lemma_seq_lt_total(r[i].path, r[j].path);
        }
    }
}

/// No element of `v` stands at two places.
pub open spec fn all_distinct<A>(v: Seq<A>) -> bool {
    forall|i: int, j: int| 0 <= i < v.len() && 0 <= j < v.len() && i != j ==> #[trigger] v[i]
        != #[trigger] v[j]
}

proof fn lemma_count_two<A>(v: Seq<A>, i: int, j: int)
    requires
        0 <= i < v.len(),
        0 <= j < v.len(),
        i != j,
        v[i] == v[j],
    ensures
        v.to_multiset().count(v[i]) >= 2,
    decreases v.len(),
{
    let x = v[i];
    let w = v.drop_last();
    assert(v =~= w.push(v.last()));
    if i == v.len() - 1 || j == v.len() - 1 {
        let o = if i == v.len() - 1 { j } else { i };
        assert(w[o] == x);
        assert(w.contains(x));
        assert(w.to_multiset().count(x) >= 1);
    } else {
        assert(w[i] == x && w[j] == x);
        lemma_count_two(w, i, j);
    }
}

proof fn lemma_count_le_one<A>(l: Seq<A>, p: int)
    requires
        0 <= p < l.len(),
        all_distinct(l),
    ensures
        l.to_multiset().count(l[p]) <= 1,
    decreases l.len(),
{
    let x = l[p];
    let w = l.drop_last();
    assert(l =~= w.push(l.last()));
    assert(all_distinct(w)) by {
        assert forall|i: int, j: int|
            0 <= i < w.len() && 0 <= j < w.len() && i != j implies #[trigger] w[i]
            != #[trigger] w[j] by {
            assert(w[i] == l[i] && w[j] == l[j]);
        }
    }
    if p == l.len() - 1 {
        assert(!w.contains(x)) by {
            if w.contains(x) {
                let q = choose|q: int| 0 <= q < w.len() && w[q] == x;
                assert(l[q] == x);
                assert(l[q] != l[p]);
            }
        }
        assert(w.to_multiset().count(x) == 0) by {
            if w.to_multiset().count(x) > 0 {
                vstd::seq_lib::to_multiset_contains(w, x);
            }
        }
    } else {
        lemma_count_le_one(w, p);
        assert(l.last() != x) by {
            assert(l[l.len() - 1] != l[p]);
        }
    }
}

/// A sequence with the same elements as one without repeats has none either.
pub(crate) proof fn lemma_permutation_distinct<A>(l: Seq<A>, r: Seq<A>)
    requires
        all_distinct(l),
        r.to_multiset() == l.to_multiset(),
    ensures
        all_distinct(r),
{
    assert forall|i: int, j: int|
        0 <= i < r.len() && 0 <= j < r.len() && i != j implies #[trigger] r[i] != #[trigger] r[j] by {
        if r[i] == r[j] {
            assert(l.to_multiset().count(r[i]) > 0) by {
                assert(r.contains(r[i]));
            }
            let p = choose|p: int| 0 <= p < l.len() && l[p] == r[i];
            lemma_count_two(r, i, j);
            lemma_count_le_one(l, p);
        }
    }
}

} // verus!
