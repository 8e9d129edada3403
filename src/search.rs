//! Case-insensitive line search over the documents of a tree, with ranking
//! and snippets.
use vstd::prelude::*;
use crate::listing::{
    all_distinct, forward_slashes, is_doc_ext, is_doc_extension, lemma_permutation_distinct, slashed,
};
use crate::model::{entries_view, SearchResponse, SearchResultEntry, SearchResultEntryView};
use crate::order::{lemma_seq_le_lt, lemma_seq_lt_asym, lemma_seq_lt_total, path_less, seq_lt};
use crate::text::{
    chars_of, contains_folded, contains_folded_range, decimal, line_spans, lines_of, push_decimal,
    string_from_chars, trim, trim_range,
};

verus! {

broadcast use vstd::seq_lib::group_to_multiset_ensures;

/// The number of snippets kept for one file.
pub const MAX_SNIPPETS: usize = 5;

/// What percent-decoding `s` gives, with invalid UTF-8 replaced by U+FFFD.
pub uninterp spec fn percent_decoded(s: Seq<char>) -> Seq<char>;

/// Relies on `percent_encoding::percent_decode_str` followed by
/// `PercentDecode::decode_utf8_lossy`; an input without `%` decodes to
/// itself, so an empty input decodes to an empty string.
#[verifier::external_body]
fn percent_decode(s: &str) -> (r: String)
    ensures
        r@ == percent_decoded(s@),
        s@.len() == 0 ==> r@.len() == 0,
        (forall|k: int| 0 <= k < s@.len() ==> s@[k] != '%') ==> r@ == s@,
{
    percent_encoding::percent_decode_str(s).decode_utf8_lossy().into_owned()
}

/// What a walk of the tree saw of one entry, with the file's text where it
/// could be read as UTF-8.
#[derive(Clone, Debug)]
pub struct SearchFile {
    /// Relative to the root, with the platform's separators.
    pub path: String,
    pub is_file: bool,
    pub ext: String,
    pub content: Option<String>,
}

/// The search term that a raw query stands for: percent-decoded, then
/// trimmed.
pub open spec fn query_term(raw: Seq<char>) -> Seq<char> {
    trim(percent_decoded(raw))
}

pub fn normalize_query(raw: &str) -> (r: String)
    ensures
        r@ == query_term(raw@),
        raw@.len() == 0 ==> r@.len() == 0,
        (forall|k: int| 0 <= k < raw@.len() ==> raw@[k] != '%') ==> r@ == trim(raw@),
{
    let decoded = percent_decode(raw);
    let c = chars_of(decoded.as_str());
    assert(c@.subrange(0, c.len() as int) =~= c@);
    let t = trim_range(&c, 0, c.len());
    string_from_chars(&t)
}

/// The indices of the first `n` lines that contain `term`, ignoring ASCII case.
pub open spec fn matching_lines(lines: Seq<Seq<char>>, term: Seq<char>, n: int) -> Seq<int>
    decreases n,
{
    if n <= 0 {
        seq![]
    } else if contains_folded(lines[n - 1], term) {
        matching_lines(lines, term, n - 1).push(n - 1)
    } else {
        matching_lines(lines, term, n - 1)
    }
}

/// The indices of all lines of `text` that contain `term`.
pub open spec fn matches_in(text: Seq<char>, term: Seq<char>) -> Seq<int> {
    matching_lines(lines_of(text), term, lines_of(text).len() as int)
}

/// How line `j` (counted from zero) is shown: its number counted from one,
/// a colon, a space and the line trimmed.
pub open spec fn snippet(j: int, line: Seq<char>) -> Seq<char> {
    decimal((j + 1) as nat) + seq![':', ' '] + trim(line)
}

/// The snippets for the first few of the matching lines `m`.
pub open spec fn snippets_for(lines: Seq<Seq<char>>, m: Seq<int>) -> Seq<Seq<char>> {
    let n = if m.len() < MAX_SNIPPETS { m.len() } else { MAX_SNIPPETS as nat };
    m.subrange(0, n as int).map_values(|j: int| snippet(j, lines[j]))
}

/// `n`, or the largest `u32` where it does not fit.
pub open spec fn saturate_u32(n: nat) -> u32 {
    if n > u32::MAX { u32::MAX } else { n as u32 }
}

fn make_snippet(j: usize, s: &Vec<char>, a: usize, b: usize) -> (r: String)
    requires
        a <= b <= s.len(),
        j < usize::MAX,
    ensures
        r@ == snippet(j as int, s@.subrange(a as int, b as int)),
{
    let mut out: Vec<char> = Vec::new();
    push_decimal(&mut out, j + 1);
    out.push(':');
    out.push(' ');
    let mut t = trim_range(s, a, b);
    out.append(&mut t);
    assert(out@ =~= snippet(j as int, s@.subrange(a as int, b as int)));
    string_from_chars(&out)
}

/// The number of lines of `text` that contain `term` (ignoring ASCII case),
/// and the snippets of the first few of them.
pub fn scan_text(term: &Vec<char>, text: &str) -> (r: (u32, Vec<String>))
    ensures
        r.0 == saturate_u32(matches_in(text@, term@).len()),
        r.1@.map_values(|s: String| s@) == snippets_for(lines_of(text@), matches_in(text@, term@)),
{
    let s = chars_of(text);
    let spans = line_spans(&s);
    let ghost lines = lines_of(s@);
    let mut count: u32 = 0;
    let mut snippets: Vec<String> = Vec::new();
    let mut k: usize = 0;
    while k < spans.len()
        invariant
            k <= spans.len() == lines.len(),
            lines == lines_of(s@),
            s@ == text@,
            forall|q: int|
                0 <= q < spans.len() ==> {
                    &&& (#[trigger] spans[q]).0 <= spans[q].1 <= s.len()
                    &&& s@.subrange(spans[q].0 as int, spans[q].1 as int) == lines[q]
                },
            count == saturate_u32(matching_lines(lines, term@, k as int).len()),
            snippets@.map_values(|x: String| x@) == snippets_for(
                lines,
                matching_lines(lines, term@, k as int),
            ),
        decreases spans.len() - k,
    {
        let (a, b) = spans[k];
        assert(s@.subrange(spans[k as int].0 as int, spans[k as int].1 as int) == lines[k as int]);
        let ghost m = matching_lines(lines, term@, k as int);
        if contains_folded_range(&s, a, b, term) {
            assert(matching_lines(lines, term@, k + 1) == m.push(k as int));
            if count < u32::MAX {
                count = count + 1;
            }
            let ghost old_snips = snippets@.map_values(|x: String| x@);
            if snippets.len() < MAX_SNIPPETS {
                let sn = make_snippet(k, &s, a, b);
                snippets.push(sn);
                proof {
                    assert(m.len() < MAX_SNIPPETS) by {
                        assert(old_snips.len() == snippets_for(lines, m).len());
                    }
                    assert(snippets@.map_values(|x: String| x@) =~= old_snips.push(sn@));
                    assert(snippets_for(lines, m.push(k as int)) =~= snippets_for(lines, m).push(
                        snippet(k as int, lines[k as int]),
                    ));
                }
            } else {
                proof {
                    assert(m.len() >= MAX_SNIPPETS) by {
                        assert(old_snips.len() == snippets_for(lines, m).len());
                    }
                    assert(snippets_for(lines, m.push(k as int)) =~= snippets_for(lines, m));
                }
            }
        } else {
            assert(matching_lines(lines, term@, k + 1) == m);
        }
        k = k + 1;
    }
    (count, snippets)
}

/// A file is searched when it is a regular file with a document extension
/// whose text could be read.
pub open spec fn is_searched(f: SearchFile) -> bool {
    f.is_file && is_doc_ext(f.ext@) && f.content is Some
}

/// The hit that a searched file gives.
pub open spec fn hit_of(f: SearchFile, term: Seq<char>) -> SearchResultEntryView {
    let text = f.content->0@;
    SearchResultEntryView {
        path: slashed(f.path@),
        score: saturate_u32(matches_in(text, term).len()),
        line_snippets: snippets_for(lines_of(text), matches_in(text, term)),
    }
}

/// The hits gathered from `files[i..]`, given the hits `acc` of the files
/// before: files are taken in walk order, a searched file with a matching
/// line adds its hit, and the walk stops once `limit` hits are in hand.
pub open spec fn hits_from(
    files: Seq<SearchFile>,
    term: Seq<char>,
    limit: nat,
    i: int,
    acc: Seq<SearchResultEntryView>,
) -> Seq<SearchResultEntryView>
    decreases files.len() - i,
{
    if i < 0 || i >= files.len() {
        acc
    } else if !is_searched(files[i]) {
        hits_from(files, term, limit, i + 1, acc)
    } else {
        let h = hit_of(files[i], term);
        let acc2 = if h.score > 0 { acc.push(h) } else { acc };
        if acc2.len() >= limit {
            acc2
        } else {
            hits_from(files, term, limit, i + 1, acc2)
        }
    }
}

/// The hits of a search of `files` for `term`, in walk order.
pub open spec fn hits(files: Seq<SearchFile>, term: Seq<char>, limit: nat) -> Seq<
    SearchResultEntryView,
> {
    hits_from(files, term, limit, 0, seq![])
}

/// `a` ranks before `b`: more matching lines, or as many and a smaller path.
pub open spec fn rank_lt(a: SearchResultEntryView, b: SearchResultEntryView) -> bool {
    a.score > b.score || (a.score == b.score && seq_lt(a.path, b.path))
}

/// In rank order.
pub open spec fn sorted_by_rank(v: Seq<SearchResultEntryView>) -> bool {
    forall|i: int, j: int| 0 <= i < j < v.len() ==> !rank_lt(#[trigger] v[j], #[trigger] v[i])
}

proof fn lemma_rank_le_lt(y: SearchResultEntryView, z: SearchResultEntryView, x: SearchResultEntryView)
    requires
        !rank_lt(z, y),
        rank_lt(z, x),
    ensures
        rank_lt(y, x),
{
    if y.score == z.score && z.score == x.score {
        lemma_seq_le_lt(y.path, z.path, x.path);
    }
}

proof fn lemma_rank_asym(a: SearchResultEntryView, b: SearchResultEntryView)
    ensures
        !(rank_lt(a, b) && rank_lt(b, a)),
{
    lemma_seq_lt_asym(a.path, b.path);
}

fn ranks_before(a: &SearchResultEntry, b: &SearchResultEntry) -> (r: bool)
    ensures
        r == rank_lt(a@, b@),
{
    a.score > b.score || (a.score == b.score && path_less(&a.path, &b.path))
}

/// The same hits as `v`, in rank order.
pub fn sort_by_rank(v: Vec<SearchResultEntry>) -> (r: Vec<SearchResultEntry>)
    ensures
        entries_view(r@).to_multiset() == entries_view(v@).to_multiset(),
        sorted_by_rank(entries_view(r@)),
{
    let ghost v0 = v@;
    let mut v = v;
    let mut r: Vec<SearchResultEntry> = Vec::new();
    while v.len() > 0
        invariant
            entries_view(r@).to_multiset().add(entries_view(v@).to_multiset()) == entries_view(
                v0,
            ).to_multiset(),
            sorted_by_rank(entries_view(r@)),
        decreases v.len(),
    {
        let ghost before = v@;
        let x = v.pop().unwrap();
        proof {
            assert(before =~= v@.push(x));
            assert(entries_view(before) =~= entries_view(v@).push(x@));
        }
        let mut pos: usize = 0;
        while pos < r.len() && ranks_before(&r[pos], &x)
            invariant
                pos <= r.len(),
                forall|k: int| 0 <= k < pos ==> rank_lt(#[trigger] r@[k]@, x@),
            decreases r.len() - pos,
        {
            pos = pos + 1;
        }
        let ghost rv = entries_view(r@);
        r.insert(pos, x);
        proof {
            let nv = entries_view(r@);
            assert(nv =~= rv.insert(pos as int, x@));
            assert forall|i: int, j: int| 0 <= i < j < nv.len() implies !rank_lt(
                #[trigger] nv[j],
                #[trigger] nv[i],
            ) by {
                if i < pos && j == pos {
                    assert(rank_lt(r@[i]@, x@));
                    lemma_rank_asym(rv[i], x@);
                } else if i == pos && j > pos {
                    if rank_lt(rv[j - 1], x@) {
                        lemma_rank_le_lt(rv[pos as int], rv[j - 1], x@);
                    }
                } else if i < pos && j > pos {
                    assert(nv[j] == rv[j - 1]);
                } else if i > pos {
                    assert(nv[j] == rv[j - 1] && nv[i] == rv[i - 1]);
                }
            }
        }
    }
    r
}

/// What a search for `term` answers: the term itself, the hits of `files`
/// in rank order with their number, and no time taken; an empty term has no
/// hits.
pub open spec fn answers(r: SearchResponse, term: Seq<char>, files: Seq<SearchFile>, limit: nat) -> bool {
    &&& r.query@ == term
    &&& r.took_ms == 0
    &&& r.total_results == r.results.len()
    &&& term.len() == 0 ==> r.results.len() == 0
    &&& term.len() > 0 ==> entries_view(r.results@).to_multiset() == hits(
        files,
        term,
        limit,
    ).to_multiset()
    &&& sorted_by_rank(entries_view(r.results@))
}

/// Searches `files`, given in walk order, for an already normalised term.
pub fn search_term(term: &str, files: &Vec<SearchFile>, limit: usize) -> (r: SearchResponse)
    ensures
        answers(r, term@, files@, limit as nat),
{
    let t = chars_of(term);
    let mut results: Vec<SearchResultEntry> = Vec::new();
    if t.len() == 0 {
        return SearchResponse {
            query: string_from_chars(&t),
            total_results: 0,
            results,
            took_ms: 0,
        };
    }
    let mut i: usize = 0;
    let mut done = false;
    assert(entries_view(results@) =~= seq![]);
    while i < files.len() && !done
        invariant
            i <= files.len(),
            t@ == term@,
            done ==> hits(files@, t@, limit as nat) == entries_view(results@),
            !done ==> hits(files@, t@, limit as nat) == hits_from(
                files@,
                t@,
                limit as nat,
                i as int,
                entries_view(results@),
            ),
        decreases files.len() - i,
    {
        let f = &files[i];
        if f.is_file && is_doc_extension(f.ext.as_str()) {
            match &f.content {
                Some(text) => {
                    let (score, snippets) = scan_text(&t, text.as_str());
                    let ghost before = entries_view(results@);
                    if score > 0 {
                        let e = SearchResultEntry {
                            path: forward_slashes(f.path.as_str()),
                            score,
                            line_snippets: snippets,
                        };
                        results.push(e);
                        assert(entries_view(results@) =~= before.push(e@));
                    }
                    if results.len() >= limit {
                        done = true;
                    }
                },
                None => {},
            }
        }
        i = i + 1;
    }
    proof {
        if !done {
            assert(hits_from(files@, t@, limit as nat, i as int, entries_view(results@))
                == entries_view(results@));
        }
    }
    let ranked = sort_by_rank(results);
    let n = ranked.len();
    SearchResponse { query: string_from_chars(&t), total_results: n, results: ranked, took_ms: 0 }
}

/// Searches `files`, given in walk order, for what the raw query `query`
/// stands for: at most `limit` files with a matching line, gathered in walk
/// order and ranked by the number of matching lines, then by path.
pub fn search(query: &str, files: &Vec<SearchFile>, limit: usize) -> (r: SearchResponse)
    ensures
        answers(r, query_term(query@), files@, limit as nat),
        query@.len() == 0 ==> r.query@.len() == 0 && r.total_results == 0 && r.results@.len()
            == 0,
{
    let term = normalize_query(query);
    search_term(term.as_str(), files, limit)
}

proof fn lemma_hits_from_origin(
    files: Seq<SearchFile>,
    term: Seq<char>,
    limit: nat,
    i: int,
    acc: Seq<SearchResultEntryView>,
)
    requires
        0 <= i,
        forall|h: SearchResultEntryView|
            #[trigger] acc.contains(h) ==> exists|k: int|
                0 <= k < files.len() && is_searched(#[trigger] files[k]) && h == hit_of(
                    files[k],
                    term,
                ) && h.score > 0,
    ensures
        forall|h: SearchResultEntryView|
            #[trigger] hits_from(files, term, limit, i, acc).contains(h) ==> exists|k: int|
                0 <= k < files.len() && is_searched(#[trigger] files[k]) && h == hit_of(
                    files[k],
                    term,
                ) && h.score > 0,
    decreases files.len() - i,
{
    if i < files.len() {
        if !is_searched(files[i]) {
            lemma_hits_from_origin(files, term, limit, i + 1, acc);
            assert(hits_from(files, term, limit, i, acc) == hits_from(files, term, limit, i + 1, acc));
        } else {
            let h = hit_of(files[i], term);
            let acc2 = if h.score > 0 { acc.push(h) } else { acc };
            assert forall|x: SearchResultEntryView| #[trigger] acc2.contains(x) implies exists|k: int|
                0 <= k < files.len() && is_searched(#[trigger] files[k]) && x == hit_of(
                    files[k],
                    term,
                ) && x.score > 0 by {
                if h.score > 0 && x == h {
                    assert(is_searched(files[i]));
                } else {
                    if h.score > 0 {
                        let j = choose|j: int| 0 <= j < acc2.len() && acc2[j] == x;
                        assert(acc[j] == x);
                    }
                    assert(acc.contains(x));
                }
            }
            if acc2.len() < limit {
                lemma_hits_from_origin(files, term, limit, i + 1, acc2);
                assert(hits_from(files, term, limit, i, acc) == hits_from(
                    files,
                    term,
                    limit,
                    i + 1,
                    acc2,
                ));
            } else {
                assert(hits_from(files, term, limit, i, acc) == acc2);
            }
        }
    } else {
        assert(hits_from(files, term, limit, i, acc) == acc);
    }
}

/// Every hit of a search stands for a searched file (a regular file with a
/// document extension whose text could be read) that has at least one
/// matching line; files of any other kind are never searched.
pub proof fn hits_come_from_searched_files(files: Seq<SearchFile>, term: Seq<char>, limit: nat)
    ensures
        forall|h: SearchResultEntryView|
            #[trigger] hits(files, term, limit).contains(h) ==> exists|k: int|
                0 <= k < files.len() && is_searched(#[trigger] files[k]) && is_doc_ext(
                    files[k].ext@,
                ) && h == hit_of(files[k], term) && h.score > 0,
{
    lemma_hits_from_origin(files, term, limit, 0, seq![]);
}

/// A hit reports every matching line in its score (up to the largest `u32`)
/// but keeps the snippets of the first `MAX_SNIPPETS` of them only.
pub proof fn snippets_are_capped(f: SearchFile, term: Seq<char>)
    requires
        is_searched(f),
    ensures
        hit_of(f, term).score == saturate_u32(matches_in(f.content->0@, term).len()),
        hit_of(f, term).line_snippets.len() == if matches_in(f.content->0@, term).len()
            < MAX_SNIPPETS {
            matches_in(f.content->0@, term).len()
        } else {
            MAX_SNIPPETS as nat
        },
        hit_of(f, term).line_snippets.len() <= MAX_SNIPPETS,
{
}

/// No two files of the walk share a path once written with `/`, as in a tree.
pub open spec fn file_paths_distinct(files: Seq<SearchFile>) -> bool {
    forall|i: int, j: int|
        0 <= i < files.len() && 0 <= j < files.len() && i != j ==> slashed(#[trigger] files[i].path@)
            != slashed(#[trigger] files[j].path@)
}

/// No two hits of `v` share a path.
pub open spec fn hit_paths_distinct(v: Seq<SearchResultEntryView>) -> bool {
    forall|i: int, j: int| 0 <= i < v.len() && 0 <= j < v.len() && i != j ==> #[trigger] v[i].path
        != #[trigger] v[j].path
}

proof fn lemma_hits_from_distinct(
    files: Seq<SearchFile>,
    term: Seq<char>,
    limit: nat,
    i: int,
    acc: Seq<SearchResultEntryView>,
)
    requires
        0 <= i,
        file_paths_distinct(files),
        hit_paths_distinct(acc),
        forall|a: int|
            0 <= a < acc.len() ==> exists|k: int|
                0 <= k < i && k < files.len() && (#[trigger] acc[a]).path == slashed(files[k].path@),
    ensures
        hit_paths_distinct(hits_from(files, term, limit, i, acc)),
    decreases files.len() - i,
{
    if i < files.len() {
        if !is_searched(files[i]) {
            lemma_hits_from_distinct(files, term, limit, i + 1, acc);
            assert(hits_from(files, term, limit, i, acc) == hits_from(files, term, limit, i + 1, acc));
        } else {
            let h = hit_of(files[i], term);
            let acc2 = if h.score > 0 { acc.push(h) } else { acc };
            assert forall|a: int| 0 <= a < acc.len() implies (#[trigger] acc[a]).path != h.path by {
                let k = choose|k: int|
                    0 <= k < i && k < files.len() && (#[trigger] acc[a]).path == slashed(files[k].path@);
                assert(slashed(files[k].path@) != slashed(files[i].path@));
            }
            assert(hit_paths_distinct(acc2)) by {
                if h.score > 0 {
                    assert forall|a: int, b: int|
                        0 <= a < acc2.len() && 0 <= b < acc2.len() && a != b implies #[trigger] acc2[a].path
                        != #[trigger] acc2[b].path by {
                        if a < acc.len() && b < acc.len() {
                            assert(acc2[a] == acc[a] && acc2[b] == acc[b]);
                        } else if a < acc.len() {
                            assert(acc2[a] == acc[a]);
                        } else {
                            assert(acc2[b] == acc[b]);
                        }
                    }
                }
            }
            assert forall|a: int| 0 <= a < acc2.len() implies exists|k: int|
                0 <= k < i + 1 && k < files.len() && (#[trigger] acc2[a]).path == slashed(
                    files[k].path@,
                ) by {
                if a < acc.len() {
                    assert(acc2[a] == acc[a]);
                    let k = choose|k: int|
                        0 <= k < i && k < files.len() && (#[trigger] acc[a]).path == slashed(
                            files[k].path@,
                        );
                    assert(0 <= k < i + 1 && k < files.len() && acc2[a].path == slashed(files[k].path@));
                } else {
                    assert(acc2[a] == h);
                }
            }
            if acc2.len() < limit {
                lemma_hits_from_distinct(files, term, limit, i + 1, acc2);
                assert(hits_from(files, term, limit, i, acc) == hits_from(
                    files,
                    term,
                    limit,
                    i + 1,
                    acc2,
                ));
            } else {
                assert(hits_from(files, term, limit, i, acc) == acc2);
            }
        }
    } else {
        assert(hits_from(files, term, limit, i, acc) == acc);
    }
}

/// Where the walk's paths are distinct, as they are in a tree, the hits of
/// a search as `search` describes them are in strict rank order: more
/// matching lines first, and among equal counts strictly ascending by path.
pub proof fn ranking_is_strict(
    files: Seq<SearchFile>,
    term: Seq<char>,
    limit: nat,
    r: Seq<SearchResultEntryView>,
)
    requires
        file_paths_distinct(files),
        r.to_multiset() == hits(files, term, limit).to_multiset(),
        sorted_by_rank(r),
    ensures
        forall|i: int, j: int| 0 <= i < j < r.len() ==> rank_lt(#[trigger] r[i], #[trigger] r[j]),
{
    let l = hits(files, term, limit);
    lemma_hits_from_distinct(files, term, limit, 0, seq![]);
    assert(all_distinct(l)) by {
        assert forall|i: int, j: int|
            0 <= i < l.len() && 0 <= j < l.len() && i != j implies #[trigger] l[i]
            != #[trigger] l[j] by {
            assert(l[i].path != l[j].path);
        }
    }
    lemma_permutation_distinct(l, r);
    assert forall|i: int, j: int| 0 <= i < j < r.len() implies rank_lt(
        #[trigger] r[i],
        #[trigger] r[j],
    ) by {
        assert(r.to_multiset().count(r[i]) > 0) by {
            assert(r.contains(r[i]));
        }
        assert(r.to_multiset().count(r[j]) > 0) by {
            assert(r.contains(r[j]));
        }
        assert(l.contains(r[i]));
        assert(l.contains(r[j]));
        let p = choose|p: int| 0 <= p < l.len() && l[p] == r[i];
        let q = choose|q: int| 0 <= q < l.len() && l[q] == r[j];
        assert(r[i] != r[j]);
        assert(l[p].path != l[q].path);
        assert(!rank_lt(r[j], r[i]));
        if !rank_lt(r[i], r[j]) {
            lemma_seq_lt_total(r[i].path, r[j].path);
        }
    }
}

} // verus!
