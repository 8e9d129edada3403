//! Character-level text handling: line splitting, whitespace trimming,
//! ASCII case-insensitive substring search and decimal rendering.
use vstd::prelude::*;

verus! {

/// Relies on `str::chars`: the characters of `s`, in order.
#[verifier::external_body]
pub(crate) fn chars_of(s: &str) -> (r: Vec<char>)
    ensures
        r@ == s@,
{
    s.chars().collect()
}

/// Relies on `FromIterator<&char> for String`: the string made of these characters.
#[verifier::external_body]
pub(crate) fn string_from_chars(v: &Vec<char>) -> (r: String)
    ensures
        r@ == v@,
{
    v.iter().collect()
}

/// The Unicode `White_Space` property, which `char::is_whitespace` and
/// `str::trim` go by.
pub open spec fn is_ws(c: char) -> bool {
    let u = c as u32;
    (0x09 <= u && u <= 0x0d) || u == 0x20 || u == 0x85 || u == 0xa0 || u == 0x1680 || (0x2000
        <= u && u <= 0x200a) || u == 0x2028 || u == 0x2029 || u == 0x202f || u == 0x205f || u
        == 0x3000
}

/// Whether `c` is whitespace.
pub fn is_whitespace(c: char) -> (r: bool)
    ensures
        r == is_ws(c),
{
    let u = c as u32;
    (0x09 <= u && u <= 0x0d) || u == 0x20 || u == 0x85 || u == 0xa0 || u == 0x1680 || (0x2000
        <= u && u <= 0x200a) || u == 0x2028 || u == 0x2029 || u == 0x202f || u == 0x205f || u
        == 0x3000
}

/// `s` without leading whitespace.
pub open spec fn trim_start(s: Seq<char>) -> Seq<char>
    decreases s.len(),
{
    if s.len() > 0 && is_ws(s[0]) {
        trim_start(s.drop_first())
    } else {
        s
    }
}

/// `s` without trailing whitespace.
pub open spec fn trim_end(s: Seq<char>) -> Seq<char>
    decreases s.len(),
{
    if s.len() > 0 && is_ws(s.last()) {
        trim_end(s.drop_last())
    } else {
        s
    }
}

/// `s` without surrounding whitespace, as `str::trim` gives it.
pub open spec fn trim(s: Seq<char>) -> Seq<char> {
    trim_end(trim_start(s))
}

proof fn lemma_trim_start_from(s: Seq<char>, i: int)
    requires
        0 <= i <= s.len(),
        forall|k: int| 0 <= k < i ==> is_ws(#[trigger] s[k]),
    ensures
        trim_start(s) == trim_start(s.subrange(i, s.len() as int)),
    decreases i,
{
    if i > 0 {
        assert(s.drop_first() =~= s.subrange(1, s.len() as int));
        let t = s.drop_first();
        assert(t.subrange(i - 1, t.len() as int) =~= s.subrange(i, s.len() as int));
        assert forall|k: int| 0 <= k < i - 1 implies is_ws(#[trigger] t[k]) by {
            assert(t[k] == s[k + 1]);
        }
        lemma_trim_start_from(t, i - 1);
    } else {
        assert(s.subrange(0, s.len() as int) =~= s);
    }
}

proof fn lemma_trim_end_to(s: Seq<char>, j: int)
    requires
        0 <= j <= s.len(),
        forall|k: int| j <= k < s.len() ==> is_ws(#[trigger] s[k]),
    ensures
        trim_end(s) == trim_end(s.subrange(0, j)),
    decreases s.len() - j,
{
    if j < s.len() {
        let t = s.drop_last();
        assert(t.subrange(0, j) =~= s.subrange(0, j));
        lemma_trim_end_to(t, j);
    } else {
        assert(s.subrange(0, j) =~= s);
    }
}

/// The characters of `s[a..b]` with surrounding whitespace removed.
pub fn trim_range(s: &Vec<char>, a: usize, b: usize) -> (r: Vec<char>)
    requires
        a <= b <= s.len(),
    ensures
        r@ == trim(s@.subrange(a as int, b as int)),
{
    let ghost t = s@.subrange(a as int, b as int);
    let mut i: usize = a;
    while i < b && is_whitespace(s[i])
        invariant
            a <= i <= b <= s.len(),
            t == s@.subrange(a as int, b as int),
            forall|k: int| a <= k < i ==> is_ws(#[trigger] s@[k]),
        decreases b - i,
    {
        i = i + 1;
    }
    proof {
        assert forall|k: int| 0 <= k < i - a implies is_ws(#[trigger] t[k]) by {
            assert(t[k] == s@[a + k]);
        }
        lemma_trim_start_from(t, i - a);
        assert(t.subrange(i - a, t.len() as int) =~= s@.subrange(i as int, b as int));
    }
    let ghost u = s@.subrange(i as int, b as int);
    let mut j: usize = b;
    while j > i && is_whitespace(s[j - 1])
        invariant
            a <= i <= j <= b <= s.len(),
            u == s@.subrange(i as int, b as int),
            forall|k: int| j <= k < b ==> is_ws(#[trigger] s@[k]),
        decreases j - i,
    {
        j = j - 1;
    }
    proof {
        assert forall|k: int| j - i <= k < u.len() implies is_ws(#[trigger] u[k]) by {
            assert(u[k] == s@[i + k]);
        }
        lemma_trim_end_to(u, j - i);
        assert(u.subrange(0, j - i) =~= s@.subrange(i as int, j as int));
        if i == b {
            assert(trim_start(t).len() == 0);
        } else {
            assert(!is_ws(u[0]));
        }
    }
    copy_range(s, i, j)
}

/// `s[a..b]` as a vector of its own.
pub fn copy_range(s: &Vec<char>, a: usize, b: usize) -> (r: Vec<char>)
    requires
        a <= b <= s.len(),
    ensures
        r@ == s@.subrange(a as int, b as int),
{
    let mut r: Vec<char> = Vec::new();
    let mut i: usize = a;
    while i < b
        invariant
            a <= i <= b <= s.len(),
            r@ == s@.subrange(a as int, i as int),
        decreases b - i,
    {
        r.push(s[i]);
        i = i + 1;
        assert(r@ =~= s@.subrange(a as int, i as int));
    }
    r
}

/// `s` without one trailing carriage return.
pub open spec fn strip_cr(s: Seq<char>) -> Seq<char> {
    if s.len() > 0 && s.last() == '\r' {
        s.drop_last()
    } else {
        s
    }
}

/// The lines of `s[start..]`, where the current line began at `start` and
/// scanning for its end has reached `i`. A line ends at `'\n'` (its `"\r\n"`
/// ending is removed as a whole); a last line without an ending counts when
/// it is not empty.
pub open spec fn lines_from(s: Seq<char>, start: int, i: int) -> Seq<Seq<char>>
    decreases s.len() - i,
{
    if i >= s.len() {
        if start < s.len() {
            seq![s.subrange(start, s.len() as int)]
        } else {
            seq![]
        }
    } else if s[i] == '\n' {
        seq![strip_cr(s.subrange(start, i))] + lines_from(s, i + 1, i + 1)
    } else {
        lines_from(s, start, i + 1)
    }
}

/// The lines of `s`, as `str::lines` gives them.
pub open spec fn lines_of(s: Seq<char>) -> Seq<Seq<char>> {
    lines_from(s, 0, 0)
}

/// The boundaries `(start, end)` of each line of `s`, in order.
pub fn line_spans(s: &Vec<char>) -> (r: Vec<(usize, usize)>)
    ensures
        r.len() == lines_of(s@).len(),
        forall|k: int|
            0 <= k < r.len() ==> {
                &&& (#[trigger] r[k]).0 <= r[k].1 <= s.len()
                &&& s@.subrange(r[k].0 as int, r[k].1 as int) == lines_of(s@)[k]
            },
{
    let mut r: Vec<(usize, usize)> = Vec::new();
    let mut start: usize = 0;
    let mut i: usize = 0;
    while i < s.len()
        invariant
            start <= i <= s.len(),
            lines_of(s@) == r@.map_values(|p: (usize, usize)| s@.subrange(p.0 as int, p.1 as int))
                + lines_from(s@, start as int, i as int),
            forall|k: int| 0 <= k < r.len() ==> (#[trigger] r[k]).0 <= r[k].1 <= s.len(),
        decreases s.len() - i,
    {
        if s[i] == '\n' {
            let end: usize = if i > start && s[i - 1] == '\r' {
                i - 1
            } else {
                i
            };
            let ghost old_r = r@;
            r.push((start, end));
            proof {
                assert(strip_cr(s@.subrange(start as int, i as int)) =~= s@.subrange(
                    start as int,
                    end as int,
                ));
                assert(r@.map_values(|p: (usize, usize)| s@.subrange(p.0 as int, p.1 as int))
                    =~= old_r.map_values(
                    |p: (usize, usize)| s@.subrange(p.0 as int, p.1 as int),
                ).push(s@.subrange(start as int, end as int)));
                assert(lines_of(s@) =~= r@.map_values(
                    |p: (usize, usize)| s@.subrange(p.0 as int, p.1 as int),
                ) + lines_from(s@, (i + 1) as int, (i + 1) as int));
            }
            start = i + 1;
        }
        i = i + 1;
    }
    if start < s.len() {
        let ghost old_r = r@;
        r.push((start, s.len()));
        assert(r@.map_values(|p: (usize, usize)| s@.subrange(p.0 as int, p.1 as int))
            =~= old_r.map_values(|p: (usize, usize)| s@.subrange(p.0 as int, p.1 as int)).push(
            s@.subrange(start as int, s.len() as int),
        ));
    }
    proof {
        let m = r@.map_values(|p: (usize, usize)| s@.subrange(p.0 as int, p.1 as int));
        assert(lines_of(s@) =~= m);
        assert forall|k: int| 0 <= k < r.len() implies s@.subrange(
            (#[trigger] r[k]).0 as int,
            r[k].1 as int,
        ) == lines_of(s@)[k] by {
            assert(m[k] == s@.subrange(r[k].0 as int, r[k].1 as int));
        }
    }
    r
}

/// The code of `c` with ASCII capitals taken to small letters, as
/// `to_ascii_lowercase` does.
pub open spec fn folded(c: char) -> u32 {
    if 'A' <= c && c <= 'Z' {
        (c as u32 + 32) as u32
    } else {
        c as u32
    }
}

/// The code of `c` taken to ASCII lower case.
pub fn fold_char(c: char) -> (r: u32)
    ensures
        r == folded(c),
{
    if 'A' <= c && c <= 'Z' {
        c as u32 + 32
    } else {
        c as u32
    }
}

/// `n` occurs in `h` at position `k`, ignoring ASCII case.
pub open spec fn occurs_at(h: Seq<char>, n: Seq<char>, k: int) -> bool {
    &&& 0 <= k
    &&& k + n.len() <= h.len()
    &&& forall|m: int| 0 <= m < n.len() ==> folded(#[trigger] h[k + m]) == folded(n[m])
}

/// `n` is a substring of `h` when both are taken to ASCII lower case.
pub open spec fn contains_folded(h: Seq<char>, n: Seq<char>) -> bool {
    exists|k: int| occurs_at(h, n, k)
}

fn occurs_at_exec(h: &Vec<char>, a: usize, b: usize, n: &Vec<char>, k: usize) -> (r: bool)
    requires
        a <= b <= h.len(),
        k + n.len() <= b - a,
    ensures
        r == occurs_at(h@.subrange(a as int, b as int), n@, k as int),
{
    let ghost hs = h@.subrange(a as int, b as int);
    let mut m: usize = 0;
    while m < n.len()
        invariant
            a <= b <= h.len(),
            k + n.len() <= b - a,
            hs == h@.subrange(a as int, b as int),
            m <= n.len(),
            forall|j: int| 0 <= j < m ==> folded(#[trigger] hs[k + j]) == folded(n@[j]),
        decreases n.len() - m,
    {
        if fold_char(h[a + k + m]) != fold_char(n[m]) {
            assert(hs[k + m] == h@[a + k + m]);
            return false;
        }
        assert(hs[k + m] == h@[a + k + m]);
        m = m + 1;
    }
    true
}

/// Whether `h[a..b]` contains `n`, ignoring ASCII case.
pub fn contains_folded_range(h: &Vec<char>, a: usize, b: usize, n: &Vec<char>) -> (r: bool)
    requires
        a <= b <= h.len(),
    ensures
        r == contains_folded(h@.subrange(a as int, b as int), n@),
{
    let ghost hs = h@.subrange(a as int, b as int);
    if n.len() > b - a {
        assert forall|k: int| !occurs_at(hs, n@, k) by {}
        return false;
    }
    let last: usize = b - a - n.len();
    let mut k: usize = 0;
    while k <= last
        invariant
            a <= b <= h.len(),
            last + n.len() == b - a,
            hs == h@.subrange(a as int, b as int),
            forall|j: int| 0 <= j < k ==> !occurs_at(hs, n@, j),
        decreases last + 1 - k,
    {
        if occurs_at_exec(h, a, b, n, k) {
            return true;
        }
        k = k + 1;
    }
    assert forall|j: int| !occurs_at(hs, n@, j) by {}
    false
}

/// Whether `c` separates the segments of a relative path. Both `/` and the
/// Windows `\` count, so that `..\x` is caught on either platform.
pub open spec fn is_separator(c: char) -> bool {
    c == '/' || c == '\\'
}

/// A segment `..` starts at `k` in `s`: two dots, each end at the start or
/// end of `s` or at a separator.
pub open spec fn parent_segment_at(s: Seq<char>, k: int) -> bool {
    &&& 0 <= k
    &&& k + 2 <= s.len()
    &&& s[k] == '.'
    &&& s[k + 1] == '.'
    &&& (k == 0 || is_separator(s[k - 1]))
    &&& (k + 2 == s.len() || is_separator(s[k + 2]))
}

/// Whether the relative path `s` has a segment `..`.
pub open spec fn has_parent_segment(s: Seq<char>) -> bool {
    exists|k: int| #[trigger] parent_segment_at(s, k)
}

/// Whether the relative path `s` has a segment `..`.
pub fn contains_parent_segment(s: &Vec<char>) -> (r: bool)
    ensures
        r == has_parent_segment(s@),
{
    let mut k: usize = 0;
    while k < s.len() && k + 1 < s.len()
        invariant
            forall|j: int| 0 <= j < k ==> !#[trigger] parent_segment_at(s@, j),
        decreases s.len() - k,
    {
        let starts = k == 0 || s[k - 1] == '/' || s[k - 1] == '\\';
        let ends = k + 2 == s.len() || s[k + 2] == '/' || s[k + 2] == '\\';
        if s[k] == '.' && s[k + 1] == '.' && starts && ends {
            assert(parent_segment_at(s@, k as int));
            return true;
        }
        k = k + 1;
    }
    assert forall|j: int| !#[trigger] parent_segment_at(s@, j) by {}
    false
}

/// The decimal digit for `d < 10`.
pub open spec fn digit(d: nat) -> char {
    if d == 0 { '0' } else if d == 1 { '1' } else if d == 2 { '2' } else if d == 3 { '3' }
    else if d == 4 { '4' } else if d == 5 { '5' } else if d == 6 { '6' } else if d == 7 { '7' }
    else if d == 8 { '8' } else { '9' }
}

/// `n` written in decimal, without leading zeros.
pub open spec fn decimal(n: nat) -> Seq<char>
    decreases n,
{
    if n < 10 {
        seq![digit(n)]
    } else {
        decimal(n / 10).push(digit(n % 10))
    }
}

fn digit_exec(d: usize) -> (r: char)
    requires
        d < 10,
    ensures
        r == digit(d as nat),
{
    match d {
        0 => '0',
        1 => '1',
        2 => '2',
        3 => '3',
        4 => '4',
        5 => '5',
        6 => '6',
        7 => '7',
        8 => '8',
        _ => '9',
    }
}

/// Appends `n` in decimal to `out`.
pub fn push_decimal(out: &mut Vec<char>, n: usize)
    ensures
        final(out)@ == old(out)@ + decimal(n as nat),
    decreases n,
{
    if n < 10 {
        out.push(digit_exec(n));
        assert(final(out)@ =~= old(out)@ + decimal(n as nat));
    } else {
        push_decimal(out, n / 10);
        out.push(digit_exec(n % 10));
        assert(final(out)@ =~= old(out)@ + decimal(n as nat));
    }
}

} // verus!
