//! Link scanning.
//!
//! A link is `http://` or `https://` (case-insensitive), followed by a
//! non-empty body of safe URL bytes whose host part — everything up to
//! the first `/`, or the whole body when there is none — holds at least
//! one interior dot, and that does not end in trailing punctuation such
//! as `.`, `?`, `&` or `:`. As with mentions, a link is only recognised
//! at a word boundary: the character just before the scheme must not be
//! a word character (see `boundary_before`), and it is not part of the
//! match, so a link at the very start of the text is not recognised.
//! Each match is greedy: it extends as far as the grammar allows.

use crate::scanning::{boundary_before, boundary_before_check, copy_range, is_alnum};
use vstd::prelude::*;

verus! {

/// Bytes allowed in the body of a link: letters, digits, and
/// `- ( ) @ : % _ + . ~ # ? & / =`.
pub open spec fn is_link_body_byte(b: u8) -> bool {
    ||| is_alnum(b)
    ||| b == 0x2d
    ||| b == 0x28
    ||| b == 0x29
    ||| b == 0x40
    ||| b == 0x3a
    ||| b == 0x25
    ||| b == 0x5f
    ||| b == 0x2b
    ||| b == 0x2e
    ||| b == 0x7e
    ||| b == 0x23
    ||| b == 0x3f
    ||| b == 0x26
    ||| b == 0x2f
    ||| b == 0x3d
}

/// Bytes a link may end with: as the body class, but without trailing
/// punctuation `. ? & : ( )`.
pub open spec fn is_link_end_byte(b: u8) -> bool {
    ||| is_alnum(b)
    ||| b == 0x2d
    ||| b == 0x40
    ||| b == 0x25
    ||| b == 0x5f
    ||| b == 0x2b
    ||| b == 0x7e
    ||| b == 0x23
    ||| b == 0x2f
    ||| b == 0x3d
}

pub open spec fn to_lower(b: u8) -> u8 {
    if 0x41 <= b && b <= 0x5a {
        (b + 0x20) as u8
    } else {
        b
    }
}

/// Length of the scheme `http://` or `https://` at position `i`, if one
/// starts there (compared case-insensitively).
pub open spec fn scheme_len_at(t: Seq<u8>, i: int) -> Option<int> {
    if 0 <= i && i + 7 <= t.len() && to_lower(t[i]) == 0x68 && to_lower(t[i + 1]) == 0x74
        && to_lower(t[i + 2]) == 0x74 && to_lower(t[i + 3]) == 0x70 && t[i + 4] == 0x3a && t[i + 5]
        == 0x2f && t[i + 6] == 0x2f {
        Some(7int)
    } else if 0 <= i && i + 8 <= t.len() && to_lower(t[i]) == 0x68 && to_lower(t[i + 1]) == 0x74
        && to_lower(t[i + 2]) == 0x74 && to_lower(t[i + 3]) == 0x70 && to_lower(t[i + 4]) == 0x73
        && t[i + 5] == 0x3a && t[i + 6] == 0x2f && t[i + 7] == 0x2f {
        Some(8int)
    } else {
        None
    }
}

/// End of the host part of a link body: the first `/` at or after `k`
/// and before `j`, or `j` when there is none. Byte 0x2f is `/`.
pub open spec fn host_end(t: Seq<u8>, k: int, j: int) -> int
    decreases j - k,
{
    if k < 0 || k >= j {
        j
    } else if t[k] == 0x2f {
        k
    } else {
        host_end(t, k + 1, j)
    }
}

pub proof fn lemma_host_end(t: Seq<u8>, k: int, j: int)
    requires
        0 <= k <= j,
    ensures
        k <= host_end(t, k, j) <= j,
        host_end(t, k, j) < j ==> t[host_end(t, k, j)] == 0x2f,
        forall|m: int| k <= m < host_end(t, k, j) ==> t[m] != 0x2f,
    decreases j - k,
{
    if k < j && t[k] != 0x2f {
        lemma_host_end(t, k + 1, j);
        assert forall|m: int| k <= m < host_end(t, k, j) implies t[m] != 0x2f by {}
    }
}

/// `host_end` is pinned down by the properties checked at run time.
pub proof fn lemma_host_end_unique(t: Seq<u8>, k: int, j: int, he: int)
    requires
        0 <= k <= he <= j,
        he < j ==> t[he] == 0x2f,
        forall|m: int| k <= m < he ==> t[m] != 0x2f,
    ensures
        host_end(t, k, j) == he,
    decreases j - k,
{
    if k < j && t[k] != 0x2f {
        lemma_host_end_unique(t, k + 1, j, he);
    }
}

/// Whether `t[i..j]` is a complete link match: a scheme, then body bytes
/// from the safe class, a dot inside the host part, and an allowed final
/// byte.
pub open spec fn is_link_at(t: Seq<u8>, i: int, j: int) -> bool {
    match scheme_len_at(t, i) {
        None => false,
        Some(p) => {
            &&& j <= t.len()
            &&& i + p < j
            &&& (forall|k: int| i + p <= k < j ==> is_link_body_byte(#[trigger] t[k]))
            &&& (exists|d: int| i + p + 1 <= d < host_end(t, i + p, j) && t[d] == 0x2e)
            &&& is_link_end_byte(t[j - 1])
        },
    }
}

/// The largest `k` with `i < k <= j` such that `t[i..k]` is a link, if
/// any.
pub open spec fn link_end_from(t: Seq<u8>, i: int, j: int) -> Option<int>
    decreases j - i,
{
    if j <= i {
        None
    } else if is_link_at(t, i, j) {
        Some(j)
    } else {
        link_end_from(t, i, j - 1)
    }
}

pub proof fn lemma_link_end_bounds(t: Seq<u8>, i: int, j: int)
    ensures
        link_end_from(t, i, j) matches Some(k) ==> i < k <= j,
    decreases j - i,
{
    if j <= i {
    } else if is_link_at(t, i, j) {
    } else {
        lemma_link_end_bounds(t, i, j - 1);
    }
}

/// Spans of all links in `t`, scanning left to right.
pub open spec fn url_spans_from(t: Seq<u8>, i: int) -> Seq<(int, int)>
    decreases t.len() - i,
{
    if i < 0 || i >= t.len() {
        Seq::empty()
    } else if boundary_before(t, i) && link_end_from(t, i, t.len() as int) is Some {
        proof {
            lemma_link_end_bounds(t, i, t.len() as int);
        }
        let j = link_end_from(t, i, t.len() as int)->Some_0;
        seq![(i, j)] + url_spans_from(t, j)
    } else {
        url_spans_from(t, i + 1)
    }
}

pub open spec fn url_spans(t: Seq<u8>) -> Seq<(int, int)> {
    url_spans_from(t, 0)
}

/// One recognised link: the byte span of the match and the matched URL
/// text.
pub struct URLSpan {
    pub start: usize,
    pub end: usize,
    pub url: Vec<u8>,
}

fn lower_byte(b: u8) -> (r: u8)
    ensures
        r == to_lower(b),
{
    if 0x41 <= b && b <= 0x5a {
        b + 0x20
    } else {
        b
    }
}

/// Length of the scheme at position `i`: 7, 8, or 0 when there is none.
fn scheme_len_search(t: &Vec<u8>, i: usize) -> (p: usize)
    requires
        i <= t.len(),
    ensures
        p == 0 ==> scheme_len_at(t@, i as int) is None,
        p != 0 ==> scheme_len_at(t@, i as int) == Some(p as int),
{
    if t.len() >= 7 && i <= t.len() - 7 && lower_byte(t[i]) == 0x68 && lower_byte(t[i + 1]) == 0x74
        && lower_byte(t[i + 2]) == 0x74 && lower_byte(t[i + 3]) == 0x70 && t[i + 4] == 0x3a && t[i
        + 5] == 0x2f && t[i + 6] == 0x2f {
        7
    } else if t.len() >= 8 && i <= t.len() - 8 && lower_byte(t[i]) == 0x68 && lower_byte(t[i + 1])
        == 0x74
        && lower_byte(t[i + 2]) == 0x74 && lower_byte(t[i + 3]) == 0x70 && lower_byte(t[i + 4])
        == 0x73 && t[i + 5] == 0x3a && t[i + 6] == 0x2f && t[i + 7] == 0x2f {
        8
    } else {
        0
    }
}

/// Finds the first `/` at or after `i` and before `j`.
fn find_slash(t: &Vec<u8>, i: usize, j: usize) -> (d: usize)
    requires
        i <= j <= t.len(),
    ensures
        i <= d <= j,
        d < j ==> t@[d as int] == 0x2f,
        forall|m: int| i <= m < d ==> t@[m] != 0x2f,
{
    let mut d: usize = i;
    while d < j
        invariant
            i <= d <= j <= t.len(),
            forall|m: int| i <= m < d ==> t@[m] != 0x2f,
        decreases j - d,
    {
        if t[d] == 0x2f {
            return d;
        }
        d = d + 1;
    }
    d
}

/// Checks `is_link_at(t, i, j)`.
fn check_link_at(t: &Vec<u8>, i: usize, j: usize) -> (r: bool)
    requires
        i <= j <= t.len(),
    ensures
        r == is_link_at(t@, i as int, j as int),
{
    let p = scheme_len_search(t, i);
    if p == 0 {
        return false;
    }
    if !(i + p < j) {
        return false;
    }
    let he = find_slash(t, i + p, j);
    proof {
        lemma_host_end_unique(t@, i + p as int, j as int, he as int);
    }
    let last = t[j - 1];
    if !(0x41 <= last && last <= 0x5a || 0x61 <= last && last <= 0x7a || 0x30 <= last && last
        <= 0x39 || last == 0x2d || last == 0x40 || last == 0x25 || last == 0x5f || last == 0x2b
        || last == 0x7e || last == 0x23 || last == 0x2f || last == 0x3d) {
        return false;
    }
    let mut dot = false;
    let mut k: usize = i + p;
    while k < j
        invariant
            i + p <= k <= j <= t.len(),
            i + p <= he <= j,
            he as int == host_end(t@, i + p as int, j as int),
            forall|m: int| i + p <= m < k ==> is_link_body_byte(#[trigger] t@[m]),
            dot == exists|d: int| i + p + 1 <= d < k && d < he && t@[d] == 0x2e,
        decreases j - k,
    {
        let b = t[k];
        if !(0x41 <= b && b <= 0x5a || 0x61 <= b && b <= 0x7a || 0x30 <= b && b <= 0x39 || b
            == 0x2d || b == 0x28 || b == 0x29 || b == 0x40 || b == 0x3a || b == 0x25 || b == 0x5f
            || b == 0x2b || b == 0x2e || b == 0x7e || b == 0x23 || b == 0x3f || b == 0x26 || b
            == 0x2f || b == 0x3d) {
            assert(!is_link_body_byte(t@[k as int]));
            return false;
        }
        if k > i + p && k < he && b == 0x2e {
            dot = true;
        }
        k = k + 1;
    }
    dot
}

/// The largest `k <= j` such that `t[i..k]` is a link.
fn link_end_search(t: &Vec<u8>, i: usize) -> (r: Option<usize>)
    requires
        i < t.len(),
    ensures
        ({
            let m = link_end_from(t@, i as int, t@.len() as int);
            &&& (r is Some <==> m is Some)
            &&& (r matches Some(j) ==> i < j <= t.len() && m == Some(j as int))
        }),
{
    let mut j: usize = t.len();
    while j > i
        invariant
            i <= j <= t.len(),
            link_end_from(t@, i as int, t@.len() as int) == link_end_from(t@, i as int, j as int),
        decreases j,
    {
        if check_link_at(t, i, j) {
            proof {
                lemma_link_end_bounds(t@, i as int, j as int);
            }
            return Some(j);
        }
        j = j - 1;
    }
    None
}

/// Scans `text` for links, left to right. Every returned span is the byte
/// range of the match, which `url` repeats.
pub fn parse_urls(text: &Vec<u8>) -> (r: Vec<URLSpan>)
    ensures
        r@.len() == url_spans(text@).len(),
        forall|k: int|
            0 <= k < r@.len() ==> {
                let sp = #[trigger] url_spans(text@)[k];
                &&& r@[k].start == sp.0
                &&& r@[k].end == sp.1
                &&& r@[k].url@ == text@.subrange(sp.0, sp.1)
                &&& r@[k].start < r@[k].end <= text@.len()
            },
{
    let mut r: Vec<URLSpan> = Vec::new();
    let mut i: usize = 0;
    while i < text.len()
        invariant
            0 <= i <= text.len(),
            url_spans(text@) == url_spans_from(text@, 0),
            url_spans_from(text@, 0) == r@.map_values(|m: URLSpan| (m.start as int, m.end as int))
                + url_spans_from(text@, i as int),
            forall|k: int|
                0 <= k < r@.len() ==> {
                    let sp = #[trigger] url_spans(text@)[k];
                    &&& r@[k].start == sp.0
                    &&& r@[k].end == sp.1
                    &&& r@[k].url@ == text@.subrange(sp.0, sp.1)
                &&& r@[k].start < r@[k].end <= text@.len()
                },
        decreases text.len() - i,
    {
        let ghost pre = r@.map_values(|m: URLSpan| (m.start as int, m.end as int));
        let mut advanced = false;
        if i >= 1 && boundary_before_check(text, i) {
            match link_end_search(text, i) {
                Some(j) => {
                    let url = copy_range(text, i, j);
                    let u = URLSpan { start: i, end: j, url };
                    r.push(u);
                    proof {
                        assert(url_spans_from(text@, i as int) == seq![(i as int, j as int)]
                            + url_spans_from(text@, j as int));
                        assert(r@.map_values(|m: URLSpan| (m.start as int, m.end as int)) =~= pre
                            + seq![(i as int, j as int)]);
                        assert(url_spans_from(text@, 0) =~= r@.map_values(
                            |m: URLSpan| (m.start as int, m.end as int),
                        ) + url_spans_from(text@, j as int));
                        assert(url_spans(text@)[r@.len() - 1] == (i as int, j as int));
                    }
                    advanced = true;
                    i = j;
                },
                None => {},
            }
        }
        if !advanced {
            proof {
                assert(url_spans_from(text@, i as int) == url_spans_from(text@, i + 1 as int));
            }
            i = i + 1;
        }
    }
    proof {
        assert(url_spans_from(text@, i as int) == Seq::<(int, int)>::empty());
        assert(url_spans(text@) =~= r@.map_values(|m: URLSpan| (m.start as int, m.end as int)));
    }
    r
}


proof fn lemma_link_end_is_link(t: Seq<u8>, i: int, j: int)
    ensures
        link_end_from(t, i, j) matches Some(k) ==> is_link_at(t, i, k),
    decreases j - i,
{
    if j <= i {
    } else if is_link_at(t, i, j) {
    } else {
        lemma_link_end_is_link(t, i, j - 1);
    }
}

proof fn lemma_url_spans_from_sound(t: Seq<u8>, i: int)
    ensures
        forall|k: int|
            0 <= k < url_spans_from(t, i).len() ==> {
                let sp = #[trigger] url_spans_from(t, i)[k];
                &&& 1 <= sp.0 && sp.0 < sp.1 <= t.len()
                &&& boundary_before(t, sp.0)
                &&& is_link_at(t, sp.0, sp.1)
            },
    decreases t.len() - i,
{
    if i < 0 || i >= t.len() {
    } else if boundary_before(t, i) && link_end_from(t, i, t.len() as int) is Some {
        lemma_link_end_bounds(t, i, t.len() as int);
        lemma_link_end_is_link(t, i, t.len() as int);
        let j = link_end_from(t, i, t.len() as int)->Some_0;
        lemma_url_spans_from_sound(t, j);
        assert(url_spans_from(t, i) == seq![(i, j)] + url_spans_from(t, j));
        assert forall|k: int| 0 <= k < url_spans_from(t, i).len() implies {
            let sp = #[trigger] url_spans_from(t, i)[k];
            &&& 1 <= sp.0 && sp.0 < sp.1 <= t.len()
            &&& boundary_before(t, sp.0)
            &&& is_link_at(t, sp.0, sp.1)
        } by {
            if k == 0 {
                assert(url_spans_from(t, i)[0] == (i, j));
            } else {
                assert(url_spans_from(t, i)[k] == url_spans_from(t, j)[k - 1]);
            }
        }
    } else {
        lemma_url_spans_from_sound(t, i + 1);
        assert(url_spans_from(t, i) == url_spans_from(t, i + 1));
    }
}

/// No false links: every reported span sits at a word boundary and is a
/// complete scheme-plus-body link match.
pub proof fn lemma_url_spans_sound(t: Seq<u8>)
    ensures
        forall|k: int|
            0 <= k < url_spans(t).len() ==> {
                let sp = #[trigger] url_spans(t)[k];
                &&& 1 <= sp.0 && sp.0 < sp.1 <= t.len()
                &&& boundary_before(t, sp.0)
                &&& is_link_at(t, sp.0, sp.1)
            },
{
    lemma_url_spans_from_sound(t, 0);
}

} // verus!
