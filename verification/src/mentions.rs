//! Mention scanning.
//!
//! A mention is `@` followed by two or more dot-separated DNS-like labels:
//! the leading labels start and end with an ASCII letter or digit and may
//! hold hyphens in between, the final label starts with a letter, and every
//! label is at most 63 bytes long. A mention is only recognised at a word
//! boundary: the character just before the `@` must not be a word
//! character (see `boundary_before`), and it is not part of the match; a
//! mention at the very start of the text is therefore not recognised. Each match is greedy: it extends as far as the handle
//! grammar allows.
//!
//! All positions are byte offsets into the UTF-8 encoding of the text.

use crate::scanning::{boundary_before, boundary_before_check, copy_range, find_dot, first_dot,
    is_alnum, is_ascii_letter, lemma_first_dot, lemma_first_dot_unique};
use vstd::prelude::*;

verus! {

/// Byte 0x2e is `.`; byte 0x40 is `@`; byte 0x2d is `-`.
pub open spec fn is_label_byte(b: u8) -> bool {
    is_alnum(b) || b == 0x2d
}

/// A leading handle label: alphanumeric at both ends, hyphens allowed
/// inside, between 1 and 63 bytes.
pub open spec fn valid_label(s: Seq<u8>) -> bool {
    &&& 1 <= s.len() <= 63
    &&& is_alnum(s[0])
    &&& is_alnum(s[s.len() - 1])
    &&& forall|k: int| 0 <= k < s.len() ==> is_label_byte(#[trigger] s[k])
}

/// The final handle label: as `valid_label`, but it must start with a
/// letter.
pub open spec fn valid_final_label(s: Seq<u8>) -> bool {
    &&& 1 <= s.len() <= 63
    &&& is_ascii_letter(s[0])
    &&& is_alnum(s[s.len() - 1])
    &&& forall|k: int| 0 <= k < s.len() ==> is_label_byte(#[trigger] s[k])
}

/// One or more dot-separated labels ending in a final label. Since labels
/// never hold dots, the decomposition at the first dot is forced.
pub open spec fn is_label_seq(s: Seq<u8>) -> bool
    decreases s.len(),
{
    let d = first_dot(s);
    if d == s.len() {
        valid_final_label(s)
    } else {
        proof {
            lemma_first_dot(s);
        }
        valid_label(s.take(d)) && is_label_seq(s.skip(d + 1))
    }
}

/// A full mention match: `@`, then at least two dot-separated labels.
pub open spec fn is_handle(s: Seq<u8>) -> bool {
    &&& s.len() >= 2
    &&& s[0] == 0x40
    &&& first_dot(s.skip(1)) < s.skip(1).len()
    &&& is_label_seq(s.skip(1))
}

/// The largest `k` with `i < k <= j` such that `t[i..k]` is a handle,
/// if any.
pub open spec fn mention_end_from(t: Seq<u8>, i: int, j: int) -> Option<int>
    decreases j - i,
{
    if j <= i {
        None
    } else if is_handle(t.subrange(i, j)) {
        Some(j)
    } else {
        mention_end_from(t, i, j - 1)
    }
}

pub proof fn lemma_mention_end_bounds(t: Seq<u8>, i: int, j: int)
    ensures
        mention_end_from(t, i, j) matches Some(k) ==> i < k <= j,
    decreases j - i,
{
    if j <= i {
    } else if is_handle(t.subrange(i, j)) {
    } else {
        lemma_mention_end_bounds(t, i, j - 1);
    }
}

/// Spans of all mentions in `t`, scanning left to right; after a match the
/// scan resumes at the match end, so matches never overlap.
pub open spec fn mention_spans_from(t: Seq<u8>, i: int) -> Seq<(int, int)>
    decreases t.len() - i,
{
    if i < 0 || i >= t.len() {
        Seq::empty()
    } else if t[i] == 0x40 && boundary_before(t, i) && mention_end_from(
        t,
        i,
        t.len() as int,
    ) is Some {
        proof {
            lemma_mention_end_bounds(t, i, t.len() as int);
        }
        let j = mention_end_from(t, i, t.len() as int)->Some_0;
        seq![(i, j)] + mention_spans_from(t, j)
    } else {
        mention_spans_from(t, i + 1)
    }
}

pub open spec fn mention_spans(t: Seq<u8>) -> Seq<(int, int)> {
    mention_spans_from(t, 0)
}

/// One recognised mention: the span of the match in bytes (`start` is the
/// `@`), and the handle text without the leading `@`.
pub struct MentionSpan {
    pub start: usize,
    pub end: usize,
    pub handle: Vec<u8>,
}

/// Checks `valid_label(t[i..j])`, or `valid_final_label` when `fin` is set.
fn check_label(t: &Vec<u8>, i: usize, j: usize, fin: bool) -> (r: bool)
    requires
        i <= j <= t.len(),
    ensures
        !fin ==> r == valid_label(t@.subrange(i as int, j as int)),
        fin ==> r == valid_final_label(t@.subrange(i as int, j as int)),
{
    let ghost s = t@.subrange(i as int, j as int);
    if j - i < 1 || j - i > 63 {
        return false;
    }
    let first = t[i];
    let first_ok = if fin {
        0x41 <= first && first <= 0x5a || 0x61 <= first && first <= 0x7a
    } else {
        0x41 <= first && first <= 0x5a || 0x61 <= first && first <= 0x7a || 0x30 <= first && first
            <= 0x39
    };
    if !first_ok {
        return false;
    }
    let last = t[j - 1];
    if !(0x41 <= last && last <= 0x5a || 0x61 <= last && last <= 0x7a || 0x30 <= last && last
        <= 0x39) {
        assert(s[s.len() - 1] == t@[j - 1]);
        return false;
    }
    let mut k: usize = i;
    while k < j
        invariant
            1 <= j - i <= 63,
            i <= k <= j <= t.len(),
            forall|m: int| i <= m < k ==> is_label_byte(#[trigger] t@[m]),
        decreases j - k,
    {
        let b = t[k];
        if !(0x41 <= b && b <= 0x5a || 0x61 <= b && b <= 0x7a || 0x30 <= b && b <= 0x39 || b
            == 0x2d) {
            assert(t@.subrange(i as int, j as int)[k - i] == t@[k as int]);
            return false;
        }
        k = k + 1;
    }
    assert(forall|m: int| 0 <= m < s.len() ==> s[m] == t@[i + m]);
    true
}

/// Checks `is_label_seq(t[i..j])`.
fn check_label_seq(t: &Vec<u8>, i: usize, j: usize) -> (r: bool)
    requires
        i <= j <= t.len(),
    ensures
        r == is_label_seq(t@.subrange(i as int, j as int)),
    decreases j - i,
{
    let ghost s = t@.subrange(i as int, j as int);
    let d = find_dot(t, i, j);
    proof {
        assert(forall|m: int| 0 <= m < s.len() ==> s[m] == t@[i + m]);
        lemma_first_dot_unique(s, d - i);
    }
    if d == j {
        check_label(t, i, j, true)
    } else {
        if !check_label(t, i, d, false) {
            assert(s.take(d - i) =~= t@.subrange(i as int, d as int));
            return false;
        }
        assert(s.take(d - i) =~= t@.subrange(i as int, d as int));
        assert(s.skip(d - i + 1) =~= t@.subrange(d + 1 as int, j as int));
        check_label_seq(t, d + 1, j)
    }
}

/// Checks `is_handle(t[i..j])`.
fn check_handle(t: &Vec<u8>, i: usize, j: usize) -> (r: bool)
    requires
        i <= j <= t.len(),
    ensures
        r == is_handle(t@.subrange(i as int, j as int)),
{
    let ghost s = t@.subrange(i as int, j as int);
    if j - i < 2 {
        return false;
    }
    if t[i] != 0x40 {
        return false;
    }
    proof {
        assert(s.skip(1) =~= t@.subrange(i + 1 as int, j as int));
    }
    let d = find_dot(t, i + 1, j);
    proof {
        lemma_first_dot_unique(s.skip(1), d - (i + 1));
    }
    if d == j {
        return false;
    }
    check_label_seq(t, i + 1, j)
}

/// The largest `k <= j` such that `t[i..k]` is a handle.
fn mention_end_search(t: &Vec<u8>, i: usize) -> (r: Option<usize>)
    requires
        i < t.len(),
    ensures
        ({
            let m = mention_end_from(t@, i as int, t@.len() as int);
            &&& (r is Some <==> m is Some)
            &&& (r matches Some(j) ==> i < j <= t.len() && m == Some(j as int))
        }),
{
    let mut j: usize = t.len();
    while j > i
        invariant
            i <= j <= t.len(),
            mention_end_from(t@, i as int, t@.len() as int) == mention_end_from(
                t@,
                i as int,
                j as int,
            ),
        decreases j,
    {
        if check_handle(t, i, j) {
            proof {
                lemma_mention_end_bounds(t@, i as int, j as int);
            }
            return Some(j);
        }
        j = j - 1;
    }
    None
}

/// Scans `text` for mentions, left to right. Every returned span is a
/// byte range of the match (starting at the `@`), and `handle` is the
/// matched text without the `@`.
pub fn parse_mentions(text: &Vec<u8>) -> (r: Vec<MentionSpan>)
    ensures
        r@.len() == mention_spans(text@).len(),
        forall|k: int|
            0 <= k < r@.len() ==> {
                let sp = #[trigger] mention_spans(text@)[k];
                &&& r@[k].start == sp.0
                &&& r@[k].end == sp.1
                &&& r@[k].handle@ == text@.subrange(sp.0 + 1, sp.1)
                &&& r@[k].start < r@[k].end <= text@.len()
            },
{
    let mut r: Vec<MentionSpan> = Vec::new();
    let mut i: usize = 0;
    while i < text.len()
        invariant
            0 <= i <= text.len(),
            mention_spans(text@) == mention_spans_from(text@, 0),
            mention_spans_from(text@, 0) == r@.map_values(|m: MentionSpan| (m.start as int, m.end as int))
                + mention_spans_from(text@, i as int),
            forall|k: int|
                0 <= k < r@.len() ==> {
                    let sp = #[trigger] mention_spans(text@)[k];
                    &&& r@[k].start == sp.0
                    &&& r@[k].end == sp.1
                    &&& r@[k].handle@ == text@.subrange(sp.0 + 1, sp.1)
                &&& r@[k].start < r@[k].end <= text@.len()
                },
        decreases text.len() - i,
    {
        let ghost pre = r@.map_values(|m: MentionSpan| (m.start as int, m.end as int));
        if text[i] == 0x40 && i >= 1 && boundary_before_check(text, i) {
            match mention_end_search(text, i) {
                Some(j) => {
                    let handle = copy_range(text, i + 1, j);
                    let m = MentionSpan { start: i, end: j, handle };
                    r.push(m);
                    proof {
                        assert(mention_spans_from(text@, i as int) == seq![
                            (i as int, j as int),
                        ] + mention_spans_from(text@, j as int));
                        assert(r@.map_values(|m: MentionSpan| (m.start as int, m.end as int)) =~= pre
                            + seq![(i as int, j as int)]);
                        assert(mention_spans_from(text@, 0) =~= r@.map_values(
                            |m: MentionSpan| (m.start as int, m.end as int),
                        ) + mention_spans_from(text@, j as int));
                        assert(pre.len() == r@.len() - 1);
                        assert(mention_spans(text@)[r@.len() - 1] == (i as int, j as int));
                    }
                    i = j;
                },
                None => {
                    proof {
                        assert(mention_spans_from(text@, i as int) == mention_spans_from(
                            text@,
                            i + 1 as int,
                        ));
                    }
                    i = i + 1;
                },
            }
        } else {
            proof {
                assert(mention_spans_from(text@, i as int) == mention_spans_from(
                    text@,
                    i + 1 as int,
                ));
            }
            i = i + 1;
        }
    }
    proof {
        assert(mention_spans_from(text@, i as int) == Seq::<(int, int)>::empty());
        assert(mention_spans(text@) =~= r@.map_values(
            |m: MentionSpan| (m.start as int, m.end as int),
        ));
    }
    r
}


proof fn lemma_mention_end_is_handle(t: Seq<u8>, i: int, j: int)
    ensures
        mention_end_from(t, i, j) matches Some(k) ==> is_handle(t.subrange(i, k)),
    decreases j - i,
{
    if j <= i {
    } else if is_handle(t.subrange(i, j)) {
    } else {
        lemma_mention_end_is_handle(t, i, j - 1);
    }
}

proof fn lemma_mention_spans_from_sound(t: Seq<u8>, i: int)
    ensures
        forall|k: int|
            0 <= k < mention_spans_from(t, i).len() ==> {
                let sp = #[trigger] mention_spans_from(t, i)[k];
                &&& 1 <= sp.0 && sp.0 < sp.1 <= t.len()
                &&& t[sp.0] == 0x40
                &&& boundary_before(t, sp.0)
                &&& is_handle(t.subrange(sp.0, sp.1))
            },
    decreases t.len() - i,
{
    if i < 0 || i >= t.len() {
    } else if t[i] == 0x40 && boundary_before(t, i) && mention_end_from(
        t,
        i,
        t.len() as int,
    ) is Some {
        lemma_mention_end_bounds(t, i, t.len() as int);
        lemma_mention_end_is_handle(t, i, t.len() as int);
        let j = mention_end_from(t, i, t.len() as int)->Some_0;
        lemma_mention_spans_from_sound(t, j);
        assert(mention_spans_from(t, i) == seq![(i, j)] + mention_spans_from(t, j));
        assert forall|k: int| 0 <= k < mention_spans_from(t, i).len() implies {
            let sp = #[trigger] mention_spans_from(t, i)[k];
            &&& 1 <= sp.0 && sp.0 < sp.1 <= t.len()
            &&& t[sp.0] == 0x40
            &&& boundary_before(t, sp.0)
            &&& is_handle(t.subrange(sp.0, sp.1))
        } by {
            if k == 0 {
                assert(mention_spans_from(t, i)[0] == (i, j));
            } else {
                assert(mention_spans_from(t, i)[k] == mention_spans_from(t, j)[k - 1]);
            }
        }
    } else {
        lemma_mention_spans_from_sound(t, i + 1);
        assert(mention_spans_from(t, i) == mention_spans_from(t, i + 1));
    }
}

/// No false mentions: every reported span starts at an `@` at a word
/// boundary and covers a well-formed handle. In particular, an address-like string embedded in a word
/// (`[email protected]` right after a letter) is never reported.
pub proof fn lemma_mention_spans_sound(t: Seq<u8>)
    ensures
        forall|k: int|
            0 <= k < mention_spans(t).len() ==> {
                let sp = #[trigger] mention_spans(t)[k];
                &&& 1 <= sp.0 && sp.0 < sp.1 <= t.len()
                &&& t[sp.0] == 0x40
                &&& boundary_before(t, sp.0)
                &&& is_handle(t.subrange(sp.0, sp.1))
            },
{
    lemma_mention_spans_from_sound(t, 0);
}


/// A label sequence is non-empty and ends in an alphanumeric byte.
pub proof fn lemma_label_seq_last(s: Seq<u8>)
    requires
        is_label_seq(s),
    ensures
        s.len() >= 1 && is_alnum(s[s.len() - 1]),
    decreases s.len(),
{
    let d = first_dot(s);
    if d == s.len() {
    } else {
        lemma_first_dot(s);
        lemma_label_seq_last(s.skip(d + 1));
        assert(s.skip(d + 1)[s.skip(d + 1).len() - 1] == s[s.len() - 1]);
    }
}

} // verus!
