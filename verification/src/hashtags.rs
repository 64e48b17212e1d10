//! Hashtag scanning.
//!
//! A hashtag is `#` followed by a letter and then further tag characters,
//! at most 60 characters in all. The `#` must sit at a word boundary: the
//! character before it, if any, must not be a word character (see
//! `boundary_before`). The `#` itself is not
//! part of the reported span or tag text. A candidate whose run of tag
//! characters starts with a non-letter or holds more than 60 characters
//! does not match at all.
//!
//! Tag characters are ASCII letters, digits and the underscore, plus —
//! for multi-byte UTF-8 characters, which count as single characters
//! against the length cap — letters and combining marks as approximated
//! by Unicode block in `is_letter_scalar`: general punctuation, currency
//! and other symbols, emoji, and the supplementary planes are excluded,
//! so `#€` or a `#` before an emoji matches nothing.

use crate::scanning::{boundary_before, boundary_before_check, copy_range, is_ascii_letter,
    is_char_start, is_letter_scalar, is_word_byte, letter_scalar, scalar_at, scalar_step};
use vstd::prelude::*;

verus! {

/// End of the run of tag characters starting at `k`: ASCII word bytes
/// taken one at a time, and non-ASCII characters whole, as long as their
/// scalar is a letter or combining mark.
pub open spec fn tag_run_end(t: Seq<u8>, k: int) -> int
    decreases t.len() - k,
{
    if k < 0 || k >= t.len() {
        k
    } else if t[k] < 0x80 {
        if is_word_byte(t[k]) {
            tag_run_end(t, k + 1)
        } else {
            k
        }
    } else {
        match scalar_at(t, k) {
            Option::None => k,
            Option::Some((c, w)) => if is_letter_scalar(c) {
                proof {
                    assert(1 <= w && k + w <= t.len());
                }
                tag_run_end(t, k + w)
            } else {
                k
            },
        }
    }
}

pub proof fn lemma_tag_run_end(t: Seq<u8>, k: int)
    requires
        0 <= k <= t.len(),
    ensures
        k <= tag_run_end(t, k) <= t.len(),
    decreases t.len() - k,
{
    if 0 <= k < t.len() {
        if t[k] < 0x80 {
            if is_word_byte(t[k]) {
                lemma_tag_run_end(t, k + 1);
            }
        } else {
            match scalar_at(t, k) {
                Option::None => {},
                Option::Some((c, w)) => {
                    if is_letter_scalar(c) {
                        lemma_tag_run_end(t, k + w);
                    }
                },
            }
        }
    }
}

/// Number of character starts in `t[a..b]`.
pub open spec fn char_count(t: Seq<u8>, a: int, b: int) -> int
    decreases b - a,
{
    if a >= b {
        0
    } else {
        char_count(t, a, b - 1) + if is_char_start(t[b - 1]) {
            1int
        } else {
            0int
        }
    }
}

/// Whether the `#` at position `i` starts a hashtag match.
pub open spec fn hashtag_ok(t: Seq<u8>, i: int) -> bool {
    let e = tag_run_end(t, i + 1);
    &&& e > i + 1
    &&& (is_ascii_letter(t[i + 1]) || t[i + 1] >= 0x80)
    &&& char_count(t, i + 1, e) <= 60
}

/// Spans of all hashtags in `t`, scanning left to right; a span covers the
/// tag text only, without the `#`.
pub open spec fn hashtag_spans_from(t: Seq<u8>, i: int) -> Seq<(int, int)>
    decreases t.len() - i,
{
    if i < 0 || i >= t.len() {
        Seq::empty()
    } else if t[i] == 0x23 && (i == 0 || boundary_before(t, i)) && hashtag_ok(t, i) {
        proof {
            lemma_tag_run_end(t, i + 1);
        }
        let e = tag_run_end(t, i + 1);
        seq![(i + 1, e)] + hashtag_spans_from(t, e)
    } else {
        hashtag_spans_from(t, i + 1)
    }
}

pub open spec fn hashtag_spans(t: Seq<u8>) -> Seq<(int, int)> {
    hashtag_spans_from(t, 0)
}

/// One recognised hashtag: the byte span of the tag text (the `#` sits
/// just before `start`), and the tag text itself.
pub struct HashTagSpan {
    pub start: usize,
    pub end: usize,
    pub tag: Vec<u8>,
}

/// End of the run of tag characters starting at `k`.
fn tag_run_end_search(t: &Vec<u8>, k: usize) -> (e: usize)
    requires
        k <= t.len(),
    ensures
        e as int == tag_run_end(t@, k as int),
        k <= e <= t.len(),
{
    let mut m: usize = k;
    while m < t.len()
        invariant
            k <= m <= t.len(),
            tag_run_end(t@, k as int) == tag_run_end(t@, m as int),
        decreases t.len() - m,
    {
        let b = t[m];
        if b < 0x80 {
            if 0x41 <= b && b <= 0x5a || 0x61 <= b && b <= 0x7a || 0x30 <= b && b <= 0x39 || b
                == 0x5f {
                m = m + 1;
            } else {
                assert(tag_run_end(t@, m as int) == m as int);
                return m;
            }
        } else {
            match scalar_step(t, m) {
                Some((c, w)) => {
                    if letter_scalar(c) {
                        proof {
                            assert(tag_run_end(t@, m as int) == tag_run_end(t@, m + w as int));
                        }
                        m = m + w;
                    } else {
                        assert(tag_run_end(t@, m as int) == m as int);
                        return m;
                    }
                },
                None => {
                    assert(tag_run_end(t@, m as int) == m as int);
                    return m;
                },
            }
        }
    }
    m
}

/// Number of character starts in `t[a..b]`.
fn count_chars(t: &Vec<u8>, a: usize, b: usize) -> (c: usize)
    requires
        a <= b <= t.len(),
    ensures
        c as int == char_count(t@, a as int, b as int),
{
    let mut c: usize = 0;
    let mut k: usize = a;
    while k < b
        invariant
            a <= k <= b <= t.len(),
            c as int == char_count(t@, a as int, k as int),
            c <= k - a,
        decreases b - k,
    {
        let byte = t[k];
        if byte < 0x80 || byte >= 0xc0 {
            c = c + 1;
        }
        k = k + 1;
    }
    c
}

/// Scans `text` for hashtags, left to right. Every returned span is the
/// byte range of the tag text, which `tag` repeats.
pub fn parse_hashtags(text: &Vec<u8>) -> (r: Vec<HashTagSpan>)
    ensures
        r@.len() == hashtag_spans(text@).len(),
        forall|k: int|
            0 <= k < r@.len() ==> {
                let sp = #[trigger] hashtag_spans(text@)[k];
                &&& r@[k].start == sp.0
                &&& r@[k].end == sp.1
                &&& r@[k].tag@ == text@.subrange(sp.0, sp.1)
                &&& r@[k].start < r@[k].end <= text@.len()
            },
{
    let mut r: Vec<HashTagSpan> = Vec::new();
    let mut i: usize = 0;
    while i < text.len()
        invariant
            0 <= i <= text.len(),
            hashtag_spans(text@) == hashtag_spans_from(text@, 0),
            hashtag_spans_from(text@, 0) == r@.map_values(
                |m: HashTagSpan| (m.start as int, m.end as int),
            ) + hashtag_spans_from(text@, i as int),
            forall|k: int|
                0 <= k < r@.len() ==> {
                    let sp = #[trigger] hashtag_spans(text@)[k];
                    &&& r@[k].start == sp.0
                    &&& r@[k].end == sp.1
                    &&& r@[k].tag@ == text@.subrange(sp.0, sp.1)
                    &&& r@[k].start < r@[k].end <= text@.len()
                },
        decreases text.len() - i,
    {
        let ghost pre = r@.map_values(|m: HashTagSpan| (m.start as int, m.end as int));
        let mut matched = false;
        if text[i] == 0x23 && (i == 0 || boundary_before_check(text, i)) {
            let e = tag_run_end_search(text, i + 1);
            if e > i + 1 {
                let first = text[i + 1];
                if (0x41 <= first && first <= 0x5a || 0x61 <= first && first <= 0x7a || first
                    >= 0x80) && count_chars(text, i + 1, e) <= 60 {
                    assert(hashtag_ok(text@, i as int));
                    let tag = copy_range(text, i + 1, e);
                    let h = HashTagSpan { start: i + 1, end: e, tag };
                    r.push(h);
                    proof {
                        assert(hashtag_spans_from(text@, i as int) == seq![
                            (i + 1 as int, e as int),
                        ] + hashtag_spans_from(text@, e as int));
                        assert(r@.map_values(|m: HashTagSpan| (m.start as int, m.end as int)) =~= pre
                            + seq![(i + 1 as int, e as int)]);
                        assert(hashtag_spans_from(text@, 0) =~= r@.map_values(
                            |m: HashTagSpan| (m.start as int, m.end as int),
                        ) + hashtag_spans_from(text@, e as int));
                        assert(hashtag_spans(text@)[r@.len() - 1] == (i + 1 as int, e as int));
                    }
                    matched = true;
                    i = e;
                }
            }
        }
        if !matched {
            proof {
                assert(!(text@[i as int] == 0x23 && (i == 0 || boundary_before(
                    text@,
                    i as int,
                )) && hashtag_ok(text@, i as int)));
                assert(hashtag_spans_from(text@, i as int) == hashtag_spans_from(
                    text@,
                    i + 1 as int,
                ));
            }
            i = i + 1;
        }
    }
    proof {
        assert(hashtag_spans_from(text@, i as int) == Seq::<(int, int)>::empty());
        assert(hashtag_spans(text@) =~= r@.map_values(
            |m: HashTagSpan| (m.start as int, m.end as int),
        ));
    }
    r
}

proof fn lemma_hashtag_spans_from_sound(t: Seq<u8>, i: int)
    ensures
        forall|k: int|
            0 <= k < hashtag_spans_from(t, i).len() ==> {
                let sp = #[trigger] hashtag_spans_from(t, i)[k];
                &&& 1 <= sp.0 && sp.0 < sp.1 <= t.len()
                &&& t[sp.0 - 1] == 0x23
                &&& (sp.0 == 1 || boundary_before(t, sp.0 - 1))
                &&& hashtag_ok(t, sp.0 - 1)
                &&& sp.1 == tag_run_end(t, sp.0)
            },
    decreases t.len() - i,
{
    if i < 0 || i >= t.len() {
    } else if t[i] == 0x23 && (i == 0 || boundary_before(t, i)) && hashtag_ok(t, i) {
        lemma_tag_run_end(t, i + 1);
        let e = tag_run_end(t, i + 1);
        lemma_hashtag_spans_from_sound(t, e);
        assert(hashtag_spans_from(t, i) == seq![(i + 1, e)] + hashtag_spans_from(t, e));
        assert forall|k: int| 0 <= k < hashtag_spans_from(t, i).len() implies {
            let sp = #[trigger] hashtag_spans_from(t, i)[k];
            &&& 1 <= sp.0 && sp.0 < sp.1 <= t.len()
            &&& t[sp.0 - 1] == 0x23
            &&& (sp.0 == 1 || boundary_before(t, sp.0 - 1))
            &&& hashtag_ok(t, sp.0 - 1)
            &&& sp.1 == tag_run_end(t, sp.0)
        } by {
            if k == 0 {
                assert(hashtag_spans_from(t, i)[0] == (i + 1, e));
            } else {
                assert(hashtag_spans_from(t, i)[k] == hashtag_spans_from(t, e)[k - 1]);
            }
        }
    } else {
        lemma_hashtag_spans_from_sound(t, i + 1);
        assert(hashtag_spans_from(t, i) == hashtag_spans_from(t, i + 1));
    }
}

/// No false hashtags: every reported span follows a `#` at a word
/// boundary, starts with a letter, covers only whole tag characters, and
/// respects the length cap. A bare `#` with nothing after it is never
/// reported.
pub proof fn lemma_hashtag_spans_sound(t: Seq<u8>)
    ensures
        forall|k: int|
            0 <= k < hashtag_spans(t).len() ==> {
                let sp = #[trigger] hashtag_spans(t)[k];
                &&& 1 <= sp.0 && sp.0 < sp.1 <= t.len()
                &&& t[sp.0 - 1] == 0x23
                &&& (sp.0 == 1 || boundary_before(t, sp.0 - 1))
                &&& hashtag_ok(t, sp.0 - 1)
                &&& sp.1 == tag_run_end(t, sp.0)
            },
{
    lemma_hashtag_spans_from_sound(t, 0);
}


/// In valid UTF-8, stepping over the well-formed character at a boundary
/// lands on the next boundary.
proof fn lemma_boundary_scalar_step(t: Seq<u8>, k: int, c: int, w: int)
    requires
        vstd::utf8::valid_utf8(t),
        0 <= k < t.len(),
        vstd::utf8::is_char_boundary(t, k),
        t[k] >= 0x80,
        scalar_at(t, k) == Some((c, w)),
    ensures
        vstd::utf8::is_char_boundary(t, k + w),
    decreases t.len(),
{
    let l = vstd::utf8::length_of_first_scalar(t);
    assert(vstd::utf8::valid_first_scalar(t));
    assert(1 <= l && l <= t.len());
    if k == 0 {
        assert(l == w);
        let q = vstd::utf8::pop_first_scalar(t);
        assert(vstd::utf8::is_char_boundary(q, 0));
    } else {
        let q = vstd::utf8::pop_first_scalar(t);
        assert(q.len() == t.len() - l);
        if k - l < 0 {
            assert(!vstd::utf8::is_char_boundary(q, k - l));
            assert(false);
        }
        assert(forall|m: int| 0 <= m < q.len() ==> q[m] == #[trigger] t[l + m]);
        assert(scalar_at(q, k - l) == Some((c, w)));
        lemma_boundary_scalar_step(q, k - l, c, w);
    }
}

/// In valid UTF-8, a tag run that starts at a character boundary also
/// ends at one: it advances over whole characters only.
pub proof fn lemma_tag_run_end_boundary(t: Seq<u8>, k: int)
    requires
        vstd::utf8::valid_utf8(t),
        0 <= k <= t.len(),
        vstd::utf8::is_char_boundary(t, k),
    ensures
        vstd::utf8::is_char_boundary(t, tag_run_end(t, k)),
    decreases t.len() - k,
{
    if 0 <= k < t.len() {
        if t[k] < 0x80 {
            if is_word_byte(t[k]) {
                crate::scanning::lemma_boundary_after_ascii(t, k);
                lemma_tag_run_end_boundary(t, k + 1);
            }
        } else {
            match scalar_at(t, k) {
                Option::None => {},
                Option::Some((c, w)) => {
                    if is_letter_scalar(c) {
                        lemma_boundary_scalar_step(t, k, c, w);
                        lemma_tag_run_end_boundary(t, k + w);
                    }
                },
            }
        }
    }
}

} // verus!
