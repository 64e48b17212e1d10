//! Byte-level character classes shared by the rich-text scanners.
//!
//! All scanning works on the UTF-8 bytes of the post text, so that the
//! spans handed back index into the byte buffer directly. ASCII letters,
//! digits and the underscore are word bytes. Multi-byte characters are
//! classified whole, by their decoded scalar: letters and combining
//! marks (as `is_letter_scalar` approximates them by Unicode block) are
//! word characters, while multi-byte punctuation, symbols and emoji act
//! as word boundaries, as `boundary_before` spells out.

use vstd::prelude::*;
use vstd::string::StringSliceAdditionalSpecFns;

verus! {

pub open spec fn is_ascii_letter(b: u8) -> bool {
    (0x41 <= b && b <= 0x5a) || (0x61 <= b && b <= 0x7a)
}

pub open spec fn is_ascii_digit(b: u8) -> bool {
    0x30 <= b && b <= 0x39
}

pub open spec fn is_alnum(b: u8) -> bool {
    is_ascii_letter(b) || is_ascii_digit(b)
}

pub open spec fn is_word_byte(b: u8) -> bool {
    is_alnum(b) || b == 0x5f || b >= 0x80
}

pub fn word_byte(b: u8) -> (r: bool)
    ensures
        r == is_word_byte(b),
{
    (0x41 <= b && b <= 0x5a) || (0x61 <= b && b <= 0x7a) || (0x30 <= b && b <= 0x39) || b == 0x5f
        || b >= 0x80
}

/// Copies `t[a..b]` into a fresh vector.
pub fn copy_range(t: &Vec<u8>, a: usize, b: usize) -> (r: Vec<u8>)
    requires
        a <= b <= t.len(),
    ensures
        r@ == t@.subrange(a as int, b as int),
{
    let mut r: Vec<u8> = Vec::new();
    let mut k: usize = a;
    while k < b
        invariant
            a <= k <= b <= t.len(),
            r@ == t@.subrange(a as int, k as int),
        decreases b - k,
    {
        r.push(t[k]);
        proof {
            assert(t@.subrange(a as int, k + 1 as int) =~= t@.subrange(a as int, k as int).push(
                t@[k as int],
            ));
        }
        k = k + 1;
    }
    r
}

/// Index of the first `.` in `s`, or `s.len()` if there is none.
pub open spec fn first_dot(s: Seq<u8>) -> int
    decreases s.len(),
{
    if s.len() == 0 {
        0
    } else if s[0] == 0x2e {
        0
    } else {
        1 + first_dot(s.skip(1))
    }
}

pub proof fn lemma_first_dot(s: Seq<u8>)
    ensures
        0 <= first_dot(s) <= s.len(),
        first_dot(s) < s.len() ==> s[first_dot(s)] == 0x2e,
        forall|m: int| 0 <= m < first_dot(s) ==> s[m] != 0x2e,
    decreases s.len(),
{
    if s.len() == 0 {
    } else if s[0] == 0x2e {
    } else {
        lemma_first_dot(s.skip(1));
        assert forall|m: int| 0 <= m < first_dot(s) implies s[m] != 0x2e by {
            if m >= 1 {
                assert(s.skip(1)[m - 1] == s[m]);
            }
        }
    }
}

/// `first_dot` is pinned down by the properties checked at run time.
pub proof fn lemma_first_dot_unique(s: Seq<u8>, d: int)
    requires
        0 <= d <= s.len(),
        d < s.len() ==> s[d] == 0x2e,
        forall|m: int| 0 <= m < d ==> s[m] != 0x2e,
    ensures
        first_dot(s) == d,
    decreases s.len(),
{
    if s.len() == 0 {
    } else if s[0] == 0x2e {
    } else {
        assert(forall|m: int| 0 <= m < s.skip(1).len() ==> s.skip(1)[m] == s[m + 1]);
        lemma_first_dot_unique(s.skip(1), d - 1);
    }
}

/// Finds the first `.` at or after `i` and before `j`.
pub fn find_dot(t: &Vec<u8>, i: usize, j: usize) -> (d: usize)
    requires
        i <= j <= t.len(),
    ensures
        i <= d <= j,
        d < j ==> t@[d as int] == 0x2e,
        forall|m: int| i <= m < d ==> t@[m] != 0x2e,
{
    let mut d: usize = i;
    while d < j
        invariant
            i <= d <= j <= t.len(),
            forall|m: int| i <= m < d ==> t@[m] != 0x2e,
        decreases j - d,
    {
        if t[d] == 0x2e {
            return d;
        }
        d = d + 1;
    }
    d
}


/// Compares two byte vectors for equality of contents.
pub fn bytes_eq(a: &Vec<u8>, b: &Vec<u8>) -> (r: bool)
    ensures
        r == (a@ == b@),
{
    if a.len() != b.len() {
        return false;
    }
    let mut k: usize = 0;
    while k < a.len()
        invariant
            a.len() == b.len(),
            k <= a.len(),
            forall|m: int| 0 <= m < k ==> a@[m] == b@[m],
        decreases a.len() - k,
    {
        if a[k] != b[k] {
            return false;
        }
        k = k + 1;
    }
    proof {
        assert(a@ =~= b@);
    }
    true
}


/// The bytes of an ASCII character sequence, character by character.
pub open spec fn ascii_bytes(s: Seq<char>) -> Seq<u8> {
    Seq::new(s.len(), |i: int| s[i] as u8)
}

/// Appends the bytes of the ASCII string `s` to `out`.
pub fn append_ascii(out: &mut Vec<u8>, s: &str)
    requires
        vstd::string::is_ascii(s),
    ensures
        final(out)@ == old(out)@ + ascii_bytes(s@),
{
    proof {
        vstd::string::is_ascii_spec_bytes(s);
        assert(s.spec_bytes() =~= ascii_bytes(s@));
    }
    let b = s.as_bytes();
    let mut v = vstd::slice::slice_to_vec(b);
    out.append(&mut v);
}


/// In valid UTF-8, any position that is the end of the text or holds a
/// non-continuation byte is a character boundary.
pub proof fn lemma_boundary_at_noncontinuation(s: Seq<u8>, i: int)
    requires
        vstd::utf8::valid_utf8(s),
        0 <= i <= s.len(),
        i == s.len() || !vstd::utf8::is_continuation_byte(s[i]),
    ensures
        vstd::utf8::is_char_boundary(s, i),
    decreases s.len(),
{
    if i != 0 {
        let l = vstd::utf8::length_of_first_scalar(s);
        assert(vstd::utf8::valid_first_scalar(s));
        assert(1 <= l && l <= s.len());
        if i < l {
            assert(vstd::utf8::is_continuation_byte(s[i]));
            assert(false);
        } else {
            let p = vstd::utf8::pop_first_scalar(s);
            assert(p.len() == s.len() - l);
            if i < s.len() {
                assert(p[i - l] == s[i]);
            }
            lemma_boundary_at_noncontinuation(p, i - l);
        }
    }
}

/// In valid UTF-8, the position just past an ASCII byte is a character
/// boundary: an ASCII byte is always a whole one-byte character.
pub proof fn lemma_boundary_after_ascii(s: Seq<u8>, p: int)
    requires
        vstd::utf8::valid_utf8(s),
        0 <= p < s.len(),
        s[p] < 0x80,
    ensures
        vstd::utf8::is_char_boundary(s, p + 1),
    decreases s.len(),
{
    let l = vstd::utf8::length_of_first_scalar(s);
    assert(vstd::utf8::valid_first_scalar(s));
    assert(1 <= l && l <= s.len());
    let q = vstd::utf8::pop_first_scalar(s);
    assert(q.len() == s.len() - l);
    if p < l {
        assert(p == 0 && l == 1);
        assert(vstd::utf8::is_char_boundary(q, 0));
    } else {
        assert(q[p - l] == s[p]);
        lemma_boundary_after_ascii(q, p - l);
    }
}

/// First byte of a UTF-8 character: anything but a continuation byte.
pub open spec fn is_char_start(b: u8) -> bool {
    b < 0x80 || b >= 0xc0
}

/// The Unicode scalar of the well-formed UTF-8 character starting at
/// `k`, with its byte width, or `None` when no well-formed character
/// starts there.
pub open spec fn scalar_at(t: Seq<u8>, k: int) -> Option<(int, int)> {
    if k < 0 || k >= t.len() {
        Option::None
    } else {
        let b0 = t[k];
        if b0 < 0x80 {
            Option::Some((b0 as int, 1int))
        } else if 0xc2 <= b0 && b0 <= 0xdf {
            if k + 1 < t.len() && !is_char_start(t[k + 1]) {
                Option::Some(((b0 - 0xc0) * 0x40 + (t[k + 1] - 0x80), 2int))
            } else {
                Option::None
            }
        } else if 0xe0 <= b0 && b0 <= 0xef {
            if k + 2 < t.len() && !is_char_start(t[k + 1]) && !is_char_start(t[k + 2]) {
                Option::Some(
                    ((b0 - 0xe0) * 0x1000 + (t[k + 1] - 0x80) * 0x40 + (t[k + 2] - 0x80), 3int),
                )
            } else {
                Option::None
            }
        } else if 0xf0 <= b0 && b0 <= 0xf4 {
            if k + 3 < t.len() && !is_char_start(t[k + 1]) && !is_char_start(t[k + 2])
                && !is_char_start(t[k + 3]) {
                Option::Some(
                    (
                        (b0 - 0xf0) * 0x40000 + (t[k + 1] - 0x80) * 0x1000 + (t[k + 2] - 0x80)
                            * 0x40 + (t[k + 3] - 0x80),
                        4int,
                    ),
                )
            } else {
                Option::None
            }
        } else {
            Option::None
        }
    }
}

/// Letters and combining marks among the non-ASCII scalars, approximated
/// by Unicode block: Latin-1 and extended Latin letters (excluding the
/// multiplication and division signs), IPA extensions, combining
/// diacritical marks, the letter scripts from Greek up to the general
/// punctuation block, Glagolitic through Ethiopic extended, kana and CJK,
/// Yi and Hangul, and the CJK compatibility ideographs. The general
/// punctuation, currency, symbol, emoji, private-use blocks and the
/// supplementary planes are excluded.
pub open spec fn is_letter_scalar(c: int) -> bool {
    ||| (0xc0 <= c && c <= 0x2af && c != 0xd7 && c != 0xf7)
    ||| (0x300 <= c && c <= 0x36f)
    ||| (0x370 <= c && c <= 0x1fff)
    ||| (0x2c00 <= c && c <= 0x2dff)
    ||| (0x3040 <= c && c <= 0x9fff)
    ||| (0xa000 <= c && c <= 0xd7ff)
    ||| (0xf900 <= c && c <= 0xfaff)
}

/// Decodes the non-ASCII UTF-8 character starting at `k`.
pub fn scalar_step(t: &Vec<u8>, k: usize) -> (r: Option<(u32, usize)>)
    requires
        k < t.len(),
        t@[k as int] >= 0x80,
    ensures
        (r is Some <==> scalar_at(t@, k as int) is Some),
        r matches Some((c, w)) ==> scalar_at(t@, k as int) == Some((c as int, w as int)) && 1 <= w
            && k + w <= t.len(),
{
    let b0 = t[k];
    if 0xc2 <= b0 && b0 <= 0xdf {
        if k + 1 < t.len() {
            let b1 = t[k + 1];
            if 0x80 <= b1 && b1 < 0xc0 {
                return Some((((b0 - 0xc0) as u32) * 0x40 + ((b1 - 0x80) as u32), 2));
            }
        }
        None
    } else if 0xe0 <= b0 && b0 <= 0xef {
        if t.len() - k > 2 {
            let b1 = t[k + 1];
            let b2 = t[k + 2];
            if 0x80 <= b1 && b1 < 0xc0 && 0x80 <= b2 && b2 < 0xc0 {
                return Some(
                    (
                        ((b0 - 0xe0) as u32) * 0x1000 + ((b1 - 0x80) as u32) * 0x40 + ((b2
                            - 0x80) as u32),
                        3,
                    ),
                );
            }
        }
        None
    } else if 0xf0 <= b0 && b0 <= 0xf4 {
        if t.len() - k > 3 {
            let b1 = t[k + 1];
            let b2 = t[k + 2];
            let b3 = t[k + 3];
            if 0x80 <= b1 && b1 < 0xc0 && 0x80 <= b2 && b2 < 0xc0 && 0x80 <= b3 && b3 < 0xc0 {
                return Some(
                    (
                        ((b0 - 0xf0) as u32) * 0x40000 + ((b1 - 0x80) as u32) * 0x1000 + ((b2
                            - 0x80) as u32) * 0x40 + ((b3 - 0x80) as u32),
                        4,
                    ),
                );
            }
        }
        None
    } else {
        None
    }
}

/// Whether a non-ASCII scalar belongs to the letter class.
pub fn letter_scalar(c: u32) -> (r: bool)
    ensures
        r == is_letter_scalar(c as int),
{
    (0xc0 <= c && c <= 0x2af && c != 0xd7 && c != 0xf7) || (0x300 <= c && c <= 0x36f) || (0x370
        <= c && c <= 0x1fff) || (0x2c00 <= c && c <= 0x2dff) || (0x3040 <= c && c <= 0x9fff) || (
    0xa000 <= c && c <= 0xd7ff) || (0xf900 <= c && c <= 0xfaff)
}


/// Whether a mention or link may start at position `i`: the character
/// ending just before `i` must not be a word character. An ASCII byte is
/// a word character when `is_word_byte` says so; a well-formed multi-byte
/// character is a word character exactly when its scalar is a letter or
/// combining mark, so multi-byte punctuation, symbols and emoji act as
/// boundaries. Position zero has no preceding character and is no
/// boundary here.
pub open spec fn boundary_before(t: Seq<u8>, i: int) -> bool {
    if i < 1 || i > t.len() {
        false
    } else if t[i - 1] < 0x80 {
        !is_word_byte(t[i - 1])
    } else {
        !(exists|st: int|
            #![trigger scalar_at(t, st)]
            i - 4 <= st < i && (scalar_at(t, st) matches Some((c, w)) && w == i - st
                && is_letter_scalar(c)))
    }
}

/// Checks `boundary_before(t, i)`.
pub fn boundary_before_check(t: &Vec<u8>, i: usize) -> (r: bool)
    requires
        1 <= i <= t.len(),
    ensures
        r == boundary_before(t@, i as int),
{
    let b = t[i - 1];
    if b < 0x80 {
        return !word_byte(b);
    }
    let mut letter = false;
    if i >= 2 && t[i - 2] >= 0x80 {
        match scalar_step(t, i - 2) {
            Some((c, w)) => {
                if w == 2 && letter_scalar(c) {
                    letter = true;
                }
            },
            None => {},
        }
    }
    if i >= 3 && t[i - 3] >= 0x80 {
        match scalar_step(t, i - 3) {
            Some((c, w)) => {
                if w == 3 && letter_scalar(c) {
                    letter = true;
                }
            },
            None => {},
        }
    }
    if i >= 4 && t[i - 4] >= 0x80 {
        match scalar_step(t, i - 4) {
            Some((c, w)) => {
                if w == 4 && letter_scalar(c) {
                    letter = true;
                }
            },
            None => {},
        }
    }
    proof {
        if letter {
            assert(!boundary_before(t@, i as int));
        } else {
            assert forall|st: int|
                !(i - 4 <= st < i && (#[trigger] scalar_at(t@, st) matches Some((c, w)) && w == i
                    - st && is_letter_scalar(c))) by {
                if i - 4 <= st < i {
                    if st == i - 1 {
                        // a one-byte character is ASCII, never in the letter class
                    } else if t@[st] < 0x80 {
                        // an ASCII byte is a one-byte character: width mismatch
                    }
                }
            }
        }
    }
    !letter
}

} // verus!
