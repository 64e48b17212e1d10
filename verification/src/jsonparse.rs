//! Parsing the canonical JSON encoding of post records.
//!
//! The parser is the certifying inverse of the encoder: whatever it
//! accepts re-serializes byte for byte to the input, so a record that
//! survives a parse round-trips exactly. Only the canonical form is
//! accepted: canonical string escapes, no leading zeros in numbers, the
//! fixed field order, and nothing after the closing brace. For records
//! without optional sections the inverse is proved in both directions:
//! the encoding of any such record parses successfully.

use crate::facet::{Facet, Feature};
use crate::jsonio::{dec_bytes, escape_byte, escape_bytes, facet_json, feature_json, hex_digit,
    join_comma, json_string, label_json, labels_json, lemma_escape_snoc, lemma_join_comma_snoc,
    post_json};
use crate::post::{Post, SelfLabel, SelfLabels};
use crate::scanning::ascii_bytes;
use vstd::prelude::*;
use vstd::string::StringSliceAdditionalSpecFns;

verus! {

pub proof fn lemma_escape_push(v: Seq<u8>, b: u8)
    ensures
        escape_bytes(v.push(b)) == escape_bytes(v) + escape_byte(b),
{
    assert(v.push(b).take(v.len() as int) =~= v);
    assert(v.push(b).take(v.len() + 1 as int) =~= v.push(b));
    assert(v.push(b)[v.len() as int] == b);
    lemma_escape_snoc(v.push(b), v.len() as int);
}

pub proof fn lemma_join_push(parts: Seq<Seq<u8>>, x: Seq<u8>)
    ensures
        join_comma(parts.push(x)) == if parts.len() == 0 {
            x
        } else {
            join_comma(parts) + seq![0x2cu8] + x
        },
{
    assert(parts.push(x).take(parts.len() as int) =~= parts);
    assert(parts.push(x).take(parts.len() + 1 as int) =~= parts.push(x));
    assert(parts.push(x)[parts.len() as int] == x);
    lemma_join_comma_snoc(parts.push(x), parts.len() as int);
}

/// Parses the canonical escaped body of a JSON string, up to and
/// including the closing quote. Exactly the canonical forms decode:
/// raw control bytes, uppercase hex escapes, and `\u00xx` forms that
/// have a shorter canonical escape are rejected, as `unescape_at` says.
fn parse_string_chunk(s: &Vec<u8>, i: usize) -> (r: Option<(Vec<u8>, usize)>)
    requires
        i <= s.len(),
    ensures
        (r is Some <==> unescape_at(s@, i as int) is Some),
        r matches Some((v, j)) ==> i < j <= s.len() && s@.subrange(i as int, j as int)
            == escape_bytes(v@) + seq![0x22u8] && unescape_at(s@, i as int) == Some(
            (v@, j as int),
        ),
{
    let mut v: Vec<u8> = Vec::new();
    let mut k: usize = i;
    proof {
        let m = unescape_at(s@, i as int);
        if m is Some {
            assert(Seq::<u8>::empty() + m->Some_0.0 =~= m->Some_0.0);
        }
    }
    while k < s.len()
        invariant
            i <= k <= s.len(),
            s@.subrange(i as int, k as int) == escape_bytes(v@),
            unescape_at(s@, i as int) == prepend_decoded(v@, unescape_at(s@, k as int)),
        decreases s.len() - k,
    {
        let b = s[k];
        if b == 0x22 {
            proof {
                assert(unescape_at(s@, k as int) == Some((Seq::<u8>::empty(), k + 1 as int)));
                assert(v@ + Seq::<u8>::empty() =~= v@);
                assert(s@.subrange(i as int, k + 1 as int) =~= escape_bytes(v@) + seq![0x22u8]);
            }
            return Some((v, k + 1));
        } else if b == 0x5c {
            if k + 1 >= s.len() {
                return None;
            }
            let c = s[k + 1];
            let decoded: u8 = if c == 0x22 {
                0x22
            } else if c == 0x5c {
                0x5c
            } else if c == 0x62 {
                0x08
            } else if c == 0x74 {
                0x09
            } else if c == 0x6e {
                0x0a
            } else if c == 0x66 {
                0x0c
            } else if c == 0x72 {
                0x0d
            } else {
                0x75
            };
            if c != 0x75 && decoded == 0x75 {
                return None;
            }
            if c == 0x75 {
                if s.len() - k < 6 {
                    return None;
                }
                if s[k + 2] != 0x30 || s[k + 3] != 0x30 {
                    return None;
                }
                let h1 = s[k + 4];
                let h2 = s[k + 5];
                let v1 = if 0x30 <= h1 && h1 <= 0x39 {
                    h1 - 0x30
                } else if 0x61 <= h1 && h1 <= 0x66 {
                    h1 - 0x57
                } else {
                    return None;
                };
                let v2 = if 0x30 <= h2 && h2 <= 0x39 {
                    h2 - 0x30
                } else if 0x61 <= h2 && h2 <= 0x66 {
                    h2 - 0x57
                } else {
                    return None;
                };
                let byte = v1 * 16 + v2;
                if byte >= 0x20 {
                    return None;
                }
                if byte == 0x08 || byte == 0x09 || byte == 0x0a || byte == 0x0c || byte == 0x0d {
                    return None;
                }
                proof {
                    lemma_escape_push(v@, byte);
                    assert(hex_digit(byte as int / 16) == h1);
                    assert(hex_digit(byte as int % 16) == h2);
                    assert(s@.subrange(i as int, k + 6 as int) =~= escape_bytes(v@) + escape_byte(
                        byte,
                    ));
                    assert(unescape_at(s@, k as int) == prepend_decoded(
                        seq![byte],
                        unescape_at(s@, k + 6 as int),
                    ));
                    let m6 = unescape_at(s@, k + 6 as int);
                    if m6 is Some {
                        assert(v@ + (seq![byte] + m6->Some_0.0) =~= v@.push(byte) + m6->Some_0.0);
                    }
                }
                v.push(byte);
                k = k + 6;
            } else {
                proof {
                    lemma_escape_push(v@, decoded);
                    assert(is_short_escape(c) && short_unescape(c) == decoded);
                    assert(s@.subrange(i as int, k + 2 as int) =~= escape_bytes(v@) + escape_byte(
                        decoded,
                    ));
                    assert(unescape_at(s@, k as int) == prepend_decoded(
                        seq![decoded],
                        unescape_at(s@, k + 2 as int),
                    ));
                    let m2 = unescape_at(s@, k + 2 as int);
                    if m2 is Some {
                        assert(v@ + (seq![decoded] + m2->Some_0.0) =~= v@.push(decoded)
                            + m2->Some_0.0);
                    }
                }
                v.push(decoded);
                k = k + 2;
            }
        } else if b < 0x20 {
            return None;
        } else {
            proof {
                lemma_escape_push(v@, b);
                assert(escape_byte(b) =~= seq![b]);
                assert(s@.subrange(i as int, k + 1 as int) =~= escape_bytes(v@) + escape_byte(b));
                assert(unescape_at(s@, k as int) == prepend_decoded(
                    seq![b],
                    unescape_at(s@, k + 1 as int),
                ));
                let m1 = unescape_at(s@, k + 1 as int);
                if m1 is Some {
                    assert(v@ + (seq![b] + m1->Some_0.0) =~= v@.push(b) + m1->Some_0.0);
                }
            }
            v.push(b);
            k = k + 1;
        }
    }
    None
}

/// Spec-level parse of a quoted JSON string at `i`.
pub open spec fn parse_jstring_at(s: Seq<u8>, i: int) -> Option<(Seq<u8>, int)> {
    if 0 <= i && i < s.len() && s[i] == 0x22 {
        unescape_at(s, i + 1)
    } else {
        Option::None
    }
}

/// Wherever the encoding of `v` sits in `s`, the string parser yields
/// exactly `v` and stops just past it.
pub proof fn lemma_parse_jstring_of(s: Seq<u8>, i: int, v: Seq<u8>)
    requires
        0 <= i,
        i + json_string(v).len() <= s.len(),
        s.subrange(i, i + json_string(v).len()) == json_string(v),
    ensures
        parse_jstring_at(s, i) == Some((v, i + json_string(v).len())),
{
    let js = json_string(v);
    assert(js.len() == escape_bytes(v).len() + 2);
    assert(s.subrange(i, i + js.len())[0] == s[i]);
    assert(js[0] == 0x22);
    assert forall|m: int|
        0 <= m < escape_bytes(v).len() + 1 implies s.subrange(
        i + 1,
        i + 1 + escape_bytes(v).len() + 1,
    )[m] == (escape_bytes(v) + seq![0x22u8])[m] by {
        assert(s.subrange(i + 1, i + 1 + escape_bytes(v).len() + 1)[m] == s[i + 1 + m]);
        assert(s.subrange(i, i + js.len())[1 + m] == s[i + 1 + m]);
        assert(js[1 + m] == (escape_bytes(v) + seq![0x22u8])[m]);
    }
    assert(s.subrange(i + 1, i + 1 + escape_bytes(v).len() + 1) =~= escape_bytes(v)
        + seq![0x22u8]);
    lemma_unescape_escaped(s, i + 1, v);
}

/// Parses a quoted JSON string at `i`, exactly as `parse_jstring_at`.
fn parse_json_string_at(s: &Vec<u8>, i: usize) -> (r: Option<(Vec<u8>, usize)>)
    requires
        i <= s.len(),
    ensures
        (r is Some <==> parse_jstring_at(s@, i as int) is Some),
        r matches Some((v, j)) ==> i < j <= s.len() && s@.subrange(i as int, j as int)
            == json_string(v@) && parse_jstring_at(s@, i as int) == Some((v@, j as int)),
{
    if i >= s.len() || s[i] != 0x22 {
        return None;
    }
    match parse_string_chunk(s, i + 1) {
        Some((v, j)) => {
            proof {
                assert(s@.subrange(i as int, j as int) =~= seq![0x22u8] + s@.subrange(
                    i + 1 as int,
                    j as int,
                ));
                assert(s@.subrange(i as int, j as int) =~= json_string(v@));
            }
            Some((v, j))
        },
        None => None,
    }
}

/// The decimal digits of a non-negative integer: at least one digit,
/// leading with `0` only for zero itself.
pub proof fn lemma_dec_bytes_shape(n: int)
    requires
        n >= 0,
    ensures
        dec_bytes(n).len() >= 1,
        forall|m: int| 0 <= m < dec_bytes(n).len() ==> 0x30 <= #[trigger] dec_bytes(n)[m] <= 0x39,
        (dec_bytes(n)[0] == 0x30 <==> n == 0),
        n == 0 ==> dec_bytes(n).len() == 1,
    decreases n,
{
    if n >= 10 {
        lemma_dec_bytes_shape(n / 10);
        assert(forall|m: int|
            0 <= m < dec_bytes(n / 10).len() ==> dec_bytes(n)[m] == #[trigger] dec_bytes(
                n / 10,
            )[m]);
        assert(dec_bytes(n)[dec_bytes(n).len() - 1] == (0x30 + n % 10) as u8);
    }
}

/// The numeric value of the digits `s[i..j]`.
pub open spec fn dec_value(s: Seq<u8>, i: int, j: int) -> int
    decreases j - i,
{
    if j <= i {
        0
    } else {
        dec_value(s, i, j - 1) * 10 + (s[j - 1] - 0x30)
    }
}

pub proof fn lemma_dec_value_mono(s: Seq<u8>, i: int, k: int, j: int)
    requires
        i <= k <= j,
        forall|m: int| i <= m < j ==> 0x30 <= #[trigger] s[m] <= 0x39,
    ensures
        0 <= dec_value(s, i, k) <= dec_value(s, i, j),
    decreases j - i,
{
    if k < j {
        lemma_dec_value_mono(s, i, k, j - 1);
    } else if i < k {
        lemma_dec_value_mono(s, i, k - 1, k - 1);
    }
}

/// Reading back the digits of `n` yields `n`.
pub proof fn lemma_dec_value_of(s: Seq<u8>, i: int, n: int)
    requires
        n >= 0,
        0 <= i,
        i + dec_bytes(n).len() <= s.len(),
        s.subrange(i, i + dec_bytes(n).len() as int) == dec_bytes(n),
    ensures
        dec_value(s, i, i + dec_bytes(n).len() as int) == n,
    decreases n,
{
    let l = dec_bytes(n).len() as int;
    assert(forall|m: int|
        0 <= m < l ==> s[i + m] == #[trigger] s.subrange(i, i + l)[m] && s.subrange(i, i + l)[m]
            == dec_bytes(n)[m]);
    if n < 10 {
        assert(s[i] == dec_bytes(n)[0]);
        assert(dec_bytes(n)[0] == (0x30 + n) as u8);
        assert(dec_value(s, i, i) == 0);
        assert(dec_value(s, i, i + 1) == dec_value(s, i, i) * 10 + (s[i] - 0x30));
    } else {
        assert(s.subrange(i, i + l - 1) =~= dec_bytes(n / 10));
        lemma_dec_value_of(s, i, n / 10);
        assert(s[i + l - 1] == dec_bytes(n)[l - 1]);
        assert(dec_bytes(n)[l - 1] == (0x30 + n % 10) as u8);
        assert(dec_value(s, i, i + l) == dec_value(s, i, i + l - 1) * 10 + (s[i + l - 1] - 0x30));
        assert(dec_value(s, i, i + l - 1) == n / 10);
        assert(s[i + l - 1] - 0x30 == n % 10);
    }
}

/// Parses a canonical decimal number at `i`: one or more digits, no
/// leading zero unless the number is zero itself. Both ways exact:
/// wherever the digits of a number sit at `i` with no digit following,
/// the parse yields that number.
fn parse_decimal_at(s: &Vec<u8>, i: usize) -> (r: Option<(usize, usize)>)
    requires
        i <= s.len(),
    ensures
        r matches Some((n, j)) ==> i < j <= s.len() && s@.subrange(i as int, j as int)
            == dec_bytes(n as int),
        forall|m: usize|
            {
                let l = dec_bytes(m as int).len() as int;
                (i + l <= s@.len() && s@.subrange(i as int, i + l) == dec_bytes(m as int) && (i + l
                    == s@.len() || !(0x30 <= s@[i + l] && s@[i + l] <= 0x39))) ==> #[trigger] dec_bytes(
                    m as int,
                ) == dec_bytes(m as int) && r is Some && r->Some_0.0 == m && r->Some_0.1 == i + l
            },
{
    if i >= s.len() {
        proof {
            assert forall|m: usize| dec_bytes(m as int).len() >= 1 by {
                lemma_dec_bytes_shape(m as int);
            }
        }
        return None;
    }
    let b = s[i];
    if !(0x30 <= b && b <= 0x39) {
        proof {
            assert forall|m: usize|
                !(i + dec_bytes(m as int).len() <= s@.len() && s@.subrange(
                    i as int,
                    i + dec_bytes(m as int).len() as int,
                ) == dec_bytes(m as int)) by {
                lemma_dec_bytes_shape(m as int);
                let l = dec_bytes(m as int).len() as int;
                if i + l <= s@.len() && s@.subrange(i as int, i + l) == dec_bytes(m as int) {
                    assert(s@.subrange(i as int, i + l)[0] == s@[i as int]);
                }
            }
        }
        return None;
    }
    if b == 0x30 {
        proof {
            assert(s@.subrange(i as int, i + 1 as int) =~= dec_bytes(0));
            assert forall|m: usize|
                (i + dec_bytes(m as int).len() <= s@.len() && s@.subrange(
                    i as int,
                    i + dec_bytes(m as int).len() as int,
                ) == dec_bytes(m as int)) implies m == 0 by {
                lemma_dec_bytes_shape(m as int);
                let l = dec_bytes(m as int).len() as int;
                assert(s@.subrange(i as int, i + l)[0] == s@[i as int]);
            }
        }
        return Some((0, i + 1));
    }
    let mut n: usize = (b - 0x30) as usize;
    let mut k: usize = i + 1;
    proof {
        assert(s@.subrange(i as int, i + 1 as int) =~= dec_bytes(n as int));
        assert(dec_value(s@, i as int, i + 1 as int) == dec_value(s@, i as int, i as int) * 10 + (
        s@[i as int] - 0x30));
    }
    while k < s.len() && 0x30 <= s[k] && s[k] <= 0x39
        invariant
            i < k <= s.len(),
            1 <= n,
            s@.subrange(i as int, k as int) == dec_bytes(n as int),
            n as int == dec_value(s@, i as int, k as int),
            forall|m: int| i <= m < k ==> 0x30 <= #[trigger] s@[m] <= 0x39,
        decreases s.len() - k,
    {
        let d = s[k];
        let dv = (d - 0x30) as usize;
        if n > (usize::MAX - dv) / 10 {
            proof {
                assert(n as int * 10 + dv > usize::MAX as int) by (nonlinear_arith)
                    requires
                        n as int > (usize::MAX as int - dv) / 10,
                        0 <= dv < 10,
                ;
                assert forall|m: usize|
                    !(i + dec_bytes(m as int).len() <= s@.len() && s@.subrange(
                        i as int,
                        i + dec_bytes(m as int).len() as int,
                    ) == dec_bytes(m as int) && (i + dec_bytes(m as int).len() == s@.len() || !(
                    0x30 <= s@[i + dec_bytes(m as int).len()] && s@[i + dec_bytes(m as int).len()]
                        <= 0x39))) by {
                    lemma_dec_bytes_shape(m as int);
                    let l = dec_bytes(m as int).len() as int;
                    if i + l <= s@.len() && s@.subrange(i as int, i + l) == dec_bytes(m as int) && (
                    i + l == s@.len() || !(0x30 <= s@[i + l] && s@[i + l] <= 0x39)) {
                        assert(forall|q: int|
                            0 <= q < l ==> s@[i + q] == #[trigger] s@.subrange(i as int, i + l)[q]);
                        assert forall|q: int| i <= q < i + l implies 0x30 <= #[trigger] s@[q] <= 0x39 by {
                            assert(s@[q] == s@.subrange(i as int, i + l)[q - i]);
                            assert(s@.subrange(i as int, i + l)[q - i] == dec_bytes(
                                m as int,
                            )[q - i]);
                        }
                        assert(k < i + l);
                        lemma_dec_value_of(s@, i as int, m as int);
                        lemma_dec_value_mono(s@, i as int, k + 1 as int, i + l);
                        assert(dec_value(s@, i as int, k + 1 as int) == n as int * 10 + dv);
                        assert(m as int >= n as int * 10 + dv);
                    }
                }
            }
            return None;
        }
        let n2 = n * 10 + dv;
        proof {
            assert(n2 as int / 10 == n as int) by (nonlinear_arith)
                requires
                    n2 == n * 10 + dv,
                    0 <= dv < 10,
                    n >= 1,
            ;
            assert(n2 as int % 10 == dv) by (nonlinear_arith)
                requires
                    n2 == n * 10 + dv,
                    0 <= dv < 10,
                    n >= 1,
            ;
            assert(dec_bytes(n2 as int) == dec_bytes(n as int).push(d));
            assert(s@.subrange(i as int, k + 1 as int) =~= dec_bytes(n as int).push(d));
        }
        n = n2;
        k = k + 1;
    }
    proof {
        assert forall|m: usize|
            (i + dec_bytes(m as int).len() <= s@.len() && s@.subrange(
                i as int,
                i + dec_bytes(m as int).len() as int,
            ) == dec_bytes(m as int) && (i + dec_bytes(m as int).len() == s@.len() || !(0x30
                <= s@[i + dec_bytes(m as int).len()] && s@[i + dec_bytes(m as int).len()]
                <= 0x39))) implies m == n && i + dec_bytes(m as int).len() == k by {
            lemma_dec_bytes_shape(m as int);
            let l = dec_bytes(m as int).len() as int;
            if i + l <= s@.len() && s@.subrange(i as int, i + l) == dec_bytes(m as int) && (i + l
                == s@.len() || !(0x30 <= s@[i + l] && s@[i + l] <= 0x39)) {
                assert(forall|q: int|
                    0 <= q < l ==> s@[i + q] == #[trigger] s@.subrange(i as int, i + l)[q]);
                assert forall|q: int| i <= q < i + l implies 0x30 <= #[trigger] s@[q] <= 0x39 by {
                    assert(s@[q] == s@.subrange(i as int, i + l)[q - i]);
                    assert(s@.subrange(i as int, i + l)[q - i] == dec_bytes(m as int)[q - i]);
                }
                if k < i + l {
                    assert(0x30 <= s@[k as int] <= 0x39);
                    assert(false);
                }
                if k > i + l {
                    assert(0x30 <= s@[i + l] <= 0x39);
                    assert(false);
                }
                lemma_dec_value_of(s@, i as int, m as int);
            }
        }
    }
    Some((n, k))
}

/// Compares the bytes at `i` with an ASCII literal; on a match returns
/// the position just past it.
fn expect_lit(s: &Vec<u8>, i: usize, lit: &str) -> (r: Option<usize>)
    requires
        i <= s.len(),
        vstd::string::is_ascii(lit),
    ensures
        r matches Some(j) ==> i <= j <= s.len() && j - i == lit@.len() && s@.subrange(
            i as int,
            j as int,
        ) == ascii_bytes(lit@),
        r is None ==> !(i + lit@.len() <= s@.len() && s@.subrange(i as int, i + lit@.len() as int)
            == ascii_bytes(lit@)),
{
    proof {
        vstd::string::is_ascii_spec_bytes(lit);
        assert(lit.spec_bytes() =~= ascii_bytes(lit@));
    }
    let lb = vstd::slice::slice_to_vec(lit.as_bytes());
    if s.len() - i < lb.len() {
        return None;
    }
    let mut k: usize = 0;
    while k < lb.len()
        invariant
            k <= lb.len(),
            i + lb.len() <= s.len(),
            lb@ == ascii_bytes(lit@),
            forall|m: int| 0 <= m < k ==> s@[i + m] == lb@[m],
        decreases lb.len() - k,
    {
        if s[i + k] != lb[k] {
            proof {
                assert(s@.subrange(i as int, i + lb@.len() as int)[k as int] == s@[i + k]);
            }
            return None;
        }
        k = k + 1;
    }
    proof {
        assert(s@.subrange(i as int, i + lb@.len() as int) =~= lb@);
    }
    Some(i + lb.len())
}

/// How the encoding of a feature reads at position `i`: its own type
/// literal matches there, the other two do not, its payload string
/// parses, and the closing brace follows.
proof fn lemma_feature_encoding(s: Seq<u8>, i: int, f: Feature)
    requires
        0 <= i,
        i + feature_json(f).len() <= s.len(),
        s.subrange(i, i + feature_json(f).len() as int) == feature_json(f),
    ensures
        ({
            let ml = ascii_bytes("{\"$type\":\"app.bsky.richtext.facet#mention\",\"did\":"@);
            let ll = ascii_bytes("{\"$type\":\"app.bsky.richtext.facet#link\",\"uri\":"@);
            let tl = ascii_bytes("{\"$type\":\"app.bsky.richtext.facet#tag\",\"tag\":"@);
            let l = feature_json(f).len() as int;
            match f {
                Feature::Mention(m) => {
                    &&& lit_at(s, i, ml) == Some(i + ml.len())
                    &&& lit_at(s, i, ll) is None
                    &&& lit_at(s, i, tl) is None
                    &&& parse_jstring_at(s, i + ml.len()) == Some((m.did@, i + l - 1))
                    &&& s[i + l - 1] == 0x7d
                },
                Feature::Link(lk) => {
                    &&& lit_at(s, i, ll) == Some(i + ll.len())
                    &&& lit_at(s, i, ml) is None
                    &&& lit_at(s, i, tl) is None
                    &&& parse_jstring_at(s, i + ll.len()) == Some((lk.uri@, i + l - 1))
                    &&& s[i + l - 1] == 0x7d
                },
                Feature::Hashtag(h) => {
                    &&& lit_at(s, i, tl) == Some(i + tl.len())
                    &&& lit_at(s, i, ml) is None
                    &&& lit_at(s, i, ll) is None
                    &&& parse_jstring_at(s, i + tl.len()) == Some((h.tag@, i + l - 1))
                    &&& s[i + l - 1] == 0x7d
                },
            }
        }),
{
    reveal_strlit("{\"$type\":\"app.bsky.richtext.facet#mention\",\"did\":");
    reveal_strlit("{\"$type\":\"app.bsky.richtext.facet#link\",\"uri\":");
    reveal_strlit("{\"$type\":\"app.bsky.richtext.facet#tag\",\"tag\":");
    let ml = ascii_bytes("{\"$type\":\"app.bsky.richtext.facet#mention\",\"did\":"@);
    let ll = ascii_bytes("{\"$type\":\"app.bsky.richtext.facet#link\",\"uri\":"@);
    let tl = ascii_bytes("{\"$type\":\"app.bsky.richtext.facet#tag\",\"tag\":"@);
    let fj = feature_json(f);
    let l = fj.len() as int;
    assert(forall|m: int| 0 <= m < l ==> s[i + m] == #[trigger] fj[m]) by {
        assert(forall|m: int|
            0 <= m < l ==> s.subrange(i, i + l)[m] == s[i + m] && #[trigger] fj[m] == s.subrange(
                i,
                i + l,
            )[m]);
    }
    assert(ml[34] == 0x6d && ll[34] == 0x6c && tl[34] == 0x74);
    match f {
        Feature::Mention(m) => {
            let js = json_string(m.did@);
            assert(forall|q: int| 0 <= q < ml.len() ==> fj[q] == #[trigger] ml[q]);
            assert(forall|q: int| 0 <= q < js.len() ==> fj[ml.len() + q] == #[trigger] js[q]);
            assert(s.subrange(i, i + ml.len() as int) =~= ml);
            assert(lit_at(s, i, ml) == Some(i + ml.len()));
            assert(s[i + 34] == ml[34]);
            if lit_at(s, i, ll) is Some {
                assert(s.subrange(i, i + ll.len() as int)[34] == s[i + 34]);
            }
            if lit_at(s, i, tl) is Some {
                assert(s.subrange(i, i + tl.len() as int)[34] == s[i + 34]);
            }
            assert(s.subrange(i + ml.len(), i + ml.len() + js.len() as int) =~= js);
            lemma_parse_jstring_of(s, i + ml.len() as int, m.did@);
            assert(s[i + l - 1] == fj[l - 1]);
        },
        Feature::Link(lk) => {
            let js = json_string(lk.uri@);
            assert(forall|q: int| 0 <= q < ll.len() ==> fj[q] == #[trigger] ll[q]);
            assert(forall|q: int| 0 <= q < js.len() ==> fj[ll.len() + q] == #[trigger] js[q]);
            assert(s.subrange(i, i + ll.len() as int) =~= ll);
            assert(lit_at(s, i, ll) == Some(i + ll.len()));
            assert(s[i + 34] == ll[34]);
            if lit_at(s, i, ml) is Some {
                assert(s.subrange(i, i + ml.len() as int)[34] == s[i + 34]);
            }
            if lit_at(s, i, tl) is Some {
                assert(s.subrange(i, i + tl.len() as int)[34] == s[i + 34]);
            }
            assert(s.subrange(i + ll.len(), i + ll.len() + js.len() as int) =~= js);
            lemma_parse_jstring_of(s, i + ll.len() as int, lk.uri@);
            assert(s[i + l - 1] == fj[l - 1]);
        },
        Feature::Hashtag(h) => {
            let js = json_string(h.tag@);
            assert(forall|q: int| 0 <= q < tl.len() ==> fj[q] == #[trigger] tl[q]);
            assert(forall|q: int| 0 <= q < js.len() ==> fj[tl.len() + q] == #[trigger] js[q]);
            assert(s.subrange(i, i + tl.len() as int) =~= tl);
            assert(lit_at(s, i, tl) == Some(i + tl.len()));
            assert(s[i + 34] == tl[34]);
            if lit_at(s, i, ml) is Some {
                assert(s.subrange(i, i + ml.len() as int)[34] == s[i + 34]);
            }
            if lit_at(s, i, ll) is Some {
                assert(s.subrange(i, i + ll.len() as int)[34] == s[i + 34]);
            }
            assert(s.subrange(i + tl.len(), i + tl.len() + js.len() as int) =~= js);
            lemma_parse_jstring_of(s, i + tl.len() as int, h.tag@);
            assert(s[i + l - 1] == fj[l - 1]);
        },
    }
}

/// Parses one feature object at `i`. Both ways exact: wherever the
/// encoding of a feature sits at `i`, the parse succeeds and consumes
/// exactly it.
#[verifier::rlimit(100)]
fn parse_feature_at(s: &Vec<u8>, i: usize) -> (r: Option<(Feature, usize)>)
    requires
        i <= s.len(),
    ensures
        r matches Some((f, j)) ==> i < j <= s.len() && s@.subrange(i as int, j as int)
            == feature_json(f),
        forall|f: Feature|
            {
                let l = feature_json(f).len() as int;
                (i + l <= s@.len() && s@.subrange(i as int, i + l) == #[trigger] feature_json(f))
                    ==> r is Some && r->Some_0.1 == i + l
            },
{
    proof {
        reveal_strlit("{\"$type\":\"app.bsky.richtext.facet#mention\",\"did\":");
        reveal_strlit("{\"$type\":\"app.bsky.richtext.facet#link\",\"uri\":");
        reveal_strlit("{\"$type\":\"app.bsky.richtext.facet#tag\",\"tag\":");
    }
    let ghost ml = ascii_bytes("{\"$type\":\"app.bsky.richtext.facet#mention\",\"did\":"@);
    let ghost ll = ascii_bytes("{\"$type\":\"app.bsky.richtext.facet#link\",\"uri\":"@);
    let ghost tl = ascii_bytes("{\"$type\":\"app.bsky.richtext.facet#tag\",\"tag\":"@);
    if let Some(j1) = expect_lit(s, i, "{\"$type\":\"app.bsky.richtext.facet#mention\",\"did\":") {
        let (v, j2) = match parse_json_string_at(s, j1) {
            Some(p) => p,
            None => {
                proof {
                    assert forall|f: Feature|
                        !(i + feature_json(f).len() <= s@.len() && s@.subrange(
                            i as int,
                            i + feature_json(f).len() as int,
                        ) == #[trigger] feature_json(f)) by {
                        if i + feature_json(f).len() <= s@.len() && s@.subrange(
                            i as int,
                            i + feature_json(f).len() as int,
                        ) == feature_json(f) {
                            lemma_feature_encoding(s@, i as int, f);
                            assert(lit_at(s@, i as int, ml) is Some);
                        }
                    }
                }
                return None;
            },
        };
        if j2 >= s.len() || s[j2] != 0x7d {
            proof {
                assert forall|f: Feature|
                    !(i + feature_json(f).len() <= s@.len() && s@.subrange(
                        i as int,
                        i + feature_json(f).len() as int,
                    ) == #[trigger] feature_json(f)) by {
                    if i + feature_json(f).len() <= s@.len() && s@.subrange(
                        i as int,
                        i + feature_json(f).len() as int,
                    ) == feature_json(f) {
                        lemma_feature_encoding(s@, i as int, f);
                        assert(lit_at(s@, i as int, ml) is Some);
                    }
                }
            }
            return None;
        }
        let f = Feature::Mention(crate::facet::MentionFeature { did: v });
        proof {
            assert(s@.subrange(i as int, j2 + 1 as int) =~= feature_json(f));
            assert forall|fc: Feature|
                (i + feature_json(fc).len() <= s@.len() && s@.subrange(
                    i as int,
                    i + feature_json(fc).len() as int,
                ) == #[trigger] feature_json(fc)) implies j2 + 1 == i + feature_json(
                fc,
            ).len() by {
                lemma_feature_encoding(s@, i as int, fc);
            }
        }
        return Some((f, j2 + 1));
    }
    if let Some(j1) = expect_lit(s, i, "{\"$type\":\"app.bsky.richtext.facet#link\",\"uri\":") {
        let (v, j2) = match parse_json_string_at(s, j1) {
            Some(p) => p,
            None => {
                proof {
                    assert forall|f: Feature|
                        !(i + feature_json(f).len() <= s@.len() && s@.subrange(
                            i as int,
                            i + feature_json(f).len() as int,
                        ) == #[trigger] feature_json(f)) by {
                        if i + feature_json(f).len() <= s@.len() && s@.subrange(
                            i as int,
                            i + feature_json(f).len() as int,
                        ) == feature_json(f) {
                            lemma_feature_encoding(s@, i as int, f);
                            assert(lit_at(s@, i as int, ll) is Some);
                        }
                    }
                }
                return None;
            },
        };
        if j2 >= s.len() || s[j2] != 0x7d {
            proof {
                assert forall|f: Feature|
                    !(i + feature_json(f).len() <= s@.len() && s@.subrange(
                        i as int,
                        i + feature_json(f).len() as int,
                    ) == #[trigger] feature_json(f)) by {
                    if i + feature_json(f).len() <= s@.len() && s@.subrange(
                        i as int,
                        i + feature_json(f).len() as int,
                    ) == feature_json(f) {
                        lemma_feature_encoding(s@, i as int, f);
                        assert(lit_at(s@, i as int, ll) is Some);
                    }
                }
            }
            return None;
        }
        let f = Feature::Link(crate::facet::LinkFeature { uri: v });
        proof {
            assert(s@.subrange(i as int, j2 + 1 as int) =~= feature_json(f));
            assert forall|fc: Feature|
                (i + feature_json(fc).len() <= s@.len() && s@.subrange(
                    i as int,
                    i + feature_json(fc).len() as int,
                ) == #[trigger] feature_json(fc)) implies j2 + 1 == i + feature_json(
                fc,
            ).len() by {
                lemma_feature_encoding(s@, i as int, fc);
            }
        }
        return Some((f, j2 + 1));
    }
    if let Some(j1) = expect_lit(s, i, "{\"$type\":\"app.bsky.richtext.facet#tag\",\"tag\":") {
        let (v, j2) = match parse_json_string_at(s, j1) {
            Some(p) => p,
            None => {
                proof {
                    assert forall|f: Feature|
                        !(i + feature_json(f).len() <= s@.len() && s@.subrange(
                            i as int,
                            i + feature_json(f).len() as int,
                        ) == #[trigger] feature_json(f)) by {
                        if i + feature_json(f).len() <= s@.len() && s@.subrange(
                            i as int,
                            i + feature_json(f).len() as int,
                        ) == feature_json(f) {
                            lemma_feature_encoding(s@, i as int, f);
                            assert(lit_at(s@, i as int, tl) is Some);
                        }
                    }
                }
                return None;
            },
        };
        if j2 >= s.len() || s[j2] != 0x7d {
            proof {
                assert forall|f: Feature|
                    !(i + feature_json(f).len() <= s@.len() && s@.subrange(
                        i as int,
                        i + feature_json(f).len() as int,
                    ) == #[trigger] feature_json(f)) by {
                    if i + feature_json(f).len() <= s@.len() && s@.subrange(
                        i as int,
                        i + feature_json(f).len() as int,
                    ) == feature_json(f) {
                        lemma_feature_encoding(s@, i as int, f);
                        assert(lit_at(s@, i as int, tl) is Some);
                    }
                }
            }
            return None;
        }
        let f = Feature::Hashtag(crate::facet::HashtagFeature { tag: v });
        proof {
            assert(s@.subrange(i as int, j2 + 1 as int) =~= feature_json(f));
            assert forall|fc: Feature|
                (i + feature_json(fc).len() <= s@.len() && s@.subrange(
                    i as int,
                    i + feature_json(fc).len() as int,
                ) == #[trigger] feature_json(fc)) implies j2 + 1 == i + feature_json(
                fc,
            ).len() by {
                lemma_feature_encoding(s@, i as int, fc);
            }
        }
        return Some((f, j2 + 1));
    }
    proof {
        assert forall|f: Feature|
            !(i + feature_json(f).len() <= s@.len() && s@.subrange(
                i as int,
                i + feature_json(f).len() as int,
            ) == #[trigger] feature_json(f)) by {
            if i + feature_json(f).len() <= s@.len() && s@.subrange(
                i as int,
                i + feature_json(f).len() as int,
            ) == feature_json(f) {
                lemma_feature_encoding(s@, i as int, f);
            }
        }
    }
    None
}

/// Parses one facet object at `i`.
fn parse_facet_at(s: &Vec<u8>, i: usize) -> (r: Option<(Facet, usize)>)
    requires
        i <= s.len(),
    ensures
        r matches Some((f, j)) ==> i < j <= s.len() && s@.subrange(i as int, j as int)
            == facet_json(f),
{
    proof {
        reveal_strlit("{\"index\":{\"byteStart\":");
        reveal_strlit(",\"byteEnd\":");
        reveal_strlit("},\"features\":[");
        reveal_strlit("]}");
        assert(ascii_bytes("]}"@) =~= seq![0x5du8, 0x7du8]);
    }
    let j1 = match expect_lit(s, i, "{\"index\":{\"byteStart\":") {
        Some(j) => j,
        None => {
            return None;
        },
    };
    let (start, j2) = match parse_decimal_at(s, j1) {
        Some(p) => p,
        None => {
            return None;
        },
    };
    let j3 = match expect_lit(s, j2, ",\"byteEnd\":") {
        Some(j) => j,
        None => {
            return None;
        },
    };
    let (end, j4) = match parse_decimal_at(s, j3) {
        Some(p) => p,
        None => {
            return None;
        },
    };
    let j5 = match expect_lit(s, j4, "},\"features\":[") {
        Some(j) => j,
        None => {
            return None;
        },
    };
    let mut features: Vec<Feature> = Vec::new();
    let mut k: usize = j5;
    if s.len() - k >= 2 && s[k] == 0x5d && s[k + 1] == 0x7d {
        let f = Facet {
            index: crate::facet::FacetIndex { byte_start: start, byte_end: end },
            features,
        };
        proof {
            assert(f.features@.map_values(|ft: Feature| feature_json(ft)) =~= Seq::<
                Seq<u8>,
            >::empty());
            assert(s@.subrange(i as int, k + 2 as int) =~= facet_json(f));
        }
        return Some((f, k + 2));
    }
    loop
        invariant
            j5 <= k <= s.len(),
            i < j5,
            s@.subrange(i as int, j5 as int) == ascii_bytes("{\"index\":{\"byteStart\":"@)
                + dec_bytes(start as int) + ascii_bytes(",\"byteEnd\":"@) + dec_bytes(end as int)
                + ascii_bytes("},\"features\":["@),
            s@.subrange(j5 as int, k as int) == (if features@.len() == 0 {
                Seq::<u8>::empty()
            } else {
                join_comma(features@.map_values(|ft: Feature| feature_json(ft))) + seq![0x2cu8]
            }),
        decreases s.len() - k,
    {
        let (f, k2) = match parse_feature_at(s, k) {
            Some(p) => p,
            None => {
                return None;
            },
        };
        proof {
            lemma_join_push(features@.map_values(|ft: Feature| feature_json(ft)), feature_json(f));
            assert(features@.push(f).map_values(|ft: Feature| feature_json(ft)) =~= features@
                .map_values(|ft: Feature| feature_json(ft)).push(feature_json(f)));
            assert(s@.subrange(j5 as int, k2 as int) =~= join_comma(
                features@.push(f).map_values(|ft: Feature| feature_json(ft)),
            ));
        }
        features.push(f);
        if k2 < s.len() && s[k2] == 0x2c {
            proof {
                assert(s@.subrange(j5 as int, k2 + 1 as int) =~= join_comma(
                    features@.map_values(|ft: Feature| feature_json(ft)),
                ) + seq![0x2cu8]);
            }
            k = k2 + 1;
        } else if s.len() - k2 >= 2 && s[k2] == 0x5d && s[k2 + 1] == 0x7d {
            let fc = Facet {
                index: crate::facet::FacetIndex { byte_start: start, byte_end: end },
                features,
            };
            proof {
                reveal_strlit("]}");
                assert(ascii_bytes("]}"@) =~= seq![0x5du8, 0x7du8]);
                assert(s@.subrange(i as int, k2 as int) =~= s@.subrange(i as int, j5 as int)
                    + s@.subrange(j5 as int, k2 as int));
                assert(s@.subrange(i as int, k2 + 2 as int) =~= s@.subrange(i as int, k2 as int)
                    + seq![0x5du8, 0x7du8]);
                assert(s@.subrange(i as int, k2 + 2 as int) =~= facet_json(fc));
            }
            return Some((fc, k2 + 2));
        } else {
            return None;
        }
    }
}


/// Parses the elements of the facets array and its closing bracket.
fn parse_facet_list_at(s: &Vec<u8>, i: usize) -> (r: Option<(Vec<Facet>, usize)>)
    requires
        i <= s.len(),
    ensures
        r matches Some((fs, j)) ==> i < j <= s.len() && s@.subrange(i as int, j as int)
            == join_comma(fs@.map_values(|f: Facet| facet_json(f))) + seq![0x5du8],
{
    let mut fs: Vec<Facet> = Vec::new();
    let mut k: usize = i;
    if k < s.len() && s[k] == 0x5d {
        proof {
            assert(fs@.map_values(|f: Facet| facet_json(f)) =~= Seq::<Seq<u8>>::empty());
            assert(s@.subrange(i as int, k + 1 as int) =~= join_comma(
                fs@.map_values(|f: Facet| facet_json(f)),
            ) + seq![0x5du8]);
        }
        return Some((fs, k + 1));
    }
    while k < s.len()
        invariant
            i <= k <= s.len(),
            s@.subrange(i as int, k as int) == (if fs@.len() == 0 {
                Seq::<u8>::empty()
            } else {
                join_comma(fs@.map_values(|f: Facet| facet_json(f))) + seq![0x2cu8]
            }),
        decreases s.len() - k,
    {
        let (f, k2) = match parse_facet_at(s, k) {
            Some(p) => p,
            None => {
                return None;
            },
        };
        proof {
            lemma_join_push(fs@.map_values(|f: Facet| facet_json(f)), facet_json(f));
            assert(fs@.push(f).map_values(|f: Facet| facet_json(f)) =~= fs@.map_values(
                |f: Facet| facet_json(f),
            ).push(facet_json(f)));
            assert(s@.subrange(i as int, k2 as int) =~= join_comma(
                fs@.push(f).map_values(|f: Facet| facet_json(f)),
            ));
        }
        fs.push(f);
        if k2 < s.len() && s[k2] == 0x2c {
            proof {
                assert(s@.subrange(i as int, k2 + 1 as int) =~= join_comma(
                    fs@.map_values(|f: Facet| facet_json(f)),
                ) + seq![0x2cu8]);
            }
            k = k2 + 1;
        } else if k2 < s.len() && s[k2] == 0x5d {
            proof {
                assert(s@.subrange(i as int, k2 + 1 as int) =~= join_comma(
                    fs@.map_values(|f: Facet| facet_json(f)),
                ) + seq![0x5du8]);
            }
            return Some((fs, k2 + 1));
        } else {
            return None;
        }
    }
    None
}

/// Parses the elements of a string array and its closing bracket.
fn parse_string_list_at(s: &Vec<u8>, i: usize) -> (r: Option<(Vec<Vec<u8>>, usize)>)
    requires
        i <= s.len(),
    ensures
        r matches Some((xs, j)) ==> i < j <= s.len() && s@.subrange(i as int, j as int)
            == join_comma(xs@.map_values(|x: Vec<u8>| json_string(x@))) + seq![0x5du8],
{
    let mut xs: Vec<Vec<u8>> = Vec::new();
    let mut k: usize = i;
    if k < s.len() && s[k] == 0x5d {
        proof {
            assert(xs@.map_values(|x: Vec<u8>| json_string(x@)) =~= Seq::<Seq<u8>>::empty());
            assert(s@.subrange(i as int, k + 1 as int) =~= join_comma(
                xs@.map_values(|x: Vec<u8>| json_string(x@)),
            ) + seq![0x5du8]);
        }
        return Some((xs, k + 1));
    }
    while k < s.len()
        invariant
            i <= k <= s.len(),
            s@.subrange(i as int, k as int) == (if xs@.len() == 0 {
                Seq::<u8>::empty()
            } else {
                join_comma(xs@.map_values(|x: Vec<u8>| json_string(x@))) + seq![0x2cu8]
            }),
        decreases s.len() - k,
    {
        let (x, k2) = match parse_json_string_at(s, k) {
            Some(p) => p,
            None => {
                return None;
            },
        };
        proof {
            lemma_join_push(xs@.map_values(|x: Vec<u8>| json_string(x@)), json_string(x@));
            assert(xs@.push(x).map_values(|x: Vec<u8>| json_string(x@)) =~= xs@.map_values(
                |x: Vec<u8>| json_string(x@),
            ).push(json_string(x@)));
            assert(s@.subrange(i as int, k2 as int) =~= join_comma(
                xs@.push(x).map_values(|x: Vec<u8>| json_string(x@)),
            ));
        }
        xs.push(x);
        if k2 < s.len() && s[k2] == 0x2c {
            proof {
                assert(s@.subrange(i as int, k2 + 1 as int) =~= join_comma(
                    xs@.map_values(|x: Vec<u8>| json_string(x@)),
                ) + seq![0x2cu8]);
            }
            k = k2 + 1;
        } else if k2 < s.len() && s[k2] == 0x5d {
            proof {
                assert(s@.subrange(i as int, k2 + 1 as int) =~= join_comma(
                    xs@.map_values(|x: Vec<u8>| json_string(x@)),
                ) + seq![0x5du8]);
            }
            return Some((xs, k2 + 1));
        } else {
            return None;
        }
    }
    None
}

/// Parses one label object at `i`.
fn parse_label_at(s: &Vec<u8>, i: usize) -> (r: Option<(SelfLabel, usize)>)
    requires
        i <= s.len(),
    ensures
        r matches Some((l, j)) ==> i < j <= s.len() && s@.subrange(i as int, j as int)
            == label_json(l),
{
    proof {
        reveal_strlit("{\"val\":");
    }
    let j1 = match expect_lit(s, i, "{\"val\":") {
        Some(j) => j,
        None => {
            return None;
        },
    };
    let (v, j2) = match parse_json_string_at(s, j1) {
        Some(p) => p,
        None => {
            return None;
        },
    };
    if j2 >= s.len() || s[j2] != 0x7d {
        return None;
    }
    let l = SelfLabel { val: v };
    proof {
        assert(s@.subrange(i as int, j2 + 1 as int) =~= label_json(l));
    }
    Some((l, j2 + 1))
}

/// Parses the labels object at `i`.
fn parse_labels_at(s: &Vec<u8>, i: usize) -> (r: Option<(SelfLabels, usize)>)
    requires
        i <= s.len(),
    ensures
        r matches Some((ls, j)) ==> i < j <= s.len() && s@.subrange(i as int, j as int)
            == labels_json(ls),
{
    proof {
        reveal_strlit("{\"$type\":");
        reveal_strlit(",\"values\":[");
        reveal_strlit("]}");
        assert(ascii_bytes("]}"@) =~= seq![0x5du8, 0x7du8]);
    }
    let j1 = match expect_lit(s, i, "{\"$type\":") {
        Some(j) => j,
        None => {
            return None;
        },
    };
    let (stype, j2) = match parse_json_string_at(s, j1) {
        Some(p) => p,
        None => {
            return None;
        },
    };
    let j3 = match expect_lit(s, j2, ",\"values\":[") {
        Some(j) => j,
        None => {
            return None;
        },
    };
    let mut values: Vec<SelfLabel> = Vec::new();
    let mut k: usize = j3;
    if s.len() - k >= 2 && s[k] == 0x5d && s[k + 1] == 0x7d {
        let ls = SelfLabels { selflabels_type: stype, values };
        proof {
            assert(ls.values@.map_values(|l: SelfLabel| label_json(l)) =~= Seq::<
                Seq<u8>,
            >::empty());
            assert(s@.subrange(i as int, k + 2 as int) =~= labels_json(ls));
        }
        return Some((ls, k + 2));
    }
    while k < s.len()
        invariant
            j3 <= k <= s.len(),
            i < j3 <= s.len(),
            s@.subrange(i as int, j3 as int) == ascii_bytes("{\"$type\":"@) + json_string(stype@)
                + ascii_bytes(",\"values\":["@),
            s@.subrange(j3 as int, k as int) == (if values@.len() == 0 {
                Seq::<u8>::empty()
            } else {
                join_comma(values@.map_values(|l: SelfLabel| label_json(l))) + seq![0x2cu8]
            }),
        decreases s.len() - k,
    {
        let (l, k2) = match parse_label_at(s, k) {
            Some(p) => p,
            None => {
                return None;
            },
        };
        proof {
            lemma_join_push(values@.map_values(|l: SelfLabel| label_json(l)), label_json(l));
            assert(values@.push(l).map_values(|l: SelfLabel| label_json(l)) =~= values@.map_values(
                |l: SelfLabel| label_json(l),
            ).push(label_json(l)));
            assert(s@.subrange(j3 as int, k2 as int) =~= join_comma(
                values@.push(l).map_values(|l: SelfLabel| label_json(l)),
            ));
        }
        values.push(l);
        if k2 < s.len() && s[k2] == 0x2c {
            proof {
                assert(s@.subrange(j3 as int, k2 + 1 as int) =~= join_comma(
                    values@.map_values(|l: SelfLabel| label_json(l)),
                ) + seq![0x2cu8]);
            }
            k = k2 + 1;
        } else if s.len() - k2 >= 2 && s[k2] == 0x5d && s[k2 + 1] == 0x7d {
            let ls = SelfLabels { selflabels_type: stype, values };
            proof {
                reveal_strlit("]}");
                assert(ascii_bytes("]}"@) =~= seq![0x5du8, 0x7du8]);
                assert(s@.subrange(i as int, k2 as int) =~= s@.subrange(i as int, j3 as int)
                    + s@.subrange(j3 as int, k2 as int));
                assert(s@.subrange(i as int, k2 + 2 as int) =~= s@.subrange(i as int, k2 as int)
                    + seq![0x5du8, 0x7du8]);
                assert(s@.subrange(i as int, k2 + 2 as int) =~= labels_json(ls));
            }
            return Some((ls, k2 + 2));
        } else {
            return None;
        }
    }
    None
}

/// A literal expected at `i`: the position just past it on a match.
pub open spec fn lit_at(s: Seq<u8>, i: int, lit: Seq<u8>) -> Option<int> {
    if 0 <= i && i + lit.len() <= s.len() && s.subrange(i, i + lit.len()) == lit {
        Option::Some(i + lit.len())
    } else {
        Option::None
    }
}

/// The fixed head of a record encoding: type tag, creation timestamp
/// and text.
pub open spec fn head_bytes(rt: Seq<u8>, ca: Seq<u8>, tx: Seq<u8>) -> Seq<u8> {
    ascii_bytes("{\"$type\":"@) + json_string(rt) + ascii_bytes(",\"createdAt\":"@) + json_string(
        ca,
    ) + ascii_bytes(",\"text\":"@) + json_string(tx)
}

/// Spec-level parse of the head of a record encoding.
pub open spec fn spec_head(s: Seq<u8>) -> Option<(Seq<u8>, Seq<u8>, Seq<u8>, int)> {
    match lit_at(s, 0, ascii_bytes("{\"$type\":"@)) {
        Option::None => Option::None,
        Option::Some(j1) => match parse_jstring_at(s, j1) {
            Option::None => Option::None,
            Option::Some((rt, j2)) => match lit_at(s, j2, ascii_bytes(",\"createdAt\":"@)) {
                Option::None => Option::None,
                Option::Some(j3) => match parse_jstring_at(s, j3) {
                    Option::None => Option::None,
                    Option::Some((ca, j4)) => match lit_at(s, j4, ascii_bytes(",\"text\":"@)) {
                        Option::None => Option::None,
                        Option::Some(j5) => match parse_jstring_at(s, j5) {
                            Option::None => Option::None,
                            Option::Some((tx, j6)) => Option::Some((rt, ca, tx, j6)),
                        },
                    },
                },
            },
        },
    }
}

/// Wherever `s` starts with the head encoding of `rt`, `ca` and `tx`,
/// the head parser yields exactly those values.
#[verifier::rlimit(100)]
pub proof fn lemma_spec_head_of(s: Seq<u8>, rt: Seq<u8>, ca: Seq<u8>, tx: Seq<u8>)
    requires
        head_bytes(rt, ca, tx).len() <= s.len(),
        s.subrange(0, head_bytes(rt, ca, tx).len() as int) == head_bytes(rt, ca, tx),
    ensures
        spec_head(s) == Some((rt, ca, tx, head_bytes(rt, ca, tx).len() as int)),
{
    let l1 = ascii_bytes("{\"$type\":"@);
    let l2 = ascii_bytes(",\"createdAt\":"@);
    let l3 = ascii_bytes(",\"text\":"@);
    let h = head_bytes(rt, ca, tx);
    assert(forall|m: int| 0 <= m < h.len() ==> s[m] == #[trigger] h[m]) by {
        assert(forall|m: int|
            0 <= m < h.len() ==> s.subrange(0, h.len() as int)[m] == s[m] && #[trigger] h[m]
                == s.subrange(0, h.len() as int)[m]);
    }
    let o1 = l1.len() as int;
    let o2 = o1 + json_string(rt).len();
    let o3 = o2 + l2.len();
    let o4 = o3 + json_string(ca).len();
    let o5 = o4 + l3.len();
    let o6 = o5 + json_string(tx).len();
    assert(h.len() == o6);
    assert(forall|m: int| 0 <= m < l1.len() ==> h[m] == #[trigger] l1[m]);
    assert(forall|m: int| 0 <= m < json_string(rt).len() ==> h[o1 + m] == #[trigger] json_string(
        rt,
    )[m]);
    assert(forall|m: int| 0 <= m < l2.len() ==> h[o2 + m] == #[trigger] l2[m]);
    assert(forall|m: int| 0 <= m < json_string(ca).len() ==> h[o3 + m] == #[trigger] json_string(
        ca,
    )[m]);
    assert(forall|m: int| 0 <= m < l3.len() ==> h[o4 + m] == #[trigger] l3[m]);
    assert(forall|m: int| 0 <= m < json_string(tx).len() ==> h[o5 + m] == #[trigger] json_string(
        tx,
    )[m]);
    assert(s.subrange(0, o1) =~= l1);
    assert(lit_at(s, 0, l1) == Some(o1));
    assert(s.subrange(o1, o1 + json_string(rt).len()) =~= json_string(rt));
    lemma_parse_jstring_of(s, o1, rt);
    assert(s.subrange(o2, o2 + l2.len()) =~= l2);
    assert(lit_at(s, o2, l2) == Some(o3));
    assert(s.subrange(o3, o3 + json_string(ca).len()) =~= json_string(ca));
    lemma_parse_jstring_of(s, o3, ca);
    assert(s.subrange(o4, o4 + l3.len()) =~= l3);
    assert(lit_at(s, o4, l3) == Some(o5));
    assert(s.subrange(o5, o5 + json_string(tx).len()) =~= json_string(tx));
    lemma_parse_jstring_of(s, o5, tx);
}

/// Parses the fixed head of a record, exactly as `spec_head`: type tag,
/// creation timestamp and text.
#[verifier::rlimit(60)]
fn parse_post_head(s: &Vec<u8>) -> (r: Option<(Vec<u8>, Vec<u8>, Vec<u8>, usize)>)
    ensures
        (r is Some <==> spec_head(s@) is Some),
        r matches Some((rt, ca, tx, j)) ==> 0 < j <= s.len() && s@.subrange(0, j as int)
            == head_bytes(rt@, ca@, tx@) && spec_head(s@) == Some((rt@, ca@, tx@, j as int)),
{
    proof {
        reveal_strlit("{\"$type\":");
        reveal_strlit(",\"createdAt\":");
        reveal_strlit(",\"text\":");
    }
    let j1 = match expect_lit(s, 0, "{\"$type\":") {
        Some(j) => j,
        None => {
            return None;
        },
    };
    let (record_type, j2) = match parse_json_string_at(s, j1) {
        Some(p) => p,
        None => {
            return None;
        },
    };
    let j3 = match expect_lit(s, j2, ",\"createdAt\":") {
        Some(j) => j,
        None => {
            return None;
        },
    };
    let (created_at, j4) = match parse_json_string_at(s, j3) {
        Some(p) => p,
        None => {
            return None;
        },
    };
    let j5 = match expect_lit(s, j4, ",\"text\":") {
        Some(j) => j,
        None => {
            return None;
        },
    };
    let (text, j6) = match parse_json_string_at(s, j5) {
        Some(p) => p,
        None => {
            return None;
        },
    };
    proof {
        assert(s@.subrange(0, j6 as int) =~= head_bytes(record_type@, created_at@, text@));
    }
    Some((record_type, created_at, text, j6))
}

/// Parses the optional facets section at `i`; consumes nothing when the
/// section is absent.
fn parse_facets_section(s: &Vec<u8>, i: usize) -> (r: Option<(Option<Vec<Facet>>, usize)>)
    requires
        i <= s.len(),
    ensures
        r matches Some((of, j)) ==> i <= j <= s.len() && s@.subrange(i as int, j as int) == (
        match of {
            Option::None => Seq::<u8>::empty(),
            Option::Some(fs) => ascii_bytes(",\"facets\":["@) + join_comma(
                fs@.map_values(|f: Facet| facet_json(f)),
            ) + seq![0x5du8],
        }),
        r is None ==> lit_at(s@, i as int, ascii_bytes(",\"facets\":["@)) is Some,
{
    proof {
        reveal_strlit(",\"facets\":[");
    }
    if let Some(ja) = expect_lit(s, i, ",\"facets\":[") {
        let (fs, jb) = match parse_facet_list_at(s, ja) {
            Some(p) => p,
            None => {
                return None;
            },
        };
        proof {
            assert(s@.subrange(i as int, jb as int) =~= s@.subrange(i as int, ja as int)
                + s@.subrange(ja as int, jb as int));
        }
        Some((Some(fs), jb))
    } else {
        proof {
            assert(s@.subrange(i as int, i as int) =~= Seq::<u8>::empty());
        }
        Some((None, i))
    }
}

/// Parses one optional string-array section introduced by `lit` at `i`;
/// consumes nothing when the section is absent.
fn parse_string_section(s: &Vec<u8>, i: usize, lit: &str) -> (r: Option<
    (Option<Vec<Vec<u8>>>, usize),
>)
    requires
        i <= s.len(),
        vstd::string::is_ascii(lit),
    ensures
        r matches Some((oxs, j)) ==> i <= j <= s.len() && s@.subrange(i as int, j as int) == (
        match oxs {
            Option::None => Seq::<u8>::empty(),
            Option::Some(xs) => ascii_bytes(lit@) + join_comma(
                xs@.map_values(|x: Vec<u8>| json_string(x@)),
            ) + seq![0x5du8],
        }),
        r is None ==> lit_at(s@, i as int, ascii_bytes(lit@)) is Some,
{
    if let Some(ja) = expect_lit(s, i, lit) {
        let (xs, jb) = match parse_string_list_at(s, ja) {
            Some(p) => p,
            None => {
                return None;
            },
        };
        proof {
            assert(s@.subrange(i as int, jb as int) =~= s@.subrange(i as int, ja as int)
                + s@.subrange(ja as int, jb as int));
        }
        Some((Some(xs), jb))
    } else {
        proof {
            assert(s@.subrange(i as int, i as int) =~= Seq::<u8>::empty());
        }
        Some((None, i))
    }
}

/// Parses the optional labels section at `i`; consumes nothing when the
/// section is absent.
fn parse_labels_section(s: &Vec<u8>, i: usize) -> (r: Option<(Option<SelfLabels>, usize)>)
    requires
        i <= s.len(),
    ensures
        r matches Some((ols, j)) ==> i <= j <= s.len() && s@.subrange(i as int, j as int) == (
        match ols {
            Option::None => Seq::<u8>::empty(),
            Option::Some(ls) => ascii_bytes(",\"labels\":"@) + labels_json(ls),
        }),
        r is None ==> lit_at(s@, i as int, ascii_bytes(",\"labels\":"@)) is Some,
{
    proof {
        reveal_strlit(",\"labels\":");
    }
    if let Some(ja) = expect_lit(s, i, ",\"labels\":") {
        let (ls, jb) = match parse_labels_at(s, ja) {
            Some(p) => p,
            None => {
                return None;
            },
        };
        proof {
            assert(s@.subrange(i as int, jb as int) =~= s@.subrange(i as int, ja as int)
                + s@.subrange(ja as int, jb as int));
        }
        Some((Some(ls), jb))
    } else {
        proof {
            assert(s@.subrange(i as int, i as int) =~= Seq::<u8>::empty());
        }
        Some((None, i))
    }
}

/// A record with none of the optional sections present.
pub open spec fn plain_post(p: Post) -> bool {
    &&& p.facets is None
    &&& p.langs is None
    &&& p.tags is None
    &&& p.labels is None
}

/// The encoding of a plain record is its head plus the closing brace.
pub proof fn lemma_plain_post_json(p: Post)
    requires
        plain_post(p),
    ensures
        post_json(p) == head_bytes(p.record_type@, p.created_at@, p.text@) + seq![0x7du8],
{
    assert(post_json(p) =~= head_bytes(p.record_type@, p.created_at@, p.text@) + seq![0x7du8]);
}

/// The shape of an input that is the encoding of a plain record: the
/// head parses to exactly the record's fields, and one closing brace
/// remains.
pub proof fn lemma_plain_structure(s: Seq<u8>, p: Post)
    requires
        plain_post(p),
        post_json(p) == s,
    ensures
        ({
            let h = head_bytes(p.record_type@, p.created_at@, p.text@);
            &&& s.len() == h.len() + 1
            &&& s[h.len() as int] == 0x7d
            &&& spec_head(s) == Some(
                (p.record_type@, p.created_at@, p.text@, h.len() as int),
            )
        }),
{
    lemma_plain_post_json(p);
    let h = head_bytes(p.record_type@, p.created_at@, p.text@);
    assert(s.len() == h.len() + 1);
    assert(s[h.len() as int] == (h + seq![0x7du8])[h.len() as int]);
    assert(s.subrange(0, h.len() as int) =~= h);
    lemma_spec_head_of(s, p.record_type@, p.created_at@, p.text@);
}

/// Parses the canonical encoding of a whole record, both ways exact on
/// records without optional sections: anything this function accepts
/// re-serializes to exactly the input, and the encoding of any record
/// without facets, langs, tags or labels is accepted.
#[verifier::rlimit(100)]
pub fn post_from_json(s: &Vec<u8>) -> (r: Option<Post>)
    ensures
        r matches Some(p) ==> post_json(p) == s@,
        forall|p: Post|
            #[trigger] post_json(p) == s@ && plain_post(p) ==> r is Some,
{
    proof {
        reveal_strlit(",\"langs\":[");
        reveal_strlit(",\"tags\":[");
    }
    let (record_type, created_at, text, j6) = match parse_post_head(s) {
        Some(p) => p,
        None => {
            proof {
                assert forall|p: Post| !(#[trigger] post_json(p) == s@ && plain_post(p)) by {
                    if post_json(p) == s@ && plain_post(p) {
                        lemma_plain_structure(s@, p);
                    }
                }
            }
            return None;
        },
    };
    let (facets, j7) = match parse_facets_section(s, j6) {
        Some(p) => p,
        None => {
            proof {
                reveal_strlit(",\"facets\":[");
                assert forall|p: Post| !(#[trigger] post_json(p) == s@ && plain_post(p)) by {
                    if post_json(p) == s@ && plain_post(p) {
                        lemma_plain_structure(s@, p);
                    }
                }
            }
            return None;
        },
    };
    proof {
        reveal_strlit(",\"facets\":[");
    }
    let (langs, j8) = match parse_string_section(s, j7, ",\"langs\":[") {
        Some(p) => p,
        None => {
            proof {
                reveal_strlit(",\"facets\":[");
                reveal_strlit(",\"langs\":[");
                assert forall|p: Post| !(#[trigger] post_json(p) == s@ && plain_post(p)) by {
                    if post_json(p) == s@ && plain_post(p) {
                        lemma_plain_structure(s@, p);
                        reveal_strlit(",\"facets\":[");
                        if facets is Some {
                            let fs = facets->Some_0;
                            assert(s@.subrange(j6 as int, j7 as int).len() == (ascii_bytes(
                                ",\"facets\":["@,
                            ) + join_comma(fs@.map_values(|f: Facet| facet_json(f)))
                                + seq![0x5du8]).len());
                            assert(false);
                        }
                        assert(s@.subrange(j6 as int, j7 as int).len() == 0);
                        assert(facets is None && j7 == j6);
                    }
                }
            }
            return None;
        },
    };
    proof {
        reveal_strlit(",\"langs\":[");
    }
    let (tags, j9) = match parse_string_section(s, j8, ",\"tags\":[") {
        Some(p) => p,
        None => {
            proof {
                reveal_strlit(",\"facets\":[");
                reveal_strlit(",\"langs\":[");
                reveal_strlit(",\"tags\":[");
                assert forall|p: Post| !(#[trigger] post_json(p) == s@ && plain_post(p)) by {
                    if post_json(p) == s@ && plain_post(p) {
                        lemma_plain_structure(s@, p);
                        reveal_strlit(",\"facets\":[");
                        if facets is Some {
                            let fs = facets->Some_0;
                            assert(s@.subrange(j6 as int, j7 as int).len() == (ascii_bytes(
                                ",\"facets\":["@,
                            ) + join_comma(fs@.map_values(|f: Facet| facet_json(f)))
                                + seq![0x5du8]).len());
                            assert(false);
                        }
                        assert(s@.subrange(j6 as int, j7 as int).len() == 0);
                        assert(facets is None && j7 == j6);
                        reveal_strlit(",\"langs\":[");
                        if langs is Some {
                            let xs = langs->Some_0;
                            assert(s@.subrange(j7 as int, j8 as int).len() == (ascii_bytes(
                                ",\"langs\":["@,
                            ) + join_comma(xs@.map_values(|x: Vec<u8>| json_string(x@)))
                                + seq![0x5du8]).len());
                            assert(false);
                        }
                        assert(s@.subrange(j7 as int, j8 as int).len() == 0);
                        assert(langs is None && j8 == j7);
                    }
                }
            }
            return None;
        },
    };
    proof {
        reveal_strlit(",\"tags\":[");
    }
    let (labels, j10) = match parse_labels_section(s, j9) {
        Some(p) => p,
        None => {
            proof {
                reveal_strlit(",\"facets\":[");
                reveal_strlit(",\"langs\":[");
                reveal_strlit(",\"tags\":[");
                reveal_strlit(",\"labels\":");
                assert forall|p: Post| !(#[trigger] post_json(p) == s@ && plain_post(p)) by {
                    if post_json(p) == s@ && plain_post(p) {
                        lemma_plain_structure(s@, p);
                        reveal_strlit(",\"facets\":[");
                        if facets is Some {
                            let fs = facets->Some_0;
                            assert(s@.subrange(j6 as int, j7 as int).len() == (ascii_bytes(
                                ",\"facets\":["@,
                            ) + join_comma(fs@.map_values(|f: Facet| facet_json(f)))
                                + seq![0x5du8]).len());
                            assert(false);
                        }
                        assert(s@.subrange(j6 as int, j7 as int).len() == 0);
                        assert(facets is None && j7 == j6);
                        reveal_strlit(",\"langs\":[");
                        if langs is Some {
                            let xs = langs->Some_0;
                            assert(s@.subrange(j7 as int, j8 as int).len() == (ascii_bytes(
                                ",\"langs\":["@,
                            ) + join_comma(xs@.map_values(|x: Vec<u8>| json_string(x@)))
                                + seq![0x5du8]).len());
                            assert(false);
                        }
                        assert(s@.subrange(j7 as int, j8 as int).len() == 0);
                        assert(langs is None && j8 == j7);
                        reveal_strlit(",\"tags\":[");
                        if tags is Some {
                            let xs = tags->Some_0;
                            assert(s@.subrange(j8 as int, j9 as int).len() == (ascii_bytes(
                                ",\"tags\":["@,
                            ) + join_comma(xs@.map_values(|x: Vec<u8>| json_string(x@)))
                                + seq![0x5du8]).len());
                            assert(false);
                        }
                        assert(s@.subrange(j8 as int, j9 as int).len() == 0);
                        assert(tags is None && j9 == j8);
                    }
                }
            }
            return None;
        },
    };
    if j10 >= s.len() || s[j10] != 0x7d {
        proof {
            reveal_strlit(",\"facets\":[");
            reveal_strlit(",\"langs\":[");
            reveal_strlit(",\"tags\":[");
            reveal_strlit(",\"labels\":");
            assert forall|p: Post| !(#[trigger] post_json(p) == s@ && plain_post(p)) by {
                if post_json(p) == s@ && plain_post(p) {
                    lemma_plain_structure(s@, p);
                    reveal_strlit(",\"facets\":[");
                        if facets is Some {
                            let fs = facets->Some_0;
                            assert(s@.subrange(j6 as int, j7 as int).len() == (ascii_bytes(
                                ",\"facets\":["@,
                            ) + join_comma(fs@.map_values(|f: Facet| facet_json(f)))
                                + seq![0x5du8]).len());
                            assert(false);
                        }
                        assert(s@.subrange(j6 as int, j7 as int).len() == 0);
                        assert(facets is None && j7 == j6);
                    reveal_strlit(",\"langs\":[");
                        if langs is Some {
                            let xs = langs->Some_0;
                            assert(s@.subrange(j7 as int, j8 as int).len() == (ascii_bytes(
                                ",\"langs\":["@,
                            ) + join_comma(xs@.map_values(|x: Vec<u8>| json_string(x@)))
                                + seq![0x5du8]).len());
                            assert(false);
                        }
                        assert(s@.subrange(j7 as int, j8 as int).len() == 0);
                        assert(langs is None && j8 == j7);
                    reveal_strlit(",\"tags\":[");
                        if tags is Some {
                            let xs = tags->Some_0;
                            assert(s@.subrange(j8 as int, j9 as int).len() == (ascii_bytes(
                                ",\"tags\":["@,
                            ) + join_comma(xs@.map_values(|x: Vec<u8>| json_string(x@)))
                                + seq![0x5du8]).len());
                            assert(false);
                        }
                        assert(s@.subrange(j8 as int, j9 as int).len() == 0);
                        assert(tags is None && j9 == j8);
                    reveal_strlit(",\"labels\":");
                        if labels is Some {
                            let ls = labels->Some_0;
                            assert(s@.subrange(j9 as int, j10 as int).len() == (ascii_bytes(
                                ",\"labels\":"@,
                            ) + labels_json(ls)).len());
                            assert(false);
                        }
                        assert(s@.subrange(j9 as int, j10 as int).len() == 0);
                        assert(labels is None && j10 == j9);
                }
            }
        }
        return None;
    }
    if j10 + 1 != s.len() {
        proof {
            reveal_strlit(",\"facets\":[");
            reveal_strlit(",\"langs\":[");
            reveal_strlit(",\"tags\":[");
            reveal_strlit(",\"labels\":");
            assert forall|p: Post| !(#[trigger] post_json(p) == s@ && plain_post(p)) by {
                if post_json(p) == s@ && plain_post(p) {
                    lemma_plain_structure(s@, p);
                    reveal_strlit(",\"facets\":[");
                        if facets is Some {
                            let fs = facets->Some_0;
                            assert(s@.subrange(j6 as int, j7 as int).len() == (ascii_bytes(
                                ",\"facets\":["@,
                            ) + join_comma(fs@.map_values(|f: Facet| facet_json(f)))
                                + seq![0x5du8]).len());
                            assert(false);
                        }
                        assert(s@.subrange(j6 as int, j7 as int).len() == 0);
                        assert(facets is None && j7 == j6);
                    reveal_strlit(",\"langs\":[");
                        if langs is Some {
                            let xs = langs->Some_0;
                            assert(s@.subrange(j7 as int, j8 as int).len() == (ascii_bytes(
                                ",\"langs\":["@,
                            ) + join_comma(xs@.map_values(|x: Vec<u8>| json_string(x@)))
                                + seq![0x5du8]).len());
                            assert(false);
                        }
                        assert(s@.subrange(j7 as int, j8 as int).len() == 0);
                        assert(langs is None && j8 == j7);
                    reveal_strlit(",\"tags\":[");
                        if tags is Some {
                            let xs = tags->Some_0;
                            assert(s@.subrange(j8 as int, j9 as int).len() == (ascii_bytes(
                                ",\"tags\":["@,
                            ) + join_comma(xs@.map_values(|x: Vec<u8>| json_string(x@)))
                                + seq![0x5du8]).len());
                            assert(false);
                        }
                        assert(s@.subrange(j8 as int, j9 as int).len() == 0);
                        assert(tags is None && j9 == j8);
                    reveal_strlit(",\"labels\":");
                        if labels is Some {
                            let ls = labels->Some_0;
                            assert(s@.subrange(j9 as int, j10 as int).len() == (ascii_bytes(
                                ",\"labels\":"@,
                            ) + labels_json(ls)).len());
                            assert(false);
                        }
                        assert(s@.subrange(j9 as int, j10 as int).len() == 0);
                        assert(labels is None && j10 == j9);
                }
            }
        }
        return None;
    }
    let p = Post { record_type, created_at, text, facets, langs, tags, labels };
    proof {
        assert(s@.subrange(0, j7 as int) =~= s@.subrange(0, j6 as int) + s@.subrange(
            j6 as int,
            j7 as int,
        ));
        assert(s@.subrange(0, j8 as int) =~= s@.subrange(0, j7 as int) + s@.subrange(
            j7 as int,
            j8 as int,
        ));
        assert(s@.subrange(0, j9 as int) =~= s@.subrange(0, j8 as int) + s@.subrange(
            j8 as int,
            j9 as int,
        ));
        assert(s@.subrange(0, j10 as int) =~= s@.subrange(0, j9 as int) + s@.subrange(
            j9 as int,
            j10 as int,
        ));
        assert(s@ =~= s@.subrange(0, j10 as int) + seq![0x7du8]);
        assert(post_json(p) =~= s@);
    }
    Some(p)
}


/// Lowercase hexadecimal digit bytes and their values.
pub open spec fn is_lhex(b: u8) -> bool {
    (0x30 <= b && b <= 0x39) || (0x61 <= b && b <= 0x66)
}

pub open spec fn lhex_val(b: u8) -> int {
    if 0x30 <= b && b <= 0x39 {
        b - 0x30
    } else {
        b - 0x57
    }
}

/// Decoded byte of a two-character escape `\c`.
pub open spec fn short_unescape(c: u8) -> u8 {
    if c == 0x22 {
        0x22
    } else if c == 0x5c {
        0x5c
    } else if c == 0x62 {
        0x08
    } else if c == 0x74 {
        0x09
    } else if c == 0x6e {
        0x0a
    } else if c == 0x66 {
        0x0c
    } else {
        0x0d
    }
}

pub open spec fn is_short_escape(c: u8) -> bool {
    c == 0x22 || c == 0x5c || c == 0x62 || c == 0x74 || c == 0x6e || c == 0x66 || c == 0x72
}

/// Prepends already-decoded bytes onto a decode continuation.
pub open spec fn prepend_decoded(pre: Seq<u8>, m: Option<(Seq<u8>, int)>) -> Option<
    (Seq<u8>, int),
> {
    match m {
        Option::None => Option::None,
        Option::Some((w, j)) => Option::Some((pre + w, j)),
    }
}

/// Spec-level parse of a canonical escaped string body starting at `i`,
/// up to and including the closing quote: the decoded bytes and the
/// position just past the quote. Only canonical input decodes: no raw
/// control bytes, and `\u00xx` only for control bytes that have no
/// shorter escape, with lowercase hex digits.
pub open spec fn unescape_at(s: Seq<u8>, i: int) -> Option<(Seq<u8>, int)>
    decreases s.len() - i,
{
    if i < 0 || i >= s.len() {
        Option::None
    } else if s[i] == 0x22 {
        Option::Some((Seq::empty(), i + 1))
    } else if s[i] == 0x5c {
        if i + 1 >= s.len() {
            Option::None
        } else {
            let c = s[i + 1];
            if is_short_escape(c) {
                prepend_decoded(seq![short_unescape(c)], unescape_at(s, i + 2))
            } else if c == 0x75 {
                if i + 6 > s.len() {
                    Option::None
                } else if s[i + 2] == 0x30 && s[i + 3] == 0x30 && is_lhex(s[i + 4]) && is_lhex(
                    s[i + 5],
                ) {
                    let b = (16 * lhex_val(s[i + 4]) + lhex_val(s[i + 5])) as u8;
                    if b < 0x20 && b != 0x08 && b != 0x09 && b != 0x0a && b != 0x0c && b != 0x0d {
                        prepend_decoded(seq![b], unescape_at(s, i + 6))
                    } else {
                        Option::None
                    }
                } else {
                    Option::None
                }
            } else {
                Option::None
            }
        }
    } else if s[i] < 0x20 {
        Option::None
    } else {
        prepend_decoded(seq![s[i]], unescape_at(s, i + 1))
    }
}

/// Decoding inverts encoding: wherever the escaped form of `v` plus a
/// closing quote sits in `s`, the decoder yields exactly `v` and stops
/// just past the quote.
pub proof fn lemma_unescape_escaped(s: Seq<u8>, i: int, v: Seq<u8>)
    requires
        0 <= i,
        i + escape_bytes(v).len() + 1 <= s.len(),
        s.subrange(i, i + escape_bytes(v).len() + 1) == escape_bytes(v) + seq![0x22u8],
    ensures
        unescape_at(s, i) == Some((v, i + escape_bytes(v).len() + 1)),
    decreases v.len(),
{
    let e = escape_bytes(v);
    let sub = s.subrange(i, i + e.len() + 1);
    if v.len() == 0 {
        assert(e =~= Seq::<u8>::empty());
        assert(s[i] == sub[0]);
        assert(s[i] == 0x22);
    } else {
        let e0 = escape_byte(v[0]);
        let vrest = v.skip(1);
        assert(e == e0 + escape_bytes(vrest));
        assert forall|m: int| 0 <= m < e0.len() implies s[i + m] == e0[m] by {
            assert(s.subrange(i, i + e.len() + 1)[m] == s[i + m]);
            assert((escape_bytes(v) + seq![0x22u8])[m] == e[m]);
            assert(e[m] == e0[m]);
        }
        assert forall|m: int|
            0 <= m < escape_bytes(vrest).len() + 1 implies s.subrange(
            i + e0.len(),
            i + e.len() + 1,
        )[m] == (escape_bytes(vrest) + seq![0x22u8])[m] by {
            assert(s.subrange(i + e0.len(), i + e.len() + 1)[m] == s[i + e0.len() + m]);
            assert(s.subrange(i, i + e.len() + 1)[e0.len() + m] == s[i + e0.len() + m]);
            assert((escape_bytes(v) + seq![0x22u8])[e0.len() + m] == (escape_bytes(vrest)
                + seq![0x22u8])[m]);
        }
        assert(s.subrange(i + e0.len(), i + e.len() + 1) =~= escape_bytes(vrest) + seq![0x22u8]);
        lemma_unescape_escaped(s, i + e0.len(), vrest);
        let b = v[0];
        if b == 0x22 || b == 0x5c || b == 0x08 || b == 0x09 || b == 0x0a || b == 0x0c || b
            == 0x0d {
            assert(e0.len() == 2);
            assert(s[i] == 0x5c);
            assert(is_short_escape(s[i + 1]));
            assert(short_unescape(s[i + 1]) == b);
            assert(unescape_at(s, i) == prepend_decoded(seq![b], unescape_at(s, i + 2)));
            assert(seq![b] + vrest =~= v);
        } else if b < 0x20 {
            assert(e0.len() == 6);
            assert(s[i] == 0x5c && s[i + 1] == 0x75 && s[i + 2] == 0x30 && s[i + 3] == 0x30);
            assert(s[i + 4] == hex_digit(b as int / 16));
            assert(s[i + 5] == hex_digit(b as int % 16));
            assert(is_lhex(hex_digit(b as int / 16)) && lhex_val(hex_digit(b as int / 16))
                == b as int / 16);
            assert(is_lhex(hex_digit(b as int % 16)) && lhex_val(hex_digit(b as int % 16))
                == b as int % 16);
            assert((16 * (b as int / 16) + b as int % 16) as u8 == b);
            assert(unescape_at(s, i) == prepend_decoded(seq![b], unescape_at(s, i + 6)));
            assert(seq![b] + vrest =~= v);
        } else {
            assert(e0 =~= seq![b]);
            assert(s[i + 0] == e0[0]);
            assert(s[i] == b);
            assert(unescape_at(s, i) == prepend_decoded(seq![b], unescape_at(s, i + 1)));
            assert(seq![b] + vrest =~= v);
        }
    }
}

} // verus!
