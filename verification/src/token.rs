//! Bearer token payload inspection.
//!
//! A token is expected to be three dot-separated segments; the middle
//! segment is base64url-encoded JSON carrying at least an integer `exp`
//! field, seconds since epoch. Splitting and decoding are verified here;
//! reading the `exp` field out of the decoded JSON is delegated to
//! serde_json behind a trusted wrapper.

use crate::b64::{base64url_decode, base64url_spec};
use crate::scanning::{copy_range, find_dot, first_dot, lemma_first_dot_unique};
use vstd::prelude::*;

verus! {

/// The middle segment of a three-segment dot-separated token, or `None`
/// when the token does not have exactly three segments.
pub open spec fn jwt_payload_segment(tok: Seq<u8>) -> Option<Seq<u8>> {
    let d1 = first_dot(tok);
    if d1 == tok.len() {
        None
    } else {
        let rest = tok.skip(d1 + 1);
        let d2 = first_dot(rest);
        if d2 == rest.len() {
            None
        } else {
            let rest2 = rest.skip(d2 + 1);
            if first_dot(rest2) != rest2.len() {
                None
            } else {
                Some(rest.take(d2))
            }
        }
    }
}

/// The integer `exp` field of the JSON object encoded in `payload`, or
/// `None` when the bytes are not UTF-8 JSON with an integer `exp`. The
/// result depends on the payload bytes alone.
pub uninterp spec fn json_exp_field(payload: Seq<u8>) -> Option<int>;

/// Relies on str::from_utf8 and serde_json (`from_str`, `Value::get`,
/// `Value::as_i64`): parses the payload as UTF-8 JSON and reads the
/// integer field `exp`; a pure function of the payload bytes.
#[verifier::external_body]
pub(crate) fn parse_exp_field(payload: &Vec<u8>) -> (r: Option<i64>)
    ensures
        r is Some <==> json_exp_field(payload@) is Some,
        r matches Some(e) ==> json_exp_field(payload@) == Some(e as int),
{
    let s = match std::str::from_utf8(payload.as_slice()) {
        Ok(s) => s,
        Err(_) => return None,
    };
    let v: serde_json::Value = match serde_json::from_str(s) {
        Ok(v) => v,
        Err(_) => return None,
    };
    v.get("exp").and_then(|e| e.as_i64())
}

/// The expiry carried by a token: the `exp` field of the decoded middle
/// segment, or `None` at any failure along the way.
pub open spec fn token_exp(tok: Seq<u8>) -> Option<int> {
    match jwt_payload_segment(tok) {
        None => None,
        Some(seg) => match base64url_spec(seg) {
            None => None,
            Some(bytes) => json_exp_field(bytes),
        },
    }
}

/// Extracts the middle segment of a three-segment token.
pub fn extract_payload_segment(tok: &Vec<u8>) -> (r: Option<Vec<u8>>)
    ensures
        r is Some <==> jwt_payload_segment(tok@) is Some,
        r matches Some(v) ==> jwt_payload_segment(tok@) == Some(v@),
{
    let n = tok.len();
    let d1 = find_dot(tok, 0, n);
    proof {
        assert(tok@.subrange(0, n as int) =~= tok@);
        lemma_first_dot_unique(tok@, d1 as int);
    }
    if d1 == n {
        return None;
    }
    let d2 = find_dot(tok, d1 + 1, n);
    proof {
        let rest = tok@.skip(d1 + 1);
        assert(forall|m: int| 0 <= m < rest.len() ==> rest[m] == tok@[d1 + 1 + m]);
        lemma_first_dot_unique(rest, d2 - (d1 + 1));
    }
    if d2 == n {
        return None;
    }
    let d3 = find_dot(tok, d2 + 1, n);
    proof {
        let rest = tok@.skip(d1 + 1);
        let rest2 = rest.skip(d2 - (d1 + 1) + 1);
        assert(rest2 =~= tok@.skip(d2 + 1));
        assert(forall|m: int| 0 <= m < rest2.len() ==> rest2[m] == tok@[d2 + 1 + m]);
        lemma_first_dot_unique(rest2, d3 - (d2 + 1));
    }
    if d3 != n {
        return None;
    }
    let seg = copy_range(tok, d1 + 1, d2);
    proof {
        let rest = tok@.skip(d1 + 1);
        assert(rest.take(d2 - (d1 + 1)) =~= tok@.subrange(d1 + 1 as int, d2 as int));
    }
    Some(seg)
}

/// The expiry of `tok`, when the token splits, decodes and parses.
pub fn token_exp_value(tok: &Vec<u8>) -> (r: Option<i64>)
    ensures
        r is Some <==> token_exp(tok@) is Some,
        r matches Some(e) ==> token_exp(tok@) == Some(e as int),
{
    let seg = match extract_payload_segment(tok) {
        Some(seg) => seg,
        None => {
            return None;
        },
    };
    let decoded = match base64url_decode(&seg) {
        Ok(d) => d,
        Err(_) => {
            return None;
        },
    };
    parse_exp_field(&decoded)
}

} // verus!
