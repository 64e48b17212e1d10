//! Base64url decoding of token segments.
//!
//! Bearer token payloads arrive base64url-encoded and unpadded. Decoding
//! first maps the url-safe alphabet onto the standard one (`-` to `+`,
//! `_` to `/`), then pads with `=` up to the next multiple of four; an
//! input whose length leaves a remainder of one can never be valid and is
//! rejected outright. The padded standard-alphabet input is then handed
//! to the base64 crate.

use base64::Engine;
use vstd::prelude::*;

verus! {

/// What base64's standard-alphabet, padded engine decodes a byte string
/// to, or `None` when the input is not valid base64. The result depends
/// on the input bytes alone.
pub uninterp spec fn b64_standard_decode(s: Seq<u8>) -> Option<Seq<u8>>;

/// Relies on base64's `STANDARD` engine `decode`: a pure function of the
/// input that returns the decoded bytes, or an error exactly when the
/// input is not valid padded standard base64.
#[verifier::external_body]
fn base64_decode_standard(input: &Vec<u8>) -> (r: Option<Vec<u8>>)
    ensures
        r is Some <==> b64_standard_decode(input@) is Some,
        r matches Some(v) ==> b64_standard_decode(input@) == Some(v@),
{
    base64::engine::general_purpose::STANDARD.decode(input.as_slice()).ok()
}

/// The url-safe alphabet mapped onto the standard one: `-` to `+` and
/// `_` to `/`; every other byte is kept.
pub open spec fn b64url_to_standard(b: u8) -> u8 {
    if b == 0x2d {
        0x2b
    } else if b == 0x5f {
        0x2f
    } else {
        b
    }
}

/// The input after alphabet mapping and `=`-padding to a multiple of
/// four. Byte 0x3d is `=`.
pub open spec fn padded_standard(s: Seq<u8>) -> Seq<u8> {
    let m = s.map_values(|b: u8| b64url_to_standard(b));
    if s.len() % 4 == 2 {
        m + seq![0x3du8, 0x3du8]
    } else if s.len() % 4 == 3 {
        m + seq![0x3du8]
    } else {
        m
    }
}

/// What `base64url_decode` yields: `None` for a length remainder of one
/// and for inputs the standard decoder rejects after mapping and padding.
pub open spec fn base64url_spec(s: Seq<u8>) -> Option<Seq<u8>> {
    if s.len() % 4 == 1 {
        None
    } else {
        b64_standard_decode(padded_standard(s))
    }
}

/// Decodes unpadded base64url `input`. Fails exactly on inputs whose
/// length leaves a remainder of one, with its own error, and on inputs
/// that are not valid base64 after alphabet mapping and padding.
pub fn base64url_decode(input: &Vec<u8>) -> (r: Result<Vec<u8>, &'static str>)
    ensures
        r is Ok <==> base64url_spec(input@) is Some,
        r matches Ok(v) ==> base64url_spec(input@) == Some(v@),
        input@.len() % 4 == 1 ==> (r matches Err(e) && e@ == "Invalid base64 length"@),
        input@.len() % 4 != 1 && base64url_spec(input@) is None ==> (r matches Err(e) && e@
            == "Invalid base64"@),
{
    let mut s: Vec<u8> = Vec::new();
    let mut k: usize = 0;
    while k < input.len()
        invariant
            k <= input.len(),
            s@ == input@.take(k as int).map_values(|b: u8| b64url_to_standard(b)),
        decreases input.len() - k,
    {
        let b = input[k];
        let mapped = if b == 0x2d {
            0x2b
        } else if b == 0x5f {
            0x2f
        } else {
            b
        };
        s.push(mapped);
        proof {
            assert(input@.take(k + 1 as int).map_values(|b: u8| b64url_to_standard(b))
                =~= input@.take(k as int).map_values(|b: u8| b64url_to_standard(b)).push(
                b64url_to_standard(input@[k as int]),
            ));
        }
        k = k + 1;
    }
    proof {
        assert(input@.take(input@.len() as int) =~= input@);
    }
    let rem = input.len() % 4;
    if rem == 1 {
        return Err("Invalid base64 length");
    }
    if rem == 2 {
        s.push(0x3d);
        s.push(0x3d);
    } else if rem == 3 {
        s.push(0x3d);
    }
    proof {
        assert(s@ =~= padded_standard(input@));
    }
    match base64_decode_standard(&s) {
        Some(v) => Ok(v),
        None => Err("Invalid base64"),
    }
}

} // verus!
