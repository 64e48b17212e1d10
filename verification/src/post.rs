//! Post records: the publishable unit.
//!
//! A post is built once per publish attempt from the user's text: facet
//! extraction runs over the text and the resulting annotations are
//! attached, with `facets` left absent (not an empty list) when the text
//! holds no matches. The creation timestamp arrives pre-rendered as a
//! millisecond-precision ISO-8601 string from the injected clock, so the
//! record itself is a pure function of its inputs.

use crate::facet::{extract_facets, facets_correspond, total_matches, Facet};
use crate::scanning::{ascii_bytes, copy_range};
use vstd::prelude::*;
use vstd::string::StringSliceAdditionalSpecFns;

verus! {

/// One self-applied content label.
pub struct SelfLabel {
    pub val: Vec<u8>,
}

/// Self-applied content labels, with their protocol type tag.
pub struct SelfLabels {
    pub selflabels_type: Vec<u8>,
    pub values: Vec<SelfLabel>,
}

/// The publishable record: text, creation timestamp, and the optional
/// facet, language, tag and label lists, each omitted entirely when
/// absent.
pub struct Post {
    pub record_type: Vec<u8>,
    pub created_at: Vec<u8>,
    pub text: Vec<u8>,
    pub facets: Option<Vec<Facet>>,
    pub langs: Option<Vec<Vec<u8>>>,
    pub tags: Option<Vec<Vec<u8>>>,
    pub labels: Option<SelfLabels>,
}

/// The request wrapper handed to the record-creation endpoint.
pub struct CreatePostRequest {
    pub collection: Vec<u8>,
    pub repo: Vec<u8>,
    pub record: Post,
}

/// The response of the record-creation endpoint.
pub struct CreatePostResponse {
    pub uri: Vec<u8>,
    pub cid: Vec<u8>,
}

/// Failures of post construction.
#[derive(Debug, PartialEq, Eq, Structural)]
pub enum PostError {
    EmptyText,
}

impl Post {
    /// Builds a post from `text`: extracts all facets (every mention
    /// feature carries `debug_did`), leaves `facets` absent when there
    /// is no match, and fails exactly when the text is empty. All facet
    /// spans index into the UTF-8 encoding of the text, which the record
    /// stores, so a multi-byte character before a match shifts offsets
    /// by its byte width.
    pub fn new(
        text: &str,
        debug_did: &Vec<u8>,
        created_at: Vec<u8>,
        langs: Option<Vec<Vec<u8>>>,
        tags: Option<Vec<Vec<u8>>>,
        labels: Option<SelfLabels>,
    ) -> (r: Result<Post, PostError>)
        ensures
            r is Ok <==> text@.len() > 0,
            r is Err ==> r == Err::<Post, PostError>(PostError::EmptyText),
            r matches Ok(p) ==> {
                &&& p.record_type@ == ascii_bytes("app.bsky.feed.post"@)
                &&& p.created_at == created_at
                &&& p.text@ == text.spec_bytes()
                &&& (p.facets is None <==> total_matches(text.spec_bytes()) == 0)
                &&& (p.facets matches Some(fs) ==> facets_correspond(
                    fs@,
                    text.spec_bytes(),
                    debug_did@,
                ) && fs@.len() == total_matches(text.spec_bytes()))
                &&& (p.facets matches Some(fs) ==> forall|k: int|
                    0 <= k < fs@.len() ==> vstd::utf8::is_char_boundary(
                        text.spec_bytes(),
                        #[trigger] fs@[k].index.byte_start as int,
                    ) && vstd::utf8::is_char_boundary(
                        text.spec_bytes(),
                        fs@[k].index.byte_end as int,
                    ))
                &&& p.langs == langs
                &&& p.tags == tags
                &&& p.labels == labels
            },
    {
        if text.is_empty() {
            return Err(PostError::EmptyText);
        }
        let text_bytes = vstd::slice::slice_to_vec(text.as_bytes());
        let facets = extract_facets(&text_bytes, debug_did);
        proof {
            vstd::utf8::encode_utf8_valid_utf8(text@);
            crate::facet::lemma_facet_offsets_on_char_boundaries(
                facets@,
                text.spec_bytes(),
                debug_did@,
            );
        }
        let facets_opt = if facets.len() == 0 {
            None
        } else {
            Some(facets)
        };
        let mut record_type: Vec<u8> = Vec::new();
        proof {
            reveal_strlit("app.bsky.feed.post");
        }
        crate::scanning::append_ascii(&mut record_type, "app.bsky.feed.post");
        Ok(
            Post {
                record_type,
                created_at,
                text: text_bytes,
                facets: facets_opt,
                langs,
                tags,
                labels,
            },
        )
    }
}

impl CreatePostRequest {
    /// Wraps a record for the record-creation endpoint: the fixed post
    /// collection and the publishing repository's `did`.
    pub fn new(did: &Vec<u8>, post: Post) -> (r: CreatePostRequest)
        ensures
            r.collection@ == ascii_bytes("app.bsky.feed.post"@),
            r.repo@ == did@,
            r.record == post,
    {
        let mut collection: Vec<u8> = Vec::new();
        proof {
            reveal_strlit("app.bsky.feed.post");
        }
        crate::scanning::append_ascii(&mut collection, "app.bsky.feed.post");
        let repo = copy_range(did, 0, did.len());
        proof {
            assert(did@.subrange(0, did@.len() as int) =~= did@);
        }
        CreatePostRequest { collection, repo, record: post }
    }
}

/// What chrono renders a UTC timestamp to: millisecond-precision
/// ISO-8601 with a trailing `Z`, or `None` for timestamps outside the
/// representable range. The result depends on the timestamp alone.
pub uninterp spec fn iso8601_utc_millis(ms: int) -> Option<Seq<u8>>;

/// Relies on chrono's `DateTime::from_timestamp_millis` (None exactly on
/// an out-of-range timestamp) and `to_rfc3339_opts(SecondsFormat::Millis,
/// true)`: renders milliseconds since epoch as a UTC ISO-8601 string; a
/// pure function of the timestamp.
#[verifier::external_body]
pub fn date_utc_as_iso8601(ms: i64) -> (r: Option<Vec<u8>>)
    ensures
        r is Some <==> iso8601_utc_millis(ms as int) is Some,
        r matches Some(v) ==> iso8601_utc_millis(ms as int) == Some(v@),
{
    chrono::DateTime::from_timestamp_millis(ms).map(
        |d| d.to_rfc3339_opts(chrono::SecondsFormat::Millis, true).into_bytes(),
    )
}

} // verus!
