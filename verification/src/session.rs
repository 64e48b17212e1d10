//! Session token lifecycle.
//!
//! A session represents one authenticated identity: a stable `did`, a
//! mutable `handle`, the current access/refresh token pair, and account
//! metadata fixed at creation. Renewal merges a refresh response into the
//! live session field by field, reporting which fields changed; the `did`
//! is compared but never assigned, and a renewal for a different `did` is
//! a fatal identity error that leaves the session untouched.
//!
//! Staleness is decided on demand from the access token's `exp` claim
//! against an injected clock; a token that cannot be decoded is treated
//! as not stale, a deliberate conservative default.

use crate::b64::{base64url_decode, base64url_spec};
use crate::scanning::{bytes_eq, copy_range};
use crate::token::{extract_payload_segment, json_exp_field, jwt_payload_segment, token_exp,
    token_exp_value};
use vstd::prelude::*;

verus! {

/// Seconds before expiry at which the access token counts as stale.
pub const REFRESH_BUFFER_SECONDS: i64 = 300;

/// A live authenticated session, as returned by session creation.
pub struct CreateSessionResponse {
    pub did: Vec<u8>,
    pub handle: Vec<u8>,
    pub email: Vec<u8>,
    pub email_confirmed: bool,
    pub access_jwt: Vec<u8>,
    pub refresh_jwt: Vec<u8>,
}

/// A successful renewal response from the transport.
pub struct RefreshSessionResponse {
    pub did: Vec<u8>,
    pub handle: Vec<u8>,
    pub access_jwt: Vec<u8>,
    pub refresh_jwt: Vec<u8>,
}

/// Credentials handed to session creation.
pub struct CreateSessionRequest {
    pub identifier: Vec<u8>,
    pub password: Vec<u8>,
}

/// A detailed profile view, as returned by the profile endpoint.
pub struct ProfileViewDetailedResponse {
    pub did: Vec<u8>,
    pub handle: Vec<u8>,
    pub display_name: Option<Vec<u8>>,
    pub description: Option<Vec<u8>>,
    pub avatar: Option<Vec<u8>>,
    pub banner: Option<Vec<u8>>,
    pub followers_count: Option<i32>,
    pub follows_count: Option<i32>,
    pub posts_count: Option<i32>,
    pub indexed_at: Option<Vec<u8>>,
}

/// Which session fields a merge updated; one observable event per
/// changed field.
#[derive(Debug, PartialEq, Eq, Structural)]
pub struct RefreshEvents {
    pub access_jwt_updated: bool,
    pub refresh_jwt_updated: bool,
    pub handle_updated: bool,
}

/// Failures of the session lifecycle. A renewal naming a different `did`
/// is an identity-invariant violation: fatal, never a recoverable merge.
#[derive(Debug, PartialEq, Eq, Structural)]
pub enum SessionError {
    DidMismatch,
}

/// Per-token failures of diagnostic inspection.
#[derive(Debug, PartialEq, Eq, Structural)]
pub enum TokenError {
    /// The token is not three dot-separated segments.
    InvalidFormat,
    /// The middle segment is not valid base64url.
    InvalidEncoding,
}

/// The decoded payload of one token: its raw JSON bytes and, when the
/// JSON carries one, the integer `exp` claim.
#[derive(Debug)]
pub struct TokenPayload {
    pub payload: Vec<u8>,
    pub exp: Option<i64>,
}

/// Diagnostic report over both tokens of a session, each inspected
/// independently.
pub struct SessionTokenInfo {
    pub access: Result<TokenPayload, TokenError>,
    pub refresh: Result<TokenPayload, TokenError>,
}

/// A successful merge takes handle and both tokens from the renewal and
/// keeps the identity and account metadata.
pub open spec fn merge_result(
    pre: CreateSessionResponse,
    refresh: RefreshSessionResponse,
    post: CreateSessionResponse,
) -> bool {
    &&& post.did@ == pre.did@
    &&& post.email@ == pre.email@
    &&& post.email_confirmed == pre.email_confirmed
    &&& post.access_jwt@ == refresh.access_jwt@
    &&& post.refresh_jwt@ == refresh.refresh_jwt@
    &&& post.handle@ == refresh.handle@
}

/// The events a merge reports: one per field that differs between the
/// session and the renewal.
pub open spec fn merge_events(
    pre: CreateSessionResponse,
    refresh: RefreshSessionResponse,
) -> RefreshEvents {
    RefreshEvents {
        access_jwt_updated: pre.access_jwt@ != refresh.access_jwt@,
        refresh_jwt_updated: pre.refresh_jwt@ != refresh.refresh_jwt@,
        handle_updated: pre.handle@ != refresh.handle@,
    }
}

/// Whether a token with expiry `exp` counts as stale at `now`.
pub open spec fn is_stale(exp: int, now: int, buffer: int) -> bool {
    exp - now <= buffer
}

/// Staleness of a token at `now`: stale exactly when the token yields an
/// expiry within `buffer` seconds; a token with no readable expiry is
/// not stale.
pub open spec fn needs_refresh_spec(tok: Seq<u8>, now: int, buffer: int) -> bool {
    match token_exp(tok) {
        Some(e) => is_stale(e, now, buffer),
        None => false,
    }
}

/// What diagnostic inspection reports for one token.
pub open spec fn token_report_ok(tok: Seq<u8>, r: Result<TokenPayload, TokenError>) -> bool {
    match jwt_payload_segment(tok) {
        None => r == Err::<TokenPayload, TokenError>(TokenError::InvalidFormat),
        Some(seg) => match base64url_spec(seg) {
            None => r == Err::<TokenPayload, TokenError>(TokenError::InvalidEncoding),
            Some(bytes) => {
                &&& r matches Ok(p)
                &&& r->Ok_0.payload@ == bytes
                &&& (r->Ok_0.exp is Some <==> json_exp_field(bytes) is Some)
                &&& (r->Ok_0.exp matches Some(e) ==> json_exp_field(bytes) == Some(e as int))
            },
        },
    }
}

impl CreateSessionResponse {
    /// Merges a renewal into the session. On a `did` mismatch the merge
    /// fails and the session is left exactly as it was; otherwise handle
    /// and tokens are taken from the renewal and the returned events say
    /// which of them actually changed.
    pub fn update_from_refresh(&mut self, refresh: &RefreshSessionResponse) -> (r: Result<
        RefreshEvents,
        SessionError,
    >)
        ensures
            (old(self).did@ == refresh.did@) <==> r is Ok,
            r is Err ==> *final(self) == *old(self) && r == Err::<RefreshEvents, SessionError>(
                SessionError::DidMismatch,
            ),
            r matches Ok(ev) ==> merge_result(*old(self), *refresh, *final(self)) && ev == merge_events(
                *old(self),
                *refresh,
            ),
    {
        if !bytes_eq(&self.did, &refresh.did) {
            return Err(SessionError::DidMismatch);
        }
        let mut events = RefreshEvents {
            access_jwt_updated: false,
            refresh_jwt_updated: false,
            handle_updated: false,
        };
        if !bytes_eq(&self.access_jwt, &refresh.access_jwt) {
            self.access_jwt = copy_range(&refresh.access_jwt, 0, refresh.access_jwt.len());
            events.access_jwt_updated = true;
            proof {
                assert(refresh.access_jwt@.subrange(0, refresh.access_jwt@.len() as int)
                    =~= refresh.access_jwt@);
            }
        }
        if !bytes_eq(&self.refresh_jwt, &refresh.refresh_jwt) {
            self.refresh_jwt = copy_range(&refresh.refresh_jwt, 0, refresh.refresh_jwt.len());
            events.refresh_jwt_updated = true;
            proof {
                assert(refresh.refresh_jwt@.subrange(0, refresh.refresh_jwt@.len() as int)
                    =~= refresh.refresh_jwt@);
            }
        }
        if !bytes_eq(&self.handle, &refresh.handle) {
            self.handle = copy_range(&refresh.handle, 0, refresh.handle.len());
            events.handle_updated = true;
            proof {
                assert(refresh.handle@.subrange(0, refresh.handle@.len() as int)
                    =~= refresh.handle@);
            }
        }
        Ok(events)
    }

    /// Staleness of the access token at `now` (seconds since epoch),
    /// with an explicit buffer.
    pub fn needs_refresh_at(&self, now: i64, buffer_seconds: i64) -> (r: bool)
        ensures
            r == needs_refresh_spec(self.access_jwt@, now as int, buffer_seconds as int),
    {
        match token_exp_value(&self.access_jwt) {
            Some(e) => (e as i128) - (now as i128) <= (buffer_seconds as i128),
            None => false,
        }
    }

    /// Staleness of the access token at `now`, with the default
    /// five-minute buffer.
    pub fn session_needs_refresh(&self, now: i64) -> (r: bool)
        ensures
            r == needs_refresh_spec(
                self.access_jwt@,
                now as int,
                REFRESH_BUFFER_SECONDS as int,
            ),
    {
        self.needs_refresh_at(now, REFRESH_BUFFER_SECONDS)
    }

    /// Decodes the payloads of both tokens for diagnostic inspection.
    /// Each token is inspected independently: a failure on one does not
    /// abort the other.
    pub fn token_info(&self) -> (r: SessionTokenInfo)
        ensures
            token_report_ok(self.access_jwt@, r.access),
            token_report_ok(self.refresh_jwt@, r.refresh),
    {
        SessionTokenInfo {
            access: inspect_token(&self.access_jwt),
            refresh: inspect_token(&self.refresh_jwt),
        }
    }
}

/// Decodes one token's payload: splits off the middle segment, decodes
/// it, and reads the `exp` claim out of the JSON.
pub fn inspect_token(tok: &Vec<u8>) -> (r: Result<TokenPayload, TokenError>)
    ensures
        token_report_ok(tok@, r),
{
    let seg = match extract_payload_segment(tok) {
        Some(seg) => seg,
        None => {
            return Err(TokenError::InvalidFormat);
        },
    };
    let decoded = match base64url_decode(&seg) {
        Ok(d) => d,
        Err(_) => {
            return Err(TokenError::InvalidEncoding);
        },
    };
    let exp = crate::token::parse_exp_field(&decoded);
    Ok(TokenPayload { payload: decoded, exp })
}

/// Merging the same renewal twice is idempotent: once a session holds
/// the renewal's handle and tokens, merging that renewal again succeeds,
/// reports no updated fields, and leaves every field as it is.
pub proof fn lemma_merge_idempotent(
    pre: CreateSessionResponse,
    refresh: RefreshSessionResponse,
    mid: CreateSessionResponse,
)
    requires
        pre.did@ == refresh.did@,
        merge_result(pre, refresh, mid),
    ensures
        mid.did@ == refresh.did@,
        merge_events(mid, refresh) == (RefreshEvents {
            access_jwt_updated: false,
            refresh_jwt_updated: false,
            handle_updated: false,
        }),
        merge_result(mid, refresh, mid),
{
}

/// The staleness boundary with the default 300-second buffer: a token
/// expiring exactly 300 seconds from `now` is already stale, one
/// expiring 301 seconds from `now` is not.
pub proof fn lemma_staleness_boundary(tok: Seq<u8>, now: int)
    ensures
        token_exp(tok) == Some(now + 300) ==> needs_refresh_spec(tok, now, 300),
        token_exp(tok) == Some(now + 301) ==> !needs_refresh_spec(tok, now, 300),
{
}

} // verus!
