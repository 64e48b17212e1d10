use base64::Engine;
use rustysky::session::{
    CreateSessionResponse, RefreshSessionResponse, SessionError, TokenError,
};

fn bytes(s: &str) -> Vec<u8> {
    s.as_bytes().to_vec()
}

fn session() -> CreateSessionResponse {
    CreateSessionResponse {
        did: bytes("did:plc:alice"),
        handle: bytes("alice.bsky.social"),
        email: bytes("alice@example.com"),
        email_confirmed: true,
        access_jwt: bytes("h.p.s"),
        refresh_jwt: bytes("h.q.s"),
    }
}

fn token_with_exp(exp: i64) -> Vec<u8> {
    let payload = format!("{{\"exp\":{}}}", exp);
    let middle = base64::engine::general_purpose::URL_SAFE_NO_PAD.encode(payload.as_bytes());
    format!("header.{}.signature", middle).into_bytes()
}

#[test]
fn refresh_updates_changed_fields_and_reports_them() {
    let mut s = session();
    let r = RefreshSessionResponse {
        did: bytes("did:plc:alice"),
        handle: bytes("alice2.bsky.social"),
        access_jwt: bytes("h.p2.s"),
        refresh_jwt: bytes("h.q.s"),
    };
    let ev = s.update_from_refresh(&r).unwrap();
    assert!(ev.access_jwt_updated);
    assert!(!ev.refresh_jwt_updated);
    assert!(ev.handle_updated);
    assert_eq!(s.access_jwt, bytes("h.p2.s"));
    assert_eq!(s.refresh_jwt, bytes("h.q.s"));
    assert_eq!(s.handle, bytes("alice2.bsky.social"));
    assert_eq!(s.did, bytes("did:plc:alice"));
    assert_eq!(s.email, bytes("alice@example.com"));
    assert!(s.email_confirmed);
}

#[test]
fn refresh_twice_with_same_payload_is_a_no_op() {
    let mut s = session();
    let r = RefreshSessionResponse {
        did: bytes("did:plc:alice"),
        handle: bytes("alice2.bsky.social"),
        access_jwt: bytes("h.p2.s"),
        refresh_jwt: bytes("h.q2.s"),
    };
    let first = s.update_from_refresh(&r).unwrap();
    assert!(first.access_jwt_updated && first.refresh_jwt_updated && first.handle_updated);
    let second = s.update_from_refresh(&r).unwrap();
    assert!(!second.access_jwt_updated);
    assert!(!second.refresh_jwt_updated);
    assert!(!second.handle_updated);
    assert_eq!(s.access_jwt, bytes("h.p2.s"));
    assert_eq!(s.refresh_jwt, bytes("h.q2.s"));
    assert_eq!(s.handle, bytes("alice2.bsky.social"));
}

#[test]
fn refresh_with_wrong_did_fails_and_changes_nothing() {
    let mut s = session();
    let r = RefreshSessionResponse {
        did: bytes("did:plc:mallory"),
        handle: bytes("mallory.bsky.social"),
        access_jwt: bytes("h.x.s"),
        refresh_jwt: bytes("h.y.s"),
    };
    let e = s.update_from_refresh(&r);
    assert_eq!(e, Err(SessionError::DidMismatch));
    assert_eq!(s.access_jwt, bytes("h.p.s"));
    assert_eq!(s.refresh_jwt, bytes("h.q.s"));
    assert_eq!(s.handle, bytes("alice.bsky.social"));
}

#[test]
fn staleness_boundary_at_300_seconds() {
    let now: i64 = 1_000_000;
    let mut s = session();
    s.access_jwt = token_with_exp(now + 300);
    assert!(s.session_needs_refresh(now));
    s.access_jwt = token_with_exp(now + 301);
    assert!(!s.session_needs_refresh(now));
    s.access_jwt = token_with_exp(now - 5);
    assert!(s.session_needs_refresh(now));
}

#[test]
fn malformed_tokens_are_not_stale() {
    let now: i64 = 1_000_000;
    let mut s = session();
    s.access_jwt = bytes("no-dots-here");
    assert!(!s.session_needs_refresh(now));
    s.access_jwt = bytes("only.one-dot");
    assert!(!s.session_needs_refresh(now));
    s.access_jwt = bytes("a.%%%.b");
    assert!(!s.session_needs_refresh(now));
    s.access_jwt = bytes("too.many.dots.here");
    assert!(!s.session_needs_refresh(now));
    // valid base64 but no exp field
    let middle = base64::engine::general_purpose::URL_SAFE_NO_PAD.encode(b"{\"sub\":\"x\"}");
    s.access_jwt = format!("h.{}.s", middle).into_bytes();
    assert!(!s.session_needs_refresh(now));
}

#[test]
fn token_info_reports_each_token_independently() {
    let mut s = session();
    s.access_jwt = token_with_exp(42);
    s.refresh_jwt = bytes("bad");
    let info = s.token_info();
    let access = info.access.unwrap();
    assert_eq!(access.payload, bytes("{\"exp\":42}"));
    assert_eq!(access.exp, Some(42));
    assert_eq!(info.refresh.unwrap_err(), TokenError::InvalidFormat);

    let mut s = session();
    s.access_jwt = bytes("a.!!!.c");
    let info = s.token_info();
    assert_eq!(info.access.unwrap_err(), TokenError::InvalidEncoding);
    // the default refresh token's middle segment has a length remainder
    // of one, which no base64url input can have
    assert_eq!(info.refresh.unwrap_err(), TokenError::InvalidEncoding);
}

#[test]
fn explicit_buffer_is_respected() {
    let now: i64 = 500_000;
    let mut s = session();
    s.access_jwt = token_with_exp(now + 60);
    assert!(s.needs_refresh_at(now, 60));
    assert!(!s.needs_refresh_at(now, 59));
}
