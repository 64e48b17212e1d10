//! Core logic of a client for a federated social-networking protocol.
//!
//! Two verified components make up the heart of the crate: rich-text facet
//! extraction (byte-accurate annotation of mentions, links and hashtags in
//! post text) and session token lifecycle management (staleness checks on
//! bearer tokens and identity-preserving session renewal). Around them sit
//! the protocol data types and a canonical JSON encoding of post records.

pub mod agent;
pub mod b64;
pub mod facet;
pub mod hashtags;
pub mod jsonio;
pub mod jsonparse;
pub mod links;
pub mod mentions;
pub mod post;
pub mod scanning;
pub mod session;
pub mod token;
