//! Client configuration and module identity.

use vstd::prelude::*;

verus! {

/// Connection settings for the XRPC host that the surrounding
/// application talks to.
pub struct BlueskyConfiguration {
    pub request_content_type: String,
    pub xrpc_host: String,
    pub xrpc_connection_pooling: bool,
}

/// Returns the configuration used against the public host: JSON request
/// bodies, the main service endpoint, and connection reuse turned on.
pub fn get_default_configuration() -> (c: BlueskyConfiguration)
    ensures
        c.request_content_type@ == "application/json"@,
        c.xrpc_host@ == "https://bsky.social"@,
        c.xrpc_connection_pooling,
{
    BlueskyConfiguration {
        request_content_type: "application/json".to_owned(),
        xrpc_host: "https://bsky.social".to_owned(),
        xrpc_connection_pooling: true,
    }
}

/// Returns the module name.
pub fn get_module_name() -> (r: String)
    ensures
        r@ == "bsky_agent"@,
{
    "bsky_agent".to_owned()
}

/// Dummy call exercised by the integration tests.
pub fn call_host() -> (r: String)
    ensures
        r@ == "called the api over http"@,
{
    "called the api over http".to_owned()
}

} // verus!
