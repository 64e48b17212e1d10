use rustysky::agent::{call_host, get_default_configuration, get_module_name};

#[test]
fn test_get_module_name() {
    let result = get_module_name();
    assert_eq!(result, "bsky_agent");
}

#[test]
fn test_call_host() {
    let result = call_host();
    assert_eq!(result, "called the api over http");
}

#[test]
fn test_default_configuration() {
    let config = get_default_configuration();
    assert_eq!(config.request_content_type, "application/json");
    assert_eq!(config.xrpc_host, "https://bsky.social");
    assert!(config.xrpc_connection_pooling);
}
