use vector_event::sink_config::{
    default_config, default_shutdown_timeout_secs, get_authority, is_retriable_error,
    GrpcTlsConfig, Error, UNKNOWN_CODE,
};

#[test]
fn authority_is_host_and_port() {
    assert_eq!(get_authority("http://127.0.0.1:6000"), Ok("127.0.0.1:6000".to_string()));
    assert_eq!(get_authority("https://example.com/path"), Ok("example.com".to_string()));
    assert_eq!(get_authority("/only/a/path"), Err(Error::NoHost));
    assert_eq!(get_authority("not a uri"), Err(Error::NoHost));
}

#[test]
fn default_config_has_no_tls() {
    let config = default_config("127.0.0.1:6000");
    assert_eq!(config.address, "127.0.0.1:6000");
    assert_eq!(config.tls, None);
    assert_eq!(config.tls_domain(), Ok(None));
}

#[test]
fn tls_needs_a_host() {
    let mut config = default_config("http://localhost:6000");
    config.tls = Some(GrpcTlsConfig {
        ca_file: "ca.pem".to_string(),
        crt_file: "crt.pem".to_string(),
        key_file: "key.pem".to_string(),
    });
    assert_eq!(config.tls_domain(), Ok(Some("localhost:6000".to_string())));
    config.address = "/nowhere".to_string();
    assert_eq!(config.tls_domain(), Err(Error::NoHost));
}

#[test]
fn only_unknown_request_failures_are_final() {
    assert!(!is_retriable_error(&Error::Request { code: UNKNOWN_CODE }));
    assert!(is_retriable_error(&Error::Request { code: 14 }));
    assert!(is_retriable_error(&Error::Health));
    assert!(is_retriable_error(&Error::NoHost));
}

#[test]
fn shutdown_timeout_defaults_to_thirty_seconds() {
    assert_eq!(default_shutdown_timeout_secs(), 30);
}
