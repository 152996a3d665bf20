use codex_patch::mirror_fallback::{
    is_retryable_mirror_error, is_trusted_primary, r2_fallback_url, UrlParts,
    PRIMARY_MIRROR_HOST, R2_MIRROR_HOST,
};

#[test]
fn rewrites_only_the_exact_trusted_primary_host() {
    assert_eq!(
        r2_fallback_url("https://codexapp.agentsmirror.com/latest/win-x64?x=1").as_deref(),
        Some("https://codexapp-r2.agentsmirror.com/latest/win-x64?x=1")
    );
    assert!(r2_fallback_url("http://codexapp.agentsmirror.com/latest/win-x64").is_none());
    assert!(r2_fallback_url("https://evil.example/latest/win-x64").is_none());
    assert!(r2_fallback_url("https://codexapp.agentsmirror.com.evil.example/file").is_none());
    assert!(r2_fallback_url("https://codexapp.agentsmirror.com:444/file").is_none());
}

#[test]
fn retries_transport_and_server_failures_but_not_integrity_or_http_404() {
    assert!(is_retryable_mirror_error(
        "curl failed exit=28: Timeout was reached"
    ));
    assert!(is_retryable_mirror_error(
        "curl failed exit=22: The requested URL returned error: 522"
    ));
    assert!(is_retryable_mirror_error(
        "curl download stalled for 120 seconds"
    ));
    assert!(!is_retryable_mirror_error("curl failed exit=22: HTTP 404"));
    assert!(!is_retryable_mirror_error("SHA256 mismatch"));
    assert!(!is_retryable_mirror_error("download cancelled"));
}

#[test]
fn fallback_refuses_credentials_and_unparsable_input() {
    assert!(r2_fallback_url("https://user@codexapp.agentsmirror.com/file").is_none());
    assert!(r2_fallback_url("https://:secret@codexapp.agentsmirror.com/file").is_none());
    assert!(r2_fallback_url("not a url").is_none());
    assert!(r2_fallback_url("").is_none());
}

#[test]
fn fallback_keeps_path_and_query() {
    assert_eq!(
        r2_fallback_url("https://codexapp.agentsmirror.com/a/b.zip?sig=1&t=2#frag").as_deref(),
        Some("https://codexapp-r2.agentsmirror.com/a/b.zip?sig=1&t=2#frag")
    );
    // The default https port is not an explicit port.
    assert_eq!(
        r2_fallback_url("https://codexapp.agentsmirror.com:443/x").as_deref(),
        Some("https://codexapp-r2.agentsmirror.com/x")
    );
}

#[test]
fn trusted_primary_decision_on_given_parts() {
    let parts = |scheme: &str, host: Option<&str>, user: &str, pw: bool, port: Option<u16>| UrlParts {
        scheme: scheme.to_string(),
        host: host.map(|h| h.to_string()),
        username: user.to_string(),
        has_password: pw,
        port,
    };
    assert!(is_trusted_primary(&parts("https", Some(PRIMARY_MIRROR_HOST), "", false, None)));
    assert!(!is_trusted_primary(&parts("http", Some(PRIMARY_MIRROR_HOST), "", false, None)));
    assert!(!is_trusted_primary(&parts("https", Some(R2_MIRROR_HOST), "", false, None)));
    assert!(!is_trusted_primary(&parts("https", None, "", false, None)));
    assert!(!is_trusted_primary(&parts("https", Some(PRIMARY_MIRROR_HOST), "u", false, None)));
    assert!(!is_trusted_primary(&parts("https", Some(PRIMARY_MIRROR_HOST), "", true, None)));
    assert!(!is_trusted_primary(&parts("https", Some(PRIMARY_MIRROR_HOST), "", false, Some(444))));
}

#[test]
fn retryable_curl_exits_and_server_statuses() {
    for code in [5, 6, 7, 28, 35, 52, 53, 54, 55, 56, 58, 59, 60, 67, 77, 80, 82, 83, 91] {
        assert!(is_retryable_mirror_error(&format!("curl failed exit={code}")));
    }
    assert!(!is_retryable_mirror_error("curl failed exit=22"));
    // The last exit marker decides.
    assert!(is_retryable_mirror_error("exit=22 then exit=7"));
    assert!(!is_retryable_mirror_error("exit=7 then exit=22"));
    // An exit code that does not fit an i32 is ignored.
    assert!(!is_retryable_mirror_error("exit=99999999999"));
    assert!(is_retryable_mirror_error("HTTP 503 Service Unavailable"));
    assert!(is_retryable_mirror_error("http status 500"));
    assert!(is_retryable_mirror_error("Status Code: 599"));
    assert!(!is_retryable_mirror_error("http 600"));
    assert!(!is_retryable_mirror_error("http 499"));
    assert!(is_retryable_mirror_error("Operation timed out after 30000 ms"));
    assert!(is_retryable_mirror_error("Failed to connect to host"));
    assert!(is_retryable_mirror_error("download exceeded total deadline"));
}

#[test]
fn fallback_url_is_on_the_fallback_host_and_no_longer_primary() {
    let fallback = r2_fallback_url("https://codexapp.agentsmirror.com/latest/win-x64").unwrap();
    let parsed = url::Url::parse(&fallback).unwrap();
    assert_eq!(parsed.host_str(), Some(R2_MIRROR_HOST));
    assert_ne!(parsed.host_str(), Some(PRIMARY_MIRROR_HOST));
    assert!(r2_fallback_url(&fallback).is_none());
}
