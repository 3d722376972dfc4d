use insecure_proxy::proxy_error::ProxyError;
use insecure_proxy::upgrade::{httpsify, RequestTarget, UpgradeError};

fn target(scheme: Option<&str>, authority: Option<&str>, path_and_query: Option<&str>) -> RequestTarget {
    RequestTarget {
        scheme: scheme.map(|s| s.as_bytes().to_vec()),
        authority: authority.map(|s| s.as_bytes().to_vec()),
        path_and_query: path_and_query.map(|s| s.as_bytes().to_vec()),
    }
}

fn rendered(t: &RequestTarget) -> String {
    String::from_utf8(t.to_uri_bytes()).unwrap()
}

#[test]
fn httpsify_replaces_uri_scheme() {
    // the target of `http://example.com`, taken apart
    let uri = target(Some("http"), Some("example.com"), Some("/"));
    let host = "example.com";

    let expected_uri = httpsify(uri, Some(host.as_bytes())).unwrap();

    assert_eq!(rendered(&expected_uri), "https://example.com/");
}

#[test]
fn httpsify_takes_authority_from_host() {
    let uri = httpsify(target(None, None, Some("/a/b?c=d")), Some(b"origin.test:8443")).unwrap();
    assert_eq!(uri.scheme.as_deref(), Some(&b"https"[..]));
    assert_eq!(uri.authority.as_deref(), Some(&b"origin.test:8443"[..]));
    assert_eq!(uri.path_and_query.as_deref(), Some(&b"/a/b?c=d"[..]));
    assert_eq!(rendered(&uri), "https://origin.test:8443/a/b?c=d");
}

#[test]
fn httpsify_ignores_authority_of_target() {
    let uri = httpsify(target(Some("http"), Some("elsewhere.test"), Some("/x")), Some(b"origin.test")).unwrap();
    assert_eq!(rendered(&uri), "https://origin.test/x");
}

#[test]
fn httpsify_without_host_fails() {
    assert_eq!(httpsify(target(None, None, Some("/")), None).err(), Some(UpgradeError::MissingHost));
}

#[test]
fn httpsify_with_bad_host_fails() {
    assert_eq!(
        httpsify(target(None, None, Some("/")), Some(b"bad host")).err(),
        Some(UpgradeError::InvalidAuthority)
    );
}

#[test]
fn httpsify_authority_form_target_fails() {
    assert_eq!(
        httpsify(target(None, Some("example.com:443"), None), Some(b"example.com")).err(),
        Some(UpgradeError::InvalidTarget)
    );
}

#[test]
fn rendered_target_without_scheme() {
    assert_eq!(rendered(&target(None, None, Some("/p?q"))), "/p?q");
}

#[test]
fn proxy_error_message() {
    let err = ProxyError::new("meh");
    assert_eq!(err.message, "meh");
    assert_eq!(err.to_string(), "Proxy error: meh");
    assert_eq!(err.description(), "proxy error");
}
