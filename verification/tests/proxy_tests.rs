use memstore::proxy::Filter;
use memstore::proxy::Response;
use memstore::proxy::sanitize_request;

fn strs(v: &[&str]) -> Vec<String> {
    v.iter().map(|s| s.to_string()).collect()
}

#[test]
fn valid_ext_checks_configured_extensions() {
    let f = Filter::new(strs(&["jpg", "css"]), strs(&["text/html"]));
    assert!(f.valid_ext(&"jpg".to_string()));
    assert!(f.valid_ext(&"css".to_string()));
    assert!(!f.valid_ext(&"exe".to_string()));
    assert!(!f.valid_ext(&"text/html".to_string()));
}

#[test]
fn valid_ctype_checks_configured_content_types() {
    let f = Filter::new(strs(&["jpg"]), strs(&["text/html", "image/png"]));
    assert!(f.valid_ctype(&"text/html".to_string()));
    assert!(f.valid_ctype(&"image/png".to_string()));
    assert!(!f.valid_ctype(&"application/json".to_string()));
    assert!(!f.valid_ctype(&"jpg".to_string()));
}

#[test]
fn cacheable_by_extension() {
    let f = Filter::new(strs(&["jpg"]), strs(&["text/html"]));
    assert!(f.is_cacheable(&"/img/photo.jpg".to_string(), None));
    assert!(!f.is_cacheable(&"/img/photo.png".to_string(), None));
    // the extension is what follows the last dot of the last segment
    assert!(f.is_cacheable(&"/a.png/b.tar.jpg".to_string(), None));
    assert!(!f.is_cacheable(&"/a.jpg/b.png".to_string(), None));
}

#[test]
fn extension_miss_falls_through_to_content_type() {
    let f = Filter::new(strs(&["jpg"]), strs(&["text/html"]));
    let html = "text/html".to_string();
    let json = "application/json".to_string();
    assert!(f.is_cacheable(&"/page".to_string(), Some(&html)));
    assert!(!f.is_cacheable(&"/page".to_string(), Some(&json)));
    assert!(!f.is_cacheable(&"/page".to_string(), None));
    // a matching extension needs no content type at all
    assert!(f.is_cacheable(&"/x.jpg".to_string(), Some(&json)));
}

#[test]
fn dotless_segment_counts_as_its_own_extension() {
    let f = Filter::new(strs(&["jpg"]), strs(&[]));
    assert!(f.is_cacheable(&"/x/jpg".to_string(), None));
    assert!(!f.is_cacheable(&"/x/jpg/".to_string(), None));
}

#[test]
fn empty_and_bare_paths_fall_through() {
    let f = Filter::new(strs(&["jpg"]), strs(&["text/html"]));
    let html = "text/html".to_string();
    assert!(!f.is_cacheable(&"".to_string(), None));
    assert!(f.is_cacheable(&"".to_string(), Some(&html)));
    assert!(!f.is_cacheable(&"/".to_string(), None));
}

#[test]
fn sanitize_drops_proxy_connection_header() {
    let out = sanitize_request(strs(&["Host", "Proxy-connection", "Accept"]));
    assert_eq!(out, strs(&["Host", "Accept"]));
    let out = sanitize_request(strs(&["Proxy-connection", "Proxy-connection"]));
    assert!(out.is_empty());
    let out = sanitize_request(strs(&["Host"]));
    assert_eq!(out, strs(&["Host"]));
}

#[test]
fn response_summarizes_caching_outcome() {
    let cached = Response { cached: true, ttl: 60_000 };
    let not_cached = Response { cached: false, ttl: -1 };
    assert_ne!(cached, not_cached);
    assert_eq!(cached, cached.clone());
    assert!(not_cached.ttl < 0);
}
