use dash::rewrite::rewrite_host;
use dash::uri::{ParseError, Uri, UriOwned};

fn parts(u: &Uri) -> (Option<String>, Option<String>, Option<u16>, Option<String>, Option<String>, Option<String>) {
    let f = |o: Option<&str>| o.map(|s| s.to_string());
    (f(u.scheme), f(u.host), u.port, f(u.path), f(u.query), f(u.fragment))
}

fn round_trip(s: &str) {
    let first = Uri::new(s).unwrap();
    let text = UriOwned::from_uri(first).to_string();
    let second = Uri::new(&text).unwrap();
    assert_eq!(parts(&first), parts(&second), "round trip of {s:?} through {text:?}");
}

#[test]
fn network_path_reference() {
    let u = Uri::new("//example.com/app").unwrap();
    assert_eq!(u.scheme, None);
    assert_eq!(u.host, Some("example.com"));
    assert_eq!(u.port, None);
    assert_eq!(u.path, Some("/app"));
    assert_eq!(u.query, None);
    assert_eq!(u.fragment, None);
    assert_eq!(UriOwned::from_uri(u).to_string(), "//example.com/app");
}

#[test]
fn path_only_reference_is_rewritten() {
    let u = Uri::new("/grafana?tab=1").unwrap();
    assert_eq!(u.scheme, None);
    assert_eq!(u.host, None);
    assert_eq!(u.path, Some("/grafana"));
    assert_eq!(u.query, Some("tab=1"));
    assert_eq!(u.fragment, None);
    let r = rewrite_host(UriOwned::from_uri(u), "dash.local");
    assert_eq!(r.to_string(), "//dash.local/grafana?tab=1");
}

#[test]
fn full_uri_components() {
    let u = Uri::new("https://example.com:8443/a/b?x=1&y=2#top").unwrap();
    assert_eq!(u.scheme, Some("https"));
    assert_eq!(u.host, Some("example.com"));
    assert_eq!(u.port, Some(8443));
    assert_eq!(u.path, Some("/a/b"));
    assert_eq!(u.query, Some("x=1&y=2"));
    assert_eq!(u.fragment, Some("top"));
    assert_eq!(UriOwned::from_uri(u).to_string(), "https://example.com:8443/a/b?x=1&y=2#top");
}

#[test]
fn fragment_before_query_mark() {
    let u = Uri::new("/a#b?c").unwrap();
    assert_eq!(u.path, Some("/a"));
    assert_eq!(u.query, None);
    assert_eq!(u.fragment, Some("b?c"));
}

#[test]
fn empty_components_are_absent() {
    let u = Uri::new("/a?#").unwrap();
    assert_eq!(u.path, Some("/a"));
    assert_eq!(u.query, None);
    assert_eq!(u.fragment, None);
    assert_eq!(UriOwned::from_uri(u).to_string(), "/a");
    let e = Uri::new("").unwrap();
    assert_eq!(e.path, None);
    assert_eq!(UriOwned::from_uri(e).to_string(), "");
    let s = Uri::new("http://").unwrap();
    assert_eq!(s.scheme, Some("http"));
    assert_eq!(s.host, None);
    assert_eq!(s.path, None);
}

#[test]
fn bad_scheme_is_rejected() {
    assert_eq!(Uri::new("1http://x/").unwrap_err(), ParseError::BadScheme);
    assert_eq!(Uri::new("://x").unwrap_err(), ParseError::BadScheme);
}

#[test]
fn bad_port_is_rejected() {
    assert_eq!(Uri::new("//host:abc/x").unwrap_err(), ParseError::BadPort);
    assert_eq!(Uri::new("http://host:65536/").unwrap_err(), ParseError::BadPort);
}

#[test]
fn port_edges() {
    let u = Uri::new("//host:65535").unwrap();
    assert_eq!(u.host, Some("host"));
    assert_eq!(u.port, Some(65535));
    let z = Uri::new("//h:0080/x").unwrap();
    assert_eq!(z.port, Some(80));
    assert_eq!(UriOwned::from_uri(z).to_string(), "//h:80/x");
    let t = Uri::new("//host:/x").unwrap();
    assert_eq!(t.host, Some("host:"));
    assert_eq!(t.port, None);
    let p = Uri::new("//:7/x").unwrap();
    assert_eq!(p.host, None);
    assert_eq!(p.port, Some(7));
    assert_eq!(UriOwned::from_uri(p).to_string(), "//:7/x");
}

#[test]
fn colon_after_slash_is_no_scheme() {
    let u = Uri::new("/a://b").unwrap();
    assert_eq!(u.scheme, None);
    assert_eq!(u.path, Some("/a://b"));
}

#[test]
fn round_trips() {
    for s in [
        "//example.com/app",
        "/grafana?tab=1",
        "https://example.com:8443/a/b?x=1#top",
        "/a?#",
        "////x",
        "///x",
        "http://",
        "http://?q",
        "//h:0080/x",
        "//host:/x",
        "a:b",
        "",
        "#",
        "x?y#z?w",
    ] {
        round_trip(s);
    }
}

#[test]
fn rewrite_keeps_present_host() {
    let u = UriOwned::from_uri(Uri::new("http://a.example/x?q#f").unwrap());
    let r = rewrite_host(u, "other");
    assert_eq!(r.to_string(), "http://a.example/x?q#f");
}

#[test]
fn rewrite_twice_is_rewrite_once() {
    let u = UriOwned::from_uri(Uri::new("/x?q#f").unwrap());
    let once = rewrite_host(u.clone(), "h");
    let twice = rewrite_host(once.clone(), "h");
    assert_eq!(once.to_string(), "//h/x?q#f");
    assert_eq!(twice.to_string(), once.to_string());
    assert_eq!(twice.path.as_deref(), Some("/x"));
    assert_eq!(twice.query.as_deref(), Some("q"));
    assert_eq!(twice.fragment.as_deref(), Some("f"));
    assert_eq!(twice.scheme, None);
}
