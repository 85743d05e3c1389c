use dash::config::{Config, Entry, Icon, Store};
use dash::route::{route, Action, Method};
use dash::server::{decide, host_name, index_entries, rewritten_url, status_code, Reply};

fn entry(name: &str, url: &str, icon: Option<Icon>) -> Entry {
    Entry { name: name.to_string(), url: url.to_string(), desc: None, icon }
}

fn store_with(apps: Vec<Entry>) -> Store {
    Store::new(Config { bind: Config::default_bind(), apps })
}

#[test]
fn icon_on_allow_list_is_served() {
    let allow = vec!["app.png".to_string()];
    assert_eq!(route(Method::Get, "/icon/app.png", &allow), Action::ServeIcon("app.png".to_string()));
    assert_eq!(route(Method::Other, "/icon/app.png", &allow), Action::ServeIcon("app.png".to_string()));
}

#[test]
fn icon_needs_exact_match() {
    let allow = vec!["icons/app.png".to_string()];
    assert_eq!(route(Method::Get, "/icon/app.png", &allow), Action::NotFound);
    let allow = vec!["app.png".to_string()];
    assert_eq!(route(Method::Get, "/icon/app", &allow), Action::NotFound);
    assert_eq!(route(Method::Get, "/icon/app.png2", &allow), Action::NotFound);
    assert_eq!(route(Method::Get, "/icon/../app.png", &allow), Action::NotFound);
    assert_eq!(route(Method::Get, "/icons/app.png", &allow), Action::NotFound);
    assert_eq!(route(Method::Get, "/icon/", &allow), Action::NotFound);
}

#[test]
fn root_needs_get() {
    let allow: Vec<String> = Vec::new();
    assert_eq!(route(Method::Get, "/", &allow), Action::RenderIndex);
    assert_eq!(route(Method::Other, "/", &allow), Action::NotFound);
    assert_eq!(route(Method::Get, "/index.html", &allow), Action::NotFound);
}

#[test]
fn missing_host_header_is_bad_request() {
    let store = store_with(Vec::new());
    let r = decide(&store, Method::Get, None, "/");
    assert!(matches!(r, Reply::MissingHost));
    assert_eq!(status_code(&r), 400);
}

#[test]
fn malformed_target_is_bad_request() {
    let store = store_with(Vec::new());
    let r = decide(&store, Method::Get, Some("dash.local"), "//h:x/");
    assert!(matches!(r, Reply::BadTarget));
    assert_eq!(status_code(&r), 400);
}

#[test]
fn unknown_path_is_not_found() {
    let store = store_with(Vec::new());
    let r = decide(&store, Method::Get, Some("dash.local"), "/nothing");
    assert!(matches!(r, Reply::NotFound));
    assert_eq!(status_code(&r), 404);
}

#[test]
fn icon_request_through_store() {
    let store = store_with(vec![entry("a", "/a", Some(Icon::Local { path: "app.png".to_string() }))]);
    match decide(&store, Method::Get, Some("dash.local"), "/icon/app.png?v=2") {
        Reply::Icon(p) => assert_eq!(p, "app.png"),
        other => panic!("unexpected {other:?}"),
    }
    let r = decide(&store, Method::Get, Some("dash.local"), "/icon/other.png");
    assert!(matches!(r, Reply::NotFound));
}

#[test]
fn host_port_is_dropped() {
    assert_eq!(host_name("dash.local:8333"), "dash.local");
    assert_eq!(host_name("dash.local"), "dash.local");
    assert_eq!(host_name("a:b:c"), "a:b");
}

#[test]
fn index_rewrites_hostless_links() {
    let store = store_with(vec![
        entry("grafana", "/grafana?tab=1", None),
        entry("remote", "https://example.com/x", Some(Icon::Remote { url: "https://example.com/i.png".to_string() })),
        entry("net", "//other.example/y", None),
    ]);
    match decide(&store, Method::Get, Some("dash.local:8333"), "/") {
        Reply::Index(es) => {
            assert_eq!(es.len(), 3);
            assert_eq!(es[0].url, "//dash.local/grafana?tab=1");
            assert_eq!(es[0].name, "grafana");
            assert_eq!(es[1], store.config.apps[1]);
            assert_eq!(es[2].url, "//other.example/y");
        }
        other => panic!("unexpected {other:?}"),
    }
}

#[test]
fn malformed_entry_is_kept() {
    let apps = vec![
        entry("bad", "1x://broken", None),
        entry("one", "/one", None),
        entry("two", "http://h/two", None),
    ];
    let es = index_entries(&apps, "dash.local");
    assert_eq!(es.len(), 3);
    assert_eq!(es[0], apps[0]);
    assert_eq!(es[1].url, "//dash.local/one");
    assert_eq!(es[2].url, "http://h/two");
}

#[test]
fn rewritten_url_cases() {
    assert_eq!(rewritten_url("/grafana?tab=1", "dash.local"), "//dash.local/grafana?tab=1");
    assert_eq!(rewritten_url("http:///x", "h"), "http://h/x");
    assert_eq!(rewritten_url("//h:x", "z"), "//h:x");
    assert_eq!(rewritten_url("//a/b", "z"), "//a/b");
}
