use dash::config::{local_icons, Config, Entry, Icon, Store};
use dash::route::Method;
use dash::server::{decide, Reply};

fn entry(name: &str, url: &str, icon: Option<Icon>) -> Entry {
    Entry { name: name.to_string(), url: url.to_string(), desc: Some(format!("{name} app")), icon }
}

fn config(apps: Vec<Entry>) -> Config {
    Config { bind: "0.0.0.0:80".to_string(), apps }
}

fn index_names(store: &Store) -> Vec<String> {
    match decide(store, Method::Get, Some("h"), "/") {
        Reply::Index(es) => es.into_iter().map(|e| e.name).collect(),
        other => panic!("unexpected {other:?}"),
    }
}

#[test]
fn default_config() {
    assert_eq!(Config::default_bind(), "127.0.0.1:8333");
    let c = Config::default();
    assert_eq!(c.bind, "127.0.0.1:8333");
    assert!(c.apps.is_empty());
}

#[test]
fn allow_list_holds_local_icons_in_order() {
    let c = config(vec![
        entry("a", "/a", Some(Icon::Local { path: "a.png".to_string() })),
        entry("b", "/b", Some(Icon::Remote { url: "http://x/b.png".to_string() })),
        entry("c", "/c", None),
        entry("d", "/d", Some(Icon::Local { path: "d/d.png".to_string() })),
    ]);
    assert_eq!(local_icons(&c), vec!["a.png".to_string(), "d/d.png".to_string()]);
    let s = Store::new(c);
    assert_eq!(s.allow, vec!["a.png".to_string(), "d/d.png".to_string()]);
}

#[test]
fn reload_replaces_snapshot_and_allow_list() {
    let mut s = Store::new(config(vec![entry("old", "/old", Some(Icon::Local { path: "old.png".to_string() }))]));
    assert_eq!(index_names(&s), vec!["old".to_string()]);
    let r: Result<(), String> = s.apply_reload(Ok(config(vec![
        entry("new", "/new", Some(Icon::Local { path: "new.png".to_string() })),
        entry("more", "/more", None),
    ])));
    assert!(r.is_ok());
    assert_eq!(index_names(&s), vec!["new".to_string(), "more".to_string()]);
    assert_eq!(s.allow, vec!["new.png".to_string()]);
    assert!(matches!(decide(&s, Method::Get, Some("h"), "/icon/old.png"), Reply::NotFound));
}

#[test]
fn failed_reload_keeps_old_snapshot() {
    let mut s = Store::new(config(vec![entry("kept", "/kept", Some(Icon::Local { path: "k.png".to_string() }))]));
    let r = s.apply_reload(Err("invalid TOML".to_string()));
    assert_eq!(r, Err("invalid TOML".to_string()));
    assert_eq!(index_names(&s), vec!["kept".to_string()]);
    assert_eq!(s.allow, vec!["k.png".to_string()]);
    assert_eq!(s.config.bind, "0.0.0.0:80");
}
