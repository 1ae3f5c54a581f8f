use jucenit::{Action, ListenerOpts, Match, Route, RuntimeConfig, Tls};

fn host_route(host: &str, proxy: &str) -> Route {
    Route {
        action: Some(Action { params: format!("proxy={}", proxy) }),
        match_: Match {
            host: Some(host.to_string()),
            uri: None,
            source: None,
            params: String::new(),
        },
    }
}

fn plain_opts() -> ListenerOpts {
    ListenerOpts { pass: "routes/*:443".to_string(), tls: None }
}

fn config_with(routes: Vec<Route>) -> RuntimeConfig {
    let mut cfg = RuntimeConfig::empty();
    cfg.set_listener("*:443".to_string(), plain_opts());
    cfg.set_table("*:443".to_string(), routes);
    cfg
}

#[test]
fn config_merge_config_chunks() {
    let old = config_with(vec![
        host_route("example.com", "http://127.0.0.1:8333"),
        host_route("test.com", "http://127.0.0.1:8333"),
    ]);
    let new = config_with(vec![
        host_route("example.com", "http://127.0.0.1:8333"),
        host_route("api.example.com", "http://127.0.0.1:8222"),
    ]);
    let merged = RuntimeConfig::merge(&old, &new);
    let table = merged.table_routes(&"*:443".to_string()).expect("table must exist");
    // distinct match keys in ascending order, the earliest route per key
    assert_eq!(
        *table,
        vec![
            host_route("api.example.com", "http://127.0.0.1:8222"),
            host_route("example.com", "http://127.0.0.1:8333"),
            host_route("test.com", "http://127.0.0.1:8333"),
        ]
    );
}

#[test]
fn merge_merge_config_chunks() {
    // a table present on one side only passes through unchanged
    let old = config_with(vec![host_route("example.com", "http://127.0.0.1:8333")]);
    let mut new = RuntimeConfig::empty();
    new.set_listener("*:8082".to_string(), ListenerOpts {
        pass: "routes/*:8082".to_string(),
        tls: None,
    });
    new.set_table("*:8082".to_string(), vec![host_route("test.com", "http://127.0.0.1:9000")]);
    let merged = RuntimeConfig::merge(&old, &new);
    assert_eq!(
        *merged.table_routes(&"*:443".to_string()).unwrap(),
        vec![host_route("example.com", "http://127.0.0.1:8333")]
    );
    assert_eq!(
        *merged.table_routes(&"*:8082".to_string()).unwrap(),
        vec![host_route("test.com", "http://127.0.0.1:9000")]
    );
    assert!(merged.listener_opts(&"*:443".to_string()).is_some());
    assert!(merged.listener_opts(&"*:8082".to_string()).is_some());
}

#[test]
fn config_unmerge_config_chunks() {
    let old = config_with(vec![
        host_route("api.example.com", "http://127.0.0.1:8222"),
        host_route("example.com", "http://127.0.0.1:8333"),
        host_route("test.com", "http://127.0.0.1:8333"),
    ]);
    let new = config_with(vec![host_route("example.com", "http://127.0.0.1:8333")]);
    let rest = RuntimeConfig::unmerge(&old, &new);
    assert_eq!(
        *rest.table_routes(&"*:443".to_string()).unwrap(),
        vec![
            host_route("api.example.com", "http://127.0.0.1:8222"),
            host_route("test.com", "http://127.0.0.1:8333"),
        ]
    );
}

#[test]
fn merge_unmerge_config_chunks() {
    // removal only strikes routes that are exactly equal: a different action
    // under the same match key survives
    let old = config_with(vec![host_route("example.com", "http://127.0.0.1:8333")]);
    let new = config_with(vec![host_route("example.com", "http://127.0.0.1:9999")]);
    let rest = RuntimeConfig::unmerge(&old, &new);
    assert_eq!(
        *rest.table_routes(&"*:443".to_string()).unwrap(),
        vec![host_route("example.com", "http://127.0.0.1:8333")]
    );
}

#[test]
fn merge_config() {
    // listener entries from the new side overwrite the old ones per socket
    let old = config_with(vec![host_route("example.com", "http://127.0.0.1:8333")]);
    let mut new = RuntimeConfig::empty();
    new.set_listener("*:443".to_string(), ListenerOpts {
        pass: "routes/*:443".to_string(),
        tls: Some(Tls { certificate: vec!["example.com".to_string()] }),
    });
    let merged = RuntimeConfig::merge(&old, &new);
    let opts = merged.listener_opts(&"*:443".to_string()).unwrap();
    assert_eq!(opts.tls, Some(Tls { certificate: vec!["example.com".to_string()] }));
    assert_eq!(
        *merged.table_routes(&"*:443".to_string()).unwrap(),
        vec![host_route("example.com", "http://127.0.0.1:8333")]
    );
}

#[test]
fn merge_is_idempotent_on_concrete_configs() {
    let old = config_with(vec![
        host_route("example.com", "http://127.0.0.1:8333"),
        host_route("test.com", "http://127.0.0.1:8333"),
    ]);
    let new = config_with(vec![host_route("api.example.com", "http://127.0.0.1:8222")]);
    let once = RuntimeConfig::merge(&old, &new);
    let twice = RuntimeConfig::merge(&once, &new);
    assert_eq!(
        twice.table_routes(&"*:443".to_string()).unwrap(),
        once.table_routes(&"*:443".to_string()).unwrap()
    );
    assert_eq!(
        twice.listener_opts(&"*:443".to_string()).unwrap(),
        once.listener_opts(&"*:443".to_string()).unwrap()
    );
}

#[test]
fn merge_tie_resolves_for_old_route() {
    // same match key on both sides: the old action survives
    let old = config_with(vec![host_route("example.com", "http://127.0.0.1:8333")]);
    let new = config_with(vec![host_route("example.com", "http://127.0.0.1:9999")]);
    let merged = RuntimeConfig::merge(&old, &new);
    assert_eq!(
        *merged.table_routes(&"*:443".to_string()).unwrap(),
        vec![host_route("example.com", "http://127.0.0.1:8333")]
    );
}

#[test]
fn priority_route_heads_table_and_withdraws_cleanly() {
    let mut cfg = config_with(vec![
        host_route("example.com", "http://127.0.0.1:8333"),
        host_route("test.com", "http://127.0.0.1:8333"),
    ]);
    let challenge = host_route("example.com", "share=/tmp/challenge");
    cfg.insert_priority_route(&"*:443".to_string(), host_route("example.com", "share=/tmp/challenge"));
    let table = cfg.table_routes(&"*:443".to_string()).unwrap();
    assert_eq!(table[0], challenge);
    assert_eq!(table.len(), 3);
    cfg.remove_priority_route(&"*:443".to_string(), &challenge);
    assert_eq!(
        *cfg.table_routes(&"*:443".to_string()).unwrap(),
        vec![
            host_route("example.com", "http://127.0.0.1:8333"),
            host_route("test.com", "http://127.0.0.1:8333"),
        ]
    );
}

fn config_from_toml(text: &str) -> RuntimeConfig {
    let value: toml::Table = text.parse().expect("fixture must parse");
    let units = value.get("unit").and_then(|u| u.as_array()).expect("fixture has units");
    let mut store = jucenit::FactStore::new();
    for unit in units {
        let listeners: Vec<String> = unit
            .get("listeners")
            .and_then(|l| l.as_array())
            .expect("unit has listeners")
            .iter()
            .map(|s| s.as_str().unwrap().to_string())
            .collect();
        let hosts: Vec<String> = match unit.get("match").and_then(|m| m.get("hosts")) {
            Some(hs) => hs.as_array().unwrap().iter().map(|s| s.as_str().unwrap().to_string()).collect(),
            None => Vec::new(),
        };
        let action = unit.get("action").and_then(|a| a.get("proxy")).map(|p| Action {
            params: format!("proxy={}", p.as_str().unwrap()),
        });
        store.add_unit(jucenit::Unit {
            id: None,
            hosts,
            uri: None,
            source: None,
            params: String::new(),
            action,
            listeners,
        });
    }
    store.translate(&Vec::new(), &Vec::new())
}

#[test]
fn merge_of_two_toml_fixtures_keeps_two_distinct_routes() {
    // one overlapping host and action, one disjoint host: exactly two routes
    // survive on the shared listener's table, nothing doubled, nothing lost
    let old = config_from_toml(
        "
        [[unit]]
        listeners = ['*:443']
        [unit.match]
        hosts = ['example.com']
        [unit.action]
        proxy = 'http://127.0.0.1:8333'
        ",
    );
    let new = config_from_toml(
        "
        [[unit]]
        listeners = ['*:443']
        [unit.match]
        hosts = ['example.com', 'test.com']
        [unit.action]
        proxy = 'http://127.0.0.1:8333'
        ",
    );
    let merged = RuntimeConfig::merge(&old, &new);
    let table = merged.table_routes(&"*:443".to_string()).unwrap();
    assert_eq!(table.len(), 2);
    assert_eq!(
        *table,
        vec![
            host_route("example.com", "http://127.0.0.1:8333"),
            host_route("test.com", "http://127.0.0.1:8333"),
        ]
    );
}

#[test]
fn match_keys_order_hostless_first_then_by_host()
{
    let hostless = Match { host: None, uri: None, source: None, params: String::new() };
    let a = Match {
        host: Some("a.example.com".to_string()),
        uri: None,
        source: None,
        params: String::new(),
    };
    let b = Match {
        host: Some("b.example.com".to_string()),
        uri: None,
        source: None,
        params: String::new(),
    };
    assert_eq!(hostless.compare(&a), -1);
    assert_eq!(a.compare(&b), -1);
    assert_eq!(b.compare(&a), 1);
    assert_eq!(a.compare(&a), 0);
    assert!(a.same(&a));
    assert!(!a.same(&b));
}

#[test]
fn merging_empty_documents_changes_nothing() {
    let empty = RuntimeConfig::empty();
    let merged = RuntimeConfig::merge(&empty, &empty);
    assert_eq!(merged, RuntimeConfig::empty());
    let one = config_with(vec![host_route("example.com", "http://127.0.0.1:8333")]);
    let merged = RuntimeConfig::merge(&one, &RuntimeConfig::empty());
    assert_eq!(
        *merged.table_routes(&"*:443".to_string()).unwrap(),
        vec![host_route("example.com", "http://127.0.0.1:8333")]
    );
}

#[test]
fn unmerge_leaves_unrelated_tables_alone() {
    let old = config_with(vec![host_route("example.com", "http://127.0.0.1:8333")]);
    let mut new = RuntimeConfig::empty();
    new.set_table("*:8082".to_string(), vec![host_route("example.com", "http://127.0.0.1:8333")]);
    let rest = RuntimeConfig::unmerge(&old, &new);
    assert_eq!(
        *rest.table_routes(&"*:443".to_string()).unwrap(),
        vec![host_route("example.com", "http://127.0.0.1:8333")]
    );
    assert!(rest.table_routes(&"*:8082".to_string()).is_none());
}

#[test]
fn default_document_provisions_the_web_tables() {
    let cfg = RuntimeConfig::default();
    assert_eq!(*cfg.table_routes(&"*:80".to_string()).unwrap(), Vec::<Route>::new());
    assert_eq!(*cfg.table_routes(&"*:443".to_string()).unwrap(), Vec::<Route>::new());
    assert!(cfg.listener_opts(&"*:80".to_string()).is_none());
}
