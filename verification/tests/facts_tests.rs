use jucenit::{Action, FactStore, PendingChallenge, Unit};

fn proxy_unit(hosts: Vec<&str>, listeners: Vec<&str>, proxy: &str) -> Unit {
    Unit {
        id: None,
        hosts: hosts.iter().map(|h| h.to_string()).collect(),
        uri: None,
        source: None,
        params: String::new(),
        action: Some(Action { params: format!("proxy={}", proxy) }),
        listeners: listeners.iter().map(|l| l.to_string()).collect(),
    }
}

#[test]
fn pushing_the_same_fact_twice_is_a_no_op() {
    let mut store = FactStore::new();
    store.add_unit(proxy_unit(
        vec!["example.com", "test.com"],
        vec!["*:443"],
        "http://127.0.0.1:8333",
    ));
    let snapshot = FactStore { units: store.units.clone() };
    store.add_unit(proxy_unit(
        vec!["example.com", "test.com"],
        vec!["*:443"],
        "http://127.0.0.1:8333",
    ));
    assert_eq!(store, snapshot);
}

#[test]
fn pushing_a_wider_fact_unions_the_links() {
    let mut store = FactStore::new();
    store.add_unit(proxy_unit(vec!["example.com"], vec!["*:443"], "http://127.0.0.1:8333"));
    store.add_unit(proxy_unit(
        vec!["example.com", "api.example.com"],
        vec!["*:443", "*:8443"],
        "http://127.0.0.1:8333",
    ));
    assert_eq!(store.units.len(), 1);
    assert_eq!(
        store.units[0].hosts,
        vec!["example.com".to_string(), "api.example.com".to_string()]
    );
    assert_eq!(store.units[0].listeners, vec!["*:443".to_string(), "*:8443".to_string()]);
}

#[test]
fn removing_the_last_host_link_prunes_the_unit() {
    let mut store = FactStore::new();
    store.add_unit(proxy_unit(
        vec!["example.com", "test.com"],
        vec!["*:443"],
        "http://127.0.0.1:8333",
    ));
    store.remove_unit(&proxy_unit(vec!["test.com"], vec!["*:443"], "http://127.0.0.1:8333"));
    assert_eq!(store.units.len(), 1);
    assert_eq!(store.units[0].hosts, vec!["example.com".to_string()]);
    store.remove_unit(&proxy_unit(vec!["example.com"], vec!["*:443"], "http://127.0.0.1:8333"));
    assert!(store.units.is_empty());
}

#[test]
fn hosts_are_listed_once_each() {
    let mut store = FactStore::new();
    store.add_unit(proxy_unit(
        vec!["example.com", "test.com"],
        vec!["*:443"],
        "http://127.0.0.1:8333",
    ));
    store.add_unit(Unit {
        uri: Some("/api".to_string()),
        ..proxy_unit(vec!["example.com", "api.example.com"], vec!["*:443"], "http://127.0.0.1:8222")
    });
    assert_eq!(
        store.hosts(),
        vec![
            "example.com".to_string(),
            "test.com".to_string(),
            "api.example.com".to_string(),
        ]
    );
}

#[test]
fn convert_config_file() {
    // one declarative file's worth of units, translated into the document
    let mut store = FactStore::new();
    store.add_unit(proxy_unit(
        vec!["test.com", "example.com"],
        vec!["*:443"],
        "http://127.0.0.1:8333",
    ));
    let cfg = store.translate(&Vec::new(), &Vec::new());
    let table = cfg.table_routes(&"*:443".to_string()).expect("table for *:443");
    assert_eq!(table.len(), 2);
    assert_eq!(table[0].match_.host, Some("test.com".to_string()));
    assert_eq!(table[1].match_.host, Some("example.com".to_string()));
    let opts = cfg.listener_opts(&"*:443".to_string()).expect("listener for *:443");
    assert_eq!(opts.pass, "routes/*:443".to_string());
    assert_eq!(opts.tls, None);
}

#[test]
fn hostless_unit_becomes_one_route_for_every_host() {
    let mut store = FactStore::new();
    store.add_unit(proxy_unit(vec![], vec!["*:443"], "http://127.0.0.1:8222"));
    let cfg = store.translate(&Vec::new(), &Vec::new());
    let table = cfg.table_routes(&"*:443".to_string()).unwrap();
    assert_eq!(table.len(), 1);
    assert_eq!(table[0].match_.host, None);
}

#[test]
fn tls_bundle_lists_certified_hosts() {
    let mut store = FactStore::new();
    store.add_unit(proxy_unit(
        vec!["example.com", "test.com"],
        vec!["*:443"],
        "http://127.0.0.1:8333",
    ));
    let certified = vec!["example.com".to_string(), "test.com".to_string()];
    let cfg = store.translate(&certified, &Vec::new());
    let opts = cfg.listener_opts(&"*:443".to_string()).unwrap();
    let tls = opts.tls.as_ref().expect("certified hosts get a TLS bundle");
    assert_eq!(tls.certificate, vec!["example.com".to_string(), "test.com".to_string()]);
}

#[test]
fn tls_is_suppressed_for_a_host_mid_challenge() {
    // a listener with two hosts, one mid-challenge: the bundle holds the
    // other host and leaves the challenging one on plaintext
    let mut store = FactStore::new();
    store.add_unit(proxy_unit(
        vec!["example.com", "test.com"],
        vec!["*:443"],
        "http://127.0.0.1:8333",
    ));
    let certified = vec!["example.com".to_string(), "test.com".to_string()];
    let challenges = vec![PendingChallenge {
        host: "example.com".to_string(),
        socket: "*:443".to_string(),
    }];
    let cfg = store.translate(&certified, &challenges);
    let opts = cfg.listener_opts(&"*:443".to_string()).unwrap();
    let tls = opts.tls.as_ref().expect("the unchallenged host keeps TLS");
    assert_eq!(tls.certificate, vec!["test.com".to_string()]);
}

#[test]
fn challenge_on_another_listener_does_not_suppress_tls() {
    let mut store = FactStore::new();
    store.add_unit(proxy_unit(vec!["example.com"], vec!["*:443"], "http://127.0.0.1:8333"));
    let certified = vec!["example.com".to_string()];
    let challenges = vec![PendingChallenge {
        host: "example.com".to_string(),
        socket: "*:80".to_string(),
    }];
    let cfg = store.translate(&certified, &challenges);
    let opts = cfg.listener_opts(&"*:443".to_string()).unwrap();
    assert_eq!(
        opts.tls.as_ref().unwrap().certificate,
        vec!["example.com".to_string()]
    );
}

#[test]
fn sockets_are_listed_once_in_first_occurrence_order() {
    let mut store = FactStore::new();
    store.add_unit(proxy_unit(vec!["example.com"], vec!["*:443", "*:80"], "http://127.0.0.1:8333"));
    store.add_unit(Unit {
        uri: Some("/api".to_string()),
        ..proxy_unit(vec!["api.example.com"], vec!["*:80", "*:8443"], "http://127.0.0.1:8222")
    });
    assert_eq!(
        store.sockets(),
        vec!["*:443".to_string(), "*:80".to_string(), "*:8443".to_string()]
    );
}
