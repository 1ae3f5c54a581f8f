use jucenit::{
    bundle_from_chain, challenge_route, challenge_uri, needs_issuance, AcmeAction, AcmeEvent,
    AcmeState, Action, CoreError, FactStore, Letsencrypt, PendingChallenge, PollStatus, Unit,
};

#[test]
fn issuance_walks_the_happy_path() {
    let (s, a) = Letsencrypt::start();
    assert_eq!((s, a), (AcmeState::NoOrder, AcmeAction::OpenOrder));
    let (s, a) = Letsencrypt::step(s, AcmeEvent::OrderOpened);
    assert_eq!((s, a), (AcmeState::OrderCreated, AcmeAction::ListAuthorizations));
    let (s, a) = Letsencrypt::step(s, AcmeEvent::AuthorizationsListed);
    assert_eq!((s, a), (AcmeState::AuthorizationsPending, AcmeAction::SelectHttpChallenge));
    let (s, a) = Letsencrypt::step(s, AcmeEvent::ChallengeFound);
    assert_eq!((s, a), (AcmeState::ChallengeServing, AcmeAction::ServeChallenge));
    let (s, a) = Letsencrypt::step(s, AcmeEvent::ChallengeServed);
    assert_eq!(
        (s, a),
        (AcmeState::ChallengeValidating { attempts: 0 }, AcmeAction::ValidateChallenge)
    );
    let (s, a) = Letsencrypt::step(s, AcmeEvent::ChallengePolled { status: PollStatus::Pending });
    assert_eq!(
        (s, a),
        (AcmeState::ChallengeValidating { attempts: 1 }, AcmeAction::PollChallenge)
    );
    let (s, a) = Letsencrypt::step(s, AcmeEvent::ChallengePolled { status: PollStatus::Valid });
    assert_eq!((s, a), (AcmeState::ChallengeValid, AcmeAction::RetractChallenge));
    let (s, a) = Letsencrypt::step(s, AcmeEvent::ChallengeRetracted);
    assert_eq!((s, a), (AcmeState::ChallengeValid, AcmeAction::ConfirmAuthorization));
    let (s, a) = Letsencrypt::step(s, AcmeEvent::AuthorizationConfirmed);
    assert_eq!((s, a), (AcmeState::OrderFinalizing { attempts: 0 }, AcmeAction::FinalizeOrder));
    let (s, a) = Letsencrypt::step(s, AcmeEvent::OrderPolled { status: PollStatus::Valid });
    assert_eq!((s, a), (AcmeState::OrderValid, AcmeAction::PublishBundle));
    let (s, a) = Letsencrypt::step(s, AcmeEvent::BundlePublished);
    assert_eq!((s, a), (AcmeState::BundleUploaded, AcmeAction::Stop));
}

#[test]
fn failed_challenge_still_retracts_the_route() {
    let s = AcmeState::ChallengeValidating { attempts: 3 };
    let (s, a) = Letsencrypt::step(s, AcmeEvent::ChallengePolled { status: PollStatus::Invalid });
    assert_eq!((s, a), (AcmeState::Invalid, AcmeAction::RetractChallenge));
}

#[test]
fn exhausted_polling_gives_up_and_retracts() {
    let mut s = AcmeState::ChallengeValidating { attempts: 0 };
    let mut last = AcmeAction::ValidateChallenge;
    for _ in 0..10 {
        let (s2, a) = Letsencrypt::step(s, AcmeEvent::ChallengePolled {
            status: PollStatus::Pending,
        });
        s = s2;
        last = a;
    }
    assert_eq!(s, AcmeState::Invalid);
    assert_eq!(last, AcmeAction::RetractChallenge);
}

#[test]
fn missing_http_challenge_is_fatal_for_the_host() {
    let (s, a) = Letsencrypt::step(AcmeState::AuthorizationsPending, AcmeEvent::NoHttpChallenge);
    assert_eq!((s, a), (AcmeState::Invalid, AcmeAction::Stop));
}

#[test]
fn terminal_states_absorb_events() {
    let (s, a) = Letsencrypt::step(AcmeState::Invalid, AcmeEvent::OrderOpened);
    assert_eq!((s, a), (AcmeState::Invalid, AcmeAction::Stop));
    let (s, a) = Letsencrypt::step(AcmeState::BundleUploaded, AcmeEvent::BundlePublished);
    assert_eq!((s, a), (AcmeState::BundleUploaded, AcmeAction::Stop));
}

#[test]
fn bundle_concatenates_chain_then_key() {
    let chain = vec!["CERT-A\n".to_string(), "CERT-B\n".to_string()];
    let key = "KEY\n".to_string();
    let bundle = bundle_from_chain(&chain, &key).expect("two chain entries are enough");
    assert_eq!(bundle, "CERT-A\nCERT-B\nKEY\n".to_string());
}

#[test]
fn bundle_refuses_an_empty_chain() {
    let chain = vec!["CERT-A\n".to_string()];
    let key = "KEY\n".to_string();
    match bundle_from_chain(&chain, &key) {
        Err(CoreError::MissingResource(m)) => assert_eq!(m, "no certificate returned".to_string()),
        other => panic!("expected a missing-resource error, got {:?}", other),
    }
}

#[test]
fn challenge_route_serves_the_well_known_path() {
    let route = challenge_route(
        &"example.com".to_string(),
        &"tok-123".to_string(),
        Some(Action { params: "share=/tmp/challenge_example.com.txt".to_string() }),
    );
    assert_eq!(route.match_.host, Some("example.com".to_string()));
    assert_eq!(
        route.match_.uri,
        Some("/.well-known/acme-challenge/tok-123".to_string())
    );
    assert_eq!(route.match_.source, None);
    assert_eq!(
        challenge_uri(&"tok-123".to_string()),
        "/.well-known/acme-challenge/tok-123".to_string()
    );
}

#[test]
fn end_to_end_issuance_scenario() {
    // one match for example.com proxying to a backend on *:443, and no
    // certificate on file yet
    let mut store = FactStore::new();
    store.add_unit(Unit {
        id: None,
        hosts: vec!["example.com".to_string()],
        uri: None,
        source: None,
        params: String::new(),
        action: Some(Action { params: "proxy=http://127.0.0.1:8333".to_string() }),
        listeners: vec!["*:443".to_string()],
    });
    assert_eq!(needs_issuance(None, 0), Ok(true));

    // the challenge is served on plaintext *:80 with top priority
    let mut cfg = store.translate(&Vec::new(), &Vec::new());
    cfg.ensure_table(&"*:80".to_string());
    let challenge = challenge_route(
        &"example.com".to_string(),
        &"tok-123".to_string(),
        Some(Action { params: "share=/tmp/challenge_example.com.txt".to_string() }),
    );
    cfg.insert_priority_route(
        &"*:80".to_string(),
        challenge_route(
            &"example.com".to_string(),
            &"tok-123".to_string(),
            Some(Action { params: "share=/tmp/challenge_example.com.txt".to_string() }),
        ),
    );
    assert_eq!(cfg.table_routes(&"*:80".to_string()).unwrap()[0], challenge);

    // the machine runs to a stored bundle
    let (mut s, _) = Letsencrypt::start();
    for e in [
        AcmeEvent::OrderOpened,
        AcmeEvent::AuthorizationsListed,
        AcmeEvent::ChallengeFound,
        AcmeEvent::ChallengeServed,
        AcmeEvent::ChallengePolled { status: PollStatus::Valid },
        AcmeEvent::ChallengeRetracted,
        AcmeEvent::AuthorizationConfirmed,
        AcmeEvent::OrderPolled { status: PollStatus::Valid },
        AcmeEvent::BundlePublished,
    ] {
        let (s2, _) = Letsencrypt::step(s, e);
        s = s2;
    }
    assert_eq!(s, AcmeState::BundleUploaded);

    // the route is withdrawn and the final reconciliation push carries the
    // fresh certificate: TLS on *:443 and no leftover route on *:80
    cfg.remove_priority_route(&"*:80".to_string(), &challenge);
    assert!(cfg.table_routes(&"*:80".to_string()).unwrap().is_empty());
    let certified = vec!["example.com".to_string()];
    let fresh = store.translate(&certified, &Vec::new());
    let opts = fresh.listener_opts(&"*:443".to_string()).unwrap();
    assert_eq!(
        opts.tls.as_ref().unwrap().certificate,
        vec!["example.com".to_string()]
    );
    let final_cfg = jucenit::RuntimeConfig::merge(&cfg, &fresh);
    assert_eq!(
        final_cfg
            .listener_opts(&"*:443".to_string())
            .unwrap()
            .tls
            .as_ref()
            .unwrap()
            .certificate,
        vec!["example.com".to_string()]
    );
    assert!(final_cfg.table_routes(&"*:80".to_string()).unwrap().is_empty());
}

#[test]
fn pending_challenge_pairs_name_host_and_socket() {
    let p = PendingChallenge { host: "example.com".to_string(), socket: "*:443".to_string() };
    assert_eq!(p.host, "example.com".to_string());
    assert_eq!(p.socket, "*:443".to_string());
}
