use jucenit::{
    needs_issuance, should_renew_at, valid_hosts, Certificate, CertificateInfo, CoreError,
    Identity, RawCertificate, Settings, StoredCert, Validity,
};

// Jan  1 00:00:00 2030 UTC, in seconds since the Unix epoch.
const Y2030: i64 = 1893456000;
// Three weeks, in seconds.
const THREE_WEEKS: i64 = 1814400;

fn info(until: &str) -> CertificateInfo {
    CertificateInfo {
        subject: Identity { common_name: "example.com".to_string() },
        issuer: Identity { common_name: "ca.example.com".to_string() },
        validity: Validity {
            since: "Jan  1 00:00:00 2020 GMT".to_string(),
            until: until.to_string(),
        },
    }
}

#[test]
fn renewal_is_due_at_exactly_three_weeks() {
    let now = Y2030 - THREE_WEEKS;
    assert!(should_renew_at(Y2030, now));
    assert!(!should_renew_at(Y2030, now - 1));
    assert!(should_renew_at(Y2030, now + 1));
}

#[test]
fn validity_reads_the_store_datetime_format() {
    let v = Validity {
        since: "Jan  1 00:00:00 2020 GMT".to_string(),
        until: "Jan  1 00:00:00 2030 GMT".to_string(),
    };
    // exactly three weeks left: due
    assert_eq!(v.should_renew(Y2030 - THREE_WEEKS), Ok(true));
    // one second more than three weeks left: not due
    assert_eq!(v.should_renew(Y2030 - THREE_WEEKS - 1), Ok(false));
    assert_eq!(v.remaining_time(Y2030 - THREE_WEEKS), Ok(THREE_WEEKS as i128));
}

#[test]
fn unreadable_validity_is_a_protocol_violation() {
    let v = Validity {
        since: "Jan  1 00:00:00 2020 GMT".to_string(),
        until: "sometime next year".to_string(),
    };
    match v.should_renew(0) {
        Err(CoreError::ProtocolViolation(m)) => assert_eq!(m, "sometime next year".to_string()),
        other => panic!("expected a protocol violation, got {:?}", other),
    }
}

#[test]
fn a_host_without_a_certificate_needs_issuance() {
    assert_eq!(needs_issuance(None, Y2030), Ok(true));
    let c = info("Jan  1 00:00:00 2030 GMT");
    assert_eq!(needs_issuance(Some(&c), Y2030 - THREE_WEEKS - 1), Ok(false));
    assert_eq!(needs_issuance(Some(&c), Y2030 - THREE_WEEKS), Ok(true));
}

#[test]
fn valid_hosts_keeps_only_fresh_readable_certificates() {
    let now = Y2030 - THREE_WEEKS - 1;
    let certs = vec![
        StoredCert { dns: "fresh.example.com".to_string(), info: info("Jan  1 00:00:00 2030 GMT") },
        StoredCert { dns: "due.example.com".to_string(), info: info("Jan  1 00:00:00 2020 GMT") },
        StoredCert { dns: "odd.example.com".to_string(), info: info("not a datetime") },
    ];
    assert_eq!(valid_hosts(&certs, now), vec!["fresh.example.com".to_string()]);
}

#[test]
fn settings_url_fallback() {
    // the runtime address falls back from url to socket to the default
    let s = Settings { url: Some("http://10.0.0.1:8080".to_string()), socket: None };
    assert_eq!(s.get_url(), "http://10.0.0.1:8080".to_string());
    let s = Settings { url: None, socket: Some("/run/control.sock".to_string()) };
    assert_eq!(s.get_url(), "/run/control.sock".to_string());
    let s = Settings { url: None, socket: None };
    assert_eq!(s.get_url(), "http://127.0.0.1:8080".to_string());
}

#[test]
fn default_settings_address() {
    // the default settings address the runtime over loopback HTTP
    let s = Settings::default();
    assert_eq!(s.get_url(), "http://127.0.0.1:8080".to_string());
}

#[test]
fn error_messages_carry_their_text() {
    let e = CoreError::TransientRemote("connection refused".to_string());
    assert_eq!(*e.message(), "connection refused".to_string());
    let e = CoreError::ChallengeFailure("http challenge not valid".to_string());
    assert_eq!(*e.message(), "http challenge not valid".to_string());
    let e = CoreError::AuthorizationFailure("authorization not valid".to_string());
    assert_eq!(*e.message(), "authorization not valid".to_string());
}

#[test]
fn the_chain_leaf_is_the_first_entry() {
    let raw = RawCertificate {
        key: "KEY".to_string(),
        chain: vec![info("Jan  1 00:00:00 2030 GMT"), info("Jan  1 00:00:00 2031 GMT")],
    };
    assert_eq!(raw.leaf(), Some(&info("Jan  1 00:00:00 2030 GMT")));
    let empty = RawCertificate { key: "KEY".to_string(), chain: vec![] };
    assert_eq!(empty.leaf(), None);
}

#[test]
fn a_bundle_prints_as_one_pem_text() {
    let cert = Certificate {
        bundle: vec!["CERT-A\n".to_string(), "CERT-B\n".to_string(), "KEY\n".to_string()],
    };
    assert_eq!(cert.to_pem(), "CERT-A\nCERT-B\nKEY\n".to_string());
}
