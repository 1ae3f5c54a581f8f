//! A verified control plane for an application-server runtime.
//!
//! The library turns declarative routing facts (which hosts and paths map to
//! which backends) into the runtime's configuration document, merges and
//! unmerges configuration chunks with deterministic conflict resolution, and
//! drives the certificate lifecycle: deciding when a certificate must be
//! renewed and stepping the ACME order/challenge state machine for each host.
//!
//! All I/O (the runtime's HTTP API, the certificate store, the ACME server)
//! lives outside this crate; the library works on plain values and states
//! exactly what it computes.

pub mod acme;
pub mod certificate;
pub mod config;
pub mod error;
pub mod facts;
pub mod merge;
pub mod route;
pub mod settings;

pub use acme::{
    bundle_from_chain, challenge_route, challenge_uri, step_spec, AcmeAction, AcmeEvent,
    AcmeState, Letsencrypt, PollStatus, MAX_POLL_ATTEMPTS, POLL_INTERVAL_SECS,
};
pub use certificate::{
    needs_issuance, should_renew_at, valid_hosts, Certificate, CertificateInfo, Identity,
    RawCertificate, StoredCert, Validity,
};
pub use config::{Listener, ListenerOpts, RouteTable, RuntimeConfig, Tls};
pub use error::CoreError;
pub use facts::{FactStore, PendingChallenge, Unit};
pub use route::{Action, Match, Route};
pub use settings::Settings;
