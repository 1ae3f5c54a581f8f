use vstd::prelude::*;

use crate::error::CoreError;
use crate::facts::strs_view;

verus! {

/// Seconds in the renewal window: a certificate with no more than three
/// weeks of validity left is due for renewal.
pub const RENEW_WINDOW_SECS: i64 = 1814400;

/// The subject or issuer of a certificate, as the store reports it.
#[derive(Debug, Clone, PartialEq, Eq)]
pub struct Identity {
    pub common_name: String,
}

/// A certificate's validity window, as the store reports it: opening and
/// closing instants as datetime strings such as `May  1 12:00:00 2026 GMT`.
#[derive(Debug, Clone, PartialEq, Eq)]
pub struct Validity {
    pub since: String,
    pub until: String,
}

/// What the store knows of one certificate: who it is for, who issued it,
/// and when it is valid. Derived from the store, never owned here.
#[derive(Debug, Clone, PartialEq, Eq)]
pub struct CertificateInfo {
    pub subject: Identity,
    pub issuer: Identity,
    pub validity: Validity,
}

/// A raw store entry: the key and the certificate chain, leaf first.
#[derive(Debug, Clone, PartialEq, Eq)]
pub struct RawCertificate {
    pub key: String,
    pub chain: Vec<CertificateInfo>,
}

/// An issued certificate bundle: PEM entries, chain first, private key last.
#[derive(Debug, Clone, PartialEq, Eq)]
pub struct Certificate {
    pub bundle: Vec<String>,
}

impl RawCertificate {
    /// The end-entity entry of the chain: what the store reports about the
    /// host's current certificate. Absent only when the chain is empty.
    pub fn leaf(&self) -> (r: Option<&CertificateInfo>)
        ensures
            self.chain@.len() == 0 ==> r is None,
            self.chain@.len() > 0 ==> (r matches Some(c) && *c == self.chain@[0]),
    {
        if self.chain.len() == 0 {
            None
        } else {
            Some(&self.chain[0])
        }
    }
}

/// The instant a validity datetime string denotes, in seconds since the Unix
/// epoch, or nothing when the string cannot be read. What this function
/// returns on a given string is fixed by chrono's parser; nothing more is
/// assumed of it here.
pub uninterp spec fn utc_seconds_of(s: Seq<char>) -> Option<i64>;

/// Relies on chrono's `NaiveDateTime::parse_from_str` with the store's
/// datetime format, read as UTC: the result depends on the string alone, and
/// is absent exactly when chrono rejects the string.
#[verifier::external_body]
fn parse_validity_time(s: &str) -> (r: Option<i64>)
    ensures
        r == utc_seconds_of(s@),
{
    match chrono::NaiveDateTime::parse_from_str(s, "%b %e %T %Y %Z") {
        Ok(t) => Some(t.and_utc().timestamp()),
        Err(_) => None,
    }
}

/// The renewal decision on plain instants: renew exactly when no more than
/// three weeks remain from `now` to `until`, the boundary included.
pub fn should_renew_at(until: i64, now: i64) -> (r: bool)
    ensures
        r == (until - now <= RENEW_WINDOW_SECS),
{
    (until as i128) - (now as i128) <= RENEW_WINDOW_SECS as i128
}

impl Validity {
    /// Seconds remaining from `now` until this window closes; an error when
    /// the closing instant cannot be read, naming the offending string.
    pub fn remaining_time(&self, now: i64) -> (r: Result<i128, CoreError>)
        ensures
            (match utc_seconds_of(self.until@) {
                Some(u) => r == Ok::<i128, CoreError>((u - now) as i128),
                None => (r matches Err(CoreError::ProtocolViolation(m)) && m@ == self.until@),
            }),
    {
        match parse_validity_time(self.until.as_str()) {
            Some(u) => Ok((u as i128) - (now as i128)),
            None => Err(CoreError::ProtocolViolation(self.until.clone())),
        }
    }

    /// Whether the certificate holding this window must be renewed at `now`:
    /// true exactly when three weeks or less remain.
    pub fn should_renew(&self, now: i64) -> (r: Result<bool, CoreError>)
        ensures
            (match utc_seconds_of(self.until@) {
                Some(u) => r == Ok::<bool, CoreError>(u - now <= RENEW_WINDOW_SECS),
                None => (r matches Err(CoreError::ProtocolViolation(m)) && m@ == self.until@),
            }),
    {
        match parse_validity_time(self.until.as_str()) {
            Some(u) => Ok(should_renew_at(u, now)),
            None => Err(CoreError::ProtocolViolation(self.until.clone())),
        }
    }
}

impl CertificateInfo {
    /// Whether this certificate must be renewed at `now`.
    pub fn should_renew(&self, now: i64) -> (r: Result<bool, CoreError>)
        ensures
            (match utc_seconds_of(self.validity.until@) {
                Some(u) => r == Ok::<bool, CoreError>(u - now <= RENEW_WINDOW_SECS),
                None => (r matches Err(CoreError::ProtocolViolation(m)) && m@
                    == self.validity.until@),
            }),
    {
        self.validity.should_renew(now)
    }
}

/// Whether a host needs a certificate issued at `now`: it has none on file,
/// or the one on file is due for renewal. A certificate whose validity
/// cannot be read is reported as an error for that host alone.
pub fn needs_issuance(cert: Option<&CertificateInfo>, now: i64) -> (r: Result<bool, CoreError>)
    ensures
        (match cert {
            None => r == Ok::<bool, CoreError>(true),
            Some(c) => (match utc_seconds_of(c.validity.until@) {
                Some(u) => r == Ok::<bool, CoreError>(u - now <= RENEW_WINDOW_SECS),
                None => (r matches Err(CoreError::ProtocolViolation(m)) && m@
                    == c.validity.until@),
            }),
        }),
{
    match cert {
        None => Ok(true),
        Some(c) => c.should_renew(now),
    }
}

/// One entry of the certificate store listing: a host and what the store
/// holds for it.
#[derive(Debug, Clone, PartialEq, Eq)]
pub struct StoredCert {
    pub dns: String,
    pub info: CertificateInfo,
}

/// The hosts of the listing whose certificate is readable and not due for
/// renewal at `now`, in listing order: the hosts a listener may offer TLS
/// for.
pub open spec fn valid_hosts_spec(s: Seq<StoredCert>, now: i64) -> Seq<Seq<char>>
    decreases s.len(),
{
    if s.len() == 0 {
        Seq::empty()
    } else {
        let rest = valid_hosts_spec(s.drop_last(), now);
        match utc_seconds_of(s.last().info.validity.until@) {
            Some(u) => if u - now > RENEW_WINDOW_SECS {
                rest.push(s.last().dns@)
            } else {
                rest
            },
            None => rest,
        }
    }
}

/// The hosts holding a usable, non-expiring-soon certificate, in listing
/// order. A certificate that is due, or whose validity cannot be read, does
/// not make its host eligible for TLS.
pub fn valid_hosts(certs: &Vec<StoredCert>, now: i64) -> (r: Vec<String>)
    ensures
        strs_view(r@) == valid_hosts_spec(certs@, now),
{
    let mut out: Vec<String> = Vec::new();
    proof {
        assert(certs@.take(0) =~= Seq::<StoredCert>::empty());
        assert(strs_view(out@) =~= valid_hosts_spec(certs@.take(0), now));
    }
    let mut i: usize = 0;
    while i < certs.len()
        invariant
            i <= certs@.len(),
            strs_view(out@) == valid_hosts_spec(certs@.take(i as int), now),
        decreases certs@.len() - i,
    {
        let ghost before = strs_view(out@);
        proof {
            assert(certs@.take(i + 1).drop_last() =~= certs@.take(i as int));
            assert(certs@.take(i + 1).last() == certs@[i as int]);
        }
        match certs[i].info.should_renew(now) {
            Ok(due) => {
                if !due {
                    out.push(certs[i].dns.clone());
                    proof {
                        assert(strs_view(out@) =~= before.push(certs@[i as int].dns@));
                    }
                }
            },
            Err(_) => {},
        }
        i = i + 1;
    }
    proof {
        assert(certs@.take(certs@.len() as int) =~= certs@);
    }
    out
}

} // verus!
