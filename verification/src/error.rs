use vstd::prelude::*;

verus! {

/// What can go wrong in the control plane.
///
/// Network and store failures are transient and surfaced to the caller;
/// a runtime answer that is neither success nor a structured error is a
/// protocol violation; a challenge or authorization that ends in an invalid
/// state is fatal for that host's cycle only; a host with no certificate on
/// file is not an error at all but the normal trigger for first issuance,
/// so `MissingResource` appears only where a caller asked for something that
/// must exist. Merge ambiguity is never an error: it is resolved by the
/// deterministic old-wins rule of the reconciliation engine.
#[derive(Debug, Clone, PartialEq, Eq)]
pub enum CoreError {
    TransientRemote(String),
    ProtocolViolation(String),
    ChallengeFailure(String),
    AuthorizationFailure(String),
    MissingResource(String),
}

impl CoreError {
    /// The text carried by the error.
    pub fn message(&self) -> (r: &String)
        ensures
            (match self {
                CoreError::TransientRemote(m) => r@ == m@,
                CoreError::ProtocolViolation(m) => r@ == m@,
                CoreError::ChallengeFailure(m) => r@ == m@,
                CoreError::AuthorizationFailure(m) => r@ == m@,
                CoreError::MissingResource(m) => r@ == m@,
            }),
    {
        match self {
            CoreError::TransientRemote(m) => m,
            CoreError::ProtocolViolation(m) => m,
            CoreError::ChallengeFailure(m) => m,
            CoreError::AuthorizationFailure(m) => m,
            CoreError::MissingResource(m) => m,
        }
    }
}

} // verus!
