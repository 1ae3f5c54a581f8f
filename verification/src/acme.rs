use vstd::prelude::*;

use crate::error::CoreError;
use crate::facts::strs_view;
use crate::route::{Action, Match, Route};

verus! {

/// Seconds between two polls of a pending challenge or order.
pub const POLL_INTERVAL_SECS: u64 = 5;

/// How many times a pending challenge or order is polled before the cycle
/// is given up as invalid.
pub const MAX_POLL_ATTEMPTS: u32 = 10;

/// Where one host's certificate issuance stands. One machine is run to
/// completion per issuance request; `Invalid` and `BundleUploaded` are the
/// only terminal states.
#[derive(Debug, Clone, Copy, PartialEq, Eq, Structural)]
pub enum AcmeState {
    NoOrder,
    OrderCreated,
    AuthorizationsPending,
    ChallengeServing,
    ChallengeValidating { attempts: u32 },
    ChallengeValid,
    OrderFinalizing { attempts: u32 },
    OrderValid,
    BundleUploaded,
    Invalid,
}

/// What the ACME server reported for a polled challenge or order.
#[derive(Debug, Clone, Copy, PartialEq, Eq, Structural)]
pub enum PollStatus {
    Valid,
    Invalid,
    Pending,
}

/// What the driver observed: the outcome of the action it last performed.
#[derive(Debug, Clone, Copy, PartialEq, Eq, Structural)]
pub enum AcmeEvent {
    OrderOpened,
    AuthorizationsListed,
    ChallengeFound,
    NoHttpChallenge,
    ChallengeServed,
    ChallengePolled { status: PollStatus },
    ChallengeRetracted,
    AuthorizationConfirmed,
    AuthorizationRejected,
    OrderPolled { status: PollStatus },
    BundlePublished,
}

/// What the driver must do next. All I/O stays with the driver: it performs
/// the action against the ACME server, the runtime and the store, and hands
/// the outcome back as the next event.
#[derive(Debug, Clone, Copy, PartialEq, Eq, Structural)]
pub enum AcmeAction {
    /// Open an order for the host's DNS identifier.
    OpenOrder,
    /// List the order's authorizations.
    ListAuthorizations,
    /// Select the HTTP-01 challenge of the authorization.
    SelectHttpChallenge,
    /// Write the key authorization where the runtime serves it and place the
    /// priority challenge route, then push the configuration.
    ServeChallenge,
    /// Ask the server to validate the challenge.
    ValidateChallenge,
    /// Wait the poll interval and poll the challenge again.
    PollChallenge,
    /// Withdraw the priority challenge route and delete the served content.
    /// Emitted on success and on failure alike: cleanup is unconditional.
    RetractChallenge,
    /// Confirm the authorization reached its valid state.
    ConfirmAuthorization,
    /// Finalize the order with a fresh private key and CSR.
    FinalizeOrder,
    /// Wait the poll interval and poll the order again.
    PollOrder,
    /// Download the chain, assemble the bundle and upload it to the store,
    /// replacing any prior entry by remove-then-add.
    PublishBundle,
    /// Nothing further: the cycle is over.
    Stop,
}

/// The transition table of the issuance machine: from a state and the event
/// the driver reports, the next state and the next action. An event that
/// does not belong to the state leaves the state alone and asks for nothing.
pub open spec fn step_spec(s: AcmeState, e: AcmeEvent) -> (AcmeState, AcmeAction) {
    match (s, e) {
        (AcmeState::NoOrder, AcmeEvent::OrderOpened) => (
            AcmeState::OrderCreated,
            AcmeAction::ListAuthorizations,
        ),
        (AcmeState::OrderCreated, AcmeEvent::AuthorizationsListed) => (
            AcmeState::AuthorizationsPending,
            AcmeAction::SelectHttpChallenge,
        ),
        (AcmeState::AuthorizationsPending, AcmeEvent::ChallengeFound) => (
            AcmeState::ChallengeServing,
            AcmeAction::ServeChallenge,
        ),
        (AcmeState::AuthorizationsPending, AcmeEvent::NoHttpChallenge) => (
            AcmeState::Invalid,
            AcmeAction::Stop,
        ),
        (AcmeState::ChallengeServing, AcmeEvent::ChallengeServed) => (
            AcmeState::ChallengeValidating { attempts: 0 },
            AcmeAction::ValidateChallenge,
        ),
        (AcmeState::ChallengeValidating { attempts }, AcmeEvent::ChallengePolled { status }) => (
            match status {
                PollStatus::Valid => (AcmeState::ChallengeValid, AcmeAction::RetractChallenge),
                PollStatus::Invalid => (AcmeState::Invalid, AcmeAction::RetractChallenge),
                PollStatus::Pending => if attempts + 1 < MAX_POLL_ATTEMPTS {
                    (
                        AcmeState::ChallengeValidating { attempts: (attempts + 1) as u32 },
                        AcmeAction::PollChallenge,
                    )
                } else {
                    (AcmeState::Invalid, AcmeAction::RetractChallenge)
                },
            }
        ),
        (AcmeState::ChallengeValid, AcmeEvent::ChallengeRetracted) => (
            AcmeState::ChallengeValid,
            AcmeAction::ConfirmAuthorization,
        ),
        (AcmeState::ChallengeValid, AcmeEvent::AuthorizationConfirmed) => (
            AcmeState::OrderFinalizing { attempts: 0 },
            AcmeAction::FinalizeOrder,
        ),
        (AcmeState::ChallengeValid, AcmeEvent::AuthorizationRejected) => (
            AcmeState::Invalid,
            AcmeAction::Stop,
        ),
        (AcmeState::OrderFinalizing { attempts }, AcmeEvent::OrderPolled { status }) => (
            match status {
                PollStatus::Valid => (AcmeState::OrderValid, AcmeAction::PublishBundle),
                PollStatus::Invalid => (AcmeState::Invalid, AcmeAction::Stop),
                PollStatus::Pending => if attempts + 1 < MAX_POLL_ATTEMPTS {
                    (
                        AcmeState::OrderFinalizing { attempts: (attempts + 1) as u32 },
                        AcmeAction::PollOrder,
                    )
                } else {
                    (AcmeState::Invalid, AcmeAction::Stop)
                },
            }
        ),
        (AcmeState::OrderValid, AcmeEvent::BundlePublished) => (
            AcmeState::BundleUploaded,
            AcmeAction::Stop,
        ),
        _ => (s, AcmeAction::Stop),
    }
}

/// The ACME issuance workflow for one host, as a pure state machine. The
/// driver performs each returned action against the directory, the runtime
/// and the certificate store, and reports what happened; every decision is
/// taken here.
#[derive(Debug, Clone, Copy, Default)]
pub struct Letsencrypt;

impl Letsencrypt {
    /// Where every issuance starts: no order yet, and an order to open.
    pub fn start() -> (r: (AcmeState, AcmeAction))
        ensures
            r == (AcmeState::NoOrder, AcmeAction::OpenOrder),
    {
        (AcmeState::NoOrder, AcmeAction::OpenOrder)
    }

    /// One transition of the issuance machine.
    pub fn step(s: AcmeState, e: AcmeEvent) -> (r: (AcmeState, AcmeAction))
        ensures
            r == step_spec(s, e),
    {
        match (s, e) {
            (AcmeState::NoOrder, AcmeEvent::OrderOpened) => (
                AcmeState::OrderCreated,
                AcmeAction::ListAuthorizations,
            ),
            (AcmeState::OrderCreated, AcmeEvent::AuthorizationsListed) => (
                AcmeState::AuthorizationsPending,
                AcmeAction::SelectHttpChallenge,
            ),
            (AcmeState::AuthorizationsPending, AcmeEvent::ChallengeFound) => (
                AcmeState::ChallengeServing,
                AcmeAction::ServeChallenge,
            ),
            (AcmeState::AuthorizationsPending, AcmeEvent::NoHttpChallenge) => (
                AcmeState::Invalid,
                AcmeAction::Stop,
            ),
            (AcmeState::ChallengeServing, AcmeEvent::ChallengeServed) => (
                AcmeState::ChallengeValidating { attempts: 0 },
                AcmeAction::ValidateChallenge,
            ),
            (
                AcmeState::ChallengeValidating { attempts },
                AcmeEvent::ChallengePolled { status },
            ) => match status {
                PollStatus::Valid => (AcmeState::ChallengeValid, AcmeAction::RetractChallenge),
                PollStatus::Invalid => (AcmeState::Invalid, AcmeAction::RetractChallenge),
                PollStatus::Pending => {
                    if attempts < MAX_POLL_ATTEMPTS - 1 {
                        (
                            AcmeState::ChallengeValidating { attempts: attempts + 1 },
                            AcmeAction::PollChallenge,
                        )
                    } else {
                        (AcmeState::Invalid, AcmeAction::RetractChallenge)
                    }
                },
            },
            (AcmeState::ChallengeValid, AcmeEvent::ChallengeRetracted) => (
                AcmeState::ChallengeValid,
                AcmeAction::ConfirmAuthorization,
            ),
            (AcmeState::ChallengeValid, AcmeEvent::AuthorizationConfirmed) => (
                AcmeState::OrderFinalizing { attempts: 0 },
                AcmeAction::FinalizeOrder,
            ),
            (AcmeState::ChallengeValid, AcmeEvent::AuthorizationRejected) => (
                AcmeState::Invalid,
                AcmeAction::Stop,
            ),
            (AcmeState::OrderFinalizing { attempts }, AcmeEvent::OrderPolled { status }) => match
            status {
                PollStatus::Valid => (AcmeState::OrderValid, AcmeAction::PublishBundle),
                PollStatus::Invalid => (AcmeState::Invalid, AcmeAction::Stop),
                PollStatus::Pending => {
                    if attempts < MAX_POLL_ATTEMPTS - 1 {
                        (
                            AcmeState::OrderFinalizing { attempts: attempts + 1 },
                            AcmeAction::PollOrder,
                        )
                    } else {
                        (AcmeState::Invalid, AcmeAction::Stop)
                    }
                },
            },
            (AcmeState::OrderValid, AcmeEvent::BundlePublished) => (
                AcmeState::BundleUploaded,
                AcmeAction::Stop,
            ),
            _ => (s, AcmeAction::Stop),
        }
    }
}

/// Whatever the challenge validation ends in, the route is withdrawn: every
/// transition that leaves `ChallengeValidating` for good, toward success or
/// failure, emits `RetractChallenge`. Retraction happens after validation
/// completes and before anything else: cleanup is unconditional.
pub proof fn lemma_challenge_cleanup_unconditional(n: u32, e: AcmeEvent)
    ensures
        !(step_spec(AcmeState::ChallengeValidating { attempts: n }, e).0 matches
        AcmeState::ChallengeValidating { attempts: _ }) ==> step_spec(
            AcmeState::ChallengeValidating { attempts: n },
            e,
        ).1 == AcmeAction::RetractChallenge,
{
}

/// The two terminal states absorb every event and ask for nothing more.
pub proof fn lemma_terminal_states(s: AcmeState, e: AcmeEvent)
    requires
        s == AcmeState::Invalid || s == AcmeState::BundleUploaded,
    ensures
        step_spec(s, e).0 == s,
        step_spec(s, e).1 == AcmeAction::Stop,
{
}

/// The polling counters never pass the attempt bound.
pub proof fn lemma_poll_bounded(s: AcmeState, e: AcmeEvent)
    requires
        (match s {
            AcmeState::ChallengeValidating { attempts } => attempts < MAX_POLL_ATTEMPTS,
            AcmeState::OrderFinalizing { attempts } => attempts < MAX_POLL_ATTEMPTS,
            _ => true,
        }),
    ensures
        (match step_spec(s, e).0 {
            AcmeState::ChallengeValidating { attempts } => attempts < MAX_POLL_ATTEMPTS,
            AcmeState::OrderFinalizing { attempts } => attempts < MAX_POLL_ATTEMPTS,
            _ => true,
        }),
{
}

// ---------------------------------------------------------------------------
// Challenge routes and certificate bundles.
// ---------------------------------------------------------------------------

/// The well-known path prefix at which an HTTP-01 challenge answer is served.
pub fn challenge_uri(token: &String) -> (r: String)
    ensures
        r@ == "/.well-known/acme-challenge/"@ + token@,
{
    String::from_str("/.well-known/acme-challenge/").concat(token.as_str())
}

/// The transient route that serves one host's challenge answer: it matches
/// the host and the token's well-known path, applies the given effect (the
/// static share of the answer file) and nothing else.
pub fn challenge_route(host: &String, token: &String, action: Option<Action>) -> (r: Route)
    ensures
        r@.match_.host == Some(host@),
        r@.match_.uri == Some("/.well-known/acme-challenge/"@ + token@),
        r@.match_.source is None,
        r@.match_.params == Seq::<char>::empty(),
        r@.action == (match action {
            Some(a) => Some(a@),
            None => None::<crate::route::ActionV>,
        }),
{
    let ghost av = match action {
        Some(ref a) => Some(a@),
        None => None::<crate::route::ActionV>,
    };
    Route {
        action,
        match_: Match {
            host: Some(host.clone()),
            uri: Some(challenge_uri(token)),
            source: None,
            params: String::new(),
        },
    }
}

/// The concatenation of a list of strings, in order.
pub open spec fn concat_strs(s: Seq<Seq<char>>) -> Seq<char>
    decreases s.len(),
{
    if s.len() == 0 {
        Seq::empty()
    } else {
        concat_strs(s.drop_last()) + s.last()
    }
}

impl crate::certificate::Certificate {
    /// The bundle as one PEM text: its entries concatenated in order.
    pub fn to_pem(&self) -> (r: String)
        ensures
            r@ == concat_strs(strs_view(self.bundle@)),
    {
        let ghost bv = strs_view(self.bundle@);
        let mut out = String::new();
        proof {
            assert(bv.take(0) =~= Seq::<Seq<char>>::empty());
            assert(out@ =~= concat_strs(bv.take(0)));
        }
        let mut i: usize = 0;
        while i < self.bundle.len()
            invariant
                i <= self.bundle@.len(),
                bv == strs_view(self.bundle@),
                out@ == concat_strs(bv.take(i as int)),
            decreases self.bundle@.len() - i,
        {
            proof {
                assert(bv.take(i + 1).drop_last() =~= bv.take(i as int));
                assert(bv.take(i + 1).last() == bv[i as int]);
            }
            out.append(self.bundle[i].as_str());
            i = i + 1;
        }
        proof {
            assert(bv.take(self.bundle@.len() as int) =~= bv);
        }
        out
    }
}

/// One bundle from an issued chain and its private key: the PEM chain
/// entries concatenated in order, the key last. A chain without at least an
/// end-entity and one issuer certificate is refused: the server returned no
/// usable chain.
pub fn bundle_from_chain(chain: &Vec<String>, key: &String) -> (r: Result<String, CoreError>)
    ensures
        chain@.len() > 1 ==> (r matches Ok(b) && b@ == concat_strs(strs_view(chain@)) + key@),
        chain@.len() <= 1 ==> (r matches Err(CoreError::MissingResource(m)) && m@
            == "no certificate returned"@),
{
    if chain.len() <= 1 {
        return Err(CoreError::MissingResource(String::from_str("no certificate returned")));
    }
    let ghost cv = strs_view(chain@);
    let mut bundle = String::new();
    proof {
        assert(cv.take(0) =~= Seq::<Seq<char>>::empty());
        assert(bundle@ =~= concat_strs(cv.take(0)));
    }
    let mut i: usize = 0;
    while i < chain.len()
        invariant
            i <= chain@.len(),
            cv == strs_view(chain@),
            bundle@ == concat_strs(cv.take(i as int)),
        decreases chain@.len() - i,
    {
        proof {
            assert(cv.take(i + 1).drop_last() =~= cv.take(i as int));
            assert(cv.take(i + 1).last() == cv[i as int]);
        }
        bundle.append(chain[i].as_str());
        i = i + 1;
    }
    proof {
        assert(cv.take(chain@.len() as int) =~= cv);
    }
    bundle.append(key.as_str());
    Ok(bundle)
}

} // verus!
