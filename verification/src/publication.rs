//! Durable publication obligations.

use vstd::prelude::*;

verus! {

/// Something a replica publishes.
#[derive(Clone, Copy, Debug, PartialEq, Eq, Hash, Structural)]
pub enum Publication {
    /// A new promise or a recovery response.
    PromiseOrRecoveryResponse,
    /// A fast acknowledgement.
    FastAck,
    /// A leader reply used for learning.
    LeaderReply,
    /// A slow (adoption) acknowledgement.
    SlowAck,
    /// A finalized application result.
    FinalizedResult,
    /// Checkpoint readiness.
    CheckpointReady,
}

/// A durable record a publication depends on.
#[derive(Clone, Copy, Debug, PartialEq, Eq, Hash, Structural)]
pub enum DurableRecord {
    /// The promised ballot.
    PromisedBallot,
    /// Complete source-required recovery state at the cut.
    RecoveryStateAtCut,
    /// The command payload.
    Payload,
    /// The vote itself.
    Vote,
    /// Dependency path/order evidence.
    PathEvidence,
    /// Stable prerequisite dependencies.
    PrerequisiteDependencies,
    /// Recoverable proposal/payload state.
    ProposalState,
    /// The adopted leader order.
    AdoptedLeaderOrder,
    /// Prerequisite acceptance state.
    PrerequisiteAcceptance,
    /// The recoverable established command.
    EstablishedCommand,
    /// The atomic application/deduplication outcome.
    ApplicationOutcome,
    /// A complete validated checkpoint.
    Checkpoint,
    /// Checkpoint identity.
    CheckpointIdentity,
    /// Recovery-floor metadata.
    RecoveryFloor,
}

/// The records a publication rests on.
pub open spec fn obligations(publication: Publication) -> Seq<DurableRecord> {
    match publication {
        Publication::PromiseOrRecoveryResponse => seq![
            DurableRecord::PromisedBallot,
            DurableRecord::RecoveryStateAtCut,
        ],
        Publication::FastAck => seq![
            DurableRecord::Payload,
            DurableRecord::Vote,
            DurableRecord::PathEvidence,
            DurableRecord::PrerequisiteDependencies,
        ],
        Publication::LeaderReply => seq![DurableRecord::ProposalState],
        Publication::SlowAck => seq![
            DurableRecord::AdoptedLeaderOrder,
            DurableRecord::PrerequisiteAcceptance,
        ],
        Publication::FinalizedResult => seq![
            DurableRecord::EstablishedCommand,
            DurableRecord::ApplicationOutcome,
        ],
        Publication::CheckpointReady => seq![
            DurableRecord::Checkpoint,
            DurableRecord::CheckpointIdentity,
            DurableRecord::RecoveryFloor,
        ],
    }
}

impl Publication {
    /// The records that must be durable before this is published. Issuing
    /// a write or producing a message establishes nothing; completion does.
    pub fn prerequisites(self) -> (r: Vec<DurableRecord>)
        ensures
            r@ == obligations(self),
    {
        let mut r: Vec<DurableRecord> = Vec::new();
        match self {
            Publication::PromiseOrRecoveryResponse => {
                r.push(DurableRecord::PromisedBallot);
                r.push(DurableRecord::RecoveryStateAtCut);
            },
            Publication::FastAck => {
                r.push(DurableRecord::Payload);
                r.push(DurableRecord::Vote);
                r.push(DurableRecord::PathEvidence);
                r.push(DurableRecord::PrerequisiteDependencies);
            },
            Publication::LeaderReply => {
                r.push(DurableRecord::ProposalState);
            },
            Publication::SlowAck => {
                r.push(DurableRecord::AdoptedLeaderOrder);
                r.push(DurableRecord::PrerequisiteAcceptance);
            },
            Publication::FinalizedResult => {
                r.push(DurableRecord::EstablishedCommand);
                r.push(DurableRecord::ApplicationOutcome);
            },
            Publication::CheckpointReady => {
                r.push(DurableRecord::Checkpoint);
                r.push(DurableRecord::CheckpointIdentity);
                r.push(DurableRecord::RecoveryFloor);
            },
        }
        proof {
            assert(r@ =~= obligations(self));
        }
        r
    }
}

} // verus!
