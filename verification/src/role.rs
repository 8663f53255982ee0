//! State carried across a role change: everything durable or learned
//! survives; ballot-scoped votes do not.

use vstd::prelude::*;

use crate::ballot::{BallotState, BallotView, ConfigurationIdentity, IdentityView};
use crate::commands::{CommandTable, TableView};
use crate::effects::{BarrierAllocator, SettledView, Settlements, copy_barriers};
use crate::ids::{Ballot, BarrierId, BootId, CommandId, PeerId, RetryKey};
use crate::learner::{Learner, LearnerView};
use crate::ordered::{Dup, OrdMap, OrdSet};
use crate::rows::{PayloadRecordV1, PayloadView};
use crate::summary::{DurableLedger, LedgerView};

verus! {

/// A recovery report owed to a candidate; the replica's state independent of
/// its role carries it across a role change.
#[derive(Debug)]
pub struct PendingReport {
    /// Ballot the report is for.
    pub ballot: Ballot,
    /// Candidate to send it to, at its authenticated incarnation.
    pub to: PeerId,
    /// Barriers the report's pages wait for.
    pub requires_durable: Vec<BarrierId>,
}

/// What a pending report says.
#[verifier::ext_equal]
pub struct PendingView {
    /// Ballot the report is for.
    pub ballot: Ballot,
    /// Candidate to send it to.
    pub to: PeerId,
    /// Barriers the report's pages wait for.
    pub requires_durable: Seq<BarrierId>,
}

impl View for PendingReport {
    type V = PendingView;

    open spec fn view(&self) -> PendingView {
        PendingView {
            ballot: self.ballot,
            to: self.to,
            requires_durable: self.requires_durable@,
        }
    }
}

impl Dup for PendingReport {
    fn dup(&self) -> (r: Self) {
        PendingReport {
            ballot: self.ballot,
            to: self.to,
            requires_durable: copy_barriers(&self.requires_durable),
        }
    }
}

/// What an optional pending report says.
pub open spec fn pending_view(p: Option<PendingReport>) -> Option<PendingView> {
    match p {
        Some(p) => Some(p@),
        None => None,
    }
}

/// What belongs to one boot: the barriers it gives out and what became of
/// its batches.
#[derive(Debug)]
pub struct Boot {
    /// The boot.
    pub id: BootId,
    /// Its barriers.
    pub alloc: BarrierAllocator,
    /// What became of its batches.
    pub settled: Settlements,
}

/// What a boot holds.
#[verifier::ext_equal]
pub struct BootView {
    /// The boot.
    pub id: BootId,
    /// The next barrier.
    pub next: u64,
    /// What became of its batches.
    pub settled: SettledView,
}

impl View for Boot {
    type V = BootView;

    open spec fn view(&self) -> BootView {
        BootView { id: self.id, next: self.alloc@, settled: self.settled@ }
    }
}

/// What an optional boot holds.
pub open spec fn boot_view(b: Option<Boot>) -> Option<BootView> {
    match b {
        Some(b) => Some(b@),
        None => None,
    }
}

/// State carried across a role change.
#[derive(Debug)]
pub struct RecoveredState {
    /// Configuration identity.
    pub identity: ConfigurationIdentity,
    /// Promise state.
    pub ballots: BallotState,
    /// Command table (phases, dependencies, paths).
    pub table: CommandTable,
    /// Durable ledger.
    pub ledger: DurableLedger,
    /// Durable payloads by command.
    pub payloads: OrdMap<CommandId, PayloadRecordV1>,
    /// Retry-key bindings.
    pub bindings: OrdMap<RetryKey, CommandId>,
    /// Payloads whose batches are durable (servable).
    pub served_payloads: OrdSet<CommandId>,
    /// Execution frontier.
    pub learner: Learner,
    /// Boot, if booted.
    pub boot: Option<Boot>,
    /// A recovery report this replica owes a candidate, if any: the
    /// obligation survives a role change, since the candidate may need this
    /// replica for its majority.
    pub report_due: Option<PendingReport>,
    /// Frontend.
    pub frontend: PeerId,
    /// Command table capacity.
    pub capacity: usize,
}

/// What is carried across a role change.
#[verifier::ext_equal]
pub struct RecoveredView {
    /// Configuration identity.
    pub identity: IdentityView,
    /// Promise state.
    pub ballots: BallotView,
    /// Command table.
    pub table: TableView,
    /// Durable ledger.
    pub ledger: LedgerView,
    /// Durable payloads by command.
    pub payloads: Map<CommandId, PayloadView>,
    /// Retry-key bindings.
    pub bindings: Map<RetryKey, CommandId>,
    /// Servable payloads.
    pub served_payloads: Set<CommandId>,
    /// Execution frontier.
    pub learner: LearnerView,
    /// Boot.
    pub boot: Option<BootView>,
    /// A recovery report owed.
    pub report_due: Option<PendingView>,
    /// Frontend.
    pub frontend: PeerId,
    /// Command table capacity.
    pub capacity: usize,
}

impl View for RecoveredState {
    type V = RecoveredView;

    open spec fn view(&self) -> RecoveredView {
        RecoveredView {
            identity: self.identity@,
            ballots: self.ballots@,
            table: self.table@,
            ledger: self.ledger@,
            payloads: self.payloads@,
            bindings: self.bindings@,
            served_payloads: self.served_payloads@,
            learner: self.learner@,
            boot: boot_view(self.boot),
            report_due: pending_view(self.report_due),
            frontend: self.frontend,
            capacity: self.capacity,
        }
    }
}

} // verus!
