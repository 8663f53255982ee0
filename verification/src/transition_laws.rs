//! What it takes to change a cluster: which promises and reports count, what
//! certifies a floor, a seal, a terminal state and a successor, what activates a
//! feature, and where an interrupted transition is taken up.

use vstd::prelude::*;

use crate::feature::{Feature, SupportError, SupportLedgerView, SupportView};
use crate::floor::{
    ActivatedView, FloorCandidate, FloorConflict, FloorInstall, FloorLedgerView, Readiness,
    ReadinessView, activation, first_offer_defect, highest_position, readiness_voters, subjects_at,
};
use crate::handoff::{
    EvidenceView, HandoffError, InstallRecord, Stage, Stance, StanceRecord, StanceView,
    TerminalReport, TerminalView, Transition, certification, fence_elsewhere, handoff_activation,
    held_stances, install_defect, installers_of, report_defect, resumption, same_root,
    stance_defect, stances_about, takers, terminal_selection, terminal_voters,
};
use crate::ids::{Digest32, ReplicaId};
use crate::ordered::{in_order, lemma_in_order};
use crate::quorum::{EpochVotersView, majority_of};

verus! {

// Floors.

/// A voter promises a floor exactly where it votes in the candidate's epoch and
/// promised nothing else there or above.
pub proof fn lemma_which_floors_are_promised(
    row: ReadinessView,
    voters: EpochVotersView,
    candidate: FloorCandidate,
)
    ensures
        row.refusal(voters, candidate) is None <==> {
            &&& candidate.epoch == row.epoch && voters.epoch == row.epoch
            &&& voters.voters.contains(row.voter)
            &&& row.held matches Some(held) ==> held == candidate || held.position.0
                < candidate.position.0
        },
        row.refusal(voters, candidate) is None ==> row.offered(voters, candidate).held == Some(
            candidate,
        ),
        row.refusal(voters, candidate) is Some ==> row.offered(voters, candidate) == row,
{
}

/// A floor is activated exactly by promises of one candidate of the epoch from a
/// majority of its voters, and is that candidate with those voters behind it.
pub proof fn lemma_what_activates_a_floor(
    voters: EpochVotersView,
    ready: Seq<Readiness>,
    v: ReplicaId,
)
    ensures
        activation(voters, ready) is Ok <==> ready.len() > 0 && (forall|i: int|
            0 <= i < ready.len() ==> {
                let r = #[trigger] ready[i];
                r.candidate == ready[0].candidate && r.candidate.epoch == voters.epoch
                    && voters.voters.contains(r.voter)
            }) && readiness_voters(ready).len() >= majority_of(voters.voters.len()),
        activation(voters, ready) matches Ok(floor) ==> floor.candidate == ready[0].candidate && (
        floor.signers.contains(v) <==> exists|i: int|
            0 <= i < ready.len() && (#[trigger] ready[i]).voter == v),
{
    if ready.len() > 0 {
        lemma_offers_fit(voters, ready[0].candidate, ready);
    }
    lemma_readiness_voters(ready, v);
}

proof fn lemma_offers_fit(
    voters: EpochVotersView,
    candidate: FloorCandidate,
    ready: Seq<Readiness>,
)
    ensures
        first_offer_defect(voters, candidate, ready) is None <==> forall|i: int|
            0 <= i < ready.len() ==> {
                let r = #[trigger] ready[i];
                r.candidate == candidate && r.candidate.epoch == voters.epoch
                    && voters.voters.contains(r.voter)
            },
    decreases ready.len(),
{
    if ready.len() > 0 {
        let rest = ready.drop_last();
        lemma_offers_fit(voters, candidate, rest);
        assert(ready[ready.len() - 1] == ready.last());
        if first_offer_defect(voters, candidate, ready) is None {
            assert forall|i: int| 0 <= i < ready.len() implies {
                let r = #[trigger] ready[i];
                r.candidate == candidate && r.candidate.epoch == voters.epoch
                    && voters.voters.contains(r.voter)
            } by {
                if i < rest.len() {
                    assert(rest[i] == ready[i]);
                }
            }
        } else if forall|i: int|
            0 <= i < ready.len() ==> {
                let r = #[trigger] ready[i];
                r.candidate == candidate && r.candidate.epoch == voters.epoch
                    && voters.voters.contains(r.voter)
            } {
            assert forall|i: int| 0 <= i < rest.len() implies {
                let r = #[trigger] rest[i];
                r.candidate == candidate && r.candidate.epoch == voters.epoch
                    && voters.voters.contains(r.voter)
            } by {
                assert(rest[i] == ready[i]);
            }
        }
    }
}

proof fn lemma_readiness_voters(ready: Seq<Readiness>, v: ReplicaId)
    ensures
        readiness_voters(ready).contains(v) <==> exists|i: int|
            0 <= i < ready.len() && (#[trigger] ready[i]).voter == v,
    decreases ready.len(),
{
    if ready.len() > 0 {
        let rest = ready.drop_last();
        lemma_readiness_voters(rest, v);
        assert(ready[ready.len() - 1] == ready.last());
        if exists|i: int| 0 <= i < rest.len() && (#[trigger] rest[i]).voter == v {
            let i = choose|i: int| 0 <= i < rest.len() && (#[trigger] rest[i]).voter == v;
            assert(ready[i] == rest[i]);
        }
        if exists|i: int| 0 <= i < ready.len() && (#[trigger] ready[i]).voter == v {
            let i = choose|i: int| 0 <= i < ready.len() && (#[trigger] ready[i]).voter == v;
            if i < rest.len() {
                assert(rest[i] == ready[i]);
            }
        }
    }
}

/// What is discovered is the highest position reported and exactly the subjects
/// reported there.
pub proof fn lemma_what_is_discovered(reports: Seq<Readiness>, i: int, s: Digest32, at: u64)
    requires
        0 <= i < reports.len(),
    ensures
        reports[i].candidate.position.0 <= highest_position(reports),
        exists|k: int|
            0 <= k < reports.len() && (#[trigger] reports[k]).candidate.position.0
                == highest_position(reports),
        subjects_at(reports, at).contains(s) <==> exists|k: int|
            0 <= k < reports.len() && (#[trigger] reports[k]).candidate.position.0 == at
                && reports[k].candidate.subject == s,
    decreases reports.len(),
{
    lemma_highest(reports);
    lemma_subjects(reports, s, at);
}

proof fn lemma_highest(reports: Seq<Readiness>)
    ensures
        forall|k: int|
            0 <= k < reports.len() ==> (#[trigger] reports[k]).candidate.position.0
                <= highest_position(reports),
        reports.len() > 0 ==> exists|k: int|
            0 <= k < reports.len() && (#[trigger] reports[k]).candidate.position.0
                == highest_position(reports),
    decreases reports.len(),
{
    if reports.len() > 0 {
        let rest = reports.drop_last();
        lemma_highest(rest);
        assert(reports[reports.len() - 1] == reports.last());
        assert forall|k: int| 0 <= k < reports.len() implies (
        #[trigger] reports[k]).candidate.position.0 <= highest_position(reports) by {
            if k < rest.len() {
                assert(rest[k] == reports[k]);
            }
        }
        if highest_position(reports) != reports.last().candidate.position.0 {
            let k = choose|k: int|
                0 <= k < rest.len() && (#[trigger] rest[k]).candidate.position.0
                    == highest_position(rest);
            assert(reports[k] == rest[k]);
        }
    }
}

proof fn lemma_subjects(reports: Seq<Readiness>, s: Digest32, at: u64)
    ensures
        subjects_at(reports, at).contains(s) <==> exists|k: int|
            0 <= k < reports.len() && (#[trigger] reports[k]).candidate.position.0 == at
                && reports[k].candidate.subject == s,
    decreases reports.len(),
{
    if reports.len() > 0 {
        let rest = reports.drop_last();
        lemma_subjects(rest, s, at);
        assert(reports[reports.len() - 1] == reports.last());
        if exists|k: int|
            0 <= k < rest.len() && (#[trigger] rest[k]).candidate.position.0 == at
                && rest[k].candidate.subject == s {
            let k = choose|k: int|
                0 <= k < rest.len() && (#[trigger] rest[k]).candidate.position.0 == at
                    && rest[k].candidate.subject == s;
            assert(reports[k] == rest[k]);
        }
        if exists|k: int|
            0 <= k < reports.len() && (#[trigger] reports[k]).candidate.position.0 == at
                && reports[k].candidate.subject == s {
            let k = choose|k: int|
                0 <= k < reports.len() && (#[trigger] reports[k]).candidate.position.0 == at
                    && reports[k].candidate.subject == s;
            if k < rest.len() {
                assert(rest[k] == reports[k]);
            }
        }
    }
}

/// An activated floor is held exactly where it is of the epoch and above the one
/// held; two subjects at one position are a conflict, and anything else is
/// covered already.
pub proof fn lemma_which_floors_are_held(ledger: FloorLedgerView, floor: ActivatedView)
    ensures
        ({
            let own = floor.candidate.epoch == ledger.epoch;
            let at = floor.candidate.position.0;
            let r = ledger.installing(floor);
            &&& r == Ok::<FloorInstall, FloorConflict>(FloorInstall::Advanced) <==> own && (
            ledger.held matches Some(h) ==> h.candidate.position.0 < at)
            &&& r is Err <==> own && (ledger.held matches Some(h) && h.candidate.position.0 == at
                && h.candidate.subject != floor.candidate.subject)
            &&& r == Ok::<FloorInstall, FloorConflict>(FloorInstall::Advanced) ==> ledger.offered(
                floor,
            ).held == Some(floor)
            &&& r != Ok::<FloorInstall, FloorConflict>(FloorInstall::Advanced) ==> ledger.offered(
                floor,
            ) == ledger
        }),
{
}

// Features.

/// A report of support counts exactly from a voter of the epoch that withdraws
/// nothing it reported; it is then what that voter supports, and no other
/// voter's changes. What is named as withdrawn was reported and is missing.
pub proof fn lemma_which_support_counts(
    ledger: SupportLedgerView,
    report: SupportView,
    other: ReplicaId,
)
    requires
        ledger.reported.contains_key(report.voter) ==> ledger.reported[report.voter].finite(),
    ensures
        ledger.refusal(report) is None <==> {
            &&& report.epoch == ledger.voters.epoch
            &&& ledger.voters.voters.contains(report.voter)
            &&& ledger.reported.contains_key(report.voter) ==> forall|f: Feature| #[trigger]
                ledger.reported[report.voter].contains(f) ==> report.features.contains(f)
        },
        ledger.refusal(report) is None ==> ledger.presented(report).reported[report.voter]
            == report.features && ledger.presented(report).reported.contains_key(report.voter),
        ledger.refusal(report) is Some ==> ledger.presented(report) == ledger,
        other != report.voter ==> ledger.presented(report).reported.contains_key(other)
            == ledger.reported.contains_key(other) && ledger.presented(report).reported[other]
            == ledger.reported[other],
        ledger.refusal(report) matches Some(SupportError::Withdrawn { feature }) ==> ledger.supports(
            report.voter,
            feature,
        ) && !report.features.contains(feature),
{
    if ledger.reported.contains_key(report.voter) {
        let gone = ledger.reported[report.voter].difference(report.features);
        lemma_in_order::<Feature>(gone);
        let order = in_order::<Feature>(gone);
        if !ledger.reported[report.voter].subset_of(report.features) {
            let f = choose|f: Feature|
                ledger.reported[report.voter].contains(f) && !report.features.contains(f);
            assert(gone.contains(f));
            assert(order.contains(f));
            assert(order.contains(order[0]));
        }
    }
}

/// A feature may be activated exactly where it is known and every voter reported
/// it, and the voters named as missing are exactly those that did not.
pub proof fn lemma_features_need_every_voter(
    ledger: SupportLedgerView,
    feature: Feature,
    v: ReplicaId,
)
    ensures
        ledger.unanimous().contains(feature) <==> ledger.known.contains(feature) && forall|
            x: ReplicaId,
        | #[trigger]
            ledger.voters.voters.contains(x) ==> ledger.reported.contains_key(x)
                && ledger.reported[x].contains(feature),
        ledger.missing(feature).contains(v) <==> ledger.voters.voters.contains(v) && !(
        ledger.reported.contains_key(v) && ledger.reported[v].contains(feature)),
{
    if forall|x: ReplicaId| #[trigger]
        ledger.voters.voters.contains(x) ==> ledger.reported.contains_key(x)
            && ledger.reported[x].contains(feature) {
        assert(forall|x: ReplicaId| #[trigger]
            ledger.voters.voters.contains(x) ==> ledger.supports(x, feature));
    }
    if forall|x: ReplicaId| #[trigger]
        ledger.voters.voters.contains(x) ==> ledger.supports(x, feature) {
        assert(forall|x: ReplicaId| #[trigger]
            ledger.voters.voters.contains(x) ==> ledger.reported.contains_key(x)
                && ledger.reported[x].contains(feature));
    }
}

// Transitions.

/// A voter takes a stance exactly where it votes in the configuration left and
/// holds no other stance on the transition and no seal of another; it then holds
/// that stance under its own name.
pub proof fn lemma_which_stances_are_taken(
    row: StanceView,
    voters: EpochVotersView,
    transition: Transition,
    stance: Stance,
)
    requires
        row.held matches Some(h) ==> h.voter == row.voter,
    ensures
        row.refusal(voters, transition, stance) is None <==> {
            &&& voters.voters.contains(row.voter)
            &&& transition.from == row.epoch && voters.epoch == row.epoch
            &&& row.held matches Some(h) ==> if h.transition == transition {
                h.stance == stance
            } else {
                h.stance != Stance::Sealed
            }
        },
        row.refusal(voters, transition, stance) is None ==> ({
            let held = row.offered(voters, transition, stance).held;
            held is Some && held->0.voter == row.voter && held->0.transition == transition
                && held->0.stance == stance
        }),
        row.refusal(voters, transition, stance) is Some ==> row.offered(voters, transition, stance)
            == row,
{
}

/// A transition is certified exactly by stances of voters on that transition, a
/// majority of whom took the wanted one; those are its signers.
pub proof fn lemma_what_certifies_a_stance(
    voters: EpochVotersView,
    transition: Transition,
    stances: Seq<StanceRecord>,
    wanted: Stance,
    v: ReplicaId,
)
    ensures
        certification(voters, transition, stances, wanted) is Ok <==> (forall|i: int|
            0 <= i < stances.len() ==> voters.voters.contains((#[trigger] stances[i]).voter)
                && stances[i].transition == transition) && takers(stances, wanted).len()
            >= majority_of(voters.voters.len()),
        certification(voters, transition, stances, wanted) matches Ok(signers) ==> (
        signers.contains(v) <==> exists|i: int|
            0 <= i < stances.len() && (#[trigger] stances[i]).voter == v && stances[i].stance
                == wanted),
{
    lemma_stances_fit(voters, transition, stances);
    lemma_takers(stances, wanted, v);
}

proof fn lemma_stances_fit(
    voters: EpochVotersView,
    transition: Transition,
    stances: Seq<StanceRecord>,
)
    ensures
        stance_defect(voters, transition, stances) is None <==> forall|i: int|
            0 <= i < stances.len() ==> voters.voters.contains((#[trigger] stances[i]).voter)
                && stances[i].transition == transition,
    decreases stances.len(),
{
    if stances.len() > 0 {
        let rest = stances.drop_last();
        lemma_stances_fit(voters, transition, rest);
        assert(stances[stances.len() - 1] == stances.last());
        if stance_defect(voters, transition, stances) is None {
            assert forall|i: int| 0 <= i < stances.len() implies voters.voters.contains(
                (#[trigger] stances[i]).voter,
            ) && stances[i].transition == transition by {
                if i < rest.len() {
                    assert(rest[i] == stances[i]);
                }
            }
        } else if forall|i: int|
            0 <= i < stances.len() ==> voters.voters.contains((#[trigger] stances[i]).voter)
                && stances[i].transition == transition {
            assert forall|i: int| 0 <= i < rest.len() implies voters.voters.contains(
                (#[trigger] rest[i]).voter,
            ) && rest[i].transition == transition by {
                assert(rest[i] == stances[i]);
            }
        }
    }
}

proof fn lemma_takers(stances: Seq<StanceRecord>, wanted: Stance, v: ReplicaId)
    ensures
        takers(stances, wanted).contains(v) <==> exists|i: int|
            0 <= i < stances.len() && (#[trigger] stances[i]).voter == v && stances[i].stance
                == wanted,
    decreases stances.len(),
{
    if stances.len() > 0 {
        let rest = stances.drop_last();
        lemma_takers(rest, wanted, v);
        assert(stances[stances.len() - 1] == stances.last());
        if exists|i: int|
            0 <= i < rest.len() && (#[trigger] rest[i]).voter == v && rest[i].stance == wanted {
            let i = choose|i: int|
                0 <= i < rest.len() && (#[trigger] rest[i]).voter == v && rest[i].stance == wanted;
            assert(stances[i] == rest[i]);
        }
        if exists|i: int|
            0 <= i < stances.len() && (#[trigger] stances[i]).voter == v && stances[i].stance
                == wanted {
            let i = choose|i: int|
                0 <= i < stances.len() && (#[trigger] stances[i]).voter == v && stances[i].stance
                    == wanted;
            if i < rest.len() {
                assert(rest[i] == stances[i]);
            }
        }
    }
}

/// A terminal state is certified exactly by reports of voters on the transition
/// that all name one root, from a majority; the certificate names that root, the
/// successor it is for and those voters.
pub proof fn lemma_what_certifies_a_terminal_state(
    voters: EpochVotersView,
    transition: Transition,
    successor: Set<ReplicaId>,
    reports: Seq<TerminalReport>,
    v: ReplicaId,
)
    ensures
        terminal_selection(voters, transition, successor, reports) is Ok <==> reports.len() > 0 && (
        forall|i: int|
            0 <= i < reports.len() ==> voters.voters.contains((#[trigger] reports[i]).voter)
                && reports[i].transition == transition && reports[i].terminal_root
                == reports[0].terminal_root) && terminal_voters(reports).len() >= majority_of(
            voters.voters.len(),
        ),
        terminal_selection(voters, transition, successor, reports) matches Ok(t) ==> t.transition
            == transition && t.successor == successor && t.terminal_root
            == reports[0].terminal_root && (t.signers.contains(v) <==> exists|i: int|
            0 <= i < reports.len() && (#[trigger] reports[i]).voter == v),
{
    lemma_reports_fit(voters, transition, reports);
    lemma_terminal_voters(reports, v);
    if report_defect(voters, transition, reports) is None && same_root(reports) {
        assert forall|i: int| 0 <= i < reports.len() implies voters.voters.contains(
            (#[trigger] reports[i]).voter,
        ) && reports[i].transition == transition && reports[i].terminal_root
            == reports[0].terminal_root by {}
    }
}

proof fn lemma_reports_fit(
    voters: EpochVotersView,
    transition: Transition,
    reports: Seq<TerminalReport>,
)
    ensures
        report_defect(voters, transition, reports) is None <==> forall|i: int|
            0 <= i < reports.len() ==> voters.voters.contains((#[trigger] reports[i]).voter)
                && reports[i].transition == transition,
    decreases reports.len(),
{
    if reports.len() > 0 {
        let rest = reports.drop_last();
        lemma_reports_fit(voters, transition, rest);
        assert(reports[reports.len() - 1] == reports.last());
        if report_defect(voters, transition, reports) is None {
            assert forall|i: int| 0 <= i < reports.len() implies voters.voters.contains(
                (#[trigger] reports[i]).voter,
            ) && reports[i].transition == transition by {
                if i < rest.len() {
                    assert(rest[i] == reports[i]);
                }
            }
        } else if forall|i: int|
            0 <= i < reports.len() ==> voters.voters.contains((#[trigger] reports[i]).voter)
                && reports[i].transition == transition {
            assert forall|i: int| 0 <= i < rest.len() implies voters.voters.contains(
                (#[trigger] rest[i]).voter,
            ) && rest[i].transition == transition by {
                assert(rest[i] == reports[i]);
            }
        }
    }
}

proof fn lemma_terminal_voters(reports: Seq<TerminalReport>, v: ReplicaId)
    ensures
        terminal_voters(reports).contains(v) <==> exists|i: int|
            0 <= i < reports.len() && (#[trigger] reports[i]).voter == v,
    decreases reports.len(),
{
    if reports.len() > 0 {
        let rest = reports.drop_last();
        lemma_terminal_voters(rest, v);
        assert(reports[reports.len() - 1] == reports.last());
        if exists|i: int| 0 <= i < rest.len() && (#[trigger] rest[i]).voter == v {
            let i = choose|i: int| 0 <= i < rest.len() && (#[trigger] rest[i]).voter == v;
            assert(reports[i] == rest[i]);
        }
        if exists|i: int| 0 <= i < reports.len() && (#[trigger] reports[i]).voter == v {
            let i = choose|i: int| 0 <= i < reports.len() && (#[trigger] reports[i]).voter == v;
            if i < rest.len() {
                assert(rest[i] == reports[i]);
            }
        }
    }
}

/// A successor is activated exactly by installs of its voters of the certified
/// root on the certified transition, from a majority of them.
pub proof fn lemma_what_activates_a_successor(
    successor: EpochVotersView,
    certificate: TerminalView,
    installs: Seq<InstallRecord>,
    v: ReplicaId,
)
    ensures
        handoff_activation(successor, certificate, installs) is Ok <==> (forall|i: int|
            0 <= i < installs.len() ==> successor.voters.contains((#[trigger] installs[i]).replica)
                && installs[i].transition == certificate.transition && installs[i].terminal_root
                == certificate.terminal_root) && installers_of(installs).len() >= majority_of(
            successor.voters.len(),
        ),
        handoff_activation(successor, certificate, installs) matches Ok(a) ==> a.transition
            == certificate.transition && a.terminal_root == certificate.terminal_root && (
        a.installers.contains(v) <==> exists|i: int|
            0 <= i < installs.len() && (#[trigger] installs[i]).replica == v),
{
    lemma_installs_fit(successor, certificate, installs);
    lemma_installers(installs, v);
}

proof fn lemma_installs_fit(
    successor: EpochVotersView,
    certificate: TerminalView,
    installs: Seq<InstallRecord>,
)
    ensures
        install_defect(successor, certificate, installs) is None <==> forall|i: int|
            0 <= i < installs.len() ==> successor.voters.contains((#[trigger] installs[i]).replica)
                && installs[i].transition == certificate.transition && installs[i].terminal_root
                == certificate.terminal_root,
    decreases installs.len(),
{
    if installs.len() > 0 {
        let rest = installs.drop_last();
        lemma_installs_fit(successor, certificate, rest);
        assert(installs[installs.len() - 1] == installs.last());
        if install_defect(successor, certificate, installs) is None {
            assert forall|i: int| 0 <= i < installs.len() implies successor.voters.contains(
                (#[trigger] installs[i]).replica,
            ) && installs[i].transition == certificate.transition && installs[i].terminal_root
                == certificate.terminal_root by {
                if i < rest.len() {
                    assert(rest[i] == installs[i]);
                }
            }
        } else if forall|i: int|
            0 <= i < installs.len() ==> successor.voters.contains((#[trigger] installs[i]).replica)
                && installs[i].transition == certificate.transition && installs[i].terminal_root
                == certificate.terminal_root {
            assert forall|i: int| 0 <= i < rest.len() implies successor.voters.contains(
                (#[trigger] rest[i]).replica,
            ) && rest[i].transition == certificate.transition && rest[i].terminal_root
                == certificate.terminal_root by {
                assert(rest[i] == installs[i]);
            }
        }
    }
}

proof fn lemma_installers(installs: Seq<InstallRecord>, v: ReplicaId)
    ensures
        installers_of(installs).contains(v) <==> exists|i: int|
            0 <= i < installs.len() && (#[trigger] installs[i]).replica == v,
    decreases installs.len(),
{
    if installs.len() > 0 {
        let rest = installs.drop_last();
        lemma_installers(rest, v);
        assert(installs[installs.len() - 1] == installs.last());
        if exists|i: int| 0 <= i < rest.len() && (#[trigger] rest[i]).replica == v {
            let i = choose|i: int| 0 <= i < rest.len() && (#[trigger] rest[i]).replica == v;
            assert(installs[i] == rest[i]);
        }
        if exists|i: int| 0 <= i < installs.len() && (#[trigger] installs[i]).replica == v {
            let i = choose|i: int| 0 <= i < installs.len() && (#[trigger] installs[i]).replica == v;
            if i < rest.len() {
                assert(rest[i] == installs[i]);
            }
        }
    }
}

/// The stances about a transition are those records, in order; a fence elsewhere
/// is a seal of another transition.
pub proof fn lemma_stances_of_a_transition(stances: Seq<StanceRecord>, transition: Transition)
    ensures
        stances_about(stances, transition) == stances.filter(
            |s: StanceRecord| s.transition == transition,
        ),
        fence_elsewhere(stances, transition) is Some <==> exists|i: int|
            0 <= i < stances.len() && (#[trigger] stances[i]).transition != transition
                && stances[i].stance == Stance::Sealed,
        fence_elsewhere(stances, transition) matches Some(t) ==> exists|i: int|
            0 <= i < stances.len() && (#[trigger] stances[i]).transition == t && t != transition
                && stances[i].stance == Stance::Sealed,
    decreases stances.len(),
{
    reveal(Seq::filter);
    if stances.len() > 0 {
        let rest = stances.drop_last();
        lemma_stances_of_a_transition(rest, transition);
        assert(stances[stances.len() - 1] == stances.last());
        assert(forall|i: int| 0 <= i < rest.len() ==> #[trigger] rest[i] == stances[i]);
        if fence_elsewhere(rest, transition) is Some {
            let t = fence_elsewhere(rest, transition)->0;
            let i = choose|i: int|
                0 <= i < rest.len() && (#[trigger] rest[i]).transition == t && t != transition
                    && rest[i].stance == Stance::Sealed;
            assert(stances[i] == rest[i]);
        } else if exists|i: int|
            0 <= i < stances.len() && (#[trigger] stances[i]).transition != transition
                && stances[i].stance == Stance::Sealed {
            let i = choose|i: int|
                0 <= i < stances.len() && (#[trigger] stances[i]).transition != transition
                    && stances[i].stance == Stance::Sealed;
            if i < rest.len() {
                assert(rest[i].transition != transition);
            }
        }
    }
}

/// Where an interrupted transition is taken up: an activation of it is served; a
/// seal of another transition refuses it; a terminal certificate of it is
/// installed until a majority of the successor has it and activated from there;
/// a certified seal is recovered, a single one completed; and without a seal it
/// is prepared where it is authorized and not cancelled.
pub proof fn lemma_where_transitions_resume(
    old_voters: EpochVotersView,
    successor: EpochVotersView,
    transition: Transition,
    e: EvidenceView,
)
    ensures
        ({
            let stage = resumption(old_voters, successor, transition, e);
            let mine = stances_about(e.stances, transition);
            let sealed = certification(old_voters, transition, mine, Stance::Sealed) is Ok;
            let cancelled = certification(old_voters, transition, mine, Stance::Cancelled) is Ok;
            let elsewhere = exists|i: int|
                0 <= i < e.stances.len() && (#[trigger] e.stances[i]).transition != transition
                    && e.stances[i].stance == Stance::Sealed;
            let one = exists|i: int|
                0 <= i < e.stances.len() && (#[trigger] e.stances[i]).transition == transition
                    && e.stances[i].stance == Stance::Sealed;
            let free = e.activation is None && !elsewhere;
            &&& (e.activation matches Some(a) && a.transition == transition) ==> stage == Ok::<
                Stage,
                HandoffError,
            >(Stage::Served)
            &&& (e.activation matches Some(a) && a.transition != transition) ==> stage is Err
            &&& e.activation is None && elsewhere ==> stage is Err
            &&& free && sealed && cancelled ==> stage is Err
            &&& free && !(sealed && cancelled) && (e.terminal matches Some(t) && t.transition
                == transition && handoff_activation(successor, t, e.installs) is Ok) ==> stage
                == Ok::<Stage, HandoffError>(Stage::Activating)
            &&& free && !(sealed && cancelled) && (e.terminal matches Some(t) && t.transition
                == transition && install_defect(successor, t, e.installs) is None
                && handoff_activation(successor, t, e.installs) is Err) ==> stage == Ok::<
                Stage,
                HandoffError,
            >(Stage::Installing)
            &&& free && !cancelled && sealed && e.terminal is None ==> stage == Ok::<
                Stage,
                HandoffError,
            >(Stage::TerminalRecovery)
            &&& free && !sealed && one && e.terminal is None ==> stage == Ok::<
                Stage,
                HandoffError,
            >(Stage::Sealing)
            &&& free && !sealed && !one && e.terminal is None && !cancelled && e.authorized
                ==> stage == Ok::<Stage, HandoffError>(Stage::Preparing)
            &&& free && !sealed && !one && e.terminal is None && (cancelled || !e.authorized)
                ==> stage == Ok::<Stage, HandoffError>(Stage::Stable)
        }),
{
    lemma_stances_of_a_transition(e.stances, transition);
    let mine = stances_about(e.stances, transition);
    lemma_sealed_among(e.stances, transition);
}

proof fn lemma_sealed_among(stances: Seq<StanceRecord>, transition: Transition)
    ensures
        (exists|i: int|
            0 <= i < stances_about(stances, transition).len() && (#[trigger] stances_about(
                stances,
                transition,
            )[i]).stance == Stance::Sealed) <==> (exists|i: int|
            0 <= i < stances.len() && (#[trigger] stances[i]).transition == transition
                && stances[i].stance == Stance::Sealed),
    decreases stances.len(),
{
    if stances.len() > 0 {
        let rest = stances.drop_last();
        lemma_sealed_among(rest, transition);
        let before = stances_about(rest, transition);
        let mine = stances_about(stances, transition);
        assert(stances[stances.len() - 1] == stances.last());
        if exists|i: int| 0 <= i < mine.len() && (#[trigger] mine[i]).stance == Stance::Sealed {
            let i = choose|i: int|
                0 <= i < mine.len() && (#[trigger] mine[i]).stance == Stance::Sealed;
            if i < before.len() {
                assert(before[i] == mine[i]);
                let k = choose|k: int|
                    0 <= k < rest.len() && (#[trigger] rest[k]).transition == transition
                        && rest[k].stance == Stance::Sealed;
                assert(stances[k] == rest[k]);
            }
        }
        if exists|i: int|
            0 <= i < stances.len() && (#[trigger] stances[i]).transition == transition
                && stances[i].stance == Stance::Sealed {
            let i = choose|i: int|
                0 <= i < stances.len() && (#[trigger] stances[i]).transition == transition
                    && stances[i].stance == Stance::Sealed;
            if i < rest.len() {
                assert(rest[i] == stances[i]);
                let k = choose|k: int|
                    0 <= k < before.len() && (#[trigger] before[k]).stance == Stance::Sealed;
                assert(mine[k] == before[k]);
            } else {
                assert(mine[mine.len() - 1].stance == Stance::Sealed);
            }
        }
    }
}

/// The stances held are those of the rows that hold one, in order.
pub proof fn lemma_held_stances(ledgers: Seq<StanceView>)
    ensures
        ({
            let rows = ledgers.filter(|l: StanceView| l.held is Some);
            let held = held_stances(ledgers);
            &&& held.len() == rows.len()
            &&& forall|i: int| 0 <= i < held.len() ==> Some(#[trigger] held[i]) == rows[i].held
        }),
    decreases ledgers.len(),
{
    reveal(Seq::filter);
    if ledgers.len() > 0 {
        lemma_held_stances(ledgers.drop_last());
    }
}

/// Two floors at one position over different subjects are a conflict, told as
/// the one held and the one offered.
pub proof fn lemma_floor_conflicts_say_both(
    installed: FloorLedgerView,
    held: ActivatedView,
    offered: ActivatedView,
)
    requires
        installed.held == Some(held),
        offered.candidate.epoch == installed.epoch,
        held.candidate.position == offered.candidate.position,
        held.candidate.subject != offered.candidate.subject,
    ensures
        installed.installing(offered) matches Err(e) && e.position == held.candidate.position
            && e.left == held.candidate.subject && e.right == offered.candidate.subject,
{
}

} // verus!
