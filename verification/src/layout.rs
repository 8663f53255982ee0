//! The byte layouts of identities, ballots and recovery reports.

use vstd::prelude::*;

use crate::codec::{List, Opt, Wire};
use crate::ids::{Ballot, CommandId, ConfigurationEpoch, Digest32, ReplicaId};
use crate::lists::{copy_list, lemma_id_views};
use crate::ordered::{Dup, OrdMap, OrdSet, dup_all};
use crate::phase::Phase;
use crate::quorum::{BallotConfiguration, ConfigView, FastQuorumClass};
use crate::recovery::{ReportEntry, ReportEntryView, SyncDecision, SyncEntry, SyncEntryView, SyncView};
use crate::summary::{PageView, ReportPage};
use crate::vote::{FastAck, FastAckView, SlowAck};

verus! {

impl Wire for ConfigurationEpoch {
    open spec fn fits(v: ConfigurationEpoch) -> bool {
        true
    }

    open spec fn wire(v: ConfigurationEpoch) -> Seq<u8> {
        u64::wire(v.0)
    }

    open spec fn parse(s: Seq<u8>) -> Option<(ConfigurationEpoch, int)> {
        match u64::parse(s) {
            Some((v, n)) => Some((ConfigurationEpoch(v), n)),
            None => None,
        }
    }

    proof fn round_trip(v: ConfigurationEpoch, rest: Seq<u8>) {
        u64::round_trip(v.0, rest);
    }

    proof fn within(s: Seq<u8>) {
        u64::within(s);
    }

    fn put(&self, out: &mut Vec<u8>) {
        self.0.put(out);
    }

    fn take(bytes: &Vec<u8>, at: usize) -> (r: Option<(Self, usize)>) {
        match u64::take(bytes, at) {
            Some((v, next)) => Some((ConfigurationEpoch(v), next)),
            None => None,
        }
    }
}

/// Field by field, the layout of a ballot.
pub type BallotLayout = (ConfigurationEpoch, (u64, ReplicaId));

impl Wire for Ballot {
    open spec fn fits(v: Ballot) -> bool {
        BallotLayout::fits((v.epoch, (v.number, v.leader)))
    }

    open spec fn wire(v: Ballot) -> Seq<u8> {
        BallotLayout::wire((v.epoch, (v.number, v.leader)))
    }

    open spec fn parse(s: Seq<u8>) -> Option<(Ballot, int)> {
        match BallotLayout::parse(s) {
            Some(((epoch, (number, leader)), n)) => Some((Ballot { epoch, number, leader }, n)),
            None => None,
        }
    }

    proof fn round_trip(v: Ballot, rest: Seq<u8>) {
        BallotLayout::round_trip((v.epoch, (v.number, v.leader)), rest);
    }

    proof fn within(s: Seq<u8>) {
        BallotLayout::within(s);
    }

    fn put(&self, out: &mut Vec<u8>) {
        let fields: BallotLayout = (self.epoch, (self.number, self.leader));
        fields.put(out);
    }

    fn take(bytes: &Vec<u8>, at: usize) -> (r: Option<(Self, usize)>) {
        match BallotLayout::take(bytes, at) {
            Some(((epoch, (number, leader)), next)) => {
                let r = Ballot { epoch, number, leader };
                Some((r, next))
            },
            None => None,
        }
    }
}

/// The number a phase travels as.
pub open spec fn phase_number(v: Phase) -> u32 {
    match v {
        Phase::Start => 0,
        Phase::PreAccept => 1,
        Phase::Accept => 2,
        Phase::Commit => 3,
        Phase::Executed => 4,
    }
}

/// The phase that a number stands for.
pub open spec fn phase_of(n: u32) -> Option<Phase> {
    match n {
        0 => Some(Phase::Start),
        1 => Some(Phase::PreAccept),
        2 => Some(Phase::Accept),
        3 => Some(Phase::Commit),
        4 => Some(Phase::Executed),
        _ => None,
    }
}

impl Wire for Phase {
    open spec fn fits(v: Phase) -> bool {
        true
    }

    open spec fn wire(v: Phase) -> Seq<u8> {
        u32::wire(phase_number(v))
    }

    open spec fn parse(s: Seq<u8>) -> Option<(Phase, int)> {
        match u32::parse(s) {
            Some((n, used)) => match phase_of(n) {
                Some(v) => Some((v, used)),
                None => None,
            },
            None => None,
        }
    }

    proof fn round_trip(v: Phase, rest: Seq<u8>) {
        u32::round_trip(phase_number(v), rest);
    }

    proof fn within(s: Seq<u8>) {
        u32::within(s);
    }

    fn put(&self, out: &mut Vec<u8>) {
        let n: u32 = match self {
            Phase::Start => 0,
            Phase::PreAccept => 1,
            Phase::Accept => 2,
            Phase::Commit => 3,
            Phase::Executed => 4,
        };
        n.put(out);
    }

    fn take(bytes: &Vec<u8>, at: usize) -> (r: Option<(Self, usize)>) {
        match u32::take(bytes, at) {
            Some((n, next)) => {
                let v = match n {
                    0 => Phase::Start,
                    1 => Phase::PreAccept,
                    2 => Phase::Accept,
                    3 => Phase::Commit,
                    4 => Phase::Executed,
                    _ => {
                        return None;
                    },
                };
                Some((v, next))
            },
            None => None,
        }
    }
}

/// Field by field, the layout of a report's entry.
pub type ReportEntryLayout = (CommandId, (Phase, (List<CommandId>, (Digest32, (List<(Vec<u8>, Digest32)>, (u64, (List<Vec<u8>>, bool)))))));

impl Wire for ReportEntry {
    open spec fn fits(v: ReportEntryView) -> bool {
        ReportEntryLayout::fits((v.command, (v.phase, (v.deps, (v.path, (v.paths, (v.seqnum, (v.keys, v.payload_present))))))))
    }

    open spec fn wire(v: ReportEntryView) -> Seq<u8> {
        ReportEntryLayout::wire((v.command, (v.phase, (v.deps, (v.path, (v.paths, (v.seqnum, (v.keys, v.payload_present))))))))
    }

    open spec fn parse(s: Seq<u8>) -> Option<(ReportEntryView, int)> {
        match ReportEntryLayout::parse(s) {
            Some(((command, (phase, (deps, (path, (paths, (seqnum, (keys, payload_present))))))), n)) => Some((ReportEntryView { command, phase, deps, path, paths, seqnum, keys, payload_present }, n)),
            None => None,
        }
    }

    proof fn round_trip(v: ReportEntryView, rest: Seq<u8>) {
        ReportEntryLayout::round_trip((v.command, (v.phase, (v.deps, (v.path, (v.paths, (v.seqnum, (v.keys, v.payload_present))))))), rest);
    }

    proof fn within(s: Seq<u8>) {
        ReportEntryLayout::within(s);
    }

    fn put(&self, out: &mut Vec<u8>) {
        let fields: ReportEntryLayout = (self.command, (self.phase, (List(copy_list(&self.deps)), (self.path, (List(dup_all(&self.paths)), (self.seqnum, (List(dup_all(&self.keys)), self.payload_present)))))));
        proof {
            lemma_id_views(self.deps@);
        }
        fields.put(out);
    }

    fn take(bytes: &Vec<u8>, at: usize) -> (r: Option<(Self, usize)>) {
        match ReportEntryLayout::take(bytes, at) {
            Some(((command, (phase, (deps, (path, (paths, (seqnum, (keys, payload_present))))))), next)) => {
                let r = ReportEntry { command, phase, deps: deps.0, path, paths: paths.0, seqnum, keys: keys.0, payload_present };
                proof {
                lemma_id_views(r.deps@);
                }
                Some((r, next))
            },
            None => None,
        }
    }
}

/// Field by field, the layout of a Sync entry.
pub type SyncEntryLayout = (CommandId, (Phase, (List<CommandId>, (Digest32, (List<(Vec<u8>, Digest32)>, u64)))));

impl Wire for SyncEntry {
    open spec fn fits(v: SyncEntryView) -> bool {
        SyncEntryLayout::fits((v.command, (v.phase, (v.deps, (v.path, (v.paths, v.seqnum))))))
    }

    open spec fn wire(v: SyncEntryView) -> Seq<u8> {
        SyncEntryLayout::wire((v.command, (v.phase, (v.deps, (v.path, (v.paths, v.seqnum))))))
    }

    open spec fn parse(s: Seq<u8>) -> Option<(SyncEntryView, int)> {
        match SyncEntryLayout::parse(s) {
            Some(((command, (phase, (deps, (path, (paths, seqnum))))), n)) => Some((SyncEntryView { command, phase, deps, path, paths, seqnum }, n)),
            None => None,
        }
    }

    proof fn round_trip(v: SyncEntryView, rest: Seq<u8>) {
        SyncEntryLayout::round_trip((v.command, (v.phase, (v.deps, (v.path, (v.paths, v.seqnum))))), rest);
    }

    proof fn within(s: Seq<u8>) {
        SyncEntryLayout::within(s);
    }

    fn put(&self, out: &mut Vec<u8>) {
        let fields: SyncEntryLayout = (self.command, (self.phase, (List(copy_list(&self.deps)), (self.path, (List(dup_all(&self.paths)), self.seqnum)))));
        proof {
            lemma_id_views(self.deps@);
        }
        fields.put(out);
    }

    fn take(bytes: &Vec<u8>, at: usize) -> (r: Option<(Self, usize)>) {
        match SyncEntryLayout::take(bytes, at) {
            Some(((command, (phase, (deps, (path, (paths, seqnum))))), next)) => {
                let r = SyncEntry { command, phase, deps: deps.0, path, paths: paths.0, seqnum };
                proof {
                lemma_id_views(r.deps@);
                }
                Some((r, next))
            },
            None => None,
        }
    }
}

/// Field by field, the layout of a Sync decision.
pub type SyncDecisionLayout = (Ballot, (Ballot, (OrdMap<CommandId, SyncEntry>, OrdSet<CommandId>)));

impl Wire for SyncDecision {
    open spec fn fits(v: SyncView) -> bool {
        SyncDecisionLayout::fits((v.ballot, (v.source_ballot, (v.entries, v.reproposed))))
    }

    open spec fn wire(v: SyncView) -> Seq<u8> {
        SyncDecisionLayout::wire((v.ballot, (v.source_ballot, (v.entries, v.reproposed))))
    }

    open spec fn parse(s: Seq<u8>) -> Option<(SyncView, int)> {
        match SyncDecisionLayout::parse(s) {
            Some(((ballot, (source_ballot, (entries, reproposed))), n)) => Some((SyncView { ballot, source_ballot, entries, reproposed }, n)),
            None => None,
        }
    }

    proof fn round_trip(v: SyncView, rest: Seq<u8>) {
        SyncDecisionLayout::round_trip((v.ballot, (v.source_ballot, (v.entries, v.reproposed))), rest);
    }

    proof fn within(s: Seq<u8>) {
        SyncDecisionLayout::within(s);
    }

    fn put(&self, out: &mut Vec<u8>) {
        let fields: SyncDecisionLayout = (self.ballot, (self.source_ballot, (self.entries.dup(), self.reproposed.dup())));
        fields.put(out);
    }

    fn take(bytes: &Vec<u8>, at: usize) -> (r: Option<(Self, usize)>) {
        match SyncDecisionLayout::take(bytes, at) {
            Some(((ballot, (source_ballot, (entries, reproposed))), next)) => {
                let r = SyncDecision { ballot, source_ballot, entries, reproposed };
                Some((r, next))
            },
            None => None,
        }
    }
}

/// Field by field, the layout of a fast acknowledgement.
pub type FastAckLayout = (ReplicaId, (Ballot, (CommandId, (List<CommandId>, (List<(Vec<u8>, Digest32)>, (Digest32, (Digest32, Opt<u64>)))))));

impl Wire for FastAck {
    open spec fn fits(v: FastAckView) -> bool {
        FastAckLayout::fits((v.replica, (v.ballot, (v.command, (v.deps, (v.paths, (v.path, (v.admission, v.seqnum))))))))
    }

    open spec fn wire(v: FastAckView) -> Seq<u8> {
        FastAckLayout::wire((v.replica, (v.ballot, (v.command, (v.deps, (v.paths, (v.path, (v.admission, v.seqnum))))))))
    }

    open spec fn parse(s: Seq<u8>) -> Option<(FastAckView, int)> {
        match FastAckLayout::parse(s) {
            Some(((replica, (ballot, (command, (deps, (paths, (path, (admission, seqnum))))))), n)) => Some((FastAckView { replica, ballot, command, deps, paths, path, admission, seqnum }, n)),
            None => None,
        }
    }

    proof fn round_trip(v: FastAckView, rest: Seq<u8>) {
        FastAckLayout::round_trip((v.replica, (v.ballot, (v.command, (v.deps, (v.paths, (v.path, (v.admission, v.seqnum))))))), rest);
    }

    proof fn within(s: Seq<u8>) {
        FastAckLayout::within(s);
    }

    fn put(&self, out: &mut Vec<u8>) {
        let fields: FastAckLayout = (self.replica, (self.ballot, (self.command, (List(copy_list(&self.deps)), (List(dup_all(&self.paths)), (self.path, (self.admission, Opt(self.seqnum))))))));
        proof {
            lemma_id_views(self.deps@);
        }
        fields.put(out);
    }

    fn take(bytes: &Vec<u8>, at: usize) -> (r: Option<(Self, usize)>) {
        match FastAckLayout::take(bytes, at) {
            Some(((replica, (ballot, (command, (deps, (paths, (path, (admission, seqnum))))))), next)) => {
                let r = FastAck { replica, ballot, command, deps: deps.0, paths: paths.0, path, admission, seqnum: seqnum.0 };
                proof {
                lemma_id_views(r.deps@);
                }
                Some((r, next))
            },
            None => None,
        }
    }
}

/// Field by field, the layout of an adoption acknowledgement.
pub type SlowAckLayout = (ReplicaId, (Ballot, (CommandId, Digest32)));

impl Wire for SlowAck {
    open spec fn fits(v: SlowAck) -> bool {
        SlowAckLayout::fits((v.replica, (v.ballot, (v.command, v.admission))))
    }

    open spec fn wire(v: SlowAck) -> Seq<u8> {
        SlowAckLayout::wire((v.replica, (v.ballot, (v.command, v.admission))))
    }

    open spec fn parse(s: Seq<u8>) -> Option<(SlowAck, int)> {
        match SlowAckLayout::parse(s) {
            Some(((replica, (ballot, (command, admission))), n)) => Some((SlowAck { replica, ballot, command, admission }, n)),
            None => None,
        }
    }

    proof fn round_trip(v: SlowAck, rest: Seq<u8>) {
        SlowAckLayout::round_trip((v.replica, (v.ballot, (v.command, v.admission))), rest);
    }

    proof fn within(s: Seq<u8>) {
        SlowAckLayout::within(s);
    }

    fn put(&self, out: &mut Vec<u8>) {
        let fields: SlowAckLayout = (self.replica, (self.ballot, (self.command, self.admission)));
        fields.put(out);
    }

    fn take(bytes: &Vec<u8>, at: usize) -> (r: Option<(Self, usize)>) {
        match SlowAckLayout::take(bytes, at) {
            Some(((replica, (ballot, (command, admission))), next)) => {
                let r = SlowAck { replica, ballot, command, admission };
                Some((r, next))
            },
            None => None,
        }
    }
}

/// Field by field, the layout of a report page.
pub type ReportPageLayout = (ReplicaId, (Ballot, (Ballot, (u32, (u32, (List<ReportEntry>, (Digest32, Digest32)))))));

impl Wire for ReportPage {
    open spec fn fits(v: PageView) -> bool {
        ReportPageLayout::fits((v.replica, (v.ballot, (v.committed_ballot, (v.page, (v.total, (v.entries, (v.snapshot, v.digest))))))))
    }

    open spec fn wire(v: PageView) -> Seq<u8> {
        ReportPageLayout::wire((v.replica, (v.ballot, (v.committed_ballot, (v.page, (v.total, (v.entries, (v.snapshot, v.digest))))))))
    }

    open spec fn parse(s: Seq<u8>) -> Option<(PageView, int)> {
        match ReportPageLayout::parse(s) {
            Some(((replica, (ballot, (committed_ballot, (page, (total, (entries, (snapshot, digest))))))), n)) => Some((PageView { replica, ballot, committed_ballot, page, total, entries, snapshot, digest }, n)),
            None => None,
        }
    }

    proof fn round_trip(v: PageView, rest: Seq<u8>) {
        ReportPageLayout::round_trip((v.replica, (v.ballot, (v.committed_ballot, (v.page, (v.total, (v.entries, (v.snapshot, v.digest))))))), rest);
    }

    proof fn within(s: Seq<u8>) {
        ReportPageLayout::within(s);
    }

    fn put(&self, out: &mut Vec<u8>) {
        let fields: ReportPageLayout = (self.replica, (self.ballot, (self.committed_ballot, (self.page, (self.total, (List(dup_all(&self.entries)), (self.snapshot, self.digest)))))));
        fields.put(out);
    }

    fn take(bytes: &Vec<u8>, at: usize) -> (r: Option<(Self, usize)>) {
        match ReportPageLayout::take(bytes, at) {
            Some(((replica, (ballot, (committed_ballot, (page, (total, (entries, (snapshot, digest))))))), next)) => {
                let r = ReportPage { replica, ballot, committed_ballot, page, total, entries: entries.0, snapshot, digest };
                Some((r, next))
            },
            None => None,
        }
    }
}

/// The number a fast-quorum class travels as.
pub open spec fn class_number(v: FastQuorumClass) -> u32 {
    match v {
        FastQuorumClass::C1 => 0,
        FastQuorumClass::C2 => 1,
    }
}

/// The fast-quorum class that a number stands for.
pub open spec fn class_of(n: u32) -> Option<FastQuorumClass> {
    match n {
        0 => Some(FastQuorumClass::C1),
        1 => Some(FastQuorumClass::C2),
        _ => None,
    }
}

impl Wire for FastQuorumClass {
    open spec fn fits(v: FastQuorumClass) -> bool {
        true
    }

    open spec fn wire(v: FastQuorumClass) -> Seq<u8> {
        u32::wire(class_number(v))
    }

    open spec fn parse(s: Seq<u8>) -> Option<(FastQuorumClass, int)> {
        match u32::parse(s) {
            Some((n, used)) => match class_of(n) {
                Some(v) => Some((v, used)),
                None => None,
            },
            None => None,
        }
    }

    proof fn round_trip(v: FastQuorumClass, rest: Seq<u8>) {
        u32::round_trip(class_number(v), rest);
    }

    proof fn within(s: Seq<u8>) {
        u32::within(s);
    }

    fn put(&self, out: &mut Vec<u8>) {
        let n: u32 = match self {
            FastQuorumClass::C1 => 0,
            FastQuorumClass::C2 => 1,
        };
        n.put(out);
    }

    fn take(bytes: &Vec<u8>, at: usize) -> (r: Option<(Self, usize)>) {
        match u32::take(bytes, at) {
            Some((n, next)) => {
                let v = match n {
                    0 => FastQuorumClass::C1,
                    1 => FastQuorumClass::C2,
                    _ => {
                        return None;
                    },
                };
                Some((v, next))
            },
            None => None,
        }
    }
}

/// Field by field, the layout of a ballot configuration.
pub type ConfigurationLayout = (
    ConfigurationEpoch,
    (Ballot, (OrdSet<ReplicaId>, (OrdSet<ReplicaId>, FastQuorumClass))),
);

/// A configuration is validated before it becomes one: bytes that spell one
/// that breaks a quorum rule spell none.
impl Wire for BallotConfiguration {
    open spec fn fits(v: ConfigView) -> bool {
        v.defect() is None && ConfigurationLayout::fits(
            (v.epoch, (v.ballot, (v.voters, (v.fast_set, v.class)))),
        )
    }

    open spec fn wire(v: ConfigView) -> Seq<u8> {
        ConfigurationLayout::wire((v.epoch, (v.ballot, (v.voters, (v.fast_set, v.class)))))
    }

    open spec fn parse(s: Seq<u8>) -> Option<(ConfigView, int)> {
        match ConfigurationLayout::parse(s) {
            Some(((epoch, (ballot, (voters, (fast_set, class)))), n)) => {
                let config = ConfigView { epoch, ballot, voters, fast_set, class };
                if config.defect() is None {
                    Some((config, n))
                } else {
                    None
                }
            },
            None => None,
        }
    }

    proof fn round_trip(v: ConfigView, rest: Seq<u8>) {
        ConfigurationLayout::round_trip(
            (v.epoch, (v.ballot, (v.voters, (v.fast_set, v.class)))),
            rest,
        );
    }

    proof fn within(s: Seq<u8>) {
        ConfigurationLayout::within(s);
    }

    fn put(&self, out: &mut Vec<u8>) {
        self.valid();
        let fields: ConfigurationLayout = (
            self.epoch(),
            (self.ballot(), (self.voters().dup(), (self.fast_set().dup(), self.class()))),
        );
        fields.put(out);
    }

    fn take(bytes: &Vec<u8>, at: usize) -> (r: Option<(Self, usize)>) {
        match ConfigurationLayout::take(bytes, at) {
            Some(((epoch, (ballot, (voters, (fast_set, class)))), next)) => {
                match BallotConfiguration::from_parts(epoch, ballot, voters, fast_set, class) {
                    Ok(config) => Some((config, next)),
                    Err(_) => None,
                }
            },
            None => None,
        }
    }
}

} // verus!
