//! Quorums, votes, recovery, floors, handoffs and the durable rows on
//! concrete values.

use coord_consensus::ballot::{
    BallotState, ConfigurationIdentity, PromiseOutcome, PromiseRejection, ReplicaRole,
    SealRejection, SyncRejection,
};
use coord_consensus::bytes::{order_bytes, same_bytes};
use coord_consensus::codec::{from_wire, to_wire, DecodeError};
use coord_consensus::commands::{CommandTable, InitError, RetireError};
use coord_consensus::effects::{
    BarrierAllocator, EffectContext, Settlements, StorageError, StorageEvent,
};
use coord_consensus::feature::{
    ActivationError as FeatureError, ActiveFeatures, Feature, Support, SupportError, SupportLedger,
};
use coord_consensus::floor::{
    activate, discover, ActivationError, FenceVerdict, FloorCandidate, FloorInstall, FloorLedger,
    Readiness, ReadinessError, ReadinessLedger,
};
use coord_consensus::graph::{ClosureCursor, ClosureProgress};
use coord_consensus::handoff::{
    activate as activate_epoch, cancel, resume, seal, select_terminal, Evidence, HandoffError,
    InstallRecord, Stage, Stance, StanceError, StanceLedger, TerminalReport, Transition,
};
use coord_consensus::hash::HashDomain;
use coord_consensus::ids::{
    Ballot, BarrierId, BootId, ClientInstanceId, ClusterId, CommandId, ConfigurationEpoch,
    Digest32, DomainId, ExecutionPosition, LocalJournalSeq, PeerId, ReplicaId, RequestSequence,
    RetryKey, SessionId,
};
use coord_consensus::learner::Learner;
use coord_consensus::messages::ProtocolMessage;
use coord_consensus::ordered::{set_of, Order, OrdMap, OrdSet};
use coord_consensus::phase::{GuardViolation, Phase};
use coord_consensus::publication::{DurableRecord, Publication};
use coord_consensus::quorum::{
    BallotConfiguration, ConfigurationError, EpochVoters, FastQuorumClass,
};
use coord_consensus::recovery::{select, RecoveryError, RecoveryReport, ReportEntry};
use coord_consensus::replay::{EvidenceStore, ReplayRefusal, RetainedEvidence};
use coord_consensus::rows::{
    decode_payload, decode_promise, encode_payload, encode_promise, AdmissionFacts,
    PayloadRecordV1, PromiseRecordV1, Row, RowError, SealRecordV1,
};
use coord_consensus::summary::{paginate, DurableLedger, PageError, ReportAssembler};
use coord_consensus::vote::{FastAck, SlowAck, Vote, VoteError, VoteSet};

fn fold(mut state: u128, bytes: &[u8]) -> u128 {
    for b in bytes {
        state ^= *b as u128;
        state = state.wrapping_mul(0x0000_0000_0100_0000_0000_0000_0000_013b);
    }
    state
}

fn hash(domain: HashDomain, parts: Vec<Vec<u8>>) -> Digest32 {
    let tag = [match domain {
        HashDomain::DependencyPath => 1u8,
        HashDomain::JournalBatch => 2,
        HashDomain::CommandId => 3,
        HashDomain::AdmissionReceipt => 4,
    }];
    let mut high = fold(0x6c62_272e_07bb_0142_62b8_2175_6295_c58d, &tag);
    let mut low = fold(!high, &tag);
    for p in &parts {
        let n = (p.len() as u64).to_be_bytes();
        high = fold(fold(high, &n), p);
        low = fold(fold(low, &n), p);
    }
    Digest32 { high, low }
}

fn d(i: u8) -> Digest32 {
    Digest32::from_halves([i; 16], [i; 16])
}

fn c(i: u8) -> CommandId {
    CommandId(d(i))
}

fn r(i: u8) -> ReplicaId {
    ReplicaId::from_bytes([i; 16])
}

fn voters(n: u8) -> Vec<ReplicaId> {
    (0..n).map(r).collect()
}

fn epoch() -> ConfigurationEpoch {
    ConfigurationEpoch(1)
}

fn ballot(number: u64, leader: u8) -> Ballot {
    Ballot {
        epoch: epoch(),
        number,
        leader: r(leader),
    }
}

fn quorum(n: u8) -> BallotConfiguration {
    BallotConfiguration::c2(
        epoch(),
        ballot(0, 0),
        set_of(&voters(n)),
        set_of(&voters(n / 2 + 1)),
    )
    .unwrap()
}

fn epoch_voters(n: u8) -> EpochVoters {
    EpochVoters::new(epoch(), set_of(&voters(n)))
}

// --- quorums ------------------------------------------------------------

#[test]
fn every_configuration_rule_has_its_error() {
    let make = |b: Ballot, all: Vec<ReplicaId>, fast: Vec<ReplicaId>| {
        BallotConfiguration::c2(epoch(), b, set_of(&all), set_of(&fast)).err()
    };
    let b = ballot(0, 0);
    assert_eq!(make(b, vec![], vec![]), Some(ConfigurationError::NoVoters));
    let other = Ballot {
        epoch: ConfigurationEpoch(2),
        ..b
    };
    assert_eq!(
        make(other, voters(3), voters(2)),
        Some(ConfigurationError::EpochMismatch)
    );
    assert_eq!(
        make(ballot(0, 7), voters(3), voters(2)),
        Some(ConfigurationError::LeaderNotVoter)
    );
    assert_eq!(
        make(b, voters(3), vec![r(0), r(9)]),
        Some(ConfigurationError::FastSetNotVoters)
    );
    assert_eq!(
        make(b, voters(3), vec![r(1), r(2)]),
        Some(ConfigurationError::FastSetExcludesLeader)
    );
    assert_eq!(
        make(b, voters(3), voters(3)),
        Some(ConfigurationError::FastSetNotMajority)
    );
    assert_eq!(make(b, voters(3), voters(2)), None);
}

#[test]
fn quorum_sizes_are_exact() {
    let five = quorum(5);
    assert_eq!((five.slow_size(), five.fast_size()), (3, 3));
    let c1 = BallotConfiguration::c1(epoch(), ballot(0, 0), set_of(&voters(5))).unwrap();
    assert_eq!((c1.slow_size(), c1.fast_size()), (3, 4));
    assert_eq!(c1.class(), FastQuorumClass::C1);
    let wrapped =
        BallotConfiguration::c2_default(epoch(), ballot(0, 4), set_of(&voters(5))).unwrap();
    assert_eq!(wrapped.fast_set().to_vec(), vec![r(0), r(1), r(4)]);
}

#[test]
fn fast_quorums_share_a_majority_in_both_classes() {
    for n in 1..=9 {
        assert!(quorum(n).fast_quorums_intersect_in_majority());
        let wide = BallotConfiguration::c1(epoch(), ballot(0, 0), set_of(&voters(n))).unwrap();
        assert!(wide.fast_quorums_intersect_in_majority());
        assert!(2 * wide.fast_size() >= n as usize + wide.slow_size());
    }
}

#[test]
fn a_configuration_is_validated_before_it_becomes_one() {
    let good = quorum(3);
    let bytes = to_wire(&good);
    let ids: Vec<[u8; 16]> = (0..3u8).map(|i| [i; 16]).collect();
    let expected = postcard::to_allocvec(&(
        1u64,
        (1u64, 0u64, [0u8; 16]),
        ids.clone(),
        ids[..2].to_vec(),
        1u32,
    ))
    .unwrap();
    assert_eq!(bytes, expected);
    let read: BallotConfiguration = from_wire(&bytes).expect("valid");
    assert_eq!(read.voters().to_vec(), good.voters().to_vec());
    // The same bytes with a fast set of all three voters break a rule.
    let broken =
        postcard::to_allocvec(&(1u64, (1u64, 0u64, [0u8; 16]), ids.clone(), ids, 1u32)).unwrap();
    assert!(from_wire::<BallotConfiguration>(&broken).is_err());
}

// --- layouts --------------------------------------------------------------

#[test]
fn integers_are_laid_out_as_postcard_lays_them_out() {
    for n in [0u64, 1, 127, 128, 300, 1 << 20, u64::MAX] {
        assert_eq!(to_wire(&n), postcard::to_allocvec(&n).unwrap());
        let back: u64 = from_wire(&to_wire(&n)).unwrap();
        assert_eq!(back, n);
    }
    assert!(matches!(
        from_wire::<u64>(&vec![0x80]),
        Err(DecodeError::Truncated)
    ));
    assert!(matches!(
        from_wire::<u64>(&vec![1, 0]),
        Err(DecodeError::TrailingBytes)
    ));
}

#[test]
fn overlong_integers_are_read_as_postcard_reads_them() {
    let mut long = vec![0x80u8];
    for _ in 0..10 {
        let mut bytes = long.clone();
        bytes.push(1);
        let wide = postcard::take_from_bytes::<u64>(&bytes);
        match (from_wire::<u64>(&bytes), wide) {
            (Ok(a), Ok((b, _))) => assert_eq!(a, b),
            (Err(_), Err(_)) => {}
            _ => panic!("{bytes:?}"),
        }
        let narrow = postcard::take_from_bytes::<u32>(&bytes);
        match (from_wire::<u32>(&bytes), narrow) {
            (Ok(a), Ok((b, _))) => assert_eq!(a, b),
            (Err(_), Err(_)) => {}
            _ => panic!("{bytes:?}"),
        }
        long.push(0x80);
    }
}

#[test]
fn messages_are_laid_out_as_postcard_lays_them_out() {
    let message = ProtocolMessage::LeaderReply {
        ballot: ballot(3, 0),
        command: c(9),
        seqnum: 300,
        deps: vec![c(1)],
        path: d(4),
    };
    let frame = message.encode();
    let expected = postcard::to_allocvec(&(
        5u32,
        (1u64, 3u64, [0u8; 16]),
        [9u8; 32],
        300u64,
        vec![[1u8; 32]],
        [4u8; 32],
    ))
    .unwrap();
    assert_eq!(frame, expected);
    match ProtocolMessage::decode(&frame).unwrap() {
        ProtocolMessage::LeaderReply { seqnum, deps, .. } => {
            assert_eq!((seqnum, deps), (300, vec![c(1)]))
        }
        other => panic!("{other:?}"),
    }
}

#[test]
fn bytes_are_ordered_as_rust_orders_them() {
    let words: [&[u8]; 5] = [b"", b"a", b"ab", b"b", b"\xff"];
    for a in words {
        for b in words {
            let expected = if a < b {
                "before"
            } else if a == b {
                "same"
            } else {
                "after"
            };
            let got = match order_bytes(a, b) {
                Order::Before => "before",
                Order::Same => "same",
                Order::After => "after",
            };
            assert_eq!(got, expected);
            assert_eq!(same_bytes(a, b), a == b);
        }
    }
}

#[test]
fn ordered_maps_keep_their_keys_in_order() {
    let mut m: OrdMap<u64, u64> = OrdMap::new();
    for k in [5u64, 1, 9, 3] {
        m.insert(k, k * 10);
    }
    m.insert(5, 7);
    assert_eq!(m.keys(), vec![1, 3, 5, 9]);
    assert_eq!(m.get(&5), Some(&7));
    assert_eq!(m.remove(&3), Some(30));
    assert_eq!(m.len(), 3);
    let mut s: OrdSet<u64> = OrdSet::new();
    assert!(s.insert(4));
    assert!(!s.insert(4));
    assert!(s.contains(&4));
}

// --- votes ----------------------------------------------------------------

fn fast(replica: u8, path: u8, seqnum: Option<u64>) -> Vote {
    Vote::Fast(FastAck {
        replica: r(replica),
        ballot: ballot(0, 0),
        command: c(1),
        deps: vec![],
        paths: vec![],
        path: d(path),
        admission: d(7),
        seqnum,
    })
}

fn slow(replica: u8, admission: u8) -> Vote {
    Vote::Slow(SlowAck {
        replica: r(replica),
        ballot: ballot(0, 0),
        command: c(1),
        admission: d(admission),
    })
}

#[test]
fn every_vote_refusal_has_its_input() {
    let mut set = VoteSet::new(quorum(3), c(1));
    let wrong_command = Vote::Slow(SlowAck {
        replica: r(1),
        ballot: ballot(0, 0),
        command: c(2),
        admission: d(7),
    });
    assert_eq!(set.add(wrong_command), Err(VoteError::WrongCommand));
    let wrong_ballot = Vote::Slow(SlowAck {
        replica: r(1),
        ballot: ballot(1, 0),
        command: c(1),
        admission: d(7),
    });
    assert_eq!(set.add(wrong_ballot), Err(VoteError::WrongBallot));
    assert_eq!(set.add(slow(9, 7)), Err(VoteError::NotAVoter));
    assert_eq!(set.add(slow(0, 7)), Err(VoteError::LeaderSlowAck));
    assert_eq!(set.add(fast(1, 1, Some(4))), Err(VoteError::ForgedProposal));
    assert_eq!(set.add(fast(2, 1, None)), Err(VoteError::NotInFastSet));
    assert_eq!(set.add(slow(1, 7)), Ok(()));
    assert_eq!(set.add(slow(1, 7)), Err(VoteError::Duplicate));
}

#[test]
fn learning_needs_the_leader_and_agreement_on_the_admission() {
    let mut set = VoteSet::new(quorum(3), c(1));
    set.add(slow(1, 7)).unwrap();
    set.add(slow(2, 7)).unwrap();
    assert!(set.learned().is_none(), "a majority without the leader");
    set.add(fast(0, 1, Some(1))).unwrap();
    assert!(!set.learned().expect("adopted").is_fast());

    let mut set = VoteSet::new(quorum(3), c(1));
    set.add(fast(0, 1, Some(1))).unwrap();
    set.add(slow(2, 8)).unwrap();
    assert!(set.learned().is_none(), "another admission is another request");
    set.add(fast(1, 1, None)).unwrap();
    assert!(set.learned().expect("path equal").is_fast());
    assert_eq!(set.voted().to_vec(), vec![r(0), r(1), r(2)]);
}

// --- command phases -------------------------------------------------------

#[test]
fn phases_advance_only_over_what_precedes_them() {
    let mut t = CommandTable::with_capacity(8);
    let key = vec![b"k".to_vec()];
    let first = t.initialize(&hash, c(1), d(7), key.clone()).unwrap();
    assert!(first.deps.is_empty());
    let second = t.initialize(&hash, c(2), d(7), key.clone()).unwrap();
    assert_eq!(second.deps, vec![c(1)]);
    assert!(matches!(
        t.initialize(&hash, c(2), d(7), key.clone()),
        Err(InitError::AlreadyInitialized)
    ));
    assert!(matches!(
        t.initialize(&hash, c(2), d(8), key),
        Err(InitError::PayloadConflict)
    ));
    assert!(matches!(
        t.accept(c(2), vec![c(1)]),
        Err(GuardViolation::DependencyNotAccepted { dep }) if dep == c(1)
    ));
    assert!(matches!(
        t.accept(c(2), vec![c(5)]),
        Err(GuardViolation::DependencyUnknown { dep }) if dep == c(5)
    ));
    t.accept(c(1), vec![]).unwrap();
    t.accept(c(2), vec![c(1)]).unwrap();
    assert!(matches!(
        t.commit(c(2)),
        Err(GuardViolation::DependencyNotCommitted { dep }) if dep == c(1)
    ));
    t.commit(c(1)).unwrap();
    t.commit(c(2)).unwrap();
    assert!(matches!(
        t.execute(c(2)),
        Err(GuardViolation::DependencyNotExecuted { dep }) if dep == c(1)
    ));
    assert!(matches!(t.retire(&c(1)), Err(RetireError::NotExecuted(Phase::Commit))));
    assert!(matches!(t.retire(&c(6)), Err(RetireError::Unknown)));
    t.execute(c(1)).unwrap();
    t.execute(c(2)).unwrap();
    t.retire(&c(1)).unwrap();
    assert_eq!(t.phase_of(&c(1)), Some(Phase::Executed));
    assert_eq!(t.records(), vec![c(2)]);
}

#[test]
fn a_full_table_pushes_back() {
    let mut t = CommandTable::with_capacity(1);
    t.initialize(&hash, c(1), d(7), vec![vec![1]]).unwrap();
    assert!(matches!(
        t.initialize(&hash, c(2), d(7), vec![vec![2]]),
        Err(InitError::Backpressure)
    ));
}

#[test]
fn a_closure_walk_is_bounded_and_finds_every_predecessor() {
    let mut t = CommandTable::with_capacity(8);
    for i in 1..=4 {
        t.initialize(&hash, c(i), d(7), vec![vec![1]]).unwrap();
    }
    let mut cursor = t.closure_start(c(4)).unwrap();
    let mut steps = 0;
    let closure = loop {
        steps += 1;
        assert!(steps < 100);
        match t.closure_step(cursor, 1).unwrap() {
            ClosureProgress::Continue(next) => cursor = next,
            ClosureProgress::Complete(done) => break done,
        }
    };
    assert_eq!(closure.members.to_vec(), vec![c(1), c(2), c(3)]);
    assert!(steps > 1);
}

#[test]
fn the_work_a_walk_reports_is_its_members() {
    // A diamond over one shared root, walked in steps of two.
    let deps_of = |x: CommandId| {
        if x == c(1) {
            Some(vec![])
        } else if x == c(2) || x == c(3) {
            Some(vec![c(1)])
        } else {
            None
        }
    };
    let mut cursor = ClosureCursor::start(c(4), &vec![c(3), c(2), c(1)]);
    assert_eq!(cursor.remaining(), 3);
    let closure = loop {
        match cursor.step(2, &deps_of).unwrap() {
            ClosureProgress::Continue(next) => cursor = next,
            ClosureProgress::Complete(done) => break done,
        }
    };
    assert_eq!(closure.members.to_vec(), vec![c(1), c(2), c(3)]);
    assert_eq!(closure.visits, 3);
}

#[test]
fn a_step_without_a_budget_waits_unless_nothing_is_left() {
    let deps_of = |_: CommandId| Some(vec![]);
    let cursor = ClosureCursor::start(c(2), &vec![c(1)]);
    let Ok(ClosureProgress::Continue(cursor)) = cursor.step(0, &deps_of) else {
        panic!("nothing can be done with no budget");
    };
    assert_eq!(cursor.frontier(), &vec![c(1)]);
    let done = ClosureCursor::start(c(1), &vec![]).step(0, &deps_of);
    let Ok(ClosureProgress::Complete(closure)) = done else {
        panic!("there is nothing to do");
    };
    assert_eq!(closure.visits, 0);
    assert!(closure.members.to_vec().is_empty());
    assert!(matches!(
        ClosureCursor::start(c(2), &vec![c(9)]).step(8, &|_: CommandId| None),
        Err(x) if x == c(9)
    ));
}

#[test]
fn learned_commands_commit_once_and_in_order() {
    let mut t = CommandTable::with_capacity(4);
    t.initialize(&hash, c(1), d(7), vec![vec![1]]).unwrap();
    t.initialize(&hash, c(2), d(7), vec![vec![1]]).unwrap();
    t.accept(c(1), vec![]).unwrap();
    t.accept(c(2), vec![c(1)]).unwrap();
    let learned = |i: u8, deps: Vec<CommandId>| {
        let mut set = VoteSet::new(quorum(3), c(i));
        set.add(Vote::Fast(FastAck {
            replica: r(0),
            ballot: ballot(0, 0),
            command: c(i),
            deps,
            paths: vec![],
            path: d(1),
            admission: d(7),
            seqnum: Some(i as u64),
        }))
        .unwrap();
        set.add(Vote::Slow(SlowAck {
            replica: r(2),
            ballot: ballot(0, 0),
            command: c(i),
            admission: d(7),
        }))
        .unwrap();
        set
    };
    let mut learner = Learner::new(ExecutionPosition(0));
    let mut votes = OrdMap::new();
    votes.insert(c(2), learned(2, vec![c(1)]));
    assert!(learner.commit_learned(&mut t, &votes).is_empty(), "its dependency is not learned");
    votes.insert(c(1), learned(1, vec![]));
    assert_eq!(learner.commit_learned(&mut t, &votes), vec![c(1), c(2)]);
    assert!(learner.commit_learned(&mut t, &votes).is_empty(), "nothing is left to commit");
}

#[test]
fn phases_are_ordered() {
    assert_eq!(Phase::Start.step(), 0);
    assert!(Phase::Commit.at_least(Phase::Accept));
    assert!(!Phase::PreAccept.at_least(Phase::Accept));
}

#[test]
fn a_fast_acknowledgement_rests_on_its_vote_and_path() {
    let rests = Publication::FastAck.prerequisites();
    assert!(rests.contains(&DurableRecord::Vote));
    assert!(rests.contains(&DurableRecord::PathEvidence));
    assert!(Publication::CheckpointReady
        .prerequisites()
        .contains(&DurableRecord::Checkpoint));
}

// --- ballots --------------------------------------------------------------

fn identity(role: ReplicaRole) -> ConfigurationIdentity {
    ConfigurationIdentity {
        cluster: ClusterId::from_bytes([1; 16]),
        domain: DomainId::from_bytes([2; 16]),
        epoch: epoch(),
        voters: set_of(&voters(3)),
        replica: r(1),
        incarnation: 1,
        role,
    }
}

fn peer(i: u8) -> PeerId {
    PeerId {
        replica: r(i),
        incarnation: 1,
    }
}

#[test]
fn a_promise_counts_when_its_row_is_durable() {
    let mut state = BallotState::recover(identity(ReplicaRole::Voter), ballot(0, 0), None);
    let mut alloc = BarrierAllocator::new(5);
    let ask = |s: &mut BallotState, a: &mut BarrierAllocator, from: u8, b: Ballot| {
        s.on_new_leader(peer(from), b, BootId(1), a, &vec![])
    };
    assert!(matches!(
        ask(&mut state, &mut alloc, 2, ballot(0, 0)),
        Err(PromiseRejection::LeaderMismatch { .. })
    ));
    assert!(matches!(
        ask(&mut state, &mut alloc, 0, ballot(0, 0)),
        Err(PromiseRejection::NotHigher { .. })
    ));
    assert!(matches!(
        ask(&mut state, &mut alloc, 9, ballot(4, 9)),
        Err(PromiseRejection::NotAVoter { .. })
    ));
    let elsewhere = Ballot {
        epoch: ConfigurationEpoch(2),
        ..ballot(4, 2)
    };
    assert!(matches!(
        ask(&mut state, &mut alloc, 2, elsewhere),
        Err(PromiseRejection::WrongEpoch { .. })
    ));
    let effects = ask(&mut state, &mut alloc, 2, ballot(4, 2)).unwrap();
    assert_eq!(effects.persist.barrier, BarrierId(5));
    assert_eq!(effects.reply.requires_durable, vec![BarrierId(5)]);
    assert_eq!(state.promised(), ballot(0, 0));
    let durable = StorageEvent::JournalDurable {
        barrier: BarrierId(5),
        journal_seq: LocalJournalSeq(1),
    };
    assert!(matches!(
        state.on_storage(&durable),
        Some(PromiseOutcome::Promised(b)) if b == ballot(4, 2)
    ));
    assert_eq!(state.promised(), ballot(4, 2));

    let mut observer = BallotState::recover(identity(ReplicaRole::Observer), ballot(0, 0), None);
    assert!(matches!(
        ask(&mut observer, &mut alloc, 2, ballot(4, 2)),
        Err(PromiseRejection::NotVoting { .. })
    ));
}

fn transition(subject: u8) -> Transition {
    Transition {
        from: epoch(),
        to: ConfigurationEpoch(2),
        subject: d(subject),
    }
}

#[test]
fn a_sealed_replica_promises_nothing() {
    let mut state = BallotState::recover_sealed(
        identity(ReplicaRole::Voter),
        ballot(0, 0),
        None,
        Some(SealRecordV1 {
            transition: transition(1),
            at: ballot(0, 0),
        }),
    );
    let mut alloc = BarrierAllocator::new(1);
    assert!(state.is_sealed());
    assert!(matches!(
        state.on_new_leader(peer(2), ballot(4, 2), BootId(1), &mut alloc, &vec![]),
        Err(PromiseRejection::Sealed { .. })
    ));
    assert!(matches!(
        state.seal(transition(2), peer(2), BootId(1), &mut alloc, &vec![]),
        Err(SealRejection::AlreadySealed { .. })
    ));
    let mut open = BallotState::recover(identity(ReplicaRole::Voter), ballot(0, 0), None);
    assert!(matches!(
        open.mark_synced(Ballot {
            epoch: ConfigurationEpoch(9),
            ..ballot(1, 0)
        }),
        Err(SyncRejection::WrongEpoch { .. })
    ));
}

fn durable(barrier: u64) -> StorageEvent {
    StorageEvent::JournalDurable {
        barrier: BarrierId(barrier),
        journal_seq: LocalJournalSeq(barrier),
    }
}

fn failed(barrier: u64) -> StorageEvent {
    StorageEvent::Failed {
        barrier: BarrierId(barrier),
        error: StorageError::DefinitelyNotCommitted,
    }
}

#[test]
fn any_row_of_a_repeated_seal_seals() {
    let asked_twice = || {
        let mut state = BallotState::recover(identity(ReplicaRole::Voter), ballot(0, 0), None);
        let mut alloc = BarrierAllocator::new(5);
        for barrier in [5, 6] {
            let effects = state
                .seal(transition(1), peer(2), BootId(1), &mut alloc, &vec![])
                .unwrap();
            assert_eq!(effects.persist.barrier, BarrierId(barrier));
        }
        state
    };
    let mut state = asked_twice();
    assert!(!state.is_sealed());
    assert!(matches!(
        state.on_storage(&durable(5)),
        Some(PromiseOutcome::Sealed(t)) if t == transition(1)
    ));
    assert!(state.is_sealed());
    assert!(state.on_storage(&failed(6)).is_none(), "the seal stands");
    assert!(state.is_sealed());

    let mut state = asked_twice();
    assert!(matches!(
        state.on_storage(&failed(5)),
        Some(PromiseOutcome::SealFailed(_))
    ));
    assert!(!state.is_sealed());
    assert!(matches!(
        state.on_storage(&durable(6)),
        Some(PromiseOutcome::Sealed(_))
    ));
    assert!(state.is_sealed());
}

#[test]
fn a_sync_row_keeps_the_promise_in_flight() {
    let mut state = BallotState::recover(identity(ReplicaRole::Voter), ballot(0, 0), None);
    let mut alloc = BarrierAllocator::new(5);
    state
        .on_new_leader(peer(2), ballot(1, 2), BootId(1), &mut alloc, &vec![])
        .unwrap();
    state.on_storage(&durable(5));
    assert_eq!(state.promised(), ballot(1, 2));
    state
        .on_new_leader(peer(1), ballot(4, 1), BootId(1), &mut alloc, &vec![])
        .unwrap();
    assert_eq!(
        state.mark_synced(ballot(1, 2)),
        Ok(PromiseRecordV1 {
            promised: ballot(4, 1),
            synced: ballot(1, 2),
        }),
        "a row that named the earlier promise could undo the later one"
    );
    assert_eq!(state.synced(), ballot(1, 2));
}

#[test]
fn promises_settle_at_the_highest_whatever_the_order() {
    for order in [[5, 6], [6, 5]] {
        let mut state = BallotState::recover(identity(ReplicaRole::Voter), ballot(0, 0), None);
        let mut alloc = BarrierAllocator::new(5);
        for b in [ballot(1, 2), ballot(4, 1)] {
            let from = if b == ballot(1, 2) { 2 } else { 1 };
            state
                .on_new_leader(peer(from), b, BootId(1), &mut alloc, &vec![])
                .unwrap();
        }
        for barrier in order {
            state.on_storage(&durable(barrier));
        }
        assert_eq!(state.promised(), ballot(4, 1));
    }
}

// --- recovery -------------------------------------------------------------

fn entry(i: u8, phase: Phase, deps: Vec<CommandId>) -> ReportEntry {
    ReportEntry {
        command: c(i),
        phase,
        deps,
        path: d(i),
        paths: vec![],
        seqnum: 1,
        keys: vec![],
        payload_present: true,
    }
}

fn recovery_quorum() -> BallotConfiguration {
    BallotConfiguration::c2(
        epoch(),
        ballot(4, 1),
        set_of(&voters(3)),
        set_of(&vec![r(1), r(2)]),
    )
    .unwrap()
}

fn report(replica: u8, entries: Vec<ReportEntry>) -> RecoveryReport {
    RecoveryReport {
        replica: r(replica),
        ballot: ballot(4, 1),
        committed_ballot: ballot(0, 0),
        entries,
    }
}

#[test]
fn what_was_accepted_survives_recovery() {
    let config = recovery_quorum();
    let accepted = report(1, vec![entry(1, Phase::Accept, vec![])]);
    let empty = report(2, vec![]);
    let decision = select(&config, &vec![accepted, empty]).unwrap();
    let kept = decision.entries.get(&c(1)).expect("kept");
    assert!(kept.phase.at_least(Phase::Accept));
    assert_eq!(kept.deps, Vec::<CommandId>::new());
}

#[test]
fn recovery_commits_only_what_a_report_has_committed() {
    let config = recovery_quorum();
    let decision = select(
        &config,
        &vec![
            report(
                1,
                vec![
                    entry(1, Phase::Commit, vec![]),
                    entry(2, Phase::Accept, vec![]),
                ],
            ),
            report(2, vec![entry(1, Phase::Accept, vec![])]),
        ],
    )
    .unwrap();
    assert_eq!(decision.entries.get(&c(1)).expect("kept").phase, Phase::Commit);
    assert_eq!(decision.entries.get(&c(2)).expect("kept").phase, Phase::Accept);
}

#[test]
fn every_recovery_error_has_its_reports() {
    let config = recovery_quorum();
    let one = || report(1, vec![]);
    assert!(matches!(
        select(&config, &vec![one()]),
        Err(RecoveryError::InsufficientReports { have: 1, need: 2 })
    ));
    assert!(matches!(
        select(&config, &vec![one(), one()]),
        Err(RecoveryError::DuplicateReport { .. })
    ));
    assert!(matches!(
        select(&config, &vec![one(), report(9, vec![])]),
        Err(RecoveryError::NotAVoter { .. })
    ));
    let stale = RecoveryReport {
        ballot: ballot(3, 1),
        ..report(2, vec![])
    };
    assert!(matches!(
        select(&config, &vec![one(), stale]),
        Err(RecoveryError::WrongBallot { .. })
    ));
    let a = report(1, vec![entry(1, Phase::Accept, vec![])]);
    let b = report(
        2,
        vec![
            entry(1, Phase::Accept, vec![c(2)]),
            entry(2, Phase::Accept, vec![]),
        ],
    );
    assert!(matches!(
        select(&config, &vec![a, b]),
        Err(RecoveryError::IncompatibleAccepted { .. })
    ));
}

#[test]
fn a_report_survives_its_pages() {
    let whole = report(
        1,
        (1..=5)
            .map(|i| entry(i, Phase::PreAccept, vec![]))
            .collect(),
    );
    let pages = paginate(&hash, &whole, 2);
    assert_eq!(pages.len(), 3);
    let mut assembler = ReportAssembler::new(ballot(4, 1));
    for (i, page) in pages.into_iter().enumerate() {
        assert_eq!(assembler.complete(&hash).len(), 0, "page {i}");
        assembler.accept(&hash, page).unwrap();
    }
    let complete = assembler.complete(&hash);
    assert_eq!(complete.len(), 1);
    assert_eq!(complete[0].entries.len(), 5);
    let mut corrupt = paginate(&hash, &whole, 2).remove(0);
    corrupt.digest = d(9);
    assert!(matches!(
        assembler.accept(&hash, corrupt),
        Err(PageError::Corrupt)
    ));
    let mut other = ReportAssembler::new(ballot(5, 1));
    assert!(matches!(
        other.accept(&hash, paginate(&hash, &whole, 2).remove(0)),
        Err(PageError::WrongBallot)
    ));
}

#[test]
fn a_ledger_reports_only_what_is_durable() {
    let mut t = CommandTable::with_capacity(4);
    t.initialize(&hash, c(1), d(7), vec![vec![1]]).unwrap();
    let mut ledger = DurableLedger::new();
    let record = || coord_consensus::commands::CommandRecord {
        phase: Phase::PreAccept,
        deps: vec![],
        keys: vec![vec![1]],
        payload: Some(d(7)),
        paths: vec![],
        synced_seq: None,
        path: d(0),
    };
    ledger.stage(BarrierId(1), c(1), record());
    ledger.stage(BarrierId(2), c(2), record());
    assert!(ledger.report(r(1), ballot(4, 1), ballot(0, 0)).entries.is_empty());
    assert_eq!(ledger.outstanding(), vec![BarrierId(1), BarrierId(2)]);
    assert_eq!(ledger.durable(BarrierId(1), LocalJournalSeq(1)), Some(c(1)));
    assert_eq!(ledger.failed(BarrierId(2)), Some(c(2)));
    assert_eq!(ledger.records(), vec![c(1)]);
}

// --- evidence kept for a repeat ------------------------------------------

fn context() -> EffectContext {
    EffectContext {
        domain: DomainId::from_bytes([2; 16]),
        replica_incarnation: 1,
        boot_id: BootId(1),
        configuration: epoch(),
        ballot: ballot(0, 0),
        required_journal_seq: LocalJournalSeq(0),
    }
}

#[test]
fn kept_evidence_is_repeated_only_when_durable() {
    let mut t = CommandTable::with_capacity(4);
    t.initialize(&hash, c(1), d(7), vec![vec![1]]).unwrap();
    let mut store = EvidenceStore::new(4);
    let mut settled = Settlements::new();
    let plan = |s: &mut EvidenceStore, settled: &Settlements, b: Ballot| {
        s.plan(c(1), settled, b, peer(9), &t)
    };
    assert!(matches!(
        plan(&mut store, &settled, ballot(0, 0)),
        Err(ReplayRefusal::NothingToReplay)
    ));
    store.retain(
        c(1),
        RetainedEvidence {
            barrier: BarrierId(3),
            ballot: ballot(0, 0),
            context: context(),
            requires_durable: vec![BarrierId(3)],
            frame: vec![1, 2, 3],
        },
        &t,
    );
    assert!(matches!(
        plan(&mut store, &settled, ballot(0, 0)),
        Err(ReplayRefusal::NotYetDurable)
    ));
    assert!(matches!(
        plan(&mut store, &settled, ballot(1, 1)),
        Err(ReplayRefusal::BallotMoved)
    ));
    settled.observe(&StorageEvent::JournalDurable {
        barrier: BarrierId(3),
        journal_seq: LocalJournalSeq(1),
    });
    let sends = plan(&mut store, &settled, ballot(0, 0)).unwrap();
    assert_eq!(sends.len(), 1);
    assert_eq!(sends[0].frame, vec![1, 2, 3]);
    assert_eq!(sends[0].to, peer(9));
    assert_eq!(store.repairs_of(&c(1)), 1);
    settled.observe(&StorageEvent::Failed {
        barrier: BarrierId(4),
        error: StorageError::Fatal,
    });
    assert!(settled.is_failed(&BarrierId(4)));
    assert!(settled.is_durable(&BarrierId(3)));
}

#[test]
fn a_command_is_forgotten_with_its_tombstone() {
    let mut t = CommandTable::with_capacity(4);
    t.initialize(&hash, c(1), d(7), vec![vec![1]]).unwrap();
    t.accept(c(1), vec![]).unwrap();
    t.commit(c(1)).unwrap();
    t.execute(c(1)).unwrap();
    t.retire(&c(1)).unwrap();
    let mut store = EvidenceStore::new(4);
    let settled = Settlements::new();
    assert!(matches!(
        store.plan(c(1), &settled, ballot(0, 0), peer(9), &t),
        Err(ReplayRefusal::NothingToReplay)
    ));
    assert_eq!(store.repairs_of(&c(1)), 0);
    assert!(matches!(
        store.plan(c(2), &settled, ballot(0, 0), peer(9), &t),
        Err(ReplayRefusal::Forgotten)
    ));
}

// --- floors ---------------------------------------------------------------

fn candidate(position: u64, subject: u8) -> FloorCandidate {
    FloorCandidate {
        epoch: epoch(),
        position: ExecutionPosition(position),
        subject: d(subject),
    }
}

#[test]
fn a_floor_activates_on_a_majority_and_never_goes_back() {
    let all = epoch_voters(3);
    let mut ready = Vec::new();
    for i in 0..2 {
        let mut ledger = ReadinessLedger::new(r(i), epoch());
        ready.push(ledger.record(&all, candidate(10, 1)).unwrap());
        assert!(matches!(
            ledger.record(&all, candidate(9, 1)),
            Err(ReadinessError::Regression { .. })
        ));
        assert!(matches!(
            ledger.record(&all, candidate(10, 2)),
            Err(ReadinessError::Competing { .. })
        ));
    }
    assert!(matches!(
        activate(&all, &vec![ready[0]]),
        Err(ActivationError::NoQuorum { have: 1, need: 2 })
    ));
    assert!(matches!(activate(&all, &vec![]), Err(ActivationError::Empty)));
    let divided = Readiness {
        voter: r(1),
        candidate: candidate(10, 3),
    };
    assert!(matches!(
        activate(&all, &vec![ready[0], divided]),
        Err(ActivationError::Divided)
    ));
    let floor = activate(&all, &ready).unwrap();
    assert_eq!(floor.verdict(ExecutionPosition(11)), FenceVerdict::Ordinary);
    assert_eq!(floor.verdict(ExecutionPosition(10)), FenceVerdict::Retained);
    let mut held = FloorLedger::new(epoch());
    assert!(matches!(held.install(floor), Ok(FloorInstall::Advanced)));
    let again = activate(&all, &ready).unwrap();
    assert!(matches!(
        held.install(again),
        Ok(FloorInstall::AlreadyCovered)
    ));
    let found = discover(&ready).expect("reports");
    assert_eq!(found.position, ExecutionPosition(10));
    assert_eq!(found.subject(), Some(d(1)));
}

// --- handoff --------------------------------------------------------------

#[test]
fn a_handoff_walks_its_stages() {
    let old = epoch_voters(3);
    let successor = EpochVoters::new(ConfigurationEpoch(2), set_of(&voters(3)));
    let t = transition(1);
    let mut stances = Vec::new();
    for i in 0..2 {
        let mut ledger = StanceLedger::new(r(i), epoch());
        stances.push(ledger.record(&old, t, Stance::Sealed).unwrap());
        assert!(ledger.fenced());
        assert!(matches!(
            ledger.record(&old, t, Stance::Cancelled),
            Err(StanceError::Reversal { .. })
        ));
    }
    assert!(matches!(
        seal(&old, t, &vec![stances[0]]),
        Err(HandoffError::NoQuorum { have: 1, need: 2 })
    ));
    assert!(matches!(
        cancel(&old, t, &stances),
        Err(HandoffError::NoQuorum { .. })
    ));
    let sealed = seal(&old, t, &stances).unwrap();
    let reports: Vec<TerminalReport> = (0..2)
        .map(|i| TerminalReport {
            voter: r(i),
            transition: t,
            terminal_root: d(5),
        })
        .collect();
    let terminal = select_terminal(&old, &sealed, &set_of(&voters(3)), &reports).unwrap();
    assert_eq!(terminal.terminal_root(), d(5));
    let installs: Vec<InstallRecord> = (0..2)
        .map(|i| InstallRecord {
            replica: r(i),
            transition: t,
            terminal_root: d(5),
        })
        .collect();
    let active = activate_epoch(&successor, &terminal, &installs).unwrap();
    assert_eq!(active.terminal_root(), d(5));
    let none_reports = Vec::new();
    let none_installs = Vec::new();
    let none_stances = Vec::new();
    let stage = resume(
        &old,
        &successor,
        t,
        Evidence {
            authorized: true,
            stances: &none_stances,
            reports: &none_reports,
            terminal: None,
            installs: &none_installs,
            activation: None,
        },
    );
    assert!(matches!(stage, Ok(Stage::Preparing)));
}

// --- features -------------------------------------------------------------

#[test]
fn a_feature_activates_only_unanimously() {
    let known = set_of(&vec![Feature(1), Feature(2)]);
    let mut ledger = SupportLedger::new(epoch_voters(2), known);
    let says = |i: u8, f: Vec<Feature>| Support {
        voter: r(i),
        epoch: epoch(),
        features: set_of(&f),
    };
    ledger.record(&says(0, vec![Feature(1), Feature(2)])).unwrap();
    assert!(matches!(
        ledger.record(&says(0, vec![Feature(1)])),
        Err(SupportError::Withdrawn { feature: Feature(2) })
    ));
    assert!(matches!(
        ledger.record(&says(9, vec![])),
        Err(SupportError::NotAVoter)
    ));
    assert_eq!(ledger.missing(Feature(1)), vec![r(1)]);
    let mut active = ActiveFeatures::new();
    assert!(matches!(
        active.activate(Feature(1), &ledger, epoch()),
        Err(FeatureError::NotUnanimous { .. })
    ));
    ledger.record(&says(1, vec![Feature(1)])).unwrap();
    assert_eq!(ledger.unanimous().to_vec(), vec![Feature(1)]);
    active.activate(Feature(1), &ledger, epoch()).unwrap();
    assert!(active.is_active(Feature(1)));
    assert!(matches!(
        active.activate(Feature(1), &ledger, epoch()),
        Err(FeatureError::AlreadyActive)
    ));
    assert!(matches!(
        active.admits(&set_of(&vec![Feature(2)])),
        Err(lacking) if lacking == vec![Feature(1)]
    ));
}

// --- rows -----------------------------------------------------------------

#[test]
fn rows_read_back_what_was_written() {
    let promise = PromiseRecordV1 {
        promised: ballot(4, 1),
        synced: ballot(0, 0),
    };
    let mut envelope = encode_promise(&promise);
    let read = decode_promise(&envelope).unwrap();
    assert_eq!((read.promised, read.synced), (ballot(4, 1), ballot(0, 0)));
    envelope.payload.push(0);
    assert!(matches!(
        decode_promise(&envelope),
        Err(RowError::Corrupt(Row::Promise))
    ));
    let payload = PayloadRecordV1 {
        retry_key: RetryKey {
            cluster_id: ClusterId::from_bytes([1; 16]),
            domain_id: DomainId::from_bytes([2; 16]),
            session_id: SessionId::from_bytes([3; 16]),
            client_instance_id: ClientInstanceId::from_bytes([4; 16]),
            request_sequence: RequestSequence(9),
        },
        logical: vec![1, 2],
        admission: Some(AdmissionFacts(vec![7])),
        ack_through: 3,
    };
    let envelope = encode_payload(&payload);
    let read = decode_payload(&envelope).unwrap();
    assert_eq!(read.logical, vec![1, 2]);
    assert_eq!(read.ack_through, 3);
    assert!(decode_promise(&envelope).is_err());
}
