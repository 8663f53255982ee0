//! Command phases and the normal-operation guards.

use vstd::prelude::*;

use crate::ids::CommandId;

verus! {

/// Phase of a command at one replica.
#[derive(Clone, Copy, Debug, PartialEq, Eq, PartialOrd, Ord, Hash, Structural)]
pub enum Phase {
    /// Known by identity only (a descriptor exists, no payload yet).
    Start,
    /// Payload and local dependencies recorded; fast acknowledgement sent.
    PreAccept,
    /// The leader's order adopted.
    Accept,
    /// Learned (fast or slow quorum).
    Commit,
    /// Executed at its position.
    Executed,
}

impl View for Phase {
    type V = Phase;

    open spec fn view(&self) -> Phase {
        *self
    }
}

impl Phase {
    /// How far along the phase is.
    pub open spec fn rank(self) -> int {
        match self {
            Phase::Start => 0,
            Phase::PreAccept => 1,
            Phase::Accept => 2,
            Phase::Commit => 3,
            Phase::Executed => 4,
        }
    }

    /// How far along the phase is.
    pub fn step(self) -> (r: u8)
        ensures
            r == self.rank(),
    {
        match self {
            Phase::Start => 0,
            Phase::PreAccept => 1,
            Phase::Accept => 2,
            Phase::Commit => 3,
            Phase::Executed => 4,
        }
    }

    /// Whether the phase is `other` or later.
    pub fn at_least(self, other: Phase) -> (r: bool)
        ensures
            r == (self.rank() >= other.rank()),
    {
        self.step() >= other.step()
    }
}

/// A normal-operation guard did not hold.
#[derive(Clone, Copy, Debug, PartialEq, Eq, Hash, Structural)]
pub enum GuardViolation {
    /// A direct dependency is not known at all (a half-initialized or
    /// pending-ingress placeholder cannot satisfy a guard).
    DependencyUnknown {
        /// Dependency.
        dep: CommandId,
    },
    /// A direct dependency is below ACCEPT.
    DependencyNotAccepted {
        /// Dependency.
        dep: CommandId,
    },
    /// A dependency is below COMMIT.
    DependencyNotCommitted {
        /// Dependency.
        dep: CommandId,
    },
    /// A dependency has not executed.
    DependencyNotExecuted {
        /// Dependency.
        dep: CommandId,
    },
}

/// The phase of each known command.
pub type Phases = spec_fn(CommandId) -> Option<Phase>;

/// What a dependency below `minimum` violates.
pub open spec fn violation_of(minimum: Phase, dep: CommandId) -> GuardViolation {
    match minimum {
        Phase::Commit => GuardViolation::DependencyNotCommitted { dep },
        Phase::Executed => GuardViolation::DependencyNotExecuted { dep },
        _ => GuardViolation::DependencyNotAccepted { dep },
    }
}

/// What one dependency violates, if anything.
pub open spec fn dependency_violation(
    phases: Phases,
    minimum: Phase,
    dep: CommandId,
) -> Option<GuardViolation> {
    match phases(dep) {
        None => Some(GuardViolation::DependencyUnknown { dep }),
        Some(p) => if p.rank() < minimum.rank() {
            Some(violation_of(minimum, dep))
        } else {
            None
        },
    }
}

/// The violation of the first dependency that has one.
pub open spec fn first_violation(
    deps: Seq<CommandId>,
    phases: Phases,
    minimum: Phase,
) -> Option<GuardViolation>
    decreases deps.len(),
{
    if deps.len() == 0 {
        None
    } else {
        let earlier = first_violation(deps.drop_last(), phases, minimum);
        if earlier is Some {
            earlier
        } else {
            dependency_violation(phases, minimum, deps.last())
        }
    }
}

/// A guard holds exactly when every dependency reached the minimum.
pub proof fn lemma_guard_holds(deps: Seq<CommandId>, phases: Phases, minimum: Phase)
    ensures
        first_violation(deps, phases, minimum) is None <==> (forall|i: int|
            0 <= i < deps.len() ==> phases(#[trigger] deps[i]) is Some && phases(
                deps[i],
            )->0.rank() >= minimum.rank()),
    decreases deps.len(),
{
    if deps.len() > 0 {
        let t = deps.drop_last();
        lemma_guard_holds(t, phases, minimum);
        if first_violation(deps, phases, minimum) is None {
            assert forall|i: int| 0 <= i < deps.len() implies phases(#[trigger] deps[i]) is Some
                && phases(deps[i])->0.rank() >= minimum.rank() by {
                if i < t.len() {
                    assert(phases(t[i]) is Some);
                }
            }
        }
        if forall|i: int|
            0 <= i < deps.len() ==> phases(#[trigger] deps[i]) is Some && phases(
                deps[i],
            )->0.rank() >= minimum.rank() {
            assert forall|i: int| 0 <= i < t.len() implies phases(#[trigger] t[i]) is Some
                && phases(t[i])->0.rank() >= minimum.rank() by {
                assert(phases(deps[i]) is Some);
            }
            assert(phases(deps[deps.len() - 1]) is Some);
        }
    }
}

/// The lookup can be asked about every command.
pub open spec fn answers_all<F: Fn(CommandId) -> Option<Phase>>(lookup: F) -> bool {
    forall|c: CommandId| #[trigger] call_requires(lookup, (c,))
}

/// Whatever the lookup answers is the phase in `phases`.
pub open spec fn reports<F: Fn(CommandId) -> Option<Phase>>(lookup: F, phases: Phases) -> bool {
    forall|c: CommandId, p: Option<Phase>| #[trigger]
        call_ensures(lookup, (c,), p) ==> p == phases(c)
}

/// The answer for a guard's first violation.
pub open spec fn guard_result(violation: Option<GuardViolation>) -> Result<(), GuardViolation> {
    match violation {
        Some(v) => Err(v),
        None => Ok(()),
    }
}

fn violation(minimum: Phase, dep: CommandId) -> (r: GuardViolation)
    ensures
        r == violation_of(minimum, dep),
{
    match minimum {
        Phase::Commit => GuardViolation::DependencyNotCommitted { dep },
        Phase::Executed => GuardViolation::DependencyNotExecuted { dep },
        _ => GuardViolation::DependencyNotAccepted { dep },
    }
}

fn check<F: Fn(CommandId) -> Option<Phase>>(
    deps: &Vec<CommandId>,
    phase_of: &F,
    minimum: Phase,
) -> (r: Result<(), GuardViolation>)
    requires
        answers_all(*phase_of),
    ensures
        forall|phases: Phases| #[trigger]
            reports(*phase_of, phases) ==> r == guard_result(
                first_violation(deps@, phases, minimum),
            ),
{
    let mut i: usize = 0;
    while i < deps.len()
        invariant
            i <= deps@.len(),
            answers_all(*phase_of),
            forall|phases: Phases| #[trigger]
                reports(*phase_of, phases) ==> first_violation(
                    deps@.take(i as int),
                    phases,
                    minimum,
                ) is None,
        decreases deps@.len() - i,
    {
        let dep = deps[i];
        let found = phase_of(dep);
        proof {
            assert(deps@.take(i + 1).drop_last() =~= deps@.take(i as int));
            assert forall|phases: Phases| #[trigger] reports(*phase_of, phases) implies (
            first_violation(deps@.take(i + 1), phases, minimum) is Some ==> first_violation(
                deps@,
                phases,
                minimum,
            ) == first_violation(deps@.take(i + 1), phases, minimum)) && phases(dep) == found by {
                lemma_first_violation_prefix(deps@, phases, minimum, i + 1);
            }
        }
        match found {
            None => {
                return Err(GuardViolation::DependencyUnknown { dep });
            },
            Some(p) => {
                if !p.at_least(minimum) {
                    return Err(violation(minimum, dep));
                }
            },
        }
        i = i + 1;
    }
    assert(deps@.take(deps@.len() as int) =~= deps@);
    Ok(())
}

proof fn lemma_first_violation_prefix(
    deps: Seq<CommandId>,
    phases: Phases,
    minimum: Phase,
    n: int,
)
    requires
        0 <= n <= deps.len(),
    ensures
        first_violation(deps.take(n), phases, minimum) is Some ==> first_violation(
            deps,
            phases,
            minimum,
        ) == first_violation(deps.take(n), phases, minimum),
    decreases deps.len() - n,
{
    if n < deps.len() {
        lemma_first_violation_prefix(deps, phases, minimum, n + 1);
        assert(deps.take(n + 1).drop_last() =~= deps.take(n));
    } else {
        assert(deps.take(n) =~= deps);
    }
}

/// Entering ACCEPT requires every direct dependency in ACCEPT or COMMIT.
pub fn guard_accept<F: Fn(CommandId) -> Option<Phase>>(
    deps: &Vec<CommandId>,
    phase_of: &F,
) -> (r: Result<(), GuardViolation>)
    requires
        answers_all(*phase_of),
    ensures
        forall|phases: Phases| #[trigger]
            reports(*phase_of, phases) ==> r == guard_result(
                first_violation(deps@, phases, Phase::Accept),
            ),
{
    check(deps, phase_of, Phase::Accept)
}

/// Entering COMMIT requires every dependency committed.
pub fn guard_commit<F: Fn(CommandId) -> Option<Phase>>(
    deps: &Vec<CommandId>,
    phase_of: &F,
) -> (r: Result<(), GuardViolation>)
    requires
        answers_all(*phase_of),
    ensures
        forall|phases: Phases| #[trigger]
            reports(*phase_of, phases) ==> r == guard_result(
                first_violation(deps@, phases, Phase::Commit),
            ),
{
    check(deps, phase_of, Phase::Commit)
}

/// Finalized execution requires every dependency executed.
pub fn guard_execute<F: Fn(CommandId) -> Option<Phase>>(
    deps: &Vec<CommandId>,
    phase_of: &F,
) -> (r: Result<(), GuardViolation>)
    requires
        answers_all(*phase_of),
    ensures
        forall|phases: Phases| #[trigger]
            reports(*phase_of, phases) ==> r == guard_result(
                first_violation(deps@, phases, Phase::Executed),
            ),
{
    check(deps, phase_of, Phase::Executed)
}

} // verus!
