//! The collector's event trace: every transition of the collector contract
//! as a language-neutral record, so that another collector can be compared
//! against the same scenarios. Identities are lowercase hex.

use vstd::prelude::*;
use vstd::string::*;

use crate::ids::{CommandId, ReplicaId};
use crate::machine::lemma_views_push;
use crate::ordered::views;

verus! {

/// The digit of a value below sixteen.
pub open spec fn digit(n: int) -> char {
    "0123456789abcdef"@[n]
}

/// Lowercase hex of bytes.
pub open spec fn hex_of(bytes: Seq<u8>) -> Seq<char>
    decreases bytes.len(),
{
    if bytes.len() == 0 {
        Seq::empty()
    } else {
        hex_of(bytes.drop_last()).push(digit(bytes.last() as int / 16)).push(
            digit(bytes.last() as int % 16),
        )
    }
}

fn push_digit(out: &mut String, n: u8)
    requires
        n < 16,
    ensures
        final(out)@ == old(out)@.push(digit(n as int)),
{
    let digits = "0123456789abcdef";
    proof {
        reveal_strlit("0123456789abcdef");
    }
    assert(digits.is_ascii());
    let at: usize = n as usize;
    out.append(digits.substring_ascii(at, at + 1));
    proof {
        assert(digits@.subrange(n as int, n + 1) =~= seq![digit(n as int)]);
        assert(out@ =~= old(out)@.push(digit(n as int)));
    }
}

/// Lowercase hex of bytes.
pub fn hex(bytes: &[u8]) -> (r: String)
    ensures
        r@ == hex_of(bytes@),
{
    let mut out = String::new();
    let mut i: usize = 0;
    proof {
        assert(bytes@.take(0) =~= Seq::<u8>::empty());
        assert(out@ =~= hex_of(bytes@.take(0)));
    }
    while i < bytes.len()
        invariant
            i <= bytes@.len(),
            out@ == hex_of(bytes@.take(i as int)),
        decreases bytes@.len() - i,
    {
        let b: u8 = bytes[i];
        proof {
            assert(bytes@.take(i + 1).drop_last() =~= bytes@.take(i as int));
            assert(bytes@.take(i + 1).last() == b);
        }
        push_digit(&mut out, b / 16);
        push_digit(&mut out, b % 16);
        i = i + 1;
    }
    proof {
        assert(bytes@.take(bytes@.len() as int) =~= bytes@);
    }
    out
}

/// Hex of a command identity.
pub fn command_hex(command: &CommandId) -> (r: String)
    ensures
        r@ == hex_of(command.bytes()),
{
    hex(command.to_bytes().as_slice())
}

/// Hex of a replica identity.
pub fn replica_hex(replica: &ReplicaId) -> (r: String)
    ensures
        r@ == hex_of(replica.bytes()),
{
    hex(replica.to_bytes().as_slice())
}

/// Hex of replica identities.
pub open spec fn hexes_of(replicas: Seq<ReplicaId>) -> Seq<Seq<char>> {
    replicas.map_values(|r: ReplicaId| hex_of(r.bytes()))
}

/// Hex of replica identities.
pub fn replica_hexes(replicas: &Vec<ReplicaId>) -> (r: Vec<String>)
    ensures
        views(r@) == hexes_of(replicas@),
{
    let ghost goal = hexes_of(replicas@);
    let mut out: Vec<String> = Vec::new();
    let mut i: usize = 0;
    proof {
        assert(views(out@) =~= goal.take(0));
    }
    while i < replicas.len()
        invariant
            i <= replicas@.len(),
            goal == hexes_of(replicas@),
            views(out@) == goal.take(i as int),
        decreases replicas@.len() - i,
    {
        let text = replica_hex(&replicas[i]);
        proof {
            lemma_views_push(out@, text);
            assert(goal.take(i + 1) =~= goal.take(i as int).push(goal[i as int]));
        }
        out.push(text);
        i = i + 1;
    }
    proof {
        assert(goal.take(goal.len() as int) =~= goal);
    }
    out
}

/// Different bytes have different hex.
pub proof fn lemma_hex_is_faithful(a: Seq<u8>, b: Seq<u8>)
    requires
        hex_of(a) == hex_of(b),
    ensures
        a == b,
    decreases a.len(),
{
    lemma_hex_length(a);
    lemma_hex_length(b);
    if a.len() > 0 {
        let x = hex_of(a);
        let y = hex_of(b);
        let n = x.len();
        lemma_digits_differ(a.last() as int / 16, b.last() as int / 16);
        lemma_digits_differ(a.last() as int % 16, b.last() as int % 16);
        assert(x[n - 1] == digit(a.last() as int % 16) && y[n - 1] == digit(b.last() as int % 16));
        assert(x[n - 2] == digit(a.last() as int / 16) && y[n - 2] == digit(b.last() as int / 16));
        assert(a.last() == b.last());
        assert(hex_of(a.drop_last()) =~= x.take(n - 2));
        assert(hex_of(b.drop_last()) =~= y.take(n - 2));
        lemma_hex_is_faithful(a.drop_last(), b.drop_last());
        assert(a =~= a.drop_last().push(a.last()));
        assert(b =~= b.drop_last().push(b.last()));
    }
}

proof fn lemma_hex_length(a: Seq<u8>)
    ensures
        hex_of(a).len() == 2 * a.len(),
    decreases a.len(),
{
    if a.len() > 0 {
        lemma_hex_length(a.drop_last());
    }
}

proof fn lemma_digits_differ(m: int, n: int)
    requires
        0 <= m < 16,
        0 <= n < 16,
    ensures
        digit(m) == digit(n) ==> m == n,
{
    reveal_strlit("0123456789abcdef");
}

/// What an optional text says.
pub open spec fn text_view(t: Option<String>) -> Option<Seq<char>> {
    match t {
        Some(t) => Some(t@),
        None => None,
    }
}

/// One collector transition.
#[allow(inconsistent_fields)]
#[derive(Clone, Debug)]
pub enum CollectorEvent {
    /// A request was submitted to every voter in parallel.
    Submitted {
        /// Command.
        command: String,
        /// Request sequence of the retry key.
        sequence: u64,
        /// Voters the command was fanned out to.
        targets: Vec<String>,
    },
    /// A retry attached to a pending command (no second fan-out).
    Attached {
        /// Command.
        command: String,
        /// Request sequence.
        sequence: u64,
    },
    /// A retry of a resolved command returned the retained outcome.
    Retained {
        /// Command.
        command: String,
        /// Request sequence.
        sequence: u64,
    },
    /// A submission was refused.
    Refused {
        /// Request sequence.
        sequence: u64,
        /// Reason.
        reason: String,
    },
    /// A submission some destinations could not take was offered to them again.
    Reoffered {
        /// Command.
        command: String,
        /// Destinations of this offer.
        targets: Vec<String>,
    },
    /// The command settled before every destination had taken its submission.
    Undisseminated {
        /// Command.
        command: String,
        /// Destinations that never took it.
        missed: Vec<String>,
    },
    /// Evidence arrived from a voter identity.
    Evidence {
        /// Command it names.
        command: String,
        /// Sender identity (never the connection).
        from: String,
        /// Kind: `leader-reply`, `fast-ack`, `slow-ack` or `release`.
        kind: String,
        /// Whether it was counted.
        accepted: bool,
        /// Why not, when not.
        reason: Option<String>,
    },
    /// The command is not releasable yet.
    Held {
        /// Command.
        command: String,
        /// What is missing.
        reason: String,
    },
    /// The command's result was released.
    Released {
        /// Command.
        command: String,
        /// Whether the release preceded materialization.
        speculative: bool,
        /// Whether the collector learned it on the fast path.
        fast: bool,
        /// Voter identities counted.
        voters: Vec<String>,
        /// KV revision produced.
        revision: Option<u64>,
        /// Whether a caller was still attached to receive it.
        delivered: bool,
    },
    /// The durable record of the command's execution on this node completed
    /// what the collector half held. Followed by the `Released` it produced.
    SettledFromRecord {
        /// Command.
        command: String,
        /// What the collector held of its own: `release` or `votes`.
        corroborated: String,
    },
    /// The caller went away; identity and outcome resolution stay.
    Cancelled {
        /// Command.
        command: String,
    },
    /// A resolution query was answered.
    Resolved {
        /// Request sequence.
        sequence: u64,
        /// `outcome`, `pending`, `conflict` or `unknown`.
        result: String,
    },
    /// The client deadline passed before establishment.
    TimedOut {
        /// Command.
        command: String,
    },
    /// The ballot changed: evidence of the old ballot is void.
    Reconfigured {
        /// New ballot number.
        ballot: u64,
        /// Pending commands whose evidence was dropped.
        reset: usize,
    },
}

/// What a transition says.
#[allow(inconsistent_fields)]
#[verifier::ext_equal]
pub enum EventView {
    /// A request was submitted to every voter in parallel.
    Submitted {
        /// Command.
        command: Seq<char>,
        /// Request sequence of the retry key.
        sequence: u64,
        /// Voters the command was fanned out to.
        targets: Seq<Seq<char>>,
    },
    /// A retry attached to a pending command (no second fan-out).
    Attached {
        /// Command.
        command: Seq<char>,
        /// Request sequence.
        sequence: u64,
    },
    /// A retry of a resolved command returned the retained outcome.
    Retained {
        /// Command.
        command: Seq<char>,
        /// Request sequence.
        sequence: u64,
    },
    /// A submission was refused.
    Refused {
        /// Request sequence.
        sequence: u64,
        /// Reason.
        reason: Seq<char>,
    },
    /// A submission some destinations could not take was offered to them again.
    Reoffered {
        /// Command.
        command: Seq<char>,
        /// Destinations of this offer.
        targets: Seq<Seq<char>>,
    },
    /// The command settled before every destination had taken its submission.
    Undisseminated {
        /// Command.
        command: Seq<char>,
        /// Destinations that never took it.
        missed: Seq<Seq<char>>,
    },
    /// Evidence arrived from a voter identity.
    Evidence {
        /// Command it names.
        command: Seq<char>,
        /// Sender identity (never the connection).
        from: Seq<char>,
        /// Kind: `leader-reply`, `fast-ack`, `slow-ack` or `release`.
        kind: Seq<char>,
        /// Whether it was counted.
        accepted: bool,
        /// Why not, when not.
        reason: Option<Seq<char>>,
    },
    /// The command is not releasable yet.
    Held {
        /// Command.
        command: Seq<char>,
        /// What is missing.
        reason: Seq<char>,
    },
    /// The command's result was released.
    Released {
        /// Command.
        command: Seq<char>,
        /// Whether the release preceded materialization.
        speculative: bool,
        /// Whether the collector learned it on the fast path.
        fast: bool,
        /// Voter identities counted.
        voters: Seq<Seq<char>>,
        /// KV revision produced.
        revision: Option<u64>,
        /// Whether a caller was still attached to receive it.
        delivered: bool,
    },
    /// The durable record of the command's execution on this node completed
    /// what the collector half held. Followed by the `Released` it produced.
    SettledFromRecord {
        /// Command.
        command: Seq<char>,
        /// What the collector held of its own: `release` or `votes`.
        corroborated: Seq<char>,
    },
    /// The caller went away; identity and outcome resolution stay.
    Cancelled {
        /// Command.
        command: Seq<char>,
    },
    /// A resolution query was answered.
    Resolved {
        /// Request sequence.
        sequence: u64,
        /// `outcome`, `pending`, `conflict` or `unknown`.
        result: Seq<char>,
    },
    /// The client deadline passed before establishment.
    TimedOut {
        /// Command.
        command: Seq<char>,
    },
    /// The ballot changed: evidence of the old ballot is void.
    Reconfigured {
        /// New ballot number.
        ballot: u64,
        /// Pending commands whose evidence was dropped.
        reset: usize,
    },
}

impl View for CollectorEvent {
    type V = EventView;

    open spec fn view(&self) -> EventView {
        match self {
            CollectorEvent::Submitted { command, sequence, targets } => EventView::Submitted {
                command: command@,
                sequence: *sequence,
                targets: views(targets@),
            },
            CollectorEvent::Attached { command, sequence } => EventView::Attached {
                command: command@,
                sequence: *sequence,
            },
            CollectorEvent::Retained { command, sequence } => EventView::Retained {
                command: command@,
                sequence: *sequence,
            },
            CollectorEvent::Refused { sequence, reason } => EventView::Refused {
                sequence: *sequence,
                reason: reason@,
            },
            CollectorEvent::Reoffered { command, targets } => EventView::Reoffered {
                command: command@,
                targets: views(targets@),
            },
            CollectorEvent::Undisseminated { command, missed } => EventView::Undisseminated {
                command: command@,
                missed: views(missed@),
            },
            CollectorEvent::Evidence { command, from, kind, accepted, reason } => EventView::Evidence {
                command: command@,
                from: from@,
                kind: kind@,
                accepted: *accepted,
                reason: text_view(*reason),
            },
            CollectorEvent::Held { command, reason } => EventView::Held {
                command: command@,
                reason: reason@,
            },
            CollectorEvent::Released { command, speculative, fast, voters, revision, delivered } => EventView::Released {
                command: command@,
                speculative: *speculative,
                fast: *fast,
                voters: views(voters@),
                revision: *revision,
                delivered: *delivered,
            },
            CollectorEvent::SettledFromRecord { command, corroborated } => EventView::SettledFromRecord {
                command: command@,
                corroborated: corroborated@,
            },
            CollectorEvent::Cancelled { command } => EventView::Cancelled {
                command: command@,
            },
            CollectorEvent::Resolved { sequence, result } => EventView::Resolved {
                sequence: *sequence,
                result: result@,
            },
            CollectorEvent::TimedOut { command } => EventView::TimedOut {
                command: command@,
            },
            CollectorEvent::Reconfigured { ballot, reset } => EventView::Reconfigured {
                ballot: *ballot,
                reset: *reset,
            },
        }
    }
}

} // verus!
