//! Consensus and collection logic of a replicated coordination service.
//!
//! The library is a set of pure machines: no clock, no socket, no disk. A
//! machine takes an event or a message and returns what is to be made
//! durable, sent or answered; whoever drives it performs that.
//!
//! # The consensus side
//!
//! * [`quorum`], [`phase`], [`vote`]: ballot configurations, the phases of a
//!   command with the guards between them, and the votes a result is learned
//!   from.
//! * [`ballot`], [`campaign`], [`recovery`], [`role`]: promises and seals,
//!   the reports a candidate collects, the selection it makes from them, and
//!   the state that outlives a change of role.
//! * [`commands`], [`graph`]: the command table, the per-key path logs and
//!   the bounded walk over dependencies.
//! * [`leader`], [`follower`], [`learner`], [`speculation`], [`replay`]: the
//!   two machines and what they share.
//! * [`summary`], [`rows`], [`messages`], [`publication`]: durable records,
//!   the pages of a report, the rows and frames, and what each publication
//!   rests on.
//! * [`floor`], [`handoff`], [`feature`]: checkpoint floors, membership
//!   handoffs and feature activation, each certified by recorded promises.
//!
//! # The collection side
//!
//! * [`admission`], [`ingress`], [`wire`], [`codes`]: what is admitted, from
//!   whom, and how it travels.
//! * [`collector`], [`collector_laws`], [`collector_schedule`], [`delivery`],
//!   [`trace`]: the submission every voter is owed, the evidence it comes back
//!   with, the release, and the laws these keep.
//! * [`dispatch`], [`watch`]: connections, callers and watches.
//!
//! # What it all comes to
//!
//! * [`table_laws`], [`leader_laws`], [`follower_laws`]: what the operations of
//!   the command table and the turns of the two machines come to.
//! * [`protocol_laws`], [`transition_laws`]: what the pieces of the protocol
//!   promise one another, and what it takes to change a cluster.
//! * [`frontend_laws`], [`wire_laws`]: what callers are answered, and how
//!   everything is written down.
//!
//! # Foundations
//!
//! * [`ids`], [`client`], [`clock`], [`effects`], [`machine`], [`hash`],
//!   [`seal`]: the vocabulary.
//! * [`ordered`], [`lists`], [`bytes`]: ordered maps and sets, and sequences.
//! * [`codec`], [`layout`]: the byte layout of every record, over the
//!   variable-length integers of `postcard`.

pub mod admission;
pub mod ballot;
pub mod bytes;
pub mod campaign;
pub mod client;
pub mod clock;
pub mod codec;
pub mod codes;
pub mod collector;
pub mod collector_laws;
pub mod collector_schedule;
pub mod commands;
pub mod delivery;
pub mod dispatch;
pub mod effects;
pub mod feature;
pub mod floor;
pub mod follower;
pub mod follower_laws;
pub mod frontend_laws;
pub mod graph;
pub mod handoff;
pub mod hash;
pub mod ids;
pub mod ingress;
pub mod layout;
pub mod leader;
pub mod leader_laws;
pub mod learner;
pub mod lists;
pub mod machine;
pub mod messages;
pub mod ordered;
pub mod phase;
pub mod protocol_laws;
pub mod publication;
pub mod quorum;
pub mod recovery;
pub mod replay;
pub mod role;
pub mod rows;
pub mod seal;
pub mod speculation;
pub mod summary;
pub mod table_laws;
pub mod trace;
pub mod transition_laws;
pub mod vote;
pub mod watch;
pub mod wire;
pub mod wire_laws;
