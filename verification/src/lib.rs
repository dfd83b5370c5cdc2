//! Replica logic of a simulated Raft-style consensus cluster.
//!
//! A fixed set of replicas elect a leader, replicate an append-only log of
//! integer deltas, and converge on a committed value although messages may
//! be lost and replicas may be cut off or stopped.
//!
//! The executable parts:
//! - [`types`]: messages, commands and snapshots;
//! - [`log_store`]: the log, with lookup, consistency check and merging;
//! - [`replica`]: the replica state machine, one method per kind of event;
//! - [`peer`]: the lossy link to another replica;
//! - [`timer`]: the randomized one-shot election timer;
//! - [`node`]: a replica together with its links and its timer.
//!
//! The model and what is proved of it:
//! - [`model`]: the state of one replica and its reaction to every event,
//!   as mathematical functions; the state machine is proved to compute
//!   exactly these;
//! - [`cluster`]: a whole cluster and its runs;
//! - [`election`]: at most one Leader per term in any state, and one vote
//!   per replica and term;
//! - [`matching`]: logs that share an entry share all that precedes it;
//! - [`commit`]: terms and commit indexes never fall;
//! - [`leader_completeness`]: what is committed stays: it is never
//!   overwritten, it is the same on all replicas, and every Leader of the
//!   same or a later term holds it. The modules [`progress`],
//!   [`completeness`], [`complete_logs`], [`complete_votes`] and
//!   [`complete_commits`] carry the invariant behind it.

pub mod types;
pub mod log_store;
pub mod model;
pub mod replica;
pub mod random;
pub mod peer;
pub mod timer;
pub mod node;
pub mod cluster;
pub mod election;
pub mod matching;
pub mod commit;
pub mod progress;
pub mod completeness;
pub mod complete_logs;
pub mod complete_votes;
pub mod complete_commits;
pub mod leader_completeness;

pub use crate::node::Node;
pub use crate::peer::Peer;
pub use crate::replica::{Effects, Replica};
pub use crate::timer::HeartbeatTimer;
pub use crate::types::{ControlMessage, Envelope, Log, Message, MessageView, Outbound, ReplicaStatus, State};
