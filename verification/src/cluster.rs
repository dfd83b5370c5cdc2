//! Model of a whole cluster: the replicas, and every message sent so far.
//!
//! The network is the set of all envelopes ever sent. An envelope may be
//! delivered at any later time, any number of times, or never: loss,
//! reordering and duplication are all covered.

use crate::model::{ReplicaView, Step};
use crate::types::{ControlMessage, Envelope};
use vstd::prelude::*;

verus! {

/// State of a cluster: `replicas[i]` is the replica with id `i`.
#[verifier::ext_equal]
pub struct Cluster {
    pub replicas: Seq<ReplicaView>,
    pub network: Set<Envelope>,
}

/// One event at one replica.
pub enum Event {
    /// The envelope reaches the replica it is addressed to.
    Deliver { envelope: Envelope },
    /// The election timer of the replica fires.
    Timeout { replica: usize },
    /// The heartbeat interval of the replica has passed.
    Heartbeat { replica: usize },
    /// The cluster driver sends the replica a command.
    Control { replica: usize, command: ControlMessage },
}

impl Event {
    /// The replica at which the event takes place.
    pub open spec fn actor(self) -> usize {
        match self {
            Event::Deliver { envelope } => envelope.to,
            Event::Timeout { replica } => replica,
            Event::Heartbeat { replica } => replica,
            Event::Control { replica, command } => replica,
        }
    }

    /// The envelope that the event delivers, if it delivers one.
    pub open spec fn delivered(self) -> Option<Envelope> {
        match self {
            Event::Deliver { envelope } => Some(envelope),
            _ => None,
        }
    }
}

impl Cluster {
    /// A cluster of `size` new replicas, with nothing sent yet.
    pub open spec fn initial(size: usize) -> Cluster {
        Cluster {
            replicas: Seq::new(size as nat, |i: int| ReplicaView::initial(i as usize, size)),
            network: Set::empty(),
        }
    }

    /// Every replica is well formed, carries its position as its id, and
    /// knows the size of the cluster.
    pub open spec fn wf(self) -> bool {
        &&& self.replicas.len() <= usize::MAX
        &&& forall|i: int|
            0 <= i < self.replicas.len() ==> {
                &&& (#[trigger] self.replicas[i]).wf()
                &&& self.replicas[i].id == i
                &&& self.replicas[i].cluster_size == self.replicas.len()
            }
    }

    /// The event can take place: its replica exists, and an envelope to be
    /// delivered has been sent.
    pub open spec fn enabled(self, event: Event) -> bool {
        &&& event.actor() < self.replicas.len()
        &&& event matches Event::Deliver { envelope } ==> self.network.contains(envelope)
    }

    /// The step that the event's replica takes.
    pub open spec fn reaction(self, event: Event) -> Step {
        let replica = self.replicas[event.actor() as int];
        match event {
            Event::Deliver { envelope } => replica.on_message(envelope.msg),
            Event::Timeout { replica: _ } => replica.on_timeout(),
            Event::Heartbeat { replica: _ } => replica.on_heartbeat(),
            Event::Control { replica: _, command } => replica.on_control(command),
        }
    }

    /// The cluster after the event: its replica has taken its step, and what
    /// it sent has joined the network.
    pub open spec fn after(self, event: Event) -> Cluster {
        let step = self.reaction(event);
        Cluster {
            replicas: self.replicas.update(event.actor() as int, step.replica),
            network: self.network.union(step.outbox.to_set()),
        }
    }

    /// `next` follows from `self` by one event.
    pub open spec fn steps_to(self, next: Cluster) -> bool {
        exists|event: Event| #[trigger] self.enabled(event) && next == self.after(event)
    }
}

/// A run: a sequence of cluster states that starts with a new cluster and
/// proceeds by one event at a time.
#[verifier::opaque]
pub open spec fn is_run(trace: Seq<Cluster>, size: usize) -> bool {
    &&& trace.len() > 0
    &&& trace[0] == Cluster::initial(size)
    &&& forall|k: int| 0 <= k < trace.len() - 1 ==> (#[trigger] trace[k]).steps_to(trace[k + 1])
}

/// The cluster state occurs in some run.
pub open spec fn reachable(cluster: Cluster) -> bool {
    exists|trace: Seq<Cluster>, size: usize| #[trigger]
        is_run(trace, size) && trace.last() == cluster
}

} // verus!
