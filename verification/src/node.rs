//! A replica together with its links and its election timer: each event is
//! handed to the state machine, and what the state machine asks for is
//! carried out.

use crate::model::ReplicaView;
use crate::peer::Peer;
use crate::replica::{Effects, Replica};
use crate::timer::{upper_end, HeartbeatTimer};
use crate::types::{ControlMessage, Message, Outbound, ReplicaStatus};
use vstd::prelude::*;

verus! {

/// Position of the first link that leads to replica `to`, if there is one.
pub fn find_link(peers: &Vec<Peer>, to: usize) -> (found: Option<usize>)
    ensures
        match found {
            Some(k) => k < peers.len() && peers[k as int].destination() == to && forall|j: int|
                0 <= j < k ==> peers[j].destination() != to,
            None => forall|j: int| 0 <= j < peers.len() ==> peers[j].destination() != to,
        },
{
    let mut k: usize = 0;
    while k < peers.len()
        invariant
            k <= peers.len(),
            forall|j: int| 0 <= j < k ==> peers[j].destination() != to,
        decreases peers.len() - k,
    {
        if peers[k].destination_id() == to {
            return Some(k);
        }
        k += 1;
    }
    None
}

/// There is a link that leads to replica `to`.
pub open spec fn linked(peers: Seq<Peer>, to: usize) -> bool {
    exists|j: int| 0 <= j < peers.len() && (#[trigger] peers[j]).destination() == to
}

/// Number of messages of the outbox for whose destination there is a link.
pub open spec fn count_linked(peers: Seq<Peer>, outbox: Seq<Outbound>) -> nat
    decreases outbox.len(),
{
    if outbox.len() == 0 {
        0
    } else {
        count_linked(peers, outbox.drop_first()) + if linked(peers, outbox.first().to) {
            1nat
        } else {
            0nat
        }
    }
}

/// Sends every message of the outbox over the link to its destination, in
/// the order of the outbox. A message to a replica without a link is
/// discarded. The result is the number of messages for which there was a
/// link.
pub fn send_all(peers: &Vec<Peer>, outbox: Vec<Outbound>) -> (sent: usize)
    ensures
        sent == count_linked(peers@, outbox@),
{
    let mut rest = outbox;
    let mut sent: usize = 0;
    while rest.len() > 0
        invariant
            sent + count_linked(peers@, rest@) == count_linked(peers@, outbox@),
            sent + rest.len() <= outbox.len(),
        decreases rest.len(),
    {
        let ghost before = rest@;
        let outbound = rest.remove(0);
        assert(rest@ =~= before.drop_first());
        match find_link(peers, outbound.to) {
            Some(k) => {
                assert(linked(peers@, outbound.to));
                peers[k].send(outbound.message);
                sent += 1;
            },
            None => {
                assert(!linked(peers@, outbound.to));
            },
        }
    }
    sent
}

/// A replica with the means to act: links to the other replicas and an
/// election timer.
pub struct Node {
    replica: Replica,
    peers: Vec<Peer>,
    timer: HeartbeatTimer,
}

impl Node {
    /// The node's replica is well formed.
    pub open spec fn wf(&self) -> bool {
        self.replica().wf()
    }

    /// State of the node's replica.
    pub closed spec fn replica(&self) -> ReplicaView {
        self.replica@
    }

    /// The node's election timer.
    pub closed spec fn timer(&self) -> HeartbeatTimer {
        self.timer
    }

    /// The node's links to other replicas.
    pub closed spec fn links(&self) -> Seq<Peer> {
        self.peers@
    }

    /// Creates the node of replica `id` in a cluster of `cluster_size`, with
    /// its links and an election timer over `min_ms..=max_ms`, armed. There
    /// is no such node if `id` is not below `cluster_size`.
    pub fn new(id: usize, cluster_size: usize, peers: Vec<Peer>, min_ms: u64, max_ms: u64) -> (node:
        Option<Node>)
        ensures
            node is Some <==> id < cluster_size,
            node matches Some(n) ==> {
                &&& n.replica() == ReplicaView::initial(id, cluster_size)
                &&& n.replica().wf()
                &&& n.links() == peers@
                &&& n.timer().shortest() == min_ms
                &&& n.timer().longest() == upper_end(min_ms, max_ms)
                &&& !n.timer().reported()
            },
    {
        match Replica::new(id, cluster_size) {
            Some(replica) => Some(Node { replica, peers, timer: HeartbeatTimer::new(min_ms, max_ms) }),
            None => None,
        }
    }

    fn carry_out(&mut self, effects: Effects)
        ensures
            final(self).replica() == old(self).replica(),
            final(self).links() == old(self).links(),
            final(self).timer().shortest() == old(self).timer().shortest(),
            final(self).timer().longest() == old(self).timer().longest(),
            effects.reset_timer ==> !final(self).timer().reported(),
            !effects.reset_timer ==> final(self).timer() == old(self).timer(),
    {
        let Effects { outbox, reset_timer } = effects;
        let _ = send_all(&self.peers, outbox);
        if reset_timer {
            self.timer.renew();
        }
    }

    /// Takes in a message from another replica.
    pub fn receive(&mut self, message: Message)
        requires
            old(self).wf(),
        ensures
            final(self).replica().wf(),
            final(self).replica() == old(self).replica().on_message(message@).replica,
            final(self).links() == old(self).links(),
            final(self).timer().shortest() == old(self).timer().shortest(),
            final(self).timer().longest() == old(self).timer().longest(),
            old(self).replica().on_message(message@).reset_timer ==> !final(self).timer().reported(),
            !old(self).replica().on_message(message@).reset_timer ==> final(self).timer() == old(self).timer(),
    {
        let effects = self.replica.handle_message(message);
        self.carry_out(effects);
    }

    /// Lets the replica react to its election timer having fired.
    pub fn timeout(&mut self)
        requires
            old(self).wf(),
        ensures
            final(self).replica().wf(),
            final(self).replica() == old(self).replica().on_timeout().replica,
            final(self).links() == old(self).links(),
            final(self).timer().shortest() == old(self).timer().shortest(),
            final(self).timer().longest() == old(self).timer().longest(),
            old(self).replica().on_timeout().reset_timer ==> !final(self).timer().reported(),
            !old(self).replica().on_timeout().reset_timer ==> final(self).timer() == old(self).timer(),
    {
        let effects = self.replica.election_timeout();
        self.carry_out(effects);
    }

    /// Polls the election timer and, if the signal has occurred since the
    /// timer was armed, lets the replica react to it. The result tells
    /// whether it has. A replica that rearms the timer in reaction is asked
    /// again only after the new duration; one that does not, a Dead one, is
    /// asked at every poll.
    pub fn poll_timer(&mut self) -> (fired: bool)
        requires
            old(self).wf(),
        ensures
            final(self).replica().wf(),
            old(self).timer().reported() ==> fired,
            fired ==> final(self).replica() == old(self).replica().on_timeout().replica,
            !fired ==> final(self).replica() == old(self).replica(),
            fired && old(self).replica().on_timeout().reset_timer ==> !final(self).timer().reported(),
            fired && !old(self).replica().on_timeout().reset_timer ==> final(self).timer().reported(),
            !fired ==> !final(self).timer().reported(),
            final(self).links() == old(self).links(),
            final(self).timer().shortest() == old(self).timer().shortest(),
            final(self).timer().longest() == old(self).timer().longest(),
    {
        let fired = self.timer.fired();
        if fired {
            self.timeout();
        }
        fired
    }

    /// Lets the replica react to the heartbeat tick.
    pub fn beat(&mut self)
        requires
            old(self).wf(),
        ensures
            final(self).replica().wf(),
            final(self).replica() == old(self).replica().on_heartbeat().replica,
            final(self).links() == old(self).links(),
            final(self).timer().shortest() == old(self).timer().shortest(),
            final(self).timer().longest() == old(self).timer().longest(),
            final(self).timer() == old(self).timer(),
    {
        let effects = self.replica.heartbeat();
        self.carry_out(effects);
    }

    /// Takes in a command of the cluster driver.
    pub fn command(&mut self, command: ControlMessage)
        requires
            old(self).wf(),
        ensures
            final(self).replica().wf(),
            final(self).replica() == old(self).replica().on_control(command).replica,
            final(self).links() == old(self).links(),
            final(self).timer().shortest() == old(self).timer().shortest(),
            final(self).timer().longest() == old(self).timer().longest(),
            old(self).replica().on_control(command).reset_timer ==> !final(self).timer().reported(),
            !old(self).replica().on_control(command).reset_timer ==> final(self).timer() == old(self).timer(),
    {
        let effects = self.replica.control(command);
        self.carry_out(effects);
    }

    /// A snapshot of the node's replica.
    pub fn status(&self) -> (status: ReplicaStatus)
        ensures
            status.id == self.replica().id,
            status.state == self.replica().state,
            status.connected == self.replica().connected,
            status.value == self.replica().value,
            status.term == self.replica().current_term,
            status.commit_index == self.replica().commit_index,
            status.last_applied == self.replica().last_applied,
            status.log@ == self.replica().log,
    {
        self.replica.status()
    }
}

} // verus!
