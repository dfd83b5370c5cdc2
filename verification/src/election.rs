//! Election safety: in any reachable state of a cluster, at most one
//! replica is Leader in any one term.

use crate::cluster::{is_run, reachable, Cluster, Event};
use crate::model::{count_true, is_majority, lemma_initial_wf, lemma_on_control_wf, lemma_on_heartbeat_wf, lemma_on_message_wf, lemma_on_timeout_wf, ReplicaView, Step};
use crate::types::{ControlMessage, Envelope, MessageView, State};
use vstd::prelude::*;

verus! {

/// The envelope by which `voter` grants its vote of `term` to `candidate`.
pub open spec fn vote_envelope(voter: usize, term: usize, candidate: usize) -> Envelope {
    Envelope {
        to: candidate,
        msg: MessageView::RequestVoteResponse { from_id: voter, term, vote_granted: true },
    }
}

/// The envelope grants a vote.
pub open spec fn is_vote(envelope: Envelope) -> bool {
    envelope.msg matches MessageView::RequestVoteResponse { vote_granted, .. } && vote_granted
}

/// The replica stands in an election or has won one.
pub open spec fn standing(replica: ReplicaView) -> bool {
    replica.state == State::Candidate || replica.state == State::Leader
}

/// A replica that stands has voted for itself, and a Leader holds the votes
/// of a strict majority.
pub open spec fn stands_on_votes(replica: ReplicaView) -> bool {
    &&& standing(replica) ==> replica.voted_for == Some(replica.id) && replica.votes[replica.id as int]
    &&& replica.state == State::Leader ==> is_majority(
        count_true(replica.votes),
        replica.cluster_size,
    )
}

/// What every step of a replica keeps, as far as elections go: the term
/// never falls; a vote cast is not changed within its term; a vote sent is
/// the vote recorded; a vote counted was counted before or has just been
/// delivered.
pub open spec fn sound_step(replica: ReplicaView, delivered: Option<Envelope>, step: Step) -> bool {
    let next = step.replica;
    &&& next.id == replica.id
    &&& next.cluster_size == replica.cluster_size
    &&& next.current_term >= replica.current_term
    &&& next.current_term == replica.current_term && replica.voted_for is Some ==> next.voted_for
        == replica.voted_for
    &&& forall|k: int|
        0 <= k < step.outbox.len() && is_vote(#[trigger] step.outbox[k]) ==> {
            &&& step.outbox[k] == vote_envelope(replica.id, next.current_term, step.outbox[k].to)
            &&& next.voted_for == Some(step.outbox[k].to)
        }
    &&& stands_on_votes(next)
    &&& forall|v: int|
        0 <= v < replica.cluster_size && standing(next) && #[trigger] next.votes[v] && v
            != replica.id ==> {
            ||| standing(replica) && replica.current_term == next.current_term && replica.votes[v]
            ||| delivered == Some(vote_envelope(v as usize, next.current_term, replica.id))
        }
}

/// Every reaction to a message is a sound step.
pub proof fn lemma_message_step_sound(replica: ReplicaView, envelope: Envelope)
    requires
        replica.wf(),
        stands_on_votes(replica),
        envelope.to == replica.id,
    ensures
        sound_step(replica, Some(envelope), replica.on_message(envelope.msg)),
{
    let step = replica.on_message(envelope.msg);
    if replica.active() {
        match envelope.msg {
            MessageView::RequestVoteResponse { from_id, term, vote_granted } => {
                if term <= replica.current_term && replica.state == State::Candidate && term
                    == replica.current_term && vote_granted && from_id < replica.cluster_size {
                    assert(envelope =~= vote_envelope(from_id, term, replica.id));
                }
            },
            _ => {},
        }
    }
}

/// The reaction to the election timer is a sound step.
pub proof fn lemma_timeout_step_sound(replica: ReplicaView)
    requires
        replica.wf(),
        stands_on_votes(replica),
    ensures
        sound_step(replica, None, replica.on_timeout()),
{
}

/// The reaction to the heartbeat tick is a sound step.
pub proof fn lemma_heartbeat_step_sound(replica: ReplicaView)
    requires
        replica.wf(),
        stands_on_votes(replica),
    ensures
        sound_step(replica, None, replica.on_heartbeat()),
{
}

/// The reaction to a command is a sound step.
pub proof fn lemma_control_step_sound(replica: ReplicaView, command: ControlMessage)
    requires
        replica.wf(),
        stands_on_votes(replica),
    ensures
        sound_step(replica, None, replica.on_control(command)),
{
}

/// Every vote on the network is on record at its voter: the voter has
/// reached the vote's term, and while it is in that term its vote is the one
/// it sent.
pub open spec fn votes_recorded(cluster: Cluster) -> bool {
    forall|voter: usize, term: usize, candidate: usize|
        voter < cluster.replicas.len() && #[trigger] cluster.network.contains(
            vote_envelope(voter, term, candidate),
        ) ==> {
            &&& cluster.replicas[voter as int].current_term >= term
            &&& cluster.replicas[voter as int].current_term == term
                ==> cluster.replicas[voter as int].voted_for == Some(candidate)
        }
}

/// No replica has sent votes to two candidates in one term.
pub open spec fn votes_unique(cluster: Cluster) -> bool {
    forall|voter: usize, term: usize, first: usize, second: usize|
        voter < cluster.replicas.len() && #[trigger] cluster.network.contains(
            vote_envelope(voter, term, first),
        ) && #[trigger] cluster.network.contains(vote_envelope(voter, term, second)) ==> first
            == second
}

/// Every vote that a standing replica counts, other than its own, is on the
/// network.
pub open spec fn votes_backed(cluster: Cluster) -> bool {
    forall|i: int, v: int|
        0 <= i < cluster.replicas.len() && 0 <= v < cluster.replicas.len() && standing(
            cluster.replicas[i],
        ) && #[trigger] cluster.replicas[i].votes[v] && v != i ==> cluster.network.contains(
            vote_envelope(v as usize, cluster.replicas[i].current_term, i as usize),
        )
}

/// The invariant from which election safety follows.
pub open spec fn election_inv(cluster: Cluster) -> bool {
    &&& cluster.wf()
    &&& forall|i: int|
        0 <= i < cluster.replicas.len() ==> stands_on_votes(#[trigger] cluster.replicas[i])
    &&& votes_recorded(cluster)
    &&& votes_unique(cluster)
    &&& votes_backed(cluster)
}

/// A new cluster satisfies the invariant.
pub proof fn lemma_initial_inv(size: usize)
    ensures
        election_inv(Cluster::initial(size)),
{
    let cluster = Cluster::initial(size);
    assert forall|i: int| 0 <= i < cluster.replicas.len() implies {
        &&& (#[trigger] cluster.replicas[i]).wf()
        &&& cluster.replicas[i].id == i
        &&& cluster.replicas[i].cluster_size == cluster.replicas.len()
    } by {
        lemma_initial_wf(i as usize, size);
    }
}

/// The step of any enabled event is sound and keeps its replica well formed.
pub proof fn lemma_reaction_sound(cluster: Cluster, event: Event)
    requires
        election_inv(cluster),
        cluster.enabled(event),
    ensures
        sound_step(
            cluster.replicas[event.actor() as int],
            event.delivered(),
            cluster.reaction(event),
        ),
        cluster.reaction(event).replica.wf(),
{
    let replica = cluster.replicas[event.actor() as int];
    assert(replica.wf());
    assert(stands_on_votes(replica));
    match event {
        Event::Deliver { envelope } => {
            lemma_message_step_sound(replica, envelope);
            lemma_on_message_wf(replica, envelope.msg);
        },
        Event::Timeout { replica: _ } => {
            lemma_timeout_step_sound(replica);
            lemma_on_timeout_wf(replica);
        },
        Event::Heartbeat { replica: _ } => {
            lemma_heartbeat_step_sound(replica);
            lemma_on_heartbeat_wf(replica);
        },
        Event::Control { replica: _, command } => {
            lemma_control_step_sound(replica, command);
            lemma_on_control_wf(replica, command);
        },
    }
}

/// Every event keeps the invariant.
#[verifier::rlimit(60)]
pub proof fn lemma_event_keeps_inv(cluster: Cluster, event: Event)
    requires
        election_inv(cluster),
        cluster.enabled(event),
    ensures
        election_inv(cluster.after(event)),
{
    let a = event.actor() as int;
    let replica = cluster.replicas[a];
    let step = cluster.reaction(event);
    let next = cluster.after(event);
    lemma_reaction_sound(cluster, event);
    assert(next.wf());
    assert forall|i: int| 0 <= i < next.replicas.len() implies stands_on_votes(
        #[trigger] next.replicas[i],
    ) by {
        if i != a {
            assert(next.replicas[i] == cluster.replicas[i]);
        }
    }
    assert forall|voter: usize, term: usize, candidate: usize|
        voter < next.replicas.len() && #[trigger] next.network.contains(
            vote_envelope(voter, term, candidate),
        ) implies {
        &&& next.replicas[voter as int].current_term >= term
        &&& next.replicas[voter as int].current_term == term ==> next.replicas[voter as int].voted_for
            == Some(candidate)
    } by {
        let vote = vote_envelope(voter, term, candidate);
        if cluster.network.contains(vote) {
            assert(cluster.replicas[voter as int].current_term >= term);
        } else {
            assert(step.outbox.to_set().contains(vote));
            let k = choose|k: int| 0 <= k < step.outbox.len() && step.outbox[k] == vote;
            assert(is_vote(step.outbox[k]));
        }
    }
    assert forall|voter: usize, term: usize, first: usize, second: usize|
        voter < next.replicas.len() && #[trigger] next.network.contains(
            vote_envelope(voter, term, first),
        ) && #[trigger] next.network.contains(
            vote_envelope(voter, term, second),
        ) implies first == second by {
        let one = vote_envelope(voter, term, first);
        let two = vote_envelope(voter, term, second);
        if !cluster.network.contains(one) {
            assert(step.outbox.to_set().contains(one));
            let k = choose|k: int| 0 <= k < step.outbox.len() && step.outbox[k] == one;
            assert(is_vote(step.outbox[k]));
        }
        if !cluster.network.contains(two) {
            assert(step.outbox.to_set().contains(two));
            let k = choose|k: int| 0 <= k < step.outbox.len() && step.outbox[k] == two;
            assert(is_vote(step.outbox[k]));
        }
        if cluster.network.contains(one) {
            assert(cluster.replicas[voter as int].current_term >= term);
        }
        if cluster.network.contains(two) {
            assert(cluster.replicas[voter as int].current_term >= term);
        }
    }
    assert forall|i: int, v: int|
        0 <= i < next.replicas.len() && 0 <= v < next.replicas.len() && standing(next.replicas[i])
            && #[trigger] next.replicas[i].votes[v] && v != i implies next.network.contains(
        vote_envelope(v as usize, next.replicas[i].current_term, i as usize),
    ) by {
        if i != a {
            assert(next.replicas[i] == cluster.replicas[i]);
            assert(cluster.replicas[i].votes[v]);
        } else {
            assert(step.replica.votes[v]);
            if standing(replica) && replica.current_term == step.replica.current_term
                && replica.votes[v] {
            } else {
                assert(event.delivered() == Some(
                    vote_envelope(v as usize, step.replica.current_term, replica.id),
                ));
            }
        }
    }
}

/// Every state of a run satisfies the invariant.
pub proof fn lemma_run_keeps_inv(trace: Seq<Cluster>, size: usize, k: int)
    requires
        is_run(trace, size),
        0 <= k < trace.len(),
    ensures
        election_inv(trace[k]),
    decreases k,
{
    reveal(is_run);
    if k == 0 {
        lemma_initial_inv(size);
    } else {
        lemma_run_keeps_inv(trace, size, k - 1);
        assert(trace[k - 1].steps_to(trace[k]));
        let event = choose|event: Event| #[trigger]
            trace[k - 1].enabled(event) && trace[k] == trace[k - 1].after(event);
        lemma_event_keeps_inv(trace[k - 1], event);
    }
}

/// Every reachable state satisfies the invariant.
pub proof fn lemma_reachable_inv(cluster: Cluster)
    requires
        reachable(cluster),
    ensures
        election_inv(cluster),
{
    reveal(is_run);
    let (trace, size) = choose|trace: Seq<Cluster>, size: usize| #[trigger]
        is_run(trace, size) && trace.last() == cluster;
    lemma_run_keeps_inv(trace, size, trace.len() - 1);
}

/// Two sets of flags over the same replicas that together count more flags
/// than there are replicas share a flagged replica.
pub proof fn lemma_majorities_meet(a: Seq<bool>, b: Seq<bool>)
    requires
        a.len() == b.len(),
        count_true(a) + count_true(b) > a.len(),
    ensures
        exists|v: int| 0 <= v < a.len() && #[trigger] a[v] && b[v],
    decreases a.len(),
{
    if a.len() > 0 {
        let last = a.len() - 1;
        if a[last] && b[last] {
        } else {
            lemma_majorities_meet(a.drop_last(), b.drop_last());
            let v = choose|v: int|
                0 <= v < a.drop_last().len() && #[trigger] a.drop_last()[v] && b.drop_last()[v];
            assert(a[v] && b[v]);
        }
    }
}

/// Election safety. In a reachable state of the cluster, two replicas that
/// are both Leader in the same term are one and the same replica.
#[verifier::rlimit(60)]
pub proof fn election_safety(cluster: Cluster, i: int, j: int)
    requires
        reachable(cluster),
        0 <= i < cluster.replicas.len(),
        0 <= j < cluster.replicas.len(),
        cluster.replicas[i].state == State::Leader,
        cluster.replicas[j].state == State::Leader,
        cluster.replicas[i].current_term == cluster.replicas[j].current_term,
    ensures
        i == j,
{
    lemma_reachable_inv(cluster);
    let a = cluster.replicas[i];
    let b = cluster.replicas[j];
    let term = a.current_term;
    if i != j {
        assert(stands_on_votes(a) && stands_on_votes(b));
        lemma_majorities_meet(a.votes, b.votes);
        let v = choose|v: int| 0 <= v < a.votes.len() && #[trigger] a.votes[v] && b.votes[v];
        if v == i {
            assert(cluster.network.contains(vote_envelope(i as usize, term, j as usize)));
        } else if v == j {
            assert(cluster.network.contains(vote_envelope(j as usize, term, i as usize)));
        } else {
            assert(cluster.network.contains(vote_envelope(v as usize, term, i as usize)));
            assert(cluster.network.contains(vote_envelope(v as usize, term, j as usize)));
        }
    }
}

/// Vote safety. In a reachable state of the cluster, the votes that one
/// replica has sent in one term all went to the same candidate.
pub proof fn vote_safety(cluster: Cluster, voter: usize, term: usize, first: usize, second: usize)
    requires
        reachable(cluster),
        voter < cluster.replicas.len(),
        cluster.network.contains(vote_envelope(voter, term, first)),
        cluster.network.contains(vote_envelope(voter, term, second)),
    ensures
        first == second,
{
    lemma_reachable_inv(cluster);
}

/// A replica that has granted its vote to one candidate denies it to any
/// other candidate that asks for it in the same term right after.
pub proof fn second_request_denied(
    replica: ReplicaView,
    term: usize,
    first: usize,
    first_index: usize,
    first_term: usize,
    second: usize,
    second_index: usize,
    second_term: usize,
)
    requires
        first != second,
        is_vote(replica.on_request_vote(first, term, first_index, first_term).outbox[0]),
    ensures
        !is_vote(
            replica.on_request_vote(
                first,
                term,
                first_index,
                first_term,
            ).replica.on_request_vote(second, term, second_index, second_term).outbox[0],
        ),
{
}

} // verus!
