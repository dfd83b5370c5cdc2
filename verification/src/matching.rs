//! Log matching: in any reachable state of a cluster, two logs that hold an
//! entry with the same index and term are identical up to that entry.
//!
//! The proof follows a run of the cluster and keeps, beside each state, a
//! record of what the state itself forgets: every log that any replica has
//! ever held, and for every term that was won, the winner and its voters.

use crate::cluster::{is_run, reachable, Cluster, Event};
use crate::election::{election_inv, lemma_event_keeps_inv, lemma_initial_inv, lemma_majorities_meet, lemma_reaction_sound, standing, stands_on_votes, vote_envelope};
use crate::log_store::{agrees_at, first_conflict, lemma_first_conflict, merge, prev_matches};
use crate::model::{count_true, is_majority, ReplicaView, Step};
use crate::types::{ControlMessage, Envelope, Log, MessageView, State};
use vstd::prelude::*;

verus! {

/// Two logs match: wherever both hold an entry of the same term at the same
/// place, they are identical up to and including that entry.
pub open spec fn matching(x: Seq<Log>, y: Seq<Log>) -> bool {
    forall|k: int|
        0 <= k < x.len() && k < y.len() && (#[trigger] x[k]).term == (#[trigger] y[k]).term
            ==> x.take(k + 1) == y.take(k + 1)
}

/// An append request is a faithful excerpt of `log`: the log holds the
/// batch right after `prev_log_index`, and an entry of term `prev_log_term`
/// just before it. Any other envelope is covered by every log.
pub open spec fn covers(log: Seq<Log>, envelope: Envelope) -> bool {
    envelope.msg matches MessageView::AppendEntryRequest {
        prev_log_index,
        prev_log_term,
        entries,
        ..
    } ==> {
        &&& prev_log_index + entries.len() <= log.len()
        &&& prev_log_index > 0 ==> log[prev_log_index - 1].term == prev_log_term
        &&& log.subrange(prev_log_index as int, prev_log_index + entries.len()) == entries
    }
}

/// The replica has taken office in this step.
pub open spec fn newly_elected(replica: ReplicaView, next: ReplicaView) -> bool {
    next.state == State::Leader && !(replica.state == State::Leader && replica.current_term
        == next.current_term)
}

/// The replica is a Candidate of a term it was a Candidate of before, or of
/// a later term than it was in before.
pub open spec fn same_race_or_later(replica: ReplicaView, next: ReplicaView) -> bool {
    ||| replica.state == State::Candidate && next.current_term == replica.current_term
    ||| next.current_term > replica.current_term
}

/// The three ways in which a step can leave the log: unchanged; longer by
/// one entry of the leader's own term; or merged with the batch of a
/// delivered append request that matched the log.
pub open spec fn log_change(
    replica: ReplicaView,
    delivered: Option<Envelope>,
    next: ReplicaView,
) -> bool {
    ||| next.log == replica.log
    ||| {
        &&& replica.state == State::Leader
        &&& next.state == State::Leader
        &&& next.current_term == replica.current_term
        &&& next.log.len() == replica.log.len() + 1
        &&& next.log.drop_last() == replica.log
        &&& next.log.last().term == replica.current_term
    }
    ||| {
        &&& delivered matches Some(envelope)
        &&& envelope.msg matches MessageView::AppendEntryRequest {
            prev_log_index,
            prev_log_term,
            entries,
            ..
        }
        &&& prev_matches(replica.log, prev_log_index, prev_log_term)
        &&& next.log == merge(replica.log, prev_log_index, entries)
        &&& next.state == State::Follower
    }
}

/// What every step of a replica keeps, as far as logs go.
pub open spec fn log_step(replica: ReplicaView, delivered: Option<Envelope>, step: Step) -> bool {
    let next = step.replica;
    &&& next.state == State::Candidate ==> same_race_or_later(replica, next)
    &&& newly_elected(replica, next) ==> next.log == replica.log && same_race_or_later(
        replica,
        next,
    )
    &&& log_change(replica, delivered, next)
    &&& forall|k: int| 0 <= k < step.outbox.len() ==> covers(next.log, #[trigger] step.outbox[k])
}

/// The append requests of a well-formed leader are excerpts of its log.
pub proof fn lemma_append_requests_covered(leader: ReplicaView)
    requires
        leader.wf(),
        leader.state == State::Leader,
    ensures
        forall|k: int|
            0 <= k < leader.append_requests().len() ==> covers(
                leader.log,
                #[trigger] leader.append_requests()[k],
            ),
{
    let outbox = leader.append_requests();
    assert forall|k: int| 0 <= k < outbox.len() implies covers(leader.log, #[trigger] outbox[k]) by {
        let to = crate::model::others(leader.id, leader.cluster_size)[k];
        let prev = (leader.next_index[to as int] - 1) as int;
        assert(outbox[k] == leader.append_request_to(to));
        assert(leader.log.subrange(prev, prev + leader.log.skip(prev).len()) =~= leader.log.skip(
            prev,
        ));
    }
}

/// Every reaction to a message is a step that keeps logs in order.
pub proof fn lemma_message_log_step(replica: ReplicaView, envelope: Envelope)
    requires
        replica.wf(),
    ensures
        log_step(replica, Some(envelope), replica.on_message(envelope.msg)),
{
    let step = replica.on_message(envelope.msg);
    if replica.active() {
        match envelope.msg {
            MessageView::RequestVoteResponse { from_id, term, vote_granted } => {
                if term <= replica.current_term && replica.state == State::Candidate && term
                    == replica.current_term && vote_granted && from_id < replica.cluster_size {
                    let counted = ReplicaView {
                        votes: replica.votes.update(from_id as int, true),
                        ..replica
                    };
                    if is_majority(count_true(counted.votes), counted.cluster_size) {
                        lemma_append_requests_covered(counted.become_leader());
                    }
                }
            },
            MessageView::AppendEntryRequest {
                from_id,
                term,
                prev_log_index,
                prev_log_term,
                entries,
                commit_index,
            } => {},
            _ => {},
        }
    }
}

/// The reaction to the election timer is a step that keeps logs in order.
pub proof fn lemma_timeout_log_step(replica: ReplicaView)
    requires
        replica.wf(),
    ensures
        log_step(replica, None, replica.on_timeout()),
{
    if replica.state != State::Dead && replica.state != State::Leader && replica.current_term
        != usize::MAX {
        let candidate = ReplicaView {
            state: State::Candidate,
            current_term: (replica.current_term + 1) as usize,
            voted_for: Some(replica.id),
            votes: Seq::new(replica.cluster_size as nat, |p: int| p == replica.id),
            ..replica
        };
        if is_majority(count_true(candidate.votes), candidate.cluster_size) {
            lemma_append_requests_covered(candidate.become_leader());
        }
    }
}

/// The reaction to the heartbeat tick is a step that keeps logs in order.
pub proof fn lemma_heartbeat_log_step(replica: ReplicaView)
    requires
        replica.wf(),
    ensures
        log_step(replica, None, replica.on_heartbeat()),
{
    if replica.state == State::Leader {
        lemma_append_requests_covered(replica.commit_to(replica.quorum_index()));
    }
}

/// The reaction to a command is a step that keeps logs in order.
pub proof fn lemma_control_log_step(replica: ReplicaView, command: ControlMessage)
    requires
        replica.wf(),
    ensures
        log_step(replica, None, replica.on_control(command)),
{
    match command {
        ControlMessage::Apply(delta) => {
            let next = replica.on_control(command).replica;
            if replica.state == State::Leader && replica.log.len() + 1 < usize::MAX {
                assert(next.log.drop_last() =~= replica.log);
            }
        },
        _ => {},
    }
}

/// The winner of a term, with the votes it won by and the log it held when
/// it took office.
pub struct Winner {
    pub id: usize,
    pub votes: Seq<bool>,
    pub log: Seq<Log>,
}

/// What a run has seen.
pub struct History {
    /// Every log that a replica has held.
    pub logs: Set<Seq<Log>>,
    /// The winner of every term that was won.
    pub winners: Map<usize, Winner>,
    /// `(replica, term, place)`: the replica, while in that term, held an
    /// entry of that term at that place of its log.
    pub acked: Set<(usize, usize, int)>,
    /// `(term, log)`: the Leader of that term held that log.
    pub leader_logs: Set<(usize, Seq<Log>)>,
}

/// The log holds an entry of `term` at place `k`.
pub open spec fn holds(log: Seq<Log>, term: usize, k: int) -> bool {
    0 <= k < log.len() && log[k].term == term
}

/// The log of every replica is on record.
pub open spec fn logs_known(cluster: Cluster, history: History) -> bool {
    forall|i: int|
        0 <= i < cluster.replicas.len() ==> history.logs.contains(
            (#[trigger] cluster.replicas[i]).log,
        )
}

/// All logs on record match one another.
pub open spec fn logs_match(history: History) -> bool {
    forall|x: Seq<Log>, y: Seq<Log>|
        #[trigger] history.logs.contains(x) && #[trigger] history.logs.contains(y) ==> matching(
            x,
            y,
        )
}

/// Every envelope on the network is covered by a log on record.
pub open spec fn requests_covered(cluster: Cluster, history: History) -> bool {
    forall|envelope: Envelope| #[trigger]
        cluster.network.contains(envelope) ==> exists|log: Seq<Log>| #[trigger]
            history.logs.contains(log) && covers(log, envelope)
}

/// The log holds every entry of `term` that `other` holds, at the same
/// place.
pub open spec fn holds_term_of(log: Seq<Log>, term: usize, other: Seq<Log>) -> bool {
    forall|k: int|
        0 <= k < other.len() && (#[trigger] other[k]).term == term ==> k < log.len()
            && log[k].term == term
}

/// The log of a Leader holds every entry of the Leader's term that is on
/// record anywhere.
pub open spec fn leaders_complete(cluster: Cluster, history: History) -> bool {
    forall|i: int, x: Seq<Log>|
        0 <= i < cluster.replicas.len() && (#[trigger] cluster.replicas[i]).state == State::Leader
            && #[trigger] history.logs.contains(x) ==> holds_term_of(
            cluster.replicas[i].log,
            cluster.replicas[i].current_term,
            x,
        )
}

/// Every entry on record is of a term that was won.
pub open spec fn terms_won(history: History) -> bool {
    forall|x: Seq<Log>, k: int|
        #[trigger] history.logs.contains(x) && 0 <= k < x.len() ==> history.winners.dom().contains(
            (#[trigger] x[k]).term,
        )
}

/// The record of a winner is borne out by the cluster: its votes are a
/// strict majority and lie on the network; the winner has reached the term,
/// and while it is in it, it keeps its own vote and does not stand again;
/// and it never sent its vote of that term to another replica.
pub open spec fn winner_sound(cluster: Cluster, term: usize, winner: Winner) -> bool {
    let replica = cluster.replicas[winner.id as int];
    &&& winner.id < cluster.replicas.len()
    &&& winner.votes.len() == cluster.replicas.len()
    &&& is_majority(count_true(winner.votes), cluster.replicas.len() as usize)
    &&& forall|v: int|
        0 <= v < cluster.replicas.len() && #[trigger] winner.votes[v] && v != winner.id
            ==> cluster.network.contains(vote_envelope(v as usize, term, winner.id))
    &&& replica.current_term >= term
    &&& replica.current_term == term ==> replica.voted_for == Some(winner.id) && replica.state
        != State::Candidate
    &&& forall|other: usize| #[trigger]
        cluster.network.contains(vote_envelope(winner.id, term, other)) ==> other == winner.id
}

/// Every winner on record is sound.
pub open spec fn winners_sound(cluster: Cluster, history: History) -> bool {
    forall|term: usize| #[trigger]
        history.winners.dom().contains(term) ==> winner_sound(cluster, term, history.winners[term])
}

/// Every Leader is on record as the winner of its term.
pub open spec fn leaders_won(cluster: Cluster, history: History) -> bool {
    forall|i: int|
        0 <= i < cluster.replicas.len() && (#[trigger] cluster.replicas[i]).state == State::Leader
            ==> history.winners.dom().contains(cluster.replicas[i].current_term)
            && history.winners[cluster.replicas[i].current_term].id == i
}

/// The invariant from which log matching follows.
pub open spec fn log_inv(cluster: Cluster, history: History) -> bool {
    &&& election_inv(cluster)
    &&& logs_known(cluster, history)
    &&& logs_match(history)
    &&& requests_covered(cluster, history)
    &&& leaders_complete(cluster, history)
    &&& terms_won(history)
    &&& winners_sound(cluster, history)
    &&& leaders_won(cluster, history)
}

/// The record after an event: the log of the event's replica is added; the
/// replica itself if it has just taken office; the places at which it holds
/// entries of its own term; and its log once more if it is Leader.
pub open spec fn record(history: History, cluster: Cluster, event: Event) -> History {
    let replica = cluster.replicas[event.actor() as int];
    let next = cluster.reaction(event).replica;
    History {
        logs: history.logs.insert(next.log),
        winners: if newly_elected(replica, next) {
            history.winners.insert(
                next.current_term,
                Winner { id: next.id, votes: next.votes, log: next.log },
            )
        } else {
            history.winners
        },
        acked: history.acked.union(
            Set::new(
                |ack: (usize, usize, int)|
                    ack.0 == next.id && ack.1 == next.current_term && holds(next.log, ack.1, ack.2),
            ),
        ),
        leader_logs: if next.state == State::Leader {
            history.leader_logs.insert((next.current_term, next.log))
        } else {
            history.leader_logs
        },
    }
}

/// The record of a new cluster: the empty log, and nothing else.
pub open spec fn blank() -> History {
    History {
        logs: set![Seq::<Log>::empty()],
        winners: Map::empty(),
        acked: Set::empty(),
        leader_logs: Set::empty(),
    }
}

/// The step of any enabled event keeps logs in order.
pub proof fn lemma_reaction_log_step(cluster: Cluster, event: Event)
    requires
        cluster.wf(),
        cluster.enabled(event),
    ensures
        log_step(cluster.replicas[event.actor() as int], event.delivered(), cluster.reaction(event)),
{
    let replica = cluster.replicas[event.actor() as int];
    assert(replica.wf());
    match event {
        Event::Deliver { envelope } => {
            lemma_message_log_step(replica, envelope);
        },
        Event::Timeout { replica: _ } => {
            lemma_timeout_log_step(replica);
        },
        Event::Heartbeat { replica: _ } => {
            lemma_heartbeat_log_step(replica);
        },
        Event::Control { replica: _, command } => {
            lemma_control_log_step(replica, command);
        },
    }
}

/// A prefix of a log matches whatever the log matches.
pub proof fn lemma_prefix_matches(log: Seq<Log>, len: int, other: Seq<Log>)
    requires
        0 <= len <= log.len(),
        matching(log, other),
        matching(other, log),
    ensures
        matching(log.take(len), other),
        matching(other, log.take(len)),
{
    let prefix = log.take(len);
    assert forall|k: int|
        0 <= k < prefix.len() && k < other.len() && (#[trigger] prefix[k]).term == (
        #[trigger] other[k]).term implies prefix.take(k + 1) == other.take(k + 1) by {
        assert(log[k].term == other[k].term);
        assert(log.take(k + 1) == other.take(k + 1));
        assert(prefix.take(k + 1) =~= log.take(k + 1));
    }
    assert forall|k: int|
        0 <= k < other.len() && k < prefix.len() && (#[trigger] other[k]).term == (
        #[trigger] prefix[k]).term implies other.take(k + 1) == prefix.take(k + 1) by {
        assert(log[k].term == other[k].term);
        assert(other.take(k + 1) == log.take(k + 1));
        assert(prefix.take(k + 1) =~= log.take(k + 1));
    }
}

/// A log that matches at place `k` agrees in every entry up to `k`.
pub proof fn lemma_matching_entries(x: Seq<Log>, y: Seq<Log>, k: int, j: int)
    requires
        matching(x, y),
        0 <= j <= k,
        k < x.len(),
        k < y.len(),
        x[k].term == y[k].term,
    ensures
        x[j] == y[j],
{
    assert(x.take(k + 1) == y.take(k + 1));
    assert(x.take(k + 1)[j] == x[j]);
    assert(y.take(k + 1)[j] == y[j]);
}

/// Merging into a log the batch of an append request that is an excerpt of
/// a matching log gives the log itself, or a prefix of the other.
pub proof fn lemma_merge_is_prefix(
    log: Seq<Log>,
    source: Seq<Log>,
    prev_log_index: usize,
    prev_log_term: usize,
    entries: Seq<Log>,
)
    requires
        matching(log, source),
        prev_matches(log, prev_log_index, prev_log_term),
        prev_log_index + entries.len() <= source.len(),
        prev_log_index > 0 ==> source[prev_log_index - 1].term == prev_log_term,
        source.subrange(prev_log_index as int, prev_log_index + entries.len()) == entries,
    ensures
        merge(log, prev_log_index, entries) == log || merge(log, prev_log_index, entries)
            == source.take(prev_log_index + entries.len()),
        merge(log, prev_log_index, entries).len() >= prev_log_index + entries.len(),
        merge(log, prev_log_index, entries).take(prev_log_index + entries.len()) == source.take(
            prev_log_index + entries.len(),
        ),
{
    lemma_first_conflict(log, prev_log_index, entries, 0);
    let j = first_conflict(log, prev_log_index, entries);
    let end = prev_log_index + entries.len();
    if j >= entries.len() {
        if entries.len() > 0 {
            assert(agrees_at(log, prev_log_index, entries, entries.len() - 1));
            assert(source.subrange(prev_log_index as int, end)[entries.len() - 1] == source[end
                - 1]);
        }
        if end > 0 {
            assert(log[end - 1].term == source[end - 1].term);
            assert(log.take(end) == source.take(end));
        } else {
            assert(log.take(end) =~= source.take(end));
        }
    } else {
        assert(source.take(end).take(end) =~= source.take(end));
    }
    if j < entries.len() {
        let cut = prev_log_index + j;
        assert forall|k: int| 0 <= k < entries.len() implies entries[k] == source[prev_log_index
            + k] by {
            assert(source.subrange(prev_log_index as int, prev_log_index + entries.len())[k]
                == source[prev_log_index + k]);
        }
        if j > 0 {
            assert(agrees_at(log, prev_log_index, entries, j - 1));
        }
        assert(cut <= log.len());
        if cut > 0 {
            assert(log[cut - 1].term == source[cut - 1].term);
            assert(log.take(cut) == source.take(cut));
        }
        assert(log.take(cut) =~= source.take(cut));
        assert(merge(log, prev_log_index, entries) =~= source.take(
            prev_log_index + entries.len(),
        ));
    }
}

/// The winner on record for a term is the only replica that can hold a
/// strict majority of that term's votes.
pub proof fn lemma_winner_is_unique(cluster: Cluster, term: usize, winner: Winner, b: int)
    requires
        election_inv(cluster),
        winner_sound(cluster, term, winner),
        0 <= b < cluster.replicas.len(),
        standing(cluster.replicas[b]),
        cluster.replicas[b].current_term == term,
        is_majority(count_true(cluster.replicas[b].votes), cluster.replicas.len() as usize),
    ensures
        winner.id == b,
{
    let rb = cluster.replicas[b];
    assert(rb.wf());
    assert(stands_on_votes(rb));
    lemma_majorities_meet(winner.votes, rb.votes);
    let v = choose|v: int| 0 <= v < winner.votes.len() && #[trigger] winner.votes[v] && rb.votes[v];
    if winner.id != b {
        if v == b {
            assert(cluster.network.contains(vote_envelope(b as usize, term, winner.id)));
        } else {
            assert(cluster.replicas[b].votes[v]);
            assert(cluster.network.contains(vote_envelope(v as usize, term, b as usize)));
            if v != winner.id {
                assert(cluster.network.contains(vote_envelope(v as usize, term, winner.id)));
            }
        }
    }
}
/// The log that the event's replica holds after the event matches every log
/// on record.
#[verifier::rlimit(60)]
pub proof fn lemma_new_log_matches(cluster: Cluster, history: History, event: Event, x: Seq<Log>)
    requires
        log_inv(cluster, history),
        cluster.enabled(event),
        history.logs.contains(x),
    ensures
        matching(cluster.reaction(event).replica.log, x),
        matching(x, cluster.reaction(event).replica.log),
{
    let a = event.actor() as int;
    let replica = cluster.replicas[a];
    let old_log = replica.log;
    let new_log = cluster.reaction(event).replica.log;
    let next = cluster.reaction(event).replica;
    lemma_reaction_log_step(cluster, event);
    assert(history.logs.contains(old_log));
    assert(matching(old_log, x) && matching(x, old_log));
    if new_log == old_log {
    } else if replica.state == State::Leader && next.state == State::Leader
        && new_log.drop_last() == old_log && new_log.len() == old_log.len() + 1 {
        assert(holds_term_of(old_log, replica.current_term, x));
        assert forall|k: int|
            0 <= k < new_log.len() && k < x.len() && (#[trigger] new_log[k]).term == (
            #[trigger] x[k]).term implies new_log.take(k + 1) == x.take(k + 1) by {
            if k < old_log.len() {
                assert(new_log[k] == old_log[k]);
                assert(old_log.take(k + 1) == x.take(k + 1));
                assert(new_log.take(k + 1) =~= old_log.take(k + 1));
            }
        }
        assert forall|k: int|
            0 <= k < x.len() && k < new_log.len() && (#[trigger] x[k]).term == (
            #[trigger] new_log[k]).term implies x.take(k + 1) == new_log.take(k + 1) by {
            if k < old_log.len() {
                assert(new_log[k] == old_log[k]);
                assert(x.take(k + 1) == old_log.take(k + 1));
                assert(new_log.take(k + 1) =~= old_log.take(k + 1));
            }
        }
    } else {
        let envelope = event.delivered()->0;
        assert(cluster.network.contains(envelope));
        let source = choose|log: Seq<Log>| #[trigger]
            history.logs.contains(log) && covers(log, envelope);
        match envelope.msg {
            MessageView::AppendEntryRequest {
                from_id,
                term,
                prev_log_index,
                prev_log_term,
                entries,
                commit_index,
            } => {
                assert(matching(old_log, source));
                lemma_merge_is_prefix(old_log, source, prev_log_index, prev_log_term, entries);
                assert(matching(source, x) && matching(x, source));
                lemma_prefix_matches(source, prev_log_index + entries.len(), x);
            },
            _ => {},
        }
    }
}

/// Every entry of the log that the event's replica holds after the event is
/// of a term that was won, and every other Leader holds the entries of its
/// own term that the log holds.
#[verifier::rlimit(60)]
pub proof fn lemma_new_log_terms(cluster: Cluster, history: History, event: Event)
    requires
        log_inv(cluster, history),
        cluster.enabled(event),
    ensures
        forall|k: int|
            0 <= k < cluster.reaction(event).replica.log.len() ==> history.winners.dom().contains(
                (#[trigger] cluster.reaction(event).replica.log[k]).term,
            ),
        forall|i: int|
            0 <= i < cluster.replicas.len() && i != event.actor() && (
            #[trigger] cluster.replicas[i]).state == State::Leader ==> holds_term_of(
                cluster.replicas[i].log,
                cluster.replicas[i].current_term,
                cluster.reaction(event).replica.log,
            ),
{
    let a = event.actor() as int;
    let replica = cluster.replicas[a];
    let old_log = replica.log;
    let next = cluster.reaction(event).replica;
    let new_log = next.log;
    lemma_reaction_log_step(cluster, event);
    assert(history.logs.contains(old_log));
    if new_log == old_log {
        assert forall|i: int|
            0 <= i < cluster.replicas.len() && i != event.actor() && (
            #[trigger] cluster.replicas[i]).state == State::Leader implies holds_term_of(
            cluster.replicas[i].log,
            cluster.replicas[i].current_term,
            new_log,
        ) by {}
    } else if replica.state == State::Leader && next.state == State::Leader
        && new_log.drop_last() == old_log && new_log.len() == old_log.len() + 1
        && new_log.last().term == replica.current_term {
        assert forall|k: int| 0 <= k < new_log.len() implies history.winners.dom().contains(
            (#[trigger] new_log[k]).term,
        ) by {
            if k < old_log.len() {
                assert(new_log[k] == old_log[k]);
            }
        }
        assert forall|i: int|
            0 <= i < cluster.replicas.len() && i != event.actor() && (
            #[trigger] cluster.replicas[i]).state == State::Leader implies holds_term_of(
            cluster.replicas[i].log,
            cluster.replicas[i].current_term,
            new_log,
        ) by {
            let leader = cluster.replicas[i];
            assert(holds_term_of(leader.log, leader.current_term, old_log));
            assert forall|k: int|
                0 <= k < new_log.len() && (#[trigger] new_log[k]).term
                    == leader.current_term implies k < leader.log.len() && leader.log[k].term
                == leader.current_term by {
                if k < old_log.len() {
                    assert(new_log[k] == old_log[k]);
                }
            }
        }
    } else {
        let envelope = event.delivered()->0;
        assert(cluster.network.contains(envelope));
        let source = choose|log: Seq<Log>| #[trigger]
            history.logs.contains(log) && covers(log, envelope);
        match envelope.msg {
            MessageView::AppendEntryRequest {
                from_id,
                term,
                prev_log_index,
                prev_log_term,
                entries,
                commit_index,
            } => {
                assert(matching(old_log, source));
                lemma_merge_is_prefix(old_log, source, prev_log_index, prev_log_term, entries);
                if new_log != old_log {
                    assert forall|k: int| 0 <= k < new_log.len() implies #[trigger] new_log[k]
                        == source[k] by {}
                    assert forall|i: int|
                        0 <= i < cluster.replicas.len() && i != event.actor() && (
                        #[trigger] cluster.replicas[i]).state == State::Leader implies holds_term_of(
                        cluster.replicas[i].log,
                        cluster.replicas[i].current_term,
                        new_log,
                    ) by {
                        let leader = cluster.replicas[i];
                        assert(holds_term_of(leader.log, leader.current_term, source));
                        assert forall|k: int|
                            0 <= k < new_log.len() && (#[trigger] new_log[k]).term
                                == leader.current_term implies k < leader.log.len()
                            && leader.log[k].term == leader.current_term by {
                            assert(new_log[k] == source[k]);
                        }
                    }
                }
            },
            _ => {},
        }
    }
}

/// A winner on record stays sound through every event.
#[verifier::rlimit(60)]
pub proof fn lemma_winner_stays_sound(
    cluster: Cluster,
    history: History,
    event: Event,
    term: usize,
)
    requires
        log_inv(cluster, history),
        cluster.enabled(event),
        history.winners.dom().contains(term),
    ensures
        winner_sound(cluster.after(event), term, history.winners[term]),
{
    let a = event.actor() as int;
    let replica = cluster.replicas[a];
    let step = cluster.reaction(event);
    let next = cluster.after(event);
    let winner = history.winners[term];
    lemma_reaction_sound(cluster, event);
    lemma_reaction_log_step(cluster, event);
    assert(winner_sound(cluster, term, winner));
    if winner.id != a {
        assert(next.replicas[winner.id as int] == cluster.replicas[winner.id as int]);
    }
    assert forall|other: usize| #[trigger]
        next.network.contains(vote_envelope(winner.id, term, other)) implies other
        == winner.id by {
        let vote = vote_envelope(winner.id, term, other);
        if !cluster.network.contains(vote) {
            assert(step.outbox.to_set().contains(vote));
            let k = choose|k: int| 0 <= k < step.outbox.len() && step.outbox[k] == vote;
            assert(crate::election::is_vote(step.outbox[k]));
        }
    }
}

/// A replica that takes office does so in a term that no one has won
/// before, and is a sound winner of it.
#[verifier::rlimit(60)]
pub proof fn lemma_new_winner(cluster: Cluster, history: History, event: Event)
    requires
        log_inv(cluster, history),
        cluster.enabled(event),
        newly_elected(cluster.replicas[event.actor() as int], cluster.reaction(event).replica),
    ensures
        !history.winners.dom().contains(cluster.reaction(event).replica.current_term),
        winner_sound(
            cluster.after(event),
            cluster.reaction(event).replica.current_term,
            Winner {
                id: cluster.reaction(event).replica.id,
                votes: cluster.reaction(event).replica.votes,
                log: cluster.reaction(event).replica.log,
            },
        ),
{
    let a = event.actor() as int;
    let replica = cluster.replicas[a];
    let step = cluster.reaction(event);
    let elected = step.replica;
    let term = elected.current_term;
    let next = cluster.after(event);
    lemma_reaction_sound(cluster, event);
    lemma_reaction_log_step(cluster, event);
    lemma_event_keeps_inv(cluster, event);
    assert(next.replicas[a] == elected);
    assert(stands_on_votes(next.replicas[a]));
    assert(elected.wf());
    if history.winners.dom().contains(term) {
        lemma_winner_stays_sound(cluster, history, event, term);
        lemma_winner_is_unique(next, term, history.winners[term], a);
        assert(winner_sound(cluster, term, history.winners[term]));
        assert(false);
    }
    let winner = Winner { id: elected.id, votes: elected.votes, log: elected.log };
    assert forall|v: int|
        0 <= v < next.replicas.len() && #[trigger] winner.votes[v] && v
            != winner.id implies next.network.contains(
        vote_envelope(v as usize, term, winner.id),
    ) by {
        assert(next.replicas[a].votes[v]);
    }
    assert forall|other: usize| #[trigger]
        next.network.contains(vote_envelope(winner.id, term, other)) implies other
        == winner.id by {}
}

/// Every event keeps the invariant, with the record brought up to date.
#[verifier::rlimit(60)]
pub proof fn lemma_event_keeps_log_inv(cluster: Cluster, history: History, event: Event)
    requires
        log_inv(cluster, history),
        cluster.enabled(event),
    ensures
        log_inv(cluster.after(event), record(history, cluster, event)),
{
    let a = event.actor() as int;
    let replica = cluster.replicas[a];
    let step = cluster.reaction(event);
    let next = cluster.after(event);
    let after = record(history, cluster, event);
    let new_log = step.replica.log;
    lemma_event_keeps_inv(cluster, event);
    lemma_reaction_sound(cluster, event);
    lemma_reaction_log_step(cluster, event);
    lemma_new_log_terms(cluster, history, event);
    if newly_elected(replica, step.replica) {
        lemma_new_winner(cluster, history, event);
    }
    assert(next.replicas[a] == step.replica);
    assert forall|i: int| 0 <= i < next.replicas.len() implies after.logs.contains(
        (#[trigger] next.replicas[i]).log,
    ) by {
        if i != a {
            assert(next.replicas[i] == cluster.replicas[i]);
        }
    }
    assert forall|x: Seq<Log>, y: Seq<Log>|
        #[trigger] after.logs.contains(x) && #[trigger] after.logs.contains(y) implies matching(
        x,
        y,
    ) by {
        if history.logs.contains(x) && history.logs.contains(y) {
        } else if history.logs.contains(x) {
            lemma_new_log_matches(cluster, history, event, x);
        } else if history.logs.contains(y) {
            lemma_new_log_matches(cluster, history, event, y);
        }
    }
    assert forall|envelope: Envelope| #[trigger] next.network.contains(envelope) implies exists|
        log: Seq<Log>,
    | #[trigger] after.logs.contains(log) && covers(log, envelope) by {
        if cluster.network.contains(envelope) {
            let log = choose|log: Seq<Log>| #[trigger]
                history.logs.contains(log) && covers(log, envelope);
            assert(after.logs.contains(log) && covers(log, envelope));
        } else {
            assert(step.outbox.to_set().contains(envelope));
            let k = choose|k: int| 0 <= k < step.outbox.len() && step.outbox[k] == envelope;
            assert(covers(new_log, step.outbox[k]));
            assert(after.logs.contains(new_log) && covers(new_log, envelope));
        }
    }
    assert forall|x: Seq<Log>, k: int|
        #[trigger] after.logs.contains(x) && 0 <= k < x.len() implies after.winners.dom().contains(
        (#[trigger] x[k]).term,
    ) by {
        if history.logs.contains(x) {
            assert(history.winners.dom().contains(x[k].term));
        }
    }
    assert forall|term: usize| #[trigger] after.winners.dom().contains(term) implies winner_sound(
        next,
        term,
        after.winners[term],
    ) by {
        if history.winners.dom().contains(term) {
            lemma_winner_stays_sound(cluster, history, event, term);
        }
    }
    assert forall|i: int|
        0 <= i < next.replicas.len() && (#[trigger] next.replicas[i]).state
            == State::Leader implies after.winners.dom().contains(next.replicas[i].current_term)
        && after.winners[next.replicas[i].current_term].id == i by {
        if i != a {
            assert(next.replicas[i] == cluster.replicas[i]);
            assert(history.winners.dom().contains(cluster.replicas[i].current_term));
        }
    }
    assert forall|i: int, x: Seq<Log>|
        0 <= i < next.replicas.len() && (#[trigger] next.replicas[i]).state == State::Leader
            && #[trigger] after.logs.contains(x) implies holds_term_of(
        next.replicas[i].log,
        next.replicas[i].current_term,
        x,
    ) by {
        if i != a {
            assert(next.replicas[i] == cluster.replicas[i]);
            if history.logs.contains(x) {
            } else {
                assert(x == new_log);
            }
        } else {
            let leader = step.replica;
            if newly_elected(replica, leader) {
                assert(history.logs.contains(replica.log));
                assert(history.logs.contains(x));
                assert forall|k: int|
                    0 <= k < x.len() && (#[trigger] x[k]).term
                        == leader.current_term implies k < leader.log.len() && leader.log[k].term
                    == leader.current_term by {
                    assert(history.winners.dom().contains(x[k].term));
                }
            } else {
                assert(holds_term_of(replica.log, replica.current_term, replica.log));
                if history.logs.contains(x) {
                    assert(holds_term_of(replica.log, replica.current_term, x));
                    assert forall|k: int|
                        0 <= k < x.len() && (#[trigger] x[k]).term
                            == leader.current_term implies k < leader.log.len()
                        && leader.log[k].term == leader.current_term by {
                        if leader.log != replica.log {
                            assert(leader.log.drop_last() == replica.log);
                            assert(leader.log[k] == replica.log[k]);
                        }
                    }
                }
            }
        }
    }
}

/// A new cluster satisfies the invariant, with a blank record.
pub proof fn lemma_initial_log_inv(size: usize)
    ensures
        log_inv(Cluster::initial(size), blank()),
{
    lemma_initial_inv(size);
    let cluster = Cluster::initial(size);
    assert forall|i: int| 0 <= i < cluster.replicas.len() implies blank().logs.contains(
        (#[trigger] cluster.replicas[i]).log,
    ) by {
        assert(cluster.replicas[i].log =~= Seq::<Log>::empty());
    }
}

/// Every state of a run satisfies the invariant, with some record.
pub proof fn lemma_run_keeps_log_inv(trace: Seq<Cluster>, size: usize, k: int) -> (history:
    History)
    requires
        is_run(trace, size),
        0 <= k < trace.len(),
    ensures
        log_inv(trace[k], history),
    decreases k,
{
    reveal(is_run);
    if k == 0 {
        lemma_initial_log_inv(size);
        blank()
    } else {
        let before = lemma_run_keeps_log_inv(trace, size, k - 1);
        assert(trace[k - 1].steps_to(trace[k]));
        let event = choose|event: Event| #[trigger]
            trace[k - 1].enabled(event) && trace[k] == trace[k - 1].after(event);
        lemma_event_keeps_log_inv(trace[k - 1], before, event);
        record(before, trace[k - 1], event)
    }
}

/// Log matching. In a reachable state of the cluster, if the logs of two
/// replicas hold an entry with the same index and the same term, the two
/// entries stand at the same place and the logs are identical up to and
/// including them.
#[verifier::rlimit(60)]
pub proof fn log_matching(cluster: Cluster, i: int, j: int, p: int, q: int)
    requires
        reachable(cluster),
        0 <= i < cluster.replicas.len(),
        0 <= j < cluster.replicas.len(),
        0 <= p < cluster.replicas[i].log.len(),
        0 <= q < cluster.replicas[j].log.len(),
        cluster.replicas[i].log[p].index == cluster.replicas[j].log[q].index,
        cluster.replicas[i].log[p].term == cluster.replicas[j].log[q].term,
    ensures
        p == q,
        cluster.replicas[i].log.take(p + 1) == cluster.replicas[j].log.take(p + 1),
{
    reveal(is_run);
    let (trace, size) = choose|trace: Seq<Cluster>, size: usize| #[trigger]
        is_run(trace, size) && trace.last() == cluster;
    let history = lemma_run_keeps_log_inv(trace, size, trace.len() - 1);
    assert(cluster.replicas[i].wf() && cluster.replicas[j].wf());
    assert(history.logs.contains(cluster.replicas[i].log));
    assert(history.logs.contains(cluster.replicas[j].log));
    assert(matching(cluster.replicas[i].log, cluster.replicas[j].log));
}

} // verus!
