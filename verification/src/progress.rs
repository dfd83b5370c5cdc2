//! What every step of a replica keeps, as far as commitment goes: how the
//! commit index and the match indexes can move, and what each message sent
//! says of the state it was sent from.

use crate::election::vote_envelope;
use crate::log_store::{first_conflict, last_log_term, lemma_merge, merge, prev_matches, up_to_date};
use crate::matching::{covers, holds, lemma_append_requests_covered, newly_elected};
use crate::model::{count_true, is_majority, lemma_merged_wf, lemma_on_message_wf, lemma_quorum_index_is_greatest, ReplicaView, Step};
use crate::types::{ControlMessage, Envelope, MessageView, State};
use vstd::prelude::*;

verus! {

/// The delivered envelope is an append request of the term that the replica
/// is in after the step, and the replica has taken its batch in.
pub open spec fn accepted(replica: ReplicaView, delivered: Option<Envelope>, next: ReplicaView) -> bool {
    &&& delivered matches Some(envelope)
    &&& envelope.msg matches MessageView::AppendEntryRequest {
        term,
        prev_log_index,
        prev_log_term,
        entries,
        ..
    }
    &&& term == next.current_term
    &&& term >= replica.current_term
    &&& prev_matches(replica.log, prev_log_index, prev_log_term)
    &&& next.log == merge(replica.log, prev_log_index, entries)
    &&& next.log.len() >= prev_log_index + entries.len()
    &&& next.state == State::Follower
}

/// The commit index stands where a Leader may put it: on an entry of the
/// Leader's own term that a strict majority holds.
pub open spec fn quorum_commit(replica: ReplicaView, next: ReplicaView) -> bool {
    &&& replica.state == State::Leader
    &&& next.state == State::Leader
    &&& next.current_term == replica.current_term
    &&& holds(next.log, next.current_term, next.commit_index - 1)
    &&& is_majority(count_true(next.holders(next.commit_index as int)), next.cluster_size)
}

/// The commit index stands where the accepted append request allows: not
/// beyond the sender's commit index, nor beyond the end of the batch.
pub open spec fn follower_commit(
    replica: ReplicaView,
    delivered: Option<Envelope>,
    next: ReplicaView,
) -> bool {
    &&& accepted(replica, delivered, next)
    &&& delivered matches Some(envelope)
    &&& envelope.msg matches MessageView::AppendEntryRequest {
        prev_log_index,
        entries,
        commit_index,
        ..
    }
    &&& next.commit_index <= commit_index
    &&& next.commit_index <= prev_log_index + entries.len()
}

/// The match index of replica `p` is as before, or was raised on the word
/// of a success response from `p` of the Leader's term, and not beyond what
/// the response reports or the Leader holds.
pub open spec fn match_moved(
    replica: ReplicaView,
    delivered: Option<Envelope>,
    next: ReplicaView,
    p: int,
) -> bool {
    ||| next.match_index[p] == replica.match_index[p]
    ||| {
        &&& delivered matches Some(envelope)
        &&& envelope.msg matches MessageView::AppendEntryResponse {
            from_id,
            term,
            success,
            last_index,
        }
        &&& from_id == p
        &&& p != replica.id
        &&& success
        &&& term == next.current_term
        &&& next.match_index[p] <= last_index
        &&& next.match_index[p] <= next.log.len()
    }
}

/// What a message says of the step that sent it.
pub open spec fn sent_in_order(
    replica: ReplicaView,
    delivered: Option<Envelope>,
    next: ReplicaView,
    sent: Envelope,
) -> bool {
    match sent.msg {
        MessageView::AppendEntryResponse { from_id, term, success, last_index } => {
            &&& from_id == replica.id
            &&& success ==> {
                &&& term == next.current_term
                &&& accepted(replica, delivered, next)
                &&& delivered matches Some(envelope)
                &&& envelope.msg matches MessageView::AppendEntryRequest {
                    prev_log_index,
                    entries,
                    ..
                }
                &&& last_index == prev_log_index + entries.len()
            }
        },
        MessageView::RequestVoteResponse { from_id, term, vote_granted } => {
            &&& from_id == replica.id
            &&& vote_granted ==> {
                &&& delivered matches Some(envelope)
                &&& envelope.msg matches MessageView::RequestVoteRequest {
                    from_id: candidate,
                    term: asked,
                    last_log_index,
                    last_log_term,
                }
                &&& sent == vote_envelope(replica.id, asked, candidate)
                &&& next.current_term == asked
                &&& next.log == replica.log
                &&& up_to_date(last_log_term, last_log_index, replica.log)
            }
        },
        MessageView::RequestVoteRequest { from_id, term, last_log_index, last_log_term } => {
            &&& from_id == replica.id
            &&& next.state == State::Candidate
            &&& term == next.current_term
            &&& last_log_index == next.log.len()
            &&& last_log_term == crate::log_store::last_log_term(next.log)
        },
        MessageView::AppendEntryRequest { from_id, term, entries, commit_index, .. } => {
            &&& from_id == replica.id
            &&& next.state == State::Leader
            &&& term == next.current_term
            &&& commit_index == next.commit_index
            &&& covers(next.log, sent)
        },
    }
}

/// What every step of a replica keeps, as far as commitment goes.
pub open spec fn commit_step(replica: ReplicaView, delivered: Option<Envelope>, step: Step) -> bool {
    let next = step.replica;
    &&& next.log.len() >= replica.commit_index
    &&& next.log.take(replica.commit_index as int) == replica.log.take(
        replica.commit_index as int,
    )
    &&& next.commit_index >= replica.commit_index
    &&& next.commit_index > replica.commit_index ==> quorum_commit(replica, next)
        || follower_commit(replica, delivered, next)
    &&& next.state == State::Leader ==> forall|p: int|
        0 <= p < replica.cluster_size ==> if newly_elected(replica, next) {
            #[trigger] next.match_index[p] == 0
        } else {
            match_moved(replica, delivered, next, p)
        }
    &&& forall|k: int|
        0 <= k < step.outbox.len() ==> sent_in_order(
            replica,
            delivered,
            next,
            #[trigger] step.outbox[k],
        )
}

/// The append requests of a well-formed leader are in order.
pub proof fn lemma_append_requests_in_order(
    replica: ReplicaView,
    delivered: Option<Envelope>,
    leader: ReplicaView,
)
    requires
        leader.wf(),
        leader.state == State::Leader,
        leader.id == replica.id,
    ensures
        forall|k: int|
            0 <= k < leader.append_requests().len() ==> sent_in_order(
                replica,
                delivered,
                leader,
                #[trigger] leader.append_requests()[k],
            ),
{
    lemma_append_requests_covered(leader);
    let outbox = leader.append_requests();
    assert forall|k: int| 0 <= k < outbox.len() implies sent_in_order(
        replica,
        delivered,
        leader,
        #[trigger] outbox[k],
    ) by {
        let to = crate::model::others(leader.id, leader.cluster_size)[k];
        assert(outbox[k] == leader.append_request_to(to));
        assert(covers(leader.log, outbox[k]));
    }
}

/// Committing what a majority holds is a move that a Leader may make.
pub proof fn lemma_quorum_commit(leader: ReplicaView)
    requires
        leader.wf(),
        leader.state == State::Leader,
    ensures
        leader.commit_to(leader.quorum_index()).wf(),
        leader.commit_to(leader.quorum_index()).commit_index >= leader.commit_index,
        leader.commit_to(leader.quorum_index()).commit_index > leader.commit_index
            ==> quorum_commit(leader, leader.commit_to(leader.quorum_index())),
{
    lemma_quorum_index_is_greatest(leader, 0);
    let target = leader.quorum_index();
    let next = leader.commit_to(target);
    if next.commit_index > leader.commit_index {
        assert(leader.committable(target));
        assert(next.holders(target) =~= leader.holders(target));
    }
}

/// Every reaction to a message is a step in order.
#[verifier::rlimit(60)]
pub proof fn lemma_message_commit_step(replica: ReplicaView, envelope: Envelope)
    requires
        replica.wf(),
    ensures
        commit_step(replica, Some(envelope), replica.on_message(envelope.msg)),
{
    let step = replica.on_message(envelope.msg);
    let next = step.replica;
    lemma_on_message_wf(replica, envelope.msg);
    if replica.active() {
        match envelope.msg {
            MessageView::RequestVoteResponse { from_id, term, vote_granted } => {
                if term <= replica.current_term && replica.state == State::Candidate && term
                    == replica.current_term && vote_granted && from_id < replica.cluster_size {
                    let counted = ReplicaView {
                        votes: replica.votes.update(from_id as int, true),
                        ..replica
                    };
                    if is_majority(count_true(counted.votes), counted.cluster_size) {
                        lemma_append_requests_in_order(
                            replica,
                            Some(envelope),
                            counted.become_leader(),
                        );
                    }
                }
            },
            MessageView::AppendEntryRequest {
                from_id,
                term,
                prev_log_index,
                prev_log_term,
                entries,
                commit_index,
            } => {
                if term >= replica.current_term {
                    let follower = ReplicaView {
                        state: State::Follower,
                        ..replica.observe_term(term)
                    };
                    if follower.accepts(prev_log_index, prev_log_term, entries) {
                        lemma_merged_wf(follower, prev_log_index, prev_log_term, entries);
                        lemma_merge(follower.log, prev_log_index, entries);
                        let j = first_conflict(follower.log, prev_log_index, entries);
                        let merged = merge(follower.log, prev_log_index, entries);
                        if j < entries.len() {
                            crate::model::lemma_take_of_equal_takes(
                                merged,
                                follower.log,
                                replica.commit_index as int,
                                prev_log_index + j,
                            );
                        }
                        assert(accepted(replica, Some(envelope), next));
                    }
                }
            },
            MessageView::AppendEntryResponse { from_id, term, success, last_index } => {
                if term <= replica.current_term && replica.state == State::Leader && term
                    == replica.current_term && from_id < replica.cluster_size && from_id
                    != replica.id && success {
                    let held = if last_index < replica.log.len() {
                        last_index
                    } else {
                        replica.log.len() as usize
                    };
                    let matched = if replica.match_index[from_id as int] < held {
                        held
                    } else {
                        replica.match_index[from_id as int]
                    };
                    let noted = ReplicaView {
                        match_index: replica.match_index.update(from_id as int, matched),
                        next_index: replica.next_index.update(
                            from_id as int,
                            (matched + 1) as usize,
                        ),
                        ..replica
                    };
                    assert(noted.wf());
                    lemma_quorum_commit(noted);
                    assert(next == noted.commit_to(noted.quorum_index()));
                    assert forall|p: int| 0 <= p < replica.cluster_size implies match_moved(
                        replica,
                        Some(envelope),
                        next,
                        p,
                    ) by {}
                }
            },
            MessageView::RequestVoteRequest { from_id, term, last_log_index, last_log_term } => {
                let seen = replica.observe_term(term);
                if seen.grants(from_id, term, last_log_index, last_log_term) {
                    assert(step.outbox[0] =~= vote_envelope(replica.id, term, from_id));
                }
            },
        }
    }
}

/// The reaction to the election timer is a step in order.
pub proof fn lemma_timeout_commit_step(replica: ReplicaView)
    requires
        replica.wf(),
    ensures
        commit_step(replica, None, replica.on_timeout()),
{
    if replica.state != State::Dead && replica.state != State::Leader && replica.current_term
        != usize::MAX {
        let candidate = ReplicaView {
            state: State::Candidate,
            current_term: (replica.current_term + 1) as usize,
            voted_for: Some(replica.id),
            votes: Seq::new(replica.cluster_size as nat, |p: int| p == replica.id),
            ..replica
        };
        if is_majority(count_true(candidate.votes), candidate.cluster_size) {
            lemma_append_requests_in_order(replica, None, candidate.become_leader());
        }
    }
}

/// The reaction to the heartbeat tick is a step in order.
pub proof fn lemma_heartbeat_commit_step(replica: ReplicaView)
    requires
        replica.wf(),
    ensures
        commit_step(replica, None, replica.on_heartbeat()),
{
    if replica.state == State::Leader {
        lemma_quorum_commit(replica);
        let next = replica.commit_to(replica.quorum_index());
        lemma_append_requests_in_order(replica, None, next);
        assert forall|p: int| 0 <= p < replica.cluster_size implies match_moved(
            replica,
            None,
            next,
            p,
        ) by {}
    }
}

/// The reaction to a command is a step in order.
pub proof fn lemma_control_commit_step(replica: ReplicaView, command: ControlMessage)
    requires
        replica.wf(),
    ensures
        commit_step(replica, None, replica.on_control(command)),
{
    let next = replica.on_control(command).replica;
    match command {
        ControlMessage::Apply(delta) => {
            assert(next.log.take(replica.commit_index as int) =~= replica.log.take(
                replica.commit_index as int,
            ));
        },
        _ => {},
    }
    if next.state == State::Leader {
        assert forall|p: int| 0 <= p < replica.cluster_size implies match_moved(
            replica,
            None,
            next,
            p,
        ) by {}
    }
}

} // verus!
