//! How one event changes the record of a run, and why it keeps those parts
//! of the invariant of leader completeness that speak of the shape of logs
//! and of requests for votes.

use crate::cluster::{Cluster, Event};
use crate::completeness::{acks_sound, anchor, below, bounded, runs, sits_on, chosen, dead, entries_on_top, extends_with, fixed, held_by_all, is_quorum, leader_logs_sound, leaders_logged, logs_sorted, own_acked, request_led, request_true, requests_led, requests_true, shunned_by_all, sorted, terms_bounded, terms_in_runs, votes_asked, winners_logged};
use crate::election::{lemma_reaction_sound, sound_step, vote_envelope};
use crate::matching::{covers, holds, holds_term_of, leaders_complete, logs_known, logs_match, terms_won, lemma_event_keeps_log_inv, lemma_merge_is_prefix, lemma_new_winner, lemma_reaction_log_step, log_inv, log_step, matching, newly_elected, record, same_race_or_later, History, Winner};
use crate::model::ReplicaView;
use crate::progress::{accepted, commit_step, lemma_control_commit_step, lemma_heartbeat_commit_step, lemma_message_commit_step, lemma_timeout_commit_step, sent_in_order};
use crate::types::{Envelope, Log, MessageView, State};
use vstd::prelude::*;

verus! {

/// The step of any enabled event is in order as far as commitment goes.
pub proof fn lemma_reaction_commit_step(cluster: Cluster, event: Event)
    requires
        cluster.wf(),
        cluster.enabled(event),
    ensures
        commit_step(
            cluster.replicas[event.actor() as int],
            event.delivered(),
            cluster.reaction(event),
        ),
{
    let replica = cluster.replicas[event.actor() as int];
    assert(replica.wf());
    match event {
        Event::Deliver { envelope } => {
            lemma_message_commit_step(replica, envelope);
        },
        Event::Timeout { replica: _ } => {
            lemma_timeout_commit_step(replica);
        },
        Event::Heartbeat { replica: _ } => {
            lemma_heartbeat_commit_step(replica);
        },
        Event::Control { replica: _, command } => {
            lemma_control_commit_step(replica, command);
        },
    }
}

/// The record after an event holds all that it held before, and beyond that
/// only what the event's replica brought.
pub open spec fn record_grown(cluster: Cluster, history: History, event: Event) -> bool {
    let replica = cluster.replicas[event.actor() as int];
    let step = cluster.reaction(event);
    let next = cluster.after(event);
    let after = record(history, cluster, event);
    &&& next.replicas.len() == cluster.replicas.len()
    &&& next.replicas[event.actor() as int] == step.replica
    &&& step.replica.id == event.actor()
    &&& forall|i: int|
        0 <= i < cluster.replicas.len() && i != event.actor() ==> #[trigger] next.replicas[i]
            == cluster.replicas[i]
    &&& forall|envelope: Envelope| #[trigger]
        next.network.contains(envelope) <==> cluster.network.contains(envelope)
            || step.outbox.contains(envelope)
    &&& forall|log: Seq<Log>| #[trigger]
        after.logs.contains(log) <==> history.logs.contains(log) || log == step.replica.log
    &&& forall|w: usize, term: usize, k: int| #[trigger]
        after.acked.contains((w, term, k)) <==> history.acked.contains((w, term, k)) || (w
            == step.replica.id && term == step.replica.current_term && holds(
            step.replica.log,
            term,
            k,
        ))
    &&& forall|term: usize, log: Seq<Log>| #[trigger]
        after.leader_logs.contains((term, log)) <==> history.leader_logs.contains((term, log)) || (
        step.replica.state == State::Leader && term == step.replica.current_term && log
            == step.replica.log)
    &&& forall|won: usize| #[trigger]
        history.winners.dom().contains(won) ==> after.winners.dom().contains(won)
            && after.winners[won] == history.winners[won]
    &&& forall|won: usize| #[trigger]
        after.winners.dom().contains(won) ==> history.winners.dom().contains(won) || (
        newly_elected(replica, step.replica) && won == step.replica.current_term)
    &&& newly_elected(replica, step.replica) ==> {
        &&& !history.winners.dom().contains(step.replica.current_term)
        &&& after.winners.dom().contains(step.replica.current_term)
        &&& after.winners[step.replica.current_term] == Winner {
            id: step.replica.id,
            votes: step.replica.votes,
            log: step.replica.log,
        }
    }
}

/// All that the proofs of upkeep start from: the event is enabled, its step
/// is in order in every respect, and the record has grown as it should.
pub open spec fn moved(cluster: Cluster, history: History, event: Event) -> bool {
    let replica = cluster.replicas[event.actor() as int];
    let step = cluster.reaction(event);
    &&& cluster.wf()
    &&& cluster.enabled(event)
    &&& replica.wf()
    &&& step.replica.wf()
    &&& sound_step(replica, event.delivered(), step)
    &&& log_step(replica, event.delivered(), step)
    &&& commit_step(replica, event.delivered(), step)
    &&& record_grown(cluster, history, event)
}

/// Every enabled event, from a state that satisfies the invariant, gives
/// all that the proofs of upkeep start from, and keeps the invariant of log
/// matching.
#[verifier::rlimit(60)]
pub proof fn lemma_moved(cluster: Cluster, history: History, event: Event)
    requires
        log_inv(cluster, history),
        cluster.enabled(event),
    ensures
        moved(cluster, history, event),
        log_inv(cluster.after(event), record(history, cluster, event)),
{
    let replica = cluster.replicas[event.actor() as int];
    let step = cluster.reaction(event);
    let next = cluster.after(event);
    let after = record(history, cluster, event);
    lemma_event_keeps_log_inv(cluster, history, event);
    lemma_reaction_sound(cluster, event);
    lemma_reaction_log_step(cluster, event);
    lemma_reaction_commit_step(cluster, event);
    assert(replica.wf());
    assert(replica.id == event.actor());
    if newly_elected(replica, step.replica) {
        lemma_new_winner(cluster, history, event);
    }
    assert forall|envelope: Envelope| #[trigger]
        next.network.contains(envelope) <==> cluster.network.contains(envelope)
            || step.outbox.contains(envelope) by {
        assert(step.outbox.to_set().contains(envelope) <==> step.outbox.contains(envelope));
    }
}

/// The winner on record for a term stays on record through every event.
pub proof fn lemma_winner_kept(cluster: Cluster, history: History, event: Event, term: usize)
    requires
        record_grown(cluster, history, event),
        history.winners.dom().contains(term),
    ensures
        record(history, cluster, event).winners.dom().contains(term),
        record(history, cluster, event).winners[term] == history.winners[term],
{
}

/// What is needed to tell the shape of a new log: the logs on record match,
/// and every append request comes from a Leader's log.
pub open spec fn shape_ready(cluster: Cluster, history: History) -> bool {
    &&& cluster.wf()
    &&& logs_known(cluster, history)
    &&& logs_match(history)
    &&& leader_logs_sound(history)
    &&& requests_led(cluster, history)
}

/// One of three things is true of the log that the event's replica holds
/// after the event: it is the log the replica held before; or that log and
/// one more entry, of the term of the replica, which is Leader; or the first
/// entries of a log on record.
pub open spec fn new_log_shaped(cluster: Cluster, history: History, event: Event) -> bool {
    let replica = cluster.replicas[event.actor() as int];
    let next = cluster.reaction(event).replica;
    ||| next.log == replica.log
    ||| {
        &&& replica.state == State::Leader
        &&& next.state == State::Leader
        &&& next.current_term == replica.current_term
        &&& next.log.len() == replica.log.len() + 1
        &&& next.log.drop_last() == replica.log
        &&& next.log.last().term == replica.current_term
    }
    ||| {
        &&& next.state == State::Follower
        &&& exists|source: Seq<Log>| #[trigger]
            history.leader_logs.contains((next.current_term, source)) && next.log.len()
                <= source.len() && next.log == source.take(next.log.len() as int)
    }
}

/// What the taking in of an append request gives: a log of the Leader of
/// the request's term that the request is an excerpt of, and with which the
/// replica's log agrees up to the end of the batch.
#[verifier::rlimit(60)]
pub proof fn lemma_accepted_source(cluster: Cluster, history: History, event: Event) -> (source:
    Seq<Log>)
    requires
        moved(cluster, history, event),
        shape_ready(cluster, history),
        accepted(
            cluster.replicas[event.actor() as int],
            event.delivered(),
            cluster.reaction(event).replica,
        ),
    ensures
        history.leader_logs.contains((cluster.reaction(event).replica.current_term, source)),
        history.logs.contains(source),
        request_led(cluster, history, event.delivered()->0),
        covers(source, event.delivered()->0),
        event.delivered()->0.msg matches MessageView::AppendEntryRequest {
            prev_log_index,
            entries,
            commit_index,
            ..
        } && {
            let end = prev_log_index + entries.len();
            let next = cluster.reaction(event).replica;
            &&& end <= source.len()
            &&& end <= next.log.len()
            &&& next.log.take(end) == source.take(end)
            &&& next.log == cluster.replicas[event.actor() as int].log || next.log == source.take(
                end,
            )
            &&& commit_index <= source.len()
            &&& commit_index >= 1 ==> fixed(
                cluster,
                history,
                source,
                next.current_term,
                commit_index as int,
            )
        },
{
    let replica = cluster.replicas[event.actor() as int];
    let next = cluster.reaction(event).replica;
    let envelope = event.delivered()->0;
    assert(cluster.network.contains(envelope));
    assert(request_led(cluster, history, envelope));
    match envelope.msg {
        MessageView::AppendEntryRequest {
            from_id,
            term,
            prev_log_index,
            prev_log_term,
            entries,
            commit_index,
        } => {
            let source = choose|log: Seq<Log>|
                {
                    &&& #[trigger] history.leader_logs.contains((term, log))
                    &&& covers(log, envelope)
                    &&& commit_index <= log.len()
                    &&& commit_index >= 1 ==> fixed(
                        cluster,
                        history,
                        log,
                        term,
                        commit_index as int,
                    )
                };
            assert(history.logs.contains(source));
            assert(history.logs.contains(replica.log));
            assert(matching(replica.log, source));
            lemma_merge_is_prefix(replica.log, source, prev_log_index, prev_log_term, entries);
            source
        },
        _ => Seq::empty(),
    }
}

/// The log that the event's replica holds after the event has one of the
/// three shapes.
#[verifier::rlimit(60)]
pub proof fn lemma_new_log_shaped(cluster: Cluster, history: History, event: Event)
    requires
        moved(cluster, history, event),
        shape_ready(cluster, history),
    ensures
        new_log_shaped(cluster, history, event),
{
    let replica = cluster.replicas[event.actor() as int];
    let next = cluster.reaction(event).replica;
    if next.log != replica.log && !(replica.state == State::Leader && next.state == State::Leader
        && next.log.drop_last() == replica.log) {
        assert(accepted(replica, event.delivered(), next)) by {
            assert(commit_step(replica, event.delivered(), cluster.reaction(event)));
            assert(log_step(replica, event.delivered(), cluster.reaction(event)));
            let envelope = event.delivered()->0;
            match envelope.msg {
                MessageView::AppendEntryRequest {
                    from_id,
                    term,
                    prev_log_index,
                    prev_log_term,
                    entries,
                    commit_index,
                } => {
                    lemma_message_accepts(cluster, event);
                },
                _ => {},
            }
        }
        let source = lemma_accepted_source(cluster, history, event);
        assert(history.leader_logs.contains((next.current_term, source)) && next.log.len()
            <= source.len() && next.log == source.take(next.log.len() as int)) by {
            let envelope = event.delivered()->0;
            match envelope.msg {
                MessageView::AppendEntryRequest {
                    from_id,
                    term,
                    prev_log_index,
                    prev_log_term,
                    entries,
                    commit_index,
                } => {
                    let end = prev_log_index + entries.len();
                    assert(next.log == source.take(end));
                    assert(source.take(end).len() == end);
                },
                _ => {},
            }
        }
    }
}

/// A delivery that changes the log by merging is the taking in of an append
/// request.
pub proof fn lemma_message_accepts(cluster: Cluster, event: Event)
    requires
        cluster.wf(),
        cluster.enabled(event),
        event.delivered() is Some,
        event.delivered()->0.msg is AppendEntryRequest,
        cluster.reaction(event).replica.log != cluster.replicas[event.actor() as int].log,
    ensures
        accepted(
            cluster.replicas[event.actor() as int],
            event.delivered(),
            cluster.reaction(event).replica,
        ),
{
    let replica = cluster.replicas[event.actor() as int];
    assert(replica.wf());
    let envelope = event.delivered()->0;
    match envelope.msg {
        MessageView::AppendEntryRequest {
            from_id,
            term,
            prev_log_index,
            prev_log_term,
            entries,
            commit_index,
        } => {
            if replica.active() && term >= replica.current_term {
                let follower = crate::model::ReplicaView {
                    state: State::Follower,
                    ..replica.observe_term(term)
                };
                if follower.accepts(prev_log_index, prev_log_term, entries) {
                    crate::model::lemma_merged_wf(follower, prev_log_index, prev_log_term, entries);
                }
            }
        },
        _ => {},
    }
}

/// A dead place stays dead.
pub proof fn lemma_dead_stays(cluster: Cluster, history: History, event: Event, term: usize, k: int)
    requires
        moved(cluster, history, event),
        dead(cluster, history, term, k),
    ensures
        dead(cluster.after(event), record(history, cluster, event), term, k),
{
    let next = cluster.after(event);
    let after = record(history, cluster, event);
    let flags = choose|flags: Seq<bool>|
        is_quorum(flags, cluster.replicas.len()) && #[trigger] shunned_by_all(
            flags,
            cluster,
            history,
            term,
            k,
        );
    assert forall|w: int| 0 <= w < flags.len() && #[trigger] flags[w] implies next.replicas[w].current_term
        > term && !after.acked.contains((w as usize, term, k)) by {
        if w != event.actor() {
            assert(next.replicas[w] == cluster.replicas[w]);
        }
    }
    assert(shunned_by_all(flags, next, after, term, k));
}

/// A chosen place stays chosen.
pub proof fn lemma_chosen_stays(
    cluster: Cluster,
    history: History,
    event: Event,
    term: usize,
    k: int,
)
    requires
        moved(cluster, history, event),
        chosen(cluster, history, term, k),
    ensures
        chosen(cluster.after(event), record(history, cluster, event), term, k),
{
    let after = record(history, cluster, event);
    let flags = choose|flags: Seq<bool>|
        is_quorum(flags, cluster.replicas.len()) && #[trigger] held_by_all(flags, history, term, k);
    assert forall|w: int| 0 <= w < flags.len() && #[trigger] flags[w] implies after.acked.contains(
        (w as usize, term, k),
    ) by {
        assert(history.acked.contains((w as usize, term, k)));
    }
    assert(held_by_all(flags, after, term, k));
}

/// What is fixed stays fixed.
pub proof fn lemma_fixed_stays(
    cluster: Cluster,
    history: History,
    event: Event,
    log: Seq<Log>,
    bound: usize,
    upto: int,
)
    requires
        moved(cluster, history, event),
        fixed(cluster, history, log, bound, upto),
    ensures
        fixed(cluster.after(event), record(history, cluster, event), log, bound, upto),
{
    let (other, term, k) = choose|other: Seq<Log>, term: usize, k: int| #[trigger]
        anchor(cluster, history, other, term, k) && term <= bound && k >= upto - 1 && log.len()
            >= upto && log.take(upto) == other.take(upto);
    lemma_chosen_stays(cluster, history, event, term, k);
    assert(anchor(cluster.after(event), record(history, cluster, event), other, term, k));
}

/// Every event keeps the records of entries held in order.
pub proof fn lemma_keeps_acks(cluster: Cluster, history: History, event: Event)
    requires
        moved(cluster, history, event),
        acks_sound(cluster, history),
        own_acked(cluster, history),
    ensures
        acks_sound(cluster.after(event), record(history, cluster, event)),
        own_acked(cluster.after(event), record(history, cluster, event)),
{
    let next = cluster.after(event);
    let after = record(history, cluster, event);
    assert forall|w: usize, term: usize, k: int| #[trigger]
        after.acked.contains((w, term, k)) implies w < next.replicas.len() && next.replicas[w as int].current_term
        >= term && k >= 0 by {
        if history.acked.contains((w, term, k)) {
            if w != event.actor() {
                assert(next.replicas[w as int] == cluster.replicas[w as int]);
            }
        }
    }
    assert forall|i: int, k: int|
        0 <= i < next.replicas.len() && holds(
            next.replicas[i].log,
            next.replicas[i].current_term,
            k,
        ) implies #[trigger] after.acked.contains((i as usize, next.replicas[i].current_term, k)) by {
        if i != event.actor() {
            assert(next.replicas[i] == cluster.replicas[i]);
            assert(history.acked.contains((i as usize, cluster.replicas[i].current_term, k)));
        }
    }
}

/// Every event keeps votes and requests for votes in order.
#[verifier::rlimit(60)]
pub proof fn lemma_keeps_requests(cluster: Cluster, history: History, event: Event)
    requires
        moved(cluster, history, event),
        votes_asked(cluster),
        requests_true(cluster),
    ensures
        votes_asked(cluster.after(event)),
        requests_true(cluster.after(event)),
{
    let a = event.actor() as int;
    let replica = cluster.replicas[a];
    let step = cluster.reaction(event);
    let next = cluster.after(event);
    assert forall|voter: usize, term: usize, candidate: usize| #[trigger]
        next.network.contains(vote_envelope(voter, term, candidate)) implies candidate
        < next.replicas.len() && next.replicas[candidate as int].current_term >= term by {
        let vote = vote_envelope(voter, term, candidate);
        if cluster.network.contains(vote) {
            if candidate != a {
                assert(next.replicas[candidate as int] == cluster.replicas[candidate as int]);
            }
        } else {
            let k = choose|k: int| 0 <= k < step.outbox.len() && step.outbox[k] == vote;
            assert(sent_in_order(replica, event.delivered(), step.replica, step.outbox[k]));
            let asked = event.delivered()->0;
            assert(cluster.network.contains(asked));
            assert(request_true(cluster, asked));
            if candidate != a {
                assert(next.replicas[candidate as int] == cluster.replicas[candidate as int]);
            }
        }
    }
    assert forall|envelope: Envelope| #[trigger] next.network.contains(envelope) implies request_true(
        next,
        envelope,
    ) by {
        match envelope.msg {
            MessageView::RequestVoteRequest { from_id, term, last_log_index, last_log_term } => {
                if cluster.network.contains(envelope) {
                    assert(request_true(cluster, envelope));
                    if from_id != a {
                        assert(next.replicas[from_id as int] == cluster.replicas[from_id as int]);
                    }
                } else {
                    let k = choose|k: int| 0 <= k < step.outbox.len() && step.outbox[k] == envelope;
                    assert(sent_in_order(replica, event.delivered(), step.replica, step.outbox[k]));
                }
            },
            _ => {},
        }
    }
}

/// A step that leaves the log as it is keeps its terms within bounds.
pub proof fn lemma_same_log_bounded(replica: ReplicaView, fresh: ReplicaView)
    requires
        bounded(replica),
        fresh.log == replica.log,
        fresh.current_term >= replica.current_term,
        fresh.state == State::Candidate ==> same_race_or_later(replica, fresh),
    ensures
        bounded(fresh),
{
    assert forall|k: int| 0 <= k < fresh.log.len() implies {
        &&& (#[trigger] fresh.log[k]).term <= fresh.current_term
        &&& fresh.state == State::Candidate ==> fresh.log[k].term < fresh.current_term
    } by {
        assert(replica.log[k].term <= replica.current_term);
    }
}

/// A Leader that adds an entry of its own term keeps its log sorted and its
/// terms within bounds.
pub proof fn lemma_longer_log_bounded(replica: ReplicaView, fresh: ReplicaView)
    requires
        bounded(replica),
        sorted(replica.log),
        fresh.state == State::Leader,
        fresh.current_term == replica.current_term,
        fresh.log.len() == replica.log.len() + 1,
        fresh.log.drop_last() == replica.log,
        fresh.log.last().term == replica.current_term,
    ensures
        bounded(fresh),
        sorted(fresh.log),
{
    assert forall|k: int| 0 <= k < fresh.log.len() implies (#[trigger] fresh.log[k]).term
        <= fresh.current_term by {
        if k < replica.log.len() {
            assert(fresh.log.drop_last()[k] == fresh.log[k]);
            assert(replica.log[k].term <= replica.current_term);
        }
    }
    assert forall|i: int, j: int| 0 <= i <= j < fresh.log.len() implies (#[trigger] fresh.log[i]).term
        <= (#[trigger] fresh.log[j]).term by {
        assert(fresh.log[i].term <= fresh.current_term);
        if j < replica.log.len() {
            assert(fresh.log.drop_last()[i] == fresh.log[i]);
            assert(fresh.log.drop_last()[j] == fresh.log[j]);
        }
    }
}

/// A Follower whose log is made of the first entries of a log of its
/// term's Leader keeps its log sorted and its terms within bounds.
pub proof fn lemma_prefix_log_bounded(fresh: ReplicaView, source: Seq<Log>, base: Seq<Log>)
    requires
        fresh.state == State::Follower,
        fresh.log.len() <= source.len(),
        fresh.log == source.take(fresh.log.len() as int),
        sorted(source),
        extends_with(source, base, fresh.current_term),
        below(base, fresh.current_term),
    ensures
        bounded(fresh),
        sorted(fresh.log),
{
    assert forall|k: int| 0 <= k < fresh.log.len() implies (#[trigger] fresh.log[k]).term
        <= fresh.current_term by {
        assert(fresh.log[k] == source[k]);
        if k < base.len() {
            assert(source.take(base.len() as int)[k] == source[k]);
            assert(base[k].term < fresh.current_term);
        }
    }
    assert forall|i: int, j: int| 0 <= i <= j < fresh.log.len() implies (#[trigger] fresh.log[i]).term
        <= (#[trigger] fresh.log[j]).term by {
        assert(fresh.log[i] == source[i]);
        assert(fresh.log[j] == source[j]);
    }
}

/// Every event keeps the terms of entries within bounds and in order.
#[verifier::rlimit(60)]
pub proof fn lemma_keeps_terms(cluster: Cluster, history: History, event: Event)
    requires
        moved(cluster, history, event),
        shape_ready(cluster, history),
        terms_bounded(cluster),
        logs_sorted(history),
        winners_logged(history),
    ensures
        terms_bounded(cluster.after(event)),
        logs_sorted(record(history, cluster, event)),
{
    let a = event.actor() as int;
    let replica = cluster.replicas[a];
    let step = cluster.reaction(event);
    let fresh = step.replica;
    let next = cluster.after(event);
    let after = record(history, cluster, event);
    lemma_new_log_shaped(cluster, history, event);
    assert(history.logs.contains(replica.log));
    assert(sorted(replica.log));
    assert(bounded(replica));
    assert(bounded(fresh) && sorted(fresh.log)) by {
        if fresh.log == replica.log {
            lemma_same_log_bounded(replica, fresh);
        } else if replica.state == State::Leader && fresh.state == State::Leader
            && fresh.log.drop_last() == replica.log && fresh.log.len() == replica.log.len() + 1
            && fresh.log.last().term == replica.current_term && fresh.current_term
            == replica.current_term {
            lemma_longer_log_bounded(replica, fresh);
        } else {
            let source = choose|source: Seq<Log>| #[trigger]
                history.leader_logs.contains((fresh.current_term, source)) && fresh.log.len()
                    <= source.len() && fresh.log == source.take(fresh.log.len() as int);
            let base = history.winners[fresh.current_term].log;
            assert(history.winners.dom().contains(fresh.current_term));
            assert(history.logs.contains(source));
            lemma_prefix_log_bounded(fresh, source, base);
        }
    }
    assert forall|i: int| 0 <= i < next.replicas.len() implies bounded(
        #[trigger] next.replicas[i],
    ) by {
        if i != a {
            assert(next.replicas[i] == cluster.replicas[i]);
        }
    }
    assert forall|log: Seq<Log>| #[trigger] after.logs.contains(log) implies sorted(log) by {}
}

/// Every event keeps the logs of winners and of Leaders in order.
#[verifier::rlimit(60)]
pub proof fn lemma_keeps_leader_logs(cluster: Cluster, history: History, event: Event)
    requires
        moved(cluster, history, event),
        logs_known(cluster, history),
        terms_bounded(cluster),
        winners_logged(history),
        leader_logs_sound(history),
        leaders_logged(cluster, history),
    ensures
        winners_logged(record(history, cluster, event)),
        leader_logs_sound(record(history, cluster, event)),
        leaders_logged(cluster.after(event), record(history, cluster, event)),
{
    let a = event.actor() as int;
    let replica = cluster.replicas[a];
    let step = cluster.reaction(event);
    let fresh = step.replica;
    let next = cluster.after(event);
    let after = record(history, cluster, event);
    assert(history.logs.contains(replica.log));
    assert forall|won: usize| #[trigger] after.winners.dom().contains(won) implies after.logs.contains(
        after.winners[won].log,
    ) && below(after.winners[won].log, won) by {
        if history.winners.dom().contains(won) {
            assert(after.winners[won] == history.winners[won]);
        } else {
            assert(fresh.log == replica.log);
            assert(bounded(replica));
            assert forall|k: int| 0 <= k < fresh.log.len() implies (#[trigger] fresh.log[k]).term
                < won by {
                assert(replica.log[k].term <= replica.current_term);
            }
        }
    }
    assert forall|term: usize, log: Seq<Log>| #[trigger]
        after.leader_logs.contains((term, log)) implies {
        &&& after.winners.dom().contains(term)
        &&& after.logs.contains(log)
        &&& extends_with(log, after.winners[term].log, term)
    } by {
        if history.leader_logs.contains((term, log)) {
            assert(history.winners.dom().contains(term));
            assert(after.winners[term] == history.winners[term]);
        } else {
            if newly_elected(replica, fresh) {
                assert(fresh.log.take(fresh.log.len() as int) =~= fresh.log);
            } else {
                assert(history.leader_logs.contains((replica.current_term, replica.log)));
                assert(history.winners.dom().contains(term));
                assert(after.winners[term] == history.winners[term]);
                let base = history.winners[term].log;
                assert(extends_with(replica.log, base, term));
                if fresh.log != replica.log {
                    assert(fresh.log.drop_last() == replica.log);
                    assert(fresh.log.take(base.len() as int) =~= replica.log.take(
                        base.len() as int,
                    ));
                    assert forall|k: int| base.len() <= k < fresh.log.len() implies (
                    #[trigger] fresh.log[k]).term == term by {
                        if k < replica.log.len() {
                            assert(fresh.log[k] == replica.log[k]);
                        }
                    }
                }
            }
        }
    }
    assert forall|i: int|
        0 <= i < next.replicas.len() && (#[trigger] next.replicas[i]).state
            == State::Leader implies after.leader_logs.contains(
        (next.replicas[i].current_term, next.replicas[i].log),
    ) by {
        if i != a {
            assert(next.replicas[i] == cluster.replicas[i]);
            assert(history.leader_logs.contains(
                (cluster.replicas[i].current_term, cluster.replicas[i].log),
            ));
        }
    }
}

/// A log that is longer by one entry sits on whatever the shorter log sits
/// on, if the shorter log begins with the base of the new entry's term.
pub proof fn lemma_longer_sits_on(shorter: Seq<Log>, longer: Seq<Log>, term: usize, base: Seq<Log>)
    requires
        sits_on(shorter, term, base),
        longer.len() == shorter.len() + 1,
        longer.drop_last() == shorter,
        longer.last().term == term ==> shorter.len() >= base.len() && shorter.take(
            base.len() as int,
        ) == base,
    ensures
        sits_on(longer, term, base),
{
    assert forall|k: int| #[trigger] holds(longer, term, k) implies k >= base.len() && longer.take(
        base.len() as int,
    ) == base by {
        if k < shorter.len() {
            assert(longer.drop_last()[k] == longer[k]);
            assert(holds(shorter, term, k));
        }
        assert(longer.take(base.len() as int) =~= shorter.take(base.len() as int));
    }
}

/// The first entries of a log sit on whatever the log sits on.
pub proof fn lemma_prefix_sits_on(log: Seq<Log>, len: int, term: usize, base: Seq<Log>)
    requires
        sits_on(log, term, base),
        0 <= len <= log.len(),
    ensures
        sits_on(log.take(len), term, base),
{
    let prefix = log.take(len);
    assert forall|k: int| #[trigger] holds(prefix, term, k) implies k >= base.len() && prefix.take(
        base.len() as int,
    ) == base by {
        assert(holds(log, term, k));
        assert(prefix.take(base.len() as int) =~= log.take(base.len() as int));
    }
}

/// A log that a Leader has made longer by one entry of its term runs along
/// with every log that the shorter log ran along with.
pub proof fn lemma_longer_runs(shorter: Seq<Log>, longer: Seq<Log>, term: usize, other: Seq<Log>)
    requires
        runs(shorter, other),
        runs(other, shorter),
        longer.len() == shorter.len() + 1,
        longer.drop_last() == shorter,
        longer.last().term == term,
        holds_term_of(shorter, term, other),
    ensures
        runs(longer, other),
        runs(other, longer),
        runs(longer, longer),
{
    assert forall|t: usize, i: int, k: int|
        #[trigger] holds(longer, t, i) && #[trigger] holds(other, t, k) && i <= k implies holds(
        other,
        t,
        i,
    ) by {
        if i < shorter.len() {
            assert(longer.drop_last()[i] == longer[i]);
            assert(holds(shorter, t, i));
        } else {
            assert(other[k].term == term);
        }
    }
    assert forall|t: usize, i: int, k: int|
        #[trigger] holds(other, t, i) && #[trigger] holds(longer, t, k) && i <= k implies holds(
        longer,
        t,
        i,
    ) by {
        if k < shorter.len() {
            assert(longer.drop_last()[k] == longer[k]);
            assert(holds(shorter, t, k));
            assert(holds(shorter, t, i));
            assert(longer.drop_last()[i] == longer[i]);
        } else {
            assert(other[i].term == term);
            if i < shorter.len() {
                assert(longer.drop_last()[i] == longer[i]);
            }
        }
    }
}

/// The first entries of a log run along with every log that the log runs
/// along with.
pub proof fn lemma_prefix_runs(log: Seq<Log>, len: int, other: Seq<Log>)
    requires
        runs(log, other),
        runs(other, log),
        0 <= len <= log.len(),
    ensures
        runs(log.take(len), other),
        runs(other, log.take(len)),
        runs(log.take(len), log.take(len)),
{
    let prefix = log.take(len);
    assert forall|t: usize, i: int, k: int|
        #[trigger] holds(prefix, t, i) && #[trigger] holds(other, t, k) && i <= k implies holds(
        other,
        t,
        i,
    ) by {
        assert(holds(log, t, i));
    }
    assert forall|t: usize, i: int, k: int|
        #[trigger] holds(other, t, i) && #[trigger] holds(prefix, t, k) && i <= k implies holds(
        prefix,
        t,
        i,
    ) by {
        assert(holds(log, t, k));
        assert(holds(log, t, i));
    }
}

/// Every event keeps the entries of each term on top of the winner's log and
/// in one run.
#[verifier::rlimit(60)]
pub proof fn lemma_keeps_runs(cluster: Cluster, history: History, event: Event)
    requires
        moved(cluster, history, event),
        shape_ready(cluster, history),
        entries_on_top(history),
        terms_in_runs(history),
        terms_won(history),
        leaders_complete(cluster, history),
        leaders_logged(cluster, history),
    ensures
        entries_on_top(record(history, cluster, event)),
        terms_in_runs(record(history, cluster, event)),
{
    let a = event.actor() as int;
    let replica = cluster.replicas[a];
    let fresh = cluster.reaction(event).replica;
    let after = record(history, cluster, event);
    lemma_new_log_shaped(cluster, history, event);
    assert(history.logs.contains(replica.log));
    let pushed = replica.state == State::Leader && fresh.state == State::Leader
        && fresh.log.drop_last() == replica.log && fresh.log.len() == replica.log.len() + 1
        && fresh.log.last().term == replica.current_term && fresh.current_term
        == replica.current_term;
    let source = choose|source: Seq<Log>| #[trigger]
        history.leader_logs.contains((fresh.current_term, source)) && fresh.log.len()
            <= source.len() && fresh.log == source.take(fresh.log.len() as int);
    assert forall|log: Seq<Log>, won: usize|
        #[trigger] after.logs.contains(log) && #[trigger] after.winners.dom().contains(
            won,
        ) implies sits_on(log, won, after.winners[won].log) by {
        if !history.winners.dom().contains(won) {
            assert(fresh.log == replica.log);
            assert(history.logs.contains(log));
            assert forall|k: int| #[trigger] holds(log, won, k) implies false by {
                assert(history.winners.dom().contains(log[k].term));
            }
        } else {
            let base = history.winners[won].log;
            assert(after.winners[won] == history.winners[won]);
            if history.logs.contains(log) {
            } else if pushed {
                assert(sits_on(replica.log, won, base));
                if won == replica.current_term {
                    assert(history.leader_logs.contains((replica.current_term, replica.log)));
                    assert(extends_with(replica.log, base, won));
                }
                lemma_longer_sits_on(replica.log, fresh.log, won, base);
            } else {
                assert(history.logs.contains(source));
                assert(sits_on(source, won, base));
                lemma_prefix_sits_on(source, fresh.log.len() as int, won, base);
            }
        }
    }
    assert forall|x: Seq<Log>, y: Seq<Log>|
        #[trigger] after.logs.contains(x) && #[trigger] after.logs.contains(y) implies runs(
        x,
        y,
    ) by {
        if history.logs.contains(x) && history.logs.contains(y) {
        } else {
            let other = if history.logs.contains(x) {
                x
            } else {
                y
            };
            if pushed {
                if history.logs.contains(other) {
                    assert(runs(replica.log, other) && runs(other, replica.log));
                    assert(holds_term_of(replica.log, replica.current_term, other));
                    lemma_longer_runs(replica.log, fresh.log, replica.current_term, other);
                } else {
                    assert(runs(replica.log, replica.log));
                    assert(holds_term_of(replica.log, replica.current_term, replica.log));
                    lemma_longer_runs(replica.log, fresh.log, replica.current_term, replica.log);
                }
            } else {
                assert(history.logs.contains(source));
                if history.logs.contains(other) {
                    assert(runs(source, other) && runs(other, source));
                    lemma_prefix_runs(source, fresh.log.len() as int, other);
                } else {
                    assert(runs(source, source));
                    lemma_prefix_runs(source, fresh.log.len() as int, source);
                }
            }
        }
    }
}

} // verus!
