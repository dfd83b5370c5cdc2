//! Why every event keeps those parts of the invariant of leader
//! completeness that speak of commitment: what a Leader counts as matched,
//! what a success response reports, what an append request calls committed,
//! and what a replica has committed.

use crate::cluster::{Cluster, Event};
use crate::complete_logs::{lemma_accepted_source, lemma_fixed_stays, moved, shape_ready};
use crate::completeness::{anchor, below, chosen, commits_fixed, extends_with, fixed, held_along, held_by_all, is_quorum, leader_logs_sound, leaders_logged, lemma_fixed_below, lemma_fixed_for_equal, matches_held, request_led, requests_led, response_held, responses_held, winners_logged};
use crate::matching::{covers, holds, newly_elected, record, History};
use crate::model::lemma_take_of_equal_takes;
use crate::progress::{follower_commit, match_moved, quorum_commit, sent_in_order};
use crate::types::{Envelope, Log, MessageView, State};
use vstd::prelude::*;

verus! {

/// Every event keeps success responses borne out.
#[verifier::rlimit(60)]
pub proof fn lemma_keeps_responses_held(cluster: Cluster, history: History, event: Event)
    requires
        moved(cluster, history, event),
        shape_ready(cluster, history),
        responses_held(cluster, history),
    ensures
        responses_held(cluster.after(event), record(history, cluster, event)),
{
    let a = event.actor() as int;
    let replica = cluster.replicas[a];
    let step = cluster.reaction(event);
    let fresh = step.replica;
    let next = cluster.after(event);
    let after = record(history, cluster, event);
    assert forall|envelope: Envelope| #[trigger] next.network.contains(envelope) implies response_held(
        after,
        next.replicas.len(),
        envelope,
    ) by {
        match envelope.msg {
            MessageView::AppendEntryResponse { from_id, term, success, last_index } => {
                if success {
                    if cluster.network.contains(envelope) {
                        assert(response_held(history, cluster.replicas.len(), envelope));
                        let log = choose|log: Seq<Log>|
                            {
                                &&& #[trigger] history.leader_logs.contains((term, log))
                                &&& log.len() >= last_index
                                &&& held_along(history, from_id, term, log, last_index as int)
                            };
                        assert(after.leader_logs.contains((term, log)));
                        assert(held_along(after, from_id, term, log, last_index as int)) by {
                            assert forall|k: int|
                                0 <= k < last_index && holds(
                                    log,
                                    term,
                                    k,
                                ) implies #[trigger] after.acked.contains((from_id, term, k)) by {
                                assert(history.acked.contains((from_id, term, k)));
                            }
                        }
                    } else {
                        let i = choose|i: int|
                            0 <= i < step.outbox.len() && step.outbox[i] == envelope;
                        assert(sent_in_order(replica, event.delivered(), fresh, step.outbox[i]));
                        let source = lemma_accepted_source(cluster, history, event);
                        assert(after.leader_logs.contains((term, source)));
                        assert(held_along(after, from_id, term, source, last_index as int)) by {
                            assert forall|k: int|
                                0 <= k < last_index && holds(
                                    source,
                                    term,
                                    k,
                                ) implies #[trigger] after.acked.contains((from_id, term, k)) by {
                                assert(fresh.log.take(last_index as int)[k] == fresh.log[k]);
                                assert(source.take(last_index as int)[k] == source[k]);
                                assert(holds(fresh.log, term, k));
                            }
                        }
                    }
                }
            },
            _ => {},
        }
    }
}

/// A Leader's log that begins with the log it took office with, followed by
/// entries of its term only, holds entries of its term at the same places
/// as any other log of that kind.
pub proof fn lemma_leader_logs_agree(
    log: Seq<Log>,
    other: Seq<Log>,
    base: Seq<Log>,
    term: usize,
    k: int,
)
    requires
        extends_with(log, base, term),
        extends_with(other, base, term),
        below(base, term),
        holds(log, term, k),
        k < other.len(),
    ensures
        holds(other, term, k),
{
    if k < base.len() {
        assert(log.take(base.len() as int)[k] == log[k]);
        assert(base[k].term < term);
    }
}

/// What the event's replica, if it is Leader after the event, counts as
/// matched on replica `p`, that replica has held.
#[verifier::rlimit(60)]
pub proof fn lemma_match_held(cluster: Cluster, history: History, event: Event, p: int, k: int)
    requires
        moved(cluster, history, event),
        matches_held(cluster, history),
        responses_held(cluster, history),
        leaders_logged(cluster, history),
        leader_logs_sound(history),
        winners_logged(history),
        cluster.reaction(event).replica.state == State::Leader,
        0 <= p < cluster.replicas.len(),
        p != event.actor(),
        0 <= k < cluster.reaction(event).replica.match_index[p],
        holds(
            cluster.reaction(event).replica.log,
            cluster.reaction(event).replica.current_term,
            k,
        ),
    ensures
        record(history, cluster, event).acked.contains(
            (p as usize, cluster.reaction(event).replica.current_term, k),
        ),
{
    let a = event.actor() as int;
    let replica = cluster.replicas[a];
    let fresh = cluster.reaction(event).replica;
    let term = fresh.current_term;
    assert(!newly_elected(replica, fresh));
    assert(match_moved(replica, event.delivered(), fresh, p));
    assert(history.leader_logs.contains((replica.current_term, replica.log)));
    assert(history.winners.dom().contains(term));
    let base = history.winners[term].log;
    assert(extends_with(replica.log, base, term));
    if fresh.log != replica.log {
        assert(fresh.log.drop_last() == replica.log);
        if k < replica.log.len() {
            assert(fresh.log.drop_last()[k] == fresh.log[k]);
        }
    }
    if fresh.match_index[p] == replica.match_index[p] {
        assert(replica.match_index[p] <= replica.log.len());
        assert(holds(cluster.replicas[a].log, cluster.replicas[a].current_term, k));
        assert(history.acked.contains((p as usize, cluster.replicas[a].current_term, k)));
    } else {
        let envelope = event.delivered()->0;
        assert(cluster.network.contains(envelope));
        assert(response_held(history, cluster.replicas.len(), envelope));
        match envelope.msg {
            MessageView::AppendEntryResponse { from_id, term: _, success, last_index } => {
                let log = choose|log: Seq<Log>|
                    {
                        &&& #[trigger] history.leader_logs.contains((term, log))
                        &&& log.len() >= last_index
                        &&& held_along(history, from_id, term, log, last_index as int)
                    };
                assert(extends_with(log, base, term));
                if k < replica.log.len() {
                    lemma_leader_logs_agree(replica.log, log, base, term, k);
                } else {
                    assert(log[k].term == term);
                }
                assert(history.acked.contains((from_id, term, k)));
            },
            _ => {},
        }
    }
}

/// Every event keeps this: what a Leader counts as matched on a replica,
/// that replica has held.
#[verifier::rlimit(60)]
pub proof fn lemma_keeps_matches_held(cluster: Cluster, history: History, event: Event)
    requires
        moved(cluster, history, event),
        matches_held(cluster, history),
        responses_held(cluster, history),
        leaders_logged(cluster, history),
        leader_logs_sound(history),
        winners_logged(history),
    ensures
        matches_held(cluster.after(event), record(history, cluster, event)),
{
    let a = event.actor() as int;
    let next = cluster.after(event);
    let after = record(history, cluster, event);
    assert forall|i: int, p: int, k: int|
        0 <= i < next.replicas.len() && next.replicas[i].state == State::Leader && 0 <= p
            < next.replicas.len() && p != i && 0 <= k < next.replicas[i].match_index[p] && holds(
            next.replicas[i].log,
            next.replicas[i].current_term,
            k,
        ) implies #[trigger] after.acked.contains((p as usize, next.replicas[i].current_term, k)) by {
        if i != a {
            assert(next.replicas[i] == cluster.replicas[i]);
            assert(history.acked.contains((p as usize, cluster.replicas[i].current_term, k)));
        } else {
            lemma_match_held(cluster, history, event, p, k);
        }
    }
}

/// What the event's replica has committed after the event is fixed.
#[verifier::rlimit(60)]
pub proof fn lemma_own_commit_fixed(cluster: Cluster, history: History, event: Event)
    requires
        moved(cluster, history, event),
        shape_ready(cluster, history),
        commits_fixed(cluster, history),
        matches_held(cluster.after(event), record(history, cluster, event)),
        cluster.reaction(event).replica.commit_index >= 1,
    ensures
        fixed(
            cluster.after(event),
            record(history, cluster, event),
            cluster.reaction(event).replica.log,
            cluster.reaction(event).replica.current_term,
            cluster.reaction(event).replica.commit_index as int,
        ),
{
    let a = event.actor() as int;
    let replica = cluster.replicas[a];
    let fresh = cluster.reaction(event).replica;
    let next = cluster.after(event);
    let after = record(history, cluster, event);
    let upto = fresh.commit_index as int;
    if fresh.commit_index == replica.commit_index {
        assert(fixed(cluster, history, replica.log, replica.current_term, upto));
        lemma_fixed_for_equal(cluster, history, replica.log, replica.current_term, upto, fresh.log);
        lemma_fixed_below(
            cluster,
            history,
            fresh.log,
            replica.current_term,
            upto,
            fresh.current_term,
            upto,
        );
        lemma_fixed_stays(cluster, history, event, fresh.log, fresh.current_term, upto);
    } else if quorum_commit(replica, fresh) {
        let flags = fresh.holders(upto);
        let term = fresh.current_term;
        assert(next.replicas[a] == fresh);
        assert forall|w: int| 0 <= w < flags.len() && #[trigger] flags[w] implies after.acked.contains(
            (w as usize, term, upto - 1),
        ) by {
            if w != a {
                assert(next.replicas[a].match_index[w] >= upto);
                assert(after.acked.contains((w as usize, next.replicas[a].current_term, upto - 1)));
            }
        }
        assert(held_by_all(flags, after, term, upto - 1));
        assert(is_quorum(flags, next.replicas.len()));
        assert(chosen(next, after, term, upto - 1));
        assert(anchor(next, after, fresh.log, term, upto - 1));
    } else {
        assert(follower_commit(replica, event.delivered(), fresh));
        let source = lemma_accepted_source(cluster, history, event);
        match event.delivered()->0.msg {
            MessageView::AppendEntryRequest {
                from_id,
                term,
                prev_log_index,
                prev_log_term,
                entries,
                commit_index,
            } => {
                let end = prev_log_index + entries.len();
                lemma_fixed_below(
                    cluster,
                    history,
                    source,
                    fresh.current_term,
                    commit_index as int,
                    fresh.current_term,
                    upto,
                );
                lemma_take_of_equal_takes(fresh.log, source, upto, end);
                lemma_fixed_for_equal(
                    cluster,
                    history,
                    source,
                    fresh.current_term,
                    upto,
                    fresh.log,
                );
                lemma_fixed_stays(cluster, history, event, fresh.log, fresh.current_term, upto);
            },
            _ => {},
        }
    }
}

/// Every event keeps what replicas have committed fixed.
#[verifier::rlimit(60)]
pub proof fn lemma_keeps_commits_fixed(cluster: Cluster, history: History, event: Event)
    requires
        moved(cluster, history, event),
        shape_ready(cluster, history),
        commits_fixed(cluster, history),
        matches_held(cluster.after(event), record(history, cluster, event)),
    ensures
        commits_fixed(cluster.after(event), record(history, cluster, event)),
{
    let a = event.actor() as int;
    let next = cluster.after(event);
    let after = record(history, cluster, event);
    assert forall|i: int|
        0 <= i < next.replicas.len() && (#[trigger] next.replicas[i]).commit_index
            >= 1 implies fixed(
        next,
        after,
        next.replicas[i].log,
        next.replicas[i].current_term,
        next.replicas[i].commit_index as int,
    ) by {
        if i != a {
            assert(next.replicas[i] == cluster.replicas[i]);
            lemma_fixed_stays(
                cluster,
                history,
                event,
                cluster.replicas[i].log,
                cluster.replicas[i].current_term,
                cluster.replicas[i].commit_index as int,
            );
        } else {
            lemma_own_commit_fixed(cluster, history, event);
        }
    }
}

/// Every event keeps append requests tied to a Leader's log, with what they
/// call committed fixed.
#[verifier::rlimit(60)]
pub proof fn lemma_keeps_requests_led(cluster: Cluster, history: History, event: Event)
    requires
        moved(cluster, history, event),
        requests_led(cluster, history),
        commits_fixed(cluster.after(event), record(history, cluster, event)),
    ensures
        requests_led(cluster.after(event), record(history, cluster, event)),
{
    let a = event.actor() as int;
    let replica = cluster.replicas[a];
    let step = cluster.reaction(event);
    let fresh = step.replica;
    let next = cluster.after(event);
    let after = record(history, cluster, event);
    assert forall|envelope: Envelope| #[trigger] next.network.contains(envelope) implies request_led(
        next,
        after,
        envelope,
    ) by {
        match envelope.msg {
            MessageView::AppendEntryRequest {
                from_id,
                term,
                prev_log_index,
                prev_log_term,
                entries,
                commit_index,
            } => {
                if cluster.network.contains(envelope) {
                    assert(request_led(cluster, history, envelope));
                    let log = choose|log: Seq<Log>|
                        {
                            &&& #[trigger] history.leader_logs.contains((term, log))
                            &&& covers(log, envelope)
                            &&& commit_index <= log.len()
                            &&& commit_index >= 1 ==> fixed(
                                cluster,
                                history,
                                log,
                                term,
                                commit_index as int,
                            )
                        };
                    if commit_index >= 1 {
                        lemma_fixed_stays(cluster, history, event, log, term, commit_index as int);
                    }
                    assert(after.leader_logs.contains((term, log)));
                } else {
                    let i = choose|i: int| 0 <= i < step.outbox.len() && step.outbox[i] == envelope;
                    assert(sent_in_order(replica, event.delivered(), fresh, step.outbox[i]));
                    assert(next.replicas[a] == fresh);
                    assert(after.leader_logs.contains((term, fresh.log)));
                    if commit_index >= 1 {
                        assert(next.replicas[a].commit_index >= 1);
                    }
                }
            },
            _ => {},
        }
    }
}

} // verus!
