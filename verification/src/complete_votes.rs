//! Why every event keeps the heart of the invariant of leader completeness:
//! an entry once held is still held or is dead, and the log of a winner, or
//! of a candidate with a vote, holds whatever the voters held or else that
//! is dead.

use crate::cluster::{Cluster, Event};
use crate::complete_logs::{lemma_accepted_source, lemma_dead_stays, lemma_message_accepts, moved, shape_ready};
use crate::completeness::{acks_sound, bounded, dead, entries_on_top, extends_with, is_quorum, logs_sorted, lost_dead, request_true, requests_true, runs, shunned_by_all, sits_on, sorted, terms_bounded, terms_in_runs, votes_asked, votes_safe, winners_safe};
use crate::election::{election_inv, standing, stands_on_votes, vote_envelope};
use crate::log_store::{agrees_at, first_conflict, last_log_term, lemma_first_conflict, merge, prev_matches, up_to_date};
use crate::matching::{holds, lemma_matching_entries, logs_known, logs_match, matching, newly_elected, record, same_race_or_later, terms_won, History};
use crate::progress::sent_in_order;
use crate::types::{Log, MessageView, State};
use vstd::prelude::*;

verus! {

/// Merging a batch into a log leaves the entry at place `k` where it is, if
/// the log and the log that the batch is an excerpt of carry the same terms
/// up to that place.
pub proof fn lemma_merge_keeps(
    log: Seq<Log>,
    source: Seq<Log>,
    prev_log_index: usize,
    prev_log_term: usize,
    entries: Seq<Log>,
    k: int,
)
    requires
        0 <= k < log.len(),
        prev_matches(log, prev_log_index, prev_log_term),
        prev_log_index + entries.len() <= source.len(),
        source.subrange(prev_log_index as int, prev_log_index + entries.len()) == entries,
        forall|i: int| 0 <= i <= k && i < source.len() ==> (#[trigger] log[i]).term == source[i].term,
    ensures
        merge(log, prev_log_index, entries).len() > k,
        merge(log, prev_log_index, entries)[k] == log[k],
{
    lemma_first_conflict(log, prev_log_index, entries, 0);
    let j = first_conflict(log, prev_log_index, entries);
    if j < entries.len() {
        let cut = prev_log_index + j;
        if j > 0 {
            assert(agrees_at(log, prev_log_index, entries, j - 1));
        }
        assert(cut <= log.len());
        if cut <= k {
            assert(source.subrange(prev_log_index as int, prev_log_index + entries.len())[j]
                == source[cut]);
            assert(log[cut].term == source[cut].term);
            assert(agrees_at(log, prev_log_index, entries, j));
        }
        assert(merge(log, prev_log_index, entries)[k] == log.take(cut)[k]);
    }
}

/// A log that holds an entry of `term` at place `k` carries, up to that
/// place, the same terms as any log of that term's Leader.
pub proof fn lemma_same_terms_in_term(
    log: Seq<Log>,
    source: Seq<Log>,
    base: Seq<Log>,
    term: usize,
    k: int,
)
    requires
        holds(log, term, k),
        sits_on(log, term, base),
        extends_with(source, base, term),
        runs(source, log),
    ensures
        forall|i: int| 0 <= i <= k && i < source.len() ==> (#[trigger] log[i]).term == source[i].term,
{
    assert forall|i: int| 0 <= i <= k && i < source.len() implies (#[trigger] log[i]).term
        == source[i].term by {
        if i < base.len() {
            assert(log.take(base.len() as int)[i] == log[i]);
            assert(source.take(base.len() as int)[i] == source[i]);
        } else {
            assert(holds(source, term, i));
            assert(holds(log, term, i));
        }
    }
}

/// A log that is at least as up to date as one that holds an entry of
/// `term` at place `k` holds such an entry too, or else `lost` is true,
/// given that: the two logs match and run along; and if the first ends in a
/// later term than the second, it sits on a base that holds the entry unless
/// `lost` is true.
pub proof fn lemma_up_to_date_holds(
    voter: Seq<Log>,
    candidate: Seq<Log>,
    term: usize,
    k: int,
    base: Seq<Log>,
    lost: bool,
)
    requires
        holds(voter, term, k),
        sorted(voter),
        candidate.len() <= usize::MAX,
        up_to_date(last_log_term(candidate), candidate.len() as usize, voter),
        matching(voter, candidate),
        runs(voter, candidate),
        last_log_term(candidate) > last_log_term(voter) ==> sits_on(
            candidate,
            last_log_term(candidate),
            base,
        ) && (holds(base, term, k) || lost),
    ensures
        holds(candidate, term, k) || lost,
{
    let last = voter.len() - 1;
    assert(voter[k].term <= voter[last].term);
    if last_log_term(candidate) == last_log_term(voter) {
        assert(candidate.len() >= voter.len());
        assert(holds(voter, voter[last].term, last));
        assert(holds(candidate, voter[last].term, candidate.len() - 1));
        assert(holds(candidate, voter[last].term, last));
        lemma_matching_entries(voter, candidate, last, k);
    } else if !lost {
        assert(candidate.len() > 0);
        assert(holds(candidate, last_log_term(candidate), candidate.len() - 1));
        assert(candidate.take(base.len() as int) == base);
        assert(candidate.take(base.len() as int)[k] == candidate[k]);
    }
}

/// An entry of its own that the event's replica held before the event, it
/// holds after it, or else the entry's place is dead.
#[verifier::rlimit(60)]
pub proof fn lemma_own_entry_kept(
    cluster: Cluster,
    history: History,
    event: Event,
    term: usize,
    k: int,
)
    requires
        moved(cluster, history, event),
        shape_ready(cluster, history),
        winners_safe(cluster, history),
        entries_on_top(history),
        terms_in_runs(history),
        holds(cluster.replicas[event.actor() as int].log, term, k),
        term <= cluster.replicas[event.actor() as int].current_term,
    ensures
        holds(cluster.reaction(event).replica.log, term, k) || dead(cluster, history, term, k),
{
    let replica = cluster.replicas[event.actor() as int];
    let fresh = cluster.reaction(event).replica;
    if fresh.log == replica.log {
    } else if replica.state == State::Leader && fresh.state == State::Leader
        && fresh.log.drop_last() == replica.log {
        assert(fresh.log.drop_last()[k] == fresh.log[k]);
    } else {
        lemma_message_accepts(cluster, event);
        let source = lemma_accepted_source(cluster, history, event);
        let leader_term = fresh.current_term;
        let base = history.winners[leader_term].log;
        assert(history.winners.dom().contains(leader_term));
        assert(extends_with(source, base, leader_term));
        assert(history.logs.contains(replica.log));
        match event.delivered()->0.msg {
            MessageView::AppendEntryRequest {
                from_id,
                term: _,
                prev_log_index,
                prev_log_term,
                entries,
                commit_index,
            } => {
                if leader_term > term {
                    assert(holds(base, term, k) || dead(cluster, history, term, k));
                    if holds(base, term, k) {
                        assert(source.take(base.len() as int)[k] == source[k]);
                        assert(holds(source, term, k));
                        assert(matching(replica.log, source));
                        assert forall|i: int| 0 <= i <= k && i < source.len() implies (
                        #[trigger] replica.log[i]).term == source[i].term by {
                            lemma_matching_entries(replica.log, source, k, i);
                        }
                        lemma_merge_keeps(
                            replica.log,
                            source,
                            prev_log_index,
                            prev_log_term,
                            entries,
                            k,
                        );
                    }
                } else {
                    assert(sits_on(replica.log, term, base));
                    assert(runs(source, replica.log));
                    lemma_same_terms_in_term(replica.log, source, base, term, k);
                    lemma_merge_keeps(
                        replica.log,
                        source,
                        prev_log_index,
                        prev_log_term,
                        entries,
                        k,
                    );
                }
            },
            _ => {},
        }
    }
}

/// Every event keeps this: an entry that a replica has held, it holds, or
/// else the entry's place is dead.
#[verifier::rlimit(60)]
pub proof fn lemma_keeps_lost_dead(cluster: Cluster, history: History, event: Event)
    requires
        moved(cluster, history, event),
        shape_ready(cluster, history),
        acks_sound(cluster, history),
        lost_dead(cluster, history),
        winners_safe(cluster, history),
        entries_on_top(history),
        terms_in_runs(history),
    ensures
        lost_dead(cluster.after(event), record(history, cluster, event)),
{
    let a = event.actor() as int;
    let next = cluster.after(event);
    let after = record(history, cluster, event);
    assert forall|w: usize, term: usize, k: int| #[trigger]
        after.acked.contains((w, term, k)) implies holds(next.replicas[w as int].log, term, k)
        || dead(next, after, term, k) by {
        if history.acked.contains((w, term, k)) {
            if dead(cluster, history, term, k) {
                lemma_dead_stays(cluster, history, event, term, k);
            } else if w != a {
                assert(next.replicas[w as int] == cluster.replicas[w as int]);
            } else {
                lemma_own_entry_kept(cluster, history, event, term, k);
            }
        }
    }
}

/// The log of a replica that takes office holds an entry of `term` at place
/// `k`, or that place is dead for that term, whatever earlier term and
/// place they are.
#[verifier::rlimit(60)]
pub proof fn lemma_new_winner_safe(
    cluster: Cluster,
    history: History,
    event: Event,
    term: usize,
    k: int,
)
    requires
        moved(cluster, history, event),
        election_inv(cluster),
        election_inv(cluster.after(event)),
        acks_sound(cluster, history),
        lost_dead(cluster, history),
        votes_asked(cluster),
        votes_safe(cluster, history),
        newly_elected(cluster.replicas[event.actor() as int], cluster.reaction(event).replica),
        term < cluster.reaction(event).replica.current_term,
        0 <= k,
    ensures
        holds(cluster.reaction(event).replica.log, term, k) || dead(
            cluster.after(event),
            record(history, cluster, event),
            term,
            k,
        ),
{
    let a = event.actor() as int;
    let replica = cluster.replicas[a];
    let fresh = cluster.reaction(event).replica;
    let won = fresh.current_term;
    let next = cluster.after(event);
    let after = record(history, cluster, event);
    assert(next.replicas[a] == fresh);
    assert(stands_on_votes(next.replicas[a]));
    assert(fresh.log == replica.log);
    if exists|x: int|
        0 <= x < fresh.votes.len() && fresh.votes[x] && #[trigger] history.acked.contains(
            (x as usize, term, k),
        ) {
        let x = choose|x: int|
            0 <= x < fresh.votes.len() && fresh.votes[x] && #[trigger] history.acked.contains(
                (x as usize, term, k),
            );
        if dead(cluster, history, term, k) {
            lemma_dead_stays(cluster, history, event, term, k);
        } else if x == a {
            assert(holds(cluster.replicas[x].log, term, k));
        } else {
            let vote = vote_envelope(x as usize, won, a as usize);
            assert(fresh.votes[x]);
            assert(cluster.network.contains(vote)) by {
                if standing(replica) && replica.current_term == fresh.current_term
                    && replica.votes[x] {
                    assert(cluster.replicas[a].votes[x]);
                }
            }
            assert(replica.current_term >= won);
            assert(same_race_or_later(replica, fresh));
            assert(replica.state == State::Candidate);
            assert(holds(cluster.replicas[a].log, term, k));
        }
    } else {
        let flags = fresh.votes;
        assert forall|w: int| 0 <= w < flags.len() && #[trigger] flags[w] implies next.replicas[w].current_term
            > term && !after.acked.contains((w as usize, term, k)) by {
            assert(!history.acked.contains((w as usize, term, k)));
            if w != a {
                assert(next.replicas[a].votes[w]);
                assert(next.network.contains(vote_envelope(w as usize, won, a as usize)));
            }
        }
        assert(shunned_by_all(flags, next, after, term, k));
        assert(is_quorum(flags, next.replicas.len()));
    }
}

/// Every event keeps this: the log that a winner took office with holds an
/// entry of every earlier term at every place that is not dead for it.
#[verifier::rlimit(60)]
pub proof fn lemma_keeps_winners_safe(cluster: Cluster, history: History, event: Event)
    requires
        moved(cluster, history, event),
        election_inv(cluster),
        election_inv(cluster.after(event)),
        acks_sound(cluster, history),
        lost_dead(cluster, history),
        winners_safe(cluster, history),
        votes_asked(cluster),
        votes_safe(cluster, history),
    ensures
        winners_safe(cluster.after(event), record(history, cluster, event)),
{
    let next = cluster.after(event);
    let after = record(history, cluster, event);
    assert forall|won: usize, term: usize, k: int|
        after.winners.dom().contains(won) && term < won && 0 <= k implies #[trigger] holds(
        after.winners[won].log,
        term,
        k,
    ) || dead(next, after, term, k) by {
        if history.winners.dom().contains(won) {
            assert(after.winners[won] == history.winners[won]);
            if !holds(history.winners[won].log, term, k) {
                lemma_dead_stays(cluster, history, event, term, k);
            }
        } else {
            lemma_new_winner_safe(cluster, history, event, term, k);
        }
    }
}

/// The vote that the event's replica sends in this step is safe: what the
/// voter has held, the candidate's log holds, or else it is dead.
#[verifier::rlimit(60)]
pub proof fn lemma_new_vote_safe(
    cluster: Cluster,
    history: History,
    event: Event,
    won: usize,
    candidate: usize,
    term: usize,
    k: int,
)
    requires
        moved(cluster, history, event),
        logs_known(cluster, history),
        logs_match(history),
        acks_sound(cluster, history),
        lost_dead(cluster, history),
        winners_safe(cluster, history),
        requests_true(cluster),
        terms_bounded(cluster),
        logs_sorted(history),
        terms_in_runs(history),
        entries_on_top(history),
        terms_won(history),
        cluster.reaction(event).outbox.contains(
            vote_envelope(event.actor(), won, candidate),
        ),
        candidate < cluster.replicas.len(),
        cluster.after(event).replicas[candidate as int].state == State::Candidate,
        cluster.after(event).replicas[candidate as int].current_term == won,
        term < won,
        history.acked.contains((event.actor(), term, k)),
    ensures
        holds(cluster.after(event).replicas[candidate as int].log, term, k) || dead(
            cluster,
            history,
            term,
            k,
        ),
{
    let a = event.actor() as int;
    let replica = cluster.replicas[a];
    let step = cluster.reaction(event);
    let fresh = step.replica;
    let next = cluster.after(event);
    let vote = vote_envelope(event.actor(), won, candidate);
    let i = choose|i: int| 0 <= i < step.outbox.len() && step.outbox[i] == vote;
    assert(sent_in_order(replica, event.delivered(), fresh, step.outbox[i]));
    let asked = event.delivered()->0;
    assert(cluster.network.contains(asked));
    assert(request_true(cluster, asked));
    assert(fresh.log == replica.log);
    assert(holds(replica.log, term, k) || dead(cluster, history, term, k));
    if holds(replica.log, term, k) {
        if candidate == a {
        } else {
            let rival = cluster.replicas[candidate as int];
            assert(next.replicas[candidate as int] == rival);
            assert(rival.wf());
            assert(history.logs.contains(replica.log));
            assert(history.logs.contains(rival.log));
            assert(matching(replica.log, rival.log));
            assert(runs(replica.log, rival.log));
            assert(sorted(replica.log));
            assert(bounded(rival));
            let top = last_log_term(rival.log);
            let base = history.winners[top].log;
            if top > last_log_term(replica.log) {
                let last = rival.log.len() - 1;
                assert(rival.log.len() > 0);
                assert(rival.log[last].term < won);
                assert(history.winners.dom().contains(rival.log[last].term));
                assert(sits_on(rival.log, top, base));
                assert(replica.log[k].term <= replica.log[replica.log.len() - 1].term);
                assert(holds(base, term, k) || dead(cluster, history, term, k));
            }
            lemma_up_to_date_holds(
                replica.log,
                rival.log,
                term,
                k,
                base,
                dead(cluster, history, term, k),
            );
        }
    }
}

/// Every event keeps this: for every vote whose candidate still stands,
/// what the voter held in earlier terms the candidate's log holds, or else
/// it is dead.
#[verifier::rlimit(60)]
pub proof fn lemma_keeps_votes_safe(cluster: Cluster, history: History, event: Event)
    requires
        moved(cluster, history, event),
        election_inv(cluster.after(event)),
        logs_known(cluster, history),
        logs_match(history),
        acks_sound(cluster, history),
        lost_dead(cluster, history),
        winners_safe(cluster, history),
        votes_asked(cluster),
        votes_safe(cluster, history),
        requests_true(cluster),
        terms_bounded(cluster),
        logs_sorted(history),
        terms_in_runs(history),
        entries_on_top(history),
        terms_won(history),
    ensures
        votes_safe(cluster.after(event), record(history, cluster, event)),
{
    let a = event.actor() as int;
    let replica = cluster.replicas[a];
    let step = cluster.reaction(event);
    let fresh = step.replica;
    let next = cluster.after(event);
    let after = record(history, cluster, event);
    assert forall|voter: usize, won: usize, candidate: usize, term: usize, k: int|
        #[trigger] next.network.contains(vote_envelope(voter, won, candidate)) && candidate
            < next.replicas.len() && next.replicas[candidate as int].state == State::Candidate
            && next.replicas[candidate as int].current_term == won && term < won
            && #[trigger] after.acked.contains((voter, term, k)) implies holds(
        next.replicas[candidate as int].log,
        term,
        k,
    ) || dead(next, after, term, k) by {
        let vote = vote_envelope(voter, won, candidate);
        assert(voter < next.replicas.len()) by {
            if !history.acked.contains((voter, term, k)) {
                assert(voter == a);
            }
        }
        assert(next.replicas[voter as int].current_term >= won);
        assert(history.acked.contains((voter, term, k)));
        if cluster.network.contains(vote) {
            if candidate != a {
                assert(next.replicas[candidate as int] == cluster.replicas[candidate as int]);
            } else {
                assert(replica.current_term >= won);
                assert(same_race_or_later(replica, fresh));
                assert(fresh.log == replica.log);
            }
            assert(holds(cluster.replicas[candidate as int].log, term, k) || dead(
                cluster,
                history,
                term,
                k,
            ));
        } else {
            assert(step.outbox.contains(vote));
            let i = choose|i: int| 0 <= i < step.outbox.len() && step.outbox[i] == vote;
            assert(sent_in_order(replica, event.delivered(), fresh, step.outbox[i]));
            assert(voter == a);
            lemma_new_vote_safe(cluster, history, event, won, candidate, term, k);
        }
        if dead(cluster, history, term, k) {
            lemma_dead_stays(cluster, history, event, term, k);
        }
    }
}

} // verus!
