//! Leader completeness, put together: every event keeps the invariant, so
//! every state of a run satisfies it, and what a replica has committed at
//! one state of a run stays in the log of every Leader of the same or a
//! later term at every later state.

use crate::cluster::{is_run, Cluster, Event};
use crate::commit::lemma_run_advances;
use crate::complete_commits::{lemma_keeps_commits_fixed, lemma_keeps_matches_held, lemma_keeps_requests_led, lemma_keeps_responses_held};
use crate::complete_logs::{lemma_winner_kept, lemma_fixed_stays, lemma_keeps_acks, lemma_keeps_leader_logs, lemma_keeps_requests, lemma_keeps_runs, lemma_keeps_terms, lemma_moved, moved, shape_ready};
use crate::complete_votes::{lemma_keeps_lost_dead, lemma_keeps_votes_safe, lemma_keeps_winners_safe};
use crate::completeness::{anchor, complete_inv, runs, sits_on, extends_with, fixed, lemma_chosen_not_dead, lemma_fixed_below, lemma_initial_complete_inv};
use crate::matching::{blank, log_inv, holds, holds_term_of, matching, record, History};
use crate::model::lemma_take_of_equal_takes;
use crate::types::{Log, State};
use vstd::prelude::*;

verus! {

/// Every event keeps the invariant, with the record brought up to date.
#[verifier::rlimit(60)]
pub proof fn lemma_event_keeps_complete_inv(cluster: Cluster, history: History, event: Event)
    requires
        complete_inv(cluster, history),
        cluster.enabled(event),
    ensures
        complete_inv(cluster.after(event), record(history, cluster, event)),
        moved(cluster, history, event),
{
    reveal(complete_inv);
    lemma_moved(cluster, history, event);
    assert(shape_ready(cluster, history));
    lemma_keeps_acks(cluster, history, event);
    lemma_keeps_requests(cluster, history, event);
    lemma_keeps_terms(cluster, history, event);
    lemma_keeps_leader_logs(cluster, history, event);
    lemma_keeps_runs(cluster, history, event);
    lemma_keeps_lost_dead(cluster, history, event);
    lemma_keeps_winners_safe(cluster, history, event);
    lemma_keeps_votes_safe(cluster, history, event);
    lemma_keeps_responses_held(cluster, history, event);
    lemma_keeps_matches_held(cluster, history, event);
    lemma_keeps_commits_fixed(cluster, history, event);
    lemma_keeps_requests_led(cluster, history, event);
}

/// The event by which one state of a run follows from the one before.
pub open spec fn event_between(before: Cluster, after: Cluster) -> Event {
    choose|event: Event| #[trigger] before.enabled(event) && after == before.after(event)
}

/// The record of a run up to its state `k`.
pub open spec fn history_at(trace: Seq<Cluster>, k: int) -> History
    decreases k,
{
    if k <= 0 {
        blank()
    } else {
        record(history_at(trace, k - 1), trace[k - 1], event_between(trace[k - 1], trace[k]))
    }
}

/// Every state of a run satisfies the invariant, with the record of the run
/// up to it.
#[verifier::rlimit(60)]
pub proof fn lemma_run_keeps_complete_inv(trace: Seq<Cluster>, size: usize, k: int)
    requires
        is_run(trace, size),
        0 <= k < trace.len(),
    ensures
        complete_inv(trace[k], history_at(trace, k)),
    decreases k,
{
    reveal(is_run);
    if k == 0 {
        lemma_initial_complete_inv(size);
    } else {
        lemma_run_keeps_complete_inv(trace, size, k - 1);
        assert(trace[k - 1].steps_to(trace[k]));
        let event = event_between(trace[k - 1], trace[k]);
        lemma_event_keeps_complete_inv(trace[k - 1], history_at(trace, k - 1), event);
    }
}

/// The invariant of leader completeness holds that of log matching.
pub proof fn lemma_complete_log_inv(cluster: Cluster, history: History)
    requires
        complete_inv(cluster, history),
    ensures
        log_inv(cluster, history),
{
    reveal(complete_inv);
}

/// Every state of a run but the first follows from the one before by the
/// event between them: the event is enabled, its step is in order, and the
/// record of the run grows by it.
#[verifier::rlimit(60)]
pub proof fn lemma_run_moved(trace: Seq<Cluster>, size: usize, k: int)
    requires
        is_run(trace, size),
        0 < k < trace.len(),
    ensures
        moved(trace[k - 1], history_at(trace, k - 1), event_between(trace[k - 1], trace[k])),
        trace[k] == trace[k - 1].after(event_between(trace[k - 1], trace[k])),
        history_at(trace, k) == record(
            history_at(trace, k - 1),
            trace[k - 1],
            event_between(trace[k - 1], trace[k]),
        ),
{
    lemma_run_keeps_complete_inv(trace, size, k - 1);
    lemma_complete_log_inv(trace[k - 1], history_at(trace, k - 1));
    assert(trace[k - 1].steps_to(trace[k])) by {
        reveal(is_run);
    }
    lemma_moved(trace[k - 1], history_at(trace, k - 1), event_between(trace[k - 1], trace[k]));
}

/// What is fixed at one state of a run is fixed at every later state.
#[verifier::rlimit(60)]
pub proof fn lemma_fixed_along_run(
    trace: Seq<Cluster>,
    size: usize,
    earlier: int,
    later: int,
    log: Seq<Log>,
    bound: usize,
    upto: int,
)
    requires
        is_run(trace, size),
        0 <= earlier <= later < trace.len(),
        fixed(trace[earlier], history_at(trace, earlier), log, bound, upto),
    ensures
        fixed(trace[later], history_at(trace, later), log, bound, upto),
    decreases later - earlier,
{
    if earlier < later {
        lemma_fixed_along_run(trace, size, earlier, later - 1, log, bound, upto);
        lemma_run_moved(trace, size, later);
        let event = event_between(trace[later - 1], trace[later]);
        lemma_fixed_stays(trace[later - 1], history_at(trace, later - 1), event, log, bound, upto);
    }
}

/// A Leader whose term is not before `bound` holds whatever is fixed under
/// that bound.
#[verifier::rlimit(60)]
pub proof fn lemma_leader_holds_fixed(
    cluster: Cluster,
    history: History,
    log: Seq<Log>,
    bound: usize,
    upto: int,
    b: int,
)
    requires
        complete_inv(cluster, history),
        fixed(cluster, history, log, bound, upto),
        0 <= upto,
        0 <= b < cluster.replicas.len(),
        cluster.replicas[b].state == State::Leader,
        cluster.replicas[b].current_term >= bound,
    ensures
        cluster.replicas[b].log.len() >= upto,
        cluster.replicas[b].log.take(upto) == log.take(upto),
{
    reveal(complete_inv);
    let leader = cluster.replicas[b];
    let (other, term, k) = choose|other: Seq<Log>, term: usize, k: int| #[trigger]
        anchor(cluster, history, other, term, k) && term <= bound && k >= upto - 1 && log.len()
            >= upto && log.take(upto) == other.take(upto);
    assert(holds(leader.log, term, k)) by {
        if term < leader.current_term {
            let won = leader.current_term;
            assert(history.winners.dom().contains(won));
            let base = history.winners[won].log;
            lemma_chosen_not_dead(cluster, history, term, k);
            assert(holds(base, term, k));
            assert(history.leader_logs.contains((leader.current_term, leader.log)));
            assert(extends_with(leader.log, base, won));
            assert(leader.log.take(base.len() as int)[k] == leader.log[k]);
        } else {
            assert(holds_term_of(leader.log, leader.current_term, other));
        }
    }
    assert(history.logs.contains(leader.log));
    assert(matching(leader.log, other));
    assert(leader.log.take(k + 1) == other.take(k + 1));
    lemma_take_of_equal_takes(leader.log, other, upto, k + 1);
}

/// What a replica has committed at a state of a run is fixed there, up to
/// every index that it has committed.
#[verifier::rlimit(60)]
pub proof fn lemma_run_commit_fixed(trace: Seq<Cluster>, size: usize, k: int, a: int, index: int)
    requires
        is_run(trace, size),
        0 <= k < trace.len(),
        0 <= a < trace[k].replicas.len(),
        1 <= index <= trace[k].replicas[a].commit_index,
    ensures
        index <= trace[k].replicas[a].log.len(),
        fixed(
            trace[k],
            history_at(trace, k),
            trace[k].replicas[a].log,
            trace[k].replicas[a].current_term,
            index,
        ),
{
    reveal(complete_inv);
    let committer = trace[k].replicas[a];
    lemma_run_keeps_complete_inv(trace, size, k);
    assert(committer.wf());
    assert(fixed(
        trace[k],
        history_at(trace, k),
        committer.log,
        committer.current_term,
        committer.commit_index as int,
    ));
    lemma_fixed_below(
        trace[k],
        history_at(trace, k),
        committer.log,
        committer.current_term,
        committer.commit_index as int,
        committer.current_term,
        index,
    );
}

/// At every state of a run, a Leader whose term is not before `bound` holds
/// whatever is fixed there under that bound.
#[verifier::rlimit(60)]
pub proof fn lemma_run_leader_holds_fixed(
    trace: Seq<Cluster>,
    size: usize,
    k: int,
    log: Seq<Log>,
    bound: usize,
    upto: int,
    b: int,
)
    requires
        is_run(trace, size),
        0 <= k < trace.len(),
        fixed(trace[k], history_at(trace, k), log, bound, upto),
        0 <= upto,
        0 <= b < trace[k].replicas.len(),
        trace[k].replicas[b].state == State::Leader,
        trace[k].replicas[b].current_term >= bound,
    ensures
        trace[k].replicas[b].log.len() >= upto,
        trace[k].replicas[b].log.take(upto) == log.take(upto),
{
    lemma_run_keeps_complete_inv(trace, size, k);
    lemma_leader_holds_fixed(trace[k], history_at(trace, k), log, bound, upto, b);
}

/// Leader completeness. Along any run of a cluster: if a replica has
/// committed the entry with a given index at some state, then at that state
/// and at every later one, every Leader whose term is not before the term
/// that the replica was in holds that very entry at that index.
#[verifier::rlimit(60)]
pub proof fn leader_completeness(
    trace: Seq<Cluster>,
    size: usize,
    earlier: int,
    later: int,
    a: int,
    b: int,
    index: int,
)
    requires
        is_run(trace, size),
        0 <= earlier <= later < trace.len(),
        0 <= a < trace[earlier].replicas.len(),
        1 <= index <= trace[earlier].replicas[a].commit_index,
        0 <= b < trace[later].replicas.len(),
        trace[later].replicas[b].state == State::Leader,
        trace[later].replicas[b].current_term >= trace[earlier].replicas[a].current_term,
    ensures
        index <= trace[earlier].replicas[a].log.len(),
        index <= trace[later].replicas[b].log.len(),
        trace[later].replicas[b].log[index - 1] == trace[earlier].replicas[a].log[index - 1],
{
    let committer = trace[earlier].replicas[a];
    let leader = trace[later].replicas[b];
    lemma_run_commit_fixed(trace, size, earlier, a, index);
    lemma_fixed_along_run(
        trace,
        size,
        earlier,
        later,
        committer.log,
        committer.current_term,
        index,
    );
    lemma_run_leader_holds_fixed(
        trace,
        size,
        later,
        committer.log,
        committer.current_term,
        index,
        b,
    );
    assert(leader.log.take(index)[index - 1] == leader.log[index - 1]);
    assert(committer.log.take(index)[index - 1] == committer.log[index - 1]);
}

/// Two logs that are fixed agree as far as both are fixed.
#[verifier::rlimit(60)]
pub proof fn lemma_fixed_logs_agree(
    cluster: Cluster,
    history: History,
    first: Seq<Log>,
    first_bound: usize,
    second: Seq<Log>,
    second_bound: usize,
    upto: int,
)
    requires
        complete_inv(cluster, history),
        0 <= upto,
        fixed(cluster, history, first, first_bound, upto),
        fixed(cluster, history, second, second_bound, upto),
    ensures
        first.take(upto) == second.take(upto),
{
    reveal(complete_inv);
    let (x, s, i) = choose|other: Seq<Log>, term: usize, k: int| #[trigger]
        anchor(cluster, history, other, term, k) && term <= first_bound && k >= upto - 1
            && first.len() >= upto && first.take(upto) == other.take(upto);
    let (y, t, k) = choose|other: Seq<Log>, term: usize, k: int| #[trigger]
        anchor(cluster, history, other, term, k) && term <= second_bound && k >= upto - 1
            && second.len() >= upto && second.take(upto) == other.take(upto);
    assert(matching(x, y));
    assert(runs(x, y) && runs(y, x));
    if s < t {
        lemma_anchor_below(cluster, history, x, s, i, y, t, k);
        assert(x.take(i + 1) == y.take(i + 1));
        lemma_take_of_equal_takes(x, y, upto, i + 1);
    } else if t < s {
        lemma_anchor_below(cluster, history, y, t, k, x, s, i);
        assert(x.take(k + 1) == y.take(k + 1));
        lemma_take_of_equal_takes(x, y, upto, k + 1);
    } else if i <= k {
        assert(holds(y, s, i));
        assert(x.take(i + 1) == y.take(i + 1));
        lemma_take_of_equal_takes(x, y, upto, i + 1);
    } else {
        assert(holds(x, t, k));
        assert(x.take(k + 1) == y.take(k + 1));
        lemma_take_of_equal_takes(x, y, upto, k + 1);
    }
}

/// A log on record that holds an entry of a later term than a chosen one
/// holds the chosen one too.
#[verifier::rlimit(60)]
pub proof fn lemma_anchor_below(
    cluster: Cluster,
    history: History,
    lower: Seq<Log>,
    term: usize,
    k: int,
    upper: Seq<Log>,
    later: usize,
    place: int,
)
    requires
        complete_inv(cluster, history),
        anchor(cluster, history, lower, term, k),
        history.logs.contains(upper),
        holds(upper, later, place),
        term < later,
    ensures
        holds(upper, term, k),
{
    reveal(complete_inv);
    assert(history.winners.dom().contains(upper[place].term));
    let base = history.winners[later].log;
    lemma_chosen_not_dead(cluster, history, term, k);
    assert(holds(base, term, k));
    assert(sits_on(upper, later, base));
    assert(upper.take(base.len() as int)[k] == upper[k]);
}

/// State machine safety. Along any run of a cluster, what one replica has
/// committed at one state and what another has committed at another are the
/// same entries, index by index.
pub proof fn committed_entries_agree(
    trace: Seq<Cluster>,
    size: usize,
    earlier: int,
    later: int,
    a: int,
    b: int,
    index: int,
)
    requires
        is_run(trace, size),
        0 <= earlier <= later < trace.len(),
        0 <= a < trace[earlier].replicas.len(),
        0 <= b < trace[later].replicas.len(),
        1 <= index <= trace[earlier].replicas[a].commit_index,
        index <= trace[later].replicas[b].commit_index,
    ensures
        index <= trace[earlier].replicas[a].log.len(),
        index <= trace[later].replicas[b].log.len(),
        trace[later].replicas[b].log[index - 1] == trace[earlier].replicas[a].log[index - 1],
{
    let first = trace[earlier].replicas[a];
    let second = trace[later].replicas[b];
    lemma_run_commit_fixed(trace, size, earlier, a, index);
    lemma_run_commit_fixed(trace, size, later, b, index);
    lemma_fixed_along_run(trace, size, earlier, later, first.log, first.current_term, index);
    lemma_run_fixed_logs_agree(
        trace,
        size,
        later,
        first.log,
        first.current_term,
        second.log,
        second.current_term,
        index,
    );
    assert(first.log.take(index)[index - 1] == first.log[index - 1]);
    assert(second.log.take(index)[index - 1] == second.log[index - 1]);
}

/// At every state of a run, two logs that are fixed there agree as far as
/// both are fixed.
pub proof fn lemma_run_fixed_logs_agree(
    trace: Seq<Cluster>,
    size: usize,
    k: int,
    first: Seq<Log>,
    first_bound: usize,
    second: Seq<Log>,
    second_bound: usize,
    upto: int,
)
    requires
        is_run(trace, size),
        0 <= k < trace.len(),
        0 <= upto,
        fixed(trace[k], history_at(trace, k), first, first_bound, upto),
        fixed(trace[k], history_at(trace, k), second, second_bound, upto),
    ensures
        first.take(upto) == second.take(upto),
{
    lemma_run_keeps_complete_inv(trace, size, k);
    lemma_fixed_logs_agree(
        trace[k],
        history_at(trace, k),
        first,
        first_bound,
        second,
        second_bound,
        upto,
    );
}

/// What is committed is never overwritten. Along any run of a cluster, an
/// entry that a replica has committed at one state is held by that replica,
/// at the same index, at every later state.
pub proof fn committed_entries_kept(
    trace: Seq<Cluster>,
    size: usize,
    earlier: int,
    later: int,
    a: int,
    index: int,
)
    requires
        is_run(trace, size),
        0 <= earlier <= later < trace.len(),
        0 <= a < trace[earlier].replicas.len(),
        1 <= index <= trace[earlier].replicas[a].commit_index,
    ensures
        a < trace[later].replicas.len(),
        index <= trace[later].replicas[a].log.len(),
        trace[later].replicas[a].log[index - 1] == trace[earlier].replicas[a].log[index - 1],
{
    lemma_run_advances(trace, size, earlier, later, a);
    committed_entries_agree(trace, size, earlier, later, a, a, index);
}

/// The winner on record for a term stays on record along a run.
#[verifier::rlimit(60)]
pub proof fn lemma_winner_along_run(
    trace: Seq<Cluster>,
    size: usize,
    earlier: int,
    later: int,
    term: usize,
)
    requires
        is_run(trace, size),
        0 <= earlier <= later < trace.len(),
        history_at(trace, earlier).winners.dom().contains(term),
    ensures
        history_at(trace, later).winners.dom().contains(term),
        history_at(trace, later).winners[term] == history_at(trace, earlier).winners[term],
    decreases later - earlier,
{
    if earlier < later {
        lemma_winner_along_run(trace, size, earlier, later - 1, term);
        lemma_run_moved(trace, size, later);
        let event = event_between(trace[later - 1], trace[later]);
        lemma_winner_kept(trace[later - 1], history_at(trace, later - 1), event, term);
    }
}

/// The Leader of a term at a state of a run is the winner on record for
/// that term.
pub proof fn lemma_run_leader_won(trace: Seq<Cluster>, size: usize, k: int, a: int)
    requires
        is_run(trace, size),
        0 <= k < trace.len(),
        0 <= a < trace[k].replicas.len(),
        trace[k].replicas[a].state == State::Leader,
    ensures
        history_at(trace, k).winners.dom().contains(trace[k].replicas[a].current_term),
        history_at(trace, k).winners[trace[k].replicas[a].current_term].id == a,
{
    reveal(complete_inv);
    lemma_run_keeps_complete_inv(trace, size, k);
}

/// One Leader per term, for good. Along any run of a cluster, two replicas
/// that are Leader in the same term, at the same state or at different
/// ones, are one and the same replica.
pub proof fn one_leader_per_term(
    trace: Seq<Cluster>,
    size: usize,
    earlier: int,
    later: int,
    a: int,
    b: int,
)
    requires
        is_run(trace, size),
        0 <= earlier <= later < trace.len(),
        0 <= a < trace[earlier].replicas.len(),
        0 <= b < trace[later].replicas.len(),
        trace[earlier].replicas[a].state == State::Leader,
        trace[later].replicas[b].state == State::Leader,
        trace[earlier].replicas[a].current_term == trace[later].replicas[b].current_term,
    ensures
        a == b,
{
    lemma_run_leader_won(trace, size, earlier, a);
    lemma_run_leader_won(trace, size, later, b);
    lemma_winner_along_run(trace, size, earlier, later, trace[earlier].replicas[a].current_term);
}

} // verus!
