//! Leader completeness: an entry that a Leader has committed is held, at the
//! same place, by every Leader of the same or a later term from then on.
//!
//! An entry is chosen once a strict majority of the replicas have held it
//! while in its term. The proof keeps, for every place of every term, one of
//! two things true of each winner of a later term: the winner's log holds
//! the entry of that term at that place, or the place is dead for that
//! term, which is to say that a strict majority has moved past the term
//! without ever holding such an entry, so that none can be chosen any more.

use crate::cluster::Cluster;
use crate::election::{lemma_majorities_meet, vote_envelope};
use crate::log_store::last_log_term;
use crate::matching::{blank, covers, holds, lemma_initial_log_inv, log_inv, record, History};
use crate::model::{count_true, ReplicaView};
use crate::types::{Envelope, Log, MessageView, State};
use vstd::prelude::*;

verus! {

/// A strict majority of a cluster of `size` replicas, as flags by id.
pub open spec fn is_quorum(flags: Seq<bool>, size: nat) -> bool {
    flags.len() == size && 2 * count_true(flags) > size
}

/// Every flagged replica has held an entry of `term` at place `k` while in
/// that term.
pub open spec fn held_by_all(flags: Seq<bool>, history: History, term: usize, k: int) -> bool {
    forall|w: int|
        0 <= w < flags.len() && #[trigger] flags[w] ==> history.acked.contains(
            (w as usize, term, k),
        )
}

/// Place `k` is chosen for `term`: a strict majority has held an entry of
/// that term there while in that term.
pub open spec fn chosen(cluster: Cluster, history: History, term: usize, k: int) -> bool {
    exists|flags: Seq<bool>|
        is_quorum(flags, cluster.replicas.len()) && #[trigger] held_by_all(flags, history, term, k)
}

/// Every flagged replica has moved past `term` without ever holding an
/// entry of that term at place `k` while in it.
pub open spec fn shunned_by_all(
    flags: Seq<bool>,
    cluster: Cluster,
    history: History,
    term: usize,
    k: int,
) -> bool {
    forall|w: int|
        0 <= w < flags.len() && #[trigger] flags[w] ==> cluster.replicas[w].current_term > term
            && !history.acked.contains((w as usize, term, k))
}

/// Place `k` is dead for `term`: a strict majority has moved past the term
/// without holding an entry of it there, so that the place can no longer be
/// chosen for that term.
pub open spec fn dead(cluster: Cluster, history: History, term: usize, k: int) -> bool {
    exists|flags: Seq<bool>|
        is_quorum(flags, cluster.replicas.len()) && #[trigger] shunned_by_all(
            flags,
            cluster,
            history,
            term,
            k,
        )
}

/// A log on record that holds a chosen entry.
pub open spec fn anchor(cluster: Cluster, history: History, log: Seq<Log>, term: usize, k: int) -> bool {
    history.logs.contains(log) && holds(log, term, k) && chosen(cluster, history, term, k)
}

/// The first `upto` entries of `log` are fixed: they are the first entries
/// of a log on record that holds, at or beyond the last of them, an entry
/// chosen in a term not after `bound`.
pub open spec fn fixed(
    cluster: Cluster,
    history: History,
    log: Seq<Log>,
    bound: usize,
    upto: int,
) -> bool {
    exists|other: Seq<Log>, term: usize, k: int| #[trigger]
        anchor(cluster, history, other, term, k) && term <= bound && k >= upto - 1 && log.len()
            >= upto && log.take(upto) == other.take(upto)
}

/// The terms of a log never fall from one entry to the next.
pub open spec fn sorted(log: Seq<Log>) -> bool {
    forall|i: int, j: int| 0 <= i <= j < log.len() ==> (#[trigger] log[i]).term <= (#[trigger] log[j]).term
}

/// `log` is `base` followed by entries of `term` only.
pub open spec fn extends_with(log: Seq<Log>, base: Seq<Log>, term: usize) -> bool {
    &&& log.len() >= base.len()
    &&& log.take(base.len() as int) == base
    &&& forall|k: int| base.len() <= k < log.len() ==> (#[trigger] log[k]).term == term
}

/// Every entry of the log is of a term below `term`.
pub open spec fn below(log: Seq<Log>, term: usize) -> bool {
    forall|k: int| 0 <= k < log.len() ==> (#[trigger] log[k]).term < term
}

/// Replica `p` has held, while in `term`, every entry of that term among
/// the first `upto` of `log`.
pub open spec fn held_along(history: History, p: usize, term: usize, log: Seq<Log>, upto: int) -> bool {
    forall|k: int|
        0 <= k < upto && holds(log, term, k) ==> #[trigger] history.acked.contains((p, term, k))
}

/// Every record of an entry held is of a replica that has reached the term.
pub open spec fn acks_sound(cluster: Cluster, history: History) -> bool {
    forall|w: usize, term: usize, k: int| #[trigger]
        history.acked.contains((w, term, k)) ==> w < cluster.replicas.len()
            && cluster.replicas[w as int].current_term >= term && k >= 0
}

/// Every entry of its own term that a replica holds is on record as held.
pub open spec fn own_acked(cluster: Cluster, history: History) -> bool {
    forall|i: int, k: int|
        0 <= i < cluster.replicas.len() && holds(
            cluster.replicas[i].log,
            cluster.replicas[i].current_term,
            k,
        ) ==> #[trigger] history.acked.contains((i as usize, cluster.replicas[i].current_term, k))
}

/// An entry that a replica held while in its term, and holds no longer, is
/// dead.
pub open spec fn lost_dead(cluster: Cluster, history: History) -> bool {
    forall|w: usize, term: usize, k: int| #[trigger]
        history.acked.contains((w, term, k)) ==> holds(cluster.replicas[w as int].log, term, k)
            || dead(cluster, history, term, k)
}

/// For every winner and every place of every earlier term: the log that the
/// winner took office with holds an entry of that term there, or the place
/// is dead for that term.
pub open spec fn winners_safe(cluster: Cluster, history: History) -> bool {
    forall|won: usize, term: usize, k: int|
        history.winners.dom().contains(won) && term < won && 0 <= k ==> #[trigger] holds(
            history.winners[won].log,
            term,
            k,
        ) || dead(cluster, history, term, k)
}

/// A vote on the network was asked for: its candidate exists and has
/// reached the vote's term.
pub open spec fn votes_asked(cluster: Cluster) -> bool {
    forall|voter: usize, term: usize, candidate: usize| #[trigger]
        cluster.network.contains(vote_envelope(voter, term, candidate)) ==> candidate
            < cluster.replicas.len() && cluster.replicas[candidate as int].current_term >= term
}

/// For every vote on the network whose candidate still stands in the
/// vote's term, and every entry of an earlier term that the voter has held:
/// the candidate's log holds an entry of that term there, or the place is
/// dead for that term.
pub open spec fn votes_safe(cluster: Cluster, history: History) -> bool {
    forall|voter: usize, won: usize, candidate: usize, term: usize, k: int|
        #[trigger] cluster.network.contains(vote_envelope(voter, won, candidate)) && candidate
            < cluster.replicas.len() && cluster.replicas[candidate as int].state
            == State::Candidate && cluster.replicas[candidate as int].current_term == won && term
            < won && #[trigger] history.acked.contains((voter, term, k)) ==> holds(
            cluster.replicas[candidate as int].log,
            term,
            k,
        ) || dead(cluster, history, term, k)
}

/// A request for a vote comes from a replica that has reached its term, and
/// while that replica stands in that term, the request tells where the
/// replica's log ends.
pub open spec fn request_true(cluster: Cluster, envelope: Envelope) -> bool {
    envelope.msg matches MessageView::RequestVoteRequest {
        from_id,
        term,
        last_log_index,
        last_log_term,
    } ==> {
        let candidate = cluster.replicas[from_id as int];
        &&& from_id < cluster.replicas.len()
        &&& term <= candidate.current_term
        &&& candidate.state == State::Candidate && candidate.current_term == term ==> {
            &&& last_log_index == candidate.log.len()
            &&& last_log_term == crate::log_store::last_log_term(candidate.log)
        }
    }
}

/// Every request for a vote on the network is true.
pub open spec fn requests_true(cluster: Cluster) -> bool {
    forall|envelope: Envelope| #[trigger]
        cluster.network.contains(envelope) ==> request_true(cluster, envelope)
}

/// The replica holds no entry of a later term than its own, and none of its
/// own term if it is a Candidate.
pub open spec fn bounded(replica: ReplicaView) -> bool {
    forall|k: int|
        0 <= k < replica.log.len() ==> {
            &&& (#[trigger] replica.log[k]).term <= replica.current_term
            &&& replica.state == State::Candidate ==> replica.log[k].term < replica.current_term
        }
}

/// No replica holds an entry of a later term than its own, and a Candidate
/// holds none of its own term.
pub open spec fn terms_bounded(cluster: Cluster) -> bool {
    forall|i: int| 0 <= i < cluster.replicas.len() ==> bounded(#[trigger] cluster.replicas[i])
}

/// Every log on record is sorted by term.
pub open spec fn logs_sorted(history: History) -> bool {
    forall|log: Seq<Log>| #[trigger] history.logs.contains(log) ==> sorted(log)
}

/// The log that a winner took office with is on record and holds entries of
/// earlier terms only.
pub open spec fn winners_logged(history: History) -> bool {
    forall|won: usize| #[trigger]
        history.winners.dom().contains(won) ==> history.logs.contains(history.winners[won].log)
            && below(history.winners[won].log, won)
}

/// Every entry of `term` in `log` sits on top of `base`: the log begins
/// with `base`, and holds such entries only beyond it.
pub open spec fn sits_on(log: Seq<Log>, term: usize, base: Seq<Log>) -> bool {
    forall|k: int| #[trigger]
        holds(log, term, k) ==> k >= base.len() && log.take(base.len() as int) == base
}

/// Every entry of a won term, in any log on record, sits on top of the log
/// that the winner took office with.
pub open spec fn entries_on_top(history: History) -> bool {
    forall|log: Seq<Log>, won: usize|
        #[trigger] history.logs.contains(log) && #[trigger] history.winners.dom().contains(won)
            ==> sits_on(log, won, history.winners[won].log)
}

/// Wherever `x` holds an entry of a term, `y` holds one of that term too if
/// it holds one at any later place.
pub open spec fn runs(x: Seq<Log>, y: Seq<Log>) -> bool {
    forall|term: usize, i: int, k: int|
        #[trigger] holds(x, term, i) && #[trigger] holds(y, term, k) && i <= k ==> holds(y, term, i)
}

/// The entries of one term form one run: a log that holds an entry of a
/// term at a place holds entries of that term at every earlier place where
/// any log on record does.
pub open spec fn terms_in_runs(history: History) -> bool {
    forall|x: Seq<Log>, y: Seq<Log>|
        #[trigger] history.logs.contains(x) && #[trigger] history.logs.contains(y) ==> runs(x, y)
}

/// Every log on record as a Leader's is that of a winner: the log it took
/// office with, followed by entries of its own term only.
pub open spec fn leader_logs_sound(history: History) -> bool {
    forall|term: usize, log: Seq<Log>| #[trigger]
        history.leader_logs.contains((term, log)) ==> {
            &&& history.winners.dom().contains(term)
            &&& history.logs.contains(log)
            &&& extends_with(log, history.winners[term].log, term)
        }
}

/// The log of every Leader is on record as such.
pub open spec fn leaders_logged(cluster: Cluster, history: History) -> bool {
    forall|i: int|
        0 <= i < cluster.replicas.len() && (#[trigger] cluster.replicas[i]).state == State::Leader
            ==> history.leader_logs.contains(
            (cluster.replicas[i].current_term, cluster.replicas[i].log),
        )
}

/// An append request is an excerpt of a log of the Leader of its term, and
/// what it calls committed is fixed.
pub open spec fn request_led(cluster: Cluster, history: History, envelope: Envelope) -> bool {
    envelope.msg matches MessageView::AppendEntryRequest { term, commit_index, .. } ==> exists|
        log: Seq<Log>,
    |
        {
            &&& #[trigger] history.leader_logs.contains((term, log))
            &&& covers(log, envelope)
            &&& commit_index <= log.len()
            &&& commit_index >= 1 ==> fixed(cluster, history, log, term, commit_index as int)
        }
}

/// Every append request on the network comes from a Leader's log.
pub open spec fn requests_led(cluster: Cluster, history: History) -> bool {
    forall|envelope: Envelope| #[trigger]
        cluster.network.contains(envelope) ==> request_led(cluster, history, envelope)
}

/// A success response tells what its sender has held: every entry of the
/// response's term among the first `last_index` of some log of that term's
/// Leader.
pub open spec fn response_held(history: History, size: nat, envelope: Envelope) -> bool {
    envelope.msg matches MessageView::AppendEntryResponse { from_id, term, success, last_index }
        ==> (success ==> from_id < size && exists|log: Seq<Log>|
        {
            &&& #[trigger] history.leader_logs.contains((term, log))
            &&& log.len() >= last_index
            &&& held_along(history, from_id, term, log, last_index as int)
        })
}

/// Every success response on the network is borne out.
pub open spec fn responses_held(cluster: Cluster, history: History) -> bool {
    forall|envelope: Envelope| #[trigger]
        cluster.network.contains(envelope) ==> response_held(
            history,
            cluster.replicas.len(),
            envelope,
        )
}

/// What a Leader counts as matched on a replica, that replica has held.
pub open spec fn matches_held(cluster: Cluster, history: History) -> bool {
    forall|i: int, p: int, k: int|
        0 <= i < cluster.replicas.len() && cluster.replicas[i].state == State::Leader && 0 <= p
            < cluster.replicas.len() && p != i && 0 <= k < cluster.replicas[i].match_index[p]
            && holds(cluster.replicas[i].log, cluster.replicas[i].current_term, k)
            ==> #[trigger] history.acked.contains((p as usize, cluster.replicas[i].current_term, k))
}

/// What a replica has committed is fixed.
pub open spec fn commits_fixed(cluster: Cluster, history: History) -> bool {
    forall|i: int|
        0 <= i < cluster.replicas.len() && (#[trigger] cluster.replicas[i]).commit_index >= 1
            ==> fixed(
            cluster,
            history,
            cluster.replicas[i].log,
            cluster.replicas[i].current_term,
            cluster.replicas[i].commit_index as int,
        )
}

/// The invariant from which leader completeness follows.
#[verifier::opaque]
pub open spec fn complete_inv(cluster: Cluster, history: History) -> bool {
    &&& log_inv(cluster, history)
    &&& acks_sound(cluster, history)
    &&& own_acked(cluster, history)
    &&& lost_dead(cluster, history)
    &&& winners_safe(cluster, history)
    &&& votes_asked(cluster)
    &&& votes_safe(cluster, history)
    &&& requests_true(cluster)
    &&& terms_bounded(cluster)
    &&& logs_sorted(history)
    &&& winners_logged(history)
    &&& entries_on_top(history)
    &&& terms_in_runs(history)
    &&& leader_logs_sound(history)
    &&& leaders_logged(cluster, history)
    &&& requests_led(cluster, history)
    &&& responses_held(cluster, history)
    &&& matches_held(cluster, history)
    &&& commits_fixed(cluster, history)
}

/// A place cannot be both chosen and dead for a term.
pub proof fn lemma_chosen_not_dead(cluster: Cluster, history: History, term: usize, k: int)
    requires
        chosen(cluster, history, term, k),
    ensures
        !dead(cluster, history, term, k),
{
    if dead(cluster, history, term, k) {
        let holders = choose|flags: Seq<bool>|
            is_quorum(flags, cluster.replicas.len()) && #[trigger] held_by_all(
                flags,
                history,
                term,
                k,
            );
        let shunners = choose|flags: Seq<bool>|
            is_quorum(flags, cluster.replicas.len()) && #[trigger] shunned_by_all(
                flags,
                cluster,
                history,
                term,
                k,
            );
        lemma_majorities_meet(holders, shunners);
        let w = choose|w: int| 0 <= w < holders.len() && #[trigger] holders[w] && shunners[w];
        assert(history.acked.contains((w as usize, term, k)));
    }
}

/// What is fixed up to one place is fixed up to every earlier place, and
/// under every later bound.
pub proof fn lemma_fixed_below(
    cluster: Cluster,
    history: History,
    log: Seq<Log>,
    bound: usize,
    upto: int,
    wider: usize,
    less: int,
)
    requires
        fixed(cluster, history, log, bound, upto),
        bound <= wider,
        0 <= less <= upto,
    ensures
        fixed(cluster, history, log, wider, less),
{
    let (other, term, k) = choose|other: Seq<Log>, term: usize, k: int| #[trigger]
        anchor(cluster, history, other, term, k) && term <= bound && k >= upto - 1 && log.len()
            >= upto && log.take(upto) == other.take(upto);
    assert(other.len() >= upto);
    assert forall|i: int| 0 <= i < less implies log[i] == other[i] by {
        assert(log.take(upto)[i] == log[i]);
        assert(other.take(upto)[i] == other[i]);
    }
    assert(log.take(less) =~= other.take(less));
    assert(anchor(cluster, history, other, term, k));
}

/// Another log with the same first entries is fixed as far as the first.
pub proof fn lemma_fixed_for_equal(
    cluster: Cluster,
    history: History,
    log: Seq<Log>,
    bound: usize,
    upto: int,
    twin: Seq<Log>,
)
    requires
        fixed(cluster, history, log, bound, upto),
        0 <= upto <= twin.len(),
        twin.take(upto) == log.take(upto),
    ensures
        fixed(cluster, history, twin, bound, upto),
{
    let (other, term, k) = choose|other: Seq<Log>, term: usize, k: int| #[trigger]
        anchor(cluster, history, other, term, k) && term <= bound && k >= upto - 1 && log.len()
            >= upto && log.take(upto) == other.take(upto);
    assert(anchor(cluster, history, other, term, k));
}

/// A new cluster satisfies the invariant, with a blank record.
pub proof fn lemma_initial_complete_inv(size: usize)
    ensures
        complete_inv(Cluster::initial(size), blank()),
{
    reveal(complete_inv);
    lemma_initial_log_inv(size);
    let cluster = Cluster::initial(size);
    let history = blank();
    assert forall|log: Seq<Log>| #[trigger] history.logs.contains(log) implies sorted(log) by {
        assert(log =~= Seq::<Log>::empty());
    }
    assert forall|x: Seq<Log>, y: Seq<Log>|
        #[trigger] history.logs.contains(x) && #[trigger] history.logs.contains(y) implies runs(
        x,
        y,
    ) by {
        assert(x =~= Seq::<Log>::empty());
    }
}

} // verus!
