//! Progress that is never undone: along any run of a cluster, no replica's
//! term or commit index ever falls.

use crate::cluster::{is_run, Cluster, Event};
use crate::election::lemma_run_keeps_inv;
use crate::model::{advances, lemma_on_control_advances, lemma_on_heartbeat_advances, lemma_on_message_advances, lemma_on_timeout_advances};
use vstd::prelude::*;

verus! {

/// One event lowers no replica's term or commit index, and leaves the
/// number of replicas as it is.
pub proof fn lemma_event_advances(cluster: Cluster, event: Event, i: int)
    requires
        cluster.wf(),
        cluster.enabled(event),
        0 <= i < cluster.replicas.len(),
    ensures
        cluster.after(event).replicas.len() == cluster.replicas.len(),
        advances(cluster.replicas[i], cluster.after(event).replicas[i]),
{
    let replica = cluster.replicas[event.actor() as int];
    assert(replica.wf());
    match event {
        Event::Deliver { envelope } => {
            lemma_on_message_advances(replica, envelope.msg);
        },
        Event::Timeout { replica: _ } => {
            lemma_on_timeout_advances(replica);
        },
        Event::Heartbeat { replica: _ } => {
            lemma_on_heartbeat_advances(replica);
        },
        Event::Control { replica: _, command } => {
            lemma_on_control_advances(replica, command);
        },
    }
}

/// Along a run, from an earlier state to a later one, no replica's term or
/// commit index falls.
pub proof fn lemma_run_advances(
    trace: Seq<Cluster>,
    size: usize,
    earlier: int,
    later: int,
    i: int,
)
    requires
        is_run(trace, size),
        0 <= earlier <= later < trace.len(),
        0 <= i < trace[earlier].replicas.len(),
    ensures
        trace[later].replicas.len() == trace[earlier].replicas.len(),
        advances(trace[earlier].replicas[i], trace[later].replicas[i]),
    decreases later - earlier,
{
    reveal(is_run);
    if earlier < later {
        lemma_run_advances(trace, size, earlier, later - 1, i);
        assert(trace[later - 1].steps_to(trace[later]));
        let event = choose|event: Event| #[trigger]
            trace[later - 1].enabled(event) && trace[later] == trace[later - 1].after(event);
        lemma_run_keeps_inv(trace, size, later - 1);
        lemma_event_advances(trace[later - 1], event, i);
    }
}

/// Commit monotonicity. Along any run of a cluster, the commit index of a
/// replica at a later state is at least its commit index at an earlier one.
pub proof fn commit_monotonicity(
    trace: Seq<Cluster>,
    size: usize,
    earlier: int,
    later: int,
    i: int,
)
    requires
        is_run(trace, size),
        0 <= earlier <= later < trace.len(),
        0 <= i < trace[earlier].replicas.len(),
    ensures
        trace[later].replicas[i].commit_index >= trace[earlier].replicas[i].commit_index,
{
    lemma_run_advances(trace, size, earlier, later, i);
}

/// Term monotonicity. Along any run of a cluster, the term of a replica at
/// a later state is at least its term at an earlier one.
pub proof fn term_monotonicity(
    trace: Seq<Cluster>,
    size: usize,
    earlier: int,
    later: int,
    i: int,
)
    requires
        is_run(trace, size),
        0 <= earlier <= later < trace.len(),
        0 <= i < trace[earlier].replicas.len(),
    ensures
        trace[later].replicas[i].current_term >= trace[earlier].replicas[i].current_term,
{
    lemma_run_advances(trace, size, earlier, later, i);
}

} // verus!
