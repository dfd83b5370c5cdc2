//! Mathematical model of one replica: its state as plain values and
//! sequences, and its reaction to every event as a function from state and
//! event to next state, outgoing messages and timer request.

use crate::log_store::{delta_sum, first_conflict, follows, indexed, last_log_term, lemma_merge, merge, prev_matches, term_at, up_to_date};
use crate::types::{ControlMessage, Envelope, Log, MessageView, State};
use vstd::prelude::*;

verus! {

/// Number of `true` flags in a sequence.
pub open spec fn count_true(flags: Seq<bool>) -> nat
    decreases flags.len(),
{
    if flags.len() == 0 {
        0
    } else {
        count_true(flags.drop_last()) + if flags.last() {
            1nat
        } else {
            0nat
        }
    }
}

/// A strict majority: more than half of the cluster.
pub open spec fn is_majority(count: nat, cluster_size: usize) -> bool {
    2 * count > cluster_size
}

/// Ids of the replicas other than `id`, ascending.
pub open spec fn others(id: usize, cluster_size: usize) -> Seq<usize> {
    Seq::new(
        (cluster_size - 1) as nat,
        |k: int|
            if k < id {
                k as usize
            } else {
                (k + 1) as usize
            },
    )
}

/// State of one replica.
#[verifier::ext_equal]
pub struct ReplicaView {
    pub id: usize,
    pub cluster_size: usize,
    pub state: State,
    pub connected: bool,
    pub current_term: usize,
    pub voted_for: Option<usize>,
    pub commit_index: usize,
    pub last_applied: usize,
    pub value: i32,
    pub log: Seq<Log>,
    /// `votes[p]`: replica `p` granted its vote in the election of the
    /// current term.
    pub votes: Seq<bool>,
    /// `next_index[p]`: index of the next entry to send to replica `p`.
    pub next_index: Seq<usize>,
    /// `match_index[p]`: highest index known to be replicated on replica `p`.
    pub match_index: Seq<usize>,
}

/// Outcome of one event at one replica.
#[verifier::ext_equal]
pub struct Step {
    pub replica: ReplicaView,
    pub outbox: Seq<Envelope>,
    pub reset_timer: bool,
}

impl ReplicaView {
    /// A replica as it is created: Follower, term 0, empty log.
    pub open spec fn initial(id: usize, cluster_size: usize) -> ReplicaView {
        ReplicaView {
            id,
            cluster_size,
            state: State::Follower,
            connected: true,
            current_term: 0,
            voted_for: None,
            commit_index: 0,
            last_applied: 0,
            value: 0,
            log: Seq::empty(),
            votes: Seq::new(cluster_size as nat, |p: int| false),
            next_index: Seq::new(cluster_size as nat, |p: int| 1usize),
            match_index: Seq::new(cluster_size as nat, |p: int| 0usize),
        }
    }

    /// Well-formedness: every reaction keeps it.
    pub open spec fn wf(self) -> bool {
        &&& self.id < self.cluster_size
        &&& indexed(self.log)
        &&& self.log.len() < usize::MAX
        &&& self.last_applied <= self.commit_index <= self.log.len()
        &&& self.value == delta_sum(self.log.take(self.last_applied as int))
        &&& self.votes.len() == self.cluster_size
        &&& self.next_index.len() == self.cluster_size
        &&& self.match_index.len() == self.cluster_size
        &&& forall|p: int| 0 <= p < self.cluster_size ==> 1 <= #[trigger] self.next_index[p]
        &&& self.state == State::Leader ==> forall|p: int|
            0 <= p < self.cluster_size ==> #[trigger] self.next_index[p] <= self.log.len() + 1
        &&& self.state == State::Leader ==> forall|p: int|
            0 <= p < self.cluster_size ==> #[trigger] self.match_index[p] <= self.log.len()
    }

    /// The replica takes part in the exchange of messages.
    pub open spec fn active(self) -> bool {
        self.state != State::Dead && self.connected
    }

    /// No change, nothing sent.
    pub open spec fn idle(self) -> Step {
        Step { replica: self, outbox: Seq::empty(), reset_timer: false }
    }

    /// Adopts a term greater than the replica's own, becoming Follower with
    /// no vote cast; any other term leaves the replica as it is.
    pub open spec fn observe_term(self, term: usize) -> ReplicaView {
        if term > self.current_term {
            ReplicaView { current_term: term, state: State::Follower, voted_for: None, ..self }
        } else {
            self
        }
    }

    /// The request for a vote that a candidate sends to replica `to`.
    pub open spec fn vote_request_to(self, to: usize) -> Envelope {
        Envelope {
            to,
            msg: MessageView::RequestVoteRequest {
                from_id: self.id,
                term: self.current_term,
                last_log_index: self.log.len() as usize,
                last_log_term: last_log_term(self.log),
            },
        }
    }

    /// The append request that a leader sends to replica `to`: the entries
    /// from `next_index[to]` onward, the index and term of the entry just
    /// before them, and the leader's commit index.
    pub open spec fn append_request_to(self, to: usize) -> Envelope {
        let prev = (self.next_index[to as int] - 1) as usize;
        Envelope {
            to,
            msg: MessageView::AppendEntryRequest {
                from_id: self.id,
                term: self.current_term,
                prev_log_index: prev,
                prev_log_term: term_at(self.log, prev as int),
                entries: self.log.skip(prev as int),
                commit_index: self.commit_index,
            },
        }
    }

    /// Vote requests to every other replica; none while disconnected.
    pub open spec fn vote_requests(self) -> Seq<Envelope> {
        if self.connected {
            Seq::new(
                (self.cluster_size - 1) as nat,
                |k: int| self.vote_request_to(others(self.id, self.cluster_size)[k]),
            )
        } else {
            Seq::empty()
        }
    }

    /// Append requests to every other replica; none while disconnected.
    pub open spec fn append_requests(self) -> Seq<Envelope> {
        if self.connected {
            Seq::new(
                (self.cluster_size - 1) as nat,
                |k: int| self.append_request_to(others(self.id, self.cluster_size)[k]),
            )
        } else {
            Seq::empty()
        }
    }

    /// `holds[p]`: replica `p` is known to hold the leader's log up to
    /// `index`. The leader itself always does.
    pub open spec fn holders(self, index: int) -> Seq<bool> {
        Seq::new(self.cluster_size as nat, |p: int| p == self.id || self.match_index[p] >= index)
    }

    /// A leader may commit `index`: it lies beyond the commit index, the
    /// entry there is of the leader's own term, and a strict majority of the
    /// cluster holds the log up to it.
    pub open spec fn committable(self, index: int) -> bool {
        &&& self.commit_index < index <= self.log.len()
        &&& self.log[index - 1].term == self.current_term
        &&& is_majority(count_true(self.holders(index)), self.cluster_size)
    }

    /// The highest committable index that is at most `index`; the commit
    /// index if there is none.
    pub open spec fn quorum_index_from(self, index: int) -> int
        decreases index,
    {
        if index <= self.commit_index {
            self.commit_index as int
        } else if self.committable(index) {
            index
        } else {
            self.quorum_index_from(index - 1)
        }
    }

    /// The highest committable index; the commit index if there is none.
    pub open spec fn quorum_index(self) -> int {
        self.quorum_index_from(self.log.len() as int)
    }

    /// Moves the commit index up to `target` and applies every entry up to
    /// it. A target that is not beyond the commit index, or beyond the log,
    /// changes nothing.
    pub open spec fn commit_to(self, target: int) -> ReplicaView {
        if self.commit_index < target <= self.log.len() {
            ReplicaView {
                commit_index: target as usize,
                last_applied: target as usize,
                value: delta_sum(self.log.take(target)),
                ..self
            }
        } else {
            self
        }
    }

    /// Takes office: every other replica is assumed to need the entry after
    /// the leader's last, and to hold nothing yet.
    pub open spec fn become_leader(self) -> ReplicaView {
        ReplicaView {
            state: State::Leader,
            next_index: Seq::new(self.cluster_size as nat, |p: int| (self.log.len() + 1) as usize),
            match_index: Seq::new(self.cluster_size as nat, |p: int| 0usize),
            ..self
        }
    }

    /// Whether the vote is granted to a request, judged after the request's
    /// term has been observed: the term is not behind, no vote went to
    /// another candidate in it, and the candidate's log is up to date.
    pub open spec fn grants(
        self,
        from_id: usize,
        term: usize,
        last_log_index: usize,
        last_log_term: usize,
    ) -> bool {
        &&& term >= self.current_term
        &&& (self.voted_for is None || self.voted_for == Some(from_id))
        &&& up_to_date(last_log_term, last_log_index, self.log)
    }

    /// Reaction to a request for a vote: the request's term is observed,
    /// the vote is granted or denied, and the answer goes back to the
    /// candidate with the replica's term. Granting rearms the timer.
    pub open spec fn on_request_vote(
        self,
        from_id: usize,
        term: usize,
        last_log_index: usize,
        last_log_term: usize,
    ) -> Step {
        let seen = self.observe_term(term);
        let granted = seen.grants(from_id, term, last_log_index, last_log_term);
        Step {
            replica: if granted {
                ReplicaView { voted_for: Some(from_id), ..seen }
            } else {
                seen
            },
            outbox: seq![
                Envelope {
                    to: from_id,
                    msg: MessageView::RequestVoteResponse {
                        from_id: self.id,
                        term: seen.current_term,
                        vote_granted: granted,
                    },
                },
            ],
            reset_timer: granted,
        }
    }

    /// The replica with another log.
    pub open spec fn with_log(self, log: Seq<Log>) -> ReplicaView {
        ReplicaView { log, ..self }
    }

    /// Whether a batch is taken in: the log matches at `prev_log_index`, the
    /// batch is numbered from there, the log stays within the machine's
    /// range, and no committed entry would be cut off.
    pub open spec fn accepts(
        self,
        prev_log_index: usize,
        prev_log_term: usize,
        entries: Seq<Log>,
    ) -> bool {
        &&& prev_matches(self.log, prev_log_index, prev_log_term)
        &&& follows(entries, prev_log_index)
        &&& prev_log_index + entries.len() < usize::MAX
        &&& first_conflict(self.log, prev_log_index, entries) < entries.len() ==> prev_log_index
            + first_conflict(self.log, prev_log_index, entries) >= self.commit_index
    }

    /// The answer to an append request, addressed to replica `to`.
    pub open spec fn append_reply(self, to: usize, success: bool, last_index: usize) -> Envelope {
        Envelope {
            to,
            msg: MessageView::AppendEntryResponse {
                from_id: self.id,
                term: self.current_term,
                success,
                last_index,
            },
        }
    }

    /// Reaction to an append request. A request of an earlier term is
    /// refused with the replica's own term. Any other makes the replica a
    /// Follower of the request's term and rearms the timer; its batch is
    /// then taken in or refused. A batch taken in is merged into the log,
    /// the commit index moves up to the sender's, but not beyond the end of
    /// the batch, and the answer reports the index of the last entry of the
    /// batch. A refusal reports the index of the last entry held.
    pub open spec fn on_append_request(
        self,
        from_id: usize,
        term: usize,
        prev_log_index: usize,
        prev_log_term: usize,
        entries: Seq<Log>,
        commit_index: usize,
    ) -> Step {
        if term < self.current_term {
            Step {
                replica: self,
                outbox: seq![self.append_reply(from_id, false, self.log.len() as usize)],
                reset_timer: false,
            }
        } else {
            let follower = ReplicaView { state: State::Follower, ..self.observe_term(term) };
            if follower.accepts(prev_log_index, prev_log_term, entries) {
                let last_new = (prev_log_index + entries.len()) as usize;
                let merged = follower.with_log(merge(follower.log, prev_log_index, entries));
                let target = if commit_index < last_new {
                    commit_index
                } else {
                    last_new
                };
                let done = merged.commit_to(target as int);
                Step {
                    replica: done,
                    outbox: seq![done.append_reply(from_id, true, last_new)],
                    reset_timer: true,
                }
            } else {
                Step {
                    replica: follower,
                    outbox: seq![
                        follower.append_reply(from_id, false, follower.log.len() as usize),
                    ],
                    reset_timer: true,
                }
            }
        }
    }

    /// Reaction to the answer to an append request. A later term is
    /// observed. A Leader takes the answer of its own term from another
    /// replica: on success it raises that replica's match index to what is
    /// reported, capped by its own log, sets the next index right after it,
    /// and commits what a majority holds; on failure it moves the next index
    /// back by one, but not below 1.
    pub open spec fn on_append_response(
        self,
        from_id: usize,
        term: usize,
        success: bool,
        last_index: usize,
    ) -> Step {
        if term > self.current_term {
            self.observe_term(term).idle()
        } else if self.state == State::Leader && term == self.current_term && from_id
            < self.cluster_size && from_id != self.id {
            if success {
                let held = if last_index < self.log.len() {
                    last_index
                } else {
                    self.log.len() as usize
                };
                let matched = if self.match_index[from_id as int] < held {
                    held
                } else {
                    self.match_index[from_id as int]
                };
                let noted = ReplicaView {
                    match_index: self.match_index.update(from_id as int, matched),
                    next_index: self.next_index.update(from_id as int, (matched + 1) as usize),
                    ..self
                };
                noted.commit_to(noted.quorum_index()).idle()
            } else {
                let next = self.next_index[from_id as int];
                ReplicaView {
                    next_index: self.next_index.update(
                        from_id as int,
                        if next > 1 {
                            (next - 1) as usize
                        } else {
                            1usize
                        },
                    ),
                    ..self
                }.idle()
            }
        } else {
            self.idle()
        }
    }

    /// The step of a candidate whose votes have just changed: with a strict
    /// majority it takes office and sends its first append requests.
    pub open spec fn tally(self) -> Step {
        if is_majority(count_true(self.votes), self.cluster_size) {
            let leader = self.become_leader();
            Step { replica: leader, outbox: leader.append_requests(), reset_timer: false }
        } else {
            self.idle()
        }
    }

    /// Reaction to the answer to a request for a vote. A later term is
    /// observed. A Candidate counts a vote granted in its own term by a
    /// replica of the cluster, and takes office on a strict majority.
    pub open spec fn on_vote_response(self, from_id: usize, term: usize, vote_granted: bool) -> Step {
        if term > self.current_term {
            self.observe_term(term).idle()
        } else if self.state == State::Candidate && term == self.current_term && vote_granted
            && from_id < self.cluster_size {
            ReplicaView { votes: self.votes.update(from_id as int, true), ..self }.tally()
        } else {
            self.idle()
        }
    }

    /// Reaction to a message. A replica that is Dead or disconnected does
    /// not receive.
    pub open spec fn on_message(self, message: MessageView) -> Step {
        if !self.active() {
            self.idle()
        } else {
            match message {
                MessageView::AppendEntryRequest {
                    from_id,
                    term,
                    prev_log_index,
                    prev_log_term,
                    entries,
                    commit_index,
                } => self.on_append_request(
                    from_id,
                    term,
                    prev_log_index,
                    prev_log_term,
                    entries,
                    commit_index,
                ),
                MessageView::AppendEntryResponse { from_id, term, success, last_index } =>
                    self.on_append_response(from_id, term, success, last_index),
                MessageView::RequestVoteRequest { from_id, term, last_log_index, last_log_term } =>
                    self.on_request_vote(from_id, term, last_log_index, last_log_term),
                MessageView::RequestVoteResponse { from_id, term, vote_granted } =>
                    self.on_vote_response(from_id, term, vote_granted),
            }
        }
    }

    /// Reaction to the election timer. A Follower or Candidate starts an
    /// election in the next term and votes for itself; a Leader only rearms
    /// the timer; a Dead replica does nothing. At the last term that the
    /// machine can count the replica stays as it is.
    pub open spec fn on_timeout(self) -> Step {
        if self.state == State::Dead {
            self.idle()
        } else if self.state == State::Leader || self.current_term == usize::MAX {
            Step { replica: self, outbox: Seq::empty(), reset_timer: true }
        } else {
            let candidate = ReplicaView {
                state: State::Candidate,
                current_term: (self.current_term + 1) as usize,
                voted_for: Some(self.id),
                votes: Seq::new(self.cluster_size as nat, |p: int| p == self.id),
                ..self
            };
            if is_majority(count_true(candidate.votes), candidate.cluster_size) {
                Step {
                    replica: candidate.become_leader(),
                    outbox: candidate.become_leader().append_requests(),
                    reset_timer: true,
                }
            } else {
                Step { replica: candidate, outbox: candidate.vote_requests(), reset_timer: true }
            }
        }
    }

    /// Reaction to the heartbeat tick: a Leader commits what a majority
    /// holds and sends an append request to every other replica.
    pub open spec fn on_heartbeat(self) -> Step {
        if self.state == State::Leader {
            let leader = self.commit_to(self.quorum_index());
            Step { replica: leader, outbox: leader.append_requests(), reset_timer: false }
        } else {
            self.idle()
        }
    }

    /// Reaction to a command of the cluster driver.
    pub open spec fn on_control(self, command: ControlMessage) -> Step {
        match command {
            ControlMessage::Up => if self.state == State::Dead {
                Step {
                    replica: ReplicaView { state: State::Follower, ..self },
                    outbox: Seq::empty(),
                    reset_timer: true,
                }
            } else {
                self.idle()
            },
            ControlMessage::Down => ReplicaView { state: State::Dead, ..self }.idle(),
            ControlMessage::Apply(delta) => if self.state == State::Leader && self.log.len() + 1
                < usize::MAX {
                ReplicaView {
                    log: self.log.push(
                        Log {
                            index: (self.log.len() + 1) as usize,
                            delta,
                            term: self.current_term,
                        },
                    ),
                    ..self
                }.idle()
            } else {
                self.idle()
            },
            ControlMessage::Disconnect => ReplicaView { connected: false, ..self }.idle(),
            ControlMessage::Connect => ReplicaView { connected: true, ..self }.idle(),
        }
    }
}

/// The recursive scan for the quorum index stays between the commit index
/// and its starting point.
pub proof fn lemma_quorum_index_from_bounds(replica: ReplicaView, index: int)
    requires
        replica.commit_index <= index,
    ensures
        replica.commit_index <= replica.quorum_index_from(index) <= index,
    decreases index,
{
    if index > replica.commit_index && !replica.committable(index) {
        lemma_quorum_index_from_bounds(replica, index - 1);
    }
}

/// The quorum index is the greatest committable index, and the commit index
/// itself exactly when no index is committable.
pub proof fn lemma_quorum_index_is_greatest(replica: ReplicaView, index: int)
    requires
        replica.commit_index <= replica.log.len(),
    ensures
        replica.commit_index <= replica.quorum_index() <= replica.log.len(),
        replica.quorum_index() > replica.commit_index ==> replica.committable(
            replica.quorum_index(),
        ),
        replica.committable(index) ==> index <= replica.quorum_index(),
{
    lemma_quorum_index_from_bounds(replica, replica.log.len() as int);
    lemma_quorum_scan(replica, replica.log.len() as int, index);
}

proof fn lemma_quorum_scan(replica: ReplicaView, start: int, index: int)
    requires
        replica.commit_index <= start,
    ensures
        replica.quorum_index_from(start) > replica.commit_index ==> replica.committable(
            replica.quorum_index_from(start),
        ),
        replica.committable(index) && index <= start ==> index <= replica.quorum_index_from(start),
    decreases start,
{
    if start > replica.commit_index && !replica.committable(start) {
        lemma_quorum_scan(replica, start - 1, index);
    }
}

/// Two logs with the same first `longer` entries have the same first
/// `shorter` entries.
pub proof fn lemma_take_of_equal_takes(a: Seq<Log>, b: Seq<Log>, shorter: int, longer: int)
    requires
        0 <= shorter <= longer,
        longer <= a.len(),
        longer <= b.len(),
        a.take(longer) == b.take(longer),
    ensures
        a.take(shorter) == b.take(shorter),
{
    assert forall|i: int| 0 <= i < shorter implies a[i] == b[i] by {
        assert(a.take(longer)[i] == a[i]);
        assert(b.take(longer)[i] == b[i]);
    }
    assert(a.take(shorter) =~= b.take(shorter));
}

/// A new replica is well formed.
pub proof fn lemma_initial_wf(id: usize, cluster_size: usize)
    requires
        id < cluster_size,
    ensures
        ReplicaView::initial(id, cluster_size).wf(),
{
    let r = ReplicaView::initial(id, cluster_size);
    assert(r.log.take(0) =~= Seq::<Log>::empty());
}

/// Taking in an accepted batch keeps a replica well formed.
pub proof fn lemma_merged_wf(
    follower: ReplicaView,
    prev_log_index: usize,
    prev_log_term: usize,
    entries: Seq<Log>,
)
    requires
        follower.wf(),
        follower.state != State::Leader,
        follower.accepts(prev_log_index, prev_log_term, entries),
    ensures
        follower.with_log(merge(follower.log, prev_log_index, entries)).wf(),
        merge(follower.log, prev_log_index, entries).len() >= prev_log_index + entries.len(),
{
    lemma_merge(follower.log, prev_log_index, entries);
    let j = first_conflict(follower.log, prev_log_index, entries);
    let merged = follower.with_log(merge(follower.log, prev_log_index, entries));
    if j < entries.len() {
        lemma_take_of_equal_takes(
            merged.log,
            follower.log,
            follower.last_applied as int,
            prev_log_index + j,
        );
    }
}

/// Every reaction to a message keeps a replica well formed.
pub proof fn lemma_on_message_wf(replica: ReplicaView, message: MessageView)
    requires
        replica.wf(),
    ensures
        replica.on_message(message).replica.wf(),
{
    if replica.active() {
        match message {
            MessageView::AppendEntryRequest {
                from_id,
                term,
                prev_log_index,
                prev_log_term,
                entries,
                commit_index,
            } => {
                if term >= replica.current_term {
                    let follower = ReplicaView {
                        state: State::Follower,
                        ..replica.observe_term(term)
                    };
                    assert(follower.wf());
                    if follower.accepts(prev_log_index, prev_log_term, entries) {
                        lemma_merged_wf(follower, prev_log_index, prev_log_term, entries);
                    }
                }
            },
            MessageView::AppendEntryResponse { from_id, term, success, last_index } => {
                if term <= replica.current_term && replica.state == State::Leader && term
                    == replica.current_term && from_id < replica.cluster_size && from_id
                    != replica.id && success {
                    let step = replica.on_append_response(from_id, term, success, last_index);
                    let held = if last_index < replica.log.len() {
                        last_index
                    } else {
                        replica.log.len() as usize
                    };
                    let matched = if replica.match_index[from_id as int] < held {
                        held
                    } else {
                        replica.match_index[from_id as int]
                    };
                    let noted = ReplicaView {
                        match_index: replica.match_index.update(from_id as int, matched),
                        next_index: replica.next_index.update(
                            from_id as int,
                            (matched + 1) as usize,
                        ),
                        ..replica
                    };
                    assert(noted.wf());
                }
            },
            MessageView::RequestVoteRequest { from_id, term, last_log_index, last_log_term } => {},
            MessageView::RequestVoteResponse { from_id, term, vote_granted } => {},
        }
    }
}

/// The reaction to the election timer keeps a replica well formed.
pub proof fn lemma_on_timeout_wf(replica: ReplicaView)
    requires
        replica.wf(),
    ensures
        replica.on_timeout().replica.wf(),
{
}

/// The reaction to the heartbeat tick keeps a replica well formed.
pub proof fn lemma_on_heartbeat_wf(replica: ReplicaView)
    requires
        replica.wf(),
    ensures
        replica.on_heartbeat().replica.wf(),
{
}

/// The reaction to a command keeps a replica well formed.
pub proof fn lemma_on_control_wf(replica: ReplicaView, command: ControlMessage)
    requires
        replica.wf(),
    ensures
        replica.on_control(command).replica.wf(),
{
    match command {
        ControlMessage::Apply(delta) => {
            let next = replica.on_control(command).replica;
            assert(next.log.take(next.last_applied as int) =~= replica.log.take(
                replica.last_applied as int,
            ));
        },
        _ => {},
    }
}

/// The replica's own progress never runs backwards: neither the term nor
/// the commit index of `next` is below that of `replica`.
pub open spec fn advances(replica: ReplicaView, next: ReplicaView) -> bool {
    &&& next.current_term >= replica.current_term
    &&& next.commit_index >= replica.commit_index
}

/// No reaction to a message lowers the term or the commit index.
pub proof fn lemma_on_message_advances(replica: ReplicaView, message: MessageView)
    requires
        replica.wf(),
    ensures
        advances(replica, replica.on_message(message).replica),
{
    if replica.active() {
        match message {
            MessageView::AppendEntryRequest {
                from_id,
                term,
                prev_log_index,
                prev_log_term,
                entries,
                commit_index,
            } => {
                if term >= replica.current_term {
                    let follower = ReplicaView {
                        state: State::Follower,
                        ..replica.observe_term(term)
                    };
                    if follower.accepts(prev_log_index, prev_log_term, entries) {
                        lemma_merged_wf(follower, prev_log_index, prev_log_term, entries);
                    }
                }
            },
            _ => {
                lemma_on_message_wf(replica, message);
            },
        }
    }
}

/// The reaction to the election timer lowers neither the term nor the
/// commit index.
pub proof fn lemma_on_timeout_advances(replica: ReplicaView)
    requires
        replica.wf(),
    ensures
        advances(replica, replica.on_timeout().replica),
{
}

/// The reaction to the heartbeat tick lowers neither the term nor the
/// commit index.
pub proof fn lemma_on_heartbeat_advances(replica: ReplicaView)
    requires
        replica.wf(),
    ensures
        advances(replica, replica.on_heartbeat().replica),
{
    lemma_quorum_index_from_bounds(replica, replica.log.len() as int);
}

/// No reaction to a command lowers the term or the commit index.
pub proof fn lemma_on_control_advances(replica: ReplicaView, command: ControlMessage)
    requires
        replica.wf(),
    ensures
        advances(replica, replica.on_control(command).replica),
{
}

} // verus!
