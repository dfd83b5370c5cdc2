//! The replica state machine: executable counterpart of the model, one
//! method per kind of event.

use crate::log_store::{apply_range, batch_follows, delta_sum, find_conflict, is_up_to_date, last_term_of, matches_prev, merge_at, tail_from, term_of};
use crate::model::{advances, count_true, is_majority, lemma_initial_wf, lemma_merged_wf, lemma_on_control_advances, lemma_on_control_wf, lemma_on_heartbeat_advances, lemma_on_heartbeat_wf, lemma_on_message_advances, lemma_on_message_wf, lemma_on_timeout_advances, lemma_on_timeout_wf, others, ReplicaView, Step};
use crate::types::{envelopes, ControlMessage, Log, Message, Outbound, ReplicaStatus, State};
use vstd::prelude::*;

verus! {

/// What the surrounding event loop has to do after an event: the messages to
/// send, and whether to rearm the election timer.
#[derive(Debug)]
pub struct Effects {
    pub outbox: Vec<Outbound>,
    pub reset_timer: bool,
}

impl Effects {
    /// The effects are those of the given step of the model.
    pub open spec fn carries(&self, step: Step) -> bool {
        envelopes(self.outbox@) == step.outbox && self.reset_timer == step.reset_timer
    }

    fn none(reset_timer: bool) -> (effects: Effects)
        ensures
            envelopes(effects.outbox@) == Seq::<crate::types::Envelope>::empty(),
            effects.reset_timer == reset_timer,
    {
        let effects = Effects { outbox: Vec::new(), reset_timer };
        assert(envelopes(effects.outbox@) =~= Seq::<crate::types::Envelope>::empty());
        effects
    }

    fn single(message: Outbound, reset_timer: bool) -> (effects: Effects)
        ensures
            envelopes(effects.outbox@) == seq![message@],
            effects.reset_timer == reset_timer,
    {
        let mut outbox: Vec<Outbound> = Vec::new();
        outbox.push(message);
        let effects = Effects { outbox, reset_timer };
        assert(envelopes(effects.outbox@) =~= seq![message@]);
        effects
    }
}

/// A vector of `len` copies of `value`.
fn filled<T: Copy>(len: usize, value: T) -> (v: Vec<T>)
    ensures
        v@ == Seq::new(len as nat, |p: int| value),
{
    let mut v: Vec<T> = Vec::new();
    let mut k: usize = 0;
    while k < len
        invariant
            k <= len,
            v@ == Seq::new(k as nat, |p: int| value),
        decreases len - k,
    {
        v.push(value);
        k += 1;
        assert(v@ =~= Seq::new(k as nat, |p: int| value));
    }
    v
}

/// Number of `true` flags in a vector.
pub fn count_flags(flags: &Vec<bool>) -> (count: usize)
    ensures
        count == count_true(flags@),
{
    let mut count: usize = 0;
    let mut k: usize = 0;
    while k < flags.len()
        invariant
            k <= flags.len(),
            count <= k,
            count == count_true(flags@.take(k as int)),
        decreases flags.len() - k,
    {
        assert(flags@.take(k + 1).drop_last() =~= flags@.take(k as int));
        if flags[k] {
            count += 1;
        }
        k += 1;
    }
    assert(flags@.take(flags.len() as int) =~= flags@);
    count
}

/// Whether `count` replicas are a strict majority of a cluster.
pub fn majority(count: usize, cluster_size: usize) -> (yes: bool)
    ensures
        yes == is_majority(count as nat, cluster_size),
{
    count > cluster_size / 2
}

/// One replica of the cluster.
pub struct Replica {
    id: usize,
    cluster_size: usize,
    state: State,
    connected: bool,
    current_term: usize,
    voted_for: Option<usize>,
    commit_index: usize,
    last_applied: usize,
    value: i32,
    log: Vec<Log>,
    votes: Vec<bool>,
    next_index: Vec<usize>,
    match_index: Vec<usize>,
}

impl View for Replica {
    type V = ReplicaView;

    closed spec fn view(&self) -> ReplicaView {
        ReplicaView {
            id: self.id,
            cluster_size: self.cluster_size,
            state: self.state,
            connected: self.connected,
            current_term: self.current_term,
            voted_for: self.voted_for,
            commit_index: self.commit_index,
            last_applied: self.last_applied,
            value: self.value,
            log: self.log@,
            votes: self.votes@,
            next_index: self.next_index@,
            match_index: self.match_index@,
        }
    }
}

impl Replica {
    /// Well-formedness, as the model defines it.
    pub open spec fn wf(&self) -> bool {
        self@.wf()
    }

    /// Creates replica `id` of a cluster of `cluster_size` replicas, whose
    /// ids are `0..cluster_size`: a connected Follower in term 0 with an
    /// empty log. There is no such replica if `id` is not below
    /// `cluster_size`.
    pub fn new(id: usize, cluster_size: usize) -> (replica: Option<Replica>)
        ensures
            replica is Some <==> id < cluster_size,
            replica matches Some(r) ==> r.wf() && r@ == ReplicaView::initial(id, cluster_size),
    {
        if id >= cluster_size {
            return None;
        }
        let replica = Replica {
            id,
            cluster_size,
            state: State::Follower,
            connected: true,
            current_term: 0,
            voted_for: None,
            commit_index: 0,
            last_applied: 0,
            value: 0,
            log: Vec::new(),
            votes: filled(cluster_size, false),
            next_index: filled(cluster_size, 1usize),
            match_index: filled(cluster_size, 0usize),
        };
        proof {
            lemma_initial_wf(id, cluster_size);
            assert(replica@ =~= ReplicaView::initial(id, cluster_size));
        }
        Some(replica)
    }

    /// The id of the replica.
    pub fn id(&self) -> (id: usize)
        ensures
            id == self@.id,
    {
        self.id
    }

    /// The number of replicas in the cluster.
    pub fn cluster_size(&self) -> (cluster_size: usize)
        ensures
            cluster_size == self@.cluster_size,
    {
        self.cluster_size
    }

    /// The role of the replica.
    pub fn state(&self) -> (state: State)
        ensures
            state == self@.state,
    {
        self.state
    }

    /// Whether the replica is connected to the others.
    pub fn is_connected(&self) -> (connected: bool)
        ensures
            connected == self@.connected,
    {
        self.connected
    }

    /// The current term.
    pub fn term(&self) -> (term: usize)
        ensures
            term == self@.current_term,
    {
        self.current_term
    }

    /// The candidate that the replica has voted for in the current term.
    pub fn voted_for(&self) -> (vote: Option<usize>)
        ensures
            vote == self@.voted_for,
    {
        self.voted_for
    }

    /// The highest index known to be committed.
    pub fn commit_index(&self) -> (commit_index: usize)
        ensures
            commit_index == self@.commit_index,
    {
        self.commit_index
    }

    /// The highest index applied to the value.
    pub fn last_applied(&self) -> (last_applied: usize)
        ensures
            last_applied == self@.last_applied,
    {
        self.last_applied
    }

    /// The value: the sum of the deltas applied so far.
    pub fn value(&self) -> (value: i32)
        ensures
            value == self@.value,
            self.wf() ==> value == delta_sum(self@.log.take(self@.last_applied as int)),
    {
        self.value
    }

    /// A snapshot of the replica, with a copy of its log.
    pub fn status(&self) -> (status: ReplicaStatus)
        ensures
            status.id == self@.id,
            status.state == self@.state,
            status.connected == self@.connected,
            status.value == self@.value,
            status.term == self@.current_term,
            status.commit_index == self@.commit_index,
            status.last_applied == self@.last_applied,
            status.log@ == self@.log,
    {
        let log = tail_from(&self.log, 0);
        assert(self.log@.skip(0) =~= self.log@);
        ReplicaStatus {
            id: self.id,
            state: self.state,
            connected: self.connected,
            value: self.value,
            term: self.current_term,
            commit_index: self.commit_index,
            last_applied: self.last_applied,
            log,
        }
    }

    fn observe(&mut self, term: usize)
        ensures
            final(self)@ == old(self)@.observe_term(term),
    {
        if term > self.current_term {
            self.current_term = term;
            self.state = State::Follower;
            self.voted_for = None;
        }
    }

    fn vote_request_for(&self, to: usize) -> (request: Outbound)
        ensures
            request@ == self@.vote_request_to(to),
    {
        Outbound {
            to,
            message: Message::RequestVoteRequest {
                from_id: self.id,
                term: self.current_term,
                last_log_index: self.log.len(),
                last_log_term: last_term_of(&self.log),
            },
        }
    }

    fn append_request_for(&self, to: usize) -> (request: Outbound)
        requires
            self.wf(),
            self@.state == State::Leader,
            to < self@.cluster_size,
        ensures
            request@ == self@.append_request_to(to),
    {
        let prev: usize = self.next_index[to] - 1;
        Outbound {
            to,
            message: Message::AppendEntryRequest {
                from_id: self.id,
                term: self.current_term,
                prev_log_index: prev,
                prev_log_term: term_of(&self.log, prev),
                entries: tail_from(&self.log, prev),
                commit_index: self.commit_index,
            },
        }
    }

    fn vote_requests(&self) -> (outbox: Vec<Outbound>)
        requires
            self.wf(),
        ensures
            envelopes(outbox@) == self@.vote_requests(),
    {
        let mut outbox: Vec<Outbound> = Vec::new();
        if self.connected {
            let mut p: usize = 0;
            while p < self.cluster_size
                invariant
                    self.wf(),
                    p <= self.cluster_size,
                    outbox.len() == if p <= self.id {
                        p as int
                    } else {
                        p - 1
                    },
                    forall|k: int|
                        0 <= k < outbox.len() ==> (#[trigger] outbox@[k])@
                            == self@.vote_request_to(others(self.id, self.cluster_size)[k]),
                decreases self.cluster_size - p,
            {
                if p != self.id {
                    let request = self.vote_request_for(p);
                    outbox.push(request);
                }
                p += 1;
            }
        }
        assert(envelopes(outbox@) =~= self@.vote_requests());
        outbox
    }

    fn append_requests(&self) -> (outbox: Vec<Outbound>)
        requires
            self.wf(),
            self@.state == State::Leader,
        ensures
            envelopes(outbox@) == self@.append_requests(),
    {
        let mut outbox: Vec<Outbound> = Vec::new();
        if self.connected {
            let mut p: usize = 0;
            while p < self.cluster_size
                invariant
                    self.wf(),
                    self@.state == State::Leader,
                    p <= self.cluster_size,
                    outbox.len() == if p <= self.id {
                        p as int
                    } else {
                        p - 1
                    },
                    forall|k: int|
                        0 <= k < outbox.len() ==> (#[trigger] outbox@[k])@
                            == self@.append_request_to(others(self.id, self.cluster_size)[k]),
                decreases self.cluster_size - p,
            {
                if p != self.id {
                    let request = self.append_request_for(p);
                    outbox.push(request);
                }
                p += 1;
            }
        }
        assert(envelopes(outbox@) =~= self@.append_requests());
        outbox
    }

    /// Number of replicas known to hold the log up to `index`, the replica
    /// itself included.
    fn count_holders(&self, index: usize) -> (count: usize)
        requires
            self.wf(),
        ensures
            count == count_true(self@.holders(index as int)),
    {
        let ghost holders = self@.holders(index as int);
        let mut count: usize = 0;
        let mut p: usize = 0;
        while p < self.cluster_size
            invariant
                self.wf(),
                holders == self@.holders(index as int),
                p <= self.cluster_size,
                count <= p,
                count == count_true(holders.take(p as int)),
            decreases self.cluster_size - p,
        {
            assert(holders.take(p + 1).drop_last() =~= holders.take(p as int));
            if p == self.id || self.match_index[p] >= index {
                count += 1;
            }
            p += 1;
        }
        assert(holders.take(self.cluster_size as int) =~= holders);
        count
    }

    fn is_committable(&self, index: usize) -> (yes: bool)
        requires
            self.wf(),
        ensures
            yes == self@.committable(index as int),
    {
        if self.commit_index < index && index <= self.log.len() && self.log[index - 1].term
            == self.current_term {
            let count = self.count_holders(index);
            majority(count, self.cluster_size)
        } else {
            false
        }
    }

    /// The highest index that the leader may commit; its commit index if
    /// there is none.
    fn find_quorum_index(&self) -> (index: usize)
        requires
            self.wf(),
        ensures
            index == self@.quorum_index(),
    {
        let mut index: usize = self.log.len();
        while index > self.commit_index
            invariant
                self.wf(),
                self.commit_index <= index <= self.log.len(),
                self@.quorum_index_from(index as int) == self@.quorum_index(),
            decreases index,
        {
            if self.is_committable(index) {
                return index;
            }
            index -= 1;
        }
        index
    }

    fn commit_up_to(&mut self, target: usize)
        requires
            old(self).wf(),
        ensures
            final(self)@ == old(self)@.commit_to(target as int),
    {
        if self.commit_index < target && target <= self.log.len() {
            self.value = apply_range(self.value, &self.log, self.last_applied, target);
            self.commit_index = target;
            self.last_applied = target;
        }
    }

    fn take_office(&mut self)
        requires
            old(self).wf(),
        ensures
            final(self).wf(),
            final(self)@ == old(self)@.become_leader(),
    {
        self.state = State::Leader;
        self.next_index = filled(self.cluster_size, self.log.len() + 1);
        self.match_index = filled(self.cluster_size, 0usize);
        assert(self@ =~= old(self)@.become_leader());
    }

    fn tally(&mut self) -> (effects: Effects)
        requires
            old(self).wf(),
            old(self)@.state != State::Leader,
        ensures
            final(self)@ == old(self)@.tally().replica,
            effects.carries(old(self)@.tally()),
    {
        let count = count_flags(&self.votes);
        if majority(count, self.cluster_size) {
            self.take_office();
            let outbox = self.append_requests();
            Effects { outbox, reset_timer: false }
        } else {
            Effects::none(false)
        }
    }

    fn append_reply(&self, to: usize, success: bool, last_index: usize) -> (reply: Outbound)
        ensures
            reply@ == self@.append_reply(to, success, last_index),
    {
        Outbound {
            to,
            message: Message::AppendEntryResponse {
                from_id: self.id,
                term: self.current_term,
                success,
                last_index,
            },
        }
    }

    fn request_vote(
        &mut self,
        from_id: usize,
        term: usize,
        last_log_index: usize,
        last_log_term: usize,
    ) -> (effects: Effects)
        ensures
            final(self)@ == old(self)@.on_request_vote(
                from_id,
                term,
                last_log_index,
                last_log_term,
            ).replica,
            effects.carries(
                old(self)@.on_request_vote(from_id, term, last_log_index, last_log_term),
            ),
    {
        self.observe(term);
        let free = match self.voted_for {
            None => true,
            Some(candidate) => candidate == from_id,
        };
        let granted = term >= self.current_term && free && is_up_to_date(
            last_log_term,
            last_log_index,
            &self.log,
        );
        if granted {
            self.voted_for = Some(from_id);
        }
        let reply = Outbound {
            to: from_id,
            message: Message::RequestVoteResponse {
                from_id: self.id,
                term: self.current_term,
                vote_granted: granted,
            },
        };
        Effects::single(reply, granted)
    }

    fn append_request(
        &mut self,
        from_id: usize,
        term: usize,
        prev_log_index: usize,
        prev_log_term: usize,
        entries: &Vec<Log>,
        commit_index: usize,
    ) -> (effects: Effects)
        requires
            old(self).wf(),
        ensures
            final(self)@ == old(self)@.on_append_request(
                from_id,
                term,
                prev_log_index,
                prev_log_term,
                entries@,
                commit_index,
            ).replica,
            effects.carries(
                old(self)@.on_append_request(
                    from_id,
                    term,
                    prev_log_index,
                    prev_log_term,
                    entries@,
                    commit_index,
                ),
            ),
    {
        if term < self.current_term {
            let reply = self.append_reply(from_id, false, self.log.len());
            return Effects::single(reply, false);
        }
        self.observe(term);
        self.state = State::Follower;
        let ghost follower = self@;
        if matches_prev(&self.log, prev_log_index, prev_log_term) && batch_follows(
            entries,
            prev_log_index,
        ) && entries.len() < usize::MAX - prev_log_index {
            let j = find_conflict(&self.log, prev_log_index, entries);
            if j >= entries.len() || prev_log_index + j >= self.commit_index {
                proof {
                    lemma_merged_wf(follower, prev_log_index, prev_log_term, entries@);
                }
                merge_at(&mut self.log, prev_log_index, entries, j);
                let last_new: usize = prev_log_index + entries.len();
                let target: usize = if commit_index < last_new {
                    commit_index
                } else {
                    last_new
                };
                self.commit_up_to(target);
                let reply = self.append_reply(from_id, true, last_new);
                return Effects::single(reply, true);
            }
        }
        let reply = self.append_reply(from_id, false, self.log.len());
        Effects::single(reply, true)
    }

    fn append_response(&mut self, from_id: usize, term: usize, success: bool, last_index: usize)
        requires
            old(self).wf(),
        ensures
            final(self)@ == old(self)@.on_append_response(
                from_id,
                term,
                success,
                last_index,
            ).replica,
    {
        if term > self.current_term {
            self.observe(term);
        } else if self.state == State::Leader && term == self.current_term && from_id
            < self.cluster_size && from_id != self.id {
            if success {
                let held: usize = if last_index < self.log.len() {
                    last_index
                } else {
                    self.log.len()
                };
                let matched: usize = if self.match_index[from_id] < held {
                    held
                } else {
                    self.match_index[from_id]
                };
                self.match_index.set(from_id, matched);
                self.next_index.set(from_id, matched + 1);
                let target = self.find_quorum_index();
                self.commit_up_to(target);
            } else {
                let next: usize = self.next_index[from_id];
                self.next_index.set(
                    from_id,
                    if next > 1 {
                        next - 1
                    } else {
                        1
                    },
                );
            }
        }
    }

    fn vote_response(&mut self, from_id: usize, term: usize, vote_granted: bool) -> (effects:
        Effects)
        requires
            old(self).wf(),
        ensures
            final(self)@ == old(self)@.on_vote_response(from_id, term, vote_granted).replica,
            effects.carries(old(self)@.on_vote_response(from_id, term, vote_granted)),
    {
        if term > self.current_term {
            self.observe(term);
            Effects::none(false)
        } else if self.state == State::Candidate && term == self.current_term && vote_granted
            && from_id < self.cluster_size {
            self.votes.set(from_id, true);
            self.tally()
        } else {
            Effects::none(false)
        }
    }

    /// Reacts to a message from another replica, as the model prescribes.
    pub fn handle_message(&mut self, message: Message) -> (effects: Effects)
        requires
            old(self).wf(),
        ensures
            final(self).wf(),
            final(self)@ == old(self)@.on_message(message@).replica,
            effects.carries(old(self)@.on_message(message@)),
            advances(old(self)@, final(self)@),
    {
        proof {
            lemma_on_message_advances(self@, message@);
            lemma_on_message_wf(self@, message@);
        }
        if self.state == State::Dead || !self.connected {
            return Effects::none(false);
        }
        match message {
            Message::AppendEntryRequest {
                from_id,
                term,
                prev_log_index,
                prev_log_term,
                entries,
                commit_index,
            } => self.append_request(
                from_id,
                term,
                prev_log_index,
                prev_log_term,
                &entries,
                commit_index,
            ),
            Message::AppendEntryResponse { from_id, term, success, last_index } => {
                self.append_response(from_id, term, success, last_index);
                Effects::none(false)
            },
            Message::RequestVoteRequest { from_id, term, last_log_index, last_log_term } =>
                self.request_vote(from_id, term, last_log_index, last_log_term),
            Message::RequestVoteResponse { from_id, term, vote_granted } => self.vote_response(
                from_id,
                term,
                vote_granted,
            ),
        }
    }

    /// Reacts to the election timer having fired, as the model prescribes.
    pub fn election_timeout(&mut self) -> (effects: Effects)
        requires
            old(self).wf(),
        ensures
            final(self).wf(),
            final(self)@ == old(self)@.on_timeout().replica,
            effects.carries(old(self)@.on_timeout()),
            advances(old(self)@, final(self)@),
    {
        proof {
            lemma_on_timeout_advances(self@);
            lemma_on_timeout_wf(self@);
        }
        if self.state == State::Dead {
            return Effects::none(false);
        }
        if self.state == State::Leader || self.current_term == usize::MAX {
            return Effects::none(true);
        }
        self.state = State::Candidate;
        self.current_term = self.current_term + 1;
        self.voted_for = Some(self.id);
        self.votes = filled(self.cluster_size, false);
        self.votes.set(self.id, true);
        assert(self.votes@ =~= Seq::new(self.cluster_size as nat, |p: int| p == self.id));
        let count = count_flags(&self.votes);
        if majority(count, self.cluster_size) {
            self.take_office();
            let outbox = self.append_requests();
            Effects { outbox, reset_timer: true }
        } else {
            let outbox = self.vote_requests();
            Effects { outbox, reset_timer: true }
        }
    }

    /// Reacts to the heartbeat tick, as the model prescribes.
    pub fn heartbeat(&mut self) -> (effects: Effects)
        requires
            old(self).wf(),
        ensures
            final(self).wf(),
            final(self)@ == old(self)@.on_heartbeat().replica,
            effects.carries(old(self)@.on_heartbeat()),
            advances(old(self)@, final(self)@),
    {
        proof {
            lemma_on_heartbeat_advances(self@);
            lemma_on_heartbeat_wf(self@);
        }
        if self.state == State::Leader {
            let target = self.find_quorum_index();
            self.commit_up_to(target);
            let outbox = self.append_requests();
            Effects { outbox, reset_timer: false }
        } else {
            Effects::none(false)
        }
    }

    /// Reacts to a command of the cluster driver, as the model prescribes.
    pub fn control(&mut self, command: ControlMessage) -> (effects: Effects)
        requires
            old(self).wf(),
        ensures
            final(self).wf(),
            final(self)@ == old(self)@.on_control(command).replica,
            effects.carries(old(self)@.on_control(command)),
            advances(old(self)@, final(self)@),
    {
        proof {
            lemma_on_control_advances(self@, command);
            lemma_on_control_wf(self@, command);
        }
        match command {
            ControlMessage::Up => {
                if self.state == State::Dead {
                    self.state = State::Follower;
                    Effects::none(true)
                } else {
                    Effects::none(false)
                }
            },
            ControlMessage::Down => {
                self.state = State::Dead;
                Effects::none(false)
            },
            ControlMessage::Apply(delta) => {
                if self.state == State::Leader && self.log.len() < usize::MAX - 1 {
                    let entry = Log {
                        index: self.log.len() + 1,
                        delta,
                        term: self.current_term,
                    };
                    self.log.push(entry);
                }
                Effects::none(false)
            },
            ControlMessage::Disconnect => {
                self.connected = false;
                Effects::none(false)
            },
            ControlMessage::Connect => {
                self.connected = true;
                Effects::none(false)
            },
        }
    }
}

} // verus!
