//! Plain data exchanged between replicas and with the cluster driver.

use vstd::prelude::*;

verus! {

/// Role of a replica.
#[derive(Clone, Copy, PartialEq, Eq, Debug, Structural)]
pub enum State {
    Follower,
    Candidate,
    Leader,
    Dead,
}

/// Command issued to one replica by the cluster driver.
#[derive(Clone, Copy, Debug)]
pub enum ControlMessage {
    Up,
    Down,
    Apply(i32),
    Disconnect,
    Connect,
}

/// One log entry: a delta stamped with its 1-based index and the term of the
/// leader that appended it.
#[derive(Clone, Copy, PartialEq, Eq, Debug, Structural)]
pub struct Log {
    pub index: usize,
    pub delta: i32,
    pub term: usize,
}

/// Point-in-time snapshot of a replica.
#[derive(Debug)]
pub struct ReplicaStatus {
    pub id: usize,
    pub state: State,
    pub connected: bool,
    pub value: i32,
    pub term: usize,
    pub commit_index: usize,
    pub last_applied: usize,
    pub log: Vec<Log>,
}

/// The four kinds of message that replicas exchange.
#[derive(Clone, Debug)]
pub enum Message {
    AppendEntryRequest {
        from_id: usize,
        term: usize,
        prev_log_index: usize,
        prev_log_term: usize,
        entries: Vec<Log>,
        commit_index: usize,
    },
    AppendEntryResponse { from_id: usize, term: usize, success: bool, last_index: usize },
    RequestVoteRequest { from_id: usize, term: usize, last_log_index: usize, last_log_term: usize },
    RequestVoteResponse { from_id: usize, term: usize, vote_granted: bool },
}

/// Mathematical content of a [`Message`]: the batch of entries is a sequence.
#[verifier::ext_equal]
pub enum MessageView {
    AppendEntryRequest {
        from_id: usize,
        term: usize,
        prev_log_index: usize,
        prev_log_term: usize,
        entries: Seq<Log>,
        commit_index: usize,
    },
    AppendEntryResponse { from_id: usize, term: usize, success: bool, last_index: usize },
    RequestVoteRequest { from_id: usize, term: usize, last_log_index: usize, last_log_term: usize },
    RequestVoteResponse { from_id: usize, term: usize, vote_granted: bool },
}

impl View for Message {
    type V = MessageView;

    open spec fn view(&self) -> MessageView {
        match *self {
            Message::AppendEntryRequest {
                from_id,
                term,
                prev_log_index,
                prev_log_term,
                entries,
                commit_index,
            } => MessageView::AppendEntryRequest {
                from_id,
                term,
                prev_log_index,
                prev_log_term,
                entries: entries@,
                commit_index,
            },
            Message::AppendEntryResponse { from_id, term, success, last_index } =>
                MessageView::AppendEntryResponse { from_id, term, success, last_index },
            Message::RequestVoteRequest { from_id, term, last_log_index, last_log_term } =>
                MessageView::RequestVoteRequest { from_id, term, last_log_index, last_log_term },
            Message::RequestVoteResponse { from_id, term, vote_granted } =>
                MessageView::RequestVoteResponse { from_id, term, vote_granted },
        }
    }
}

/// A message together with the id of the replica it is meant for.
#[derive(Debug)]
pub struct Outbound {
    pub to: usize,
    pub message: Message,
}

/// Mathematical content of an [`Outbound`].
#[verifier::ext_equal]
pub struct Envelope {
    pub to: usize,
    pub msg: MessageView,
}

impl View for Outbound {
    type V = Envelope;

    open spec fn view(&self) -> Envelope {
        Envelope { to: self.to, msg: self.message@ }
    }
}

/// The envelopes that a batch of outbound messages stands for, in order.
pub open spec fn envelopes(outbox: Seq<Outbound>) -> Seq<Envelope> {
    Seq::new(outbox.len(), |i: int| outbox[i]@)
}

} // verus!
