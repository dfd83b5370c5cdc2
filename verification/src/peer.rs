//! Outbound link to another replica, losing messages with a set probability.

use crate::random::uniform_inclusive;
use crate::types::Message;
use crossbeam::channel::Sender;
use vstd::prelude::*;

verus! {

/// The sending half of a `crossbeam` channel, carried as an opaque value.
#[verifier::external_type_specification]
#[verifier::external_body]
#[verifier::reject_recursive_types(T)]
pub struct ExSender<T>(Sender<T>);

/// `Clone::clone` of `crossbeam::channel::Sender` gives one more handle to the
/// same channel. Trusted, with nothing claimed of the handle.
pub assume_specification<T>[ <Sender<T> as Clone>::clone ](tx: &Sender<T>) -> (other: Sender<T>);

/// Largest value of a draw; draws are uniform over `0..=DRAW_MAX`.
pub const DRAW_MAX: u64 = 100;

/// Whether a message passes the link, given the draw made for it: it passes
/// exactly when the draw is at least the drop probability.
pub open spec fn passes(draw: u64, drop_prob: usize) -> bool {
    draw >= drop_prob
}

/// Decides from a draw whether the link lets a message through.
pub fn link_passes(draw: u64, drop_prob: usize) -> (pass: bool)
    ensures
        pass == passes(draw, drop_prob),
{
    drop_prob as u128 <= draw as u128
}

/// What a send comes to, given whether the link let the message pass and
/// whether the channel took it: the message is taken when both are so.
pub open spec fn taken_if(pass: bool, took: bool) -> bool {
    pass && took
}

/// Decides from the word of the link and the word of the channel whether a
/// message has been taken.
pub fn send_outcome(pass: bool, took: bool) -> (taken: bool)
    ensures
        taken == taken_if(pass, took),
{
    pass && took
}

/// Hands a message to `Sender::send` of `crossbeam::channel` and reports
/// whether the channel took it.
///
/// Trusted, with nothing claimed of the outcome: it depends on the receiving
/// side, and a closed channel yields `false`. On a bounded channel that is
/// full the call waits for room.
#[verifier::external_body]
fn channel_send(tx: &Sender<Message>, message: Message) -> (taken: bool) {
    tx.send(message).is_ok()
}

/// A replica's handle for sending to one other replica.
#[derive(Clone, Debug)]
pub struct Peer {
    pub id: usize,
    tx: Sender<Message>,
    drop_prob: usize,
}

impl Peer {
    /// The id of the replica that this link leads to.
    pub closed spec fn destination(&self) -> usize {
        self.id
    }

    /// The configured drop probability, in percent.
    pub closed spec fn drop_probability(&self) -> usize {
        self.drop_prob
    }

    /// The sending end that the link hands its messages to.
    pub closed spec fn channel(&self) -> Sender<Message> {
        self.tx
    }

    /// A link to replica `id` over the sending end `tx`, losing messages
    /// with the given probability in percent.
    pub fn new(id: usize, tx: Sender<Message>, percent_probability_message_drop: usize) -> (peer:
        Peer)
        ensures
            peer.destination() == id,
            peer.channel() == tx,
            peer.drop_probability() == percent_probability_message_drop,
    {
        Peer { id, tx, drop_prob: percent_probability_message_drop }
    }

    /// The id of the replica that this link leads to.
    pub fn destination_id(&self) -> (id: usize)
        ensures
            id == self.destination(),
    {
        self.id
    }

    /// The configured drop probability, in percent.
    pub fn drop_percent(&self) -> (percent: usize)
        ensures
            percent == self.drop_probability(),
    {
        self.drop_prob
    }

    /// What the link hands to its channel under a given draw: the message as
    /// it came if the draw passes the link, and nothing otherwise.
    pub fn outgoing(&self, message: Message, draw: u64) -> (out: Option<Message>)
        ensures
            out == if passes(draw, self.drop_probability()) {
                Some(message)
            } else {
                None
            },
    {
        if link_passes(draw, self.drop_prob) {
            Some(message)
        } else {
            None
        }
    }

    /// Sends `message` under a given draw: the message reaches the channel
    /// only if the draw passes the link, and is discarded silently otherwise.
    /// The result tells whether the channel took the message; a closed
    /// channel counts as one more loss.
    pub fn send_with_draw(&self, message: Message, draw: u64) -> (taken: bool)
        ensures
            taken ==> passes(draw, self.drop_probability()),
    {
        match self.outgoing(message, draw) {
            Some(passed) => {
                let took = channel_send(&self.tx, passed);
                send_outcome(true, took)
            },
            None => send_outcome(false, false),
        }
    }

    /// Sends `message` over the lossy link: makes a fresh uniform draw in
    /// `0..=DRAW_MAX` and sends under it. The sender never learns of a loss.
    pub fn send(&self, message: Message) {
        let draw = uniform_inclusive(0, DRAW_MAX);
        let _ = self.send_with_draw(message, draw);
    }
}

} // verus!
