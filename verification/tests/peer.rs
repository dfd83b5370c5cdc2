use crossbeam::channel::unbounded;
use raft_core::peer::{link_passes, send_outcome, DRAW_MAX};
use raft_core::{Message, Peer};

fn ping(term: usize) -> Message {
    Message::RequestVoteResponse { from_id: 0, term, vote_granted: false }
}

fn term_of(message: &Message) -> usize {
    match message {
        Message::RequestVoteResponse { term, .. } => *term,
        _ => panic!("not the message sent"),
    }
}

#[test]
fn link_passes_iff_draw_reaches_the_probability() {
    assert!(link_passes(0, 0));
    assert!(link_passes(100, 0));
    assert!(!link_passes(29, 30));
    assert!(link_passes(30, 30));
    assert!(link_passes(31, 30));
    assert!(!link_passes(99, 100));
    assert!(link_passes(100, 100));
    assert!(!link_passes(100, 101));
    assert!(!link_passes(100, usize::MAX));
    assert_eq!(DRAW_MAX, 100);
}

#[test]
fn peer_keeps_its_configuration() {
    let (tx, _rx) = unbounded();
    let peer = Peer::new(3, tx, 30);
    assert_eq!(peer.id, 3);
    assert_eq!(peer.destination_id(), 3);
    assert_eq!(peer.drop_percent(), 30);
}

#[test]
fn message_is_delivered_when_the_draw_passes() {
    let (tx, rx) = unbounded();
    let peer = Peer::new(1, tx, 30);
    assert!(peer.send_with_draw(ping(7), 30));
    assert_eq!(term_of(&rx.try_recv().unwrap()), 7);
    assert!(rx.try_recv().is_err());
}

#[test]
fn message_is_discarded_when_the_draw_fails() {
    let (tx, rx) = unbounded();
    let peer = Peer::new(1, tx, 30);
    assert!(!peer.send_with_draw(ping(7), 29));
    assert!(rx.try_recv().is_err());
}

#[test]
fn messages_arrive_in_the_order_sent() {
    let (tx, rx) = unbounded();
    let peer = Peer::new(1, tx, 0);
    for term in 0..20 {
        peer.send(ping(term));
    }
    for term in 0..20 {
        assert_eq!(term_of(&rx.try_recv().unwrap()), term);
    }
    assert!(rx.try_recv().is_err());
}

#[test]
fn probability_above_the_draws_loses_everything() {
    let (tx, rx) = unbounded();
    let peer = Peer::new(1, tx, 101);
    for term in 0..200 {
        peer.send(ping(term));
    }
    assert!(rx.try_recv().is_err());
}

#[test]
fn half_the_messages_are_lost_at_fifty_percent() {
    let (tx, rx) = unbounded();
    let peer = Peer::new(1, tx, 50);
    for term in 0..400 {
        peer.send(ping(term));
    }
    let mut arrived = 0;
    let mut last = None;
    while let Ok(message) = rx.try_recv() {
        let term = term_of(&message);
        if let Some(before) = last {
            assert!(before < term);
        }
        last = Some(term);
        arrived += 1;
    }
    assert!(arrived > 0);
    assert!(arrived < 400);
}

#[test]
fn closed_channel_counts_as_a_loss() {
    let (tx, rx) = unbounded();
    let peer = Peer::new(1, tx, 0);
    drop(rx);
    assert!(!peer.send_with_draw(ping(1), 100));
    peer.send(ping(2));
}

#[test]
fn cloned_peer_sends_into_the_same_channel() {
    let (tx, rx) = unbounded();
    let peer = Peer::new(4, tx, 0);
    let copy = peer.clone();
    assert_eq!(copy.id, 4);
    assert_eq!(copy.drop_percent(), 0);
    copy.send(ping(1));
    peer.send(ping(2));
    assert_eq!(term_of(&rx.try_recv().unwrap()), 1);
    assert_eq!(term_of(&rx.try_recv().unwrap()), 2);
}

#[test]
fn message_is_taken_when_link_and_channel_agree() {
    assert!(send_outcome(true, true));
    assert!(!send_outcome(true, false));
    assert!(!send_outcome(false, true));
    assert!(!send_outcome(false, false));
}

#[test]
fn link_hands_on_the_message_as_it_came() {
    let (tx, _rx) = unbounded();
    let peer = Peer::new(1, tx, 30);
    match peer.outgoing(ping(7), 30) {
        Some(message) => assert_eq!(term_of(&message), 7),
        None => panic!("the draw passes the link"),
    }
    match peer.outgoing(ping(8), 100) {
        Some(message) => assert_eq!(term_of(&message), 8),
        None => panic!("the draw passes the link"),
    }
    assert!(peer.outgoing(ping(9), 29).is_none());
    assert!(peer.outgoing(ping(9), 0).is_none());
}

#[test]
fn draw_equal_to_the_probability_passes() {
    let (tx, rx) = unbounded();
    let peer = Peer::new(1, tx, 100);
    assert!(peer.send_with_draw(ping(3), 100));
    assert_eq!(term_of(&rx.try_recv().unwrap()), 3);
    assert!(!peer.send_with_draw(ping(4), 99));
    assert!(rx.try_recv().is_err());
}

#[test]
fn earlier_losses_do_not_change_a_later_send() {
    let (tx, rx) = unbounded();
    let peer = Peer::new(1, tx, 40);
    for term in 0..10 {
        assert!(!peer.send_with_draw(ping(term), 39));
    }
    assert!(rx.try_recv().is_err());
    assert!(peer.send_with_draw(ping(77), 40));
    assert_eq!(term_of(&rx.try_recv().unwrap()), 77);
    assert_eq!(peer.id, 1);
    assert_eq!(peer.drop_percent(), 40);
}

#[test]
fn sends_to_a_closed_channel_never_stop_the_sender() {
    let (closed, gone) = unbounded();
    let (open, rx) = unbounded();
    drop(gone);
    let lost = Peer::new(1, closed, 0);
    let live = Peer::new(2, open, 0);
    for term in 0..10 {
        lost.send(ping(term));
        live.send(ping(term));
    }
    for term in 0..10 {
        assert_eq!(term_of(&rx.try_recv().unwrap()), term);
    }
}
