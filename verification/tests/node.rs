use crossbeam::channel::{unbounded, Receiver};
use raft_core::node::{find_link, send_all};
use raft_core::{ControlMessage, Message, Node, Outbound, Peer, State};
use std::time::{Duration, Instant};

fn wait(millis: u64) {
    let start = Instant::now();
    while start.elapsed() < Duration::from_millis(millis) {
        std::hint::spin_loop();
    }
}

fn note(to: usize, term: usize) -> Outbound {
    Outbound { to, message: Message::RequestVoteResponse { from_id: 9, term, vote_granted: false } }
}

/// Three nodes wired to one another over lossless links, each with the
/// receiving end of its own channel. Node 0 has the shortest timer.
fn wired() -> (Vec<Node>, Vec<Receiver<Message>>) {
    let mut senders = Vec::new();
    let mut receivers = Vec::new();
    for _ in 0..3 {
        let (tx, rx) = unbounded();
        senders.push(tx);
        receivers.push(rx);
    }
    let mut nodes = Vec::new();
    for id in 0..3 {
        let mut peers = Vec::new();
        for other in 0..3 {
            if other != id {
                peers.push(Peer::new(other, senders[other].clone(), 0));
            }
        }
        let (low, high) = if id == 0 { (100, 120) } else { (60_000, 60_000) };
        nodes.push(Node::new(id, 3, peers, low, high).unwrap());
    }
    (nodes, receivers)
}

/// Hands every waiting message to its node until nothing is left.
fn settle(nodes: &mut Vec<Node>, receivers: &Vec<Receiver<Message>>) {
    let mut moved = true;
    while moved {
        moved = false;
        for id in 0..nodes.len() {
            while let Ok(message) = receivers[id].try_recv() {
                nodes[id].receive(message);
                moved = true;
            }
        }
    }
}

#[test]
fn find_link_takes_the_first_link_to_the_replica() {
    let (tx, _rx) = unbounded();
    let peers = vec![Peer::new(4, tx.clone(), 0), Peer::new(2, tx.clone(), 0), Peer::new(2, tx, 9)];
    assert_eq!(find_link(&peers, 4), Some(0));
    assert_eq!(find_link(&peers, 2), Some(1));
    assert_eq!(find_link(&peers, 3), None);
    assert_eq!(find_link(&Vec::new(), 0), None);
}

#[test]
fn send_all_uses_the_link_of_each_destination() {
    let (tx1, rx1) = unbounded();
    let (tx2, rx2) = unbounded();
    let peers = vec![Peer::new(1, tx1, 0), Peer::new(2, tx2, 0)];
    let linked = send_all(&peers, vec![note(1, 10), note(2, 20), note(5, 50), note(1, 11)]);
    assert_eq!(linked, 3);
    let mut first = Vec::new();
    while let Ok(Message::RequestVoteResponse { term, .. }) = rx1.try_recv() {
        first.push(term);
    }
    assert_eq!(first, vec![10, 11]);
    match rx2.try_recv() {
        Ok(Message::RequestVoteResponse { term, .. }) => assert_eq!(term, 20),
        _ => panic!("nothing arrived"),
    }
    assert!(rx2.try_recv().is_err());
}

#[test]
fn send_all_without_links_sends_nothing() {
    assert_eq!(send_all(&Vec::new(), vec![note(1, 10)]), 0);
}

#[test]
fn no_node_outside_the_cluster() {
    assert!(Node::new(3, 3, Vec::new(), 10, 20).is_none());
}

#[test]
fn node_does_nothing_before_its_timer_fires() {
    let (mut nodes, receivers) = wired();
    assert!(!nodes[1].poll_timer());
    assert_eq!(nodes[1].status().state, State::Follower);
    assert_eq!(nodes[1].status().term, 0);
    assert!(receivers[0].try_recv().is_err());
}

#[test]
fn nodes_elect_a_leader_and_replicate() {
    let (mut nodes, receivers) = wired();
    wait(250);
    assert!(nodes[0].poll_timer());
    assert!(!nodes[0].poll_timer());
    assert_eq!(nodes[0].status().state, State::Candidate);
    assert_eq!(nodes[0].status().term, 1);
    settle(&mut nodes, &receivers);
    assert_eq!(nodes[0].status().state, State::Leader);
    assert_eq!(nodes[1].status().term, 1);
    assert_eq!(nodes[2].status().term, 1);

    nodes[0].command(ControlMessage::Apply(5));
    nodes[0].command(ControlMessage::Apply(7));
    nodes[1].command(ControlMessage::Apply(100));
    nodes[0].beat();
    settle(&mut nodes, &receivers);
    assert_eq!(nodes[0].status().value, 12);
    nodes[0].beat();
    nodes[1].beat();
    settle(&mut nodes, &receivers);
    for node in &nodes {
        let status = node.status();
        assert_eq!(status.value, 12);
        assert_eq!(status.commit_index, 2);
        assert_eq!(status.log.len(), 2);
    }
}

#[test]
fn granting_a_vote_rearms_the_timer() {
    let (mut nodes, receivers) = wired();
    wait(250);
    nodes[0].receive(Message::RequestVoteRequest {
        from_id: 1,
        term: 1,
        last_log_index: 0,
        last_log_term: 0,
    });
    assert!(!nodes[0].poll_timer());
    assert_eq!(nodes[0].status().state, State::Follower);
    match receivers[1].try_recv() {
        Ok(Message::RequestVoteResponse { from_id, term, vote_granted }) => {
            assert_eq!((from_id, term, vote_granted), (0, 1, true));
        }
        _ => panic!("no answer to the vote request"),
    }
    wait(250);
    assert!(nodes[0].poll_timer());
    assert_eq!(nodes[0].status().term, 2);
}

#[test]
fn dead_node_stays_silent() {
    let (mut nodes, receivers) = wired();
    nodes[0].command(ControlMessage::Down);
    wait(250);
    assert!(nodes[0].poll_timer());
    assert!(nodes[0].poll_timer());
    assert_eq!(nodes[0].status().state, State::Dead);
    assert_eq!(nodes[0].status().term, 0);
    assert!(receivers[1].try_recv().is_err());
    nodes[0].command(ControlMessage::Up);
    assert_eq!(nodes[0].status().state, State::Follower);
    assert!(!nodes[0].poll_timer());
}

#[test]
fn timeout_starts_an_election_without_the_clock() {
    let (mut nodes, receivers) = wired();
    nodes[1].timeout();
    let status = nodes[1].status();
    assert_eq!(status.state, State::Candidate);
    assert_eq!(status.term, 1);
    for id in [0, 2] {
        let message = receivers[id].try_recv().unwrap();
        match &message {
            Message::RequestVoteRequest { from_id, term, last_log_index, last_log_term } => {
                assert_eq!((*from_id, *term, *last_log_index, *last_log_term), (1, 1, 0, 0));
            }
            _ => panic!("no request for a vote"),
        }
        nodes[id].receive(message);
    }
    settle(&mut nodes, &receivers);
    assert_eq!(nodes[1].status().state, State::Leader);
    nodes[1].timeout();
    assert_eq!(nodes[1].status().state, State::Leader);
    assert_eq!(nodes[1].status().term, 1);
}

#[test]
fn timeout_of_a_dead_node_changes_nothing() {
    let (mut nodes, receivers) = wired();
    nodes[2].command(ControlMessage::Down);
    nodes[2].timeout();
    assert_eq!(nodes[2].status().state, State::Dead);
    assert_eq!(nodes[2].status().term, 0);
    assert!(receivers[0].try_recv().is_err());
}
