use raft_core::replica::{count_flags, majority};
use raft_core::{ControlMessage, Effects, Log, Message, Replica, State};

fn entry(index: usize, term: usize, delta: i32) -> Log {
    Log { index, delta, term }
}

fn replica(id: usize, size: usize) -> Replica {
    Replica::new(id, size).unwrap()
}

fn vote_request(from_id: usize, term: usize, last_log_index: usize, last_log_term: usize) -> Message {
    Message::RequestVoteRequest { from_id, term, last_log_index, last_log_term }
}

fn append(
    from_id: usize,
    term: usize,
    prev_log_index: usize,
    prev_log_term: usize,
    entries: Vec<Log>,
    commit_index: usize,
) -> Message {
    Message::AppendEntryRequest { from_id, term, prev_log_index, prev_log_term, entries, commit_index }
}

fn granted(effects: &Effects) -> bool {
    assert_eq!(effects.outbox.len(), 1);
    match &effects.outbox[0].message {
        Message::RequestVoteResponse { vote_granted, .. } => *vote_granted,
        _ => panic!("not a vote response"),
    }
}

fn append_outcome(effects: &Effects) -> (usize, bool, usize) {
    assert_eq!(effects.outbox.len(), 1);
    match &effects.outbox[0].message {
        Message::AppendEntryResponse { term, success, last_index, .. } => (*term, *success, *last_index),
        _ => panic!("not an append response"),
    }
}

/// Makes replica 0 of a cluster of three the leader of term 1.
fn leader_of_three() -> Replica {
    let mut r = replica(0, 3);
    r.election_timeout();
    r.handle_message(Message::RequestVoteResponse { from_id: 1, term: 1, vote_granted: true });
    assert_eq!(r.state(), State::Leader);
    r
}

#[test]
fn majority_is_strictly_more_than_half() {
    assert!(!majority(0, 1));
    assert!(majority(1, 1));
    assert!(!majority(1, 2));
    assert!(majority(2, 2));
    assert!(!majority(2, 4));
    assert!(majority(3, 4));
    assert!(!majority(2, 5));
    assert!(majority(3, 5));
}

#[test]
fn count_flags_counts_the_true_ones() {
    assert_eq!(count_flags(&Vec::new()), 0);
    assert_eq!(count_flags(&vec![true, false, true, true]), 3);
}

#[test]
fn no_replica_outside_the_cluster() {
    assert!(Replica::new(3, 3).is_none());
    assert!(Replica::new(0, 0).is_none());
    assert!(Replica::new(2, 3).is_some());
}

#[test]
fn new_replica_is_a_follower_in_term_zero() {
    let r = replica(1, 3);
    let s = r.status();
    assert_eq!(s.id, 1);
    assert_eq!(s.state, State::Follower);
    assert!(s.connected);
    assert_eq!(s.value, 0);
    assert_eq!(s.term, 0);
    assert_eq!(s.commit_index, 0);
    assert_eq!(s.last_applied, 0);
    assert!(s.log.is_empty());
    assert_eq!(r.cluster_size(), 3);
    assert_eq!(r.voted_for(), None);
}

#[test]
fn timeout_starts_an_election() {
    let mut r = replica(1, 3);
    let effects = r.election_timeout();
    assert_eq!(r.state(), State::Candidate);
    assert_eq!(r.term(), 1);
    assert_eq!(r.voted_for(), Some(1));
    assert!(effects.reset_timer);
    assert_eq!(effects.outbox.len(), 2);
    assert_eq!(effects.outbox[0].to, 0);
    assert_eq!(effects.outbox[1].to, 2);
    for outbound in &effects.outbox {
        match &outbound.message {
            Message::RequestVoteRequest { from_id, term, last_log_index, last_log_term } => {
                assert_eq!((*from_id, *term, *last_log_index, *last_log_term), (1, 1, 0, 0));
            }
            _ => panic!("not a vote request"),
        }
    }
}

#[test]
fn second_timeout_starts_a_new_election() {
    let mut r = replica(0, 3);
    r.election_timeout();
    r.election_timeout();
    assert_eq!(r.state(), State::Candidate);
    assert_eq!(r.term(), 2);
    assert_eq!(r.voted_for(), Some(0));
}

#[test]
fn candidate_needs_a_strict_majority() {
    let mut r = replica(0, 5);
    r.election_timeout();
    r.handle_message(Message::RequestVoteResponse { from_id: 1, term: 1, vote_granted: true });
    assert_eq!(r.state(), State::Candidate);
    r.handle_message(Message::RequestVoteResponse { from_id: 1, term: 1, vote_granted: true });
    assert_eq!(r.state(), State::Candidate);
    r.handle_message(Message::RequestVoteResponse { from_id: 3, term: 1, vote_granted: false });
    assert_eq!(r.state(), State::Candidate);
    let effects =
        r.handle_message(Message::RequestVoteResponse { from_id: 4, term: 1, vote_granted: true });
    assert_eq!(r.state(), State::Leader);
    assert!(!effects.reset_timer);
    assert_eq!(effects.outbox.len(), 4);
    for outbound in &effects.outbox {
        match &outbound.message {
            Message::AppendEntryRequest {
                from_id,
                term,
                prev_log_index,
                prev_log_term,
                entries,
                commit_index,
            } => {
                assert_eq!((*from_id, *term, *prev_log_index, *prev_log_term), (0, 1, 0, 0));
                assert!(entries.is_empty());
                assert_eq!(*commit_index, 0);
            }
            _ => panic!("not an append request"),
        }
    }
}

#[test]
fn even_cluster_needs_more_than_half() {
    let mut r = replica(0, 4);
    r.election_timeout();
    r.handle_message(Message::RequestVoteResponse { from_id: 1, term: 1, vote_granted: true });
    assert_eq!(r.state(), State::Candidate);
    r.handle_message(Message::RequestVoteResponse { from_id: 2, term: 1, vote_granted: true });
    assert_eq!(r.state(), State::Leader);
}

#[test]
fn votes_of_a_stale_term_are_ignored() {
    let mut r = replica(0, 3);
    r.election_timeout();
    r.election_timeout();
    r.handle_message(Message::RequestVoteResponse { from_id: 1, term: 1, vote_granted: true });
    assert_eq!(r.state(), State::Candidate);
    assert_eq!(r.term(), 2);
}

#[test]
fn votes_from_outside_the_cluster_are_ignored() {
    let mut r = replica(0, 3);
    r.election_timeout();
    r.handle_message(Message::RequestVoteResponse { from_id: 7, term: 1, vote_granted: true });
    assert_eq!(r.state(), State::Candidate);
}

#[test]
fn single_replica_wins_at_once() {
    let mut r = replica(0, 1);
    let effects = r.election_timeout();
    assert_eq!(r.state(), State::Leader);
    assert_eq!(r.term(), 1);
    assert!(effects.outbox.is_empty());
    r.control(ControlMessage::Apply(5));
    r.control(ControlMessage::Apply(-2));
    assert_eq!(r.value(), 0);
    r.heartbeat();
    assert_eq!(r.commit_index(), 2);
    assert_eq!(r.last_applied(), 2);
    assert_eq!(r.value(), 3);
}

#[test]
fn higher_term_turns_a_candidate_into_a_follower() {
    let mut r = replica(0, 3);
    r.election_timeout();
    let effects =
        r.handle_message(Message::RequestVoteResponse { from_id: 1, term: 4, vote_granted: false });
    assert_eq!(r.state(), State::Follower);
    assert_eq!(r.term(), 4);
    assert_eq!(r.voted_for(), None);
    assert!(effects.outbox.is_empty());
    assert!(!effects.reset_timer);
}

#[test]
fn higher_term_turns_a_leader_into_a_follower() {
    let mut r = leader_of_three();
    r.handle_message(Message::AppendEntryResponse {
        from_id: 2,
        term: 3,
        success: false,
        last_index: 0,
    });
    assert_eq!(r.state(), State::Follower);
    assert_eq!(r.term(), 3);
    assert_eq!(r.voted_for(), None);
}

#[test]
fn vote_is_granted_once_per_term() {
    let mut r = replica(0, 3);
    let first = r.handle_message(vote_request(1, 1, 0, 0));
    assert!(granted(&first));
    assert!(first.reset_timer);
    assert_eq!(first.outbox[0].to, 1);
    assert_eq!(r.voted_for(), Some(1));
    let second = r.handle_message(vote_request(2, 1, 0, 0));
    assert!(!granted(&second));
    assert!(!second.reset_timer);
    assert_eq!(second.outbox[0].to, 2);
    assert_eq!(r.voted_for(), Some(1));
    assert_eq!(r.term(), 1);
}

#[test]
fn vote_is_granted_again_to_the_same_candidate() {
    let mut r = replica(0, 3);
    assert!(granted(&r.handle_message(vote_request(1, 1, 0, 0))));
    assert!(granted(&r.handle_message(vote_request(1, 1, 0, 0))));
}

#[test]
fn vote_is_free_again_in_a_later_term() {
    let mut r = replica(0, 3);
    assert!(granted(&r.handle_message(vote_request(1, 1, 0, 0))));
    assert!(granted(&r.handle_message(vote_request(2, 2, 0, 0))));
    assert_eq!(r.voted_for(), Some(2));
    assert_eq!(r.term(), 2);
}

#[test]
fn vote_is_denied_to_a_stale_term() {
    let mut r = replica(0, 3);
    r.handle_message(vote_request(1, 5, 0, 0));
    let effects = r.handle_message(vote_request(2, 3, 0, 0));
    assert!(!granted(&effects));
    match &effects.outbox[0].message {
        Message::RequestVoteResponse { from_id, term, .. } => {
            assert_eq!(*from_id, 0);
            assert_eq!(*term, 5);
        }
        _ => panic!("not a vote response"),
    }
}

#[test]
fn vote_is_denied_to_a_candidate_that_is_behind() {
    let mut r = replica(0, 3);
    r.handle_message(append(1, 2, 0, 0, vec![entry(1, 1, 5), entry(2, 2, 6)], 0));
    assert!(!granted(&r.handle_message(vote_request(2, 3, 5, 1))));
    assert_eq!(r.term(), 3);
    assert_eq!(r.voted_for(), None);
    assert!(!granted(&r.handle_message(vote_request(2, 3, 1, 2))));
    assert!(granted(&r.handle_message(vote_request(2, 3, 2, 2))));
}

#[test]
fn candidate_denies_its_rival_of_the_same_term() {
    let mut r = replica(0, 3);
    r.election_timeout();
    assert!(!granted(&r.handle_message(vote_request(1, 1, 0, 0))));
    assert_eq!(r.state(), State::Candidate);
}

#[test]
fn append_of_a_stale_term_is_rejected() {
    let mut r = replica(0, 3);
    r.handle_message(vote_request(1, 4, 0, 0));
    let effects = r.handle_message(append(2, 3, 0, 0, vec![entry(1, 3, 9)], 0));
    assert_eq!(append_outcome(&effects), (4, false, 0));
    assert!(!effects.reset_timer);
    assert!(r.status().log.is_empty());
}

#[test]
fn append_is_accepted_and_committed_up_to_the_leaders_index() {
    let mut r = replica(2, 3);
    let effects =
        r.handle_message(append(0, 1, 0, 0, vec![entry(1, 1, 5), entry(2, 1, 7), entry(3, 1, -2)], 2));
    assert_eq!(append_outcome(&effects), (1, true, 3));
    assert!(effects.reset_timer);
    assert_eq!(effects.outbox[0].to, 0);
    let s = r.status();
    assert_eq!(s.state, State::Follower);
    assert_eq!(s.term, 1);
    assert_eq!(s.log.len(), 3);
    assert_eq!(s.commit_index, 2);
    assert_eq!(s.last_applied, 2);
    assert_eq!(s.value, 12);
}

#[test]
fn commit_stops_at_the_last_new_entry() {
    let mut r = replica(2, 3);
    r.handle_message(append(0, 1, 0, 0, vec![entry(1, 1, 5)], 9));
    assert_eq!(r.commit_index(), 1);
    assert_eq!(r.value(), 5);
}

#[test]
fn append_with_a_gap_is_rejected() {
    let mut r = replica(2, 3);
    let effects = r.handle_message(append(0, 1, 2, 1, vec![entry(3, 1, 5)], 0));
    assert_eq!(append_outcome(&effects), (1, false, 0));
    assert!(effects.reset_timer);
    assert_eq!(r.term(), 1);
}

#[test]
fn append_with_another_prev_term_is_rejected() {
    let mut r = replica(2, 3);
    r.handle_message(append(0, 1, 0, 0, vec![entry(1, 1, 5)], 0));
    let effects = r.handle_message(append(1, 2, 1, 2, vec![entry(2, 2, 6)], 0));
    assert_eq!(append_outcome(&effects), (2, false, 1));
    assert_eq!(r.status().log, vec![entry(1, 1, 5)]);
}

#[test]
fn append_with_misnumbered_entries_is_rejected() {
    let mut r = replica(2, 3);
    let effects = r.handle_message(append(0, 1, 0, 0, vec![entry(2, 1, 5)], 0));
    assert_eq!(append_outcome(&effects), (1, false, 0));
    assert!(r.status().log.is_empty());
}

#[test]
fn conflicting_entries_are_replaced() {
    let mut r = replica(2, 3);
    r.handle_message(append(0, 1, 0, 0, vec![entry(1, 1, 5), entry(2, 1, 6), entry(3, 1, 7)], 1));
    let effects = r.handle_message(append(1, 2, 1, 1, vec![entry(2, 2, 60)], 2));
    assert_eq!(append_outcome(&effects), (2, true, 2));
    let s = r.status();
    assert_eq!(s.log, vec![entry(1, 1, 5), entry(2, 2, 60)]);
    assert_eq!(s.commit_index, 2);
    assert_eq!(s.value, 65);
}

#[test]
fn agreeing_batch_keeps_later_entries() {
    let mut r = replica(2, 3);
    r.handle_message(append(0, 1, 0, 0, vec![entry(1, 1, 5), entry(2, 1, 6), entry(3, 1, 7)], 0));
    let effects = r.handle_message(append(0, 1, 0, 0, vec![entry(1, 1, 5)], 0));
    assert_eq!(append_outcome(&effects), (1, true, 1));
    assert_eq!(r.status().log.len(), 3);
}

#[test]
fn committed_entries_are_never_cut_off() {
    let mut r = replica(2, 3);
    r.handle_message(append(0, 1, 0, 0, vec![entry(1, 1, 5), entry(2, 1, 6)], 2));
    assert_eq!(r.commit_index(), 2);
    let effects = r.handle_message(append(1, 2, 1, 1, vec![entry(2, 2, 60)], 2));
    assert_eq!(append_outcome(&effects), (2, false, 2));
    let s = r.status();
    assert_eq!(s.log, vec![entry(1, 1, 5), entry(2, 1, 6)]);
    assert_eq!(s.commit_index, 2);
    assert_eq!(s.value, 11);
}

#[test]
fn commit_index_never_falls() {
    let mut r = replica(2, 3);
    r.handle_message(append(0, 1, 0, 0, vec![entry(1, 1, 5), entry(2, 1, 6)], 2));
    r.handle_message(append(0, 1, 2, 1, Vec::new(), 1));
    assert_eq!(r.commit_index(), 2);
    assert_eq!(r.value(), 11);
}

#[test]
fn append_turns_a_candidate_of_the_same_term_into_a_follower() {
    let mut r = replica(2, 3);
    r.election_timeout();
    r.handle_message(append(0, 1, 0, 0, Vec::new(), 0));
    assert_eq!(r.state(), State::Follower);
    assert_eq!(r.term(), 1);
    assert_eq!(r.voted_for(), Some(2));
}

#[test]
fn only_a_leader_takes_writes() {
    let mut r = replica(0, 3);
    r.control(ControlMessage::Apply(4));
    assert!(r.status().log.is_empty());
    r.election_timeout();
    r.control(ControlMessage::Apply(4));
    assert!(r.status().log.is_empty());
    let mut leader = leader_of_three();
    let effects = leader.control(ControlMessage::Apply(4));
    assert!(effects.outbox.is_empty());
    assert_eq!(leader.status().log, vec![entry(1, 1, 4)]);
    assert_eq!(leader.commit_index(), 0);
}

#[test]
fn heartbeat_sends_the_entries_from_next_index() {
    let mut leader = leader_of_three();
    leader.control(ControlMessage::Apply(4));
    leader.control(ControlMessage::Apply(6));
    let effects = leader.heartbeat();
    assert!(!effects.reset_timer);
    assert_eq!(effects.outbox.len(), 2);
    assert_eq!(effects.outbox[0].to, 1);
    assert_eq!(effects.outbox[1].to, 2);
    match &effects.outbox[0].message {
        Message::AppendEntryRequest { prev_log_index, prev_log_term, entries, commit_index, .. } => {
            assert_eq!((*prev_log_index, *prev_log_term, *commit_index), (0, 0, 0));
            assert_eq!(*entries, vec![entry(1, 1, 4), entry(2, 1, 6)]);
        }
        _ => panic!("not an append request"),
    }
}

#[test]
fn leader_commits_what_a_majority_holds() {
    let mut leader = leader_of_three();
    leader.control(ControlMessage::Apply(4));
    leader.control(ControlMessage::Apply(6));
    leader.handle_message(Message::AppendEntryResponse {
        from_id: 1,
        term: 1,
        success: true,
        last_index: 1,
    });
    assert_eq!(leader.commit_index(), 1);
    assert_eq!(leader.value(), 4);
    leader.handle_message(Message::AppendEntryResponse {
        from_id: 2,
        term: 1,
        success: true,
        last_index: 2,
    });
    assert_eq!(leader.commit_index(), 2);
    assert_eq!(leader.value(), 10);
    let effects = leader.heartbeat();
    match &effects.outbox[0].message {
        Message::AppendEntryRequest { prev_log_index, prev_log_term, entries, commit_index, .. } => {
            assert_eq!((*prev_log_index, *prev_log_term, *commit_index), (1, 1, 2));
            assert_eq!(*entries, vec![entry(2, 1, 6)]);
        }
        _ => panic!("not an append request"),
    }
}

#[test]
fn leader_does_not_commit_entries_of_an_earlier_term_by_count() {
    let mut r = replica(0, 3);
    r.handle_message(append(1, 1, 0, 0, vec![entry(1, 1, 5)], 0));
    r.election_timeout();
    assert_eq!(r.term(), 2);
    r.handle_message(Message::RequestVoteResponse { from_id: 2, term: 2, vote_granted: true });
    assert_eq!(r.state(), State::Leader);
    r.handle_message(Message::AppendEntryResponse {
        from_id: 2,
        term: 2,
        success: true,
        last_index: 1,
    });
    assert_eq!(r.commit_index(), 0);
    r.control(ControlMessage::Apply(3));
    r.handle_message(Message::AppendEntryResponse {
        from_id: 2,
        term: 2,
        success: true,
        last_index: 2,
    });
    assert_eq!(r.commit_index(), 2);
    assert_eq!(r.value(), 8);
}

#[test]
fn failed_append_moves_next_index_back() {
    let mut r = replica(0, 3);
    r.handle_message(append(1, 1, 0, 0, vec![entry(1, 1, 5), entry(2, 1, 6)], 0));
    r.election_timeout();
    r.handle_message(Message::RequestVoteResponse { from_id: 2, term: 2, vote_granted: true });
    assert_eq!(r.state(), State::Leader);
    r.handle_message(Message::AppendEntryResponse {
        from_id: 2,
        term: 2,
        success: false,
        last_index: 0,
    });
    let effects = r.heartbeat();
    match &effects.outbox[1].message {
        Message::AppendEntryRequest { prev_log_index, prev_log_term, entries, .. } => {
            assert_eq!((*prev_log_index, *prev_log_term), (1, 1));
            assert_eq!(*entries, vec![entry(2, 1, 6)]);
        }
        _ => panic!("not an append request"),
    }
    match &effects.outbox[0].message {
        Message::AppendEntryRequest { prev_log_index, entries, .. } => {
            assert_eq!(*prev_log_index, 2);
            assert!(entries.is_empty());
        }
        _ => panic!("not an append request"),
    }
    for _ in 0..5 {
        r.handle_message(Message::AppendEntryResponse {
            from_id: 2,
            term: 2,
            success: false,
            last_index: 0,
        });
    }
    let effects = r.heartbeat();
    match &effects.outbox[1].message {
        Message::AppendEntryRequest { prev_log_index, entries, .. } => {
            assert_eq!(*prev_log_index, 0);
            assert_eq!(entries.len(), 2);
        }
        _ => panic!("not an append request"),
    }
}

#[test]
fn reported_index_beyond_the_log_is_capped() {
    let mut leader = leader_of_three();
    leader.control(ControlMessage::Apply(4));
    leader.handle_message(Message::AppendEntryResponse {
        from_id: 1,
        term: 1,
        success: true,
        last_index: 50,
    });
    assert_eq!(leader.commit_index(), 1);
    let effects = leader.heartbeat();
    match &effects.outbox[0].message {
        Message::AppendEntryRequest { prev_log_index, entries, .. } => {
            assert_eq!(*prev_log_index, 1);
            assert!(entries.is_empty());
        }
        _ => panic!("not an append request"),
    }
}

#[test]
fn leader_ignores_the_election_timer() {
    let mut leader = leader_of_three();
    let effects = leader.election_timeout();
    assert_eq!(leader.state(), State::Leader);
    assert_eq!(leader.term(), 1);
    assert!(effects.reset_timer);
    assert!(effects.outbox.is_empty());
}

#[test]
fn follower_ignores_the_heartbeat_tick() {
    let mut r = replica(0, 3);
    let effects = r.heartbeat();
    assert!(effects.outbox.is_empty());
    assert_eq!(r.state(), State::Follower);
}

#[test]
fn dead_replica_ignores_everything_until_up() {
    let mut leader = leader_of_three();
    leader.control(ControlMessage::Apply(4));
    leader.control(ControlMessage::Down);
    assert_eq!(leader.state(), State::Dead);
    let effects = leader.handle_message(vote_request(1, 9, 0, 0));
    assert!(effects.outbox.is_empty());
    assert!(!leader.election_timeout().reset_timer);
    assert!(leader.heartbeat().outbox.is_empty());
    leader.control(ControlMessage::Apply(5));
    assert_eq!(leader.term(), 1);
    assert_eq!(leader.state(), State::Dead);
    let effects = leader.control(ControlMessage::Up);
    assert!(effects.reset_timer);
    let s = leader.status();
    assert_eq!(s.state, State::Follower);
    assert_eq!(s.term, 1);
    assert_eq!(s.log, vec![entry(1, 1, 4)]);
    assert_eq!(leader.voted_for(), Some(0));
}

#[test]
fn up_leaves_a_live_replica_alone() {
    let mut leader = leader_of_three();
    let effects = leader.control(ControlMessage::Up);
    assert!(!effects.reset_timer);
    assert_eq!(leader.state(), State::Leader);
}

#[test]
fn disconnected_replica_neither_receives_nor_sends() {
    let mut r = replica(0, 3);
    r.control(ControlMessage::Disconnect);
    assert!(!r.is_connected());
    let effects = r.handle_message(vote_request(1, 1, 0, 0));
    assert!(effects.outbox.is_empty());
    assert_eq!(r.term(), 0);
    let effects = r.election_timeout();
    assert!(effects.outbox.is_empty());
    assert!(effects.reset_timer);
    assert_eq!(r.state(), State::Candidate);
    assert_eq!(r.term(), 1);
    r.control(ControlMessage::Connect);
    assert!(r.is_connected());
    assert!(!granted(&r.handle_message(vote_request(1, 1, 0, 0))));
}

#[test]
fn replica_at_the_last_term_does_not_stand() {
    let mut r = replica(0, 3);
    r.handle_message(vote_request(1, usize::MAX, 0, 0));
    assert_eq!(r.term(), usize::MAX);
    let effects = r.election_timeout();
    assert_eq!(r.state(), State::Follower);
    assert_eq!(r.term(), usize::MAX);
    assert!(effects.reset_timer);
    assert!(effects.outbox.is_empty());
}

#[test]
fn value_wraps_around() {
    let mut r = replica(0, 1);
    r.election_timeout();
    r.control(ControlMessage::Apply(i32::MAX));
    r.control(ControlMessage::Apply(1));
    r.heartbeat();
    assert_eq!(r.value(), i32::MIN);
}
