use raft_core::peer::link_passes;
use raft_core::{ControlMessage, Outbound, Replica, State};
use std::collections::VecDeque;

/// A cluster run in one thread: messages wait in one queue, and each draw
/// for the lossy links comes from a fixed pseudo-random sequence.
struct Sim {
    replicas: Vec<Replica>,
    queue: VecDeque<Outbound>,
    drop_percent: usize,
    seed: u64,
    commits: Vec<usize>,
    terms: Vec<usize>,
    delivered: usize,
    lost: usize,
}

impl Sim {
    fn new(size: usize, drop_percent: usize) -> Sim {
        let mut replicas = Vec::new();
        for id in 0..size {
            replicas.push(Replica::new(id, size).unwrap());
        }
        Sim {
            replicas,
            queue: VecDeque::new(),
            drop_percent,
            seed: 0x2545_f491_4f6c_dd1d,
            commits: vec![0; size],
            terms: vec![0; size],
            delivered: 0,
            lost: 0,
        }
    }

    fn draw(&mut self) -> u64 {
        self.seed = self
            .seed
            .wrapping_mul(6364136223846793005)
            .wrapping_add(1442695040888963407);
        (self.seed >> 33) % 101
    }

    fn post(&mut self, outbox: Vec<Outbound>) {
        for outbound in outbox {
            let draw = self.draw();
            if link_passes(draw, self.drop_percent) {
                self.queue.push_back(outbound);
            } else {
                self.lost += 1;
            }
        }
    }

    fn timeout(&mut self, id: usize) {
        let effects = self.replicas[id].election_timeout();
        self.post(effects.outbox);
        self.check();
    }

    fn heartbeats(&mut self) {
        for id in 0..self.replicas.len() {
            let effects = self.replicas[id].heartbeat();
            self.post(effects.outbox);
            self.check();
        }
    }

    fn control(&mut self, id: usize, command: ControlMessage) {
        let effects = self.replicas[id].control(command);
        self.post(effects.outbox);
        self.check();
    }

    fn drain(&mut self) {
        while let Some(outbound) = self.queue.pop_front() {
            let effects = self.replicas[outbound.to].handle_message(outbound.message);
            self.delivered += 1;
            self.post(effects.outbox);
            self.check();
        }
    }

    fn leaders(&self) -> Vec<usize> {
        (0..self.replicas.len())
            .filter(|&id| self.replicas[id].state() == State::Leader && self.replicas[id].is_connected())
            .collect()
    }

    /// What must hold after every single event.
    fn check(&mut self) {
        let size = self.replicas.len();
        for a in 0..size {
            let sa = self.replicas[a].status();
            assert!(sa.commit_index >= self.commits[a], "commit index fell at {}", a);
            assert!(sa.term >= self.terms[a], "term fell at {}", a);
            self.commits[a] = sa.commit_index;
            self.terms[a] = sa.term;
            assert_eq!(sa.last_applied, sa.commit_index);
            assert!(sa.commit_index <= sa.log.len());
            let mut sum: i32 = 0;
            for k in 0..sa.last_applied {
                sum = sum.wrapping_add(sa.log[k].delta);
            }
            assert_eq!(sa.value, sum);
            for (k, entry) in sa.log.iter().enumerate() {
                assert_eq!(entry.index, k + 1);
            }
            for b in (a + 1)..size {
                let sb = self.replicas[b].status();
                if sa.state == State::Leader && sb.state == State::Leader {
                    assert_ne!(sa.term, sb.term, "two leaders in term {}", sa.term);
                }
                let shared = sa.log.len().min(sb.log.len());
                for k in 0..shared {
                    if sa.log[k].term == sb.log[k].term {
                        assert_eq!(sa.log[..=k], sb.log[..=k], "logs {} and {} differ", a, b);
                    }
                }
                let committed = sa.commit_index.min(sb.commit_index);
                assert_eq!(sa.log[..committed], sb.log[..committed]);
            }
        }
    }

    /// One round: a timeout at the replica whose turn it is if no connected
    /// leader is about, then a heartbeat tick everywhere.
    fn round(&mut self, turn: usize) {
        let size = self.replicas.len();
        if self.leaders().is_empty() {
            let mut id = turn % size;
            while !self.replicas[id].is_connected() || self.replicas[id].state() == State::Dead {
                id = (id + 1) % size;
            }
            self.timeout(id);
            self.drain();
        }
        self.heartbeats();
        self.drain();
    }

    /// Rounds until `done` holds. Returns the number of rounds taken.
    fn run_until(&mut self, limit: usize, done: &dyn Fn(&Sim) -> bool) -> usize {
        for turn in 0..limit {
            if done(self) {
                return turn;
            }
            self.round(turn);
        }
        assert!(done(self), "not done after {} rounds", limit);
        limit
    }
}

#[test]
fn one_leader_emerges_and_values_converge() {
    let mut sim = Sim::new(5, 0);
    sim.timeout(2);
    sim.drain();
    assert_eq!(sim.leaders(), vec![2]);
    for id in 0..5 {
        assert_eq!(sim.replicas[id].term(), 1);
        if id != 2 {
            assert_eq!(sim.replicas[id].state(), State::Follower);
            assert_eq!(sim.replicas[id].voted_for(), Some(2));
        }
    }
    let deltas = [5, -3, 10, 7, 1];
    for delta in deltas {
        sim.control(2, ControlMessage::Apply(delta));
    }
    sim.heartbeats();
    sim.drain();
    assert_eq!(sim.replicas[2].commit_index(), 5);
    assert_eq!(sim.replicas[2].value(), 20);
    sim.heartbeats();
    sim.drain();
    for id in 0..5 {
        let status = sim.replicas[id].status();
        assert_eq!(status.value, 20);
        assert_eq!(status.commit_index, 5);
        assert_eq!(status.last_applied, 5);
        assert_eq!(status.log.len(), 5);
    }
    assert_eq!(sim.leaders(), vec![2]);
    assert_eq!(sim.lost, 0);
}

#[test]
fn writes_to_a_follower_are_not_taken() {
    let mut sim = Sim::new(5, 0);
    sim.timeout(0);
    sim.drain();
    sim.control(1, ControlMessage::Apply(9));
    sim.control(0, ControlMessage::Apply(4));
    sim.heartbeats();
    sim.drain();
    sim.heartbeats();
    sim.drain();
    for id in 0..5 {
        assert_eq!(sim.replicas[id].value(), 4);
    }
}

#[test]
fn split_vote_is_resolved_by_a_later_timeout() {
    let mut sim = Sim::new(4, 0);
    sim.timeout(0);
    sim.timeout(1);
    sim.timeout(2);
    sim.timeout(3);
    sim.drain();
    assert!(sim.leaders().is_empty());
    sim.timeout(1);
    sim.drain();
    assert_eq!(sim.leaders(), vec![1]);
    assert_eq!(sim.replicas[1].term(), 2);
}

#[test]
fn majority_works_on_while_a_minority_is_cut_off() {
    let mut sim = Sim::new(5, 0);
    sim.control(3, ControlMessage::Disconnect);
    sim.control(4, ControlMessage::Disconnect);
    sim.timeout(0);
    sim.drain();
    assert_eq!(sim.leaders(), vec![0]);
    sim.control(0, ControlMessage::Apply(8));
    sim.control(0, ControlMessage::Apply(-5));
    sim.heartbeats();
    sim.drain();
    sim.heartbeats();
    sim.drain();
    for id in 0..3 {
        assert_eq!(sim.replicas[id].value(), 3);
        assert_eq!(sim.replicas[id].commit_index(), 2);
    }
    for id in 3..5 {
        assert_eq!(sim.replicas[id].value(), 0);
        assert!(sim.replicas[id].status().log.is_empty());
    }
    let kept = sim.replicas[0].status().log;

    sim.control(3, ControlMessage::Connect);
    sim.control(4, ControlMessage::Connect);
    sim.run_until(10, &|sim: &Sim| (0..5).all(|id| sim.replicas[id].value() == 3));
    for id in 0..5 {
        let status = sim.replicas[id].status();
        assert_eq!(status.log, kept);
        assert_eq!(status.commit_index, 2);
    }
}

#[test]
fn cut_off_replica_that_stood_alone_rejoins_without_loss() {
    let mut sim = Sim::new(5, 0);
    sim.timeout(0);
    sim.drain();
    sim.control(0, ControlMessage::Apply(1));
    sim.heartbeats();
    sim.drain();
    sim.control(4, ControlMessage::Disconnect);
    sim.timeout(4);
    sim.timeout(4);
    assert_eq!(sim.replicas[4].term(), 3);
    assert_eq!(sim.replicas[4].state(), State::Candidate);
    sim.control(0, ControlMessage::Apply(2));
    sim.control(0, ControlMessage::Apply(3));
    sim.heartbeats();
    sim.drain();
    sim.heartbeats();
    sim.drain();
    for id in 0..4 {
        assert_eq!(sim.replicas[id].value(), 6);
    }
    let kept = sim.replicas[0].status().log;
    assert_eq!(kept.len(), 3);

    sim.control(4, ControlMessage::Connect);
    sim.run_until(20, &|sim: &Sim| {
        (0..5).all(|id| sim.replicas[id].commit_index() >= 3) && sim.leaders().len() == 1
    });
    for id in 0..5 {
        let status = sim.replicas[id].status();
        assert_eq!(status.log[..3], kept[..]);
        assert_eq!(status.value, 6);
    }
}

#[test]
fn minority_cannot_elect_or_commit() {
    let mut sim = Sim::new(5, 0);
    sim.timeout(0);
    sim.drain();
    for id in 2..5 {
        sim.control(id, ControlMessage::Disconnect);
    }
    sim.control(0, ControlMessage::Apply(7));
    for _ in 0..5 {
        sim.heartbeats();
        sim.drain();
    }
    assert_eq!(sim.replicas[0].commit_index(), 0);
    assert_eq!(sim.replicas[1].status().log.len(), 1);
    assert_eq!(sim.replicas[1].commit_index(), 0);
    sim.timeout(1);
    sim.drain();
    assert_eq!(sim.replicas[1].state(), State::Candidate);
}

#[test]
fn dead_leader_is_replaced_and_catches_up() {
    let mut sim = Sim::new(3, 0);
    sim.timeout(0);
    sim.drain();
    sim.control(0, ControlMessage::Apply(4));
    sim.heartbeats();
    sim.drain();
    sim.control(0, ControlMessage::Down);
    sim.timeout(1);
    sim.drain();
    assert_eq!(sim.replicas[1].state(), State::Leader);
    assert_eq!(sim.replicas[1].status().log.len(), 1);
    sim.control(1, ControlMessage::Apply(6));
    sim.heartbeats();
    sim.drain();
    assert_eq!(sim.replicas[1].value(), 10);
    sim.control(0, ControlMessage::Up);
    assert_eq!(sim.replicas[0].state(), State::Follower);
    sim.heartbeats();
    sim.drain();
    sim.heartbeats();
    sim.drain();
    for id in 0..3 {
        assert_eq!(sim.replicas[id].value(), 10);
        assert_eq!(sim.replicas[id].term(), 2);
    }
}

#[test]
fn lossy_links_still_elect_and_commit() {
    let mut sim = Sim::new(5, 30);
    let rounds = sim.run_until(200, &|sim: &Sim| sim.leaders().len() == 1);
    assert!(rounds < 200);
    let mut next: i32 = 1;
    let mut turn = 0;
    while (0..5).any(|id| sim.replicas[id].commit_index() < 10) {
        if next <= 10 {
            if let Some(&leader) = sim.leaders().first() {
                let before = sim.replicas[leader].status().log.len();
                sim.control(leader, ControlMessage::Apply(next));
                if sim.replicas[leader].status().log.len() == before + 1 {
                    next += 1;
                }
            }
        }
        sim.round(turn);
        turn += 1;
        assert!(turn < 2000, "no progress under loss");
    }
    assert!(sim.lost > 0);
    assert!(sim.delivered > 0);
    let reference = sim.replicas[0].status().log;
    for id in 0..5 {
        let status = sim.replicas[id].status();
        assert_eq!(status.log[..10], reference[..10]);
        assert!(status.commit_index >= 10);
    }
}

#[test]
fn heavy_loss_still_makes_progress() {
    let mut sim = Sim::new(3, 60);
    sim.run_until(5000, &|sim: &Sim| sim.leaders().len() == 1);
    let leader = sim.leaders()[0];
    sim.control(leader, ControlMessage::Apply(42));
    let mut turn = 0;
    while (0..3).any(|id| sim.replicas[id].value() == 0) {
        sim.round(turn);
        turn += 1;
        assert!(turn < 5000, "no progress under loss");
    }
    assert!(sim.lost > 0);
}

#[test]
fn later_leader_holds_what_was_committed() {
    let mut sim = Sim::new(5, 0);
    sim.timeout(0);
    sim.drain();
    for delta in [3, 4, 5] {
        sim.control(0, ControlMessage::Apply(delta));
    }
    sim.heartbeats();
    sim.drain();
    assert_eq!(sim.replicas[0].commit_index(), 3);
    let committed = sim.replicas[0].status().log;
    sim.control(0, ControlMessage::Apply(99));
    sim.control(0, ControlMessage::Down);
    sim.timeout(3);
    sim.drain();
    assert_eq!(sim.leaders(), vec![3]);
    assert_eq!(sim.replicas[3].term(), 2);
    assert_eq!(sim.replicas[3].status().log[..3], committed[..3]);
    assert_eq!(sim.replicas[3].status().log.len(), 3);
    sim.control(3, ControlMessage::Apply(6));
    sim.heartbeats();
    sim.drain();
    sim.control(0, ControlMessage::Up);
    sim.heartbeats();
    sim.drain();
    sim.heartbeats();
    sim.drain();
    for id in 0..5 {
        let status = sim.replicas[id].status();
        assert_eq!(status.log[..3], committed[..3]);
        assert_eq!(status.log.len(), 4);
        assert_eq!(status.log[3].delta, 6);
        assert_eq!(status.value, 18);
    }
}

#[test]
fn replica_that_is_behind_cannot_win() {
    let mut sim = Sim::new(3, 0);
    sim.timeout(0);
    sim.drain();
    sim.control(2, ControlMessage::Disconnect);
    sim.control(0, ControlMessage::Apply(7));
    sim.heartbeats();
    sim.drain();
    assert_eq!(sim.replicas[1].commit_index(), 0);
    assert_eq!(sim.replicas[0].commit_index(), 1);
    sim.control(2, ControlMessage::Connect);
    sim.control(0, ControlMessage::Disconnect);
    sim.timeout(2);
    sim.drain();
    assert_eq!(sim.replicas[2].state(), State::Candidate);
    assert_eq!(sim.replicas[1].term(), 2);
    assert_eq!(sim.replicas[1].voted_for(), None);
    sim.timeout(1);
    sim.drain();
    assert_eq!(sim.leaders(), vec![1]);
    assert_eq!(sim.replicas[1].term(), 3);
    assert_eq!(sim.replicas[1].status().log.len(), 1);
    sim.control(1, ControlMessage::Apply(1));
    sim.heartbeats();
    sim.drain();
    sim.heartbeats();
    sim.drain();
    assert_eq!(sim.replicas[2].value(), 8);
    assert_eq!(sim.replicas[1].value(), 8);
}

#[test]
fn two_rivals_never_lead_the_same_term() {
    let mut sim = Sim::new(5, 0);
    sim.timeout(0);
    sim.timeout(1);
    sim.drain();
    let leaders = sim.leaders();
    assert!(leaders.len() <= 1);
    let votes_for_0 = (0..5).filter(|&id| sim.replicas[id].voted_for() == Some(0)).count();
    let votes_for_1 = (0..5).filter(|&id| sim.replicas[id].voted_for() == Some(1)).count();
    assert_eq!(votes_for_0 + votes_for_1, 5);
    assert_eq!(leaders, vec![0]);
}
