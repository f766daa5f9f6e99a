use std::collections::{BTreeMap, BTreeSet};

use miniraft::log::{App, LogEntry, ServerId, Term};
use miniraft::rpc::{SendableMessage, Target};
use miniraft::server::{RaftConfig, RaftServer};

use rand::{RngCore, SeedableRng};
use rand_chacha::ChaCha8Rng;

const DEFAULT_CFG: RaftConfig = RaftConfig {
    election_timeout: 10,
    election_timeout_jitter: 4,
    heartbeat_interval: 5,
};

const MAX_WAIT: u32 = DEFAULT_CFG.election_timeout + DEFAULT_CFG.election_timeout_jitter;
const MAX_TICKS: u32 = 1_000;

struct CountingApp {
    state: u32,
}

impl App<u32, u32> for CountingApp {
    // the record of fed entries is a specification function, never run
    fn fed(&self) -> vstd::seq::Seq<LogEntry<u32>> {
        unreachable!()
    }
    fn transition_fn(&mut self, entry: &LogEntry<u32>) {
        self.state += entry.data;
    }
    fn get_state(&self) -> u32 {
        self.state
    }
}

/// An in-process cluster whose network can drop links and whose servers can be down
struct TestCluster {
    msg_queue: Vec<(ServerId, SendableMessage<u32>)>,
    peers: BTreeMap<ServerId, RaftServer<u32, u32>>,
    drop_connections: BTreeSet<(ServerId, ServerId)>,
    down: BTreeSet<ServerId>,
}

impl TestCluster {
    fn new(n: usize, seed: u64, config: RaftConfig) -> Self {
        let mut cluster = TestCluster {
            peers: BTreeMap::new(),
            msg_queue: Vec::new(),
            drop_connections: BTreeSet::new(),
            down: BTreeSet::new(),
        };
        let peers: BTreeSet<ServerId> = (0..n).collect();
        let mut rng = ChaCha8Rng::seed_from_u64(seed);
        for id in peers.clone() {
            let mut peers_without_this = peers.clone();
            peers_without_this.remove(&id);
            cluster.peers.insert(
                id,
                RaftServer::new(
                    id,
                    peers_without_this,
                    config.clone(),
                    Some(rng.next_u64()),
                    Box::new(CountingApp { state: 0 }),
                ),
            );
        }
        cluster
    }

    fn drop_between(&mut self, t1: ServerId, t2: ServerId) {
        self.drop_connections.insert((t1, t2));
    }

    fn kill(&mut self, t: ServerId) {
        self.down.insert(t);
    }

    fn revive(&mut self, t: ServerId) {
        self.down.remove(&t);
    }

    fn should_drop(&self, from: ServerId, to: ServerId) -> bool {
        self.down.contains(&to) || self.drop_connections.contains(&(from, to))
    }

    fn tick(&mut self) -> usize {
        let old_msg_q_size = self.msg_queue.len();
        let ids: Vec<ServerId> = self.peers.keys().copied().collect();
        for id in &ids {
            if !self.down.contains(id) {
                let peer = self.peers.get_mut(id).unwrap();
                let new_msgs = peer.tick();
                self.msg_queue.extend(new_msgs.into_iter().map(|m| (*id, m)));
            }
        }
        let num_messages = self.msg_queue.len() - old_msg_q_size;
        let messages_to_send: Vec<(ServerId, SendableMessage<u32>)> = self.msg_queue.drain(..).collect();
        for (from, (target, rpc)) in messages_to_send {
            match target {
                Target::Single(to) => {
                    if !self.should_drop(from, to) {
                        let peer = self.peers.get_mut(&to).expect("peer not found");
                        let new_msgs = peer.receive_rpc(&rpc);
                        self.msg_queue.extend(new_msgs.into_iter().map(|m| (to, m)));
                    }
                }
                Target::Broadcast => {
                    for to in &ids {
                        if !self.should_drop(from, *to) {
                            let peer = self.peers.get_mut(to).unwrap();
                            let new_msgs = peer.receive_rpc(&rpc);
                            self.msg_queue.extend(new_msgs.into_iter().map(|m| (*to, m)));
                        }
                    }
                }
            }
        }
        num_messages
    }

    fn get_by_id(&mut self, id: ServerId) -> &mut RaftServer<u32, u32> {
        self.peers.get_mut(&id).unwrap()
    }

    fn tick_by(&mut self, n: u32) -> &mut Self {
        for _ in 0..n {
            self.tick();
        }
        self
    }

    fn num_leaders(&self) -> usize {
        self.peers.values().filter(|peer| peer.is_leader()).count()
    }

    fn has_n_leaders(&self, n: usize) -> bool {
        self.num_leaders() == n
    }

    fn has_candidate(&self) -> bool {
        self.peers.values().any(|peer| peer.is_candidate())
    }

    fn get_leader(&self) -> Option<&RaftServer<u32, u32>> {
        self.peers.values().filter(|peer| peer.is_leader()).last()
    }

    fn get_leader_mut(&mut self) -> Option<&mut RaftServer<u32, u32>> {
        self.peers.values_mut().filter(|peer| peer.is_leader()).last()
    }

    fn leader_term(&self) -> Term {
        self.get_leader().unwrap().current_term
    }

    fn term_consensus(&self) -> bool {
        let l_term = self.leader_term();
        self.peers.values().all(|peer| peer.current_term == l_term)
    }

    fn state_consensus(&self) -> bool {
        let states: BTreeSet<u32> = self.peers.values().map(|p| p.log.app.get_state()).collect();
        states.len() == 1
    }
}

// ---- a single server ----

#[test]
fn appending_to_single_log_is_ok() {
    let mut cluster = TestCluster::new(1, 0, DEFAULT_CFG);
    cluster.tick_by(MAX_WAIT);
    let lead = cluster.get_by_id(0);
    assert_eq!(lead.log.entries.len(), 0);

    // append a few to log
    assert!(lead.client_request(50).is_ok());
    assert!(lead.client_request(100).is_ok());

    assert_eq!(lead.log.entries.len(), 2);
    assert_eq!(lead.log.committed_len, 2);
    assert_eq!(lead.log.applied_len, 2);
    assert_eq!(lead.log.app.get_state(), 150);
}

// ---- elections ----

#[test]
fn trivial_case_one_server_remains_leader() {
    let mut cluster = TestCluster::new(1, 0, DEFAULT_CFG);
    assert!(cluster.has_n_leaders(0));
    cluster.tick_by(MAX_WAIT);
    assert!(!cluster.has_candidate());
    assert!(cluster.has_n_leaders(1));
    cluster.tick_by(MAX_WAIT);
    assert!(cluster.has_n_leaders(1));
    assert!(cluster.leader_term() == 1);
    assert!(cluster.term_consensus());
}

#[test]
fn three_servers_one_server_remains_leader() {
    let mut cluster = TestCluster::new(3, 0, DEFAULT_CFG);
    assert!(cluster.has_n_leaders(0));
    cluster.tick_by(MAX_WAIT);
    assert!(cluster.has_n_leaders(1));
}

#[test]
fn large_number_servers_one_leader_remains_leader() {
    let mut cluster = TestCluster::new(47, 0, DEFAULT_CFG);
    assert!(cluster.has_n_leaders(0));
    cluster.tick_by(MAX_WAIT);
    assert!(cluster.has_n_leaders(1));
}

#[test]
fn no_jitter_never_has_leader() {
    let mut cluster = TestCluster::new(
        3,
        0,
        RaftConfig {
            election_timeout_jitter: 0,
            ..DEFAULT_CFG
        },
    );
    assert!(cluster.has_n_leaders(0));
    cluster.tick_by(MAX_TICKS);
    assert!(cluster.has_n_leaders(0));
}

// A partitioned cluster of two servers elects nobody: a quorum of two is a
// strict majority, so neither server can win alone (the partition test that
// expected two leaders here contradicts `quorum_is_a_strict_majority`).
#[test]
fn two_cluster_partition_has_no_leader() {
    let mut cluster = TestCluster::new(2, 0, DEFAULT_CFG);
    cluster.drop_between(0, 1);
    cluster.tick_by(4 * MAX_WAIT);
    assert!(cluster.has_n_leaders(0));
}

#[test]
fn three_cluster_partition_has_one_leader() {
    let mut cluster = TestCluster::new(3, 0, DEFAULT_CFG);
    cluster.drop_between(0, 1);
    cluster.tick_by(MAX_WAIT);
    assert!(cluster.has_n_leaders(1));
    assert!(!cluster.has_candidate());
    assert!(cluster.leader_term() == 1);
    assert!(cluster.term_consensus());
}

#[test]
fn degraded_all_down_has_no_leader() {
    let mut cluster = TestCluster::new(3, 0, DEFAULT_CFG);
    cluster.kill(0);
    cluster.kill(1);
    cluster.kill(2);
    assert!(cluster.has_n_leaders(0));
    cluster.tick_by(MAX_TICKS);
    assert!(cluster.has_n_leaders(0));
}

#[test]
fn degraded_one_alive() {
    let mut cluster = TestCluster::new(3, 0, DEFAULT_CFG);
    cluster.kill(0);
    cluster.kill(1);
    cluster.tick_by(MAX_WAIT);
    // cannot achieve quorum w 1/3
    assert!(cluster.has_n_leaders(0));
    cluster.revive(1);
    cluster.revive(0);
    cluster.tick_by(MAX_TICKS);
    assert!(cluster.has_n_leaders(1))
}

// ---- quorum must be a strict majority ----

fn partition_2_2(cluster: &mut TestCluster) {
    for a in [0, 1] {
        for b in [2, 3] {
            cluster.drop_between(a, b);
            cluster.drop_between(b, a);
        }
    }
}

#[test]
fn quorum_is_a_strict_majority() {
    for (n, want) in [(1, 1), (2, 2), (3, 2), (4, 3), (5, 3), (6, 4), (7, 4)] {
        let cluster = TestCluster::new(n, 0, DEFAULT_CFG);
        assert_eq!(cluster.peers[&0].quorum_size(), want, "cluster size {}", n);
    }
}

#[test]
fn four_node_split_brain_elects_no_leader() {
    let mut cluster = TestCluster::new(4, 0, DEFAULT_CFG);
    partition_2_2(&mut cluster);
    cluster.tick_by(4 * MAX_WAIT);

    // neither side of a 2-2 split can reach 3 votes
    assert_eq!(cluster.num_leaders(), 0);
    for id in 0..4 {
        assert!(
            cluster.get_by_id(id).client_request(100).is_err(),
            "node {} accepted a client request while partitioned",
            id
        );
        assert_eq!(cluster.peers[&id].log.committed_len, 0);
    }
}

#[test]
fn four_node_cluster_recovers_after_partition_heals() {
    let mut cluster = TestCluster::new(4, 0, DEFAULT_CFG);
    partition_2_2(&mut cluster);
    cluster.tick_by(4 * MAX_WAIT);
    assert_eq!(cluster.num_leaders(), 0);

    cluster.drop_connections.clear();
    cluster.tick_by(MAX_WAIT);
    assert_eq!(cluster.num_leaders(), 1);

    // the cluster accepts and commits commands again
    cluster.get_leader_mut().unwrap().client_request(50).unwrap();
    cluster.tick_by(4 * DEFAULT_CFG.heartbeat_interval + 2);
    assert!(cluster.term_consensus());
    assert!(cluster.state_consensus());
    assert_eq!(cluster.peers[&0].log.app.get_state(), 50);
}

#[test]
fn healthy_four_node_cluster_elects_single_leader() {
    let mut cluster = TestCluster::new(4, 0, DEFAULT_CFG);
    cluster.tick_by(MAX_WAIT);
    assert_eq!(cluster.num_leaders(), 1);
    cluster.tick_by(MAX_WAIT);
    assert_eq!(cluster.num_leaders(), 1);
    assert!(cluster.term_consensus());
}

// ---- figure 8 of the Raft paper ----

/// Leader in the highest term among servers that are actually running
fn alive_leader(cluster: &TestCluster) -> Option<ServerId> {
    cluster
        .peers
        .values()
        .filter(|p| p.is_leader() && !cluster.down.contains(&p.id))
        .max_by_key(|p| p.current_term)
        .map(|p| p.id)
}

/// Tick until `cond` holds, panicking after MAX_TICKS
fn wait_until(cluster: &mut TestCluster, what: &str, cond: impl Fn(&TestCluster) -> bool) {
    for _ in 0..MAX_TICKS {
        if cond(cluster) {
            return;
        }
        cluster.tick_by(1);
    }
    panic!("timed out after {} ticks waiting for: {}", MAX_TICKS, what);
}

#[test]
fn figure8_committed_entries_are_never_overwritten() {
    let mut cluster = TestCluster::new(3, 0, DEFAULT_CFG);

    // 1) elect the initial leader l1
    wait_until(&mut cluster, "initial leader", |c| alive_leader(c).is_some());
    let l1 = alive_leader(&cluster).unwrap();
    let others: Vec<ServerId> = cluster.peers.keys().copied().filter(|id| *id != l1).collect();

    // 2) cut l1 off, then hand it entry A: it lands in l1's log only
    for id in &others {
        cluster.kill(*id);
    }
    cluster.get_by_id(l1).client_request(100).unwrap();
    assert_eq!(cluster.peers[&l1].log.entries.len(), 1);
    assert_eq!(cluster.peers[&l1].log.committed_len, 0);

    // 3) park l1; the other two elect l2 in a later term
    cluster.kill(l1);
    for id in &others {
        cluster.revive(*id);
    }
    wait_until(&mut cluster, "second leader", |c| alive_leader(c).is_some());
    let l2 = alive_leader(&cluster).unwrap();
    let f = *others.iter().find(|id| **id != l2).unwrap();

    // 4) cut l2 off from f, then hand it entry B: it lands in l2's log only
    cluster.drop_between(l2, f);
    cluster.drop_between(f, l2);
    cluster.get_by_id(l2).client_request(200).unwrap();
    assert_eq!(cluster.peers[&l2].log.entries.len(), 1);
    assert_eq!(cluster.peers[&f].log.entries.len(), 0);

    // 5) park l2, heal the network, revive l1, which replicates A to f
    cluster.kill(l2);
    cluster.drop_connections.clear();
    cluster.revive(l1);
    wait_until(&mut cluster, "entry A replicated to f", |c| {
        c.peers[&f].log.entries.len() == 1
    });
    cluster.tick_by(MAX_WAIT);

    // 6) park l1; revive l2, which overwrites A with B on f
    cluster.kill(l1);
    cluster.revive(l2);
    wait_until(&mut cluster, "entry B overwrites A on f", |c| {
        c.peers[&f].log.entries.first().map(|e| e.data) == Some(200)
    });

    cluster
        .get_by_id(l2)
        .client_request(300)
        .expect("l2 should still be leader");
    cluster.tick_by(MAX_WAIT);
    cluster.revive(l1);
    cluster.tick_by(4 * MAX_WAIT);

    // state machine safety: every node must have applied the same commands
    let states: Vec<(ServerId, u32)> = cluster
        .peers
        .values()
        .map(|p| (p.id, p.log.app.get_state()))
        .collect();
    assert!(
        cluster.state_consensus(),
        "state machines diverged after figure-8 dance: {:?}",
        states
    );
}
