use std::collections::{BTreeMap, BTreeSet};

use miniraft::log::{App, LogEntry, ServerId, Term};
use miniraft::rpc::{Target, RPC};
use miniraft::server::{RaftConfig, RaftServer};

use rand::{Rng, RngCore, SeedableRng};
use rand_chacha::ChaCha8Rng;

const CFG: RaftConfig = RaftConfig {
    election_timeout: 10,
    election_timeout_jitter: 3,
    heartbeat_interval: 5,
};

struct SumApp {
    sum: u64,
}

impl App<u64, u64> for SumApp {
    // the record of fed entries is a specification function, never run
    fn fed(&self) -> vstd::seq::Seq<LogEntry<u64>> {
        unreachable!()
    }
    fn transition_fn(&mut self, entry: &LogEntry<u64>) {
        self.sum = self.sum.wrapping_add(entry.data);
    }
    fn get_state(&self) -> u64 {
        self.sum
    }
}

/// A message on its way: delivered at `due`, to `to`
struct InFlight {
    due: u64,
    to: ServerId,
    rpc: RPC<u64>,
}

/// A cluster whose network loses, duplicates, delays and reorders messages,
/// and whose clients keep sending fresh commands to whoever leads. After
/// every tick it checks election safety, log matching and that committed
/// prefixes never change and never disagree.
struct ChaosCluster {
    rng: ChaCha8Rng,
    now: u64,
    servers: BTreeMap<ServerId, RaftServer<u64, u64>>,
    net: Vec<InFlight>,
    next_cmd: u64,
    leaders_by_term: BTreeMap<Term, ServerId>,
    committed: BTreeMap<ServerId, Vec<(Term, u64)>>,
}

fn entries_of(server: &RaftServer<u64, u64>) -> Vec<(Term, u64)> {
    server.log_ref().entries.iter().map(|e| (e.term, e.data)).collect()
}

impl ChaosCluster {
    fn new(n: usize, seed: u64) -> Self {
        let mut rng = ChaCha8Rng::seed_from_u64(seed);
        let ids: BTreeSet<ServerId> = (0..n).collect();
        let mut servers = BTreeMap::new();
        for id in &ids {
            let mut peers = ids.clone();
            peers.remove(id);
            let server = RaftServer::new(*id, peers, CFG, Some(rng.next_u64()), Box::new(SumApp { sum: 0 }));
            servers.insert(*id, server);
        }
        ChaosCluster {
            rng,
            now: 0,
            servers,
            net: Vec::new(),
            next_cmd: 1,
            leaders_by_term: BTreeMap::new(),
            committed: BTreeMap::new(),
        }
    }

    fn send(&mut self, from: ServerId, target: Target, rpc: RPC<u64>) {
        let targets: Vec<ServerId> = match target {
            Target::Single(to) => vec![to],
            Target::Broadcast => self.servers.keys().copied().filter(|id| *id != from).collect(),
        };
        for to in targets {
            let copies = if self.rng.gen_bool(0.05) {
                0
            } else if self.rng.gen_bool(0.05) {
                2
            } else {
                1
            };
            for _ in 0..copies {
                let delay = if self.rng.gen_bool(0.05) { self.rng.gen_range(5..40) } else { self.rng.gen_range(1..4) };
                self.net.push(InFlight { due: self.now + delay, to, rpc: copy_rpc(&rpc) });
            }
        }
    }

    fn step(&mut self) {
        self.now += 1;
        let ids: Vec<ServerId> = self.servers.keys().copied().collect();
        for id in &ids {
            let out = self.servers.get_mut(id).unwrap().tick();
            for (target, rpc) in out {
                self.send(*id, target, rpc);
            }
        }
        let mut due = Vec::new();
        let mut later = Vec::new();
        for m in self.net.drain(..) {
            if m.due <= self.now {
                due.push(m);
            } else {
                later.push(m);
            }
        }
        self.net = later;
        for m in due {
            let out = self.servers.get_mut(&m.to).unwrap().receive_rpc(&m.rpc);
            for (target, rpc) in out {
                self.send(m.to, target, rpc);
            }
        }
        for id in &ids {
            if self.servers[id].is_leader() && self.rng.gen_bool(0.3) {
                let cmd = self.next_cmd;
                self.next_cmd += 1;
                assert!(self.servers.get_mut(id).unwrap().client_request(cmd).is_ok());
            }
        }
        self.check();
    }

    fn check(&mut self) {
        // election safety: one leader per term, ever
        for (id, server) in &self.servers {
            if server.is_leader() {
                let leader = *self.leaders_by_term.entry(server.term()).or_insert(*id);
                assert_eq!(leader, *id, "two leaders in term {}", server.term());
            }
        }
        // log matching: an entry of the same term at the same index means equal prefixes
        let logs: Vec<Vec<(Term, u64)>> = self.servers.values().map(entries_of).collect();
        for a in &logs {
            for b in &logs {
                let n = a.len().min(b.len());
                for i in 0..n {
                    if a[i].0 == b[i].0 {
                        assert_eq!(a[..=i], b[..=i]);
                    }
                }
            }
        }
        // committed prefixes never change, and never disagree
        for (id, server) in &self.servers {
            let log = server.log_ref();
            let prefix: Vec<(Term, u64)> = entries_of(server)[..log.committed_len].to_vec();
            if let Some(before) = self.committed.get(id) {
                assert!(before.len() <= prefix.len());
                assert_eq!(prefix[..before.len()], before[..]);
            }
            self.committed.insert(*id, prefix);
        }
        let prefixes: Vec<&Vec<(Term, u64)>> = self.committed.values().collect();
        for a in &prefixes {
            for b in &prefixes {
                let n = a.len().min(b.len());
                assert_eq!(a[..n], b[..n]);
            }
        }
    }
}

fn copy_rpc(rpc: &RPC<u64>) -> RPC<u64> {
    match rpc {
        RPC::VoteRequest(r) => RPC::VoteRequest(*r),
        RPC::VoteResponse(r) => RPC::VoteResponse(*r),
        RPC::AppendRequest(r) => RPC::AppendRequest(r.clone()),
        RPC::AppendResponse(r) => RPC::AppendResponse(*r),
    }
}

fn run(n: usize, seeds: std::ops::Range<u64>, ticks: u64) -> usize {
    let mut most_committed = 0;
    for seed in seeds {
        let mut cluster = ChaosCluster::new(n, seed);
        for _ in 0..ticks {
            cluster.step();
        }
        let committed = cluster.committed.values().map(|p| p.len()).max().unwrap_or(0);
        most_committed = most_committed.max(committed);
    }
    most_committed
}

#[test]
fn three_servers_stay_safe_under_faults() {
    assert!(run(3, 0..6, 400) > 0);
}

#[test]
fn five_servers_stay_safe_under_faults() {
    assert!(run(5, 100..104, 400) > 0);
}

#[test]
fn two_servers_stay_safe_under_faults() {
    assert!(run(2, 200..206, 300) > 0);
}
