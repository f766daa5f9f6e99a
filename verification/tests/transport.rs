use std::collections::{BTreeMap, BTreeSet};

use miniraft::log::{App, LogEntry, ServerId};
use miniraft::server::{RaftConfig, RaftServer};
use miniraft::transport::{ReliableTransport, TransportMedium};

struct SumApp {
    state: u32,
}

impl App<u32, u32> for SumApp {
    // the record of fed entries is a specification function, never run
    fn fed(&self) -> vstd::seq::Seq<LogEntry<u32>> {
        unreachable!()
    }
    fn transition_fn(&mut self, entry: &LogEntry<u32>) {
        self.state += entry.data;
    }
    fn get_state(&self) -> u32 {
        self.state
    }
}

fn cluster(n: usize) -> ReliableTransport<u32, u32> {
    let cfg = RaftConfig { election_timeout: 10, election_timeout_jitter: 4, heartbeat_interval: 5 };
    let ids: BTreeSet<ServerId> = (0..n).collect();
    let mut peers = BTreeMap::new();
    for id in &ids {
        let mut others = ids.clone();
        others.remove(id);
        peers.insert(*id, RaftServer::new(*id, others, cfg, Some(*id as u64 + 11), Box::new(SumApp { state: 0 })));
    }
    ReliableTransport { msg_queue: Vec::new(), peers }
}

#[test]
fn reliable_transport_elects_a_leader_and_replicates() {
    let mut net = cluster(3);
    let mut sent = 0;
    for _ in 0..30 {
        sent += net.tick().unwrap();
    }
    assert!(sent > 0);
    let leaders: Vec<ServerId> = net.peers.values().filter(|p| p.is_leader()).map(|p| p.id).collect();
    assert_eq!(leaders.len(), 1);
    let leader = leaders[0];
    net.peers.get_mut(&leader).unwrap().client_request(9).unwrap();
    for _ in 0..20 {
        net.tick().unwrap();
    }
    for p in net.peers.values() {
        assert_eq!(p.log.app.get_state(), 9);
        assert_eq!(p.log.committed_len, 1);
    }
}

#[test]
fn quiet_tick_passes_no_messages() {
    let mut net = cluster(3);
    // no election timer runs out on the first tick
    assert_eq!(net.tick().unwrap(), 0);
}

#[test]
fn reliable_transport_servers_agree_on_what_they_commit() {
    let mut net = cluster(5);
    let mut leaders_by_term: BTreeMap<u64, ServerId> = BTreeMap::new();
    for round in 0..200u32 {
        net.tick().unwrap();
        for p in net.peers.values() {
            if p.is_leader() {
                let leader = *leaders_by_term.entry(p.term()).or_insert(p.id);
                assert_eq!(leader, p.id);
            }
        }
        if round % 7 == 0 {
            let leader = net.peers.values().find(|p| p.is_leader()).map(|p| p.id);
            if let Some(id) = leader {
                net.peers.get_mut(&id).unwrap().client_request(round).unwrap();
            }
        }
        let committed: Vec<Vec<(u64, u32)>> = net
            .peers
            .values()
            .map(|p| p.log.entries[..p.log.committed_len].iter().map(|e| (e.term, e.data)).collect())
            .collect();
        for a in &committed {
            for b in &committed {
                let n = a.len().min(b.len());
                assert_eq!(a[..n], b[..n]);
            }
        }
    }
    let states: BTreeSet<u32> = net.peers.values().map(|p| p.log.app.get_state()).collect();
    assert_eq!(states.len(), 1);
    assert!(net.peers.values().all(|p| p.log.committed_len > 0));
}

#[test]
fn servers_commit_within_their_logs() {
    for n in [1, 3] {
        let mut net = cluster(n);
        for round in 0..60 {
            if round % 7 == 3 {
                let leader = net.peers.values().find(|p| p.is_leader()).map(|p| p.id);
                if let Some(l) = leader {
                    net.peers.get_mut(&l).unwrap().client_request(round).unwrap();
                }
            }
            net.tick().unwrap();
            for p in net.peers.values() {
                assert!(p.log.committed_len <= p.log.entries.len());
                assert_eq!(p.log.applied_len, p.log.committed_len);
            }
        }
        assert!(net.peers.values().all(|p| p.log.committed_len > 0));
    }
}
