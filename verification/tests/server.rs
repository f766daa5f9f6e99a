use std::collections::BTreeSet;

use miniraft::log::{App, LogEntry, ServerId};
use miniraft::rpc::{AppendRequest, AppendResponse, Target, VoteRequest, VoteResponse, RPC};
use miniraft::server::{RaftConfig, RaftError, RaftServer};

struct SumApp {
    state: u64,
}

impl App<u64, u64> for SumApp {
    // the record of fed entries is a specification function, never run
    fn fed(&self) -> vstd::seq::Seq<LogEntry<u64>> {
        unreachable!()
    }
    fn transition_fn(&mut self, entry: &LogEntry<u64>) {
        self.state += entry.data;
    }
    fn get_state(&self) -> u64 {
        self.state
    }
}

const CFG: RaftConfig = RaftConfig {
    election_timeout: 10,
    election_timeout_jitter: 0,
    heartbeat_interval: 3,
};

fn server(id: ServerId, peers: &[ServerId], seed: u64) -> RaftServer<u64, u64> {
    let peers: BTreeSet<ServerId> = peers.iter().copied().collect();
    RaftServer::new(id, peers, CFG, Some(seed), Box::new(SumApp { state: 0 }))
}

fn vote_request(term: u64, candidate: ServerId, last_idx: usize, last_term: u64) -> RPC<u64> {
    RPC::VoteRequest(VoteRequest {
        candidate_term: term,
        candidate_id: candidate,
        candidate_last_log_idx: last_idx,
        candidate_last_log_term: last_term,
    })
}

fn append_request(term: u64, leader: ServerId, prefix: usize, prefix_term: u64, commit: usize, entries: Vec<LogEntry<u64>>) -> RPC<u64> {
    RPC::AppendRequest(AppendRequest {
        leader_term: term,
        leader_id: leader,
        leader_last_log_idx: prefix,
        leader_last_log_term: prefix_term,
        leader_commit: commit,
        entries,
    })
}

fn vote_granted(msgs: &[(Target, RPC<u64>)]) -> bool {
    match &msgs[0].1 {
        RPC::VoteResponse(r) => r.vote_granted,
        _ => panic!("expected a vote response"),
    }
}

fn append_answer(msgs: &[(Target, RPC<u64>)]) -> AppendResponse {
    match &msgs[0].1 {
        RPC::AppendResponse(r) => *r,
        _ => panic!("expected an append response"),
    }
}

/// Ticks a lone candidate-to-be until it starts an election and reports how many ticks that took
fn ticks_to_election(s: &mut RaftServer<u64, u64>) -> u32 {
    let mut n = 0;
    while s.is_follower() {
        s.tick();
        n += 1;
    }
    n
}

#[test]
fn follower_refuses_client_requests() {
    let mut s = server(0, &[1, 2], 1);
    assert_eq!(s.client_request(7), Err(RaftError::NotLeader));
    assert_eq!(s.log.entries.len(), 0);
}

#[test]
fn election_starts_after_the_timeout() {
    let mut s = server(0, &[1, 2], 1);
    assert_eq!(ticks_to_election(&mut s), 10);
    assert!(s.is_candidate());
    assert_eq!(s.current_term, 1);
}

#[test]
fn jitter_spreads_election_times() {
    let cfg = RaftConfig { election_timeout: 10, election_timeout_jitter: 4, heartbeat_interval: 3 };
    let mut seen = BTreeSet::new();
    for seed in 0..20 {
        let peers: BTreeSet<ServerId> = [1, 2].into_iter().collect();
        let mut s: RaftServer<u64, u64> = RaftServer::new(0, peers, cfg, Some(seed), Box::new(SumApp { state: 0 }));
        let n = ticks_to_election(&mut s);
        assert!((6..=14).contains(&n), "election after {} ticks", n);
        seen.insert(n);
    }
    assert!(seen.len() > 1);
}

#[test]
fn votes_once_per_term() {
    let mut s = server(0, &[1, 2], 1);
    let first = s.receive_rpc(&vote_request(1, 1, 0, 0));
    assert_eq!(first[0].0, Target::Single(1));
    assert!(vote_granted(&first));
    // another candidate of the same term is refused
    let second = s.receive_rpc(&vote_request(1, 2, 0, 0));
    assert!(!vote_granted(&second));
    // asking again is answered the same way
    let again = s.receive_rpc(&vote_request(1, 1, 0, 0));
    assert!(vote_granted(&again));
    // a newer term frees the vote
    let newer = s.receive_rpc(&vote_request(2, 2, 0, 0));
    assert!(vote_granted(&newer));
    assert_eq!(s.current_term, 2);
}

#[test]
fn refuses_candidates_with_older_logs() {
    let mut s = server(0, &[1, 2], 1);
    let ok = s.receive_rpc(&append_request(1, 1, 0, 0, 0, vec![LogEntry { term: 1, data: 4 }, LogEntry { term: 1, data: 5 }]));
    assert!(append_answer(&ok).ok);
    // same last term but shorter log
    let short = s.receive_rpc(&vote_request(2, 2, 0, 1));
    assert!(!vote_granted(&short));
    // older last term
    let old = s.receive_rpc(&vote_request(3, 2, 5, 0));
    assert!(!vote_granted(&old));
    // at least as up to date
    let fine = s.receive_rpc(&vote_request(4, 2, 1, 1));
    assert!(vote_granted(&fine));
}

#[test]
fn candidate_wins_with_a_quorum() {
    let mut s = server(0, &[1, 2, 3, 4], 1);
    ticks_to_election(&mut s);
    assert!(s.is_candidate());
    let grant = |votee| RPC::VoteResponse(VoteResponse { term: 1, vote_granted: true, votee_id: votee });
    assert!(s.receive_rpc(&grant(1)).is_empty());
    // a duplicated vote does not count twice
    assert!(s.receive_rpc(&grant(1)).is_empty());
    assert!(s.is_candidate());
    let msgs = s.receive_rpc(&grant(2));
    assert!(s.is_leader());
    // one append request per follower, in increasing order of id
    let targets: Vec<Target> = msgs.iter().map(|m| m.0).collect();
    assert_eq!(targets, vec![Target::Single(1), Target::Single(2), Target::Single(3), Target::Single(4)]);
}

#[test]
fn refused_vote_does_not_count() {
    let mut s = server(0, &[1, 2], 1);
    ticks_to_election(&mut s);
    s.receive_rpc(&RPC::VoteResponse(VoteResponse { term: 1, vote_granted: false, votee_id: 1 }));
    assert!(s.is_candidate());
    // a response of a newer term sends us back to following
    s.receive_rpc(&RPC::VoteResponse(VoteResponse { term: 5, vote_granted: false, votee_id: 1 }));
    assert!(s.is_follower());
    assert_eq!(s.current_term, 5);
}

#[test]
fn follower_rejects_gaps_and_stale_leaders() {
    let mut s = server(0, &[1, 2], 1);
    // a gap: the leader assumes we hold 3 entries
    let gap = append_answer(&s.receive_rpc(&append_request(1, 1, 3, 1, 0, vec![LogEntry { term: 1, data: 9 }])));
    assert!(!gap.ok);
    assert_eq!(gap.ack_idx, 0);
    // a leader of an older term is refused
    s.receive_rpc(&vote_request(4, 2, 0, 0));
    let stale = append_answer(&s.receive_rpc(&append_request(2, 1, 0, 0, 0, vec![LogEntry { term: 2, data: 9 }])));
    assert!(!stale.ok);
    assert_eq!(stale.term, 4);
    assert_eq!(s.log.entries.len(), 0);
}

#[test]
fn follower_commits_only_what_it_holds() {
    let mut s = server(0, &[1, 2], 1);
    let answer = append_answer(&s.receive_rpc(&append_request(
        1,
        1,
        0,
        0,
        5,
        vec![LogEntry { term: 1, data: 2 }, LogEntry { term: 1, data: 3 }],
    )));
    assert!(answer.ok);
    assert_eq!(answer.ack_idx, 2);
    assert_eq!(s.log.committed_len, 2);
    assert_eq!(s.log.app.get_state(), 5);
}

#[test]
fn duplicated_append_request_changes_nothing() {
    let mut s = server(0, &[1, 2], 1);
    let req = append_request(1, 1, 0, 0, 1, vec![LogEntry { term: 1, data: 2 }, LogEntry { term: 1, data: 3 }]);
    s.receive_rpc(&req);
    s.receive_rpc(&req);
    assert_eq!(s.log.entries.len(), 2);
    assert_eq!(s.log.committed_len, 1);
    assert_eq!(s.log.app.get_state(), 2);
}

#[test]
fn leader_steps_down_for_a_leader_of_its_term() {
    let mut s = server(0, &[], 1);
    ticks_to_election(&mut s);
    assert!(s.is_leader());
    let answer = append_answer(&s.receive_rpc(&append_request(1, 7, 0, 0, 0, vec![])));
    assert!(s.is_follower());
    assert!(answer.ok);
}

#[test]
fn single_leader_commits_in_own_term_only() {
    let mut s = server(0, &[], 1);
    // an entry of an earlier term is in the log
    s.receive_rpc(&append_request(3, 9, 0, 0, 0, vec![LogEntry { term: 3, data: 40 }]));
    assert_eq!(s.log.committed_len, 0);
    ticks_to_election(&mut s);
    assert!(s.is_leader());
    assert_eq!(s.current_term, 4);
    // nothing of term 4 yet: the old entry stays uncommitted
    assert_eq!(s.log.committed_len, 0);
    s.client_request(2).unwrap();
    assert_eq!(s.log.committed_len, 2);
    assert_eq!(s.log.app.get_state(), 42);
}

#[test]
fn leader_ignores_stale_and_unknown_responses() {
    let mut s = server(0, &[1, 2], 1);
    ticks_to_election(&mut s);
    let msgs = s.receive_rpc(&RPC::VoteResponse(VoteResponse { term: 1, vote_granted: true, votee_id: 1 }));
    assert!(s.is_leader());
    assert_eq!(msgs.len(), 2);
    s.client_request(5).unwrap();
    // a response of an older term, one from a stranger, one acknowledging more than we hold
    assert!(s.receive_rpc(&RPC::AppendResponse(AppendResponse { ok: true, term: 0, ack_idx: 1, follower_id: 1 })).is_empty());
    assert!(s.receive_rpc(&RPC::AppendResponse(AppendResponse { ok: true, term: 1, ack_idx: 1, follower_id: 9 })).is_empty());
    assert_eq!(s.log.committed_len, 0);
    // an acknowledgement from a follower of our term commits with a quorum of 2
    assert!(s.receive_rpc(&RPC::AppendResponse(AppendResponse { ok: true, term: 1, ack_idx: 1, follower_id: 1 })).is_empty());
    assert_eq!(s.log.committed_len, 1);
    assert_eq!(s.log.app.get_state(), 5);
}

#[test]
fn refused_append_steps_back_one_entry() {
    let mut s = server(0, &[1, 2], 1);
    ticks_to_election(&mut s);
    s.receive_rpc(&RPC::VoteResponse(VoteResponse { term: 1, vote_granted: true, votee_id: 1 }));
    s.client_request(5).unwrap();
    s.client_request(6).unwrap();
    // the leader assumed follower 2 holds nothing and sent everything: a refusal cannot step back
    assert!(s.receive_rpc(&RPC::AppendResponse(AppendResponse { ok: false, term: 1, ack_idx: 0, follower_id: 2 })).is_empty());
    // follower 1 acknowledges everything, then refuses: the retry starts one entry earlier
    s.receive_rpc(&RPC::AppendResponse(AppendResponse { ok: true, term: 1, ack_idx: 2, follower_id: 1 }));
    let retry = s.receive_rpc(&RPC::AppendResponse(AppendResponse { ok: false, term: 1, ack_idx: 0, follower_id: 1 }));
    assert_eq!(retry.len(), 1);
    assert_eq!(retry[0].0, Target::Single(1));
    match &retry[0].1 {
        RPC::AppendRequest(r) => {
            assert_eq!(r.leader_last_log_idx, 1);
            assert_eq!(r.leader_last_log_term, 1);
            assert_eq!(r.entries.len(), 1);
            assert_eq!(r.entries[0].data, 6);
            assert_eq!(r.leader_commit, 2);
        }
        _ => panic!("expected an append request"),
    }
}

#[test]
fn heartbeats_follow_the_interval() {
    let mut s = server(0, &[1], 1);
    ticks_to_election(&mut s);
    s.receive_rpc(&RPC::VoteResponse(VoteResponse { term: 1, vote_granted: true, votee_id: 1 }));
    assert!(s.is_leader());
    assert!(s.tick().is_empty());
    assert!(s.tick().is_empty());
    let beat = s.tick();
    assert_eq!(beat.len(), 1);
    assert!(s.tick().is_empty());
}

#[test]
fn rpc_names() {
    assert_eq!(vote_request(1, 1, 0, 0).to_string(), "VoteRequest");
    assert_eq!(append_request(1, 1, 0, 0, 0, vec![]).to_string(), "AppendRequest");
    let res: RPC<u64> = RPC::VoteResponse(VoteResponse { term: 1, vote_granted: true, votee_id: 1 });
    assert_eq!(res.to_string(), "VoteResponse");
    let res: RPC<u64> = RPC::AppendResponse(AppendResponse { ok: true, term: 1, ack_idx: 1, follower_id: 1 });
    assert_eq!(res.to_string(), "AppendResponse");
}

#[test]
fn new_server_owns_an_empty_log() {
    let s = server(4, &[1, 2], 1);
    assert_eq!(s.id, 4);
    assert_eq!(s.log.parent_id, 4);
    assert!(s.log.entries.is_empty());
    assert_eq!(s.log.committed_len, 0);
    assert_eq!(s.log.applied_len, 0);
    assert!(s.is_follower());
    assert_eq!(s.current_term, 0);
}

#[test]
fn heartbeat_restarts_the_election_timer() {
    let mut s = server(0, &[1, 2], 1);
    for _ in 0..9 {
        assert!(s.tick().is_empty());
    }
    s.receive_rpc(&append_request(0, 1, 0, 0, 0, vec![]));
    for _ in 0..9 {
        assert!(s.tick().is_empty());
        assert!(s.is_follower());
        assert_eq!(s.current_term, 0);
    }
    assert_eq!(s.tick().len(), 1);
    assert!(s.is_candidate());
    assert_eq!(s.current_term, 1);
}
