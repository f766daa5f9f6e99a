use vstd::prelude::*;

use std::collections::{BTreeMap, BTreeSet};

use rand::Rng;
use vstd::std_specs::iter::IteratorSpec;
use rand_chacha::ChaCha8Rng;
use rand_core::SeedableRng;

use crate::log::{last_idx_of, last_term_of, App, Log, LogEntry, LogIndex, LogState, ServerId, Term};
use crate::rpc::{AppendRequest, AppendResponse, SendableMessage, Target, VoteRequest, VoteResponse, RPC};

verus! {

broadcast use vstd::std_specs::btree::group_btree_axioms;

/// Type alias for a unit of logical time
pub type Ticks = u32;

/// The generator of random numbers that each server owns
#[verifier::external_type_specification]
#[verifier::external_body]
pub struct ExChaCha8Rng(ChaCha8Rng);

/// Configuration options for a Raft server
#[derive(Clone, Copy, Debug)]
pub struct RaftConfig {
    /// How long a server should wait for a message from
    /// current leader before giving up and starting an election
    pub election_timeout: Ticks,
    /// How much random jitter to add to [`election_timeout`](Self::election_timeout)
    pub election_timeout_jitter: Ticks,
    /// How often a leader should send empty 'heartbeat' AppendEntry RPC
    /// calls to maintain power.
    pub heartbeat_interval: Ticks,
}

impl RaftConfig {
    /// The jittered election timeout stays within the range of [`Ticks`]
    pub open spec fn valid(self) -> bool {
        &&& self.election_timeout_jitter <= self.election_timeout
        &&& self.election_timeout + self.election_timeout_jitter <= u32::MAX
    }

    /// Whether `t` is an election time that the jitter may produce
    pub open spec fn election_time_ok(self, t: Ticks) -> bool {
        self.election_timeout - self.election_timeout_jitter <= t
            <= self.election_timeout + self.election_timeout_jitter
    }
}

/// State of a single Node as tracked by a leader
#[derive(Clone, Copy, Debug)]
pub struct NodeReplicationState {
    /// Number of log entries that precede the next one to send to that server.
    pub sent_up_to: LogIndex,
    /// Length of the prefix of our log known to be replicated on that server.
    pub acked_up_to: LogIndex,
}

/// State of a follower
pub struct FollowerState {
    /// Ticks left to start an election if not reset by activity/heartbeat
    election_time: Ticks,
    /// Current leader node is following
    leader: Option<ServerId>,
}

/// State of a candidate
pub struct CandidateState {
    /// Ticks left to start an election if quorum is not reached
    election_time: Ticks,
    /// Set of all nodes this node has received votes from
    votes_received: BTreeSet<ServerId>,
}

/// State of a leader
pub struct LeaderState {
    /// Track state about followers to figure out what to send them next
    followers: BTreeMap<ServerId, NodeReplicationState>,
    /// Ticks left till when to send the next heartbeat
    heartbeat_timeout: Ticks,
}

/// Possible states a Raft Node can be in
pub enum RaftLeadershipState {
    /// Issues no requests but responds to requests from leaders and candidates.
    /// All Raft Nodes start in Follower state
    Follower(FollowerState),
    /// Used to elect a new leader.
    Candidate(CandidateState),
    /// Handles all client requests.
    Leader(LeaderState),
}

/// Error returned by a server that refuses a request
#[derive(Debug, PartialEq, Eq, Clone, Copy)]
pub enum RaftError {
    /// Only a leader may add entries to the replicated log
    NotLeader,
}

/// A Raft server that replicates Logs of type `T`
#[verifier::reject_recursive_types(T)]
#[verifier::reject_recursive_types(S)]
pub struct RaftServer<T, S> {
    /// ID of this node
    pub id: ServerId,
    /// All other servers in this Raft cluster
    peers: BTreeSet<ServerId>,
    /// Config of this node
    config: RaftConfig,
    /// Current term of this node
    pub current_term: Term,
    /// Candidate node that we voted for this election
    voted_for: Option<ServerId>,
    /// List of log entries for this node.
    pub log: Log<T, S>,
    /// State of the node that depends on its leadership status
    leadership_state: RaftLeadershipState,
    /// Internal seeded random number generator
    rng: ChaCha8Rng,
}

/// Model of the leadership status of a server
pub enum Role {
    Follower { election_time: Ticks, leader: Option<ServerId> },
    Candidate { election_time: Ticks, votes: Set<ServerId> },
    Leader { followers: Map<ServerId, NodeReplicationState>, heartbeat_timeout: Ticks },
}

/// Model of a [`RaftServer`]: everything but its random number generator and
/// the inner state of its state machine, of which the model keeps every
/// entry it was fed (`log.fed`)
pub struct ServerState<T> {
    pub id: ServerId,
    pub peers: Set<ServerId>,
    pub config: RaftConfig,
    pub current_term: Term,
    pub voted_for: Option<ServerId>,
    pub log: LogState<T>,
    pub role: Role,
}

/// Size of a strict majority of a cluster made of a server and `n_peers` others
pub open spec fn quorum_of(n_peers: nat) -> nat {
    (n_peers + 1) / 2 + 1
}

/// Number of followers known to hold at least the first `n` entries of the log
pub open spec fn acks(followers: Map<ServerId, NodeReplicationState>, n: nat) -> nat {
    followers.dom().filter(|k: ServerId| followers[k].acked_up_to >= n).len()
}

/// The replication state a new leader starts with for every peer
pub open spec fn fresh_followers(peers: Set<ServerId>, id: ServerId, log_len: nat) -> Map<ServerId, NodeReplicationState> {
    Map::new(
        |k: ServerId| peers.contains(k) && k != id,
        |k: ServerId| NodeReplicationState { sent_up_to: log_len as usize, acked_up_to: 0 },
    )
}

impl<T> ServerState<T> {
    pub open spec fn quorum(self) -> nat {
        quorum_of(self.peers.len())
    }

    pub open spec fn with_role(self, role: Role) -> ServerState<T> {
        ServerState { role, ..self }
    }

    /// Whether `post` is this state stepped down to follower in a term of
    /// at least `new_term`, with a fresh election timer
    pub open spec fn reset_to_follower(self, post: ServerState<T>, new_term: Term) -> bool {
        &&& post.role matches Role::Follower { election_time, leader } && leader is None
            && self.config.election_time_ok(election_time)
        &&& post == (ServerState {
            current_term: if new_term > self.current_term { new_term } else { self.current_term },
            voted_for: if new_term > self.current_term { None } else { self.voted_for },
            role: post.role,
            ..self
        })
    }

    /// Whether the leader may commit the first `n` entries: they reach past
    /// the committed length, a quorum holds them, and the last of them was
    /// written in the leader's own term
    pub open spec fn can_commit(self, n: nat) -> bool {
        &&& self.role matches Role::Leader { followers, .. } && acks(followers, n) + 1 >= self.quorum()
        &&& self.log.committed_len < n <= self.log.entries.len()
        &&& self.log.entries[n - 1].term == self.current_term
    }

    /// `post` is this state after committing everything a quorum allows
    pub open spec fn commit_step(self, post: ServerState<T>) -> bool {
        if exists|n: nat| self.can_commit(n) {
            exists|n: nat|
                {
                    &&& #[trigger] self.can_commit(n)
                    &&& forall|m: nat| #[trigger] self.can_commit(m) ==> m <= n
                    &&& post == ServerState { log: self.log.commit_to(n), ..self }
                }
        } else {
            post == self
        }
    }

    /// The AppendRequest this leader sends to a follower whose log is
    /// assumed to match the first `sent` entries of ours
    pub open spec fn is_append_for(self, msg: SendableMessage<T>, k: ServerId, sent: nat) -> bool {
        &&& msg.0 == Target::Single(k)
        &&& msg.1 matches RPC::AppendRequest(r) && {
            &&& r.leader_term == self.current_term
            &&& r.leader_id == self.id
            &&& r.leader_commit == self.log.committed_len
            &&& r.leader_last_log_idx == sent
            &&& r.leader_last_log_term == if sent > 0 { self.log.entries[sent - 1].term } else { 0 }
            &&& r.entries@ == self.log.entries.subrange(sent as int, self.log.entries.len() as int)
        }
    }

    /// `out` holds one AppendRequest for every follower, in increasing order of id
    pub open spec fn replicate_all(self, out: Seq<SendableMessage<T>>) -> bool {
        &&& self.role matches Role::Leader { followers, .. } && {
            exists|ks: Seq<ServerId>|
                {
                    &&& ks.to_set() == followers.dom()
                    &&& ks.no_duplicates()
                    &&& forall|i: int, j: int| 0 <= i < j < ks.len() ==> ks[i] < ks[j]
                    &&& out.len() == ks.len()
                    &&& forall|i: int|
                        0 <= i < ks.len() ==> #[trigger] self.is_append_for(
                            out[i],
                            ks[i],
                            followers[ks[i]].sent_up_to as nat,
                        )
                }
        }
    }
}

impl<T> ServerState<T> {
    /// `post` is this state after its election timer ran out: a new term in
    /// which it votes for itself and either leads at once (when it alone is a
    /// quorum) or becomes a candidate asking everyone for their vote
    pub open spec fn start_election(self, post: ServerState<T>, out: Seq<SendableMessage<T>>) -> bool {
        let voted = ServerState {
            current_term: (self.current_term + 1) as Term,
            voted_for: Some(self.id),
            ..self
        };
        if self.quorum() == 1 {
            &&& post == voted.with_role(
                Role::Leader {
                    followers: fresh_followers(self.peers, self.id, self.log.entries.len()),
                    heartbeat_timeout: self.config.heartbeat_interval,
                },
            )
            &&& post.replicate_all(out)
        } else {
            &&& post.role matches Role::Candidate { election_time, votes } && votes == set![self.id]
                && self.config.election_time_ok(election_time)
            &&& post == voted.with_role(post.role)
            &&& out == seq![
                (
                    Target::Broadcast,
                    RPC::<T>::VoteRequest(
                        VoteRequest {
                            candidate_term: voted.current_term,
                            candidate_id: self.id,
                            candidate_last_log_idx: last_idx_of(self.log.entries) as LogIndex,
                            candidate_last_log_term: last_term_of(self.log.entries),
                        },
                    ),
                ),
            ]
        }
    }

    /// `post` is this state after one tick of logical time, sending `out`
    pub open spec fn tick_step(self, post: ServerState<T>, out: Seq<SendableMessage<T>>) -> bool {
        match self.role {
            Role::Follower { election_time, leader } => if election_time > 1 {
                post == self.with_role(Role::Follower { election_time: (election_time - 1) as Ticks, leader })
                    && out.len() == 0
            } else {
                self.start_election(post, out)
            },
            Role::Candidate { election_time, votes } => if election_time > 1 {
                post == self.with_role(Role::Candidate { election_time: (election_time - 1) as Ticks, votes })
                    && out.len() == 0
            } else {
                self.start_election(post, out)
            },
            Role::Leader { followers, heartbeat_timeout } => if heartbeat_timeout > 1 {
                post == self.with_role(Role::Leader { followers, heartbeat_timeout: (heartbeat_timeout - 1) as Ticks })
                    && out.len() == 0
            } else {
                &&& post == self.with_role(
                    Role::Leader { followers, heartbeat_timeout: self.config.heartbeat_interval },
                )
                &&& post.replicate_all(out)
            },
        }
    }

    /// Whether a tick would start an election
    pub open spec fn election_due(self) -> bool {
        match self.role {
            Role::Follower { election_time, .. } => election_time <= 1,
            Role::Candidate { election_time, .. } => election_time <= 1,
            Role::Leader { .. } => false,
        }
    }

    /// How many messages a tick of this server sends: a leader whose
    /// heartbeat is due sends an AppendRequest to every follower; a server
    /// whose election timer runs out asks everyone for their vote, unless it
    /// is its own quorum and has nobody to ask; anybody else sends nothing
    pub open spec fn tick_sends(self) -> nat {
        match self.role {
            Role::Leader { followers, heartbeat_timeout } => if heartbeat_timeout > 1 {
                0
            } else {
                followers.dom().len()
            },
            _ => if !self.election_due() || self.quorum() == 1 {
                0
            } else {
                1
            },
        }
    }
}

/// A tick sends as many messages as `tick_sends` says
pub proof fn lemma_tick_sends<T>(pre: ServerState<T>, post: ServerState<T>, out: Seq<SendableMessage<T>>)
    requires
        pre.wf(),
        pre.tick_step(post, out),
    ensures
        out.len() == pre.tick_sends(),
{
    let sends_all = match pre.role {
        Role::Leader { heartbeat_timeout, .. } => heartbeat_timeout <= 1,
        _ => pre.election_due() && pre.quorum() == 1,
    };
    if sends_all {
        let followers = post.role->followers;
        let ks = choose|ks: Seq<ServerId>|
            {
                &&& ks.to_set() == followers.dom()
                &&& ks.no_duplicates()
                &&& forall|i: int, j: int| 0 <= i < j < ks.len() ==> ks[i] < ks[j]
                &&& out.len() == ks.len()
                &&& forall|i: int|
                    0 <= i < ks.len() ==> #[trigger] post.is_append_for(out[i], ks[i], followers[ks[i]].sent_up_to as nat)
            };
        ks.unique_seq_to_set();
        if !(pre.role is Leader) {
            assert(pre.peers.len() == 0);
            assert(followers.dom() =~= Set::<ServerId>::empty());
        }
    }
}

/// Whether a server in state `s` grants the vote asked for by `req`: the
/// candidate's log is at least as up to date as ours, its term is ours, and we
/// have not voted for anybody else in this term
pub open spec fn grants_vote<T>(s: ServerState<T>, req: VoteRequest) -> bool {
    let log_ok = req.candidate_last_log_term > last_term_of(s.log.entries) || (
    req.candidate_last_log_term == last_term_of(s.log.entries) && req.candidate_last_log_idx
        >= last_idx_of(s.log.entries));
    &&& log_ok
    &&& req.candidate_term == s.current_term
    &&& (s.voted_for is None || s.voted_for == Some(req.candidate_id))
}

/// Whether a follower in state `s` accepts the entries of `req` into its log:
/// the request comes from the leader of its term, and its log holds the
/// entry that the leader's entries follow
pub open spec fn accepts_entries<T>(s: ServerState<T>, req: AppendRequest<T>) -> bool {
    let prefix = req.leader_last_log_idx;
    &&& req.leader_term == s.current_term
    &&& prefix <= s.log.entries.len()
    &&& prefix + req.entries@.len() <= usize::MAX
    &&& (prefix == 0 || s.log.entries[prefix - 1].term == req.leader_last_log_term)
}

impl<T> ServerState<T> {
    /// `post` is this state after seeing a message of term `term`: if that
    /// term is newer, we step down to follower in it, else nothing changes
    pub open spec fn observe_term(self, post: ServerState<T>, term: Term) -> bool {
        if term > self.current_term {
            self.reset_to_follower(post, term)
        } else {
            post == self
        }
    }

    /// Answering a VoteRequest once our term is up to date: record our vote
    /// if we grant it
    pub open spec fn answer_vote(self, post: ServerState<T>, req: VoteRequest, out: Seq<SendableMessage<T>>) -> bool {
        &&& post == if grants_vote(self, req) {
            ServerState { voted_for: Some(req.candidate_id), ..self }
        } else {
            self
        }
        &&& out == seq![
            (
                Target::Single(req.candidate_id),
                RPC::<T>::VoteResponse(
                    VoteResponse {
                        votee_id: self.id,
                        term: self.current_term,
                        vote_granted: grants_vote(self, req),
                    },
                ),
            ),
        ]
    }

    /// Handling a VoteRequest: catch up with its term, then answer it
    pub open spec fn vote_request_step(self, post: ServerState<T>, req: VoteRequest, out: Seq<SendableMessage<T>>) -> bool {
        exists|mid: ServerState<T>|
            #[trigger] self.observe_term(mid, req.candidate_term) && mid.answer_vote(post, req, out)
    }

    /// Counting a VoteResponse once our term is up to date: a candidate
    /// counts a vote granted for its term and takes the lead once a quorum
    /// voted for it
    pub open spec fn count_vote(self, post: ServerState<T>, res: VoteResponse, out: Seq<SendableMessage<T>>) -> bool {
        if self.role is Candidate && res.term == self.current_term && res.vote_granted {
            let votes = self.role->votes.insert(res.votee_id);
            if votes.len() < self.quorum() {
                post == self.with_role(Role::Candidate { election_time: self.role->Candidate_election_time, votes })
                    && out.len() == 0
            } else {
                &&& post == self.with_role(
                    Role::Leader {
                        followers: fresh_followers(self.peers, self.id, self.log.entries.len()),
                        heartbeat_timeout: self.config.heartbeat_interval,
                    },
                )
                &&& post.replicate_all(out)
            }
        } else {
            post == self && out.len() == 0
        }
    }

    /// Handling a VoteResponse: catch up with its term, then count it
    pub open spec fn vote_response_step(self, post: ServerState<T>, res: VoteResponse, out: Seq<SendableMessage<T>>) -> bool {
        exists|mid: ServerState<T>| #[trigger] self.observe_term(mid, res.term) && mid.count_vote(post, res, out)
    }

    /// A follower handling an AppendRequest: accept the leader of our term
    /// (restarting the election timer) and take its entries if our log holds
    /// the entry they follow; answer with the outcome
    pub open spec fn follower_append(self, post: ServerState<T>, req: AppendRequest<T>, out: Seq<SendableMessage<T>>) -> bool {
        let prefix = req.leader_last_log_idx as nat;
        let end = prefix + req.entries@.len();
        let accepted = accepts_entries(self, req);
        &&& if req.leader_term == self.current_term {
            &&& post.role matches Role::Follower { election_time, leader } && leader == Some(req.leader_id)
                && self.config.election_time_ok(election_time)
            &&& post == ServerState {
                log: if accepted {
                    self.log.append_result(
                        prefix,
                        if req.leader_commit < end { req.leader_commit as nat } else { end },
                        req.entries@,
                    )
                } else {
                    self.log
                },
                role: post.role,
                ..self
            }
        } else {
            post == self
        }
        &&& out == seq![
            (
                Target::Single(req.leader_id),
                RPC::<T>::AppendResponse(
                    AppendResponse {
                        ok: accepted,
                        term: self.current_term,
                        ack_idx: if accepted { end as usize } else { self.log.entries.len() as usize },
                        follower_id: self.id,
                    },
                ),
            ),
        ]
    }

    /// Handling an AppendRequest once our term is up to date: a leader or
    /// candidate that learns of a leader of its own term steps down and
    /// handles it as a follower
    pub open spec fn handle_append(self, post: ServerState<T>, req: AppendRequest<T>, out: Seq<SendableMessage<T>>) -> bool {
        if self.role is Follower {
            self.follower_append(post, req, out)
        } else if req.leader_term == self.current_term {
            exists|mid: ServerState<T>|
                #[trigger] self.reset_to_follower(mid, req.leader_term) && mid.follower_append(post, req, out)
        } else {
            post == self && out.len() == 0
        }
    }

    /// Handling an AppendRequest: catch up with its term, then handle it
    pub open spec fn append_request_step(self, post: ServerState<T>, req: AppendRequest<T>, out: Seq<SendableMessage<T>>) -> bool {
        exists|mid: ServerState<T>|
            #[trigger] self.observe_term(mid, req.leader_term) && mid.handle_append(post, req, out)
    }

    /// Handling an AppendResponse once our term is up to date: a leader
    /// records how much of its log a follower of its term holds and commits
    /// what it can, or steps back by one entry and retries when the follower
    /// refused
    pub open spec fn handle_append_response(self, post: ServerState<T>, res: AppendResponse, out: Seq<SendableMessage<T>>) -> bool {
        if self.role is Leader && res.term == self.current_term && self.role->followers.contains_key(res.follower_id) {
            let followers = self.role->followers;
            let hb = self.role->heartbeat_timeout;
            let f = followers[res.follower_id];
            if res.ok && f.acked_up_to <= res.ack_idx <= self.log.entries.len() {
                let acked = NodeReplicationState { sent_up_to: res.ack_idx, acked_up_to: res.ack_idx };
                self.with_role(
                    Role::Leader { followers: followers.insert(res.follower_id, acked), heartbeat_timeout: hb },
                ).commit_step(post) && out.len() == 0
            } else if f.sent_up_to > 0 {
                let back = NodeReplicationState { sent_up_to: (f.sent_up_to - 1) as usize, acked_up_to: f.acked_up_to };
                &&& post == self.with_role(
                    Role::Leader { followers: followers.insert(res.follower_id, back), heartbeat_timeout: hb },
                )
                &&& out.len() == 1
                &&& post.is_append_for(out[0], res.follower_id, back.sent_up_to as nat)
            } else {
                post == self && out.len() == 0
            }
        } else {
            post == self && out.len() == 0
        }
    }

    /// Handling an AppendResponse: catch up with its term, then handle it
    pub open spec fn append_response_step(self, post: ServerState<T>, res: AppendResponse, out: Seq<SendableMessage<T>>) -> bool {
        exists|mid: ServerState<T>|
            #[trigger] self.observe_term(mid, res.term) && mid.handle_append_response(post, res, out)
    }

    /// Handling any RPC
    pub open spec fn receive_step(self, post: ServerState<T>, rpc: RPC<T>, out: Seq<SendableMessage<T>>) -> bool {
        match rpc {
            RPC::VoteRequest(req) => self.vote_request_step(post, req, out),
            RPC::VoteResponse(res) => self.vote_response_step(post, res, out),
            RPC::AppendRequest(req) => self.append_request_step(post, req, out),
            RPC::AppendResponse(res) => self.append_response_step(post, res, out),
        }
    }

    /// Handling a client request: a leader appends the command to its log in
    /// its own term and commits what it can; anybody else refuses
    pub open spec fn client_request_step(self, post: ServerState<T>, msg: T, r: Result<(), RaftError>) -> bool {
        if self.role is Leader {
            let pushed = ServerState {
                log: LogState {
                    entries: self.log.entries.push(LogEntry { term: self.current_term, data: msg }),
                    ..self.log
                },
                ..self
            };
            pushed.commit_step(post) && r is Ok
        } else {
            post == self && r == Err::<(), RaftError>(RaftError::NotLeader)
        }
    }
}

impl<T, S> View for RaftServer<T, S> {
    type V = ServerState<T>;

    closed spec fn view(&self) -> ServerState<T> {
        ServerState {
            id: self.id,
            peers: self.peers@,
            config: self.config,
            current_term: self.current_term,
            voted_for: self.voted_for,
            log: self.log@,
            role: match &self.leadership_state {
                RaftLeadershipState::Follower(f) => Role::Follower {
                    election_time: f.election_time,
                    leader: f.leader,
                },
                RaftLeadershipState::Candidate(c) => Role::Candidate {
                    election_time: c.election_time,
                    votes: c.votes_received@,
                },
                RaftLeadershipState::Leader(l) => Role::Leader {
                    followers: l.followers@,
                    heartbeat_timeout: l.heartbeat_timeout,
                },
            },
        }
    }
}

impl<T> ServerState<T> {
    /// Invariant of a server: its configuration is usable, it has handed
    /// exactly its committed entries to the state machine and, as a leader,
    /// it tracks every peer and has sent none of them more than it holds
    pub open spec fn wf(self) -> bool {
        &&& self.config.valid()
        &&& self.log.applied_len == self.log.committed_len
        &&& self.log.delivered.len() == self.log.committed_len
        &&& self.peers.finite()
        &&& self.role matches Role::Leader { followers, .. } ==> {
            &&& followers.dom() == self.peers.remove(self.id)
            &&& forall|k: ServerId| #[trigger]
                followers.contains_key(k) ==> followers[k].sent_up_to <= self.log.entries.len()
        }
    }
}

/// The log of a server fits in memory: its length is a `usize`
pub proof fn lemma_log_fits<T, S>(s: &RaftServer<T, S>)
    ensures
        s@.log.entries.len() <= usize::MAX,
{
    assert(s.log.entries@.len() == s.log.entries.len());
}

/// The set of a `BTreeSet` is finite, as the keys it iterates over show
proof fn lemma_btree_set_finite(s: &BTreeSet<ServerId>)
    ensures
        s@.finite(),
{
    broadcast use vstd::seq_lib::seq_to_set_is_finite;

    let ks = vstd::std_specs::btree::spec_btree_keys_iter(s).remaining().unref();
    assert(ks.to_set() == s@);
}

/// Fewer followers hold a longer prefix of the log
pub proof fn lemma_acks_monotone(followers: Map<ServerId, NodeReplicationState>, n: nat, m: nat)
    requires
        followers.dom().finite(),
        n <= m,
    ensures
        acks(followers, m) <= acks(followers, n),
{
    let a = followers.dom().filter(|k: ServerId| followers[k].acked_up_to >= m);
    let b = followers.dom().filter(|k: ServerId| followers[k].acked_up_to >= n);
    assert(a.subset_of(b));
    vstd::set_lib::lemma_len_subset(a, b);
}

/// Counting one more element of a sequence without duplicates counts it once
proof fn lemma_count_step(ks: Seq<ServerId>, i: int, pred: spec_fn(ServerId) -> bool)
    requires
        ks.no_duplicates(),
        0 <= i < ks.len(),
    ensures
        ks.take(i + 1).to_set().filter(pred).len() == ks.take(i).to_set().filter(pred).len() + if pred(
            ks[i],
        ) {
            1int
        } else {
            0int
        },
{
    let seen = ks.take(i).to_set();
    assert(ks.take(i + 1) =~= ks.take(i).push(ks[i]));
    ks.take(i).lemma_push_to_set_commute(ks[i]);
    assert(!seen.contains(ks[i])) by {
        if seen.contains(ks[i]) {
            let j = choose|j: int| 0 <= j < i && ks.take(i)[j] == ks[i];
            assert(ks[j] == ks[i]);
        }
    }
    vstd::seq_lib::seq_to_set_is_finite(ks.take(i));
    if pred(ks[i]) {
        assert(seen.insert(ks[i]).filter(pred) =~= seen.filter(pred).insert(ks[i]));
    } else {
        assert(seen.insert(ks[i]).filter(pred) =~= seen.filter(pred));
    }
}

/// Number of followers that hold at least the first `n` entries
fn count_acks(followers: &BTreeMap<ServerId, NodeReplicationState>, n: LogIndex) -> (c: usize)
    ensures
        c == acks(followers@, n as nat),
{
    let ghost ks = vstd::std_specs::btree::spec_keys_iter(followers).remaining().unref();
    let ghost pred = |k: ServerId| followers@[k].acked_up_to >= n;
    proof {
        ks.unique_seq_to_set();
        assert(ks.take(0).to_set() =~= Set::<ServerId>::empty());
        assert(ks.take(0).to_set().filter(pred) =~= Set::<ServerId>::empty());
    }
    let total = followers.len();
    let mut count: usize = 0;
    for k in it: followers.keys()
        invariant
            it.seq() == vstd::std_specs::btree::spec_keys_iter(followers).remaining(),
            ks == it.seq().unref(),
            ks.no_duplicates(),
            ks.to_set() == followers@.dom(),
            ks.len() == followers@.dom().len(),
            followers@.dom().len() <= usize::MAX,
            count <= it.index(),
            pred == (|k: ServerId| followers@[k].acked_up_to >= n),
            count == ks.take(it.index()).to_set().filter(pred).len(),
    {
        let f = followers.get(k).unwrap();
        proof {
            lemma_usize_ordered();
            assert(*f == followers@[*k]);
            assert(*k == ks[it.index()]);
            lemma_count_step(ks, it.index(), pred);
        }
        if f.acked_up_to >= n {
            count = count + 1;
        }
    }
    proof {
        assert(ks.take(ks.len() as int) =~= ks);
        assert(followers@.dom().filter(pred) =~= followers@.dom().filter(
            |k: ServerId| followers@[k].acked_up_to >= n as nat,
        ));
    }
    count
}

/// Server ids are totally ordered the way the standard collections expect
pub(crate) proof fn lemma_usize_ordered()
    ensures
        vstd::laws_cmp::obeys_cmp::<usize>(),
{
}

/// A `BTreeMap` hands out its keys in increasing order
pub(crate) proof fn lemma_keys_increasing<V>(m: &BTreeMap<ServerId, V>)
    ensures
        ({
            let ks = vstd::std_specs::btree::spec_keys_iter(m).remaining().unref();
            forall|i: int, j: int| 0 <= i < j < ks.len() ==> ks[i] < ks[j]
        }),
{
    let r = vstd::std_specs::btree::spec_keys_iter(m).remaining();
    assert(vstd::laws_cmp::obeys_cmp::<usize>());
    assert(vstd::laws_cmp::obeys_cmp::<&usize>());
    assert(vstd::std_specs::btree::increasing_seq(r));
    let ks = r.unref();
    assert forall|i: int, j: int| 0 <= i < j < ks.len() implies ks[i] < ks[j] by {
        assert(r[i] == ks[i] && r[j] == ks[j]);
        assert(vstd::std_specs::cmp::OrdSpec::cmp_spec(&r[i], &r[j]) is Less);
        assert(vstd::std_specs::cmp::OrdSpec::cmp_spec(&ks[i], &ks[j]) is Less);
    }
}

/// Draws a number uniformly from `low..=hi` through `rand::Rng::gen_range`
/// on the server's generator; the number lies within that range.
#[verifier::external_body]
fn random_in_range(rng: &mut ChaCha8Rng, low: u32, hi: u32) -> (r: u32)
    requires
        low <= hi,
    ensures
        low <= r <= hi,
{
    rng.gen_range(low..=hi)
}

/// Creates a generator with `rand_core::SeedableRng::seed_from_u64`
#[verifier::external_body]
fn seeded_rng(seed: u64) -> ChaCha8Rng {
    ChaCha8Rng::seed_from_u64(seed)
}

/// Creates a generator seeded from system entropy with
/// `rand_core::SeedableRng::from_entropy`
#[verifier::external_body]
fn entropy_rng() -> ChaCha8Rng {
    ChaCha8Rng::from_entropy()
}

/// Returns a random u32 uniformly from `expected - jitter ..= expected + jitter`
fn rng_jitter(rng: &mut ChaCha8Rng, expected: u32, jitter: u32) -> (r: u32)
    requires
        jitter <= expected,
        expected + jitter <= u32::MAX,
    ensures
        expected - jitter <= r <= expected + jitter,
{
    let low = expected - jitter;
    let hi = expected + jitter;
    random_in_range(rng, low, hi)
}

impl<T: Copy, S> RaftServer<T, S> {
    /// Create a follower with an empty log
    pub fn new(
        id: ServerId,
        peers: BTreeSet<ServerId>,
        config: RaftConfig,
        seed: Option<u64>,
        app: Box<dyn App<T, S>>,
    ) -> (server: Self)
        requires
            config.valid(),
        ensures
            server@.wf(),
            server@.id == id,
            server@.log.parent_id == id,
            server@.peers == peers@,
            server@.config == config,
            server@.current_term == 0,
            server@.voted_for is None,
            server@.log.entries.len() == 0,
            server@.log.committed_len == 0,
            server@.log.applied_len == 0,
            server@.log.delivered.len() == 0,
            server@.role matches Role::Follower { election_time, leader } && leader is None
                && config.election_time_ok(election_time),
    {
        // Create RNG generator from seed if it exists, otherwise seed from system entropy
        let mut rng = match seed {
            Some(n) => seeded_rng(n),
            None => entropy_rng(),
        };
        proof {
            lemma_btree_set_finite(&peers);
        }
        let random_election_time = rng_jitter(&mut rng, config.election_timeout, config.election_timeout_jitter);
        RaftServer {
            id,
            peers,
            config,
            current_term: 0,
            voted_for: None,
            log: Log::new(id, app),
            rng,
            leadership_state: RaftLeadershipState::Follower(FollowerState {
                leader: None,
                election_time: random_election_time,
            }),
        }
    }

    /// Helper function to generate a random election time given current configuration
    fn random_election_time(&mut self) -> (t: Ticks)
        requires
            old(self)@.wf(),
        ensures
            final(self)@ == old(self)@,
            old(self)@.config.election_time_ok(t),
    {
        rng_jitter(&mut self.rng, self.config.election_timeout, self.config.election_timeout_jitter)
    }

    /// Size of a strict majority of the cluster (this server and its peers)
    pub fn quorum_size(&self) -> (q: usize)
        ensures
            q == self@.quorum(),
    {
        let n = self.peers.len();
        n / 2 + n % 2 + 1
    }

    /// The current term of this server
    pub fn term(&self) -> (t: Term)
        ensures
            t == self@.current_term,
    {
        self.current_term
    }

    /// The log of this server
    pub fn log_ref(&self) -> (l: &Log<T, S>)
        ensures
            l@ == self@.log,
    {
        &self.log
    }

    /// The number of entries in this server's log
    pub fn log_len(&self) -> (n: usize)
        ensures
            n == self@.log.entries.len(),
    {
        self.log.entries.len()
    }

    /// Whether this server currently leads the cluster
    pub fn is_leader(&self) -> (b: bool)
        ensures
            b == self@.role is Leader,
    {
        match self.leadership_state {
            RaftLeadershipState::Leader(_) => true,
            _ => false,
        }
    }

    /// Whether this server is currently running for election
    pub fn is_candidate(&self) -> (b: bool)
        ensures
            b == self@.role is Candidate,
    {
        match self.leadership_state {
            RaftLeadershipState::Candidate(_) => true,
            _ => false,
        }
    }

    /// Whether this server currently follows
    pub fn is_follower(&self) -> (b: bool)
        ensures
            b == self@.role is Follower,
    {
        match self.leadership_state {
            RaftLeadershipState::Follower(_) => true,
            _ => false,
        }
    }
}


impl<T: Copy, S> RaftServer<T, S> {
    /// The AppendRequest for follower `k`, assumed to hold our first `sent` entries
    fn append_request_for(&self, k: ServerId, sent: LogIndex) -> (msg: SendableMessage<T>)
        requires
            sent <= self.log.entries.len(),
        ensures
            self@.is_append_for(msg, k, sent as nat),
    {
        let prefix_term = if sent > 0 {
            self.log.entries[sent - 1].term
        } else {
            0
        };
        let entries = crate::rpc::copy_entries(&self.log.entries, sent);
        let rpc = RPC::AppendRequest(AppendRequest {
            entries,
            leader_id: self.id,
            leader_term: self.current_term,
            leader_commit: self.log.committed_len,
            leader_last_log_idx: sent,
            leader_last_log_term: prefix_term,
        });
        (Target::Single(k), rpc)
    }

    /// Replicate our log to followers: to a single one or to all of them.
    /// Only a leader sends anything.
    fn replicate_log(&self, target: Target) -> (out: Vec<SendableMessage<T>>)
        requires
            self@.wf(),
            target matches Target::Single(k) ==> (self@.role matches Role::Leader { followers, .. }
                && followers.contains_key(k)),
        ensures
            match self@.role {
                Role::Leader { followers, .. } => match target {
                    Target::Single(k) => out@.len() == 1 && self@.is_append_for(
                        out@[0],
                        k,
                        followers[k].sent_up_to as nat,
                    ),
                    Target::Broadcast => self@.replicate_all(out@),
                },
                _ => out@.len() == 0,
            },
    {
        if let RaftLeadershipState::Leader(state) = &self.leadership_state {
            match target {
                Target::Single(k) => {
                    let f = *state.followers.get(&k).unwrap();
                    let msg = self.append_request_for(k, f.sent_up_to);
                    let mut out = Vec::new();
                    out.push(msg);
                    out
                },
                Target::Broadcast => {
                    let mut out: Vec<SendableMessage<T>> = Vec::new();
                    let ghost ks = vstd::std_specs::btree::spec_keys_iter(&state.followers).remaining().unref();
                    for k in it: state.followers.keys()
                        invariant
                            self@.wf(),
                            it.seq() == vstd::std_specs::btree::spec_keys_iter(&state.followers).remaining(),
                            ks == it.seq().unref(),
                            self@.role matches Role::Leader { followers, .. } && followers == state.followers@,
                            out@.len() == it.index(),
                            forall|i: int| 0 <= i < it.index() ==> #[trigger] self@.is_append_for(
                                out@[i],
                                *it.seq()[i],
                                state.followers@[*it.seq()[i]].sent_up_to as nat,
                            ),
                    {
                        let f = *state.followers.get(k).unwrap();
                        let msg = self.append_request_for(*k, f.sent_up_to);
                        out.push(msg);
                    }
                    proof {
                        assert(out@.len() == ks.len());
                        assert(ks.to_set() == state.followers@.dom());
                        assert(ks.no_duplicates());
                        lemma_keys_increasing(&state.followers);
                        assert(forall|i: int, j: int| 0 <= i < j < ks.len() ==> ks[i] < ks[j]);
                        assert(self@.replicate_all(out@));
                    }
                    out
                },
            }
        } else {
            Vec::new()
        }
    }
}


impl<T: Copy, S> RaftServer<T, S> {
    /// Step down to follower, adopting `new_term` if it is newer than ours
    fn reset_to_follower(&mut self, new_term: Term)
        requires
            old(self)@.wf(),
        ensures
            old(self)@.reset_to_follower(final(self)@, new_term),
            final(self)@.wf(),
    {
        if new_term > self.current_term {
            // a new term starts: we have not voted in it yet
            self.current_term = new_term;
            self.voted_for = None;
        }
        let election_time = self.random_election_time();
        self.leadership_state = RaftLeadershipState::Follower(FollowerState { leader: None, election_time });
    }

    /// The replication state a new leader starts with: every peer but
    /// ourselves, assumed to hold our whole log and to have acknowledged nothing
    fn fresh_followers(&self) -> (m: BTreeMap<ServerId, NodeReplicationState>)
        ensures
            m@ == fresh_followers(self@.peers, self@.id, self@.log.entries.len()),
    {
        let len = self.log.entries.len();
        let mut followers: BTreeMap<ServerId, NodeReplicationState> = BTreeMap::new();
        let ghost ks = vstd::std_specs::btree::spec_btree_keys_iter(&self.peers).remaining().unref();
        for k in it: self.peers.iter()
            invariant
                it.seq() == vstd::std_specs::btree::spec_btree_keys_iter(&self.peers).remaining(),
                ks == it.seq().unref(),
                ks.to_set() == self.peers@,
                len == self.log.entries.len(),
                followers@ == Map::new(
                    |j: ServerId| ks.take(it.index()).contains(j) && j != self.id,
                    |j: ServerId| NodeReplicationState { sent_up_to: len, acked_up_to: 0 },
                ),
        {
            let ghost i = it.index();
            proof {
                lemma_usize_ordered();
            }
            assert(*k == ks[i]);
            let ghost before = followers@;
            if *k != self.id {
                followers.insert(*k, NodeReplicationState { sent_up_to: len, acked_up_to: 0 });
                assert(followers@ == before.insert(*k, NodeReplicationState { sent_up_to: len, acked_up_to: 0 }));
            }
            proof {
                assert(ks.take(i + 1) =~= ks.take(i).push(ks[i]));
                assert forall|j: ServerId| ks.take(i + 1).contains(j) <==> (ks.take(i).contains(j) || j == ks[i]) by {
                    if ks.take(i + 1).contains(j) {
                        let x = choose|x: int| 0 <= x < i + 1 && #[trigger] ks.take(i + 1)[x] == j;
                        if x < i {
                            assert(ks.take(i)[x] == j);
                        }
                    }
                    if ks.take(i).contains(j) {
                        let x = choose|x: int| 0 <= x < i && #[trigger] ks.take(i)[x] == j;
                        assert(ks.take(i + 1)[x] == j);
                    }
                    if j == ks[i] {
                        assert(ks.take(i + 1)[i] == j);
                    }
                }
                assert(followers@ =~= Map::new(
                    |j: ServerId| ks.take(i + 1).contains(j) && j != self.id,
                    |j: ServerId| NodeReplicationState { sent_up_to: len, acked_up_to: 0 },
                ));
            }
        }
        proof {
            assert(ks.take(ks.len() as int) =~= ks);
            assert(followers@ =~= fresh_followers(self@.peers, self@.id, self@.log.entries.len()));
        }
        followers
    }

    /// Take the lead: track every peer and send each of them our log
    fn promote_to_leader(&mut self) -> (out: Vec<SendableMessage<T>>)
        requires
            old(self)@.wf(),
        ensures
            final(self)@ == old(self)@.with_role(
                Role::Leader {
                    followers: fresh_followers(old(self)@.peers, old(self)@.id, old(self)@.log.entries.len()),
                    heartbeat_timeout: old(self)@.config.heartbeat_interval,
                },
            ),
            final(self)@.wf(),
            final(self)@.replicate_all(out@),
    {
        let followers = self.fresh_followers();
        self.leadership_state = RaftLeadershipState::Leader(LeaderState {
            followers,
            heartbeat_timeout: self.config.heartbeat_interval,
        });
        proof {
            assert(self@.peers.remove(self@.id) =~= fresh_followers(self@.peers, self@.id, self@.log.entries.len()).dom());
        }
        self.replicate_log(Target::Broadcast)
    }

    /// The longest prefix of the log that may now be committed, or the
    /// committed length if nothing more may be
    fn commit_target(&self) -> (n: LogIndex)
        requires
            self@.wf(),
        ensures
            n == self.log.committed_len || self@.can_commit(n as nat),
            forall|m: nat| #[trigger] self@.can_commit(m) ==> m <= n,
    {
        if let RaftLeadershipState::Leader(state) = &self.leadership_state {
            let quorum = self.quorum_size();
            let len = self.log.entries.len();
            let committed = self.log.committed_len;
            if committed >= len {
                return committed;
            }
            let mut best = committed;
            let mut i = committed;
            while i < len
                invariant_except_break
                    committed <= i <= len,
                    len == self.log.entries.len(),
                    committed == self.log.committed_len,
                    quorum == self@.quorum(),
                    quorum >= 1,
                    self@.role matches Role::Leader { followers, .. } && followers == state.followers@,
                    best == committed || self@.can_commit(best as nat),
                    forall|m: nat| #[trigger] self@.can_commit(m) && m <= i ==> m <= best,
                ensures
                    best == committed || self@.can_commit(best as nat),
                    forall|m: nat| #[trigger] self@.can_commit(m) ==> m <= best,
                decreases len - i,
            {
                let n = i + 1;
                let a = count_acks(&state.followers, n);
                if a < quorum - 1 {
                    proof {
                        assert forall|m: nat| #[trigger] self@.can_commit(m) implies m <= best by {
                            if m >= n {
                                lemma_acks_monotone(state.followers@, n as nat, m);
                            }
                        }
                    }
                    break;
                }
                if self.log.entries[i].term == self.current_term {
                    best = n;
                }
                i = n;
            }
            best
        } else {
            self.log.committed_len
        }
    }

    /// Commit any log entries that have been acknowledged by a quorum of nodes.
    /// When a log entry is committed, its message is delivered to the application.
    fn commit_log_entries(&mut self)
        requires
            old(self)@.wf(),
        ensures
            old(self)@.commit_step(final(self)@),
            final(self)@.wf(),
    {
        let n = self.commit_target();
        if n > self.log.committed_len {
            self.log.commit_to(n);
            proof {
                assert(old(self)@.can_commit(n as nat));
            }
        } else {
            proof {
                assert(forall|m: nat| !old(self)@.can_commit(m));
            }
        }
    }

    /// Tick state and perform necessary state transitions/RPC calls
    pub fn tick(&mut self) -> (out: Vec<SendableMessage<T>>)
        requires
            old(self)@.wf(),
            old(self)@.election_due() ==> old(self)@.current_term < Term::MAX,
        ensures
            old(self)@.tick_step(final(self)@, out@),
            final(self)@.wf(),
    {
        let election = match &mut self.leadership_state {
            RaftLeadershipState::Follower(state) => {
                if state.election_time > 1 {
                    state.election_time = state.election_time - 1;
                    false
                } else {
                    true
                }
            },
            RaftLeadershipState::Candidate(state) => {
                if state.election_time > 1 {
                    state.election_time = state.election_time - 1;
                    false
                } else {
                    true
                }
            },
            RaftLeadershipState::Leader(state) => {
                if state.heartbeat_timeout > 1 {
                    state.heartbeat_timeout = state.heartbeat_timeout - 1;
                    return Vec::new();
                } else {
                    state.heartbeat_timeout = self.config.heartbeat_interval;
                    return self.replicate_log(Target::Broadcast);
                }
            },
        };
        if !election {
            return Vec::new();
        }
        // suspect leader has failed, election timeout reached: become candidate
        self.current_term = self.current_term + 1;
        self.voted_for = Some(self.id);
        // see if we can instantly become leader (if cluster size is 1)
        if self.quorum_size() == 1 {
            return self.promote_to_leader();
        }
        let mut vote_list = BTreeSet::new();
        vote_list.insert(self.id);
        let election_time = self.random_election_time();
        self.leadership_state = RaftLeadershipState::Candidate(CandidateState {
            election_time,
            votes_received: vote_list,
        });
        // broadcast message to all nodes asking for a vote
        let rpc = RPC::VoteRequest(VoteRequest {
            candidate_term: self.current_term,
            candidate_id: self.id,
            candidate_last_log_idx: self.log.last_idx(),
            candidate_last_log_term: self.log.last_term(),
        });
        let mut out = Vec::new();
        out.push((Target::Broadcast, rpc));
        proof {
            assert(vote_list@ =~= set![self.id]);
        }
        out
    }
}


impl<T: Copy, S> RaftServer<T, S> {
    /// Step down if a message shows a term newer than ours
    fn observe_term(&mut self, term: Term)
        requires
            old(self)@.wf(),
        ensures
            old(self)@.observe_term(final(self)@, term),
            final(self)@.wf(),
    {
        if term > self.current_term {
            self.reset_to_follower(term);
        }
    }

    /// Process an RPC Request to vote for requesting candidate
    fn rpc_vote_request(&mut self, req: &VoteRequest) -> (out: Vec<SendableMessage<T>>)
        requires
            old(self)@.wf(),
        ensures
            old(self)@.vote_request_step(final(self)@, *req, out@),
            final(self)@.wf(),
    {
        self.observe_term(req.candidate_term);
        let ghost mid = self@;
        // check if candidate's log is up to date with ours
        let our_last_term = self.log.last_term();
        let candidate_has_more_recent_log = req.candidate_last_log_term > our_last_term;
        let candidate_has_longer_log = req.candidate_last_log_term == our_last_term
            && req.candidate_last_log_idx >= self.log.last_idx();
        let log_ok = candidate_has_more_recent_log || candidate_has_longer_log;
        // check to see if candidate's term is up to date with ours
        let up_to_date = req.candidate_term == self.current_term;
        // make sure we haven't voted yet (or already voted for them, to be idempotent)
        let havent_voted = match self.voted_for {
            Some(voted_candidate_id) => voted_candidate_id == req.candidate_id,
            None => true,
        };
        let vote_granted = if log_ok && up_to_date && havent_voted {
            self.voted_for = Some(req.candidate_id);
            true
        } else {
            false
        };
        let rpc = RPC::VoteResponse(VoteResponse { votee_id: self.id, term: self.current_term, vote_granted });
        let mut out = Vec::new();
        out.push((Target::Single(req.candidate_id), rpc));
        proof {
            assert(vote_granted == grants_vote(mid, *req));
            assert(old(self)@.observe_term(mid, req.candidate_term));
        }
        out
    }

    /// Process an RPC response to a vote request
    fn rpc_vote_response(&mut self, res: &VoteResponse) -> (out: Vec<SendableMessage<T>>)
        requires
            old(self)@.wf(),
        ensures
            old(self)@.vote_response_step(final(self)@, *res, out@),
            final(self)@.wf(),
    {
        self.observe_term(res.term);
        let ghost mid = self@;
        proof {
            assert(old(self)@.observe_term(mid, res.term));
            lemma_usize_ordered();
        }
        let quorum = self.quorum_size();
        let current_term = self.current_term;
        let won = if let RaftLeadershipState::Candidate(state) = &mut self.leadership_state {
            if res.term == current_term && res.vote_granted {
                state.votes_received.insert(res.votee_id);
                if state.votes_received.len() < quorum {
                    return Vec::new();
                }
                true
            } else {
                false
            }
        } else {
            false
        };
        if won {
            self.promote_to_leader()
        } else {
            Vec::new()
        }
    }

    /// Handle an AppendRequest as a follower
    fn follower_append(&mut self, req: &AppendRequest<T>) -> (out: Vec<SendableMessage<T>>)
        requires
            old(self)@.wf(),
            old(self)@.role is Follower,
        ensures
            old(self)@.follower_append(final(self)@, *req, out@),
            final(self)@.wf(),
    {
        let prefix_len = req.leader_last_log_idx;
        let success = if req.leader_term == self.current_term {
            // the requester leads our term: follow it, restarting our election timer
            let election_time = self.random_election_time();
            self.leadership_state = RaftLeadershipState::Follower(FollowerState {
                leader: Some(req.leader_id),
                election_time,
            });
            // check if we have the messages that the leader is claiming we have
            let prefix_ok = prefix_len <= self.log.entries.len() && req.entries.len() <= usize::MAX - prefix_len;
            let last_entry_matches_terms = prefix_len == 0 || (prefix_ok && self.log.entries[prefix_len - 1].term
                == req.leader_last_log_term);
            if prefix_ok && last_entry_matches_terms {
                let end = prefix_len + req.entries.len();
                let commit = if req.leader_commit < end {
                    req.leader_commit
                } else {
                    end
                };
                proof {
                    crate::log::lemma_merge_len(self.log@.entries, prefix_len as nat, req.entries@);
                }
                self.log.append_entries(prefix_len, commit, crate::rpc::copy_entries(&req.entries, 0));
                proof {
                    assert(req.entries@.subrange(0, req.entries@.len() as int) =~= req.entries@);
                }
                true
            } else {
                false
            }
        } else {
            false
        };
        let ack_idx = if success {
            prefix_len + req.entries.len()
        } else {
            self.log.entries.len()
        };
        let rpc = RPC::AppendResponse(AppendResponse {
            ok: success,
            term: self.current_term,
            ack_idx,
            follower_id: self.id,
        });
        let mut out = Vec::new();
        out.push((Target::Single(req.leader_id), rpc));
        out
    }

    /// Process an RPC request to append a message to the replicated event log
    fn rpc_append_request(&mut self, req: &AppendRequest<T>) -> (out: Vec<SendableMessage<T>>)
        requires
            old(self)@.wf(),
        ensures
            old(self)@.append_request_step(final(self)@, *req, out@),
            final(self)@.wf(),
    {
        self.observe_term(req.leader_term);
        let ghost mid = self@;
        proof {
            assert(old(self)@.observe_term(mid, req.leader_term));
        }
        if !self.is_follower() {
            if req.leader_term == self.current_term {
                // a leader of our own term exists: go back to follower and handle it as one
                self.reset_to_follower(req.leader_term);
                let ghost mid2 = self@;
                proof {
                    assert(mid.reset_to_follower(mid2, req.leader_term));
                }
                return self.follower_append(req);
            } else {
                // only followers respond to append requests
                return Vec::new();
            }
        }
        self.follower_append(req)
    }

    /// Process an RPC response to an append request
    fn rpc_append_response(&mut self, res: &AppendResponse) -> (out: Vec<SendableMessage<T>>)
        requires
            old(self)@.wf(),
        ensures
            old(self)@.append_response_step(final(self)@, *res, out@),
            final(self)@.wf(),
    {
        self.observe_term(res.term);
        let ghost mid = self@;
        proof {
            assert(old(self)@.observe_term(mid, res.term));
            lemma_usize_ordered();
        }
        let current_term = self.current_term;
        let len = self.log.entries.len();
        // 0: nothing to do, 1: commit what we can, 2: retry with one entry less
        let action: u8 = if let RaftLeadershipState::Leader(state) = &mut self.leadership_state {
            if res.term == current_term {
                match state.followers.get(&res.follower_id) {
                    Some(f) => {
                        let f = *f;
                        if res.ok && res.ack_idx >= f.acked_up_to && res.ack_idx <= len {
                            // the follower holds our log up to `ack_idx`
                            state.followers.insert(
                                res.follower_id,
                                NodeReplicationState { sent_up_to: res.ack_idx, acked_up_to: res.ack_idx },
                            );
                            1
                        } else if f.sent_up_to > 0 {
                            // the follower misses what we assumed: step back by one and try again
                            state.followers.insert(
                                res.follower_id,
                                NodeReplicationState { sent_up_to: f.sent_up_to - 1, acked_up_to: f.acked_up_to },
                            );
                            2
                        } else {
                            0
                        }
                    },
                    None => 0,
                }
            } else {
                0
            }
        } else {
            0
        };
        if action == 1 {
            proof {
                assert(self@.peers.remove(self@.id) =~= self@.role->followers.dom());
            }
            self.commit_log_entries();
            Vec::new()
        } else if action == 2 {
            proof {
                assert(self@.peers.remove(self@.id) =~= self@.role->followers.dom());
            }
            self.replicate_log(Target::Single(res.follower_id))
        } else {
            Vec::new()
        }
    }

    /// Demultiplex incoming RPC to its correct receiver function
    pub fn receive_rpc(&mut self, rpc: &RPC<T>) -> (out: Vec<SendableMessage<T>>)
        requires
            old(self)@.wf(),
        ensures
            old(self)@.receive_step(final(self)@, *rpc, out@),
            final(self)@.wf(),
    {
        match rpc {
            RPC::VoteRequest(req) => self.rpc_vote_request(req),
            RPC::VoteResponse(res) => self.rpc_vote_response(res),
            RPC::AppendRequest(req) => self.rpc_append_request(req),
            RPC::AppendResponse(res) => self.rpc_append_response(res),
        }
    }

    /// Add a command to the replicated log. Only a leader accepts it: it
    /// appends the command in its own term and commits what it can.
    pub fn client_request(&mut self, msg: T) -> (r: Result<(), RaftError>)
        requires
            old(self)@.wf(),
        ensures
            old(self)@.client_request_step(final(self)@, msg, r),
            final(self)@.wf(),
    {
        if self.is_leader() {
            self.log.entries.push(LogEntry { term: self.current_term, data: msg });
            self.commit_log_entries();
            Ok(())
        } else {
            // we aren't a leader so not authorized to add to the replicated log;
            // the client is responsible for trying again with a different server
            Err(RaftError::NotLeader)
        }
    }
}

} // verus!
