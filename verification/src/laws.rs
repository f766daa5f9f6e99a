use vstd::prelude::*;

use crate::log::{last_idx_of, last_term_of, LogEntry, LogIndex, LogState, ServerId};
use crate::rpc::{AppendRequest, AppendResponse, SendableMessage, Target, VoteRequest, VoteResponse, RPC};
use crate::server::{acks, quorum_of, NodeReplicationState, RaftError, Role, ServerState, Ticks};

verus! {

/// What every step of a server keeps: its identity and configuration, the
/// owner its log names, a state machine fed exactly the entries the step
/// newly delivered, in order, and nothing else, a term
/// that never goes back, a vote that never changes within a term, a committed
/// length that never goes back, the entries already handed to the state
/// machine, and, while it leads in one term, every entry of its log, every
/// follower it tracks and how much of the log each is known to hold.
pub open spec fn keeps_history<T>(pre: ServerState<T>, post: ServerState<T>) -> bool {
    &&& post.id == pre.id
    &&& post.peers == pre.peers
    &&& post.config == pre.config
    &&& post.log.parent_id == pre.log.parent_id
    &&& post.current_term >= pre.current_term
    &&& (post.current_term == pre.current_term && pre.voted_for is Some ==> post.voted_for
        == pre.voted_for)
    &&& post.log.committed_len >= pre.log.committed_len
    &&& pre.log.delivered.len() <= post.log.delivered.len()
    &&& post.log.delivered.take(pre.log.delivered.len() as int) == pre.log.delivered
    &&& post.log.fed == pre.log.fed + post.log.delivered.skip(pre.log.delivered.len() as int)
    &&& (pre.role is Leader && post.role is Leader && post.current_term == pre.current_term) ==> {
        &&& pre.log.entries.len() <= post.log.entries.len()
        &&& post.log.entries.take(pre.log.entries.len() as int) == pre.log.entries
        &&& post.role->followers.dom() == pre.role->followers.dom()
        &&& forall|k: ServerId| #[trigger]
            pre.role->followers.contains_key(k) ==> pre.role->followers[k].acked_up_to
                <= post.role->followers[k].acked_up_to
    }
}

/// Any two quorums of a cluster share a server: a strict majority of the
/// cluster cannot be formed twice out of disjoint servers.
pub proof fn lemma_quorums_intersect(cluster: Set<ServerId>, a: Set<ServerId>, b: Set<ServerId>)
    requires
        cluster.finite(),
        cluster.len() >= 1,
        a.subset_of(cluster),
        b.subset_of(cluster),
        a.len() >= quorum_of((cluster.len() - 1) as nat),
        b.len() >= quorum_of((cluster.len() - 1) as nat),
    ensures
        exists|x: ServerId| a.contains(x) && b.contains(x),
{
    vstd::set_lib::lemma_set_subset_finite(cluster, a);
    vstd::set_lib::lemma_set_subset_finite(cluster, b);
    vstd::set_lib::lemma_set_intersect_union_lens(a, b);
    vstd::set_lib::lemma_len_subset(a.union(b), cluster);
    let common = a.intersect(b);
    assert(common.len() > 0);
    let x = common.choose();
    assert(common.contains(x));
}

/// Committing the log's prefix keeps what was delivered before in front
proof fn lemma_commit_keeps_delivered<T>(log: LogState<T>, n: nat)
    requires
        log.committed_len <= n,
    ensures
        log.commit_to(n).delivered.take(log.delivered.len() as int) == log.delivered,
        log.commit_to(n).committed_len >= log.committed_len,
        log.commit_to(n).fed == log.fed + log.commit_to(n).delivered.skip(log.delivered.len() as int),
{
    assert(log.commit_to(n).delivered.take(log.delivered.len() as int) =~= log.delivered);
    assert(log.commit_to(n).fed =~= log.fed + log.commit_to(n).delivered.skip(log.delivered.len() as int));
}

/// A leader only commits what a quorum holds and what ends in an entry of
/// its own term: entries of earlier terms are only ever committed together
/// with a later entry of the leader's term.
pub proof fn lemma_commit_own_term<T>(pre: ServerState<T>, post: ServerState<T>)
    requires
        pre.wf(),
        pre.commit_step(post),
        post.log.committed_len > pre.log.committed_len,
    ensures
        pre.role is Leader,
        acks(pre.role->followers, post.log.committed_len) + 1 >= pre.quorum(),
        post.log.entries[post.log.committed_len - 1].term == pre.current_term,
        post.log.committed_len <= post.log.entries.len(),
{
    if exists|n: nat| pre.can_commit(n) {
        let n = choose|n: nat|
            {
                &&& #[trigger] pre.can_commit(n)
                &&& forall|m: nat| #[trigger] pre.can_commit(m) ==> m <= n
                &&& post == ServerState { log: pre.log.commit_to(n), ..pre }
            };
        assert(post.log.committed_len == n);
    }
}

/// Committing keeps the history of a server
proof fn lemma_commit_keeps_history<T>(pre: ServerState<T>, post: ServerState<T>)
    requires
        pre.wf(),
        pre.commit_step(post),
    ensures
        keeps_history(pre, post),
        post.role == pre.role,
        post.current_term == pre.current_term,
        post.log.entries == pre.log.entries,
{
    if exists|n: nat| pre.can_commit(n) {
        let n = choose|n: nat|
            {
                &&& #[trigger] pre.can_commit(n)
                &&& forall|m: nat| #[trigger] pre.can_commit(m) ==> m <= n
                &&& post == ServerState { log: pre.log.commit_to(n), ..pre }
            };
        lemma_commit_keeps_delivered(pre.log, n);
        assert(post.log.entries.take(pre.log.entries.len() as int) =~= pre.log.entries);
    } else {
        assert(post.log.entries.take(pre.log.entries.len() as int) =~= pre.log.entries);
        assert(post.log.delivered.take(pre.log.delivered.len() as int) =~= pre.log.delivered);
    }
}

/// A tick keeps the history of a server
pub proof fn lemma_tick_keeps_history<T>(pre: ServerState<T>, post: ServerState<T>, out: Seq<SendableMessage<T>>)
    requires
        pre.wf(),
        pre.election_due() ==> pre.current_term < u64::MAX,
        pre.tick_step(post, out),
    ensures
        keeps_history(pre, post),
{
    assert(post.log.entries.take(pre.log.entries.len() as int) =~= pre.log.entries);
    assert(post.log.delivered.take(pre.log.delivered.len() as int) =~= pre.log.delivered);
}

/// Handling a client request keeps the history of a server; a leader
/// appends the command at the end of its log
pub proof fn lemma_client_request_keeps_history<T>(
    pre: ServerState<T>,
    post: ServerState<T>,
    msg: T,
    r: Result<(), RaftError>,
)
    requires
        pre.wf(),
        pre.client_request_step(post, msg, r),
    ensures
        keeps_history(pre, post),
{
    if pre.role is Leader {
        let pushed = ServerState {
            log: LogState {
                entries: pre.log.entries.push(crate::log::LogEntry { term: pre.current_term, data: msg }),
                ..pre.log
            },
            ..pre
        };
        assert(pushed.wf());
        lemma_commit_keeps_history(pushed, post);
        assert(pushed.log.entries.take(pre.log.entries.len() as int) =~= pre.log.entries);
        assert(post.log.entries.take(pre.log.entries.len() as int) =~= post.log.entries.take(
            pushed.log.entries.len() as int,
        ).take(pre.log.entries.len() as int));
    } else {
        assert(post.log.entries.take(pre.log.entries.len() as int) =~= pre.log.entries);
        assert(post.log.delivered.take(pre.log.delivered.len() as int) =~= pre.log.delivered);
    }
}


/// Catching up with the term of a message keeps the history of a server;
/// a message of our own or an older term changes nothing
proof fn lemma_observe_keeps_history<T>(pre: ServerState<T>, mid: ServerState<T>, term: u64)
    requires
        pre.wf(),
        pre.observe_term(mid, term),
    ensures
        keeps_history(pre, mid),
        mid.wf(),
        mid.log == pre.log,
        mid.current_term == pre.current_term ==> mid == pre,
        mid.role is Leader ==> mid == pre,
{
    assert(mid.log.entries.take(pre.log.entries.len() as int) =~= pre.log.entries);
    assert(mid.log.delivered.take(pre.log.delivered.len() as int) =~= pre.log.delivered);
}

/// Merging the leader's entries into a follower's log keeps what the
/// follower delivered and never lowers what it committed
proof fn lemma_append_keeps_delivered<T>(log: LogState<T>, prefix: nat, commit: nat, theirs: Seq<crate::log::LogEntry<T>>)
    requires
        log.applied_len == log.committed_len,
        commit > log.committed_len ==> commit <= crate::log::merge_entries(log.entries, prefix, theirs).len(),
    ensures
        log.append_result(prefix, commit, theirs).committed_len >= log.committed_len,
        log.append_result(prefix, commit, theirs).delivered.take(log.delivered.len() as int) == log.delivered,
        log.delivered.len() <= log.append_result(prefix, commit, theirs).delivered.len(),
        log.append_result(prefix, commit, theirs).fed == log.fed + log.append_result(
            prefix,
            commit,
            theirs,
        ).delivered.skip(log.delivered.len() as int),
        log.append_result(prefix, commit, theirs).applied_len == if commit > log.committed_len {
            commit
        } else {
            log.applied_len
        },
        log.append_result(prefix, commit, theirs).delivered.len() == log.delivered.len() + if commit
            > log.committed_len {
            commit - log.committed_len
        } else {
            0
        },
{
    let r = log.append_result(prefix, commit, theirs);
    assert(r.delivered.take(log.delivered.len() as int) =~= log.delivered);
    assert(r.fed =~= log.fed + r.delivered.skip(log.delivered.len() as int));
}

/// A follower handling an AppendRequest keeps its history
proof fn lemma_follower_append_keeps_history<T>(
    pre: ServerState<T>,
    post: ServerState<T>,
    req: crate::rpc::AppendRequest<T>,
    out: Seq<SendableMessage<T>>,
)
    requires
        pre.wf(),
        pre.follower_append(post, req, out),
    ensures
        keeps_history(pre, post),
        post.current_term == pre.current_term,
        post.voted_for == pre.voted_for,
        !(post.role is Leader) || post == pre,
{
    let prefix = req.leader_last_log_idx as nat;
    let end = prefix + req.entries@.len();
    if req.leader_term == pre.current_term && crate::server::accepts_entries(pre, req) {
        let commit = if req.leader_commit < end { req.leader_commit as nat } else { end };
        crate::log::lemma_merge_len(pre.log.entries, prefix, req.entries@);
        lemma_append_keeps_delivered(pre.log, prefix, commit, req.entries@);
    } else {
        assert(post.log.delivered.take(pre.log.delivered.len() as int) =~= pre.log.delivered);
        assert(post.log.entries.take(pre.log.entries.len() as int) =~= pre.log.entries);
    }
}

/// Handling any RPC keeps the history of a server
pub proof fn lemma_receive_keeps_history<T>(
    pre: ServerState<T>,
    post: ServerState<T>,
    rpc: RPC<T>,
    out: Seq<SendableMessage<T>>,
)
    requires
        pre.wf(),
        pre.receive_step(post, rpc, out),
    ensures
        keeps_history(pre, post),
{
    match rpc {
        RPC::VoteRequest(req) => {
            let mid = choose|mid: ServerState<T>|
                #[trigger] pre.observe_term(mid, req.candidate_term) && mid.answer_vote(post, req, out);
            lemma_observe_keeps_history(pre, mid, req.candidate_term);
            assert(post.log.entries.take(pre.log.entries.len() as int) =~= pre.log.entries);
        },
        RPC::VoteResponse(res) => {
            let mid = choose|mid: ServerState<T>|
                #[trigger] pre.observe_term(mid, res.term) && mid.count_vote(post, res, out);
            lemma_observe_keeps_history(pre, mid, res.term);
            assert(post.log.entries.take(pre.log.entries.len() as int) =~= pre.log.entries);
        },
        RPC::AppendRequest(req) => {
            let mid = choose|mid: ServerState<T>|
                #[trigger] pre.observe_term(mid, req.leader_term) && mid.handle_append(post, req, out);
            lemma_observe_keeps_history(pre, mid, req.leader_term);
            if mid.role is Follower {
                lemma_follower_append_keeps_history(mid, post, req, out);
            } else if req.leader_term == mid.current_term {
                let mid2 = choose|mid2: ServerState<T>|
                    #[trigger] mid.reset_to_follower(mid2, req.leader_term) && mid2.follower_append(post, req, out);
                assert(mid2.wf());
                lemma_follower_append_keeps_history(mid2, post, req, out);
                assert(post.log.delivered.take(pre.log.delivered.len() as int) =~= pre.log.delivered);
            } else {
                assert(post.log.entries.take(pre.log.entries.len() as int) =~= pre.log.entries);
            }
        },
        RPC::AppendResponse(res) => {
            let mid = choose|mid: ServerState<T>|
                #[trigger] pre.observe_term(mid, res.term) && mid.handle_append_response(post, res, out);
            lemma_observe_keeps_history(pre, mid, res.term);
            if mid.role is Leader && res.term == mid.current_term && mid.role->followers.contains_key(
                res.follower_id,
            ) {
                let followers = mid.role->followers;
                let hb = mid.role->heartbeat_timeout;
                let f = followers[res.follower_id];
                if res.ok && f.acked_up_to <= res.ack_idx <= mid.log.entries.len() {
                    let acked = crate::server::NodeReplicationState {
                        sent_up_to: res.ack_idx,
                        acked_up_to: res.ack_idx,
                    };
                    let updated = mid.with_role(
                        Role::Leader { followers: followers.insert(res.follower_id, acked), heartbeat_timeout: hb },
                    );
                    assert(updated.role->followers.dom() =~= followers.dom());
                    assert(updated.wf());
                    lemma_commit_keeps_history(updated, post);
                    assert(post.role->followers.dom() =~= followers.dom());
                } else {
                    assert(post.log.entries.take(pre.log.entries.len() as int) =~= pre.log.entries);
                    assert(post.log.delivered.take(pre.log.delivered.len() as int) =~= pre.log.delivered);
                    assert(post.role->followers.dom() =~= followers.dom());
                }
            } else {
                assert(post.log.entries.take(pre.log.entries.len() as int) =~= pre.log.entries);
            }
        },
    }
}


/// A quorum is a strict majority of the cluster, and the whole cluster is one
pub proof fn lemma_quorum_is_strict_majority(n_peers: nat)
    ensures
        2 * quorum_of(n_peers) > n_peers + 1,
        quorum_of(n_peers) <= n_peers + 1,
        quorum_of(n_peers) >= 1,
{
}

/// A server only takes the lead of its term once a quorum voted for it:
/// handling a message makes a leader out of a candidate only on a vote
/// granted for the candidate's term that completes a quorum of votes
pub proof fn lemma_leadership_needs_quorum<T>(
    pre: ServerState<T>,
    post: ServerState<T>,
    rpc: RPC<T>,
    out: Seq<SendableMessage<T>>,
)
    requires
        pre.wf(),
        pre.receive_step(post, rpc, out),
        !(pre.role is Leader),
        post.role is Leader,
    ensures
        pre.role is Candidate,
        rpc is VoteResponse,
        rpc->VoteResponse_0.vote_granted,
        rpc->VoteResponse_0.term == pre.current_term,
        post.current_term == pre.current_term,
        pre.role->votes.insert(rpc->VoteResponse_0.votee_id).len() >= pre.quorum(),
{
    match rpc {
        RPC::VoteRequest(req) => {
            let mid = choose|mid: ServerState<T>|
                #[trigger] pre.observe_term(mid, req.candidate_term) && mid.answer_vote(post, req, out);
        },
        RPC::VoteResponse(res) => {
            let mid = choose|mid: ServerState<T>|
                #[trigger] pre.observe_term(mid, res.term) && mid.count_vote(post, res, out);
            lemma_observe_keeps_history(pre, mid, res.term);
        },
        RPC::AppendRequest(req) => {
            let mid = choose|mid: ServerState<T>|
                #[trigger] pre.observe_term(mid, req.leader_term) && mid.handle_append(post, req, out);
            if mid.role is Follower {
                lemma_follower_append_keeps_history(mid, post, req, out);
            } else if req.leader_term == mid.current_term {
                let mid2 = choose|mid2: ServerState<T>|
                    #[trigger] mid.reset_to_follower(mid2, req.leader_term) && mid2.follower_append(post, req, out);
                lemma_observe_keeps_history(pre, mid, req.leader_term);
                lemma_follower_append_keeps_history(mid2, post, req, out);
            }
        },
        RPC::AppendResponse(res) => {
            let mid = choose|mid: ServerState<T>|
                #[trigger] pre.observe_term(mid, res.term) && mid.handle_append_response(post, res, out);
            lemma_observe_keeps_history(pre, mid, res.term);
            if mid.role is Leader && res.term == mid.current_term && mid.role->followers.contains_key(
                res.follower_id,
            ) {
                let f = mid.role->followers[res.follower_id];
                if res.ok && f.acked_up_to <= res.ack_idx <= mid.log.entries.len() {
                    let acked = crate::server::NodeReplicationState {
                        sent_up_to: res.ack_idx,
                        acked_up_to: res.ack_idx,
                    };
                    let updated = mid.with_role(
                        Role::Leader {
                            followers: mid.role->followers.insert(res.follower_id, acked),
                            heartbeat_timeout: mid.role->heartbeat_timeout,
                        },
                    );
                    assert(updated.role->followers.dom() =~= mid.role->followers.dom());
                    lemma_commit_keeps_history(updated, post);
                }
            }
        },
    }
}

/// Handing a follower the same entries twice changes nothing the second
/// time: a duplicated AppendRequest leaves the log as the first one left it
pub proof fn lemma_append_idempotent<T>(log: LogState<T>, prefix: nat, commit: nat, theirs: Seq<crate::log::LogEntry<T>>)
    requires
        prefix <= log.entries.len(),
    ensures
        ({
            let once = log.append_result(prefix, commit, theirs);
            once.append_result(prefix, commit, theirs) == once
        }),
{
    let merged = crate::log::merge_entries(log.entries, prefix, theirs);
    crate::log::lemma_merge_len(log.entries, prefix, theirs);
    let once = log.append_result(prefix, commit, theirs);
    assert(once.entries == merged);
    if theirs.len() > 0 {
        let r = if merged.len() < prefix + theirs.len() { merged.len() } else { prefix + theirs.len() } - 1;
        assert(r == prefix + theirs.len() - 1);
        if crate::log::conflicts(log.entries, prefix, theirs) {
            assert(merged[r] == theirs[r - prefix]);
        } else if prefix + theirs.len() > log.entries.len() {
            assert(merged[r] == theirs[r - prefix]);
        } else {
            assert(merged == log.entries);
        }
        assert(!crate::log::conflicts(merged, prefix, theirs));
    }
    assert(crate::log::merge_entries(merged, prefix, theirs) == merged);
}

/// A server votes for at most one candidate in a term: once it gave its vote
/// in its current term, a request of another candidate of that term is
/// refused and the vote stays where it was
pub proof fn lemma_one_vote_per_term<T>(
    pre: ServerState<T>,
    post: ServerState<T>,
    req: VoteRequest,
    out: Seq<SendableMessage<T>>,
    given: ServerId,
)
    requires
        pre.voted_for == Some(given),
        req.candidate_term == pre.current_term,
        req.candidate_id != given,
        pre.receive_step(post, RPC::VoteRequest(req), out),
    ensures
        post == pre,
        out == seq![
            (
                Target::Single(req.candidate_id),
                RPC::<T>::VoteResponse(VoteResponse { votee_id: pre.id, term: pre.current_term, vote_granted: false }),
            ),
        ],
{
    let mid = choose|mid: ServerState<T>| #[trigger] pre.observe_term(mid, req.candidate_term) && mid.answer_vote(post, req, out);
    assert(mid == pre);
    assert(!crate::server::grants_vote(pre, req));
}

/// A follower whose election timer reads `e` ticks `e - 1` times without a
/// word: each of those ticks only counts the timer down, and it stays a
/// follower of the same leader in the same term; the tick after them is the
/// one that starts an election
pub proof fn lemma_follower_quiet_ticks<T>(
    states: Seq<ServerState<T>>,
    outs: Seq<Seq<SendableMessage<T>>>,
    e: Ticks,
    leader: Option<ServerId>,
)
    requires
        states.len() == outs.len() + 1,
        states[0].role == (Role::Follower { election_time: e, leader }),
        outs.len() < e,
        forall|i: int| 0 <= i < outs.len() ==> #[trigger] states[i].tick_step(states[i + 1], outs[i]),
    ensures
        forall|i: int| 0 <= i < outs.len() ==> (#[trigger] outs[i]).len() == 0,
        forall|i: int|
            0 <= i < states.len() ==> #[trigger] states[i] == states[0].with_role(
                Role::Follower { election_time: (e - i) as Ticks, leader },
            ),
        outs.len() + 1 == e ==> states.last().election_due(),
    decreases outs.len(),
{
    let n = outs.len() as int;
    if n > 0 {
        lemma_follower_quiet_ticks(states.drop_last(), outs.drop_last(), e, leader);
        assert(states.drop_last()[n - 1] == states[n - 1]);
        assert(states[n - 1].tick_step(states[n], outs[n - 1]));
        assert forall|i: int| 0 <= i < states.len() implies #[trigger] states[i] == states[0].with_role(
            Role::Follower { election_time: (e - i) as Ticks, leader },
        ) by {
            if i < n {
                assert(states.drop_last()[i] == states[i]);
            }
        }
        assert forall|i: int| 0 <= i < outs.len() implies (#[trigger] outs[i]).len() == 0 by {
            if i < n - 1 {
                assert(outs.drop_last()[i] == outs[i]);
            }
        }
    }
}

/// A leader ticks in silence while its heartbeat countdown `h` runs: `h - 1`
/// ticks only count it down; the `h`-th sends an AppendRequest to every
/// follower and restarts the countdown at the heartbeat interval
pub proof fn lemma_leader_heartbeat_ticks<T>(
    states: Seq<ServerState<T>>,
    outs: Seq<Seq<SendableMessage<T>>>,
    followers: Map<ServerId, NodeReplicationState>,
    h: Ticks,
)
    requires
        states.len() == outs.len() + 1,
        states[0].role == (Role::Leader { followers, heartbeat_timeout: h }),
        outs.len() <= h,
        forall|i: int| 0 <= i < outs.len() ==> #[trigger] states[i].tick_step(states[i + 1], outs[i]),
    ensures
        forall|i: int| 0 <= i < outs.len() && i + 1 < h ==> (#[trigger] outs[i]).len() == 0,
        forall|i: int|
            0 <= i < states.len() && i < h ==> #[trigger] states[i] == states[0].with_role(
                Role::Leader { followers, heartbeat_timeout: (h - i) as Ticks },
            ),
        outs.len() == h && h > 0 ==> {
            &&& states.last() == states[0].with_role(
                Role::Leader { followers, heartbeat_timeout: states[0].config.heartbeat_interval },
            )
            &&& states.last().replicate_all(outs.last())
        },
    decreases outs.len(),
{
    let n = outs.len() as int;
    if n > 0 {
        lemma_leader_heartbeat_ticks(states.drop_last(), outs.drop_last(), followers, h);
        assert(states.drop_last()[n - 1] == states[n - 1]);
        assert(states[n - 1].tick_step(states[n], outs[n - 1]));
        assert forall|i: int| 0 <= i < states.len() && i < h implies #[trigger] states[i] == states[0].with_role(
            Role::Leader { followers, heartbeat_timeout: (h - i) as Ticks },
        ) by {
            if i < n {
                assert(states.drop_last()[i] == states[i]);
            }
        }
        assert forall|i: int| 0 <= i < outs.len() && i + 1 < h implies (#[trigger] outs[i]).len() == 0 by {
            if i < n - 1 {
                assert(outs.drop_last()[i] == outs[i]);
            }
        }
    }
}

/// An AppendRequest of the leader of our term, or of a newer term, restarts
/// the election timer: after it the server is a follower of that leader in
/// that term and stays one, without a word, for at least
/// `election_timeout - election_timeout_jitter - 1` ticks
pub proof fn lemma_heartbeat_defers_election<T>(
    pre: ServerState<T>,
    req: AppendRequest<T>,
    out: Seq<SendableMessage<T>>,
    states: Seq<ServerState<T>>,
    outs: Seq<Seq<SendableMessage<T>>>,
)
    requires
        req.leader_term >= pre.current_term,
        pre.receive_step(states[0], RPC::AppendRequest(req), out),
        states.len() == outs.len() + 1,
        outs.len() + 1 < pre.config.election_timeout - pre.config.election_timeout_jitter,
        forall|i: int| 0 <= i < outs.len() ==> #[trigger] states[i].tick_step(states[i + 1], outs[i]),
    ensures
        forall|i: int| 0 <= i < outs.len() ==> (#[trigger] outs[i]).len() == 0,
        forall|i: int|
            0 <= i < states.len() ==> {
                &&& (#[trigger] states[i]).role is Follower
                &&& states[i].role->leader == Some(req.leader_id)
                &&& states[i].current_term == req.leader_term
            },
{
    let post = states[0];
    let mid = choose|mid: ServerState<T>| #[trigger] pre.observe_term(mid, req.leader_term) && mid.handle_append(post, req, out);
    assert(mid.current_term == req.leader_term);
    assert(mid.config == pre.config);
    if !(mid.role is Follower) {
        let mid2 = choose|mid2: ServerState<T>| #[trigger] mid.reset_to_follower(mid2, req.leader_term) && mid2.follower_append(post, req, out);
        assert(mid2.current_term == req.leader_term);
    }
    let e = post.role->Follower_election_time;
    lemma_follower_quiet_ticks(states, outs, e, Some(req.leader_id));
    assert forall|i: int| 0 <= i < states.len() implies {
        &&& (#[trigger] states[i]).role is Follower
        &&& states[i].role->leader == Some(req.leader_id)
        &&& states[i].current_term == req.leader_term
    } by {
        assert(states[i] == states[0].with_role(Role::Follower { election_time: (e - i) as Ticks, leader: Some(req.leader_id) }));
    }
}

/// The follower's entries past `prefix` agree with the leader's `theirs`
/// up to any position where their terms agree, as log matching promises of
/// the logs of a cluster
pub open spec fn matches_where_terms_agree<T>(ours: Seq<LogEntry<T>>, prefix: nat, theirs: Seq<LogEntry<T>>) -> bool {
    forall|j: int|
        0 <= j < theirs.len() && prefix + j < ours.len() && #[trigger] ours[prefix + j].term == theirs[j].term
            ==> ours.subrange(prefix as int, prefix + j + 1) == theirs.take(j + 1)
}

/// A server accepts an AppendRequest of the leader of its term, or of a
/// newer term, whenever its log holds the entry the leader's entries follow
/// (an empty prefix, or an entry at `prefix - 1` of the leader's previous
/// term), however long its log is past that entry: it answers ok with the
/// end of the leader's entries, follows that leader in its term, keeps its
/// log before `prefix`, and, where its entries past `prefix` agree with the
/// leader's up to any position of equal term, ends with exactly the
/// leader's entries at `prefix..prefix + len`
pub proof fn lemma_follower_accepts_matching_append<T>(
    pre: ServerState<T>,
    req: AppendRequest<T>,
    post: ServerState<T>,
    out: Seq<SendableMessage<T>>,
)
    requires
        pre.wf(),
        req.leader_term >= pre.current_term,
        req.leader_last_log_idx <= pre.log.entries.len(),
        req.leader_last_log_idx + req.entries@.len() <= usize::MAX,
        req.leader_last_log_idx == 0 || pre.log.entries[req.leader_last_log_idx - 1].term
            == req.leader_last_log_term,
        pre.receive_step(post, RPC::AppendRequest(req), out),
    ensures
        out == seq![
            (
                Target::Single(req.leader_id),
                RPC::<T>::AppendResponse(
                    AppendResponse {
                        ok: true,
                        term: req.leader_term,
                        ack_idx: (req.leader_last_log_idx + req.entries@.len()) as LogIndex,
                        follower_id: pre.id,
                    },
                ),
            ),
        ],
        post.current_term == req.leader_term,
        post.role matches Role::Follower { leader, .. } && leader == Some(req.leader_id),
        post.log.entries.len() >= req.leader_last_log_idx + req.entries@.len(),
        post.log.entries.take(req.leader_last_log_idx as int) == pre.log.entries.take(
            req.leader_last_log_idx as int,
        ),
        matches_where_terms_agree(pre.log.entries, req.leader_last_log_idx as nat, req.entries@)
            ==> post.log.entries.subrange(
            req.leader_last_log_idx as int,
            req.leader_last_log_idx + req.entries@.len(),
        ) == req.entries@,
{
    let p = req.leader_last_log_idx as nat;
    let theirs = req.entries@;
    let ours = pre.log.entries;
    let mid = choose|mid: ServerState<T>| #[trigger] pre.observe_term(mid, req.leader_term) && mid.handle_append(post, req, out);
    assert(mid.log == pre.log);
    assert(mid.current_term == req.leader_term);
    let f = if mid.role is Follower {
        mid
    } else {
        choose|mid2: ServerState<T>| #[trigger] mid.reset_to_follower(mid2, req.leader_term) && mid2.follower_append(post, req, out)
    };
    assert(f.follower_append(post, req, out));
    assert(f.log == pre.log);
    assert(f.current_term == req.leader_term);
    assert(f.id == pre.id);
    assert(crate::server::accepts_entries(f, req));
    let merged = crate::log::merge_entries(ours, p, theirs);
    crate::log::lemma_merge_len(ours, p, theirs);
    assert(post.log.entries == merged);
    assert forall|i: int| 0 <= i < p implies #[trigger] post.log.entries.take(p as int)[i] == ours.take(p as int)[i] by {
        crate::log::lemma_merge_keeps_prefix(ours, p, theirs, i);
    }
    assert(post.log.entries.take(p as int) =~= ours.take(p as int));
    if matches_where_terms_agree(ours, p, theirs) {
        if !crate::log::conflicts(ours, p, theirs) && theirs.len() > 0 && ours.len() > p {
            let last = if ours.len() < p + theirs.len() { ours.len() } else { p + theirs.len() } - 1;
            let j = last - p;
            assert(ours[p + j].term == theirs[j].term);
            assert(ours.subrange(p as int, p + j + 1) == theirs.take(j + 1));
            assert forall|k: int| 0 <= k < theirs.len() && p + k < ours.len() implies ours[p + k] == theirs[k] by {
                assert(ours.subrange(p as int, p + j + 1)[k] == theirs.take(j + 1)[k]);
            }
        }
        assert forall|i: int| 0 <= i < theirs.len() implies #[trigger] post.log.entries.subrange(
            p as int,
            (p + theirs.len()) as int,
        )[i] == theirs[i] by {
            crate::log::lemma_merge_reads_back(ours, p, theirs, i);
        }
        assert(post.log.entries.subrange(p as int, (p + theirs.len()) as int) =~= theirs);
    }
}

/// When the election timer of a follower or a candidate runs out, a tick
/// starts an election: the server moves to the next term and votes for
/// itself, keeps its log, and, unless it is alone, becomes a candidate
/// holding its own vote, with a fresh timer within the configured bounds,
/// and asks everybody for their vote in the new term with its log's last
/// index and term; alone, it leads at once
pub proof fn lemma_timeout_starts_election<T>(pre: ServerState<T>, post: ServerState<T>, out: Seq<SendableMessage<T>>)
    requires
        pre.wf(),
        pre.current_term < u64::MAX,
        (pre.role matches Role::Follower { election_time, .. } && election_time <= 1) || (
        pre.role matches Role::Candidate { election_time, .. } && election_time <= 1),
        pre.tick_step(post, out),
    ensures
        post.current_term == pre.current_term + 1,
        post.voted_for == Some(pre.id),
        post.log == pre.log,
        post.id == pre.id,
        post.peers == pre.peers,
        pre.peers.len() > 0 ==> {
            &&& post.role matches Role::Candidate { election_time, votes } && votes == set![pre.id]
                && pre.config.election_timeout - pre.config.election_timeout_jitter <= election_time
                <= pre.config.election_timeout + pre.config.election_timeout_jitter
            &&& out == seq![
                (
                    Target::Broadcast,
                    RPC::<T>::VoteRequest(
                        VoteRequest {
                            candidate_term: (pre.current_term + 1) as u64,
                            candidate_id: pre.id,
                            candidate_last_log_idx: last_idx_of(pre.log.entries) as LogIndex,
                            candidate_last_log_term: last_term_of(pre.log.entries),
                        },
                    ),
                ),
            ]
        },
        pre.peers.len() == 0 ==> post.role is Leader,
{
    lemma_quorum_is_strict_majority(pre.peers.len());
    assert(pre.start_election(post, out));
}

} // verus!
