use vstd::prelude::*;

use crate::laws::{
    keeps_history, lemma_client_request_keeps_history, lemma_leadership_needs_quorum,
    lemma_quorums_intersect, lemma_receive_keeps_history, lemma_tick_keeps_history,
};
use crate::log::{LogEntry, ServerId, Term};
use crate::rpc::{SendableMessage, Target, VoteResponse, RPC};
use crate::server::{quorum_of, RaftError, Role, ServerState};

verus! {

/// A cluster of servers and every message any of them ever sent. A message
/// once sent may be delivered any number of times, in any order, or never.
#[verifier::reject_recursive_types(T)]
pub struct Cluster<T> {
    pub servers: Map<ServerId, ServerState<T>>,
    pub sent: Set<SendableMessage<T>>,
    /// For every term that had a leader, the log of that leader: as it is
    /// while the leader leads, as it was when it stopped
    pub leader_logs: Map<Term, Seq<LogEntry<T>>>,
    /// The log each server held when it first cast its vote of a term
    pub ballots: Map<(ServerId, Term), Seq<LogEntry<T>>>,
    /// The leader of every term that had one
    pub leader_of: Map<Term, ServerId>,
}

/// The message by which `v` grants `c` its vote in term `t`
pub open spec fn grant_msg<T>(t: Term, v: ServerId, c: ServerId) -> SendableMessage<T> {
    (Target::Single(c), RPC::VoteResponse(VoteResponse { term: t, vote_granted: true, votee_id: v }))
}

/// Whether `c` asked everyone for their vote in term `t`
pub open spec fn campaigned<T>(sent: Set<SendableMessage<T>>, t: Term, c: ServerId) -> bool {
    exists|m: SendableMessage<T>| #[trigger] sent.contains(m) && campaign_msg(m, t, c)
}

/// `m` asks everyone to vote for `c` in term `t`
pub open spec fn campaign_msg<T>(m: SendableMessage<T>, t: Term, c: ServerId) -> bool {
    &&& m.0 == Target::Broadcast
    &&& m.1 matches RPC::VoteRequest(r) && r.candidate_term == t && r.candidate_id == c
}

/// A vote answer sent by a server that went from `pre` to `post`: it comes
/// from that server, carries its new term, and a granted vote is the vote
/// the server now holds
pub open spec fn answer_ok<T>(pre: ServerState<T>, post: ServerState<T>, m: SendableMessage<T>) -> bool {
    m.1 matches RPC::VoteResponse(r) ==> {
        &&& r.votee_id == pre.id
        &&& r.term == post.current_term
        &&& r.vote_granted ==> (m.0 is Single && post.voted_for == Some(m.0->Single_0))
    }
}

/// A vote request sent by a server that went from `pre` to `post`: it only
/// asks for votes for itself in the new term it voted for itself in
pub open spec fn request_ok<T>(pre: ServerState<T>, post: ServerState<T>, m: SendableMessage<T>) -> bool {
    m.1 matches RPC::VoteRequest(r) ==> {
        &&& r.candidate_id == pre.id
        &&& r.candidate_term == post.current_term
        &&& post.current_term > pre.current_term
        &&& post.voted_for == Some(pre.id)
    }
}

/// `received` is a vote granted for term `t`
pub open spec fn granted_for<T>(received: Option<RPC<T>>, t: Term) -> bool {
    received matches Some(RPC::VoteResponse(r)) && r.vote_granted && r.term == t
}

/// Who cast the vote that `received` carries
pub open spec fn votee_of<T>(received: Option<RPC<T>>) -> ServerId {
    received->Some_0->VoteResponse_0.votee_id
}

/// Whether `v` cast its vote of term `t` for `c`, as the messages show: it
/// granted `c` its vote, or it is `c` and ran for election in that term
pub open spec fn voted<T>(sent: Set<SendableMessage<T>>, v: ServerId, t: Term, c: ServerId) -> bool {
    sent.contains(grant_msg(t, v, c)) || (v == c && campaigned(sent, t, c))
}

/// Whether a quorum of the servers `ids` voted for `c` in term `t`
pub open spec fn elected<T>(sent: Set<SendableMessage<T>>, ids: Set<ServerId>, t: Term, c: ServerId) -> bool {
    exists|q: Set<ServerId>|
        {
            &&& q.subset_of(ids)
            &&& q.len() >= quorum_of((ids.len() - 1) as nat)
            &&& forall|v: ServerId| #[trigger] q.contains(v) ==> voted(sent, v, t, c)
        }
}

/// The servers of the cluster
pub open spec fn ids<T>(cl: Cluster<T>) -> Set<ServerId> {
    cl.servers.dom()
}

/// Invariant of a cluster of at least two servers, from which election
/// safety follows: every server knows exactly the others; votes are cast by
/// servers of the cluster, at most once per term, and each server remembers
/// the vote of its current term; a candidate only counts votes cast for it;
/// a leader won a quorum of votes of its term.
pub open spec fn cluster_inv<T>(cl: Cluster<T>) -> bool {
    let ids = ids(cl);
    &&& ids.finite()
    &&& ids.len() >= 2
    &&& forall|k: ServerId| #[trigger]
        ids.contains(k) ==> {
            &&& cl.servers[k].wf()
            &&& cl.servers[k].id == k
            &&& cl.servers[k].peers == ids.remove(k)
        }
    &&& forall|m: SendableMessage<T>| #[trigger]
        cl.sent.contains(m) ==> (m.1 matches RPC::VoteResponse(r) ==> ids.contains(r.votee_id) && (
        r.vote_granted ==> m.0 is Single))
    &&& forall|v: ServerId, t: Term, c: ServerId| #[trigger]
        voted(cl.sent, v, t, c) && ids.contains(v) ==> cl.servers[v].current_term > t || (
        cl.servers[v].current_term == t && cl.servers[v].voted_for == Some(c))
    &&& forall|v: ServerId, t: Term, c1: ServerId, c2: ServerId| #[trigger]
        voted(cl.sent, v, t, c1) && #[trigger] voted(cl.sent, v, t, c2) ==> c1 == c2
    &&& forall|c: ServerId| #[trigger]
        ids.contains(c) && cl.servers[c].role is Candidate ==> {
            &&& cl.servers[c].role->votes.subset_of(ids)
            &&& forall|v: ServerId| #[trigger]
                cl.servers[c].role->votes.contains(v) ==> voted(cl.sent, v, cl.servers[c].current_term, c)
        }
    &&& forall|c: ServerId| #[trigger]
        ids.contains(c) && cl.servers[c].role is Leader ==> elected(cl.sent, ids, cl.servers[c].current_term, c)
}

/// What a step of one server does to votes: the vote messages it sends,
/// and how it may become or stay a candidate or a leader
pub open spec fn votes_step<T>(pre: ServerState<T>, post: ServerState<T>, out: Seq<SendableMessage<T>>, received: Option<RPC<T>>) -> bool {
    &&& forall|i: int| 0 <= i < out.len() ==> answer_ok(pre, post, #[trigger] out[i])
    &&& forall|i: int| 0 <= i < out.len() ==> request_ok(pre, post, #[trigger] out[i])
    &&& post.role is Candidate ==> {
        ||| pre.role is Candidate && post.current_term == pre.current_term && post.role->votes
            == pre.role->votes
        ||| pre.role is Candidate && post.current_term == pre.current_term && granted_for(
            received,
            pre.current_term,
        ) && post.role->votes == pre.role->votes.insert(votee_of(received))
        ||| post.role->votes == set![pre.id] && exists|i: int|
            0 <= i < out.len() && campaign_msg(#[trigger] out[i], post.current_term, pre.id)
    }
    &&& post.role is Leader ==> {
        ||| pre.role is Leader && post.current_term == pre.current_term
        ||| pre.role is Candidate && post.current_term == pre.current_term && granted_for(
            received,
            pre.current_term,
        ) && pre.role->votes.insert(votee_of(received)).len() >= pre.quorum()
    }
}


/// Appending requests to followers sends no vote messages
pub(crate) proof fn lemma_replicate_no_votes<T>(s: ServerState<T>, out: Seq<SendableMessage<T>>)
    requires
        s.replicate_all(out),
    ensures
        forall|i: int| 0 <= i < out.len() ==> (#[trigger] out[i]).1 is AppendRequest,
{
    let followers = s.role->followers;
    let ks = choose|ks: Seq<ServerId>|
        {
            &&& ks.to_set() == followers.dom()
            &&& ks.no_duplicates()
            &&& forall|i: int, j: int| 0 <= i < j < ks.len() ==> ks[i] < ks[j]
            &&& out.len() == ks.len()
            &&& forall|i: int|
                0 <= i < ks.len() ==> #[trigger] s.is_append_for(out[i], ks[i], followers[ks[i]].sent_up_to as nat)
        };
    assert forall|i: int| 0 <= i < out.len() implies (#[trigger] out[i]).1 is AppendRequest by {
        assert(s.is_append_for(out[i], ks[i], followers[ks[i]].sent_up_to as nat));
    }
}

/// What a tick does to votes, in a cluster where a server alone is no quorum
pub(crate) proof fn lemma_tick_votes<T>(pre: ServerState<T>, post: ServerState<T>, out: Seq<SendableMessage<T>>)
    requires
        pre.wf(),
        pre.election_due() ==> pre.current_term < u64::MAX,
        pre.quorum() >= 2,
        pre.tick_step(post, out),
    ensures
        votes_step(pre, post, out, None),
{
    match pre.role {
        Role::Leader { heartbeat_timeout, .. } => {
            if heartbeat_timeout <= 1 {
                lemma_replicate_no_votes(post, out);
            }
        },
        _ => {
            if pre.election_due() {
                assert(out[0].0 == Target::Broadcast);
            }
        },
    }
}

/// What handling a message does to votes
pub(crate) proof fn lemma_receive_votes<T>(pre: ServerState<T>, post: ServerState<T>, rpc: RPC<T>, out: Seq<SendableMessage<T>>)
    requires
        pre.wf(),
        pre.receive_step(post, rpc, out),
    ensures
        votes_step(pre, post, out, Some(rpc)),
{
    lemma_receive_keeps_history(pre, post, rpc, out);
    if !(pre.role is Leader) && post.role is Leader {
        lemma_leadership_needs_quorum(pre, post, rpc, out);
    }
    match rpc {
        RPC::VoteRequest(req) => {
            let mid = choose|mid: ServerState<T>|
                #[trigger] pre.observe_term(mid, req.candidate_term) && mid.answer_vote(post, req, out);
        },
        RPC::VoteResponse(res) => {
            let mid = choose|mid: ServerState<T>|
                #[trigger] pre.observe_term(mid, res.term) && mid.count_vote(post, res, out);
            if mid.role is Candidate && res.term == mid.current_term && res.vote_granted
                && mid.role->votes.insert(res.votee_id).len() >= mid.quorum() {
                lemma_replicate_no_votes(post, out);
            }
        },
        RPC::AppendRequest(req) => {
            let mid = choose|mid: ServerState<T>|
                #[trigger] pre.observe_term(mid, req.leader_term) && mid.handle_append(post, req, out);
            if !(mid.role is Follower) && req.leader_term == mid.current_term {
                let mid2 = choose|mid2: ServerState<T>|
                    #[trigger] mid.reset_to_follower(mid2, req.leader_term) && mid2.follower_append(post, req, out);
            }
        },
        RPC::AppendResponse(res) => {
            let mid = choose|mid: ServerState<T>|
                #[trigger] pre.observe_term(mid, res.term) && mid.handle_append_response(post, res, out);
        },
    }
}

/// What handling a client request does to votes: nothing
pub(crate) proof fn lemma_client_votes<T>(pre: ServerState<T>, post: ServerState<T>, msg: T, r: Result<(), RaftError>)
    requires
        pre.client_request_step(post, msg, r),
    ensures
        votes_step(pre, post, seq![], None),
{
}

/// The cluster after server `k` stepped to `post_k`, sending `out`. If the
/// server leads, its log is the leader log of its term and it is that term's
/// leader; if it took a vote it did not hold in its term, its log is its
/// ballot for that term.
pub open spec fn after<T>(cl: Cluster<T>, k: ServerId, post_k: ServerState<T>, out: Seq<SendableMessage<T>>) -> Cluster<T> {
    Cluster {
        servers: cl.servers.insert(k, post_k),
        sent: cl.sent + out.to_set(),
        leader_logs: if post_k.role is Leader {
            cl.leader_logs.insert(post_k.current_term, post_k.log.entries)
        } else {
            cl.leader_logs
        },
        ballots: if post_k.voted_for is Some && !(cl.servers[k].current_term == post_k.current_term
            && cl.servers[k].voted_for is Some) {
            cl.ballots.insert((k, post_k.current_term), post_k.log.entries)
        } else {
            cl.ballots
        },
        leader_of: if post_k.role is Leader {
            cl.leader_of.insert(post_k.current_term, k)
        } else {
            cl.leader_of
        },
    }
}

/// A step of one server keeps the invariant of the cluster when it keeps
/// the server's history, follows the rules of votes, and counts only votes
/// that were cast for it
proof fn lemma_step_keeps_inv<T>(
    cl: Cluster<T>,
    k: ServerId,
    post_k: ServerState<T>,
    out: Seq<SendableMessage<T>>,
    received: Option<RPC<T>>,
)
    requires
        cluster_inv(cl),
        ids(cl).contains(k),
        post_k.wf(),
        keeps_history(cl.servers[k], post_k),
        votes_step(cl.servers[k], post_k, out, received),
        granted_for(received, cl.servers[k].current_term) ==> voted(
            cl.sent,
            votee_of(received),
            cl.servers[k].current_term,
            k,
        ) && ids(cl).contains(votee_of(received)),
    ensures
        cluster_inv(after(cl, k, post_k, out)),
{
    let pre_k = cl.servers[k];
    let post = after(cl, k, post_k, out);
    let ids = cl.servers.dom();
    assert(post.servers.dom() =~= ids);
    assert forall|v: ServerId, t: Term, c: ServerId| #[trigger]
        voted(cl.sent, v, t, c) implies voted(post.sent, v, t, c) by {
        if !cl.sent.contains(grant_msg(t, v, c)) {
            let m = choose|m: SendableMessage<T>| #[trigger] cl.sent.contains(m) && campaign_msg(m, t, c);
            assert(post.sent.contains(m));
        }
    }
    assert forall|v: ServerId, t: Term, c: ServerId|
        #[trigger] voted(post.sent, v, t, c) && !voted(cl.sent, v, t, c) implies v == k && t
        == post_k.current_term && post_k.voted_for == Some(c) by {
        if post.sent.contains(grant_msg(t, v, c)) {
            let i = choose|i: int| 0 <= i < out.len() && out[i] == grant_msg::<T>(t, v, c);
            assert(answer_ok(pre_k, post_k, out[i]));
        } else {
            let m = choose|m: SendableMessage<T>| #[trigger] post.sent.contains(m) && campaign_msg(m, t, c);
            assert(!cl.sent.contains(m));
            let i = choose|i: int| 0 <= i < out.len() && out[i] == m;
            assert(request_ok(pre_k, post_k, out[i]));
        }
    }
    assert forall|m: SendableMessage<T>| #[trigger]
        post.sent.contains(m) implies (m.1 matches RPC::VoteResponse(r) ==> ids.contains(r.votee_id) && (
        r.vote_granted ==> m.0 is Single)) by {
        if !cl.sent.contains(m) {
            let i = choose|i: int| 0 <= i < out.len() && out[i] == m;
            assert(answer_ok(pre_k, post_k, out[i]));
        }
    }
    assert forall|v: ServerId, t: Term, c: ServerId| #[trigger]
        voted(post.sent, v, t, c) && ids.contains(v) implies post.servers[v].current_term > t || (
        post.servers[v].current_term == t && post.servers[v].voted_for == Some(c)) by {
        if voted(cl.sent, v, t, c) {
            assert(cl.servers[v].current_term > t || (cl.servers[v].current_term == t
                && cl.servers[v].voted_for == Some(c)));
        }
    }
    assert forall|v: ServerId, t: Term, c1: ServerId, c2: ServerId|
        #[trigger] voted(post.sent, v, t, c1) && #[trigger] voted(post.sent, v, t, c2) implies c1 == c2 by {
        if voted(cl.sent, v, t, c1) && voted(cl.sent, v, t, c2) {
        } else if voted(cl.sent, v, t, c1) {
            assert(cl.servers[v].current_term > t || (cl.servers[v].current_term == t
                && cl.servers[v].voted_for == Some(c1)));
        } else if voted(cl.sent, v, t, c2) {
            assert(cl.servers[v].current_term > t || (cl.servers[v].current_term == t
                && cl.servers[v].voted_for == Some(c2)));
        }
    }
    assert forall|c: ServerId| #[trigger]
        ids.contains(c) && post.servers[c].role is Candidate implies {
            &&& post.servers[c].role->votes.subset_of(ids)
            &&& forall|v: ServerId| #[trigger]
                post.servers[c].role->votes.contains(v) ==> voted(post.sent, v, post.servers[c].current_term, c)
        } by {
        if c == k {
            let votes = post_k.role->votes;
            if pre_k.role is Candidate && post_k.current_term == pre_k.current_term && votes
                == pre_k.role->votes {
                assert(forall|v: ServerId| #[trigger] votes.contains(v) ==> voted(cl.sent, v, pre_k.current_term, k));
            } else if pre_k.role is Candidate && post_k.current_term == pre_k.current_term
                && granted_for(received, pre_k.current_term) && votes == pre_k.role->votes.insert(
                votee_of(received),
            ) {
                assert(forall|v: ServerId| #[trigger] pre_k.role->votes.contains(v) ==> voted(cl.sent, v, pre_k.current_term, k));
                assert(voted(cl.sent, votee_of(received), pre_k.current_term, k));
            } else {
                let i = choose|i: int|
                    0 <= i < out.len() && campaign_msg(#[trigger] out[i], post_k.current_term, pre_k.id);
                assert(post.sent.contains(out[i]));
                assert(campaigned(post.sent, post_k.current_term, k));
                assert(voted(post.sent, k, post_k.current_term, k));
                assert(votes =~= set![k]);
            }
        } else {
            assert(cl.servers[c] == post.servers[c]);
        }
    }
    assert forall|c: ServerId| #[trigger]
        ids.contains(c) && post.servers[c].role is Leader implies elected(post.sent, ids, post.servers[c].current_term, c) by {
        if c == k && !(pre_k.role is Leader && post_k.current_term == pre_k.current_term) {
            let q = pre_k.role->votes.insert(votee_of(received));
            assert(forall|v: ServerId| #[trigger] pre_k.role->votes.contains(v) ==> voted(cl.sent, v, pre_k.current_term, k));
            assert(voted(cl.sent, votee_of(received), pre_k.current_term, k));
            assert(pre_k.peers.len() == ids.len() - 1);
            assert(forall|v: ServerId| #[trigger] q.contains(v) ==> voted(post.sent, v, post_k.current_term, k));
            assert(pre_k.role->votes.subset_of(ids));
            assert(q.subset_of(ids));
            assert(q.len() >= quorum_of((ids.len() - 1) as nat));
            assert(post.servers[c] == post_k);
        } else {
            let q = choose|q: Set<ServerId>|
                {
                    &&& q.subset_of(ids)
                    &&& q.len() >= quorum_of((ids.len() - 1) as nat)
                    &&& forall|v: ServerId| #[trigger]
                        q.contains(v) ==> voted(cl.sent, v, cl.servers[c].current_term, c)
                };
            assert(forall|v: ServerId| #[trigger] q.contains(v) ==> voted(post.sent, v, post.servers[c].current_term, c));
        }
    }
}

/// A server as `RaftServer::new` makes it: in term 0, without a vote or
/// log entries, having committed nothing, a follower of nobody
pub open spec fn is_initial<T>(s: ServerState<T>) -> bool {
    &&& s.wf()
    &&& s.current_term == 0
    &&& s.voted_for is None
    &&& s.log.entries.len() == 0
    &&& s.log.committed_len == 0
    &&& s.role matches Role::Follower { leader, .. } && leader is None
}

/// A cluster of at least two servers just made, each knowing exactly the
/// others, before any message was sent, keeps the invariant.
pub proof fn lemma_initial_cluster_inv<T>(cl: Cluster<T>)
    requires
        cl.servers.dom().finite(),
        cl.servers.dom().len() >= 2,
        forall|k: ServerId| #[trigger]
            cl.servers.dom().contains(k) ==> {
                &&& is_initial(cl.servers[k])
                &&& cl.servers[k].id == k
                &&& cl.servers[k].peers == cl.servers.dom().remove(k)
            },
        cl.sent == Set::<SendableMessage<T>>::empty(),
    ensures
        cluster_inv(cl),
{
}

/// A tick of one server of the cluster keeps the invariant of the cluster.
pub proof fn lemma_tick_keeps_cluster_inv<T>(
    cl: Cluster<T>,
    k: ServerId,
    post_k: ServerState<T>,
    out: Seq<SendableMessage<T>>,
)
    requires
        cluster_inv(cl),
        cl.servers.dom().contains(k),
        cl.servers[k].election_due() ==> cl.servers[k].current_term < u64::MAX,
        cl.servers[k].tick_step(post_k, out),
        post_k.wf(),
    ensures
        cluster_inv(after(cl, k, post_k, out)),
{
    let pre_k = cl.servers[k];
    assert(pre_k.peers.len() == cl.servers.dom().len() - 1);
    lemma_tick_keeps_history(pre_k, post_k, out);
    lemma_tick_votes(pre_k, post_k, out);
    lemma_step_keeps_inv(cl, k, post_k, out, None);
}

/// One server of the cluster handling a message that was sent to it, or
/// to everyone, keeps the invariant of the cluster.
pub proof fn lemma_receive_keeps_cluster_inv<T>(
    cl: Cluster<T>,
    k: ServerId,
    m: SendableMessage<T>,
    post_k: ServerState<T>,
    out: Seq<SendableMessage<T>>,
)
    requires
        cluster_inv(cl),
        cl.servers.dom().contains(k),
        cl.sent.contains(m),
        m.0 == Target::Broadcast || m.0 == Target::Single(k),
        cl.servers[k].receive_step(post_k, m.1, out),
        post_k.wf(),
    ensures
        cluster_inv(after(cl, k, post_k, out)),
{
    let pre_k = cl.servers[k];
    lemma_receive_keeps_history(pre_k, post_k, m.1, out);
    lemma_receive_votes(pre_k, post_k, m.1, out);
    let received = Some(m.1);
    if granted_for(received, pre_k.current_term) {
        assert(m == grant_msg::<T>(pre_k.current_term, votee_of(received), k));
    }
    lemma_step_keeps_inv(cl, k, post_k, out, received);
}

/// One server of the cluster handling a client request keeps the invariant
/// of the cluster.
pub proof fn lemma_client_request_keeps_cluster_inv<T>(
    cl: Cluster<T>,
    k: ServerId,
    msg: T,
    r: Result<(), RaftError>,
    post_k: ServerState<T>,
)
    requires
        cluster_inv(cl),
        cl.servers.dom().contains(k),
        cl.servers[k].client_request_step(post_k, msg, r),
        post_k.wf(),
    ensures
        cluster_inv(after(cl, k, post_k, seq![])),
{
    let pre_k = cl.servers[k];
    lemma_client_request_keeps_history(pre_k, post_k, msg, r);
    lemma_client_votes(pre_k, post_k, msg, r);
    lemma_step_keeps_inv(cl, k, post_k, seq![], None);
}

/// A cluster of a single server: it is its own quorum, and any two of its
/// servers are the same
pub open spec fn single_server<T>(cl: Cluster<T>) -> bool {
    cl.servers.dom().finite() && cl.servers.dom().len() == 1
}

/// Any two servers of a cluster of a single server are the same
pub proof fn lemma_single_server_same<T>(cl: Cluster<T>, a: ServerId, b: ServerId)
    requires
        single_server(cl),
        cl.servers.dom().contains(a),
        cl.servers.dom().contains(b),
    ensures
        a == b,
{
    let ids = cl.servers.dom();
    assert(ids.remove(a).len() == 0);
    assert(!ids.remove(a).contains(b));
}

/// Election safety: in a cluster that keeps the invariant, or that has a
/// single server, at most one server leads in any given term.
pub proof fn lemma_election_safety<T>(cl: Cluster<T>, a: ServerId, b: ServerId)
    requires
        cluster_inv(cl) || single_server(cl),
        cl.servers.dom().contains(a),
        cl.servers.dom().contains(b),
        cl.servers[a].role is Leader,
        cl.servers[b].role is Leader,
        cl.servers[a].current_term == cl.servers[b].current_term,
    ensures
        a == b,
{
    if single_server(cl) {
        lemma_single_server_same(cl, a, b);
    } else {
        let ids = cl.servers.dom();
        let t = cl.servers[a].current_term;
        let qa = choose|q: Set<ServerId>|
            {
                &&& q.subset_of(ids)
                &&& q.len() >= quorum_of((ids.len() - 1) as nat)
                &&& forall|v: ServerId| #[trigger] q.contains(v) ==> voted(cl.sent, v, t, a)
            };
        let qb = choose|q: Set<ServerId>|
            {
                &&& q.subset_of(ids)
                &&& q.len() >= quorum_of((ids.len() - 1) as nat)
                &&& forall|v: ServerId| #[trigger] q.contains(v) ==> voted(cl.sent, v, t, b)
            };
        lemma_quorums_intersect(ids, qa, qb);
        let x = choose|x: ServerId| qa.contains(x) && qb.contains(x);
        assert(voted(cl.sent, x, t, a) && voted(cl.sent, x, t, b));
    }
}

} // verus!
