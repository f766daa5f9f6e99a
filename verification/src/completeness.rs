use vstd::prelude::*;

use crate::log::{last_idx_of, last_term_of, LogEntry, LogState, ServerId, Term};
use crate::laws::{
    keeps_history, lemma_client_request_keeps_history, lemma_receive_keeps_history, lemma_tick_keeps_history,
};
use crate::matching::{entries_step, extends, log_inv, matches_leaders, slice_of};
use crate::rpc::{SendableMessage, RPC};
use crate::rpc::{Target, VoteRequest};
use crate::safety::{
    after, answer_ok, campaign_msg, cluster_inv, grant_msg, is_initial, lemma_client_request_keeps_cluster_inv,
    lemma_client_votes, lemma_election_safety, lemma_receive_keeps_cluster_inv, lemma_receive_votes,
    lemma_tick_keeps_cluster_inv, lemma_tick_votes, request_ok, single_server, voted, votes_step, Cluster,
};
use crate::server::{fresh_followers, quorum_of, Role, ServerState};

verus! {

/// `log` holds the first `n` entries of `lead`
pub open spec fn holds<T>(log: Seq<LogEntry<T>>, lead: Seq<LogEntry<T>>, n: nat) -> bool {
    &&& n <= log.len()
    &&& n <= lead.len()
    &&& log.take(n as int) == lead.take(n as int)
}

/// `log` has an entry that differs from the entry of `p` at the same index
pub open spec fn diverges<T>(log: Seq<LogEntry<T>>, p: Seq<LogEntry<T>>) -> bool {
    exists|j: int| 0 <= j < log.len() && j < p.len() && log[j] != p[j]
}

/// The terms of `log` never go down, and none is 0
pub open spec fn sorted_terms<T>(log: Seq<LogEntry<T>>) -> bool {
    &&& forall|i: int, j: int| 0 <= i <= j < log.len() ==> log[i].term <= log[j].term
    &&& forall|i: int| 0 <= i < log.len() ==> (#[trigger] log[i]).term >= 1
}

/// A candidate whose log is `a` is at least as up to date as a voter whose log is `b`
pub open spec fn up_to_date<T>(a: Seq<LogEntry<T>>, b: Seq<LogEntry<T>>) -> bool {
    ||| last_term_of(a) > last_term_of(b)
    ||| last_term_of(a) == last_term_of(b) && last_idx_of(a) >= last_idx_of(b)
}

/// `m` is the answer of `z` that it holds, in term `t`, at least the first
/// `n` entries of the leader's log
pub open spec fn ack_msg<T>(m: SendableMessage<T>, z: ServerId, t: Term, n: nat) -> bool {
    m.1 matches RPC::AppendResponse(r) && r.ok && r.term == t && r.follower_id == z && r.ack_idx >= n
}

/// `z` held, in term `t`, the first `n` entries of the leader log of `t`:
/// as that leader, or as a follower that said so
pub open spec fn acked<T>(cl: Cluster<T>, z: ServerId, t: Term, n: nat) -> bool {
    ||| cl.leader_of.contains_key(t) && cl.leader_of[t] == z && n <= cl.leader_logs[t].len()
    ||| exists|m: SendableMessage<T>| #[trigger] cl.sent.contains(m) && ack_msg(m, z, t, n)
}

/// The first `n` entries of the leader log of `t` are committed: a quorum
/// acknowledged them, and the last of them was written in term `t`
pub open spec fn committed<T>(cl: Cluster<T>, t: Term, n: nat) -> bool {
    let ids = cl.servers.dom();
    &&& cl.leader_logs.contains_key(t)
    &&& 0 < n <= cl.leader_logs[t].len()
    &&& cl.leader_logs[t][n - 1].term == t
    &&& exists|q: Set<ServerId>|
        {
            &&& q.subset_of(ids)
            &&& q.len() >= quorum_of((ids.len() - 1) as nat)
            &&& forall|z: ServerId| #[trigger] q.contains(z) ==> acked(cl, z, t, n)
        }
}

/// The ballot of `v` for term `u` holds every prefix of a leader log that
/// `v` acknowledged in an earlier term, unless the leader log of a term in
/// between diverges from that prefix
pub open spec fn keeps_before<T>(cl: Cluster<T>, v: ServerId, u: Term) -> bool {
    &&& cl.ballots.contains_key((v, u))
    &&& forall|t: Term, n: nat|
        #[trigger] acked(cl, v, t, n) && t < u && n > 0 ==> holds(cl.ballots[(v, u)], cl.leader_logs[t], n)
            || exists|w: Term|
            cl.leader_logs.contains_key(w) && t < w < u && #[trigger] diverges(
                cl.leader_logs[w],
                cl.leader_logs[t].take(n as int),
            )
}

/// The leader log of term `u` was started from the ballot of its leader,
/// made of entries of earlier terms; and a quorum voted for that leader,
/// each keeping, when it voted, what it had acknowledged before
pub open spec fn leader_log_ok<T>(cl: Cluster<T>, u: Term) -> bool {
    let c = cl.leader_of[u];
    let ids = cl.servers.dom();
    &&& cl.leader_of.contains_key(u)
    &&& cl.ballots.contains_key((c, u))
    &&& holds(cl.leader_logs[u], cl.ballots[(c, u)], cl.ballots[(c, u)].len())
    &&& forall|i: int| 0 <= i < cl.ballots[(c, u)].len() ==> (#[trigger] cl.ballots[(c, u)][i]).term < u
    &&& exists|q: Set<ServerId>|
        {
            &&& q.subset_of(ids)
            &&& q.len() >= quorum_of((ids.len() - 1) as nat)
            &&& forall|v: ServerId| #[trigger] q.contains(v) ==> voted(cl.sent, v, u, c) && keeps_before(cl, v, u)
        }
}

/// Every ballot is a log whose terms never go down and that agrees with
/// the leader logs
pub open spec fn ballots_ok<T>(cl: Cluster<T>) -> bool {
    forall|b: (ServerId, Term)| #[trigger]
        cl.ballots.contains_key(b) ==> sorted_terms(cl.ballots[b]) && matches_leaders(cl.leader_logs, cl.ballots[b])
}

/// Every vote was cast by a server with a ballot for a candidate with a
/// ballot at least as up to date
pub open spec fn grants_ok<T>(cl: Cluster<T>) -> bool {
    forall|v: ServerId, u: Term, c: ServerId| #[trigger]
        voted(cl.sent, v, u, c) ==> {
            &&& cl.ballots.contains_key((v, u))
            &&& cl.ballots.contains_key((c, u))
            &&& up_to_date(cl.ballots[(c, u)], cl.ballots[(v, u)])
        }
}

/// What the elections of a cluster keep: every leader log is as
/// `leader_log_ok` says and its terms never go down; every ballot is as
/// `ballots_ok` says; every vote as `grants_ok` says
pub open spec fn election_inv<T>(cl: Cluster<T>) -> bool {
    &&& forall|u: Term| #[trigger]
        cl.leader_logs.contains_key(u) ==> leader_log_ok(cl, u) && sorted_terms(cl.leader_logs[u])
    &&& ballots_ok(cl)
    &&& grants_ok(cl)
}

/// A log that holds a prefix of a leader log agrees with that prefix
proof fn lemma_holds_not_diverges<T>(log: Seq<LogEntry<T>>, lead: Seq<LogEntry<T>>, n: nat)
    requires
        holds(log, lead, n),
    ensures
        !diverges(log, lead.take(n as int)),
{
    assert forall|j: int| 0 <= j < log.len() && j < lead.take(n as int).len() implies log[j] == lead.take(
        n as int,
    )[j] by {
        assert(log[j] == log.take(n as int)[j]);
    }
}

/// A log that agrees with the leader logs is a prefix of the leader log of
/// the term of its last entry
proof fn lemma_last_leader_log<T>(tl: Map<Term, Seq<LogEntry<T>>>, log: Seq<LogEntry<T>>)
    requires
        matches_leaders(tl, log),
        log.len() > 0,
    ensures
        tl.contains_key(last_term_of(log)),
        holds(tl[last_term_of(log)], log, log.len()),
{
    let i = log.len() - 1;
    assert(log[i] == log.last());
    assert(log.take(i + 1) =~= log);
}

/// A log that agrees with the leader logs, of terms below `w`, and at least
/// as up to date as a log holding the committed prefix `tl[t].take(n)`,
/// holds that prefix too, when the leader logs of the terms from `t` to `w`
/// hold it
proof fn lemma_up_to_date_holds<T>(
    tl: Map<Term, Seq<LogEntry<T>>>,
    bc: Seq<LogEntry<T>>,
    bx: Seq<LogEntry<T>>,
    t: Term,
    n: nat,
    w: Term,
)
    requires
        matches_leaders(tl, bc),
        sorted_terms(bc),
        forall|i: int| 0 <= i < bc.len() ==> (#[trigger] bc[i]).term < w,
        sorted_terms(bx),
        tl.contains_key(t),
        sorted_terms(tl[t]),
        0 < n,
        holds(bx, tl[t], n),
        tl[t][n - 1].term == t,
        up_to_date(bc, bx),
        forall|w2: Term| #[trigger] tl.contains_key(w2) && t < w2 < w ==> holds(tl[w2], tl[t], n),
    ensures
        holds(bc, tl[t], n),
{
    let p = tl[t].take(n as int);
    assert(bx[n - 1] == bx.take(n as int)[n - 1]);
    assert(bx[bx.len() - 1] == bx.last());
    assert(last_term_of(bx) >= t);
    assert(bc.len() > 0);
    let t2 = last_term_of(bc);
    assert(bc[bc.len() - 1] == bc.last());
    lemma_last_leader_log(tl, bc);
    let lead = tl[t2];
    if t2 == t {
        assert(bc.take(n as int) =~= lead.take(bc.len() as int).take(n as int));
    } else {
        assert(t < t2 < w);
        assert(holds(lead, tl[t], n));
        if bc.len() < n {
            let j = bc.len() - 1;
            assert(bc[j] == lead.take(bc.len() as int)[j]);
            assert(lead[j] == lead.take(n as int)[j]);
            assert(tl[t][j] == tl[t].take(n as int)[j]);
            assert(false);
        }
        assert(bc.take(n as int) =~= lead.take(bc.len() as int).take(n as int));
        assert(lead.take(n as int) == tl[t].take(n as int));
    }
}

/// Leader completeness: the leader log of every term after the term of a
/// committed prefix holds that prefix.
pub proof fn lemma_leader_completeness<T>(cl: Cluster<T>, t: Term, n: nat, w: Term)
    requires
        cluster_inv(cl),
        log_inv(cl),
        election_inv(cl),
        committed(cl, t, n),
        cl.leader_logs.contains_key(w),
        t < w,
    ensures
        holds(cl.leader_logs[w], cl.leader_logs[t], n),
    decreases w,
{
    let tl = cl.leader_logs;
    let ids = cl.servers.dom();
    let c = cl.leader_of[w];
    assert forall|w2: Term| #[trigger] tl.contains_key(w2) && t < w2 < w implies holds(tl[w2], tl[t], n) by {
        lemma_leader_completeness(cl, t, n, w2);
    }
    let q = choose|q: Set<ServerId>|
        {
            &&& q.subset_of(ids)
            &&& q.len() >= quorum_of((ids.len() - 1) as nat)
            &&& forall|v: ServerId| #[trigger] q.contains(v) ==> voted(cl.sent, v, w, c) && keeps_before(cl, v, w)
        };
    let qt = choose|q: Set<ServerId>|
        {
            &&& q.subset_of(ids)
            &&& q.len() >= quorum_of((ids.len() - 1) as nat)
            &&& forall|z: ServerId| #[trigger] q.contains(z) ==> acked(cl, z, t, n)
        };
    crate::laws::lemma_quorums_intersect(ids, q, qt);
    let x = choose|x: ServerId| q.contains(x) && qt.contains(x);
    assert(voted(cl.sent, x, w, c) && keeps_before(cl, x, w));
    assert(acked(cl, x, t, n));
    let bx = cl.ballots[(x, w)];
    let bc = cl.ballots[(c, w)];
    assert(acked(cl, x, t, n) && t < w && n > 0);
    assert(holds(bx, tl[t], n) || exists|w2: Term|
        tl.contains_key(w2) && t < w2 < w && #[trigger] diverges(tl[w2], tl[t].take(n as int)));
    if !holds(bx, tl[t], n) {
        let w2 = choose|w2: Term|
            tl.contains_key(w2) && t < w2 < w && #[trigger] diverges(tl[w2], tl[t].take(n as int));
        lemma_holds_not_diverges(tl[w2], tl[t], n);
    }
    assert(up_to_date(bc, bx));
    assert(holds(tl[w], bc, bc.len()));
    lemma_up_to_date_holds(tl, bc, bx, t, n, w);
    assert(bc.take(bc.len() as int) =~= bc);
    assert(tl[w].take(bc.len() as int) == bc);
    assert(tl[w].take(n as int) =~= tl[w].take(bc.len() as int).take(n as int));
    assert(tl[w].take(n as int) == bc.take(n as int));
}

/// Whether a VoteRequest names a log at least as up to date as `log`
pub open spec fn request_up_to_date<T>(req: VoteRequest, log: Seq<LogEntry<T>>) -> bool {
    ||| req.candidate_last_log_term > last_term_of(log)
    ||| req.candidate_last_log_term == last_term_of(log) && req.candidate_last_log_idx >= last_idx_of(log)
}

/// What the servers of a cluster keep about votes and leaders: a ballot is
/// cast by a server of the cluster in a term it reached, and it holds a vote
/// while in that term; every vote a server holds was cast by a message; a
/// VoteRequest names the last entry of its candidate's ballot; a candidate's
/// log is its ballot; the leader of a term is a server of the cluster that
/// reached it, and a leader is the leader of its term; the terms of a log
/// never go down nor pass its server's term, or the term of a leader log.
pub open spec fn vote_support<T>(cl: Cluster<T>) -> bool {
    let ids = cl.servers.dom();
    let tl = cl.leader_logs;
    &&& forall|b: (ServerId, Term)| #[trigger]
        cl.ballots.contains_key(b) ==> {
            &&& ids.contains(b.0)
            &&& cl.servers[b.0].current_term >= b.1
            &&& cl.servers[b.0].current_term == b.1 ==> cl.servers[b.0].voted_for is Some
        }
    &&& forall|z: ServerId| #[trigger]
        ids.contains(z) && cl.servers[z].voted_for is Some ==> voted(
            cl.sent,
            z,
            cl.servers[z].current_term,
            cl.servers[z].voted_for->Some_0,
        )
    &&& forall|m: SendableMessage<T>| #[trigger]
        cl.sent.contains(m) ==> (m.1 matches RPC::VoteRequest(r) ==> {
            &&& cl.ballots.contains_key((r.candidate_id, r.candidate_term))
            &&& r.candidate_last_log_idx == last_idx_of(cl.ballots[(r.candidate_id, r.candidate_term)])
            &&& r.candidate_last_log_term == last_term_of(cl.ballots[(r.candidate_id, r.candidate_term)])
        })
    &&& forall|z: ServerId| #[trigger]
        ids.contains(z) && cl.servers[z].role is Candidate ==> {
            &&& cl.ballots.contains_key((z, cl.servers[z].current_term))
            &&& cl.ballots[(z, cl.servers[z].current_term)] == cl.servers[z].log.entries
        }
    &&& cl.leader_of.dom() == tl.dom()
    &&& forall|u: Term| #[trigger]
        cl.leader_of.contains_key(u) ==> ids.contains(cl.leader_of[u]) && cl.servers[cl.leader_of[u]].current_term >= u
    &&& forall|z: ServerId| #[trigger]
        ids.contains(z) && cl.servers[z].role is Leader ==> {
            &&& cl.leader_of.contains_key(cl.servers[z].current_term)
            &&& cl.leader_of[cl.servers[z].current_term] == z
        }
    &&& forall|z: ServerId| #[trigger]
        ids.contains(z) ==> {
            &&& cl.servers[z].log.entries.len() <= usize::MAX
            &&& sorted_terms(cl.servers[z].log.entries)
            &&& forall|i: int|
                0 <= i < cl.servers[z].log.entries.len() ==> (#[trigger] cl.servers[z].log.entries[i]).term
                    <= cl.servers[z].current_term
        }
    &&& forall|u: Term| #[trigger]
        tl.contains_key(u) ==> {
            &&& sorted_terms(tl[u])
            &&& forall|i: int| 0 <= i < tl[u].len() ==> (#[trigger] tl[u][i]).term <= u
        }
    &&& forall|z: ServerId| #[trigger]
        ids.contains(z) && !(cl.servers[z].role is Follower) ==> cl.servers[z].current_term >= 1
}

/// What the servers of a cluster keep about what they acknowledged: an
/// acknowledgement is of a server of the cluster that reached its term, and
/// of a prefix of that term's leader log; a server still holds it, unless
/// the leader log of a later term it reached diverges from it; and a ballot
/// cast before its term had a leader keeps what its server acknowledged
pub open spec fn ack_support<T>(cl: Cluster<T>) -> bool {
    let ids = cl.servers.dom();
    let tl = cl.leader_logs;
    &&& forall|z: ServerId, t: Term, n: nat| #[trigger]
        acked(cl, z, t, n) ==> {
            &&& ids.contains(z)
            &&& tl.contains_key(t)
            &&& n <= tl[t].len()
            &&& cl.servers[z].current_term >= t
        }
    &&& forall|z: ServerId, t: Term, n: nat| #[trigger]
        acked(cl, z, t, n) && n > 0 ==> holds(cl.servers[z].log.entries, tl[t], n) || exists|w: Term|
            tl.contains_key(w) && t < w <= cl.servers[z].current_term && #[trigger] diverges(
                tl[w],
                tl[t].take(n as int),
            )
    &&& forall|b: (ServerId, Term)| #[trigger]
        cl.ballots.contains_key(b) && !tl.contains_key(b.1) ==> keeps_before(cl, b.0, b.1)
}

/// How a step casts votes: a server takes a vote of its term only by
/// granting it or running for election, and its log stays as it was; it
/// grants a vote only for the candidate of a VoteRequest of its term that it
/// received, whose log is at least as up to date as its own unless it voted
/// for that candidate already; a VoteRequest names the last entry of the log
/// of the server that sends it
pub open spec fn ballots_step<T>(pre: ServerState<T>, post: ServerState<T>, out: Seq<SendableMessage<T>>, received: Option<RPC<T>>) -> bool {
    &&& (post.voted_for is Some && !(pre.current_term == post.current_term && pre.voted_for is Some)) ==> {
        &&& post.log.entries == pre.log.entries
        &&& exists|i: int|
            #![trigger out[i]]
            0 <= i < out.len() && {
                ||| out[i] == grant_msg::<T>(post.current_term, pre.id, post.voted_for->Some_0)
                ||| campaign_msg(out[i], post.current_term, pre.id) && post.voted_for == Some(pre.id)
            }
    }
    &&& forall|i: int|
        0 <= i < out.len() ==> ((#[trigger] out[i]).1 matches RPC::VoteRequest(r) ==> {
            &&& r.candidate_last_log_idx == last_idx_of(post.log.entries)
            &&& r.candidate_last_log_term == last_term_of(post.log.entries)
        })
    &&& forall|i: int|
        0 <= i < out.len() ==> ((#[trigger] out[i]).1 matches RPC::VoteResponse(r) && r.vote_granted ==> {
            &&& received matches Some(RPC::VoteRequest(req)) && {
                &&& out[i].0 == Target::Single(req.candidate_id)
                &&& req.candidate_term == post.current_term
                &&& (pre.current_term == post.current_term && pre.voted_for == post.voted_for)
                    || request_up_to_date(req, post.log.entries)
            }
            &&& post.log.entries == pre.log.entries
        })
}

/// A follower that went from `pre` to `post` on `received` may say `a`:
/// it took in the entries of an AppendRequest of its term, and `a` names
/// their end
pub open spec fn ack_ok<T>(pre: ServerState<T>, post: ServerState<T>, a: crate::rpc::AppendResponse, received: Option<RPC<T>>) -> bool {
    received matches Some(RPC::AppendRequest(r)) && {
        &&& a.term == r.leader_term
        &&& a.term == post.current_term
        &&& a.follower_id == pre.id
        &&& a.ack_idx == r.leader_last_log_idx + r.entries@.len()
        &&& r.leader_last_log_idx <= pre.log.entries.len()
        &&& r.leader_last_log_idx > 0 ==> pre.log.entries[r.leader_last_log_idx - 1].term == r.leader_last_log_term
        &&& post.log.entries == crate::log::merge_entries(pre.log.entries, r.leader_last_log_idx as nat, r.entries@)
    }
}

/// How a step acknowledges entries: a follower says it holds entries only
/// right after taking in those of an AppendRequest of its term
pub open spec fn acks_step<T>(pre: ServerState<T>, post: ServerState<T>, out: Seq<SendableMessage<T>>, received: Option<RPC<T>>) -> bool {
    forall|i: int|
        0 <= i < out.len() ==> ((#[trigger] out[i]).1 matches RPC::AppendResponse(a) ==> (a.ok ==> ack_ok(
            pre,
            post,
            a,
            received,
        )))
}

/// What a tick does to votes and acknowledgements
proof fn lemma_tick_ballots<T>(pre: ServerState<T>, post: ServerState<T>, out: Seq<SendableMessage<T>>)
    requires
        pre.wf(),
        post.wf(),
        pre.quorum() >= 2,
        pre.log.entries.len() <= usize::MAX,
        pre.tick_step(post, out),
    ensures
        ballots_step(pre, post, out, None),
        acks_step(pre, post, out, None),
{
    if pre.role is Leader {
        if pre.role->heartbeat_timeout <= 1 {
            crate::safety::lemma_replicate_no_votes(post, out);
        }
    } else if pre.election_due() {
        assert(campaign_msg(out[0], post.current_term, pre.id));
    }
}

/// What handling a client request does to votes and acknowledgements: nothing
proof fn lemma_client_ballots<T>(pre: ServerState<T>, post: ServerState<T>, msg: T, r: Result<(), crate::server::RaftError>)
    requires
        pre.client_request_step(post, msg, r),
    ensures
        ballots_step(pre, post, seq![], None),
        acks_step(pre, post, seq![], None),
{
}

/// What handling a message does to votes and acknowledgements
proof fn lemma_receive_ballots<T>(pre: ServerState<T>, post: ServerState<T>, rpc: RPC<T>, out: Seq<SendableMessage<T>>)
    requires
        pre.wf(),
        post.wf(),
        pre.receive_step(post, rpc, out),
    ensures
        ballots_step(pre, post, out, Some(rpc)),
        acks_step(pre, post, out, Some(rpc)),
{
    match rpc {
        RPC::VoteRequest(req) => {
            let mid = choose|mid: ServerState<T>|
                #[trigger] pre.observe_term(mid, req.candidate_term) && mid.answer_vote(post, req, out);
            if crate::server::grants_vote(mid, req) {
                assert(out[0] == grant_msg::<T>(post.current_term, pre.id, req.candidate_id));
            }
        },
        RPC::VoteResponse(res) => {
            let mid = choose|mid: ServerState<T>|
                #[trigger] pre.observe_term(mid, res.term) && mid.count_vote(post, res, out);
            if mid.role is Candidate && res.term == mid.current_term && res.vote_granted
                && mid.role->votes.insert(res.votee_id).len() >= mid.quorum() {
                crate::safety::lemma_replicate_no_votes(post, out);
            }
        },
        RPC::AppendRequest(req) => {
            let mid = choose|mid: ServerState<T>|
                #[trigger] pre.observe_term(mid, req.leader_term) && mid.handle_append(post, req, out);
            if !(mid.role is Follower) && req.leader_term == mid.current_term {
                let mid2 = choose|mid2: ServerState<T>|
                    #[trigger] mid.reset_to_follower(mid2, req.leader_term) && mid2.follower_append(post, req, out);
            }
        },
        RPC::AppendResponse(res) => {
            let mid = choose|mid: ServerState<T>|
                #[trigger] pre.observe_term(mid, res.term) && mid.handle_append_response(post, res, out);
        },
    }
}

/// Merging the slice of a leader log that an AppendRequest carries into a
/// log that holds the entry before it leaves the log as it was, or makes it
/// the prefix of the leader log that ends with the slice; the latter only
/// when the slice reaches past the log's end or conflicts with its last
/// overlapping entry
proof fn lemma_merge_shape<T>(tl: Map<Term, Seq<LogEntry<T>>>, ours: Seq<LogEntry<T>>, lead: Seq<LogEntry<T>>, r: crate::rpc::AppendRequest<T>)
    requires
        matches_leaders(tl, ours),
        matches_leaders(tl, lead),
        crate::matching::slice_of(lead, r),
        r.leader_last_log_idx <= ours.len(),
        r.leader_last_log_idx > 0 ==> ours[r.leader_last_log_idx - 1].term == r.leader_last_log_term,
    ensures
        ({
            let p = r.leader_last_log_idx as int;
            let m = p + r.entries@.len();
            let merged = crate::log::merge_entries(ours, p as nat, r.entries@);
            ||| merged == ours && m <= ours.len() && holds(ours, lead, m as nat)
            ||| merged == lead.take(m) && (m > ours.len() || exists|j: int|
                #![trigger ours[j]]
                m - r.entries@.len() <= j < m && j < ours.len() && ours[j].term != lead[j].term)
        }),
{
    let p = r.leader_last_log_idx as int;
    let theirs = r.entries@;
    let n = theirs.len() as int;
    let m = p + n;
    let merged = crate::log::merge_entries(ours, p as nat, theirs);
    if p > 0 {
        crate::matching::lemma_agree(tl, ours, lead, p - 1);
    }
    assert(ours.take(p) =~= lead.take(p));
    if crate::log::conflicts(ours, p as nat, theirs) {
        assert(merged =~= lead.take(m));
        let last = if ours.len() < m { ours.len() as int } else { m } - 1;
        assert(theirs[last - p] == lead[last]);
        if m <= ours.len() {
            assert(ours[last].term != lead[last].term);
        }
    } else if m > ours.len() {
        if ours.len() > p {
            let last = ours.len() - 1;
            assert(theirs[last - p] == lead[last]);
            crate::matching::lemma_agree(tl, ours, lead, last);
            assert(ours =~= ours.take(last + 1));
        }
        assert(merged =~= lead.take(m));
    } else {
        if n > 0 {
            assert(theirs[m - 1 - p] == lead[m - 1]);
            crate::matching::lemma_agree(tl, ours, lead, m - 1);
        }
    }
}

/// `received`, if any, is a message that was sent
pub open spec fn received_from<T>(sent: Set<SendableMessage<T>>, received: Option<RPC<T>>) -> bool {
    received matches Some(rpc) ==> exists|m: SendableMessage<T>| #[trigger] sent.contains(m) && m.1 == rpc
}

/// The log a step leaves a server with: as it was, grown by one entry of
/// a leader's term, or a prefix of a leader log of the server's new term
proof fn lemma_step_log_shape<T>(cl: Cluster<T>, k: ServerId, post_k: ServerState<T>, received: Option<RPC<T>>)
    requires
        log_inv(cl),
        cl.servers.dom().contains(k),
        entries_step(cl.servers[k], post_k, received),
        received_from(cl.sent, received),
    ensures
        ({
            let pre_k = cl.servers[k];
            ||| post_k.log.entries == pre_k.log.entries
            ||| {
                &&& pre_k.role is Leader
                &&& post_k.role is Leader
                &&& post_k.current_term == pre_k.current_term
                &&& post_k.log.entries.len() == pre_k.log.entries.len() + 1
                &&& post_k.log.entries.take(pre_k.log.entries.len() as int) == pre_k.log.entries
                &&& post_k.log.entries.last().term == pre_k.current_term
            }
            ||| received matches Some(RPC::AppendRequest(r)) && {
                let lead = cl.leader_logs[r.leader_term];
                let m = r.leader_last_log_idx + r.entries@.len();
                &&& post_k.role is Follower
                &&& post_k.current_term == r.leader_term
                &&& cl.leader_logs.contains_key(r.leader_term)
                &&& slice_of(lead, r)
                &&& r.leader_last_log_idx <= pre_k.log.entries.len()
                &&& r.leader_last_log_idx > 0 ==> pre_k.log.entries[r.leader_last_log_idx - 1].term
                    == r.leader_last_log_term
                &&& post_k.log.entries == crate::log::merge_entries(
                    pre_k.log.entries,
                    r.leader_last_log_idx as nat,
                    r.entries@,
                )
                &&& {
                    ||| post_k.log.entries == pre_k.log.entries && m <= pre_k.log.entries.len() && holds(
                        pre_k.log.entries,
                        lead,
                        m as nat,
                    )
                    ||| post_k.log.entries == lead.take(m) && (m > pre_k.log.entries.len() || exists|j: int|
                        #![trigger pre_k.log.entries[j]]
                        m - r.entries@.len() <= j < m && j < pre_k.log.entries.len()
                            && pre_k.log.entries[j].term != lead[j].term)
                }
            }
        }),
{
    let pre_k = cl.servers[k];
    if post_k.log.entries != pre_k.log.entries && !(pre_k.role is Leader && post_k.role is Leader) {
        if let Some(RPC::AppendRequest(r)) = received {
            let msg = choose|msg: SendableMessage<T>| #[trigger] cl.sent.contains(msg) && msg.1 == received->Some_0;
            assert(cl.sent.contains(msg));
            lemma_merge_shape(cl.leader_logs, pre_k.log.entries, cl.leader_logs[r.leader_term], r);
        }
    }
}

/// A ballot once cast stays as it was, and a step casts at most the ballot
/// of the server that steps, for its new term
proof fn lemma_ballots_grow<T>(cl: Cluster<T>, k: ServerId, post_k: ServerState<T>, out: Seq<SendableMessage<T>>)
    requires
        vote_support(cl),
        cl.servers.dom().contains(k),
        keeps_history(cl.servers[k], post_k),
    ensures
        forall|b: (ServerId, Term)| #[trigger]
            cl.ballots.contains_key(b) ==> after(cl, k, post_k, out).ballots.contains_key(b) && after(
                cl,
                k,
                post_k,
                out,
            ).ballots[b] == cl.ballots[b],
        forall|b: (ServerId, Term)| #[trigger]
            after(cl, k, post_k, out).ballots.contains_key(b) && !cl.ballots.contains_key(b) ==> {
                &&& b == (k, post_k.current_term)
                &&& post_k.voted_for is Some
                &&& !(cl.servers[k].current_term == post_k.current_term && cl.servers[k].voted_for is Some)
                &&& after(cl, k, post_k, out).ballots[b] == post_k.log.entries
            },
{
    let pre_k = cl.servers[k];
    if post_k.voted_for is Some && !(pre_k.current_term == post_k.current_term && pre_k.voted_for is Some) {
        if cl.ballots.contains_key((k, post_k.current_term)) {
            assert(pre_k.current_term >= post_k.current_term);
        }
    }
}

/// A step of one server keeps what the cluster keeps about votes and
/// leaders
proof fn lemma_step_keeps_vote_support<T>(
    cl: Cluster<T>,
    k: ServerId,
    post_k: ServerState<T>,
    out: Seq<SendableMessage<T>>,
    received: Option<RPC<T>>,
)
    requires
        cluster_inv(cl),
        log_inv(cl),
        vote_support(cl),
        cluster_inv(after(cl, k, post_k, out)),
        cl.servers.dom().contains(k),
        post_k.wf(),
        post_k.log.entries.len() <= usize::MAX,
        keeps_history(cl.servers[k], post_k),
        votes_step(cl.servers[k], post_k, out, received),
        entries_step(cl.servers[k], post_k, received),
        ballots_step(cl.servers[k], post_k, out, received),
        received_from(cl.sent, received),
    ensures
        vote_support(after(cl, k, post_k, out)),
{
    let pre_k = cl.servers[k];
    let post = after(cl, k, post_k, out);
    let ids = cl.servers.dom();
    let tl = cl.leader_logs;
    let tl2 = post.leader_logs;
    let t = post_k.current_term;
    let new_vote = post_k.voted_for is Some && !(pre_k.current_term == t && pre_k.voted_for is Some);
    assert(post.servers.dom() =~= ids);
    assert(cl.sent.subset_of(post.sent));
    lemma_ballots_grow(cl, k, post_k, out);
    lemma_step_log_shape(cl, k, post_k, received);
    assert forall|v: ServerId, u: Term, c: ServerId| #[trigger]
        voted(cl.sent, v, u, c) implies voted(post.sent, v, u, c) by {
        if !cl.sent.contains(grant_msg(u, v, c)) {
            let m = choose|m: SendableMessage<T>| #[trigger] cl.sent.contains(m) && campaign_msg(m, u, c);
            assert(post.sent.contains(m));
        }
    }
    // the log of the stepping server
    assert({
        &&& sorted_terms(post_k.log.entries)
        &&& forall|i: int| 0 <= i < post_k.log.entries.len() ==> (#[trigger] post_k.log.entries[i]).term <= t
    }) by {
        let pre_log = pre_k.log.entries;
        let log = post_k.log.entries;
        if log == pre_log {
        } else if pre_k.role is Leader && post_k.role is Leader {
            assert forall|i: int| 0 <= i < log.len() implies (#[trigger] log[i]).term <= t && log[i].term >= 1 by {
                if i < pre_log.len() {
                    assert(log[i] == log.take(pre_log.len() as int)[i]);
                }
            }
            assert forall|i: int, j: int| 0 <= i <= j < log.len() implies log[i].term <= log[j].term by {
                if j < pre_log.len() {
                    assert(log[i] == log.take(pre_log.len() as int)[i]);
                    assert(log[j] == log.take(pre_log.len() as int)[j]);
                } else if i < pre_log.len() {
                    assert(log[i] == log.take(pre_log.len() as int)[i]);
                }
            }
        } else {
            let r = received->Some_0->AppendRequest_0;
            let lead = tl[r.leader_term];
            assert(sorted_terms(lead));
        }
    }
    assert forall|b: (ServerId, Term)| #[trigger] post.ballots.contains_key(b) implies {
        &&& ids.contains(b.0)
        &&& post.servers[b.0].current_term >= b.1
        &&& post.servers[b.0].current_term == b.1 ==> post.servers[b.0].voted_for is Some
    } by {
        if cl.ballots.contains_key(b) && b.0 == k {
            assert(pre_k.current_term >= b.1);
        }
    }
    assert forall|z: ServerId| #[trigger]
        ids.contains(z) && post.servers[z].voted_for is Some implies voted(
        post.sent,
        z,
        post.servers[z].current_term,
        post.servers[z].voted_for->Some_0,
    ) by {
        if z == k {
            if new_vote {
                let i = choose|i: int|
                    #![trigger out[i]]
                    0 <= i < out.len() && {
                        ||| out[i] == grant_msg::<T>(t, pre_k.id, post_k.voted_for->Some_0)
                        ||| campaign_msg(out[i], t, pre_k.id) && post_k.voted_for == Some(pre_k.id)
                    };
                assert(post.sent.contains(out[i]));
            } else {
                assert(voted(cl.sent, k, pre_k.current_term, pre_k.voted_for->Some_0));
            }
        } else {
            assert(voted(cl.sent, z, cl.servers[z].current_term, cl.servers[z].voted_for->Some_0));
        }
    }
    assert forall|m: SendableMessage<T>| #[trigger] post.sent.contains(m) implies (m.1 matches RPC::VoteRequest(r) ==> {
        &&& post.ballots.contains_key((r.candidate_id, r.candidate_term))
        &&& r.candidate_last_log_idx == last_idx_of(post.ballots[(r.candidate_id, r.candidate_term)])
        &&& r.candidate_last_log_term == last_term_of(post.ballots[(r.candidate_id, r.candidate_term)])
    }) by {
        if !cl.sent.contains(m) && m.1 is VoteRequest {
            let i = choose|i: int| 0 <= i < out.len() && out[i] == m;
            assert(request_ok(pre_k, post_k, out[i]));
            assert(new_vote);
        }
    }
    assert forall|z: ServerId| #[trigger] ids.contains(z) && post.servers[z].role is Candidate implies {
        &&& post.ballots.contains_key((z, post.servers[z].current_term))
        &&& post.ballots[(z, post.servers[z].current_term)] == post.servers[z].log.entries
    } by {
        if z == k {
            if pre_k.role is Candidate && t == pre_k.current_term {
                assert(post_k.log.entries == pre_k.log.entries);
            } else {
                let i = choose|i: int|
                    0 <= i < out.len() && campaign_msg(#[trigger] out[i], post_k.current_term, pre_k.id);
                assert(request_ok(pre_k, post_k, out[i]));
                assert(new_vote);
            }
        }
    }
    assert(post.leader_of.dom() =~= tl2.dom());
    assert forall|z: ServerId| #[trigger] ids.contains(z) && post.servers[z].role is Leader implies {
        &&& post.leader_of.contains_key(post.servers[z].current_term)
        &&& post.leader_of[post.servers[z].current_term] == z
    } by {
        if z != k && post_k.role is Leader && cl.servers[z].current_term == t {
            lemma_election_safety(post, z, k);
        }
    }
    assert forall|u: Term| #[trigger] tl2.contains_key(u) implies {
        &&& sorted_terms(tl2[u])
        &&& forall|i: int| 0 <= i < tl2[u].len() ==> (#[trigger] tl2[u][i]).term <= u
    } by {
        if !(post_k.role is Leader && u == t) {
            assert(tl2[u] == tl[u]);
        }
    }
}

/// A log holding a prefix of a leader log holds it of the grown leader log
proof fn lemma_holds_grown<T>(log: Seq<LogEntry<T>>, a: Seq<LogEntry<T>>, a2: Seq<LogEntry<T>>, n: nat)
    requires
        holds(log, a, n),
        a.len() <= a2.len(),
        a2.take(a.len() as int) == a,
    ensures
        holds(log, a2, n),
        a2.take(n as int) == a.take(n as int),
{
    assert(a2.take(n as int) =~= a2.take(a.len() as int).take(n as int));
}

/// A leader log that diverges from a prefix still does once grown
proof fn lemma_diverges_grown<T>(a: Seq<LogEntry<T>>, a2: Seq<LogEntry<T>>, p: Seq<LogEntry<T>>)
    requires
        diverges(a, p),
        a.len() <= a2.len(),
        a2.take(a.len() as int) == a,
    ensures
        diverges(a2, p),
{
    let j = choose|j: int| 0 <= j < a.len() && j < p.len() && a[j] != p[j];
    assert(a2[j] == a2.take(a.len() as int)[j]);
}

/// A log holding the first `n` entries of a leader log still holds them
/// after merging an AppendRequest whose leader log does not diverge from them
proof fn lemma_merge_keeps_prefix<T>(
    tl: Map<Term, Seq<LogEntry<T>>>,
    ours: Seq<LogEntry<T>>,
    lead: Seq<LogEntry<T>>,
    r: crate::rpc::AppendRequest<T>,
    a: Seq<LogEntry<T>>,
    n: nat,
)
    requires
        matches_leaders(tl, ours),
        matches_leaders(tl, lead),
        slice_of(lead, r),
        r.leader_last_log_idx <= ours.len(),
        r.leader_last_log_idx > 0 ==> ours[r.leader_last_log_idx - 1].term == r.leader_last_log_term,
        holds(ours, a, n),
        !diverges(lead, a.take(n as int)),
    ensures
        holds(crate::log::merge_entries(ours, r.leader_last_log_idx as nat, r.entries@), a, n),
{
    let p = r.leader_last_log_idx as int;
    let m = p + r.entries@.len();
    let merged = crate::log::merge_entries(ours, p as nat, r.entries@);
    let pre = a.take(n as int);
    lemma_merge_shape(tl, ours, lead, r);
    if merged != ours {
        assert(merged == lead.take(m));
        if m <= ours.len() {
            let j = choose|j: int|
                #![trigger ours[j]]
                m - r.entries@.len() <= j < m && j < ours.len() && ours[j].term != lead[j].term;
            if j < n {
                assert(ours[j] == ours.take(n as int)[j]);
                assert(!(lead[j] != pre[j]));
            }
        }
        assert forall|j: int| 0 <= j < n implies lead[j] == pre[j] by {
            assert(!(lead[j] != pre[j]));
        }
        assert(merged.take(n as int) =~= pre);
    }
}

/// What a step acknowledges: an acknowledgement after the step is one from
/// before it, or one of the server that stepped, in its new term: as the
/// leader of that term, or as a follower that took in an AppendRequest
proof fn lemma_acked_step<T>(
    cl: Cluster<T>,
    k: ServerId,
    post_k: ServerState<T>,
    out: Seq<SendableMessage<T>>,
    received: Option<RPC<T>>,
    z: ServerId,
    t: Term,
    n: nat,
)
    requires
        acked(after(cl, k, post_k, out), z, t, n),
        acks_step(cl.servers[k], post_k, out, received),
        cl.servers[k].id == k,
    ensures
        acked(cl, z, t, n) || (z == k && t == post_k.current_term && post_k.role is Leader && n
            <= post_k.log.entries.len()) || (z == k && exists|a: crate::rpc::AppendResponse|
            #![trigger ack_ok(cl.servers[k], post_k, a, received)]
            a.ok && a.term == t && a.ack_idx >= n && ack_ok(cl.servers[k], post_k, a, received)),
{
    let post = after(cl, k, post_k, out);
    if post.leader_of.contains_key(t) && post.leader_of[t] == z && n <= post.leader_logs[t].len() {
        if !(post_k.role is Leader && t == post_k.current_term) {
            assert(acked(cl, z, t, n));
        }
    } else {
        let m = choose|m: SendableMessage<T>| #[trigger] post.sent.contains(m) && ack_msg(m, z, t, n);
        if cl.sent.contains(m) {
            assert(acked(cl, z, t, n));
        } else {
            let i = choose|i: int| 0 <= i < out.len() && out[i] == m;
            let a = m.1->AppendResponse_0;
            assert(out[i].1 matches RPC::AppendResponse(a) ==> (a.ok ==> ack_ok(cl.servers[k], post_k, a, received)));
            assert(ack_ok(cl.servers[k], post_k, a, received));
        }
    }
}

/// What a step of one server acknowledges anew: only the server itself, in
/// its new term, a prefix of that term's leader log that it holds
proof fn lemma_new_acks_held<T>(
    cl: Cluster<T>,
    k: ServerId,
    post_k: ServerState<T>,
    out: Seq<SendableMessage<T>>,
    received: Option<RPC<T>>,
)
    requires
        cluster_inv(cl),
        log_inv(cl),
        vote_support(cl),
        ack_support(cl),
        log_inv(after(cl, k, post_k, out)),
        vote_support(after(cl, k, post_k, out)),
        extends(cl.leader_logs, after(cl, k, post_k, out).leader_logs),
        cl.servers.dom().contains(k),
        keeps_history(cl.servers[k], post_k),
        entries_step(cl.servers[k], post_k, received),
        acks_step(cl.servers[k], post_k, out, received),
        received_from(cl.sent, received),
    ensures
        forall|z: ServerId, t: Term, n: nat|
            #[trigger] acked(after(cl, k, post_k, out), z, t, n) && !acked(cl, z, t, n) ==> {
                &&& z == k
                &&& t == post_k.current_term
                &&& after(cl, k, post_k, out).leader_logs.contains_key(t)
                &&& n <= after(cl, k, post_k, out).leader_logs[t].len()
                &&& holds(post_k.log.entries, after(cl, k, post_k, out).leader_logs[t], n)
            },
{
    let pre_k = cl.servers[k];
    let post = after(cl, k, post_k, out);
    let ids = cl.servers.dom();
    let tl = cl.leader_logs;
    let tl2 = post.leader_logs;
    let t0 = post_k.current_term;
    assert(post.servers.dom() =~= ids);
    lemma_ballots_grow(cl, k, post_k, out);
    lemma_step_log_shape(cl, k, post_k, received);
    // what an acknowledgement of the stepping server in its new term says
    assert forall|z: ServerId, t: Term, n: nat|
        #[trigger] acked(post, z, t, n) && !acked(cl, z, t, n) implies {
        &&& z == k
        &&& t == t0
        &&& tl2.contains_key(t)
        &&& n <= tl2[t].len()
        &&& holds(post_k.log.entries, tl2[t], n)
    } by {
        lemma_acked_step(cl, k, post_k, out, received, z, t, n);
        if !(post_k.role is Leader && t == t0 && n <= post_k.log.entries.len()) {
            let a = choose|a: crate::rpc::AppendResponse|
                #![trigger ack_ok(pre_k, post_k, a, received)]
                a.ok && a.term == t && a.ack_idx >= n && ack_ok(pre_k, post_k, a, received);
            let r = received->Some_0->AppendRequest_0;
            let msg = choose|msg: SendableMessage<T>| #[trigger] cl.sent.contains(msg) && msg.1 == received->Some_0;
            assert(cl.sent.contains(msg));
            let lead = tl[r.leader_term];
            let m = r.leader_last_log_idx + r.entries@.len();
            lemma_merge_shape(tl, pre_k.log.entries, lead, r);
            assert(holds(post_k.log.entries, lead, m as nat)) by {
                if post_k.log.entries != pre_k.log.entries {
                    assert(post_k.log.entries.take(m as int) =~= lead.take(m as int));
                }
            }
            assert(holds(post_k.log.entries, lead, n)) by {
                assert(post_k.log.entries.take(n as int) =~= post_k.log.entries.take(m as int).take(n as int));
                assert(lead.take(n as int) =~= lead.take(m as int).take(n as int));
            }
            lemma_holds_grown(post_k.log.entries, lead, tl2[t], n);
        } else {
            assert(post_k.log.entries.take(n as int) == tl2[t].take(n as int));
        }
    }
}

/// What a server acknowledged before a step it still holds after it, unless
/// the leader log of a later term it reached diverges from it
proof fn lemma_old_acks_held<T>(
    cl: Cluster<T>,
    k: ServerId,
    post_k: ServerState<T>,
    out: Seq<SendableMessage<T>>,
    received: Option<RPC<T>>,
)
    requires
        cluster_inv(cl),
        log_inv(cl),
        vote_support(cl),
        ack_support(cl),
        log_inv(after(cl, k, post_k, out)),
        vote_support(after(cl, k, post_k, out)),
        extends(cl.leader_logs, after(cl, k, post_k, out).leader_logs),
        cl.servers.dom().contains(k),
        keeps_history(cl.servers[k], post_k),
        entries_step(cl.servers[k], post_k, received),
        acks_step(cl.servers[k], post_k, out, received),
        received_from(cl.sent, received),
    ensures
        forall|z: ServerId, t: Term, n: nat|
            #[trigger] acked(cl, z, t, n) && n > 0 ==> holds(
                after(cl, k, post_k, out).servers[z].log.entries,
                after(cl, k, post_k, out).leader_logs[t],
                n,
            ) || exists|w: Term|
                after(cl, k, post_k, out).leader_logs.contains_key(w) && t < w <= after(cl, k, post_k, out).servers[z].current_term
                    && #[trigger] diverges(
                    after(cl, k, post_k, out).leader_logs[w],
                    after(cl, k, post_k, out).leader_logs[t].take(n as int),
                ),
{
    let pre_k = cl.servers[k];
    let post = after(cl, k, post_k, out);
    let ids = cl.servers.dom();
    let tl = cl.leader_logs;
    let tl2 = post.leader_logs;
    let t0 = post_k.current_term;
    assert(post.servers.dom() =~= ids);
    lemma_ballots_grow(cl, k, post_k, out);
    lemma_step_log_shape(cl, k, post_k, received);
    assert forall|z: ServerId, t: Term, n: nat| #[trigger] acked(cl, z, t, n) && n > 0 implies holds(
        post.servers[z].log.entries,
        tl2[t],
        n,
    ) || exists|w: Term|
        tl2.contains_key(w) && t < w <= post.servers[z].current_term && #[trigger] diverges(
            tl2[w],
            tl2[t].take(n as int),
        ) by {
        if acked(cl, z, t, n) {
            let log = cl.servers[z].log.entries;
            let p = tl[t].take(n as int);
            assert(tl2[t].take(n as int) == p) by {
                assert(tl2[t].take(n as int) =~= tl2[t].take(tl[t].len() as int).take(n as int));
            }
            // what held before the step
            if holds(log, tl[t], n) {
                if z != k || post_k.log.entries == pre_k.log.entries {
                    lemma_holds_grown(post.servers[z].log.entries, tl[t], tl2[t], n);
                } else if pre_k.role is Leader && post_k.role is Leader {
                    assert(post_k.log.entries.take(n as int) =~= post_k.log.entries.take(
                        pre_k.log.entries.len() as int,
                    ).take(n as int));
                    lemma_holds_grown(post_k.log.entries, tl[t], tl2[t], n);
                } else {
                    let r = received->Some_0->AppendRequest_0;
                    let lt = r.leader_term;
                    let lead = tl[lt];
                    if diverges(lead, p) {
                        if lt == t {
                            lemma_holds_not_diverges(tl[t], tl[t], n);
                            assert(tl[t].take(n as int) =~= tl[t].take(n as int));
                        }
                        lemma_diverges_grown(lead, tl2[lt], p);
                        assert(diverges(tl2[lt], tl2[t].take(n as int)));
                    } else {
                        lemma_merge_keeps_prefix(tl, pre_k.log.entries, lead, r, tl[t], n);
                        lemma_holds_grown(post_k.log.entries, tl[t], tl2[t], n);
                    }
                }
            } else {
                let w = choose|w: Term|
                    tl.contains_key(w) && t < w <= cl.servers[z].current_term && #[trigger] diverges(
                        tl[w],
                        tl[t].take(n as int),
                    );
                lemma_diverges_grown(tl[w], tl2[w], p);
                assert(diverges(tl2[w], tl2[t].take(n as int)));
            }
        }
    }
}

/// A step of one server keeps what the cluster keeps about what its
/// servers acknowledged
proof fn lemma_step_keeps_ack_support<T>(
    cl: Cluster<T>,
    k: ServerId,
    post_k: ServerState<T>,
    out: Seq<SendableMessage<T>>,
    received: Option<RPC<T>>,
)
    requires
        cluster_inv(cl),
        log_inv(cl),
        vote_support(cl),
        ack_support(cl),
        log_inv(after(cl, k, post_k, out)),
        vote_support(after(cl, k, post_k, out)),
        extends(cl.leader_logs, after(cl, k, post_k, out).leader_logs),
        cl.servers.dom().contains(k),
        keeps_history(cl.servers[k], post_k),
        entries_step(cl.servers[k], post_k, received),
        acks_step(cl.servers[k], post_k, out, received),
        received_from(cl.sent, received),
    ensures
        ack_support(after(cl, k, post_k, out)),
{
    let pre_k = cl.servers[k];
    let post = after(cl, k, post_k, out);
    let ids = cl.servers.dom();
    let tl = cl.leader_logs;
    let tl2 = post.leader_logs;
    let t0 = post_k.current_term;
    assert(post.servers.dom() =~= ids);
    lemma_ballots_grow(cl, k, post_k, out);
    lemma_step_log_shape(cl, k, post_k, received);
    lemma_new_acks_held(cl, k, post_k, out, received);
    lemma_old_acks_held(cl, k, post_k, out, received);
    assert forall|z: ServerId, t: Term, n: nat| #[trigger] acked(post, z, t, n) implies {
        &&& ids.contains(z)
        &&& tl2.contains_key(t)
        &&& n <= tl2[t].len()
        &&& post.servers[z].current_term >= t
    } by {
        if acked(cl, z, t, n) {
            assert(tl[t].len() <= tl2[t].len());
        }
    }
    assert forall|z: ServerId, t: Term, n: nat| #[trigger] acked(post, z, t, n) && n > 0 implies holds(
        post.servers[z].log.entries,
        tl2[t],
        n,
    ) || exists|w: Term|
        tl2.contains_key(w) && t < w <= post.servers[z].current_term && #[trigger] diverges(
            tl2[w],
            tl2[t].take(n as int),
        ) by {
        if acked(cl, z, t, n) {
            assert(acked(cl, z, t, n) && n > 0);
        } else {
            assert(acked(post, z, t, n) && !acked(cl, z, t, n));
        }
    }
    assert forall|b: (ServerId, Term)| #[trigger]
        post.ballots.contains_key(b) && !tl2.contains_key(b.1) implies keeps_before(post, b.0, b.1) by {
        let (z, u) = b;
        assert forall|t: Term, n: nat|
            #[trigger] acked(post, z, t, n) && t < u && n > 0 implies holds(post.ballots[(z, u)], tl2[t], n)
                || exists|w: Term|
                tl2.contains_key(w) && t < w < u && #[trigger] diverges(
                    tl2[w],
                    tl2[t].take(n as int),
                ) by {
            if cl.ballots.contains_key(b) {
                assert(!tl.contains_key(u));
                assert(keeps_before(cl, z, u));
                if !acked(cl, z, t, n) {
                    assert(cl.servers[z].current_term >= u);
                    assert(false);
                }
                let p = tl[t].take(n as int);
                assert(tl2[t].take(n as int) == p) by {
                    assert(tl2[t].take(n as int) =~= tl2[t].take(tl[t].len() as int).take(n as int));
                }
                if holds(cl.ballots[(z, u)], tl[t], n) {
                    lemma_holds_grown(cl.ballots[(z, u)], tl[t], tl2[t], n);
                } else {
                    let w = choose|w: Term|
                        tl.contains_key(w) && t < w < u && #[trigger] diverges(tl[w], tl[t].take(n as int));
                    lemma_diverges_grown(tl[w], tl2[w], p);
                    assert(diverges(tl2[w], tl2[t].take(n as int)));
                }
            } else {
                assert(z == k && u == t0);
                assert(post.ballots[(z, u)] == post_k.log.entries);
            }
        }
    }
}

/// A ballot cast before a step keeps, after it, what its server
/// acknowledged before the ballot's term, when the step acknowledges
/// nothing of an earlier term
proof fn lemma_keeps_before_grown<T>(
    cl: Cluster<T>,
    k: ServerId,
    post_k: ServerState<T>,
    out: Seq<SendableMessage<T>>,
    received: Option<RPC<T>>,
    v: ServerId,
    u: Term,
)
    requires
        keeps_before(cl, v, u),
        ack_support(cl),
        extends(cl.leader_logs, after(cl, k, post_k, out).leader_logs),
        cl.servers.dom().contains(k),
        cl.servers[k].id == k,
        vote_support(cl),
        keeps_history(cl.servers[k], post_k),
        acks_step(cl.servers[k], post_k, out, received),
        v == k ==> cl.servers[k].current_term >= u,
    ensures
        keeps_before(after(cl, k, post_k, out), v, u),
{
    let post = after(cl, k, post_k, out);
    let tl = cl.leader_logs;
    let tl2 = post.leader_logs;
    lemma_ballots_grow(cl, k, post_k, out);
    assert forall|t: Term, n: nat|
        #[trigger] acked(post, v, t, n) && t < u && n > 0 implies holds(post.ballots[(v, u)], tl2[t], n)
            || exists|w: Term|
            tl2.contains_key(w) && t < w < u && #[trigger] diverges(tl2[w], tl2[t].take(n as int)) by {
        lemma_acked_step(cl, k, post_k, out, received, v, t, n);
        assert(acked(cl, v, t, n));
        let p = tl[t].take(n as int);
        assert(tl2[t].take(n as int) == p) by {
            assert(tl2[t].take(n as int) =~= tl2[t].take(tl[t].len() as int).take(n as int));
        }
        if holds(cl.ballots[(v, u)], tl[t], n) {
            lemma_holds_grown(cl.ballots[(v, u)], tl[t], tl2[t], n);
        } else {
            let w = choose|w: Term|
                tl.contains_key(w) && t < w < u && #[trigger] diverges(tl[w], tl[t].take(n as int));
            lemma_diverges_grown(tl[w], tl2[w], p);
            assert(diverges(tl2[w], tl2[t].take(n as int)));
        }
    }
}

/// A step of one server keeps every vote backed by up to date ballots
proof fn lemma_step_keeps_grants<T>(
    cl: Cluster<T>,
    k: ServerId,
    post_k: ServerState<T>,
    out: Seq<SendableMessage<T>>,
    received: Option<RPC<T>>,
)
    requires
        cluster_inv(cl),
        log_inv(cl),
        vote_support(cl),
        ack_support(cl),
        election_inv(cl),
        cluster_inv(after(cl, k, post_k, out)),
        log_inv(after(cl, k, post_k, out)),
        vote_support(after(cl, k, post_k, out)),
        extends(cl.leader_logs, after(cl, k, post_k, out).leader_logs),
        cl.servers.dom().contains(k),
        keeps_history(cl.servers[k], post_k),
        votes_step(cl.servers[k], post_k, out, received),
        entries_step(cl.servers[k], post_k, received),
        ballots_step(cl.servers[k], post_k, out, received),
        acks_step(cl.servers[k], post_k, out, received),
        received_from(cl.sent, received),
    ensures
        grants_ok(after(cl, k, post_k, out)),
{
    let pre_k = cl.servers[k];
    let post = after(cl, k, post_k, out);
    let t0 = post_k.current_term;
    let new_vote = post_k.voted_for is Some && !(pre_k.current_term == t0 && pre_k.voted_for is Some);
    assert(cl.sent.subset_of(post.sent));
    lemma_ballots_grow(cl, k, post_k, out);
    assert forall|v: ServerId, u: Term, c: ServerId| #[trigger] voted(post.sent, v, u, c) implies {
        &&& post.ballots.contains_key((v, u))
        &&& post.ballots.contains_key((c, u))
        &&& up_to_date(post.ballots[(c, u)], post.ballots[(v, u)])
    } by {
        if voted(cl.sent, v, u, c) {
            assert(cl.ballots.contains_key((v, u)) && cl.ballots.contains_key((c, u)));
        } else if post.sent.contains(grant_msg(u, v, c)) {
            let i = choose|i: int| 0 <= i < out.len() && out[i] == grant_msg::<T>(u, v, c);
            assert(answer_ok(pre_k, post_k, out[i]));
            assert(v == k && u == t0 && post_k.voted_for == Some(c));
            let req = received->Some_0->VoteRequest_0;
            let msg = choose|msg: SendableMessage<T>| #[trigger] cl.sent.contains(msg) && msg.1 == received->Some_0;
            assert(cl.sent.contains(msg));
            assert(req.candidate_id == c);
            if !new_vote {
                assert(voted(cl.sent, k, pre_k.current_term, pre_k.voted_for->Some_0));
            }
        } else {
            let m = choose|m: SendableMessage<T>| #[trigger] post.sent.contains(m) && campaign_msg(m, u, c);
            if cl.sent.contains(m) {
                assert(voted(cl.sent, v, u, c));
            }
            let i = choose|i: int| 0 <= i < out.len() && out[i] == m;
            assert(request_ok(pre_k, post_k, out[i]));
            assert(new_vote);
        }
    }
}

/// A step of one server keeps every ballot agreeing with the leader logs
proof fn lemma_step_keeps_ballots<T>(
    cl: Cluster<T>,
    k: ServerId,
    post_k: ServerState<T>,
    out: Seq<SendableMessage<T>>,
    received: Option<RPC<T>>,
)
    requires
        cluster_inv(cl),
        log_inv(cl),
        vote_support(cl),
        ack_support(cl),
        election_inv(cl),
        cluster_inv(after(cl, k, post_k, out)),
        log_inv(after(cl, k, post_k, out)),
        vote_support(after(cl, k, post_k, out)),
        extends(cl.leader_logs, after(cl, k, post_k, out).leader_logs),
        cl.servers.dom().contains(k),
        keeps_history(cl.servers[k], post_k),
        votes_step(cl.servers[k], post_k, out, received),
        entries_step(cl.servers[k], post_k, received),
        ballots_step(cl.servers[k], post_k, out, received),
        acks_step(cl.servers[k], post_k, out, received),
        received_from(cl.sent, received),
    ensures
        ballots_ok(after(cl, k, post_k, out)),
{
    let post = after(cl, k, post_k, out);
    lemma_ballots_grow(cl, k, post_k, out);
    assert forall|b: (ServerId, Term)| #[trigger] post.ballots.contains_key(b) implies sorted_terms(post.ballots[b])
        && matches_leaders(post.leader_logs, post.ballots[b]) by {
        if cl.ballots.contains_key(b) {
            crate::matching::lemma_extends_matches(cl.leader_logs, post.leader_logs, cl.ballots[b]);
        }
    }
}

/// A step of one server keeps what the leader log of an earlier leader says
proof fn lemma_step_keeps_old_leader_log<T>(
    cl: Cluster<T>,
    k: ServerId,
    post_k: ServerState<T>,
    out: Seq<SendableMessage<T>>,
    received: Option<RPC<T>>,
    u: Term,
)
    requires
        cluster_inv(cl),
        log_inv(cl),
        vote_support(cl),
        ack_support(cl),
        election_inv(cl),
        cluster_inv(after(cl, k, post_k, out)),
        log_inv(after(cl, k, post_k, out)),
        vote_support(after(cl, k, post_k, out)),
        extends(cl.leader_logs, after(cl, k, post_k, out).leader_logs),
        cl.servers.dom().contains(k),
        keeps_history(cl.servers[k], post_k),
        votes_step(cl.servers[k], post_k, out, received),
        entries_step(cl.servers[k], post_k, received),
        ballots_step(cl.servers[k], post_k, out, received),
        acks_step(cl.servers[k], post_k, out, received),
        received_from(cl.sent, received),
        cl.leader_logs.contains_key(u),
    ensures
        leader_log_ok(after(cl, k, post_k, out), u),
{
    let pre_k = cl.servers[k];
    let post = after(cl, k, post_k, out);
    let ids = cl.servers.dom();
    let tl = cl.leader_logs;
    let tl2 = post.leader_logs;
    let t0 = post_k.current_term;
    assert(post.servers.dom() =~= ids);
    lemma_ballots_grow(cl, k, post_k, out);
    crate::matching::lemma_fresh_leader(cl, k, post_k, out, received);
    assert(leader_log_ok(cl, u));
    let c = cl.leader_of[u];
    if post_k.role is Leader && u == t0 {
        assert(c == k);
    }
    assert(post.leader_of[u] == c);
    let b = cl.ballots[(c, u)];
    assert(tl2[u].take(b.len() as int) =~= tl2[u].take(tl[u].len() as int).take(b.len() as int));
    let q = choose|q: Set<ServerId>|
        {
            &&& q.subset_of(ids)
            &&& q.len() >= quorum_of((ids.len() - 1) as nat)
            &&& forall|v: ServerId| #[trigger] q.contains(v) ==> voted(cl.sent, v, u, c) && keeps_before(cl, v, u)
        };
    assert forall|v: ServerId| #[trigger] q.contains(v) implies voted(post.sent, v, u, c) && keeps_before(post, v, u) by {
        assert(voted(cl.sent, v, u, c));
        if !cl.sent.contains(grant_msg(u, v, c)) {
            let m = choose|m: SendableMessage<T>| #[trigger] cl.sent.contains(m) && campaign_msg(m, u, c);
            assert(post.sent.contains(m));
        }
        lemma_keeps_before_grown(cl, k, post_k, out, received, v, u);
    }
}

/// The leader log of a server that just took the lead is its ballot, made
/// of entries of earlier terms, and a quorum whose ballots keep what they
/// acknowledged voted for it
proof fn lemma_step_new_leader_log<T>(
    cl: Cluster<T>,
    k: ServerId,
    post_k: ServerState<T>,
    out: Seq<SendableMessage<T>>,
    received: Option<RPC<T>>,
)
    requires
        cluster_inv(cl),
        log_inv(cl),
        vote_support(cl),
        ack_support(cl),
        election_inv(cl),
        cluster_inv(after(cl, k, post_k, out)),
        log_inv(after(cl, k, post_k, out)),
        vote_support(after(cl, k, post_k, out)),
        extends(cl.leader_logs, after(cl, k, post_k, out).leader_logs),
        cl.servers.dom().contains(k),
        keeps_history(cl.servers[k], post_k),
        votes_step(cl.servers[k], post_k, out, received),
        entries_step(cl.servers[k], post_k, received),
        ballots_step(cl.servers[k], post_k, out, received),
        acks_step(cl.servers[k], post_k, out, received),
        received_from(cl.sent, received),
        post_k.role is Leader,
        !cl.leader_logs.contains_key(post_k.current_term),
    ensures
        leader_log_ok(after(cl, k, post_k, out), post_k.current_term),
{
    let pre_k = cl.servers[k];
    let post = after(cl, k, post_k, out);
    let ids = cl.servers.dom();
    let tl = cl.leader_logs;
    let u = post_k.current_term;
    assert(post.servers.dom() =~= ids);
    lemma_ballots_grow(cl, k, post_k, out);
    crate::matching::lemma_fresh_leader(cl, k, post_k, out, received);
    assert(pre_k.role is Candidate && pre_k.current_term == u);
    assert(post.leader_of[u] == k);
    let b = cl.ballots[(k, u)];
    assert(b == pre_k.log.entries);
    assert(post.leader_logs[u] == b);
    assert(b.take(b.len() as int) =~= b);
    assert forall|i: int| 0 <= i < b.len() implies (#[trigger] b[i]).term < u by {
        assert(matches_leaders(tl, pre_k.log.entries));
        assert(tl.contains_key(b[i].term));
    }
    assert(crate::safety::elected(post.sent, ids, u, k));
    let q = choose|q: Set<ServerId>|
        {
            &&& q.subset_of(ids)
            &&& q.len() >= quorum_of((ids.len() - 1) as nat)
            &&& forall|v: ServerId| #[trigger] q.contains(v) ==> voted(post.sent, v, u, k)
        };
    assert forall|v: ServerId| #[trigger] q.contains(v) implies voted(post.sent, v, u, k) && keeps_before(post, v, u) by {
        if !voted(cl.sent, v, u, k) {
            if post.sent.contains(grant_msg(u, v, k)) {
                let i = choose|i: int| 0 <= i < out.len() && out[i] == grant_msg::<T>(u, v, k);
                assert(answer_ok(pre_k, post_k, out[i]));
            }
            assert(v == k);
        } else {
            assert(cl.ballots.contains_key((v, u)));
        }
        assert(cl.ballots.contains_key((v, u)));
        assert(keeps_before(cl, v, u));
        lemma_keeps_before_grown(cl, k, post_k, out, received, v, u);
    }
}

/// A step of one server keeps what the elections of the cluster keep
proof fn lemma_step_keeps_election_inv<T>(
    cl: Cluster<T>,
    k: ServerId,
    post_k: ServerState<T>,
    out: Seq<SendableMessage<T>>,
    received: Option<RPC<T>>,
)
    requires
        cluster_inv(cl),
        log_inv(cl),
        vote_support(cl),
        ack_support(cl),
        election_inv(cl),
        cluster_inv(after(cl, k, post_k, out)),
        log_inv(after(cl, k, post_k, out)),
        vote_support(after(cl, k, post_k, out)),
        extends(cl.leader_logs, after(cl, k, post_k, out).leader_logs),
        cl.servers.dom().contains(k),
        keeps_history(cl.servers[k], post_k),
        votes_step(cl.servers[k], post_k, out, received),
        entries_step(cl.servers[k], post_k, received),
        ballots_step(cl.servers[k], post_k, out, received),
        acks_step(cl.servers[k], post_k, out, received),
        received_from(cl.sent, received),
    ensures
        election_inv(after(cl, k, post_k, out)),
{
    let post = after(cl, k, post_k, out);
    lemma_step_keeps_grants(cl, k, post_k, out, received);
    lemma_step_keeps_ballots(cl, k, post_k, out, received);
    assert forall|u: Term| #[trigger] post.leader_logs.contains_key(u) implies leader_log_ok(post, u) && sorted_terms(
        post.leader_logs[u],
    ) by {
        if cl.leader_logs.contains_key(u) {
            lemma_step_keeps_old_leader_log(cl, k, post_k, out, received, u);
        } else {
            lemma_step_new_leader_log(cl, k, post_k, out, received);
        }
    }
}

/// The invariant of a cluster from which election safety, log matching and
/// leader completeness follow
pub open spec fn raft_inv<T>(cl: Cluster<T>) -> bool {
    &&& cluster_inv(cl)
    &&& log_inv(cl)
    &&& vote_support(cl)
    &&& ack_support(cl)
    &&& election_inv(cl)
}

/// A step of one server that follows the rules of votes, logs and
/// acknowledgements, and handles a message that was sent, keeps the
/// invariant of the cluster
proof fn lemma_step_keeps_raft_inv<T>(
    cl: Cluster<T>,
    k: ServerId,
    post_k: ServerState<T>,
    out: Seq<SendableMessage<T>>,
    received: Option<RPC<T>>,
)
    requires
        raft_inv(cl),
        cluster_inv(after(cl, k, post_k, out)),
        cl.servers.dom().contains(k),
        post_k.wf(),
        post_k.log.entries.len() <= usize::MAX,
        keeps_history(cl.servers[k], post_k),
        votes_step(cl.servers[k], post_k, out, received),
        entries_step(cl.servers[k], post_k, received),
        crate::matching::appends_step(post_k, out),
        ballots_step(cl.servers[k], post_k, out, received),
        acks_step(cl.servers[k], post_k, out, received),
        received_from(cl.sent, received),
    ensures
        raft_inv(after(cl, k, post_k, out)),
{
    if let Some(RPC::AppendRequest(r)) = received {
        let m = choose|m: SendableMessage<T>| #[trigger] cl.sent.contains(m) && m.1 == received->Some_0;
        assert(cl.sent.contains(m));
    }
    crate::matching::lemma_step_keeps_log_inv(cl, k, post_k, out, received);
    lemma_step_keeps_vote_support(cl, k, post_k, out, received);
    lemma_step_keeps_ack_support(cl, k, post_k, out, received);
    lemma_step_keeps_election_inv(cl, k, post_k, out, received);
}

/// A cluster of at least two servers just made, each knowing exactly the
/// others, before any message was sent and before any term had a leader or
/// any vote was cast, keeps the invariant.
proof fn lemma_initial_raft_inv<T>(cl: Cluster<T>)
    requires
        cl.servers.dom().finite(),
        cl.servers.dom().len() >= 2,
        forall|k: ServerId| #[trigger]
            cl.servers.dom().contains(k) ==> {
                &&& is_initial(cl.servers[k])
                &&& cl.servers[k].id == k
                &&& cl.servers[k].peers == cl.servers.dom().remove(k)
            },
        cl.sent == Set::<SendableMessage<T>>::empty(),
        cl.leader_logs == Map::<Term, Seq<LogEntry<T>>>::empty(),
        cl.ballots == Map::<(ServerId, Term), Seq<LogEntry<T>>>::empty(),
        cl.leader_of == Map::<Term, ServerId>::empty(),
    ensures
        raft_inv(cl),
{
    crate::safety::lemma_initial_cluster_inv(cl);
    crate::matching::lemma_initial_log_inv(cl);
    assert(cl.leader_of.dom() =~= cl.leader_logs.dom());
}

/// A tick of one server keeps the invariant of the cluster.
proof fn lemma_tick_keeps_raft_inv<T>(cl: Cluster<T>, k: ServerId, post_k: ServerState<T>, out: Seq<SendableMessage<T>>)
    requires
        raft_inv(cl),
        cl.servers.dom().contains(k),
        cl.servers[k].election_due() ==> cl.servers[k].current_term < u64::MAX,
        cl.servers[k].tick_step(post_k, out),
        post_k.wf(),
        post_k.log.entries.len() <= usize::MAX,
    ensures
        raft_inv(after(cl, k, post_k, out)),
{
    let pre_k = cl.servers[k];
    assert(pre_k.peers.len() == cl.servers.dom().len() - 1);
    lemma_tick_keeps_cluster_inv(cl, k, post_k, out);
    lemma_tick_keeps_history(pre_k, post_k, out);
    lemma_tick_votes(pre_k, post_k, out);
    crate::matching::lemma_tick_logs(pre_k, post_k, out);
    lemma_tick_ballots(pre_k, post_k, out);
    lemma_step_keeps_raft_inv(cl, k, post_k, out, None);
}

/// One server handling a message that was sent to it, or to everyone,
/// keeps the invariant of the cluster.
proof fn lemma_receive_keeps_raft_inv<T>(
    cl: Cluster<T>,
    k: ServerId,
    m: SendableMessage<T>,
    post_k: ServerState<T>,
    out: Seq<SendableMessage<T>>,
)
    requires
        raft_inv(cl),
        cl.servers.dom().contains(k),
        cl.sent.contains(m),
        m.0 == Target::Broadcast || m.0 == Target::Single(k),
        cl.servers[k].receive_step(post_k, m.1, out),
        post_k.wf(),
        post_k.log.entries.len() <= usize::MAX,
    ensures
        raft_inv(after(cl, k, post_k, out)),
{
    let pre_k = cl.servers[k];
    lemma_receive_keeps_cluster_inv(cl, k, m, post_k, out);
    lemma_receive_keeps_history(pre_k, post_k, m.1, out);
    lemma_receive_votes(pre_k, post_k, m.1, out);
    crate::matching::lemma_receive_logs(pre_k, post_k, m.1, out);
    lemma_receive_ballots(pre_k, post_k, m.1, out);
    assert(received_from(cl.sent, Some(m.1)));
    lemma_step_keeps_raft_inv(cl, k, post_k, out, Some(m.1));
}

/// One server handling a client request keeps the invariant of the cluster.
proof fn lemma_client_request_keeps_raft_inv<T>(
    cl: Cluster<T>,
    k: ServerId,
    msg: T,
    r: Result<(), crate::server::RaftError>,
    post_k: ServerState<T>,
)
    requires
        raft_inv(cl),
        cl.servers.dom().contains(k),
        cl.servers[k].client_request_step(post_k, msg, r),
        post_k.wf(),
        post_k.log.entries.len() <= usize::MAX,
    ensures
        raft_inv(after(cl, k, post_k, seq![])),
{
    let pre_k = cl.servers[k];
    lemma_client_request_keeps_cluster_inv(cl, k, msg, r, post_k);
    lemma_client_request_keeps_history(pre_k, post_k, msg, r);
    lemma_client_votes(pre_k, post_k, msg, r);
    crate::matching::lemma_client_logs(pre_k, post_k, msg, r);
    lemma_client_ballots(pre_k, post_k, msg, r);
    lemma_step_keeps_raft_inv(cl, k, post_k, seq![], None);
}

/// How a step changes what a leader knows its followers hold: a new leader
/// knows nothing, and a leader learns that a follower holds a prefix of its
/// log only from that follower's answer, in its term, that said so
pub open spec fn followers_step<T>(pre: ServerState<T>, post: ServerState<T>, received: Option<RPC<T>>) -> bool {
    post.role is Leader ==> forall|f: ServerId| #[trigger]
        post.role->followers.contains_key(f) ==> {
            let a = post.role->followers[f].acked_up_to;
            ||| a == 0
            ||| pre.role is Leader && pre.current_term == post.current_term && pre.role->followers.contains_key(f)
                && pre.role->followers[f].acked_up_to == a
            ||| received matches Some(RPC::AppendResponse(res)) && res.ok && res.term == post.current_term
                && res.follower_id == f && res.ack_idx == a
        }
}

/// How a step commits: not at all; as a leader, up to an entry of its own
/// term that a quorum holds; or as a follower, up to what the leader of an
/// AppendRequest committed and no further than the entries it took in.
/// What is committed is handed to the state machine, in order.
pub open spec fn commits_step<T>(pre: ServerState<T>, post: ServerState<T>, received: Option<RPC<T>>) -> bool {
    let c0 = pre.log.committed_len;
    let c1 = post.log.committed_len;
    ||| c1 == c0 && post.log.delivered == pre.log.delivered
    ||| {
        &&& pre.role is Leader
        &&& post.role is Leader
        &&& post.current_term == pre.current_term
        &&& c0 < c1 <= post.log.entries.len()
        &&& post.log.entries[c1 - 1].term == post.current_term
        &&& crate::server::acks(post.role->followers, c1) + 1 >= post.quorum()
        &&& post.log.delivered == pre.log.delivered + post.log.entries.subrange(c0 as int, c1 as int)
    }
    ||| received matches Some(RPC::AppendRequest(r)) && {
        &&& post.role is Follower
        &&& post.current_term == r.leader_term
        &&& c0 < c1
        &&& c1 <= r.leader_commit
        &&& c1 <= r.leader_last_log_idx + r.entries@.len()
        &&& r.leader_last_log_idx <= pre.log.entries.len()
        &&& r.leader_last_log_idx > 0 ==> pre.log.entries[r.leader_last_log_idx - 1].term == r.leader_last_log_term
        &&& post.log.entries == crate::log::merge_entries(pre.log.entries, r.leader_last_log_idx as nat, r.entries@)
        &&& post.log.delivered == pre.log.delivered + post.log.entries.subrange(c0 as int, c1 as int)
    }
}

/// What a tick does to commits: nothing
proof fn lemma_tick_commits<T>(pre: ServerState<T>, post: ServerState<T>, out: Seq<SendableMessage<T>>)
    requires
        pre.tick_step(post, out),
    ensures
        followers_step(pre, post, None),
        commits_step(pre, post, None),
{
}

/// What handling a client request does to commits
proof fn lemma_client_commits<T>(pre: ServerState<T>, post: ServerState<T>, msg: T, r: Result<(), crate::server::RaftError>)
    requires
        pre.wf(),
        pre.client_request_step(post, msg, r),
    ensures
        followers_step(pre, post, None),
        commits_step(pre, post, None),
{
}

/// What handling a message does to commits
proof fn lemma_receive_commits<T>(pre: ServerState<T>, post: ServerState<T>, rpc: RPC<T>, out: Seq<SendableMessage<T>>)
    requires
        pre.wf(),
        pre.receive_step(post, rpc, out),
    ensures
        followers_step(pre, post, Some(rpc)),
        commits_step(pre, post, Some(rpc)),
{
    match rpc {
        RPC::VoteRequest(req) => {
            let mid = choose|mid: ServerState<T>|
                #[trigger] pre.observe_term(mid, req.candidate_term) && mid.answer_vote(post, req, out);
        },
        RPC::VoteResponse(res) => {
            let mid = choose|mid: ServerState<T>|
                #[trigger] pre.observe_term(mid, res.term) && mid.count_vote(post, res, out);
        },
        RPC::AppendRequest(req) => {
            let mid = choose|mid: ServerState<T>|
                #[trigger] pre.observe_term(mid, req.leader_term) && mid.handle_append(post, req, out);
            if !(mid.role is Follower) && req.leader_term == mid.current_term {
                let mid2 = choose|mid2: ServerState<T>|
                    #[trigger] mid.reset_to_follower(mid2, req.leader_term) && mid2.follower_append(post, req, out);
            }
        },
        RPC::AppendResponse(res) => {
            let mid = choose|mid: ServerState<T>|
                #[trigger] pre.observe_term(mid, res.term) && mid.handle_append_response(post, res, out);
        },
    }
}

/// The first `c` entries of the leader log of `t` are a prefix of a
/// committed prefix
pub open spec fn durable<T>(cl: Cluster<T>, t: Term, c: nat) -> bool {
    exists|n: nat| c <= n && #[trigger] committed(cl, t, n)
}

/// What the cluster keeps about commits: a leader knows a follower holds a
/// prefix of its log only if the follower said so; every server committed
/// a durable prefix of a leader log of a term it reached, still holds it,
/// and handed exactly it to its state machine; and the committed length an
/// AppendRequest carries is that of a durable prefix of a term no later
/// than its own
pub open spec fn commit_inv<T>(cl: Cluster<T>) -> bool {
    &&& forall|k: ServerId| #[trigger] cl.servers.dom().contains(k) ==> follow_acks_ok(cl, k) && commit_ok(cl, k)
    &&& forall|m: SendableMessage<T>| #[trigger]
        cl.sent.contains(m) ==> (m.1 matches RPC::AppendRequest(r) ==> (r.leader_commit > 0 ==> exists|t: Term|
            t <= r.leader_term && #[trigger] durable(cl, t, r.leader_commit as nat)))
}

/// A leader `k` knows a follower holds a prefix of its log only if the
/// follower said so, in the leader's term
pub open spec fn follow_acks_ok<T>(cl: Cluster<T>, k: ServerId) -> bool {
    let s = cl.servers[k];
    s.role is Leader ==> forall|f: ServerId| #[trigger]
        s.role->followers.contains_key(f) && s.role->followers[f].acked_up_to > 0 ==> acked(
            cl,
            f,
            s.current_term,
            s.role->followers[f].acked_up_to as nat,
        )
}

/// Server `k` committed a durable prefix of a leader log of a term it
/// reached, holds it, and handed exactly it to its state machine
pub open spec fn commit_ok<T>(cl: Cluster<T>, k: ServerId) -> bool {
    let s = cl.servers[k];
    &&& s.log.committed_len <= s.log.entries.len()
    &&& s.log.delivered == s.log.entries.take(s.log.committed_len as int)
    &&& s.log.committed_len > 0 ==> exists|t: Term|
        t <= s.current_term && #[trigger] durable(cl, t, s.log.committed_len) && holds(
            s.log.entries,
            cl.leader_logs[t],
            s.log.committed_len,
        )
}

/// What a server acknowledged before a step it still did after it
proof fn lemma_acked_grows<T>(
    cl: Cluster<T>,
    k: ServerId,
    post_k: ServerState<T>,
    out: Seq<SendableMessage<T>>,
    z: ServerId,
    t: Term,
    n: nat,
)
    requires
        acked(cl, z, t, n),
        vote_support(cl),
        extends(cl.leader_logs, after(cl, k, post_k, out).leader_logs),
        post_k.role is Leader && cl.leader_of.contains_key(post_k.current_term) ==> cl.leader_of[post_k.current_term] == k,
    ensures
        acked(after(cl, k, post_k, out), z, t, n),
{
    let post = after(cl, k, post_k, out);
    if cl.leader_of.contains_key(t) && cl.leader_of[t] == z && n <= cl.leader_logs[t].len() {
        assert(cl.leader_logs.contains_key(t));
        assert(post.leader_of[t] == z);
    } else {
        let m = choose|m: SendableMessage<T>| #[trigger] cl.sent.contains(m) && ack_msg(m, z, t, n);
        assert(post.sent.contains(m));
    }
}

/// What was committed before a step still is after it
proof fn lemma_committed_grows<T>(
    cl: Cluster<T>,
    k: ServerId,
    post_k: ServerState<T>,
    out: Seq<SendableMessage<T>>,
    t: Term,
    n: nat,
)
    requires
        committed(cl, t, n),
        vote_support(cl),
        extends(cl.leader_logs, after(cl, k, post_k, out).leader_logs),
        post_k.role is Leader && cl.leader_of.contains_key(post_k.current_term) ==> cl.leader_of[post_k.current_term] == k,
        cl.servers.dom().contains(k),
    ensures
        committed(after(cl, k, post_k, out), t, n),
{
    let post = after(cl, k, post_k, out);
    let ids = cl.servers.dom();
    assert(post.servers.dom() =~= ids);
    let tl = cl.leader_logs;
    let tl2 = post.leader_logs;
    assert(tl2[t][n - 1] == tl2[t].take(tl[t].len() as int)[n - 1]);
    let q = choose|q: Set<ServerId>|
        {
            &&& q.subset_of(ids)
            &&& q.len() >= quorum_of((ids.len() - 1) as nat)
            &&& forall|z: ServerId| #[trigger] q.contains(z) ==> acked(cl, z, t, n)
        };
    assert forall|z: ServerId| #[trigger] q.contains(z) implies acked(post, z, t, n) by {
        lemma_acked_grows(cl, k, post_k, out, z, t, n);
    }
}

/// State machine safety: in a cluster that keeps its invariants, of the
/// entries two servers handed to their state machines, those of the one
/// that handed fewer are the first ones the other handed.
pub proof fn lemma_state_machine_safety<T>(cl: Cluster<T>, a: ServerId, b: ServerId)
    requires
        safety_inv(cl),
        cl.servers.dom().contains(a),
        cl.servers.dom().contains(b),
        cl.servers[a].log.delivered.len() <= cl.servers[b].log.delivered.len(),
    ensures
        cl.servers[b].log.delivered.take(cl.servers[a].log.delivered.len() as int) == cl.servers[a].log.delivered,
{
    if single_server(cl) {
        crate::safety::lemma_single_server_same(cl, a, b);
        assert(cl.servers[b].log.delivered.take(cl.servers[a].log.delivered.len() as int) =~= cl.servers[a].log.delivered);
    } else {
        lemma_state_machine_safety_of_many(cl, a, b);
    }
}

/// State machine safety in a cluster of several servers
proof fn lemma_state_machine_safety_of_many<T>(cl: Cluster<T>, a: ServerId, b: ServerId)
    requires
        raft_inv(cl),
        commit_inv(cl),
        cl.servers.dom().contains(a),
        cl.servers.dom().contains(b),
        cl.servers[a].log.delivered.len() <= cl.servers[b].log.delivered.len(),
    ensures
        cl.servers[b].log.delivered.take(cl.servers[a].log.delivered.len() as int) == cl.servers[a].log.delivered,
{
    let tl = cl.leader_logs;
    let sa = cl.servers[a];
    let sb = cl.servers[b];
    let ca = sa.log.committed_len;
    let cb = sb.log.committed_len;
    assert(sa.log.delivered.len() == ca);
    assert(sb.log.delivered.len() == cb);
    if ca == 0 {
        assert(sb.log.delivered.take(0) =~= sa.log.delivered);
    } else {
        let ta = choose|t: Term| t <= sa.current_term && #[trigger] durable(cl, t, ca) && holds(sa.log.entries, tl[t], ca);
        let tb = choose|t: Term| t <= sb.current_term && #[trigger] durable(cl, t, cb) && holds(sb.log.entries, tl[t], cb);
        let na = choose|n: nat| ca <= n && #[trigger] committed(cl, ta, n);
        let nb = choose|n: nat| cb <= n && #[trigger] committed(cl, tb, n);
        // both delivered sequences are prefixes of the later of the two leader logs
        let tm = if ta <= tb { tb } else { ta };
        assert(sa.log.delivered == tl[ta].take(ca as int));
        assert(sb.log.delivered == tl[tb].take(cb as int));
        if ta < tb {
            lemma_leader_completeness(cl, ta, na, tb);
            assert(tl[ta].take(ca as int) =~= tl[ta].take(na as int).take(ca as int));
            assert(tl[tb].take(ca as int) =~= tl[tb].take(na as int).take(ca as int));
        } else if tb < ta {
            lemma_leader_completeness(cl, tb, nb, ta);
            assert(tl[tb].take(cb as int) =~= tl[tb].take(nb as int).take(cb as int));
            assert(tl[ta].take(cb as int) =~= tl[ta].take(nb as int).take(cb as int));
        }
        assert(sa.log.delivered == tl[tm].take(ca as int));
        assert(sb.log.delivered == tl[tm].take(cb as int));
        assert(sb.log.delivered.take(ca as int) =~= sa.log.delivered);
    }
}

/// The leader of the term of a server that leads after a step is that server
proof fn lemma_leader_of_stepper<T>(
    cl: Cluster<T>,
    k: ServerId,
    post_k: ServerState<T>,
    out: Seq<SendableMessage<T>>,
    received: Option<RPC<T>>,
)
    requires
        cluster_inv(cl),
        log_inv(cl),
        vote_support(cl),
        cluster_inv(after(cl, k, post_k, out)),
        cl.servers.dom().contains(k),
        votes_step(cl.servers[k], post_k, out, received),
        entries_step(cl.servers[k], post_k, received),
    ensures
        post_k.role is Leader && cl.leader_of.contains_key(post_k.current_term) ==> cl.leader_of[post_k.current_term] == k,
{
    crate::matching::lemma_fresh_leader(cl, k, post_k, out, received);
}

/// A step of one server keeps every leader's knowledge of what its
/// followers hold backed by their answers
proof fn lemma_step_follow_acks<T>(
    cl: Cluster<T>,
    k: ServerId,
    post_k: ServerState<T>,
    out: Seq<SendableMessage<T>>,
    received: Option<RPC<T>>,
)
    requires
        commit_inv(cl),
        vote_support(cl),
        extends(cl.leader_logs, after(cl, k, post_k, out).leader_logs),
        post_k.role is Leader && cl.leader_of.contains_key(post_k.current_term) ==> cl.leader_of[post_k.current_term] == k,
        cl.servers.dom().contains(k),
        followers_step(cl.servers[k], post_k, received),
        received_from(cl.sent, received),
    ensures
        forall|z: ServerId| #[trigger] cl.servers.dom().contains(z) ==> follow_acks_ok(after(cl, k, post_k, out), z),
{
    let pre_k = cl.servers[k];
    let post = after(cl, k, post_k, out);
    assert forall|z: ServerId| #[trigger] cl.servers.dom().contains(z) implies follow_acks_ok(post, z) by {
        let s = post.servers[z];
        if s.role is Leader {
            assert forall|f: ServerId| #[trigger]
                s.role->followers.contains_key(f) && s.role->followers[f].acked_up_to > 0 implies acked(
                post,
                f,
                s.current_term,
                s.role->followers[f].acked_up_to as nat,
            ) by {
                let a = s.role->followers[f].acked_up_to as nat;
                assert(follow_acks_ok(cl, z));
                if z != k {
                    assert(cl.servers[z].role->followers.contains_key(f));
                    lemma_acked_grows(cl, k, post_k, out, f, s.current_term, a);
                } else if pre_k.role is Leader && pre_k.current_term == post_k.current_term
                    && pre_k.role->followers.contains_key(f) && pre_k.role->followers[f].acked_up_to == a {
                    assert(cl.servers[k].role->followers.contains_key(f));
                    lemma_acked_grows(cl, k, post_k, out, f, s.current_term, a);
                } else {
                    let m = choose|m: SendableMessage<T>| #[trigger] cl.sent.contains(m) && m.1 == received->Some_0;
                    assert(ack_msg(m, f, s.current_term, a));
                    lemma_acked_grows(cl, k, post_k, out, f, s.current_term, a);
                }
            }
        }
    }
}

/// Who acknowledged a prefix acknowledged every shorter one
proof fn lemma_acked_less<T>(cl: Cluster<T>, z: ServerId, t: Term, n: nat, m: nat)
    requires
        acked(cl, z, t, n),
        m <= n,
    ensures
        acked(cl, z, t, m),
{
    if !(cl.leader_of.contains_key(t) && cl.leader_of[t] == z && n <= cl.leader_logs[t].len()) {
        let msg = choose|msg: SendableMessage<T>| #[trigger] cl.sent.contains(msg) && ack_msg(msg, z, t, n);
        assert(ack_msg(msg, z, t, m));
    }
}

/// What a leader commits is committed: a quorum acknowledged it, and its
/// last entry is of the leader's term
proof fn lemma_leader_commit_committed<T>(cl: Cluster<T>, k: ServerId, post_k: ServerState<T>, out: Seq<SendableMessage<T>>)
    requires
        cluster_inv(after(cl, k, post_k, out)),
        cl.servers.dom().contains(k),
        post_k.wf(),
        follow_acks_ok(after(cl, k, post_k, out), k),
        post_k.role is Leader,
        0 < post_k.log.committed_len <= post_k.log.entries.len(),
        post_k.log.entries[post_k.log.committed_len - 1].term == post_k.current_term,
        crate::server::acks(post_k.role->followers, post_k.log.committed_len) + 1 >= post_k.quorum(),
    ensures
        committed(after(cl, k, post_k, out), post_k.current_term, post_k.log.committed_len),
{
    let post = after(cl, k, post_k, out);
    let ids = cl.servers.dom();
    let t0 = post_k.current_term;
    let c1 = post_k.log.committed_len;
    let followers = post_k.role->followers;
    assert(post.servers.dom() =~= ids);
    assert(post.servers[k] == post_k);
    assert(post.leader_logs[t0] == post_k.log.entries);
    assert(post_k.peers == ids.remove(k));
    let acking = followers.dom().filter(|f: ServerId| followers[f].acked_up_to >= c1);
    let q = acking.insert(k);
    assert(followers.dom() == post_k.peers.remove(k));
    assert(acking.subset_of(followers.dom()));
    vstd::set_lib::lemma_set_subset_finite(followers.dom(), acking);
    assert(!acking.contains(k));
    assert(q.len() == acking.len() + 1);
    assert(post_k.peers.len() == ids.len() - 1);
    assert(q.subset_of(ids));
    assert forall|z: ServerId| #[trigger] q.contains(z) implies acked(post, z, t0, c1) by {
        if z != k {
            assert(acking.contains(z));
            assert(post.servers[k].role->followers.contains_key(z));
            lemma_acked_less(post, z, t0, followers[z].acked_up_to as nat, c1);
        } else {
            assert(post.leader_of[t0] == k);
        }
    }
}

/// What a server committed before a step it still holds after it, as a
/// durable prefix of a leader log of a term it reached
#[verifier::spinoff_prover]
#[verifier::rlimit(40)]
proof fn lemma_commit_prefix_stays<T>(
    cl: Cluster<T>,
    k: ServerId,
    post_k: ServerState<T>,
    out: Seq<SendableMessage<T>>,
    received: Option<RPC<T>>,
)
    requires
        cluster_inv(cl),
        log_inv(cl),
        vote_support(cl),
        election_inv(cl),
        commit_inv(cl),
        extends(cl.leader_logs, after(cl, k, post_k, out).leader_logs),
        post_k.role is Leader && cl.leader_of.contains_key(post_k.current_term) ==> cl.leader_of[post_k.current_term] == k,
        cl.servers.dom().contains(k),
        keeps_history(cl.servers[k], post_k),
        entries_step(cl.servers[k], post_k, received),
        received_from(cl.sent, received),
    ensures
        cl.servers[k].log.committed_len <= post_k.log.entries.len(),
        post_k.log.entries.take(cl.servers[k].log.committed_len as int) == cl.servers[k].log.entries.take(
            cl.servers[k].log.committed_len as int,
        ),
        cl.servers[k].log.committed_len > 0 ==> exists|t: Term|
            t <= post_k.current_term && #[trigger] durable(after(cl, k, post_k, out), t, cl.servers[k].log.committed_len)
                && holds(post_k.log.entries, after(cl, k, post_k, out).leader_logs[t], cl.servers[k].log.committed_len),
{
    let pre_k = cl.servers[k];
    let post = after(cl, k, post_k, out);
    let tl = cl.leader_logs;
    let tl2 = post.leader_logs;
    let c0 = pre_k.log.committed_len;
    lemma_step_log_shape(cl, k, post_k, received);
    assert(c0 <= pre_k.log.entries.len());
    if c0 == 0 {
        assert(post_k.log.entries.take(0) =~= pre_k.log.entries.take(0));
    } else {
        let ta = choose|t: Term|
            t <= pre_k.current_term && #[trigger] durable(cl, t, c0) && holds(pre_k.log.entries, tl[t], c0);
        let na = choose|n: nat| c0 <= n && #[trigger] committed(cl, ta, n);
        if post_k.log.entries == pre_k.log.entries {
        } else if pre_k.role is Leader && post_k.role is Leader {
            assert(post_k.log.entries.take(c0 as int) =~= post_k.log.entries.take(pre_k.log.entries.len() as int).take(
                c0 as int,
            ));
        } else {
            let r = received->Some_0->AppendRequest_0;
            let lt = r.leader_term;
            let lead = tl[lt];
            if ta < lt {
                lemma_leader_completeness(cl, ta, na, lt);
            }
            assert(holds(lead, tl[ta], c0)) by {
                assert(lead.take(c0 as int) =~= lead.take(na as int).take(c0 as int));
                assert(tl[ta].take(c0 as int) =~= tl[ta].take(na as int).take(c0 as int));
            }
            lemma_holds_not_diverges(lead, tl[ta], c0);
            lemma_merge_keeps_prefix(tl, pre_k.log.entries, lead, r, tl[ta], c0);
        }
        assert(holds(post_k.log.entries, tl[ta], c0));
        lemma_committed_grows(cl, k, post_k, out, ta, na);
        lemma_holds_grown(post_k.log.entries, tl[ta], tl2[ta], c0);
        assert(durable(post, ta, c0));
    }
}

/// What a follower commits on an AppendRequest is a durable prefix of a
/// leader log of a term it reached, which it holds
#[verifier::spinoff_prover]
#[verifier::rlimit(40)]
proof fn lemma_follower_commit_durable<T>(
    cl: Cluster<T>,
    k: ServerId,
    post_k: ServerState<T>,
    out: Seq<SendableMessage<T>>,
    received: Option<RPC<T>>,
)
    requires
        cluster_inv(cl),
        log_inv(cl),
        vote_support(cl),
        election_inv(cl),
        commit_inv(cl),
        extends(cl.leader_logs, after(cl, k, post_k, out).leader_logs),
        post_k.role is Leader && cl.leader_of.contains_key(post_k.current_term) ==> cl.leader_of[post_k.current_term] == k,
        cl.servers.dom().contains(k),
        keeps_history(cl.servers[k], post_k),
        entries_step(cl.servers[k], post_k, received),
        received_from(cl.sent, received),
        received matches Some(RPC::AppendRequest(r)) && {
            &&& post_k.current_term == r.leader_term
            &&& 0 < post_k.log.committed_len <= r.leader_commit
            &&& post_k.log.committed_len <= r.leader_last_log_idx + r.entries@.len()
            &&& r.leader_last_log_idx <= cl.servers[k].log.entries.len()
            &&& r.leader_last_log_idx > 0 ==> cl.servers[k].log.entries[r.leader_last_log_idx - 1].term
                == r.leader_last_log_term
            &&& post_k.log.entries == crate::log::merge_entries(
                cl.servers[k].log.entries,
                r.leader_last_log_idx as nat,
                r.entries@,
            )
        },
    ensures
        post_k.log.committed_len <= post_k.log.entries.len(),
        exists|t: Term|
            t <= post_k.current_term && #[trigger] durable(after(cl, k, post_k, out), t, post_k.log.committed_len)
                && holds(post_k.log.entries, after(cl, k, post_k, out).leader_logs[t], post_k.log.committed_len),
{
    let pre_k = cl.servers[k];
    let post = after(cl, k, post_k, out);
    let tl = cl.leader_logs;
    let tl2 = post.leader_logs;
    let c1 = post_k.log.committed_len;
    let r = received->Some_0->AppendRequest_0;
    let lt = r.leader_term;
    let m = r.leader_last_log_idx + r.entries@.len();
    let msg = choose|msg: SendableMessage<T>| #[trigger] cl.sent.contains(msg) && msg.1 == received->Some_0;
    assert(cl.sent.contains(msg));
    let lead = tl[lt];
    let tr = choose|t: Term| t <= lt && #[trigger] durable(cl, t, r.leader_commit as nat);
    let nr = choose|n: nat| r.leader_commit <= n && #[trigger] committed(cl, tr, n);
    if tr < lt {
        lemma_leader_completeness(cl, tr, nr, lt);
    }
    lemma_merge_shape(tl, pre_k.log.entries, lead, r);
    assert(holds(post_k.log.entries, lead, m as nat)) by {
        if post_k.log.entries != pre_k.log.entries {
            assert(post_k.log.entries.take(m as int) =~= lead.take(m as int));
        }
    }
    assert(post_k.log.entries.take(c1 as int) == tl[tr].take(c1 as int)) by {
        assert(post_k.log.entries.take(c1 as int) =~= post_k.log.entries.take(m as int).take(c1 as int));
        assert(lead.take(c1 as int) =~= lead.take(m as int).take(c1 as int));
        assert(lead.take(c1 as int) =~= lead.take(nr as int).take(c1 as int));
        assert(tl[tr].take(c1 as int) =~= tl[tr].take(nr as int).take(c1 as int));
    }
    lemma_committed_grows(cl, k, post_k, out, tr, nr);
    lemma_holds_grown(post_k.log.entries, tl[tr], tl2[tr], c1);
    assert(durable(post, tr, c1));
}

/// After a step, the server that stepped committed a durable prefix of a
/// leader log of a term it reached, still holds it, and handed exactly it to
/// its state machine
#[verifier::spinoff_prover]
#[verifier::rlimit(100)]
proof fn lemma_step_commit_of_stepper<T>(
    cl: Cluster<T>,
    k: ServerId,
    post_k: ServerState<T>,
    out: Seq<SendableMessage<T>>,
    received: Option<RPC<T>>,
)
    requires
        cluster_inv(cl),
        log_inv(cl),
        vote_support(cl),
        election_inv(cl),
        commit_inv(cl),
        cluster_inv(after(cl, k, post_k, out)),
        extends(cl.leader_logs, after(cl, k, post_k, out).leader_logs),
        post_k.role is Leader && cl.leader_of.contains_key(post_k.current_term) ==> cl.leader_of[post_k.current_term] == k,
        cl.servers.dom().contains(k),
        post_k.wf(),
        follow_acks_ok(after(cl, k, post_k, out), k),
        keeps_history(cl.servers[k], post_k),
        entries_step(cl.servers[k], post_k, received),
        commits_step(cl.servers[k], post_k, received),
        received_from(cl.sent, received),
    ensures
        commit_ok(after(cl, k, post_k, out), k),
{
    let pre_k = cl.servers[k];
    let post = after(cl, k, post_k, out);
    let c0 = pre_k.log.committed_len;
    let c1 = post_k.log.committed_len;
    let t0 = post_k.current_term;
    assert(post.servers[k] == post_k);
    assert(commit_ok(cl, k));
    assert(pre_k.log.delivered == pre_k.log.entries.take(c0 as int));
    lemma_commit_prefix_stays(cl, k, post_k, out, received);
    if c1 == c0 && post_k.log.delivered == pre_k.log.delivered {
    } else if pre_k.role is Leader && post_k.role is Leader && t0 == pre_k.current_term && c0 < c1
        <= post_k.log.entries.len() && post_k.log.entries[c1 - 1].term == t0 && crate::server::acks(
        post_k.role->followers,
        c1,
    ) + 1 >= post_k.quorum() && post_k.log.delivered == pre_k.log.delivered + post_k.log.entries.subrange(
        c0 as int,
        c1 as int,
    ) {
        lemma_leader_commit_committed(cl, k, post_k, out);
        assert(post.leader_logs[t0] == post_k.log.entries);
        assert(durable(post, t0, c1));
        assert(post_k.log.delivered =~= post_k.log.entries.take(c1 as int));
    } else {
        lemma_follower_commit_durable(cl, k, post_k, out, received);
        assert(post_k.log.delivered =~= post_k.log.entries.take(c1 as int));
    }
}

/// A step of one server keeps what the cluster keeps about commits
#[verifier::spinoff_prover]
#[verifier::rlimit(40)]
proof fn lemma_step_keeps_commit_inv<T>(
    cl: Cluster<T>,
    k: ServerId,
    post_k: ServerState<T>,
    out: Seq<SendableMessage<T>>,
    received: Option<RPC<T>>,
)
    requires
        raft_inv(cl),
        commit_inv(cl),
        cluster_inv(after(cl, k, post_k, out)),
        extends(cl.leader_logs, after(cl, k, post_k, out).leader_logs),
        cl.servers.dom().contains(k),
        post_k.wf(),
        keeps_history(cl.servers[k], post_k),
        votes_step(cl.servers[k], post_k, out, received),
        entries_step(cl.servers[k], post_k, received),
        crate::matching::appends_step(post_k, out),
        followers_step(cl.servers[k], post_k, received),
        commits_step(cl.servers[k], post_k, received),
        received_from(cl.sent, received),
    ensures
        commit_inv(after(cl, k, post_k, out)),
{
    let post = after(cl, k, post_k, out);
    let ids = cl.servers.dom();
    let tl = cl.leader_logs;
    let tl2 = post.leader_logs;
    assert(post.servers.dom() =~= ids);
    lemma_leader_of_stepper(cl, k, post_k, out, received);
    lemma_step_follow_acks(cl, k, post_k, out, received);
    lemma_step_commit_of_stepper(cl, k, post_k, out, received);
    assert forall|z: ServerId| #[trigger] post.servers.dom().contains(z) implies follow_acks_ok(post, z) && commit_ok(
        post,
        z,
    ) by {
        if z != k {
            assert(commit_ok(cl, z));
            let s = cl.servers[z];
            let c = s.log.committed_len;
            if c > 0 {
                let t = choose|t: Term| t <= s.current_term && #[trigger] durable(cl, t, c) && holds(s.log.entries, tl[t], c);
                let n = choose|n: nat| c <= n && #[trigger] committed(cl, t, n);
                lemma_committed_grows(cl, k, post_k, out, t, n);
                lemma_holds_grown(s.log.entries, tl[t], tl2[t], c);
                assert(durable(post, t, c));
            }
        }
    }
    assert forall|m: SendableMessage<T>| #[trigger] post.sent.contains(m) implies (m.1 matches RPC::AppendRequest(r) ==> (
    r.leader_commit > 0 ==> exists|t: Term| t <= r.leader_term && #[trigger] durable(post, t, r.leader_commit as nat))) by {
        if let RPC::AppendRequest(r) = m.1 {
            if r.leader_commit > 0 {
                if cl.sent.contains(m) {
                    let t = choose|t: Term| t <= r.leader_term && #[trigger] durable(cl, t, r.leader_commit as nat);
                    let n = choose|n: nat| r.leader_commit <= n && #[trigger] committed(cl, t, n);
                    lemma_committed_grows(cl, k, post_k, out, t, n);
                    assert(durable(post, t, r.leader_commit as nat));
                } else {
                    let i = choose|i: int| 0 <= i < out.len() && out[i] == m;
                    assert(crate::matching::appends_step(post_k, out));
                    assert(out[i].1 is AppendRequest);
                    assert(commit_ok(post, k));
                }
            }
        }
    }
}

/// The invariant of a cluster from which election safety, log matching,
/// leader completeness and state machine safety follow. A cluster of a
/// single server has nothing to keep: any two of its servers are the same.
pub open spec fn safety_inv<T>(cl: Cluster<T>) -> bool {
    (single_server(cl) && lone_inv(cl)) || (raft_inv(cl) && commit_inv(cl))
}

/// What holds of a cluster of one server: the server is well formed, has no
/// peers, has committed no more than its log holds and handed exactly the
/// committed entries to its state machine, and nobody ever sent an
/// AppendRequest, since a leader without followers sends none
pub open spec fn lone_inv<T>(cl: Cluster<T>) -> bool {
    &&& forall|k: ServerId| #[trigger]
        cl.servers.dom().contains(k) ==> {
            &&& cl.servers[k].wf()
            &&& cl.servers[k].peers.len() == 0
            &&& cl.servers[k].log.committed_len <= cl.servers[k].log.entries.len()
            &&& cl.servers[k].log.delivered == cl.servers[k].log.entries.take(
                cl.servers[k].log.committed_len as int,
            )
        }
    &&& forall|m: SendableMessage<T>| #[trigger] cl.sent.contains(m) ==> !(m.1 is AppendRequest)
}

/// A leader without followers sends no AppendRequest to anybody
proof fn lemma_replicate_none<T>(s: ServerState<T>, out: Seq<SendableMessage<T>>)
    requires
        s.replicate_all(out),
        s.role->followers.dom() == Set::<ServerId>::empty(),
    ensures
        out.len() == 0,
{
    let ks = choose|ks: Seq<ServerId>|
        {
            &&& ks.to_set() == s.role->followers.dom()
            &&& ks.no_duplicates()
            &&& forall|i: int, j: int| 0 <= i < j < ks.len() ==> ks[i] < ks[j]
            &&& out.len() == ks.len()
            &&& forall|i: int|
                0 <= i < ks.len() ==> #[trigger] s.is_append_for(
                    out[i],
                    ks[i],
                    s.role->followers[ks[i]].sent_up_to as nat,
                )
        };
    if ks.len() > 0 {
        assert(ks.to_set().contains(ks[0]));
    }
}

/// A step of the server of a cluster of one server keeps what holds of it,
/// when it keeps the server's peers, sends no AppendRequest, and commits no
/// more than its log holds
proof fn lemma_lone_step<T>(cl: Cluster<T>, k: ServerId, post_k: ServerState<T>, out: Seq<SendableMessage<T>>)
    requires
        single_server(cl),
        lone_inv(cl),
        cl.servers.dom().contains(k),
        post_k.wf(),
        post_k.peers == cl.servers[k].peers,
        post_k.log.committed_len <= post_k.log.entries.len(),
        post_k.log.delivered == post_k.log.entries.take(post_k.log.committed_len as int),
        forall|i: int| 0 <= i < out.len() ==> !((#[trigger] out[i]).1 is AppendRequest),
    ensures
        single_server(after(cl, k, post_k, out)),
        lone_inv(after(cl, k, post_k, out)),
{
    let post = after(cl, k, post_k, out);
    assert(post.servers.dom() =~= cl.servers.dom());
    assert forall|m: SendableMessage<T>| #[trigger] post.sent.contains(m) implies !(m.1 is AppendRequest) by {
        if !cl.sent.contains(m) {
            let i = out.index_of(m);
            assert(out[i] == m);
        }
    }
}

/// The server of a cluster of one server has nobody to replicate to
proof fn lemma_lone_no_followers<T>(cl: Cluster<T>, k: ServerId)
    requires
        lone_inv(cl),
        cl.servers.dom().contains(k),
    ensures
        cl.servers[k].peers == Set::<ServerId>::empty(),
        cl.servers[k].role is Leader ==> cl.servers[k].role->followers.dom() == Set::<ServerId>::empty(),
        fresh_followers(cl.servers[k].peers, cl.servers[k].id, cl.servers[k].log.entries.len()).dom()
            == Set::<ServerId>::empty(),
{
    let s = cl.servers[k];
    if s.peers.len() == 0 {
        assert(s.peers =~= Set::<ServerId>::empty());
    }
    assert(s.peers.remove(s.id) =~= Set::<ServerId>::empty());
    assert(fresh_followers(s.peers, s.id, s.log.entries.len()).dom() =~= Set::<ServerId>::empty());
}

/// A cluster just made, each server knowing exactly the others, before any
/// message was sent, any vote was cast or any term had a leader, keeps the
/// invariant.
pub proof fn lemma_initial_safety_inv<T>(cl: Cluster<T>)
    requires
        cl.servers.dom().finite(),
        cl.servers.dom().len() >= 1,
        forall|k: ServerId| #[trigger]
            cl.servers.dom().contains(k) ==> {
                &&& is_initial(cl.servers[k])
                &&& cl.servers[k].id == k
                &&& cl.servers[k].peers == cl.servers.dom().remove(k)
            },
        cl.sent == Set::<SendableMessage<T>>::empty(),
        cl.leader_logs == Map::<Term, Seq<LogEntry<T>>>::empty(),
        cl.ballots == Map::<(ServerId, Term), Seq<LogEntry<T>>>::empty(),
        cl.leader_of == Map::<Term, ServerId>::empty(),
    ensures
        safety_inv(cl),
{
    if !single_server(cl) {
        lemma_initial_raft_inv(cl);
        assert forall|k: ServerId| #[trigger] cl.servers.dom().contains(k) implies follow_acks_ok(cl, k) && commit_ok(
            cl,
            k,
        ) by {
            assert(cl.servers[k].log.delivered =~= cl.servers[k].log.entries.take(0));
        }
    } else {
        assert forall|k: ServerId| #[trigger] cl.servers.dom().contains(k) implies cl.servers[k].log.delivered
            == cl.servers[k].log.entries.take(cl.servers[k].log.committed_len as int) by {
            assert(cl.servers[k].log.delivered =~= cl.servers[k].log.entries.take(0));
        }
    }
}

/// A tick of one server keeps the invariant of the cluster.
pub proof fn lemma_tick_keeps_safety_inv<T>(cl: Cluster<T>, k: ServerId, post_k: ServerState<T>, out: Seq<SendableMessage<T>>)
    requires
        safety_inv(cl),
        cl.servers.dom().contains(k),
        cl.servers[k].election_due() ==> cl.servers[k].current_term < u64::MAX,
        cl.servers[k].tick_step(post_k, out),
        post_k.wf(),
        post_k.log.entries.len() <= usize::MAX,
    ensures
        safety_inv(after(cl, k, post_k, out)),
{
    if single_server(cl) && lone_inv(cl) {
        let pre_k = cl.servers[k];
        lemma_lone_no_followers(cl, k);
        lemma_tick_keeps_history(pre_k, post_k, out);
        match pre_k.role {
            Role::Leader { .. } => {
                if pre_k.role->heartbeat_timeout <= 1 {
                    lemma_replicate_none(post_k, out);
                }
            },
            _ => {
                if pre_k.election_due() {
                    assert(pre_k.quorum() == 1);
                    lemma_replicate_none(post_k, out);
                }
            },
        }
        lemma_lone_step(cl, k, post_k, out);
    } else {
        let pre_k = cl.servers[k];
        assert(pre_k.peers.len() == cl.servers.dom().len() - 1);
        lemma_tick_keeps_raft_inv(cl, k, post_k, out);
        lemma_tick_keeps_cluster_inv(cl, k, post_k, out);
        lemma_tick_keeps_history(pre_k, post_k, out);
        lemma_tick_votes(pre_k, post_k, out);
        crate::matching::lemma_tick_logs(pre_k, post_k, out);
        lemma_tick_commits(pre_k, post_k, out);
        crate::matching::lemma_step_keeps_log_inv(cl, k, post_k, out, None);
        lemma_step_keeps_commit_inv(cl, k, post_k, out, None);
    }
}

/// One server handling a message that was sent to it, or to everyone,
/// keeps the invariant of the cluster.
pub proof fn lemma_receive_keeps_safety_inv<T>(
    cl: Cluster<T>,
    k: ServerId,
    m: SendableMessage<T>,
    post_k: ServerState<T>,
    out: Seq<SendableMessage<T>>,
)
    requires
        safety_inv(cl),
        cl.servers.dom().contains(k),
        cl.sent.contains(m),
        m.0 == Target::Broadcast || m.0 == Target::Single(k),
        cl.servers[k].receive_step(post_k, m.1, out),
        post_k.wf(),
        post_k.log.entries.len() <= usize::MAX,
    ensures
        safety_inv(after(cl, k, post_k, out)),
{
    if single_server(cl) && lone_inv(cl) {
        let pre_k = cl.servers[k];
        lemma_lone_no_followers(cl, k);
        lemma_receive_keeps_history(pre_k, post_k, m.1, out);
        match m.1 {
            RPC::VoteRequest(req) => {
                let mid = choose|mid: ServerState<T>|
                    #[trigger] pre_k.observe_term(mid, req.candidate_term) && mid.answer_vote(post_k, req, out);
                assert(mid.log == pre_k.log);
                assert(out[0].1 is VoteResponse);
            },
            RPC::VoteResponse(res) => {
                let mid = choose|mid: ServerState<T>|
                    #[trigger] pre_k.observe_term(mid, res.term) && mid.count_vote(post_k, res, out);
                assert(mid.log == pre_k.log);
                assert(mid.peers == pre_k.peers);
                if mid.role is Candidate && res.term == mid.current_term && res.vote_granted
                    && mid.role->votes.insert(res.votee_id).len() >= mid.quorum() {
                    lemma_replicate_none(post_k, out);
                }
            },
            RPC::AppendRequest(_) => {
                assert(false);
            },
            RPC::AppendResponse(res) => {
                let mid = choose|mid: ServerState<T>|
                    #[trigger] pre_k.observe_term(mid, res.term) && mid.handle_append_response(post_k, res, out);
                assert(mid.log == pre_k.log);
                assert(mid.role is Leader ==> mid == pre_k);
            },
        }
        lemma_lone_step(cl, k, post_k, out);
    } else {
        let pre_k = cl.servers[k];
        lemma_receive_keeps_raft_inv(cl, k, m, post_k, out);
        lemma_receive_keeps_cluster_inv(cl, k, m, post_k, out);
        lemma_receive_keeps_history(pre_k, post_k, m.1, out);
        lemma_receive_votes(pre_k, post_k, m.1, out);
        crate::matching::lemma_receive_logs(pre_k, post_k, m.1, out);
        lemma_receive_commits(pre_k, post_k, m.1, out);
        assert(received_from(cl.sent, Some(m.1)));
        crate::matching::lemma_step_keeps_log_inv(cl, k, post_k, out, Some(m.1));
        lemma_step_keeps_commit_inv(cl, k, post_k, out, Some(m.1));
    }
}

/// One server handling a client request keeps the invariant of the cluster.
pub proof fn lemma_client_request_keeps_safety_inv<T>(
    cl: Cluster<T>,
    k: ServerId,
    msg: T,
    r: Result<(), crate::server::RaftError>,
    post_k: ServerState<T>,
)
    requires
        safety_inv(cl),
        cl.servers.dom().contains(k),
        cl.servers[k].client_request_step(post_k, msg, r),
        post_k.wf(),
        post_k.log.entries.len() <= usize::MAX,
    ensures
        safety_inv(after(cl, k, post_k, seq![])),
{
    if single_server(cl) && lone_inv(cl) {
        let pre_k = cl.servers[k];
        lemma_client_request_keeps_history(pre_k, post_k, msg, r);
        if pre_k.role is Leader {
            let pushed = ServerState {
                log: LogState {
                    entries: pre_k.log.entries.push(LogEntry { term: pre_k.current_term, data: msg }),
                    ..pre_k.log
                },
                ..pre_k
            };
            if exists|n: nat| pushed.can_commit(n) {
                let n = choose|n: nat|
                    {
                        &&& #[trigger] pushed.can_commit(n)
                        &&& forall|m: nat| #[trigger] pushed.can_commit(m) ==> m <= n
                        &&& post_k == ServerState { log: pushed.log.commit_to(n), ..pushed }
                    };
                let c = pre_k.log.committed_len as int;
                assert(pushed.log.entries.take(c) =~= pre_k.log.entries.take(c));
                assert(post_k.log.delivered =~= post_k.log.entries.take(n as int));
            } else {
                let c = pre_k.log.committed_len as int;
                assert(pushed.log.entries.take(c) =~= pre_k.log.entries.take(c));
            }
        }
        lemma_lone_step(cl, k, post_k, seq![]);
    } else {
        let pre_k = cl.servers[k];
        lemma_client_request_keeps_raft_inv(cl, k, msg, r, post_k);
        lemma_client_request_keeps_cluster_inv(cl, k, msg, r, post_k);
        lemma_client_request_keeps_history(pre_k, post_k, msg, r);
        lemma_client_votes(pre_k, post_k, msg, r);
        crate::matching::lemma_client_logs(pre_k, post_k, msg, r);
        lemma_client_commits(pre_k, post_k, msg, r);
        crate::matching::lemma_step_keeps_log_inv(cl, k, post_k, seq![], None);
        lemma_step_keeps_commit_inv(cl, k, post_k, seq![], None);
    }
}

/// In a cluster that keeps the invariant, every server has committed no more
/// than its log holds, has handed exactly its committed entries to its state
/// machine, and has applied just as many
pub proof fn lemma_commit_within_log<T>(cl: Cluster<T>, k: ServerId)
    requires
        safety_inv(cl),
        cl.servers.dom().contains(k),
    ensures
        cl.servers[k].log.committed_len <= cl.servers[k].log.entries.len(),
        cl.servers[k].log.applied_len == cl.servers[k].log.committed_len,
        cl.servers[k].log.delivered == cl.servers[k].log.entries.take(cl.servers[k].log.committed_len as int),
{
    if !(single_server(cl) && lone_inv(cl)) {
        assert(commit_ok(cl, k));
    }
}

} // verus!
