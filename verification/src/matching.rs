use vstd::prelude::*;

use crate::laws::{
    keeps_history, lemma_client_request_keeps_history, lemma_receive_keeps_history, lemma_tick_keeps_history,
};
use crate::log::{merge_entries, LogEntry, ServerId, Term};
use crate::rpc::{AppendRequest, SendableMessage, RPC};
use crate::rpc::Target;
use crate::safety::{
    after, campaign_msg, cluster_inv, elected, is_initial, lemma_client_request_keeps_cluster_inv,
    lemma_client_votes, lemma_election_safety, lemma_receive_keeps_cluster_inv, lemma_receive_votes,
    lemma_tick_keeps_cluster_inv, lemma_tick_votes, request_ok, voted, votes_step, Cluster,
};
use crate::server::ServerState;

verus! {

/// Every entry of `log` stands, with everything before it, in the leader
/// log of its term
pub open spec fn matches_leaders<T>(tl: Map<Term, Seq<LogEntry<T>>>, log: Seq<LogEntry<T>>) -> bool {
    forall|i: int|
        0 <= i < log.len() ==> {
            let t = (#[trigger] log[i]).term;
            &&& tl.contains_key(t)
            &&& i < tl[t].len()
            &&& log.take(i + 1) == tl[t].take(i + 1)
        }
}

/// The entries of `r` are a slice of `log`, and the term `r` names for the
/// entry before them is the term of that entry in `log`
pub open spec fn slice_of<T>(log: Seq<LogEntry<T>>, r: AppendRequest<T>) -> bool {
    let p = r.leader_last_log_idx as int;
    &&& p + r.entries@.len() <= log.len()
    &&& r.entries@ == log.subrange(p, p + r.entries@.len())
    &&& p > 0 ==> r.leader_last_log_term == log[p - 1].term
}

/// `tl2` holds every leader log of `tl`, each possibly grown at its end
pub open spec fn extends<T>(tl: Map<Term, Seq<LogEntry<T>>>, tl2: Map<Term, Seq<LogEntry<T>>>) -> bool {
    forall|t: Term| #[trigger]
        tl.contains_key(t) ==> {
            &&& tl2.contains_key(t)
            &&& tl[t].len() <= tl2[t].len()
            &&& tl2[t].take(tl[t].len() as int) == tl[t]
        }
}

/// Invariant of the logs of a cluster, from which log matching follows:
/// every log of a server, every leader log and every AppendRequest agrees
/// with the leader logs; a term has a leader log only once a quorum elected
/// a server that no longer runs for that term; a leader's log is the leader
/// log of its term.
pub open spec fn log_inv<T>(cl: Cluster<T>) -> bool {
    let tl = cl.leader_logs;
    let ids = cl.servers.dom();
    &&& forall|t: Term| #[trigger] tl.contains_key(t) ==> matches_leaders(tl, tl[t])
    &&& forall|t: Term| #[trigger]
        tl.contains_key(t) ==> exists|c: ServerId|
            {
                &&& ids.contains(c)
                &&& #[trigger] elected(cl.sent, ids, t, c)
                &&& cl.servers[c].current_term > t || (cl.servers[c].current_term == t
                    && !(cl.servers[c].role is Candidate))
            }
    &&& forall|k: ServerId| #[trigger] ids.contains(k) ==> matches_leaders(tl, cl.servers[k].log.entries)
    &&& forall|k: ServerId| #[trigger]
        ids.contains(k) && cl.servers[k].role is Leader ==> {
            &&& tl.contains_key(cl.servers[k].current_term)
            &&& tl[cl.servers[k].current_term] == cl.servers[k].log.entries
        }
    &&& forall|m: SendableMessage<T>| #[trigger]
        cl.sent.contains(m) ==> (m.1 matches RPC::AppendRequest(r) ==> tl.contains_key(r.leader_term)
            && slice_of(tl[r.leader_term], r))
}

/// How a step changes the entries of a server's log: not at all, by the
/// leader adding one entry of its term at the end, or by taking in the
/// entries of an AppendRequest of the server's new term whose preceding
/// entry it holds
pub open spec fn entries_step<T>(pre: ServerState<T>, post: ServerState<T>, received: Option<RPC<T>>) -> bool {
    ||| post.log.entries == pre.log.entries
    ||| {
        &&& pre.role is Leader
        &&& post.role is Leader
        &&& post.current_term == pre.current_term
        &&& post.log.entries.len() == pre.log.entries.len() + 1
        &&& post.log.entries.take(pre.log.entries.len() as int) == pre.log.entries
        &&& post.log.entries.last().term == pre.current_term
    }
    ||| received matches Some(RPC::AppendRequest(r)) && {
        &&& post.role is Follower
        &&& post.current_term == r.leader_term
        &&& r.leader_last_log_idx <= pre.log.entries.len()
        &&& r.leader_last_log_idx > 0 ==> pre.log.entries[r.leader_last_log_idx - 1].term
            == r.leader_last_log_term
        &&& post.log.entries == merge_entries(pre.log.entries, r.leader_last_log_idx as nat, r.entries@)
    }
}

/// The AppendRequests a step sends come from a leader, in its term, and
/// carry slices of its log
pub open spec fn appends_step<T>(post: ServerState<T>, out: Seq<SendableMessage<T>>) -> bool {
    forall|i: int|
        0 <= i < out.len() ==> ((#[trigger] out[i]).1 matches RPC::AppendRequest(r) ==> {
            &&& post.role is Leader
            &&& r.leader_term == post.current_term
            &&& r.leader_commit == post.log.committed_len
            &&& slice_of(post.log.entries, r)
        })
}

/// An AppendRequest a leader makes for a follower carries a slice of its log
proof fn lemma_append_is_slice<T>(s: ServerState<T>, msg: SendableMessage<T>, k: ServerId, n: nat)
    requires
        s.is_append_for(msg, k, n),
        n <= s.log.entries.len(),
    ensures
        msg.1 matches RPC::AppendRequest(r) && r.leader_term == s.current_term && r.leader_commit
            == s.log.committed_len && slice_of(s.log.entries, r),
{
}

/// AppendRequests to every follower carry slices of the leader's log
pub(crate) proof fn lemma_replicate_appends<T>(s: ServerState<T>, out: Seq<SendableMessage<T>>)
    requires
        s.wf(),
        s.replicate_all(out),
    ensures
        appends_step(s, out),
{
    let followers = s.role->followers;
    let ks = choose|ks: Seq<ServerId>|
        {
            &&& ks.to_set() == followers.dom()
            &&& ks.no_duplicates()
            &&& forall|i: int, j: int| 0 <= i < j < ks.len() ==> ks[i] < ks[j]
            &&& out.len() == ks.len()
            &&& forall|i: int|
                0 <= i < ks.len() ==> #[trigger] s.is_append_for(out[i], ks[i], followers[ks[i]].sent_up_to as nat)
        };
    assert forall|i: int| 0 <= i < out.len() implies ((#[trigger] out[i]).1 matches RPC::AppendRequest(r) ==> {
        &&& s.role is Leader
        &&& r.leader_term == s.current_term
        &&& r.leader_commit == s.log.committed_len
        &&& slice_of(s.log.entries, r)
    }) by {
        assert(s.is_append_for(out[i], ks[i], followers[ks[i]].sent_up_to as nat));
        assert(ks.to_set().contains(ks[i]));
        lemma_append_is_slice(s, out[i], ks[i], followers[ks[i]].sent_up_to as nat);
    }
}

/// What a tick does to logs: it leaves the entries alone, and a leader's
/// heartbeat carries slices of its log
pub(crate) proof fn lemma_tick_logs<T>(pre: ServerState<T>, post: ServerState<T>, out: Seq<SendableMessage<T>>)
    requires
        pre.wf(),
        post.wf(),
        pre.quorum() >= 2,
        pre.tick_step(post, out),
    ensures
        entries_step(pre, post, None),
        appends_step(post, out),
{
    if pre.role is Leader && pre.role->heartbeat_timeout <= 1 {
        lemma_replicate_appends(post, out);
    }
}

/// What handling a client request does to logs: a leader adds one entry of
/// its term at the end; nothing is sent
pub(crate) proof fn lemma_client_logs<T>(pre: ServerState<T>, post: ServerState<T>, msg: T, r: Result<(), crate::server::RaftError>)
    requires
        pre.client_request_step(post, msg, r),
    ensures
        entries_step(pre, post, None),
        appends_step(post, seq![]),
{
    if pre.role is Leader {
        assert(post.log.entries.take(pre.log.entries.len() as int) =~= pre.log.entries);
    }
}

/// What handling a message does to logs
pub(crate) proof fn lemma_receive_logs<T>(pre: ServerState<T>, post: ServerState<T>, rpc: RPC<T>, out: Seq<SendableMessage<T>>)
    requires
        pre.wf(),
        post.wf(),
        pre.receive_step(post, rpc, out),
    ensures
        entries_step(pre, post, Some(rpc)),
        appends_step(post, out),
{
    match rpc {
        RPC::VoteRequest(req) => {
            let mid = choose|mid: ServerState<T>|
                #[trigger] pre.observe_term(mid, req.candidate_term) && mid.answer_vote(post, req, out);
        },
        RPC::VoteResponse(res) => {
            let mid = choose|mid: ServerState<T>|
                #[trigger] pre.observe_term(mid, res.term) && mid.count_vote(post, res, out);
            if mid.role is Candidate && res.term == mid.current_term && res.vote_granted
                && mid.role->votes.insert(res.votee_id).len() >= mid.quorum() {
                lemma_replicate_appends(post, out);
            }
        },
        RPC::AppendRequest(req) => {
            let mid = choose|mid: ServerState<T>|
                #[trigger] pre.observe_term(mid, req.leader_term) && mid.handle_append(post, req, out);
            if !(mid.role is Follower) && req.leader_term == mid.current_term {
                let mid2 = choose|mid2: ServerState<T>|
                    #[trigger] mid.reset_to_follower(mid2, req.leader_term) && mid2.follower_append(post, req, out);
            }
        },
        RPC::AppendResponse(res) => {
            let mid = choose|mid: ServerState<T>|
                #[trigger] pre.observe_term(mid, res.term) && mid.handle_append_response(post, res, out);
            if mid.role is Leader && res.term == mid.current_term && mid.role->followers.contains_key(
                res.follower_id,
            ) {
                let f = mid.role->followers[res.follower_id];
                if !(res.ok && f.acked_up_to <= res.ack_idx <= mid.log.entries.len()) && f.sent_up_to > 0 {
                    lemma_append_is_slice(post, out[0], res.follower_id, (f.sent_up_to - 1) as nat);
                }
            }
        },
    }
}

/// Two logs that agree with the leader logs and hold entries of one term
/// at one index are equal up to that index
pub(crate) proof fn lemma_agree<T>(tl: Map<Term, Seq<LogEntry<T>>>, a: Seq<LogEntry<T>>, b: Seq<LogEntry<T>>, i: int)
    requires
        matches_leaders(tl, a),
        matches_leaders(tl, b),
        0 <= i < a.len(),
        i < b.len(),
        a[i].term == b[i].term,
    ensures
        a.take(i + 1) == b.take(i + 1),
{
    assert(a.take(i + 1) == tl[a[i].term].take(i + 1));
    assert(b.take(i + 1) == tl[b[i].term].take(i + 1));
}

/// A prefix of a log that agrees with the leader logs agrees with them too
proof fn lemma_take_matches<T>(tl: Map<Term, Seq<LogEntry<T>>>, log: Seq<LogEntry<T>>, n: int)
    requires
        matches_leaders(tl, log),
        0 <= n <= log.len(),
    ensures
        matches_leaders(tl, log.take(n)),
{
    let pre = log.take(n);
    assert forall|i: int| 0 <= i < pre.len() implies {
        let t = (#[trigger] pre[i]).term;
        &&& tl.contains_key(t)
        &&& i < tl[t].len()
        &&& pre.take(i + 1) == tl[t].take(i + 1)
    } by {
        assert(pre[i] == log[i]);
        assert(pre.take(i + 1) =~= log.take(i + 1));
    }
}

/// Growing the leader logs at their ends keeps every log in agreement
pub(crate) proof fn lemma_extends_matches<T>(tl: Map<Term, Seq<LogEntry<T>>>, tl2: Map<Term, Seq<LogEntry<T>>>, log: Seq<LogEntry<T>>)
    requires
        extends(tl, tl2),
        matches_leaders(tl, log),
    ensures
        matches_leaders(tl2, log),
{
    assert forall|i: int| 0 <= i < log.len() implies {
        let t = (#[trigger] log[i]).term;
        &&& tl2.contains_key(t)
        &&& i < tl2[t].len()
        &&& log.take(i + 1) == tl2[t].take(i + 1)
    } by {
        let t = log[i].term;
        assert(tl2[t].take(tl[t].len() as int) == tl[t]);
        assert(tl2[t].take(i + 1) =~= tl2[t].take(tl[t].len() as int).take(i + 1));
    }
}

/// Growing the leader logs at their ends keeps every AppendRequest a slice
proof fn lemma_extends_slice<T>(tl: Map<Term, Seq<LogEntry<T>>>, tl2: Map<Term, Seq<LogEntry<T>>>, r: AppendRequest<T>)
    requires
        extends(tl, tl2),
        tl.contains_key(r.leader_term),
        slice_of(tl[r.leader_term], r),
    ensures
        tl2.contains_key(r.leader_term),
        slice_of(tl2[r.leader_term], r),
{
    let a = tl[r.leader_term];
    let b = tl2[r.leader_term];
    let p = r.leader_last_log_idx as int;
    assert(b.take(a.len() as int) == a);
    assert(b.subrange(p, p + r.entries@.len()) =~= a.subrange(p, p + r.entries@.len()));
    if p > 0 {
        assert(b[p - 1] == b.take(a.len() as int)[p - 1]);
    }
}

/// A log that agrees with the leader logs still does with one more entry
/// when it is the leader log of that entry's term
proof fn lemma_push_matches<T>(tl: Map<Term, Seq<LogEntry<T>>>, log: Seq<LogEntry<T>>, n: int)
    requires
        0 <= n < log.len(),
        log.len() == n + 1,
        matches_leaders(tl, log.take(n)),
        tl.contains_key(log[n].term),
        tl[log[n].term] == log,
    ensures
        matches_leaders(tl, log),
{
    let pre = log.take(n);
    assert forall|i: int| 0 <= i < log.len() implies {
        let t = (#[trigger] log[i]).term;
        &&& tl.contains_key(t)
        &&& i < tl[t].len()
        &&& log.take(i + 1) == tl[t].take(i + 1)
    } by {
        if i < n {
            assert(pre[i] == log[i]);
            assert(pre.take(i + 1) =~= log.take(i + 1));
        }
    }
}

/// A follower that holds the entry an AppendRequest's slice follows ends up,
/// after merging it, either with its log unchanged or with a prefix of the
/// leader log; either way its log still agrees with the leader logs
proof fn lemma_merge_matches<T>(tl: Map<Term, Seq<LogEntry<T>>>, ours: Seq<LogEntry<T>>, r: AppendRequest<T>)
    requires
        matches_leaders(tl, ours),
        tl.contains_key(r.leader_term),
        matches_leaders(tl, tl[r.leader_term]),
        slice_of(tl[r.leader_term], r),
        r.leader_last_log_idx <= ours.len(),
        r.leader_last_log_idx > 0 ==> ours[r.leader_last_log_idx - 1].term == r.leader_last_log_term,
    ensures
        matches_leaders(tl, merge_entries(ours, r.leader_last_log_idx as nat, r.entries@)),
{
    let lead = tl[r.leader_term];
    let p = r.leader_last_log_idx as int;
    let theirs = r.entries@;
    let n = theirs.len() as int;
    let merged = merge_entries(ours, p as nat, theirs);
    if p > 0 {
        lemma_agree(tl, ours, lead, p - 1);
    }
    assert(ours.take(p) =~= lead.take(p));
    if crate::log::conflicts(ours, p as nat, theirs) {
        assert(merged =~= lead.take(p + n));
        lemma_take_matches(tl, lead, p + n);
    } else if p + n > ours.len() {
        if ours.len() > p {
            let last = ours.len() - 1;
            assert(theirs[last - p] == lead[last]);
            lemma_agree(tl, ours, lead, last);
            assert(ours =~= ours.take(last + 1));
        }
        assert(merged =~= lead.take(p + n));
        lemma_take_matches(tl, lead, p + n);
    }
}

/// Votes once cast stay cast as more messages are sent, and so does an election
proof fn lemma_elected_grows<T>(
    sent: Set<SendableMessage<T>>,
    sent2: Set<SendableMessage<T>>,
    ids: Set<ServerId>,
    t: Term,
    c: ServerId,
)
    requires
        sent.subset_of(sent2),
        elected(sent, ids, t, c),
    ensures
        elected(sent2, ids, t, c),
{
    let q = choose|q: Set<ServerId>|
        {
            &&& q.subset_of(ids)
            &&& q.len() >= crate::server::quorum_of((ids.len() - 1) as nat)
            &&& forall|v: ServerId| #[trigger] q.contains(v) ==> voted(sent, v, t, c)
        };
    assert forall|v: ServerId| #[trigger] q.contains(v) implies voted(sent2, v, t, c) by {
        assert(voted(sent, v, t, c));
        if !sent.contains(crate::safety::grant_msg(t, v, c)) {
            let m = choose|m: SendableMessage<T>| #[trigger] sent.contains(m) && campaign_msg(m, t, c);
            assert(sent2.contains(m));
        }
    }
}

/// A server that takes the lead of its term was a candidate in it, finds no
/// leader log of that term, and keeps its log as it was
pub(crate) proof fn lemma_fresh_leader<T>(
    cl: Cluster<T>,
    k: ServerId,
    post_k: ServerState<T>,
    out: Seq<SendableMessage<T>>,
    received: Option<RPC<T>>,
)
    requires
        cluster_inv(cl),
        log_inv(cl),
        cluster_inv(after(cl, k, post_k, out)),
        cl.servers.dom().contains(k),
        votes_step(cl.servers[k], post_k, out, received),
        entries_step(cl.servers[k], post_k, received),
    ensures
        post_k.role is Leader && !(cl.servers[k].role is Leader && cl.servers[k].current_term
            == post_k.current_term) ==> {
            &&& cl.servers[k].role is Candidate
            &&& cl.servers[k].current_term == post_k.current_term
            &&& !cl.leader_logs.contains_key(post_k.current_term)
            &&& post_k.log.entries == cl.servers[k].log.entries
        },
{
    let pre_k = cl.servers[k];
    let post = after(cl, k, post_k, out);
    let ids = cl.servers.dom();
    let tl = cl.leader_logs;
    let t = post_k.current_term;
    assert(post.servers.dom() =~= ids);
    assert(cl.sent.subset_of(post.sent));
    let fresh = post_k.role is Leader && !(pre_k.role is Leader && pre_k.current_term == t);
    if fresh {
        assert(pre_k.role is Candidate && pre_k.current_term == t);
        if tl.contains_key(t) {
            let c = choose|c: ServerId|
                {
                    &&& ids.contains(c)
                    &&& #[trigger] elected(cl.sent, ids, t, c)
                    &&& cl.servers[c].current_term > t || (cl.servers[c].current_term == t
                        && !(cl.servers[c].role is Candidate))
                };
            lemma_elected_grows(cl.sent, post.sent, ids, t, c);
            assert(elected(post.sent, ids, t, k));
            let qc = choose|q: Set<ServerId>|
                {
                    &&& q.subset_of(ids)
                    &&& q.len() >= crate::server::quorum_of((ids.len() - 1) as nat)
                    &&& forall|v: ServerId| #[trigger] q.contains(v) ==> voted(post.sent, v, t, c)
                };
            let qk = choose|q: Set<ServerId>|
                {
                    &&& q.subset_of(ids)
                    &&& q.len() >= crate::server::quorum_of((ids.len() - 1) as nat)
                    &&& forall|v: ServerId| #[trigger] q.contains(v) ==> voted(post.sent, v, t, k)
                };
            crate::laws::lemma_quorums_intersect(ids, qc, qk);
            let x = choose|x: ServerId| qc.contains(x) && qk.contains(x);
            assert(voted(post.sent, x, t, c) && voted(post.sent, x, t, k));
            assert(false);
        }
        assert(post_k.log.entries == pre_k.log.entries);
    }
}

/// A step of one server keeps the invariant of the logs of the cluster when
/// it keeps the cluster's invariant and the server's history, follows the
/// rules of votes and of logs, and takes in only AppendRequests that
/// agree with the leader logs
pub(crate) proof fn lemma_step_keeps_log_inv<T>(
    cl: Cluster<T>,
    k: ServerId,
    post_k: ServerState<T>,
    out: Seq<SendableMessage<T>>,
    received: Option<RPC<T>>,
)
    requires
        cluster_inv(cl),
        log_inv(cl),
        cluster_inv(after(cl, k, post_k, out)),
        cl.servers.dom().contains(k),
        post_k.wf(),
        keeps_history(cl.servers[k], post_k),
        votes_step(cl.servers[k], post_k, out, received),
        entries_step(cl.servers[k], post_k, received),
        appends_step(post_k, out),
        received matches Some(RPC::AppendRequest(r)) ==> cl.leader_logs.contains_key(r.leader_term)
            && slice_of(cl.leader_logs[r.leader_term], r),
    ensures
        log_inv(after(cl, k, post_k, out)),
        extends(cl.leader_logs, after(cl, k, post_k, out).leader_logs),
{
    let pre_k = cl.servers[k];
    let post = after(cl, k, post_k, out);
    let ids = cl.servers.dom();
    let tl = cl.leader_logs;
    let tl2 = post.leader_logs;
    let t = post_k.current_term;
    assert(post.servers.dom() =~= ids);
    assert(cl.sent.subset_of(post.sent));
    // a server that becomes leader finds no leader log of its term
    let fresh = post_k.role is Leader && !(pre_k.role is Leader && pre_k.current_term == t);
    lemma_fresh_leader(cl, k, post_k, out, received);
    // the leader logs only grow
    assert forall|t2: Term| #[trigger] tl.contains_key(t2) implies {
        &&& tl2.contains_key(t2)
        &&& tl[t2].len() <= tl2[t2].len()
        &&& tl2[t2].take(tl[t2].len() as int) == tl[t2]
    } by {
        if post_k.role is Leader && t2 == t {
            assert(!fresh);
            assert(tl[t] == pre_k.log.entries);
            if post_k.log.entries == pre_k.log.entries {
                assert(post_k.log.entries.take(pre_k.log.entries.len() as int) =~= pre_k.log.entries);
            }
        } else {
            assert(tl2[t2].take(tl[t2].len() as int) =~= tl[t2]);
        }
    }
    // the log of the server that stepped agrees with the new leader logs
    assert(matches_leaders(tl2, post_k.log.entries)) by {
        lemma_extends_matches(tl, tl2, pre_k.log.entries);
        if post_k.log.entries == pre_k.log.entries {
        } else if pre_k.role is Leader && post_k.role is Leader && post_k.current_term == pre_k.current_term
            && post_k.log.entries.len() == pre_k.log.entries.len() + 1 && post_k.log.entries.take(
            pre_k.log.entries.len() as int,
        ) == pre_k.log.entries && post_k.log.entries.last().term == pre_k.current_term {
            lemma_push_matches(tl2, post_k.log.entries, pre_k.log.entries.len() as int);
        } else {
            let r = received->Some_0->AppendRequest_0;
            lemma_merge_matches(tl, pre_k.log.entries, r);
            lemma_extends_matches(tl, tl2, post_k.log.entries);
        }
    }
    assert forall|t2: Term| #[trigger] tl2.contains_key(t2) implies matches_leaders(tl2, tl2[t2]) by {
        if !(post_k.role is Leader && t2 == t) {
            lemma_extends_matches(tl, tl2, tl[t2]);
        }
    }
    assert forall|k2: ServerId| #[trigger] ids.contains(k2) implies matches_leaders(
        tl2,
        post.servers[k2].log.entries,
    ) by {
        if k2 != k {
            lemma_extends_matches(tl, tl2, cl.servers[k2].log.entries);
        }
    }
    assert forall|k2: ServerId| #[trigger]
        ids.contains(k2) && post.servers[k2].role is Leader implies {
        &&& tl2.contains_key(post.servers[k2].current_term)
        &&& tl2[post.servers[k2].current_term] == post.servers[k2].log.entries
    } by {
        if k2 != k && post_k.role is Leader && cl.servers[k2].current_term == t {
            lemma_election_safety(post, k2, k);
        }
    }
    assert forall|m: SendableMessage<T>| #[trigger] post.sent.contains(m) implies (m.1 matches RPC::AppendRequest(
        r,
    ) ==> tl2.contains_key(r.leader_term) && slice_of(tl2[r.leader_term], r)) by {
        if let RPC::AppendRequest(r) = m.1 {
            if cl.sent.contains(m) {
                lemma_extends_slice(tl, tl2, r);
            } else {
                let i = choose|i: int| 0 <= i < out.len() && out[i] == m;
                assert(appends_step(post_k, out));
                assert(out[i].1 is AppendRequest);
            }
        }
    }
    assert forall|t2: Term| #[trigger] tl2.contains_key(t2) implies exists|c: ServerId|
        {
            &&& ids.contains(c)
            &&& #[trigger] elected(post.sent, ids, t2, c)
            &&& post.servers[c].current_term > t2 || (post.servers[c].current_term == t2
                && !(post.servers[c].role is Candidate))
        } by {
        if tl.contains_key(t2) {
            let c = choose|c: ServerId|
                {
                    &&& ids.contains(c)
                    &&& #[trigger] elected(cl.sent, ids, t2, c)
                    &&& cl.servers[c].current_term > t2 || (cl.servers[c].current_term == t2
                        && !(cl.servers[c].role is Candidate))
                };
            lemma_elected_grows(cl.sent, post.sent, ids, t2, c);
            if c == k && post_k.role is Candidate && post_k.current_term == t2 {
                let i = choose|i: int|
                    0 <= i < out.len() && campaign_msg(#[trigger] out[i], post_k.current_term, pre_k.id);
                assert(request_ok(pre_k, post_k, out[i]));
            }
        } else {
            assert(elected(post.sent, ids, t, k));
        }
    }
}

/// A cluster just made, before any message was sent and before any term
/// had a leader, keeps the invariant of the logs.
pub proof fn lemma_initial_log_inv<T>(cl: Cluster<T>)
    requires
        forall|k: ServerId| #[trigger] cl.servers.dom().contains(k) ==> is_initial(cl.servers[k]),
        cl.sent == Set::<SendableMessage<T>>::empty(),
        cl.leader_logs == Map::<Term, Seq<LogEntry<T>>>::empty(),
    ensures
        log_inv(cl),
{
}

/// A tick of one server keeps the invariants of the cluster and of its logs.
pub proof fn lemma_tick_keeps_log_inv<T>(
    cl: Cluster<T>,
    k: ServerId,
    post_k: ServerState<T>,
    out: Seq<SendableMessage<T>>,
)
    requires
        cluster_inv(cl),
        log_inv(cl),
        cl.servers.dom().contains(k),
        cl.servers[k].election_due() ==> cl.servers[k].current_term < u64::MAX,
        cl.servers[k].tick_step(post_k, out),
        post_k.wf(),
    ensures
        cluster_inv(after(cl, k, post_k, out)),
        log_inv(after(cl, k, post_k, out)),
{
    let pre_k = cl.servers[k];
    assert(pre_k.peers.len() == cl.servers.dom().len() - 1);
    lemma_tick_keeps_cluster_inv(cl, k, post_k, out);
    lemma_tick_keeps_history(pre_k, post_k, out);
    lemma_tick_votes(pre_k, post_k, out);
    lemma_tick_logs(pre_k, post_k, out);
    lemma_step_keeps_log_inv(cl, k, post_k, out, None);
}

/// One server handling a message that was sent to it, or to everyone,
/// keeps the invariants of the cluster and of its logs.
pub proof fn lemma_receive_keeps_log_inv<T>(
    cl: Cluster<T>,
    k: ServerId,
    m: SendableMessage<T>,
    post_k: ServerState<T>,
    out: Seq<SendableMessage<T>>,
)
    requires
        cluster_inv(cl),
        log_inv(cl),
        cl.servers.dom().contains(k),
        cl.sent.contains(m),
        m.0 == Target::Broadcast || m.0 == Target::Single(k),
        cl.servers[k].receive_step(post_k, m.1, out),
        post_k.wf(),
    ensures
        cluster_inv(after(cl, k, post_k, out)),
        log_inv(after(cl, k, post_k, out)),
{
    let pre_k = cl.servers[k];
    lemma_receive_keeps_cluster_inv(cl, k, m, post_k, out);
    lemma_receive_keeps_history(pre_k, post_k, m.1, out);
    lemma_receive_votes(pre_k, post_k, m.1, out);
    lemma_receive_logs(pre_k, post_k, m.1, out);
    lemma_step_keeps_log_inv(cl, k, post_k, out, Some(m.1));
}

/// One server handling a client request keeps the invariants of the
/// cluster and of its logs.
pub proof fn lemma_client_request_keeps_log_inv<T>(
    cl: Cluster<T>,
    k: ServerId,
    msg: T,
    r: Result<(), crate::server::RaftError>,
    post_k: ServerState<T>,
)
    requires
        cluster_inv(cl),
        log_inv(cl),
        cl.servers.dom().contains(k),
        cl.servers[k].client_request_step(post_k, msg, r),
        post_k.wf(),
    ensures
        cluster_inv(after(cl, k, post_k, seq![])),
        log_inv(after(cl, k, post_k, seq![])),
{
    let pre_k = cl.servers[k];
    lemma_client_request_keeps_cluster_inv(cl, k, msg, r, post_k);
    lemma_client_request_keeps_history(pre_k, post_k, msg, r);
    lemma_client_votes(pre_k, post_k, msg, r);
    lemma_client_logs(pre_k, post_k, msg, r);
    lemma_step_keeps_log_inv(cl, k, post_k, seq![], None);
}

/// Log matching: in a cluster that keeps the invariant of its logs, or that
/// has a single server, when the logs of two servers hold entries of the
/// same term at the same index, they are identical up to and including that
/// index.
pub proof fn lemma_log_matching<T>(cl: Cluster<T>, a: ServerId, b: ServerId, i: int)
    requires
        log_inv(cl) || crate::safety::single_server(cl),
        cl.servers.dom().contains(a),
        cl.servers.dom().contains(b),
        0 <= i < cl.servers[a].log.entries.len(),
        i < cl.servers[b].log.entries.len(),
        cl.servers[a].log.entries[i].term == cl.servers[b].log.entries[i].term,
    ensures
        cl.servers[a].log.entries.take(i + 1) == cl.servers[b].log.entries.take(i + 1),
{
    if crate::safety::single_server(cl) {
        crate::safety::lemma_single_server_same(cl, a, b);
    } else {
        lemma_agree(cl.leader_logs, cl.servers[a].log.entries, cl.servers[b].log.entries, i);
    }
}

} // verus!
