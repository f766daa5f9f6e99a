use vstd::prelude::*;

use std::collections::BTreeMap;
use vstd::std_specs::iter::IteratorSpec;

use crate::laws::{lemma_receive_keeps_history, lemma_tick_keeps_history};
use crate::log::ServerId;
use crate::rpc::{SendableMessage, Target, RPC};
use crate::completeness::{
    lemma_client_request_keeps_safety_inv, lemma_initial_safety_inv, lemma_receive_keeps_safety_inv,
    lemma_state_machine_safety, lemma_tick_keeps_safety_inv, safety_inv,
};
use crate::log::{LogEntry, Term};
use crate::safety::{after, is_initial, lemma_election_safety, Cluster};
use crate::server::{lemma_log_fits, lemma_tick_sends, RaftError, RaftServer, Role, ServerState};

verus! {

broadcast use vstd::std_specs::btree::group_btree_axioms;

/// A medium that carries the messages of a cluster of servers
pub trait TransportMedium<T> {
    /// Whether the medium can take its next step
    spec fn ready(&self) -> bool;

    /// Returns how many messages were passed in that tick
    fn tick(&mut self) -> (r: Result<usize, RaftError>)
        requires
            old(self).ready(),
    ;
}

/// A perfectly reliable transport medium that never drops packets
#[verifier::reject_recursive_types(T)]
#[verifier::reject_recursive_types(S)]
pub struct ReliableTransport<T, S> {
    /// Messages waiting to be delivered
    pub msg_queue: Vec<SendableMessage<T>>,
    /// The servers of the cluster, each under its own id
    pub peers: BTreeMap<ServerId, RaftServer<T, S>>,
}

/// Every server a message is addressed to or names as its sender is one of `ids`
pub open spec fn known_message<T>(msg: SendableMessage<T>, ids: Set<ServerId>) -> bool {
    &&& (msg.0 matches Target::Single(to) ==> ids.contains(to))
    &&& match msg.1 {
        RPC::VoteRequest(req) => ids.contains(req.candidate_id),
        RPC::AppendRequest(req) => ids.contains(req.leader_id),
        _ => true,
    }
}

/// Every message of `msgs` is known to `ids`
pub open spec fn known_messages<T>(msgs: Seq<SendableMessage<T>>, ids: Set<ServerId>) -> bool {
    forall|i: int| 0 <= i < msgs.len() ==> #[trigger] known_message(msgs[i], ids)
}

/// A server of a cluster made of `ids`: it stands under its own id and only
/// knows peers of the cluster
pub open spec fn member<T>(s: ServerState<T>, k: ServerId, ids: Set<ServerId>) -> bool {
    &&& s.wf()
    &&& s.id == k
    &&& s.peers.subset_of(ids)
}

/// What never goes back on a server, whatever number of steps it takes:
/// its identity, its term, its committed length and what it delivered
pub open spec fn history_grows<T>(pre: ServerState<T>, post: ServerState<T>) -> bool {
    &&& post.id == pre.id
    &&& post.peers == pre.peers
    &&& post.config == pre.config
    &&& post.current_term >= pre.current_term
    &&& post.log.committed_len >= pre.log.committed_len
    &&& pre.log.delivered.len() <= post.log.delivered.len()
    &&& post.log.delivered.take(pre.log.delivered.len() as int) == pre.log.delivered
}

/// Standing still is growth
proof fn lemma_history_grows_refl<T>(a: ServerState<T>)
    ensures
        history_grows(a, a),
{
    assert(a.log.delivered.take(a.log.delivered.len() as int) =~= a.log.delivered);
}

/// Two steps of growth are a step of growth
proof fn lemma_history_grows_trans<T>(a: ServerState<T>, b: ServerState<T>, c: ServerState<T>)
    requires
        history_grows(a, b),
        history_grows(b, c),
    ensures
        history_grows(a, c),
{
    assert(c.log.delivered.take(a.log.delivered.len() as int) =~= c.log.delivered.take(
        b.log.delivered.len() as int,
    ).take(a.log.delivered.len() as int));
}

/// Messages sent to followers go to peers and name the leader as their sender
proof fn lemma_replicated_known<T>(s: ServerState<T>, out: Seq<SendableMessage<T>>, ids: Set<ServerId>)
    requires
        s.wf(),
        ids.contains(s.id),
        s.peers.subset_of(ids),
        s.replicate_all(out),
    ensures
        known_messages(out, ids),
{
    let followers = s.role->followers;
    let ks = choose|ks: Seq<ServerId>|
        {
            &&& ks.to_set() == followers.dom()
            &&& ks.no_duplicates()
            &&& forall|i: int, j: int| 0 <= i < j < ks.len() ==> ks[i] < ks[j]
            &&& out.len() == ks.len()
            &&& forall|i: int|
                0 <= i < ks.len() ==> #[trigger] s.is_append_for(out[i], ks[i], followers[ks[i]].sent_up_to as nat)
        };
    assert forall|i: int| 0 <= i < out.len() implies #[trigger] known_message(out[i], ids) by {
        assert(s.is_append_for(out[i], ks[i], followers[ks[i]].sent_up_to as nat));
        assert(ks.to_set().contains(ks[i]));
    }
}

/// A tick of a member of the cluster only sends messages known to the cluster
proof fn lemma_tick_known<T>(pre: ServerState<T>, post: ServerState<T>, out: Seq<SendableMessage<T>>, ids: Set<ServerId>)
    requires
        member(pre, pre.id, ids),
        ids.contains(pre.id),
        pre.election_due() ==> pre.current_term < u64::MAX,
        pre.tick_step(post, out),
        post.wf(),
    ensures
        known_messages(out, ids),
        member(post, pre.id, ids),
        history_grows(pre, post),
{
    lemma_tick_keeps_history(pre, post, out);
    match pre.role {
        Role::Leader { heartbeat_timeout, .. } => {
            if heartbeat_timeout <= 1 {
                lemma_replicated_known(post, out, ids);
            }
        },
        _ => {
            if pre.election_due() && pre.quorum() == 1 {
                lemma_replicated_known(post, out, ids);
            }
        },
    }
}

/// Handling a message known to the cluster only sends messages known to it
proof fn lemma_receive_known<T>(
    pre: ServerState<T>,
    post: ServerState<T>,
    rpc: RPC<T>,
    out: Seq<SendableMessage<T>>,
    ids: Set<ServerId>,
)
    requires
        member(pre, pre.id, ids),
        ids.contains(pre.id),
        known_message((Target::Broadcast, rpc), ids),
        pre.receive_step(post, rpc, out),
        post.wf(),
    ensures
        known_messages(out, ids),
        member(post, pre.id, ids),
        history_grows(pre, post),
{
    lemma_receive_keeps_history(pre, post, rpc, out);
    match rpc {
        RPC::VoteResponse(res) => {
            let mid = choose|mid: ServerState<T>|
                #[trigger] pre.observe_term(mid, res.term) && mid.count_vote(post, res, out);
            if mid.role is Candidate && res.term == mid.current_term && res.vote_granted
                && mid.role->votes.insert(res.votee_id).len() >= mid.quorum() {
                lemma_replicated_known(post, out, ids);
            }
        },
        RPC::AppendResponse(res) => {
            let mid = choose|mid: ServerState<T>|
                #[trigger] pre.observe_term(mid, res.term) && mid.handle_append_response(post, res, out);
            if mid.role is Leader && res.term == mid.current_term && mid.role->followers.contains_key(
                res.follower_id,
            ) {
                let f = mid.role->followers[res.follower_id];
                if !(res.ok && f.acked_up_to <= res.ack_idx <= mid.log.entries.len()) && f.sent_up_to > 0 {
                    assert(mid.role->followers.dom().contains(res.follower_id));
                    assert(known_message(out[0], ids));
                }
            }
        },
        _ => {},
    }
}

/// One step that a transport has a server take
pub enum Step<T> {
    /// The server ticks
    Tick(ServerId),
    /// The server handles a message
    Deliver(ServerId, RPC<T>),
}

/// The models of the servers of a transport, under their ids
pub open spec fn views<T, S>(peers: Map<ServerId, RaftServer<T, S>>) -> Map<ServerId, ServerState<T>> {
    Map::new(|k: ServerId| peers.contains_key(k), |k: ServerId| peers[k]@)
}

/// The servers `pre` become `post` when one of them takes `step`, sending `out`
pub open spec fn step_ok<T>(
    pre: Map<ServerId, ServerState<T>>,
    post: Map<ServerId, ServerState<T>>,
    step: Step<T>,
    out: Seq<SendableMessage<T>>,
) -> bool {
    match step {
        Step::Tick(k) => pre.contains_key(k) && pre[k].tick_step(post[k], out) && post == pre.insert(k, post[k]),
        Step::Deliver(k, rpc) => pre.contains_key(k) && pre[k].receive_step(post[k], rpc, out) && post == pre.insert(
            k,
            post[k],
        ),
    }
}

/// The servers go through `states`, taking `steps` one after the other and
/// sending `outs`
pub open spec fn run<T>(
    states: Seq<Map<ServerId, ServerState<T>>>,
    steps: Seq<Step<T>>,
    outs: Seq<Seq<SendableMessage<T>>>,
) -> bool {
    &&& states.len() == steps.len() + 1
    &&& outs.len() == steps.len()
    &&& forall|i: int| 0 <= i < steps.len() ==> step_ok(states[i], states[i + 1], #[trigger] steps[i], outs[i])
}

/// Every server of `keys` ticks, in that order
pub open spec fn ticks_of<T>(keys: Seq<ServerId>) -> Seq<Step<T>> {
    keys.map_values(|k: ServerId| Step::<T>::Tick(k))
}

/// Delivering `m`: to the server it is addressed to, or to every server of
/// `keys` in that order
pub open spec fn targets<T>(m: SendableMessage<T>, keys: Seq<ServerId>) -> Seq<Step<T>> {
    match m.0 {
        Target::Single(to) => seq![Step::Deliver(to, m.1)],
        Target::Broadcast => keys.map_values(|k: ServerId| Step::Deliver(k, m.1)),
    }
}

/// Delivering every message of `msgs`, in order
pub open spec fn deliveries<T>(msgs: Seq<SendableMessage<T>>, keys: Seq<ServerId>) -> Seq<Step<T>>
    decreases msgs.len(),
{
    if msgs.len() == 0 {
        Seq::empty()
    } else {
        deliveries(msgs.drop_last(), keys) + targets(msgs.last(), keys)
    }
}

/// A run goes on with one more step
proof fn lemma_run_push<T>(
    states: Seq<Map<ServerId, ServerState<T>>>,
    steps: Seq<Step<T>>,
    outs: Seq<Seq<SendableMessage<T>>>,
    next: Map<ServerId, ServerState<T>>,
    step: Step<T>,
    out: Seq<SendableMessage<T>>,
)
    requires
        run(states, steps, outs),
        step_ok(states.last(), next, step, out),
    ensures
        run(states.push(next), steps.push(step), outs.push(out)),
{
    let states2 = states.push(next);
    let steps2 = steps.push(step);
    let outs2 = outs.push(out);
    assert forall|i: int| 0 <= i < steps2.len() implies step_ok(states2[i], states2[i + 1], #[trigger] steps2[i], outs2[i]) by {
        if i < steps.len() {
            assert(step_ok(states[i], states[i + 1], steps[i], outs[i]));
        }
    }
}

/// How many messages the ticks of the servers `ks` of `servers` send, one
/// tick each
pub open spec fn ticks_send<T, S>(servers: Map<ServerId, RaftServer<T, S>>, ks: Seq<ServerId>) -> nat
    decreases ks.len(),
{
    if ks.len() == 0 {
        0
    } else {
        ticks_send(servers, ks.drop_last()) + servers[ks.last()]@.tick_sends()
    }
}

impl<T: Copy, S> ReliableTransport<T, S> {
    /// The ids of the servers of the cluster
    pub open spec fn ids(&self) -> Set<ServerId> {
        self.peers@.dom()
    }

    /// Every server of the cluster is a member under its own id and every
    /// queued message is known to the cluster
    pub open spec fn consistent(&self) -> bool {
        &&& forall|k: ServerId| #[trigger]
            self.peers@.contains_key(k) ==> member(self.peers@[k]@, k, self.ids())
        &&& known_messages(self.msg_queue@, self.ids())
    }

    /// `cl` describes the cluster this transport runs: its servers are the
    /// servers of the transport, and every queued message was sent
    pub open spec fn modeled_by(&self, cl: Cluster<T>) -> bool {
        &&& cl.servers.dom() == self.peers@.dom()
        &&& forall|k: ServerId| #[trigger] self.peers@.contains_key(k) ==> cl.servers[k] == self.peers@[k]@
        &&& forall|i: int| 0 <= i < self.msg_queue@.len() ==> cl.sent.contains(#[trigger] self.msg_queue@[i])
    }

    /// Hand `rpc` to server `k` and queue its answers. When `cl` describes
    /// the cluster and keeps the invariant, and `rpc` was sent to `k` or to
    /// everyone as `msg`, the cluster after the step describes the transport
    /// and keeps the invariant too.
    fn deliver(&mut self, k: ServerId, rpc: &RPC<T>, Ghost(cl): Ghost<Cluster<T>>, Ghost(msg): Ghost<SendableMessage<T>>) -> (res: (Ghost<Cluster<T>>, Ghost<Seq<SendableMessage<T>>>))
        requires
            old(self).consistent(),
            old(self).ids().contains(k),
            known_message((Target::Broadcast, *rpc), old(self).ids()),
        ensures
            final(self).consistent(),
            final(self).ids() == old(self).ids(),
            forall|j: ServerId| #[trigger]
                old(self).peers@.contains_key(j) ==> history_grows(old(self).peers@[j]@, final(self).peers@[j]@),
            forall|j: ServerId| #[trigger]
                old(self).peers@.contains_key(j) && j != k ==> final(self).peers@[j] == old(self).peers@[j],
            final(self).msg_queue@ == old(self).msg_queue@ + res.1@,
            step_ok(views(old(self).peers@), views(final(self).peers@), Step::Deliver(k, *rpc), res.1@),
            safety_inv(cl) && old(self).modeled_by(cl) && cl.sent.contains(msg) && msg.1 == *rpc && (msg.0
                == Target::Broadcast || msg.0 == Target::Single(k)) ==> {
                &&& safety_inv(res.0@)
                &&& final(self).modeled_by(res.0@)
                &&& cl.sent.subset_of(res.0@.sent)
            },
    {
        proof {
            crate::server::lemma_usize_ordered();
        }
        let ghost ids = self.ids();
        let mut peer = self.peers.remove(&k).unwrap();
        let ghost pre = peer@;
        let mut out = peer.receive_rpc(rpc);
        let ghost next = after(cl, k, peer@, out@);
        proof {
            lemma_receive_known(pre, peer@, *rpc, out@, ids);
            lemma_log_fits(&peer);
            if safety_inv(cl) && old(self).modeled_by(cl) && cl.sent.contains(msg) && msg.1 == *rpc && (msg.0
                == Target::Broadcast || msg.0 == Target::Single(k)) {
                lemma_receive_keeps_safety_inv(cl, k, msg, peer@, out@);
            }
        }
        self.peers.insert(k, peer);
        let ghost queued = self.msg_queue@;
        let ghost produced = out@;
        self.msg_queue.append(&mut out);
        proof {
            if safety_inv(cl) && old(self).modeled_by(cl) && cl.sent.contains(msg) && msg.1 == *rpc && (msg.0
                == Target::Broadcast || msg.0 == Target::Single(k)) {
                assert(next.servers.dom() =~= self.peers@.dom());
                assert forall|i: int| 0 <= i < self.msg_queue@.len() implies next.sent.contains(
                    #[trigger] self.msg_queue@[i],
                ) by {
                    if i < queued.len() {
                        assert(self.msg_queue@[i] == queued[i]);
                    } else {
                        assert(self.msg_queue@[i] == produced[i - queued.len()]);
                        assert(produced.to_set().contains(produced[i - queued.len()]));
                    }
                }
            }
            assert(self.ids() =~= ids);
            assert forall|j: ServerId| #[trigger]
                old(self).peers@.contains_key(j) implies history_grows(old(self).peers@[j]@, self.peers@[j]@) by {
                if j != k {
                    lemma_history_grows_refl(old(self).peers@[j]@);
                }
            }
            assert forall|i: int| 0 <= i < self.msg_queue@.len() implies #[trigger] known_message(
                self.msg_queue@[i],
                ids,
            ) by {
                if i < queued.len() {
                    assert(self.msg_queue@[i] == queued[i]);
                } else {
                    assert(self.msg_queue@[i] == produced[i - queued.len()]);
                }
            }
        }
        proof {
            assert(views(self.peers@) =~= views(old(self).peers@).insert(k, self.peers@[k]@));
            assert(self.msg_queue@ =~= queued + produced);
        }
        (Ghost(next), Ghost(produced))
    }

    /// Let server `k` tick and queue what it sends. When `cl` describes the
    /// cluster and keeps the invariant, the cluster after the step describes
    /// the transport and keeps the invariant too.
    fn tick_one(&mut self, k: ServerId, Ghost(cl): Ghost<Cluster<T>>) -> (res: (Ghost<Cluster<T>>, Ghost<Seq<SendableMessage<T>>>))
        requires
            old(self).consistent(),
            old(self).ids().contains(k),
            old(self).peers@[k]@.election_due() ==> old(self).peers@[k]@.current_term < u64::MAX,
        ensures
            final(self).consistent(),
            final(self).ids() == old(self).ids(),
            forall|j: ServerId| #[trigger]
                old(self).peers@.contains_key(j) ==> history_grows(old(self).peers@[j]@, final(self).peers@[j]@),
            forall|j: ServerId| #[trigger]
                old(self).peers@.contains_key(j) && j != k ==> final(self).peers@[j] == old(self).peers@[j],
            final(self).msg_queue@.len() == old(self).msg_queue@.len() + old(self).peers@[k]@.tick_sends(),
            final(self).msg_queue@ == old(self).msg_queue@ + res.1@,
            step_ok(views(old(self).peers@), views(final(self).peers@), Step::Tick(k), res.1@),
            safety_inv(cl) && old(self).modeled_by(cl) ==> {
                &&& safety_inv(res.0@)
                &&& final(self).modeled_by(res.0@)
                &&& cl.sent.subset_of(res.0@.sent)
            },
    {
        proof {
            crate::server::lemma_usize_ordered();
        }
        let ghost ids = self.ids();
        let mut peer = self.peers.remove(&k).unwrap();
        let ghost pre = peer@;
        let mut out = peer.tick();
        let ghost next = after(cl, k, peer@, out@);
        proof {
            lemma_tick_known(pre, peer@, out@, ids);
            lemma_tick_sends(pre, peer@, out@);
            lemma_log_fits(&peer);
            if safety_inv(cl) && old(self).modeled_by(cl) {
                lemma_tick_keeps_safety_inv(cl, k, peer@, out@);
            }
        }
        self.peers.insert(k, peer);
        let ghost queued = self.msg_queue@;
        let ghost produced = out@;
        self.msg_queue.append(&mut out);
        proof {
            if safety_inv(cl) && old(self).modeled_by(cl) {
                assert(next.servers.dom() =~= self.peers@.dom());
                assert forall|i: int| 0 <= i < self.msg_queue@.len() implies next.sent.contains(
                    #[trigger] self.msg_queue@[i],
                ) by {
                    if i < queued.len() {
                        assert(self.msg_queue@[i] == queued[i]);
                    } else {
                        assert(self.msg_queue@[i] == produced[i - queued.len()]);
                        assert(produced.to_set().contains(produced[i - queued.len()]));
                    }
                }
            }
            assert(self.ids() =~= ids);
            assert forall|j: ServerId| #[trigger]
                old(self).peers@.contains_key(j) implies history_grows(old(self).peers@[j]@, self.peers@[j]@) by {
                if j != k {
                    lemma_history_grows_refl(old(self).peers@[j]@);
                }
            }
            assert forall|i: int| 0 <= i < self.msg_queue@.len() implies #[trigger] known_message(
                self.msg_queue@[i],
                ids,
            ) by {
                if i < queued.len() {
                    assert(self.msg_queue@[i] == queued[i]);
                } else {
                    assert(self.msg_queue@[i] == produced[i - queued.len()]);
                }
            }
        }
        proof {
            assert(views(self.peers@) =~= views(old(self).peers@).insert(k, self.peers@[k]@));
            assert(self.msg_queue@ =~= queued + produced);
        }
        (Ghost(next), Ghost(produced))
    }

    /// The ids of the servers, in increasing order
    fn server_ids(&self) -> (v: Vec<ServerId>)
        ensures
            v@.to_set() == self.ids(),
            v@.no_duplicates(),
            forall|i: int, j: int| 0 <= i < j < v@.len() ==> v@[i] < v@[j],
    {
        proof {
            crate::server::lemma_keys_increasing(&self.peers);
        }
        let mut v: Vec<ServerId> = Vec::new();
        let ghost ks = vstd::std_specs::btree::spec_keys_iter(&self.peers).remaining().unref();
        for k in it: self.peers.keys()
            invariant
                it.seq() == vstd::std_specs::btree::spec_keys_iter(&self.peers).remaining(),
                ks == it.seq().unref(),
                ks.to_set() == self.ids(),
                ks.no_duplicates(),
                v@ == ks.take(it.index()),
        {
            v.push(*k);
            proof {
                assert(v@ =~= ks.take(it.index() + 1));
            }
        }
        proof {
            assert(ks.take(ks.len() as int) =~= ks);
        }
        v
    }
}


impl<T: Copy, S> TransportMedium<T> for ReliableTransport<T, S> {
    /// The cluster is consistent and no server is at the last term
    open spec fn ready(&self) -> bool {
        &&& self.consistent()
        &&& forall|k: ServerId| #[trigger]
            self.peers@.contains_key(k) ==> self.peers@[k]@.current_term < u64::MAX
    }

    /// Every server ticks, in increasing order of id; then every queued
    /// message is delivered, in order, a broadcast to every server including
    /// its sender. Returns how many messages the ticks produced.
    fn tick(&mut self) -> (r: Result<usize, RaftError>)
        ensures
            r is Ok,
            final(self).consistent(),
            final(self).ids() == old(self).ids(),
            forall|j: ServerId| #[trigger]
                old(self).peers@.contains_key(j) ==> history_grows(old(self).peers@[j]@, final(self).peers@[j]@),
            (exists|cl: Cluster<T>| #[trigger] safety_inv(cl) && old(self).modeled_by(cl)) ==> exists|cl: Cluster<T>|
                #[trigger] safety_inv(cl) && final(self).modeled_by(cl),
            exists|ks: Seq<ServerId>|
                ks.to_set() == old(self).ids() && ks.no_duplicates() && #[trigger] ticks_send(old(self).peers@, ks)
                    <= usize::MAX && r == Ok::<usize, RaftError>(ticks_send(old(self).peers@, ks) as usize),
            exists|keys: Seq<ServerId>, states: Seq<Map<ServerId, ServerState<T>>>, steps: Seq<Step<T>>, outs: Seq<Seq<SendableMessage<T>>>|
                #![trigger run(states, steps, outs), ticks_of::<T>(keys)]
                {
                    &&& keys.to_set() == old(self).ids()
                    &&& keys.no_duplicates()
                    &&& forall|a: int, b: int| 0 <= a < b < keys.len() ==> keys[a] < keys[b]
                    &&& run(states, steps, outs)
                    &&& states[0] == views(old(self).peers@)
                    &&& states.last() == views(final(self).peers@)
                    &&& steps == ticks_of::<T>(keys) + deliveries(
                        old(self).msg_queue@ + outs.take(keys.len() as int).flatten_alt(),
                        keys,
                    )
                    &&& final(self).msg_queue@ == outs.skip(keys.len() as int).flatten_alt()
                    &&& r == Ok::<usize, RaftError>(outs.take(keys.len() as int).flatten_alt().len() as usize)
                },
    {
        let ghost start = self.peers@;
        let ghost has_model = exists|cl: Cluster<T>| #[trigger] safety_inv(cl) && self.modeled_by(cl);
        let ghost mut model = choose|cl: Cluster<T>| #[trigger] safety_inv(cl) && self.modeled_by(cl);
        let keys = self.server_ids();
        let old_msg_q_size = self.msg_queue.len();
        let ghost queue0 = self.msg_queue@;
        let ghost mut states: Seq<Map<ServerId, ServerState<T>>> = seq![views(self.peers@)];
        let ghost mut steps: Seq<Step<T>> = Seq::empty();
        let ghost mut outs: Seq<Seq<SendableMessage<T>>> = Seq::empty();
        proof {
            assert(ticks_of::<T>(keys@.take(0)) =~= steps);
            assert(queue0 + outs.flatten_alt() =~= queue0);
        }
        proof {
            assert forall|j: ServerId| #[trigger] start.contains_key(j) implies history_grows(start[j]@, self.peers@[j]@) by {
                lemma_history_grows_refl(start[j]@);
            }
        }
        // iterate all peers and tick
        let mut i: usize = 0;
        while i < keys.len()
            invariant
                i <= keys.len(),
                keys@.to_set() == start.dom(),
                keys@.no_duplicates(),
                self.consistent(),
                self.ids() == start.dom(),
                self.msg_queue@.len() == old_msg_q_size + ticks_send(start, keys@.take(i as int)),
                forall|j: ServerId| #[trigger] start.contains_key(j) ==> history_grows(start[j]@, self.peers@[j]@),
                forall|x: int| i <= x < keys@.len() ==> self.peers@[#[trigger] keys@[x]] == start[keys@[x]],
                forall|k: ServerId| #[trigger] start.contains_key(k) ==> start[k]@.current_term < u64::MAX,
                has_model ==> safety_inv(model) && self.modeled_by(model),
                run(states, steps, outs),
                states[0] == views(start),
                states.last() == views(self.peers@),
                steps == ticks_of::<T>(keys@.take(i as int)),
                outs.len() == i,
                self.msg_queue@ == queue0 + outs.flatten_alt(),
            decreases keys.len() - i,
        {
            let k = keys[i];
            proof {
                assert(keys@.to_set().contains(keys@[i as int]));
            }
            let ghost before = self.peers@;
            let ghost queue_before = self.msg_queue@;
            let (Ghost(next), Ghost(sent_now)) = self.tick_one(k, Ghost(model));
            proof {
                model = next;
                lemma_run_push(states, steps, outs, views(self.peers@), Step::Tick(k), sent_now);
                let outs0 = outs;
                let steps0 = steps;
                states = states.push(views(self.peers@));
                steps = steps.push(Step::Tick(k));
                outs = outs.push(sent_now);
                assert(outs.drop_last() =~= outs0);
                assert(self.msg_queue@ =~= queue0 + outs.flatten_alt());
                assert(ticks_of::<T>(keys@.take(i + 1)) =~= steps);
                assert(keys@.take(i + 1).drop_last() =~= keys@.take(i as int));
                assert forall|j: ServerId| #[trigger] start.contains_key(j) implies history_grows(start[j]@, self.peers@[j]@) by {
                    lemma_history_grows_trans(start[j]@, before[j]@, self.peers@[j]@);
                }
                assert forall|x: int| i + 1 <= x < keys@.len() implies self.peers@[#[trigger] keys@[x]] == start[keys@[x]] by {
                    assert(keys@[x] != keys@[i as int]);
                    assert(keys@.to_set().contains(keys@[x]));
                }
            }
            i = i + 1;
        }
        let num_messages = self.msg_queue.len() - old_msg_q_size;
        let ghost tick_outs = outs;
        let ghost n_keys = keys@.len() as int;
        proof {
            assert(keys@.take(keys@.len() as int) =~= keys@);
            assert(outs.take(n_keys) =~= tick_outs);
            assert(outs.skip(n_keys) =~= Seq::<Seq<SendableMessage<T>>>::empty());
            assert(deliveries(queue0 + tick_outs.flatten_alt(), keys@).len() >= 0);
        }
        // send everything in the queue
        let mut messages_to_send: Vec<SendableMessage<T>> = Vec::new();
        std::mem::swap(&mut messages_to_send, &mut self.msg_queue);
        let mut m: usize = 0;
        proof {
            assert(messages_to_send@ == queue0 + tick_outs.flatten_alt());
            assert(messages_to_send@.take(0) =~= Seq::<SendableMessage<T>>::empty());
            assert(steps =~= ticks_of::<T>(keys@) + deliveries(messages_to_send@.take(0), keys@));
            assert(self.msg_queue@ =~= outs.skip(n_keys).flatten_alt());
        }
        while m < messages_to_send.len()
            invariant
                m <= messages_to_send.len(),
                known_messages(messages_to_send@, start.dom()),
                keys@.to_set() == start.dom(),
                self.consistent(),
                self.ids() == start.dom(),
                forall|j: ServerId| #[trigger] start.contains_key(j) ==> history_grows(start[j]@, self.peers@[j]@),
                has_model ==> safety_inv(model) && self.modeled_by(model),
                has_model ==> forall|x: int| 0 <= x < messages_to_send@.len() ==> model.sent.contains(#[trigger] messages_to_send@[x]),
                run(states, steps, outs),
                states[0] == views(start),
                states.last() == views(self.peers@),
                n_keys == keys@.len(),
                outs.len() >= n_keys,
                outs.take(n_keys) == tick_outs,
                steps == ticks_of::<T>(keys@) + deliveries(messages_to_send@.take(m as int), keys@),
                self.msg_queue@ == outs.skip(n_keys).flatten_alt(),
            decreases messages_to_send.len() - m,
        {
            assert(known_message(messages_to_send@[m as int], start.dom()));
            let msg = &messages_to_send[m];
            let ghost sending = messages_to_send@[m as int];
            match &msg.0 {
                Target::Single(to) => {
                    let ghost before = self.peers@;
                    let (Ghost(next), Ghost(sent_now)) = self.deliver(*to, &msg.1, Ghost(model), Ghost(sending));
                    proof {
                        model = next;
                        lemma_run_push(states, steps, outs, views(self.peers@), Step::Deliver(*to, msg.1), sent_now);
                        let outs0 = outs;
                        states = states.push(views(self.peers@));
                        steps = steps.push(Step::Deliver(*to, msg.1));
                        outs = outs.push(sent_now);
                        assert(outs.take(n_keys) =~= outs0.take(n_keys));
                        assert(outs.skip(n_keys).drop_last() =~= outs0.skip(n_keys));
                        assert(self.msg_queue@ =~= outs.skip(n_keys).flatten_alt());
                        assert(messages_to_send@.take(m + 1).drop_last() =~= messages_to_send@.take(m as int));
                        assert(targets(sending, keys@) =~= seq![Step::Deliver(*to, msg.1)]);
                        assert(steps =~= ticks_of::<T>(keys@) + deliveries(messages_to_send@.take(m + 1), keys@));
                        assert forall|j: ServerId| #[trigger] start.contains_key(j) implies history_grows(start[j]@, self.peers@[j]@) by {
                            lemma_history_grows_trans(start[j]@, before[j]@, self.peers@[j]@);
                        }
                    }
                },
                Target::Broadcast => {
                    let mut b: usize = 0;
                    let ghost steps_m = steps;
                    proof {
                        assert(steps =~= steps_m + keys@.take(0).map_values(|k: ServerId| Step::Deliver(k, msg.1)));
                    }
                    while b < keys.len()
                        invariant
                            b <= keys.len(),
                            keys@.to_set() == start.dom(),
                            known_message((Target::Broadcast, msg.1), start.dom()),
                            self.consistent(),
                            self.ids() == start.dom(),
                            forall|j: ServerId| #[trigger] start.contains_key(j) ==> history_grows(start[j]@, self.peers@[j]@),
                            sending == *msg,
                            sending.0 == Target::Broadcast,
                            has_model ==> safety_inv(model) && self.modeled_by(model),
                            has_model ==> forall|x: int| 0 <= x < messages_to_send@.len() ==> model.sent.contains(#[trigger] messages_to_send@[x]),
                            has_model ==> model.sent.contains(sending),
                            run(states, steps, outs),
                            states[0] == views(start),
                            states.last() == views(self.peers@),
                            n_keys == keys@.len(),
                            outs.len() >= n_keys,
                            outs.take(n_keys) == tick_outs,
                            steps_m == ticks_of::<T>(keys@) + deliveries(messages_to_send@.take(m as int), keys@),
                            steps == steps_m + keys@.take(b as int).map_values(|k: ServerId| Step::Deliver(k, msg.1)),
                            self.msg_queue@ == outs.skip(n_keys).flatten_alt(),
                        decreases keys.len() - b,
                    {
                        let to = keys[b];
                        proof {
                            assert(keys@.to_set().contains(keys@[b as int]));
                        }
                        let ghost before = self.peers@;
                        let (Ghost(next), Ghost(sent_now)) = self.deliver(to, &msg.1, Ghost(model), Ghost(sending));
                        proof {
                            model = next;
                            lemma_run_push(states, steps, outs, views(self.peers@), Step::Deliver(to, msg.1), sent_now);
                            let outs0 = outs;
                            let steps0 = steps;
                            states = states.push(views(self.peers@));
                            steps = steps.push(Step::Deliver(to, msg.1));
                            outs = outs.push(sent_now);
                            assert(outs.take(n_keys) =~= outs0.take(n_keys));
                            assert(outs.skip(n_keys).drop_last() =~= outs0.skip(n_keys));
                            assert(self.msg_queue@ =~= outs.skip(n_keys).flatten_alt());
                            assert(keys@.take(b + 1).map_values(|k: ServerId| Step::Deliver(k, msg.1)) =~= keys@.take(
                                b as int,
                            ).map_values(|k: ServerId| Step::Deliver(k, msg.1)).push(Step::Deliver(to, msg.1)));
                            assert(steps =~= steps_m + keys@.take(b + 1).map_values(|k: ServerId| Step::Deliver(k, msg.1)));
                            assert forall|j: ServerId| #[trigger] start.contains_key(j) implies history_grows(start[j]@, self.peers@[j]@) by {
                                lemma_history_grows_trans(start[j]@, before[j]@, self.peers@[j]@);
                            }
                        }
                        b = b + 1;
                    }
                    proof {
                        assert(keys@.take(keys@.len() as int) =~= keys@);
                        assert(messages_to_send@.take(m + 1).drop_last() =~= messages_to_send@.take(m as int));
                        assert(targets(sending, keys@) =~= keys@.map_values(|k: ServerId| Step::Deliver(k, msg.1)));
                        assert(steps =~= ticks_of::<T>(keys@) + deliveries(messages_to_send@.take(m + 1), keys@));
                    }
                },
            }
            m = m + 1;
        }
        proof {
            if has_model {
                assert(safety_inv(model) && self.modeled_by(model));
            }
            assert(messages_to_send@.take(messages_to_send@.len() as int) =~= messages_to_send@);
            assert(outs.take(n_keys) == tick_outs);
            assert(run(states, steps, outs) && ticks_of::<T>(keys@) == ticks_of::<T>(keys@));
        }
        Ok(num_messages)
    }
}

/// A transport whose servers were all just made, each knowing exactly the
/// others, with nothing queued, runs a cluster that keeps the invariant.
pub proof fn lemma_new_transport_is_safe<T: Copy, S>(t: &ReliableTransport<T, S>)
    requires
        t.peers@.dom().finite(),
        t.peers@.dom().len() >= 1,
        forall|k: ServerId| #[trigger]
            t.peers@.contains_key(k) ==> {
                &&& is_initial(t.peers@[k]@)
                &&& t.peers@[k]@.id == k
                &&& t.peers@[k]@.peers == t.peers@.dom().remove(k)
            },
        t.msg_queue@.len() == 0,
    ensures
        exists|cl: Cluster<T>| #[trigger] safety_inv(cl) && t.modeled_by(cl),
{
    let cl = Cluster {
        servers: Map::new(|k: ServerId| t.peers@.contains_key(k), |k: ServerId| t.peers@[k]@),
        sent: Set::<SendableMessage<T>>::empty(),
        leader_logs: Map::<Term, Seq<LogEntry<T>>>::empty(),
        ballots: Map::<(ServerId, Term), Seq<LogEntry<T>>>::empty(),
        leader_of: Map::<Term, ServerId>::empty(),
    };
    assert(cl.servers.dom() =~= t.peers@.dom());
    lemma_initial_safety_inv(cl);
    assert(safety_inv(cl) && t.modeled_by(cl));
}

/// A client request that one server of a transport handles, between two
/// ticks, keeps the cluster the transport runs safe: when the cluster before
/// keeps the invariant, the cluster after does too.
pub proof fn lemma_transport_client_request<T: Copy, S>(
    pre: &ReliableTransport<T, S>,
    post: &ReliableTransport<T, S>,
    k: ServerId,
    msg: T,
    r: Result<(), RaftError>,
)
    requires
        exists|cl: Cluster<T>| #[trigger] safety_inv(cl) && pre.modeled_by(cl),
        pre.peers@.contains_key(k),
        post.peers@.dom() == pre.peers@.dom(),
        forall|j: ServerId| #[trigger] post.peers@.contains_key(j) && j != k ==> post.peers@[j] == pre.peers@[j],
        pre.peers@[k]@.client_request_step(post.peers@[k]@, msg, r),
        post.peers@[k]@.wf(),
        post.msg_queue@ == pre.msg_queue@,
    ensures
        exists|cl: Cluster<T>| #[trigger] safety_inv(cl) && post.modeled_by(cl),
{
    let cl = choose|cl: Cluster<T>| #[trigger] safety_inv(cl) && pre.modeled_by(cl);
    let server = post.peers@[k];
    lemma_log_fits(&server);
    lemma_client_request_keeps_safety_inv(cl, k, msg, r, server@);
    let next = after(cl, k, server@, seq![]);
    assert(next.servers.dom() =~= post.peers@.dom());
    assert(safety_inv(next) && post.modeled_by(next));
}

/// Election safety of the servers a transport runs: while the cluster it
/// runs keeps the invariant, two servers that lead in the same term are the
/// same server.
pub proof fn lemma_transport_election_safety<T: Copy, S>(t: &ReliableTransport<T, S>, a: ServerId, b: ServerId)
    requires
        exists|cl: Cluster<T>| #[trigger] safety_inv(cl) && t.modeled_by(cl),
        t.peers@.contains_key(a),
        t.peers@.contains_key(b),
        t.peers@[a]@.role is Leader,
        t.peers@[b]@.role is Leader,
        t.peers@[a]@.current_term == t.peers@[b]@.current_term,
    ensures
        a == b,
{
    let cl = choose|cl: Cluster<T>| #[trigger] safety_inv(cl) && t.modeled_by(cl);
    lemma_election_safety(cl, a, b);
}

/// Log matching of the servers a transport runs: while the cluster it runs
/// keeps the invariant, logs that hold entries of the same term at the same
/// index are identical up to it.
pub proof fn lemma_transport_log_matching<T: Copy, S>(t: &ReliableTransport<T, S>, a: ServerId, b: ServerId, i: int)
    requires
        exists|cl: Cluster<T>| #[trigger] safety_inv(cl) && t.modeled_by(cl),
        t.peers@.contains_key(a),
        t.peers@.contains_key(b),
        0 <= i < t.peers@[a]@.log.entries.len(),
        i < t.peers@[b]@.log.entries.len(),
        t.peers@[a]@.log.entries[i].term == t.peers@[b]@.log.entries[i].term,
    ensures
        t.peers@[a]@.log.entries.take(i + 1) == t.peers@[b]@.log.entries.take(i + 1),
{
    let cl = choose|cl: Cluster<T>| #[trigger] safety_inv(cl) && t.modeled_by(cl);
    crate::matching::lemma_log_matching(cl, a, b, i);
}

/// State machine safety of the servers a transport runs: while the cluster
/// it runs keeps the invariant, of the entries two servers handed to their
/// state machines, those of the one that handed fewer are the first ones the
/// other handed.
pub proof fn lemma_transport_state_machine_safety<T: Copy, S>(t: &ReliableTransport<T, S>, a: ServerId, b: ServerId)
    requires
        exists|cl: Cluster<T>| #[trigger] safety_inv(cl) && t.modeled_by(cl),
        t.peers@.contains_key(a),
        t.peers@.contains_key(b),
        t.peers@[a]@.log.delivered.len() <= t.peers@[b]@.log.delivered.len(),
    ensures
        t.peers@[b]@.log.delivered.take(t.peers@[a]@.log.delivered.len() as int) == t.peers@[a]@.log.delivered,
{
    let cl = choose|cl: Cluster<T>| #[trigger] safety_inv(cl) && t.modeled_by(cl);
    lemma_state_machine_safety(cl, a, b);
}

/// The servers a transport runs commit within their logs: while the cluster
/// it runs keeps the invariant, every server has committed no more than its
/// log holds and applied exactly what it committed.
pub proof fn lemma_transport_commit_within_log<T: Copy, S>(t: &ReliableTransport<T, S>, k: ServerId)
    requires
        exists|cl: Cluster<T>| #[trigger] safety_inv(cl) && t.modeled_by(cl),
        t.peers@.contains_key(k),
    ensures
        t.peers@[k]@.log.committed_len <= t.peers@[k]@.log.entries.len(),
        t.peers@[k]@.log.applied_len == t.peers@[k]@.log.committed_len,
        t.peers@[k]@.log.delivered == t.peers@[k]@.log.entries.take(t.peers@[k]@.log.committed_len as int),
{
    let cl = choose|cl: Cluster<T>| #[trigger] safety_inv(cl) && t.modeled_by(cl);
    crate::completeness::lemma_commit_within_log(cl, k);
}

} // verus!
