use vstd::prelude::*;

use crate::log::{LogEntry, LogIndex, ServerId, Term};

verus! {

/// A message can be either targeted at a single server or to everyone
pub type SendableMessage<T> = (Target, RPC<T>);

/// Whether to send a message to everyone or just a single node
#[derive(PartialEq, Eq, PartialOrd, Ord, Clone, Copy, Debug)]
pub enum Target {
    /// A single server
    Single(ServerId),
    /// To everyone
    Broadcast,
}

/// A Raft RPC request
pub enum RPC<T> {
    /// Candidate requesting to become leader
    VoteRequest(VoteRequest),
    /// Response to [`VoteRequest`]
    VoteResponse(VoteResponse),
    /// Leader heartbeat/appending entries to followers
    AppendRequest(AppendRequest<T>),
    /// Response to [`AppendRequest`]
    AppendResponse(AppendResponse),
}

/// Request by a candidate to become a Raft leader
#[derive(Clone, Copy, Debug)]
pub struct VoteRequest {
    /// Current term of candidate
    pub candidate_term: Term,
    /// ID of candidate requesting a vote
    pub candidate_id: ServerId,
    /// Index of candidate's last log entry
    pub candidate_last_log_idx: LogIndex,
    /// Term of candidate's last log entry
    pub candidate_last_log_term: Term,
}

/// Response to a [`VoteRequest`]
#[derive(Clone, Copy, Debug)]
pub struct VoteResponse {
    /// Current term of the voter, for the candidate to update itself
    pub term: Term,
    /// Whether the [`VoteRequest`] was granted or not
    pub vote_granted: bool,
    /// Who sent the vote
    pub votee_id: ServerId,
}

/// Request from leader to append entries to follower's log
pub struct AppendRequest<T> {
    /// Term of leader requesting log append
    pub leader_term: Term,
    /// ID of leader (used so follower can redirect clients)
    pub leader_id: ServerId,
    /// Number of log entries preceding the first element of [`entries`](Self::entries)
    pub leader_last_log_idx: LogIndex,
    /// Term of the entry just before [`entries`](Self::entries), 0 if there is none
    pub leader_last_log_term: Term,
    /// Leader's committed length
    pub leader_commit: LogIndex,
    /// A list of consecutive log entries to append to follower
    pub entries: Vec<LogEntry<T>>,
}

/// Response to an [`AppendRequest`]
#[derive(Clone, Copy, Debug)]
pub struct AppendResponse {
    /// Whether the follower added it to their log or not
    pub ok: bool,
    /// Current term of the follower, for the leader to update itself
    pub term: Term,
    /// Length of the follower's log that is known to match the leader's
    pub ack_idx: LogIndex,
    /// Follower ID
    pub follower_id: ServerId,
}

/// Name of the kind of an RPC
pub open spec fn rpc_name<T>(rpc: &RPC<T>) -> Seq<char> {
    match rpc {
        RPC::VoteRequest(_) => "VoteRequest"@,
        RPC::VoteResponse(_) => "VoteResponse"@,
        RPC::AppendRequest(_) => "AppendRequest"@,
        RPC::AppendResponse(_) => "AppendResponse"@,
    }
}

impl<T> RPC<T> {
    /// The name of the kind of this RPC
    pub fn to_string(&self) -> (s: String)
        ensures
            s@ == rpc_name(self),
    {
        match self {
            RPC::VoteRequest(_) => String::from_str("VoteRequest"),
            RPC::AppendRequest(_) => String::from_str("AppendRequest"),
            RPC::VoteResponse(_) => String::from_str("VoteResponse"),
            RPC::AppendResponse(_) => String::from_str("AppendResponse"),
        }
    }
}

impl<T: Copy> AppendRequest<T> {
    /// A copy of this request
    pub fn clone(&self) -> (r: Self)
        ensures
            r.leader_term == self.leader_term,
            r.leader_id == self.leader_id,
            r.leader_last_log_idx == self.leader_last_log_idx,
            r.leader_last_log_term == self.leader_last_log_term,
            r.leader_commit == self.leader_commit,
            r.entries@ == self.entries@,
    {
        AppendRequest {
            leader_term: self.leader_term,
            leader_id: self.leader_id,
            leader_last_log_idx: self.leader_last_log_idx,
            leader_last_log_term: self.leader_last_log_term,
            leader_commit: self.leader_commit,
            entries: copy_entries(&self.entries, 0),
        }
    }
}

/// A fresh vector holding `entries[from..]`
pub fn copy_entries<T: Copy>(entries: &Vec<LogEntry<T>>, from: usize) -> (r: Vec<LogEntry<T>>)
    requires
        from <= entries.len(),
    ensures
        r@ == entries@.subrange(from as int, entries.len() as int),
{
    let mut r: Vec<LogEntry<T>> = Vec::new();
    let mut i = from;
    while i < entries.len()
        invariant
            from <= i <= entries.len(),
            r@ == entries@.subrange(from as int, i as int),
        decreases entries.len() - i,
    {
        let e = entries[i];
        r.push(e);
        proof {
            assert(entries@.subrange(from as int, i + 1) =~= entries@.subrange(from as int, i as int).push(e));
        }
        i = i + 1;
    }
    r
}

} // verus!
