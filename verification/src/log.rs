use vstd::prelude::*;

verus! {

/// Leadership term of a Raft server
pub type Term = u64;

/// ID of a single Raft server
pub type ServerId = usize;

/// Type alias for indexing into the [`Log`]
pub type LogIndex = usize;

/// A single log entry
#[derive(Clone, Copy)]
pub struct LogEntry<T> {
    /// What term it was submitted
    pub term: Term,
    /// Actual payload
    pub data: T,
}

/// Describes a state machine that is updated based off of a feed of [`LogEntry`]
pub trait App<T, S> {
    /// Every entry this state machine was fed so far, in the order it got
    /// them. It is a specification: nothing ever runs it, so an
    /// implementation written outside Verus may give it any body.
    spec fn fed(&self) -> Seq<LogEntry<T>>;

    /// Function that mutates the application state depending on the newest log entry.
    /// If the transition function is called on a [`LogEntry`], it is
    /// considered applied (meaning it won't be re-run or removed).
    fn transition_fn(&mut self, entry: &LogEntry<T>)
        ensures
            final(self).fed() == old(self).fed().push(*entry),
    ;

    /// Return the current state of the application
    fn get_state(&self) -> S;
}

/// A collection of LogEntries together with the state machine they feed
#[verifier::reject_recursive_types(T)]
#[verifier::reject_recursive_types(S)]
pub struct Log<T, S> {
    /// Log entries
    pub entries: Vec<LogEntry<T>>,
    /// How much of the log has been considered committed.
    pub committed_len: LogIndex,
    /// How much of the log has been applied to the state machine.
    pub applied_len: LogIndex,
    /// State machine
    pub app: Box<dyn App<T, S>>,
    /// [`ServerId`] of the server owning this log
    pub parent_id: ServerId,
    /// Every entry handed to the state machine so far, in delivery order
    pub delivered: Ghost<Seq<LogEntry<T>>>,
}

/// Mathematical model of a [`Log`]: its entries and lengths, the entries it
/// handed to its state machine (`delivered`), and everything the state
/// machine was fed, also before the log got it (`fed`)
pub struct LogState<T> {
    pub entries: Seq<LogEntry<T>>,
    pub committed_len: nat,
    pub applied_len: nat,
    pub delivered: Seq<LogEntry<T>>,
    pub fed: Seq<LogEntry<T>>,
    pub parent_id: ServerId,
}

impl<T, S> View for Log<T, S> {
    type V = LogState<T>;

    open spec fn view(&self) -> LogState<T> {
        LogState {
            entries: self.entries@,
            committed_len: self.committed_len as nat,
            applied_len: self.applied_len as nat,
            delivered: self.delivered@,
            fed: self.app.fed(),
            parent_id: self.parent_id,
        }
    }
}

/// Term of the last entry of `entries`, or 0 for an empty log
pub open spec fn last_term_of<T>(entries: Seq<LogEntry<T>>) -> Term {
    if entries.len() > 0 {
        entries.last().term
    } else {
        0
    }
}

/// Index of the last entry of `entries`, or 0 for an empty log
pub open spec fn last_idx_of<T>(entries: Seq<LogEntry<T>>) -> nat {
    if entries.len() > 0 {
        (entries.len() - 1) as nat
    } else {
        0
    }
}

/// Whether the last position where `ours` and the leader's `theirs` (placed at
/// `prefix`) overlap holds entries of different terms
pub open spec fn conflicts<T>(ours: Seq<LogEntry<T>>, prefix: nat, theirs: Seq<LogEntry<T>>) -> bool {
    &&& theirs.len() > 0
    &&& ours.len() > prefix
    &&& {
        let last = if ours.len() < prefix + theirs.len() {
            ours.len()
        } else {
            prefix + theirs.len()
        } - 1;
        ours[last].term != theirs[last - prefix].term
    }
}

/// The log that results from placing the leader's `theirs` at position `prefix`
/// of `ours`: on a conflict everything from `prefix` on is replaced by `theirs`;
/// otherwise `ours` is kept and only the entries of `theirs` past its end are added.
pub open spec fn merge_entries<T>(ours: Seq<LogEntry<T>>, prefix: nat, theirs: Seq<LogEntry<T>>) -> Seq<LogEntry<T>> {
    if conflicts(ours, prefix, theirs) {
        ours.take(prefix as int) + theirs
    } else if prefix + theirs.len() > ours.len() {
        ours + theirs.skip(ours.len() - prefix)
    } else {
        ours
    }
}

impl<T> LogState<T> {
    /// Where delivering committed entries starts: past everything committed
    /// and everything already applied, so that no entry is delivered twice
    pub open spec fn deliver_from(self) -> nat {
        if self.applied_len > self.committed_len {
            self.applied_len
        } else {
            self.committed_len
        }
    }

    /// The state after marking everything below `upto` committed and
    /// feeding the state machine, in order, the entries below `upto` that
    /// were neither committed nor applied before; what was applied stays
    /// applied
    pub open spec fn commit_to(self, upto: nat) -> LogState<T> {
        let from = self.deliver_from();
        LogState {
            fed: if from < upto {
                self.fed + self.entries.subrange(from as int, upto as int)
            } else {
                self.fed
            },
            entries: self.entries,
            committed_len: upto,
            applied_len: if from < upto {
                upto
            } else {
                self.applied_len
            },
            delivered: if from < upto {
                self.delivered + self.entries.subrange(from as int, upto as int)
            } else {
                self.delivered
            },
            ..self
        }
    }
}

impl<T> LogState<T> {
    /// The state after placing the leader's `theirs` at position `prefix` and
    /// committing up to `leader_commit` if that is more than we have committed
    pub open spec fn append_result(self, prefix: nat, leader_commit: nat, theirs: Seq<LogEntry<T>>) -> LogState<T> {
        let merged = LogState { entries: merge_entries(self.entries, prefix, theirs), ..self };
        if leader_commit > self.committed_len {
            merged.commit_to(leader_commit)
        } else {
            merged
        }
    }
}

/// Committing never runs an applied entry again and never un-applies one:
/// the entries it delivers, and feeds the state machine, start past every
/// applied entry, and what is applied only grows
pub proof fn lemma_commit_applies_once<T>(log: LogState<T>, upto: nat)
    ensures
        log.deliver_from() >= log.applied_len,
        log.commit_to(upto).applied_len >= log.applied_len,
        log.commit_to(upto).committed_len == upto,
        log.commit_to(upto).delivered == if log.deliver_from() < upto {
            log.delivered + log.entries.subrange(log.deliver_from() as int, upto as int)
        } else {
            log.delivered
        },
        log.commit_to(upto).fed == if log.deliver_from() < upto {
            log.fed + log.entries.subrange(log.deliver_from() as int, upto as int)
        } else {
            log.fed
        },
{
}

/// A merged log always holds at least the entries that were placed into it
pub proof fn lemma_merge_len<T>(ours: Seq<LogEntry<T>>, prefix: nat, theirs: Seq<LogEntry<T>>)
    requires
        prefix <= ours.len(),
    ensures
        merge_entries(ours, prefix, theirs).len() >= prefix + theirs.len(),
        merge_entries(ours, prefix, theirs).len() >= prefix,
{
}

/// Placing the leader's entries into a log makes the log agree with them:
/// every placed entry can be read back at its position.
pub proof fn lemma_merge_reads_back<T>(ours: Seq<LogEntry<T>>, prefix: nat, theirs: Seq<LogEntry<T>>, i: int)
    requires
        prefix <= ours.len(),
        0 <= i < theirs.len(),
        !conflicts(ours, prefix, theirs) ==> forall|j: int|
            0 <= j < theirs.len() && prefix + j < ours.len() ==> ours[prefix + j] == theirs[j],
    ensures
        merge_entries(ours, prefix, theirs)[prefix + i] == theirs[i],
{
}

/// The entries before `prefix` are never touched by a merge
pub proof fn lemma_merge_keeps_prefix<T>(ours: Seq<LogEntry<T>>, prefix: nat, theirs: Seq<LogEntry<T>>, i: int)
    requires
        prefix <= ours.len(),
        0 <= i < prefix,
    ensures
        merge_entries(ours, prefix, theirs)[i] == ours[i],
{
}

impl<T, S> Log<T, S> {
    /// Instantiate a new empty event log
    pub fn new(parent_id: ServerId, app: Box<dyn App<T, S>>) -> (log: Self)
        ensures
            log@.entries == Seq::<LogEntry<T>>::empty(),
            log@.committed_len == 0,
            log@.applied_len == 0,
            log@.delivered == Seq::<LogEntry<T>>::empty(),
            log.parent_id == parent_id,
    {
        Log {
            entries: Vec::new(),
            committed_len: 0,
            applied_len: 0,
            app,
            parent_id,
            delivered: Ghost(Seq::empty()),
        }
    }

    /// Fetch the most recent term we have recorded in the log
    pub fn last_term(&self) -> (t: Term)
        ensures
            t == last_term_of(self@.entries),
    {
        let n = self.entries.len();
        if n > 0 {
            self.entries[n - 1].term
        } else {
            0
        }
    }

    /// Get index of the last element
    pub fn last_idx(&self) -> (i: LogIndex)
        ensures
            i == last_idx_of(self@.entries),
    {
        if self.entries.len() > 0 {
            self.entries.len() - 1
        } else {
            0
        }
    }

    /// Mark everything below `upto` as committed, and deliver to the state
    /// machine, in order, the entries below `upto` not yet committed nor
    /// applied: an entry already applied is never run again.
    pub fn commit_to(&mut self, upto: LogIndex)
        requires
            old(self).committed_len <= upto <= old(self).entries.len(),
        ensures
            final(self)@ == old(self)@.commit_to(upto as nat),
            final(self).parent_id == old(self).parent_id,
    {
        let from = if self.applied_len > self.committed_len {
            self.applied_len
        } else {
            self.committed_len
        };
        let mut i = from;
        while i < upto
            invariant
                self.committed_len == old(self).committed_len,
                self.applied_len == old(self).applied_len,
                self.parent_id == old(self).parent_id,
                self.entries@ == old(self).entries@,
                from == old(self)@.deliver_from(),
                from <= i,
                i <= upto || i == from,
                upto <= self.entries.len(),
                self.delivered@ == if i > from {
                    old(self).delivered@ + old(self).entries@.subrange(from as int, i as int)
                } else {
                    old(self).delivered@
                },
                self.app.fed() == if i > from {
                    old(self).app.fed() + old(self).entries@.subrange(from as int, i as int)
                } else {
                    old(self).app.fed()
                },
            decreases upto - i,
        {
            self.app.transition_fn(&self.entries[i]);
            let ghost before = self.delivered@;
            self.delivered = Ghost(before.push(self.entries@[i as int]));
            proof {
                if i == from {
                    assert(self.delivered@ =~= old(self).delivered@ + old(self).entries@.subrange(from as int, i + 1));
                    assert(self.app.fed() =~= old(self).app.fed() + old(self).entries@.subrange(from as int, i + 1));
                } else {
                    assert(old(self).entries@.subrange(from as int, i + 1) =~= old(self).entries@.subrange(
                        from as int,
                        i as int,
                    ).push(self.entries@[i as int]));
                    assert(self.delivered@ =~= old(self).delivered@ + old(self).entries@.subrange(from as int, i + 1));
                    assert(self.app.fed() =~= old(self).app.fed() + old(self).entries@.subrange(from as int, i + 1));
                }
            }
            i = i + 1;
        }
        if from < upto {
            self.applied_len = upto;
        }
        self.committed_len = upto;
    }

    /// Append additional entries to the log.
    /// `prefix_idx` is what index caller expects entries to be inserted at,
    /// `leader_commit_len` is the length of the log that the leader has committed.
    pub fn append_entries(&mut self, prefix_idx: LogIndex, leader_commit_len: LogIndex, entries: Vec<LogEntry<T>>)
        requires
            prefix_idx <= old(self).entries.len(),
            prefix_idx + entries.len() <= usize::MAX,
            leader_commit_len > old(self).committed_len ==> leader_commit_len <= merge_entries(
                old(self)@.entries,
                prefix_idx as nat,
                entries@,
            ).len(),
        ensures
            final(self)@ == old(self)@.append_result(prefix_idx as nat, leader_commit_len as nat, entries@),
            final(self).parent_id == old(self).parent_id,
    {
        let ghost ours = self.entries@;
        let ghost theirs = entries@;
        let mut entries = entries;
        // check to see if we need to truncate our existing log
        // this happens when we have conflicts between our log and leader's log
        if entries.len() > 0 && self.entries.len() > prefix_idx {
            // the last index we can compare between leader and follower
            let end = if self.entries.len() < prefix_idx + entries.len() {
                self.entries.len()
            } else {
                prefix_idx + entries.len()
            };
            let rollback_to = end - 1;
            let our_last_term = self.entries[rollback_to].term;
            let leader_last_term = entries[rollback_to - prefix_idx].term;
            if our_last_term != leader_last_term {
                self.entries.truncate(prefix_idx);
            }
        }
        // add all entries we don't have
        if prefix_idx + entries.len() > self.entries.len() {
            let start = self.entries.len() - prefix_idx;
            let mut tail = entries.split_off(start);
            self.entries.append(&mut tail);
        }
        proof {
            if conflicts(ours, prefix_idx as nat, theirs) {
                assert(theirs.skip(0) =~= theirs);
            }
            assert(self.entries@ =~= merge_entries(ours, prefix_idx as nat, theirs));
        }
        // leader has committed more than us: commit, and apply what we haven't applied yet
        if leader_commit_len > self.committed_len {
            self.commit_to(leader_commit_len);
        }
    }

    /// Deliver a single message from the message log to the application
    pub fn deliver_msg(&mut self)
        requires
            old(self).applied_len < old(self).entries.len(),
        ensures
            final(self)@ == (LogState {
                applied_len: old(self)@.applied_len + 1,
                delivered: old(self)@.delivered.push(old(self)@.entries[old(self).applied_len as int]),
                fed: old(self)@.fed.push(old(self)@.entries[old(self).applied_len as int]),
                ..old(self)@
            }),
            final(self).parent_id == old(self).parent_id,
    {
        let applied_idx = self.applied_len;
        self.app.transition_fn(&self.entries[applied_idx]);
        let ghost before = self.delivered@;
        self.delivered = Ghost(before.push(self.entries@[applied_idx as int]));
        self.applied_len = applied_idx + 1;
    }
}

} // verus!
