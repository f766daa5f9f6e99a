# miniraft

A minimal implementation of the Raft consensus protocol, written in Verus:
every function of the library carries a specification that Verus proves.

## Layout

- `src/log.rs` — the event log (`Log`) and the state machine it feeds
  (`App`). Appending the leader's entries, committing and delivering are
  specified over a mathematical model of the log (`LogState`), which holds
  every entry the state machine was fed: `App::transition_fn` states that
  each call feeds it one entry, so the log's contracts say exactly which
  entries the state machine receives, in which order, and that an applied
  entry is never fed again. Every step of a server feeds its state machine
  exactly the entries it newly delivers.
- `src/rpc.rs` — the four RPCs servers exchange.
- `src/server.rs` — a Raft server (`RaftServer`): ticks of logical time,
  elections, replication and commitment. Each step is specified as a
  relation between the model of the server before and after it
  (`ServerState`) and the messages it sends.
- `src/laws.rs` — properties that span steps: terms and committed lengths
  never go back, a server votes once per term, a follower that hears from
  the leader of its term stays quiet until its election timer runs out, a
  leader sends heartbeats once per interval, delivered entries stay
  delivered, a leader only appends to its log, quorums intersect, a leader
  commits only through an entry of its own term, a candidate leads only with
  a quorum of votes, and a repeated AppendRequest changes nothing.
- `src/safety.rs`, `src/matching.rs`, `src/completeness.rs` — a model of a
  whole cluster (`Cluster`): the states of its servers and every message
  ever sent, which the network may deliver late, twice, out of order or
  never. An invariant (`safety_inv`) holds of every cluster just made and
  is kept by every tick, every handled message and every client request of
  any server. From it follow election safety (one leader per term), log
  matching (logs agreeing on the term of an entry agree up to it), leader
  completeness (a committed prefix is in the log of every later leader) and
  state machine safety (what two servers hand to their state machines is one
  the prefix of the other), and that every server has committed no more
  than its log holds and applied exactly what it committed.
- `src/transport.rs` — a reliable medium that ticks every server of a
  cluster and delivers all messages. Each tick carries a model of the
  cluster it runs along: a transport whose servers were just made runs a
  cluster that keeps `safety_inv`, and every tick and every client request
  a server handles between ticks keep it, so the servers
  of a transport never have two leaders in one term and never disagree on
  what they hand to their state machines.
- `src/debug.rs` — builders for the debug messages about a server (its
  state, the RPCs it handles and sends, renderings of its log) and the line
  that shows one of them for a server at a level. Coloured labels are
  specified down to their style sequences, so that what a terminal shows
  of a label is its text. The server steps themselves emit nothing.
- `app/lib.rs` — a logger, and helpers that print such a line at the
  log level that matches its detail.
- `tests/` — the library's tests.

Randomness (election timeouts), terminal colours and the `{:?}` rendering of
log data come from outside crates; their contracts state what holds of every
outcome.
