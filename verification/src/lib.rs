//! A minimal implementation of the Raft consensus protocol, with every
//! function specified and verified.

/// Messages that describe what servers do, for pretty printing
pub mod debug;

/// The event log at the core of the replicated log, and the state machine it feeds
pub mod log;

/// The RPCs that Raft servers use to communicate with each other
pub mod rpc;

/// A single Raft server: handling RPCs, managing state transitions, and the API
pub mod server;

/// What every step of a server keeps, and why a cluster stays safe
pub mod laws;

/// A medium that carries the messages of a cluster of servers
pub mod transport;

/// Election safety of a cluster: no two servers lead in the same term
pub mod safety;

/// Log matching of a cluster: logs that agree on the term of an entry agree on everything up to it
pub mod matching;

/// Leader completeness and state machine safety of a cluster: what is committed stays
pub mod completeness;
