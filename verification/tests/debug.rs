use miniraft::debug::{
    colour_bool, colour_server, colour_term, debug_log, log, AnnotationType, Level, Logger,
};
use miniraft::log::{App, Log, LogEntry};
use miniraft::rpc::{AppendResponse, SendableMessage, Target, VoteRequest, VoteResponse, RPC};
use miniraft::server::{NodeReplicationState, RaftConfig, RaftServer};

struct NoApp;

impl App<u32, u32> for NoApp {
    // the record of fed entries is a specification function, never run
    fn fed(&self) -> vstd::seq::Seq<LogEntry<u32>> {
        unreachable!()
    }
    fn transition_fn(&mut self, _entry: &LogEntry<u32>) {}
    fn get_state(&self) -> u32 {
        0
    }
}

/// The text without the terminal's escape sequences
fn strip(s: &str) -> String {
    let mut out = String::new();
    let mut chars = s.chars();
    while let Some(c) = chars.next() {
        if c == '\x1B' {
            for d in chars.by_ref() {
                if d == 'm' {
                    break;
                }
            }
        } else {
            out.push(c);
        }
    }
    out
}

#[test]
fn coloured_labels_show_their_text() {
    assert_eq!(strip(&colour_term(42)), " Term 42 ");
    assert_eq!(strip(&colour_term(0)), " Term 0 ");
    assert_eq!(strip(&colour_bool(true)), "ok");
    assert_eq!(strip(&colour_bool(false)), "no");
    assert_eq!(strip(&colour_server(&7)), " Server 7 ");
}

#[test]
fn log_line_holds_server_level_and_message() {
    let line = strip(&log(&3, "hello".to_string(), Level::Trace));
    assert_eq!(line, " Server 3      hello");
    let line = strip(&log(&3, "hi".to_string(), Level::Overview));
    assert_eq!(line, " Server 3  hi");
}

#[test]
fn vote_messages() {
    assert_eq!(Logger::total_vote_count(&0, 2, 3), "total vote count: 2 out of quorum of 3");
    let msg = strip(&Logger::vote_count(&0, &VoteResponse { term: 1, vote_granted: true, votee_id: 2 }, false));
    assert_eq!(msg, "counting vote: no because\n1) follower is up to date: no\n2) they granted the vote: ok");
    let msg = strip(&Logger::commit_entry(&0, 4, 3, 2));
    assert_eq!(msg, "commit entry at index (4): ok because\n1) total of 3 acks for that index >= quorum size (2)");
}

#[test]
fn append_response_messages() {
    let res = AppendResponse { ok: true, term: 1, ack_idx: 12, follower_id: 1 };
    let state = NodeReplicationState { sent_up_to: 9, acked_up_to: 8 };
    let (first, second) = Logger::process_append_response(&0, &res, &state);
    assert_eq!(
        strip(&first),
        "valid response: ok because\n1) response indicated success: ok\n2) the index they acked up to (new=12) actually moved forward (old=8): ok"
    );
    assert_eq!(second, "success! bumping sent_up_to from 9 -> 12 and acked_up_to from 8 -> 12");
    let res = AppendResponse { ok: false, term: 1, ack_idx: 3, follower_id: 1 };
    let (_, second) = Logger::process_append_response(&0, &res, &state);
    assert_eq!(second, "error, decrement sent_up_to from 9 -> 8 and try again");
}

#[test]
fn log_messages() {
    let mut l: Log<u32, u32> = Log::new(0, Box::new(NoApp));
    l.entries.push(LogEntry { term: 1, data: 10 });
    l.entries.push(LogEntry { term: 2, data: 20 });
    assert_eq!(
        Logger::log_term_conflict(&l),
        "term conflict detected! truncating our log to length=2 to match leader"
    );
    assert_eq!(Logger::log_deliver_recv(&l), "[deliver_msg] at applied_idx=0 out of entries.len()=2");
    assert_eq!(
        Logger::append_entries_recv(&l, 1, 0, &vec![]),
        "[append_entries] received heartbeat prefix_idx=1"
    );
    assert_eq!(
        Logger::log_append(&l, 1),
        "appended all request entries starting from idx=1, log now looks like: \n(1) 10 -> (2) 20"
    );
}

#[test]
fn rendering_of_entries_and_notes() {
    let entries = vec![LogEntry { term: 1, data: 10u32 }, LogEntry { term: 2, data: 20 }];
    assert_eq!(debug_log(&entries, vec![], 0), "\n(1) 10 -> (2) 20");
    assert_eq!(debug_log(&entries, vec![], 1), "\n         (1) 10 -> (2) 20");
    assert_eq!(
        debug_log(&entries, vec![(AnnotationType::Index(1), "here")], 0),
        "\n(1) 10 -> (2) 20\n             ^ here"
    );
    assert_eq!(
        debug_log(&entries, vec![(AnnotationType::Length(1), "up to"), (AnnotationType::Length(0), "none")], 0),
        "\n(1) 10 -> (2) 20\n~~~~~|  up to\n|  none"
    );
    assert_eq!(
        debug_log(&entries, vec![(AnnotationType::Span(0, 5), "all")], 0),
        "\n(1) 10 -> (2) 20\n|~~~~~~~~|  all"
    );
}

#[test]
fn server_event_messages() {
    let cfg = RaftConfig { election_timeout: 10, election_timeout_jitter: 0, heartbeat_interval: 3 };
    let peers: std::collections::BTreeSet<usize> = [1, 2].into_iter().collect();
    let s: RaftServer<u32, u32> = RaftServer::new(0, peers, cfg, Some(3), Box::new(NoApp));
    assert_eq!(strip(&Logger::state_update(&s)), "is now  Follower ");
    let (first, second) = Logger::server_init(&s);
    assert_eq!(first, "initializing server");
    assert_eq!(strip(&second), "is now  Follower ");
    assert_eq!(strip(&Logger::bumping_term(&s, 3)), "bumping our term  Term 0  to match candidate/leader term  Term 3 ");
    assert_eq!(strip(&Logger::append_entries(&s, true, false, 2)),
        "append entries: no because\n1) the index they want to insert entries at (2) <= our log length (0): ok\n2) last log entry before new entries matches terms: no");
    let (_, won) = Logger::won_election(&s, 2, &vec![1, 2]);
    assert_eq!(strip(&won), "won election with votes=2 out of quorum=2, followers:  Server 1 ,  Server 2 ");
    let msgs: Vec<SendableMessage<u32>> = vec![
        (Target::Single(2), RPC::VoteRequest(VoteRequest { candidate_term: 1, candidate_id: 0, candidate_last_log_idx: 0, candidate_last_log_term: 0 })),
        (Target::Broadcast, RPC::VoteRequest(VoteRequest { candidate_term: 1, candidate_id: 0, candidate_last_log_idx: 0, candidate_last_log_term: 0 })),
    ];
    let lines: Vec<String> = Logger::outgoing_rpcs(&s, &msgs).iter().map(|l| strip(l)).collect();
    assert_eq!(lines, vec!["VoteRequest ->  Server 2 ".to_string(), "VoteRequest ->  All servers ".to_string()]);
    assert_eq!(strip(&Logger::replicate_entries(&s, &vec![], &1, 0)), "preparing heartbeat signal to  Server 1 ");
}

#[test]
fn short_spans_are_drawn_without_fill() {
    let entries = vec![LogEntry { term: 1, data: 10u32 }, LogEntry { term: 2, data: 20 }];
    assert_eq!(
        debug_log(&entries, vec![(AnnotationType::Span(1, 2), "last")], 0),
        "\n(1) 10 -> (2) 20\n         ||  last"
    );
    assert_eq!(
        debug_log(&entries, vec![(AnnotationType::Span(0, 4), "four")], 0),
        "\n(1) 10 -> (2) 20\n||  four"
    );
}

#[test]
fn replicating_a_short_suffix_is_described() {
    let cfg = RaftConfig { election_timeout: 10, election_timeout_jitter: 0, heartbeat_interval: 3 };
    let peers: std::collections::BTreeSet<usize> = [1, 2].into_iter().collect();
    let mut s: RaftServer<u32, u32> = RaftServer::new(0, peers, cfg, Some(3), Box::new(NoApp));
    s.log.entries.push(LogEntry { term: 0, data: 5 });
    let entries = vec![LogEntry { term: 0, data: 5 }];
    assert_eq!(
        strip(&Logger::replicate_entries(&s, &entries, &1, 0)),
        "preparing RPC call to  Server 1 ... replicating a portion of our log: \n(0) 5\n||  these entries"
    );
}

#[test]
fn log_line_keeps_a_styled_message() {
    let line = log(&3, format!("vote {}", colour_bool(true)), Level::Requests);
    assert_eq!(strip(&line), " Server 3    vote ok");
}
