use raft::common::{Command, K, V};
use raft::log::LogEntry;
use raft::net::{AppendEntriesRequest, Reason, Reply, VoteRequest, VoteResponse};
use raft::node::{CommandStep, ElectionStep, NodeState, Peer, RaftNode};
use raft::storage::{MemKVStateMachine, StateMachine};

fn node() -> RaftNode<MemKVStateMachine> {
    let peers: Vec<Peer> = "127.0.0.1:8081,127.0.0.1:8082".split(',').map(Peer::new).collect();
    RaftNode::new(peers, "127.0.0.1:8080".to_string(), MemKVStateMachine::default())
}

fn put(k: &[u8], v: &[u8]) -> Command {
    Command::PUT(K::from(k.to_vec()), V::from(v.to_vec()))
}

/// A node that won the election of term 1 and holds one client command.
fn leader_with_one_command() -> RaftNode<MemKVStateMachine> {
    let mut n = node();
    n.start_election();
    assert_eq!(n.count_vote(0, Some(VoteResponse::new(1, true))), ElectionStep::Pending(1));
    assert_eq!(n.count_vote(1, Some(VoteResponse::new(1, true))), ElectionStep::Won);
    n.become_leader();
    assert_eq!(n.begin_command(put(b"hello", b"world")), CommandStep::Replicate(1));
    n
}

#[test]
fn continues_log_matches_the_previous_entry() {
    let n = leader_with_one_command();
    assert!(n.continues_log(&AppendEntriesRequest::new(1, "x", 0, 0, Vec::new(), 0)));
    assert!(n.continues_log(&AppendEntriesRequest::new(1, "x", 1, 1, Vec::new(), 0)));
    assert!(!n.continues_log(&AppendEntriesRequest::new(1, "x", 1, 2, Vec::new(), 0)));
    assert!(!n.continues_log(&AppendEntriesRequest::new(1, "x", 2, 0, Vec::new(), 0)));
}

#[test]
fn peer_new() {
    let p = Peer::new("127.0.0.1:8081");
    assert_eq!(p.end_point(), "127.0.0.1:8081".to_string());
    assert!(!p.vote_granted());
    assert_eq!(p.next_index(), 1);
    assert_eq!(p.match_index(), 0);
}

#[test]
fn new_node_is_a_follower() {
    let n = node();
    assert_eq!(n.state(), NodeState::FOLLOWER);
    assert_eq!(n.current_term(), 0);
    assert_eq!(n.commit_index(), 0);
    assert_eq!(n.voted_for(), None);
    assert_eq!(n.leader_id(), None);
    assert!(!n.is_leader());
    assert_eq!(n.peer_count(), 2);
    assert_eq!(n.logs().offset(), 0);
    assert_eq!(n.logs().len(), 0);
}

#[test]
fn follower_grants_votes_to_up_to_date_candidates() {
    let n = node();
    assert_eq!(
        n.handle_vote_request(&VoteRequest::new(1, "c", 0, 0)),
        Some(VoteResponse::new(0, true))
    );
    assert_eq!(n.handle_vote_request(&VoteRequest::new(1, "c", 1, 0)), None);
    assert_eq!(n.handle_vote_request(&VoteRequest::new(1, "c", 0, 1)), None);
}

#[test]
fn election_and_votes_in_a_newer_term() {
    let mut n = node();
    let req = n.start_election();
    assert_eq!(req, VoteRequest::new(1, "127.0.0.1:8080", 0, 0));
    assert_eq!(n.state(), NodeState::CANDIDATE);
    assert_eq!(n.current_term(), 1);
    assert_eq!(n.voted_for(), Some("127.0.0.1:8080".to_string()));
    assert!(!n.peer(0).vote_granted());
    // an older term is refused in the current term
    assert_eq!(
        n.handle_vote_request(&VoteRequest::new(0, "c", 0, 0)),
        Some(VoteResponse::new(1, false))
    );
    // another candidate in the same term gets no answer: the node voted for itself
    assert_eq!(n.handle_vote_request(&VoteRequest::new(1, "c", 0, 0)), None);
    assert_eq!(
        n.handle_vote_request(&VoteRequest::new(1, "127.0.0.1:8080", 0, 0)),
        Some(VoteResponse::new(1, true))
    );
}

#[test]
fn counting_votes() {
    let mut n = node();
    n.start_election();
    assert_eq!(n.count_vote(0, None), ElectionStep::Pending(0));
    assert_eq!(n.count_vote(0, Some(VoteResponse::new(1, false))), ElectionStep::Pending(0));
    assert_eq!(n.count_vote(0, Some(VoteResponse::new(1, true))), ElectionStep::Pending(1));
    assert_eq!(n.state(), NodeState::CANDIDATE);
    assert_eq!(n.count_vote(1, Some(VoteResponse::new(1, true))), ElectionStep::Won);
    assert_eq!(n.state(), NodeState::LEADER);
    let mut m = node();
    m.start_election();
    assert_eq!(m.count_vote(1, Some(VoteResponse::new(2, true))), ElectionStep::SteppedDown);
    assert_eq!(m.state(), NodeState::FOLLOWER);
    assert!(m.is_majority(2));
    assert!(!m.is_majority(1));
}

#[test]
fn become_leader_points_peers_after_the_last_entry() {
    let mut n = node();
    n.start_election();
    n.become_leader();
    assert!(n.is_leader());
    assert_eq!(n.state(), NodeState::LEADER);
    assert_eq!(n.leader_id(), Some("127.0.0.1:8080".to_string()));
    assert_eq!(n.peer(0).next_index(), 1);
    assert_eq!(n.peer(1).next_index(), 1);
}

#[test]
fn commands_at_a_follower_are_answered_at_once() {
    let mut n = node();
    assert_eq!(
        n.begin_command(put(b"a", b"b")),
        CommandStep::Answer(Reply::Fail(Reason::Unavailable))
    );
    assert_eq!(n.logs().len(), 0);
}

#[test]
fn commands_at_the_leader_are_appended() {
    let n = leader_with_one_command();
    assert_eq!(n.logs().len(), 1);
    assert_eq!(n.logs().offset(), 0);
    assert_eq!(n.logs().latest_log_index(), 1);
    assert_eq!(n.logs().latest_log_term(), 1);
    assert_eq!(n.logs().entry(1), Some(&LogEntry::new(1, 1, put(b"hello", b"world"))));
}

#[test]
fn finishing_commands() {
    let mut n = leader_with_one_command();
    assert_eq!(n.finish_command(false, 1), Reply::Fail(Reason::Timeout));
    assert_eq!(n.commit_index(), 0);
    assert_eq!(n.state_machine().query(K::from(b"hello".to_vec())), None);
    assert_eq!(n.finish_command(true, 1), Reply::Success(None));
    assert_eq!(n.commit_index(), 1);
    assert_eq!(
        n.state_machine().query(K::from(b"hello".to_vec())),
        Some(V::from(b"world".to_vec()))
    );
    // an index already committed changes nothing
    assert_eq!(n.finish_command(true, 1), Reply::Success(None));
    assert_eq!(n.commit_index(), 1);
}

#[test]
fn every_command_of_the_leader_lands_in_its_log() {
    let mut n = leader_with_one_command();
    assert_eq!(n.begin_command(put(b"a", b"1")), CommandStep::Replicate(2));
    assert_eq!(n.begin_command(put(b"b", b"2")), CommandStep::Replicate(3));
    assert_eq!(n.begin_command(put(b"c", b"3")), CommandStep::Replicate(4));
    assert_eq!(n.logs().latest_log_index(), 4);
    assert_eq!(n.finish_command(true, 4), Reply::Success(None));
    assert_eq!(n.commit_index(), 4);
    for (k, v) in [(&b"hello"[..], &b"world"[..]), (b"a", b"1"), (b"b", b"2"), (b"c", b"3")] {
        assert_eq!(n.state_machine().query(K::from(k.to_vec())), Some(V::from(v.to_vec())));
    }
}

#[test]
fn append_entries_from_an_older_term_is_refused() {
    let mut n = leader_with_one_command();
    let resp = n.handle_append_entries(AppendEntriesRequest::new(0, "x", 1, 1, Vec::new(), 5));
    assert!(!resp.success);
    assert_eq!(resp.term(), 1);
    assert_eq!(n.commit_index(), 0);
}

#[test]
fn append_entries_without_a_matching_previous_entry_is_refused() {
    let mut n = leader_with_one_command();
    // no entry at index 2
    let resp = n.handle_append_entries(AppendEntriesRequest::new(1, "x", 2, 1, Vec::new(), 5));
    assert!(!resp.success);
    // the entry at index 1 has term 1, not 3
    let resp = n.handle_append_entries(AppendEntriesRequest::new(1, "x", 1, 3, Vec::new(), 5));
    assert!(!resp.success);
    // the offset holds term 0
    let resp = n.handle_append_entries(AppendEntriesRequest::new(1, "x", 0, 5, Vec::new(), 5));
    assert!(!resp.success);
    assert_eq!(n.logs().len(), 1);
    assert_eq!(n.commit_index(), 0);
}

#[test]
fn an_empty_follower_accepts_the_first_heartbeat() {
    let mut f = node();
    let resp = f.handle_append_entries(AppendEntriesRequest::new(1, "127.0.0.1:8080", 0, 0, Vec::new(), 0));
    assert!(resp.success);
    assert_eq!(resp.term(), 0);
    assert_eq!(f.logs().len(), 0);
}

#[test]
fn append_entries_merges_commits_and_applies() {
    let mut n = leader_with_one_command();
    let entries = vec![LogEntry::new(2, 1, put(b"a", b"1"))];
    let resp = n.handle_append_entries(AppendEntriesRequest::new(1, "x", 1, 1, entries, 5));
    assert!(resp.success);
    assert_eq!(resp.term(), 1);
    assert_eq!(n.logs().len(), 2);
    assert_eq!(n.logs().offset(), 0);
    assert_eq!(n.commit_index(), 2);
    assert_eq!(n.current_term(), 1);
    assert_eq!(n.state_machine().query(K::from(b"a".to_vec())), Some(V::from(b"1".to_vec())));
    assert_eq!(
        n.state_machine().query(K::from(b"hello".to_vec())),
        Some(V::from(b"world".to_vec()))
    );
}

#[test]
fn follower_replicates_and_applies() {
    let mut f = node();
    let entries = vec![
        LogEntry::new(1, 1, put(b"a", b"1")),
        LogEntry::new(2, 1, put(b"b", b"2")),
    ];
    let resp = f.handle_append_entries(AppendEntriesRequest::new(1, "l", 0, 0, entries, 1));
    assert!(resp.success);
    assert_eq!(f.commit_index(), 1);
    assert_eq!(f.state_machine().query(K::from(b"a".to_vec())), Some(V::from(b"1".to_vec())));
    assert_eq!(f.state_machine().query(K::from(b"b".to_vec())), None);
    let resp = f.handle_append_entries(AppendEntriesRequest::new(1, "l", 2, 1, Vec::new(), 2));
    assert!(resp.success);
    assert_eq!(f.commit_index(), 2);
    assert_eq!(f.state_machine().query(K::from(b"b".to_vec())), Some(V::from(b"2".to_vec())));
}

#[test]
fn heartbeat_commits_up_to_its_previous_index() {
    let mut n = leader_with_one_command();
    let resp = n.handle_append_entries(AppendEntriesRequest::new(1, "x", 1, 1, Vec::new(), 5));
    assert!(resp.success);
    assert_eq!(n.logs().len(), 1);
    assert_eq!(n.commit_index(), 1);
    // a lower leader commit index changes nothing
    let resp = n.handle_append_entries(AppendEntriesRequest::new(2, "x", 1, 1, Vec::new(), 0));
    assert!(resp.success);
    assert_eq!(n.commit_index(), 1);
}

#[test]
fn append_requests_and_answers() {
    let mut n = leader_with_one_command();
    assert_eq!(n.peer(0).next_index(), 1);
    let req = n.append_request_for(0);
    assert_eq!(
        req,
        AppendEntriesRequest::new(1, "127.0.0.1:8080", 0, 0, vec![LogEntry::new(1, 1, put(b"hello", b"world"))], 0)
    );
    assert!(n.on_append_response(0, true));
    assert_eq!(n.peer(0).match_index(), 1);
    assert_eq!(n.peer(0).next_index(), 2);
    assert_eq!(
        n.append_request_for(0),
        AppendEntriesRequest::new(1, "127.0.0.1:8080", 1, 1, Vec::new(), 0)
    );
    assert!(!n.on_append_response(1, false));
    assert_eq!(n.peer(1).next_index(), 0);
    assert_eq!(n.peer(1).match_index(), 0);
}

#[test]
fn compaction_discards_committed_entries() {
    let mut n = leader_with_one_command();
    n.compact();
    assert_eq!(n.logs().offset(), 0);
    assert_eq!(n.logs().len(), 1);
    assert_eq!(n.state_machine().get_last_index(), 0);
    n.handle_append_entries(AppendEntriesRequest::new(1, "x", 1, 1, vec![LogEntry::new(2, 1, put(b"a", b"1"))], 2));
    assert_eq!(n.commit_index(), 2);
    n.compact();
    assert_eq!(n.logs().offset(), 2);
    assert_eq!(n.logs().len(), 0);
    assert_eq!(n.logs().latest_log_index(), 0);
    assert_eq!(n.state_machine().get_last_index(), 2);
    assert_eq!(n.state_machine().get_last_term(), 1);
    // the log goes on after the snapshot, from its offset
    let resp = n.handle_append_entries(AppendEntriesRequest::new(
        1,
        "x",
        2,
        0,
        vec![LogEntry::new(3, 1, put(b"z", b"9"))],
        3,
    ));
    assert!(resp.success);
    assert_eq!(n.commit_index(), 3);
    assert_eq!(n.logs().entry(3), Some(&LogEntry::new(3, 1, put(b"z", b"9"))));
    assert_eq!(n.state_machine().query(K::from(b"z".to_vec())), Some(V::from(b"9".to_vec())));
}

#[test]
fn compaction_keeps_uncommitted_entries() {
    let mut n = leader_with_one_command();
    n.begin_command(put(b"a", b"1"));
    n.finish_command(true, 1);
    n.compact();
    assert_eq!(n.logs().offset(), 1);
    assert_eq!(n.logs().len(), 1);
    assert_eq!(n.logs().entry(2), Some(&LogEntry::new(2, 1, put(b"a", b"1"))));
    assert_eq!(n.state_machine().get_last_index(), 1);
}
