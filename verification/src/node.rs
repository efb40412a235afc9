use vstd::prelude::*;
use crate::common::Command;
use crate::log::{
    consecutive, lemma_append_keeps_indexing, lemma_truncate_keeps_later, LogEntry, RaftLog,
    RaftLogView,
};
use crate::net::{
    entry_views, AppendEntriesRequest, AppendEntriesResponse, Reason, Reply, VoteRequest,
    VoteResponse,
};
use crate::storage::{apply_commands, SnapshotView, StateMachine};

verus! {

broadcast use vstd::string::group_string_axioms;

/// Most entries one append request carries.
pub const MAX_LOG_ENTRIES_PER_REQUEST: u64 = 100;

/// Milliseconds between two heartbeats of a leader.
pub const HEART_BEAT_TIMEOUT_MS: u64 = 500;

/// The role a node plays.
#[derive(Debug, PartialEq, Eq, Structural, Clone, Copy)]
pub enum NodeState {
    FOLLOWER,
    CANDIDATE,
    LEADER,
}

/// What a node knows of another member of the cluster.
#[derive(Debug, PartialEq, Eq, Hash)]
pub struct Peer {
    end_point: String,
    vote_granted: bool,
    next_index: u64,
    match_index: u64,
}

/// The content of a `Peer`.
pub struct PeerView {
    pub end_point: Seq<char>,
    pub vote_granted: bool,
    pub next_index: u64,
    pub match_index: u64,
}

impl View for Peer {
    type V = PeerView;

    closed spec fn view(&self) -> PeerView {
        PeerView {
            end_point: self.end_point@,
            vote_granted: self.vote_granted,
            next_index: self.next_index,
            match_index: self.match_index,
        }
    }
}

impl Peer {
    pub fn new(end_point: &str) -> (r: Self)
        ensures
            r@.end_point == end_point@,
            !r@.vote_granted,
            r@.next_index == 1,
            r@.match_index == 0,
    {
        Peer { end_point: end_point.to_string(), vote_granted: false, next_index: 1, match_index: 0 }
    }

    /// Whether the peer granted its vote.
    pub fn vote_granted(&self) -> (r: bool)
        ensures
            r == self@.vote_granted,
    {
        self.vote_granted
    }

    /// The index of the next entry to send to the peer.
    pub fn next_index(&self) -> (r: u64)
        ensures
            r == self@.next_index,
    {
        self.next_index
    }

    /// The index of the last entry known to be replicated on the peer.
    pub fn match_index(&self) -> (r: u64)
        ensures
            r == self@.match_index,
    {
        self.match_index
    }

    /// The address of the peer.
    pub fn end_point(&self) -> (r: String)
        ensures
            r@ == self@.end_point,
    {
        self.end_point.clone()
    }
}

/// The views of `peers`.
pub open spec fn peer_views(peers: Seq<Peer>) -> Seq<PeerView> {
    peers.map_values(|p: Peer| p@)
}

/// A string option taken by its view.
pub open spec fn opt_view(o: Option<String>) -> Option<Seq<char>> {
    match o {
        Some(s) => Some(s@),
        None => None,
    }
}

/// A Raft node: its role, terms, log and state machine.
pub struct RaftNode<T: StateMachine> {
    state: NodeState,
    server_id: String,
    leader_id: Option<String>,
    commit_index: u64,
    current_term: u64,
    voted_for: Option<String>,
    peers: Vec<Peer>,
    logs: RaftLog,
    state_machine: T,
}

/// Everything a node holds but its state machine.
pub struct RaftNodeView {
    pub state: NodeState,
    pub server_id: Seq<char>,
    pub leader_id: Option<Seq<char>>,
    pub commit_index: u64,
    pub current_term: u64,
    pub voted_for: Option<Seq<char>>,
    pub peers: Seq<PeerView>,
    pub log: RaftLogView,
}

impl RaftNodeView {
    /// The node takes itself for the leader.
    pub open spec fn is_leader(self) -> bool {
        self.leader_id == Some(self.server_id)
    }

    /// The index of the last entry of the log.
    pub open spec fn latest_index(self) -> u64 {
        self.log.latest_index()
    }

    /// The term of the last entry of the log.
    pub open spec fn latest_term(self) -> u64 {
        self.log.latest_term()
    }

    /// The node grants a vote to `vote`: it has not voted for another
    /// candidate, and the candidate's last log index and term do not lie
    /// beyond its own.
    pub open spec fn grants(self, vote: VoteRequest) -> bool {
        &&& (self.voted_for is None || self.voted_for == Some(vote.candidate_id@))
        &&& vote.last_log_index <= self.latest_index()
        &&& vote.last_log_term <= self.latest_term()
    }

    /// The last index an append request to a peer whose next index is `next` covers.
    pub open spec fn last_index_for(self, next: u64) -> u64 {
        let cap = MAX_LOG_ENTRIES_PER_REQUEST + next - 1;
        if self.latest_index() <= cap {
            self.latest_index()
        } else {
            cap as u64
        }
    }

}

impl RaftNodeView {
    /// `self` and `other` agree on everything but the log and the commit index.
    pub open spec fn same_roles(self, other: RaftNodeView) -> bool {
        &&& self.state == other.state
        &&& self.server_id == other.server_id
        &&& self.leader_id == other.leader_id
        &&& self.current_term == other.current_term
        &&& self.voted_for == other.voted_for
        &&& self.peers == other.peers
    }

    /// `self` and `other` agree on everything.
    pub open spec fn same_as(self, other: RaftNodeView) -> bool {
        &&& self.same_roles(other)
        &&& self.commit_index == other.commit_index
        &&& self.log == other.log
    }

    /// The append request `req` continues the log: its previous index is the
    /// log's offset or an index the log holds an entry for, and the term held
    /// there (0 at the offset) is `prev_log_term`.
    pub open spec fn matches_prev(self, req: AppendEntriesRequest) -> bool {
        &&& req.prev_log_index >= self.log.offset
        &&& (req.prev_log_index == self.log.offset || self.log.holds(req.prev_log_index))
        &&& self.log.term_of(req.prev_log_index) == req.prev_log_term
    }

    /// The index of the last entry `req` brings, or its previous index when it
    /// brings none.
    pub open spec fn last_new_index(req: AppendEntriesRequest) -> u64 {
        if req.entries@.len() > 0 {
            req.entries@.last().index
        } else {
            req.prev_log_index
        }
    }

    /// The commit index after accepting `req`.
    pub open spec fn commit_after(self, req: AppendEntriesRequest) -> u64 {
        let last = Self::last_new_index(req);
        if req.leader_commit > self.commit_index {
            if req.leader_commit <= last {
                req.leader_commit
            } else {
                last
            }
        } else {
            self.commit_index
        }
    }
}

/// Accepting an append request never lowers the commit index, as long as the
/// last new entry lies at or beyond the commit index.
pub proof fn lemma_commit_never_decreases(node: RaftNodeView, req: AppendEntriesRequest)
    requires
        RaftNodeView::last_new_index(req) >= node.commit_index,
    ensures
        node.commit_after(req) >= node.commit_index,
{
}

/// The commit index after an append request never exceeds the leader's commit
/// index, unless the node's own was already higher.
pub proof fn lemma_commit_bounded_by_leader(node: RaftNodeView, req: AppendEntriesRequest)
    ensures
        node.commit_after(req) <= req.leader_commit || node.commit_after(req)
            == node.commit_index,
{
}

/// A heartbeat (an accepted request without entries) leaves the log as it was.
pub proof fn lemma_heartbeat_keeps_log(node: RaftNodeView, req: AppendEntriesRequest)
    requires
        req.entries@.len() == 0,
    ensures
        node.log.appended(req.prev_log_index, req.entries@) == node.log,
{
    assert(node.log.appended(req.prev_log_index, req.entries@).entries =~= node.log.entries);
}

/// The commit rule: when the leader's commit index is higher, the node's
/// becomes the smaller of it and the index of the last new entry (the last
/// entry brought, or the previous index for a heartbeat); otherwise it stays.
pub proof fn lemma_commit_rule(node: RaftNodeView, req: AppendEntriesRequest)
    ensures
        req.entries@.len() > 0 ==> RaftNodeView::last_new_index(req) == req.entries@[req.entries@.len() - 1].index,
        req.entries@.len() == 0 ==> RaftNodeView::last_new_index(req) == req.prev_log_index,
        req.leader_commit > node.commit_index ==> {
            let c = node.commit_after(req);
            &&& c <= req.leader_commit
            &&& c <= RaftNodeView::last_new_index(req)
            &&& (c == req.leader_commit || c == RaftNodeView::last_new_index(req))
        },
        req.leader_commit <= node.commit_index ==> node.commit_after(req) == node.commit_index,
{
}

/// The vote rule compares like with like: a candidate the node may vote for
/// whose last log index and term equal the node's own is granted; one whose
/// last index, or whose last term, lies beyond the node's is not; nor is any
/// candidate once the node voted for another.
pub proof fn lemma_vote_rule(node: RaftNodeView, vote: VoteRequest)
    ensures
        (node.voted_for is None || node.voted_for == Some(vote.candidate_id@))
            && vote.last_log_index == node.latest_index() && vote.last_log_term
            == node.latest_term() ==> node.grants(vote),
        vote.last_log_index > node.latest_index() ==> !node.grants(vote),
        vote.last_log_term > node.latest_term() ==> !node.grants(vote),
        (node.voted_for matches Some(v) && v != vote.candidate_id@) ==> !node.grants(vote),
{
}

/// A candidate whose last index and term lie no further than those of a
/// granted candidate (with the same id) is granted too.
pub proof fn lemma_vote_monotone(node: RaftNodeView, granted: VoteRequest, other: VoteRequest)
    requires
        node.grants(granted),
        other.candidate_id@ == granted.candidate_id@,
        other.last_log_index <= granted.last_log_index,
        other.last_log_term <= granted.last_log_term,
    ensures
        node.grants(other),
{
}

/// Votes from `received` of `peer_count` peers make a majority exactly when
/// twice their number exceeds the cluster's size, the node itself included.
pub proof fn lemma_majority_threshold(received: u64, peer_count: nat)
    ensures
        is_majority(received, peer_count) <==> 2 * received > peer_count + 1,
{
}

/// At most one previous term matches at a given previous index: two append
/// requests that name the same previous index with different previous terms
/// are never both accepted.
pub proof fn lemma_prev_term_unique(node: RaftNodeView, a: AppendEntriesRequest, b: AppendEntriesRequest)
    requires
        a.prev_log_index == b.prev_log_index,
        a.prev_log_term != b.prev_log_term,
    ensures
        !(node.matches_prev(a) && node.matches_prev(b)),
{
}

/// An accepted append request names the term the log holds at its previous
/// index (0 at the offset); a request naming that very term, at the offset or
/// at an index the log holds, is accepted.
pub proof fn lemma_prev_term_equal(node: RaftNodeView, req: AppendEntriesRequest)
    ensures
        node.matches_prev(req) ==> req.prev_log_term == node.log.term_of(req.prev_log_index),
        req.prev_log_index >= node.log.offset && (req.prev_log_index == node.log.offset
            || node.log.holds(req.prev_log_index)) && req.prev_log_term == node.log.term_of(
            req.prev_log_index,
        ) ==> node.matches_prev(req),
        req.prev_log_index == node.log.offset ==> (node.matches_prev(req) <==> req.prev_log_term
            == 0),
{
}

/// A request to a peer whose next index the well-indexed log holds carries
/// that entry and those after it, one per index, at least one and at most
/// `MAX_LOG_ENTRIES_PER_REQUEST`, up to the last index or to that many; a
/// success moves the peer's next index past the last one carried.
pub proof fn lemma_request_makes_progress(node: RaftNodeView, next: u64)
    requires
        next >= 1,
        MAX_LOG_ENTRIES_PER_REQUEST + next <= u64::MAX,
        node.log.well_indexed(),
        node.log.holds(next),
    ensures
        ({
            let last = node.last_index_for(next);
            let carried = node.log.held_between((next - 1) as u64, last);
            &&& next <= last <= next + MAX_LOG_ENTRIES_PER_REQUEST - 1
            &&& last <= node.latest_index()
            &&& last == node.latest_index() || last == next + MAX_LOG_ENTRIES_PER_REQUEST - 1
            &&& carried.len() == last - next + 1
            &&& forall|k: int| 0 <= k < carried.len() ==> #[trigger] carried[k].index == next + k
            &&& last + 1 > next
        }),
{
    let log = node.log;
    let len = log.entries.len();
    assert(log.entries.last() == log.entries[len - 1]);
    assert(log.entries[len - 1].index == log.offset + 1 + (len - 1));
    let last = node.last_index_for(next);
    let carried = log.held_between((next - 1) as u64, last);
    assert forall|k: int| 0 <= k < carried.len() implies #[trigger] carried[k].index == next + k by {
        assert(carried[k] == log.entries[(next - 1 - log.offset) + k]);
    }
}

/// Whether `received` successful answers out of `peer_count` peers are enough.
pub open spec fn is_majority(received: u64, peer_count: nat) -> bool {
    received > (peer_count + 1) / 2
}

/// The next thing to do with a client command.
#[derive(Debug, PartialEq)]
pub enum CommandStep {
    /// The command was appended to the leader's log; replicate it, then call
    /// `finish_command` with this index, the index of the new entry.
    Replicate(u64),
    /// Answer the client at once.
    Answer(Reply),
}

/// Where an election stands after one answer.
#[derive(Debug, PartialEq, Eq, Structural, Clone, Copy)]
pub enum ElectionStep {
    /// Still waiting, with this many votes granted.
    Pending(u64),
    /// A majority granted its vote: the node is leader.
    Won,
    /// A node with a newer term answered: the node is a follower again.
    SteppedDown,
}

impl<T: StateMachine> View for RaftNode<T> {
    type V = RaftNodeView;

    closed spec fn view(&self) -> RaftNodeView {
        RaftNodeView {
            state: self.state,
            server_id: self.server_id@,
            leader_id: opt_view(self.leader_id),
            commit_index: self.commit_index,
            current_term: self.current_term,
            voted_for: opt_view(self.voted_for),
            peers: peer_views(self.peers@),
            log: self.logs@,
        }
    }
}

impl<T: StateMachine> RaftNode<T> {
    /// The state machine of the node.
    pub closed spec fn machine(&self) -> T {
        self.state_machine
    }

    /// A follower in term 0 that has voted for no one, whose log starts where
    /// the state machine's snapshot stands.
    pub fn new(peers: Vec<Peer>, server_id: String, state_machine: T) -> (r: Self)
        ensures
            r@.state == NodeState::FOLLOWER,
            r@.server_id == server_id@,
            r@.leader_id is None,
            r@.commit_index == 0,
            r@.current_term == 0,
            r@.voted_for is None,
            r@.peers == peer_views(peers@),
            r@.log.offset == state_machine.last_index(),
            r@.log.entries == Seq::<LogEntry>::empty(),
            r.machine() == state_machine,
    {
        let last_index = state_machine.get_last_index();
        RaftNode {
            state: NodeState::FOLLOWER,
            leader_id: None,
            commit_index: 0,
            current_term: 0,
            voted_for: None,
            logs: RaftLog::new(last_index),
            peers,
            server_id,
            state_machine,
        }
    }

    /// The role the node plays.
    pub fn state(&self) -> (r: NodeState)
        ensures
            r == self@.state,
    {
        self.state
    }

    /// The node's current term.
    pub fn current_term(&self) -> (r: u64)
        ensures
            r == self@.current_term,
    {
        self.current_term
    }

    /// The node's commit index.
    pub fn commit_index(&self) -> (r: u64)
        ensures
            r == self@.commit_index,
    {
        self.commit_index
    }

    /// The candidate the node voted for in its current term, if any.
    pub fn voted_for(&self) -> (r: Option<String>)
        ensures
            opt_view(r) == self@.voted_for,
    {
        self.voted_for.clone()
    }

    /// The leader the node knows of, if any.
    pub fn leader_id(&self) -> (r: Option<String>)
        ensures
            opt_view(r) == self@.leader_id,
    {
        self.leader_id.clone()
    }

    /// The number of peers.
    pub fn peer_count(&self) -> (r: usize)
        ensures
            r == self@.peers.len(),
    {
        self.peers.len()
    }

    /// Peer `i`.
    pub fn peer(&self, i: usize) -> (r: &Peer)
        requires
            i < self@.peers.len(),
        ensures
            r@ == self@.peers[i as int],
    {
        &self.peers[i]
    }

    /// The node's log.
    pub fn logs(&self) -> (r: &RaftLog)
        ensures
            r@ == self@.log,
    {
        &self.logs
    }

    /// The node's state machine.
    pub fn state_machine(&self) -> (r: &T)
        ensures
            *r == self.machine(),
    {
        &self.state_machine
    }

    /// Whether the node takes itself for the leader.
    pub fn is_leader(&self) -> (r: bool)
        ensures
            r == self@.is_leader(),
    {
        match &self.leader_id {
            Some(leader_id) => leader_id.eq(&self.server_id),
            None => false,
        }
    }
}

impl<T: StateMachine> RaftNode<T> {
    /// Whether the append request `req` continues the node's log (see
    /// `RaftNodeView::matches_prev`).
    pub fn continues_log(&self, req: &AppendEntriesRequest) -> (r: bool)
        ensures
            r == self@.matches_prev(*req),
    {
        req.prev_log_index >= self.logs.offset() && (req.prev_log_index == self.logs.offset()
            || self.logs.entry(req.prev_log_index).is_some()) && self.logs.term(
            req.prev_log_index,
        ) == req.prev_log_term
    }

    /// The answer to a vote request: a refusal in the current term when the
    /// candidate's term is older, a grant when `grants` holds, and no answer
    /// otherwise. The node itself does not change.
    pub fn handle_vote_request(&self, vote: &VoteRequest) -> (r: Option<VoteResponse>)
        ensures
            vote.term < self@.current_term ==> r == Some(
                VoteResponse { term: self@.current_term, vote_granted: false },
            ),
            vote.term >= self@.current_term && self@.grants(*vote) ==> r == Some(
                VoteResponse { term: self@.current_term, vote_granted: true },
            ),
            vote.term >= self@.current_term && !self@.grants(*vote) ==> r is None,
    {
        if vote.term < self.current_term {
            return Some(VoteResponse::new(self.current_term, false));
        }
        let free = match &self.voted_for {
            None => true,
            Some(v) => v.eq(&vote.candidate_id),
        };
        if free && vote.last_log_index <= self.logs.latest_log_index() && vote.last_log_term
            <= self.logs.latest_log_term() {
            return Some(VoteResponse::new(self.current_term, true));
        }
        None
    }

    /// The answer to an append request. One from an older term is refused; so
    /// is one whose previous index is neither the log's offset nor an index the
    /// log holds, or whose previous term is not the term held there; neither
    /// changes the node. Otherwise the entries (none for a heartbeat) are
    /// appended after the previous index, the commit index rises to the smaller
    /// of the leader's commit index and the index of the last new entry when the
    /// leader's is higher, the entries that became committed are applied to the
    /// state machine, and the answer is a success. The answer carries the
    /// node's current term.
    pub fn handle_append_entries(&mut self, req: AppendEntriesRequest) -> (r:
        AppendEntriesResponse)
        requires
            req.term >= old(self)@.current_term && old(self)@.matches_prev(req) ==>
                req.prev_log_index + req.entries@.len() + 1 <= u64::MAX,
        ensures
            r@.term == old(self)@.current_term,
            req.term < old(self)@.current_term ==> !r@.success && final(self)@.same_as(
                old(self)@,
            ) && final(self).machine() == old(self).machine(),
            req.term >= old(self)@.current_term && !old(self)@.matches_prev(req) ==> !r@.success
                && final(self)@.same_as(old(self)@) && final(self).machine() == old(
                self,
            ).machine(),
            req.term >= old(self)@.current_term && old(self)@.matches_prev(req) ==> {
                &&& r@.success
                &&& final(self)@.same_roles(old(self)@)
                &&& final(self)@.log == old(self)@.log.appended(req.prev_log_index, req.entries@)
                &&& final(self)@.commit_index == old(self)@.commit_after(req)
                &&& old(self)@.log.well_indexed() && consecutive(
                    req.entries@,
                    req.prev_log_index as int,
                ) ==> final(self)@.log.well_indexed()
                &&& final(self).machine().store() == apply_commands(
                    old(self).machine().store(),
                    final(self)@.log.held_between(
                        old(self)@.commit_index,
                        final(self)@.commit_index,
                    ),
                )
                &&& final(self)@.commit_index <= old(self)@.commit_index ==> final(self).machine() == old(self).machine()
            },
    {
        if req.term < self.current_term {
            return AppendEntriesResponse::new(self.current_term, false);
        }
        if req.prev_log_index < self.logs.offset() {
            return AppendEntriesResponse::new(self.current_term, false);
        }
        if req.prev_log_index != self.logs.offset() && self.logs.entry(req.prev_log_index).is_none() {
            return AppendEntriesResponse::new(self.current_term, false);
        }
        if self.logs.term(req.prev_log_index) != req.prev_log_term {
            return AppendEntriesResponse::new(self.current_term, false);
        }
        let n = req.entries.len();
        let last_index = if n > 0 {
            req.entries[n - 1].index
        } else {
            req.prev_log_index
        };
        let leader_commit = req.leader_commit;
        proof {
            if self.logs@.well_indexed() && consecutive(req.entries@, req.prev_log_index as int) {
                lemma_append_keeps_indexing(self.logs@, req.prev_log_index, req.entries@);
            }
        }
        self.logs.append(req.prev_log_index, req.entries);
        let old_commit = self.commit_index;
        if leader_commit > self.commit_index {
            self.commit_index = if leader_commit <= last_index {
                leader_commit
            } else {
                last_index
            };
        }
        if self.commit_index > old_commit {
            self.state_machine.apply(self.logs.between(old_commit, self.commit_index));
        } else {
            proof {
                let held = self.logs@.held_between(old_commit, self.commit_index);
                assert(held =~= Seq::<LogEntry>::empty());
                assert(apply_commands(self.state_machine.store(), held) == self.state_machine.store());
            }
        }
        AppendEntriesResponse::new(self.current_term, true)
    }
}

impl<T: StateMachine> RaftNode<T> {
    /// A client command. The leader appends it to its log as the entry after
    /// its last one, in its current term, and asks for it to be replicated;
    /// any other node answers at once, redirecting to the leader it knows of
    /// or saying that none is available.
    pub fn begin_command(&mut self, cmd: Command) -> (r: CommandStep)
        requires
            old(self)@.is_leader() ==> {
                &&& old(self)@.latest_index() >= old(self)@.log.offset
                &&& old(self)@.latest_index() + 2 <= u64::MAX
            },
        ensures
            final(self).machine() == old(self).machine(),
            old(self)@.is_leader() ==> {
                let index = (old(self)@.latest_index() + 1) as u64;
                &&& final(self)@.same_roles(old(self)@)
                &&& final(self)@.commit_index == old(self)@.commit_index
                &&& final(self)@.log == old(self)@.log.appended(
                    old(self)@.latest_index(),
                    seq![LogEntry { index, term: old(self)@.current_term, command: cmd }],
                )
                &&& r == CommandStep::Replicate(index)
                &&& old(self)@.log.well_indexed() ==> final(self)@.log.well_indexed()
                    && final(self)@.latest_index() == index
            },
            !old(self)@.is_leader() ==> final(self)@.same_as(old(self)@),
            !old(self)@.is_leader() && old(self)@.leader_id is Some ==> (r matches CommandStep::Answer(
                Reply::Fail(Reason::Redirect(l)),
            ) && Some(l@) == old(self)@.leader_id),
            !old(self)@.is_leader() && old(self)@.leader_id is None ==> r == CommandStep::Answer(
                Reply::Fail(Reason::Unavailable),
            ),
    {
        if self.is_leader() {
            let latest = self.logs.latest_log_index();
            let index = latest + 1;
            let log = LogEntry::new(index, self.current_term, cmd);
            let mut batch: Vec<LogEntry> = Vec::new();
            batch.push(log);
            assert(batch@ =~= seq![log]);
            proof {
                if self.logs@.well_indexed() {
                    if self.logs@.entries.len() > 0 {
                        assert(self.logs@.entries.last().index == self.logs@.offset + 1 + (
                        self.logs@.entries.len() - 1));
                    }
                    lemma_append_keeps_indexing(self.logs@, latest, batch@);
                    assert(!crate::log::has_conflict(self.logs@.entries, latest - self.logs@.offset, batch@));
                }
            }
            self.logs.append(latest, batch);
            CommandStep::Replicate(index)
        } else {
            match &self.leader_id {
                Some(leader_id) => CommandStep::Answer(
                    Reply::Fail(Reason::Redirect(leader_id.clone())),
                ),
                None => CommandStep::Answer(Reply::Fail(Reason::Unavailable)),
            }
        }
    }

    /// The end of a client command whose entry has index `index`. When
    /// replication succeeded, the commit index rises to `index` (if it is
    /// higher), the entries that became committed are applied to the state
    /// machine, and the client is told of success; otherwise it is told of a
    /// timeout and nothing changes.
    pub fn finish_command(&mut self, replicated: bool, index: u64) -> (r: Reply)
        ensures
            final(self)@.same_roles(old(self)@),
            final(self)@.log == old(self)@.log,
            replicated ==> {
                &&& r == Reply::Success(None)
                &&& final(self)@.commit_index == (if index > old(self)@.commit_index {
                    index
                } else {
                    old(self)@.commit_index
                })
                &&& final(self).machine().store() == apply_commands(
                    old(self).machine().store(),
                    old(self)@.log.held_between(old(self)@.commit_index, index),
                )
                &&& index <= old(self)@.commit_index ==> final(self).machine() == old(self).machine()
            },
            !replicated ==> r == Reply::Fail(Reason::Timeout) && final(self)@.commit_index == old(
                self,
            )@.commit_index && final(self).machine() == old(self).machine(),
    {
        if replicated {
            if index > self.commit_index {
                self.state_machine.apply(self.logs.between(self.commit_index, index));
                self.commit_index = index;
            } else {
                proof {
                    let held = self.logs@.held_between(self.commit_index, index);
                    assert(held =~= Seq::<LogEntry>::empty());
                    assert(apply_commands(self.state_machine.store(), held)
                        == self.state_machine.store());
                }
            }
            Reply::Success(None)
        } else {
            Reply::Fail(Reason::Timeout)
        }
    }
}

impl<T: StateMachine> RaftNode<T> {
    /// Starts an election: the node moves to the next term, votes for itself,
    /// becomes a candidate, forgets the votes its peers granted, and builds the
    /// vote request to send to each of them.
    pub fn start_election(&mut self) -> (r: VoteRequest)
        requires
            old(self)@.current_term < u64::MAX,
        ensures
            final(self).machine() == old(self).machine(),
            final(self)@.current_term == old(self)@.current_term + 1,
            final(self)@.voted_for == Some(old(self)@.server_id),
            final(self)@.state == NodeState::CANDIDATE,
            final(self)@.server_id == old(self)@.server_id,
            final(self)@.leader_id == old(self)@.leader_id,
            final(self)@.commit_index == old(self)@.commit_index,
            final(self)@.log == old(self)@.log,
            final(self)@.peers.len() == old(self)@.peers.len(),
            forall|i: int|
                0 <= i < old(self)@.peers.len() ==> {
                    &&& !(#[trigger] final(self)@.peers[i]).vote_granted
                    &&& final(self)@.peers[i].end_point == old(self)@.peers[i].end_point
                    &&& final(self)@.peers[i].next_index == old(self)@.peers[i].next_index
                    &&& final(self)@.peers[i].match_index == old(self)@.peers[i].match_index
                },
            r.term == final(self)@.current_term,
            r.candidate_id@ == old(self)@.server_id,
            r.last_log_index == old(self)@.latest_index(),
            r.last_log_term == old(self)@.latest_term(),
    {
        self.current_term = self.current_term + 1;
        self.voted_for = Some(self.server_id.clone());
        self.state = NodeState::CANDIDATE;
        let request = VoteRequest::new(
            self.current_term,
            self.server_id.as_str(),
            self.logs.latest_log_index(),
            self.logs.latest_log_term(),
        );
        let mut peers: Vec<Peer> = Vec::new();
        std::mem::swap(&mut peers, &mut self.peers);
        let ghost before = peers@;
        let n = peers.len();
        let mut i: usize = 0;
        while i < n
            invariant
                n == peers@.len(),
                n == before.len(),
                i <= n,
                forall|j: int|
                    0 <= j < n ==> {
                        &&& (#[trigger] peers@[j])@.end_point == before[j]@.end_point
                        &&& peers@[j]@.next_index == before[j]@.next_index
                        &&& peers@[j]@.match_index == before[j]@.match_index
                        &&& (j < i ==> !peers@[j]@.vote_granted)
                    },
            decreases n - i,
        {
            peers[i].vote_granted = false;
            i = i + 1;
        }
        self.peers = peers;
        assert(peer_views(self.peers@).len() == n);
        request
    }

    /// Whether `received` successful answers make a majority of the cluster.
    pub fn is_majority(&self, received: u64) -> (r: bool)
        ensures
            r == is_majority(received, self@.peers.len()),
    {
        let n = self.peers.len() as u64;
        let half = if n % 2 == 0 {
            n / 2
        } else {
            n / 2 + 1
        };
        received > half
    }

    /// Counts one answer to the node's vote request (`None` when the request
    /// failed). An answer from a newer term turns the node back into a
    /// follower; a granted vote that makes a majority turns it into the leader;
    /// anything else leaves the count where it stands, one higher for a vote.
    pub fn count_vote(&mut self, granted: u64, resp: Option<VoteResponse>) -> (r: ElectionStep)
        requires
            granted < u64::MAX,
        ensures
            final(self).machine() == old(self).machine(),
            final(self)@.server_id == old(self)@.server_id,
            final(self)@.leader_id == old(self)@.leader_id,
            final(self)@.current_term == old(self)@.current_term,
            final(self)@.voted_for == old(self)@.voted_for,
            final(self)@.peers == old(self)@.peers,
            final(self)@.commit_index == old(self)@.commit_index,
            final(self)@.log == old(self)@.log,
            resp matches Some(a) && a.term > old(self)@.current_term ==> r == ElectionStep::SteppedDown
                && final(self)@.state == NodeState::FOLLOWER,
            resp matches Some(a) && a.term <= old(self)@.current_term && a.vote_granted
                && is_majority((granted + 1) as u64, old(self)@.peers.len()) ==> r == ElectionStep::Won
                && final(self)@.state == NodeState::LEADER,
            resp matches Some(a) && a.term <= old(self)@.current_term && a.vote_granted
                && !is_majority((granted + 1) as u64, old(self)@.peers.len()) ==> r
                == ElectionStep::Pending((granted + 1) as u64) && final(self)@.state == old(
                self,
            )@.state,
            resp matches Some(a) && a.term <= old(self)@.current_term && !a.vote_granted ==> r
                == ElectionStep::Pending(granted) && final(self)@.state == old(self)@.state,
            resp is None ==> r == ElectionStep::Pending(granted) && final(self)@.state == old(
                self,
            )@.state,
    {
        match resp {
            Some(a) => {
                if a.term > self.current_term {
                    self.state = NodeState::FOLLOWER;
                    ElectionStep::SteppedDown
                } else if a.vote_granted {
                    let count = granted + 1;
                    if self.is_majority(count) {
                        self.state = NodeState::LEADER;
                        ElectionStep::Won
                    } else {
                        ElectionStep::Pending(count)
                    }
                } else {
                    ElectionStep::Pending(granted)
                }
            },
            None => ElectionStep::Pending(granted),
        }
    }

    /// Takes the lead: the node records itself as leader and expects every
    /// peer to need the entry after its own last one next.
    pub fn become_leader(&mut self)
        requires
            old(self)@.latest_index() < u64::MAX,
        ensures
            final(self).machine() == old(self).machine(),
            final(self)@.is_leader(),
            final(self)@.leader_id == Some(old(self)@.server_id),
            final(self)@.state == NodeState::LEADER,
            final(self)@.server_id == old(self)@.server_id,
            final(self)@.current_term == old(self)@.current_term,
            final(self)@.voted_for == old(self)@.voted_for,
            final(self)@.commit_index == old(self)@.commit_index,
            final(self)@.log == old(self)@.log,
            final(self)@.peers.len() == old(self)@.peers.len(),
            forall|i: int|
                0 <= i < old(self)@.peers.len() ==> {
                    &&& (#[trigger] final(self)@.peers[i]).next_index == old(self)@.latest_index()
                        + 1
                    &&& final(self)@.peers[i].end_point == old(self)@.peers[i].end_point
                    &&& final(self)@.peers[i].vote_granted == old(self)@.peers[i].vote_granted
                    &&& final(self)@.peers[i].match_index == old(self)@.peers[i].match_index
                },
    {
        self.leader_id = Some(self.server_id.clone());
        self.state = NodeState::LEADER;
        let last_index = self.logs.latest_log_index();
        let mut peers: Vec<Peer> = Vec::new();
        std::mem::swap(&mut peers, &mut self.peers);
        let ghost before = peers@;
        let n = peers.len();
        let mut i: usize = 0;
        while i < n
            invariant
                n == peers@.len(),
                n == before.len(),
                i <= n,
                last_index < u64::MAX,
                forall|j: int|
                    0 <= j < n ==> {
                        &&& (#[trigger] peers@[j])@.end_point == before[j]@.end_point
                        &&& peers@[j]@.vote_granted == before[j]@.vote_granted
                        &&& peers@[j]@.match_index == before[j]@.match_index
                        &&& (j < i ==> peers@[j]@.next_index == last_index + 1)
                    },
            decreases n - i,
        {
            peers[i].next_index = last_index + 1;
            i = i + 1;
        }
        self.peers = peers;
    }
}

impl<T: StateMachine> RaftNode<T> {
    /// The append request for peer `i`: it carries the entries after the
    /// peer's previous index, at most `MAX_LOG_ENTRIES_PER_REQUEST` of them and
    /// none past the node's last index, together with the term held at the
    /// previous index and the node's commit index.
    pub fn append_request_for(&self, i: usize) -> (r: AppendEntriesRequest)
        requires
            i < self@.peers.len(),
            self@.peers[i as int].next_index >= 1,
            MAX_LOG_ENTRIES_PER_REQUEST + self@.peers[i as int].next_index - 1 <= u64::MAX,
            self@.peers[i as int].next_index - 1 >= self@.log.offset,
        ensures
            ({
                let next = self@.peers[i as int].next_index;
                let prev = (next - 1) as u64;
                &&& r.term == self@.current_term
                &&& r.leader_id@ == self@.server_id
                &&& r.prev_log_index == prev
                &&& r.prev_log_term == self@.log.term_of(prev)
                &&& entry_views(r.entries@) == entry_views(
                    self@.log.held_between(prev, self@.last_index_for(next)),
                )
                &&& r.leader_commit == self@.commit_index
            }),
    {
        let next_index = self.peers[i].next_index;
        let prev_log_index = next_index - 1;
        let latest = self.logs.latest_log_index();
        let cap = MAX_LOG_ENTRIES_PER_REQUEST + prev_log_index;
        let last_index = if latest <= cap {
            latest
        } else {
            cap
        };
        let prev_log_term = self.logs.term(prev_log_index);
        let entries = crate::net::clone_entries(self.logs.between(prev_log_index, last_index));
        AppendEntriesRequest::new(
            self.current_term,
            self.server_id.as_str(),
            prev_log_index,
            prev_log_term,
            entries,
            self.commit_index,
        )
    }

    /// Records peer `i`'s answer to an append request. On success the peer's
    /// match index becomes the last index the request covered and its next
    /// index the one after; on failure its next index steps back by one.
    /// Returns whether the answer counts towards a majority.
    pub fn on_append_response(&mut self, i: usize, success: bool) -> (r: bool)
        requires
            i < old(self)@.peers.len(),
            old(self)@.peers[i as int].next_index >= 1,
            MAX_LOG_ENTRIES_PER_REQUEST + old(self)@.peers[i as int].next_index <= u64::MAX,
            success ==> old(self)@.last_index_for(old(self)@.peers[i as int].next_index)
                < u64::MAX,
        ensures
            r == success,
            final(self).machine() == old(self).machine(),
            final(self)@.state == old(self)@.state,
            final(self)@.server_id == old(self)@.server_id,
            final(self)@.leader_id == old(self)@.leader_id,
            final(self)@.current_term == old(self)@.current_term,
            final(self)@.voted_for == old(self)@.voted_for,
            final(self)@.commit_index == old(self)@.commit_index,
            final(self)@.log == old(self)@.log,
            final(self)@.peers.len() == old(self)@.peers.len(),
            forall|j: int|
                0 <= j < old(self)@.peers.len() && j != i ==> #[trigger] final(self)@.peers[j]
                    == old(self)@.peers[j],
            ({
                let old_peer = old(self)@.peers[i as int];
                let new_peer = final(self)@.peers[i as int];
                let last = old(self)@.last_index_for(old_peer.next_index);
                &&& new_peer.end_point == old_peer.end_point
                &&& new_peer.vote_granted == old_peer.vote_granted
                &&& success ==> new_peer.match_index == last && new_peer.next_index == last + 1
                &&& !success ==> new_peer.match_index == old_peer.match_index
                    && new_peer.next_index == old_peer.next_index - 1
            }),
    {
        let latest = self.logs.latest_log_index();
        let mut peers: Vec<Peer> = Vec::new();
        std::mem::swap(&mut peers, &mut self.peers);
        let ghost before = peers@;
        let cap = MAX_LOG_ENTRIES_PER_REQUEST + peers[i].next_index - 1;
        let last_index = if latest <= cap {
            latest
        } else {
            cap
        };
        if success {
            peers[i].match_index = last_index;
            peers[i].next_index = last_index + 1;
        } else {
            peers[i].next_index = peers[i].next_index - 1;
        }
        self.peers = peers;
        assert forall|j: int|
            0 <= j < before.len() && j != i implies #[trigger] peer_views(self.peers@)[j]
            == peer_views(before)[j] by {
            assert(self.peers@[j] == before[j]);
        }
        success
    }

    /// Compacts after a successful round of replication: the state machine is
    /// handed a snapshot at the commit index and the current term, and the log
    /// discards the entries up to the commit index.
    pub fn compact(&mut self)
        ensures
            final(self)@.same_roles(old(self)@),
            final(self)@.commit_index == old(self)@.commit_index,
            final(self).machine() == old(self).machine().after_snapshot(
                SnapshotView {
                    last_index: old(self)@.commit_index,
                    last_term: old(self)@.current_term,
                },
            ),
            final(self)@.log == old(self)@.log.truncated(old(self)@.commit_index),
            old(self).machine().last_index() <= old(self)@.commit_index ==> final(self).machine().last_index() <= old(self)@.commit_index,
            old(self)@.log.well_indexed() ==> final(self)@.log.well_indexed(),
            old(self)@.log.well_indexed() ==> forall|i: u64|
                i > old(self)@.commit_index && old(self)@.log.holds(i) ==> final(self)@.log.holds(i)
                    && #[trigger] final(self)@.log.entry_at(i) == old(self)@.log.entry_at(i),
    {
        proof {
            if self.logs@.well_indexed() && self.commit_index > self.logs@.offset {
                lemma_truncate_keeps_later(self.logs@, self.commit_index);
            }
        }
        let mut snapshot = self.state_machine.snapshot();
        snapshot.set_last_index(self.commit_index);
        snapshot.set_last_term(self.current_term);
        self.state_machine.take_a_snapshot(snapshot);
        self.logs.truncate(self.commit_index);
    }
}

} // verus!
