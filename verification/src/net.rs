use vstd::prelude::*;
use crate::common::{Command, V};
use crate::log::LogEntry;

verus! {

broadcast use vstd::string::group_string_axioms;

/// Everything that travels between nodes and clients.
#[derive(PartialEq, Debug)]
pub enum Letter {
    VoteRequest(VoteRequest),
    AppendEntriesRequest(AppendEntriesRequest),
    Command(Command),
    VoteResponse(VoteResponse),
    AppendEntriesResponse(AppendEntriesResponse),
    Reply(Reply),
}

/// The answer to a client command.
#[derive(PartialEq, Debug)]
pub enum Reply {
    Success(Option<V>),
    Fail(Reason),
}

/// Why a client command failed.
#[derive(PartialEq, Debug)]
pub enum Reason {
    Redirect(String),
    InvalidArgument,
    Timeout,
    Unavailable,
}

impl Reply {
    pub fn as_letter(self) -> (r: Letter)
        ensures
            r == Letter::Reply(self),
    {
        Letter::Reply(self)
    }
}

/// A candidate's request for a vote.
#[derive(PartialEq, Debug)]
pub struct VoteRequest {
    pub term: u64,
    pub candidate_id: String,
    pub last_log_index: u64,
    pub last_log_term: u64,
}

impl Clone for VoteRequest {
    fn clone(&self) -> (r: Self)
        ensures
            r == *self,
    {
        VoteRequest {
            term: self.term,
            candidate_id: self.candidate_id.clone(),
            last_log_index: self.last_log_index,
            last_log_term: self.last_log_term,
        }
    }
}

impl VoteRequest {
    pub fn new(term: u64, candidate_id: &str, last_log_index: u64, last_log_term: u64) -> (r: Self)
        ensures
            r.term == term,
            r.candidate_id@ == candidate_id@,
            r.last_log_index == last_log_index,
            r.last_log_term == last_log_term,
    {
        VoteRequest {
            term,
            candidate_id: candidate_id.to_string(),
            last_log_index,
            last_log_term,
        }
    }
}

/// A node's answer to a vote request.
#[derive(PartialEq, Debug)]
pub struct VoteResponse {
    pub term: u64,
    pub vote_granted: bool,
}

impl VoteResponse {
    pub fn new(term: u64, vote_granted: bool) -> (r: Self)
        ensures
            r.term == term,
            r.vote_granted == vote_granted,
    {
        VoteResponse { term, vote_granted }
    }

    pub fn as_letter(self) -> (r: Letter)
        ensures
            r == Letter::VoteResponse(self),
    {
        Letter::VoteResponse(self)
    }
}

/// A leader's request to append entries (a heartbeat when there are none).
#[derive(PartialEq, Debug)]
pub struct AppendEntriesRequest {
    pub term: u64,
    pub leader_id: String,
    pub prev_log_index: u64,
    pub prev_log_term: u64,
    pub entries: Vec<LogEntry>,
    pub leader_commit: u64,
}

/// The entries of `s`, each taken by its view.
pub open spec fn entry_views(s: Seq<LogEntry>) -> Seq<crate::log::LogEntryView> {
    s.map_values(|e: LogEntry| e@)
}

/// Copies the entries one by one.
pub(crate) fn clone_entries(s: &[LogEntry]) -> (r: Vec<LogEntry>)
    ensures
        entry_views(r@) == entry_views(s@),
{
    let mut r: Vec<LogEntry> = Vec::new();
    let n = s.len();
    let mut i: usize = 0;
    while i < n
        invariant
            n == s@.len(),
            i <= n,
            r@.len() == i,
            forall|j: int| 0 <= j < i ==> (#[trigger] r@[j])@ == s@[j]@,
        decreases n - i,
    {
        r.push(s[i].clone());
        i = i + 1;
    }
    assert(entry_views(r@) =~= entry_views(s@));
    r
}

impl Clone for AppendEntriesRequest {
    fn clone(&self) -> (r: Self)
        ensures
            r.term == self.term,
            r.leader_id == self.leader_id,
            r.prev_log_index == self.prev_log_index,
            r.prev_log_term == self.prev_log_term,
            entry_views(r.entries@) == entry_views(self.entries@),
            r.leader_commit == self.leader_commit,
    {
        AppendEntriesRequest {
            term: self.term,
            leader_id: self.leader_id.clone(),
            prev_log_index: self.prev_log_index,
            prev_log_term: self.prev_log_term,
            entries: clone_entries(self.entries.as_slice()),
            leader_commit: self.leader_commit,
        }
    }
}

impl AppendEntriesRequest {
    pub fn new(
        term: u64,
        leader_id: &str,
        prev_log_index: u64,
        prev_log_term: u64,
        entries: Vec<LogEntry>,
        leader_commit: u64,
    ) -> (r: Self)
        ensures
            r.term == term,
            r.leader_id@ == leader_id@,
            r.prev_log_index == prev_log_index,
            r.prev_log_term == prev_log_term,
            r.entries == entries,
            r.leader_commit == leader_commit,
    {
        AppendEntriesRequest {
            term,
            leader_id: leader_id.to_string(),
            prev_log_index,
            prev_log_term,
            entries,
            leader_commit,
        }
    }
}

/// A node's answer to an append request.
#[derive(PartialEq, Debug)]
pub struct AppendEntriesResponse {
    term: u64,
    pub success: bool,
}

/// What an `AppendEntriesResponse` carries.
pub struct AppendEntriesResponseView {
    pub term: u64,
    pub success: bool,
}

impl View for AppendEntriesResponse {
    type V = AppendEntriesResponseView;

    closed spec fn view(&self) -> AppendEntriesResponseView {
        AppendEntriesResponseView { term: self.term, success: self.success }
    }
}

impl AppendEntriesResponse {
    pub fn new(term: u64, success: bool) -> (r: Self)
        ensures
            r@.term == term,
            r@.success == success,
    {
        AppendEntriesResponse { term, success }
    }

    pub fn as_letter(self) -> (r: Letter)
        ensures
            r == Letter::AppendEntriesResponse(self),
    {
        Letter::AppendEntriesResponse(self)
    }

    /// The term the answering node was in.
    pub fn term(&self) -> (r: u64)
        ensures
            r == self@.term,
    {
        self.term
    }
}

impl Letter {
    /// The vote response this letter carries; `None` for any other letter.
    pub fn into_vote_response(self) -> (r: Option<VoteResponse>)
        ensures
            self matches Letter::VoteResponse(resp) ==> r == Some(resp),
            !(self is VoteResponse) ==> r is None,
    {
        match self {
            Letter::VoteResponse(resp) => Some(resp),
            _ => None,
        }
    }

    /// The append response this letter carries; `None` for any other letter.
    pub fn into_append_entries_response(self) -> (r: Option<AppendEntriesResponse>)
        ensures
            self matches Letter::AppendEntriesResponse(resp) ==> r == Some(resp),
            !(self is AppendEntriesResponse) ==> r is None,
    {
        match self {
            Letter::AppendEntriesResponse(resp) => Some(resp),
            _ => None,
        }
    }
}

} // verus!
