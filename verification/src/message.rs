//! The RPCs exchanged between nodes, and the envelope that addresses them.
use vstd::prelude::*;

use crate::log::{entries_view, EntryView, LogEntry};
use crate::types::{LogIndex, NodeId, Term};

verus! {

/// Sent by a candidate to request votes during an election.
#[derive(Debug, Clone, Copy, PartialEq, Eq)]
pub struct RequestVote {
    pub term: Term,
    pub candidate_id: NodeId,
    pub last_log_index: LogIndex,
    pub last_log_term: Term,
}

#[derive(Debug, Clone, Copy, PartialEq, Eq)]
pub struct RequestVoteReply {
    pub term: Term,
    pub vote_granted: bool,
}

/// Sent by the leader to replicate entries and as a heartbeat when empty.
#[derive(Debug, Clone, PartialEq, Eq)]
pub struct AppendEntries {
    pub term: Term,
    pub leader_id: NodeId,
    pub prev_log_index: LogIndex,
    pub prev_log_term: Term,
    pub entries: Vec<LogEntry>,
    pub leader_commit: LogIndex,
}

/// The mathematical value of an `AppendEntries` request.
pub struct AppendEntriesView {
    pub term: u64,
    pub leader_id: u64,
    pub prev_log_index: u64,
    pub prev_log_term: u64,
    pub entries: Seq<EntryView>,
    pub leader_commit: u64,
}

impl View for AppendEntries {
    type V = AppendEntriesView;

    open spec fn view(&self) -> AppendEntriesView {
        AppendEntriesView {
            term: self.term,
            leader_id: self.leader_id,
            prev_log_index: self.prev_log_index,
            prev_log_term: self.prev_log_term,
            entries: entries_view(self.entries@),
            leader_commit: self.leader_commit,
        }
    }
}

#[derive(Debug, Clone, Copy, PartialEq, Eq)]
pub struct AppendEntriesReply {
    pub term: Term,
    pub success: bool,
    /// Hint for the leader to skip failed probing faster on conflict.
    pub conflict_index: Option<LogIndex>,
    /// The log index the follower actually holds as of this reply
    /// (prev_log_index + entries applied). The leader must use this,
    /// never its own current log length, to update match_index --
    /// otherwise a stale/delayed reply can be misread as confirming
    /// entries the follower never received.
    pub match_index: LogIndex,
}

/// Envelope wrapping every message with its sender, so the core
/// never needs to know about sockets, threads, or transports.
#[derive(Debug, Clone, PartialEq, Eq)]
pub enum Message {
    RequestVote(RequestVote),
    RequestVoteReply(RequestVoteReply),
    AppendEntries(AppendEntries),
    AppendEntriesReply(AppendEntriesReply),
}

/// The mathematical value of a message.
pub enum MessageView {
    RequestVote(RequestVote),
    RequestVoteReply(RequestVoteReply),
    AppendEntries(AppendEntriesView),
    AppendEntriesReply(AppendEntriesReply),
}

impl MessageView {
    /// The term a message carries.
    pub open spec fn term(self) -> u64 {
        match self {
            MessageView::RequestVote(m) => m.term,
            MessageView::RequestVoteReply(m) => m.term,
            MessageView::AppendEntries(m) => m.term,
            MessageView::AppendEntriesReply(m) => m.term,
        }
    }
}

impl View for Message {
    type V = MessageView;

    open spec fn view(&self) -> MessageView {
        match self {
            Message::RequestVote(m) => MessageView::RequestVote(*m),
            Message::RequestVoteReply(m) => MessageView::RequestVoteReply(*m),
            Message::AppendEntries(m) => MessageView::AppendEntries(m@),
            Message::AppendEntriesReply(m) => MessageView::AppendEntriesReply(*m),
        }
    }
}

/// An outbound message the core wants delivered to a specific peer.
#[derive(Debug, Clone, PartialEq, Eq)]
pub struct Envelope {
    pub from: NodeId,
    pub to: NodeId,
    pub message: Message,
}

/// The mathematical value of an envelope.
pub struct EnvelopeView {
    pub from: u64,
    pub to: u64,
    pub message: MessageView,
}

impl View for Envelope {
    type V = EnvelopeView;

    open spec fn view(&self) -> EnvelopeView {
        EnvelopeView { from: self.from, to: self.to, message: self.message@ }
    }
}

/// The views of a sequence of envelopes.
pub open spec fn envelopes_view(envelopes: Seq<Envelope>) -> Seq<EnvelopeView> {
    envelopes.map_values(|e: Envelope| e@)
}

} // verus!
