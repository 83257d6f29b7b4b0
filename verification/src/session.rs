//! What passes between the cleanup and the mailbox session that serves it:
//! the commands that the cleanup asks for and the replies it gets.

use crate::date::CutoffDate;
use crate::ranges::span;
use std::ops::RangeInclusive;
use vstd::prelude::*;

verus! {

/// A point in time, as a message's internal date gives it.
#[derive(Clone, Copy, Debug, PartialEq, Eq)]
pub struct Timestamp {
    /// Seconds since 1970-01-01 00:00:00 UTC.
    pub seconds: i64,
    /// The offset of the local time from UTC, in seconds east of it.
    pub offset: i32,
}

/// A flag on a message.
#[derive(Debug, PartialEq, Eq)]
pub enum Flag {
    Seen,
    Answered,
    /// The retention marker: a search leaves out the messages that carry it.
    Flagged,
    Deleted,
    Draft,
    Recent,
    MayCreate,
    /// A flag that the server or a client defined, by its name.
    Custom(String),
}

/// What a dry run shows of one message.
#[derive(Debug, PartialEq, Eq)]
pub struct Preview {
    /// The message's identifier.
    pub id: u32,
    /// The message's internal date.
    pub timestamp: Timestamp,
    /// The flags on the message.
    pub flags: Vec<Flag>,
}

/// What the cleanup asks of the session.
#[derive(Debug, PartialEq, Eq)]
pub enum Command {
    /// Select the mailbox of this name.
    Select { mailbox: String },
    /// Find the messages dated before `before` that carry no retention marker.
    Search { before: CutoffDate },
    /// Fetch the internal date and the flags of the messages of `range`.
    FetchMetadata { range: RangeInclusive<u32> },
    /// Mark the messages of `range` as deleted.
    MarkForDeletion { range: RangeInclusive<u32> },
    /// Remove for good every message of the mailbox that is marked as deleted.
    PurgeMarked,
}

/// A command, with its text as a sequence and its range as a pair of ends.
pub enum CommandView {
    Select { mailbox: Seq<char> },
    Search { before: CutoffDate },
    FetchMetadata { range: (int, int) },
    MarkForDeletion { range: (int, int) },
    PurgeMarked,
}

impl View for Command {
    type V = CommandView;

    open spec fn view(&self) -> CommandView {
        match *self {
            Command::Select { mailbox } => CommandView::Select { mailbox: mailbox@ },
            Command::Search { before } => CommandView::Search { before },
            Command::FetchMetadata { range } => CommandView::FetchMetadata { range: span(range) },
            Command::MarkForDeletion { range } => CommandView::MarkForDeletion {
                range: span(range),
            },
            Command::PurgeMarked => CommandView::PurgeMarked,
        }
    }
}

impl Command {
    /// Whether the range of the command, if it has one, has not been walked
    /// to its end, so that it still holds every identifier between its ends.
    pub open spec fn is_whole(&self) -> bool {
        match *self {
            Command::FetchMetadata { range } => !range@.exhausted,
            Command::MarkForDeletion { range } => !range@.exhausted,
            _ => true,
        }
    }
}

impl CommandView {
    /// Whether the command changes nothing in the mailbox.
    pub open spec fn reads_only(self) -> bool {
        self is Select || self is Search || self is FetchMetadata
    }
}

/// What the session answers to a command.
#[derive(Debug, PartialEq, Eq)]
pub enum Reply {
    /// The command was carried out; it has nothing to report.
    Done,
    /// The identifiers that a search found, in any order.
    Found(Vec<u32>),
    /// What a fetch found of each message of the range.
    Fetched(Vec<Preview>),
    /// The command failed.
    Failed,
}

/// Why a cleanup ended without result.
#[derive(Clone, Copy, Debug, PartialEq, Eq)]
pub enum CleanupError {
    /// The mailbox could not be selected.
    Mailbox,
    /// The search failed.
    Query,
    /// A fetch failed.
    Fetch,
    /// Marking a range, or the purge, failed.
    Delete,
}

/// What a cleanup that ran to its end reports.
#[derive(Debug, PartialEq, Eq)]
pub enum CleanupOutcome {
    /// A dry run: what it found of each candidate, and how many there are.
    DryRun { previews: Vec<Preview>, candidates: usize },
    /// A commit: how many messages it marked and purged.
    Commit { count: usize },
}

/// A report, with its previews as a sequence.
pub enum OutcomeView {
    DryRun { previews: Seq<Preview>, candidates: nat },
    Commit { count: nat },
}

impl View for CleanupOutcome {
    type V = OutcomeView;

    open spec fn view(&self) -> OutcomeView {
        match *self {
            CleanupOutcome::DryRun { previews, candidates } => OutcomeView::DryRun {
                previews: previews@,
                candidates: candidates as nat,
            },
            CleanupOutcome::Commit { count } => OutcomeView::Commit { count: count as nat },
        }
    }
}

} // verus!
