//! Age-based bulk deletion of messages in an IMAP mailbox.
//!
//! A cleanup selects a mailbox, searches for the messages that are dated
//! before a cutoff date and not flagged, compresses their identifiers into the
//! fewest ranges, and then either previews every range (a dry run) or marks
//! every range as deleted and purges (a commit).
//!
//! - [`ranges`] holds the range compressor and what is proved of it.
//! - [`identifiers`] sorts what a search found and drops repetitions.
//! - [`date`] holds the cutoff date.
//! - [`wire`] writes the text of the commands.
//! - [`session`] holds the commands, the replies and the reports.
//! - [`workflow`] is the cleanup itself, as a state machine that hands out
//!   commands and takes replies; it does no input or output.
//! - [`history`] states what holds of whole cleanups.

pub mod date;
pub mod history;
pub mod identifiers;
pub mod ranges;
pub mod session;
pub mod wire;
pub mod workflow;
