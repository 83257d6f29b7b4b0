//! The cleanup workflow: select the mailbox, search for the candidates, sort
//! and compress them into ranges, then either preview every range (dry run)
//! or mark every range as deleted and purge (commit).
//!
//! The workflow does no input or output of its own. It is a state machine:
//! `Cleanup::start` gives the first command, and `Cleanup::step` takes the
//! session's reply to the command that is out and gives the next command, or
//! the end of the run. Whoever holds the session carries the commands out.

use crate::date::CutoffDate;
use crate::identifiers::{
    ascending, lemma_ascending_exists, lemma_ascending_of_same_values, sort_unique,
};
use crate::ranges::{lemma_runs_total_size, ranges, runs, spans, total_size};
use crate::session::{
    CleanupError, CleanupOutcome, Command, CommandView, OutcomeView, Preview, Reply,
};
use std::ops::RangeInclusive;
use vstd::prelude::*;

verus! {

/// Which command of a cleanup is out.
#[derive(Clone, Copy, Debug, PartialEq, Eq)]
pub enum Stage {
    /// The selection of the mailbox.
    Selecting,
    /// The search for the candidates.
    Searching,
    /// The fetch of a range, in a dry run.
    Fetching,
    /// The marking of a range, in a commit.
    Marking,
    /// The purge, in a commit.
    Purging,
}

/// A cleanup under way, between a command and the reply to it.
#[derive(Debug)]
pub struct Cleanup {
    before: CutoffDate,
    dry_run: bool,
    stage: Stage,
    candidates: usize,
    pending: Vec<RangeInclusive<u32>>,
    previews: Vec<Preview>,
}

/// A cleanup under way, as a value of the model.
pub struct CleanupView {
    /// The cutoff date.
    pub before: CutoffDate,
    /// Whether this is a dry run.
    pub dry_run: bool,
    /// Which command is out.
    pub stage: Stage,
    /// How many candidates the search found; 0 before the search.
    pub candidates: nat,
    /// The ranges for which no command has gone out yet, in order.
    pub pending: Seq<(int, int)>,
    /// What the fetches have found so far.
    pub previews: Seq<Preview>,
}

/// What a step of a cleanup gives.
#[derive(Debug)]
pub enum Step {
    /// The cleanup goes on: its next state, and the command to carry out.
    Continue(Cleanup, Command),
    /// The cleanup is over: its report, or why it has none.
    Finished(Result<CleanupOutcome, CleanupError>),
}

/// What a step gives, as a value of the model.
pub enum StepView {
    Continue(CleanupView, CommandView),
    Finished(Result<OutcomeView, CleanupError>),
}

impl CleanupView {
    /// Whether the stage fits the mode: a dry run never marks or purges, and
    /// a commit never fetches.
    pub open spec fn consistent(self) -> bool {
        match self.stage {
            Stage::Selecting | Stage::Searching => true,
            Stage::Fetching => self.dry_run,
            Stage::Marking | Stage::Purging => !self.dry_run,
        }
    }
}

/// The state in which a cleanup starts, and its first command: the selection
/// of the mailbox.
pub open spec fn begin(mailbox: Seq<char>, before: CutoffDate, dry_run: bool) -> (
    CleanupView,
    CommandView,
) {
    (
        CleanupView {
            before,
            dry_run,
            stage: Stage::Selecting,
            candidates: 0,
            pending: Seq::empty(),
            previews: Seq::empty(),
        },
        CommandView::Select { mailbox },
    )
}

/// What follows a search that found `ids`. The candidates are the values of
/// `ids`, each once; they are compressed into ranges, and the first range
/// goes out, to be fetched in a dry run and marked in a commit. Without
/// candidates a dry run is over, and a commit goes on to the purge.
pub open spec fn after_search(state: CleanupView, ids: Seq<u32>) -> StepView {
    let found = ascending(ids);
    let all = runs(found);
    if all.len() == 0 {
        if state.dry_run {
            StepView::Finished(
                Ok(OutcomeView::DryRun { previews: state.previews, candidates: found.len() }),
            )
        } else {
            StepView::Continue(
                CleanupView {
                    stage: Stage::Purging,
                    candidates: found.len(),
                    pending: all,
                    ..state
                },
                CommandView::PurgeMarked,
            )
        }
    } else if state.dry_run {
        StepView::Continue(
            CleanupView {
                stage: Stage::Fetching,
                candidates: found.len(),
                pending: all.drop_first(),
                ..state
            },
            CommandView::FetchMetadata { range: all[0] },
        )
    } else {
        StepView::Continue(
            CleanupView {
                stage: Stage::Marking,
                candidates: found.len(),
                pending: all.drop_first(),
                ..state
            },
            CommandView::MarkForDeletion { range: all[0] },
        )
    }
}

/// What follows a fetch that found `fetched`: the previews grow by it, and
/// the next range goes out, or the dry run is over.
pub open spec fn after_fetch(state: CleanupView, fetched: Seq<Preview>) -> StepView {
    let previews = state.previews + fetched;
    if state.pending.len() == 0 {
        StepView::Finished(Ok(OutcomeView::DryRun { previews, candidates: state.candidates }))
    } else {
        StepView::Continue(
            CleanupView { previews, pending: state.pending.drop_first(), ..state },
            CommandView::FetchMetadata { range: state.pending[0] },
        )
    }
}

/// What follows a range that was marked: the next range goes out, or, after
/// the last, the purge.
pub open spec fn after_mark(state: CleanupView) -> StepView {
    if state.pending.len() == 0 {
        StepView::Continue(
            CleanupView { stage: Stage::Purging, ..state },
            CommandView::PurgeMarked,
        )
    } else {
        StepView::Continue(
            CleanupView { pending: state.pending.drop_first(), ..state },
            CommandView::MarkForDeletion { range: state.pending[0] },
        )
    }
}

/// The step that `state` takes on `reply`, the reply to the command that is
/// out. A reply that is not the success of that command ends the cleanup with
/// the error of the stage, and no further command goes out: after a failed
/// mark there is no purge, and a failed fetch leaves no previews.
pub open spec fn advance(state: CleanupView, reply: Reply) -> StepView {
    match state.stage {
        Stage::Selecting => match reply {
            Reply::Done => StepView::Continue(
                CleanupView { stage: Stage::Searching, ..state },
                CommandView::Search { before: state.before },
            ),
            _ => StepView::Finished(Err(CleanupError::Mailbox)),
        },
        Stage::Searching => match reply {
            Reply::Found(ids) => after_search(state, ids@),
            _ => StepView::Finished(Err(CleanupError::Query)),
        },
        Stage::Fetching => match reply {
            Reply::Fetched(fetched) => after_fetch(state, fetched@),
            _ => StepView::Finished(Err(CleanupError::Fetch)),
        },
        Stage::Marking => match reply {
            Reply::Done => after_mark(state),
            _ => StepView::Finished(Err(CleanupError::Delete)),
        },
        Stage::Purging => match reply {
            Reply::Done => StepView::Finished(Ok(OutcomeView::Commit { count: state.candidates })),
            _ => StepView::Finished(Err(CleanupError::Delete)),
        },
    }
}

/// How far a stage is from the end of a cleanup.
pub open spec fn rank(stage: Stage) -> nat {
    match stage {
        Stage::Selecting => 3,
        Stage::Searching => 2,
        Stage::Fetching | Stage::Marking => 1,
        Stage::Purging => 0,
    }
}

/// A step keeps the mode and the cutoff date, and leaves the stage fitting
/// the mode.
pub proof fn lemma_step_keeps_mode(state: CleanupView, reply: Reply)
    requires
        state.consistent(),
    ensures
        advance(state, reply) matches StepView::Continue(next, _) ==> next.consistent()
            && next.dry_run == state.dry_run && next.before == state.before,
{
}

/// A dry run changes nothing in the mailbox: none of its steps gives a
/// command that marks or purges, and it does not end with the report of a
/// commit.
pub proof fn lemma_dry_run_reads_only(state: CleanupView, reply: Reply)
    requires
        state.consistent(),
        state.dry_run,
    ensures
        match advance(state, reply) {
            StepView::Continue(next, command) => command.reads_only() && next.dry_run,
            StepView::Finished(Ok(outcome)) => outcome is DryRun,
            StepView::Finished(Err(_)) => true,
        },
{
}

/// A commit fetches nothing, and does not end with the report of a dry run.
pub proof fn lemma_commit_previews_nothing(state: CleanupView, reply: Reply)
    requires
        state.consistent(),
        !state.dry_run,
    ensures
        match advance(state, reply) {
            StepView::Continue(next, command) => !(command is FetchMetadata) && !next.dry_run,
            StepView::Finished(Ok(outcome)) => outcome is Commit,
            StepView::Finished(Err(_)) => true,
        },
{
}

/// The purge goes out only when the last range has been marked, or when the
/// search found nothing to mark.
pub proof fn lemma_purge_follows_marks(state: CleanupView, reply: Reply)
    requires
        advance(state, reply) matches StepView::Continue(_, command) && command is PurgeMarked,
    ensures
        state.stage == Stage::Marking || state.stage == Stage::Searching,
        state.stage == Stage::Marking ==> reply is Done && state.pending.len() == 0,
        state.stage == Stage::Searching ==> (reply matches Reply::Found(ids) && runs(
            ascending(ids@),
        ).len() == 0),
{
}

/// A search reply counts as a set: two replies that hold the same
/// identifiers, in whatever order and however often, are followed by the
/// same step. So a dry run that is repeated on an unchanged mailbox finds the
/// same candidates, the same ranges and the same count.
pub proof fn lemma_search_reads_a_set(state: CleanupView, a: Seq<u32>, b: Seq<u32>)
    requires
        forall|v: u32| a.contains(v) <==> b.contains(v),
    ensures
        after_search(state, a) == after_search(state, b),
{
    lemma_ascending_of_same_values(a, b);
}

/// The count that a cleanup reports is the number of different identifiers
/// that the search found, which is the number of identifiers that its ranges
/// hold, all together.
pub proof fn lemma_count_is_size_of_ranges(ids: Seq<u32>)
    ensures
        ascending(ids).len() == total_size(runs(ascending(ids))),
        ascending(ids).len() <= ids.len(),
{
    lemma_runs_total_size(ascending(ids));
    lemma_ascending_exists(ids);
}

/// Every step moves on: it leads to a later stage, or stays in the stage
/// with one range less to go. So a cleanup ends after the selection, the
/// search, one command for each range and, in a commit, the purge.
pub proof fn lemma_step_moves_on(state: CleanupView, reply: Reply)
    ensures
        advance(state, reply) matches StepView::Continue(next, _) ==> rank(next.stage) < rank(
            state.stage,
        ) || (rank(next.stage) == rank(state.stage) && next.pending.len() < state.pending.len()),
{
}

impl View for Cleanup {
    type V = CleanupView;

    closed spec fn view(&self) -> CleanupView {
        CleanupView {
            before: self.before,
            dry_run: self.dry_run,
            stage: self.stage,
            candidates: self.candidates as nat,
            pending: spans(self.pending@),
            previews: self.previews@,
        }
    }
}

impl View for Step {
    type V = StepView;

    open spec fn view(&self) -> StepView {
        match *self {
            Step::Continue(state, command) => StepView::Continue(state@, command@),
            Step::Finished(Ok(outcome)) => StepView::Finished(Ok(outcome@)),
            Step::Finished(Err(error)) => StepView::Finished(Err(error)),
        }
    }
}

impl Step {
    /// Whether the command of the step, if it has one, is whole.
    pub open spec fn is_whole(&self) -> bool {
        match *self {
            Step::Continue(_, command) => command.is_whole(),
            Step::Finished(_) => true,
        }
    }
}

impl Cleanup {
    #[verifier::type_invariant]
    spec fn well_formed(self) -> bool {
        &&& self@.consistent()
        &&& forall|k: int| 0 <= k < self.pending@.len() ==> !(#[trigger] self.pending@[k])@.exhausted
    }

    /// Starts a cleanup of the mailbox `mailbox`: of the messages dated
    /// before `before`, previewed if `dry_run` and deleted if not.
    pub fn start(mailbox: &str, before: CutoffDate, dry_run: bool) -> (out: (Cleanup, Command))
        ensures
            (out.0@, out.1@) == begin(mailbox@, before, dry_run),
            out.0@.consistent(),
    {
        let state = Cleanup {
            before,
            dry_run,
            stage: Stage::Selecting,
            candidates: 0,
            pending: Vec::new(),
            previews: Vec::new(),
        };
        assert(state@.pending =~= Seq::empty());
        (state, Command::Select { mailbox: mailbox.to_owned() })
    }

    /// Takes the reply to the command that is out and gives the next
    /// command, or the end of the cleanup.
    pub fn step(self, reply: Reply) -> (out: Step)
        ensures
            out@ == advance(self@, reply),
            self@.consistent(),
            out matches Step::Continue(next, _) ==> next@.consistent(),
            out.is_whole(),
    {
        proof {
            use_type_invariant(&self);
        }
        let ghost old_view = self@;
        let Cleanup { before, dry_run, stage, candidates, pending, previews } = self;
        let mut pending = pending;
        let mut previews = previews;
        match stage {
            Stage::Selecting => match reply {
                Reply::Done => Step::Continue(
                    Cleanup { before, dry_run, stage: Stage::Searching, candidates, pending, previews },
                    Command::Search { before },
                ),
                _ => Step::Finished(Err(CleanupError::Mailbox)),
            },
            Stage::Searching => match reply {
                Reply::Found(ids) => {
                    let found = sort_unique(ids);
                    let mut all = ranges(found.as_slice());
                    let count: usize = found.len();
                    if all.len() == 0 {
                        if dry_run {
                            Step::Finished(
                                Ok(CleanupOutcome::DryRun { previews, candidates: count }),
                            )
                        } else {
                            let next = Cleanup {
                                before,
                                dry_run,
                                stage: Stage::Purging,
                                candidates: count,
                                pending: all,
                                previews,
                            };
                            Step::Continue(next, Command::PurgeMarked)
                        }
                    } else {
                        let ghost whole = all@;
                        let range = all.remove(0);
                        assert(spans(all@) =~= spans(whole).drop_first());
                        if dry_run {
                            let next = Cleanup {
                                before,
                                dry_run,
                                stage: Stage::Fetching,
                                candidates: count,
                                pending: all,
                                previews,
                            };
                            Step::Continue(next, Command::FetchMetadata { range })
                        } else {
                            let next = Cleanup {
                                before,
                                dry_run,
                                stage: Stage::Marking,
                                candidates: count,
                                pending: all,
                                previews,
                            };
                            Step::Continue(next, Command::MarkForDeletion { range })
                        }
                    }
                },
                _ => Step::Finished(Err(CleanupError::Query)),
            },
            Stage::Fetching => match reply {
                Reply::Fetched(fetched) => {
                    let mut fetched = fetched;
                    previews.append(&mut fetched);
                    if pending.len() == 0 {
                        Step::Finished(Ok(CleanupOutcome::DryRun { previews, candidates }))
                    } else {
                        let ghost whole = pending@;
                        let range = pending.remove(0);
                        assert(spans(pending@) =~= spans(whole).drop_first());
                        let next = Cleanup { before, dry_run, stage, candidates, pending, previews };
                        Step::Continue(next, Command::FetchMetadata { range })
                    }
                },
                _ => Step::Finished(Err(CleanupError::Fetch)),
            },
            Stage::Marking => match reply {
                Reply::Done => {
                    if pending.len() == 0 {
                        let next = Cleanup {
                            before,
                            dry_run,
                            stage: Stage::Purging,
                            candidates,
                            pending,
                            previews,
                        };
                        Step::Continue(next, Command::PurgeMarked)
                    } else {
                        let ghost whole = pending@;
                        let range = pending.remove(0);
                        assert(spans(pending@) =~= spans(whole).drop_first());
                        let next = Cleanup { before, dry_run, stage, candidates, pending, previews };
                        Step::Continue(next, Command::MarkForDeletion { range })
                    }
                },
                _ => Step::Finished(Err(CleanupError::Delete)),
            },
            Stage::Purging => match reply {
                Reply::Done => Step::Finished(Ok(CleanupOutcome::Commit { count: candidates })),
                _ => Step::Finished(Err(CleanupError::Delete)),
            },
        }
    }
}

} // verus!
