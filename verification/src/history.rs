//! Whole cleanups: what goes out and how a cleanup ends, as a function of the
//! replies that the session gives, and what holds of every such history.

use crate::date::CutoffDate;
use crate::identifiers::{ascending, lemma_ascending_of_same_values};
use crate::ranges::runs;
use crate::session::{CleanupError, CommandView, OutcomeView, Preview, Reply};
use crate::workflow::{
    advance, begin, lemma_step_moves_on, rank, CleanupView, Stage, StepView,
};
use vstd::prelude::*;

verus! {

/// The commands that go out after the one that is out in `state`, while the
/// session answers with `replies`: the first reply answers the command that
/// is out, each later one the command that the reply before it brought.
pub open spec fn commands_after(state: CleanupView, replies: Seq<Reply>) -> Seq<CommandView>
    decreases replies.len(),
{
    if replies.len() == 0 {
        Seq::empty()
    } else {
        match advance(state, replies[0]) {
            StepView::Continue(next, command) => seq![command] + commands_after(
                next,
                replies.drop_first(),
            ),
            StepView::Finished(_) => Seq::empty(),
        }
    }
}

/// How the cleanup that is in `state` ends while the session answers with
/// `replies`, or `None` if it has not ended when the replies are used up.
pub open spec fn result_after(state: CleanupView, replies: Seq<Reply>) -> Option<
    Result<OutcomeView, CleanupError>,
>
    decreases replies.len(),
{
    if replies.len() == 0 {
        None
    } else {
        match advance(state, replies[0]) {
            StepView::Continue(next, _) => result_after(next, replies.drop_first()),
            StepView::Finished(result) => Some(result),
        }
    }
}

/// Whether two replies say the same: both report success, both report
/// failure, both found the same identifiers, in whatever order and however
/// often, or both fetched the same.
pub open spec fn same_answer(a: Reply, b: Reply) -> bool {
    match (a, b) {
        (Reply::Done, Reply::Done) => true,
        (Reply::Failed, Reply::Failed) => true,
        (Reply::Found(x), Reply::Found(y)) => forall|v: u32| x@.contains(v) <==> y@.contains(v),
        (Reply::Fetched(x), Reply::Fetched(y)) => x@ == y@,
        _ => false,
    }
}

/// The identifiers that a reply reports as found; none, if it is no answer to
/// a search.
pub open spec fn found_in(reply: Reply) -> Seq<u32> {
    match reply {
        Reply::Found(ids) => ids@,
        _ => Seq::empty(),
    }
}

/// What a reply reports as fetched; nothing, if it is no answer to a fetch.
pub open spec fn fetched_in(reply: Reply) -> Seq<Preview> {
    match reply {
        Reply::Fetched(previews) => previews@,
        _ => Seq::empty(),
    }
}

/// What the replies report as fetched, all together and in their order.
pub open spec fn gathered(replies: Seq<Reply>) -> Seq<Preview>
    decreases replies.len(),
{
    if replies.len() == 0 {
        Seq::empty()
    } else {
        fetched_in(replies[0]) + gathered(replies.drop_first())
    }
}

/// The commands that mark each of `pairs`, in order.
pub open spec fn marks(pairs: Seq<(int, int)>) -> Seq<CommandView> {
    pairs.map_values(|pair: (int, int)| CommandView::MarkForDeletion { range: pair })
}

/// The commands that fetch each of `pairs`, in order.
pub open spec fn fetches(pairs: Seq<(int, int)>) -> Seq<CommandView> {
    pairs.map_values(|pair: (int, int)| CommandView::FetchMetadata { range: pair })
}

/// A dry run changes nothing in the mailbox, whatever the session answers:
/// no command of it marks or purges, and if it ends with a report, then with
/// that of a dry run.
pub proof fn lemma_dry_run_never_writes(state: CleanupView, replies: Seq<Reply>)
    requires
        state.consistent(),
        state.dry_run,
    ensures
        forall|i: int|
            0 <= i < commands_after(state, replies).len() ==> (#[trigger] commands_after(
                state,
                replies,
            )[i]).reads_only(),
        result_after(state, replies) matches Some(Ok(outcome)) ==> outcome is DryRun,
    decreases replies.len(),
{
    if replies.len() > 0 {
        match advance(state, replies[0]) {
            StepView::Continue(next, command) => {
                let later = commands_after(next, replies.drop_first());
                lemma_dry_run_never_writes(next, replies.drop_first());
                assert forall|i: int|
                    0 <= i < commands_after(state, replies).len() implies (#[trigger] commands_after(
                    state,
                    replies,
                )[i]).reads_only() by {
                    if i > 0 {
                        assert(commands_after(state, replies)[i] == later[i - 1]);
                    }
                }
            },
            StepView::Finished(_) => {},
        }
    }
}

/// A dry run can be repeated: while the session answers the same, the same
/// commands go out and the cleanup ends the same, with the same candidates
/// and the same count. The order in which a search lists what it found does
/// not matter.
pub proof fn lemma_same_answers_same_history(state: CleanupView, a: Seq<Reply>, b: Seq<Reply>)
    requires
        a.len() == b.len(),
        forall|i: int| 0 <= i < a.len() ==> same_answer(#[trigger] a[i], b[i]),
    ensures
        commands_after(state, a) == commands_after(state, b),
        result_after(state, a) == result_after(state, b),
    decreases a.len(),
{
    if a.len() > 0 {
        assert(same_answer(a[0], b[0]));
        assert(advance(state, a[0]) == advance(state, b[0])) by {
            if state.stage == Stage::Searching && a[0] is Found {
                lemma_ascending_of_same_values(found_in(a[0]), found_in(b[0]));
            }
        }
        match advance(state, a[0]) {
            StepView::Continue(next, _) => {
                assert forall|i: int| 0 <= i < a.drop_first().len() implies same_answer(
                    #[trigger] a.drop_first()[i],
                    b.drop_first()[i],
                ) by {
                    assert(same_answer(a[i + 1], b[i + 1]));
                }
                lemma_same_answers_same_history(next, a.drop_first(), b.drop_first());
            },
            StepView::Finished(_) => {},
        }
    }
}

/// A failure ends the cleanup: if reply `i` reports a failure, the cleanup
/// has ended by then, the command that the reply answers was the last to go
/// out, and the cleanup ended with an error. So a range that could not be
/// marked is not followed by the purge, nor by the marking of another range.
pub proof fn lemma_failure_is_final(state: CleanupView, replies: Seq<Reply>, i: int)
    requires
        0 <= i < replies.len(),
        replies[i] is Failed,
    ensures
        commands_after(state, replies).len() <= i,
        result_after(state, replies) is Some,
        commands_after(state, replies).len() == i ==> result_after(state, replies) matches Some(
            Err(_),
        ),
    decreases i,
{
    match advance(state, replies[0]) {
        StepView::Continue(next, _) => {
            if i > 0 {
                assert(replies.drop_first()[i - 1] == replies[i]);
                lemma_failure_is_final(next, replies.drop_first(), i - 1);
            }
        },
        StepView::Finished(_) => {},
    }
}

/// Once the search is over, a cleanup ends: whatever the session answers, it
/// takes no more replies than one for each range that is left and two more.
pub proof fn lemma_cleanup_ends(state: CleanupView, replies: Seq<Reply>)
    requires
        state.stage != Stage::Selecting,
        state.stage != Stage::Searching,
        replies.len() >= state.pending.len() + 2,
    ensures
        result_after(state, replies) is Some,
        commands_after(state, replies).len() <= state.pending.len() + 1,
    decreases state.pending.len(), rank(state.stage),
{
    match advance(state, replies[0]) {
        StepView::Continue(next, _) => {
            let rest = replies.drop_first();
            lemma_step_moves_on(state, replies[0]);
            assert(result_after(state, replies) == result_after(next, rest));
            assert(commands_after(state, replies).len() == 1 + commands_after(next, rest).len());
            if next.stage == Stage::Purging {
                assert(advance(next, rest[0]) is Finished);
                assert(result_after(next, rest) is Some);
                assert(commands_after(next, rest) =~= Seq::empty());
            } else {
                lemma_cleanup_ends(next, rest);
            }
        },
        StepView::Finished(_) => {},
    }
}

/// From the marking of a range on, a commit in which every command succeeds
/// marks each range that is left, once and in order, purges once, and reports
/// the count of the candidates.
pub proof fn lemma_marks_then_purge(state: CleanupView, replies: Seq<Reply>)
    requires
        state.stage == Stage::Marking,
        replies.len() == state.pending.len() + 2,
        forall|i: int| 0 <= i < replies.len() ==> #[trigger] replies[i] is Done,
    ensures
        commands_after(state, replies) == marks(state.pending) + seq![CommandView::PurgeMarked],
        result_after(state, replies) == Some(
            Ok::<OutcomeView, CleanupError>(OutcomeView::Commit { count: state.candidates }),
        ),
    decreases state.pending.len(),
{
    let rest = replies.drop_first();
    assert(replies[0] is Done);
    match advance(state, replies[0]) {
        StepView::Continue(next, command) => {
            assert(result_after(state, replies) == result_after(next, rest));
            if state.pending.len() == 0 {
                assert(rest[0] is Done);
                assert(advance(next, rest[0]) == StepView::Finished(
                    Ok(OutcomeView::Commit { count: state.candidates }),
                ));
                assert(result_after(next, rest) == Some(
                    Ok::<OutcomeView, CleanupError>(
                        OutcomeView::Commit { count: state.candidates },
                    ),
                ));
                assert(commands_after(next, rest) =~= Seq::empty());
                assert(commands_after(state, replies) =~= marks(state.pending)
                    + seq![CommandView::PurgeMarked]);
            } else {
                assert forall|i: int| 0 <= i < rest.len() implies #[trigger] rest[i] is Done by {
                    assert(replies[i + 1] is Done);
                }
                lemma_marks_then_purge(next, rest);
                assert(commands_after(state, replies) == seq![command] + commands_after(
                    next,
                    rest,
                ));
                assert(commands_after(state, replies) =~= marks(state.pending)
                    + seq![CommandView::PurgeMarked]);
            }
        },
        StepView::Finished(_) => {},
    }
}

/// A commit in which every command succeeds selects, searches, marks each
/// range of the candidates once and in order, then purges once, and reports
/// how many candidates there were.
pub proof fn lemma_commit_history(mailbox: Seq<char>, before: CutoffDate, replies: Seq<Reply>)
    requires
        replies.len() >= 3,
        replies.len() == runs(ascending(found_in(replies[1]))).len() + 3,
        replies[1] is Found,
        forall|i: int| 0 <= i < replies.len() && i != 1 ==> #[trigger] replies[i] is Done,
    ensures
        commands_after(begin(mailbox, before, false).0, replies) == seq![
            CommandView::Search { before },
        ] + marks(runs(ascending(found_in(replies[1])))) + seq![CommandView::PurgeMarked],
        result_after(begin(mailbox, before, false).0, replies) == Some(
            Ok::<OutcomeView, CleanupError>(
                OutcomeView::Commit { count: ascending(found_in(replies[1])).len() },
            ),
        ),
{
    let state = begin(mailbox, before, false).0;
    let all = runs(ascending(found_in(replies[1])));
    let after_select = replies.drop_first();
    let after_search = after_select.drop_first();
    assert(replies[0] is Done);
    assert(after_select[0] == replies[1]);
    assert forall|i: int| 0 <= i < after_search.len() implies #[trigger] after_search[i] is Done by {
        assert(replies[i + 2] is Done);
    }
    match advance(state, replies[0]) {
        StepView::Continue(searching, _) => {
            assert(commands_after(state, replies) == seq![CommandView::Search { before }]
                + commands_after(searching, after_select));
            assert(result_after(state, replies) == result_after(searching, after_select));
            match advance(searching, after_select[0]) {
                StepView::Continue(next, command) => {
                    assert(commands_after(searching, after_select) == seq![command]
                        + commands_after(next, after_search));
                    assert(result_after(searching, after_select) == result_after(
                        next,
                        after_search,
                    ));
                    if all.len() == 0 {
                        assert(after_search[0] is Done);
                        assert(commands_after(next, after_search) =~= Seq::empty());
                        assert(marks(all) =~= Seq::empty());
                    } else {
                        lemma_marks_then_purge(next, after_search);
                        assert(seq![command] + marks(next.pending) =~= marks(all));
                    }
                    assert(commands_after(state, replies) =~= seq![CommandView::Search { before }]
                        + marks(all) + seq![CommandView::PurgeMarked]);
                },
                StepView::Finished(_) => {},
            }
        },
        StepView::Finished(_) => {},
    }
}

/// From the fetch of a range on, a dry run in which every command succeeds
/// fetches each range that is left, once and in order, and reports what the
/// fetches found, in their order, with the count of the candidates.
pub proof fn lemma_fetches_then_report(state: CleanupView, replies: Seq<Reply>)
    requires
        state.stage == Stage::Fetching,
        replies.len() == state.pending.len() + 1,
        forall|i: int| 0 <= i < replies.len() ==> #[trigger] replies[i] is Fetched,
    ensures
        commands_after(state, replies) == fetches(state.pending),
        result_after(state, replies) == Some(
            Ok::<OutcomeView, CleanupError>(
                OutcomeView::DryRun {
                    previews: state.previews + gathered(replies),
                    candidates: state.candidates,
                },
            ),
        ),
    decreases state.pending.len(),
{
    let rest = replies.drop_first();
    assert(replies[0] is Fetched);
    match advance(state, replies[0]) {
        StepView::Continue(next, command) => {
            assert forall|i: int| 0 <= i < rest.len() implies #[trigger] rest[i] is Fetched by {
                assert(replies[i + 1] is Fetched);
            }
            lemma_fetches_then_report(next, rest);
            assert(result_after(state, replies) == result_after(next, rest));
            assert(commands_after(state, replies) == seq![command] + commands_after(next, rest));
            assert(commands_after(state, replies) =~= fetches(state.pending));
            assert(next.previews + gathered(rest) =~= state.previews + gathered(replies));
        },
        StepView::Finished(result) => {
            assert(result_after(state, replies) == Some(result));
            assert(gathered(rest) =~= Seq::empty());
            assert(state.previews + fetched_in(replies[0]) =~= state.previews + gathered(replies));
            assert(commands_after(state, replies) =~= fetches(state.pending));
        },
    }
}

/// A dry run in which every command succeeds selects, searches and fetches
/// each range of the candidates once and in order, and reports what the
/// fetches found and how many candidates there were.
pub proof fn lemma_dry_run_history(mailbox: Seq<char>, before: CutoffDate, replies: Seq<Reply>)
    requires
        replies.len() >= 2,
        replies.len() == runs(ascending(found_in(replies[1]))).len() + 2,
        replies[0] is Done,
        replies[1] is Found,
        forall|i: int| 2 <= i < replies.len() ==> #[trigger] replies[i] is Fetched,
    ensures
        commands_after(begin(mailbox, before, true).0, replies) == seq![
            CommandView::Search { before },
        ] + fetches(runs(ascending(found_in(replies[1])))),
        result_after(begin(mailbox, before, true).0, replies) == Some(
            Ok::<OutcomeView, CleanupError>(
                OutcomeView::DryRun {
                    previews: gathered(replies),
                    candidates: ascending(found_in(replies[1])).len(),
                },
            ),
        ),
{
    let state = begin(mailbox, before, true).0;
    let all = runs(ascending(found_in(replies[1])));
    let after_select = replies.drop_first();
    let after_search = after_select.drop_first();
    assert(after_select[0] == replies[1]);
    assert forall|i: int| 0 <= i < after_search.len() implies #[trigger] after_search[i] is Fetched by {
        assert(replies[i + 2] is Fetched);
    }
    assert(gathered(replies) =~= gathered(after_search)) by {
        assert(fetched_in(replies[0]) =~= Seq::empty());
        assert(fetched_in(after_select[0]) =~= Seq::empty());
        assert(gathered(after_select) =~= gathered(after_search));
    }
    match advance(state, replies[0]) {
        StepView::Continue(searching, _) => {
            assert(commands_after(state, replies) == seq![CommandView::Search { before }]
                + commands_after(searching, after_select));
            assert(result_after(state, replies) == result_after(searching, after_select));
            match advance(searching, after_select[0]) {
                StepView::Continue(next, command) => {
                    assert(commands_after(searching, after_select) == seq![command]
                        + commands_after(next, after_search));
                    assert(result_after(searching, after_select) == result_after(
                        next,
                        after_search,
                    ));
                    lemma_fetches_then_report(next, after_search);
                    assert(seq![command] + fetches(next.pending) =~= fetches(all));
                    assert(commands_after(state, replies) =~= seq![CommandView::Search { before }]
                        + fetches(all));
                    assert(next.previews + gathered(after_search) =~= gathered(replies));
                },
                StepView::Finished(_) => {
                    assert(gathered(after_search) =~= Seq::empty());
                    assert(fetches(all) =~= Seq::empty());
                    assert(commands_after(searching, after_select) =~= Seq::empty());
                    assert(commands_after(state, replies) =~= seq![CommandView::Search { before }]
                        + fetches(all));
                    assert(searching.previews =~= gathered(replies));
                },
            }
        },
        StepView::Finished(_) => {},
    }
}

} // verus!
