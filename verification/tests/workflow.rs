use imap_cleanup::date::CutoffDate;
use imap_cleanup::session::{
    CleanupError, CleanupOutcome, Command, Flag, Preview, Reply, Timestamp,
};
use imap_cleanup::workflow::{Cleanup, Step};

/// A mailbox in memory that answers commands and keeps a log of them.
struct Mailbox {
    name: String,
    /// The identifiers that a search finds, in the order in which it gives them.
    found: Vec<u32>,
    /// The command, counted from 0, that fails.
    fails_at: Option<usize>,
    log: Vec<Command>,
}

fn mailbox(found: &[u32]) -> Mailbox {
    Mailbox { name: "INBOX".to_string(), found: found.to_vec(), fails_at: None, log: Vec::new() }
}

fn cutoff() -> CutoffDate {
    CutoffDate::new(2022, 5, 1).unwrap()
}

fn preview(id: u32) -> Preview {
    Preview {
        id,
        timestamp: Timestamp { seconds: 1_600_000_000 + id as i64, offset: 7200 },
        flags: if id % 2 == 0 { vec![Flag::Seen] } else { vec![Flag::Custom(format!("tag{}", id))] },
    }
}

fn answer(mailbox: &mut Mailbox, command: Command) -> Reply {
    let failed = mailbox.fails_at == Some(mailbox.log.len());
    let reply = match &command {
        _ if failed => Reply::Failed,
        Command::Select { mailbox: name } => {
            if *name == mailbox.name {
                Reply::Done
            } else {
                Reply::Failed
            }
        }
        Command::Search { .. } => Reply::Found(mailbox.found.clone()),
        Command::FetchMetadata { range } => Reply::Fetched(
            range.clone().filter(|id| mailbox.found.contains(id)).map(preview).collect(),
        ),
        Command::MarkForDeletion { .. } => Reply::Done,
        Command::PurgeMarked => Reply::Done,
    };
    mailbox.log.push(command);
    reply
}

fn run(mailbox: &mut Mailbox, name: &str, dry_run: bool) -> Result<CleanupOutcome, CleanupError> {
    let (mut state, mut command) = Cleanup::start(name, cutoff(), dry_run);
    loop {
        let reply = answer(mailbox, command);
        match state.step(reply) {
            Step::Continue(next, then) => {
                state = next;
                command = then;
            }
            Step::Finished(result) => return result,
        }
    }
}

fn writes(log: &[Command]) -> usize {
    log.iter()
        .filter(|c| matches!(c, Command::MarkForDeletion { .. } | Command::PurgeMarked))
        .count()
}

#[test]
fn start_selects_the_mailbox() {
    let (_, command) = Cleanup::start("Archive", cutoff(), false);
    assert_eq!(command, Command::Select { mailbox: "Archive".to_string() });
    let (_, command) = Cleanup::start("INBOX", cutoff(), true);
    assert_eq!(command, Command::Select { mailbox: "INBOX".to_string() });
}

#[test]
fn selection_is_followed_by_the_search() {
    let (state, _) = Cleanup::start("INBOX", cutoff(), true);
    match state.step(Reply::Done) {
        Step::Continue(_, command) => assert_eq!(command, Command::Search { before: cutoff() }),
        Step::Finished(result) => panic!("ended with {:?}", result),
    }
}

#[test]
fn dry_run_of_five_candidates_counts_five_and_writes_nothing() {
    let mut inbox = mailbox(&[3, 4, 9, 10, 20]);
    let result = run(&mut inbox, "INBOX", true);
    match result {
        Ok(CleanupOutcome::DryRun { previews, candidates }) => {
            assert_eq!(candidates, 5);
            assert_eq!(previews, vec![preview(3), preview(4), preview(9), preview(10), preview(20)]);
        }
        other => panic!("ended with {:?}", other),
    }
    assert_eq!(writes(&inbox.log), 0);
    assert_eq!(
        inbox.log,
        vec![
            Command::Select { mailbox: "INBOX".to_string() },
            Command::Search { before: cutoff() },
            Command::FetchMetadata { range: 3..=4 },
            Command::FetchMetadata { range: 9..=10 },
            Command::FetchMetadata { range: 20..=20 },
        ]
    );
}

#[test]
fn commit_of_one_run_marks_once_and_purges_once() {
    let mut inbox = mailbox(&[10, 11, 12]);
    let result = run(&mut inbox, "INBOX", false);
    assert_eq!(result, Ok(CleanupOutcome::Commit { count: 3 }));
    assert_eq!(
        inbox.log,
        vec![
            Command::Select { mailbox: "INBOX".to_string() },
            Command::Search { before: cutoff() },
            Command::MarkForDeletion { range: 10..=12 },
            Command::PurgeMarked,
        ]
    );
}

#[test]
fn commit_marks_every_range_in_order_before_the_purge() {
    let mut inbox = mailbox(&[1, 2, 3, 7, 8, 9, 30]);
    let result = run(&mut inbox, "INBOX", false);
    assert_eq!(result, Ok(CleanupOutcome::Commit { count: 7 }));
    assert_eq!(
        inbox.log[2..],
        [
            Command::MarkForDeletion { range: 1..=3 },
            Command::MarkForDeletion { range: 7..=9 },
            Command::MarkForDeletion { range: 30..=30 },
            Command::PurgeMarked,
        ]
    );
}

#[test]
fn search_result_is_sorted_before_it_is_compressed() {
    let mut inbox = mailbox(&[12, 3, 11, 1, 2, 10]);
    let result = run(&mut inbox, "INBOX", false);
    assert_eq!(result, Ok(CleanupOutcome::Commit { count: 6 }));
    assert_eq!(
        inbox.log[2..],
        [
            Command::MarkForDeletion { range: 1..=3 },
            Command::MarkForDeletion { range: 10..=12 },
            Command::PurgeMarked,
        ]
    );
}

#[test]
fn repeated_identifiers_count_once() {
    let mut inbox = mailbox(&[5, 6, 5, 6, 6, 7]);
    let result = run(&mut inbox, "INBOX", false);
    assert_eq!(result, Ok(CleanupOutcome::Commit { count: 3 }));
    assert_eq!(
        inbox.log[2..],
        [Command::MarkForDeletion { range: 5..=7 }, Command::PurgeMarked]
    );
}

#[test]
fn dry_run_twice_reports_the_same() {
    let mut inbox = mailbox(&[8, 2, 3, 9, 50]);
    let first = run(&mut inbox, "INBOX", true);
    let commands_of_first = inbox.log.len();
    let second = run(&mut inbox, "INBOX", true);
    assert!(first.is_ok());
    assert_eq!(first, second);
    assert_eq!(inbox.log[..commands_of_first], inbox.log[commands_of_first..]);
    assert_eq!(writes(&inbox.log), 0);
}

#[test]
fn dry_run_does_not_depend_on_the_order_of_the_search_result() {
    let mut one = mailbox(&[8, 2, 3, 9, 50]);
    let mut other = mailbox(&[50, 9, 8, 3, 2, 2]);
    assert_eq!(run(&mut one, "INBOX", true), run(&mut other, "INBOX", true));
    assert_eq!(one.log, other.log);
}

#[test]
fn dry_run_without_candidates_reports_none() {
    let mut inbox = mailbox(&[]);
    let result = run(&mut inbox, "INBOX", true);
    assert_eq!(result, Ok(CleanupOutcome::DryRun { previews: Vec::new(), candidates: 0 }));
    assert_eq!(inbox.log.len(), 2);
}

#[test]
fn commit_without_candidates_still_purges() {
    let mut inbox = mailbox(&[]);
    let result = run(&mut inbox, "INBOX", false);
    assert_eq!(result, Ok(CleanupOutcome::Commit { count: 0 }));
    assert_eq!(inbox.log[2..], [Command::PurgeMarked]);
}

#[test]
fn missing_mailbox_is_a_mailbox_error() {
    let mut inbox = mailbox(&[1, 2, 3]);
    assert_eq!(run(&mut inbox, "Nowhere", false), Err(CleanupError::Mailbox));
    assert_eq!(inbox.log, vec![Command::Select { mailbox: "Nowhere".to_string() }]);
}

#[test]
fn failed_search_is_a_query_error() {
    let mut inbox = mailbox(&[1, 2, 3]);
    inbox.fails_at = Some(1);
    assert_eq!(run(&mut inbox, "INBOX", false), Err(CleanupError::Query));
    assert_eq!(inbox.log.len(), 2);
    assert_eq!(writes(&inbox.log), 0);
}

#[test]
fn failed_fetch_is_a_fetch_error_and_leaves_no_previews() {
    let mut inbox = mailbox(&[1, 2, 5, 6, 9]);
    inbox.fails_at = Some(3);
    assert_eq!(run(&mut inbox, "INBOX", true), Err(CleanupError::Fetch));
    assert_eq!(
        inbox.log[2..],
        [Command::FetchMetadata { range: 1..=2 }, Command::FetchMetadata { range: 5..=6 }]
    );
}

#[test]
fn failed_mark_is_a_delete_error_and_is_not_followed_by_the_purge() {
    let mut inbox = mailbox(&[1, 2, 5, 6, 9]);
    inbox.fails_at = Some(3);
    assert_eq!(run(&mut inbox, "INBOX", false), Err(CleanupError::Delete));
    assert_eq!(
        inbox.log[2..],
        [Command::MarkForDeletion { range: 1..=2 }, Command::MarkForDeletion { range: 5..=6 }]
    );
    assert!(!inbox.log.contains(&Command::PurgeMarked));
}

#[test]
fn failed_purge_is_a_delete_error() {
    let mut inbox = mailbox(&[1, 2]);
    inbox.fails_at = Some(3);
    assert_eq!(run(&mut inbox, "INBOX", false), Err(CleanupError::Delete));
    assert_eq!(inbox.log[2..], [Command::MarkForDeletion { range: 1..=2 }, Command::PurgeMarked]);
}

#[test]
fn reply_of_another_kind_counts_as_failure() {
    let (state, _) = Cleanup::start("INBOX", cutoff(), false);
    match state.step(Reply::Found(vec![1])) {
        Step::Finished(result) => assert_eq!(result, Err(CleanupError::Mailbox)),
        Step::Continue(_, command) => panic!("went on with {:?}", command),
    }
    let (state, _) = Cleanup::start("INBOX", cutoff(), true);
    let state = match state.step(Reply::Done) {
        Step::Continue(next, _) => next,
        Step::Finished(result) => panic!("ended with {:?}", result),
    };
    match state.step(Reply::Done) {
        Step::Finished(result) => assert_eq!(result, Err(CleanupError::Query)),
        Step::Continue(_, command) => panic!("went on with {:?}", command),
    }
}

#[test]
fn previews_come_in_the_order_of_the_fetches() {
    let mut inbox = mailbox(&[21, 20, 4]);
    match run(&mut inbox, "INBOX", true) {
        Ok(CleanupOutcome::DryRun { previews, candidates }) => {
            assert_eq!(candidates, 3);
            let ids: Vec<u32> = previews.iter().map(|p| p.id).collect();
            assert_eq!(ids, vec![4, 20, 21]);
            assert_eq!(previews[0].flags, vec![Flag::Seen]);
            assert_eq!(previews[2].flags, vec![Flag::Custom("tag21".to_string())]);
            assert_eq!(previews[1].timestamp, Timestamp { seconds: 1_600_000_020, offset: 7200 });
        }
        other => panic!("ended with {:?}", other),
    }
}

#[test]
fn count_is_the_number_of_candidates_not_of_commands() {
    let ids: Vec<u32> = (1..=1000).chain(2000..=2999).collect();
    let mut inbox = mailbox(&ids);
    assert_eq!(run(&mut inbox, "INBOX", false), Ok(CleanupOutcome::Commit { count: 2000 }));
    assert_eq!(inbox.log.len(), 5);
}
