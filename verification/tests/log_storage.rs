use distributed_kv::log::LogStore;
use distributed_kv::types::{LogEntry, StoreError, Vote};

fn entry(index: u64, term: u64) -> LogEntry {
    LogEntry { index, term, payload: format!("{index}@{term}").into_bytes() }
}

fn run(from: u64, to: u64, term: u64) -> Vec<LogEntry> {
    (from..=to).map(|i| entry(i, term)).collect()
}

fn all(log: &LogStore) -> Vec<LogEntry> {
    log.entries_between(0, u64::MAX)
}

#[test]
fn new_log_is_empty() {
    let log = LogStore::new();
    assert_eq!(log.len(), 0);
    assert_eq!(log.last_index(), 0);
    assert_eq!(log.last_purged(), 0);
    assert_eq!(log.committed(), 0);
    assert_eq!(log.read_vote(), None);
    assert!(log.entry(1).is_none());
    assert!(all(&log).is_empty());
}

#[test]
fn conflicting_suffix_is_truncated_and_replaced() {
    let mut log = LogStore::new();
    log.append(run(1, 5, 1)).unwrap();
    assert_eq!(all(&log), run(1, 5, 1));
    log.append(run(3, 5, 2)).unwrap();
    assert_eq!(log.entries_between(3, 5), run(3, 5, 2));
    assert_eq!(log.entries_between(1, 2), run(1, 2, 1));
    assert_eq!(log.len(), 5);
    assert_eq!(log.last_index(), 5);
    let reader = log.get_log_reader();
    assert_eq!(reader.entries_between(3, 5), run(3, 5, 2));
    assert_eq!(reader.entry(3), Some(&entry(3, 2)));
    assert_eq!(reader.entry(2), Some(&entry(2, 1)));
}

#[test]
fn shorter_conflicting_batch_drops_the_rest() {
    let mut log = LogStore::new();
    log.append(run(1, 5, 1)).unwrap();
    log.append(run(3, 3, 2)).unwrap();
    let mut want = run(1, 2, 1);
    want.push(entry(3, 2));
    assert_eq!(all(&log), want);
    assert_eq!(log.last_index(), 3);
}

#[test]
fn matching_entries_are_kept() {
    let mut log = LogStore::new();
    log.append(run(1, 5, 1)).unwrap();
    let mut again = run(2, 3, 1);
    again[0].payload = b"other".to_vec();
    log.append(again).unwrap();
    assert_eq!(all(&log), run(1, 5, 1));

    let mut mixed = run(4, 5, 1);
    mixed.extend(run(6, 7, 3));
    log.append(mixed).unwrap();
    let mut want = run(1, 5, 1);
    want.extend(run(6, 7, 3));
    assert_eq!(all(&log), want);
}

#[test]
fn empty_batch_changes_nothing() {
    let mut log = LogStore::new();
    assert_eq!(log.append(Vec::new()), Ok(()));
    log.append(run(1, 2, 1)).unwrap();
    assert_eq!(log.append(Vec::new()), Ok(()));
    assert_eq!(all(&log), run(1, 2, 1));
}

#[test]
fn append_refuses_gaps() {
    let mut log = LogStore::new();
    assert_eq!(log.append(run(2, 3, 1)), Err(StoreError::InvariantViolation));
    assert_eq!(log.append(run(0, 1, 1)), Err(StoreError::InvariantViolation));
    log.append(run(1, 3, 1)).unwrap();
    assert_eq!(log.append(run(5, 6, 1)), Err(StoreError::InvariantViolation));
    let holed = vec![entry(4, 1), entry(6, 1)];
    assert_eq!(log.append(holed), Err(StoreError::InvariantViolation));
    let backwards = vec![entry(4, 1), entry(3, 1)];
    assert_eq!(log.append(backwards), Err(StoreError::InvariantViolation));
    assert_eq!(all(&log), run(1, 3, 1));
    assert_eq!(log.append(run(4, 4, 1)), Ok(()));
}

#[test]
fn append_refuses_to_replace_committed_entries() {
    let mut log = LogStore::new();
    log.append(run(1, 5, 1)).unwrap();
    log.save_committed(3).unwrap();
    assert_eq!(log.append(run(3, 5, 2)), Err(StoreError::InvariantViolation));
    assert_eq!(all(&log), run(1, 5, 1));
    assert_eq!(log.append(run(4, 5, 2)), Ok(()));
    let mut want = run(1, 3, 1);
    want.extend(run(4, 5, 2));
    assert_eq!(all(&log), want);
}

#[test]
fn truncate_discards_from_the_index_on() {
    let mut log = LogStore::new();
    log.append(run(1, 5, 1)).unwrap();
    assert_eq!(log.truncate(9), Ok(()));
    assert_eq!(log.len(), 5);
    assert_eq!(log.truncate(4), Ok(()));
    assert_eq!(all(&log), run(1, 3, 1));
    assert_eq!(log.truncate(0), Ok(()));
    assert_eq!(log.len(), 0);
    assert_eq!(log.last_index(), 0);
    assert_eq!(log.append(run(1, 1, 2)), Ok(()));
}

#[test]
fn truncate_refuses_to_discard_committed_entries() {
    let mut log = LogStore::new();
    log.append(run(1, 5, 1)).unwrap();
    log.save_committed(3).unwrap();
    assert_eq!(log.truncate(3), Err(StoreError::InvariantViolation));
    assert_eq!(log.truncate(1), Err(StoreError::InvariantViolation));
    assert_eq!(log.len(), 5);
    assert_eq!(log.truncate(4), Ok(()));
    assert_eq!(all(&log), run(1, 3, 1));
}

#[test]
fn purge_discards_up_to_the_index() {
    let mut log = LogStore::new();
    log.append(run(1, 5, 1)).unwrap();
    assert_eq!(log.purge(2), Err(StoreError::InvariantViolation));
    assert_eq!(log.len(), 5);
    log.save_committed(4).unwrap();
    assert_eq!(log.purge(5), Err(StoreError::InvariantViolation));
    assert_eq!(log.purge(2), Ok(()));
    assert_eq!(all(&log), run(3, 5, 1));
    assert_eq!(log.last_purged(), 2);
    assert_eq!(log.last_index(), 5);
    assert!(log.entry(2).is_none());
    assert_eq!(log.entry(3), Some(&entry(3, 1)));
    assert_eq!(log.purge(1), Ok(()));
    assert_eq!(log.last_purged(), 2);
    assert_eq!(log.append(run(2, 3, 1)), Err(StoreError::InvariantViolation));
    assert_eq!(log.append(run(6, 6, 1)), Ok(()));
    assert_eq!(log.last_index(), 6);
}

#[test]
fn purge_beyond_the_end_empties_the_log() {
    let mut log = LogStore::new();
    log.append(run(1, 3, 1)).unwrap();
    log.save_committed(10).unwrap();
    assert_eq!(log.purge(10), Ok(()));
    assert_eq!(log.len(), 0);
    assert_eq!(log.last_purged(), 10);
    assert_eq!(log.last_index(), 10);
    assert_eq!(log.append(run(4, 5, 1)), Err(StoreError::InvariantViolation));
    assert_eq!(log.append(run(12, 12, 1)), Err(StoreError::InvariantViolation));
    assert_eq!(log.append(run(11, 12, 2)), Ok(()));
    assert_eq!(all(&log), run(11, 12, 2));
}

#[test]
fn committed_index_does_not_go_back() {
    let mut log = LogStore::new();
    assert_eq!(log.save_committed(4), Ok(()));
    assert_eq!(log.save_committed(4), Ok(()));
    assert_eq!(log.save_committed(3), Err(StoreError::InvariantViolation));
    assert_eq!(log.committed(), 4);
    assert_eq!(log.save_committed(9), Ok(()));
    assert_eq!(log.committed(), 9);
}

#[test]
fn saved_vote_survives_a_restart() {
    let mut log = LogStore::new();
    let vote = Vote { term: 7, voted_for: Some("node-2".to_string()) };
    log.save_vote(vote.clone());
    assert_eq!(log.read_vote(), Some(Vote { term: 7, voted_for: Some("node-2".to_string()) }));

    let reader = log.get_log_reader();
    assert_eq!(reader.read_vote(), Some(vote.clone()));

    let restarted = LogStore::restore(
        log.read_vote(),
        log.committed(),
        log.last_purged(),
        log.entries_between(0, u64::MAX),
    )
    .unwrap();
    assert_eq!(restarted.read_vote(), Some(vote));
    assert_eq!(restarted.get_log_reader().read_vote().unwrap().term, 7);
}

#[test]
fn vote_is_overwritten() {
    let mut log = LogStore::new();
    log.save_vote(Vote { term: 1, voted_for: Some("a".to_string()) });
    log.save_vote(Vote { term: 2, voted_for: None });
    assert_eq!(log.read_vote(), Some(Vote { term: 2, voted_for: None }));
}

#[test]
fn reader_is_a_view_of_one_moment() {
    let mut log = LogStore::new();
    log.append(run(1, 3, 1)).unwrap();
    log.save_vote(Vote { term: 1, voted_for: None });
    let reader = log.get_log_reader();
    log.append(run(4, 6, 1)).unwrap();
    log.save_vote(Vote { term: 2, voted_for: None });
    assert_eq!(reader.last_index(), 3);
    assert_eq!(reader.last_purged(), 0);
    assert!(reader.entry(4).is_none());
    assert_eq!(reader.entries_between(1, 100), run(1, 3, 1));
    assert_eq!(reader.read_vote(), Some(Vote { term: 1, voted_for: None }));
    assert_eq!(log.get_log_reader().entries_between(1, 100), run(1, 6, 1));
}

#[test]
fn range_reads_are_clipped() {
    let mut log = LogStore::new();
    log.append(run(1, 6, 1)).unwrap();
    log.save_committed(2).unwrap();
    log.purge(2).unwrap();
    assert_eq!(log.entries_between(0, 3), run(3, 3, 1));
    assert_eq!(log.entries_between(4, 5), run(4, 5, 1));
    assert_eq!(log.entries_between(5, 5), run(5, 5, 1));
    assert_eq!(log.entries_between(6, 4), Vec::new());
    assert_eq!(log.entries_between(0, 2), Vec::new());
    assert_eq!(log.entries_between(7, 9), Vec::new());
    assert_eq!(log.entries_between(6, u64::MAX), run(6, 6, 1));
    assert_eq!(log.entries_between(3, 6), run(3, 6, 1));
}

#[test]
fn restore_checks_the_parts() {
    let log = LogStore::restore(None, 4, 2, run(3, 6, 1)).unwrap();
    assert_eq!(log.last_purged(), 2);
    assert_eq!(log.last_index(), 6);
    assert_eq!(log.committed(), 4);
    assert_eq!(log.entry(3), Some(&entry(3, 1)));
    assert!(LogStore::restore(None, 4, 2, run(4, 6, 1)).is_err());
    assert!(LogStore::restore(None, 4, 2, run(2, 6, 1)).is_err());
    assert!(LogStore::restore(None, 1, 2, run(3, 6, 1)).is_err());
    assert!(LogStore::restore(None, 4, 2, vec![entry(3, 1), entry(5, 1)]).is_err());
    assert!(LogStore::restore(None, 0, 0, Vec::new()).is_ok());
}
