use log_replication_system::log_entry::{Command, LogEntry};
use log_replication_system::storage::{Metadata, Storage, StorageWrite};

/// Replays queued writes onto an in-memory picture of a node's two files.
fn replay(writes: Vec<StorageWrite>, log: &mut Vec<LogEntry>, meta: &mut Option<Metadata>) {
    for w in writes {
        match w {
            StorageWrite::AppendEntry(e) => log.push(e),
            StorageWrite::RewriteLog(records) => *log = records,
            StorageWrite::SaveMetadata(m) => *meta = Some(m),
        }
    }
}

#[test]
fn test_storage_operations() {
    let mut storage = Storage::new();
    let mut file_log = Vec::new();
    let mut file_meta = None;

    // Test append
    let entry = LogEntry::new(1, 1, Command::operation("test".to_string()));
    storage.append(entry.clone());
    replay(storage.take_pending_writes(), &mut file_log, &mut file_meta);

    // Test get
    assert_eq!(storage.get(1), Some(&entry));
    assert_eq!(storage.get_last_log_index(), 1);

    // Test persistence by restoring a new storage from what was written
    let storage2 = Storage::restore(file_meta, file_log);
    assert_eq!(storage2.get(1), Some(&entry));
    assert_eq!(storage2.get_last_log_index(), 1);
}

#[test]
fn test_commit_operations() {
    let mut storage = Storage::new();

    let entry1 = LogEntry::new(1, 1, Command::operation("test1".to_string()));
    let entry2 = LogEntry::new(2, 1, Command::operation("test2".to_string()));

    storage.append(entry1);
    storage.append(entry2);

    assert_eq!(storage.get_commit_index(), 0);

    let committed = storage.commit_up_to(2);
    assert_eq!(committed.len(), 2);
    assert_eq!(storage.get_commit_index(), 2);
}

fn entry(id: u64, term: u64, data: &str) -> LogEntry {
    LogEntry::with_timestamp(id, term, 1000 + id, Command::operation(data.to_string()))
}

#[test]
fn append_out_of_order_keeps_id_order() {
    let mut s = Storage::new();
    s.append(entry(5, 1, "e5"));
    s.append(entry(2, 1, "e2"));
    s.append(entry(9, 2, "e9"));
    s.append(entry(3, 1, "e3"));
    let ids: Vec<u64> = s.get_all_entries().iter().map(|e| e.id).collect();
    assert_eq!(ids, vec![2, 3, 5, 9]);
    assert_eq!(s.get_last_log_index(), 9);
    assert_eq!(s.get_last_log_term(), 2);
}

#[test]
fn append_same_id_replaces_entry() {
    let mut s = Storage::new();
    s.append(entry(1, 1, "old"));
    s.append(entry(1, 3, "new"));
    assert_eq!(s.get_all_entries().len(), 1);
    assert_eq!(s.get(1).unwrap().term, 3);
    assert_eq!(s.get(1).unwrap().command, Command::operation("new".to_string()));
}

#[test]
fn last_index_only_rises_on_append() {
    let mut s = Storage::new();
    s.append(entry(4, 1, "a"));
    s.append(entry(2, 1, "b"));
    assert_eq!(s.get_last_log_index(), 4);
    assert!(s.get(3).is_none());
}

#[test]
fn entries_from_start() {
    let mut s = Storage::new();
    for i in 1..=5 {
        s.append(entry(i, 1, "x"));
    }
    let ids: Vec<u64> = s.get_entries_from(3).iter().map(|e| e.id).collect();
    assert_eq!(ids, vec![3, 4, 5]);
    assert!(s.get_entries_from(6).is_empty());
    assert_eq!(s.get_entries_from(0).len(), 5);
}

#[test]
fn truncate_drops_suffix_and_rewrites_log() {
    let mut s = Storage::new();
    for i in 1..=4 {
        s.append(entry(i, 1, "x"));
    }
    s.take_pending_writes();
    s.truncate_from(3);
    assert_eq!(s.get_last_log_index(), 2);
    assert!(s.get(3).is_none());
    assert!(s.get(4).is_none());
    assert!(s.get(2).is_some());
    let writes = s.take_pending_writes();
    assert_eq!(writes.len(), 2);
    match &writes[0] {
        StorageWrite::RewriteLog(records) => {
            let ids: Vec<u64> = records.iter().map(|e| e.id).collect();
            assert_eq!(ids, vec![1, 2]);
        },
        other => panic!("expected a log rewrite, got {:?}", other),
    }
    match &writes[1] {
        StorageWrite::SaveMetadata(m) => assert_eq!(m.last_log_index, 2),
        other => panic!("expected a metadata save, got {:?}", other),
    }
}

#[test]
fn truncate_everything_resets_last_index() {
    let mut s = Storage::new();
    s.append(entry(1, 1, "x"));
    s.truncate_from(0);
    assert_eq!(s.get_last_log_index(), 0);
    assert!(s.get_all_entries().is_empty());
    assert_eq!(s.get_last_log_term(), 0);
}

#[test]
fn commit_returns_only_fresh_entries() {
    let mut s = Storage::new();
    for i in 1..=4 {
        s.append(entry(i, 1, "x"));
    }
    let first = s.commit_up_to(2);
    assert_eq!(first.iter().map(|e| e.id).collect::<Vec<_>>(), vec![1, 2]);
    assert!(first.iter().all(|e| e.committed));
    let second = s.commit_up_to(4);
    assert_eq!(second.iter().map(|e| e.id).collect::<Vec<_>>(), vec![3, 4]);
    assert!(s.get_all_entries().iter().all(|e| e.committed));
    assert_eq!(s.get_commit_index(), 4);
}

#[test]
fn commit_never_lowers_and_stays_on_the_log() {
    let mut s = Storage::new();
    s.append(entry(1, 1, "x"));
    s.append(entry(3, 1, "y"));
    // nothing above 3: the commit index stops at the highest entry committed
    s.commit_up_to(5);
    assert_eq!(s.get_commit_index(), 3);
    // a lower request leaves it where it is
    let none = s.commit_up_to(2);
    assert!(none.is_empty());
    assert_eq!(s.get_commit_index(), 3);
}

#[test]
fn commit_on_empty_log_commits_nothing() {
    let mut s = Storage::new();
    let none = s.commit_up_to(5);
    assert!(none.is_empty());
    assert_eq!(s.get_commit_index(), 0);
}

#[test]
fn committed_state_survives_restart() {
    let mut s = Storage::new();
    let mut log = Vec::new();
    let mut meta = None;
    s.append(entry(1, 1, "x"));
    s.commit_up_to(1);
    replay(s.take_pending_writes(), &mut log, &mut meta);
    let restored = Storage::restore(meta, log);
    assert_eq!(restored.get_commit_index(), 1);
    assert!(restored.get(1).unwrap().is_committed());
}

#[test]
fn set_term_saves_metadata() {
    let mut s = Storage::new();
    s.set_current_term(7);
    assert_eq!(s.get_current_term(), 7);
    let writes = s.take_pending_writes();
    assert_eq!(writes.len(), 1);
    match &writes[0] {
        StorageWrite::SaveMetadata(m) => {
            assert_eq!(*m, Metadata { current_term: 7, last_log_index: 0, commit_index: 0 })
        },
        other => panic!("expected a metadata save, got {:?}", other),
    }
    assert!(s.take_pending_writes().is_empty());
}

#[test]
fn restore_later_record_wins() {
    let records = vec![entry(1, 1, "a"), entry(2, 1, "b"), entry(1, 2, "c")];
    let s = Storage::restore(None, records);
    assert_eq!(s.get(1).unwrap().term, 2);
    assert_eq!(s.get_all_entries().len(), 2);
    assert_eq!(s.get_current_term(), 0);
    assert_eq!(s.get_last_log_index(), 0);
    let m = Metadata { current_term: 3, last_log_index: 9, commit_index: 1 };
    let s2 = Storage::restore(Some(m), vec![]);
    assert_eq!(s2.metadata(), m);
}

#[test]
fn files_follow_storage_through_truncate_and_commit() {
    let mut s = Storage::new();
    let mut log = Vec::new();
    let mut meta = None;
    for i in 1..=3 {
        s.append(entry(i, 1, "x"));
    }
    s.commit_up_to(2);
    s.truncate_from(3);
    s.append(entry(3, 2, "y"));
    s.set_current_term(2);
    replay(s.take_pending_writes(), &mut log, &mut meta);
    let restored = Storage::restore(meta, log);
    assert_eq!(restored.metadata(), s.metadata());
    let a = restored.get_all_entries();
    let b = s.get_all_entries();
    assert_eq!(a.len(), b.len());
    assert_eq!(a, b);
    assert!(a[0].committed && a[1].committed && !a[2].committed);
}

#[test]
fn cut_brings_commit_index_to_highest_committed_kept() {
    let mut s = Storage::new();
    for i in 1..=5 {
        s.append(entry(i, 1, "x"));
    }
    s.commit_up_to(5);
    assert_eq!(s.get_commit_index(), 5);
    s.truncate_from(4);
    assert_eq!(s.get_commit_index(), 3);
    s.commit_up_to(3);
    assert_eq!(s.get_commit_index(), 3);
}

#[test]
fn cut_below_commit_index_then_commit_reaches_the_log() {
    let records = vec![entry(1, 1, "a"), entry(2, 1, "b"), entry(3, 1, "c")];
    let mut s = Storage::restore(Some(Metadata { current_term: 1, last_log_index: 5, commit_index: 5 }), records);
    s.truncate_from(4);
    assert_eq!(s.get_commit_index(), 0);
    assert_eq!(s.get_last_log_index(), 3);
    s.commit_up_to(3);
    assert_eq!(s.get_commit_index(), 3);
    assert!(s.get_all_entries().iter().all(|e| e.committed));
}

#[test]
fn cut_above_commit_index_keeps_it() {
    let mut s = Storage::new();
    for i in 1..=4 {
        s.append(entry(i, 1, "x"));
    }
    s.commit_up_to(2);
    s.truncate_from(4);
    assert_eq!(s.get_commit_index(), 2);
}
