use log_replication_system::log_entry::{Command, LogEntry, SystemAction};

#[test]
fn test_log_entry_creation() {
    let entry = LogEntry::new(1, 1, Command::operation("test".to_string()));
    assert_eq!(entry.id, 1);
    assert_eq!(entry.term, 1);
    assert!(!entry.is_committed());
}

#[test]
fn test_commit_entry() {
    let mut entry = LogEntry::new(1, 1, Command::NoOp);
    assert!(!entry.is_committed());
    entry.commit();
    assert!(entry.is_committed());
}

#[test]
fn no_op_entry_is_uncommitted_noop() {
    let entry = LogEntry::no_op(7, 3);
    assert_eq!(entry.id, 7);
    assert_eq!(entry.term, 3);
    assert_eq!(entry.command, Command::NoOp);
    assert!(!entry.committed);
}

#[test]
fn with_timestamp_keeps_every_field() {
    let entry = LogEntry::with_timestamp(4, 2, 12345, Command::operation("x".to_string()));
    assert_eq!(entry.timestamp, 12345);
    assert_eq!(entry.id, 4);
    assert_eq!(entry.term, 2);
    assert_eq!(entry.command, Command::Operation { data: "x".to_string() });
    assert!(!entry.committed);
}

#[test]
fn new_entry_is_stamped_with_the_clock() {
    let since_epoch = |t: std::time::SystemTime| {
        t.duration_since(std::time::UNIX_EPOCH).unwrap().as_millis() as u64
    };
    let before = since_epoch(std::time::SystemTime::now());
    let entry = LogEntry::new(1, 1, Command::NoOp);
    let after = since_epoch(std::time::SystemTime::now());
    assert!(before > 0);
    assert!(before <= entry.timestamp && entry.timestamp <= after);
}

#[test]
fn system_command_wraps_action() {
    let action = SystemAction::RemoveNode { node_id: "n2".to_string() };
    let command = Command::system(action.clone());
    assert_eq!(command, Command::SystemCommand { action });
}

#[test]
fn clone_is_equal() {
    let mut entry = LogEntry::new(9, 4, Command::system(SystemAction::AddNode {
        node_id: "n".to_string(),
        address: "a".to_string(),
    }));
    entry.commit();
    assert_eq!(entry.clone(), entry);
}
