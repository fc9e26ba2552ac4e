use vstd::prelude::*;

verus! {

/// System actions for cluster management.
#[derive(Debug, PartialEq)]
pub enum SystemAction {
    /// Add a new node to the cluster.
    AddNode { node_id: String, address: String },
    /// Remove a node from the cluster.
    RemoveNode { node_id: String },
    /// Leader election related.
    LeaderElection { candidate_id: String },
}

/// Commands that can be replicated in the log.
#[derive(Debug, PartialEq)]
pub enum Command {
    /// A user-defined operation with arbitrary data.
    Operation { data: String },
    /// System command for cluster management.
    SystemCommand { action: SystemAction },
    /// No-op entry (used for heartbeats).
    NoOp,
}

/// A single entry in the replicated log.
#[derive(Debug, PartialEq)]
pub struct LogEntry {
    /// Unique identifier for this entry (its position in the log).
    pub id: u64,
    /// Term in which this entry was created.
    pub term: u64,
    /// Wall-clock time of creation, in milliseconds since the Unix epoch.
    pub timestamp: u64,
    /// The command being replicated.
    pub command: Command,
    /// Whether this entry has been committed.
    pub committed: bool,
}

impl Clone for SystemAction {
    fn clone(&self) -> (r: Self)
        ensures
            r == *self,
    {
        match self {
            SystemAction::AddNode { node_id, address } => SystemAction::AddNode {
                node_id: node_id.clone(),
                address: address.clone(),
            },
            SystemAction::RemoveNode { node_id } => SystemAction::RemoveNode { node_id: node_id.clone() },
            SystemAction::LeaderElection { candidate_id } => SystemAction::LeaderElection {
                candidate_id: candidate_id.clone(),
            },
        }
    }
}

impl Clone for Command {
    fn clone(&self) -> (r: Self)
        ensures
            r == *self,
    {
        match self {
            Command::Operation { data } => Command::Operation { data: data.clone() },
            Command::SystemCommand { action } => Command::SystemCommand { action: action.clone() },
            Command::NoOp => Command::NoOp,
        }
    }
}

impl Clone for LogEntry {
    fn clone(&self) -> (r: Self)
        ensures
            r == *self,
    {
        LogEntry {
            id: self.id,
            term: self.term,
            timestamp: self.timestamp,
            command: self.command.clone(),
            committed: self.committed,
        }
    }
}

/// The wall clock's reading, `std::time::SystemTime`, carried opaquely.
#[verifier::external_type_specification]
#[verifier::external_body]
pub struct ExSystemTime(std::time::SystemTime);

/// Reads the wall clock with `std::time::SystemTime::now`. Nothing is
/// promised of the reading: it depends on the machine's clock.
#[verifier::external_body]
fn system_time_now() -> std::time::SystemTime {
    std::time::SystemTime::now()
}

/// Calls `SystemTime::duration_since(UNIX_EPOCH)`: `Some` of the span
/// since the epoch, `None` where the clock reads earlier than the epoch.
/// Nothing is promised of the span itself.
#[verifier::external_body]
fn duration_since_unix_epoch(t: &std::time::SystemTime) -> Option<core::time::Duration> {
    match t.duration_since(std::time::UNIX_EPOCH) {
        Ok(d) => Some(d),
        Err(_) => None,
    }
}

/// Calls `Duration::as_millis`: the number of whole milliseconds in `d`.
/// Nothing more is stated of it, since `Duration` is opaque here.
#[verifier::external_body]
fn duration_as_millis(d: &core::time::Duration) -> u128 {
    d.as_millis()
}

/// The current wall-clock time in milliseconds since the Unix epoch,
/// truncated to 64 bits; 0 where the clock reads earlier than the epoch.
fn current_timestamp_millis() -> u64 {
    let now = system_time_now();
    match duration_since_unix_epoch(&now) {
        Some(d) => {
            let ms: u128 = duration_as_millis(&d);
            ms as u64
        },
        None => 0,
    }
}

impl LogEntry {
    /// A fresh, uncommitted entry with the given creation time.
    pub fn with_timestamp(id: u64, term: u64, timestamp: u64, command: Command) -> (e: Self)
        ensures
            e == (LogEntry { id, term, timestamp, command, committed: false }),
    {
        LogEntry { id, term, timestamp, command, committed: false }
    }

    /// Create a new, uncommitted log entry stamped with the current time.
    pub fn new(id: u64, term: u64, command: Command) -> (e: Self)
        ensures
            e.id == id,
            e.term == term,
            e.command == command,
            !e.committed,
    {
        let timestamp = current_timestamp_millis();
        Self::with_timestamp(id, term, timestamp, command)
    }

    /// Create a no-op entry (useful for heartbeats).
    pub fn no_op(id: u64, term: u64) -> (e: Self)
        ensures
            e.id == id,
            e.term == term,
            e.command == Command::NoOp,
            !e.committed,
    {
        Self::new(id, term, Command::NoOp)
    }

    /// Mark this entry as committed.
    pub fn commit(&mut self)
        ensures
            *final(self) == (LogEntry { committed: true, ..*old(self) }),
    {
        self.committed = true;
    }

    /// Whether this entry is committed.
    pub fn is_committed(&self) -> (b: bool)
        ensures
            b == self.committed,
    {
        self.committed
    }
}

impl Command {
    /// Create a new operation command.
    pub fn operation(data: String) -> (c: Self)
        ensures
            c == (Command::Operation { data }),
    {
        Command::Operation { data }
    }

    /// Create a system command.
    pub fn system(action: SystemAction) -> (c: Self)
        ensures
            c == (Command::SystemCommand { action }),
    {
        Command::SystemCommand { action }
    }
}

} // verus!
