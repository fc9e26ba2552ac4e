use vstd::prelude::*;
use crate::log_entry::LogEntry;
use crate::storage::clone_entries;

verus! {

/// Messages exchanged between nodes, and between clients and nodes.
#[derive(Debug)]
#[allow(inconsistent_fields)]
pub enum Message {
    /// Append entries RPC (for replication).
    AppendEntries {
        term: u64,
        leader_id: String,
        prev_log_index: u64,
        prev_log_term: u64,
        entries: Vec<LogEntry>,
        leader_commit: u64,
    },
    /// Response to append entries RPC.
    AppendEntriesResponse { term: u64, success: bool, match_index: u64 },
    /// Request vote RPC (for leader election).
    RequestVote { term: u64, candidate_id: String, last_log_index: u64, last_log_term: u64 },
    /// Response to request vote RPC.
    RequestVoteResponse { term: u64, vote_granted: bool },
    /// Client request to append a command.
    ClientAppend { command: String },
    /// Response to a client append request.
    ClientAppendResponse { success: bool, leader_id: Option<String> },
    /// Client request to query the log.
    ClientQuery,
    /// Response to a client query.
    ClientQueryResponse { entries: Vec<LogEntry>, leader_id: String },
    /// Heartbeat message.
    Heartbeat { term: u64, leader_id: String },
}

/// A copy of an optional string.
pub fn clone_opt_string(s: &Option<String>) -> (r: Option<String>)
    ensures
        r == *s,
{
    match s {
        Some(x) => Some(x.clone()),
        None => None,
    }
}

impl Message {
    /// A copy of this message: the same variant, the same scalars and strings,
    /// and the same records in the same order.
    pub fn duplicate(&self) -> (r: Message)
        ensures
            match (*self, r) {
                (
                    Message::AppendEntries {
                        term: t1,
                        leader_id: l1,
                        prev_log_index: p1,
                        prev_log_term: q1,
                        entries: e1,
                        leader_commit: c1,
                    },
                    Message::AppendEntries {
                        term: t2,
                        leader_id: l2,
                        prev_log_index: p2,
                        prev_log_term: q2,
                        entries: e2,
                        leader_commit: c2,
                    },
                ) => t1 == t2 && l1 == l2 && p1 == p2 && q1 == q2 && e1@ == e2@ && c1 == c2,
                (
                    Message::ClientQueryResponse { entries: e1, leader_id: l1 },
                    Message::ClientQueryResponse { entries: e2, leader_id: l2 },
                ) => e1@ == e2@ && l1 == l2,
                (Message::AppendEntries { .. }, _) => false,
                (Message::ClientQueryResponse { .. }, _) => false,
                (a, b) => a == b,
            },
    {
        match self {
            Message::AppendEntries {
                term,
                leader_id,
                prev_log_index,
                prev_log_term,
                entries,
                leader_commit,
            } => Message::AppendEntries {
                term: *term,
                leader_id: leader_id.clone(),
                prev_log_index: *prev_log_index,
                prev_log_term: *prev_log_term,
                entries: clone_entries(entries),
                leader_commit: *leader_commit,
            },
            Message::AppendEntriesResponse { term, success, match_index } => {
                Message::AppendEntriesResponse {
                    term: *term,
                    success: *success,
                    match_index: *match_index,
                }
            },
            Message::RequestVote { term, candidate_id, last_log_index, last_log_term } => {
                Message::RequestVote {
                    term: *term,
                    candidate_id: candidate_id.clone(),
                    last_log_index: *last_log_index,
                    last_log_term: *last_log_term,
                }
            },
            Message::RequestVoteResponse { term, vote_granted } => Message::RequestVoteResponse {
                term: *term,
                vote_granted: *vote_granted,
            },
            Message::ClientAppend { command } => Message::ClientAppend { command: command.clone() },
            Message::ClientAppendResponse { success, leader_id } => Message::ClientAppendResponse {
                success: *success,
                leader_id: clone_opt_string(leader_id),
            },
            Message::ClientQuery => Message::ClientQuery,
            Message::ClientQueryResponse { entries, leader_id } => Message::ClientQueryResponse {
                entries: clone_entries(entries),
                leader_id: leader_id.clone(),
            },
            Message::Heartbeat { term, leader_id } => Message::Heartbeat {
                term: *term,
                leader_id: leader_id.clone(),
            },
        }
    }
}

// ---------------------------------------------------------------------------
// Framing: each message travels as a 4-byte big-endian length, then its
// encoded bytes.
// ---------------------------------------------------------------------------

/// The four big-endian bytes of `x`.
pub open spec fn be_bytes(x: u32) -> Seq<u8> {
    seq![
        (x / 0x100_0000) as u8,
        ((x / 0x1_0000) % 0x100) as u8,
        ((x / 0x100) % 0x100) as u8,
        (x % 0x100) as u8,
    ]
}

/// The number that four bytes spell in big-endian order.
pub open spec fn be_value(b: Seq<u8>) -> int {
    b[0] * 0x100_0000 + b[1] * 0x1_0000 + b[2] * 0x100 + b[3]
}

/// The length that a frame's header records: the payload's length taken
/// modulo 2^32, as a `u32` cast does.
pub open spec fn header_length(len: nat) -> u32 {
    (len % 0x1_0000_0000) as u32
}

/// The length prefix followed by the payload.
pub fn encode_frame(payload: &Vec<u8>) -> (f: Vec<u8>)
    ensures
        f@ == be_bytes(header_length(payload@.len())) + payload@,
{
    let len64: u64 = payload.len() as u64;
    let len: u32 = (len64 % 0x1_0000_0000u64) as u32;
    let mut f: Vec<u8> = Vec::new();
    f.push((len / 0x100_0000) as u8);
    f.push(((len / 0x1_0000) % 0x100) as u8);
    f.push(((len / 0x100) % 0x100) as u8);
    f.push((len % 0x100) as u8);
    let mut i: usize = 0;
    while i < payload.len()
        invariant
            i <= payload.len(),
            f@ == be_bytes(len) + payload@.subrange(0, i as int),
        decreases payload.len() - i,
    {
        f.push(payload[i]);
        i += 1;
        assert(f@ =~= be_bytes(len) + payload@.subrange(0, i as int));
    }
    assert(payload@.subrange(0, payload.len() as int) =~= payload@);
    f
}

/// The payload length that a frame header (its first four bytes) records.
pub fn decode_frame_length(header: &[u8]) -> (len: u32)
    requires
        header@.len() >= 4,
    ensures
        len == be_value(header@),
{
    let b0: u32 = header[0] as u32;
    let b1: u32 = header[1] as u32;
    let b2: u32 = header[2] as u32;
    let b3: u32 = header[3] as u32;
    b0 * 0x100_0000 + b1 * 0x1_0000 + b2 * 0x100 + b3
}

/// Reading back the header of an encoded frame gives the payload's length
/// (modulo 2^32), and what follows the header is the payload itself.
pub proof fn lemma_frame_round_trip(payload: Seq<u8>)
    ensures
        ({
            let f = be_bytes(header_length(payload.len())) + payload;
            &&& be_value(f) == payload.len() % 0x1_0000_0000
            &&& f.subrange(4, f.len() as int) == payload
        }),
{
    let x = header_length(payload.len());
    let f = be_bytes(x) + payload;
    let b = be_bytes(x);
    assert(f[0] == b[0] && f[1] == b[1] && f[2] == b[2] && f[3] == b[3]);
    assert(b[0] * 0x100_0000 + b[1] * 0x1_0000 + b[2] * 0x100 + b[3] == x) by (nonlinear_arith)
        requires
            b[0] == x / 0x100_0000,
            b[1] == (x / 0x1_0000) % 0x100,
            b[2] == (x / 0x100) % 0x100,
            b[3] == x % 0x100,
            0 <= x < 0x1_0000_0000,
    ;
    assert(f.subrange(4, f.len() as int) =~= payload);
}

// ---------------------------------------------------------------------------
// What a client makes of a node's reply.
// ---------------------------------------------------------------------------

/// Why a client request failed once the reply arrived.
#[derive(Debug, Clone, Copy, PartialEq, Eq)]
pub enum ClientError {
    /// The node answered with a message of another kind.
    UnexpectedResponse,
}

/// Client for sending requests to the cluster.
pub struct Client;

impl Client {
    /// The outcome of an append request, from the node's reply: whether the
    /// command was appended, or an error where the reply is of another kind.
    pub fn append_outcome(response: Message) -> (r: Result<bool, ClientError>)
        ensures
            match response {
                Message::ClientAppendResponse { success, .. } => r == Ok::<bool, ClientError>(success),
                _ => r == Err::<bool, ClientError>(ClientError::UnexpectedResponse),
            },
    {
        match response {
            Message::ClientAppendResponse { success, leader_id: _ } => Ok(success),
            _ => Err(ClientError::UnexpectedResponse),
        }
    }

    /// The outcome of a query, from the node's reply: the entries it holds,
    /// or an error where the reply is of another kind.
    pub fn query_outcome(response: Message) -> (r: Result<Vec<LogEntry>, ClientError>)
        ensures
            match response {
                Message::ClientQueryResponse { entries, .. } => r is Ok && r->Ok_0@ == entries@,
                _ => r == Err::<Vec<LogEntry>, ClientError>(ClientError::UnexpectedResponse),
            },
    {
        match response {
            Message::ClientQueryResponse { entries, leader_id: _ } => Ok(entries),
            _ => Err(ClientError::UnexpectedResponse),
        }
    }
}

} // verus!
