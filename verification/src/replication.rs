use vstd::prelude::*;
use crate::log_entry::{LogEntry, Command};
use crate::network::{Message, clone_opt_string};
use crate::peer_table::{PeerTable, VoteSet, count_at_least};
use crate::storage::{Storage, StorageView, StorageWrite, sorted_listing, entries_from};

verus! {

/// The role a node plays in the cluster.
#[derive(Debug, Clone, Copy, PartialEq, Eq, Structural)]
pub enum NodeState {
    Follower,
    Candidate,
    Leader,
}

/// Nanoseconds between a leader's heartbeats.
pub const HEARTBEAT_INTERVAL_NANOS: u64 = 50_000_000;

/// The text of an optional string.
pub open spec fn opt_view(o: Option<String>) -> Option<Seq<char>> {
    match o {
        Some(s) => Some(s@),
        None => None,
    }
}

/// `a - b`, or 0 where `b` exceeds `a`.
pub open spec fn sat_sub(a: u64, b: u64) -> u64 {
    if a >= b {
        (a - b) as u64
    } else {
        0
    }
}

/// The election timeout drawn from `seed`: between 150 and 299
/// milliseconds, in nanoseconds.
pub open spec fn election_timeout_from(seed: u64) -> u64 {
    ((150 + seed % 150) * 1_000_000) as u64
}

/// The name under which a vote from the peer at `addr` is counted.
pub open spec fn peer_vote_name(addr: Seq<char>) -> Seq<char> {
    "peer_"@ + addr
}

/// The term of the entry stored at `index`, or 0 where `index` is 0 or
/// nothing is stored there.
pub open spec fn term_at(st: StorageView, index: u64) -> u64 {
    if index > 0 && st.entries.contains_key(index) {
        st.entries[index].term
    } else {
        0
    }
}

/// Whether a reply grants a vote.
pub open spec fn grants_vote(m: Message) -> bool {
    match m {
        Message::RequestVoteResponse { vote_granted, .. } => vote_granted,
        _ => false,
    }
}

/// `m` is an `AppendEntries` message with exactly these fields.
pub open spec fn is_append_entries(
    m: Message,
    term: u64,
    leader: Seq<char>,
    prev_log_index: u64,
    prev_log_term: u64,
    entries: Seq<LogEntry>,
    leader_commit: u64,
) -> bool {
    match m {
        Message::AppendEntries {
            term: t,
            leader_id: l,
            prev_log_index: p,
            prev_log_term: q,
            entries: e,
            leader_commit: c,
        } => t == term && l@ == leader && p == prev_log_index && q == prev_log_term && e@ == entries
            && c == leader_commit,
        _ => false,
    }
}

/// The model of a replication manager.
pub struct ManagerView {
    pub node_id: Seq<char>,
    pub state: NodeState,
    pub current_term: u64,
    pub voted_for: Option<Seq<char>>,
    pub storage: StorageView,
    pub peers: Seq<Seq<char>>,
    pub leader_id: Option<Seq<char>>,
    /// When the node last heard from a leader or granted a vote, in
    /// nanoseconds on the caller's monotonic clock.
    pub last_heartbeat: u64,
    /// Nanoseconds of silence after which a follower starts an election.
    pub election_timeout: u64,
    pub heartbeat_interval: u64,
    pub next_index: Map<Seq<char>, u64>,
    pub match_index: Map<Seq<char>, u64>,
    pub votes_received: Set<Seq<char>>,
}

impl ManagerView {
    /// Seeing `term` above its own, a node adopts it, forgets its vote and
    /// becomes a follower; the new term is saved.
    pub open spec fn adopt_term(self, term: u64) -> ManagerView {
        if term > self.current_term {
            ManagerView {
                current_term: term,
                voted_for: None,
                state: NodeState::Follower,
                storage: self.storage.set_current_term(term),
                ..self
            }
        } else {
            self
        }
    }

    /// A candidate whose log ends at `(last_log_index, last_log_term)` has
    /// a log at least as up to date as this node's.
    pub open spec fn log_up_to_date(self, last_log_index: u64, last_log_term: u64) -> bool {
        last_log_term > self.storage.last_log_term() || (last_log_term == self.storage.last_log_term()
            && last_log_index >= self.storage.last_log_index)
    }

    /// The node's log agrees with a leader's at `prev_log_index`.
    pub open spec fn log_matches(self, prev_log_index: u64, prev_log_term: u64) -> bool {
        prev_log_index == 0 || (self.storage.entries.contains_key(prev_log_index)
            && self.storage.entries[prev_log_index].term == prev_log_term)
    }

    /// The state after a vote request, and whether the vote was granted.
    pub open spec fn request_vote_step(
        self,
        term: u64,
        candidate: Seq<char>,
        last_log_index: u64,
        last_log_term: u64,
        now: u64,
    ) -> (ManagerView, bool) {
        let s = self.adopt_term(term);
        let grant = term >= s.current_term && (s.voted_for is None || s.voted_for == Some(candidate))
            && s.log_up_to_date(last_log_index, last_log_term);
        if grant {
            (ManagerView { voted_for: Some(candidate), last_heartbeat: now, ..s }, true)
        } else {
            (s, false)
        }
    }

    /// The storage after a leader's entries are accepted: where the first
    /// record's id holds an entry of another term, the log is cut from
    /// there; then every record is appended in order.
    pub open spec fn accept_entries(st: StorageView, entries: Seq<LogEntry>) -> StorageView {
        let st1 = if entries.len() > 0 && st.entries.contains_key(entries[0].id)
            && st.entries[entries[0].id].term != entries[0].term {
            st.truncate_from(entries[0].id)
        } else {
            st
        };
        st1.append_all(entries)
    }

    /// The storage after following a leader's commit index: where it is above
    /// the node's, commit up to it or to the last log index, whichever is
    /// lower.
    pub open spec fn follow_commit(st: StorageView, leader_commit: u64) -> StorageView {
        if leader_commit > st.commit_index {
            st.commit_up_to(
                if leader_commit < st.last_log_index {
                    leader_commit
                } else {
                    st.last_log_index
                },
            )
        } else {
            st
        }
    }

    /// The state after an `AppendEntries` request, and whether it succeeded.
    pub open spec fn append_entries_step(
        self,
        term: u64,
        leader: Seq<char>,
        prev_log_index: u64,
        prev_log_term: u64,
        entries: Seq<LogEntry>,
        leader_commit: u64,
        now: u64,
    ) -> (ManagerView, bool) {
        let s = ManagerView { last_heartbeat: now, leader_id: Some(leader), ..self.adopt_term(term) };
        if term < s.current_term || !s.log_matches(prev_log_index, prev_log_term) {
            (s, false)
        } else {
            (
                ManagerView {
                    storage: Self::follow_commit(
                        Self::accept_entries(s.storage, entries),
                        leader_commit,
                    ),
                    ..s
                },
                true,
            )
        }
    }

    /// The reply to an `AppendEntries` request that left the node in `self`.
    pub open spec fn append_reply(self, success: bool) -> Message {
        Message::AppendEntriesResponse {
            term: self.current_term,
            success,
            match_index: if success {
                self.storage.last_log_index
            } else {
                0
            },
        }
    }

    /// The state after a heartbeat: a term at least the node's own is
    /// adopted together with the sender as leader; a newer term also clears
    /// the vote, which belonged to the older one.
    pub open spec fn heartbeat_step(self, term: u64, leader: Seq<char>, now: u64) -> ManagerView {
        if term >= self.current_term {
            ManagerView {
                current_term: term,
                voted_for: if term > self.current_term {
                    None
                } else {
                    self.voted_for
                },
                state: NodeState::Follower,
                leader_id: Some(leader),
                last_heartbeat: now,
                storage: self.storage.set_current_term(term),
                ..self
            }
        } else {
            self
        }
    }

    /// A node starting an election moves to the next term as a candidate,
    /// votes for itself and counts that vote alone; the new term is saved.
    /// Where its own vote is already more than half of the cluster (a node
    /// without peers), it leads at once.
    pub open spec fn start_election_step(self, now: u64) -> ManagerView {
        let t = (self.current_term + 1) as u64;
        let s = ManagerView {
            current_term: t,
            state: NodeState::Candidate,
            voted_for: Some(self.node_id),
            votes_received: Set::empty().insert(self.node_id),
            last_heartbeat: now,
            storage: self.storage.set_current_term(t),
            ..self
        };
        if 1 > (self.peers.len() + 1) / 2 {
            ManagerView { state: NodeState::Leader, leader_id: Some(self.node_id), ..s }
        } else {
            s
        }
    }

    /// The state after a reply to a vote request from the peer at `peer`,
    /// and whether the election is won by it. A granted vote is counted under
    /// the peer's name; with more than half of the cluster's votes the node
    /// leads.
    pub open spec fn vote_response_step(self, peer: Seq<char>, response: Message) -> (ManagerView, bool) {
        if grants_vote(response) {
            let s = ManagerView { votes_received: self.votes_received.insert(peer_vote_name(peer)), ..self };
            if s.votes_received.len() > (self.peers.len() + 1) / 2 {
                (ManagerView { state: NodeState::Leader, leader_id: Some(self.node_id), ..s }, true)
            } else {
                (s, false)
            }
        } else {
            (self, false)
        }
    }

    /// `m` with every key of `keys` mapped to `v`.
    pub open spec fn fill(m: Map<Seq<char>, u64>, keys: Seq<Seq<char>>, v: u64) -> Map<Seq<char>, u64> {
        Map::new(
            |k: Seq<char>| m.contains_key(k) || keys.contains(k),
            |k: Seq<char>| if keys.contains(k) { v } else { m[k] },
        )
    }

    /// A node becoming leader records itself as leader, and for every peer
    /// a next index just past its last log index and a match index of 0.
    pub open spec fn become_leader_step(self) -> ManagerView {
        ManagerView {
            state: NodeState::Leader,
            leader_id: Some(self.node_id),
            next_index: Self::fill(self.next_index, self.peers, (self.storage.last_log_index + 1) as u64),
            match_index: Self::fill(self.match_index, self.peers, 0),
            ..self
        }
    }

    /// The next index recorded for `peer`, or 1.
    pub open spec fn next_or_one(self, peer: Seq<char>) -> u64 {
        if self.next_index.contains_key(peer) {
            self.next_index[peer]
        } else {
            1
        }
    }

    /// The index just before the next one to send to `peer`.
    pub open spec fn prev_index_for(self, peer: Seq<char>) -> u64 {
        sat_sub(self.next_or_one(peer), 1)
    }

    /// The `AppendEntries` request that a leader sends `peer` with `entries`.
    pub open spec fn is_request_for(self, m: Message, peer: Seq<char>, entries: Seq<LogEntry>) -> bool {
        is_append_entries(
            m,
            self.current_term,
            self.node_id,
            self.prev_index_for(peer),
            term_at(self.storage, self.prev_index_for(peer)),
            entries,
            self.storage.commit_index,
        )
    }

    /// The entries a leader owes `peer`: all from its next index on.
    pub open spec fn entries_owed(self, peer: Seq<char>) -> Seq<LogEntry> {
        sorted_listing(entries_from(self.storage.entries, self.next_or_one(peer)))
    }

    /// The state after `peer` answers a replication request: on success its
    /// next index moves just past, and its match index to, the index it
    /// reports; on failure its next index steps back by one while above 1.
    pub open spec fn replication_response_step(self, peer: Seq<char>, response: Message) -> ManagerView {
        match response {
            Message::AppendEntriesResponse { success, match_index, .. } => {
                if success {
                    ManagerView {
                        next_index: self.next_index.insert(peer, (match_index + 1) as u64),
                        match_index: self.match_index.insert(peer, match_index),
                        ..self
                    }
                } else if self.next_or_one(peer) > 1 {
                    ManagerView {
                        next_index: self.next_index.insert(peer, (self.next_or_one(peer) - 1) as u64),
                        ..self
                    }
                } else {
                    self
                }
            },
            _ => self,
        }
    }

    /// The entry at `n` is held by a majority of the cluster, counting the
    /// leader itself.
    pub open spec fn quorum(self, n: u64) -> bool {
        1 + count_at_least(self.match_index, n) >= (self.peers.len() + 1) / 2 + 1
    }

    /// The storage after the leader examines, in increasing order, each index
    /// above its commit index up to `hi`, committing up to it where a
    /// majority holds it and the entry there is of the current term.
    pub open spec fn commit_scan(self, hi: int) -> StorageView
        decreases hi - self.storage.commit_index,
    {
        if hi <= self.storage.commit_index {
            self.storage
        } else {
            let st = self.commit_scan(hi - 1);
            let n = hi as u64;
            if self.quorum(n) && st.entries.contains_key(n) && st.entries[n].term == self.current_term {
                st.commit_up_to(n)
            } else {
                st
            }
        }
    }

    /// A leader advances its commit index by majority, up to its last log
    /// index; other nodes do nothing.
    pub open spec fn leader_commit_step(self) -> ManagerView {
        if self.state != NodeState::Leader {
            self
        } else {
            ManagerView { storage: self.commit_scan(self.storage.last_log_index as int), ..self }
        }
    }

    /// Once an appended entry has gone out to the peers: a node without
    /// peers commits up to it; otherwise the leader advances by majority.
    pub open spec fn finish_append_step(self, entry_id: u64) -> ManagerView {
        if self.peers.len() == 0 {
            ManagerView { storage: self.storage.commit_up_to(entry_id), ..self }
        } else {
            self.leader_commit_step()
        }
    }

    /// A follower that has heard nothing for longer than its timeout should
    /// start an election.
    pub open spec fn election_due(self, now: u64) -> bool {
        self.state == NodeState::Follower && sat_sub(now, self.last_heartbeat) > self.election_timeout
    }
}


/// Draws a number with `rand::random::<u64>()`. Any value may come back.
#[verifier::external_body]
fn random_u64() -> u64 {
    rand::random::<u64>()
}

/// The name under which a vote from the peer at `addr` is counted: `peer_`
/// followed by the address.
fn vote_name_for(addr: &String) -> (n: String)
    ensures
        n@ == peer_vote_name(addr@),
{
    let mut n = "peer_".to_owned();
    n.append(addr.as_str());
    n
}

/// What a node does with a message it received.
#[derive(Debug)]
pub enum Reaction {
    /// Send this reply.
    Reply(Message),
    /// The node leads: append this command (`start_append`), replicate it
    /// to the peers, finish (`finish_append`), and reply with
    /// `client_append_response`.
    AppendCommand(String),
    /// The message is of a kind a node does not accept.
    Unexpected,
}

/// The replication state machine of one node: its role, term, vote, log,
/// and what it knows of its peers.
pub struct ReplicationManager {
    node_id: String,
    state: NodeState,
    current_term: u64,
    voted_for: Option<String>,
    storage: Storage,
    peers: Vec<String>,
    leader_id: Option<String>,
    last_heartbeat: u64,
    election_timeout: u64,
    heartbeat_interval: u64,
    next_index: PeerTable,
    match_index: PeerTable,
    votes_received: VoteSet,
}

impl View for ReplicationManager {
    type V = ManagerView;

    closed spec fn view(&self) -> ManagerView {
        ManagerView {
            node_id: self.node_id@,
            state: self.state,
            current_term: self.current_term,
            voted_for: opt_view(self.voted_for),
            storage: self.storage@,
            peers: self.peers@.map_values(|p: String| p@),
            leader_id: opt_view(self.leader_id),
            last_heartbeat: self.last_heartbeat,
            election_timeout: self.election_timeout,
            heartbeat_interval: self.heartbeat_interval,
            next_index: self.next_index@,
            match_index: self.match_index@,
            votes_received: self.votes_received@,
        }
    }
}

impl ReplicationManager {
    /// The parts keep their own invariants.
    pub closed spec fn wf(&self) -> bool {
        &&& self.storage.wf()
        &&& self.next_index.wf()
        &&& self.match_index.wf()
        &&& self.votes_received.wf()
    }

    /// A follower with no vote and no known leader, at the term its storage
    /// records, with the election timeout drawn from `seed`.
    pub fn with_timeout_seed(node_id: String, storage: Storage, peers: Vec<String>, now: u64, seed: u64) -> (m: Self)
        requires
            storage.wf(),
        ensures
            m.wf(),
            m@ == (ManagerView {
                node_id: node_id@,
                state: NodeState::Follower,
                current_term: storage@.current_term,
                voted_for: None,
                storage: storage@,
                peers: peers@.map_values(|p: String| p@),
                leader_id: None,
                last_heartbeat: now,
                election_timeout: election_timeout_from(seed),
                heartbeat_interval: HEARTBEAT_INTERVAL_NANOS,
                next_index: Map::empty(),
                match_index: Map::empty(),
                votes_received: Set::empty(),
            }),
    {
        let current_term = storage.get_current_term();
        let timeout_millis: u64 = 150 + seed % 150;
        ReplicationManager {
            node_id,
            state: NodeState::Follower,
            current_term,
            voted_for: None,
            storage,
            peers,
            leader_id: None,
            last_heartbeat: now,
            election_timeout: timeout_millis * 1_000_000,
            heartbeat_interval: HEARTBEAT_INTERVAL_NANOS,
            next_index: PeerTable::new(),
            match_index: PeerTable::new(),
            votes_received: VoteSet::new(),
        }
    }

    /// A new manager, as `with_timeout_seed` makes it from a random seed:
    /// its election timeout lies between 150 and 299 milliseconds.
    pub fn new(node_id: String, storage: Storage, peers: Vec<String>, now: u64) -> (m: Self)
        requires
            storage.wf(),
        ensures
            m.wf(),
            exists|seed: u64|
                m@ == (ManagerView {
                    node_id: node_id@,
                    state: NodeState::Follower,
                    current_term: storage@.current_term,
                    voted_for: None,
                    storage: storage@,
                    peers: peers@.map_values(|p: String| p@),
                    leader_id: None,
                    last_heartbeat: now,
                    election_timeout: election_timeout_from(seed),
                    heartbeat_interval: HEARTBEAT_INTERVAL_NANOS,
                    next_index: Map::empty(),
                    match_index: Map::empty(),
                    votes_received: Set::empty(),
                }),
            150_000_000 <= m@.election_timeout < 300_000_000,
    {
        let seed = random_u64();
        Self::with_timeout_seed(node_id, storage, peers, now, seed)
    }

    /// The node's role.
    pub fn get_state(&self) -> (s: &NodeState)
        ensures
            *s == self@.state,
    {
        &self.state
    }

    /// The node's current term.
    pub fn get_current_term(&self) -> (t: u64)
        ensures
            t == self@.current_term,
    {
        self.current_term
    }

    /// The leader this node knows of, if any.
    pub fn get_leader_id(&self) -> (l: Option<&String>)
        ensures
            match l {
                Some(s) => self@.leader_id == Some(s@),
                None => self@.leader_id is None,
            },
    {
        match &self.leader_id {
            Some(s) => Some(s),
            None => None,
        }
    }

    /// The candidate this node voted for in its current term, if any.
    pub fn get_voted_for(&self) -> (v: Option<&String>)
        ensures
            match v {
                Some(s) => self@.voted_for == Some(s@),
                None => self@.voted_for is None,
            },
    {
        match &self.voted_for {
            Some(s) => Some(s),
            None => None,
        }
    }

    /// This node's id.
    pub fn get_node_id(&self) -> (n: &String)
        ensures
            n@ == self@.node_id,
    {
        &self.node_id
    }

    /// The peers' addresses.
    pub fn get_peers(&self) -> (p: &Vec<String>)
        ensures
            p@.map_values(|x: String| x@) == self@.peers,
    {
        &self.peers
    }

    /// The node's storage.
    pub fn storage(&self) -> (s: &Storage)
        requires
            self.wf(),
        ensures
            s@ == self@.storage,
            s.wf(),
    {
        &self.storage
    }

    /// When the node last heard from a leader or granted a vote.
    pub fn get_last_heartbeat(&self) -> (t: u64)
        ensures
            t == self@.last_heartbeat,
    {
        self.last_heartbeat
    }

    /// The election timeout, in nanoseconds.
    pub fn get_election_timeout(&self) -> (t: u64)
        ensures
            t == self@.election_timeout,
    {
        self.election_timeout
    }

    /// The next index recorded for the peer at `peer`, if any.
    pub fn next_index_of(&self, peer: &String) -> (r: Option<u64>)
        requires
            self.wf(),
        ensures
            r == (if self@.next_index.contains_key(peer@) {
                Some(self@.next_index[peer@])
            } else {
                None
            }),
    {
        self.next_index.get(peer)
    }

    /// The match index recorded for the peer at `peer`, if any.
    pub fn match_index_of(&self, peer: &String) -> (r: Option<u64>)
        requires
            self.wf(),
        ensures
            r == (if self@.match_index.contains_key(peer@) {
                Some(self@.match_index[peer@])
            } else {
                None
            }),
    {
        self.match_index.get(peer)
    }

    /// Whether a vote under `name` has been counted in the current election.
    pub fn has_vote_from(&self, name: &String) -> (b: bool)
        requires
            self.wf(),
        ensures
            b == self@.votes_received.contains(name@),
    {
        self.votes_received.contains(name)
    }

    /// How many distinct votes the current election has counted.
    pub fn vote_count(&self) -> (n: usize)
        requires
            self.wf(),
        ensures
            n == self@.votes_received.len(),
    {
        self.votes_received.len()
    }

    /// Hand out the storage writes queued so far, oldest first.
    pub fn take_pending_writes(&mut self) -> (w: Vec<StorageWrite>)
        requires
            old(self).wf(),
        ensures
            final(self).wf(),
            w@.map_values(|x: StorageWrite| x@) == old(self)@.storage.pending_writes,
            final(self)@ == (ManagerView {
                storage: StorageView { pending_writes: Seq::empty(), ..old(self)@.storage },
                ..old(self)@
            }),
    {
        self.storage.take_pending_writes()
    }

    /// Adopt `term` where it is above the current one.
    fn adopt_term(&mut self, term: u64)
        requires
            old(self).wf(),
        ensures
            final(self).wf(),
            final(self)@ == old(self)@.adopt_term(term),
    {
        if term > self.current_term {
            self.current_term = term;
            self.voted_for = None;
            self.state = NodeState::Follower;
            self.storage.set_current_term(term);
        }
    }

    /// Whether a candidate's log, ending at `(last_log_index,
    /// last_log_term)`, is at least as up to date as this node's.
    pub fn is_log_up_to_date(&self, last_log_index: u64, last_log_term: u64) -> (b: bool)
        requires
            self.wf(),
        ensures
            b == self@.log_up_to_date(last_log_index, last_log_term),
    {
        let our_last_term = self.storage.get_last_log_term();
        let our_last_index = self.storage.get_last_log_index();
        last_log_term > our_last_term || (last_log_term == our_last_term && last_log_index
            >= our_last_index)
    }

    /// Answer a vote request received at time `now`.
    pub fn handle_request_vote(
        &mut self,
        term: u64,
        candidate_id: String,
        last_log_index: u64,
        last_log_term: u64,
        now: u64,
    ) -> (r: Message)
        requires
            old(self).wf(),
        ensures
            final(self).wf(),
            final(self)@ == old(self)@.request_vote_step(
                term,
                candidate_id@,
                last_log_index,
                last_log_term,
                now,
            ).0,
            r == (Message::RequestVoteResponse {
                term: final(self)@.current_term,
                vote_granted: old(self)@.request_vote_step(
                    term,
                    candidate_id@,
                    last_log_index,
                    last_log_term,
                    now,
                ).1,
            }),
    {
        self.adopt_term(term);
        let free_to_vote = match &self.voted_for {
            None => true,
            Some(v) => *v == candidate_id,
        };
        let vote_granted = term >= self.current_term && free_to_vote && self.is_log_up_to_date(
            last_log_index,
            last_log_term,
        );
        if vote_granted {
            self.voted_for = Some(candidate_id);
            self.last_heartbeat = now;
        }
        Message::RequestVoteResponse { term: self.current_term, vote_granted }
    }

    /// Answer a heartbeat received at time `now`.
    pub fn handle_heartbeat(&mut self, term: u64, leader_id: String, now: u64) -> (r: Message)
        requires
            old(self).wf(),
        ensures
            final(self).wf(),
            final(self)@ == old(self)@.heartbeat_step(term, leader_id@, now),
            r == final(self)@.append_reply(true),
    {
        if term >= self.current_term {
            if term > self.current_term {
                self.voted_for = None;
            }
            self.current_term = term;
            self.state = NodeState::Follower;
            self.leader_id = Some(leader_id);
            self.last_heartbeat = now;
            self.storage.set_current_term(term);
        }
        Message::AppendEntriesResponse {
            term: self.current_term,
            success: true,
            match_index: self.storage.get_last_log_index(),
        }
    }

    /// Answer an `AppendEntries` request received at time `now`.
    pub fn handle_append_entries(
        &mut self,
        term: u64,
        leader_id: String,
        prev_log_index: u64,
        prev_log_term: u64,
        entries: Vec<LogEntry>,
        leader_commit: u64,
        now: u64,
    ) -> (r: Message)
        requires
            old(self).wf(),
        ensures
            final(self).wf(),
            final(self)@ == old(self)@.append_entries_step(
                term,
                leader_id@,
                prev_log_index,
                prev_log_term,
                entries@,
                leader_commit,
                now,
            ).0,
            r == final(self)@.append_reply(
                old(self)@.append_entries_step(
                    term,
                    leader_id@,
                    prev_log_index,
                    prev_log_term,
                    entries@,
                    leader_commit,
                    now,
                ).1,
            ),
    {
        self.adopt_term(term);
        self.last_heartbeat = now;
        self.leader_id = Some(leader_id);
        if term < self.current_term {
            return Message::AppendEntriesResponse {
                term: self.current_term,
                success: false,
                match_index: 0,
            };
        }
        if prev_log_index > 0 {
            let consistent = match self.storage.get(prev_log_index) {
                Some(prev_entry) => prev_entry.term == prev_log_term,
                None => false,
            };
            if !consistent {
                return Message::AppendEntriesResponse {
                    term: self.current_term,
                    success: false,
                    match_index: 0,
                };
            }
        }
        if entries.len() > 0 {
            let first_id = entries[0].id;
            let first_term = entries[0].term;
            let conflict = match self.storage.get(first_id) {
                Some(existing) => existing.term != first_term,
                None => false,
            };
            if conflict {
                self.storage.truncate_from(first_id);
            }
            self.storage.append_all(&entries);
        } else {
            assert(self.storage@.append_all(entries@) == self.storage@);
        }
        if leader_commit > self.storage.get_commit_index() {
            let last = self.storage.get_last_log_index();
            let new_commit_index = if leader_commit < last {
                leader_commit
            } else {
                last
            };
            self.storage.commit_up_to(new_commit_index);
        }
        Message::AppendEntriesResponse {
            term: self.current_term,
            success: true,
            match_index: self.storage.get_last_log_index(),
        }
    }

    /// Whether this node should start an election at time `now`.
    pub fn should_start_election(&self, now: u64) -> (b: bool)
        ensures
            b == self@.election_due(now),
    {
        let elapsed = if now >= self.last_heartbeat {
            now - self.last_heartbeat
        } else {
            0
        };
        self.state == NodeState::Follower && elapsed > self.election_timeout
    }

    /// Start an election at time `now`: next term, candidate, own vote; a
    /// node whose own vote is a majority leads at once.
    pub fn start_election(&mut self, now: u64)
        requires
            old(self).wf(),
            old(self)@.current_term < u64::MAX,
        ensures
            final(self).wf(),
            final(self)@ == old(self)@.start_election_step(now),
    {
        self.current_term = self.current_term + 1;
        self.state = NodeState::Candidate;
        self.voted_for = Some(self.node_id.clone());
        self.votes_received.clear();
        self.votes_received.insert(self.node_id.clone());
        self.last_heartbeat = now;
        self.storage.set_current_term(self.current_term);
        let n = self.peers.len();
        proof {
            assert(self@.votes_received =~= Set::<Seq<char>>::empty().insert(self@.node_id));
            assert(self@.votes_received.len() == 1);
        }
        if self.votes_received.len() > n / 2 + n % 2 {
            self.state = NodeState::Leader;
            self.leader_id = Some(self.node_id.clone());
        }
    }

    /// The vote request this node sends each peer in an election.
    pub fn vote_request(&self) -> (r: Message)
        requires
            self.wf(),
        ensures
            r matches Message::RequestVote { term, candidate_id, last_log_index, last_log_term } && term
                == self@.current_term && candidate_id@ == self@.node_id && last_log_index
                == self@.storage.last_log_index && last_log_term == self@.storage.last_log_term(),
    {
        Message::RequestVote {
            term: self.current_term,
            candidate_id: self.node_id.clone(),
            last_log_index: self.storage.get_last_log_index(),
            last_log_term: self.storage.get_last_log_term(),
        }
    }

    /// Take in the reply of the peer at position `peer` to a vote request;
    /// returns whether the election is won by it.
    pub fn record_vote_response(&mut self, peer: usize, response: Message) -> (won: bool)
        requires
            old(self).wf(),
            peer < old(self)@.peers.len(),
        ensures
            final(self).wf(),
            (final(self)@, won) == old(self)@.vote_response_step(old(self)@.peers[peer as int], response),
    {
        let granted = match &response {
            Message::RequestVoteResponse { vote_granted, .. } => *vote_granted,
            _ => false,
        };
        if !granted {
            return false;
        }
        let name = vote_name_for(&self.peers[peer]);
        self.votes_received.insert(name);
        let n = self.peers.len();
        if self.votes_received.len() > n / 2 + n % 2 {
            self.state = NodeState::Leader;
            self.leader_id = Some(self.node_id.clone());
            true
        } else {
            false
        }
    }

    /// Become leader: for every peer the next index is set just past the last
    /// log index, and the match index to 0.
    pub fn become_leader(&mut self)
        requires
            old(self).wf(),
            old(self)@.peers.len() > 0 ==> old(self)@.storage.last_log_index < u64::MAX,
        ensures
            final(self).wf(),
            final(self)@ == old(self)@.become_leader_step(),
    {
        let ghost s0 = self@;
        self.state = NodeState::Leader;
        self.leader_id = Some(self.node_id.clone());
        let n = self.peers.len();
        if n == 0 {
            assert(ManagerView::fill(s0.next_index, s0.peers, (s0.storage.last_log_index + 1) as u64) =~= s0.next_index);
            assert(ManagerView::fill(s0.match_index, s0.peers, 0) =~= s0.match_index);
            return;
        }
        let next: u64 = self.storage.get_last_log_index() + 1;
        assert(ManagerView::fill(s0.next_index, s0.peers.subrange(0, 0), next) =~= s0.next_index);
        assert(ManagerView::fill(s0.match_index, s0.peers.subrange(0, 0), 0) =~= s0.match_index);
        let mut i: usize = 0;
        while i < n
            invariant
                i <= n,
                n == self.peers.len(),
                n == s0.peers.len(),
                self.wf(),
                next == (s0.storage.last_log_index + 1) as u64,
                self@ == (ManagerView {
                    state: NodeState::Leader,
                    leader_id: Some(s0.node_id),
                    next_index: ManagerView::fill(s0.next_index, s0.peers.subrange(0, i as int), next),
                    match_index: ManagerView::fill(s0.match_index, s0.peers.subrange(0, i as int), 0),
                    ..s0
                }),
            decreases n - i,
        {
            let ghost before = self@;
            let peer = self.peers[i].clone();
            let peer2 = self.peers[i].clone();
            self.next_index.insert(peer, next);
            self.match_index.insert(peer2, 0);
            proof {
                let ks0 = s0.peers.subrange(0, i as int);
                let ks1 = s0.peers.subrange(0, i + 1);
                assert(s0.peers[i as int] == self.peers@[i as int]@);
                assert(ks1 =~= ks0.push(s0.peers[i as int]));
                assert forall|x: Seq<char>| ks1.contains(x) <==> (ks0.contains(x) || x == s0.peers[i as int]) by {
                    if ks1.contains(x) {
                        let j = choose|j: int| 0 <= j < ks1.len() && ks1[j] == x;
                        if j < i {
                            assert(ks0[j] == x);
                        }
                    }
                    if ks0.contains(x) {
                        let j = choose|j: int| 0 <= j < ks0.len() && ks0[j] == x;
                        assert(ks1[j] == x);
                    }
                    if x == s0.peers[i as int] {
                        assert(ks1[i as int] == x);
                    }
                }
                assert(ManagerView::fill(s0.next_index, ks1, next) =~= ManagerView::fill(s0.next_index, ks0, next).insert(s0.peers[i as int], next));
                assert(ManagerView::fill(s0.match_index, ks1, 0) =~= ManagerView::fill(s0.match_index, ks0, 0).insert(s0.peers[i as int], 0));
            }
            i += 1;
        }
        assert(s0.peers.subrange(0, n as int) =~= s0.peers);
    }

    /// The `AppendEntries` request carrying `entries` for the peer at `peer`.
    fn request_for(&self, peer: &String, entries: Vec<LogEntry>) -> (r: Message)
        requires
            self.wf(),
        ensures
            self@.is_request_for(r, peer@, entries@),
    {
        let next = match self.next_index.get(peer) {
            Some(x) => x,
            None => 1,
        };
        let prev_log_index = if next >= 1 {
            next - 1
        } else {
            0
        };
        let prev_log_term = if prev_log_index > 0 {
            match self.storage.get(prev_log_index) {
                Some(e) => e.term,
                None => 0,
            }
        } else {
            0
        };
        Message::AppendEntries {
            term: self.current_term,
            leader_id: self.node_id.clone(),
            prev_log_index,
            prev_log_term,
            entries,
            leader_commit: self.storage.get_commit_index(),
        }
    }

    /// The heartbeats a leader sends, one per peer in order; none from a
    /// node that does not lead.
    pub fn heartbeat_messages(&self) -> (r: Vec<Message>)
        requires
            self.wf(),
        ensures
            self@.state != NodeState::Leader ==> r.len() == 0,
            self@.state == NodeState::Leader ==> r.len() == self@.peers.len() && forall|i: int|
                0 <= i < r.len() ==> self@.is_request_for(#[trigger] r@[i], self@.peers[i], Seq::empty()),
    {
        let mut r: Vec<Message> = Vec::new();
        if self.state != NodeState::Leader {
            return r;
        }
        let mut i: usize = 0;
        while i < self.peers.len()
            invariant
                i <= self.peers.len(),
                self.wf(),
                self@.state == NodeState::Leader,
                r.len() == i,
                forall|j: int|
                    0 <= j < i ==> self@.is_request_for(#[trigger] r@[j], self@.peers[j], Seq::empty()),
            decreases self.peers.len() - i,
        {
            let m = self.request_for(&self.peers[i], Vec::new());
            r.push(m);
            proof {
                assert(r@[i as int] == m);
                assert(self@.peers[i as int] == self.peers@[i as int]@);
            }
            i += 1;
        }
        r
    }

    /// The replication request a leader sends the peer at position `peer`:
    /// every entry from the peer's next index on; none where there is no such
    /// entry or the node does not lead.
    pub fn replication_request(&self, peer: usize) -> (r: Option<Message>)
        requires
            self.wf(),
            peer < self@.peers.len(),
        ensures
            ({
                let p = self@.peers[peer as int];
                if self@.state != NodeState::Leader || self@.entries_owed(p).len() == 0 {
                    r is None
                } else {
                    r is Some && self@.is_request_for(r->0, p, self@.entries_owed(p))
                }
            }),
    {
        if self.state != NodeState::Leader {
            return None;
        }
        let next = match self.next_index.get(&self.peers[peer]) {
            Some(x) => x,
            None => 1,
        };
        let entries = self.storage.get_entries_from(next);
        proof {
            assert(self@.peers[peer as int] == self.peers@[peer as int]@);
        }
        if entries.len() == 0 {
            None
        } else {
            Some(self.request_for(&self.peers[peer], entries))
        }
    }

    /// Take in the reply of the peer at position `peer` to a replication
    /// request.
    pub fn record_replication_response(&mut self, peer: usize, response: Message)
        requires
            old(self).wf(),
            peer < old(self)@.peers.len(),
            response matches Message::AppendEntriesResponse { success, match_index, .. } ==> (success
                ==> match_index < u64::MAX),
        ensures
            final(self).wf(),
            final(self)@ == old(self)@.replication_response_step(old(self)@.peers[peer as int], response),
    {
        proof {
            assert(self@.peers[peer as int] == self.peers@[peer as int]@);
        }
        match response {
            Message::AppendEntriesResponse { term: _, success, match_index } => {
                if success {
                    let key = self.peers[peer].clone();
                    let key2 = self.peers[peer].clone();
                    self.next_index.insert(key, match_index + 1);
                    self.match_index.insert(key2, match_index);
                } else {
                    let current_next = match self.next_index.get(&self.peers[peer]) {
                        Some(x) => x,
                        None => 1,
                    };
                    if current_next > 1 {
                        let key = self.peers[peer].clone();
                        self.next_index.insert(key, current_next - 1);
                    }
                }
            },
            _ => {},
        }
    }

    /// As leader, commit up to the highest index held by a majority whose
    /// entry is of the current term, examining each index above the commit
    /// index in turn; other nodes do nothing.
    pub fn update_commit_index(&mut self)
        requires
            old(self).wf(),
        ensures
            final(self).wf(),
            final(self)@ == old(self)@.leader_commit_step(),
    {
        if self.state != NodeState::Leader {
            return;
        }
        let ghost s0 = self@;
        let ci = self.storage.get_commit_index();
        let last = self.storage.get_last_log_index();
        let len = self.peers.len();
        let need: usize = len / 2 + len % 2;
        let mut n: u64 = ci;
        while n < last
            invariant
                ci == s0.storage.commit_index,
                last == s0.storage.last_log_index,
                ci <= n,
                n <= last || n == ci,
                need == (s0.peers.len() + 1) / 2,
                self.wf(),
                self@ == (ManagerView { storage: s0.commit_scan(n as int), ..s0 }),
            decreases last - n,
        {
            n = n + 1;
            let c = self.match_index.count_at_least(n);
            if c >= need {
                let qualifies = match self.storage.get(n) {
                    Some(e) => e.term == self.current_term,
                    None => false,
                };
                if qualifies {
                    self.storage.commit_up_to(n);
                }
            }
        }
    }

    /// As leader, append a command to the log under the next index, stamped
    /// with the current term and time; returns that index. A node that does
    /// not lead changes nothing and returns `None`.
    pub fn start_append(&mut self, command: String) -> (r: Option<u64>)
        requires
            old(self).wf(),
            old(self)@.state == NodeState::Leader ==> old(self)@.storage.last_log_index < u64::MAX,
        ensures
            final(self).wf(),
            old(self)@.state != NodeState::Leader ==> r is None && final(self)@ == old(self)@,
            old(self)@.state == NodeState::Leader ==> r == Some((old(self)@.storage.last_log_index + 1) as u64)
                && exists|e: LogEntry|
                e.id == r->0 && e.term == old(self)@.current_term && e.command == (Command::Operation {
                    data: command,
                }) && !e.committed && final(self)@ == (ManagerView {
                    storage: old(self)@.storage.append(e),
                    ..old(self)@
                }),
    {
        if self.state != NodeState::Leader {
            return None;
        }
        let entry_id = self.storage.get_last_log_index() + 1;
        let entry = LogEntry::new(entry_id, self.current_term, Command::operation(command));
        let ghost e = entry;
        self.storage.append(entry);
        assert(self@ == (ManagerView { storage: old(self)@.storage.append(e), ..old(self)@ }));
        Some(entry_id)
    }

    /// After an appended entry has gone out to the peers: commit it at once
    /// where the node has no peers, else advance the commit index by majority.
    pub fn finish_append(&mut self, entry_id: u64)
        requires
            old(self).wf(),
        ensures
            final(self).wf(),
            final(self)@ == old(self)@.finish_append_step(entry_id),
    {
        if self.peers.len() == 0 {
            self.storage.commit_up_to(entry_id);
        } else {
            self.update_commit_index();
        }
    }

    /// The reply to a client's append request: whether it succeeded, and the
    /// leader this node knows of.
    pub fn client_append_response(&self, success: bool) -> (r: Message)
        ensures
            r matches Message::ClientAppendResponse { success: s, leader_id } && s == success && opt_view(
                leader_id,
            ) == self@.leader_id,
    {
        Message::ClientAppendResponse { success, leader_id: clone_opt_string(&self.leader_id) }
    }

    /// React to a message received at time `now`.
    pub fn handle_message(&mut self, message: Message, now: u64) -> (r: Reaction)
        requires
            old(self).wf(),
        ensures
            final(self).wf(),
            match message {
                Message::AppendEntries {
                    term,
                    leader_id,
                    prev_log_index,
                    prev_log_term,
                    entries,
                    leader_commit,
                } => {
                    let step = old(self)@.append_entries_step(
                        term,
                        leader_id@,
                        prev_log_index,
                        prev_log_term,
                        entries@,
                        leader_commit,
                        now,
                    );
                    final(self)@ == step.0 && r == Reaction::Reply(step.0.append_reply(step.1))
                },
                Message::RequestVote { term, candidate_id, last_log_index, last_log_term } => {
                    let step = old(self)@.request_vote_step(
                        term,
                        candidate_id@,
                        last_log_index,
                        last_log_term,
                        now,
                    );
                    final(self)@ == step.0 && r == Reaction::Reply(
                        Message::RequestVoteResponse { term: step.0.current_term, vote_granted: step.1 },
                    )
                },
                Message::ClientAppend { command } => {
                    &&& final(self)@ == old(self)@
                    &&& old(self)@.state == NodeState::Leader ==> r == Reaction::AppendCommand(command)
                    &&& old(self)@.state != NodeState::Leader ==> {
                        &&& r matches Reaction::Reply(Message::ClientAppendResponse { success, leader_id })
                        &&& !success
                        &&& opt_view(leader_id) == old(self)@.leader_id
                    }
                },
                Message::ClientQuery => {
                    &&& final(self)@ == old(self)@
                    &&& r matches Reaction::Reply(Message::ClientQueryResponse { entries, leader_id })
                    &&& entries@ == sorted_listing(old(self)@.storage.entries)
                    &&& leader_id@ == (match old(self)@.leader_id {
                        Some(l) => l,
                        None => "unknown"@,
                    })
                },
                Message::Heartbeat { term, leader_id } => {
                    let s = old(self)@.heartbeat_step(term, leader_id@, now);
                    final(self)@ == s && r == Reaction::Reply(s.append_reply(true))
                },
                _ => final(self)@ == old(self)@ && r == Reaction::Unexpected,
            },
    {
        match message {
            Message::AppendEntries {
                term,
                leader_id,
                prev_log_index,
                prev_log_term,
                entries,
                leader_commit,
            } => Reaction::Reply(
                self.handle_append_entries(
                    term,
                    leader_id,
                    prev_log_index,
                    prev_log_term,
                    entries,
                    leader_commit,
                    now,
                ),
            ),
            Message::RequestVote { term, candidate_id, last_log_index, last_log_term } => Reaction::Reply(
                self.handle_request_vote(term, candidate_id, last_log_index, last_log_term, now),
            ),
            Message::ClientAppend { command } => {
                if self.state == NodeState::Leader {
                    Reaction::AppendCommand(command)
                } else {
                    Reaction::Reply(self.client_append_response(false))
                }
            },
            Message::ClientQuery => {
                let leader_id = match &self.leader_id {
                    Some(l) => l.clone(),
                    None => "unknown".to_owned(),
                };
                Reaction::Reply(
                    Message::ClientQueryResponse { entries: self.storage.get_all_entries(), leader_id },
                )
            },
            Message::Heartbeat { term, leader_id } => Reaction::Reply(
                self.handle_heartbeat(term, leader_id, now),
            ),
            _ => Reaction::Unexpected,
        }
    }
}

} // verus!
