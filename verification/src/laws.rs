//! Properties that hold across the operations of the library, proved from
//! the models the operations' contracts speak of.

use vstd::prelude::*;
use crate::log_entry::LogEntry;
use crate::network::Message;
use crate::replication::{ManagerView, NodeState};
use crate::peer_table::count_at_least;
use crate::storage::{
    entries_in,
    highest_committed,
    is_max_key,
    max_key,
    lemma_max_key_is,
    lemma_finite_has_max,
    lemma_entry_map_concat,
    lemma_apply_appends,
    lemma_listing_newly_committed,
    newly_committed_map,
    lemma_sorted_listing_is,
    ids_increasing,
    commit_range,
    committed,
    FileImage,
    StorageView,
    WriteView,
    apply_write,
    apply_writes,
    entry_map,
    files_describe,
    is_listing,
    lemma_listing_before,
    sorted_listing,
    entries_before,
};

verus! {

// ---------------------------------------------------------------------------
// The log held by a storage.
// ---------------------------------------------------------------------------

/// A read gives back what the last write under that id wrote, and every
/// other id reads as before.
pub proof fn law_read_after_append(st: StorageView, e: LogEntry, k: u64)
    ensures
        st.append(e).get(e.id) == Some(e),
        k != e.id ==> st.append(e).get(k) == st.get(k),
        st.append(e).last_log_index >= e.id,
        st.append(e).last_log_index >= st.last_log_index,
{
}

/// After a cut at `index`, no entry at or above `index` remains, every entry
/// below it reads as before, and the last log index is below `index` (or
/// 0).
pub proof fn law_truncate_keeps_prefix(st: StorageView, index: u64, k: u64)
    ensures
        st.truncate_from(index).get(k) == (if k < index {
            st.get(k)
        } else {
            None::<LogEntry>
        }),
        st.truncate_from(index).last_log_index == 0 || st.truncate_from(index).last_log_index < index,
{
    let kept = entries_before(st.entries, index);
    if exists|j: u64| crate::storage::is_max_key(kept, j) {
        let j = choose|j: u64| crate::storage::is_max_key(kept, j);
        assert(kept.contains_key(j));
    }
}

/// Committing never un-commits: every id stays, with the same term,
/// timestamp and command; an entry committed before stays committed; every
/// entry in `(commit_index, index]` ends committed. The commit index never
/// falls, and where it moves it lands on an entry of the log in
/// `(commit_index, index]`.
pub proof fn law_commit_only_marks(st: StorageView, index: u64, k: u64)
    ensures
        st.commit_up_to(index).entries.contains_key(k) == st.entries.contains_key(k),
        st.entries.contains_key(k) ==> {
            let a = st.entries[k];
            let b = st.commit_up_to(index).entries[k];
            &&& b.id == a.id && b.term == a.term && b.timestamp == a.timestamp && b.command == a.command
            &&& a.committed ==> b.committed
            &&& st.commit_index < k <= index ==> b.committed
        },
        st.commit_up_to(index).commit_index >= st.commit_index,
        st.commit_up_to(index).commit_index != st.commit_index ==> {
            let c = st.commit_up_to(index).commit_index;
            &&& st.entries.contains_key(c)
            &&& st.commit_index < c <= index
        },
{
    let r = entries_in(st.entries, st.commit_index, index);
    if exists|j: u64| is_max_key(r, j) {
        let j = choose|j: u64| is_max_key(r, j);
        assert(r.contains_key(j));
    }
}

/// The commit index is the id of the highest committed entry: where that
/// holds of a log, it still holds after a commit.
pub proof fn law_commit_keeps_highest_committed(st: StorageView, index: u64)
    requires
        st.entries.dom().finite(),
        st.commit_index == highest_committed(st.entries),
    ensures
        st.commit_up_to(index).commit_index == highest_committed(st.commit_up_to(index).entries),
{
    let m = st.entries;
    let lo = st.commit_index;
    let c0 = Map::new(|k: u64| m.contains_key(k) && m[k].committed, |k: u64| m[k]);
    let m1 = commit_range(m, lo, index);
    let c1 = Map::new(|k: u64| m1.contains_key(k) && m1[k].committed, |k: u64| m1[k]);
    let r = entries_in(m, lo, index);
    assert(c0.dom() =~= m.dom().filter(|k: u64| m[k].committed));
    m.dom().lemma_len_filter(|k: u64| m[k].committed);
    // every id committed before lies at or below the commit index
    assert forall|k: u64| c0.contains_key(k) implies k <= lo by {
        assert(c0.dom().len() > 0) by {
            if c0.dom().len() == 0 {
                assert(c0.dom().contains(k));
            }
        }
        lemma_finite_has_max(c0);
        let t = choose|t: u64| is_max_key(c0, t);
        lemma_max_key_is(c0, t);
    }
    if exists|j: u64| r.contains_key(j) {
        assert(r.dom() =~= m.dom().filter(|k: u64| lo < k <= index));
        m.dom().lemma_len_filter(|k: u64| lo < k <= index);
        let j = choose|j: u64| r.contains_key(j);
        assert(r.dom().contains(j));
        lemma_finite_has_max(r);
        let top = choose|t: u64| is_max_key(r, t);
        lemma_max_key_is(r, top);
        assert forall|k: u64| c1.contains_key(k) implies k <= top by {
            if !(lo < k <= index) {
                assert(c0.contains_key(k));
            } else {
                assert(r.contains_key(k));
            }
        }
        assert(c1.contains_key(top));
        assert(is_max_key(c1, top));
        lemma_max_key_is(c1, top);
    } else {
        assert(forall|k: u64| !r.contains_key(k));
        crate::storage::lemma_max_key_none(r);
        assert forall|k: u64| m.contains_key(k) implies m1[k] == m[k] by {
            assert(!r.contains_key(k));
        }
        assert(c1 =~= c0);
    }
}

/// A cut keeps the commit index on the highest committed id: where that
/// holds of a log, it still holds after a cut.
pub proof fn law_truncate_keeps_highest_committed(st: StorageView, index: u64)
    requires
        st.entries.dom().finite(),
        st.commit_index == highest_committed(st.entries),
    ensures
        st.truncate_from(index).commit_index == highest_committed(st.truncate_from(index).entries),
{
    let m = st.entries;
    let kept = entries_before(m, index);
    let c0 = Map::new(|k: u64| m.contains_key(k) && m[k].committed, |k: u64| m[k]);
    let c1 = Map::new(|k: u64| kept.contains_key(k) && kept[k].committed, |k: u64| kept[k]);
    let hc = highest_committed(kept);
    assert(c0.dom() =~= m.dom().filter(|k: u64| m[k].committed));
    m.dom().lemma_len_filter(|k: u64| m[k].committed);
    if exists|t: u64| is_max_key(c1, t) {
        let t = choose|t: u64| is_max_key(c1, t);
        lemma_max_key_is(c1, t);
        assert(c0.contains_key(t));
        assert(c0.dom().len() > 0) by {
            assert(c0.dom().contains(t));
        }
        lemma_finite_has_max(c0);
        let u = choose|u: u64| is_max_key(c0, u);
        lemma_max_key_is(c0, u);
        assert(hc <= st.commit_index);
    }
}

// ---------------------------------------------------------------------------
// The files follow the storage.
// ---------------------------------------------------------------------------

proof fn lemma_apply_two(f: FileImage, ws: Seq<WriteView>, a: WriteView, b: WriteView)
    ensures
        apply_writes(f, ws.push(a).push(b)) == apply_write(apply_write(apply_writes(f, ws), a), b),
{
    assert(ws.push(a).push(b).drop_last() =~= ws.push(a));
    assert(ws.push(a).push(b).last() == b);
    lemma_apply_one(f, ws, a);
}

proof fn lemma_apply_one(f: FileImage, ws: Seq<WriteView>, a: WriteView)
    ensures
        apply_writes(f, ws.push(a)) == apply_write(apply_writes(f, ws), a),
{
    assert(ws.push(a).drop_last() =~= ws);
    assert(ws.push(a).last() == a);
}

/// Crash recovery: where the files, once every queued write reaches them,
/// describe the storage, they still do after an append, once the append's
/// writes reach them too.
pub proof fn law_files_follow_append(f: FileImage, st: StorageView, e: LogEntry)
    requires
        files_describe(apply_writes(f, st.pending_writes), st),
    ensures
        files_describe(apply_writes(f, st.append(e).pending_writes), st.append(e)),
{
    let s2 = st.append(e);
    lemma_apply_two(f, st.pending_writes, WriteView::AppendEntry(e), WriteView::SaveMetadata(s2.metadata()));
    let g = apply_writes(f, st.pending_writes);
    let h = apply_writes(f, s2.pending_writes);
    assert(h.log == g.log.push(e));
    assert(h.log.drop_last() =~= g.log);
    assert(entry_map(h.log) == entry_map(g.log).insert(e.id, e));
    assert(entry_map(h.log).dom() =~= s2.entries.dom());
}

/// Crash recovery: a saved term reaches the metadata file, and the log file
/// is untouched.
pub proof fn law_files_follow_set_term(f: FileImage, st: StorageView, term: u64)
    requires
        files_describe(apply_writes(f, st.pending_writes), st),
    ensures
        files_describe(apply_writes(f, st.set_current_term(term).pending_writes), st.set_current_term(term)),
{
    let s2 = st.set_current_term(term);
    lemma_apply_one(f, st.pending_writes, WriteView::SaveMetadata(s2.metadata()));
}

/// Crash recovery: the entries a commit marks afresh are written again, so
/// that restored they read committed, and the metadata follows. (Every
/// storage's log has an increasing listing: see
/// `Storage::lemma_entries_listed`.)
pub proof fn law_files_follow_commit(f: FileImage, st: StorageView, index: u64)
    requires
        is_listing(sorted_listing(st.entries), st.entries),
        files_describe(apply_writes(f, st.pending_writes), st),
    ensures
        files_describe(apply_writes(f, st.commit_up_to(index).pending_writes), st.commit_up_to(index)),
{
    let s2 = st.commit_up_to(index);
    let fresh = st.newly_committed(index);
    let ws = st.pending_writes + fresh.map_values(|e: LogEntry| WriteView::AppendEntry(e));
    lemma_apply_one(f, ws, WriteView::SaveMetadata(s2.metadata()));
    lemma_apply_appends(f, st.pending_writes, fresh);
    let g = apply_writes(f, st.pending_writes);
    lemma_entry_map_concat(g.log, fresh);
    lemma_listing_newly_committed(st.entries, st.commit_index, index);
    assert(entry_map(fresh) == newly_committed_map(st.entries, st.commit_index, index));
    assert(st.entries.union_prefer_right(newly_committed_map(st.entries, st.commit_index, index))
        =~= s2.entries);
}

/// Crash recovery: after a cut, the log file is rewritten with the entries
/// kept, and the metadata follows. (Every storage's log has an increasing
/// listing: see `Storage::lemma_entries_listed`.)
pub proof fn law_files_follow_truncate(f: FileImage, st: StorageView, index: u64)
    requires
        is_listing(sorted_listing(st.entries), st.entries),
        files_describe(apply_writes(f, st.pending_writes), st),
    ensures
        files_describe(apply_writes(f, st.truncate_from(index).pending_writes), st.truncate_from(index)),
{
    let s2 = st.truncate_from(index);
    let kept = entries_before(st.entries, index);
    lemma_listing_before(st.entries, index);
    lemma_apply_two(
        f,
        st.pending_writes,
        WriteView::RewriteLog(sorted_listing(kept)),
        WriteView::SaveMetadata(s2.metadata()),
    );
    let h = apply_writes(f, s2.pending_writes);
    assert(h.log == sorted_listing(kept));
    assert(entry_map(h.log) == kept);
}

// ---------------------------------------------------------------------------
// Elections and replication.
// ---------------------------------------------------------------------------

/// A node votes at most once per term: having voted for `v` in its current
/// term, it refuses every other candidate asking in that term.
pub proof fn law_vote_is_exclusive(
    s: ManagerView,
    v: Seq<char>,
    candidate: Seq<char>,
    last_log_index: u64,
    last_log_term: u64,
    now: u64,
)
    requires
        s.voted_for == Some(v),
        candidate != v,
    ensures
        !s.request_vote_step(s.current_term, candidate, last_log_index, last_log_term, now).1,
        s.request_vote_step(s.current_term, candidate, last_log_index, last_log_term, now).0.voted_for
            == Some(v),
{
}

/// Two candidates asking one node in the same term cannot both be granted
/// its vote.
pub proof fn law_one_vote_per_term(
    s: ManagerView,
    term: u64,
    c1: Seq<char>,
    c2: Seq<char>,
    i1: u64,
    t1: u64,
    i2: u64,
    t2: u64,
    now1: u64,
    now2: u64,
)
    requires
        c1 != c2,
    ensures
        ({
            let (s1, g1) = s.request_vote_step(term, c1, i1, t1, now1);
            let (s2, g2) = s1.request_vote_step(term, c2, i2, t2, now2);
            !(g1 && g2)
        }),
{
}

/// Terms never go down: no step of the node lowers its current term.
pub proof fn law_terms_never_decrease(
    s: ManagerView,
    term: u64,
    who: Seq<char>,
    a: u64,
    b: u64,
    entries: Seq<LogEntry>,
    c: u64,
    now: u64,
    response: Message,
    entry_id: u64,
)
    requires
        s.current_term < u64::MAX,
    ensures
        s.request_vote_step(term, who, a, b, now).0.current_term >= s.current_term,
        s.append_entries_step(term, who, a, b, entries, c, now).0.current_term >= s.current_term,
        s.heartbeat_step(term, who, now).current_term >= s.current_term,
        s.start_election_step(now).current_term > s.current_term,
        s.vote_response_step(who, response).0.current_term == s.current_term,
        s.become_leader_step().current_term == s.current_term,
        s.replication_response_step(who, response).current_term == s.current_term,
        s.finish_append_step(entry_id).current_term == s.current_term,
{
}

/// A request from an older term is refused: the node keeps its term and its
/// log, and grants no vote.
pub proof fn law_stale_term_refused(
    s: ManagerView,
    term: u64,
    who: Seq<char>,
    a: u64,
    b: u64,
    entries: Seq<LogEntry>,
    c: u64,
    now: u64,
)
    requires
        term < s.current_term,
    ensures
        !s.append_entries_step(term, who, a, b, entries, c, now).1,
        s.append_entries_step(term, who, a, b, entries, c, now).0.current_term == s.current_term,
        s.append_entries_step(term, who, a, b, entries, c, now).0.storage == s.storage,
        !s.request_vote_step(term, who, a, b, now).1,
        s.request_vote_step(term, who, a, b, now).0 == s,
{
}

/// Log matching: a follower whose log disagrees with the leader's at the
/// previous index refuses the entries and leaves its log as it was.
pub proof fn law_mismatch_refused(
    s: ManagerView,
    term: u64,
    leader: Seq<char>,
    prev_log_index: u64,
    prev_log_term: u64,
    entries: Seq<LogEntry>,
    c: u64,
    now: u64,
)
    requires
        !s.log_matches(prev_log_index, prev_log_term),
    ensures
        !s.append_entries_step(term, leader, prev_log_index, prev_log_term, entries, c, now).1,
        s.append_entries_step(term, leader, prev_log_index, prev_log_term, entries, c, now).0.storage.entries
            == s.storage.entries,
        s.append_entries_step(term, leader, prev_log_index, prev_log_term, entries, c, now).0.storage.commit_index
            == s.storage.commit_index,
        s.append_entries_step(term, leader, prev_log_index, prev_log_term, entries, c, now).0.storage.last_log_index
            == s.storage.last_log_index,
{
}

/// Hearing from a leader of a current term, or granting a vote, resets the
/// election timer: right after it no election is due.
pub proof fn law_contact_defers_election(
    s: ManagerView,
    term: u64,
    who: Seq<char>,
    a: u64,
    b: u64,
    entries: Seq<LogEntry>,
    c: u64,
    now: u64,
)
    ensures
        !s.append_entries_step(term, who, a, b, entries, c, now).0.election_due(now),
        term >= s.current_term ==> !s.heartbeat_step(term, who, now).election_due(now),
        s.request_vote_step(term, who, a, b, now).1 ==> !s.request_vote_step(
            term,
            who,
            a,
            b,
            now,
        ).0.election_due(now),
{
}

/// A node wins an election only with the votes of more than half of the
/// cluster, itself included, and then leads.
pub proof fn law_win_needs_majority(s: ManagerView, peer: Seq<char>, response: Message)
    ensures
        s.vote_response_step(peer, response).1 ==> {
            let t = s.vote_response_step(peer, response).0;
            &&& t.votes_received.len() > (s.peers.len() + 1) / 2
            &&& t.state == NodeState::Leader
            &&& t.leader_id == Some(s.node_id)
        },
{
}

proof fn lemma_commit_scan(s: ManagerView, hi: int)
    requires
        hi <= u64::MAX,
    ensures
        s.commit_scan(hi).commit_index >= s.storage.commit_index,
        s.commit_scan(hi).entries.dom() == s.storage.entries.dom(),
        forall|k: u64| #[trigger] s.commit_scan(hi).entries.contains_key(k) ==> s.commit_scan(hi).entries[k].term
            == s.storage.entries[k].term,
        s.commit_scan(hi).commit_index != s.storage.commit_index ==> {
            let n = s.commit_scan(hi).commit_index;
            &&& s.quorum(n)
            &&& s.storage.entries.contains_key(n)
            &&& s.storage.entries[n].term == s.current_term
            &&& n <= hi
        },
    decreases hi - s.storage.commit_index,
{
    if hi > s.storage.commit_index {
        lemma_commit_scan(s, hi - 1);
        let st = s.commit_scan(hi - 1);
        let n = hi as u64;
        if s.quorum(n) && st.entries.contains_key(n) && st.entries[n].term == s.current_term {
            let r = entries_in(st.entries, st.commit_index, n);
            assert(r.contains_key(n));
            assert(is_max_key(r, n));
            lemma_max_key_is(r, n);
            assert(st.commit_up_to(n).entries.dom() =~= st.entries.dom());
        }
    }
}

/// A leader commits only by majority: where its commit index moves, it moves
/// up, to an index that a majority of the cluster holds and whose entry is of
/// the leader's current term; no entry is added or dropped.
pub proof fn law_commit_needs_majority(s: ManagerView)
    ensures
        s.leader_commit_step().storage.commit_index >= s.storage.commit_index,
        s.leader_commit_step().storage.entries.dom() == s.storage.entries.dom(),
        s.leader_commit_step().storage.commit_index != s.storage.commit_index ==> {
            let n = s.leader_commit_step().storage.commit_index;
            &&& s.state == NodeState::Leader
            &&& s.quorum(n)
            &&& s.storage.entries.contains_key(n)
            &&& s.storage.entries[n].term == s.current_term
            &&& n <= s.storage.last_log_index
        },
{
    lemma_commit_scan(s, s.storage.last_log_index as int);
}

/// On a node without peers, a command appended above the commit index is
/// committed at once: it is stored under its index, marked committed, and
/// the commit index reaches it.
pub proof fn law_single_node_commits_at_once(s: ManagerView, e: LogEntry)
    requires
        s.peers.len() == 0,
        s.storage.commit_index < e.id,
    ensures
        ({
            let t = ManagerView { storage: s.storage.append(e), ..s }.finish_append_step(e.id);
            &&& t.storage.entries.contains_key(e.id)
            &&& t.storage.entries[e.id] == committed(e)
            &&& t.storage.commit_index == e.id
        }),
{
    let st = s.storage.append(e);
    let r = entries_in(st.entries, st.commit_index, e.id);
    assert(r.contains_key(e.id));
    assert(is_max_key(r, e.id));
    lemma_max_key_is(r, e.id);
}

/// A node without peers wins the election it starts at once: its own vote
/// is a majority. A node with peers does not: it needs their votes.
pub proof fn law_lone_node_wins_at_once(s: ManagerView, now: u64)
    ensures
        s.peers.len() == 0 ==> {
            let t = s.start_election_step(now);
            &&& t.state == NodeState::Leader
            &&& t.leader_id == Some(s.node_id)
            &&& t.voted_for == Some(s.node_id)
        },
        s.peers.len() > 0 ==> s.start_election_step(now).state == NodeState::Candidate,
        s.start_election_step(now).state == NodeState::Leader ==> s.start_election_step(now).votes_received.len()
            > (s.peers.len() + 1) / 2,
{
    assert(Set::<Seq<char>>::empty().insert(s.node_id).len() == 1);
}

/// A newer term clears the vote, which belonged to the older term: after a
/// heartbeat or an `AppendEntries` request of a newer term no vote is
/// recorded, and after a vote request of a newer term at most the vote it
/// was granted.
pub proof fn law_newer_term_clears_vote(
    s: ManagerView,
    term: u64,
    who: Seq<char>,
    a: u64,
    b: u64,
    entries: Seq<LogEntry>,
    c: u64,
    now: u64,
)
    requires
        term > s.current_term,
    ensures
        s.heartbeat_step(term, who, now).voted_for is None,
        s.append_entries_step(term, who, a, b, entries, c, now).0.voted_for is None,
        s.request_vote_step(term, who, a, b, now).0.voted_for is None || s.request_vote_step(
            term,
            who,
            a,
            b,
            now,
        ).0.voted_for == Some(who),
{
}

/// One step of a node: what any of its state-changing operations does.
pub open spec fn is_step(s: ManagerView, t: ManagerView) -> bool {
    ||| t == s
    ||| exists|term: u64, c: Seq<char>, a: u64, b: u64, now: u64|
        #[trigger] s.request_vote_step(term, c, a, b, now).0 == t
    ||| exists|term: u64, l: Seq<char>, a: u64, b: u64, es: Seq<LogEntry>, lc: u64, now: u64|
        #[trigger] s.append_entries_step(term, l, a, b, es, lc, now).0 == t
    ||| exists|term: u64, l: Seq<char>, now: u64| #[trigger] s.heartbeat_step(term, l, now) == t
    ||| s.current_term < u64::MAX && exists|now: u64| #[trigger] s.start_election_step(now) == t
    ||| exists|p: Seq<char>, r: Message| #[trigger] s.vote_response_step(p, r).0 == t
    ||| t == s.become_leader_step()
    ||| exists|p: Seq<char>, r: Message| #[trigger] s.replication_response_step(p, r) == t
    ||| t == s.leader_commit_step()
    ||| exists|id: u64| #[trigger] s.finish_append_step(id) == t
    ||| exists|e: LogEntry| t == (ManagerView { storage: #[trigger] s.storage.append(e), ..s })
    ||| t == (ManagerView { storage: StorageView { pending_writes: Seq::empty(), ..s.storage }, ..s })
}

/// No step lowers the term.
pub proof fn lemma_step_term(s: ManagerView, t: ManagerView)
    requires
        is_step(s, t),
    ensures
        t.current_term >= s.current_term,
{
}

/// A vote, once cast, stays for as long as the term does: no step that keeps
/// the term changes or clears it.
pub proof fn law_vote_stays_in_term(s: ManagerView, t: ManagerView)
    requires
        is_step(s, t),
        s.voted_for is Some,
        t.current_term == s.current_term,
    ensures
        t.voted_for == s.voted_for,
{
}

/// In any run of steps that ends in the term it began with, a node that had
/// voted for `v` still has that vote at every point, and every vote it grants
/// along the way, in that term, goes to `v`: one vote per term.
pub proof fn law_one_vote_per_term_through_steps(tr: Seq<ManagerView>, v: Seq<char>)
    requires
        tr.len() > 0,
        forall|i: int| 0 <= i < tr.len() - 1 ==> is_step(#[trigger] tr[i], tr[i + 1]),
        tr[0].voted_for == Some(v),
        tr.last().current_term == tr[0].current_term,
    ensures
        forall|i: int|
            0 <= i < tr.len() ==> #[trigger] tr[i].voted_for == Some(v) && tr[i].current_term
                == tr[0].current_term,
        forall|i: int, c: Seq<char>, a: u64, b: u64, now: u64|
            0 <= i < tr.len() && #[trigger] tr[i].request_vote_step(tr[0].current_term, c, a, b, now).1
                ==> c == v,
{
    let n = tr.len() as int;
    let t0 = tr[0].current_term;
    // terms only rise along the run
    assert forall|i: int| 0 <= i < n implies #[trigger] tr[i].current_term >= t0 by {
        lemma_terms_rise(tr, i);
    }
    assert forall|i: int| 0 <= i < n implies #[trigger] tr[i].current_term <= tr.last().current_term by {
        lemma_terms_rise_to_end(tr, i);
    }
    lemma_vote_stays(tr, v, n - 1);
    assert forall|i: int, c: Seq<char>, a: u64, b: u64, now: u64|
        0 <= i < n && #[trigger] tr[i].request_vote_step(t0, c, a, b, now).1 implies c == v by {
        assert(tr[i].voted_for == Some(v));
        assert(tr[i].current_term == t0);
    }
}

proof fn lemma_terms_rise(tr: Seq<ManagerView>, i: int)
    requires
        0 <= i < tr.len(),
        forall|j: int| 0 <= j < tr.len() - 1 ==> is_step(#[trigger] tr[j], tr[j + 1]),
    ensures
        tr[i].current_term >= tr[0].current_term,
    decreases i,
{
    if i > 0 {
        lemma_terms_rise(tr, i - 1);
        lemma_step_term(tr[i - 1], tr[i]);
    }
}

proof fn lemma_terms_rise_to_end(tr: Seq<ManagerView>, i: int)
    requires
        0 <= i < tr.len(),
        forall|j: int| 0 <= j < tr.len() - 1 ==> is_step(#[trigger] tr[j], tr[j + 1]),
    ensures
        tr[i].current_term <= tr.last().current_term,
    decreases tr.len() - i,
{
    if i < tr.len() - 1 {
        lemma_terms_rise_to_end(tr, i + 1);
        lemma_step_term(tr[i], tr[i + 1]);
    }
}

proof fn lemma_vote_stays(tr: Seq<ManagerView>, v: Seq<char>, i: int)
    requires
        0 <= i < tr.len(),
        forall|j: int| 0 <= j < tr.len() - 1 ==> is_step(#[trigger] tr[j], tr[j + 1]),
        tr[0].voted_for == Some(v),
        forall|j: int| 0 <= j < tr.len() ==> #[trigger] tr[j].current_term == tr[0].current_term,
    ensures
        forall|j: int| 0 <= j <= i ==> #[trigger] tr[j].voted_for == Some(v),
    decreases i,
{
    if i > 0 {
        lemma_vote_stays(tr, v, i - 1);
        assert(tr[i - 1].voted_for == Some(v));
        assert(tr[i].current_term == tr[i - 1].current_term);
        law_vote_stays_in_term(tr[i - 1], tr[i]);
    }
}

/// What a query reads after appends: on a node without peers whose log is
/// empty, two commands appended in turn (under ids 1 and 2, as
/// `start_append` gives them) are both committed, and the log in id order is
/// exactly those two entries, first then second.
pub proof fn law_query_after_two_appends(s: ManagerView, e1: LogEntry, e2: LogEntry)
    requires
        s.peers.len() == 0,
        s.storage.entries == Map::<u64, LogEntry>::empty(),
        s.storage.commit_index == 0,
        e1.id == 1,
        e2.id == 2,
    ensures
        ({
            let s1 = ManagerView { storage: s.storage.append(e1), ..s }.finish_append_step(1);
            let s2 = ManagerView { storage: s1.storage.append(e2), ..s1 }.finish_append_step(2);
            sorted_listing(s2.storage.entries) == seq![committed(e1), committed(e2)]
        }),
{
    let st1 = s.storage.append(e1);
    let r1 = entries_in(st1.entries, 0, 1);
    assert(r1.contains_key(1));
    assert(is_max_key(r1, 1));
    lemma_max_key_is(r1, 1);
    let s1 = ManagerView { storage: st1, ..s }.finish_append_step(1);
    assert(s1.storage.commit_index == 1);
    assert(s1.storage.entries =~= Map::<u64, LogEntry>::empty().insert(1, committed(e1)));
    let st2 = s1.storage.append(e2);
    let r2 = entries_in(st2.entries, 1, 2);
    assert(r2.contains_key(2));
    assert(is_max_key(r2, 2));
    lemma_max_key_is(r2, 2);
    let s2 = ManagerView { storage: st2, ..s1 }.finish_append_step(2);
    let m = Map::<u64, LogEntry>::empty().insert(1, committed(e1)).insert(2, committed(e2));
    assert(s2.storage.entries =~= m);
    let l = seq![committed(e1), committed(e2)];
    assert(l.drop_last() =~= seq![committed(e1)]);
    assert(seq![committed(e1)].drop_last() =~= Seq::<LogEntry>::empty());
    let l1 = seq![committed(e1)];
    assert(l1.last() == committed(e1));
    assert(entry_map(l1.drop_last()) == Map::<u64, LogEntry>::empty());
    assert(entry_map(l1) == Map::<u64, LogEntry>::empty().insert(1, committed(e1)));
    assert(l.last() == committed(e2));
    assert(entry_map(l) == entry_map(l1).insert(2, committed(e2)));
    assert(entry_map(l) =~= m);
    assert(ids_increasing(l));
    lemma_sorted_listing_is(l, m);
}

// ---------------------------------------------------------------------------
// What each step is for, stated in terms of its inputs.
// ---------------------------------------------------------------------------

/// A vote is never granted to a candidate whose log is behind the voter's:
/// where the candidate's last term is below the voter's last log term, or
/// equal to it with a lower last index, the vote is refused and the voter's
/// vote stays as it was (cleared only by a newer term).
pub proof fn law_stale_log_gets_no_vote(
    s: ManagerView,
    term: u64,
    candidate: Seq<char>,
    last_log_index: u64,
    last_log_term: u64,
    now: u64,
)
    requires
        last_log_term < s.storage.last_log_term() || (last_log_term == s.storage.last_log_term()
            && last_log_index < s.storage.last_log_index),
    ensures
        !s.request_vote_step(term, candidate, last_log_index, last_log_term, now).1,
        s.request_vote_step(term, candidate, last_log_index, last_log_term, now).0.voted_for == (if term
            > s.current_term {
            None
        } else {
            s.voted_for
        }),
{
}

/// A vote is granted only for a term at least the voter's own, to a
/// candidate whose log is at least as up to date, where the voter has not
/// voted for another in that term; the vote is then recorded.
pub proof fn law_vote_granted_only_when_due(
    s: ManagerView,
    term: u64,
    candidate: Seq<char>,
    last_log_index: u64,
    last_log_term: u64,
    now: u64,
)
    ensures
        s.request_vote_step(term, candidate, last_log_index, last_log_term, now).1 ==> {
            &&& term >= s.current_term
            &&& (last_log_term > s.storage.last_log_term() || (last_log_term == s.storage.last_log_term()
                && last_log_index >= s.storage.last_log_index))
            &&& (term > s.current_term || s.voted_for is None || s.voted_for == Some(candidate))
            &&& s.request_vote_step(term, candidate, last_log_index, last_log_term, now).0.voted_for
                == Some(candidate)
        },
{
}

proof fn lemma_majority_arith(peers: nat, held: nat)
    requires
        1 + held >= (peers + 1) / 2 + 1,
    ensures
        2 * (1 + held) > peers + 1,
{
    assert(2 * ((peers + 1) / 2) >= peers) by (nonlinear_arith);
}

/// A leader commits only what strictly more than half of the cluster holds:
/// wherever the commit index moves to `n`, the leader and the peers whose
/// match index is at least `n` make up more than half of the
/// `peers.len() + 1` nodes. This holds of the majority step and of the step
/// that ends an append (a node without peers is a majority alone).
pub proof fn law_commit_by_strict_majority(s: ManagerView, entry_id: u64)
    ensures
        s.leader_commit_step().storage.commit_index != s.storage.commit_index ==> 2 * (1 + count_at_least(
            s.match_index,
            s.leader_commit_step().storage.commit_index,
        )) > s.peers.len() + 1,
        s.finish_append_step(entry_id).storage.commit_index != s.storage.commit_index ==> 2 * (1
            + count_at_least(s.match_index, s.finish_append_step(entry_id).storage.commit_index))
            > s.peers.len() + 1,
{
    law_commit_needs_majority(s);
    let n = s.leader_commit_step().storage.commit_index;
    if n != s.storage.commit_index {
        lemma_majority_arith(s.peers.len(), count_at_least(s.match_index, n));
    }
}

proof fn lemma_commit_up_to_bound(st: StorageView, index: u64)
    ensures
        st.commit_up_to(index).commit_index == st.commit_index || st.commit_up_to(index).commit_index
            <= index,
{
    let r = entries_in(st.entries, st.commit_index, index);
    if exists|j: u64| is_max_key(r, j) {
        let j = choose|j: u64| is_max_key(r, j);
        assert(r.contains_key(j));
    }
}

proof fn lemma_append_all_commit_index(st: StorageView, es: Seq<LogEntry>)
    ensures
        st.append_all(es).commit_index == st.commit_index,
    decreases es.len(),
{
    if es.len() > 0 {
        lemma_append_all_commit_index(st, es.drop_last());
    }
}

/// A follower never commits past what the leader reports committed: after
/// an `AppendEntries` request its commit index is at most the larger of its
/// own before and the leader's commit index.
pub proof fn law_follower_commit_bounded_by_leader(
    s: ManagerView,
    term: u64,
    leader: Seq<char>,
    prev_log_index: u64,
    prev_log_term: u64,
    entries: Seq<LogEntry>,
    leader_commit: u64,
    now: u64,
)
    ensures
        s.append_entries_step(term, leader, prev_log_index, prev_log_term, entries, leader_commit, now).0.storage.commit_index
            <= if s.storage.commit_index > leader_commit {
            s.storage.commit_index
        } else {
            leader_commit
        },
{
    let s1 = ManagerView { last_heartbeat: now, leader_id: Some(leader), ..s.adopt_term(term) };
    let st = s1.storage;
    let st1 = if entries.len() > 0 && st.entries.contains_key(entries[0].id) && st.entries[entries[0].id].term
        != entries[0].term {
        st.truncate_from(entries[0].id)
    } else {
        st
    };
    assert(st1.commit_index <= st.commit_index);
    lemma_append_all_commit_index(st1, entries);
    let st2 = ManagerView::accept_entries(st, entries);
    assert(st2.commit_index == st1.commit_index);
    if leader_commit > st2.commit_index {
        let idx = if leader_commit < st2.last_log_index {
            leader_commit
        } else {
            st2.last_log_index
        };
        lemma_commit_up_to_bound(st2, idx);
    }
}

/// Every request a leader builds for a peer, heartbeat or replication,
/// names as previous index the one just before the peer's next index (0
/// where that is 0 or unknown and taken as 1), and as previous term the term
/// of the leader's own entry at that index, or 0 where the index is 0 or no
/// entry is stored there.
pub proof fn law_request_names_previous_entry(
    s: ManagerView,
    m: Message,
    peer: Seq<char>,
    entries: Seq<LogEntry>,
)
    requires
        s.is_request_for(m, peer, entries),
    ensures
        m matches Message::AppendEntries { prev_log_index, prev_log_term, .. } && {
            &&& prev_log_index == (if s.next_index.contains_key(peer) && s.next_index[peer] >= 1 {
                (s.next_index[peer] - 1) as u64
            } else {
                0
            })
            &&& prev_log_term == (if prev_log_index > 0 && s.storage.entries.contains_key(prev_log_index) {
                s.storage.entries[prev_log_index].term
            } else {
                0
            })
        },
{
}

/// How a leader takes in a peer's reply to replication: on success the peer's
/// next index moves just past, and its match index to, the index it
/// reports; on a refusal a next index `k` above 1 steps back to `k - 1`
/// (an unknown one counts as 1), and at 1 or below it stays; the other
/// peers' indices are untouched.
pub proof fn law_replication_reply_moves_indices(
    s: ManagerView,
    peer: Seq<char>,
    term: u64,
    success: bool,
    match_index: u64,
    other: Seq<char>,
)
    requires
        other != peer,
        success ==> match_index < u64::MAX,
    ensures
        ({
            let t = s.replication_response_step(
                peer,
                Message::AppendEntriesResponse { term, success, match_index },
            );
            let k = if s.next_index.contains_key(peer) {
                s.next_index[peer]
            } else {
                1
            };
            &&& success ==> t.next_index.contains_key(peer) && t.next_index[peer] == match_index + 1
                && t.match_index.contains_key(peer) && t.match_index[peer] == match_index
            &&& !success && k > 1 ==> t.next_index.contains_key(peer) && t.next_index[peer] == k - 1
                && t.match_index == s.match_index
            &&& !success && k <= 1 ==> t.next_index == s.next_index && t.match_index == s.match_index
            &&& t.next_index.contains_key(other) == s.next_index.contains_key(other)
            &&& s.next_index.contains_key(other) ==> t.next_index[other] == s.next_index[other]
            &&& t.match_index.contains_key(other) == s.match_index.contains_key(other)
            &&& s.match_index.contains_key(other) ==> t.match_index[other] == s.match_index[other]
        }),
{
}

/// The entries a leader sends a peer are exactly its own entries from the
/// peer's next index on (an unknown next index counting as 1), in
/// increasing id order, each as the leader stores it. (Every storage's log
/// has an increasing listing: see `Storage::lemma_entries_listed`.)
pub proof fn law_entries_owed_from_next_index(s: ManagerView, peer: Seq<char>)
    requires
        is_listing(sorted_listing(s.storage.entries), s.storage.entries),
    ensures
        ({
            let r = s.entries_owed(peer);
            let k = if s.next_index.contains_key(peer) {
                s.next_index[peer]
            } else {
                1
            };
            &&& forall|i: int, j: int| 0 <= i < j < r.len() ==> r[i].id < r[j].id
            &&& forall|i: int|
                0 <= i < r.len() ==> #[trigger] r[i].id >= k && s.storage.entries.contains_key(r[i].id)
                    && s.storage.entries[r[i].id] == r[i]
            &&& forall|id: u64|
                #[trigger] s.storage.entries.contains_key(id) && id >= k ==> exists|i: int|
                    0 <= i < r.len() && r[i].id == id
        }),
{
    let k = s.next_or_one(peer);
    let part = crate::storage::entries_from(s.storage.entries, k);
    crate::storage::lemma_listing_from(s.storage.entries, k);
    let r = s.entries_owed(peer);
    crate::storage::lemma_entry_map_char(r);
    assert forall|i: int| 0 <= i < r.len() implies #[trigger] r[i].id >= k && s.storage.entries.contains_key(
        r[i].id,
    ) && s.storage.entries[r[i].id] == r[i] by {
        assert(entry_map(r).contains_key(r[i].id));
    }
    assert forall|id: u64| #[trigger] s.storage.entries.contains_key(id) && id >= k implies exists|i: int|
        0 <= i < r.len() && r[i].id == id by {
        assert(part.contains_key(id));
        assert(entry_map(r).contains_key(id));
    }
}

} // verus!
