use vstd::prelude::*;
use crate::log_entry::LogEntry;

verus! {

// ---------------------------------------------------------------------------
// The mathematical model of the log held by a `Storage`.
// ---------------------------------------------------------------------------

/// Ids strictly increase along `s`: a listing in id order without repeats.
pub open spec fn ids_increasing(s: Seq<LogEntry>) -> bool {
    forall|i: int, j: int| 0 <= i < j < s.len() ==> s[i].id < s[j].id
}

/// The map from id to entry that a sequence of records denotes when the
/// records are stored one after another, a later record replacing an
/// earlier one with the same id.
pub open spec fn entry_map(s: Seq<LogEntry>) -> Map<u64, LogEntry>
    decreases s.len(),
{
    if s.len() == 0 {
        Map::empty()
    } else {
        entry_map(s.drop_last()).insert(s.last().id, s.last())
    }
}

/// `s` lists the entries of `m` in increasing id order.
pub open spec fn is_listing(s: Seq<LogEntry>, m: Map<u64, LogEntry>) -> bool {
    ids_increasing(s) && entry_map(s) == m
}

/// The entries of `m` in increasing id order (unique, see
/// `lemma_listing_unique`).
pub open spec fn sorted_listing(m: Map<u64, LogEntry>) -> Seq<LogEntry> {
    choose|s: Seq<LogEntry>| is_listing(s, m)
}

/// `k` is the largest id present in `m`.
pub open spec fn is_max_key(m: Map<u64, LogEntry>, k: u64) -> bool {
    m.contains_key(k) && forall|j: u64| m.contains_key(j) ==> j <= k
}

/// The largest id present in `m`, or 0 where `m` is empty.
pub open spec fn max_key(m: Map<u64, LogEntry>) -> u64 {
    if exists|k: u64| is_max_key(m, k) {
        choose|k: u64| is_max_key(m, k)
    } else {
        0
    }
}

/// The entries of `m` whose id is below `index`.
pub open spec fn entries_before(m: Map<u64, LogEntry>, index: u64) -> Map<u64, LogEntry> {
    Map::new(|k: u64| m.contains_key(k) && k < index, |k: u64| m[k])
}

/// The entries of `m` whose id is at least `start`.
pub open spec fn entries_from(m: Map<u64, LogEntry>, start: u64) -> Map<u64, LogEntry> {
    Map::new(|k: u64| m.contains_key(k) && k >= start, |k: u64| m[k])
}

/// `e` with its committed flag set.
pub open spec fn committed(e: LogEntry) -> LogEntry {
    LogEntry { committed: true, ..e }
}

/// `m` with every entry whose id lies in `(lo, hi]` marked committed.
pub open spec fn commit_range(m: Map<u64, LogEntry>, lo: u64, hi: u64) -> Map<u64, LogEntry> {
    Map::new(|k: u64| m.contains_key(k), |k: u64| if lo < k <= hi { committed(m[k]) } else { m[k] })
}

/// The entries of `m` whose id lies in `(lo, hi]`.
pub open spec fn entries_in(m: Map<u64, LogEntry>, lo: u64, hi: u64) -> Map<u64, LogEntry> {
    Map::new(|k: u64| m.contains_key(k) && lo < k <= hi, |k: u64| m[k])
}

/// The entries with id in `(lo, hi]` that were not committed yet, as they
/// read once committed.
pub open spec fn newly_committed_map(m: Map<u64, LogEntry>, lo: u64, hi: u64) -> Map<u64, LogEntry> {
    Map::new(
        |k: u64| m.contains_key(k) && lo < k <= hi && !m[k].committed,
        |k: u64| committed(m[k]),
    )
}

// ---------------------------------------------------------------------------
// Lemmas about listings.
// ---------------------------------------------------------------------------

/// In an increasing listing, each record is the map's value at its id, and
/// every id of the map is the id of some record.
pub proof fn lemma_entry_map_char(s: Seq<LogEntry>)
    requires
        ids_increasing(s),
    ensures
        forall|i: int|
            0 <= i < s.len() ==> #[trigger] entry_map(s).contains_key(s[i].id) && entry_map(s)[s[i].id]
                == s[i],
        forall|k: u64|
            #[trigger] entry_map(s).contains_key(k) ==> exists|i: int| 0 <= i < s.len() && s[i].id == k,
    decreases s.len(),
{
    if s.len() > 0 {
        let t = s.drop_last();
        assert(ids_increasing(t));
        lemma_entry_map_char(t);
        assert(entry_map(s) == entry_map(t).insert(s.last().id, s.last()));
        assert forall|i: int| 0 <= i < s.len() implies #[trigger] entry_map(s).contains_key(s[i].id)
            && entry_map(s)[s[i].id] == s[i] by {
            if i < s.len() - 1 {
                assert(t[i] == s[i]);
                assert(s[i].id < s[s.len() - 1].id);
            } else {
                assert(s[i] == s.last());
            }
        }
        assert forall|k: u64| #[trigger] entry_map(s).contains_key(k) implies exists|i: int|
            0 <= i < s.len() && s[i].id == k by {
            if k == s.last().id {
                assert(s[s.len() - 1].id == k);
            } else {
                assert(entry_map(t).contains_key(k));
                let i = choose|i: int| 0 <= i < t.len() && t[i].id == k;
                assert(s[i].id == k);
            }
        }
    }
}

/// An increasing sequence whose records are exactly the entries of `m`
/// lists `m`.
pub proof fn lemma_listing_of(s: Seq<LogEntry>, m: Map<u64, LogEntry>)
    requires
        ids_increasing(s),
        forall|i: int| 0 <= i < s.len() ==> m.contains_key(#[trigger] s[i].id) && m[s[i].id] == s[i],
        forall|k: u64| m.contains_key(k) ==> exists|i: int| 0 <= i < s.len() && s[i].id == k,
    ensures
        is_listing(s, m),
{
    lemma_entry_map_char(s);
    assert forall|k: u64| #[trigger] entry_map(s).contains_key(k) <==> m.contains_key(k) by {
        if m.contains_key(k) {
            let i = choose|i: int| 0 <= i < s.len() && s[i].id == k;
            assert(entry_map(s).contains_key(s[i].id));
        }
        if entry_map(s).contains_key(k) {
            let i = choose|i: int| 0 <= i < s.len() && s[i].id == k;
            assert(m.contains_key(s[i].id));
        }
    }
    assert forall|k: u64| #[trigger] entry_map(s).contains_key(k) implies entry_map(s)[k] == m[k] by {
        let i = choose|i: int| 0 <= i < s.len() && s[i].id == k;
        assert(entry_map(s).contains_key(s[i].id));
        assert(m.contains_key(s[i].id));
    }
    assert(entry_map(s) =~= m);
}

/// The largest id of a non-empty increasing listing is that of its last
/// record.
pub proof fn lemma_max_key_of_listing(s: Seq<LogEntry>)
    requires
        ids_increasing(s),
        s.len() > 0,
    ensures
        max_key(entry_map(s)) == s.last().id,
{
    lemma_entry_map_char(s);
    let m = entry_map(s);
    let k = s.last().id;
    assert(m.contains_key(s[s.len() - 1].id));
    assert forall|j: u64| m.contains_key(j) implies j <= k by {
        let i = choose|i: int| 0 <= i < s.len() && s[i].id == j;
        if i < s.len() - 1 {
            assert(s[i].id < s[s.len() - 1].id);
        }
    }
    assert(is_max_key(m, k));
    let c = choose|c: u64| is_max_key(m, c);
    assert(c <= k && k <= c);
}

/// Where `k` is the largest id of `m`, `max_key` names it.
pub proof fn lemma_max_key_is(m: Map<u64, LogEntry>, k: u64)
    requires
        is_max_key(m, k),
    ensures
        max_key(m) == k,
{
    let c = choose|c: u64| is_max_key(m, c);
    assert(c <= k && k <= c);
}

/// A map with no ids has `max_key` 0.
pub proof fn lemma_max_key_none(m: Map<u64, LogEntry>)
    requires
        forall|k: u64| !m.contains_key(k),
    ensures
        max_key(m) == 0,
{
}

/// An empty map has no largest id: `max_key` is then 0.
pub proof fn lemma_max_key_empty()
    ensures
        max_key(Map::<u64, LogEntry>::empty()) == 0,
{
    assert(!exists|k: u64| is_max_key(Map::<u64, LogEntry>::empty(), k));
}

/// Two increasing listings of one map are the same sequence.
pub proof fn lemma_listing_unique(s1: Seq<LogEntry>, s2: Seq<LogEntry>, m: Map<u64, LogEntry>)
    requires
        is_listing(s1, m),
        is_listing(s2, m),
    ensures
        s1 == s2,
    decreases s1.len() + s2.len(),
{
    lemma_entry_map_char(s1);
    lemma_entry_map_char(s2);
    if s1.len() == 0 {
        if s2.len() > 0 {
            assert(entry_map(s2).contains_key(s2[0].id));
        }
        assert(s1 =~= s2);
    } else if s2.len() == 0 {
        assert(entry_map(s1).contains_key(s1[0].id));
    } else {
        let l1 = s1.last();
        let l2 = s2.last();
        assert(m.contains_key(s1[s1.len() - 1].id));
        assert(m.contains_key(s2[s2.len() - 1].id));
        let i2 = choose|i: int| 0 <= i < s2.len() && s2[i].id == l1.id;
        let i1 = choose|i: int| 0 <= i < s1.len() && s1[i].id == l2.id;
        if i2 < s2.len() - 1 {
            assert(s2[i2].id < s2[s2.len() - 1].id);
        }
        if i1 < s1.len() - 1 {
            assert(s1[i1].id < s1[s1.len() - 1].id);
        }
        assert(l1.id == l2.id);
        assert(l1 == m[l1.id]);
        assert(l2 == m[l2.id]);
        let t1 = s1.drop_last();
        let t2 = s2.drop_last();
        assert(ids_increasing(t1));
        assert(ids_increasing(t2));
        lemma_entry_map_char(t1);
        lemma_entry_map_char(t2);
        assert(!entry_map(t1).contains_key(l1.id)) by {
            if entry_map(t1).contains_key(l1.id) {
                let j = choose|j: int| 0 <= j < t1.len() && t1[j].id == l1.id;
                assert(s1[j].id < s1[s1.len() - 1].id);
            }
        }
        assert(!entry_map(t2).contains_key(l2.id)) by {
            if entry_map(t2).contains_key(l2.id) {
                let j = choose|j: int| 0 <= j < t2.len() && t2[j].id == l2.id;
                assert(s2[j].id < s2[s2.len() - 1].id);
            }
        }
        assert(entry_map(t1) =~= m.remove(l1.id));
        assert(entry_map(t2) =~= m.remove(l2.id));
        lemma_listing_unique(t1, t2, m.remove(l1.id));
        assert(s1 =~= t1.push(l1));
        assert(s2 =~= t2.push(l2));
    }
}

/// An increasing listing of `m` is the one that `sorted_listing` names.
pub proof fn lemma_sorted_listing_is(s: Seq<LogEntry>, m: Map<u64, LogEntry>)
    requires
        is_listing(s, m),
    ensures
        sorted_listing(m) == s,
{
    let c = choose|c: Seq<LogEntry>| is_listing(c, m);
    lemma_listing_unique(c, s, m);
}

// ---------------------------------------------------------------------------
// What the storage asks to have written to disk.
// ---------------------------------------------------------------------------

/// The durable metadata of a log: its current term, last index and commit
/// index.
#[derive(Debug, Clone, Copy, PartialEq, Eq)]
pub struct Metadata {
    pub current_term: u64,
    pub last_log_index: u64,
    pub commit_index: u64,
}

/// A write the storage owes to its files, in the order it arose: append one
/// record to the log file, replace the log file by the given records, or
/// replace the metadata file.
#[derive(Debug)]
pub enum StorageWrite {
    AppendEntry(LogEntry),
    RewriteLog(Vec<LogEntry>),
    SaveMetadata(Metadata),
}

/// The model of a `StorageWrite`.
pub enum WriteView {
    AppendEntry(LogEntry),
    RewriteLog(Seq<LogEntry>),
    SaveMetadata(Metadata),
}

impl View for StorageWrite {
    type V = WriteView;

    open spec fn view(&self) -> WriteView {
        match self {
            StorageWrite::AppendEntry(e) => WriteView::AppendEntry(*e),
            StorageWrite::RewriteLog(v) => WriteView::RewriteLog(v@),
            StorageWrite::SaveMetadata(m) => WriteView::SaveMetadata(*m),
        }
    }
}

/// The model of a `Storage`: the entries by id, the three counters, and the
/// writes not yet handed out.
pub struct StorageView {
    pub entries: Map<u64, LogEntry>,
    pub current_term: u64,
    pub last_log_index: u64,
    pub commit_index: u64,
    pub pending_writes: Seq<WriteView>,
}

impl StorageView {
    /// The metadata that describes this state.
    pub open spec fn metadata(self) -> Metadata {
        Metadata {
            current_term: self.current_term,
            last_log_index: self.last_log_index,
            commit_index: self.commit_index,
        }
    }

    /// The entry stored under `id`, if any.
    pub open spec fn get(self, id: u64) -> Option<LogEntry> {
        if self.entries.contains_key(id) {
            Some(self.entries[id])
        } else {
            None
        }
    }

    /// The term of the entry at the last log index, or 0 where there is none.
    pub open spec fn last_log_term(self) -> u64 {
        if self.entries.contains_key(self.last_log_index) {
            self.entries[self.last_log_index].term
        } else {
            0
        }
    }

    /// `self` followed by a save of its metadata.
    pub open spec fn saved(self) -> StorageView {
        StorageView {
            pending_writes: self.pending_writes.push(WriteView::SaveMetadata(self.metadata())),
            ..self
        }
    }

    /// Store `e` under its id (replacing any entry with that id), raise the
    /// last index to `e.id` where it is below, and write both down.
    pub open spec fn append(self, e: LogEntry) -> StorageView {
        StorageView {
            entries: self.entries.insert(e.id, e),
            last_log_index: if e.id > self.last_log_index {
                e.id
            } else {
                self.last_log_index
            },
            pending_writes: self.pending_writes.push(WriteView::AppendEntry(e)),
            ..self
        }.saved()
    }

    /// Append the records one after another.
    pub open spec fn append_all(self, es: Seq<LogEntry>) -> StorageView
        decreases es.len(),
    {
        if es.len() == 0 {
            self
        } else {
            self.append_all(es.drop_last()).append(es.last())
        }
    }

    /// Set the current term and save the metadata.
    pub open spec fn set_current_term(self, term: u64) -> StorageView {
        StorageView { current_term: term, ..self }.saved()
    }

    /// Drop every entry with id `index` or above; the last index becomes the
    /// largest id kept (0 if none); the commit index falls to the highest
    /// committed id kept (0 if none) where it stood above it; the log file is
    /// rewritten.
    pub open spec fn truncate_from(self, index: u64) -> StorageView {
        let kept = entries_before(self.entries, index);
        let hc = highest_committed(kept);
        StorageView {
            entries: kept,
            last_log_index: max_key(kept),
            commit_index: if hc < self.commit_index {
                hc
            } else {
                self.commit_index
            },
            pending_writes: self.pending_writes.push(WriteView::RewriteLog(sorted_listing(kept))),
            ..self
        }.saved()
    }

    /// The commit index after committing up to `index`: the highest id in
    /// `(commit_index, index]` present in the log, where there is one;
    /// otherwise it stays. It never falls and never names an index past the
    /// entries it commits.
    pub open spec fn commit_target(self, index: u64) -> u64 {
        let top = max_key(entries_in(self.entries, self.commit_index, index));
        if top > self.commit_index {
            top
        } else {
            self.commit_index
        }
    }

    /// Mark committed every entry with id in `(commit_index, index]` and move
    /// the commit index to the highest of them; the entries committed afresh
    /// are written again (a later record replaces an earlier one), then the
    /// metadata.
    pub open spec fn commit_up_to(self, index: u64) -> StorageView {
        StorageView {
            entries: commit_range(self.entries, self.commit_index, index),
            commit_index: self.commit_target(index),
            pending_writes: self.pending_writes + self.newly_committed(index).map_values(
                |e: LogEntry| WriteView::AppendEntry(e),
            ),
            ..self
        }.saved()
    }

    /// The entries that `commit_up_to(index)` commits and were not committed
    /// before, in id order, as they read once committed.
    pub open spec fn newly_committed(self, index: u64) -> Seq<LogEntry> {
        sorted_listing(newly_committed_map(self.entries, self.commit_index, index))
    }
}

/// What a node's two files hold: the log file's records in file order, and
/// the metadata file's contents where there is one.
pub struct FileImage {
    pub log: Seq<LogEntry>,
    pub metadata: Option<Metadata>,
}

/// The files after one write reaches them.
pub open spec fn apply_write(f: FileImage, w: WriteView) -> FileImage {
    match w {
        WriteView::AppendEntry(e) => FileImage { log: f.log.push(e), ..f },
        WriteView::RewriteLog(s) => FileImage { log: s, ..f },
        WriteView::SaveMetadata(m) => FileImage { metadata: Some(m), ..f },
    }
}

/// The files after the writes reach them in order.
pub open spec fn apply_writes(f: FileImage, ws: Seq<WriteView>) -> FileImage
    decreases ws.len(),
{
    if ws.len() == 0 {
        f
    } else {
        apply_write(apply_writes(f, ws.drop_last()), ws.last())
    }
}

/// The files describe `st`: restored, they give back its entries and its
/// metadata.
pub open spec fn files_describe(f: FileImage, st: StorageView) -> bool {
    entry_map(f.log) == st.entries && f.metadata == Some(st.metadata())
}

/// How many leading records of an increasing listing have an id below
/// `index`.
pub open spec fn count_below(s: Seq<LogEntry>, index: u64) -> int
    decreases s.len(),
{
    if s.len() == 0 {
        0
    } else if s.last().id < index {
        s.len() as int
    } else {
        count_below(s.drop_last(), index)
    }
}

proof fn lemma_count_below(s: Seq<LogEntry>, index: u64)
    requires
        ids_increasing(s),
    ensures
        0 <= count_below(s, index) <= s.len(),
        forall|j: int| 0 <= j < count_below(s, index) ==> s[j].id < index,
        forall|j: int| count_below(s, index) <= j < s.len() ==> s[j].id >= index,
    decreases s.len(),
{
    if s.len() > 0 {
        let t = s.drop_last();
        assert(ids_increasing(t));
        lemma_count_below(t, index);
        if s.last().id < index {
            assert forall|j: int| 0 <= j < s.len() implies s[j].id < index by {
                if j < s.len() - 1 {
                    assert(s[j].id < s[s.len() - 1].id);
                }
            }
        } else {
            assert forall|j: int| 0 <= j < count_below(s, index) implies s[j].id < index by {
                assert(t[j] == s[j]);
            }
            assert forall|j: int| count_below(s, index) <= j < s.len() implies s[j].id >= index by {
                if j < s.len() - 1 {
                    assert(t[j] == s[j]);
                }
            }
        }
    }
}

/// Where a map has an increasing listing, so does the part of it below any
/// index.
pub proof fn lemma_listing_before(m: Map<u64, LogEntry>, index: u64)
    requires
        is_listing(sorted_listing(m), m),
    ensures
        is_listing(sorted_listing(entries_before(m, index)), entries_before(m, index)),
{
    let s = sorted_listing(m);
    let kept = entries_before(m, index);
    lemma_count_below(s, index);
    let p = count_below(s, index);
    let t = s.subrange(0, p);
    lemma_entry_map_char(s);
    assert forall|a: int| 0 <= a < t.len() implies kept.contains_key(#[trigger] t[a].id) && kept[t[a].id]
        == t[a] by {
        assert(t[a] == s[a]);
        assert(entry_map(s).contains_key(s[a].id));
    }
    assert forall|k: u64| kept.contains_key(k) implies exists|a: int| 0 <= a < t.len() && t[a].id == k by {
        assert(entry_map(s).contains_key(k));
        let j = choose|j: int| 0 <= j < s.len() && s[j].id == k;
        assert(t[j] == s[j]);
    }
    lemma_listing_of(t, kept);
    lemma_sorted_listing_is(t, kept);
}

/// The same records, one by one.
pub fn clone_entries(v: &Vec<LogEntry>) -> (r: Vec<LogEntry>)
    ensures
        r@ == v@,
{
    let mut r: Vec<LogEntry> = Vec::new();
    let mut i: usize = 0;
    while i < v.len()
        invariant
            i <= v.len(),
            r@ == v@.subrange(0, i as int),
        decreases v.len() - i,
    {
        r.push(v[i].clone());
        i += 1;
        assert(r@ =~= v@.subrange(0, i as int));
    }
    assert(r@ =~= v@);
    r
}

/// `e` marked committed where its id lies in `(lo, hi]`, else unchanged.
pub open spec fn commit_if_in(e: LogEntry, lo: u64, hi: u64) -> LogEntry {
    if lo < e.id <= hi {
        committed(e)
    } else {
        e
    }
}

/// `e` is in `(lo, hi]` and not yet committed.
pub open spec fn commits_afresh(e: LogEntry, lo: u64, hi: u64) -> bool {
    lo < e.id <= hi && !e.committed
}

/// Of the first `i` records of `s`, those that `commits_afresh`, committed,
/// in order.
pub open spec fn fresh_prefix(s: Seq<LogEntry>, lo: u64, hi: u64, i: int) -> Seq<LogEntry>
    decreases i,
{
    if i <= 0 {
        Seq::empty()
    } else if commits_afresh(s[i - 1], lo, hi) {
        fresh_prefix(s, lo, hi, i - 1).push(committed(s[i - 1]))
    } else {
        fresh_prefix(s, lo, hi, i - 1)
    }
}

/// The id of the last of the first `i` records whose id lies in
/// `(lo, hi]`, or `lo` where there is none.
pub open spec fn top_prefix(s: Seq<LogEntry>, lo: u64, hi: u64, i: int) -> u64
    decreases i,
{
    if i <= 0 {
        lo
    } else if lo < s[i - 1].id <= hi {
        s[i - 1].id
    } else {
        top_prefix(s, lo, hi, i - 1)
    }
}

proof fn lemma_top_prefix(s: Seq<LogEntry>, lo: u64, hi: u64, i: int)
    requires
        ids_increasing(s),
        0 <= i <= s.len(),
    ensures
        (top_prefix(s, lo, hi, i) == lo && forall|j: int| 0 <= j < i ==> !(lo < #[trigger] s[j].id <= hi))
            || ((exists|j: int| 0 <= j < i && lo < s[j].id <= hi && s[j].id == top_prefix(s, lo, hi, i))
            && forall|j: int| 0 <= j < i && lo < #[trigger] s[j].id <= hi ==> s[j].id <= top_prefix(s, lo, hi, i)),
    decreases i,
{
    if i > 0 {
        lemma_top_prefix(s, lo, hi, i - 1);
        if lo < s[i - 1].id <= hi {
            assert forall|j: int| 0 <= j < i && lo < #[trigger] s[j].id <= hi implies s[j].id <= top_prefix(s, lo, hi, i) by {
                if j < i - 1 {
                    assert(s[j].id < s[i - 1].id);
                }
            }
        }
    }
}

/// The commit index that committing up to `hi` from `lo` reaches, read off an
/// increasing listing.
proof fn lemma_commit_target(s: Seq<LogEntry>, lo: u64, hi: u64)
    requires
        ids_increasing(s),
    ensures
        ({
            let top = max_key(entries_in(entry_map(s), lo, hi));
            top_prefix(s, lo, hi, s.len() as int) == if top > lo {
                top
            } else {
                lo
            }
        }),
{
    let m = entries_in(entry_map(s), lo, hi);
    let t = top_prefix(s, lo, hi, s.len() as int);
    lemma_top_prefix(s, lo, hi, s.len() as int);
    lemma_entry_map_char(s);
    if t == lo && forall|j: int| 0 <= j < s.len() ==> !(lo < #[trigger] s[j].id <= hi) {
        assert forall|k: u64| !m.contains_key(k) by {
            if m.contains_key(k) {
                let j = choose|j: int| 0 <= j < s.len() && s[j].id == k;
                assert(lo < s[j].id <= hi);
            }
        }
        lemma_max_key_none(m);
    } else {
        let j0 = choose|j: int| 0 <= j < s.len() && lo < s[j].id <= hi && s[j].id == t;
        assert(entry_map(s).contains_key(s[j0].id));
        assert forall|k: u64| m.contains_key(k) implies k <= t by {
            let j = choose|j: int| 0 <= j < s.len() && s[j].id == k;
            assert(lo < s[j].id <= hi);
        }
        assert(is_max_key(m, t));
        lemma_max_key_is(m, t);
    }
}

proof fn lemma_fresh_prefix(s: Seq<LogEntry>, lo: u64, hi: u64, i: int)
    requires
        ids_increasing(s),
        0 <= i <= s.len(),
    ensures
        ids_increasing(fresh_prefix(s, lo, hi, i)),
        i > 0 ==> forall|t: int|
            0 <= t < fresh_prefix(s, lo, hi, i).len() ==> #[trigger] fresh_prefix(s, lo, hi, i)[t].id
                <= s[i - 1].id,
        entry_map(fresh_prefix(s, lo, hi, i)) == newly_committed_map(
            entry_map(s.subrange(0, i)),
            lo,
            hi,
        ),
    decreases i,
{
    if i == 0 {
        assert(newly_committed_map(entry_map(s.subrange(0, 0)), lo, hi) =~= Map::empty());
    } else {
        lemma_fresh_prefix(s, lo, hi, i - 1);
        let f0 = fresh_prefix(s, lo, hi, i - 1);
        let f1 = fresh_prefix(s, lo, hi, i);
        let p0 = s.subrange(0, i - 1);
        let p1 = s.subrange(0, i);
        let e = s[i - 1];
        assert(p1.drop_last() =~= p0);
        assert(p1.last() == e);
        let m0 = entry_map(p0);
        let m1 = entry_map(p1);
        assert(m1 == m0.insert(e.id, e));
        assert(ids_increasing(p0));
        lemma_entry_map_char(p0);
        assert(!m0.contains_key(e.id)) by {
            if m0.contains_key(e.id) {
                let j = choose|j: int| 0 <= j < p0.len() && p0[j].id == e.id;
                assert(s[j].id < s[i - 1].id);
            }
        }
        if i > 1 {
            assert(s[i - 2].id < s[i - 1].id);
        }
        if commits_afresh(e, lo, hi) {
            assert(f1 == f0.push(committed(e)));
            assert forall|a: int, b: int| 0 <= a < b < f1.len() implies f1[a].id < f1[b].id by {
                assert(f1[a] == f0[a]);
                if b < f0.len() {
                    assert(f1[b] == f0[b]);
                }
            }
            assert forall|t: int| 0 <= t < f1.len() implies #[trigger] f1[t].id <= s[i - 1].id by {
                if t < f0.len() {
                    assert(f1[t] == f0[t]);
                }
            }
            assert(f1.drop_last() =~= f0);
            assert(f1.last() == committed(e));
            assert(entry_map(f1) == entry_map(f0).insert(e.id, committed(e)));
            assert(newly_committed_map(m1, lo, hi) =~= newly_committed_map(m0, lo, hi).insert(
                e.id,
                committed(e),
            ));
        } else {
            assert(f1 == f0);
            assert forall|t: int| 0 <= t < f1.len() implies #[trigger] f1[t].id <= s[i - 1].id by {
                assert(f1[t] == f0[t]);
            }
            assert(newly_committed_map(m1, lo, hi) =~= newly_committed_map(m0, lo, hi));
        }
    }
}

proof fn lemma_fresh_prefix_listing(s: Seq<LogEntry>, lo: u64, hi: u64)
    requires
        ids_increasing(s),
    ensures
        is_listing(fresh_prefix(s, lo, hi, s.len() as int), newly_committed_map(entry_map(s), lo, hi)),
        sorted_listing(newly_committed_map(entry_map(s), lo, hi)) == fresh_prefix(s, lo, hi, s.len() as int),
{
    lemma_fresh_prefix(s, lo, hi, s.len() as int);
    assert(s.subrange(0, s.len() as int) =~= s);
    lemma_sorted_listing_is(fresh_prefix(s, lo, hi, s.len() as int), newly_committed_map(entry_map(s), lo, hi));
}

/// A map with finitely many ids, at least one, has a largest id.
pub proof fn lemma_finite_has_max(m: Map<u64, LogEntry>)
    requires
        m.dom().finite(),
        m.dom().len() > 0,
    ensures
        exists|k: u64| is_max_key(m, k),
    decreases m.dom().len(),
{
    let k0 = m.dom().choose();
    assert(m.dom().contains(k0));
    let r = m.remove(k0);
    assert(r.dom() =~= m.dom().remove(k0));
    if r.dom().len() == 0 {
        assert forall|j: u64| m.contains_key(j) implies j <= k0 by {
            if j != k0 {
                assert(r.dom().contains(j));
            }
        }
        assert(is_max_key(m, k0));
    } else {
        lemma_finite_has_max(r);
        let k1 = choose|k: u64| is_max_key(r, k);
        let k = if k0 > k1 {
            k0
        } else {
            k1
        };
        assert forall|j: u64| m.contains_key(j) implies j <= k by {
            if j != k0 {
                assert(r.contains_key(j));
            }
        }
        assert(is_max_key(m, k));
    }
}

/// Storing the records of `a` and then those of `b` gives the map of `a`
/// overridden by the map of `b`.
pub proof fn lemma_entry_map_concat(a: Seq<LogEntry>, b: Seq<LogEntry>)
    ensures
        entry_map(a + b) == entry_map(a).union_prefer_right(entry_map(b)),
    decreases b.len(),
{
    if b.len() == 0 {
        assert(a + b =~= a);
        assert(entry_map(a).union_prefer_right(entry_map(b)) =~= entry_map(a));
    } else {
        let b0 = b.drop_last();
        lemma_entry_map_concat(a, b0);
        assert((a + b).drop_last() =~= a + b0);
        assert((a + b).last() == b.last());
        assert(entry_map(a + b) =~= entry_map(a).union_prefer_right(entry_map(b)));
    }
}

/// Where a map has an increasing listing, so has the part of it from any
/// index on.
pub proof fn lemma_listing_from(m: Map<u64, LogEntry>, start: u64)
    requires
        is_listing(sorted_listing(m), m),
    ensures
        is_listing(sorted_listing(entries_from(m, start)), entries_from(m, start)),
{
    let s = sorted_listing(m);
    let part = entries_from(m, start);
    lemma_count_below(s, start);
    let p = count_below(s, start);
    let t = s.subrange(p, s.len() as int);
    lemma_entry_map_char(s);
    assert forall|a: int, b: int| 0 <= a < b < t.len() implies t[a].id < t[b].id by {
        assert(t[a] == s[p + a] && t[b] == s[p + b]);
    }
    assert forall|a: int| 0 <= a < t.len() implies part.contains_key(#[trigger] t[a].id) && part[t[a].id]
        == t[a] by {
        assert(t[a] == s[p + a]);
        assert(entry_map(s).contains_key(s[p + a].id));
    }
    assert forall|k: u64| part.contains_key(k) implies exists|a: int| 0 <= a < t.len() && t[a].id == k by {
        assert(entry_map(s).contains_key(k));
        let j = choose|j: int| 0 <= j < s.len() && s[j].id == k;
        assert(t[j - p] == s[j]);
    }
    lemma_listing_of(t, part);
    lemma_sorted_listing_is(t, part);
}

/// Where a map has an increasing listing, so have the entries that a commit
/// up to `hi` from `lo` commits afresh.
pub proof fn lemma_listing_newly_committed(m: Map<u64, LogEntry>, lo: u64, hi: u64)
    requires
        is_listing(sorted_listing(m), m),
    ensures
        is_listing(sorted_listing(newly_committed_map(m, lo, hi)), newly_committed_map(m, lo, hi)),
{
    lemma_fresh_prefix_listing(sorted_listing(m), lo, hi);
}

/// Appending records reaches the log file after whatever was queued
/// before.
pub proof fn lemma_apply_appends(f: FileImage, ws: Seq<WriteView>, es: Seq<LogEntry>)
    ensures
        apply_writes(f, ws + es.map_values(|e: LogEntry| WriteView::AppendEntry(e))) == (FileImage {
            log: apply_writes(f, ws).log + es,
            metadata: apply_writes(f, ws).metadata,
        }),
    decreases es.len(),
{
    let w = es.map_values(|e: LogEntry| WriteView::AppendEntry(e));
    if es.len() == 0 {
        assert(ws + w =~= ws);
        assert(apply_writes(f, ws).log + es =~= apply_writes(f, ws).log);
    } else {
        let e0 = es.drop_last();
        lemma_apply_appends(f, ws, e0);
        let w0 = e0.map_values(|e: LogEntry| WriteView::AppendEntry(e));
        assert((ws + w).drop_last() =~= ws + w0);
        assert((ws + w).last() == WriteView::AppendEntry(es.last()));
        assert(apply_writes(f, ws).log + es =~= (apply_writes(f, ws).log + e0).push(es.last()));
    }
}


/// The largest committed id in `m`, or 0 where nothing is committed.
pub open spec fn highest_committed(m: Map<u64, LogEntry>) -> u64 {
    max_key(Map::new(|k: u64| m.contains_key(k) && m[k].committed, |k: u64| m[k]))
}

/// The id of the last committed one among the first `i` records, or 0.
pub open spec fn committed_prefix(s: Seq<LogEntry>, i: int) -> u64
    decreases i,
{
    if i <= 0 {
        0
    } else if s[i - 1].committed {
        s[i - 1].id
    } else {
        committed_prefix(s, i - 1)
    }
}

proof fn lemma_committed_prefix(s: Seq<LogEntry>, i: int)
    requires
        ids_increasing(s),
        0 <= i <= s.len(),
    ensures
        (committed_prefix(s, i) == 0 && forall|j: int| 0 <= j < i ==> !(#[trigger] s[j]).committed) || ((exists|j: int|
            0 <= j < i && s[j].committed && s[j].id == committed_prefix(s, i)) && forall|j: int|
            0 <= j < i && (#[trigger] s[j]).committed ==> s[j].id <= committed_prefix(s, i)),
    decreases i,
{
    if i > 0 {
        lemma_committed_prefix(s, i - 1);
        if s[i - 1].committed {
            assert forall|j: int| 0 <= j < i && (#[trigger] s[j]).committed implies s[j].id <= committed_prefix(s, i) by {
                if j < i - 1 {
                    assert(s[j].id < s[i - 1].id);
                }
            }
        }
    }
}

/// The highest committed id of an increasing listing's map, read off the
/// listing.
proof fn lemma_highest_committed(s: Seq<LogEntry>)
    requires
        ids_increasing(s),
    ensures
        highest_committed(entry_map(s)) == committed_prefix(s, s.len() as int),
{
    let m = entry_map(s);
    let c = Map::new(|k: u64| m.contains_key(k) && m[k].committed, |k: u64| m[k]);
    let t = committed_prefix(s, s.len() as int);
    lemma_committed_prefix(s, s.len() as int);
    lemma_entry_map_char(s);
    if t == 0 && forall|j: int| 0 <= j < s.len() ==> !(#[trigger] s[j]).committed {
        assert forall|k: u64| !c.contains_key(k) by {
            if c.contains_key(k) {
                let j = choose|j: int| 0 <= j < s.len() && s[j].id == k;
                assert(m[s[j].id] == s[j]);
            }
        }
        lemma_max_key_none(c);
    } else {
        let j0 = choose|j: int| 0 <= j < s.len() && s[j].committed && s[j].id == t;
        assert(m.contains_key(s[j0].id));
        assert forall|k: u64| c.contains_key(k) implies k <= t by {
            let j = choose|j: int| 0 <= j < s.len() && s[j].id == k;
            assert(m[s[j].id] == s[j]);
        }
        assert(c.contains_key(t));
        assert(is_max_key(c, t));
        lemma_max_key_is(c, t);
    }
}

// ---------------------------------------------------------------------------
// The storage itself.
// ---------------------------------------------------------------------------

/// The in-memory state of a node's log, with the writes that keep its files
/// in step.
pub struct Storage {
    /// The entries, in strictly increasing id order.
    entries: Vec<LogEntry>,
    current_term: u64,
    last_log_index: u64,
    commit_index: u64,
    pending_writes: Vec<StorageWrite>,
}

impl View for Storage {
    type V = StorageView;

    closed spec fn view(&self) -> StorageView {
        StorageView {
            entries: entry_map(self.entries@),
            current_term: self.current_term,
            last_log_index: self.last_log_index,
            commit_index: self.commit_index,
            pending_writes: self.pending_writes@.map_values(|w: StorageWrite| w@),
        }
    }
}

impl Storage {
    /// The entries are kept in strictly increasing id order.
    pub closed spec fn wf(&self) -> bool {
        ids_increasing(self.entries@)
    }

    /// The model's entries are the ones listed, in id order.
    pub proof fn lemma_entries_listed(&self)
        requires
            self.wf(),
        ensures
            self@.entries.dom().finite(),
            is_listing(sorted_listing(self@.entries), self@.entries),
    {
        lemma_entry_map_char(self.entries@);
        lemma_sorted_listing_is(self.entries@, self@.entries);
        lemma_entry_map_finite(self.entries@);
    }

    /// An empty log at term 0.
    pub fn new() -> (s: Self)
        ensures
            s.wf(),
            s@.entries == Map::<u64, LogEntry>::empty(),
            s@.current_term == 0,
            s@.last_log_index == 0,
            s@.commit_index == 0,
            s@.pending_writes == Seq::<WriteView>::empty(),
    {
        let s = Storage {
            entries: Vec::new(),
            current_term: 0,
            last_log_index: 0,
            commit_index: 0,
            pending_writes: Vec::new(),
        };
        assert(s@.entries =~= Map::<u64, LogEntry>::empty());
        assert(s@.pending_writes =~= Seq::<WriteView>::empty());
        s
    }

    /// The storage that a node's files describe: the metadata where there is
    /// some (all counters 0 otherwise), and the log records stored in file
    /// order, a later record replacing an earlier one with the same id.
    pub fn restore(metadata: Option<Metadata>, records: Vec<LogEntry>) -> (s: Self)
        ensures
            s.wf(),
            s@.entries == entry_map(records@),
            s@.pending_writes == Seq::<WriteView>::empty(),
            match metadata {
                Some(m) => s@.metadata() == m,
                None => s@.metadata() == (Metadata { current_term: 0, last_log_index: 0, commit_index: 0 }),
            },
    {
        let mut s = Storage::new();
        match metadata {
            Some(m) => {
                s.current_term = m.current_term;
                s.last_log_index = m.last_log_index;
                s.commit_index = m.commit_index;
            },
            None => {},
        }
        let mut i: usize = 0;
        while i < records.len()
            invariant
                i <= records.len(),
                s.wf(),
                entry_map(s.entries@) == entry_map(records@.subrange(0, i as int)),
                s@.pending_writes == Seq::<WriteView>::empty(),
                match metadata {
                    Some(m) => s@.metadata() == m,
                    None => s@.metadata() == (Metadata { current_term: 0, last_log_index: 0, commit_index: 0 }),
                },
            decreases records.len() - i,
        {
            let e = records[i].clone();
            s.insert_entry(e);
            proof {
                let t = records@.subrange(0, i + 1);
                assert(t.drop_last() =~= records@.subrange(0, i as int));
            }
            i += 1;
        }
        assert(records@.subrange(0, records.len() as int) =~= records@);
        assert(s@.pending_writes =~= Seq::<WriteView>::empty());
        s
    }

    /// Store `e` under its id in the entry list, keeping the order.
    fn insert_entry(&mut self, e: LogEntry)
        requires
            old(self).wf(),
        ensures
            final(self).wf(),
            entry_map(final(self).entries@) == entry_map(old(self).entries@).insert(e.id, e),
            final(self).current_term == old(self).current_term,
            final(self).last_log_index == old(self).last_log_index,
            final(self).commit_index == old(self).commit_index,
            final(self).pending_writes == old(self).pending_writes,
    {
        let ghost s0 = self.entries@;
        let ghost m1 = entry_map(s0).insert(e.id, e);
        proof {
            lemma_entry_map_char(s0);
        }
        let n = self.entries.len();
        let mut p: usize = 0;
        while p < n && self.entries[p].id < e.id
            invariant
                p <= n,
                n == self.entries.len(),
                self.entries@ == s0,
                forall|j: int| 0 <= j < p ==> s0[j].id < e.id,
            decreases n - p,
        {
            p += 1;
        }
        if p < n && self.entries[p].id == e.id {
            self.entries.set(p, e);
            let ghost s1 = self.entries@;
            proof {
                assert(s1 == s0.update(p as int, e));
                assert forall|i: int| 0 <= i < s1.len() implies m1.contains_key(#[trigger] s1[i].id)
                    && m1[s1[i].id] == s1[i] by {
                    if i != p {
                        assert(s1[i] == s0[i]);
                        assert(entry_map(s0).contains_key(s0[i].id));
                    }
                }
                assert forall|k: u64| m1.contains_key(k) implies exists|i: int|
                    0 <= i < s1.len() && s1[i].id == k by {
                    if k == e.id {
                        assert(s1[p as int].id == k);
                    } else {
                        assert(entry_map(s0).contains_key(k));
                        let j = choose|j: int| 0 <= j < s0.len() && s0[j].id == k;
                        assert(s1[j].id == k);
                    }
                }
                lemma_listing_of(s1, m1);
            }
        } else {
            self.entries.insert(p, e);
            let ghost s1 = self.entries@;
            proof {
                assert(s1 == s0.insert(p as int, e));
                assert forall|i: int, j: int| 0 <= i < j < s1.len() implies s1[i].id < s1[j].id by {
                    if p < n {
                        assert(s0[p as int].id > e.id);
                    }
                    if j < p {
                        assert(s1[i] == s0[i] && s1[j] == s0[j]);
                    } else if j == p {
                        assert(s1[i] == s0[i]);
                    } else if i == p {
                        assert(s1[j] == s0[j - 1]);
                        assert(s0[p as int].id <= s0[j - 1].id);
                    } else if i < p {
                        assert(s1[i] == s0[i] && s1[j] == s0[j - 1]);
                    } else {
                        assert(s1[i] == s0[i - 1] && s1[j] == s0[j - 1]);
                    }
                }
                assert forall|i: int| 0 <= i < s1.len() implies m1.contains_key(#[trigger] s1[i].id)
                    && m1[s1[i].id] == s1[i] by {
                    if i < p {
                        assert(s1[i] == s0[i]);
                        assert(entry_map(s0).contains_key(s0[i].id));
                    } else if i > p {
                        assert(s1[i] == s0[i - 1]);
                        assert(s0[p as int].id > e.id);
                        assert(s0[p as int].id <= s0[i - 1].id);
                        assert(entry_map(s0).contains_key(s0[i - 1].id));
                    }
                }
                assert forall|k: u64| m1.contains_key(k) implies exists|i: int|
                    0 <= i < s1.len() && s1[i].id == k by {
                    if k == e.id {
                        assert(s1[p as int].id == k);
                    } else {
                        assert(entry_map(s0).contains_key(k));
                        let j = choose|j: int| 0 <= j < s0.len() && s0[j].id == k;
                        if j < p {
                            assert(s1[j].id == k);
                        } else {
                            assert(s1[j + 1].id == k);
                        }
                    }
                }
                lemma_listing_of(s1, m1);
            }
        }
    }

    /// The metadata that describes the current state.
    pub fn metadata(&self) -> (m: Metadata)
        ensures
            m == self@.metadata(),
    {
        Metadata {
            current_term: self.current_term,
            last_log_index: self.last_log_index,
            commit_index: self.commit_index,
        }
    }

    /// Queue a save of the current metadata.
    fn save_metadata(&mut self)
        ensures
            final(self)@ == old(self)@.saved(),
            final(self).entries == old(self).entries,
    {
        let m = self.metadata();
        let ghost p0 = self.pending_writes@;
        self.pending_writes.push(StorageWrite::SaveMetadata(m));
        assert(self.pending_writes@.map_values(|w: StorageWrite| w@) =~= p0.map_values(
            |w: StorageWrite| w@,
        ).push(WriteView::SaveMetadata(m)));
    }

    /// Append a log entry: it is stored under its id, replacing any entry
    /// with that id, and the last log index rises to its id where it is
    /// below. The entry and then the metadata are queued for writing.
    pub fn append(&mut self, entry: LogEntry)
        requires
            old(self).wf(),
        ensures
            final(self).wf(),
            final(self)@ == old(self)@.append(entry),
    {
        let id = entry.id;
        let copy = entry.clone();
        self.insert_entry(entry);
        if id > self.last_log_index {
            self.last_log_index = id;
        }
        let ghost p0 = self.pending_writes@;
        self.pending_writes.push(StorageWrite::AppendEntry(copy));
        assert(self.pending_writes@.map_values(|w: StorageWrite| w@) =~= p0.map_values(
            |w: StorageWrite| w@,
        ).push(WriteView::AppendEntry(copy)));
        self.save_metadata();
    }

    /// Append the records one after another, as `append` does for each.
    pub fn append_all(&mut self, records: &Vec<LogEntry>)
        requires
            old(self).wf(),
        ensures
            final(self).wf(),
            final(self)@ == old(self)@.append_all(records@),
    {
        let ghost s0 = self@;
        let mut i: usize = 0;
        while i < records.len()
            invariant
                i <= records.len(),
                self.wf(),
                self@ == s0.append_all(records@.subrange(0, i as int)),
            decreases records.len() - i,
        {
            self.append(records[i].clone());
            proof {
                let t = records@.subrange(0, i + 1);
                assert(t.drop_last() =~= records@.subrange(0, i as int));
                assert(t.last() == records@[i as int]);
            }
            i += 1;
        }
        assert(records@.subrange(0, records.len() as int) =~= records@);
    }

    /// The first position in the entry list whose id is at least `id`.
    fn position_from(&self, id: u64) -> (p: usize)
        requires
            self.wf(),
        ensures
            p <= self.entries.len(),
            forall|j: int| 0 <= j < p ==> self.entries@[j].id < id,
            forall|j: int| p <= j < self.entries.len() ==> self.entries@[j].id >= id,
    {
        let n = self.entries.len();
        let mut p: usize = 0;
        while p < n && self.entries[p].id < id
            invariant
                p <= n,
                n == self.entries.len(),
                forall|j: int| 0 <= j < p ==> self.entries@[j].id < id,
            decreases n - p,
        {
            p += 1;
        }
        proof {
            if p < n {
                assert forall|j: int| p <= j < n implies self.entries@[j].id >= id by {
                    if j > p {
                        assert(self.entries@[p as int].id < self.entries@[j].id);
                    }
                }
            }
        }
        p
    }

    /// The entry stored under `id`, if any.
    pub fn get(&self, id: u64) -> (r: Option<&LogEntry>)
        requires
            self.wf(),
        ensures
            match r {
                Some(e) => self@.entries.contains_key(id) && *e == self@.entries[id],
                None => !self@.entries.contains_key(id),
            },
    {
        proof {
            lemma_entry_map_char(self.entries@);
        }
        let p = self.position_from(id);
        if p < self.entries.len() && self.entries[p].id == id {
            proof {
                assert(entry_map(self.entries@).contains_key(self.entries@[p as int].id));
                assert(entry_map(self.entries@)[self.entries@[p as int].id] == self.entries@[p as int]);
            }
            Some(&self.entries[p])
        } else {
            proof {
                if self@.entries.contains_key(id) {
                    let j = choose|j: int| 0 <= j < self.entries@.len() && self.entries@[j].id == id;
                    if j > p {
                        assert(self.entries@[p as int].id < self.entries@[j].id);
                    }
                }
            }
            None
        }
    }

    /// All entries with id `start_id` or above, in id order.
    pub fn get_entries_from(&self, start_id: u64) -> (r: Vec<LogEntry>)
        requires
            self.wf(),
        ensures
            r@ == sorted_listing(entries_from(self@.entries, start_id)),
    {
        let ghost s = self.entries@;
        let p = self.position_from(start_id);
        let n = self.entries.len();
        let mut r: Vec<LogEntry> = Vec::new();
        let mut i: usize = p;
        while i < n
            invariant
                p <= i <= n,
                n == self.entries.len(),
                s == self.entries@,
                r@ == s.subrange(p as int, i as int),
            decreases n - i,
        {
            r.push(self.entries[i].clone());
            i += 1;
            assert(r@ =~= s.subrange(p as int, i as int));
        }
        proof {
            let m = entries_from(self@.entries, start_id);
            let t = r@;
            lemma_entry_map_char(s);
            assert(t =~= s.subrange(p as int, n as int));
            assert forall|a: int, b: int| 0 <= a < b < t.len() implies t[a].id < t[b].id by {
                assert(t[a] == s[p + a] && t[b] == s[p + b]);
            }
            assert forall|a: int| 0 <= a < t.len() implies m.contains_key(#[trigger] t[a].id) && m[t[a].id]
                == t[a] by {
                assert(t[a] == s[p + a]);
                assert(entry_map(s).contains_key(s[p + a].id));
            }
            assert forall|k: u64| m.contains_key(k) implies exists|a: int| 0 <= a < t.len() && t[a].id == k by {
                assert(entry_map(s).contains_key(k));
                let j = choose|j: int| 0 <= j < s.len() && s[j].id == k;
                assert(t[j - p] == s[j]);
            }
            lemma_listing_of(t, m);
            lemma_sorted_listing_is(t, m);
        }
        r
    }

    /// All entries, in id order.
    pub fn get_all_entries(&self) -> (r: Vec<LogEntry>)
        requires
            self.wf(),
        ensures
            r@ == sorted_listing(self@.entries),
    {
        let r = clone_entries(&self.entries);
        proof {
            lemma_sorted_listing_is(self.entries@, self@.entries);
        }
        r
    }

    /// The current term.
    pub fn get_current_term(&self) -> (t: u64)
        ensures
            t == self@.current_term,
    {
        self.current_term
    }

    /// Set the current term; the metadata is queued for writing.
    pub fn set_current_term(&mut self, term: u64)
        requires
            old(self).wf(),
        ensures
            final(self).wf(),
            final(self)@ == old(self)@.set_current_term(term),
    {
        self.current_term = term;
        self.save_metadata();
    }

    /// The last log index.
    pub fn get_last_log_index(&self) -> (i: u64)
        ensures
            i == self@.last_log_index,
    {
        self.last_log_index
    }

    /// The commit index.
    pub fn get_commit_index(&self) -> (i: u64)
        ensures
            i == self@.commit_index,
    {
        self.commit_index
    }

    /// The term of the entry at the last log index, or 0 where none is
    /// stored there.
    pub fn get_last_log_term(&self) -> (t: u64)
        requires
            self.wf(),
        ensures
            t == self@.last_log_term(),
    {
        match self.get(self.last_log_index) {
            Some(e) => e.term,
            None => 0,
        }
    }

    /// Remove every entry with id `index` or above (used for conflict
    /// resolution). The last log index becomes the largest id kept, or 0;
    /// the commit index falls to the highest committed id kept where it
    /// stood above it; a rewrite of the log file and the metadata are
    /// queued.
    pub fn truncate_from(&mut self, index: u64)
        requires
            old(self).wf(),
        ensures
            final(self).wf(),
            final(self)@ == old(self)@.truncate_from(index),
    {
        let ghost s0 = self.entries@;
        let ghost m0 = self@.entries;
        let p = self.position_from(index);
        self.entries.truncate(p);
        let ghost s1 = self.entries@;
        let ghost kept = entries_before(m0, index);
        proof {
            assert(s1 =~= s0.subrange(0, p as int));
            lemma_entry_map_char(s0);
            assert forall|a: int| 0 <= a < s1.len() implies kept.contains_key(#[trigger] s1[a].id)
                && kept[s1[a].id] == s1[a] by {
                assert(s1[a] == s0[a]);
                assert(entry_map(s0).contains_key(s0[a].id));
            }
            assert forall|k: u64| kept.contains_key(k) implies exists|a: int| 0 <= a < s1.len() && s1[a].id == k by {
                assert(entry_map(s0).contains_key(k));
                let j = choose|j: int| 0 <= j < s0.len() && s0[j].id == k;
                assert(s1[j] == s0[j]);
            }
            lemma_listing_of(s1, kept);
            lemma_sorted_listing_is(s1, kept);
        }
        if p == 0 {
            self.last_log_index = 0;
            proof {
                assert(kept =~= Map::<u64, LogEntry>::empty());
                lemma_max_key_empty();
            }
        } else {
            self.last_log_index = self.entries[p - 1].id;
            proof {
                lemma_max_key_of_listing(s1);
            }
        }
        let mut hc: u64 = 0;
        let mut i: usize = 0;
        while i < p
            invariant
                i <= p,
                p == self.entries.len(),
                self.entries@ == s1,
                hc == committed_prefix(s1, i as int),
            decreases p - i,
        {
            if self.entries[i].committed {
                hc = self.entries[i].id;
            }
            i += 1;
        }
        proof {
            lemma_highest_committed(s1);
        }
        if hc < self.commit_index {
            self.commit_index = hc;
        }
        let copy = clone_entries(&self.entries);
        let ghost p0 = self.pending_writes@;
        self.pending_writes.push(StorageWrite::RewriteLog(copy));
        assert(self.pending_writes@.map_values(|w: StorageWrite| w@) =~= p0.map_values(
            |w: StorageWrite| w@,
        ).push(WriteView::RewriteLog(s1)));
        self.save_metadata();
    }

    /// Commit the entries with id in `(commit_index, index]` and move the
    /// commit index to the highest of them (it stays where there is none).
    /// The entries committed afresh, then the metadata, are queued for
    /// writing. Returns those entries, in id order, as they now read.
    pub fn commit_up_to(&mut self, index: u64) -> (r: Vec<LogEntry>)
        requires
            old(self).wf(),
        ensures
            final(self).wf(),
            final(self)@ == old(self)@.commit_up_to(index),
            r@ == old(self)@.newly_committed(index),
    {
        let lo = self.commit_index;
        let n = self.entries.len();
        let ghost s0 = self.entries@;
        let ghost m0 = self@.entries;
        let ghost p0 = self@.pending_writes;
        let mut result: Vec<LogEntry> = Vec::new();
        let mut top: u64 = lo;
        let mut i: usize = 0;
        while i < n
            invariant
                i <= n,
                n == self.entries.len(),
                n == s0.len(),
                lo == self.commit_index,
                self.commit_index == old(self).commit_index,
                self.current_term == old(self).current_term,
                self.last_log_index == old(self).last_log_index,
                self.pending_writes == old(self).pending_writes,
                forall|j: int| 0 <= j < i ==> self.entries@[j] == commit_if_in(s0[j], lo, index),
                forall|j: int| i <= j < n ==> self.entries@[j] == s0[j],
                result@ == fresh_prefix(s0, lo, index, i as int),
                top == top_prefix(s0, lo, index, i as int),
            decreases n - i,
        {
            let id = self.entries[i].id;
            if lo < id && id <= index {
                top = id;
                if !self.entries[i].committed {
                    let mut e = self.entries[i].clone();
                    e.commit();
                    let e2 = e.clone();
                    self.entries.set(i, e);
                    result.push(e2);
                }
            }
            i += 1;
        }
        let ghost s1 = self.entries@;
        let ghost target = commit_range(m0, lo, index);
        proof {
            lemma_entry_map_char(s0);
            assert forall|a: int, b: int| 0 <= a < b < s1.len() implies s1[a].id < s1[b].id by {
                assert(s0[a].id < s0[b].id);
            }
            assert forall|a: int| 0 <= a < s1.len() implies target.contains_key(#[trigger] s1[a].id)
                && target[s1[a].id] == s1[a] by {
                assert(entry_map(s0).contains_key(s0[a].id));
            }
            assert forall|k: u64| target.contains_key(k) implies exists|a: int| 0 <= a < s1.len() && s1[a].id == k by {
                let j = choose|j: int| 0 <= j < s0.len() && s0[j].id == k;
                assert(s1[j].id == k);
            }
            lemma_listing_of(s1, target);
            lemma_fresh_prefix_listing(s0, lo, index);
            lemma_commit_target(s0, lo, index);
        }
        self.commit_index = top;
        let mut k: usize = 0;
        while k < result.len()
            invariant
                k <= result.len(),
                self.wf(),
                self@ == (StorageView {
                    entries: target,
                    commit_index: top,
                    pending_writes: p0 + result@.subrange(0, k as int).map_values(
                        |e: LogEntry| WriteView::AppendEntry(e),
                    ),
                    ..old(self)@
                }),
            decreases result.len() - k,
        {
            let ghost before = self.pending_writes@;
            let e = result[k].clone();
            self.pending_writes.push(StorageWrite::AppendEntry(e));
            proof {
                assert(self.pending_writes@.map_values(|w: StorageWrite| w@) =~= before.map_values(
                    |w: StorageWrite| w@,
                ).push(WriteView::AppendEntry(e)));
                assert(result@.subrange(0, k + 1).map_values(|e: LogEntry| WriteView::AppendEntry(e))
                    =~= result@.subrange(0, k as int).map_values(|e: LogEntry| WriteView::AppendEntry(e)).push(
                    WriteView::AppendEntry(result@[k as int]),
                ));
                assert(p0 + result@.subrange(0, k + 1).map_values(|e: LogEntry| WriteView::AppendEntry(e))
                    =~= (p0 + result@.subrange(0, k as int).map_values(
                    |e: LogEntry| WriteView::AppendEntry(e),
                )).push(WriteView::AppendEntry(result@[k as int])));
            }
            k += 1;
        }
        assert(result@.subrange(0, result.len() as int) =~= result@);
        self.save_metadata();
        result
    }

    /// Hand out the writes queued so far, oldest first.
    pub fn take_pending_writes(&mut self) -> (w: Vec<StorageWrite>)
        requires
            old(self).wf(),
        ensures
            final(self).wf(),
            w@.map_values(|x: StorageWrite| x@) == old(self)@.pending_writes,
            final(self)@ == (StorageView { pending_writes: Seq::empty(), ..old(self)@ }),
    {
        let mut w: Vec<StorageWrite> = Vec::new();
        std::mem::swap(&mut w, &mut self.pending_writes);
        assert(self@.pending_writes =~= Seq::<WriteView>::empty());
        w
    }
}

/// A map built from a sequence of records has finitely many ids.
pub proof fn lemma_entry_map_finite(s: Seq<LogEntry>)
    ensures
        entry_map(s).dom().finite(),
    decreases s.len(),
{
    if s.len() > 0 {
        lemma_entry_map_finite(s.drop_last());
    }
}

} // verus!
