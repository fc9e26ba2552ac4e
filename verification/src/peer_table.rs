use vstd::prelude::*;

verus! {

// ---------------------------------------------------------------------------
// A table from peer address to a log index.
// ---------------------------------------------------------------------------

/// No address occurs twice among the rows.
pub open spec fn keys_distinct(s: Seq<(String, u64)>) -> bool {
    forall|i: int, j: int| 0 <= i < j < s.len() ==> s[i].0@ != s[j].0@
}

/// The map the rows denote, a later row replacing an earlier one.
pub open spec fn table_map(s: Seq<(String, u64)>) -> Map<Seq<char>, u64>
    decreases s.len(),
{
    if s.len() == 0 {
        Map::empty()
    } else {
        table_map(s.drop_last()).insert(s.last().0@, s.last().1)
    }
}

/// How many peers the table records at `n` or above.
pub open spec fn count_at_least(m: Map<Seq<char>, u64>, n: u64) -> nat {
    m.dom().filter(|k: Seq<char>| m[k] >= n).len()
}

/// How many of the first `i` rows hold a value at `n` or above.
pub open spec fn rows_at_least(s: Seq<(String, u64)>, n: u64, i: int) -> nat
    decreases i,
{
    if i <= 0 {
        0
    } else {
        rows_at_least(s, n, i - 1) + if s[i - 1].1 >= n {
            1nat
        } else {
            0nat
        }
    }
}

proof fn lemma_table_char(s: Seq<(String, u64)>)
    requires
        keys_distinct(s),
    ensures
        forall|i: int|
            0 <= i < s.len() ==> #[trigger] table_map(s).contains_key(s[i].0@) && table_map(s)[s[i].0@]
                == s[i].1,
        forall|k: Seq<char>|
            #[trigger] table_map(s).contains_key(k) ==> exists|i: int| 0 <= i < s.len() && s[i].0@ == k,
        table_map(s).dom().finite(),
    decreases s.len(),
{
    if s.len() > 0 {
        let t = s.drop_last();
        assert(keys_distinct(t));
        lemma_table_char(t);
        assert(table_map(s) == table_map(t).insert(s.last().0@, s.last().1));
        assert forall|i: int| 0 <= i < s.len() implies #[trigger] table_map(s).contains_key(s[i].0@)
            && table_map(s)[s[i].0@] == s[i].1 by {
            if i < s.len() - 1 {
                assert(t[i] == s[i]);
                assert(s[i].0@ != s[s.len() - 1].0@);
            } else {
                assert(s[i] == s.last());
            }
        }
        assert forall|k: Seq<char>| #[trigger] table_map(s).contains_key(k) implies exists|i: int|
            0 <= i < s.len() && s[i].0@ == k by {
            if k == s.last().0@ {
                assert(s[s.len() - 1].0@ == k);
            } else {
                assert(table_map(t).contains_key(k));
                let i = choose|i: int| 0 <= i < t.len() && t[i].0@ == k;
                assert(s[i].0@ == k);
            }
        }
    }
}

proof fn lemma_table_of(s: Seq<(String, u64)>, m: Map<Seq<char>, u64>)
    requires
        keys_distinct(s),
        forall|i: int| 0 <= i < s.len() ==> m.contains_key(#[trigger] s[i].0@) && m[s[i].0@] == s[i].1,
        forall|k: Seq<char>| m.contains_key(k) ==> exists|i: int| 0 <= i < s.len() && s[i].0@ == k,
    ensures
        table_map(s) == m,
{
    lemma_table_char(s);
    assert forall|k: Seq<char>| #[trigger] table_map(s).contains_key(k) <==> m.contains_key(k) by {
        if m.contains_key(k) {
            let i = choose|i: int| 0 <= i < s.len() && s[i].0@ == k;
            assert(table_map(s).contains_key(s[i].0@));
        }
        if table_map(s).contains_key(k) {
            let i = choose|i: int| 0 <= i < s.len() && s[i].0@ == k;
            assert(m.contains_key(s[i].0@));
        }
    }
    assert forall|k: Seq<char>| #[trigger] table_map(s).contains_key(k) implies table_map(s)[k] == m[k] by {
        let i = choose|i: int| 0 <= i < s.len() && s[i].0@ == k;
        assert(table_map(s).contains_key(s[i].0@));
        assert(m.contains_key(s[i].0@));
    }
    assert(table_map(s) =~= m);
}

proof fn lemma_rows_count(s: Seq<(String, u64)>, n: u64, i: int)
    requires
        keys_distinct(s),
        0 <= i <= s.len(),
    ensures
        rows_at_least(s, n, i) == count_at_least(table_map(s.subrange(0, i)), n),
    decreases i,
{
    let p = s.subrange(0, i);
    let m = table_map(p);
    assert(keys_distinct(p));
    lemma_table_char(p);
    if i == 0 {
        assert(m.dom().filter(|k: Seq<char>| m[k] >= n) =~= Set::<Seq<char>>::empty());
    } else {
        lemma_rows_count(s, n, i - 1);
        let q = s.subrange(0, i - 1);
        let m0 = table_map(q);
        assert(p.drop_last() =~= q);
        let key = s[i - 1].0@;
        let v = s[i - 1].1;
        assert(p.last() == s[i - 1]);
        assert(m == m0.insert(key, v));
        assert(keys_distinct(q));
        lemma_table_char(q);
        assert(!m0.contains_key(key)) by {
            if m0.contains_key(key) {
                let j = choose|j: int| 0 <= j < q.len() && q[j].0@ == key;
                assert(s[j].0@ != s[i - 1].0@);
            }
        }
        let f0 = m0.dom().filter(|k: Seq<char>| m0[k] >= n);
        let f1 = m.dom().filter(|k: Seq<char>| m[k] >= n);
        m0.dom().lemma_len_filter(|k: Seq<char>| m0[k] >= n);
        if v >= n {
            assert(f1 =~= f0.insert(key));
            assert(!f0.contains(key));
        } else {
            assert(f1 =~= f0);
        }
    }
}

/// A table from peer address to a log index, one row per address.
pub struct PeerTable {
    rows: Vec<(String, u64)>,
}

impl View for PeerTable {
    type V = Map<Seq<char>, u64>;

    closed spec fn view(&self) -> Map<Seq<char>, u64> {
        table_map(self.rows@)
    }
}

impl PeerTable {
    /// No address occurs twice among the rows.
    pub closed spec fn wf(&self) -> bool {
        keys_distinct(self.rows@)
    }

    /// An empty table.
    pub fn new() -> (t: Self)
        ensures
            t.wf(),
            t@ == Map::<Seq<char>, u64>::empty(),
    {
        let t = PeerTable { rows: Vec::new() };
        assert(t@ =~= Map::<Seq<char>, u64>::empty());
        t
    }

    /// The row that records `key`, if any.
    fn find(&self, key: &String) -> (r: Option<usize>)
        requires
            self.wf(),
        ensures
            match r {
                Some(i) => i < self.rows.len() && self.rows@[i as int].0@ == key@,
                None => forall|i: int| 0 <= i < self.rows.len() ==> self.rows@[i].0@ != key@,
            },
    {
        let mut i: usize = 0;
        while i < self.rows.len()
            invariant
                i <= self.rows.len(),
                forall|j: int| 0 <= j < i ==> self.rows@[j].0@ != key@,
            decreases self.rows.len() - i,
        {
            if self.rows[i].0 == *key {
                return Some(i);
            }
            i += 1;
        }
        None
    }

    /// The value recorded for `key`, if any.
    pub fn get(&self, key: &String) -> (r: Option<u64>)
        requires
            self.wf(),
        ensures
            r == (if self@.contains_key(key@) {
                Some(self@[key@])
            } else {
                None
            }),
    {
        proof {
            lemma_table_char(self.rows@);
        }
        match self.find(key) {
            Some(i) => Some(self.rows[i].1),
            None => {
                proof {
                    if self@.contains_key(key@) {
                        let j = choose|j: int| 0 <= j < self.rows@.len() && self.rows@[j].0@ == key@;
                    }
                }
                None
            },
        }
    }

    /// Record `value` for `key`, replacing any earlier value.
    pub fn insert(&mut self, key: String, value: u64)
        requires
            old(self).wf(),
        ensures
            final(self).wf(),
            final(self)@ == old(self)@.insert(key@, value),
    {
        let ghost s0 = self.rows@;
        let ghost m1 = table_map(s0).insert(key@, value);
        proof {
            lemma_table_char(s0);
        }
        match self.find(&key) {
            Some(i) => {
                let ghost kv = key@;
                self.rows.set(i, (key, value));
                proof {
                    let s1 = self.rows@;
                    assert forall|a: int, b: int| 0 <= a < b < s1.len() implies s1[a].0@ != s1[b].0@ by {
                        if a != i && b != i {
                            assert(s1[a] == s0[a] && s1[b] == s0[b]);
                        } else if a == i {
                            assert(s1[b] == s0[b]);
                            assert(s0[i as int].0@ != s0[b].0@);
                        } else {
                            assert(s1[a] == s0[a]);
                            assert(s0[a].0@ != s0[i as int].0@);
                        }
                    }
                    assert forall|a: int| 0 <= a < s1.len() implies m1.contains_key(#[trigger] s1[a].0@)
                        && m1[s1[a].0@] == s1[a].1 by {
                        if a != i {
                            assert(s1[a] == s0[a]);
                            assert(table_map(s0).contains_key(s0[a].0@));
                            assert(s0[a].0@ != s0[i as int].0@ || a == i);
                        }
                    }
                    assert forall|k: Seq<char>| m1.contains_key(k) implies exists|a: int|
                        0 <= a < s1.len() && s1[a].0@ == k by {
                        if k == kv {
                            assert(s1[i as int].0@ == k);
                        } else {
                            let j = choose|j: int| 0 <= j < s0.len() && s0[j].0@ == k;
                            assert(s1[j].0@ == k);
                        }
                    }
                    lemma_table_of(s1, m1);
                }
            },
            None => {
                let ghost kv = key@;
                self.rows.push((key, value));
                proof {
                    let s1 = self.rows@;
                    assert(s1.drop_last() =~= s0);
                    assert(s1.last().0@ == kv);
                    assert forall|a: int, b: int| 0 <= a < b < s1.len() implies s1[a].0@ != s1[b].0@ by {
                        assert(s1[a] == s0[a]);
                        if b < s0.len() {
                            assert(s1[b] == s0[b]);
                        }
                    }
                }
            },
        }
    }

    /// How many addresses the table records at `n` or above.
    pub fn count_at_least(&self, n: u64) -> (c: usize)
        requires
            self.wf(),
        ensures
            c == count_at_least(self@, n),
    {
        let mut c: usize = 0;
        let mut i: usize = 0;
        while i < self.rows.len()
            invariant
                i <= self.rows.len(),
                c == rows_at_least(self.rows@, n, i as int),
                c <= i,
            decreases self.rows.len() - i,
        {
            if self.rows[i].1 >= n {
                c = c + 1;
            }
            i += 1;
        }
        proof {
            lemma_rows_count(self.rows@, n, self.rows.len() as int);
            assert(self.rows@.subrange(0, self.rows.len() as int) =~= self.rows@);
        }
        c
    }
}

// ---------------------------------------------------------------------------
// A set of voter names.
// ---------------------------------------------------------------------------

/// No name occurs twice.
pub open spec fn names_distinct(s: Seq<String>) -> bool {
    forall|i: int, j: int| 0 <= i < j < s.len() ==> s[i]@ != s[j]@
}

/// The set of the names' texts.
pub open spec fn name_set(s: Seq<String>) -> Set<Seq<char>>
    decreases s.len(),
{
    if s.len() == 0 {
        Set::empty()
    } else {
        name_set(s.drop_last()).insert(s.last()@)
    }
}

proof fn lemma_name_set(s: Seq<String>)
    requires
        names_distinct(s),
    ensures
        forall|x: Seq<char>|
            #[trigger] name_set(s).contains(x) <==> exists|i: int| #![trigger s[i]] 0 <= i < s.len() && s[i]@ == x,
        name_set(s).finite(),
        name_set(s).len() == s.len(),
    decreases s.len(),
{
    if s.len() > 0 {
        let t = s.drop_last();
        assert(names_distinct(t));
        lemma_name_set(t);
        assert forall|x: Seq<char>| name_set(s).contains(x) <==> exists|i: int|
            0 <= i < s.len() && s[i]@ == x by {
            if name_set(s).contains(x) && x != s.last()@ {
                let i = choose|i: int| 0 <= i < t.len() && t[i]@ == x;
                assert(s[i]@ == x);
            }
            if exists|i: int| 0 <= i < s.len() && s[i]@ == x {
                let i = choose|i: int| 0 <= i < s.len() && s[i]@ == x;
                if i < s.len() - 1 {
                    assert(t[i] == s[i]);
                }
            }
        }
        assert(!name_set(t).contains(s.last()@)) by {
            if name_set(t).contains(s.last()@) {
                let i = choose|i: int| 0 <= i < t.len() && t[i]@ == s.last()@;
                assert(s[i]@ != s[s.len() - 1]@);
            }
        }
    }
}

/// The names of the voters counted in an election.
pub struct VoteSet {
    names: Vec<String>,
}

impl View for VoteSet {
    type V = Set<Seq<char>>;

    closed spec fn view(&self) -> Set<Seq<char>> {
        name_set(self.names@)
    }
}

impl VoteSet {
    /// No name occurs twice.
    pub closed spec fn wf(&self) -> bool {
        names_distinct(self.names@)
    }

    /// No votes.
    pub fn new() -> (v: Self)
        ensures
            v.wf(),
            v@ == Set::<Seq<char>>::empty(),
    {
        VoteSet { names: Vec::new() }
    }

    /// Whether `name` has voted.
    pub fn contains(&self, name: &String) -> (b: bool)
        requires
            self.wf(),
        ensures
            b == self@.contains(name@),
    {
        let mut i: usize = 0;
        while i < self.names.len()
            invariant
                i <= self.names.len(),
                self.wf(),
                forall|j: int| 0 <= j < i ==> self.names@[j]@ != name@,
            decreases self.names.len() - i,
        {
            if self.names[i] == *name {
                proof {
                    lemma_name_set(self.names@);
                }
                assert(self.names@[i as int]@ == name@);
                return true;
            }
            i += 1;
        }
        proof {
            lemma_name_set(self.names@);
        }
        false
    }

    /// Count a vote from `name` (no effect where it is already counted).
    pub fn insert(&mut self, name: String)
        requires
            old(self).wf(),
        ensures
            final(self).wf(),
            final(self)@ == old(self)@.insert(name@),
    {
        if !self.contains(&name) {
            let ghost s0 = self.names@;
            proof {
                lemma_name_set(s0);
            }
            self.names.push(name);
            proof {
                let s1 = self.names@;
                assert(s1.drop_last() =~= s0);
                assert forall|a: int, b: int| 0 <= a < b < s1.len() implies s1[a]@ != s1[b]@ by {
                    assert(s1[a] == s0[a]);
                    if b < s0.len() {
                        assert(s1[b] == s0[b]);
                    } else {
                        assert(!name_set(s0).contains(s1[b]@));
                    }
                }
            }
        } else {
            assert(self@.insert(name@) =~= self@);
        }
    }

    /// Forget every vote.
    pub fn clear(&mut self)
        ensures
            final(self).wf(),
            final(self)@ == Set::<Seq<char>>::empty(),
    {
        self.names = Vec::new();
        assert(self.names@ =~= Seq::<String>::empty());
    }

    /// How many distinct names have voted.
    pub fn len(&self) -> (n: usize)
        requires
            self.wf(),
        ensures
            n == self@.len(),
    {
        proof {
            lemma_name_set(self.names@);
        }
        self.names.len()
    }
}

} // verus!
