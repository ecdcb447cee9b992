//! A table from flow keys (strings) to values.
//!
//! The table keeps its entries in a vector with no key twice; it stands for a
//! finite map from the characters of a key to its value.
use vstd::prelude::*;

verus! {

/// The keys of a list of entries, as character sequences.
pub open spec fn keys_of<V>(s: Seq<(String, V)>) -> Seq<Seq<char>> {
    s.map_values(|e: (String, V)| e.0@)
}

/// The map that a list of entries with distinct keys stands for.
pub open spec fn map_of<V>(s: Seq<(String, V)>) -> Map<Seq<char>, V> {
    Map::new(
        |k: Seq<char>| keys_of(s).contains(k),
        |k: Seq<char>| s[choose|i: int| 0 <= i < s.len() && s[i].0@ == k].1,
    )
}

/// Keys `ks` with values `vs`, pairwise distinct keys, listing exactly the
/// pairs of `m`: the entries of a finite map in some order.
pub open spec fn lists_entries<V>(ks: Seq<Seq<char>>, vs: Seq<V>, m: Map<Seq<char>, V>) -> bool {
    &&& ks.len() == vs.len()
    &&& ks.no_duplicates()
    &&& m.dom().finite()
    &&& ks.len() == m.dom().len()
    &&& forall|i: int| 0 <= i < ks.len() ==> #[trigger] m.contains_key(ks[i]) && m[ks[i]] == vs[i]
    &&& forall|k: Seq<char>| #[trigger] m.contains_key(k) ==> ks.contains(k)
}

/// A list of entries whose keys are pairwise distinct and whose pairs are
/// exactly the pairs of `m`: the entries of a map listed in some order.
pub open spec fn lists_map<V>(s: Seq<(String, V)>, m: Map<Seq<char>, V>) -> bool {
    lists_entries(keys_of(s), s.map_values(|e: (String, V)| e.1), m)
}

/// In a list with distinct keys, the entry at `i` is what the map holds for its key.
pub proof fn lemma_map_of_index<V>(s: Seq<(String, V)>, i: int)
    requires
        keys_of(s).no_duplicates(),
        0 <= i < s.len(),
    ensures
        map_of(s).contains_key(s[i].0@),
        map_of(s)[s[i].0@] == s[i].1,
{
    assert(keys_of(s)[i] == s[i].0@);
    let j = choose|j: int| 0 <= j < s.len() && s[j].0@ == s[i].0@;
    assert(0 <= j < s.len() && s[j].0@ == s[i].0@);
    assert(keys_of(s)[j] == keys_of(s)[i]);
}

/// A key is in the map exactly when some entry carries it.
pub proof fn lemma_map_of_contains<V>(s: Seq<(String, V)>, k: Seq<char>)
    ensures
        map_of(s).contains_key(k) <==> exists|i: int| 0 <= i < s.len() && s[i].0@ == k,
{
    if map_of(s).contains_key(k) {
        let i = choose|i: int| 0 <= i < keys_of(s).len() && keys_of(s)[i] == k;
        assert(0 <= i < s.len() && s[i].0@ == k);
    }
    if exists|i: int| 0 <= i < s.len() && s[i].0@ == k {
        let i = choose|i: int| 0 <= i < s.len() && s[i].0@ == k;
        assert(keys_of(s)[i] == k);
    }
}

/// A list with distinct keys stands for `m` when each of its entries is a pair of
/// `m` and each key of `m` is carried by some entry.
pub proof fn lemma_map_of_eq<V>(s: Seq<(String, V)>, m: Map<Seq<char>, V>)
    requires
        keys_of(s).no_duplicates(),
        forall|j: int| 0 <= j < s.len() ==> #[trigger] m.contains_key(s[j].0@) && m[s[j].0@] == s[j].1,
        forall|kk: Seq<char>| #[trigger] m.contains_key(kk) ==> exists|j: int| 0 <= j < s.len() && s[j].0@ == kk,
    ensures
        map_of(s) == m,
{
    assert forall|kk: Seq<char>| true implies (map_of(s).contains_key(kk) <==> m.contains_key(kk))
        && (m.contains_key(kk) ==> map_of(s)[kk] == m[kk]) by {
        lemma_map_of_contains(s, kk);
        if map_of(s).contains_key(kk) {
            let j = choose|j: int| 0 <= j < s.len() && s[j].0@ == kk;
            lemma_map_of_index(s, j);
            assert(m.contains_key(s[j].0@));
        }
    }
    assert(map_of(s) =~= m);
}

/// A list with distinct keys lists the map it stands for.
pub proof fn lemma_lists_own_map<V>(s: Seq<(String, V)>)
    requires
        keys_of(s).no_duplicates(),
    ensures
        lists_map(s, map_of(s)),
{
    assert(map_of(s).dom() =~= keys_of(s).to_set());
    keys_of(s).unique_seq_to_set();
    assert forall|i: int| 0 <= i < s.len() implies #[trigger] map_of(s).contains_key(keys_of(s)[i])
        && map_of(s)[keys_of(s)[i]] == s.map_values(|e: (String, V)| e.1)[i] by {
        lemma_map_of_index(s, i);
    }
}

/// A table from flow keys to values, with no key twice.
pub struct FlowTable<V> {
    entries: Vec<(String, V)>,
}

impl<V> View for FlowTable<V> {
    type V = Map<Seq<char>, V>;

    closed spec fn view(&self) -> Map<Seq<char>, V> {
        map_of(self.entries@)
    }
}

impl<V: Copy> FlowTable<V> {
    /// The table's invariant: no key is held twice.
    pub closed spec fn wf(&self) -> bool {
        keys_of(self.entries@).no_duplicates()
    }

    /// An empty table.
    pub fn new() -> (t: Self)
        ensures
            t.wf(),
            t@ == Map::<Seq<char>, V>::empty(),
    {
        let t = FlowTable { entries: Vec::new() };
        assert(t@ =~= Map::<Seq<char>, V>::empty());
        t
    }

    /// The position of `key` among the entries, if it is there.
    fn find(&self, key: &String) -> (r: Option<usize>)
        requires
            self.wf(),
        ensures
            match r {
                Some(i) => i < self.entries@.len() && self.entries@[i as int].0@ == key@,
                None => !self@.contains_key(key@),
            },
    {
        let mut i: usize = 0;
        while i < self.entries.len()
            invariant
                i <= self.entries@.len(),
                forall|j: int| 0 <= j < i ==> self.entries@[j].0@ != key@,
            decreases self.entries@.len() - i,
        {
            if self.entries[i].0 == *key {
                return Some(i);
            }
            i = i + 1;
        }
        proof {
            lemma_map_of_contains(self.entries@, key@);
        }
        None
    }

    /// A table holds finitely many keys.
    pub proof fn lemma_finite(&self)
        requires
            self.wf(),
        ensures
            self@.dom().finite(),
    {
        lemma_lists_own_map(self.entries@);
    }

    /// The number of keys in the table.
    pub fn len(&self) -> (n: usize)
        requires
            self.wf(),
        ensures
            n == self@.dom().len(),
            self@.dom().finite(),
    {
        proof {
            lemma_lists_own_map(self.entries@);
        }
        self.entries.len()
    }

    /// The value held for `key`, if any.
    pub fn get(&self, key: &String) -> (r: Option<V>)
        requires
            self.wf(),
        ensures
            r == (if self@.contains_key(key@) { Some(self@[key@]) } else { None::<V> }),
    {
        match self.find(key) {
            Some(i) => {
                proof {
                    lemma_map_of_index(self.entries@, i as int);
                }
                Some(self.entries[i].1)
            },
            None => None,
        }
    }

    /// Whether `key` is in the table.
    pub fn contains_key(&self, key: &String) -> (b: bool)
        requires
            self.wf(),
        ensures
            b == self@.contains_key(key@),
    {
        match self.find(key) {
            Some(i) => {
                proof {
                    lemma_map_of_index(self.entries@, i as int);
                }
                true
            },
            None => false,
        }
    }

    /// Sets the value of `key`, adding the key if it was not there.
    pub fn insert(&mut self, key: String, value: V)
        requires
            old(self).wf(),
        ensures
            final(self).wf(),
            final(self)@ == old(self)@.insert(key@, value),
    {
        let ghost old_s = self.entries@;
        let ghost k = key@;
        let ghost m = map_of(old_s).insert(k, value);
        match self.find(&key) {
            Some(i) => {
                self.entries.set(i, (key, value));
                proof {
                    let s = self.entries@;
                    assert(keys_of(s) =~= keys_of(old_s));
                    assert forall|j: int| 0 <= j < s.len() implies #[trigger] m.contains_key(
                        s[j].0@,
                    ) && m[s[j].0@] == s[j].1 by {
                        if j != i {
                            lemma_map_of_index(old_s, j);
                            assert(keys_of(old_s)[j] != keys_of(old_s)[i as int]);
                        }
                    }
                    assert forall|kk: Seq<char>| #[trigger] m.contains_key(kk) implies exists|
                        j: int,
                    | 0 <= j < s.len() && s[j].0@ == kk by {
                        if kk != k {
                            lemma_map_of_contains(old_s, kk);
                            let j = choose|j: int| 0 <= j < old_s.len() && old_s[j].0@ == kk;
                            assert(s[j].0@ == kk);
                        } else {
                            assert(s[i as int].0@ == kk);
                        }
                    }
                    lemma_map_of_eq(s, m);
                }
            },
            None => {
                self.entries.push((key, value));
                proof {
                    let s = self.entries@;
                    lemma_map_of_contains(old_s, k);
                    assert(keys_of(s) =~= keys_of(old_s).push(k));
                    assert forall|a: int, b: int|
                        0 <= a < keys_of(s).len() && 0 <= b < keys_of(s).len() && a != b implies
                        keys_of(s)[a] != keys_of(s)[b] by {
                        if a < old_s.len() && b < old_s.len() {
                            assert(keys_of(s)[a] == keys_of(old_s)[a]);
                            assert(keys_of(s)[b] == keys_of(old_s)[b]);
                        } else if a == old_s.len() {
                            assert(old_s[b].0@ == keys_of(s)[b]);
                        } else {
                            assert(old_s[a].0@ == keys_of(s)[a]);
                        }
                    }
                    assert forall|j: int| 0 <= j < s.len() implies #[trigger] m.contains_key(
                        s[j].0@,
                    ) && m[s[j].0@] == s[j].1 by {
                        if j < old_s.len() {
                            lemma_map_of_index(old_s, j);
                            assert(s[j] == old_s[j]);
                        }
                    }
                    assert forall|kk: Seq<char>| #[trigger] m.contains_key(kk) implies exists|
                        j: int,
                    | 0 <= j < s.len() && s[j].0@ == kk by {
                        if kk != k {
                            lemma_map_of_contains(old_s, kk);
                            let j = choose|j: int| 0 <= j < old_s.len() && old_s[j].0@ == kk;
                            assert(s[j].0@ == kk);
                        } else {
                            assert(s[old_s.len() as int].0@ == kk);
                        }
                    }
                    lemma_map_of_eq(s, m);
                }
            },
        }
    }

    /// Removes `key` from the table; returns the value it held, if any.
    pub fn remove(&mut self, key: &String) -> (r: Option<V>)
        requires
            old(self).wf(),
        ensures
            final(self).wf(),
            final(self)@ == old(self)@.remove(key@),
            r == (if old(self)@.contains_key(key@) { Some(old(self)@[key@]) } else { None::<V> }),
    {
        let ghost old_s = self.entries@;
        let ghost k = key@;
        let ghost m = map_of(old_s).remove(k);
        match self.find(key) {
            Some(i) => {
                proof {
                    lemma_map_of_index(old_s, i as int);
                }
                let e = self.entries.remove(i);
                proof {
                    let s = self.entries@;
                    assert(keys_of(s) =~= keys_of(old_s).remove(i as int));
                    assert forall|a: int, b: int|
                        0 <= a < keys_of(s).len() && 0 <= b < keys_of(s).len() && a != b implies
                        keys_of(s)[a] != keys_of(s)[b] by {
                        let a2 = if a < i { a } else { a + 1 };
                        let b2 = if b < i { b } else { b + 1 };
                        assert(keys_of(s)[a] == keys_of(old_s)[a2]);
                        assert(keys_of(s)[b] == keys_of(old_s)[b2]);
                    }
                    assert forall|j: int| 0 <= j < s.len() implies #[trigger] m.contains_key(
                        s[j].0@,
                    ) && m[s[j].0@] == s[j].1 by {
                        let j2 = if j < i { j } else { j + 1 };
                        assert(s[j] == old_s[j2]);
                        lemma_map_of_index(old_s, j2);
                        assert(keys_of(old_s)[j2] != keys_of(old_s)[i as int]);
                    }
                    assert forall|kk: Seq<char>| #[trigger] m.contains_key(kk) implies exists|
                        j: int,
                    | 0 <= j < s.len() && s[j].0@ == kk by {
                        lemma_map_of_contains(old_s, kk);
                        let j = choose|j: int| 0 <= j < old_s.len() && old_s[j].0@ == kk;
                        assert(j != i);
                        let j2 = if j < i { j } else { j - 1 };
                        assert(s[j2] == old_s[j]);
                    }
                    lemma_map_of_eq(s, m);
                }
                Some(e.1)
            },
            None => {
                proof {
                    assert(map_of(old_s) =~= m);
                }
                None
            },
        }
    }

    /// The keys of the table, borrowed, with their values, each key once.
    pub fn pairs(&self) -> (r: Vec<(&String, V)>)
        requires
            self.wf(),
        ensures
            lists_entries(r@.map_values(|e: (&String, V)| e.0@), r@.map_values(|e: (&String, V)| e.1), self@),
    {
        let mut r: Vec<(&String, V)> = Vec::new();
        let mut i: usize = 0;
        while i < self.entries.len()
            invariant
                i <= self.entries@.len(),
                r@.len() == i,
                forall|j: int| 0 <= j < i ==> #[trigger] r@[j].0@ == self.entries@[j].0@,
                forall|j: int| 0 <= j < i ==> #[trigger] r@[j].1 == self.entries@[j].1,
            decreases self.entries@.len() - i,
        {
            let e = &self.entries[i];
            r.push((&e.0, e.1));
            i = i + 1;
        }
        proof {
            lemma_lists_own_map(self.entries@);
            assert(r@.map_values(|e: (&String, V)| e.0@) =~= keys_of(self.entries@));
            assert(r@.map_values(|e: (&String, V)| e.1) =~= self.entries@.map_values(|e: (String, V)| e.1));
        }
        r
    }

    /// The entries of the table, each key once, in the order the table keeps them.
    pub fn to_vec(&self) -> (r: Vec<(String, V)>)
        requires
            self.wf(),
        ensures
            lists_map(r@, self@),
    {
        let mut r: Vec<(String, V)> = Vec::new();
        let mut i: usize = 0;
        while i < self.entries.len()
            invariant
                i <= self.entries@.len(),
                r@ == self.entries@.subrange(0, i as int),
            decreases self.entries@.len() - i,
        {
            let e = &self.entries[i];
            r.push((e.0.clone(), e.1));
            proof {
                assert(r@ =~= self.entries@.subrange(0, i + 1));
            }
            i = i + 1;
        }
        proof {
            assert(r@ =~= self.entries@);
            lemma_lists_own_map(self.entries@);
        }
        r
    }
}

} // verus!
