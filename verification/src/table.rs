use vstd::prelude::*;
use crate::hex::Hex;

verus! {

/// A key that an executable comparison can tell apart.
pub trait TableKey: Copy + Sized {
    fn same_key(&self, other: &Self) -> (b: bool)
        ensures
            b == (*self == *other),
    ;
}

impl TableKey for u64 {
    fn same_key(&self, other: &Self) -> (b: bool) {
        *self == *other
    }
}

impl TableKey for Hex {
    fn same_key(&self, other: &Self) -> (b: bool) {
        self.x == other.x && self.y == other.y
    }
}

/// No key occurs twice among the entries.
pub open spec fn keys_distinct<K, V>(s: Seq<(K, V)>) -> bool {
    forall|i: int, j: int|
        0 <= i < s.len() && 0 <= j < s.len() && #[trigger] s[i].0 == #[trigger] s[j].0 ==> i == j
}

/// Some entry has key `k`.
pub open spec fn has_key<K, V>(s: Seq<(K, V)>, k: K) -> bool {
    exists|i: int| 0 <= i < s.len() && #[trigger] s[i].0 == k
}

/// The map that the entries describe.
pub open spec fn entries_map<K, V>(s: Seq<(K, V)>) -> Map<K, V> {
    Map::new(
        |k: K| has_key(s, k),
        |k: K| s[choose|i: int| 0 <= i < s.len() && #[trigger] s[i].0 == k].1,
    )
}

/// With distinct keys, each entry is what the map holds for its key.
pub proof fn lemma_entries_map_at<K, V>(s: Seq<(K, V)>, i: int)
    requires
        keys_distinct(s),
        0 <= i < s.len(),
    ensures
        entries_map(s).contains_key(s[i].0),
        entries_map(s)[s[i].0] == s[i].1,
{
    let k = s[i].0;
    assert(has_key(s, k));
    let j = choose|j: int| 0 <= j < s.len() && #[trigger] s[j].0 == k;
    assert(s[j].0 == s[i].0);
}

/// With distinct keys, every entry is what the map holds for its key.
pub proof fn lemma_entries_map_all<K, V>(s: Seq<(K, V)>)
    requires
        keys_distinct(s),
    ensures
        forall|i: int|
            0 <= i < s.len() ==> #[trigger] entries_map(s).contains_key(s[i].0) && entries_map(
                s,
            )[s[i].0] == s[i].1,
        forall|k: K|
            #[trigger] entries_map(s).contains_key(k) ==> exists|i: int|
                0 <= i < s.len() && s[i].0 == k,
{
    assert forall|i: int| 0 <= i < s.len() implies #[trigger] entries_map(s).contains_key(s[i].0)
        && entries_map(s)[s[i].0] == s[i].1 by {
        lemma_entries_map_at(s, i);
    }
}

/// With distinct keys, the map of the entries is the map of all but the last
/// one, with the last one added.
pub proof fn lemma_entries_map_drop_last<K, V>(s: Seq<(K, V)>)
    requires
        keys_distinct(s),
        s.len() > 0,
    ensures
        keys_distinct(s.drop_last()),
        entries_map(s) == entries_map(s.drop_last()).insert(s.last().0, s.last().1),
{
    let d = s.drop_last();
    let n = s.len() - 1;
    assert(keys_distinct(d)) by {
        assert forall|i: int, j: int|
            0 <= i < d.len() && 0 <= j < d.len() && #[trigger] d[i].0 == #[trigger] d[j].0 implies i == j by {
            assert(s[i].0 == s[j].0);
        }
    }
    lemma_entries_map_at(s, n);
    assert forall|k: K| #[trigger] entries_map(s).contains_key(k) <==> entries_map(d).insert(
        s.last().0,
        s.last().1,
    ).contains_key(k) by {
        if has_key(s, k) && k != s.last().0 {
            let i = choose|i: int| 0 <= i < s.len() && #[trigger] s[i].0 == k;
            assert(d[i].0 == k);
        }
        if has_key(d, k) {
            let i = choose|i: int| 0 <= i < d.len() && #[trigger] d[i].0 == k;
            assert(s[i].0 == k);
        }
    }
    assert forall|k: K| #[trigger] entries_map(s).contains_key(k) implies entries_map(s)[k]
        == entries_map(d).insert(s.last().0, s.last().1)[k] by {
        if k != s.last().0 {
            let i = choose|i: int| 0 <= i < s.len() && #[trigger] s[i].0 == k;
            assert(i != n);
            lemma_entries_map_at(s, i);
            assert(d[i] == s[i]);
            lemma_entries_map_at(d, i);
        }
    }
    assert(entries_map(s) =~= entries_map(d).insert(s.last().0, s.last().1));
}

/// A map from keys to values, held as a vector of entries with distinct keys.
/// Entries keep the order in which their keys were first inserted.
pub struct Table<K, V> {
    pub entries: Vec<(K, V)>,
}

impl<K: TableKey, V> View for Table<K, V> {
    type V = Map<K, V>;

    open spec fn view(&self) -> Map<K, V> {
        entries_map(self.entries@)
    }
}

impl<K: TableKey, V> Table<K, V> {
    pub open spec fn wf(&self) -> bool {
        keys_distinct(self.entries@)
    }

    pub open spec fn seq(&self) -> Seq<(K, V)> {
        self.entries@
    }

    pub fn new() -> (t: Self)
        ensures
            t.wf(),
            t@ == Map::<K, V>::empty(),
            t.seq() == Seq::<(K, V)>::empty(),
    {
        let t = Table { entries: Vec::new() };
        assert(t@ =~= Map::<K, V>::empty());
        t
    }

    pub fn len(&self) -> (n: usize)
        ensures
            n == self.seq().len(),
    {
        self.entries.len()
    }

    /// Position of the entry with key `k`, if any.
    pub fn find(&self, k: &K) -> (r: Option<usize>)
        requires
            self.wf(),
        ensures
            r is Some <==> self@.contains_key(*k),
            r matches Some(i) ==> i < self.seq().len() && self.seq()[i as int].0 == *k,
    {
        let n = self.entries.len();
        let mut i: usize = 0;
        while i < n
            invariant
                n == self.entries@.len(),
                i <= n,
                forall|j: int| 0 <= j < i ==> self.entries@[j].0 != *k,
            decreases n - i,
        {
            if self.entries[i].0.same_key(k) {
                return Some(i);
            }
            i = i + 1;
        }
        None
    }

    pub fn contains_key(&self, k: &K) -> (b: bool)
        requires
            self.wf(),
        ensures
            b == self@.contains_key(*k),
    {
        self.find(k).is_some()
    }

    /// The value of `k`, by reference.
    pub fn get_ref(&self, k: &K) -> (r: Option<&V>)
        requires
            self.wf(),
        ensures
            r is Some <==> self@.contains_key(*k),
            r matches Some(v) ==> *v == self@[*k],
    {
        match self.find(k) {
            Some(i) => {
                proof {
                    lemma_entries_map_at(self.entries@, i as int);
                }
                Some(&self.entries[i].1)
            },
            None => None,
        }
    }

    /// Sets the value of `k`; a new key goes to the end.
    pub fn insert(&mut self, k: K, v: V)
        requires
            old(self).wf(),
        ensures
            final(self).wf(),
            final(self)@ == old(self)@.insert(k, v),
            old(self)@.contains_key(k) ==> exists|i: int|
                0 <= i < old(self).seq().len() && old(self).seq()[i].0 == k && final(self).seq()
                    == old(self).seq().update(i, (k, v)),
            !old(self)@.contains_key(k) ==> final(self).seq() == old(self).seq().push((k, v)),
    {
        let ghost s0 = self.entries@;
        match self.find(&k) {
            Some(i) => {
                self.entries.set(i, (k, v));
                let ghost s1 = self.entries@;
                assert(keys_distinct(s1)) by {
                    assert forall|a: int, b: int|
                        0 <= a < s1.len() && 0 <= b < s1.len() && #[trigger] s1[a].0
                            == #[trigger] s1[b].0 implies a == b by {
                        if a != i && b != i {
                            assert(s0[a].0 == s0[b].0);
                        } else if a == i && b != i {
                            assert(s0[b].0 == s0[i as int].0);
                        } else if a != i && b == i {
                            assert(s0[a].0 == s0[i as int].0);
                        }
                    }
                }
                proof {
                    lemma_entries_map_all(s0);
                    lemma_entries_map_all(s1);
                }
                assert(self@ =~= old(self)@.insert(k, v)) by {
                    assert forall|key: K| #[trigger] self@.contains_key(key) <==> old(
                        self,
                    )@.insert(k, v).contains_key(key) by {
                        if has_key(s1, key) {
                            let j = choose|j: int| 0 <= j < s1.len() && #[trigger] s1[j].0 == key;
                            if j != i {
                                assert(s0[j].0 == key);
                            }
                        }
                        if has_key(s0, key) {
                            let j = choose|j: int| 0 <= j < s0.len() && #[trigger] s0[j].0 == key;
                            if j != i {
                                assert(s1[j].0 == key);
                            } else {
                                assert(s1[j].0 == key);
                            }
                        }
                        if key == k {
                            assert(s1[i as int].0 == key);
                        }
                    }
                    assert forall|key: K| #[trigger] self@.contains_key(key) implies self@[key]
                        == old(self)@.insert(k, v)[key] by {
                        let j = choose|j: int| 0 <= j < s1.len() && #[trigger] s1[j].0 == key;
                        if j != i {
                            assert(s0[j].0 == key);
                        }
                    }
                }
            },
            None => {
                self.entries.push((k, v));
                let ghost s1 = self.entries@;
                assert(keys_distinct(s1)) by {
                    assert forall|a: int, b: int|
                        0 <= a < s1.len() && 0 <= b < s1.len() && #[trigger] s1[a].0
                            == #[trigger] s1[b].0 implies a == b by {
                        if a < s0.len() && b < s0.len() {
                            assert(s0[a].0 == s0[b].0);
                        } else if a < s0.len() {
                            assert(s0[a].0 == k);
                        } else if b < s0.len() {
                            assert(s0[b].0 == k);
                        }
                    }
                }
                proof {
                    lemma_entries_map_all(s0);
                    lemma_entries_map_all(s1);
                }
                assert(self@ =~= old(self)@.insert(k, v)) by {
                    assert forall|key: K| #[trigger] self@.contains_key(key) <==> old(
                        self,
                    )@.insert(k, v).contains_key(key) by {
                        if has_key(s1, key) {
                            let j = choose|j: int| 0 <= j < s1.len() && #[trigger] s1[j].0 == key;
                            if j < s0.len() {
                                assert(s0[j].0 == key);
                            }
                        }
                        if has_key(s0, key) {
                            let j = choose|j: int| 0 <= j < s0.len() && #[trigger] s0[j].0 == key;
                            assert(s1[j].0 == key);
                        }
                        if key == k {
                            assert(s1[s0.len() as int].0 == key);
                        }
                    }
                    assert forall|key: K| #[trigger] self@.contains_key(key) implies self@[key]
                        == old(self)@.insert(k, v)[key] by {
                        let j = choose|j: int| 0 <= j < s1.len() && #[trigger] s1[j].0 == key;
                        if j < s0.len() {
                            assert(s0[j].0 == key);
                        }
                    }
                }
            },
        }
    }

    /// Takes the entry of `k` out, keeping the order of the others.
    pub fn remove(&mut self, k: &K) -> (r: Option<V>)
        requires
            old(self).wf(),
        ensures
            final(self).wf(),
            final(self)@ == old(self)@.remove(*k),
            r == (if old(self)@.contains_key(*k) {
                Some(old(self)@[*k])
            } else {
                None::<V>
            }),
    {
        let ghost s0 = self.entries@;
        match self.find(k) {
            Some(i) => {
                proof {
                    lemma_entries_map_at(s0, i as int);
                }
                let (_, v) = self.entries.remove(i);
                let ghost s1 = self.entries@;
                assert(forall|j: int| 0 <= j < i ==> s1[j] == s0[j]);
                assert(forall|j: int| i <= j < s1.len() ==> s1[j] == s0[j + 1]);
                assert(keys_distinct(s1)) by {
                    assert forall|a: int, b: int|
                        0 <= a < s1.len() && 0 <= b < s1.len() && #[trigger] s1[a].0
                            == #[trigger] s1[b].0 implies a == b by {
                        let a0 = if a < i {
                            a
                        } else {
                            a + 1
                        };
                        let b0 = if b < i {
                            b
                        } else {
                            b + 1
                        };
                        assert(s0[a0].0 == s0[b0].0);
                    }
                }
                proof {
                    lemma_entries_map_all(s0);
                    lemma_entries_map_all(s1);
                }
                assert(self@ =~= old(self)@.remove(*k)) by {
                    assert forall|key: K| #[trigger] self@.contains_key(key) <==> old(
                        self,
                    )@.remove(*k).contains_key(key) by {
                        if has_key(s1, key) {
                            let j = choose|j: int| 0 <= j < s1.len() && #[trigger] s1[j].0 == key;
                            let j0 = if j < i {
                                j
                            } else {
                                j + 1
                            };
                            assert(s0[j0].0 == key);
                            assert(j0 != i);
                        }
                        if has_key(s0, key) && key != *k {
                            let j = choose|j: int| 0 <= j < s0.len() && #[trigger] s0[j].0 == key;
                            assert(j != i);
                            if j < i {
                                assert(s1[j].0 == key);
                            } else {
                                assert(s1[j - 1].0 == key);
                            }
                        }
                    }
                    assert forall|key: K| #[trigger] self@.contains_key(key) implies self@[key]
                        == old(self)@.remove(*k)[key] by {
                        let j = choose|j: int| 0 <= j < s1.len() && #[trigger] s1[j].0 == key;
                        let j0 = if j < i {
                            j
                        } else {
                            j + 1
                        };
                        assert(s0[j0].0 == key);
                    }
                }
                Some(v)
            },
            None => {
                assert(self@ =~= old(self)@.remove(*k));
                None
            },
        }
    }
}

impl<K: TableKey, V: Copy> Table<K, V> {
    /// A copy of the table, entry by entry.
    pub fn copied(&self) -> (r: Self)
        ensures
            r.seq() == self.seq(),
            r@ == self@,
    {
        let mut entries: Vec<(K, V)> = Vec::new();
        let n = self.entries.len();
        let mut i: usize = 0;
        while i < n
            invariant
                n == self.entries@.len(),
                i <= n,
                entries@ == self.entries@.take(i as int),
            decreases n - i,
        {
            entries.push(self.entries[i]);
            assert(self.entries@.take(i + 1) =~= self.entries@.take(i as int).push(self.entries@[i as int]));
            i = i + 1;
        }
        assert(self.entries@.take(n as int) =~= self.entries@);
        Table { entries }
    }

    pub fn get(&self, k: &K) -> (r: Option<V>)
        requires
            self.wf(),
        ensures
            r == (if self@.contains_key(*k) {
                Some(self@[*k])
            } else {
                None::<V>
            }),
    {
        match self.find(k) {
            Some(i) => {
                proof {
                    lemma_entries_map_at(self.entries@, i as int);
                }
                Some(self.entries[i].1)
            },
            None => None,
        }
    }

}

} // verus!
