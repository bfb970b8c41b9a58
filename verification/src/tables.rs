//! Lookup tables keyed by byte-string names.
//!
//! A table is a list of key/value entries in first-insertion order whose
//! keys stay unique; inserting an existing key replaces its value in place.
//! `ListTable` is the same shape with a list of names as the value, viewed
//! deeply so that contracts can speak of the listed names.

use vstd::prelude::*;
use crate::bytes::bytes_eq;

verus! {

/// First index at or after `from` whose entry has key `k`, or `s.len()`.
pub open spec fn key_index_from<V>(s: Seq<(Seq<u8>, V)>, from: int, k: Seq<u8>) -> int
    decreases s.len() - from when 0 <= from <= s.len()
{
    if from >= s.len() {
        s.len() as int
    } else if s[from].0 == k {
        from
    } else {
        key_index_from(s, from + 1, k)
    }
}

/// First index whose entry has key `k`, or `s.len()`.
pub open spec fn key_index<V>(s: Seq<(Seq<u8>, V)>, k: Seq<u8>) -> int {
    key_index_from(s, 0, k)
}

pub open spec fn has_key<V>(s: Seq<(Seq<u8>, V)>, k: Seq<u8>) -> bool {
    key_index(s, k) < s.len()
}

/// Value stored under `k`.
pub open spec fn assoc_get<V>(s: Seq<(Seq<u8>, V)>, k: Seq<u8>) -> V
    recommends
        has_key(s, k),
{
    s[key_index(s, k)].1
}

/// The entry list after storing `v` under `k`: the first entry with key `k`
/// is replaced, or a new entry is appended.
pub open spec fn assoc_insert<V>(s: Seq<(Seq<u8>, V)>, k: Seq<u8>, v: V) -> Seq<(Seq<u8>, V)> {
    if has_key(s, k) {
        s.update(key_index(s, k), (k, v))
    } else {
        s.push((k, v))
    }
}

pub proof fn lemma_key_index_from<V>(s: Seq<(Seq<u8>, V)>, from: int, k: Seq<u8>)
    requires
        0 <= from <= s.len(),
    ensures
        from <= key_index_from(s, from, k) <= s.len(),
        key_index_from(s, from, k) < s.len() ==> s[key_index_from(s, from, k)].0 == k,
        forall|j: int| from <= j < key_index_from(s, from, k) ==> s[j].0 != k,
    decreases s.len() - from,
{
    if from < s.len() && s[from].0 != k {
        lemma_key_index_from(s, from + 1, k);
    }
}

/// Two entry lists with the same keys in the same places find any key at
/// the same index.
pub proof fn lemma_key_index_same_keys<V, W>(
    s1: Seq<(Seq<u8>, V)>,
    s2: Seq<(Seq<u8>, W)>,
    from: int,
    k: Seq<u8>,
)
    requires
        0 <= from <= s1.len(),
        s1.len() == s2.len(),
        forall|i: int| 0 <= i < s1.len() ==> s1[i].0 == s2[i].0,
    ensures
        key_index_from(s1, from, k) == key_index_from(s2, from, k),
    decreases s1.len() - from,
{
    if from < s1.len() && s1[from].0 != k {
        lemma_key_index_same_keys(s1, s2, from + 1, k);
    }
}

/// No two entries share a key.
pub open spec fn unique_keys<V>(s: Seq<(Seq<u8>, V)>) -> bool {
    forall|i: int, j: int| 0 <= i < j < s.len() ==> s[i].0 != s[j].0
}

/// In an entry list without duplicate keys, every entry is found at its
/// own index.
pub proof fn lemma_key_index_of_entry<V>(s: Seq<(Seq<u8>, V)>, i: int)
    requires
        unique_keys(s),
        0 <= i < s.len(),
    ensures
        key_index(s, s[i].0) == i,
{
    lemma_key_index_from(s, 0, s[i].0);
    let ki = key_index(s, s[i].0);
    if ki > i {
        assert(s[i].0 != s[i].0);
    }
}

/// Storing a value never introduces a duplicate key.
pub proof fn lemma_assoc_insert_unique<V>(s: Seq<(Seq<u8>, V)>, k: Seq<u8>, v: V)
    requires
        unique_keys(s),
    ensures
        unique_keys(assoc_insert(s, k, v)),
{
    lemma_key_index_from(s, 0, k);
    let s2 = assoc_insert(s, k, v);
    if has_key(s, k) {
        let ki = key_index(s, k);
        assert(forall|j: int| 0 <= j < s.len() ==> s2[j].0 == s[j].0);
    } else {
        assert(forall|j: int| 0 <= j < s.len() ==> s2[j].0 == s[j].0 && s[j].0 != k);
        assert(s2[s.len() as int].0 == k);
    }
}

/// A table of values keyed by names, in first-insertion order.
pub struct Table<V> {
    entries: Vec<(Vec<u8>, V)>,
}

impl<V> View for Table<V> {
    type V = Seq<(Seq<u8>, V)>;

    closed spec fn view(&self) -> Seq<(Seq<u8>, V)> {
        Seq::new(self.entries@.len(), |i: int| (self.entries@[i].0@, self.entries@[i].1))
    }
}

impl<V> Table<V> {
    pub fn new() -> (r: Table<V>)
        ensures
            r@ =~= Seq::<(Seq<u8>, V)>::empty(),
    {
        Table { entries: Vec::new() }
    }

    pub fn len(&self) -> (r: usize)
        ensures
            r == self@.len(),
    {
        self.entries.len()
    }

    pub fn key_at(&self, i: usize) -> (r: &Vec<u8>)
        requires
            i < self@.len(),
        ensures
            r@ == self@[i as int].0,
    {
        &self.entries[i].0
    }

    pub fn value_at(&self, i: usize) -> (r: &V)
        requires
            i < self@.len(),
        ensures
            *r == self@[i as int].1,
    {
        &self.entries[i].1
    }

    /// Index of the entry whose key is `k`, if any.
    pub fn index_of(&self, k: &[u8]) -> (r: Option<usize>)
        ensures
            match r {
                Some(i) => i == key_index(self@, k@) && i < self@.len() && self@[i as int].0 == k@,
                None => !has_key(self@, k@),
            },
    {
        let n = self.entries.len();
        let mut i: usize = 0;
        while i < n
            invariant
                i <= n,
                n == self@.len(),
                key_index(self@, k@) == key_index_from(self@, i as int, k@),
            decreases n - i,
        {
            if bytes_eq(self.entries[i].0.as_slice(), k) {
                return Some(i);
            }
            i = i + 1;
        }
        None
    }

    /// Value stored under `k`, if any.
    pub fn get(&self, k: &[u8]) -> (r: Option<&V>)
        ensures
            match r {
                Some(v) => has_key(self@, k@) && *v == assoc_get(self@, k@),
                None => !has_key(self@, k@),
            },
    {
        match self.index_of(k) {
            Some(i) => Some(&self.entries[i].1),
            None => None,
        }
    }

    pub fn contains_key(&self, k: &[u8]) -> (r: bool)
        ensures
            r == has_key(self@, k@),
    {
        self.index_of(k).is_some()
    }

    /// Store `v` under `k`, replacing the value of an existing entry.
    pub fn insert(&mut self, k: Vec<u8>, v: V)
        ensures
            final(self)@ =~= assoc_insert(old(self)@, k@, v),
    {
        let ghost s = self@;
        match self.index_of(k.as_slice()) {
            Some(i) => {
                self.entries[i] = (k, v);
                proof {
                    assert(self@ =~= s.update(key_index(s, k@), (k@, v)));
                }
            },
            None => {
                self.entries.push((k, v));
                proof {
                    assert(self@ =~= s.push((k@, v)));
                }
            },
        }
    }

    /// Append an entry without looking for an existing key.
    pub fn push_entry(&mut self, k: Vec<u8>, v: V)
        ensures
            final(self)@ =~= old(self)@.push((k@, v)),
    {
        self.entries.push((k, v));
    }
}

/// Whether `list` holds the name `v`.
pub fn contains_name(list: &Vec<Vec<u8>>, v: &[u8]) -> (r: bool)
    ensures
        r == list.deep_view().contains(v@),
{
    let mut i: usize = 0;
    while i < list.len()
        invariant
            i <= list.len(),
            forall|j: int| 0 <= j < i ==> list.deep_view()[j] != v@,
        decreases list.len() - i,
    {
        proof {
            assert(list.deep_view()[i as int] =~= list@[i as int]@);
        }
        if bytes_eq(list[i].as_slice(), v) {
            proof {
                assert(list.deep_view()[i as int] == v@);
            }
            return true;
        }
        i = i + 1;
    }
    false
}

/// An entry of the deep view of a name list is the view of that entry.
pub proof fn lemma_name_list_elem(v: &Vec<Vec<u8>>, i: int)
    requires
        0 <= i < v@.len(),
    ensures
        v.deep_view()[i] == v@[i]@,
{
    assert(v.deep_view()[i] =~= v@[i]@);
}

/// A table of name lists keyed by names, in first-insertion order.
pub struct ListTable {
    entries: Vec<(Vec<u8>, Vec<Vec<u8>>)>,
}

impl View for ListTable {
    type V = Seq<(Seq<u8>, Seq<Seq<u8>>)>;

    closed spec fn view(&self) -> Seq<(Seq<u8>, Seq<Seq<u8>>)> {
        Seq::new(
            self.entries@.len(),
            |i: int| (self.entries@[i].0@, self.entries@[i].1.deep_view()),
        )
    }
}

impl ListTable {
    pub fn new() -> (r: ListTable)
        ensures
            r@ =~= Seq::<(Seq<u8>, Seq<Seq<u8>>)>::empty(),
    {
        ListTable { entries: Vec::new() }
    }

    pub fn len(&self) -> (r: usize)
        ensures
            r == self@.len(),
    {
        self.entries.len()
    }

    pub fn key_at(&self, i: usize) -> (r: &Vec<u8>)
        requires
            i < self@.len(),
        ensures
            r@ == self@[i as int].0,
    {
        &self.entries[i].0
    }

    pub fn list_at(&self, i: usize) -> (r: &Vec<Vec<u8>>)
        requires
            i < self@.len(),
        ensures
            r.deep_view() == self@[i as int].1,
    {
        &self.entries[i].1
    }

    /// Index of the entry whose key is `k`, if any.
    pub fn index_of(&self, k: &[u8]) -> (r: Option<usize>)
        ensures
            match r {
                Some(i) => i == key_index(self@, k@) && i < self@.len() && self@[i as int].0 == k@,
                None => !has_key(self@, k@),
            },
    {
        let n = self.entries.len();
        let mut i: usize = 0;
        while i < n
            invariant
                i <= n,
                n == self@.len(),
                key_index(self@, k@) == key_index_from(self@, i as int, k@),
            decreases n - i,
        {
            if bytes_eq(self.entries[i].0.as_slice(), k) {
                return Some(i);
            }
            i = i + 1;
        }
        None
    }

    /// List stored under `k`, if any.
    pub fn get(&self, k: &[u8]) -> (r: Option<&Vec<Vec<u8>>>)
        ensures
            match r {
                Some(l) => has_key(self@, k@) && l.deep_view() == assoc_get(self@, k@),
                None => !has_key(self@, k@),
            },
    {
        match self.index_of(k) {
            Some(i) => Some(&self.entries[i].1),
            None => None,
        }
    }

    /// Append the name `v` to the list of entry `i`.
    pub fn push_to_list(&mut self, i: usize, v: Vec<u8>)
        requires
            i < old(self)@.len(),
        ensures
            final(self)@ =~~= old(self)@.update(
                i as int,
                (old(self)@[i as int].0, old(self)@[i as int].1.push(v@)),
            ),
    {
        let entry = &mut self.entries[i];
        entry.1.push(v);
    }

    /// Store the list `l` under `k`, replacing the list of an existing
    /// entry.
    pub fn insert(&mut self, k: Vec<u8>, l: Vec<Vec<u8>>)
        ensures
            final(self)@ =~~= assoc_insert(old(self)@, k@, l.deep_view()),
    {
        let ghost s = self@;
        let ghost lv = l.deep_view();
        match self.index_of(k.as_slice()) {
            Some(i) => {
                self.entries[i] = (k, l);
                proof {
                    assert(self@ =~~= s.update(key_index(s, k@), (k@, lv)));
                }
            },
            None => {
                self.entries.push((k, l));
                proof {
                    assert(self@ =~~= s.push((k@, lv)));
                }
            },
        }
    }

    /// Append a new entry whose list holds the single name `v`.
    pub fn push_entry(&mut self, k: Vec<u8>, v: Vec<u8>)
        ensures
            final(self)@ =~~= old(self)@.push((k@, seq![v@])),
    {
        let ghost gv = v@;
        let mut l: Vec<Vec<u8>> = Vec::new();
        l.push(v);
        proof {
            assert(l.deep_view() =~~= seq![gv]);
        }
        self.entries.push((k, l));
    }
}

} // verus!
