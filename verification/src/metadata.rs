//! The metadata of a document: string keys with string values, no key twice,
//! kept in the order in which the keys first came.

use vstd::prelude::*;

verus! {

/// No key occurs in two entries.
pub open spec fn distinct_keys(entries: Seq<(Seq<char>, Seq<char>)>) -> bool {
    forall|i: int, j: int| 0 <= i < j < entries.len() ==> entries[i].0 != entries[j].0
}

/// The index of the first entry with `key`, or the number of entries if none has it.
pub open spec fn key_index(entries: Seq<(Seq<char>, Seq<char>)>, key: Seq<char>) -> int
    decreases entries.len(),
{
    if entries.len() == 0 || entries[0].0 == key {
        0
    } else {
        1 + key_index(entries.drop_first(), key)
    }
}

/// Whether some entry has `key`.
pub open spec fn has_key(entries: Seq<(Seq<char>, Seq<char>)>, key: Seq<char>) -> bool {
    exists|i: int| 0 <= i < entries.len() && #[trigger] entries[i].0 == key
}

/// `entries` after `key` has been given `value`: the entry with that key
/// gets the new value where it stands, and a new key goes to the end.
pub open spec fn upsert(
    entries: Seq<(Seq<char>, Seq<char>)>,
    key: Seq<char>,
    value: Seq<char>,
) -> Seq<(Seq<char>, Seq<char>)> {
    let i = key_index(entries, key);
    if 0 <= i < entries.len() {
        entries.update(i, (key, value))
    } else {
        entries.push((key, value))
    }
}

/// The map that `entries` stand for; of two entries with one key the later one counts.
pub open spec fn as_map(entries: Seq<(Seq<char>, Seq<char>)>) -> Map<Seq<char>, Seq<char>>
    decreases entries.len(),
{
    if entries.len() == 0 {
        Map::empty()
    } else {
        as_map(entries.drop_last()).insert(entries.last().0, entries.last().1)
    }
}

/// `key_index(entries, key)` is the least index whose entry has `key`,
/// and the number of entries if there is none.
pub proof fn lemma_key_index(entries: Seq<(Seq<char>, Seq<char>)>, key: Seq<char>)
    ensures
        0 <= key_index(entries, key) <= entries.len(),
        forall|k: int| 0 <= k < key_index(entries, key) ==> entries[k].0 != key,
        key_index(entries, key) < entries.len() ==> entries[key_index(entries, key)].0 == key,
        has_key(entries, key) <==> key_index(entries, key) < entries.len(),
    decreases entries.len(),
{
    if entries.len() != 0 && entries[0].0 != key {
        let rest = entries.drop_first();
        lemma_key_index(rest, key);
        assert forall|k: int| 0 <= k < key_index(entries, key) implies entries[k].0 != key by {
            if k > 0 {
                assert(entries[k] == rest[k - 1]);
            }
        }
        if key_index(entries, key) < entries.len() {
            assert(entries[key_index(entries, key)] == rest[key_index(rest, key)]);
        }
    }
}

/// The map of entries has the entries' keys, and, where no key occurs
/// twice, each key with the value that stands beside it.
pub proof fn lemma_as_map(entries: Seq<(Seq<char>, Seq<char>)>)
    ensures
        forall|key: Seq<char>| #[trigger] as_map(entries).contains_key(key) <==> has_key(entries, key),
        distinct_keys(entries) ==> forall|i: int|
            0 <= i < entries.len() ==> as_map(entries)[#[trigger] entries[i].0] == entries[i].1,
    decreases entries.len(),
{
    if entries.len() > 0 {
        let front = entries.drop_last();
        lemma_as_map(front);
        assert forall|key: Seq<char>| #[trigger]
            as_map(entries).contains_key(key) <==> has_key(entries, key) by {
            assert(as_map(front).contains_key(key) <==> has_key(front, key));
            if has_key(entries, key) {
                let i = choose|i: int| 0 <= i < entries.len() && #[trigger] entries[i].0 == key;
                if i < front.len() {
                    assert(front[i].0 == key);
                }
            }
            if has_key(front, key) {
                let i = choose|i: int| 0 <= i < front.len() && #[trigger] front[i].0 == key;
                assert(entries[i].0 == key);
            }
            if key == entries.last().0 {
                assert(entries[entries.len() - 1].0 == key);
            }
        }
        if distinct_keys(entries) {
            assert forall|i: int| 0 <= i < entries.len() implies as_map(entries)[#[trigger] entries[i].0]
                == entries[i].1 by {
                if i < front.len() {
                    assert(front[i] == entries[i]);
                    assert(entries[i].0 != entries[entries.len() - 1].0);
                }
            }
        }
    }
}

/// Giving a key a value keeps the keys distinct and changes the map at that key alone.
pub proof fn lemma_upsert(entries: Seq<(Seq<char>, Seq<char>)>, key: Seq<char>, value: Seq<char>)
    requires
        distinct_keys(entries),
    ensures
        distinct_keys(upsert(entries, key, value)),
        as_map(upsert(entries, key, value)) == as_map(entries).insert(key, value),
{
    let next = upsert(entries, key, value);
    let i = key_index(entries, key);
    lemma_key_index(entries, key);
    lemma_as_map(entries);
    assert(distinct_keys(next)) by {
        assert forall|a: int, b: int| 0 <= a < b < next.len() implies next[a].0 != next[b].0 by {
            if i < entries.len() {
                assert(next[a].0 == entries[a].0);
                assert(next[b].0 == entries[b].0);
            } else {
                if b == entries.len() {
                    assert(entries[a].0 != key);
                }
            }
        }
    }
    lemma_as_map(next);
    let expected = as_map(entries).insert(key, value);
    assert forall|k: Seq<char>| as_map(next).contains_key(k) <==> expected.contains_key(k) by {
        if has_key(next, k) {
            let j = choose|j: int| 0 <= j < next.len() && #[trigger] next[j].0 == k;
            if k != key {
                assert(entries[j].0 == k);
            }
        }
        if has_key(entries, k) {
            let j = choose|j: int| 0 <= j < entries.len() && #[trigger] entries[j].0 == k;
            assert(next[j].0 == k);
        }
        if k == key {
            if i < entries.len() {
                assert(next[i].0 == key);
            } else {
                assert(next[entries.len() as int].0 == key);
            }
        }
    }
    assert forall|k: Seq<char>| as_map(next).contains_key(k) implies as_map(next)[k] == expected[k] by {
        let j = choose|j: int| 0 <= j < next.len() && #[trigger] next[j].0 == k;
        assert(as_map(next)[next[j].0] == next[j].1);
        if k != key {
            assert(entries[j].0 == k);
            assert(as_map(entries)[entries[j].0] == entries[j].1);
        } else {
            if i < entries.len() {
                if j != i {
                    assert(next[i].0 == key);
                }
            } else {
                if j < entries.len() {
                    assert(entries[j].0 == key);
                }
            }
        }
    }
    assert(as_map(next) =~= expected);
}

/// The contents of stored entries.
pub open spec fn pairs(stored: Seq<(String, String)>) -> Seq<(Seq<char>, Seq<char>)> {
    stored.map_values(|e: (String, String)| (e.0@, e.1@))
}

/// Key-value pairs with distinct keys, in the order in which the keys were first inserted.
#[derive(Debug)]
pub struct Metadata {
    entries: Vec<(String, String)>,
}

impl View for Metadata {
    type V = Map<Seq<char>, Seq<char>>;

    /// The map from each key to its value.
    open spec fn view(&self) -> Map<Seq<char>, Seq<char>> {
        as_map(self.entries())
    }
}

impl Metadata {
    /// The entries in order, each a key and its value.
    pub closed spec fn entries(&self) -> Seq<(Seq<char>, Seq<char>)> {
        pairs(self.entries@)
    }

    /// The invariant of the type: no key is stored twice.
    #[verifier::type_invariant]
    pub closed spec fn well_formed(&self) -> bool {
        distinct_keys(self.entries())
    }

    /// Metadata without entries.
    pub fn new() -> (m: Metadata)
        ensures
            m.entries() == Seq::<(Seq<char>, Seq<char>)>::empty(),
            m@ == Map::<Seq<char>, Seq<char>>::empty(),
    {
        let m = Metadata { entries: Vec::new() };
        assert(m.entries() =~= Seq::<(Seq<char>, Seq<char>)>::empty());
        m
    }

    /// The number of entries.
    pub fn len(&self) -> (n: usize)
        ensures
            n == self.entries().len(),
            distinct_keys(self.entries()),
    {
        proof {
            use_type_invariant(self);
        }
        self.entries.len()
    }

    /// Whether there is no entry.
    pub fn is_empty(&self) -> (b: bool)
        ensures
            b == (self.entries().len() == 0),
    {
        self.entries.len() == 0
    }

    /// The key and the value of the entry at `index`, if there is one.
    pub fn entry(&self, index: usize) -> (r: Option<(&String, &String)>)
        ensures
            match r {
                Some((key, value)) => index < self.entries().len() && (key@, value@)
                    == self.entries()[index as int],
                None => index >= self.entries().len(),
            },
    {
        if index < self.entries.len() {
            let e = &self.entries[index];
            Some((&e.0, &e.1))
        } else {
            None
        }
    }

    fn index_of(&self, key: &String) -> (i: usize)
        ensures
            i == key_index(self.entries(), key@),
            i <= self.entries().len(),
    {
        let mut i: usize = 0;
        while i < self.entries.len() && self.entries[i].0 != *key
            invariant
                i <= self.entries.len(),
                forall|k: int| 0 <= k < i ==> self.entries()[k].0 != key@,
            decreases self.entries.len() - i,
        {
            assert(self.entries()[i as int].0 == self.entries@[i as int].0@);
            i += 1;
        }
        proof {
            lemma_key_index(self.entries(), key@);
            if i < self.entries.len() {
                assert(self.entries()[i as int].0 == self.entries@[i as int].0@);
            }
        }
        i
    }

    /// The value of `key`, if it has one.
    pub fn get(&self, key: &str) -> (r: Option<&String>)
        ensures
            self@.contains_key(key@) ==> r is Some && r->0@ == self@[key@],
            !self@.contains_key(key@) ==> r is None,
    {
        let owned = key.to_owned();
        let i = self.index_of(&owned);
        proof {
            use_type_invariant(self);
            lemma_key_index(self.entries(), key@);
            lemma_as_map(self.entries());
        }
        if i < self.entries.len() {
            assert(self@[self.entries()[i as int].0] == self.entries()[i as int].1);
            Some(&self.entries[i].1)
        } else {
            None
        }
    }

    /// Whether `key` has a value.
    pub fn contains_key(&self, key: &str) -> (b: bool)
        ensures
            b == self@.contains_key(key@),
    {
        self.get(key).is_some()
    }

    /// Gives `key` the value `value`. A key that is already there keeps its
    /// place and loses its old value; a new key goes to the end.
    pub fn insert(&mut self, key: String, value: String)
        ensures
            final(self).entries() == upsert(old(self).entries(), key@, value@),
            final(self)@ == old(self)@.insert(key@, value@),
    {
        proof {
            use_type_invariant(&*self);
            lemma_upsert(self.entries(), key@, value@);
        }
        let i = self.index_of(&key);
        let mut entries: Vec<(String, String)> = Vec::new();
        core::mem::swap(&mut self.entries, &mut entries);
        if i < entries.len() {
            entries.set(i, (key, value));
        } else {
            entries.push((key, value));
        }
        assert(pairs(entries@) =~= upsert(old(self).entries(), key@, value@));
        self.entries = entries;
    }
}

} // verus!
