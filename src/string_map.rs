use vstd::prelude::*;

use crate::text::str_eq;

verus! {

/// Abstract contents of a [`StringMap`]: its entries in insertion order.
pub type Entries = Seq<(Seq<char>, Seq<char>)>;

/// No key occurs in two entries.
pub open spec fn keys_unique(s: Entries) -> bool {
    forall|i: int, j: int| 0 <= i < j < s.len() ==> s[i].0 != s[j].0
}

/// Some entry has key `k`.
pub open spec fn has_key(s: Entries, k: Seq<char>) -> bool {
    exists|i: int| 0 <= i < s.len() && #[trigger] s[i].0 == k
}

/// `i` is the first position whose entry has key `k`.
pub open spec fn first_with_key(s: Entries, k: Seq<char>, i: int) -> bool {
    &&& 0 <= i < s.len()
    &&& s[i].0 == k
    &&& forall|j: int| 0 <= j < i ==> s[j].0 != k
}

/// The first position of an entry with key `k` (meaningful when `has_key(s, k)`).
pub open spec fn key_position(s: Entries, k: Seq<char>) -> int {
    choose|i: int| first_with_key(s, k, i)
}

/// The value stored under `k`, if any.
pub open spec fn lookup(s: Entries, k: Seq<char>) -> Option<Seq<char>> {
    if has_key(s, k) {
        Some(s[key_position(s, k)].1)
    } else {
        None
    }
}

/// Insertion with overwrite: an existing key keeps its place and takes the new
/// value; a new key is appended.
pub open spec fn insert_entry(s: Entries, k: Seq<char>, v: Seq<char>) -> Entries {
    if has_key(s, k) {
        s.update(key_position(s, k), (k, v))
    } else {
        s.push((k, v))
    }
}

/// The first entry with key `k` is the one `key_position` names.
pub proof fn lemma_key_position(s: Entries, k: Seq<char>, i: int)
    requires
        first_with_key(s, k, i),
    ensures
        has_key(s, k),
        key_position(s, k) == i,
{
    assert(has_key(s, k));
    let p = key_position(s, k);
    assert(first_with_key(s, k, p));
    if p < i {
        assert(s[p].0 != k);
    } else if p > i {
        assert(s[i].0 != k);
    }
}

/// Some key that occurs has a first occurrence.
pub proof fn lemma_has_key_first(s: Entries, k: Seq<char>)
    requires
        has_key(s, k),
    ensures
        first_with_key(s, k, key_position(s, k)),
    decreases s.len(),
{
    if s[0].0 == k {
        lemma_key_position(s, k, 0);
    } else {
        let t = s.drop_first();
        let w = choose|i: int| 0 <= i < s.len() && #[trigger] s[i].0 == k;
        assert(t[w - 1].0 == k);
        lemma_has_key_first(t, k);
        let q = key_position(t, k);
        assert forall|j: int| 0 <= j < q + 1 implies s[j].0 != k by {
            if j > 0 {
                assert(s[j] == t[j - 1]);
            }
        }
        lemma_key_position(s, k, q + 1);
    }
}

/// Inserting keeps keys unique: a map built by insertions never holds a key
/// twice.
pub proof fn lemma_insert_keeps_unique(s: Entries, k: Seq<char>, v: Seq<char>)
    requires
        keys_unique(s),
    ensures
        keys_unique(insert_entry(s, k, v)),
{
    let r = insert_entry(s, k, v);
    if has_key(s, k) {
        lemma_has_key_first(s, k);
        let p = key_position(s, k);
        assert forall|i: int, j: int| 0 <= i < j < r.len() implies r[i].0 != r[j].0 by {
            if i == p {
                assert(s[p].0 == k);
            } else if j == p {
                assert(s[p].0 == k);
            }
        }
    } else {
        assert forall|i: int, j: int| 0 <= i < j < r.len() implies r[i].0 != r[j].0 by {
            if j == s.len() {
                assert(r[i] == s[i]);
            }
        }
    }
}

/// After inserting `k`, the map has key `k`.
pub proof fn lemma_insert_has_key(s: Entries, k: Seq<char>, v: Seq<char>)
    ensures
        has_key(insert_entry(s, k, v), k),
{
    let r = insert_entry(s, k, v);
    if has_key(s, k) {
        lemma_has_key_first(s, k);
        assert(r[key_position(s, k)].0 == k);
    } else {
        assert(r[s.len() as int].0 == k);
    }
}

/// Inserting keeps every key that was there.
pub proof fn lemma_insert_keeps_key(s: Entries, k: Seq<char>, v: Seq<char>, other: Seq<char>)
    requires
        has_key(s, other),
    ensures
        has_key(insert_entry(s, k, v), other),
{
    let r = insert_entry(s, k, v);
    let w = choose|i: int| 0 <= i < s.len() && #[trigger] s[i].0 == other;
    if has_key(s, k) {
        lemma_has_key_first(s, k);
    }
    assert(r[w].0 == other);
}

/// A string-keyed map that keeps its entries in insertion
/// order. Used for header fields and for path variables.
#[derive(Clone, Debug)]
pub struct StringMap {
    entries: Vec<(String, String)>,
}

impl View for StringMap {
    type V = Entries;

    closed spec fn view(&self) -> Entries {
        self.entries@.map_values(|e: (String, String)| (e.0@, e.1@))
    }
}

impl StringMap {
    pub fn new() -> (r: StringMap)
        ensures
            r@ == Seq::<(Seq<char>, Seq<char>)>::empty(),
    {
        StringMap { entries: Vec::new() }
    }

    /// The number of entries.
    pub fn len(&self) -> (r: usize)
        ensures
            r == self@.len(),
    {
        self.entries.len()
    }

    /// The entry at position `i`, in insertion order.
    pub fn entry_at(&self, i: usize) -> (r: (&String, &String))
        requires
            i < self@.len(),
        ensures
            (r.0@, r.1@) == self@[i as int],
    {
        let e = &self.entries[i];
        (&e.0, &e.1)
    }

    /// The position of the entry with key `key`, if there is one.
    fn position(&self, key: &str) -> (r: Option<usize>)
        ensures
            r is None <==> !has_key(self@, key@),
            r matches Some(i) ==> i < self@.len() && key_position(self@, key@) == i,
    {
        let mut i: usize = 0;
        while i < self.entries.len()
            invariant
                0 <= i <= self@.len(),
                forall|j: int| 0 <= j < i ==> self@[j].0 != key@,
            decreases self@.len() - i,
        {
            if str_eq(self.entries[i].0.as_str(), key) {
                proof {
                    assert(self@[i as int].0 == key@);
                    lemma_key_position(self@, key@, i as int);
                }
                return Some(i);
            }
            i += 1;
        }
        None
    }

    /// The value stored under `key`.
    pub fn get(&self, key: &str) -> (r: Option<&String>)
        ensures
            match r {
                Some(v) => lookup(self@, key@) == Some(v@),
                None => lookup(self@, key@) is None,
            },
    {
        match self.position(key) {
            Some(i) => Some(&self.entries[i].1),
            None => None,
        }
    }

    /// Whether some entry has key `key`.
    pub fn contains_key(&self, key: &str) -> (r: bool)
        ensures
            r == has_key(self@, key@),
    {
        self.position(key).is_some()
    }

    /// Stores `value` under `key`, replacing the value of an existing entry.
    pub fn insert(&mut self, key: String, value: String)
        ensures
            final(self)@ == insert_entry(old(self)@, key@, value@),
    {
        match self.position(key.as_str()) {
            Some(i) => {
                self.entries.set(i, (key, value));
                assert(self@ =~= insert_entry(old(self)@, key@, value@));
            },
            None => {
                self.entries.push((key, value));
                assert(self@ =~= insert_entry(old(self)@, key@, value@));
            },
        }
    }
}

} // verus!
