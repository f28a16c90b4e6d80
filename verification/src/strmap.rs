//! Maps keyed by strings that keep their entries in insertion order.
//! Header fields and configuration variables are held in them.
use vstd::prelude::*;
use crate::text::str_eq;

verus! {

pub type Entries = Seq<(Seq<char>, Seq<char>)>;

/// Index of the entry with key `k`, or -1 when there is none.
pub open spec fn key_index<V>(s: Seq<(Seq<char>, V)>, k: Seq<char>) -> int
    decreases s.len(),
{
    if s.len() == 0 {
        -1
    } else {
        let r = key_index(s.drop_last(), k);
        if r >= 0 {
            r
        } else if s.last().0 == k {
            s.len() - 1
        } else {
            -1
        }
    }
}

/// The value held under `k`.
pub open spec fn spec_get<V>(s: Seq<(Seq<char>, V)>, k: Seq<char>) -> Option<V> {
    let i = key_index(s, k);
    if i >= 0 {
        Some(s[i].1)
    } else {
        None
    }
}

/// The entries after `k` is set to `v`: an existing entry keeps its place.
pub open spec fn spec_insert<V>(s: Seq<(Seq<char>, V)>, k: Seq<char>, v: V) -> Seq<(Seq<char>, V)> {
    let i = key_index(s, k);
    if i >= 0 {
        s.update(i, (k, v))
    } else {
        s.push((k, v))
    }
}

/// The entries after `k` is removed.
pub open spec fn spec_remove<V>(s: Seq<(Seq<char>, V)>, k: Seq<char>) -> Seq<(Seq<char>, V)> {
    let i = key_index(s, k);
    if i >= 0 {
        s.remove(i)
    } else {
        s
    }
}

/// The entries of `h` set one after the other on top of `base`.
pub open spec fn insert_all<V>(base: Seq<(Seq<char>, V)>, h: Seq<(Seq<char>, V)>) -> Seq<(Seq<char>, V)>
    decreases h.len(),
{
    if h.len() == 0 {
        base
    } else {
        spec_insert(insert_all(base, h.drop_last()), h.last().0, h.last().1)
    }
}

/// No key occurs twice.
pub open spec fn keys_unique<V>(s: Seq<(Seq<char>, V)>) -> bool {
    forall|i: int, j: int| 0 <= i < s.len() && 0 <= j < s.len() && i != j ==> s[i].0 != s[j].0
}

pub proof fn lemma_key_index<V>(s: Seq<(Seq<char>, V)>, k: Seq<char>)
    ensures
        -1 <= key_index(s, k) < s.len(),
        key_index(s, k) >= 0 ==> s[key_index(s, k)].0 == k,
        forall|j: int|
            0 <= j < s.len() && (key_index(s, k) < 0 || j < key_index(s, k)) ==> s[j].0 != k,
    decreases s.len(),
{
    if s.len() > 0 {
        lemma_key_index(s.drop_last(), k);
        assert forall|j: int|
            0 <= j < s.len() && (key_index(s, k) < 0 || j < key_index(s, k)) implies s[j].0
            != k by {
            if j < s.len() - 1 {
                assert(s[j] == s.drop_last()[j]);
            }
        }
    }
}

/// The index found by a scan from the front.
pub proof fn lemma_key_index_at<V>(s: Seq<(Seq<char>, V)>, k: Seq<char>, i: int)
    requires
        0 <= i <= s.len(),
        forall|j: int| 0 <= j < i ==> s[j].0 != k,
        i < s.len() ==> s[i].0 == k,
    ensures
        key_index(s, k) == (if i < s.len() { i } else { -1 }),
{
    lemma_key_index(s, k);
    let r = key_index(s, k);
    if r >= 0 && r < i {
    } else if r >= 0 && r > i {
        assert(s[i].0 != k);
    } else if r < 0 && i < s.len() {
        assert(s[i].0 != k);
    }
}

/// Setting a key keeps the keys unique.
pub proof fn law_insert_keeps_keys_unique<V>(s: Seq<(Seq<char>, V)>, k: Seq<char>, v: V)
    requires
        keys_unique(s),
    ensures
        keys_unique(spec_insert(s, k, v)),
{
    lemma_key_index(s, k);
}

/// Removing a key keeps the keys unique.
pub proof fn law_remove_keeps_keys_unique<V>(s: Seq<(Seq<char>, V)>, k: Seq<char>)
    requires
        keys_unique(s),
    ensures
        keys_unique(spec_remove(s, k)),
{
    lemma_key_index(s, k);
    let i = key_index(s, k);
    if i >= 0 {
        let r = s.remove(i);
        assert forall|a: int, b: int| 0 <= a < r.len() && 0 <= b < r.len() && a != b implies r[a].0
            != r[b].0 by {
            let a1 = if a < i { a } else { a + 1 };
            let b1 = if b < i { b } else { b + 1 };
            assert(r[a] == s[a1]);
            assert(r[b] == s[b1]);
        }
    }
}

/// Reading a key after it was set gives the value set; every other key reads
/// as before.
pub proof fn law_get_after_insert<V>(s: Seq<(Seq<char>, V)>, k: Seq<char>, v: V, other: Seq<char>)
    ensures
        spec_get(spec_insert(s, k, v), k) == Some(v),
        other != k ==> spec_get(spec_insert(s, k, v), other) == spec_get(s, other),
{
    lemma_key_index(s, k);
    lemma_key_index(s, other);
    let i = key_index(s, k);
    let t = spec_insert(s, k, v);
    let o = key_index(s, other);
    if i >= 0 {
        assert forall|j: int| 0 <= j < i implies t[j].0 != k by {
            assert(t[j] == s[j]);
        }
        lemma_key_index_at(t, k, i);
        if other != k {
            if o >= 0 {
                assert forall|j: int| 0 <= j < o implies t[j].0 != other by {
                    if j != i {
                        assert(t[j] == s[j]);
                    }
                }
                assert(t[o] == s[o]);
                lemma_key_index_at(t, other, o);
            } else {
                assert forall|j: int| 0 <= j < t.len() implies t[j].0 != other by {
                    if j != i {
                        assert(t[j] == s[j]);
                    }
                }
                lemma_key_index_at(t, other, t.len() as int);
            }
        }
    } else {
        assert forall|j: int| 0 <= j < s.len() implies t[j].0 != k by {
            assert(t[j] == s[j]);
        }
        lemma_key_index_at(t, k, s.len() as int);
        if other != k {
            if o >= 0 {
                assert forall|j: int| 0 <= j < o implies t[j].0 != other by {
                    assert(t[j] == s[j]);
                }
                assert(t[o] == s[o]);
                lemma_key_index_at(t, other, o);
            } else {
                assert forall|j: int| 0 <= j < t.len() implies t[j].0 != other by {
                    if j < s.len() {
                        assert(t[j] == s[j]);
                    }
                }
                lemma_key_index_at(t, other, t.len() as int);
            }
        }
    }
}

/// In a map whose keys are unique (as `StrMap::insert` keeps them), a
/// removed key reads as absent and every other key reads as before.
pub proof fn law_get_after_remove<V>(s: Seq<(Seq<char>, V)>, k: Seq<char>, other: Seq<char>)
    requires
        keys_unique(s),
    ensures
        spec_get(spec_remove(s, k), k) is None,
        other != k ==> spec_get(spec_remove(s, k), other) == spec_get(s, other),
{
    lemma_key_index(s, k);
    lemma_key_index(s, other);
    let i = key_index(s, k);
    let t = spec_remove(s, k);
    let o = key_index(s, other);
    if i >= 0 {
        assert forall|j: int| 0 <= j < t.len() implies t[j].0 != k by {
            if j < i {
                assert(t[j] == s[j]);
            } else {
                assert(t[j] == s[j + 1]);
            }
        }
        lemma_key_index_at(t, k, t.len() as int);
        if other != k {
            if o >= 0 {
                let p = if o < i { o } else { o - 1 };
                assert forall|j: int| 0 <= j < p implies t[j].0 != other by {
                    if j < i {
                        assert(t[j] == s[j]);
                    } else {
                        assert(t[j] == s[j + 1]);
                    }
                }
                if o < i {
                    assert(t[p] == s[o]);
                } else {
                    assert(t[p] == s[o]);
                }
                lemma_key_index_at(t, other, p);
            } else {
                assert forall|j: int| 0 <= j < t.len() implies t[j].0 != other by {
                    if j < i {
                        assert(t[j] == s[j]);
                    } else {
                        assert(t[j] == s[j + 1]);
                    }
                }
                lemma_key_index_at(t, other, t.len() as int);
            }
        }
    }
}

/// A string-to-string map whose entries keep their insertion order; setting
/// an existing key replaces its value in place.
#[derive(Debug, Clone, PartialEq, Eq)]
pub struct StrMap {
    entries: Vec<(String, String)>,
}

impl View for StrMap {
    type V = Entries;

    closed spec fn view(&self) -> Entries {
        self.entries@.map_values(|e: (String, String)| (e.0@, e.1@))
    }
}

impl StrMap {
    /// The empty map.
    pub fn new() -> (m: StrMap)
        ensures
            m@ == Seq::<(Seq<char>, Seq<char>)>::empty(),
    {
        let m = StrMap { entries: Vec::new() };
        assert(m@ =~= Seq::<(Seq<char>, Seq<char>)>::empty());
        m
    }

    /// A copy with the same entries.
    pub fn copy(&self) -> (m: StrMap)
        ensures
            m@ == self@,
    {
        let mut entries: Vec<(String, String)> = Vec::new();
        let mut i: usize = 0;
        while i < self.entries.len()
            invariant
                i <= self.entries@.len(),
                entries@.len() == i,
                forall|j: int|
                    0 <= j < i ==> (#[trigger] entries@[j]).0@ == self.entries@[j].0@ && entries@[j].1@
                        == self.entries@[j].1@,
            decreases self.entries@.len() - i,
        {
            let e = &self.entries[i];
            entries.push((e.0.clone(), e.1.clone()));
            i = i + 1;
        }
        let m = StrMap { entries };
        assert(m@ =~= self@);
        m
    }

    /// Number of entries.
    pub fn len(&self) -> (n: usize)
        ensures
            n == self@.len(),
    {
        self.entries.len()
    }

    /// The entry at position `i`.
    pub fn entry(&self, i: usize) -> (e: (&String, &String))
        requires
            i < self@.len(),
        ensures
            e.0@ == self@[i as int].0,
            e.1@ == self@[i as int].1,
    {
        let e = &self.entries[i];
        (&e.0, &e.1)
    }

    fn find(&self, key: &str) -> (r: Option<usize>)
        ensures
            match r {
                Some(i) => key_index(self@, key@) == i,
                None => key_index(self@, key@) == -1,
            },
    {
        let mut i: usize = 0;
        while i < self.entries.len()
            invariant
                i <= self@.len(),
                forall|j: int| 0 <= j < i ==> self@[j].0 != key@,
            decreases self@.len() - i,
        {
            if str_eq(self.entries[i].0.as_str(), key) {
                proof {
                    lemma_key_index_at(self@, key@, i as int);
                }
                return Some(i);
            }
            i = i + 1;
        }
        proof {
            lemma_key_index_at(self@, key@, i as int);
        }
        None
    }

    /// The value held under `key`.
    pub fn get(&self, key: &str) -> (r: Option<&String>)
        ensures
            match spec_get(self@, key@) {
                Some(v) => r matches Some(x) && x@ == v,
                None => r is None,
            },
    {
        proof {
            lemma_key_index(self@, key@);
        }
        match self.find(key) {
            Some(i) => Some(&self.entries[i].1),
            None => None,
        }
    }

    /// Whether `key` has a value.
    pub fn contains_key(&self, key: &str) -> (r: bool)
        ensures
            r == (spec_get(self@, key@) is Some),
    {
        self.find(key).is_some()
    }

    /// Sets `key` to `value`.
    pub fn insert(&mut self, key: String, value: String)
        ensures
            final(self)@ == spec_insert(old(self)@, key@, value@),
    {
        let ghost k = key@;
        let ghost v = value@;
        proof {
            lemma_key_index(self@, k);
        }
        match self.find(key.as_str()) {
            Some(i) => {
                let mut entries = Vec::new();
                std::mem::swap(&mut entries, &mut self.entries);
                entries.set(i, (key, value));
                self.entries = entries;
            },
            None => {
                let mut entries = Vec::new();
                std::mem::swap(&mut entries, &mut self.entries);
                entries.push((key, value));
                self.entries = entries;
            },
        }
        assert(self@ =~= spec_insert(old(self)@, k, v));
    }

    /// Sets every entry of `other`, in its order.
    pub fn insert_all(&mut self, other: &StrMap)
        ensures
            final(self)@ == insert_all(old(self)@, other@),
    {
        let mut i: usize = 0;
        while i < other.entries.len()
            invariant
                i <= other@.len(),
                other.entries@.len() == other@.len(),
                self@ == insert_all(old(self)@, other@.take(i as int)),
            decreases other@.len() - i,
        {
            let e = &other.entries[i];
            self.insert(e.0.clone(), e.1.clone());
            assert(other@.take(i + 1).drop_last() =~= other@.take(i as int));
            i = i + 1;
        }
        assert(other@.take(i as int) =~= other@);
    }

    /// Removes `key`, giving back its value.
    pub fn remove(&mut self, key: &str) -> (r: Option<String>)
        ensures
            final(self)@ == spec_remove(old(self)@, key@),
            match spec_get(old(self)@, key@) {
                Some(v) => r matches Some(x) && x@ == v,
                None => r is None,
            },
    {
        proof {
            lemma_key_index(self@, key@);
        }
        match self.find(key) {
            Some(i) => {
                let mut entries = Vec::new();
                std::mem::swap(&mut entries, &mut self.entries);
                let (_, v) = entries.remove(i);
                self.entries = entries;
                assert(self@ =~= spec_remove(old(self)@, key@));
                Some(v)
            },
            None => None,
        }
    }
}

/// A map from strings to byte strings that keeps its entries in insertion
/// order; setting an existing key replaces its value in place.
#[derive(Debug, Clone, PartialEq, Eq)]
pub struct FieldMap {
    entries: Vec<(String, Vec<u8>)>,
}

impl View for FieldMap {
    type V = Seq<(Seq<char>, Seq<u8>)>;

    closed spec fn view(&self) -> Seq<(Seq<char>, Seq<u8>)> {
        self.entries@.map_values(|e: (String, Vec<u8>)| (e.0@, e.1@))
    }
}

impl FieldMap {
    /// The entry at position `i`.
    pub fn entry(&self, i: usize) -> (e: (&String, &Vec<u8>))
        requires
            i < self@.len(),
        ensures
            e.0@ == self@[i as int].0,
            e.1@ == self@[i as int].1,
    {
        let e = &self.entries[i];
        (&e.0, &e.1)
    }

    /// The empty map.
    pub fn new() -> (m: FieldMap)
        ensures
            m@ == Seq::<(Seq<char>, Seq<u8>)>::empty(),
    {
        let m = FieldMap { entries: Vec::new() };
        assert(m@ =~= Seq::<(Seq<char>, Seq<u8>)>::empty());
        m
    }

    /// Number of entries.
    pub fn len(&self) -> (n: usize)
        ensures
            n == self@.len(),
    {
        self.entries.len()
    }

    fn find(&self, key: &str) -> (r: Option<usize>)
        ensures
            match r {
                Some(i) => key_index(self@, key@) == i,
                None => key_index(self@, key@) == -1,
            },
    {
        let mut i: usize = 0;
        while i < self.entries.len()
            invariant
                i <= self@.len(),
                forall|j: int| 0 <= j < i ==> self@[j].0 != key@,
            decreases self@.len() - i,
        {
            if str_eq(self.entries[i].0.as_str(), key) {
                proof {
                    lemma_key_index_at(self@, key@, i as int);
                }
                return Some(i);
            }
            i = i + 1;
        }
        proof {
            lemma_key_index_at(self@, key@, i as int);
        }
        None
    }

    /// The value held under `key`.
    pub fn get(&self, key: &str) -> (r: Option<&Vec<u8>>)
        ensures
            match spec_get(self@, key@) {
                Some(v) => r matches Some(x) && x@ == v,
                None => r is None,
            },
    {
        proof {
            lemma_key_index(self@, key@);
        }
        match self.find(key) {
            Some(i) => Some(&self.entries[i].1),
            None => None,
        }
    }

    /// Whether `key` has a value.
    pub fn contains_key(&self, key: &str) -> (r: bool)
        ensures
            r == (spec_get(self@, key@) is Some),
    {
        self.find(key).is_some()
    }

    /// Sets `key` to `value`.
    pub fn insert(&mut self, key: String, value: Vec<u8>)
        ensures
            final(self)@ == spec_insert(old(self)@, key@, value@),
    {
        let ghost k = key@;
        let ghost v = value@;
        proof {
            lemma_key_index(self@, k);
        }
        match self.find(key.as_str()) {
            Some(i) => {
                self.entries.set(i, (key, value));
            },
            None => {
                self.entries.push((key, value));
            },
        }
        assert(self@ =~= spec_insert(old(self)@, k, v));
    }
}

} // verus!
