//! The map type of `map<K, V>` fields: entries in insertion order, no key
//! twice.
use vstd::prelude::*;

verus! {

/// A type that can key a protobuf map (integers, `bool`, `String`), with
/// an executable equality that agrees with the mathematical one.
pub trait MapKey: Sized {
    /// What two keys must share to be the same key.
    type KeyModel;

    spec fn key_model(&self) -> Self::KeyModel;

    fn key_eq(&self, other: &Self) -> (r: bool)
        ensures
            r == (self.key_model() == other.key_model()),
    ;
}

impl MapKey for i32 {
    type KeyModel = i32;

    open spec fn key_model(&self) -> i32 {
        *self
    }

    fn key_eq(&self, other: &Self) -> (r: bool) {
        *self == *other
    }
}

impl MapKey for i64 {
    type KeyModel = i64;

    open spec fn key_model(&self) -> i64 {
        *self
    }

    fn key_eq(&self, other: &Self) -> (r: bool) {
        *self == *other
    }
}

impl MapKey for u32 {
    type KeyModel = u32;

    open spec fn key_model(&self) -> u32 {
        *self
    }

    fn key_eq(&self, other: &Self) -> (r: bool) {
        *self == *other
    }
}

impl MapKey for u64 {
    type KeyModel = u64;

    open spec fn key_model(&self) -> u64 {
        *self
    }

    fn key_eq(&self, other: &Self) -> (r: bool) {
        *self == *other
    }
}

impl MapKey for bool {
    type KeyModel = bool;

    open spec fn key_model(&self) -> bool {
        *self
    }

    fn key_eq(&self, other: &Self) -> (r: bool) {
        *self == *other
    }
}

impl MapKey for String {
    type KeyModel = Seq<char>;

    open spec fn key_model(&self) -> Seq<char> {
        self@
    }

    fn key_eq(&self, other: &Self) -> (r: bool) {
        *self == *other
    }
}

/// No two entries share a key.
pub open spec fn keys_distinct<K: MapKey, V>(s: Seq<(K, V)>) -> bool {
    forall|i: int, j: int|
        0 <= i < s.len() && 0 <= j < s.len() && i != j ==> #[trigger] s[i].0.key_model()
            != #[trigger] s[j].0.key_model()
}

/// Some entry has a key equal to `km`.
pub open spec fn has_key<K: MapKey, V>(s: Seq<(K, V)>, km: K::KeyModel) -> bool {
    exists|i: int| 0 <= i < s.len() && #[trigger] s[i].0.key_model() == km
}

/// The position of the entry keyed `km`.
pub open spec fn key_index<K: MapKey, V>(s: Seq<(K, V)>, km: K::KeyModel) -> int {
    choose|i: int| 0 <= i < s.len() && #[trigger] s[i].0.key_model() == km
}

/// Inserting: an entry with an equal key keeps its key and takes the new
/// value in place; otherwise the entry is appended.
pub open spec fn spec_insert<K: MapKey, V>(s: Seq<(K, V)>, k: K, v: V) -> Seq<(K, V)> {
    if has_key(s, k.key_model()) {
        let i = key_index(s, k.key_model());
        s.update(i, (s[i].0, v))
    } else {
        s.push((k, v))
    }
}

/// Looking a key up.
pub open spec fn spec_lookup<K: MapKey, V>(s: Seq<(K, V)>, km: K::KeyModel) -> Option<V> {
    if has_key(s, km) {
        Some(s[key_index(s, km)].1)
    } else {
        None
    }
}

/// The map a `map<K, V>` field holds.
#[derive(Debug)]
pub struct ProtoMap<K: MapKey, V> {
    entries: Vec<(K, V)>,
}

impl<K: MapKey, V> ProtoMap<K, V> {
    #[verifier::type_invariant]
    spec fn well_formed(self) -> bool {
        keys_distinct(self.entries@)
    }

    /// The entries, in insertion order.
    pub closed spec fn entries(&self) -> Seq<(K, V)> {
        self.entries@
    }

    /// An empty map.
    pub fn new() -> (m: ProtoMap<K, V>)
        ensures
            m.entries() == Seq::<(K, V)>::empty(),
    {
        ProtoMap { entries: Vec::new() }
    }

    /// The number of entries.
    pub fn len(&self) -> (n: usize)
        ensures
            n == self.entries().len(),
    {
        self.entries.len()
    }

    /// Whether the map has no entry.
    pub fn is_empty(&self) -> (b: bool)
        ensures
            b == (self.entries().len() == 0),
    {
        self.entries.len() == 0
    }

    /// The entries as a slice, in insertion order.
    pub fn as_slice(&self) -> (s: &[(K, V)])
        ensures
            s@ == self.entries(),
    {
        self.entries.as_slice()
    }

    /// The entry at position `i`.
    pub fn entry(&self, i: usize) -> (e: &(K, V))
        requires
            i < self.entries().len(),
        ensures
            *e == self.entries()[i as int],
    {
        &self.entries[i]
    }

    /// The position of the entry keyed like `key`, if any.
    fn position(&self, key: &K) -> (r: Option<usize>)
        ensures
            r is Some <==> has_key(self.entries(), key.key_model()),
            r matches Some(i) ==> i == key_index(self.entries(), key.key_model()) && i
                < self.entries().len(),
    {
        proof {
            use_type_invariant(self);
        }
        let mut i: usize = 0;
        while i < self.entries.len()
            invariant
                i <= self.entries@.len(),
                keys_distinct(self.entries@),
                forall|j: int| 0 <= j < i ==> #[trigger] self.entries@[j].0.key_model() != key.key_model(),
            decreases self.entries@.len() - i,
        {
            if self.entries[i].0.key_eq(key) {
                proof {
                    let c = key_index(self.entries@, key.key_model());
                    assert(self.entries@[i as int].0.key_model() == key.key_model());
                    assert(0 <= c < self.entries@.len() && self.entries@[c].0.key_model()
                        == key.key_model());
                }
                return Some(i);
            }
            i = i + 1;
        }
        None
    }

    /// The value keyed like `key`, if any.
    pub fn get(&self, key: &K) -> (r: Option<&V>)
        ensures
            r == match spec_lookup(self.entries(), key.key_model()) {
                Some(v) => Some(&v),
                None => None::<&V>,
            },
    {
        match self.position(key) {
            Some(i) => Some(&self.entries[i].1),
            None => None,
        }
    }

    /// Insert `value` under `key`, returning the value it replaces.
    pub fn insert(&mut self, key: K, value: V) -> (replaced: Option<V>)
        ensures
            final(self).entries() == spec_insert(old(self).entries(), key, value),
            keys_distinct(final(self).entries()),
            replaced == spec_lookup(old(self).entries(), key.key_model()),
    {
        proof {
            use_type_invariant(&*self);
        }
        let ghost km = key.key_model();
        match self.position(&key) {
            Some(i) => {
                let mut entries: Vec<(K, V)> = Vec::new();
                std::mem::swap(&mut entries, &mut self.entries);
                let (k, old_value) = entries.remove(i);
                entries.insert(i, (k, value));
                self.entries = entries;
                proof {
                    assert(self.entries@ =~= old(self).entries@.update(
                        i as int,
                        (old(self).entries@[i as int].0, value),
                    ));
                    assert forall|a: int, b: int|
                        0 <= a < self.entries@.len() && 0 <= b < self.entries@.len() && a != b
                            implies #[trigger] self.entries@[a].0.key_model()
                        != #[trigger] self.entries@[b].0.key_model() by {
                        assert(self.entries@[a].0 == old(self).entries@[a].0);
                        assert(self.entries@[b].0 == old(self).entries@[b].0);
                    }
                }
                Some(old_value)
            },
            None => {
                let mut entries: Vec<(K, V)> = Vec::new();
                std::mem::swap(&mut entries, &mut self.entries);
                entries.push((key, value));
                self.entries = entries;
                proof {
                    assert forall|a: int, b: int|
                        0 <= a < self.entries@.len() && 0 <= b < self.entries@.len() && a != b
                            implies #[trigger] self.entries@[a].0.key_model()
                        != #[trigger] self.entries@[b].0.key_model() by {
                        if a < old(self).entries@.len() && b < old(self).entries@.len() {
                            assert(self.entries@[a] == old(self).entries@[a]);
                            assert(self.entries@[b] == old(self).entries@[b]);
                        } else if a < old(self).entries@.len() {
                            assert(self.entries@[a] == old(self).entries@[a]);
                            assert(self.entries@[b].0 == key);
                        } else {
                            assert(self.entries@[b] == old(self).entries@[b]);
                            assert(self.entries@[a].0 == key);
                        }
                    }
                }
                None
            },
        }
    }
}

impl<K: MapKey, V> Default for ProtoMap<K, V> {
    fn default() -> (m: ProtoMap<K, V>)
        ensures
            m.entries() == Seq::<(K, V)>::empty(),
    {
        ProtoMap::new()
    }
}

} // verus!
