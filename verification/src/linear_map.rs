//! A map over a `Vec` of `(key, value)` pairs, looked up by linear scan.
//!
//! The runtime collections here hold a handful of entries (interfaces, sessions, proxies), where a
//! scan over contiguous pairs beats a `HashMap`'s hashing and heap layout.

use vstd::prelude::*;

verus! {

/// A key that can be compared with another.
pub trait MapKey: Sized {
    /// What a key is compared by.
    type Id;

    spec fn id(&self) -> Self::Id;

    /// Whether both keys are the same.
    fn same(&self, other: &Self) -> (r: bool)
        ensures
            r == (self.id() == other.id()),
    ;
}

impl MapKey for u32 {
    type Id = u32;

    open spec fn id(&self) -> u32 {
        *self
    }

    fn same(&self, other: &Self) -> (r: bool) {
        *self == *other
    }
}

impl MapKey for u64 {
    type Id = u64;

    open spec fn id(&self) -> u64 {
        *self
    }

    fn same(&self, other: &Self) -> (r: bool) {
        *self == *other
    }
}

impl MapKey for String {
    type Id = Seq<char>;

    open spec fn id(&self) -> Seq<char> {
        self@
    }

    fn same(&self, other: &Self) -> (r: bool) {
        *self == *other
    }
}

/// A `Vec<(K, V)>` with a map API. `insert` replaces the value of an existing key, so keys stay
/// unique.
pub struct LinearMap<K, V> {
    pub entries: Vec<(K, V)>,
}

/// Where the first entry of `id` is; the number of entries where there is none.
pub open spec fn position<K: MapKey, V>(s: Seq<(K, V)>, id: K::Id) -> nat
    decreases s.len(),
{
    if s.len() == 0 || s[0].0.id() == id {
        0
    } else {
        1 + position(s.skip(1), id)
    }
}

/// The value of the first entry of `id`.
pub open spec fn lookup<K: MapKey, V>(s: Seq<(K, V)>, id: K::Id) -> Option<V> {
    let i: int = position(s, id) as int;
    if i < s.len() {
        Some(s[i].1)
    } else {
        None
    }
}

/// The entries with `value` for `key`: in the place of its entry, or behind all others.
pub open spec fn put<K: MapKey, V>(s: Seq<(K, V)>, key: K, value: V) -> Seq<(K, V)> {
    let i: int = position(s, key.id()) as int;
    if i < s.len() {
        s.update(i, (s[i].0, value))
    } else {
        s.push((key, value))
    }
}

/// The entries without the first one of `id`.
pub open spec fn without<K: MapKey, V>(s: Seq<(K, V)>, id: K::Id) -> Seq<(K, V)> {
    let i: int = position(s, id) as int;
    if i < s.len() {
        s.remove(i)
    } else {
        s
    }
}

/// No key has two entries.
pub open spec fn unique<K: MapKey, V>(s: Seq<(K, V)>) -> bool {
    forall|i: int, j: int| 0 <= i < j < s.len() ==> #[trigger] s[i].0.id() != #[trigger] s[j].0.id()
}

/// `position` is the first entry of its key.
pub proof fn lemma_position<K: MapKey, V>(s: Seq<(K, V)>, id: K::Id)
    ensures
        position(s, id) <= s.len(),
        forall|i: int| 0 <= i < position(s, id) ==> (#[trigger] s[i]).0.id() != id,
        position(s, id) < s.len() ==> s[position(s, id) as int].0.id() == id,
    decreases s.len(),
{
    if s.len() > 0 && s[0].0.id() != id {
        let t = s.skip(1);
        lemma_position(t, id);
        assert forall|i: int| 0 <= i < position(s, id) implies (#[trigger] s[i]).0.id() != id by {
            if i > 0 {
                assert(s[i] == t[i - 1]);
            }
        }
    }
}

/// The entry of a key before which none has it is the first.
pub proof fn lemma_position_is<K: MapKey, V>(s: Seq<(K, V)>, id: K::Id, n: int)
    requires
        0 <= n <= s.len(),
        forall|i: int| 0 <= i < n ==> (#[trigger] s[i]).0.id() != id,
        n < s.len() ==> s[n].0.id() == id,
    ensures
        position(s, id) == n,
{
    lemma_position(s, id);
    let p: int = position(s, id) as int;
    if p < n {
        assert(s[p].0.id() != id);
    } else if n < p {
        assert(s[n].0.id() != id);
    }
}

/// A key is found with what was put there last.
pub proof fn law_lookup_finds_what_was_put<K: MapKey, V>(s: Seq<(K, V)>, key: K, value: V)
    ensures
        lookup(put(s, key, value), key.id()) == Some(value),
{
    lemma_position(s, key.id());
    lemma_position_is(put(s, key, value), key.id(), position(s, key.id()) as int);
}

/// Putting one key leaves every other as it was.
pub proof fn law_put_leaves_other_keys<K: MapKey, V>(s: Seq<(K, V)>, key: K, value: V, id: K::Id)
    requires
        id != key.id(),
    ensures
        lookup(put(s, key, value), id) == lookup(s, id),
{
    let t = put(s, key, value);
    lemma_position(s, key.id());
    lemma_position(s, id);
    let p: int = position(s, id) as int;
    assert forall|i: int| 0 <= i < p implies (#[trigger] t[i]).0.id() != id by {
        assert(s[i].0.id() != id);
    }
    if p < s.len() {
        lemma_position_is(t, id, p);
    } else {
        assert forall|i: int| 0 <= i < t.len() implies (#[trigger] t[i]).0.id() != id by {
            if i < s.len() {
                assert(s[i].0.id() != id);
            }
        }
        lemma_position_is(t, id, t.len() as int);
    }
}

/// Keys stay unique when one is put.
pub proof fn law_put_keeps_keys_unique<K: MapKey, V>(s: Seq<(K, V)>, key: K, value: V)
    requires
        unique(s),
    ensures
        unique(put(s, key, value)),
{
    lemma_position(s, key.id());
    let t = put(s, key, value);
    assert forall|i: int, j: int| 0 <= i < j < t.len() implies #[trigger] t[i].0.id()
        != #[trigger] t[j].0.id() by {
        if j < s.len() {
            assert(s[i].0.id() != s[j].0.id());
        } else {
            assert(s[i].0.id() != key.id());
        }
    }
}

/// A key that was taken out is no longer found.
pub proof fn law_removed_key_is_gone<K: MapKey, V>(s: Seq<(K, V)>, id: K::Id)
    requires
        unique(s),
    ensures
        unique(without(s, id)),
        lookup(without(s, id), id) is None,
{
    lemma_position(s, id);
    let p: int = position(s, id) as int;
    let t = without(s, id);
    assert forall|i: int, j: int| 0 <= i < j < t.len() implies #[trigger] t[i].0.id()
        != #[trigger] t[j].0.id() by {
        let a: int = if i < p { i } else { i + 1 };
        let b: int = if j < p { j } else { j + 1 };
        if p < s.len() {
            assert(t[i] == s[a] && t[j] == s[b]);
            assert(s[a].0.id() != s[b].0.id());
        } else {
            assert(s[i].0.id() != s[j].0.id());
        }
    }
    assert forall|i: int| 0 <= i < t.len() implies (#[trigger] t[i]).0.id() != id by {
        if p < s.len() {
            if i < p {
                assert(t[i] == s[i]);
            } else {
                assert(t[i] == s[i + 1]);
                assert(s[p].0.id() != s[i + 1].0.id());
            }
        } else {
            assert(t[i] == s[i]);
        }
    }
    lemma_position_is(t, id, t.len() as int);
}

impl<K: MapKey, V> LinearMap<K, V> {
    pub fn new() -> (r: Self)
        ensures
            r.entries@ == Seq::<(K, V)>::empty(),
            unique(r.entries@),
    {
        LinearMap { entries: Vec::new() }
    }

    /// How many keys there are.
    pub fn len(&self) -> (r: usize)
        ensures
            r == self.entries@.len(),
    {
        self.entries.len()
    }

    pub fn is_empty(&self) -> (r: bool)
        ensures
            r == (self.entries@.len() == 0),
    {
        self.entries.len() == 0
    }

    /// Where the entry of `key` is.
    fn find(&self, key: &K) -> (r: usize)
        ensures
            r == position(self.entries@, key.id()),
            r <= self.entries@.len(),
            r < self.entries@.len() ==> self.entries@[r as int].0.id() == key.id(),
    {
        let mut i: usize = 0;
        while i < self.entries.len()
            invariant
                i <= self.entries@.len(),
                forall|j: int| 0 <= j < i ==> (#[trigger] self.entries@[j]).0.id() != key.id(),
            decreases self.entries@.len() - i,
        {
            if self.entries[i].0.same(key) {
                proof {
                    lemma_position_is(self.entries@, key.id(), i as int);
                }
                return i;
            }
            i += 1;
        }
        proof {
            lemma_position_is(self.entries@, key.id(), i as int);
        }
        i
    }

    pub fn get(&self, key: &K) -> (r: Option<&V>)
        ensures
            match r {
                Some(v) => lookup(self.entries@, key.id()) == Some(*v),
                None => lookup(self.entries@, key.id()) is None,
            },
    {
        let i: usize = self.find(key);
        if i < self.entries.len() {
            Some(&self.entries[i].1)
        } else {
            None
        }
    }

    /// The value of `key`, to change in place.
    pub fn get_mut(&mut self, key: &K) -> (r: Option<&mut V>)
        ensures
            match r {
                Some(v) => lookup(old(self).entries@, key.id()) == Some(*v) && final(self).entries@
                    == old(self).entries@.update(
                    position(old(self).entries@, key.id()) as int,
                    (
                        old(self).entries@[position(old(self).entries@, key.id()) as int].0,
                        *final(v),
                    ),
                ),
                None => lookup(old(self).entries@, key.id()) is None && *final(self) == *old(self),
            },
    {
        let i: usize = self.find(key);
        if i < self.entries.len() {
            Some(&mut self.entries[i].1)
        } else {
            None
        }
    }

    /// Returns the replaced value when `key` was already present.
    pub fn insert(&mut self, key: K, value: V) -> (r: Option<V>)
        ensures
            final(self).entries@ == put(old(self).entries@, key, value),
            r == lookup(old(self).entries@, key.id()),
    {
        let i: usize = self.find(&key);
        if i < self.entries.len() {
            let mut value = value;
            core::mem::swap(&mut self.entries[i].1, &mut value);
            assert(self.entries@ =~= put(old(self).entries@, key, self.entries@[i as int].1));
            return Some(value);
        }
        self.entries.push((key, value));
        None
    }

    /// Take the entry of `key` out.
    pub fn remove(&mut self, key: &K) -> (r: Option<V>)
        ensures
            final(self).entries@ == without(old(self).entries@, key.id()),
            r == lookup(old(self).entries@, key.id()),
    {
        let i: usize = self.find(key);
        if i < self.entries.len() {
            let (_, value) = self.entries.remove(i);
            Some(value)
        } else {
            None
        }
    }
}

impl<K: MapKey, V> Default for LinearMap<K, V> {
    fn default() -> (r: Self)
        ensures
            r.entries@ == Seq::<(K, V)>::empty(),
    {
        LinearMap { entries: Vec::new() }
    }
}

} // verus!
