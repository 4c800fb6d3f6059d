//! A map from 32-byte keys to values, kept sorted by key.
//!
//! Walking the map visits entries in ascending lexicographic key order, the
//! order of an ordered map keyed by `[u8; 32]`.

use vstd::prelude::*;

use crate::order::{
    compare_bytes, lemma_lex_asymmetric, lemma_lex_irreflexive, lemma_lex_total,
    lemma_lex_transitive, lex_lt, KeyOrder, Keyed,
};

verus! {

/// Keys strictly increase along `s`.
pub open spec fn strictly_sorted<K: Keyed, V>(s: Seq<(K, V)>) -> bool {
    forall|i: int, j: int|
        0 <= i < j < s.len() ==> lex_lt(#[trigger] s[i].0.key(), #[trigger] s[j].0.key())
}

/// Every key in `s` is 32 bytes long.
pub open spec fn keys_are_32<K: Keyed, V>(s: Seq<(K, V)>) -> bool {
    forall|i: int| 0 <= i < s.len() ==> (#[trigger] s[i].0.key()).len() == 32
}

/// Well-formed entries: 32-byte keys, strictly increasing.
pub open spec fn entries_wf<K: Keyed, V>(s: Seq<(K, V)>) -> bool {
    strictly_sorted(s) && keys_are_32(s)
}

/// Some entry of `s` has key `k`.
pub open spec fn has_key<K: Keyed, V>(s: Seq<(K, V)>, k: Seq<u8>) -> bool {
    exists|i: int| 0 <= i < s.len() && #[trigger] s[i].0.key() == k
}

/// The index of the entry with key `k` (meaningful when there is one).
pub open spec fn index_of_key<K: Keyed, V>(s: Seq<(K, V)>, k: Seq<u8>) -> int {
    choose|i: int| 0 <= i < s.len() && #[trigger] s[i].0.key() == k
}

/// The value stored under key `k` (meaningful when there is one).
pub open spec fn value_at_key<K: Keyed, V>(s: Seq<(K, V)>, k: Seq<u8>) -> V {
    s[index_of_key(s, k)].1
}

/// The entries after storing `v` under `k`: the entry with `k`'s key replaced
/// in place, or a new entry at the position that keeps keys increasing.
pub open spec fn insert_spec<K: Keyed, V>(s: Seq<(K, V)>, k: K, v: V) -> Seq<(K, V)> {
    if has_key(s, k.key()) {
        s.update(index_of_key(s, k.key()), (k, v))
    } else {
        s.insert(insert_position(s, k.key()), (k, v))
    }
}

/// Number of entries whose key is below `k`.
pub open spec fn insert_position<K: Keyed, V>(s: Seq<(K, V)>, k: Seq<u8>) -> int
    decreases s.len(),
{
    if s.len() == 0 {
        0
    } else if lex_lt(s.last().0.key(), k) {
        s.len() as int
    } else {
        insert_position(s.drop_last(), k)
    }
}

proof fn lemma_insert_position<K: Keyed, V>(s: Seq<(K, V)>, k: Seq<u8>, i: int)
    requires
        0 <= i <= s.len(),
        forall|j: int| 0 <= j < i ==> lex_lt(#[trigger] s[j].0.key(), k),
        forall|j: int| i <= j < s.len() ==> lex_lt(k, #[trigger] s[j].0.key()),
    ensures
        insert_position(s, k) == i,
    decreases s.len(),
{
    if s.len() > 0 {
        if i == s.len() {
            assert(lex_lt(s[s.len() - 1].0.key(), k));
        } else {
            lemma_lex_asymmetric(k, s[s.len() - 1].0.key());
            assert(forall|j: int| 0 <= j < s.drop_last().len() ==> #[trigger] s.drop_last()[j] == s[j]);
            lemma_insert_position(s.drop_last(), k, i);
        }
    }
}

/// Replacing the value at one position keeps the keys, hence the order.
pub proof fn lemma_update_value_keeps_wf<K: Keyed, V>(s: Seq<(K, V)>, i: int, v: V)
    requires
        entries_wf(s),
        0 <= i < s.len(),
    ensures
        entries_wf(s.update(i, (s[i].0, v))),
        index_of_key(s, s[i].0.key()) == i,
        forall|key: Seq<u8>|
            #![trigger has_key(s.update(i, (s[i].0, v)), key)]
            has_key(s.update(i, (s[i].0, v)), key) == has_key(s, key),
{
    let t = s.update(i, (s[i].0, v));
    assert forall|a: int, b: int| 0 <= a < b < t.len() implies lex_lt(
        #[trigger] t[a].0.key(),
        #[trigger] t[b].0.key(),
    ) by {
        assert(t[a].0 == s[a].0);
        assert(t[b].0 == s[b].0);
    }
    assert forall|j: int| 0 <= j < t.len() implies (#[trigger] t[j].0.key()).len() == 32 by {
        assert(t[j].0 == s[j].0);
    }
    lemma_index_of_key(s, i);
    assert forall|key: Seq<u8>| #[trigger] has_key(t, key) == has_key(s, key) by {
        if has_key(s, key) {
            let j = index_of_key(s, key);
            assert(t[j].0 == s[j].0);
        }
        if has_key(t, key) {
            let j = index_of_key(t, key);
            assert(t[j].0 == s[j].0);
        }
    }
}

/// Removing an entry and storing it again gives back the same entries.
pub proof fn lemma_remove_then_insert<K: Keyed, V>(s: Seq<(K, V)>, i: int)
    requires
        entries_wf(s),
        0 <= i < s.len(),
    ensures
        insert_spec(s.remove(i), s[i].0, s[i].1) == s,
{
    let t = s.remove(i);
    let k = s[i].0.key();
    assert(!has_key(t, k)) by {
        if has_key(t, k) {
            let j = index_of_key(t, k);
            let j2 = if j < i { j } else { j + 1 };
            assert(t[j] == s[j2]);
            if j2 < i {
                assert(lex_lt(s[j2].0.key(), s[i].0.key()));
            } else {
                assert(lex_lt(s[i].0.key(), s[j2].0.key()));
            }
            lemma_lex_irreflexive(k);
        }
    }
    assert forall|j: int| 0 <= j < i implies lex_lt(#[trigger] t[j].0.key(), k) by {
        assert(t[j] == s[j]);
    }
    assert forall|j: int| i <= j < t.len() implies lex_lt(k, #[trigger] t[j].0.key()) by {
        assert(t[j] == s[j + 1]);
    }
    lemma_insert_position(t, k, i);
    assert(t.insert(i, (s[i].0, s[i].1)) =~= s);
}

/// The entries after removing the one with key `k`, if any.
pub open spec fn remove_key_spec<K: Keyed, V>(s: Seq<(K, V)>, k: Seq<u8>) -> Seq<(K, V)> {
    if has_key(s, k) {
        s.remove(index_of_key(s, k))
    } else {
        s
    }
}

/// Storing under `k` adds `k`'s key to the keys and changes no other.
pub proof fn lemma_insert_spec_keys<K: Keyed, V>(s: Seq<(K, V)>, k: K, v: V, key: Seq<u8>)
    ensures
        has_key(insert_spec(s, k, v), key) == (has_key(s, key) || key == k.key()),
{
    let t = insert_spec(s, k, v);
    if has_key(s, k.key()) {
        let i = index_of_key(s, k.key());
        if has_key(s, key) {
            let j = index_of_key(s, key);
            if j != i {
                assert(t[j] == s[j]);
            } else {
                assert(t[i].0 == k);
            }
        }
        if has_key(t, key) {
            let j = index_of_key(t, key);
            if j != i {
                assert(t[j] == s[j]);
            }
        }
        assert(t[i].0 == k);
    } else {
        let p = insert_position(s, k.key());
        lemma_insert_position_range(s, k.key());
        assert(t[p].0 == k);
        if has_key(s, key) {
            let j = index_of_key(s, key);
            if j < p {
                assert(t[j] == s[j]);
            } else {
                assert(t[j + 1] == s[j]);
            }
        }
        if has_key(t, key) && key != k.key() {
            let j = index_of_key(t, key);
            if j < p {
                assert(t[j] == s[j]);
            } else if j > p {
                assert(t[j] == s[j - 1]);
            }
        }
    }
}

/// Removing key `k0` from sorted entries drops exactly that key.
pub proof fn lemma_remove_key_spec_keys<K: Keyed, V>(s: Seq<(K, V)>, k0: Seq<u8>, key: Seq<u8>)
    requires
        strictly_sorted(s),
    ensures
        has_key(remove_key_spec(s, k0), key) == (has_key(s, key) && key != k0),
{
    if has_key(s, k0) {
        let i = index_of_key(s, k0);
        let t = s.remove(i);
        if has_key(s, key) && key != k0 {
            let j = index_of_key(s, key);
            if j < i {
                assert(t[j] == s[j]);
            } else {
                assert(j != i);
                assert(t[j - 1] == s[j]);
            }
        }
        if has_key(t, key) {
            let j = index_of_key(t, key);
            let j2 = if j < i { j } else { j + 1 };
            assert(t[j] == s[j2]);
            if key == k0 {
                lemma_index_of_key(s, j2);
                lemma_index_of_key(s, i);
            }
        }
    }
}

/// The insertion position lies within the entries.
pub proof fn lemma_insert_position_range<K: Keyed, V>(s: Seq<(K, V)>, k: Seq<u8>)
    ensures
        0 <= insert_position(s, k) <= s.len(),
    decreases s.len(),
{
    if s.len() > 0 {
        lemma_insert_position_range(s.drop_last(), k);
    }
}

/// In sorted entries, the index of a key is the index where it stands.
pub proof fn lemma_index_of_key<K: Keyed, V>(s: Seq<(K, V)>, i: int)
    requires
        strictly_sorted(s),
        0 <= i < s.len(),
    ensures
        has_key(s, s[i].0.key()),
        index_of_key(s, s[i].0.key()) == i,
        value_at_key(s, s[i].0.key()) == s[i].1,
{
    let k = s[i].0.key();
    assert(has_key(s, k));
    let j = index_of_key(s, k);
    if j < i {
        assert(lex_lt(s[j].0.key(), s[i].0.key()));
        lemma_lex_irreflexive(k);
    } else if i < j {
        assert(lex_lt(s[i].0.key(), s[j].0.key()));
        lemma_lex_irreflexive(k);
    }
}

/// Ordered map with 32-byte keys.
#[derive(Clone, Debug, PartialEq, Eq)]
pub struct IdMap<K, V> {
    entries: Vec<(K, V)>,
}

impl<K, V> View for IdMap<K, V> {
    type V = Seq<(K, V)>;

    closed spec fn view(&self) -> Seq<(K, V)> {
        self.entries@
    }
}

impl<K: Keyed, V> IdMap<K, V> {
    /// Sorted by key, keys 32 bytes long.
    pub open spec fn wf(&self) -> bool {
        entries_wf(self@)
    }

    /// An empty map.
    pub fn new() -> (r: Self)
        ensures
            r@ == Seq::<(K, V)>::empty(),
            r.wf(),
    {
        IdMap { entries: Vec::new() }
    }

    /// Number of entries.
    pub fn len(&self) -> (r: usize)
        ensures
            r == self@.len(),
    {
        self.entries.len()
    }

    /// The entry at position `i` in key order.
    pub fn entry_at(&self, i: usize) -> (r: &(K, V))
        requires
            i < self@.len(),
        ensures
            *r == self@[i as int],
    {
        &self.entries[i]
    }

    /// Mutable access to the value at position `i`; the key stays.
    pub fn value_at_mut(&mut self, i: usize) -> (r: &mut V)
        requires
            i < old(self)@.len(),
        ensures
            *r == old(self)@[i as int].1,
            final(self)@ == old(self)@.update(i as int, (old(self)@[i as int].0, *final(r))),
    {
        &mut self.entries[i].1
    }

    /// Position of the entry with the same key as `k`, if any.
    pub fn find(&self, k: &K) -> (r: Option<usize>)
        requires
            self.wf(),
        ensures
            r matches Some(i) ==> i < self@.len() && self@[i as int].0.key() == k.key()
                && index_of_key(self@, k.key()) == i,
            r is Some <==> has_key(self@, k.key()),
    {
        let kb = k.key_bytes();
        let mut i: usize = 0;
        while i < self.entries.len()
            invariant
                0 <= i <= self.entries@.len(),
                kb@ == k.key(),
                self.wf(),
                forall|j: int| 0 <= j < i ==> self.entries@[j].0.key() != k.key(),
            decreases self.entries@.len() - i,
        {
            let eb = self.entries[i].0.key_bytes();
            if matches!(compare_bytes(&eb, &kb), KeyOrder::Same) {
                proof {
                    lemma_index_of_key(self@, i as int);
                }
                return Some(i);
            }
            i = i + 1;
        }
        None
    }

    /// Whether some entry has the same key as `k`.
    pub fn contains(&self, k: &K) -> (r: bool)
        requires
            self.wf(),
        ensures
            r == has_key(self@, k.key()),
    {
        self.find(k).is_some()
    }

    /// The value stored under `k`'s key, if any.
    pub fn get(&self, k: &K) -> (r: Option<&V>)
        requires
            self.wf(),
        ensures
            has_key(self@, k.key()) ==> r == Some(&value_at_key(self@, k.key())),
            !has_key(self@, k.key()) ==> r is None,
    {
        match self.find(k) {
            Some(i) => Some(&self.entries[i].1),
            None => None,
        }
    }

    /// Store `v` under `k`'s key, replacing any entry with that key.
    pub fn insert(&mut self, k: K, v: V)
        requires
            old(self).wf(),
        ensures
            final(self).wf(),
            has_key(old(self)@, k.key()) ==> final(self)@ == old(self)@.update(
                index_of_key(old(self)@, k.key()),
                (k, v),
            ),
            !has_key(old(self)@, k.key()) ==> exists|p: int|
                0 <= p <= old(self)@.len() && final(self)@ == old(self)@.insert(p, (k, v)),
            final(self)@ == insert_spec(old(self)@, k, v),
            has_key(final(self)@, k.key()),
            value_at_key(final(self)@, k.key()) == v,
            forall|key: Seq<u8>|
                key != k.key() ==> (has_key(final(self)@, key) == has_key(old(self)@, key) && (
                has_key(old(self)@, key) ==> value_at_key(final(self)@, key) == value_at_key(
                    old(self)@,
                    key,
                ))),
    {
        let kb = k.key_bytes();
        let mut i: usize = 0;
        while i < self.entries.len()
            invariant
                0 <= i <= self.entries@.len(),
                self.entries@ == old(self)@,
                entries_wf(self.entries@),
                kb@ == k.key(),
                forall|j: int| 0 <= j < i ==> lex_lt(#[trigger] self.entries@[j].0.key(), k.key()),
            ensures
                0 <= i <= self.entries@.len(),
                self.entries@ == old(self)@,
                forall|j: int| 0 <= j < i ==> lex_lt(#[trigger] self.entries@[j].0.key(), k.key()),
                i < self.entries@.len() ==> !lex_lt(self.entries@[i as int].0.key(), k.key()),
            decreases self.entries@.len() - i,
        {
            let eb = self.entries[i].0.key_bytes();
            match compare_bytes(&eb, &kb) {
                KeyOrder::Below => {
                    i = i + 1;
                },
                _ => {
                    break ;
                },
            }
        }
        let ghost s = old(self)@;
        let n = self.entries.len();
        if i < n {
            let eb = self.entries[i].0.key_bytes();
            if matches!(compare_bytes(&eb, &kb), KeyOrder::Same) {
                proof {
                    lemma_index_of_key(s, i as int);
                }
                self.entries.set(i, (k, v));
                proof {
                    let t = self@;
                    assert forall|a: int, b: int| 0 <= a < b < t.len() implies lex_lt(
                        #[trigger] t[a].0.key(),
                        #[trigger] t[b].0.key(),
                    ) by {
                        assert(s[a].0.key() == t[a].0.key() || a == i);
                        assert(s[b].0.key() == t[b].0.key() || b == i);
                    }
                    lemma_index_of_key(t, i as int);
                    lemma_map_after_update(s, t, i as int);
                }
                return ;
            }
        }
        proof {
            assert forall|j: int| i <= j < s.len() implies lex_lt(
                k.key(),
                #[trigger] s[j].0.key(),
            ) by {
                assert(!lex_lt(s[i as int].0.key(), k.key()));
                lemma_lex_total(s[i as int].0.key(), k.key());
                if j > i {
                    lemma_lex_transitive(k.key(), s[i as int].0.key(), s[j].0.key());
                }
            }
        }
        self.entries.insert(i, (k, v));
        proof {
            lemma_insert_position(s, k.key(), i as int);
            let t = self@;
            assert(t == s.insert(i as int, (k, v)));
            assert forall|a: int, b: int| 0 <= a < b < t.len() implies lex_lt(
                #[trigger] t[a].0.key(),
                #[trigger] t[b].0.key(),
            ) by {
                if a < i && b < i {
                } else if a < i && b == i {
                } else if a < i {
                    lemma_lex_transitive(t[a].0.key(), k.key(), t[b].0.key());
                } else if a == i {
                } else {
                    assert(t[a] == s[a - 1]);
                    assert(t[b] == s[b - 1]);
                }
            }
            lemma_index_of_key(t, i as int);
            assert forall|key: Seq<u8>| key != k.key() implies (has_key(t, key) == has_key(s, key)
                && (has_key(s, key) ==> value_at_key(t, key) == value_at_key(s, key))) by {
                if has_key(s, key) {
                    let j = index_of_key(s, key);
                    let j2 = if j < i { j } else { j + 1 };
                    assert(t[j2] == s[j]);
                    lemma_index_of_key(s, j);
                    lemma_index_of_key(t, j2);
                }
                if has_key(t, key) {
                    let j = index_of_key(t, key);
                    let j2 = if j < i { j } else { j - 1 };
                    assert(j != i);
                    assert(s[j2] == t[j]);
                }
            }
        }
    }

    /// Remove the entry with `k`'s key, returning its value.
    pub fn remove(&mut self, k: &K) -> (r: Option<V>)
        requires
            old(self).wf(),
        ensures
            final(self).wf(),
            has_key(old(self)@, k.key()) ==> r == Some(value_at_key(old(self)@, k.key()))
                && final(self)@ == old(self)@.remove(index_of_key(old(self)@, k.key())),
            !has_key(old(self)@, k.key()) ==> r is None && final(self)@ == old(self)@,
            !has_key(final(self)@, k.key()),
            forall|key: Seq<u8>|
                key != k.key() ==> (has_key(final(self)@, key) == has_key(old(self)@, key) && (
                has_key(old(self)@, key) ==> value_at_key(final(self)@, key) == value_at_key(
                    old(self)@,
                    key,
                ))),
    {
        match self.find(k) {
            Some(i) => {
                let ghost s = self@;
                let (_, v) = self.entries.remove(i);
                proof {
                    lemma_remove_keeps_order(s, i as int);
                    lemma_index_of_key(s, i as int);
                }
                Some(v)
            },
            None => None,
        }
    }
}

proof fn lemma_map_after_update<K: Keyed, V>(s: Seq<(K, V)>, t: Seq<(K, V)>, i: int)
    requires
        strictly_sorted(s),
        strictly_sorted(t),
        s.len() == t.len(),
        0 <= i < s.len(),
        t[i].0.key() == s[i].0.key(),
        forall|j: int| 0 <= j < s.len() && j != i ==> t[j] == s[j],
    ensures
        forall|key: Seq<u8>|
            key != t[i].0.key() ==> (has_key(t, key) == has_key(s, key) && (has_key(s, key)
                ==> value_at_key(t, key) == value_at_key(s, key))),
{
    assert forall|key: Seq<u8>| key != t[i].0.key() implies (has_key(t, key) == has_key(s, key) && (
    has_key(s, key) ==> value_at_key(t, key) == value_at_key(s, key))) by {
        if has_key(s, key) {
            let j = index_of_key(s, key);
            assert(t[j] == s[j]);
            lemma_index_of_key(s, j);
            lemma_index_of_key(t, j);
        }
        if has_key(t, key) {
            let j = index_of_key(t, key);
            assert(t[j] == s[j]);
        }
    }
}

/// Removing one entry keeps the rest sorted and leaves the other keys alone.
proof fn lemma_remove_keeps_order<K: Keyed, V>(s: Seq<(K, V)>, i: int)
    requires
        entries_wf(s),
        0 <= i < s.len(),
    ensures
        entries_wf(s.remove(i)),
        !has_key(s.remove(i), s[i].0.key()),
        forall|key: Seq<u8>|
            key != s[i].0.key() ==> (has_key(s.remove(i), key) == has_key(s, key) && (has_key(
                s,
                key,
            ) ==> value_at_key(s.remove(i), key) == value_at_key(s, key))),
{
    let t = s.remove(i);
    assert forall|a: int, b: int| 0 <= a < b < t.len() implies lex_lt(
        #[trigger] t[a].0.key(),
        #[trigger] t[b].0.key(),
    ) by {
        let a2 = if a < i { a } else { a + 1 };
        let b2 = if b < i { b } else { b + 1 };
        assert(t[a] == s[a2]);
        assert(t[b] == s[b2]);
    }
    assert forall|j: int| 0 <= j < t.len() implies (#[trigger] t[j].0.key()).len() == 32 by {
        let j2 = if j < i { j } else { j + 1 };
        assert(t[j] == s[j2]);
    }
    if has_key(t, s[i].0.key()) {
        let j = index_of_key(t, s[i].0.key());
        let j2 = if j < i { j } else { j + 1 };
        assert(t[j] == s[j2]);
        lemma_index_of_key(s, j2);
    }
    assert forall|key: Seq<u8>| key != s[i].0.key() implies (has_key(t, key) == has_key(s, key) && (
    has_key(s, key) ==> value_at_key(t, key) == value_at_key(s, key))) by {
        if has_key(s, key) {
            let j = index_of_key(s, key);
            assert(j != i);
            let j2 = if j < i { j } else { j - 1 };
            assert(t[j2] == s[j]);
            lemma_index_of_key(s, j);
            lemma_index_of_key(t, j2);
        }
        if has_key(t, key) {
            let j = index_of_key(t, key);
            let j2 = if j < i { j } else { j + 1 };
            assert(t[j] == s[j2]);
        }
    }
}

} // verus!
