//! Byte-string keys: equality, lexicographic order, and a stable sort.
//!
//! Every identifier in this crate is 32 bytes. Ordered containers and the
//! canonical order of settlement lists go by the lexicographic order of those
//! bytes, the same order that `Ord` on `[u8; 32]` gives.

use vstd::prelude::*;

verus! {

/// `a` is strictly below `b` in lexicographic order: at the first index where
/// they differ, `a` holds the smaller byte.
pub open spec fn lex_lt(a: Seq<u8>, b: Seq<u8>) -> bool {
    exists|k: int|
        #![trigger a[k], b[k]]
        0 <= k < a.len() && k < b.len() && a[k] < b[k] && forall|j: int|
            0 <= j < k ==> a[j] == b[j]
}

/// `a` is at or below `b` in lexicographic order.
pub open spec fn lex_le(a: Seq<u8>, b: Seq<u8>) -> bool {
    a == b || lex_lt(a, b)
}

/// No sequence is below itself.
pub proof fn lemma_lex_irreflexive(a: Seq<u8>)
    ensures
        !lex_lt(a, a),
{
}

/// Strict order is transitive.
pub proof fn lemma_lex_transitive(a: Seq<u8>, b: Seq<u8>, c: Seq<u8>)
    requires
        lex_lt(a, b),
        lex_lt(b, c),
    ensures
        lex_lt(a, c),
{
    let k1 = choose|k: int|
        #![trigger a[k], b[k]]
        0 <= k < a.len() && k < b.len() && a[k] < b[k] && forall|j: int| 0 <= j < k ==> a[j] == b[j];
    let k2 = choose|k: int|
        #![trigger b[k], c[k]]
        0 <= k < b.len() && k < c.len() && b[k] < c[k] && forall|j: int| 0 <= j < k ==> b[j] == c[j];
    let k = if k1 < k2 { k1 } else { k2 };
    assert(a[k] < c[k]);
    assert forall|j: int| 0 <= j < k implies a[j] == c[j] by {
        assert(a[j] == b[j]);
        assert(b[j] == c[j]);
    }
}

/// Strict order is asymmetric.
pub proof fn lemma_lex_asymmetric(a: Seq<u8>, b: Seq<u8>)
    requires
        lex_lt(a, b),
    ensures
        !lex_lt(b, a),
{
    if lex_lt(b, a) {
        lemma_lex_transitive(a, b, a);
    }
}

/// Two sequences of the same length are equal or ordered one way.
pub proof fn lemma_lex_total(a: Seq<u8>, b: Seq<u8>)
    requires
        a.len() == b.len(),
    ensures
        a == b || lex_lt(a, b) || lex_lt(b, a),
{
    if a != b {
        assert(!(a =~= b));
        let d = choose|i: int| 0 <= i < a.len() && a[i] != b[i];
        let k = first_difference(a, b, d);
        if a[k] < b[k] {
            assert(lex_lt(a, b));
        } else {
            assert forall|j: int| 0 <= j < k implies b[j] == a[j] by {}
            assert(lex_lt(b, a));
        }
    }
}

/// The first index at which `a` and `b` differ, given one index `d` where they do.
proof fn first_difference(a: Seq<u8>, b: Seq<u8>, d: int) -> (k: int)
    requires
        0 <= d < a.len(),
        d < b.len(),
        a[d] != b[d],
    ensures
        0 <= k <= d,
        a[k] != b[k],
        forall|j: int| 0 <= j < k ==> a[j] == b[j],
    decreases d,
{
    if exists|j: int| 0 <= j < d && a[j] != b[j] {
        let j = choose|j: int| 0 <= j < d && a[j] != b[j];
        first_difference(a, b, j)
    } else {
        d
    }
}

/// Outcome of comparing two byte strings.
#[derive(Clone, Copy, Debug, PartialEq, Eq, Structural)]
pub enum KeyOrder {
    Below,
    Same,
    Above,
}

/// Compare two 32-byte strings lexicographically.
pub fn compare_bytes(a: &[u8; 32], b: &[u8; 32]) -> (r: KeyOrder)
    ensures
        r == KeyOrder::Below <==> lex_lt(a@, b@),
        r == KeyOrder::Same <==> a@ == b@,
        r == KeyOrder::Above <==> lex_lt(b@, a@),
{
    let mut i: usize = 0;
    while i < 32
        invariant
            0 <= i <= 32,
            a@.len() == 32,
            b@.len() == 32,
            forall|j: int| 0 <= j < i ==> a@[j] == b@[j],
        decreases 32 - i,
    {
        if a[i] < b[i] {
            assert(lex_lt(a@, b@));
            proof { lemma_lex_asymmetric(a@, b@); }
            return KeyOrder::Below;
        }
        if a[i] > b[i] {
            assert forall|j: int| 0 <= j < i implies b@[j] == a@[j] by {}
            assert(lex_lt(b@, a@));
            proof { lemma_lex_asymmetric(b@, a@); }
            return KeyOrder::Above;
        }
        i = i + 1;
    }
    assert(a@ =~= b@);
    proof { lemma_lex_irreflexive(a@); }
    KeyOrder::Same
}

/// Whether two 32-byte strings are equal.
pub fn same_bytes(a: &[u8; 32], b: &[u8; 32]) -> (r: bool)
    ensures
        r == (a@ == b@),
{
    let mut i: usize = 0;
    while i < 32
        invariant
            0 <= i <= 32,
            a@.len() == 32,
            b@.len() == 32,
            forall|j: int| 0 <= j < i ==> a@[j] == b@[j],
        decreases 32 - i,
    {
        if a[i] != b[i] {
            return false;
        }
        i = i + 1;
    }
    assert(a@ =~= b@);
    true
}

/// Thirty-two bytes: `n` followed by zeros.
pub open spec fn byte_id(n: u8) -> Seq<u8> {
    seq![n] + Seq::new(31, |i: int| 0u8)
}

/// Build the 32-byte value `n, 0, 0, ...`.
pub fn bytes_from_byte(n: u8) -> (r: [u8; 32])
    ensures
        r@ == byte_id(n),
{
    let mut bytes = [0u8; 32];
    bytes[0] = n;
    assert(bytes@ =~= byte_id(n));
    bytes
}

/// A value ordered by a 32-byte key.
pub trait Keyed: Copy {
    /// The key bytes.
    spec fn key(&self) -> Seq<u8>;

    /// The key bytes, at run time.
    fn key_bytes(&self) -> (r: [u8; 32])
        ensures
            r@ == self.key(),
    ;
}

/// Insert `x` into `s` after every element whose key is not above `x`'s,
/// scanning from the end: one step of a stable insertion sort.
pub open spec fn insert_sorted<T: Keyed>(s: Seq<T>, x: T) -> Seq<T>
    decreases s.len(),
{
    if s.len() == 0 {
        seq![x]
    } else if lex_lt(x.key(), s.last().key()) {
        insert_sorted(s.drop_last(), x).push(s.last())
    } else {
        s.push(x)
    }
}

/// Stable sort of `s` by key.
pub open spec fn sort_by_key<T: Keyed>(s: Seq<T>) -> Seq<T>
    decreases s.len(),
{
    if s.len() == 0 {
        s
    } else {
        insert_sorted(sort_by_key(s.drop_last()), s.last())
    }
}

/// Keys never decrease along `s`.
pub open spec fn keys_nondecreasing<T: Keyed>(s: Seq<T>) -> bool {
    forall|i: int, j: int| 0 <= i < j < s.len() ==> lex_le(#[trigger] s[i].key(), #[trigger] s[j].key())
}

/// Every key in `s` is 32 bytes long.
pub open spec fn keys_are_bytes32<T: Keyed>(s: Seq<T>) -> bool {
    forall|i: int| 0 <= i < s.len() ==> (#[trigger] s[i]).key().len() == 32
}

/// Order at or below is transitive.
proof fn lemma_lex_le_transitive(a: Seq<u8>, b: Seq<u8>, c: Seq<u8>)
    requires
        lex_le(a, b),
        lex_le(b, c),
    ensures
        lex_le(a, c),
{
    if a != b && b != c {
        lemma_lex_transitive(a, b, c);
    }
}

/// Inserting into a sequence whose keys all lie at or below `bound` keeps them there.
proof fn lemma_insert_sorted_bounded<T: Keyed>(s: Seq<T>, x: T, bound: Seq<u8>)
    requires
        forall|i: int| 0 <= i < s.len() ==> lex_le(#[trigger] s[i].key(), bound),
        lex_le(x.key(), bound),
    ensures
        forall|i: int| 0 <= i < insert_sorted(s, x).len() ==> lex_le(#[trigger] insert_sorted(s, x)[i].key(), bound),
    decreases s.len(),
{
    if s.len() > 0 && lex_lt(x.key(), s.last().key()) {
        let init = s.drop_last();
        assert forall|i: int| 0 <= i < init.len() implies lex_le(#[trigger] init[i].key(), bound) by {
            assert(init[i] == s[i]);
        }
        lemma_insert_sorted_bounded(init, x, bound);
        let r = insert_sorted(init, x);
        assert forall|i: int| 0 <= i < r.push(s.last()).len() implies lex_le(#[trigger] r.push(s.last())[i].key(), bound) by {
            if i < r.len() {
                assert(r.push(s.last())[i] == r[i]);
            } else {
                assert(s.last() == s[s.len() - 1]);
            }
        }
    } else if s.len() > 0 {
        assert forall|i: int| 0 <= i < s.push(x).len() implies lex_le(#[trigger] s.push(x)[i].key(), bound) by {
            if i < s.len() {
                assert(s.push(x)[i] == s[i]);
            }
        }
    }
}

/// One insertion step keeps the elements and, on a sorted sequence of
/// 32-byte keys, the order.
proof fn lemma_insert_sorted<T: Keyed>(s: Seq<T>, x: T)
    requires
        keys_are_bytes32(s),
        x.key().len() == 32,
    ensures
        insert_sorted(s, x).to_multiset() =~= s.to_multiset().insert(x),
        insert_sorted(s, x).len() == s.len() + 1,
        keys_are_bytes32(insert_sorted(s, x)),
        keys_nondecreasing(s) ==> keys_nondecreasing(insert_sorted(s, x)),
    decreases s.len(),
{
    broadcast use vstd::seq_lib::group_to_multiset_ensures;

    if s.len() == 0 {
        assert(seq![x] =~= Seq::<T>::empty().push(x));
    } else {
        let init = s.drop_last();
        let last = s.last();
        assert(s =~= init.push(last));
        assert forall|i: int| 0 <= i < init.len() implies (#[trigger] init[i]).key().len() == 32 by {
            assert(init[i] == s[i]);
        }
        if lex_lt(x.key(), last.key()) {
            lemma_insert_sorted(init, x);
            let r = insert_sorted(init, x);
            assert(r.push(last).to_multiset() =~= r.to_multiset().insert(last));
            assert forall|i: int| 0 <= i < r.push(last).len() implies (#[trigger] r.push(last)[i]).key().len() == 32 by {
                if i < r.len() {
                    assert(r.push(last)[i] == r[i]);
                }
            }
            if keys_nondecreasing(s) {
                assert forall|i: int, j: int| 0 <= i < j < init.len() implies lex_le(
                    #[trigger] init[i].key(),
                    #[trigger] init[j].key(),
                ) by {
                    assert(init[i] == s[i] && init[j] == s[j]);
                }
                assert forall|i: int| 0 <= i < init.len() implies lex_le(#[trigger] init[i].key(), last.key()) by {
                    assert(init[i] == s[i]);
                    assert(last == s[s.len() - 1]);
                }
                lemma_insert_sorted_bounded(init, x, last.key());
                let t = r.push(last);
                assert forall|i: int, j: int| 0 <= i < j < t.len() implies lex_le(
                    #[trigger] t[i].key(),
                    #[trigger] t[j].key(),
                ) by {
                    assert(t[i] == r[i]);
                    if j < r.len() {
                        assert(t[j] == r[j]);
                    } else {
                        assert(t[j] == last);
                    }
                }
            }
        } else {
            assert forall|i: int| 0 <= i < s.push(x).len() implies (#[trigger] s.push(x)[i]).key().len() == 32 by {
                if i < s.len() {
                    assert(s.push(x)[i] == s[i]);
                }
            }
            if keys_nondecreasing(s) {
                assert(last == s[s.len() - 1]);
                lemma_lex_total(x.key(), last.key());
                assert(lex_le(last.key(), x.key()));
                let t = s.push(x);
                assert forall|i: int, j: int| 0 <= i < j < t.len() implies lex_le(
                    #[trigger] t[i].key(),
                    #[trigger] t[j].key(),
                ) by {
                    assert(t[i] == s[i]);
                    if j < s.len() {
                        assert(t[j] == s[j]);
                    } else {
                        assert(t[j] == x);
                        if i < s.len() - 1 {
                            assert(lex_le(s[i].key(), s[s.len() - 1].key()));
                            lemma_lex_le_transitive(s[i].key(), last.key(), x.key());
                        }
                    }
                }
            }
        }
    }
}

/// Sorting by key keeps exactly the same elements and puts the keys in
/// nondecreasing order.
pub proof fn law_sort_by_key_sorts<T: Keyed>(s: Seq<T>)
    requires
        keys_are_bytes32(s),
    ensures
        sort_by_key(s).to_multiset() =~= s.to_multiset(),
        sort_by_key(s).len() == s.len(),
        keys_nondecreasing(sort_by_key(s)),
    decreases s.len(),
{
    broadcast use vstd::seq_lib::group_to_multiset_ensures;

    if s.len() > 0 {
        let init = s.drop_last();
        assert(s =~= init.push(s.last()));
        assert forall|i: int| 0 <= i < init.len() implies (#[trigger] init[i]).key().len() == 32 by {
            assert(init[i] == s[i]);
        }
        law_sort_by_key_sorts(init);
        lemma_sort_keys_bytes32(init);
        assert(s.last() == s[s.len() - 1]);
        lemma_insert_sorted(sort_by_key(init), s.last());
    }
}

/// Sorting keeps every key 32 bytes long.
proof fn lemma_sort_keys_bytes32<T: Keyed>(s: Seq<T>)
    requires
        keys_are_bytes32(s),
    ensures
        keys_are_bytes32(sort_by_key(s)),
    decreases s.len(),
{
    if s.len() > 0 {
        let init = s.drop_last();
        assert forall|i: int| 0 <= i < init.len() implies (#[trigger] init[i]).key().len() == 32 by {
            assert(init[i] == s[i]);
        }
        lemma_sort_keys_bytes32(init);
        assert(s.last() == s[s.len() - 1]);
        lemma_insert_sorted(sort_by_key(init), s.last());
    }
}

/// Stable insertion sort by key.
pub fn sort_by_key_bytes<T: Keyed>(v: Vec<T>) -> (r: Vec<T>)
    ensures
        r@ == sort_by_key(v@),
{
    let mut res: Vec<T> = Vec::new();
    let mut i: usize = 0;
    while i < v.len()
        invariant
            0 <= i <= v.len(),
            res@ == sort_by_key(v@.take(i as int)),
        decreases v.len() - i,
    {
        let x = v[i];
        let xk = x.key_bytes();
        let mut p: usize = res.len();
        assert(res@.take(p as int) =~= res@);
        assert(res@.skip(p as int) =~= Seq::<T>::empty());
        while p > 0
            invariant
                0 <= p <= res.len(),
                xk@ == x.key(),
                insert_sorted(res@, x) == insert_sorted(res@.take(p as int), x) + res@.skip(p as int),
            ensures
                0 <= p <= res.len(),
                insert_sorted(res@, x) == insert_sorted(res@.take(p as int), x) + res@.skip(p as int),
                p == 0 || !lex_lt(x.key(), res@[p - 1].key()),
            decreases p,
        {
            let yk = res[p - 1].key_bytes();
            match compare_bytes(&xk, &yk) {
                KeyOrder::Below => {
                    let ghost t = res@.take(p as int);
                    assert(t.drop_last() =~= res@.take(p - 1));
                    assert(res@.skip(p - 1) =~= seq![t.last()] + res@.skip(p as int));
                    assert(insert_sorted(t, x) =~= insert_sorted(t.drop_last(), x).push(t.last()));
                    assert(insert_sorted(res@, x) =~= insert_sorted(res@.take(p - 1), x) + res@.skip(p - 1));
                    p = p - 1;
                },
                _ => {
                    break ;
                },
            }
        }
        let ghost before = res@;
        proof {
            if p > 0 {
                let t = before.take(p as int);
                assert(t.last() == before[p - 1]);
                assert(insert_sorted(t, x) == t.push(x));
            } else {
                assert(before.take(0) =~= Seq::<T>::empty());
            }
        }
        res.insert(p, x);
        assert(res@ =~= before.take(p as int).push(x) + before.skip(p as int));
        assert(v@.take(i + 1).drop_last() =~= v@.take(i as int));
        i = i + 1;
    }
    assert(v@.take(v.len() as int) =~= v@);
    res
}

} // verus!
