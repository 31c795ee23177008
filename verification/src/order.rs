//! What the containers ask of a key type, and what it means for a sequence to
//! list a map or a set by ascending key.
//!
//! The containers compare keys with `Ord::cmp` and cannot check that the
//! comparison is sound. Everything they promise is conditional on
//! [`strict_total_order`], which callers establish once, when a container is
//! created.
use std::cmp::Ordering;
use vstd::prelude::*;
use vstd::std_specs::cmp::OrdSpec;

verus! {

/// `a` sorts strictly before `b`.
pub open spec fn key_lt<K: Ord>(a: K, b: K) -> bool {
    a.cmp_spec(&b) == Ordering::Less
}

/// The comparison of `K` is a strict total order that agrees with equality:
/// `cmp` computes `cmp_spec`, two keys compare equal exactly when they are the
/// same value, `a < b` exactly when `b > a`, and `<` is transitive.
/// Irreflexivity and trichotomy follow, because a comparison has exactly one
/// of three results (`lemma_lt_asymmetric`, `lemma_lt_total`).
pub open spec fn strict_total_order<K: Ord>() -> bool {
    &&& K::obeys_cmp_spec()
    &&& forall|a: K, b: K| #![trigger a.cmp_spec(&b)] a.cmp_spec(&b) == Ordering::Equal <==> a == b
    &&& forall|a: K, b: K|
        #![trigger a.cmp_spec(&b)]
        a.cmp_spec(&b) == Ordering::Less <==> b.cmp_spec(&a) == Ordering::Greater
    &&& forall|a: K, b: K, c: K|
        #![trigger key_lt(a, b), key_lt(b, c)]
        key_lt(a, b) && key_lt(b, c) ==> key_lt(a, c)
}

/// The keys of a sequence of pairs, in the same positions.
pub open spec fn keys_of<K, V>(pairs: Seq<(K, V)>) -> Seq<K> {
    pairs.map_values(|e: (K, V)| e.0)
}

/// The values of a sequence of pairs, in the same positions.
pub open spec fn values_of<K, V>(pairs: Seq<(K, V)>) -> Seq<V> {
    pairs.map_values(|e: (K, V)| e.1)
}

/// Every key sorts strictly before all the keys after it.
pub open spec fn strictly_ascending<K: Ord>(keys: Seq<K>) -> bool {
    forall|i: int, j: int| 0 <= i < j < keys.len() ==> key_lt(#[trigger] keys[i], #[trigger] keys[j])
}

/// `keys` holds exactly the elements of `elems`, each once, in ascending order.
pub open spec fn ordered_elements<K: Ord>(keys: Seq<K>, elems: Set<K>) -> bool {
    &&& strictly_ascending(keys)
    &&& keys.to_set() == elems
}

/// `pairs` holds exactly the entries of `m`, each once, by ascending key.
pub open spec fn ordered_listing<K: Ord, V>(pairs: Seq<(K, V)>, m: Map<K, V>) -> bool {
    &&& ordered_elements(keys_of(pairs), m.dom())
    &&& forall|i: int| 0 <= i < pairs.len() ==> m[(#[trigger] pairs[i]).0] == pairs[i].1
}

/// In a strict total order no key sorts before itself, and no two keys sort
/// before each other.
pub proof fn lemma_lt_asymmetric<K: Ord>(a: K, b: K)
    requires
        strict_total_order::<K>(),
        key_lt(a, b),
    ensures
        a != b,
        !key_lt(b, a),
{
}

/// Of two keys, one sorts before the other or they are the same key.
pub proof fn lemma_lt_total<K: Ord>(a: K, b: K)
    requires
        strict_total_order::<K>(),
    ensures
        key_lt(a, b) || a == b || key_lt(b, a),
{
}

/// A strictly ascending sequence holds no key twice, so it is as long as its
/// set of elements is large.
pub proof fn lemma_ascending_len<K: Ord>(keys: Seq<K>)
    requires
        strict_total_order::<K>(),
        strictly_ascending(keys),
    ensures
        keys.no_duplicates(),
        keys.to_set().finite(),
        keys.to_set().len() == keys.len(),
{
    keys.unique_seq_to_set();
}

/// A set has at most one strictly ascending sequence of its elements.
pub proof fn lemma_ordered_elements_unique<K: Ord>(s: Seq<K>, t: Seq<K>, elems: Set<K>)
    requires
        strict_total_order::<K>(),
        ordered_elements(s, elems),
        ordered_elements(t, elems),
    ensures
        s == t,
    decreases s.len(),
{
    lemma_ascending_len(s);
    lemma_ascending_len(t);
    if s.len() > 0 {
        // Both end in the same key, the greatest: each holds the last key of
        // the other, which cannot sort after its own last key.
        let a = s.last();
        assert(t.to_set().contains(a));
        assert(s.to_set().contains(t.last()));
        assert(t.last() == a);
        // Without it, both list the other elements.
        let s0 = s.drop_last();
        let t0 = t.drop_last();
        let rest = elems.remove(a);
        assert forall|k: K| rest.contains(k) <==> s0.to_set().contains(k) by {
            if rest.contains(k) {
                let x = choose|x: int| 0 <= x < s.len() && s[x] == k;
                assert(s0[x] == k);
            }
        }
        assert forall|k: K| rest.contains(k) <==> t0.to_set().contains(k) by {
            if rest.contains(k) {
                let x = choose|x: int| 0 <= x < t.len() && t[x] == k;
                assert(t0[x] == k);
            }
        }
        assert(s0.to_set() =~= rest);
        assert(t0.to_set() =~= rest);
        lemma_ordered_elements_unique(s0, t0, rest);
        assert(s =~= s0.push(a));
    }
}

/// A map that has a listing by ascending key is finite, and as large as the
/// listing is long.
pub proof fn lemma_ordered_listing_len<K: Ord, V>(s: Seq<(K, V)>, m: Map<K, V>)
    requires
        strict_total_order::<K>(),
        ordered_listing(s, m),
    ensures
        m.dom().finite(),
        m.len() == s.len(),
{
    lemma_ascending_len(keys_of(s));
}

/// A map has at most one listing by ascending key.
pub proof fn lemma_ordered_listing_unique<K: Ord, V>(s: Seq<(K, V)>, t: Seq<(K, V)>, m: Map<K, V>)
    requires
        strict_total_order::<K>(),
        ordered_listing(s, m),
        ordered_listing(t, m),
    ensures
        s == t,
{
    lemma_ordered_elements_unique(keys_of(s), keys_of(t), m.dom());
    assert forall|i: int| 0 <= i < s.len() implies s[i] == t[i] by {
        assert(keys_of(s)[i] == s[i].0);
    }
}

} // verus!
