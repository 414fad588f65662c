//! Sequences of key/value pairs with pairwise-distinct keys, read as
//! mathematical maps. The pool's indexes (residents by storage index,
//! storage index by transaction id, resident by collision key) are
//! association vectors whose contracts are stated over this view.

use vstd::prelude::*;

verus! {

/// The map denoted by a sequence of key/value pairs; a later pair shadows an
/// earlier one with the same key.
pub open spec fn assoc_map<K, V>(s: Seq<(K, V)>) -> Map<K, V>
    decreases s.len(),
{
    if s.len() == 0 {
        Map::empty()
    } else {
        assoc_map(s.drop_last()).insert(s.last().0, s.last().1)
    }
}

/// No two pairs share a key.
pub open spec fn distinct_keys<K, V>(s: Seq<(K, V)>) -> bool {
    forall|i: int, j: int| 0 <= i < j < s.len() ==> s[i].0 != s[j].0
}

/// Some pair carries the key `k`.
pub open spec fn has_key<K, V>(s: Seq<(K, V)>, k: K) -> bool {
    exists|i: int| 0 <= i < s.len() && s[i].0 == k
}

/// The map's domain is exactly the set of keys that occur in the sequence.
pub proof fn lemma_assoc_map_contains<K, V>(s: Seq<(K, V)>, k: K)
    ensures
        assoc_map(s).contains_key(k) <==> has_key(s, k),
    decreases s.len(),
{
    if s.len() == 0 {
    } else {
        lemma_assoc_map_contains(s.drop_last(), k);
        if s.last().0 == k {
            assert(s[s.len() - 1].0 == k);
        } else {
            if has_key(s, k) {
                let i = choose|i: int| 0 <= i < s.len() && s[i].0 == k;
                assert(i < s.len() - 1);
                assert(s.drop_last()[i].0 == k);
            }
            if has_key(s.drop_last(), k) {
                let i = choose|i: int| 0 <= i < s.drop_last().len() && s.drop_last()[i].0 == k;
                assert(s[i].0 == k);
            }
        }
    }
}

/// Under distinct keys, the pair at index `i` is what the map returns.
pub proof fn lemma_assoc_map_index<K, V>(s: Seq<(K, V)>, i: int)
    requires
        distinct_keys(s),
        0 <= i < s.len(),
    ensures
        assoc_map(s).contains_key(s[i].0),
        assoc_map(s)[s[i].0] == s[i].1,
    decreases s.len(),
{
    if i == s.len() - 1 {
    } else {
        assert(s.drop_last()[i] == s[i]);
        assert(distinct_keys(s.drop_last()));
        lemma_assoc_map_index(s.drop_last(), i);
        assert(s[i].0 != s.last().0);
    }
}

/// Under distinct keys, the map has as many entries as the sequence.
pub proof fn lemma_assoc_map_len<K, V>(s: Seq<(K, V)>)
    requires
        distinct_keys(s),
    ensures
        assoc_map(s).dom().finite(),
        assoc_map(s).dom().len() == s.len(),
    decreases s.len(),
{
    if s.len() == 0 {
        assert(assoc_map(s).dom() =~= Set::<K>::empty());
    } else {
        let st = s.drop_last();
        assert(distinct_keys(st));
        lemma_assoc_map_len(st);
        lemma_assoc_map_contains(st, s.last().0);
        if has_key(st, s.last().0) {
            let i = choose|i: int| 0 <= i < st.len() && st[i].0 == s.last().0;
            assert(s[i].0 == s[s.len() - 1].0);
            assert(false);
        }
        assert(assoc_map(s).dom() =~= assoc_map(st).dom().insert(s.last().0));
        vstd::set::axiom_set_insert_len(assoc_map(st).dom(), s.last().0);
    }
}

/// Appending a pair with a fresh key inserts it into the map.
pub proof fn lemma_assoc_map_push<K, V>(s: Seq<(K, V)>, k: K, v: V)
    ensures
        assoc_map(s.push((k, v))) == assoc_map(s).insert(k, v),
        !has_key(s, k) ==> distinct_keys(s) == distinct_keys(s.push((k, v))),
{
    let sp = s.push((k, v));
    assert(sp.drop_last() =~= s);
    assert(sp.last() == (k, v));
    if !has_key(s, k) {
        if distinct_keys(s) {
            assert forall|i: int, j: int| 0 <= i < j < sp.len() implies sp[i].0 != sp[j].0 by {
                if j == sp.len() - 1 {
                    assert(sp[i] == s[i]);
                    if s[i].0 == k {
                        assert(has_key(s, k));
                    }
                } else {
                    assert(sp[i] == s[i] && sp[j] == s[j]);
                }
            }
        }
        if distinct_keys(sp) {
            assert forall|i: int, j: int| 0 <= i < j < s.len() implies s[i].0 != s[j].0 by {
                assert(sp[i] == s[i] && sp[j] == s[j]);
            }
        }
    }
}

/// Removing the pair at index `i` removes its key from the map.
pub proof fn lemma_assoc_map_remove<K, V>(s: Seq<(K, V)>, i: int)
    requires
        distinct_keys(s),
        0 <= i < s.len(),
    ensures
        assoc_map(s.remove(i)) =~= assoc_map(s).remove(s[i].0),
        distinct_keys(s.remove(i)),
{
    let sr = s.remove(i);
    assert forall|a: int, b: int| 0 <= a < b < sr.len() implies sr[a].0 != sr[b].0 by {
        let a2: int = if a < i { a } else { a + 1 };
        let b2: int = if b < i { b } else { b + 1 };
        assert(sr[a] == s[a2] && sr[b] == s[b2]);
    }
    assert forall|k: K| #[trigger] assoc_map(sr).contains_key(k) <==> assoc_map(
        s,
    ).remove(s[i].0).contains_key(k) by {
        lemma_assoc_map_contains(sr, k);
        lemma_assoc_map_contains(s, k);
        if has_key(sr, k) {
            let a = choose|a: int| 0 <= a < sr.len() && sr[a].0 == k;
            let a2: int = if a < i { a } else { a + 1 };
            assert(s[a2].0 == k);
            assert(a2 != i);
        }
        if has_key(s, k) && k != s[i].0 {
            let a = choose|a: int| 0 <= a < s.len() && s[a].0 == k;
            assert(a != i);
            let a2: int = if a < i { a } else { a - 1 };
            assert(sr[a2] == s[a]);
        }
    }
    assert forall|k: K| assoc_map(sr).contains_key(k) implies assoc_map(sr)[k] == assoc_map(
        s,
    ).remove(s[i].0)[k] by {
        lemma_assoc_map_contains(sr, k);
        let a = choose|a: int| 0 <= a < sr.len() && sr[a].0 == k;
        let a2: int = if a < i { a } else { a + 1 };
        assert(sr[a] == s[a2]);
        lemma_assoc_map_index(sr, a);
        lemma_assoc_map_index(s, a2);
    }
}

/// A key that occurs in no pair is not in the map.
pub proof fn lemma_assoc_map_absent<K, V>(s: Seq<(K, V)>, k: K)
    requires
        !has_key(s, k),
    ensures
        !assoc_map(s).contains_key(k),
{
    lemma_assoc_map_contains(s, k);
}

} // verus!
