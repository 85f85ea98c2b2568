//! Sequences of key/value pairs read as maps, the later pair winning.

use vstd::prelude::*;

verus! {

/// The map that inserting each pair of `s` in order builds.
pub open spec fn keyed_map<K, V>(s: Seq<(K, V)>) -> Map<K, V>
    decreases s.len(),
{
    if s.len() == 0 {
        Map::empty()
    } else {
        keyed_map(s.drop_last()).insert(s.last().0, s.last().1)
    }
}

/// Whether no key occurs twice in `s`.
pub open spec fn distinct_keys<K, V>(s: Seq<(K, V)>) -> bool {
    forall|i: int, j: int| 0 <= i < s.len() && 0 <= j < s.len() && i != j ==> s[i].0 != s[j].0
}

/// A key is mapped exactly when some pair carries it.
pub proof fn lemma_keyed_dom<K, V>(s: Seq<(K, V)>, k: K)
    ensures
        keyed_map(s).contains_key(k) <==> exists|i: int| 0 <= i < s.len() && s[i].0 == k,
    decreases s.len(),
{
    if s.len() > 0 {
        lemma_keyed_dom(s.drop_last(), k);
        if keyed_map(s.drop_last()).contains_key(k) {
            let i = choose|i: int| 0 <= i < s.drop_last().len() && s.drop_last()[i].0 == k;
            assert(s[i].0 == k);
        }
        if exists|i: int| 0 <= i < s.len() && s[i].0 == k {
            let i = choose|i: int| 0 <= i < s.len() && s[i].0 == k;
            if i < s.len() - 1 {
                assert(s.drop_last()[i].0 == k);
            }
        }
    }
}

/// The value of a key is that of its last pair.
pub proof fn lemma_keyed_value<K, V>(s: Seq<(K, V)>, i: int)
    requires
        0 <= i < s.len(),
        forall|j: int| i < j < s.len() ==> s[j].0 != s[i].0,
    ensures
        keyed_map(s).contains_key(s[i].0),
        keyed_map(s)[s[i].0] == s[i].1,
    decreases s.len(),
{
    if i < s.len() - 1 {
        lemma_keyed_value(s.drop_last(), i);
    }
}

/// In a sequence without repeated keys, each pair gives its key's value.
pub proof fn lemma_keyed_distinct_value<K, V>(s: Seq<(K, V)>, i: int)
    requires
        0 <= i < s.len(),
        distinct_keys(s),
    ensures
        keyed_map(s).contains_key(s[i].0),
        keyed_map(s)[s[i].0] == s[i].1,
{
    lemma_keyed_value(s, i);
}

/// Replacing the value of the last pair with key `s[i].0` inserts into the map.
pub proof fn lemma_keyed_update<K, V>(s: Seq<(K, V)>, i: int, v: V)
    requires
        0 <= i < s.len(),
        forall|j: int| i < j < s.len() ==> s[j].0 != s[i].0,
    ensures
        keyed_map(s.update(i, (s[i].0, v))) == keyed_map(s).insert(s[i].0, v),
    decreases s.len(),
{
    let t = s.update(i, (s[i].0, v));
    if i == s.len() - 1 {
        assert(t.drop_last() =~= s.drop_last());
        assert(keyed_map(t) =~= keyed_map(s).insert(s[i].0, v));
    } else {
        lemma_keyed_update(s.drop_last(), i, v);
        assert(t.drop_last() =~= s.drop_last().update(i, (s[i].0, v)));
        assert(keyed_map(t) =~= keyed_map(s).insert(s[i].0, v));
    }
}

/// Appending a pair inserts it.
pub proof fn lemma_keyed_push<K, V>(s: Seq<(K, V)>, k: K, v: V)
    ensures
        keyed_map(s.push((k, v))) == keyed_map(s).insert(k, v),
{
    assert(s.push((k, v)).drop_last() =~= s);
}

/// Appending a pair with a new key keeps the keys distinct.
pub proof fn lemma_distinct_push<K, V>(s: Seq<(K, V)>, k: K, v: V)
    requires
        distinct_keys(s),
        forall|i: int| 0 <= i < s.len() ==> s[i].0 != k,
    ensures
        distinct_keys(s.push((k, v))),
{
}

/// Changing only values keeps the keys distinct.
pub proof fn lemma_distinct_update<K, V>(s: Seq<(K, V)>, i: int, v: V)
    requires
        distinct_keys(s),
        0 <= i < s.len(),
    ensures
        distinct_keys(s.update(i, (s[i].0, v))),
{
}

/// Two sequences with the same keys in the same places, whose values
/// correspond through `f`, give maps that correspond through `f`.
pub proof fn lemma_keyed_map_values<K, V>(s: Seq<(K, V)>, t: Seq<(K, V)>, f: spec_fn(V) -> V)
    requires
        s.len() == t.len(),
        forall|i: int| 0 <= i < s.len() ==> #[trigger] t[i].0 == s[i].0 && t[i].1 == f(s[i].1),
    ensures
        keyed_map(t) == keyed_map(s).map_values(f),
    decreases s.len(),
{
    if s.len() > 0 {
        lemma_keyed_map_values(s.drop_last(), t.drop_last(), f);
        assert(keyed_map(t) =~= keyed_map(s).map_values(f));
    } else {
        assert(keyed_map(t) =~= keyed_map(s).map_values(f));
    }
}

} // verus!
