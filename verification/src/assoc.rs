//! Sequences of keyed entries, read as maps.

use vstd::prelude::*;

verus! {

/// No key stands at two places of `s`.
pub open spec fn distinct_keys<K, V>(s: Seq<(K, V)>) -> bool {
    forall|i: int, j: int| 0 <= i < j < s.len() ==> (#[trigger] s[i]).0 != (#[trigger] s[j]).0
}

/// Some entry of `s` has the key `k`.
pub open spec fn has_key<K, V>(s: Seq<(K, V)>, k: K) -> bool {
    exists|i: int| 0 <= i < s.len() && (#[trigger] s[i]).0 == k
}

/// A place of `s` at which the key `k` stands, where there is one.
pub open spec fn place_of<K, V>(s: Seq<(K, V)>, k: K) -> int {
    choose|i: int| 0 <= i < s.len() && (#[trigger] s[i]).0 == k
}

/// The map that `s` lists: each key of `s` with the value that stands beside it.
pub open spec fn as_map<K, V>(s: Seq<(K, V)>) -> Map<K, V> {
    Map::new(|k: K| has_key(s, k), |k: K| s[place_of(s, k)].1)
}

/// With distinct keys, the entry at place `i` is what the map holds for its key.
pub proof fn lemma_as_map_entry<K, V>(s: Seq<(K, V)>, i: int)
    requires
        distinct_keys(s),
        0 <= i < s.len(),
    ensures
        as_map(s).dom().contains(s[i].0),
        as_map(s)[s[i].0] == s[i].1,
{
    assert(place_of(s, s[i].0) == i);
}

/// Appending an entry under a new key inserts it into the map.
pub proof fn lemma_as_map_push<K, V>(s: Seq<(K, V)>, k: K, v: V)
    requires
        distinct_keys(s),
        !has_key(s, k),
    ensures
        distinct_keys(s.push((k, v))),
        as_map(s.push((k, v))) == as_map(s).insert(k, v),
{
    let t = s.push((k, v));
    assert(distinct_keys(t));
    assert forall|q: K| #[trigger] as_map(t).dom().contains(q) <==> as_map(s).insert(
        k,
        v,
    ).dom().contains(q) by {
        if has_key(t, q) {
            assert(t[place_of(t, q)].0 == q);
        }
        if has_key(s, q) {
            assert(t[place_of(s, q)] == s[place_of(s, q)]);
        }
        if q == k {
            assert(t[s.len() as int].0 == k);
        }
    }
    assert forall|q: K| as_map(t).dom().contains(q) implies #[trigger] as_map(t)[q] == as_map(
        s,
    ).insert(k, v)[q] by {
        if q == k {
            lemma_as_map_entry(t, s.len() as int);
        } else {
            let p = place_of(s, q);
            lemma_as_map_entry(t, p);
            lemma_as_map_entry(s, p);
        }
    }
}

/// Replacing the value at place `i` replaces it in the map.
pub proof fn lemma_as_map_update<K, V>(s: Seq<(K, V)>, i: int, v: V)
    requires
        distinct_keys(s),
        0 <= i < s.len(),
    ensures
        distinct_keys(s.update(i, (s[i].0, v))),
        as_map(s.update(i, (s[i].0, v))) == as_map(s).insert(s[i].0, v),
{
    let k = s[i].0;
    let t = s.update(i, (k, v));
    assert(distinct_keys(t));
    assert forall|q: K| #[trigger] as_map(t).dom().contains(q) <==> as_map(s).insert(
        k,
        v,
    ).dom().contains(q) by {
        if has_key(t, q) {
            assert(t[place_of(t, q)].0 == q);
        }
        if has_key(s, q) {
            assert(t[place_of(s, q)].0 == s[place_of(s, q)].0);
        }
    }
    assert forall|q: K| as_map(t).dom().contains(q) implies #[trigger] as_map(t)[q] == as_map(
        s,
    ).insert(k, v)[q] by {
        if q == k {
            lemma_as_map_entry(t, i);
        } else {
            let p = place_of(s, q);
            lemma_as_map_entry(t, p);
            lemma_as_map_entry(s, p);
        }
    }
}

/// The map of no entries is empty.
pub proof fn lemma_as_map_empty<K, V>()
    ensures
        as_map(Seq::<(K, V)>::empty()) == Map::<K, V>::empty(),
{
}

/// A sequence lists finitely many keys.
pub proof fn lemma_as_map_finite<K, V>(s: Seq<(K, V)>)
    ensures
        as_map(s).dom().finite(),
    decreases s.len(),
{
    if s.len() == 0 {
        assert(as_map(s).dom() =~= Set::<K>::empty());
    } else {
        let front = s.drop_last();
        lemma_as_map_finite(front);
        assert forall|q: K| #[trigger] as_map(s).dom().contains(q) <==> as_map(
            front,
        ).dom().insert(s.last().0).contains(q) by {
            if has_key(s, q) && place_of(s, q) < front.len() {
                assert(front[place_of(s, q)] == s[place_of(s, q)]);
            }
        }
        assert(as_map(s).dom() =~= as_map(front).dom().insert(s.last().0));
    }
}

/// Reading one entry more of `s` inserts that entry into the map read so far.
pub proof fn lemma_as_map_take<K, V>(s: Seq<(K, V)>, i: int)
    requires
        distinct_keys(s),
        0 <= i < s.len(),
    ensures
        distinct_keys(s.take(i)),
        !has_key(s.take(i), s[i].0),
        as_map(s.take(i + 1)) == as_map(s.take(i)).insert(s[i].0, s[i].1),
{
    let front = s.take(i);
    assert(distinct_keys(front));
    lemma_as_map_push(front, s[i].0, s[i].1);
    assert(s.take(i + 1) =~= front.push(s[i]));
}

/// The views of the values of `s`, in order.
pub open spec fn views<T: View>(s: Seq<T>) -> Seq<T::V> {
    Seq::new(s.len(), |i: int| s[i]@)
}

/// What the first `i + 1` values of `s` hold is what the first `i` hold, and `s[i]`.
pub proof fn lemma_take_contains<T>(s: Seq<T>, i: int)
    requires
        0 <= i < s.len(),
    ensures
        forall|x: T| #[trigger] s.take(i + 1).contains(x) <==> (s.take(i).contains(x) || x == s[i]),
{
    let longer = s.take(i + 1);
    let shorter = s.take(i);
    assert forall|x: T| #[trigger] longer.contains(x) <==> (shorter.contains(x) || x == s[i]) by {
        if x == s[i] {
            assert(longer[i] == x);
        }
    }
}

} // verus!
