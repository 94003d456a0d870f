//! Association lists keyed by text: a sequence of pairs read as a finite map.

use vstd::prelude::*;

verus! {

/// Some pair of `pairs` has the key `key`.
pub open spec fn holds_key<V>(pairs: Seq<(Seq<char>, V)>, key: Seq<char>) -> bool {
    exists|i: int| 0 <= i < pairs.len() && (#[trigger] pairs[i]).0 == key
}

/// The index of a pair of `pairs` with the key `key`, where there is one.
pub open spec fn index_of_key<V>(pairs: Seq<(Seq<char>, V)>, key: Seq<char>) -> int {
    choose|i: int| 0 <= i < pairs.len() && (#[trigger] pairs[i]).0 == key
}

/// No two pairs of `pairs` share a key.
pub open spec fn distinct_keys<V>(pairs: Seq<(Seq<char>, V)>) -> bool {
    forall|i: int, j: int|
        0 <= i < j < pairs.len() ==> (#[trigger] pairs[i]).0 != (#[trigger] pairs[j]).0
}

/// The keys of `pairs`, in order.
pub open spec fn keys_of<V>(pairs: Seq<(Seq<char>, V)>) -> Seq<Seq<char>> {
    Seq::new(pairs.len(), |i: int| pairs[i].0)
}

/// The map that sends each key of `pairs` to the value paired with it.
pub open spec fn as_map<V>(pairs: Seq<(Seq<char>, V)>) -> Map<Seq<char>, V> {
    Map::new(|key: Seq<char>| holds_key(pairs, key), |key: Seq<char>| pairs[index_of_key(pairs, key)].1)
}

/// With distinct keys, the map holds every pair of the list.
pub proof fn lemma_as_map_at<V>(pairs: Seq<(Seq<char>, V)>, i: int)
    requires
        distinct_keys(pairs),
        0 <= i < pairs.len(),
    ensures
        as_map(pairs).contains_key(pairs[i].0),
        as_map(pairs)[pairs[i].0] == pairs[i].1,
        index_of_key(pairs, pairs[i].0) == i,
{
}

/// The map of a list is finite.
pub proof fn lemma_as_map_finite<V>(pairs: Seq<(Seq<char>, V)>)
    ensures
        as_map(pairs).dom().finite(),
    decreases pairs.len(),
{
    if pairs.len() == 0 {
        assert(as_map(pairs).dom() =~= Set::<Seq<char>>::empty());
    } else {
        let front = pairs.drop_last();
        let last = pairs.last();
        lemma_as_map_finite(front);
        assert forall|key: Seq<char>|
            as_map(pairs).dom().contains(key) <==> as_map(front).dom().insert(last.0).contains(
                key,
            ) by {
            if holds_key(pairs, key) {
                let i = index_of_key(pairs, key);
                if i < front.len() {
                    assert(front[i].0 == key);
                }
            }
        }
        assert(as_map(pairs).dom() =~= as_map(front).dom().insert(last.0));
    }
}

/// Appending a pair with a new key inserts it into the map.
pub proof fn lemma_as_map_push<V>(pairs: Seq<(Seq<char>, V)>, key: Seq<char>, value: V)
    requires
        distinct_keys(pairs),
        !holds_key(pairs, key),
    ensures
        distinct_keys(pairs.push((key, value))),
        as_map(pairs.push((key, value))) == as_map(pairs).insert(key, value),
{
    let grown = pairs.push((key, value));
    assert forall|k: Seq<char>|
        as_map(grown).contains_key(k) <==> as_map(pairs).insert(key, value).contains_key(k) by {
        if holds_key(pairs, k) {
            let i = index_of_key(pairs, k);
            assert(grown[i].0 == k);
        }
        if k == key {
            assert(grown[pairs.len() as int].0 == k);
        }
    }
    assert forall|k: Seq<char>| as_map(grown).contains_key(k) implies as_map(grown)[k] == as_map(
        pairs,
    ).insert(key, value)[k] by {
        let i = index_of_key(grown, k);
        lemma_as_map_at(grown, i);
        if i < pairs.len() {
            lemma_as_map_at(pairs, i);
        }
    }
}

/// Replacing the value of the pair at `i` replaces it in the map.
pub proof fn lemma_as_map_update<V>(pairs: Seq<(Seq<char>, V)>, i: int, value: V)
    requires
        distinct_keys(pairs),
        0 <= i < pairs.len(),
    ensures
        distinct_keys(pairs.update(i, (pairs[i].0, value))),
        as_map(pairs.update(i, (pairs[i].0, value))) == as_map(pairs).insert(pairs[i].0, value),
        keys_of(pairs.update(i, (pairs[i].0, value))) == keys_of(pairs),
{
    let key = pairs[i].0;
    let changed = pairs.update(i, (key, value));
    assert forall|a: int| 0 <= a < pairs.len() implies (#[trigger] changed[a]).0 == pairs[a].0 by {}
    assert forall|k: Seq<char>|
        as_map(changed).contains_key(k) <==> as_map(pairs).insert(key, value).contains_key(k) by {
        if holds_key(pairs, k) {
            let a = index_of_key(pairs, k);
            assert(changed[a].0 == k);
        }
    }
    assert forall|k: Seq<char>| as_map(changed).contains_key(k) implies as_map(changed)[k]
        == as_map(pairs).insert(key, value)[k] by {
        let a = index_of_key(changed, k);
        lemma_as_map_at(changed, a);
        lemma_as_map_at(pairs, a);
    }
}

/// With distinct keys, a list has as many pairs as its map has keys.
pub proof fn lemma_as_map_len<V>(pairs: Seq<(Seq<char>, V)>)
    requires
        distinct_keys(pairs),
    ensures
        as_map(pairs).dom().len() == pairs.len(),
        as_map(pairs).dom().finite(),
    decreases pairs.len(),
{
    lemma_as_map_finite(pairs);
    if pairs.len() == 0 {
        assert(as_map(pairs).dom() =~= Set::<Seq<char>>::empty());
    } else {
        let front = pairs.drop_last();
        let last = pairs.last();
        lemma_as_map_len(front);
        lemma_as_map_push(front, last.0, last.1);
        assert(front.push((last.0, last.1)) =~= pairs);
    }
}

/// The pairs of `pairs` that are the first with their key, in order.
pub open spec fn first_of_each<V>(pairs: Seq<(Seq<char>, V)>) -> Seq<(Seq<char>, V)>
    decreases pairs.len(),
{
    if pairs.len() == 0 {
        Seq::empty()
    } else {
        let front = first_of_each(pairs.drop_last());
        if holds_key(front, pairs.last().0) {
            front
        } else {
            front.push(pairs.last())
        }
    }
}

/// The first pairs of each key have distinct keys, and are all the pairs
/// where the keys are distinct already.
pub proof fn lemma_first_of_each<V>(pairs: Seq<(Seq<char>, V)>)
    ensures
        distinct_keys(first_of_each(pairs)),
        forall|i: int|
            0 <= i < first_of_each(pairs).len() ==> holds_key(
                pairs,
                (#[trigger] first_of_each(pairs)[i]).0,
            ),
        distinct_keys(pairs) ==> first_of_each(pairs) == pairs,
    decreases pairs.len(),
{
    if pairs.len() > 0 {
        let shorter = pairs.drop_last();
        let front = first_of_each(shorter);
        let last = pairs.last();
        lemma_first_of_each(shorter);
        if !holds_key(front, last.0) {
            lemma_as_map_push(front, last.0, last.1);
        }
        assert forall|i: int| 0 <= i < first_of_each(pairs).len() implies holds_key(
            pairs,
            (#[trigger] first_of_each(pairs)[i]).0,
        ) by {
            if i < front.len() {
                let at = index_of_key(shorter, front[i].0);
                assert(pairs[at].0 == front[i].0);
            } else {
                assert(pairs[pairs.len() - 1].0 == last.0);
            }
        }
        if distinct_keys(pairs) {
            assert forall|i: int, j: int| 0 <= i < j < shorter.len() implies (
            #[trigger] shorter[i]).0 != (#[trigger] shorter[j]).0 by {
                assert(pairs[i].0 != pairs[j].0);
            }
            if holds_key(shorter, last.0) {
                let at = index_of_key(shorter, last.0);
                assert(pairs[at].0 != pairs[pairs.len() - 1].0);
            }
            assert(shorter.push(last) =~= pairs);
        }
    }
}

} // verus!
