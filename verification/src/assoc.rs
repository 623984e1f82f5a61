//! Maps from names to values held as two lists, one of names without
//! repetition and one of values.
use vstd::prelude::*;

verus! {

/// The map that gives each name of `keys` the value at its position.
pub open spec fn assoc<V>(keys: Seq<Seq<char>>, vals: Seq<V>) -> Map<Seq<char>, V> {
    Map::new(|k: Seq<char>| keys.contains(k), |k: Seq<char>| vals[keys.index_of(k)])
}

/// The name at position `i` has the value at position `i`.
pub proof fn lemma_assoc_at<V>(keys: Seq<Seq<char>>, vals: Seq<V>, i: int)
    requires
        keys.no_duplicates(),
        0 <= i < keys.len(),
    ensures
        assoc(keys, vals).contains_key(keys[i]),
        assoc(keys, vals)[keys[i]] == vals[i],
        keys.index_of(keys[i]) == i,
{
    assert(keys.contains(keys[i]));
    let j = keys.index_of(keys[i]);
    assert(keys[j] == keys[i]);
}

/// A new name with its value at the end of the lists is one more entry of
/// the map.
pub proof fn lemma_assoc_push<V>(keys: Seq<Seq<char>>, vals: Seq<V>, k: Seq<char>, v: V)
    requires
        keys.no_duplicates(),
        keys.len() == vals.len(),
        !keys.contains(k),
    ensures
        keys.push(k).no_duplicates(),
        assoc(keys.push(k), vals.push(v)) == assoc(keys, vals).insert(k, v),
{
    let keys1 = keys.push(k);
    let vals1 = vals.push(v);
    assert(keys1.no_duplicates()) by {
        assert forall|i: int, j: int|
            0 <= i < keys1.len() && 0 <= j < keys1.len() && i != j implies keys1[i] != keys1[j] by {
            if i < keys.len() && j < keys.len() {
            } else if i < keys.len() {
                assert(keys.contains(keys[i]));
            } else {
                assert(keys.contains(keys[j]));
            }
        }
    }
    assert(assoc(keys1, vals1) =~= assoc(keys, vals).insert(k, v)) by {
        assert forall|x: Seq<char>| assoc(keys1, vals1).contains_key(x) <==> assoc(keys, vals).insert(
            k,
            v,
        ).contains_key(x) by {
            if keys1.contains(x) {
                let i = choose|i: int| 0 <= i < keys1.len() && keys1[i] == x;
                if i < keys.len() {
                    assert(keys[i] == x);
                }
            }
            if keys.contains(x) {
                let i = choose|i: int| 0 <= i < keys.len() && keys[i] == x;
                assert(keys1[i] == x);
            }
            if x == k {
                assert(keys1[keys.len() as int] == x);
            }
        }
        assert forall|x: Seq<char>| assoc(keys1, vals1).contains_key(x) implies assoc(keys1, vals1)[x]
            == assoc(keys, vals).insert(k, v)[x] by {
            let i = choose|i: int| 0 <= i < keys1.len() && keys1[i] == x;
            lemma_assoc_at(keys1, vals1, i);
            if i < keys.len() {
                lemma_assoc_at(keys, vals, i);
            }
        }
    }
}

/// A new value at position `i` is a new value for the name at position `i`.
pub proof fn lemma_assoc_update<V>(keys: Seq<Seq<char>>, vals: Seq<V>, i: int, v: V)
    requires
        keys.no_duplicates(),
        keys.len() == vals.len(),
        0 <= i < keys.len(),
    ensures
        assoc(keys, vals.update(i, v)) == assoc(keys, vals).insert(keys[i], v),
{
    let vals1 = vals.update(i, v);
    assert(assoc(keys, vals1) =~= assoc(keys, vals).insert(keys[i], v)) by {
        assert(keys.contains(keys[i]));
        assert forall|x: Seq<char>| assoc(keys, vals1).contains_key(x) implies assoc(keys, vals1)[x]
            == assoc(keys, vals).insert(keys[i], v)[x] by {
            let j = choose|j: int| 0 <= j < keys.len() && keys[j] == x;
            lemma_assoc_at(keys, vals1, j);
            lemma_assoc_at(keys, vals, j);
        }
    }
}

} // verus!
