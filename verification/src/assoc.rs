//! Maps kept as two parallel sequences, keys and values, with distinct keys.
use vstd::prelude::*;

verus! {

/// The map whose entries are `keys[i] -> vals[i]` for `i < n`; a later key shadows an
/// earlier equal one.
pub open spec fn map_prefix<K, V>(keys: Seq<K>, vals: Seq<V>, n: int) -> Map<K, V>
    decreases n,
{
    if n <= 0 {
        Map::empty()
    } else {
        map_prefix(keys, vals, n - 1).insert(keys[n - 1], vals[n - 1])
    }
}

/// The map whose entries are `keys[i] -> vals[i]`.
pub open spec fn map_of<K, V>(keys: Seq<K>, vals: Seq<V>) -> Map<K, V> {
    map_prefix(keys, vals, keys.len() as int)
}

proof fn lemma_map_prefix_dom<K, V>(keys: Seq<K>, vals: Seq<V>, n: int)
    requires
        0 <= n <= keys.len(),
    ensures
        forall|x: K| #[trigger] map_prefix(keys, vals, n).contains_key(x) <==> exists|i: int|
            0 <= i < n && keys[i] == x,
    decreases n,
{
    if n > 0 {
        lemma_map_prefix_dom(keys, vals, n - 1);
        assert forall|x: K| #[trigger] map_prefix(keys, vals, n).contains_key(x) <==> exists|i: int|
            0 <= i < n && keys[i] == x by {
            if exists|i: int| 0 <= i < n && keys[i] == x {
                let i = choose|i: int| 0 <= i < n && keys[i] == x;
                if i < n - 1 {
                    assert(exists|j: int| 0 <= j < n - 1 && keys[j] == x);
                }
            }
            if map_prefix(keys, vals, n - 1).contains_key(x) {
                let i = choose|i: int| 0 <= i < n - 1 && keys[i] == x;
                assert(0 <= i < n && keys[i] == x);
            }
            if x == keys[n - 1] {
                assert(0 <= n - 1 < n && keys[n - 1] == x);
            }
        }
    }
}

pub proof fn lemma_map_of_dom<K, V>(keys: Seq<K>, vals: Seq<V>)
    ensures
        forall|x: K| #[trigger] map_of(keys, vals).contains_key(x) <==> keys.contains(x),
{
    lemma_map_prefix_dom(keys, vals, keys.len() as int);
}

proof fn lemma_map_prefix_index<K, V>(keys: Seq<K>, vals: Seq<V>, n: int, i: int)
    requires
        keys.no_duplicates(),
        0 <= i < n <= keys.len(),
    ensures
        map_prefix(keys, vals, n).contains_key(keys[i]),
        map_prefix(keys, vals, n)[keys[i]] == vals[i],
    decreases n,
{
    if i < n - 1 {
        lemma_map_prefix_index(keys, vals, n - 1, i);
        assert(keys[i] != keys[n - 1]);
    }
}

pub proof fn lemma_map_of_index<K, V>(keys: Seq<K>, vals: Seq<V>, i: int)
    requires
        keys.no_duplicates(),
        0 <= i < keys.len(),
    ensures
        map_of(keys, vals).contains_key(keys[i]),
        map_of(keys, vals)[keys[i]] == vals[i],
{
    lemma_map_prefix_index(keys, vals, keys.len() as int, i);
}

/// Every key and value of `map_of`, stated pointwise.
pub proof fn lemma_map_of_all<K, V>(keys: Seq<K>, vals: Seq<V>)
    requires
        keys.no_duplicates(),
    ensures
        forall|x: K| #[trigger] map_of(keys, vals).contains_key(x) <==> keys.contains(x),
        forall|i: int|
            0 <= i < keys.len() ==> #[trigger] map_of(keys, vals)[keys[i]] == vals[i],
{
    lemma_map_of_dom(keys, vals);
    assert forall|i: int| 0 <= i < keys.len() implies #[trigger] map_of(keys, vals)[keys[i]]
        == vals[i] by {
        lemma_map_of_index(keys, vals, i);
    }
}

pub proof fn lemma_map_of_push<K, V>(keys: Seq<K>, vals: Seq<V>, k: K, v: V)
    requires
        keys.len() == vals.len(),
    ensures
        map_of(keys.push(k), vals.push(v)) == map_of(keys, vals).insert(k, v),
    decreases keys.len(),
{
    assert forall|n: int| 0 <= n <= keys.len() implies #[trigger] map_prefix(keys.push(k), vals.push(v), n)
        == map_prefix(keys, vals, n) by {
        lemma_map_prefix_push_eq(keys, vals, k, v, n);
    }
    assert(map_prefix(keys.push(k), vals.push(v), keys.len() as int) == map_prefix(keys, vals, keys.len() as int));
}

proof fn lemma_map_prefix_push_eq<K, V>(keys: Seq<K>, vals: Seq<V>, k: K, v: V, n: int)
    requires
        keys.len() == vals.len(),
        0 <= n <= keys.len(),
    ensures
        map_prefix(keys.push(k), vals.push(v), n) == map_prefix(keys, vals, n),
    decreases n,
{
    if n > 0 {
        lemma_map_prefix_push_eq(keys, vals, k, v, n - 1);
    }
}

/// Two maps given by distinct keys agree when they have the same keys and values.
pub proof fn lemma_map_of_ext<K, V>(k1: Seq<K>, v1: Seq<V>, m: Map<K, V>)
    requires
        k1.no_duplicates(),
        forall|x: K| #[trigger] m.contains_key(x) <==> k1.contains(x),
        forall|i: int| 0 <= i < k1.len() ==> m[#[trigger] k1[i]] == v1[i],
    ensures
        map_of(k1, v1) == m,
{
    lemma_map_of_all(k1, v1);
    assert forall|x: K| #[trigger] m.contains_key(x) implies map_of(k1, v1)[x] == m[x] by {
        let i = choose|i: int| 0 <= i < k1.len() && k1[i] == x;
    }
    assert(map_of(k1, v1) =~= m);
}

pub proof fn lemma_map_of_remove<K, V>(keys: Seq<K>, vals: Seq<V>, i: int)
    requires
        keys.no_duplicates(),
        keys.len() == vals.len(),
        0 <= i < keys.len(),
    ensures
        keys.remove(i).no_duplicates(),
        map_of(keys.remove(i), vals.remove(i)) == map_of(keys, vals).remove(keys[i]),
{
    let k2 = keys.remove(i);
    let v2 = vals.remove(i);
    let m = map_of(keys, vals).remove(keys[i]);
    lemma_map_of_all(keys, vals);
    assert forall|a: int, b: int| 0 <= a < b < k2.len() implies k2[a] != k2[b] by {
        let a0 = if a < i { a } else { a + 1 };
        let b0 = if b < i { b } else { b + 1 };
        assert(k2[a] == keys[a0]);
        assert(k2[b] == keys[b0]);
    }
    assert(k2.no_duplicates());
    assert forall|x: K| #[trigger] m.contains_key(x) <==> k2.contains(x) by {
        if k2.contains(x) {
            let j = choose|j: int| 0 <= j < k2.len() && k2[j] == x;
            let j0 = if j < i { j } else { j + 1 };
            assert(keys[j0] == x);
            assert(keys.contains(x));
        }
        if m.contains_key(x) {
            assert(keys.contains(x));
            let j = choose|j: int| 0 <= j < keys.len() && keys[j] == x;
            assert(j != i);
            let j2 = if j < i { j } else { j - 1 };
            assert(k2[j2] == x);
        }
    }
    assert forall|j: int| 0 <= j < k2.len() implies m[#[trigger] k2[j]] == v2[j] by {
        let j0 = if j < i { j } else { j + 1 };
        assert(k2[j] == keys[j0]);
        assert(v2[j] == vals[j0]);
    }
    lemma_map_of_ext(k2, v2, m);
}

pub proof fn lemma_map_of_update<K, V>(keys: Seq<K>, vals: Seq<V>, i: int, v: V)
    requires
        keys.no_duplicates(),
        keys.len() == vals.len(),
        0 <= i < keys.len(),
    ensures
        map_of(keys, vals.update(i, v)) == map_of(keys, vals).insert(keys[i], v),
{
    let m = map_of(keys, vals).insert(keys[i], v);
    lemma_map_of_all(keys, vals);
    assert forall|x: K| #[trigger] m.contains_key(x) <==> keys.contains(x) by {
        assert(keys.contains(keys[i]));
    }
    lemma_map_of_ext(keys, vals.update(i, v), m);
}

} // verus!
