//! The mathematical model of an object: an ordered sequence of
//! `(key, value)` entries whose keys are pairwise distinct, and the map that
//! such a sequence denotes.
use vstd::prelude::*;
use vstd::std_specs::cmp::PartialEqSpec;

verus! {

/// No key occurs twice in `e`.
pub open spec fn keys_distinct<V>(e: Seq<(Seq<char>, V)>) -> bool {
    forall|i: int, j: int|
        0 <= i < e.len() && 0 <= j < e.len() && i != j ==> #[trigger] e[i].0 != #[trigger] e[j].0
}

/// Some entry of `e` has key `k`.
pub open spec fn has_key<V>(e: Seq<(Seq<char>, V)>, k: Seq<char>) -> bool {
    exists|i: int| 0 <= i < e.len() && #[trigger] e[i].0 == k
}

/// The position of an entry of `e` with key `k` (meaningful when `has_key(e, k)`).
pub open spec fn key_index<V>(e: Seq<(Seq<char>, V)>, k: Seq<char>) -> int {
    choose|i: int| 0 <= i < e.len() && #[trigger] e[i].0 == k
}

/// The map from each key of `e` to the value stored beside it.
pub open spec fn entries_map<V>(e: Seq<(Seq<char>, V)>) -> Map<Seq<char>, V> {
    Map::new(|k: Seq<char>| has_key(e, k), |k: Seq<char>| e[key_index(e, k)].1)
}

/// The entries after storing `v` under `k`: an existing entry keeps its place
/// and takes the new value; a new key goes after all others.
pub open spec fn upsert<V>(e: Seq<(Seq<char>, V)>, k: Seq<char>, v: V) -> Seq<(Seq<char>, V)> {
    if has_key(e, k) {
        e.update(key_index(e, k), (k, v))
    } else {
        e.push((k, v))
    }
}

/// The entries after storing each pair of `pairs`, first to last.
pub open spec fn upsert_all<V>(e: Seq<(Seq<char>, V)>, pairs: Seq<(Seq<char>, V)>) -> Seq<
    (Seq<char>, V),
>
    decreases pairs.len(),
{
    if pairs.len() == 0 {
        e
    } else {
        upsert(upsert_all(e, pairs.drop_last()), pairs.last().0, pairs.last().1)
    }
}

/// `b` holds exactly the keys of `a`, and under each key a value that
/// compares equal, by `V`'s `==`, to `a`'s value.
pub open spec fn maps_eq<V: PartialEq>(a: Map<Seq<char>, V>, b: Map<Seq<char>, V>) -> bool {
    &&& a.dom() == b.dom()
    &&& forall|k: Seq<char>| #[trigger] a.contains_key(k) ==> b[k].eq_spec(&a[k])
}

/// With distinct keys, the entry at `i` is the one found for its key.
pub proof fn lemma_key_index<V>(e: Seq<(Seq<char>, V)>, i: int)
    requires
        keys_distinct(e),
        0 <= i < e.len(),
    ensures
        has_key(e, e[i].0),
        key_index(e, e[i].0) == i,
        entries_map(e).contains_key(e[i].0),
        entries_map(e)[e[i].0] == e[i].1,
{
    assert(has_key(e, e[i].0));
    let j = key_index(e, e[i].0);
    assert(e[j].0 == e[i].0);
}

/// Appending an entry with a new key inserts that key into the map.
pub proof fn lemma_map_push<V>(e: Seq<(Seq<char>, V)>, k: Seq<char>, v: V)
    requires
        keys_distinct(e),
        !has_key(e, k),
    ensures
        keys_distinct(e.push((k, v))),
        entries_map(e.push((k, v))) == entries_map(e).insert(k, v),
{
    let f = e.push((k, v));
    assert forall|i: int, j: int|
        0 <= i < f.len() && 0 <= j < f.len() && i != j implies #[trigger] f[i].0 != #[trigger] f[j].0 by {
        if i < e.len() && j < e.len() {
            assert(f[i] == e[i] && f[j] == e[j]);
        } else if i < e.len() {
            assert(f[i] == e[i]);
        } else {
            assert(f[j] == e[j]);
        }
    }
    lemma_key_index(f, e.len() as int);
    assert forall|key: Seq<char>| #[trigger] entries_map(f).contains_key(key) <==> entries_map(
        e,
    ).insert(k, v).contains_key(key) by {
        if has_key(e, key) {
            let i = key_index(e, key);
            assert(f[i] == e[i]);
        }
        if has_key(f, key) && key != k {
            let i = key_index(f, key);
            assert(i < e.len());
            assert(f[i] == e[i]);
        }
    }
    assert forall|key: Seq<char>| #[trigger] entries_map(f).contains_key(key) implies entries_map(
        f,
    )[key] == entries_map(e).insert(k, v)[key] by {
        if key != k {
            let i = key_index(f, key);
            assert(i < e.len());
            assert(f[i] == e[i]);
            lemma_key_index(e, i);
            lemma_key_index(f, i);
        }
    }
    assert(entries_map(f) =~= entries_map(e).insert(k, v));
}

/// Replacing the value of the entry at `i` updates that key in the map.
pub proof fn lemma_map_update<V>(e: Seq<(Seq<char>, V)>, i: int, v: V)
    requires
        keys_distinct(e),
        0 <= i < e.len(),
    ensures
        keys_distinct(e.update(i, (e[i].0, v))),
        entries_map(e.update(i, (e[i].0, v))) == entries_map(e).insert(e[i].0, v),
{
    let f = e.update(i, (e[i].0, v));
    assert forall|a: int, b: int|
        0 <= a < f.len() && 0 <= b < f.len() && a != b implies #[trigger] f[a].0 != #[trigger] f[b].0 by {
        assert(f[a].0 == e[a].0 && f[b].0 == e[b].0);
    }
    lemma_key_index(e, i);
    lemma_key_index(f, i);
    assert forall|key: Seq<char>| #[trigger] entries_map(f).contains_key(key) <==> entries_map(
        e,
    ).insert(e[i].0, v).contains_key(key) by {
        if has_key(e, key) {
            let j = key_index(e, key);
            assert(f[j].0 == e[j].0);
        }
        if has_key(f, key) {
            let j = key_index(f, key);
            assert(f[j].0 == e[j].0);
        }
    }
    assert forall|key: Seq<char>| #[trigger] entries_map(f).contains_key(key) implies entries_map(
        f,
    )[key] == entries_map(e).insert(e[i].0, v)[key] by {
        if key != e[i].0 {
            let j = key_index(f, key);
            assert(f[j].0 == e[j].0);
            assert(j != i);
            lemma_key_index(e, j);
            lemma_key_index(f, j);
        }
    }
    assert(entries_map(f) =~= entries_map(e).insert(e[i].0, v));
}

/// Dropping the entry at `i` removes its key from the map.
pub proof fn lemma_map_remove<V>(e: Seq<(Seq<char>, V)>, i: int)
    requires
        keys_distinct(e),
        0 <= i < e.len(),
    ensures
        keys_distinct(e.remove(i)),
        entries_map(e.remove(i)) == entries_map(e).remove(e[i].0),
{
    let f = e.remove(i);
    assert forall|a: int, b: int|
        0 <= a < f.len() && 0 <= b < f.len() && a != b implies #[trigger] f[a].0 != #[trigger] f[b].0 by {
        let oa = if a < i { a } else { a + 1 };
        let ob = if b < i { b } else { b + 1 };
        assert(f[a] == e[oa] && f[b] == e[ob]);
    }
    lemma_key_index(e, i);
    assert forall|key: Seq<char>| #[trigger] entries_map(f).contains_key(key) <==> entries_map(
        e,
    ).remove(e[i].0).contains_key(key) by {
        if has_key(e, key) && key != e[i].0 {
            let j = key_index(e, key);
            assert(j != i);
            let fj = if j < i { j } else { j - 1 };
            assert(f[fj] == e[j]);
        }
        if has_key(f, key) {
            let j = key_index(f, key);
            let oj = if j < i { j } else { j + 1 };
            assert(f[j] == e[oj]);
            assert(oj != i);
        }
    }
    assert forall|key: Seq<char>| #[trigger] entries_map(f).contains_key(key) implies entries_map(
        f,
    )[key] == entries_map(e).remove(e[i].0)[key] by {
        let j = key_index(f, key);
        let oj = if j < i { j } else { j + 1 };
        assert(f[j] == e[oj]);
        lemma_key_index(e, oj);
        lemma_key_index(f, j);
    }
    assert(entries_map(f) =~= entries_map(e).remove(e[i].0));
}

/// With distinct keys, the map has exactly one key per entry.
pub proof fn lemma_map_len<V>(e: Seq<(Seq<char>, V)>)
    requires
        keys_distinct(e),
    ensures
        entries_map(e).dom().finite(),
        entries_map(e).dom().len() == e.len(),
{
    let ks = e.map_values(|p: (Seq<char>, V)| p.0);
    assert(ks.no_duplicates()) by {
        assert forall|i: int, j: int| 0 <= i < ks.len() && 0 <= j < ks.len() && i != j implies ks[i]
            != ks[j] by {
            assert(ks[i] == e[i].0 && ks[j] == e[j].0);
        }
    }
    ks.unique_seq_to_set();
    assert forall|k: Seq<char>| #[trigger] entries_map(e).dom().contains(k) <==> ks.to_set().contains(
        k,
    ) by {
        if has_key(e, k) {
            let i = key_index(e, k);
            assert(ks[i] == k);
        }
        if ks.to_set().contains(k) {
            let i = choose|i: int| 0 <= i < ks.len() && ks[i] == k;
            assert(e[i].0 == k);
        }
    }
    assert(entries_map(e).dom() =~= ks.to_set());
}

} // verus!
