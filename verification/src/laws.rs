//! Properties of the object model that hold across operations.
//!
//! `Object::insert` states its effect on the ordered entries as
//! [`upsert`], `Object::remove` as `Seq::remove` at the key's position, and
//! both their effect on the map view; the laws below relate those statements.
use vstd::prelude::*;
use vstd::std_specs::cmp::PartialEqSpec;
use crate::entries::{
    entries_map, has_key, key_index, keys_distinct, lemma_key_index, lemma_map_push,
    lemma_map_remove, lemma_map_update, maps_eq, upsert, upsert_all,
};

verus! {

/// Storing a value under a key makes that key map to that value and leaves
/// every other key as it was; the keys stay distinct.
pub proof fn law_upsert_view<V>(e: Seq<(Seq<char>, V)>, k: Seq<char>, v: V)
    requires
        keys_distinct(e),
    ensures
        keys_distinct(upsert(e, k, v)),
        entries_map(upsert(e, k, v)) == entries_map(e).insert(k, v),
{
    if has_key(e, k) {
        let i = key_index(e, k);
        lemma_key_index(e, i);
        lemma_map_update(e, i, v);
    } else {
        lemma_map_push(e, k, v);
    }
}

/// Storing a value never moves an entry: every existing key keeps its
/// position, and a new key is appended at the end.
pub proof fn law_upsert_keeps_order<V>(e: Seq<(Seq<char>, V)>, k: Seq<char>, v: V)
    requires
        keys_distinct(e),
    ensures
        upsert(e, k, v).len() == if has_key(e, k) {
            e.len()
        } else {
            e.len() + 1
        },
        forall|i: int| 0 <= i < e.len() ==> #[trigger] upsert(e, k, v)[i].0 == e[i].0,
        !has_key(e, k) ==> upsert(e, k, v)[e.len() as int] == (k, v),
{
    if has_key(e, k) {
        let i = key_index(e, k);
        lemma_key_index(e, i);
    }
}

/// Storing twice under one key is the same as storing the second value once.
pub proof fn law_upsert_overwrite<V>(e: Seq<(Seq<char>, V)>, k: Seq<char>, v1: V, v2: V)
    requires
        keys_distinct(e),
    ensures
        upsert(upsert(e, k, v1), k, v2) == upsert(e, k, v2),
{
    let f = upsert(e, k, v1);
    law_upsert_view(e, k, v1);
    if has_key(e, k) {
        let i = key_index(e, k);
        lemma_key_index(e, i);
        lemma_key_index(f, i);
        assert(upsert(f, k, v2) =~= upsert(e, k, v2));
    } else {
        lemma_key_index(f, e.len() as int);
        assert(upsert(f, k, v2) =~= upsert(e, k, v2));
    }
}

/// Removing a key that was just added restores the entries exactly.
pub proof fn law_remove_undoes_insert<V>(e: Seq<(Seq<char>, V)>, k: Seq<char>, v: V)
    requires
        keys_distinct(e),
        !has_key(e, k),
    ensures
        has_key(upsert(e, k, v), k),
        upsert(e, k, v).remove(key_index(upsert(e, k, v), k)) == e,
{
    let f = upsert(e, k, v);
    law_upsert_view(e, k, v);
    lemma_key_index(f, e.len() as int);
    assert(f.remove(e.len() as int) =~= e);
}

/// After a key is removed it is absent, every other key keeps its value, and
/// the remaining entries keep their relative order.
pub proof fn law_remove_view<V>(e: Seq<(Seq<char>, V)>, k: Seq<char>)
    requires
        keys_distinct(e),
        has_key(e, k),
    ensures
        keys_distinct(e.remove(key_index(e, k))),
        !entries_map(e.remove(key_index(e, k))).contains_key(k),
        entries_map(e.remove(key_index(e, k))) == entries_map(e).remove(k),
        e.remove(key_index(e, k)).len() == e.len() - 1,
{
    let i = key_index(e, k);
    lemma_key_index(e, i);
    lemma_map_remove(e, i);
}

/// Values stored under two different keys do not interfere: as a map, the
/// order of the two stores does not matter.
pub proof fn law_upsert_commutes<V>(
    e: Seq<(Seq<char>, V)>,
    k1: Seq<char>,
    v1: V,
    k2: Seq<char>,
    v2: V,
)
    requires
        keys_distinct(e),
        k1 != k2,
    ensures
        entries_map(upsert(upsert(e, k1, v1), k2, v2)) == entries_map(
            upsert(upsert(e, k2, v2), k1, v1),
        ),
{
    law_upsert_view(e, k1, v1);
    law_upsert_view(upsert(e, k1, v1), k2, v2);
    law_upsert_view(e, k2, v2);
    law_upsert_view(upsert(e, k2, v2), k1, v1);
    assert(entries_map(e).insert(k1, v1).insert(k2, v2) =~= entries_map(e).insert(k2, v2).insert(
        k1,
        v1,
    ));
}

/// Object equality is reflexive when the values' equality is.
pub proof fn law_eq_reflexive<V: PartialEq>(a: Map<Seq<char>, V>)
    requires
        forall|x: V| #[trigger] x.eq_spec(&x),
    ensures
        maps_eq(a, a),
{
}

/// Object equality is symmetric when the values' equality is.
pub proof fn law_eq_symmetric<V: PartialEq>(a: Map<Seq<char>, V>, b: Map<Seq<char>, V>)
    requires
        forall|x: V, y: V| #[trigger] x.eq_spec(&y) ==> y.eq_spec(&x),
        maps_eq(a, b),
    ensures
        maps_eq(b, a),
{
    assert forall|k: Seq<char>| #[trigger] b.contains_key(k) implies a[k].eq_spec(&b[k]) by {
        assert(a.dom().contains(k));
        assert(b[k].eq_spec(&a[k]));
    }
}

/// Object equality is transitive when the values' equality is.
pub proof fn law_eq_transitive<V: PartialEq>(
    a: Map<Seq<char>, V>,
    b: Map<Seq<char>, V>,
    c: Map<Seq<char>, V>,
)
    requires
        forall|x: V, y: V, z: V| #[trigger] x.eq_spec(&y) && #[trigger] y.eq_spec(&z) ==> x.eq_spec(&z),
        maps_eq(a, b),
        maps_eq(b, c),
    ensures
        maps_eq(a, c),
{
    assert forall|k: Seq<char>| #[trigger] a.contains_key(k) implies c[k].eq_spec(&a[k]) by {
        assert(b.dom().contains(k));
        assert(b[k].eq_spec(&a[k]));
        assert(c[k].eq_spec(&b[k]));
    }
}

/// Building an object from pairs gives the entries that inserting the pairs
/// one by one into an empty object gives: `states[i]` are the entries after
/// the first `i` inserts.
pub proof fn law_from_iter_is_inserts<V>(
    pairs: Seq<(Seq<char>, V)>,
    states: Seq<Seq<(Seq<char>, V)>>,
)
    requires
        states.len() == pairs.len() + 1,
        states[0] == Seq::<(Seq<char>, V)>::empty(),
        forall|i: int|
            0 <= i < pairs.len() ==> #[trigger] states[i + 1] == upsert(
                states[i],
                pairs[i].0,
                pairs[i].1,
            ),
    ensures
        states.last() == upsert_all(Seq::empty(), pairs),
{
    lemma_inserts_prefix(pairs, states, pairs.len() as int);
    assert(pairs.take(pairs.len() as int) =~= pairs);
}

proof fn lemma_inserts_prefix<V>(
    pairs: Seq<(Seq<char>, V)>,
    states: Seq<Seq<(Seq<char>, V)>>,
    n: int,
)
    requires
        states.len() == pairs.len() + 1,
        states[0] == Seq::<(Seq<char>, V)>::empty(),
        forall|i: int|
            0 <= i < pairs.len() ==> #[trigger] states[i + 1] == upsert(
                states[i],
                pairs[i].0,
                pairs[i].1,
            ),
        0 <= n <= pairs.len(),
    ensures
        states[n] == upsert_all(Seq::empty(), pairs.take(n)),
    decreases n,
{
    if n > 0 {
        lemma_inserts_prefix(pairs, states, n - 1);
        assert(pairs.take(n).drop_last() =~= pairs.take(n - 1));
        assert(states[(n - 1) + 1] == upsert(states[n - 1], pairs[n - 1].0, pairs[n - 1].1));
    } else {
        assert(pairs.take(0) =~= Seq::<(Seq<char>, V)>::empty());
    }
}

/// How many of the first `n` moves take from the front.
pub open spec fn front_count(moves: Seq<bool>, n: int) -> int
    decreases n,
{
    if n <= 0 {
        0
    } else {
        front_count(moves, n - 1) + if moves[n - 1] {
            1int
        } else {
            0int
        }
    }
}

/// One call on an iterator whose remaining entries are `before`: from the
/// front (`next`) when `front`, else from the back (`next_back`); it hands out
/// `item` and leaves `after`.  This is what the `ensures` of
/// `Iter::next`/`next_back` and `IterMut::next`/`next_back` state when an
/// entry remains.
pub open spec fn iter_step<E>(before: Seq<E>, front: bool, item: E, after: Seq<E>) -> bool {
    &&& before.len() > 0
    &&& front ==> item == before[0] && after == before.drop_first()
    &&& !front ==> item == before.last() && after == before.drop_last()
}

/// Any run of `next` and `next_back` calls hands out each entry at most once:
/// the `j`-th call from the front hands out entry `j`, the `j`-th call from the
/// back hands out entry `len - 1 - j`, and what remains is the entries
/// between.  `states[i]` is what remains after `i` calls, `items[i]` what call
/// `i` handed out.
pub proof fn law_iter_hands_out_each_once<E>(
    entries: Seq<E>,
    moves: Seq<bool>,
    states: Seq<Seq<E>>,
    items: Seq<E>,
)
    requires
        states.len() == moves.len() + 1,
        items.len() == moves.len(),
        states[0] == entries,
        forall|i: int|
            0 <= i < moves.len() ==> #[trigger] iter_step(
                states[i],
                moves[i],
                items[i],
                states[i + 1],
            ),
    ensures
        moves.len() <= entries.len(),
        forall|i: int|
            0 <= i <= moves.len() ==> #[trigger] states[i] == entries.subrange(
                front_count(moves, i),
                entries.len() - (i - front_count(moves, i)),
            ),
        forall|i: int|
            0 <= i < moves.len() ==> #[trigger] items[i] == if moves[i] {
                entries[front_count(moves, i)]
            } else {
                entries[entries.len() - 1 - (i - front_count(moves, i))]
            },
{
    assert forall|i: int| 0 <= i <= moves.len() implies #[trigger] states[i] == entries.subrange(
        front_count(moves, i),
        entries.len() - (i - front_count(moves, i)),
    ) by {
        lemma_iter_prefix(entries, moves, states, items, i);
    }
    assert forall|i: int| 0 <= i < moves.len() implies #[trigger] items[i] == if moves[i] {
        entries[front_count(moves, i)]
    } else {
        entries[entries.len() - 1 - (i - front_count(moves, i))]
    } by {
        lemma_iter_prefix(entries, moves, states, items, i);
        assert(iter_step(states[i], moves[i], items[i], states[i + 1]));
    }
    lemma_iter_prefix(entries, moves, states, items, moves.len() as int);
}

proof fn lemma_iter_prefix<E>(
    entries: Seq<E>,
    moves: Seq<bool>,
    states: Seq<Seq<E>>,
    items: Seq<E>,
    n: int,
)
    requires
        states.len() == moves.len() + 1,
        items.len() == moves.len(),
        states[0] == entries,
        forall|i: int|
            0 <= i < moves.len() ==> #[trigger] iter_step(
                states[i],
                moves[i],
                items[i],
                states[i + 1],
            ),
        0 <= n <= moves.len(),
    ensures
        0 <= front_count(moves, n) <= n,
        n <= entries.len(),
        states[n] == entries.subrange(
            front_count(moves, n),
            entries.len() - (n - front_count(moves, n)),
        ),
    decreases n,
{
    if n == 0 {
        assert(entries.subrange(0, entries.len() as int) =~= entries);
    } else {
        lemma_iter_prefix(entries, moves, states, items, n - 1);
        assert(iter_step(states[n - 1], moves[n - 1], items[n - 1], states[(n - 1) + 1]));
        let f = front_count(moves, n - 1);
        let b = entries.len() - ((n - 1) - f);
        if moves[n - 1] {
            assert(states[n] =~= entries.subrange(f + 1, b));
        } else {
            assert(states[n] =~= entries.subrange(f, b - 1));
        }
    }
}

/// A run of `next` calls alone hands out the entries in order: call `i`
/// hands out entry `i`, and after `i` calls the entries from `i` on remain.
pub proof fn law_iter_next_in_order<E>(
    entries: Seq<E>,
    moves: Seq<bool>,
    states: Seq<Seq<E>>,
    items: Seq<E>,
)
    requires
        states.len() == moves.len() + 1,
        items.len() == moves.len(),
        states[0] == entries,
        forall|i: int| 0 <= i < moves.len() ==> #[trigger] moves[i],
        forall|i: int|
            0 <= i < moves.len() ==> #[trigger] iter_step(
                states[i],
                moves[i],
                items[i],
                states[i + 1],
            ),
    ensures
        moves.len() <= entries.len(),
        forall|i: int| 0 <= i < moves.len() ==> #[trigger] items[i] == entries[i],
        states.last() == entries.skip(moves.len() as int),
{
    law_iter_hands_out_each_once(entries, moves, states, items);
    assert forall|i: int| 0 <= i <= moves.len() implies #[trigger] front_count(moves, i) == i by {
        lemma_all_front(moves, i);
    }
    assert forall|i: int| 0 <= i < moves.len() implies #[trigger] items[i] == entries[i] by {
        assert(front_count(moves, i) == i);
    }
    assert(front_count(moves, moves.len() as int) == moves.len());
    assert(states[moves.len() as int] =~= entries.skip(moves.len() as int));
}

proof fn lemma_all_front(moves: Seq<bool>, n: int)
    requires
        forall|i: int| 0 <= i < moves.len() ==> #[trigger] moves[i],
        0 <= n <= moves.len(),
    ensures
        front_count(moves, n) == n,
    decreases n,
{
    if n > 0 {
        lemma_all_front(moves, n - 1);
    }
}

/// Objects that compare equal hold the same keys, and under every key values
/// that compare equal, whatever the number of entries.
pub proof fn law_eq_means_equal_values<V: PartialEq>(
    a: Map<Seq<char>, V>,
    b: Map<Seq<char>, V>,
    k: Seq<char>,
)
    requires
        maps_eq(a, b),
    ensures
        a.dom() == b.dom(),
        a.contains_key(k) ==> b.contains_key(k) && b[k].eq_spec(&a[k]),
        b.contains_key(k) ==> a.contains_key(k),
{
}

/// Objects differ as soon as one key is missing from the other or holds a
/// value that does not compare equal.
pub proof fn law_eq_fails_on_difference<V: PartialEq>(
    a: Map<Seq<char>, V>,
    b: Map<Seq<char>, V>,
    k: Seq<char>,
)
    requires
        a.contains_key(k),
        !b.contains_key(k) || !b[k].eq_spec(&a[k]),
    ensures
        !maps_eq(a, b),
{
}

/// Objects with the same keys whose values compare equal under every key are
/// equal, whatever the number of entries.
pub proof fn law_eq_holds_on_equal_values<V: PartialEq>(
    a: Map<Seq<char>, V>,
    b: Map<Seq<char>, V>,
)
    requires
        a.dom() == b.dom(),
        forall|k: Seq<char>| a.contains_key(k) ==> #[trigger] b[k].eq_spec(&a[k]),
    ensures
        maps_eq(a, b),
{
}

} // verus!
