//! A map from string keys to values, kept as a binary tree inside a vector.
//!
//! Nodes are appended to the vector in insertion order and never move while
//! the object only grows; each node links to its children by position.  The
//! tree is ordered by an FNV-1a hash of the key rather than by the key itself:
//! comparing two `u64`s is cheaper than comparing strings, and hashing spreads
//! keys that arrive in sorted order over both branches instead of building a
//! list.  Keys with equal hashes but different text go to the right.
use vstd::prelude::*;
use vstd::std_specs::cmp::PartialEqSpec;
use vstd::utf8::{encode_utf8, encode_utf8_decode_utf8};
use crate::entries::{
    entries_map, has_key, key_index, maps_eq, upsert, upsert_all, keys_distinct, lemma_key_index, lemma_map_len,
    lemma_map_push, lemma_map_remove, lemma_map_update,
};
use crate::hash::hash_key;
use crate::key::{key_str_as_str, key_str_chars, key_str_from, KeyStr};
use crate::tree::{
    attach, hash_limit, key_hash, lemma_attach_wf, lemma_descend, node_ok, reach, tree_wf, Shape,
};

verus! {

/// A key together with its cached hash.
#[derive(Clone, Debug)]
struct Key {
    key_str: KeyStr,
    hash: u64,
}

impl Key {
    /// The characters of the key.
    spec fn chars(&self) -> Seq<char> {
        key_str_chars(self.key_str)
    }

    fn new(hash: u64, key_str: &str) -> (k: Key)
        ensures
            k.chars() == key_str@,
            k.hash == hash,
    {
        Key { key_str: key_str_from(key_str), hash: hash }
    }

    fn as_bytes(&self) -> (r: &[u8])
        ensures
            r@ == encode_utf8(self.chars()),
    {
        key_str_as_str(&self.key_str).as_bytes()
    }

    fn as_str(&self) -> (r: &str)
        ensures
            r@ == self.chars(),
    {
        key_str_as_str(&self.key_str)
    }
}

/// One entry of the object and its links to the entries below it.
#[derive(Clone, Debug)]
struct Node<V> {
    key: Key,
    value: V,
    /// Position of the child whose key hashes lower; 0 for none.
    left: usize,
    /// Position of the child whose key hashes equal or higher; 0 for none.
    right: usize,
}

impl<V> Node<V> {
    fn new(value: V, hash: u64, key: &str) -> (n: Node<V>)
        ensures
            n.key.chars() == key@,
            n.key.hash == hash,
            n.value == value,
            n.left == 0,
            n.right == 0,
    {
        Node { key: Key::new(hash, key), value: value, left: 0, right: 0 }
    }
}

/// Compares two byte strings.
fn bytes_eq(a: &[u8], b: &[u8]) -> (r: bool)
    ensures
        r == (a@ == b@),
{
    if a.len() != b.len() {
        return false;
    }
    let mut i: usize = 0;
    while i < a.len()
        invariant
            a.len() == b.len(),
            i <= a.len(),
            forall|j: int| 0 <= j < i ==> a@[j] == b@[j],
        decreases a.len() - i,
    {
        if a[i] != b[i] {
            return false;
        }
        i = i + 1;
    }
    assert(a@ =~= b@);
    true
}

/// Where a key stands in the tree, or where it would be hung.
enum Slot {
    /// The entry at this position has the key.
    Found(usize),
    /// The key is absent; it belongs in the free left slot of this node.
    Left(usize),
    /// The key is absent; it belongs in the free right slot of this node.
    Right(usize),
}

/// A map from string keys to values that remembers the order in which keys
/// were first inserted.
#[derive(Clone, Debug)]
pub struct Object<V> {
    store: Vec<Node<V>>,
}

impl<V> View for Object<V> {
    type V = Map<Seq<char>, V>;

    /// The map from each key to its value.
    open spec fn view(&self) -> Map<Seq<char>, V> {
        entries_map(self.entries())
    }
}

impl<V> Object<V> {
    /// The entries in insertion order: each key with its current value.
    pub closed spec fn entries(&self) -> Seq<(Seq<char>, V)> {
        self.store@.map_values(|n: Node<V>| (n.key.chars(), n.value))
    }

    /// The tree's view of the nodes.
    closed spec fn shape(&self) -> Seq<Shape> {
        self.store@.map_values(|n: Node<V>| (n.key.chars(), n.key.hash, n.left, n.right))
    }

    /// Hash ranges under which the tree is well formed, if there are any.
    closed spec fn bounds(&self) -> Seq<(int, int)> {
        choose|b: Seq<(int, int)>| tree_wf(self.shape(), b)
    }

    /// The object is well formed: the tree is ordered by hash, every entry is
    /// in it, and no key occurs twice.
    pub closed spec fn wf(&self) -> bool {
        &&& exists|b: Seq<(int, int)>| tree_wf(self.shape(), b)
        &&& keys_distinct(self.entries())
    }

    /// Creates an empty object.  It allocates nothing until a value is
    /// inserted.
    pub fn new() -> (o: Self)
        ensures
            o.wf(),
            o.entries() == Seq::<(Seq<char>, V)>::empty(),
            o@ == Map::<Seq<char>, V>::empty(),
    {
        let o = Object { store: Vec::new() };
        assert(tree_wf(o.shape(), Seq::empty()));
        assert(o.entries() =~= Seq::<(Seq<char>, V)>::empty());
        assert(o@ =~= Map::<Seq<char>, V>::empty());
        o
    }

    /// Creates an empty object with room for `capacity` entries.
    pub fn with_capacity(capacity: usize) -> (o: Self)
        ensures
            o.wf(),
            o.entries() == Seq::<(Seq<char>, V)>::empty(),
            o@ == Map::<Seq<char>, V>::empty(),
    {
        let o = Object { store: Vec::with_capacity(capacity) };
        assert(tree_wf(o.shape(), Seq::empty()));
        assert(o.entries() =~= Seq::<(Seq<char>, V)>::empty());
        assert(o@ =~= Map::<Seq<char>, V>::empty());
        o
    }

    /// Walks down the tree towards `key`, whose bytes hash to `hash`: finds
    /// the entry with that key, or the free child slot where it belongs.
    fn locate(&self, key: &str, bytes: &[u8], hash: u64) -> (r: Slot)
        requires
            self.wf(),
            self.store.len() > 0,
            bytes@ == encode_utf8(key@),
            hash == key_hash(key@),
        ensures
            match r {
                Slot::Found(i) => i < self.entries().len() && self.entries()[i as int].0 == key@,
                Slot::Left(p) => {
                    &&& p < self.store.len()
                    &&& !has_key(self.entries(), key@)
                    &&& self.shape()[p as int].2 == 0
                    &&& self.bounds()[p as int].0 <= hash < self.shape()[p as int].1
                },
                Slot::Right(p) => {
                    &&& p < self.store.len()
                    &&& !has_key(self.entries(), key@)
                    &&& self.shape()[p as int].3 == 0
                    &&& self.shape()[p as int].1 <= hash < self.bounds()[p as int].1
                },
            },
    {
        let ghost t = self.shape();
        let ghost b = self.bounds();
        let mut index: usize = 0;
        assert(node_ok(t, b, 0));
        loop
            invariant
                self.wf(),
                t == self.shape(),
                b == self.bounds(),
                index < self.store.len(),
                bytes@ == encode_utf8(key@),
                hash == key_hash(key@),
                b[index as int].0 <= hash < b[index as int].1,
                forall|k: int|
                    0 <= k < self.store.len() && #[trigger] self.entries()[k].0 == key@ ==> reach(
                        t,
                        index as int,
                        k,
                    ),
            decreases self.store.len() - index,
        {
            let node = &self.store[index];
            assert(node_ok(t, b, index as int));
            if hash == node.key.hash && bytes_eq(bytes, node.key.as_bytes()) {
                proof {
                    encode_utf8_decode_utf8(key@);
                    encode_utf8_decode_utf8(node.key.chars());
                }
                return Slot::Found(index);
            }
            assert(self.entries()[index as int].0 != key@);
            let child = if hash < node.key.hash { node.left } else { node.right };
            if child == 0 {
                proof {
                    assert forall|k: int| 0 <= k < self.entries().len() implies #[trigger] self.entries()[k].0 != key@ by {
                        if self.entries()[k].0 == key@ {
                            assert(node_ok(t, b, k));
                            lemma_descend(t, b, index as int, k);
                        }
                    }
                }
                if hash < node.key.hash {
                    return Slot::Left(index);
                } else {
                    return Slot::Right(index);
                }
            }
            proof {
                assert forall|k: int|
                    0 <= k < self.store.len() && #[trigger] self.entries()[k].0 == key@ implies reach(
                    t,
                    child as int,
                    k,
                ) by {
                    assert(node_ok(t, b, k));
                    lemma_descend(t, b, index as int, k);
                }
            }
            index = child;
        }
    }

    /// Finds the position of `key` among the entries.
    fn find_index(&self, key: &str) -> (r: Option<usize>)
        requires
            self.wf(),
        ensures
            match r {
                Some(i) => i < self.entries().len() && self.entries()[i as int].0 == key@,
                None => !has_key(self.entries(), key@),
            },
    {
        if self.store.len() == 0 {
            return None;
        }
        let bytes = key.as_bytes();
        let hash = hash_key(bytes);
        match self.locate(key, bytes, hash) {
            Slot::Found(i) => Some(i),
            _ => None,
        }
    }

    /// Appends a node without children and returns its position.  The node
    /// still has to be hung in the tree.
    fn add_node(&mut self, key: &str, value: V, hash: u64) -> (index: usize)
        ensures
            index == old(self).store@.len(),
            final(self).store@ == old(self).store@.push(final(self).store@[index as int]),
            final(self).store@[index as int].key.chars() == key@,
            final(self).store@[index as int].key.hash == hash,
            final(self).store@[index as int].value == value,
            final(self).store@[index as int].left == 0,
            final(self).store@[index as int].right == 0,
    {
        let index = self.store.len();
        self.store.push(Node::new(value, hash, key));
        index
    }

    /// Inserts `value` under `key`, overriding the value of an existing entry
    /// in place, and returns the entry's position.
    pub(crate) fn insert_index(&mut self, key: &str, value: V) -> (index: usize)
        requires
            old(self).wf(),
        ensures
            final(self).wf(),
            final(self)@ == old(self)@.insert(key@, value),
            final(self).entries() == upsert(old(self).entries(), key@, value),
            index < final(self).entries().len(),
            final(self).entries()[index as int] == (key@, value),
            has_key(old(self).entries(), key@) ==> {
                &&& index == key_index(old(self).entries(), key@)
                &&& final(self).entries() == old(self).entries().update(index as int, (key@, value))
            },
            !has_key(old(self).entries(), key@) ==> {
                &&& index == old(self).entries().len()
                &&& final(self).entries() == old(self).entries().push((key@, value))
            },
    {
        let bytes = key.as_bytes();
        let hash = hash_key(bytes);
        let ghost e = self.entries();
        let ghost t = self.shape();
        let ghost b = self.bounds();
        if self.store.len() == 0 {
            self.store.push(Node::new(value, hash, key));
            proof {
                assert(node_ok(self.shape(), seq![(0int, hash_limit())], 0));
                assert(tree_wf(self.shape(), seq![(0int, hash_limit())]));
                assert(self.entries() =~= e.push((key@, value)));
                lemma_map_push(e, key@, value);
            }
            return 0;
        }
        match self.locate(key, bytes, hash) {
            Slot::Found(i) => {
                self.store[i].value = value;
                proof {
                    lemma_key_index(e, i as int);
                    assert(has_key(e, key@));
                    assert(self.entries() =~= e.update(i as int, (key@, value)));
                    assert(self.shape() =~= t);
                    lemma_map_update(e, i as int, value);
                }
                i
            },
            Slot::Left(p) => {
                let n = self.add_node(key, value, hash);
                self.store[p].left = n;
                proof {
                    assert(self.shape() =~= attach(t, p as int, true, key@, hash));
                    lemma_attach_wf(t, b, p as int, true, key@, hash);
                    assert(tree_wf(self.shape(), b.push((b[p as int].0, t[p as int].1 as int))));
                    assert(self.entries() =~= e.push((key@, value)));
                    lemma_map_push(e, key@, value);
                }
                n
            },
            Slot::Right(p) => {
                let n = self.add_node(key, value, hash);
                self.store[p].right = n;
                proof {
                    assert(self.shape() =~= attach(t, p as int, false, key@, hash));
                    lemma_attach_wf(t, b, p as int, false, key@, hash);
                    assert(tree_wf(self.shape(), b.push((t[p as int].1 as int, b[p as int].1))));
                    assert(self.entries() =~= e.push((key@, value)));
                    lemma_map_push(e, key@, value);
                }
                n
            },
        }
    }

    /// Inserts `value` under `key`.  An existing entry keeps its position and
    /// gets the new value; a new key is added after all others.
    pub fn insert(&mut self, key: &str, value: V)
        requires
            old(self).wf(),
        ensures
            final(self).wf(),
            final(self).entries() == upsert(old(self).entries(), key@, value),
            final(self)@ == old(self)@.insert(key@, value),
    {
        self.insert_index(key, value);
    }

    /// Replaces the value of the entry at position `index`.
    pub(crate) fn override_at(&mut self, index: usize, value: V)
        requires
            old(self).wf(),
            index < old(self).entries().len(),
        ensures
            final(self).wf(),
            final(self).entries() == old(self).entries().update(
                index as int,
                (old(self).entries()[index as int].0, value),
            ),
            final(self)@ == old(self)@.insert(old(self).entries()[index as int].0, value),
    {
        let ghost e = self.entries();
        let ghost t = self.shape();
        self.store[index].value = value;
        proof {
            assert(self.entries() =~= e.update(index as int, (e[index as int].0, value)));
            assert(self.shape() =~= t);
            lemma_map_update(e, index as int, value);
        }
    }

    /// Replaces the value of the most recently added entry; does nothing to
    /// an empty object.  Kept for callers of earlier releases.
    pub fn override_last(&mut self, value: V)
        requires
            old(self).wf(),
        ensures
            final(self).wf(),
            old(self).entries().len() == 0 ==> final(self).entries() == old(self).entries(),
            old(self).entries().len() > 0 ==> {
                let last = old(self).entries().len() - 1;
                &&& final(self).entries() == old(self).entries().update(
                    last,
                    (old(self).entries()[last].0, value),
                )
                &&& final(self)@ == old(self)@.insert(old(self).entries()[last].0, value)
            },
    {
        let len = self.store.len();
        if len > 0 {
            self.override_at(len - 1, value);
        }
    }

    /// Looks up the value stored under `key`.
    pub fn get(&self, key: &str) -> (r: Option<&V>)
        requires
            self.wf(),
        ensures
            match r {
                Some(v) => self@.contains_key(key@) && *v == self@[key@],
                None => !self@.contains_key(key@),
            },
    {
        match self.find_index(key) {
            Some(i) => {
                proof {
                    lemma_key_index(self.entries(), i as int);
                }
                Some(&self.store[i].value)
            },
            None => None,
        }
    }
}


impl<V> Object<V> {
    /// A read gives back what the last write stored: after `insert(key,
    /// value)`, `get(key)` finds `value`, and every other key reads as before.
    pub proof fn law_read_after_write(before: Self, after: Self, key: Seq<char>, value: V)
        requires
            before.wf(),
            after.entries() == upsert(before.entries(), key, value),
        ensures
            after@.contains_key(key),
            after@[key] == value,
            forall|k: Seq<char>|
                k != key ==> (#[trigger] after@.contains_key(k) == before@.contains_key(k) && (
                before@.contains_key(k) ==> after@[k] == before@[k])),
    {
        crate::laws::law_upsert_view(before.entries(), key, value);
    }

    /// Replacing one entry's value keeps the object well formed and updates
    /// that key.
    proof fn lemma_value_replaced(before: Self, after: Self, i: int, v: V)
        requires
            before.wf(),
            0 <= i < before.store@.len(),
            after.store@ == before.store@.update(
                i,
                Node { value: v, ..before.store@[i] },
            ),
        ensures
            after.wf(),
            after.entries() == before.entries().update(i, (before.entries()[i].0, v)),
            after@ == before@.insert(before.entries()[i].0, v),
    {
        assert(after.entries() =~= before.entries().update(i, (before.entries()[i].0, v)));
        assert(after.shape() =~= before.shape());
        lemma_map_update(before.entries(), i, v);
    }

    /// Looks up the value stored under `key` for modification.
    pub fn get_mut(&mut self, key: &str) -> (r: Option<&mut V>)
        requires
            old(self).wf(),
        ensures
            match r {
                Some(v) => {
                    &&& old(self)@.contains_key(key@)
                    &&& *v == old(self)@[key@]
                    &&& final(self).wf()
                    &&& final(self).entries() == old(self).entries().update(
                        key_index(old(self).entries(), key@),
                        (key@, *final(v)),
                    )
                    &&& final(self)@ == old(self)@.insert(key@, *final(v))
                },
                None => !old(self)@.contains_key(key@) && *final(self) == *old(self),
            },
    {
        let ghost fs = *final(self);
        match self.find_index(key) {
            Some(i) => {
                let ghost e = self.entries();
                proof {
                    lemma_key_index(e, i as int);
                }
                let r = &mut self.store[i].value;
                proof {
                    Self::lemma_value_replaced(*old(self), fs, i as int, *final(r));
                }
                Some(r)
            },
            None => None,
        }
    }

    /// The key and, for modification, the value of the entry at position
    /// `index` in insertion order; `None` when there are not that many
    /// entries.  A value written through the reference is what the object
    /// then holds for that key.
    pub fn entry_at_mut(&mut self, index: usize) -> (r: Option<(&str, &mut V)>)
        requires
            old(self).wf(),
        ensures
            index >= old(self).entries().len() ==> r is None && *final(self) == *old(self),
            index < old(self).entries().len() ==> {
                &&& r matches Some((k, v)) && {
                    &&& k@ == old(self).entries()[index as int].0
                    &&& *v == old(self).entries()[index as int].1
                    &&& final(self).wf()
                    &&& final(self).entries() == old(self).entries().update(
                        index as int,
                        (k@, *final(v)),
                    )
                    &&& final(self)@ == old(self)@.insert(k@, *final(v))
                }
            },
    {
        let ghost fs = *final(self);
        if index < self.store.len() {
            let node = &mut self.store[index];
            let Node { key, value, .. } = node;
            proof {
                Self::lemma_value_replaced(*old(self), fs, index as int, *final(value));
            }
            Some((key.as_str(), value))
        } else {
            None
        }
    }

    /// In a well-formed object no key occurs twice.
    pub proof fn lemma_keys_distinct(&self)
        requires
            self.wf(),
        ensures
            keys_distinct(self.entries()),
            self.entries().len() == self@.dom().len(),
            forall|i: int|
                0 <= i < self.entries().len() ==> #[trigger] self@.contains_key(
                    self.entries()[i].0,
                ) && self@[self.entries()[i].0] == self.entries()[i].1,
    {
        lemma_map_len(self.entries());
        assert forall|i: int| 0 <= i < self.entries().len() implies #[trigger] self@.contains_key(
            self.entries()[i].0,
        ) && self@[self.entries()[i].0] == self.entries()[i].1 by {
            lemma_key_index(self.entries(), i);
        }
    }
}

impl<V> Object<V> {
    /// Removes the entry under `key` and returns its value.  The remaining
    /// entries keep their order.
    pub fn remove(&mut self, key: &str) -> (r: Option<V>)
        requires
            old(self).wf(),
        ensures
            final(self).wf(),
            match r {
                Some(v) => {
                    &&& old(self)@.contains_key(key@)
                    &&& v == old(self)@[key@]
                    &&& final(self).entries() == old(self).entries().remove(
                        key_index(old(self).entries(), key@),
                    )
                    &&& final(self)@ == old(self)@.remove(key@)
                },
                None => !old(self)@.contains_key(key@) && final(self).entries() == old(
                    self,
                ).entries(),
            },
    {
        let index = match self.find_index(key) {
            Some(i) => i,
            None => return None,
        };
        let ghost e = self.entries();
        proof {
            lemma_key_index(e, index as int);
            lemma_map_remove(e, index as int);
        }
        // Unlinking a node would leave the tree out of order, so the object is
        // rebuilt from the remaining entries.  Removal should be rare in JSON.
        let mut new_object: Object<V> = Object::with_capacity(self.store.len() - 1);
        let mut nodes: Vec<Node<V>> = Vec::new();
        std::mem::swap(&mut nodes, &mut self.store);
        let ghost all = nodes@;
        let total = nodes.len();
        let mut removed: Option<V> = None;
        let mut i: usize = 0;
        for node in it: nodes.into_iter()
            invariant
                it.seq() == all,
                i == it.index(),
                all.len() == total,
                e == all.map_values(|n: Node<V>| (n.key.chars(), n.value)),
                keys_distinct(e),
                index < e.len(),
                e[index as int].0 == key@,
                new_object.wf(),
                i <= index ==> new_object.entries() == e.subrange(0, i as int) && removed is None,
                i > index ==> new_object.entries() == e.subrange(0, i as int).remove(index as int)
                    && removed == Some(e[index as int].1),
        {
            let ghost before = new_object.entries();
            if i == index {
                removed = Some(node.value);
                proof {
                    assert(e.subrange(0, i + 1).remove(index as int) =~= e.subrange(0, i as int));
                }
            } else {
                let Node { key: node_key, value: node_value, .. } = node;
                proof {
                    assert(e[i as int] == (node_key.chars(), node_value));
                    assert forall|j: int| 0 <= j < before.len() implies #[trigger] before[j].0
                        != node_key.chars() by {
                        if i <= index {
                            assert(before[j] == e[j]);
                            assert(e[j].0 != e[i as int].0);
                        } else if j < index {
                            assert(before[j] == e[j]);
                            assert(e[j].0 != e[i as int].0);
                        } else {
                            assert(before[j] == e[j + 1]);
                            assert(e[j + 1].0 != e[i as int].0);
                        }
                    }
                }
                new_object.insert(node_key.as_str(), node_value);
                proof {
                    if i < index {
                        assert(new_object.entries() =~= e.subrange(0, i + 1));
                    } else {
                        assert(new_object.entries() =~= e.subrange(0, i + 1).remove(index as int));
                    }
                }
            }
            i = i + 1;
        }
        proof {
            assert(e.subrange(0, e.len() as int) =~= e);
        }
        std::mem::swap(self, &mut new_object);
        removed
    }

    /// The number of entries.
    pub fn len(&self) -> (n: usize)
        requires
            self.wf(),
        ensures
            n == self.entries().len(),
            n == self@.dom().len(),
    {
        proof {
            lemma_map_len(self.entries());
        }
        self.store.len()
    }

    /// Whether the object has no entries.
    pub fn is_empty(&self) -> (r: bool)
        requires
            self.wf(),
        ensures
            r == (self.entries().len() == 0),
            r == (self@.dom().len() == 0),
    {
        proof {
            lemma_map_len(self.entries());
        }
        self.store.is_empty()
    }

    /// Removes every entry.  The allocated capacity is kept.
    pub fn clear(&mut self)
        requires
            old(self).wf(),
        ensures
            final(self).wf(),
            final(self).entries() == Seq::<(Seq<char>, V)>::empty(),
            final(self)@ == Map::<Seq<char>, V>::empty(),
    {
        self.store.clear();
        proof {
            assert(tree_wf(self.shape(), Seq::empty()));
            assert(self.entries() =~= Seq::<(Seq<char>, V)>::empty());
            assert(self@ =~= Map::<Seq<char>, V>::empty());
        }
    }
}

impl<V> Object<V> {
    /// The value under `key`, or `null` when the object has no such key.
    pub fn index<'a>(&'a self, key: &str, null: &'a V) -> (r: &'a V)
        requires
            self.wf(),
        ensures
            *r == if self@.contains_key(key@) {
                self@[key@]
            } else {
                *null
            },
    {
        match self.get(key) {
            Some(value) => value,
            _ => null,
        }
    }

    /// The value under `key` for modification; when the object has no such
    /// key, `null` is first inserted under it.
    pub fn index_mut(&mut self, key: &str, null: V) -> (r: &mut V)
        requires
            old(self).wf(),
        ensures
            *r == if old(self)@.contains_key(key@) {
                old(self)@[key@]
            } else {
                null
            },
            final(self).wf(),
            final(self).entries() == upsert(old(self).entries(), key@, *final(r)),
            final(self)@ == old(self)@.insert(key@, *final(r)),
    {
        let ghost e = self.entries();
        if self.get(key).is_none() {
            self.insert(key, null);
        }
        let ghost mid = self.entries();
        proof {
            if has_key(e, key@) {
                lemma_key_index(e, key_index(e, key@));
            } else {
                lemma_key_index(mid, e.len() as int);
            }
            lemma_key_index(mid, key_index(mid, key@));
        }
        let r = self.get_mut(key).unwrap();
        proof {
            if has_key(e, key@) {
                assert(mid == e);
            } else {
                assert(upsert(e, key@, *final(r)) =~= mid.update(e.len() as int, (key@, *final(r))));
            }
        }
        r
    }

    /// Builds an object by inserting the pairs in order; a later pair with
    /// the key of an earlier one replaces its value in place.
    pub fn from_iter(pairs: Vec<(&str, V)>) -> (o: Self)
        ensures
            o.wf(),
            o.entries() == upsert_all(
                Seq::empty(),
                pairs@.map_values(|p: (&str, V)| (p.0@, p.1)),
            ),
    {
        let ghost ps = pairs@.map_values(|p: (&str, V)| (p.0@, p.1));
        let mut object = Object::with_capacity(pairs.len());
        let ghost all = pairs@;
        for pair in it: pairs.into_iter()
            invariant
                it.seq() == all,
                ps == all.map_values(|p: (&str, V)| (p.0@, p.1)),
                object.wf(),
                object.entries() == upsert_all(Seq::empty(), ps.subrange(0, it.index())),
        {
            let (key, value) = pair;
            proof {
                assert(ps.subrange(0, it.index() + 1).drop_last() =~= ps.subrange(0, it.index()));
            }
            object.insert(key, value);
        }
        proof {
            assert(ps.subrange(0, ps.len() as int) =~= ps);
        }
        object
    }
}

impl<V: PartialEq> Object<V> {
    /// Whether both objects hold the same keys with equal values, in any
    /// order.
    pub fn eq(&self, other: &Object<V>) -> (r: bool)
        requires
            self.wf(),
            other.wf(),
        ensures
            V::obeys_eq_spec() ==> r == maps_eq(self@, other@),
    {
        proof {
            lemma_map_len(self.entries());
            lemma_map_len(other.entries());
        }
        if self.len() != other.len() {
            return false;
        }
        let ghost e = self.entries();
        let mut i: usize = 0;
        while i < self.store.len()
            invariant
                self.wf(),
                other.wf(),
                e == self.entries(),
                i <= e.len(),
                e.len() == other.entries().len(),
                forall|j: int|
                    0 <= j < i ==> other@.contains_key(#[trigger] e[j].0) && (V::obeys_eq_spec()
                        ==> other@[e[j].0].eq_spec(&e[j].1)),
            decreases e.len() - i,
        {
            let node = &self.store[i];
            proof {
                lemma_key_index(e, i as int);
            }
            let ghost k = e[i as int].0;
            match other.get(node.key.as_str()) {
                Some(other_val) => {
                    if *other_val != node.value {
                        proof {
                            if V::obeys_eq_spec() {
                                assert(!other@[k].eq_spec(&self@[k]));
                            }
                        }
                        return false;
                    }
                    proof {
                        assert(other@.contains_key(k));
                        assert(V::obeys_eq_spec() ==> other@[k].eq_spec(&e[i as int].1));
                    }
                },
                None => {
                    proof {
                        assert(self@.dom().contains(k) && !other@.dom().contains(k));
                    }
                    return false;
                },
            }
            i = i + 1;
        }
        proof {
            assert forall|k: Seq<char>| #[trigger] self@.contains_key(k) implies other@.contains_key(
                k,
            ) && (V::obeys_eq_spec() ==> other@[k].eq_spec(&self@[k])) by {
                let j = key_index(e, k);
                lemma_key_index(e, j);
                assert(e[j].0 == k);
            }
            assert(self@.dom().subset_of(other@.dom()));
            vstd::set_lib::lemma_subset_equality(self@.dom(), other@.dom());
        }
        true
    }
}

impl<V> Object<V> {
    /// Iterates over the entries in insertion order.
    pub fn iter(&self) -> (it: Iter<'_, V>)
        requires
            self.wf(),
        ensures
            it.remaining() == self.entries(),
    {
        let it = Iter { nodes: self.store.as_slice(), front: 0, back: self.store.len() };
        assert(it.remaining() =~= self.entries());
        it
    }

    /// Iterates over the entries in insertion order, handing out each value
    /// for modification.  The iterator holds this object: once it is dropped,
    /// the object is what the iterator's object then is, with the same keys
    /// in the same order and the values last written through it.
    pub fn iter_mut(&mut self) -> (it: IterMut<'_, V>)
        requires
            old(self).wf(),
        ensures
            it.wf(),
            it.front == 0,
            it.back == old(self).entries().len(),
            it.remaining() == old(self).entries(),
            it.object matches Some(o) && *o == *old(self) && *final(o) == *final(self),
    {
        let len = self.store.len();
        let it = IterMut { object: Some(self), front: 0, back: len };
        assert(it.remaining() =~= old(self).entries());
        it
    }
}

/// An iterator over the entries of an [`Object`], from either end.
pub struct Iter<'a, V> {
    nodes: &'a [Node<V>],
    front: usize,
    back: usize,
}

impl<'a, V> Iter<'a, V> {
    #[verifier::type_invariant]
    spec fn inv(&self) -> bool {
        self.front <= self.back <= self.nodes@.len()
    }

    /// The entries not handed out yet, in order.
    pub closed spec fn remaining(&self) -> Seq<(Seq<char>, V)> {
        self.nodes@.subrange(self.front as int, self.back as int).map_values(
            |n: Node<V>| (n.key.chars(), n.value),
        )
    }

    /// Creates an iterator that has nothing to hand out.
    pub fn empty() -> (it: Self)
        ensures
            it.remaining() == Seq::<(Seq<char>, V)>::empty(),
    {
        let it = Iter { nodes: &[], front: 0, back: 0 };
        assert(it.remaining() =~= Seq::<(Seq<char>, V)>::empty());
        it
    }

    /// Hands out the first remaining entry.
    pub fn next(&mut self) -> (r: Option<(&'a str, &'a V)>)
        ensures
            old(self).remaining().len() == 0 ==> r is None && final(self).remaining() == old(
                self,
            ).remaining(),
            old(self).remaining().len() > 0 ==> {
                &&& r matches Some((k, v)) && k@ == old(self).remaining()[0].0 && *v == old(
                    self,
                ).remaining()[0].1
                &&& final(self).remaining() == old(self).remaining().drop_first()
            },
    {
        proof {
            use_type_invariant(&*self);
        }
        if self.front < self.back {
            let nodes: &'a [Node<V>] = self.nodes;
            let node: &'a Node<V> = &nodes[self.front];
            self.front = self.front + 1;
            assert(self.remaining() =~= old(self).remaining().drop_first());
            Some((node.key.as_str(), &node.value))
        } else {
            None
        }
    }

    /// Hands out the last remaining entry.
    pub fn next_back(&mut self) -> (r: Option<(&'a str, &'a V)>)
        ensures
            old(self).remaining().len() == 0 ==> r is None && final(self).remaining() == old(
                self,
            ).remaining(),
            old(self).remaining().len() > 0 ==> {
                &&& r matches Some((k, v)) && k@ == old(self).remaining().last().0 && *v == old(
                    self,
                ).remaining().last().1
                &&& final(self).remaining() == old(self).remaining().drop_last()
            },
    {
        proof {
            use_type_invariant(&*self);
        }
        if self.front < self.back {
            let nodes: &'a [Node<V>] = self.nodes;
            self.back = self.back - 1;
            let node: &'a Node<V> = &nodes[self.back];
            assert(self.remaining() =~= old(self).remaining().drop_last());
            Some((node.key.as_str(), &node.value))
        } else {
            None
        }
    }

    /// The number of entries not handed out yet.
    pub fn len(&self) -> (n: usize)
        ensures
            n == self.remaining().len(),
    {
        proof {
            use_type_invariant(self);
        }
        self.back - self.front
    }
}

/// An iterator over the entries of an [`Object`] that hands out each value
/// for modification, from either end.  It holds the object it came from, so
/// every value written through it is what the object holds afterwards.
pub struct IterMut<'a, V> {
    /// The object being walked; `None` for an iterator with nothing to hand out.
    pub object: Option<&'a mut Object<V>>,
    /// Position of the next entry to hand out from the front.
    pub front: usize,
    /// One past the position of the next entry to hand out from the back.
    pub back: usize,
}

impl<'a, V> IterMut<'a, V> {
    /// The object's entries as they stand now, values already written included.
    pub open spec fn object_entries(&self) -> Seq<(Seq<char>, V)> {
        match self.object {
            Some(o) => o.entries(),
            None => Seq::empty(),
        }
    }

    /// The object is well formed and the positions lie within its entries.
    pub open spec fn wf(&self) -> bool {
        &&& match self.object {
            Some(o) => o.wf(),
            None => true,
        }
        &&& self.front <= self.back <= self.object_entries().len()
    }

    /// The entries not handed out yet, in order, with their current values.
    pub open spec fn remaining(&self) -> Seq<(Seq<char>, V)> {
        self.object_entries().subrange(self.front as int, self.back as int)
    }

    /// Creates an iterator that has nothing to hand out.
    pub fn empty() -> (it: Self)
        ensures
            it.wf(),
            it.object is None,
            it.remaining() == Seq::<(Seq<char>, V)>::empty(),
    {
        let it = IterMut { object: None, front: 0, back: 0 };
        assert(it.remaining() =~= Seq::<(Seq<char>, V)>::empty());
        it
    }

    /// Hands out the first remaining entry, its value for modification.  The
    /// object then holds, at that position, whatever is written through the
    /// returned reference; its keys and their order do not change.
    pub fn next(&mut self) -> (r: Option<(&str, &mut V)>)
        requires
            old(self).wf(),
        ensures
            final(self).wf(),
            final(self).back == old(self).back,
            match (old(self).object, final(self).object) {
                (Some(o1), Some(o2)) => *final(o2) == *final(o1),
                (None, None) => true,
                _ => false,
            },
            old(self).remaining().len() == 0 ==> {
                &&& r is None
                &&& final(self).front == old(self).front
                &&& final(self).object_entries() == old(self).object_entries()
            },
            old(self).remaining().len() > 0 ==> {
                &&& r matches Some((k, v)) && {
                    &&& k@ == old(self).remaining()[0].0
                    &&& *v == old(self).remaining()[0].1
                    &&& final(self).object_entries() == old(self).object_entries().update(
                        old(self).front as int,
                        (k@, *final(v)),
                    )
                }
                &&& final(self).front == old(self).front + 1
                &&& final(self).remaining() == old(self).remaining().drop_first()
            },
    {
        if self.front < self.back {
            let i = self.front;
            self.front = i + 1;
            match &mut self.object {
                Some(o) => o.entry_at_mut(i),
                None => None,
            }
        } else {
            None
        }
    }

    /// Hands out the last remaining entry, its value for modification.  The
    /// object then holds, at that position, whatever is written through the
    /// returned reference; its keys and their order do not change.
    pub fn next_back(&mut self) -> (r: Option<(&str, &mut V)>)
        requires
            old(self).wf(),
        ensures
            final(self).wf(),
            final(self).front == old(self).front,
            match (old(self).object, final(self).object) {
                (Some(o1), Some(o2)) => *final(o2) == *final(o1),
                (None, None) => true,
                _ => false,
            },
            old(self).remaining().len() == 0 ==> {
                &&& r is None
                &&& final(self).back == old(self).back
                &&& final(self).object_entries() == old(self).object_entries()
            },
            old(self).remaining().len() > 0 ==> {
                &&& r matches Some((k, v)) && {
                    &&& k@ == old(self).remaining().last().0
                    &&& *v == old(self).remaining().last().1
                    &&& final(self).object_entries() == old(self).object_entries().update(
                        old(self).back - 1,
                        (k@, *final(v)),
                    )
                }
                &&& final(self).back == old(self).back - 1
                &&& final(self).remaining() == old(self).remaining().drop_last()
            },
    {
        if self.front < self.back {
            let i = self.back - 1;
            self.back = i;
            match &mut self.object {
                Some(o) => o.entry_at_mut(i),
                None => None,
            }
        } else {
            None
        }
    }

    /// The number of entries not handed out yet.
    pub fn len(&self) -> (n: usize)
        requires
            self.wf(),
        ensures
            n == self.remaining().len(),
    {
        self.back - self.front
    }
}

} // verus!
