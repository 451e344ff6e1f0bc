# json object

The object type of a JSON library: a map from string keys to values that
remembers insertion order, verified with Verus.

Entries live in a vector in insertion order and are linked into a binary tree
ordered by the 64-bit FNV-1a hash of each key, so lookups walk a tree of
integer comparisons.  Removal rebuilds the tree from the remaining entries.

Layout of `src/`:

- `hash.rs` — FNV-1a over bytes, proved against its definition.
- `key.rs` — key storage in `smallstr::SmallString` (the trusted part).
- `entries.rs` — the model: an ordered sequence of entries with distinct keys
  and the map it denotes.
- `tree.rs` — the tree's well-formedness and the lemmas the searches use.
- `object.rs` — `Object<V>` and its iterators, with their contracts.
- `laws.rs` — properties that relate the operations to each other.

The value type is a parameter: `Object<V>` holds any `V`.
