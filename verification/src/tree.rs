//! The shape of the binary tree that an object keeps in its node vector.
//!
//! Node `i` is described by a [`Shape`]: its key's characters, the key's
//! hash, and the positions of its left and right children (0 meaning "no
//! child": the root, at position 0, is nobody's child).  Every child stands
//! after its parent in the vector.  Beside the shape, each node has a half-open
//! range of hashes that its subtree may hold: the root's range is all of `u64`;
//! a left child takes the part of its parent's range below the parent's hash,
//! a right child the part from the parent's hash up.  Equal hashes therefore
//! always go right.
use vstd::prelude::*;
use crate::hash::fnv1a;

verus! {

/// A node as the tree sees it: key characters, key hash, left child, right child.
pub type Shape = (Seq<char>, u64, usize, usize);

/// One past the largest `u64`: the upper end of the root's hash range.
pub open spec fn hash_limit() -> int {
    0x1_0000_0000_0000_0000int
}

/// The hash under which a key is stored: FNV-1a of its UTF-8 bytes.
pub open spec fn key_hash(chars: Seq<char>) -> u64 {
    fnv1a(vstd::utf8::encode_utf8(chars))
}

/// Node `k` lies in the subtree rooted at node `c`.
pub open spec fn reach(t: Seq<Shape>, c: int, k: int) -> bool
    decreases k - c,
{
    if c == k {
        true
    } else if 0 <= c < k < t.len() {
        let l = t[c].2 as int;
        let r = t[c].3 as int;
        (c < l <= k && reach(t, l, k)) || (c < r <= k && reach(t, r, k))
    } else {
        false
    }
}

/// Node `i` is consistent with its hash range and with its children.
pub open spec fn node_ok(t: Seq<Shape>, b: Seq<(int, int)>, i: int) -> bool {
    let h = t[i].1 as int;
    let l = t[i].2 as int;
    let r = t[i].3 as int;
    &&& t[i].1 == key_hash(t[i].0)
    &&& b[i].0 <= h < b[i].1
    &&& l != 0 ==> i < l < t.len() && b[l] == (b[i].0, h)
    &&& r != 0 ==> i < r < t.len() && b[r] == (h, b[i].1)
}

/// The whole tree is well formed: ranges nest, hashes are right, and every
/// node can be reached from the root.
pub open spec fn tree_wf(t: Seq<Shape>, b: Seq<(int, int)>) -> bool {
    &&& b.len() == t.len()
    &&& t.len() > 0 ==> b[0] == (0int, hash_limit())
    &&& forall|i: int| 0 <= i < t.len() ==> #[trigger] node_ok(t, b, i)
    &&& forall|k: int| 0 <= k < t.len() ==> #[trigger] reach(t, 0, k)
}

/// A node is reached only from itself or from before it.
pub proof fn lemma_reach_order(t: Seq<Shape>, c: int, k: int)
    requires
        reach(t, c, k),
    ensures
        c <= k,
    decreases k - c,
{
}

/// A subtree's hash range lies inside the range of every node above it.
pub proof fn lemma_reach_bounds(t: Seq<Shape>, b: Seq<(int, int)>, c: int, k: int)
    requires
        tree_wf(t, b),
        reach(t, c, k),
        0 <= c < t.len(),
        0 <= k < t.len(),
    ensures
        b[c].0 <= b[k].0,
        b[k].1 <= b[c].1,
    decreases k - c,
{
    if c != k {
        assert(node_ok(t, b, c));
        let l = t[c].2 as int;
        let r = t[c].3 as int;
        if c < l <= k && reach(t, l, k) {
            lemma_reach_bounds(t, b, l, k);
        } else {
            lemma_reach_bounds(t, b, r, k);
        }
    }
}

/// Below node `c`, a node whose hash is smaller than `c`'s lies in the left
/// subtree, any other in the right subtree.
pub proof fn lemma_descend(t: Seq<Shape>, b: Seq<(int, int)>, c: int, k: int)
    requires
        tree_wf(t, b),
        reach(t, c, k),
        c != k,
        0 <= c < t.len(),
        0 <= k < t.len(),
    ensures
        t[k].1 < t[c].1 ==> t[c].2 != 0 && reach(t, t[c].2 as int, k),
        t[k].1 >= t[c].1 ==> t[c].3 != 0 && reach(t, t[c].3 as int, k),
{
    assert(node_ok(t, b, c));
    assert(node_ok(t, b, k));
    let l = t[c].2 as int;
    let r = t[c].3 as int;
    if c < l <= k && reach(t, l, k) {
        lemma_reach_bounds(t, b, l, k);
    }
    if c < r <= k && reach(t, r, k) {
        lemma_reach_bounds(t, b, r, k);
    }
}

/// Reaching is transitive.
pub proof fn lemma_reach_trans(t: Seq<Shape>, a: int, m: int, k: int)
    requires
        reach(t, a, m),
        reach(t, m, k),
    ensures
        reach(t, a, k),
    decreases m - a,
{
    lemma_reach_order(t, m, k);
    if a != m {
        let l = t[a].2 as int;
        let r = t[a].3 as int;
        if a < l <= m && reach(t, l, m) {
            lemma_reach_trans(t, l, m, k);
        } else {
            lemma_reach_trans(t, r, m, k);
        }
    }
}

/// The tree after node `n == t.len()` is hung below `p` on the side that
/// `go_left` names.
pub open spec fn attach(t: Seq<Shape>, p: int, go_left: bool, chars: Seq<char>, h: u64) -> Seq<
    Shape,
> {
    let n = t.len() as usize;
    let old_p = t[p];
    let new_p = if go_left {
        (old_p.0, old_p.1, n, old_p.3)
    } else {
        (old_p.0, old_p.1, old_p.2, n)
    };
    t.update(p, new_p).push((chars, h, 0usize, 0usize))
}

/// Hanging a new node on a free child slot does not change which of the old
/// nodes reach which.
pub proof fn lemma_attach_frame(
    t: Seq<Shape>,
    p: int,
    go_left: bool,
    chars: Seq<char>,
    h: u64,
    c: int,
    k: int,
)
    requires
        0 <= p < t.len(),
        go_left ==> t[p].2 == 0,
        !go_left ==> t[p].3 == 0,
        0 <= c,
        k < t.len(),
        t.len() <= usize::MAX,
    ensures
        reach(attach(t, p, go_left, chars, h), c, k) == reach(t, c, k),
    decreases k - c,
{
    let u = attach(t, p, go_left, chars, h);
    if c != k && 0 <= c < k < t.len() {
        let l = t[c].2 as int;
        let r = t[c].3 as int;
        assert(u.len() == t.len() + 1);
        if c == p {
            assert(go_left ==> u[c].2 as int == t.len() && u[c].3 == t[c].3);
            assert(!go_left ==> u[c].3 as int == t.len() && u[c].2 == t[c].2);
        } else {
            assert(u[c] == t[c]);
        }
        if c < l <= k {
            lemma_attach_frame(t, p, go_left, chars, h, l, k);
        }
        if c < r <= k {
            lemma_attach_frame(t, p, go_left, chars, h, r, k);
        }
    }
}

/// Hanging a new node on a free child slot of a node whose range holds the
/// new hash keeps the tree well formed.
pub proof fn lemma_attach_wf(
    t: Seq<Shape>,
    b: Seq<(int, int)>,
    p: int,
    go_left: bool,
    chars: Seq<char>,
    h: u64,
)
    requires
        tree_wf(t, b),
        0 <= p < t.len(),
        go_left ==> t[p].2 == 0 && b[p].0 <= h < t[p].1,
        !go_left ==> t[p].3 == 0 && t[p].1 <= h < b[p].1,
        h == key_hash(chars),
        t.len() <= usize::MAX,
    ensures
        tree_wf(
            attach(t, p, go_left, chars, h),
            b.push(if go_left { (b[p].0, t[p].1 as int) } else { (t[p].1 as int, b[p].1) }),
        ),
{
    let u = attach(t, p, go_left, chars, h);
    let nb = b.push(if go_left { (b[p].0, t[p].1 as int) } else { (t[p].1 as int, b[p].1) });
    let n = t.len() as int;
    assert forall|i: int| 0 <= i < u.len() implies #[trigger] node_ok(u, nb, i) by {
        if i < n {
            assert(node_ok(t, b, i));
        }
    }
    assert forall|k: int| 0 <= k < u.len() implies #[trigger] reach(u, 0, k) by {
        if k < n {
            assert(reach(t, 0, k));
            lemma_attach_frame(t, p, go_left, chars, h, 0, k);
        } else {
            assert(reach(t, 0, p));
            lemma_attach_frame(t, p, go_left, chars, h, 0, p);
            assert(reach(u, n, n));
            assert(reach(u, p, n));
            lemma_reach_trans(u, 0, p, n);
        }
    }
}

} // verus!
