//! The tree that the pages form.

use crate::key;
use crate::writer::model::{Item, Page};
use vstd::prelude::*;

verus! {

/// What a page is to the tree: its sibling links, its kind and its entries.
pub struct Node {
    pub prev: u32,
    pub next: u32,
    pub leaf: bool,
    pub items: Seq<Item>,
}

/// A page's place in the tree: its height above the leaves, the keys that
/// belong to it (`lo` and up, below `hi`), and its parent.
pub struct Place {
    pub level: nat,
    pub lo: Seq<u8>,
    pub hi: Option<Seq<u8>>,
    pub parent: int,
}

/// A split that the parent does not know of yet: the entries of `right` were
/// those of `left`.
pub struct Pending {
    pub left: int,
    pub right: int,
}

/// All pages by number, with their places.  Page 0 is the meta page and no
/// part of the tree; page 1 is the root.
pub struct Tree {
    pub nodes: Seq<Node>,
    pub places: Seq<Place>,
}

impl Page {
    pub open spec fn node(self) -> Node {
        Node { prev: self.prev, next: self.next, leaf: self.is_leaf(), items: self.items() }
    }
}

/// `k` is below the bound.
pub open spec fn below(k: Seq<u8>, hi: Option<Seq<u8>>) -> bool {
    match hi {
        None => true,
        Some(h) => key::lt(k, h),
    }
}

/// Keys go up from entry to entry.
pub open spec fn sorted(items: Seq<Item>) -> bool {
    forall|i: int, j: int|
        0 <= i < j < items.len() ==> key::lt((#[trigger] items[i]).key, (#[trigger] items[j]).key)
}

/// The number of entries before `k`, by the first `n` of them.
pub open spec fn rank_in(items: Seq<Item>, k: Seq<u8>, n: int) -> int
    decreases n,
{
    if n <= 0 {
        0
    } else if key::lt(items[n - 1].key, k) {
        n
    } else {
        rank_in(items, k, n - 1)
    }
}

/// The slot at which an entry for `k` is, or would go.
pub open spec fn rank(items: Seq<Item>, k: Seq<u8>) -> int {
    rank_in(items, k, items.len() as int)
}

/// `k` is the key of one of the entries.
pub open spec fn present(items: Seq<Item>, k: Seq<u8>) -> bool {
    rank(items, k) < items.len() && items[rank(items, k)].key == k
}

/// The last of the first `n` separators that is not after `k`; the first
/// one if there is none.
pub open spec fn pick_in(items: Seq<Item>, k: Seq<u8>, n: int) -> int
    decreases n,
{
    if n <= 1 {
        0
    } else if key::le(items[n - 1].key, k) {
        n - 1
    } else {
        pick_in(items, k, n - 1)
    }
}

/// The slot of the child in whose subtree `k` belongs.
pub open spec fn pick(items: Seq<Item>, k: Seq<u8>) -> int {
    pick_in(items, k, items.len() as int)
}

/// `path` leads from the root to page `leaf`, along the children in whose
/// subtrees `k` belongs.  Each hop is a page and a slot.
pub open spec fn leads(
    nodes: Seq<Node>,
    k: Seq<u8>,
    path: Seq<(u32, usize)>,
    leaf: u32,
) -> bool {
    &&& stop(path, leaf, 0) == 1
    &&& forall|i: int| 0 <= i < path.len() ==> #[trigger] hop(nodes, k, path, leaf, i)
}

/// The page after `i` hops.
pub open spec fn stop(path: Seq<(u32, usize)>, leaf: u32, i: int) -> u32 {
    if i < path.len() {
        path[i].0
    } else {
        leaf
    }
}

/// Hop `i` takes the child in whose subtree `k` belongs.
pub open spec fn hop(
    nodes: Seq<Node>,
    k: Seq<u8>,
    path: Seq<(u32, usize)>,
    leaf: u32,
    i: int,
) -> bool {
    let node = nodes[path[i].0 as int];
    &&& path[i].1 == pick(node.items, k)
    &&& !node.leaf
    &&& path[i].1 < node.items.len()
    &&& stop(path, leaf, i + 1) == node.items[path[i].1 as int].word
}

/// Some leaf holds the pair.
pub open spec fn has(nodes: Seq<Node>, k: Seq<u8>, v: Seq<u8>) -> bool {
    exists|p: int, i: int| #[trigger] holds(nodes, p, i, k, v)
}

/// Entry `i` of leaf `p` is the pair.
pub open spec fn holds(nodes: Seq<Node>, p: int, i: int, k: Seq<u8>, v: Seq<u8>) -> bool {
    &&& 1 <= p < nodes.len()
    &&& nodes[p].leaf
    &&& 0 <= i < nodes[p].items.len()
    &&& nodes[p].items[i].key == k
    &&& nodes[p].items[i].val == v
}

/// The pairs on the leaves.
pub open spec fn contents(nodes: Seq<Node>) -> Map<Seq<u8>, Seq<u8>> {
    Map::new(
        |k: Seq<u8>| exists|v: Seq<u8>| has(nodes, k, v),
        |k: Seq<u8>| choose|v: Seq<u8>| has(nodes, k, v),
    )
}

impl Tree {
    pub open spec fn page(self, p: int) -> bool {
        1 <= p < self.nodes.len()
    }

    /// `k` belongs to page `p`.
    pub open spec fn covers(self, p: int, k: Seq<u8>) -> bool {
        key::le(self.places[p].lo, k) && below(k, self.places[p].hi)
    }

    /// The keys on the page belong to it and go up.
    pub open spec fn keys_ok(self, p: int) -> bool {
        let items = self.nodes[p].items;
        &&& sorted(items)
        &&& forall|i: int| 0 <= i < items.len() ==> self.covers(p, (#[trigger] items[i]).key)
    }

    /// The bound that entry `s` of page `p` sets to its child.
    pub open spec fn bound(self, p: int, s: int) -> Option<Seq<u8>> {
        if s + 1 < self.nodes[p].items.len() {
            Some(self.nodes[p].items[s + 1].key)
        } else {
            self.places[p].hi
        }
    }

    /// The bound that the parent knows of page `c`.
    pub open spec fn known_hi(self, c: int, pending: Option<Pending>) -> Option<Seq<u8>> {
        match pending {
            Some(q) => if c == q.left {
                self.places[q.right].hi
            } else {
                self.places[c].hi
            },
            None => self.places[c].hi,
        }
    }

    /// Entry `s` of internal page `p` and its child agree.
    pub open spec fn child_ok(self, p: int, s: int, pending: Option<Pending>) -> bool {
        let c = self.nodes[p].items[s].word as int;
        &&& 1 < c < self.nodes.len()
        &&& self.places[c].level + 1 == self.places[p].level
        &&& self.places[c].lo == self.nodes[p].items[s].key
        &&& self.known_hi(c, pending) == self.bound(p, s)
        &&& self.places[c].parent == p
    }

    /// The siblings of the page have it between them.
    pub open spec fn links_ok(self, p: int) -> bool {
        let next = self.nodes[p].next as int;
        let prev = self.nodes[p].prev as int;
        &&& next == 0 <==> self.places[p].hi is None
        &&& next != 0 ==> 1 < next < self.nodes.len() && self.nodes[next].prev == p
            && self.places[next].level == self.places[p].level && self.places[p].hi == Some(
            self.places[next].lo,
        )
        &&& prev == 0 <==> self.places[p].lo == Seq::<u8>::empty()
        &&& prev != 0 ==> 1 < prev < self.nodes.len() && self.nodes[prev].next == p
    }

    /// Entry `s` of page `p` leads to page `c`.
    pub open spec fn slot_of(self, p: int, s: int, c: int) -> bool {
        &&& self.page(p)
        &&& !self.nodes[p].leaf
        &&& 0 <= s < self.nodes[p].items.len()
        &&& self.nodes[p].items[s].word == c
    }

    /// An entry of the parent leads to the page.
    pub open spec fn parent_ok(self, p: int, pending: Option<Pending>) -> bool {
        ||| p == 1
        ||| pending matches Some(q) && p == q.right
        ||| exists|s: int| #[trigger] self.slot_of(self.places[p].parent, s, p)
    }

    /// Page `p` has its place.
    pub open spec fn page_ok(self, p: int, pending: Option<Pending>) -> bool {
        let node = self.nodes[p];
        let place = self.places[p];
        &&& node.leaf <==> place.level == 0
        &&& below(place.lo, place.hi)
        &&& self.keys_ok(p)
        &&& self.links_ok(p)
        &&& self.parent_ok(p, pending)
        &&& p != 1 ==> place.level < self.places[1].level
        &&& !node.leaf ==> node.items.len() > 0 && node.items[0].key == place.lo
        &&& !node.leaf ==> forall|s: int|
            0 <= s < node.items.len() ==> #[trigger] self.child_ok(p, s, pending)
    }

    /// The pages form a search tree, but for a split under way.
    pub open spec fn inv(self, pending: Option<Pending>) -> bool {
        &&& self.nodes.len() == self.places.len()
        &&& self.places[1].level + 2 <= self.nodes.len()
        &&& self.places[1].lo == Seq::<u8>::empty()
        &&& self.places[1].hi is None
        &&& forall|p: int| self.page(p) ==> #[trigger] self.page_ok(p, pending)
        &&& pending matches Some(q) ==> {
            &&& 1 < q.left < self.nodes.len()
            &&& 1 < q.right < self.nodes.len()
            &&& q.left != q.right
            &&& self.nodes[q.left].next == q.right
            &&& self.places[q.right].parent == self.places[q.left].parent
        }
    }
}

/// In sorted entries `rank` is the number of those before `k`.
pub proof fn lemma_rank(items: Seq<Item>, k: Seq<u8>, i: int)
    requires
        sorted(items),
        0 <= i <= items.len(),
        forall|j: int| 0 <= j < i ==> key::lt((#[trigger] items[j]).key, k),
        i < items.len() ==> !key::lt(items[i].key, k),
    ensures
        rank(items, k) == i,
{
    broadcast use key::group_key_order;

    lemma_rank_in(items, k, i, items.len() as int);
}

proof fn lemma_rank_in(items: Seq<Item>, k: Seq<u8>, i: int, n: int)
    requires
        sorted(items),
        0 <= i <= n <= items.len(),
        forall|j: int| 0 <= j < i ==> key::lt((#[trigger] items[j]).key, k),
        i < items.len() ==> !key::lt(items[i].key, k),
    ensures
        rank_in(items, k, n) == i,
    decreases n,
{
    broadcast use key::group_key_order;

    if n > i {
        if n - 1 > i {
            assert(key::lt(items[i].key, items[n - 1].key));
        }
        lemma_rank_in(items, k, i, n - 1);
    }
}

/// What `rank` says of sorted entries.
pub proof fn lemma_rank_splits(items: Seq<Item>, k: Seq<u8>)
    requires
        sorted(items),
    ensures
        0 <= rank(items, k) <= items.len(),
        forall|j: int| 0 <= j < rank(items, k) ==> key::lt((#[trigger] items[j]).key, k),
        forall|j: int|
            rank(items, k) <= j < items.len() ==> key::le(k, (#[trigger] items[j]).key),
        !present(items, k) ==> forall|j: int|
            rank(items, k) <= j < items.len() ==> key::lt(k, (#[trigger] items[j]).key),
{
    broadcast use key::group_key_order;

    lemma_rank_splits_in(items, k, items.len() as int);
    let r = rank(items, k);
    if !present(items, k) {
        assert forall|j: int| r <= j < items.len() implies key::lt(
            k,
            (#[trigger] items[j]).key,
        ) by {
            if j > r {
                assert(key::lt(items[r].key, items[j].key));
            }
        }
    }
}

proof fn lemma_rank_splits_in(items: Seq<Item>, k: Seq<u8>, n: int)
    requires
        sorted(items),
        0 <= n <= items.len(),
    ensures
        0 <= rank_in(items, k, n) <= n,
        forall|j: int| 0 <= j < rank_in(items, k, n) ==> key::lt((#[trigger] items[j]).key, k),
        forall|j: int| rank_in(items, k, n) <= j < n ==> key::le(k, (#[trigger] items[j]).key),
    decreases n,
{
    broadcast use key::group_key_order;

    if n > 0 {
        if !key::lt(items[n - 1].key, k) {
            lemma_rank_splits_in(items, k, n - 1);
        }
    }
}

/// A key of the entries is where `rank` says.
pub proof fn lemma_rank_of_key(items: Seq<Item>, i: int)
    requires
        sorted(items),
        0 <= i < items.len(),
    ensures
        rank(items, items[i].key) == i,
        present(items, items[i].key),
{
    broadcast use key::group_key_order;

    lemma_rank(items, items[i].key, i);
}

/// In sorted separators `pick` is the last one that is not after `k`.
pub proof fn lemma_pick(items: Seq<Item>, k: Seq<u8>, i: int)
    requires
        sorted(items),
        0 <= i < items.len(),
        i > 0 ==> key::le(items[i].key, k),
        i + 1 < items.len() ==> key::lt(k, items[i + 1].key),
    ensures
        pick(items, k) == i,
{
    lemma_pick_in(items, k, i, items.len() as int);
}

proof fn lemma_pick_in(items: Seq<Item>, k: Seq<u8>, i: int, n: int)
    requires
        sorted(items),
        0 <= i < n <= items.len(),
        i > 0 ==> key::le(items[i].key, k),
        i + 1 < items.len() ==> key::lt(k, items[i + 1].key),
    ensures
        pick_in(items, k, n) == i,
    decreases n,
{
    broadcast use key::group_key_order;

    if n - 1 > i {
        if n - 1 > i + 1 {
            assert(key::lt(items[i + 1].key, items[n - 1].key));
        }
        lemma_pick_in(items, k, i, n - 1);
    }
}

/// What `pick` says of separators.
pub proof fn lemma_pick_splits(items: Seq<Item>, k: Seq<u8>)
    requires
        items.len() > 0,
    ensures
        0 <= pick(items, k) < items.len(),
        pick(items, k) > 0 ==> key::le(items[pick(items, k)].key, k),
        pick(items, k) + 1 < items.len() ==> key::lt(k, items[pick(items, k) + 1].key),
{
    lemma_pick_splits_in(items, k, items.len() as int);
}

proof fn lemma_pick_splits_in(items: Seq<Item>, k: Seq<u8>, n: int)
    requires
        0 < n <= items.len(),
    ensures
        0 <= pick_in(items, k, n) < n,
        pick_in(items, k, n) > 0 ==> key::le(items[pick_in(items, k, n)].key, k),
        pick_in(items, k, n) + 1 < n ==> key::lt(k, items[pick_in(items, k, n) + 1].key),
    decreases n,
{
    broadcast use key::group_key_order;

    if n > 1 {
        if !key::le(items[n - 1].key, k) {
            lemma_pick_splits_in(items, k, n - 1);
        }
    }
}

/// Along a path the pages cover the key and go down a level at each hop.
pub proof fn lemma_path_covers(
    t: Tree,
    k: Seq<u8>,
    path: Seq<(u32, usize)>,
    leaf: u32,
    i: int,
)
    requires
        t.inv(None),
        leads(t.nodes, k, path, leaf),
        0 <= i <= path.len(),
    ensures
        t.page(stop(path, leaf, i) as int),
        t.covers(stop(path, leaf, i) as int, k),
        t.places[stop(path, leaf, i) as int].level + i == t.places[1].level,
    decreases i,
{
    broadcast use key::group_key_order;

    if i == 0 {
        key::lemma_empty_before(k);
        assert(t.page_ok(1, None));
    } else {
        lemma_path_covers(t, k, path, leaf, i - 1);
        let p = stop(path, leaf, i - 1) as int;
        assert(hop(t.nodes, k, path, leaf, i - 1));
        assert(t.page_ok(p, None));
        let s = path[i - 1].1 as int;
        assert(t.child_ok(p, s, None));
        lemma_pick_splits(t.nodes[p].items, k);
    }
}

/// The path meets every page that covers the key.
pub proof fn lemma_path_meets(
    t: Tree,
    k: Seq<u8>,
    path: Seq<(u32, usize)>,
    leaf: u32,
    i: int,
    q: int,
)
    requires
        t.inv(None),
        leads(t.nodes, k, path, leaf),
        0 <= i <= path.len(),
        t.page(q),
        t.covers(q, k),
        t.places[q].level + i == t.places[1].level,
    ensures
        q == stop(path, leaf, i),
    decreases i,
{
    broadcast use key::group_key_order;

    assert(t.page_ok(q, None));
    if i > 0 {
        let p = t.places[q].parent;
        let s = choose|s: int| #[trigger] t.slot_of(p, s, q);
        assert(t.slot_of(p, s, q));
        assert(t.page_ok(p, None));
        assert(t.child_ok(p, s, None));
        let items = t.nodes[p].items;
        assert(t.covers(p, k)) by {
            assert(t.covers(p, items[s].key));
            if s + 1 < items.len() {
                assert(t.covers(p, items[s + 1].key));
            }
        }
        lemma_path_meets(t, k, path, leaf, i - 1, p);
        assert(hop(t.nodes, k, path, leaf, i - 1));
        lemma_pick(items, k, s);
    }
}

/// A key is in the tree if it is on the leaf that its path leads to, and on
/// no other.
pub proof fn lemma_found(
    t: Tree,
    k: Seq<u8>,
    path: Seq<(u32, usize)>,
    leaf: u32,
)
    requires
        t.inv(None),
        leads(t.nodes, k, path, leaf),
        t.nodes[leaf as int].leaf,
    ensures
        t.page(leaf as int),
        t.covers(leaf as int, k),
        path.len() == t.places[1].level,
        forall|v: Seq<u8>| #[trigger]
            has(t.nodes, k, v) <==> present(t.nodes[leaf as int].items, k) && t.nodes[leaf as int].items[rank(
                t.nodes[leaf as int].items,
                k,
            )].val == v,
{
    lemma_path_covers(t, k, path, leaf, path.len() as int);
    assert(t.page_ok(leaf as int, None));
    let items = t.nodes[leaf as int].items;
    lemma_rank_splits(items, k);
    assert forall|v: Seq<u8>| #[trigger]
        has(t.nodes, k, v) <==> present(items, k) && items[rank(items, k)].val == v by {
        if has(t.nodes, k, v) {
            let (p, i) = choose|p: int, i: int| #[trigger] holds(t.nodes, p, i, k, v);
            assert(t.page_ok(p, None));
            assert(t.covers(p, t.nodes[p].items[i].key));
            lemma_path_meets(t, k, path, leaf, path.len() as int, p);
            lemma_rank_of_key(items, i);
        }
        if present(items, k) && items[rank(items, k)].val == v {
            assert(holds(t.nodes, leaf as int, rank(items, k), k, v));
        }
    }
}

} // verus!
