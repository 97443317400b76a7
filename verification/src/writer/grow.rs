//! How the tree changes, and that it stays a tree.

use crate::key;
use crate::writer::model::Item;
use crate::writer::tree;
use crate::writer::tree::{Node, Pending, Place, Tree};
use vstd::prelude::*;

verus! {

/// The nodes with other entries on page `p`.
pub open spec fn with_items(nodes: Seq<Node>, p: int, items: Seq<Item>) -> Seq<Node> {
    nodes.update(p, Node { items, ..nodes[p] })
}

/// Sorted entries stay sorted when one goes where it belongs.
pub proof fn lemma_sorted_insert(items: Seq<Item>, idx: int, item: Item)
    requires
        tree::sorted(items),
        0 <= idx <= items.len(),
        forall|j: int| 0 <= j < idx ==> key::lt((#[trigger] items[j]).key, item.key),
        forall|j: int| idx <= j < items.len() ==> key::lt(item.key, (#[trigger] items[j]).key),
    ensures
        tree::sorted(items.insert(idx, item)),
{
    let after = items.insert(idx, item);
    assert forall|i: int, j: int| 0 <= i < j < after.len() implies key::lt(
        (#[trigger] after[i]).key,
        (#[trigger] after[j]).key,
    ) by {
        let i0 = if i < idx {
            i
        } else {
            i - 1
        };
        let j0 = if j < idx {
            j
        } else {
            j - 1
        };
        if i != idx {
            assert(after[i] == items[i0]);
        }
        if j != idx {
            assert(after[j] == items[j0]);
        }
    }
}

/// A pair may go to the leaf that covers its key.
pub proof fn lemma_insert_leaf(t: Tree, p: int, item: Item)
    requires
        t.inv(None),
        t.page(p),
        t.nodes[p].leaf,
        t.covers(p, item.key),
        !tree::present(t.nodes[p].items, item.key),
    ensures
        ({
            let idx = tree::rank(t.nodes[p].items, item.key);
            let nodes = with_items(t.nodes, p, t.nodes[p].items.insert(idx, item));
            &&& 0 <= idx <= t.nodes[p].items.len()
            &&& (Tree { nodes, places: t.places }).inv(None)
            &&& forall|k: Seq<u8>, v: Seq<u8>| #[trigger]
                tree::has(nodes, k, v) <==> tree::has(t.nodes, k, v) || (k == item.key && v
                    == item.val)
        }),
{
    let items = t.nodes[p].items;
    let idx = tree::rank(items, item.key);
    let after = items.insert(idx, item);
    let nodes = with_items(t.nodes, p, after);
    let u = Tree { nodes, places: t.places };
    assert(t.page_ok(p, None));
    tree::lemma_rank_splits(items, item.key);
    lemma_sorted_insert(items, idx, item);
    assert forall|q: int| u.page(q) implies #[trigger] u.page_ok(q, None) by {
        assert(t.page_ok(q, None));
        lemma_same_parent(t, u, q, None, None);
        if q == p {
            assert forall|i: int| 0 <= i < after.len() implies u.covers(
                p,
                (#[trigger] after[i]).key,
            ) by {
                if i < idx {
                    assert(after[i] == items[i]);
                } else if i > idx {
                    assert(after[i] == items[i - 1]);
                }
            }
        } else if !u.nodes[q].leaf {
            assert forall|s: int| 0 <= s < u.nodes[q].items.len() implies #[trigger] u.child_ok(
                q,
                s,
                None,
            ) by {
                assert(t.child_ok(q, s, None));
            }
        }
    }
    assert forall|k: Seq<u8>, v: Seq<u8>| #[trigger]
        tree::has(nodes, k, v) <==> tree::has(t.nodes, k, v) || (k == item.key && v
            == item.val) by {
        if tree::has(nodes, k, v) {
            let (q, i) = choose|q: int, i: int| #[trigger] tree::holds(nodes, q, i, k, v);
            if q != p {
                assert(tree::holds(t.nodes, q, i, k, v));
            } else if i < idx {
                assert(tree::holds(t.nodes, q, i, k, v));
            } else if i > idx {
                assert(tree::holds(t.nodes, q, i - 1, k, v));
            }
        }
        if tree::has(t.nodes, k, v) {
            let (q, i) = choose|q: int, i: int| #[trigger] tree::holds(t.nodes, q, i, k, v);
            if q == p && i >= idx {
                assert(tree::holds(nodes, q, i + 1, k, v));
            } else {
                assert(tree::holds(nodes, q, i, k, v));
            }
        }
        if k == item.key && v == item.val {
            assert(tree::holds(nodes, p, idx, k, v));
        }
    }
}

/// A page whose parent keeps its entries keeps its parent.
proof fn lemma_same_parent(t: Tree, u: Tree, q: int, before: Option<Pending>, after: Option<Pending>)
    requires
        t.parent_ok(q, before),
        before == after,
        u.nodes.len() >= t.nodes.len(),
        u.places[q].parent == t.places[q].parent,
        t.page(t.places[q].parent) && !t.nodes[t.places[q].parent].leaf ==> u.nodes[t.places[q].parent]
            == t.nodes[t.places[q].parent],
    ensures
        u.parent_ok(q, after),
{
    if exists|s: int| #[trigger] t.slot_of(t.places[q].parent, s, q) {
        let s = choose|s: int| #[trigger] t.slot_of(t.places[q].parent, s, q);
        assert(u.slot_of(u.places[q].parent, s, q));
    }
}

/// A pair may go from the leaf that has it.
pub proof fn lemma_remove_leaf(t: Tree, p: int, idx: int)
    requires
        t.inv(None),
        t.page(p),
        t.nodes[p].leaf,
        0 <= idx < t.nodes[p].items.len(),
        forall|q: int, i: int, v: Seq<u8>|
            #[trigger] tree::holds(t.nodes, q, i, t.nodes[p].items[idx].key, v) ==> q == p && i
                == idx,
    ensures
        ({
            let nodes = with_items(t.nodes, p, t.nodes[p].items.remove(idx));
            &&& (Tree { nodes, places: t.places }).inv(None)
            &&& forall|k: Seq<u8>, v: Seq<u8>| #[trigger]
                tree::has(nodes, k, v) <==> tree::has(t.nodes, k, v) && k
                    != t.nodes[p].items[idx].key
        }),
{
    let items = t.nodes[p].items;
    let gone = items[idx].key;
    let after = items.remove(idx);
    let nodes = with_items(t.nodes, p, after);
    let u = Tree { nodes, places: t.places };
    let source = |i: int|
        if i < idx {
            i
        } else {
            i + 1
        };
    assert(t.page_ok(p, None));
    assert forall|i: int| 0 <= i < after.len() implies #[trigger] after[i] == items[source(i)] by {}
    assert(tree::sorted(after)) by {
        assert forall|i: int, j: int| 0 <= i < j < after.len() implies key::lt(
            (#[trigger] after[i]).key,
            (#[trigger] after[j]).key,
        ) by {
            assert(after[i] == items[source(i)]);
            assert(after[j] == items[source(j)]);
        }
    }
    assert forall|q: int| u.page(q) implies #[trigger] u.page_ok(q, None) by {
        assert(t.page_ok(q, None));
        lemma_same_parent(t, u, q, None, None);
        if q == p {
            assert forall|i: int| 0 <= i < after.len() implies u.covers(
                p,
                (#[trigger] after[i]).key,
            ) by {
                assert(after[i] == items[source(i)]);
            }
        } else if !u.nodes[q].leaf {
            assert forall|s: int| 0 <= s < u.nodes[q].items.len() implies #[trigger] u.child_ok(
                q,
                s,
                None,
            ) by {
                assert(t.child_ok(q, s, None));
            }
        }
    }
    assert forall|k: Seq<u8>, v: Seq<u8>| #[trigger]
        tree::has(nodes, k, v) <==> tree::has(t.nodes, k, v) && k != gone by {
        if tree::has(nodes, k, v) {
            let (q, i) = choose|q: int, i: int| #[trigger] tree::holds(nodes, q, i, k, v);
            let i0 = if q == p {
                source(i)
            } else {
                i
            };
            assert(tree::holds(t.nodes, q, i0, k, v));
        }
        if tree::has(t.nodes, k, v) && k != gone {
            let (q, i) = choose|q: int, i: int| #[trigger] tree::holds(t.nodes, q, i, k, v);
            if q == p && i > idx {
                assert(tree::holds(nodes, q, i - 1, k, v));
            } else {
                assert(tree::holds(nodes, q, i, k, v));
            }
        }
    }
}

/// The parent learns of a split: the separator of the right page goes after
/// that of the left one.
pub proof fn lemma_insert_separator(t: Tree, split: Pending, p: int, s: int)
    requires
        t.inv(Some(split)),
        t.slot_of(p, s, split.left),
    ensures
        ({
            let item = Item {
                key: t.places[split.right].lo,
                word: split.right as u32,
                val: Seq::empty(),
            };
            let nodes = with_items(t.nodes, p, t.nodes[p].items.insert(s + 1, item));
            split.right <= u32::MAX ==> {
                &&& (Tree { nodes, places: t.places }).inv(None)
                &&& forall|k: Seq<u8>, v: Seq<u8>| #[trigger]
                    tree::has(nodes, k, v) <==> tree::has(t.nodes, k, v)
            }
        }),
{
    broadcast use key::group_key_order;

    let pending = Some(split);
    let items = t.nodes[p].items;
    let item = Item { key: t.places[split.right].lo, word: split.right as u32, val: Seq::empty() };
    let after = items.insert(s + 1, item);
    let nodes = with_items(t.nodes, p, after);
    let u = Tree { nodes, places: t.places };
    let (left, right) = (split.left, split.right);
    assert(t.page_ok(p, pending));
    assert(t.page_ok(left, pending));
    assert(t.page_ok(right, pending));
    assert(t.child_ok(p, s, pending));
    if split.right <= u32::MAX {
        // the separator goes between its neighbours
        assert(key::lt(items[s].key, item.key));
        assert(s + 1 < items.len() ==> key::lt(item.key, items[s + 1].key));
        assert forall|j: int| 0 <= j < s + 1 implies key::lt((#[trigger] items[j]).key, item.key) by {
            if j < s {
                assert(key::lt(items[j].key, items[s].key));
            }
        }
        assert forall|j: int| s + 1 <= j < items.len() implies key::lt(
            item.key,
            (#[trigger] items[j]).key,
        ) by {
            if j > s + 1 {
                assert(key::lt(items[s + 1].key, items[j].key));
            }
        }
        lemma_sorted_insert(items, s + 1, item);
        assert(t.covers(p, items[s].key));
        assert(u.covers(p, item.key)) by {
            if s + 1 < items.len() {
                assert(t.covers(p, items[s + 1].key));
            }
        }
        assert forall|q: int| u.page(q) implies #[trigger] u.page_ok(q, None) by {
            assert(t.page_ok(q, pending));
            if q == right {
                assert(u.slot_of(p, s + 1, right));
            } else if q != 1 {
                let pq = t.places[q].parent;
                let sq = choose|sq: int| #[trigger] t.slot_of(pq, sq, q);
                assert(t.slot_of(pq, sq, q));
                if pq == p && sq >= s + 1 {
                    assert(u.slot_of(pq, sq + 1, q));
                } else {
                    assert(u.slot_of(pq, sq, q));
                }
            }
            if q == p {
                assert forall|i: int| 0 <= i < after.len() implies u.covers(
                    p,
                    (#[trigger] after[i]).key,
                ) by {
                    if i < s + 1 {
                        assert(after[i] == items[i]);
                    } else if i > s + 1 {
                        assert(after[i] == items[i - 1]);
                    }
                }
                assert forall|i: int| 0 <= i < after.len() implies #[trigger] u.child_ok(
                    p,
                    i,
                    None,
                ) by {
                    if i < s {
                        assert(t.child_ok(p, i, pending));
                        assert(after[i] == items[i] && after[i + 1] == items[i + 1]);
                        if items[i].word == left {
                            assert(key::lt(items[i].key, items[s].key));
                        }
                    } else if i == s {
                        assert(after[i] == items[i] && after[i + 1] == item);
                    } else if i == s + 1 {
                        assert(i + 1 < after.len() ==> after[i + 1] == items[s + 1]);
                    } else {
                        assert(t.child_ok(p, i - 1, pending));
                        assert(after[i] == items[i - 1]);
                        assert(i + 1 < after.len() ==> after[i + 1] == items[i]);
                        if items[i - 1].word == left {
                            assert(key::lt(items[s].key, items[i - 1].key));
                        }
                    }
                }
            } else if !u.nodes[q].leaf {
                assert forall|i: int| 0 <= i < u.nodes[q].items.len() implies #[trigger] u.child_ok(
                    q,
                    i,
                    None,
                ) by {
                    assert(t.child_ok(q, i, pending));
                }
            }
        }
        assert forall|k: Seq<u8>, v: Seq<u8>| #[trigger]
            tree::has(nodes, k, v) <==> tree::has(t.nodes, k, v) by {
            lemma_has_same(t.nodes, nodes, k, v);
            lemma_has_same(nodes, t.nodes, k, v);
        }
    }
}

/// Pairs stay where the leaves do.
proof fn lemma_has_same(a: Seq<Node>, b: Seq<Node>, k: Seq<u8>, v: Seq<u8>)
    requires
        forall|p: int|
            1 <= p < a.len() && (#[trigger] a[p]).leaf ==> p < b.len() && b[p].leaf && b[p].items
                == a[p].items,
    ensures
        tree::has(a, k, v) ==> tree::has(b, k, v),
{
    if tree::has(a, k, v) {
        let (p, i) = choose|p: int, i: int| #[trigger] tree::holds(a, p, i, k, v);
        assert(a[p].leaf);
        assert(tree::holds(b, p, i, k, v));
    }
}

/// Where the entries of page `p` may be parted: `sep` is after all of the
/// first `m` entries and not after the others.  On an internal page it is
/// the first of these.
pub open spec fn parts(node: Node, m: int, sep: Seq<u8>) -> bool {
    &&& 0 < m < node.items.len()
    &&& key::lt(node.items[m - 1].key, sep)
    &&& key::le(sep, node.items[m].key)
    &&& !node.leaf ==> sep == node.items[m].key
}

/// The nodes once the entries of page `p` from `m` on are on a new page to
/// its right.
pub open spec fn split_nodes(nodes: Seq<Node>, p: int, m: int) -> Seq<Node> {
    let node = nodes[p];
    let r = nodes.len() as u32;
    let parted = nodes.update(p, Node { next: r, items: node.items.take(m), ..node }).push(
        Node { prev: p as u32, next: node.next, leaf: node.leaf, items: node.items.skip(m) },
    );
    if node.next == 0 {
        parted
    } else {
        parted.update(node.next as int, Node { prev: r, ..parted[node.next as int] })
    }
}

/// The places that go with [`split_nodes`].
pub open spec fn split_places(t: Tree, p: int, sep: Seq<u8>) -> Seq<Place> {
    let r = t.nodes.len() as int;
    Seq::new(
        (r + 1) as nat,
        |q: int|
            if q == r {
                Place { lo: sep, ..t.places[p] }
            } else if q == p {
                Place { hi: Some(sep), ..t.places[p] }
            } else if !t.nodes[p].leaf && t.places[q].parent == p && key::le(sep, t.places[q].lo) {
                Place { parent: r, ..t.places[q] }
            } else {
                t.places[q]
            },
    )
}

/// The keys of the two halves of a page.
proof fn lemma_parts(t: Tree, p: int, m: int, sep: Seq<u8>)
    requires
        t.page(p),
        t.keys_ok(p),
        parts(t.nodes[p], m, sep),
    ensures
        tree::sorted(t.nodes[p].items.take(m)),
        tree::sorted(t.nodes[p].items.skip(m)),
        forall|i: int| 0 <= i < m ==> key::lt((#[trigger] t.nodes[p].items[i]).key, sep),
        forall|i: int|
            m <= i < t.nodes[p].items.len() ==> key::le(sep, (#[trigger] t.nodes[p].items[i]).key),
        key::lt(t.places[p].lo, sep),
        tree::below(sep, t.places[p].hi),
        sep.len() > 0,
{
    broadcast use key::group_key_order;

    let items = t.nodes[p].items;
    let left = items.take(m);
    let right = items.skip(m);
    assert(t.covers(p, items[m - 1].key));
    assert(t.covers(p, items[m].key));
    key::lemma_empty_is_first(items[m - 1].key, sep);
    assert forall|i: int| 0 <= i < m implies key::lt((#[trigger] items[i]).key, sep) by {
        if i < m - 1 {
            assert(key::lt(items[i].key, items[m - 1].key));
        }
    }
    assert forall|i: int| m <= i < items.len() implies key::le(sep, (#[trigger] items[i]).key) by {
        if i > m {
            assert(key::lt(items[m].key, items[i].key));
        }
    }
    assert forall|i: int, j: int| 0 <= i < j < right.len() implies key::lt(
        (#[trigger] right[i]).key,
        (#[trigger] right[j]).key,
    ) by {
        assert(right[i] == items[m + i] && right[j] == items[m + j]);
    }
}

/// A page may be split where its entries part.
#[verifier::rlimit(40)]
pub proof fn lemma_split(t: Tree, p: int, m: int, sep: Seq<u8>)
    requires
        t.inv(None),
        1 < p < t.nodes.len(),
        t.nodes.len() <= u32::MAX,
        parts(t.nodes[p], m, sep),
    ensures
        ({
            let nodes = split_nodes(t.nodes, p, m);
            &&& (Tree { nodes, places: split_places(t, p, sep) }).inv(
                Some(Pending { left: p, right: t.nodes.len() as int }),
            )
            &&& forall|k: Seq<u8>, v: Seq<u8>| #[trigger]
                tree::has(nodes, k, v) <==> tree::has(t.nodes, k, v)
        }),
{
    let nodes = split_nodes(t.nodes, p, m);
    let places = split_places(t, p, sep);
    let u = Tree { nodes, places };
    let r = t.nodes.len() as int;
    let pending = Some(Pending { left: p, right: r });
    let node = t.nodes[p];
    let items = node.items;
    let next = node.next as int;
    assert(t.page_ok(p, None));
    assert(next != 0 ==> t.page_ok(next, None));
    lemma_parts(t, p, m, sep);
    assert(next != p) by {
        broadcast use key::group_key_order;

    }
    assert(u.nodes[p].items =~= items.take(m));
    assert(u.nodes[r].items =~= items.skip(m));
    assert forall|q: int| 1 <= q < r && q != p implies (#[trigger] u.nodes[q]).items
        == t.nodes[q].items && u.nodes[q].leaf == t.nodes[q].leaf && u.nodes[q].next
        == t.nodes[q].next by {}
    assert forall|q: int| u.page(q) implies #[trigger] u.page_ok(q, pending) by {
        if q == r {
            lemma_split_right(t, p, m, sep);
        } else if q == p {
            lemma_split_left(t, p, m, sep);
        } else {
            lemma_split_other(t, p, m, sep, q);
        }
    }
    assert forall|k: Seq<u8>, v: Seq<u8>| #[trigger]
        tree::has(nodes, k, v) <==> tree::has(t.nodes, k, v) by {
        if tree::has(nodes, k, v) {
            let (q, i) = choose|q: int, i: int| #[trigger] tree::holds(nodes, q, i, k, v);
            if q == r {
                assert(tree::holds(t.nodes, p, m + i, k, v));
            } else {
                assert(tree::holds(t.nodes, q, i, k, v));
            }
        }
        if tree::has(t.nodes, k, v) {
            let (q, i) = choose|q: int, i: int| #[trigger] tree::holds(t.nodes, q, i, k, v);
            if q == p && i >= m {
                assert(tree::holds(nodes, r, i - m, k, v));
            } else {
                assert(tree::holds(nodes, q, i, k, v));
            }
        }
    }
}

/// The right half has its place.
proof fn lemma_split_right(t: Tree, p: int, m: int, sep: Seq<u8>)
    requires
        t.inv(None),
        1 < p < t.nodes.len(),
        t.nodes.len() <= u32::MAX,
        parts(t.nodes[p], m, sep),
    ensures
        (Tree { nodes: split_nodes(t.nodes, p, m), places: split_places(t, p, sep) }).page_ok(
            t.nodes.len() as int,
            Some(Pending { left: p, right: t.nodes.len() as int }),
        ),
{
    broadcast use key::group_key_order;

    let u = Tree { nodes: split_nodes(t.nodes, p, m), places: split_places(t, p, sep) };
    let r = t.nodes.len() as int;
    let pending = Some(Pending { left: p, right: r });
    let items = t.nodes[p].items;
    let right = items.skip(m);
    let next = t.nodes[p].next as int;
    assert(t.page_ok(p, None));
    assert(next != 0 ==> t.page_ok(next, None));
    lemma_parts(t, p, m, sep);
    assert(next != p);
    assert(u.nodes[r].items =~= right);
    assert forall|i: int| 0 <= i < right.len() implies u.covers(r, (#[trigger] right[i]).key) by {
        assert(right[i] == items[m + i]);
        assert(t.covers(p, items[m + i].key));
    }
    assert(u.links_ok(r));
    if !t.nodes[p].leaf {
        assert(right[0] == items[m]);
        assert forall|s: int| 0 <= s < right.len() implies #[trigger] u.child_ok(r, s, pending) by {
            assert(t.child_ok(p, m + s, None));
            assert(right[s] == items[m + s]);
            assert(s + 1 < right.len() ==> right[s + 1] == items[m + s + 1]);
        }
    }
}

/// The left half has its place.
proof fn lemma_split_left(t: Tree, p: int, m: int, sep: Seq<u8>)
    requires
        t.inv(None),
        1 < p < t.nodes.len(),
        t.nodes.len() <= u32::MAX,
        parts(t.nodes[p], m, sep),
    ensures
        (Tree { nodes: split_nodes(t.nodes, p, m), places: split_places(t, p, sep) }).page_ok(
            p,
            Some(Pending { left: p, right: t.nodes.len() as int }),
        ),
{
    broadcast use key::group_key_order;

    let u = Tree { nodes: split_nodes(t.nodes, p, m), places: split_places(t, p, sep) };
    let r = t.nodes.len() as int;
    let pending = Some(Pending { left: p, right: r });
    let items = t.nodes[p].items;
    let left = items.take(m);
    let next = t.nodes[p].next as int;
    let prev = t.nodes[p].prev as int;
    assert(t.page_ok(p, None));
    assert(next != 0 ==> t.page_ok(next, None));
    lemma_parts(t, p, m, sep);
    assert(next != p);
    assert(u.nodes[p].items =~= left);
    assert forall|i: int| 0 <= i < left.len() implies u.covers(p, (#[trigger] left[i]).key) by {
        assert(left[i] == items[i]);
        assert(t.covers(p, items[i].key));
    }
    assert(u.links_ok(p)) by {
        if prev != 0 {
            assert(t.page_ok(prev, None));
        }
    }
    let pp = t.places[p].parent;
    let sp = choose|sp: int| #[trigger] t.slot_of(pp, sp, p);
    assert(t.slot_of(pp, sp, p));
    assert(t.page_ok(pp, None));
    assert(t.child_ok(pp, sp, None));
    assert(pp != p);
    assert(u.slot_of(u.places[p].parent, sp, p));
    if !t.nodes[p].leaf {
        assert forall|s: int| 0 <= s < left.len() implies #[trigger] u.child_ok(p, s, pending) by {
            assert(t.child_ok(p, s, None));
            assert(left[s] == items[s]);
            assert(s + 1 < left.len() ==> left[s + 1] == items[s + 1]);
        }
    }
}

/// The other pages keep their places.
proof fn lemma_split_other(t: Tree, p: int, m: int, sep: Seq<u8>, q: int)
    requires
        t.inv(None),
        1 < p < t.nodes.len(),
        t.nodes.len() <= u32::MAX,
        parts(t.nodes[p], m, sep),
        t.page(q),
        q != p,
    ensures
        (Tree { nodes: split_nodes(t.nodes, p, m), places: split_places(t, p, sep) }).page_ok(
            q,
            Some(Pending { left: p, right: t.nodes.len() as int }),
        ),
{
    broadcast use key::group_key_order;

    let u = Tree { nodes: split_nodes(t.nodes, p, m), places: split_places(t, p, sep) };
    let r = t.nodes.len() as int;
    let pending = Some(Pending { left: p, right: r });
    let next = t.nodes[p].next as int;
    assert(t.page_ok(p, None));
    assert(t.page_ok(q, None));
    assert(next != 0 ==> t.page_ok(next, None));
    lemma_parts(t, p, m, sep);
    assert(next != p);
    assert(u.nodes[q].items == t.nodes[q].items && u.nodes[q].leaf == t.nodes[q].leaf
        && u.nodes[q].next == t.nodes[q].next);
    assert(u.places[q].level == t.places[q].level && u.places[q].lo == t.places[q].lo
        && u.places[q].hi == t.places[q].hi);
    assert(u.keys_ok(q)) by {
        assert forall|i: int| 0 <= i < u.nodes[q].items.len() implies u.covers(
            q,
            (#[trigger] u.nodes[q].items[i]).key,
        ) by {
            assert(t.covers(q, t.nodes[q].items[i].key));
        }
    }
    assert(u.links_ok(q)) by {
        let qn = t.nodes[q].next as int;
        let qp = t.nodes[q].prev as int;
        if qn != 0 {
            assert(t.page_ok(qn, None));
        }
        if qp != 0 {
            assert(t.page_ok(qp, None));
        }
    }
    if q != 1 {
        let pq = t.places[q].parent;
        let sq = choose|sq: int| #[trigger] t.slot_of(pq, sq, q);
        assert(t.slot_of(pq, sq, q));
        assert(t.page_ok(pq, None));
        assert(t.child_ok(pq, sq, None));
        if pq == p {
            if sq >= m {
                assert(u.nodes[r].items[sq - m] == t.nodes[p].items[sq]);
                assert(u.slot_of(u.places[q].parent, sq - m, q));
            } else {
                assert(u.slot_of(u.places[q].parent, sq, q));
            }
        } else {
            assert(u.slot_of(u.places[q].parent, sq, q));
        }
    }
    if !t.nodes[q].leaf {
        assert forall|s: int| 0 <= s < u.nodes[q].items.len() implies #[trigger] u.child_ok(
            q,
            s,
            pending,
        ) by {
            assert(t.child_ok(q, s, None));
        }
    }
}

/// The nodes once the entries of the root have moved to two new pages and
/// the root is an internal page with just these two as children.
pub open spec fn split_root_nodes(nodes: Seq<Node>, m: int, sep: Seq<u8>) -> Seq<Node> {
    let node = nodes[1];
    let l = nodes.len() as u32;
    let r = (nodes.len() + 1) as u32;
    nodes.update(
        1,
        Node {
            leaf: false,
            items: seq![
                Item { key: Seq::empty(), word: l, val: Seq::empty() },
                Item { key: sep, word: r, val: Seq::empty() },
            ],
            ..node
        },
    ).push(Node { prev: 0, next: r, leaf: node.leaf, items: node.items.take(m) }).push(
        Node { prev: l, next: 0, leaf: node.leaf, items: node.items.skip(m) },
    )
}

/// The places that go with [`split_root_nodes`].
pub open spec fn split_root_places(t: Tree, sep: Seq<u8>) -> Seq<Place> {
    let l = t.nodes.len() as int;
    let r = l + 1;
    Seq::new(
        (l + 2) as nat,
        |q: int|
            if q == 1 {
                Place { level: t.places[1].level + 1, ..t.places[1] }
            } else if q == l {
                Place { level: t.places[1].level, lo: Seq::empty(), hi: Some(sep), parent: 1 }
            } else if q == r {
                Place { level: t.places[1].level, lo: sep, hi: None, parent: 1 }
            } else if t.places[q].parent == 1 {
                Place {
                    parent: if key::le(sep, t.places[q].lo) {
                        r
                    } else {
                        l
                    },
                    ..t.places[q]
                }
            } else {
                t.places[q]
            },
    )
}

/// The root may be split where its entries part.
pub proof fn lemma_split_root(t: Tree, m: int, sep: Seq<u8>)
    requires
        t.inv(None),
        t.nodes.len() + 1 <= u32::MAX,
        parts(t.nodes[1], m, sep),
    ensures
        ({
            let nodes = split_root_nodes(t.nodes, m, sep);
            &&& (Tree { nodes, places: split_root_places(t, sep) }).inv(None)
            &&& forall|k: Seq<u8>, v: Seq<u8>| #[trigger]
                tree::has(nodes, k, v) <==> tree::has(t.nodes, k, v)
        }),
{
    let nodes = split_root_nodes(t.nodes, m, sep);
    let u = Tree { nodes, places: split_root_places(t, sep) };
    let l = t.nodes.len() as int;
    let r = l + 1;
    let items = t.nodes[1].items;
    assert(t.page_ok(1, None));
    assert(u.nodes[l].items =~= items.take(m));
    assert(u.nodes[r].items =~= items.skip(m));
    assert forall|q: int| u.page(q) implies #[trigger] u.page_ok(q, None) by {
        if q == 1 || q == l || q == r {
            lemma_split_root_new(t, m, sep);
        } else {
            lemma_split_root_other(t, m, sep, q);
        }
    }
    assert forall|k: Seq<u8>, v: Seq<u8>| #[trigger]
        tree::has(nodes, k, v) <==> tree::has(t.nodes, k, v) by {
        if tree::has(nodes, k, v) {
            let (q, i) = choose|q: int, i: int| #[trigger] tree::holds(nodes, q, i, k, v);
            if q == l {
                assert(tree::holds(t.nodes, 1, i, k, v));
            } else if q == r {
                assert(tree::holds(t.nodes, 1, m + i, k, v));
            } else {
                assert(tree::holds(t.nodes, q, i, k, v));
            }
        }
        if tree::has(t.nodes, k, v) {
            let (q, i) = choose|q: int, i: int| #[trigger] tree::holds(t.nodes, q, i, k, v);
            if q == 1 && i < m {
                assert(tree::holds(nodes, l, i, k, v));
            } else if q == 1 {
                assert(tree::holds(nodes, r, i - m, k, v));
            } else {
                assert(tree::holds(nodes, q, i, k, v));
            }
        }
    }
}

/// The new root and its children have their places.
proof fn lemma_split_root_new(t: Tree, m: int, sep: Seq<u8>)
    requires
        t.inv(None),
        t.nodes.len() + 1 <= u32::MAX,
        parts(t.nodes[1], m, sep),
    ensures
        ({
            let u = Tree {
                nodes: split_root_nodes(t.nodes, m, sep),
                places: split_root_places(t, sep),
            };
            &&& u.page_ok(1, None)
            &&& u.page_ok(t.nodes.len() as int, None)
            &&& u.page_ok(t.nodes.len() as int + 1, None)
        }),
{
    broadcast use key::group_key_order;

    let u = Tree { nodes: split_root_nodes(t.nodes, m, sep), places: split_root_places(t, sep) };
    let l = t.nodes.len() as int;
    let r = l + 1;
    let items = t.nodes[1].items;
    let left = items.take(m);
    let right = items.skip(m);
    assert(t.page_ok(1, None));
    lemma_parts(t, 1, m, sep);
    assert(u.nodes[l].items =~= left);
    assert(u.nodes[r].items =~= right);
    let pair = u.nodes[1].items;
    assert(pair.len() == 2 && pair[0].word == l && pair[1].word == r);
    assert(u.page_ok(1, None)) by {
        assert forall|i: int| 0 <= i < pair.len() implies u.covers(1, (#[trigger] pair[i]).key) by {
            key::lemma_empty_before(pair[i].key);
        }
        assert(u.child_ok(1, 0, None));
        assert(u.child_ok(1, 1, None));
    }
    assert(u.slot_of(u.places[l].parent, 0, l));
    assert(u.slot_of(u.places[r].parent, 1, r));
    assert(u.page_ok(l, None)) by {
        assert forall|i: int| 0 <= i < left.len() implies u.covers(l, (#[trigger] left[i]).key) by {
            assert(left[i] == items[i]);
            assert(t.covers(1, items[i].key));
        }
        if !t.nodes[1].leaf {
            assert forall|s: int| 0 <= s < left.len() implies #[trigger] u.child_ok(
                l,
                s,
                None,
            ) by {
                assert(t.child_ok(1, s, None));
                assert(left[s] == items[s]);
                assert(s + 1 < left.len() ==> left[s + 1] == items[s + 1]);
            }
        }
    }
    assert(u.page_ok(r, None)) by {
        assert forall|i: int| 0 <= i < right.len() implies u.covers(
            r,
            (#[trigger] right[i]).key,
        ) by {
            assert(right[i] == items[m + i]);
            assert(t.covers(1, items[m + i].key));
        }
        if !t.nodes[1].leaf {
            assert(right[0] == items[m]);
            assert forall|s: int| 0 <= s < right.len() implies #[trigger] u.child_ok(
                r,
                s,
                None,
            ) by {
                assert(t.child_ok(1, m + s, None));
                assert(right[s] == items[m + s]);
                assert(s + 1 < right.len() ==> right[s + 1] == items[m + s + 1]);
            }
        }
    }
}

/// The other pages keep their places.
proof fn lemma_split_root_other(t: Tree, m: int, sep: Seq<u8>, q: int)
    requires
        t.inv(None),
        t.nodes.len() + 1 <= u32::MAX,
        parts(t.nodes[1], m, sep),
        1 < q < t.nodes.len(),
    ensures
        (Tree { nodes: split_root_nodes(t.nodes, m, sep), places: split_root_places(t, sep) }).page_ok(
            q,
            None,
        ),
{
    broadcast use key::group_key_order;

    let u = Tree { nodes: split_root_nodes(t.nodes, m, sep), places: split_root_places(t, sep) };
    let l = t.nodes.len() as int;
    let r = l + 1;
    assert(t.page_ok(1, None));
    assert(t.page_ok(q, None));
    lemma_parts(t, 1, m, sep);
    assert(u.nodes[q] == t.nodes[q]);
    assert(u.keys_ok(q)) by {
        assert forall|i: int| 0 <= i < u.nodes[q].items.len() implies u.covers(
            q,
            (#[trigger] u.nodes[q].items[i]).key,
        ) by {
            assert(t.covers(q, t.nodes[q].items[i].key));
        }
    }
    let pq = t.places[q].parent;
    let sq = choose|sq: int| #[trigger] t.slot_of(pq, sq, q);
    assert(t.slot_of(pq, sq, q));
    assert(t.page_ok(pq, None));
    assert(t.child_ok(pq, sq, None));
    if pq == 1 {
        if sq >= m {
            assert(u.nodes[r].items[sq - m] == t.nodes[1].items[sq]);
            assert(u.slot_of(u.places[q].parent, sq - m, q));
        } else {
            assert(u.nodes[l].items[sq] == t.nodes[1].items[sq]);
            assert(u.slot_of(u.places[q].parent, sq, q));
        }
    } else {
        assert(u.slot_of(u.places[q].parent, sq, q));
    }
    if !t.nodes[q].leaf {
        assert forall|s: int| 0 <= s < u.nodes[q].items.len() implies #[trigger] u.child_ok(
            q,
            s,
            None,
        ) by {
            assert(t.child_ok(q, s, None));
        }
    }
}

} // verus!
