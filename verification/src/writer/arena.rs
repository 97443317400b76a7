//! The pages as a whole: which pairs they hold, and what insertion and
//! removal make of them.

use crate::format::{P_BLEAF, P_ROOT};
use crate::writer::climb;
use crate::writer::climb::Climb;
use crate::writer::grow;
use crate::writer::layout;
use crate::writer::model;
use crate::writer::model::{Item, Page};
use crate::writer::tree;
use crate::writer::tree::{Node, Place, Tree};
use vstd::prelude::*;

verus! {

/// The pages form a search tree, each in its place.
pub open spec fn placed(pages: Seq<Page>, places: Seq<Place>) -> bool {
    (Tree { nodes: layout::nodes(pages), places }).inv(None)
}

/// Every page is sound, and together they form a search tree.
pub open spec fn valid(pages: Seq<Page>) -> bool {
    &&& 2 <= pages.len()
    &&& layout::pages_ok(pages)
    &&& exists|places: Seq<Place>| placed(pages, places)
}

/// The pairs on the leaves.
pub open spec fn contents(pages: Seq<Page>) -> Map<Seq<u8>, Seq<u8>> {
    tree::contents(layout::nodes(pages))
}

/// The hops from page `p` to the leaf in which `k` belongs, and that leaf.
pub open spec fn descent(nodes: Seq<Node>, k: Seq<u8>, p: u32, fuel: nat) -> (
    Seq<(u32, usize)>,
    u32,
)
    decreases fuel,
{
    let node = nodes[p as int];
    if fuel == 0 || node.leaf {
        (Seq::empty(), p)
    } else {
        let s = tree::pick(node.items, k);
        let (path, leaf) = descent(nodes, k, node.items[s].word, (fuel - 1) as nat);
        (seq![(p, s as usize)] + path, leaf)
    }
}

/// The path from the root to the leaf in which `k` belongs.
pub open spec fn path_to(pages: Seq<Page>, k: Seq<u8>) -> Seq<(u32, usize)> {
    descent(layout::nodes(pages), k, 1, pages.len()).0
}

/// The leaf in which `k` belongs.
pub open spec fn leaf_for(pages: Seq<Page>, k: Seq<u8>) -> u32 {
    descent(layout::nodes(pages), k, 1, pages.len()).1
}

/// The slot of that leaf where `k` is, or would go.
pub open spec fn slot_for(pages: Seq<Page>, k: Seq<u8>) -> int {
    tree::rank(pages[leaf_for(pages, k) as int].items(), k)
}

/// The number of levels above the leaves.
pub open spec fn height(pages: Seq<Page>) -> nat {
    path_to(pages, Seq::empty()).len()
}

/// No insertion adds more pages than this to a tree with `h` levels above
/// the leaves: `h + 2` for each of these levels, and `h + 3` for each of
/// `h + 3` new levels.
pub open spec fn growth(h: int) -> int {
    h * (h + 2) + (h + 3) * (h + 3)
}

/// There are page numbers left for every page that one insertion can add.
pub open spec fn has_room(pages: Seq<Page>) -> bool {
    pages.len() + growth(height(pages) as int) <= u32::MAX
}

/// The entry for a pair.
pub open spec fn pair(k: Seq<u8>, v: Seq<u8>) -> Item {
    Item { key: k, word: v.len() as u32, val: v }
}

/// The pair does not fit an empty leaf, or its key could not be a separator
/// on the root.
pub open spec fn too_large(k: Seq<u8>, v: Seq<u8>) -> bool {
    pair(k, v).cost() > model::usable() || !layout::can_separate(k)
}

/// Whether a pair is too large depends on its two lengths alone.
pub proof fn law_too_large(k: Seq<u8>, v: Seq<u8>)
    ensures
        too_large(k, v) <==> k.len() > 4051 || k.len() + v.len() > 4063,
{
    model::lemma_item_size(pair(k, v));
    model::lemma_item_size(layout::branch(k, 0));
}

/// Every split that the pair brings leaves both pages with room for their
/// entries.
pub open spec fn accepts(pages: Seq<Page>, k: Seq<u8>, v: Seq<u8>) -> bool {
    layout::admits(
        pages,
        path_to(pages, k),
        leaf_for(pages, k) as int,
        slot_for(pages, k),
        pair(k, v),
        pages.len() as int,
    )
}

/// The pages with the pair among them.
pub open spec fn inserted(pages: Seq<Page>, k: Seq<u8>, v: Seq<u8>) -> Seq<Page> {
    layout::grown(
        pages,
        path_to(pages, k),
        leaf_for(pages, k) as int,
        slot_for(pages, k),
        pair(k, v),
    )
}

/// The pages that this writes from scratch.
pub open spec fn built(pages: Seq<Page>, k: Seq<u8>, v: Seq<u8>) -> Set<int> {
    layout::built(
        pages,
        path_to(pages, k),
        leaf_for(pages, k) as int,
        slot_for(pages, k),
        pair(k, v),
    )
}

/// The pages without the entry for `k`.
pub open spec fn removed(pages: Seq<Page>, k: Seq<u8>) -> Seq<Page> {
    let p = leaf_for(pages, k) as int;
    pages.update(p, pages[p].cut(slot_for(pages, k)))
}

/// A sound page has far fewer entries than bytes.
pub proof fn lemma_few_slots(page: Page)
    requires
        page.wf(),
    ensures
        page.slots.len() < 300,
{
    model::lemma_load_nonneg(page.items());
}

/// A descent ends on a leaf, one level down at each hop.
proof fn lemma_descent(pages: Seq<Page>, places: Seq<Place>, k: Seq<u8>, p: u32, fuel: nat)
    requires
        layout::pages_ok(pages),
        placed(pages, places),
        1 <= p < pages.len(),
        places[p as int].level <= fuel,
    ensures
        ({
            let nodes = layout::nodes(pages);
            let (path, leaf) = descent(nodes, k, p, fuel);
            &&& tree::stop(path, leaf, 0) == p
            &&& forall|i: int| 0 <= i < path.len() ==> #[trigger] tree::hop(nodes, k, path, leaf, i)
            &&& 1 <= leaf < pages.len()
            &&& nodes[leaf as int].leaf
            &&& path.len() == places[p as int].level
        }),
    decreases fuel,
{
    let t = Tree { nodes: layout::nodes(pages), places };
    assert(t.page_ok(p as int, None));
    let node = t.nodes[p as int];
    if !node.leaf {
        let s = tree::pick(node.items, k);
        tree::lemma_pick_splits(node.items, k);
        assert(t.child_ok(p as int, s, None));
        let child = node.items[s].word;
        lemma_descent(pages, places, k, child, (fuel - 1) as nat);
        let (rest, leaf) = descent(t.nodes, k, child, (fuel - 1) as nat);
        let path = seq![(p, s as usize)] + rest;
        assert(layout::page_ok(pages, p as int));
        lemma_few_slots(pages[p as int]);
        assert forall|i: int| 0 <= i < path.len() implies #[trigger] tree::hop(
            t.nodes,
            k,
            path,
            leaf,
            i,
        ) by {
            assert(tree::stop(path, leaf, i + 1) == tree::stop(rest, leaf, i));
            if i > 0 {
                assert(tree::hop(t.nodes, k, rest, leaf, i - 1));
                assert(path[i] == rest[i - 1]);
            }
        }
    }
}

/// The path to a key leads there, and all paths are of the same length.
pub proof fn lemma_path(pages: Seq<Page>, places: Seq<Place>, k: Seq<u8>)
    requires
        2 <= pages.len(),
        layout::pages_ok(pages),
        placed(pages, places),
    ensures
        tree::leads(layout::nodes(pages), k, path_to(pages, k), leaf_for(pages, k)),
        1 <= leaf_for(pages, k) < pages.len(),
        pages[leaf_for(pages, k) as int].is_leaf(),
        path_to(pages, k).len() == places[1].level,
        height(pages) == places[1].level,
{
    lemma_descent(pages, places, k, 1, pages.len());
    lemma_descent(pages, places, Seq::empty(), 1, pages.len());
}

/// A key is on the leaf in which it belongs, or nowhere.
pub proof fn lemma_lookup(pages: Seq<Page>, k: Seq<u8>)
    requires
        valid(pages),
    ensures
        1 <= leaf_for(pages, k) < pages.len(),
        pages[leaf_for(pages, k) as int].is_leaf(),
        layout::page_ok(pages, leaf_for(pages, k) as int),
        tree::sorted(pages[leaf_for(pages, k) as int].items()),
        0 <= slot_for(pages, k) <= pages[leaf_for(pages, k) as int].slots.len(),
        contents(pages).contains_key(k) == tree::present(
            pages[leaf_for(pages, k) as int].items(),
            k,
        ),
        contents(pages).contains_key(k) ==> contents(pages)[k]
            == pages[leaf_for(pages, k) as int].items()[slot_for(pages, k)].val,
        forall|v: Seq<u8>| #[trigger]
            tree::has(layout::nodes(pages), k, v) <==> contents(pages).contains_key(k)
                && contents(pages)[k] == v,
{
    let places = choose|places: Seq<Place>| placed(pages, places);
    let t = Tree { nodes: layout::nodes(pages), places };
    let leaf = leaf_for(pages, k);
    lemma_path(pages, places, k);
    tree::lemma_found(t, k, path_to(pages, k), leaf);
    assert(t.page_ok(leaf as int, None));
    tree::lemma_rank_splits(pages[leaf as int].items(), k);
    let items = t.nodes[leaf as int].items;
    if tree::present(items, k) {
        assert(tree::has(t.nodes, k, items[tree::rank(items, k)].val));
    }
    if contents(pages).contains_key(k) {
        let v = choose|v: Seq<u8>| tree::has(t.nodes, k, v);
        assert(tree::has(t.nodes, k, v));
    }
}

/// The pairs on the leaves are all there is to the contents.
proof fn lemma_contents(pages: Seq<Page>, want: Map<Seq<u8>, Seq<u8>>)
    requires
        valid(pages),
        forall|a: Seq<u8>, b: Seq<u8>| #[trigger]
            tree::has(layout::nodes(pages), a, b) <==> want.dom().contains(a) && want[a] == b,
    ensures
        contents(pages) == want,
{
    let got = contents(pages);
    assert forall|a: Seq<u8>| #[trigger] got.dom().contains(a) == want.dom().contains(a) by {
        lemma_lookup(pages, a);
        if got.contains_key(a) {
            assert(tree::has(layout::nodes(pages), a, got[a]));
        }
        if want.dom().contains(a) {
            assert(tree::has(layout::nodes(pages), a, want[a]));
        }
    }
    assert forall|a: Seq<u8>| got.dom().contains(a) implies #[trigger] got[a] == want[a] by {
        lemma_lookup(pages, a);
        assert(got.contains_key(a));
        assert(tree::has(layout::nodes(pages), a, got[a]));
    }
    assert(got =~= want);
}

/// An insertion that is ready and admitted ends with valid pages that hold
/// what was there and the new pair.
proof fn lemma_climb(c: Climb)
    requires
        c.ready(),
        c.admitted(),
    ensures
        layout::pages_ok(c.grown()),
        c.pages.len() <= c.grown().len() <= c.pages.len() + c.path.len() + 2,
        exists|places: Seq<Place>|
            #[trigger] placed(c.grown(), places) && places[1].level <= c.places[1].level + 1,
        forall|k: Seq<u8>, v: Seq<u8>| #[trigger]
            tree::has(layout::nodes(c.grown()), k, v) <==> tree::has(c.tree().nodes, k, v),
    decreases c.path.len(),
{
    climb::lemma_ready(c);
    if c.has_room() {
        climb::lemma_settled(c);
        reveal(Climb::ready);
        assert(placed(c.grown(), c.places));
    } else if c.path.len() == 0 {
        climb::lemma_root(c);
        let sep = c.all()[crate::writer::plan::split_point(c.all(), c.skip)].key;
        assert(placed(c.grown(), grow::split_root_places(c.tree(), sep)));
    } else {
        climb::lemma_step(c);
        climb::lemma_up(c);
        let d = c.up();
        lemma_climb(d);
        let places = choose|places: Seq<Place>|
            #[trigger] placed(d.grown(), places) && places[1].level <= d.places[1].level + 1;
        assert(placed(c.grown(), places));
    }
}

/// The insertion of a new pair, as a climb from its leaf.
pub open spec fn climb(pages: Seq<Page>, places: Seq<Place>, k: Seq<u8>, v: Seq<u8>) -> Climb {
    Climb {
        pages,
        places,
        path: path_to(pages, k),
        p: leaf_for(pages, k) as int,
        skip: slot_for(pages, k),
        item: pair(k, v),
    }
}

/// The insertion of a new pair is ready.
pub proof fn lemma_climb_ready(pages: Seq<Page>, places: Seq<Place>, k: Seq<u8>, v: Seq<u8>)
    requires
        valid(pages),
        placed(pages, places),
        has_room(pages),
        !too_large(k, v),
        !contents(pages).contains_key(k),
    ensures
        climb(pages, places, k, v).ready(),
        climb(pages, places, k, v).admitted() == accepts(pages, k, v),
        climb(pages, places, k, v).grown() == inserted(pages, k, v),
        climb(pages, places, k, v).built() == built(pages, k, v),
        forall|a: Seq<u8>, b: Seq<u8>| #[trigger]
            tree::has(climb(pages, places, k, v).tree().nodes, a, b) <==> tree::has(
                layout::nodes(pages),
                a,
                b,
            ) || (a == k && b == v),
{
    reveal(Climb::ready);
    lemma_growth(height(pages) as int, 0, 0);
    let t = Tree { nodes: layout::nodes(pages), places };
    let c = climb(pages, places, k, v);
    lemma_lookup(pages, k);
    lemma_path(pages, places, k);
    tree::lemma_path_covers(t, k, c.path, leaf_for(pages, k), c.path.len() as int);
    assert(layout::page_ok(pages, c.p));
    model::lemma_item_size(c.item);
    grow::lemma_insert_leaf(t, c.p, c.item);
    assert forall|i: int| 0 <= i < c.path.len() implies #[trigger] c.hop_ok(i) by {
        assert(tree::hop(t.nodes, k, c.path, leaf_for(pages, k), i));
        tree::lemma_path_covers(t, k, c.path, leaf_for(pages, k), i);
        assert(c.path[i].0 == tree::stop(c.path, leaf_for(pages, k), i));
    }
}

/// Pages that hold what was there and a new pair.
pub proof fn lemma_gained(pages: Seq<Page>, after: Seq<Page>, k: Seq<u8>, v: Seq<u8>)
    requires
        valid(pages),
        !contents(pages).contains_key(k),
        valid(after),
        forall|a: Seq<u8>, b: Seq<u8>| #[trigger]
            tree::has(layout::nodes(after), a, b) <==> tree::has(layout::nodes(pages), a, b) || (a
                == k && b == v),
    ensures
        contents(after) == contents(pages).insert(k, v),
{
    let want = contents(pages).insert(k, v);
    assert forall|a: Seq<u8>, b: Seq<u8>| #[trigger]
        tree::has(layout::nodes(after), a, b) <==> want.dom().contains(a) && want[a] == b by {
        lemma_lookup(pages, a);
        if a == k && tree::has(layout::nodes(pages), a, b) {
            assert(contents(pages).contains_key(k));
        }
    }
    lemma_contents(after, want);
}

/// A pair that is accepted is inserted.
pub proof fn lemma_inserted(pages: Seq<Page>, k: Seq<u8>, v: Seq<u8>)
    requires
        valid(pages),
        has_room(pages),
        !too_large(k, v),
        !contents(pages).contains_key(k),
        accepts(pages, k, v),
    ensures
        valid(inserted(pages, k, v)),
        contents(inserted(pages, k, v)) == contents(pages).insert(k, v),
        pages.len() <= inserted(pages, k, v).len() <= pages.len() + height(pages) + 2,
        height(inserted(pages, k, v)) <= height(pages) + 1,
{
    let places = choose|places: Seq<Place>| placed(pages, places);
    let c = climb(pages, places, k, v);
    lemma_climb_ready(pages, places, k, v);
    lemma_path(pages, places, k);
    lemma_climb(c);
    let after = inserted(pages, k, v);
    let new_places = choose|places: Seq<Place>|
        #[trigger] placed(after, places) && places[1].level <= c.places[1].level + 1;
    lemma_path(after, new_places, k);
    lemma_gained(pages, after, k, v);
}

/// The entry for a key is removed.
pub proof fn lemma_removed(pages: Seq<Page>, k: Seq<u8>)
    requires
        valid(pages),
        contents(pages).contains_key(k),
    ensures
        valid(removed(pages, k)),
        contents(removed(pages, k)) == contents(pages).remove(k),
        height(removed(pages, k)) == height(pages),
{
    let places = choose|places: Seq<Place>| placed(pages, places);
    let t = Tree { nodes: layout::nodes(pages), places };
    let p = leaf_for(pages, k) as int;
    let s = slot_for(pages, k);
    let after = removed(pages, k);
    lemma_lookup(pages, k);
    lemma_path(pages, places, k);
    assert forall|q: int, i: int, v: Seq<u8>| #[trigger]
        tree::holds(t.nodes, q, i, t.nodes[p].items[s].key, v) implies q == p && i == s by {
        assert(t.page_ok(q, None));
        assert(t.covers(q, t.nodes[q].items[i].key));
        tree::lemma_path_covers(
            t,
            k,
            path_to(pages, k),
            leaf_for(pages, k),
            path_to(pages, k).len() as int,
        );
        tree::lemma_path_meets(
            t,
            k,
            path_to(pages, k),
            leaf_for(pages, k),
            path_to(pages, k).len() as int,
            q,
        );
        tree::lemma_rank_of_key(t.nodes[p].items, i);
    }
    grow::lemma_remove_leaf(t, p, s);
    assert(layout::page_ok(pages, p));
    model::lemma_cut(pages[p], s);
    assert forall|q: int| 1 <= q < after.len() implies #[trigger] layout::page_ok(after, q) by {
        assert(layout::page_ok(pages, q));
        if q == p {
            assert forall|i: int| 0 <= i < after[p].slots.len() implies layout::can_separate(
                (#[trigger] after[p].slots[i]).item.key,
            ) by {
                assert(after[p].items()[i] == pages[p].items().remove(s)[i]);
                if i < s {
                    assert(layout::can_separate(pages[p].slots[i].item.key));
                } else {
                    assert(layout::can_separate(pages[p].slots[i + 1].item.key));
                }
            }
        }
    }
    assert(layout::nodes(after) =~= grow::with_items(
        t.nodes,
        p,
        t.nodes[p].items.remove(s),
    ));
    assert(placed(after, places));
    lemma_path(after, places, k);
    let want = contents(pages).remove(k);
    assert forall|a: Seq<u8>, b: Seq<u8>| #[trigger]
        tree::has(layout::nodes(after), a, b) <==> want.dom().contains(a) && want[a] == b by {
        lemma_lookup(pages, a);
    }
    lemma_contents(after, want);
}

/// A removal undoes an insertion, however the pages were split for it.
pub proof fn law_del_undoes_put(before: Seq<Page>, after: Seq<Page>, k: Seq<u8>, v: Seq<u8>)
    requires
        valid(before),
        valid(after),
        !contents(before).contains_key(k),
        contents(after) == contents(before).insert(k, v),
    ensures
        valid(removed(after, k)),
        contents(removed(after, k)) == contents(before),
{
    lemma_removed(after, k);
    assert(contents(before).insert(k, v).remove(k) =~= contents(before));
}

/// Where the leaf has room, a removal undoes an insertion: every header
/// field, every `linp[]` value and every entry is as it was.
pub proof fn law_del_restores_pages(pages: Seq<Page>, k: Seq<u8>, v: Seq<u8>)
    requires
        valid(pages),
        has_room(pages),
        !too_large(k, v),
        !contents(pages).contains_key(k),
        pair(k, v).cost() <= pages[leaf_for(pages, k) as int].free(),
    ensures
        removed(inserted(pages, k, v), k) == pages,
{
    let places = choose|places: Seq<Place>| placed(pages, places);
    let c = climb(pages, places, k, v);
    let after = inserted(pages, k, v);
    let page = pages[c.p];
    lemma_climb_ready(pages, places, k, v);
    lemma_lookup(pages, k);
    climb::lemma_settled(c);
    reveal(Climb::ready);
    assert(placed(after, places));
    let t = Tree { nodes: layout::nodes(after), places };
    let path = path_to(after, k);
    assert(t.page_ok(c.p, None));
    assert(t.nodes[c.p].items == c.all());
    assert(c.all()[c.skip].key == k);
    assert(t.covers(c.p, c.all()[c.skip].key));
    lemma_path(after, places, k);
    tree::lemma_path_meets(t, k, path, leaf_for(after, k), path.len() as int, c.p);
    tree::lemma_rank_of_key(c.all(), c.skip);
    model::lemma_place(page, c.skip, c.item);
    assert(slot_for(after, k) == c.skip);
    model::lemma_undone(page, c.skip, c.item);
    assert(removed(after, k) =~= pages);
}

/// A removal and an insertion replace a value.
pub proof fn law_put_after_del(before: Seq<Page>, after: Seq<Page>, k: Seq<u8>, v: Seq<u8>)
    requires
        valid(before),
        valid(after),
        contents(before).contains_key(k),
        contents(after) == contents(removed(before, k)).insert(k, v),
    ensures
        !contents(removed(before, k)).contains_key(k),
        contents(after) == contents(before).insert(k, v),
{
    lemma_removed(before, k);
    assert(contents(before).remove(k).insert(k, v) =~= contents(before).insert(k, v));
}

/// A lone empty leaf is a valid tree without contents.
pub proof fn lemma_fresh(pages: Seq<Page>)
    requires
        pages.len() == 2,
        pages[1] == Page::empty(P_ROOT, P_BLEAF),
    ensures
        valid(pages),
        contents(pages) == Map::<Seq<u8>, Seq<u8>>::empty(),
        height(pages) == 0,
{
    let root = Place { level: 0, lo: Seq::empty(), hi: None, parent: 0 };
    let places = seq![root, root];
    let t = Tree { nodes: layout::nodes(pages), places };
    model::lemma_empty(P_ROOT, P_BLEAF);
    assert(layout::page_ok(pages, 1));
    assert(t.nodes[1].items =~= Seq::<Item>::empty());
    assert(t.page_ok(1, None));
    assert(placed(pages, places));
    lemma_path(pages, places, Seq::empty());
    assert forall|a: Seq<u8>, b: Seq<u8>| !#[trigger] tree::has(layout::nodes(pages), a, b) by {
        if tree::has(t.nodes, a, b) {
            let (p, i) = choose|p: int, i: int| #[trigger] tree::holds(t.nodes, p, i, a, b);
            assert(tree::holds(t.nodes, p, i, a, b));
        }
    }
    lemma_contents(pages, Map::empty());
}

/// What [`growth`] leaves for the levels still to come.
pub proof fn lemma_growth(d: int, k: int, run: int)
    ensures
        (d - 1) * (k + 1) + (k + 1) == d * (k + 1),
        0 <= run <= k + 1 ==> run * run + (k + 2) <= (k + 2) * (k + 2),
        0 <= run <= k - 1 ==> run * run + k <= k * k,
        0 <= d ==> growth(d) > d + 2,
        0 <= d ==> growth(d) == d * (d + 1 + 1) + (d + 1 + 2) * (d + 1 + 2),
        1 <= d ==> growth(d - 1) + 1 <= growth(d),
        65536 <= d ==> growth(d) > u32::MAX,
        0 <= d < 65536 ==> 0 <= d * (d + 2) <= 0xffff_ffff_ffff && 0 <= (d + 3) * (d + 3)
            <= 0xffff_ffff_ffff,
{
    assert((d - 1) * (k + 1) + (k + 1) == d * (k + 1)) by (nonlinear_arith);
    assert(0 <= run <= k + 1 ==> run * run + (k + 2) <= (k + 2) * (k + 2)) by (nonlinear_arith);
    assert(0 <= run <= k - 1 ==> run * run + k <= k * k) by (nonlinear_arith);
    assert(0 <= d ==> d * (d + 2) + (d + 3) * (d + 3) > d + 2) by (nonlinear_arith);
    assert(1 <= d ==> (d - 1) * (d + 1) + (d + 2) * (d + 2) + 1 <= d * (d + 2) + (d + 3) * (d + 3))
        by (nonlinear_arith);
    assert(65536 <= d ==> d * (d + 2) + (d + 3) * (d + 3) > u32::MAX) by (nonlinear_arith);
    assert(0 <= d < 65536 ==> 0 <= d * (d + 2) <= 0xffff_ffff_ffff && 0 <= (d + 3) * (d + 3)
        <= 0xffff_ffff_ffff) by (nonlinear_arith);
}

/// There are fewer levels than pages.
proof fn lemma_height_bound(pages: Seq<Page>)
    requires
        valid(pages),
    ensures
        height(pages) + 2 <= pages.len(),
{
    let places = choose|places: Seq<Place>| placed(pages, places);
    lemma_path(pages, places, Seq::empty());
}

/// Up to 46000 pages there is always room.
pub proof fn law_few_pages_have_room(pages: Seq<Page>)
    requires
        valid(pages),
        pages.len() <= 46000,
    ensures
        has_room(pages),
{
    lemma_height_bound(pages);
    let h = height(pages) as int;
    assert(h * (h + 2) + (h + 3) * (h + 3) <= 46000 * 46000 + 46001 * 46001) by (nonlinear_arith)
        requires
            0 <= h <= 45998,
    ;
}

} // verus!
