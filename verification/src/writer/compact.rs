//! Small entries: byte-balanced splits always leave room for them.

use crate::writer::arena;
use crate::writer::climb;
use crate::writer::climb::Climb;
use crate::writer::grow;
use crate::writer::layout;
use crate::writer::model;
use crate::writer::model::{Item, Page};
use crate::writer::plan;
use crate::writer::tree;
use crate::writer::tree::{Node, Place};
use vstd::prelude::*;

verus! {

/// The entry takes up at most half a page, its `linp[]` slot included.
pub open spec fn small(item: Item) -> bool {
    item.cost() <= model::usable() / 2
}

/// Every entry on the nodes takes up at most half a page.
pub open spec fn all_small(nodes: Seq<Node>) -> bool {
    forall|p: int, i: int|
        1 <= p < nodes.len() && 0 <= i < nodes[p].items.len() ==> small(
            #[trigger] nodes[p].items[i],
        )
}

/// Every entry takes up at most half a page.
pub open spec fn compact(pages: Seq<Page>) -> bool {
    all_small(layout::nodes(pages))
}

/// The entry for a child takes up no more than the entry that its key is
/// from.
proof fn lemma_branch_small(key: Seq<u8>, child: int, item: Item)
    requires
        small(item),
        key.len() <= item.key.len(),
    ensures
        small(layout::branch(key, child)),
{
}

/// The entries of a page and a new one are small.
proof fn lemma_all_small(c: Climb)
    requires
        c.ready(),
        small(c.item),
        compact(c.pages),
    ensures
        forall|i: int| 0 <= i < c.all().len() ==> small(#[trigger] c.all()[i]),
        all_small(c.tree().nodes),
        !c.has_room() ==> plan::splits(c.all(), c.skip),
{
    climb::lemma_ready(c);
    let nodes = layout::nodes(c.pages);
    let items = c.page().items();
    assert(nodes[c.p].items == items);
    assert forall|i: int| 0 <= i < c.all().len() implies small(#[trigger] c.all()[i]) by {
        if i < c.skip {
            assert(small(nodes[c.p].items[i]));
        } else if i > c.skip {
            assert(small(nodes[c.p].items[i - 1]));
        }
    }
    let t = c.tree().nodes;
    assert forall|p: int, i: int| 1 <= p < t.len() && 0 <= i < t[p].items.len() implies small(
        #[trigger] t[p].items[i],
    ) by {
        if p == c.p {
            assert(small(c.all()[i]));
        } else {
            assert(small(nodes[p].items[i]));
        }
    }
    if !c.has_room() {
        model::lemma_load_insert(items, c.skip, c.item);
        plan::lemma_small_entries_split(c.all(), c.skip);
    }
}

/// Splitting a page leaves every entry small.
proof fn lemma_split_small(nodes: Seq<Node>, p: int, m: int)
    requires
        all_small(nodes),
        1 <= p < nodes.len(),
        0 <= m <= nodes[p].items.len(),
        nodes[p].next < nodes.len(),
        nodes[p].next != p,
    ensures
        all_small(grow::split_nodes(nodes, p, m)),
{
    let after = grow::split_nodes(nodes, p, m);
    assert forall|q: int, i: int|
        1 <= q < after.len() && 0 <= i < after[q].items.len() implies small(
        #[trigger] after[q].items[i],
    ) by {
        if q == nodes.len() {
            assert(small(nodes[p].items[m + i]));
        } else {
            assert(small(nodes[q].items[i]));
        }
    }
}

/// Splitting the root leaves every entry small.
proof fn lemma_split_root_small(nodes: Seq<Node>, m: int)
    requires
        all_small(nodes),
        1 < nodes.len(),
        0 <= m < nodes[1].items.len(),
    ensures
        all_small(grow::split_root_nodes(nodes, m, nodes[1].items[m].key)),
{
    let key = nodes[1].items[m].key;
    let after = grow::split_root_nodes(nodes, m, key);
    let l = nodes.len() as int;
    assert forall|q: int, i: int|
        1 <= q < after.len() && 0 <= i < after[q].items.len() implies small(
        #[trigger] after[q].items[i],
    ) by {
        if q == 1 {
            assert(small(nodes[1].items[m]));
            lemma_branch_small(Seq::empty(), l, nodes[1].items[m]);
            lemma_branch_small(key, l + 1, nodes[1].items[m]);
            assert(after[1].items[0] == layout::branch(Seq::empty(), l));
            assert(after[1].items[1] == layout::branch(key, l + 1));
        } else if q == l {
            assert(small(nodes[1].items[i]));
        } else if q == l + 1 {
            assert(small(nodes[1].items[m + i]));
        } else {
            assert(small(nodes[q].items[i]));
        }
    }
}

/// Small entries are admitted at every level and stay small.
proof fn lemma_climb_small(c: Climb)
    requires
        c.ready(),
        small(c.item),
        compact(c.pages),
    ensures
        c.admitted(),
        compact(c.grown()),
    decreases c.path.len(),
{
    climb::lemma_ready(c);
    lemma_all_small(c);
    if c.has_room() {
        climb::lemma_settled(c);
    } else if c.path.len() == 0 {
        climb::lemma_root(c);
        let m = plan::split_point(c.all(), c.skip);
        assert(c.tree().nodes[1].items == c.all());
        lemma_split_root_small(c.tree().nodes, m);
    } else {
        climb::lemma_step(c);
        climb::lemma_up(c);
        let d = c.up();
        let m = layout::cut_point(c.page(), c.skip, c.item);
        assert(c.tree().nodes[c.p].items == c.all());
        assert(small(c.all()[m]));
        lemma_branch_small(c.rest().key, c.pages.len() as int, c.all()[m]);
        assert(c.tree().nodes[c.p].next == c.page().next);
        lemma_split_small(c.tree().nodes, c.p, m);
        lemma_climb_small(d);
    }
}

/// A small pair is within the bounds on every pair.
pub proof fn lemma_small_fits(k: Seq<u8>, v: Seq<u8>)
    requires
        small(arena::pair(k, v)),
    ensures
        !arena::too_large(k, v),
{
    lemma_branch_small(k, 0, arena::pair(k, v));
    lemma_branch_small(Seq::empty(), 0, arena::pair(k, v));
}

/// While no entry takes up more than half a page, the byte-balanced splits
/// of an insertion leave every page with room, and the property is kept.
pub proof fn law_small_accepted(pages: Seq<Page>, k: Seq<u8>, v: Seq<u8>)
    requires
        arena::valid(pages),
        arena::has_room(pages),
        compact(pages),
        !arena::contents(pages).contains_key(k),
        small(arena::pair(k, v)),
    ensures
        !arena::too_large(k, v),
        arena::accepts(pages, k, v),
        compact(arena::inserted(pages, k, v)),
{
    let places = choose|places: Seq<Place>| arena::placed(pages, places);
    lemma_small_fits(k, v);
    arena::lemma_climb_ready(pages, places, k, v);
    lemma_climb_small(arena::climb(pages, places, k, v));
}

/// A removal keeps every entry as small as it was.
pub proof fn law_small_removed(pages: Seq<Page>, k: Seq<u8>)
    requires
        arena::valid(pages),
        compact(pages),
        arena::contents(pages).contains_key(k),
    ensures
        compact(arena::removed(pages, k)),
{
    arena::lemma_lookup(pages, k);
    let p = arena::leaf_for(pages, k) as int;
    let s = arena::slot_for(pages, k);
    let before = layout::nodes(pages);
    let after = layout::nodes(arena::removed(pages, k));
    model::lemma_cut(pages[p], s);
    assert(before[p].items == pages[p].items());
    assert(after[p].items == pages[p].items().remove(s));
    assert forall|q: int, i: int|
        1 <= q < after.len() && 0 <= i < after[q].items.len() implies small(
        #[trigger] after[q].items[i],
    ) by {
        if q == p && i >= s {
            assert(small(before[p].items[i + 1]));
        } else {
            assert(small(before[q].items[i]));
        }
    }
}

} // verus!
