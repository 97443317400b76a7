//! Insertion from a leaf up: each split hands the parent an entry to insert.

use crate::format::DEFAULT_PSIZE;
use crate::key;
use crate::writer::grow;
use crate::writer::layout;
use crate::writer::model;
use crate::writer::model::{Item, Page};
use crate::writer::plan;
use crate::writer::separator;
use crate::writer::tree;
use crate::writer::tree::{Pending, Place, Tree};
use vstd::prelude::*;

verus! {

/// An insertion under way: `item` is to go to slot `skip` of page `p`, which
/// `path` leads to.
pub struct Climb {
    pub pages: Seq<Page>,
    pub places: Seq<Place>,
    pub path: Seq<(u32, usize)>,
    pub p: int,
    pub skip: int,
    pub item: Item,
}

impl Climb {
    pub open spec fn page(self) -> Page {
        self.pages[self.p]
    }

    /// The entries of the page with the new one among them.
    pub open spec fn all(self) -> Seq<Item> {
        self.page().items().insert(self.skip, self.item)
    }

    /// The tree as it would be if the page had room for the entry.
    pub open spec fn tree(self) -> Tree {
        Tree {
            nodes: grow::with_items(layout::nodes(self.pages), self.p, self.all()),
            places: self.places,
        }
    }

    /// Hop `i` of the path is an entry that leads to its next page, one
    /// level down.
    pub open spec fn hop_ok(self, i: int) -> bool {
        let q = self.path[i].0 as int;
        &&& 1 <= q < self.pages.len()
        &&& !self.pages[q].is_leaf()
        &&& self.path[i].1 < self.pages[q].slots.len()
        &&& self.pages[q].slots[self.path[i].1 as int].item.word == tree::stop(
            self.path,
            self.p as u32,
            i + 1,
        )
        &&& self.places[q].level == self.places[self.p].level + self.path.len() - i
    }

    /// All that is missing is room on the page.
    #[verifier::opaque]
    pub open spec fn ready(self) -> bool {
        &&& layout::pages_ok(self.pages)
        &&& 1 <= self.p < self.pages.len()
        &&& self.pages.len() + self.path.len() < u32::MAX
        &&& 0 <= self.skip <= self.page().slots.len()
        &&& self.item.fits_kind(self.page().flags)
        &&& layout::can_separate(self.item.key)
        &&& self.item.cost() <= model::usable()
        &&& self.tree().inv(None)
        &&& tree::stop(self.path, self.p as u32, 0) == 1
        &&& forall|i: int| 0 <= i < self.path.len() ==> #[trigger] self.hop_ok(i)
    }

    pub open spec fn has_room(self) -> bool {
        self.item.cost() <= self.page().free()
    }

    /// The pages may be split in this step.
    pub open spec fn splittable(self) -> bool {
        ||| self.path.len() > 0 && layout::appends(self.page(), self.skip)
        ||| plan::splits(self.all(), self.skip)
    }

    /// What the parent is to get after a split.
    pub open spec fn rest(self) -> Item {
        let up = self.path.last();
        layout::promoted(
            self.page(),
            self.skip,
            self.item,
            self.pages[up.0 as int],
            up.1 + 1,
            self.pages.len() as int,
        )
    }

    /// The insertion one level up, after a split.
    pub open spec fn up(self) -> Climb {
        let up = self.path.last();
        Climb {
            pages: if layout::appends(self.page(), self.skip) {
                layout::append_page(self.pages, self.p, self.item)
            } else {
                layout::split_pages(self.pages, self.p, self.skip, self.item)
            },
            places: grow::split_places(self.tree(), self.p, self.rest().key),
            path: self.path.drop_last(),
            p: up.0 as int,
            skip: up.1 + 1,
            item: self.rest(),
        }
    }

    pub open spec fn grown(self) -> Seq<Page> {
        layout::grown(self.pages, self.path, self.p, self.skip, self.item)
    }

    pub open spec fn built(self) -> Set<int> {
        layout::built(self.pages, self.path, self.p, self.skip, self.item)
    }

    pub open spec fn admitted(self) -> bool {
        layout::admits(
            self.pages,
            self.path,
            self.p,
            self.skip,
            self.item,
            self.pages.len() as int,
        )
    }
}

/// A page without room for an entry has entries.
pub proof fn lemma_full(page: Page, item: Item)
    requires
        page.wf(),
        item.cost() <= model::usable(),
        page.free() < item.cost(),
    ensures
        page.slots.len() > 0,
{
    if page.slots.len() == 0 {
        assert(page.items() =~= Seq::<Item>::empty());
    }
}

/// A shorter key can be a separator where a longer one can.
pub proof fn lemma_shorter_separates(a: Seq<u8>, b: Seq<u8>)
    requires
        layout::can_separate(b),
        a.len() <= b.len(),
    ensures
        layout::can_separate(a),
{
}

/// What a page needs to know of an insertion that is ready.
pub proof fn lemma_ready(c: Climb)
    requires
        c.ready(),
    ensures
        layout::pages_ok(c.pages),
        layout::page_ok(c.pages, c.p),
        1 <= c.p < c.pages.len(),
        c.pages.len() + c.path.len() < u32::MAX,
        0 <= c.skip <= c.page().slots.len(),
        c.item.fits_kind(c.page().flags),
        layout::can_separate(c.item.key),
        c.item.cost() <= model::usable(),
        c.path.len() == 0 ==> c.p == 1,
        !c.has_room() ==> c.page().slots.len() > 0,
        forall|i: int|
            0 <= i < c.path.len() ==> 1 <= (#[trigger] c.path[i]).0 < c.pages.len() && c.path[i].1
                < c.pages[c.path[i].0 as int].slots.len(),
{
    reveal(Climb::ready);
    assert(layout::page_ok(c.pages, c.p));
    if !c.has_room() {
        lemma_full(c.page(), c.item);
    }
    assert forall|i: int| 0 <= i < c.path.len() implies 1 <= (#[trigger] c.path[i]).0
        < c.pages.len() && c.path[i].1 < c.pages[c.path[i].0 as int].slots.len() by {
        assert(c.hop_ok(i));
    }
}

/// The entry on the path is on its page, in the tree to be.
proof fn lemma_hop(c: Climb, i: int)
    requires
        c.ready(),
        0 <= i < c.path.len(),
    ensures
        c.path[i].0 != c.p,
        c.tree().nodes[c.path[i].0 as int] == c.pages[c.path[i].0 as int].node(),
        c.tree().slot_of(
            c.path[i].0 as int,
            c.path[i].1 as int,
            tree::stop(c.path, c.p as u32, i + 1) as int,
        ),
{
    reveal(Climb::ready);
    assert(c.hop_ok(i));
}

/// What can be said of the page before it is split.
pub proof fn lemma_before_split(c: Climb)
    requires
        c.ready(),
        !c.has_room(),
        c.splittable(),
    ensures
        c.tree().nodes[c.p].items == c.all(),
        c.tree().nodes[c.p].leaf == c.page().is_leaf(),
        c.tree().nodes.len() == c.pages.len(),
        c.page().next != c.p,
        c.page().next < c.pages.len(),
        ({
            let m = layout::cut_point(c.page(), c.skip, c.item);
            c.path.len() > 0 ==> 0 < m < c.all().len() && key::lt(
                c.all()[m - 1].key,
                c.all()[m].key,
            )
        }),
        plan::splits(c.all(), c.skip) ==> {
            let m = plan::split_point(c.all(), c.skip);
            0 < m < c.all().len() && key::lt(c.all()[m - 1].key, c.all()[m].key)
        },
        layout::pages_ok(c.pages),
{
    reveal(Climb::ready);
    broadcast use key::group_key_order;

    let t = c.tree();
    assert(layout::page_ok(c.pages, c.p));
    lemma_full(c.page(), c.item);
    assert(t.page_ok(c.p, None));
    assert(c.all().len() == c.page().slots.len() + 1);
    assert(t.nodes[c.p].items == c.all());
    assert(tree::sorted(c.all()));
    assert(t.nodes[c.p].next == c.page().next);
    if c.page().next == c.p {
        assert(t.places[c.p].hi == Some(t.places[c.p].lo));
        assert(false);
    }
}

/// A split leaves an insertion that is ready one level up, into the same
/// tree.
pub proof fn lemma_up(c: Climb)
    requires
        c.ready(),
        !c.has_room(),
        c.splittable(),
        c.path.len() > 0,
    ensures
        c.up().ready(),
        c.up().pages.len() == c.pages.len() + 1,
        c.up().places[1].level == c.places[1].level,
        c.grown() == c.up().grown(),
        c.built() == if layout::appends(c.page(), c.skip) {
            c.up().built().insert(c.pages.len() as int)
        } else {
            c.up().built().insert(c.p).insert(c.pages.len() as int)
        },
        layout::nodes(c.up().pages) == grow::split_nodes(
            c.tree().nodes,
            c.p,
            layout::cut_point(c.page(), c.skip, c.item),
        ),
        c.rest().key.len() <= c.all()[layout::cut_point(c.page(), c.skip, c.item)].key.len(),
        forall|k: Seq<u8>, v: Seq<u8>| #[trigger]
            tree::has(c.up().tree().nodes, k, v) <==> tree::has(c.tree().nodes, k, v),
        forall|q: int|
            1 <= q < c.pages.len() && q != c.p && q != c.page().next ==> #[trigger] c.up().pages[q]
                == c.pages[q],
{
    reveal(Climb::ready);
    broadcast use key::group_key_order;

    let d = c.up();
    let t = c.tree();
    let page = c.page();
    let m = layout::cut_point(page, c.skip, c.item);
    let last = c.path.len() - 1;
    let up = c.path.last();
    let parent = up.0 as int;
    let slot = up.1 as int;
    let sep = c.rest().key;
    let r = c.pages.len() as int;
    lemma_before_split(c);
    lemma_hop(c, last);
    if c.path.len() > 0 && c.p == 1 {
        lemma_hop(c, 0);
        assert(false);
    }

    // the separator
    let first = c.all()[m].key;
    separator::lemma_separator_key(
        page.is_leaf(),
        c.all()[m - 1].key,
        first,
        c.pages[parent].prev,
        slot + 1,
    );
    assert(layout::page_ok(c.pages, c.p));
    assert(layout::can_separate(first)) by {
        if m < c.skip {
            assert(layout::can_separate(page.slots[m].item.key));
        } else if m > c.skip {
            assert(layout::can_separate(page.slots[m - 1].item.key));
        }
    }
    lemma_shorter_separates(sep, first);
    assert(grow::parts(t.nodes[c.p], m, sep));

    // the pages
    if layout::appends(page, c.skip) {
        layout::lemma_append_page(c.pages, c.p, c.item);
    } else {
        layout::lemma_split_pages(c.pages, c.p, c.skip, c.item);
    }
    assert(layout::nodes(d.pages) == grow::split_nodes(t.nodes, c.p, m));

    // the tree
    grow::lemma_split(t, c.p, m, sep);
    let split = Tree { nodes: layout::nodes(d.pages), places: d.places };
    assert(split.nodes[parent] == t.nodes[parent]) by {
        lemma_sibling_apart(c, last);
    }
    assert(split.slot_of(parent, slot, c.p));
    grow::lemma_insert_separator(split, Pending { left: c.p, right: r }, parent, slot);
    assert(d.item == layout::branch(split.places[r].lo, r));
    assert(split.nodes[parent].items == d.page().items());
    assert(d.tree().nodes == grow::with_items(
        split.nodes,
        parent,
        split.nodes[parent].items.insert(slot + 1, d.item),
    ));

    // the path
    assert forall|i: int| 0 <= i < d.path.len() implies #[trigger] d.hop_ok(i) by {
        assert(c.hop_ok(i));
        lemma_sibling_apart(c, i);
        assert(tree::stop(d.path, d.p as u32, i + 1) == tree::stop(c.path, c.p as u32, i + 1));
        assert(c.hop_ok(last));
    }
    lemma_sibling_apart(c, last);
    assert(d.pages[parent] == c.pages[parent]);
    assert(layout::page_ok(c.pages, parent));
    assert(d.item.fits_kind(d.page().flags));
    assert(tree::stop(d.path, d.p as u32, 0) == tree::stop(c.path, c.p as u32, 0));
    assert(c.grown() == d.grown());
}

/// The page above is an internal page.
pub proof fn lemma_parent(c: Climb)
    requires
        c.ready(),
        c.path.len() > 0,
    ensures
        !c.pages[c.path.last().0 as int].is_leaf(),
{
    lemma_hop(c, c.path.len() - 1);
}

/// The pages on the path are neither the page nor its right sibling.
pub proof fn lemma_sibling_apart(c: Climb, i: int)
    requires
        c.ready(),
        0 <= i < c.path.len(),
    ensures
        c.path[i].0 != c.p,
        c.path[i].0 != c.page().next,
{
    reveal(Climb::ready);
    assert(c.hop_ok(i));
    let t = c.tree();
    assert(t.page_ok(c.p, None));
    assert(t.nodes[c.p].next == c.page().next);
}

/// Whether an insertion is admitted depends on the pages of the path only.
pub proof fn lemma_admits_agree(
    a: Seq<Page>,
    b: Seq<Page>,
    path: Seq<(u32, usize)>,
    p: int,
    skip: int,
    item: Item,
    fresh: int,
)
    requires
        a[p] == b[p],
        forall|i: int|
            0 <= i < path.len() ==> a[(#[trigger] path[i]).0 as int] == b[path[i].0 as int],
    ensures
        layout::admits(a, path, p, skip, item, fresh) == layout::admits(
            b,
            path,
            p,
            skip,
            item,
            fresh,
        ),
    decreases path.len(),
{
    if path.len() > 0 {
        let up = path.last();
        assert(path[path.len() - 1] == up);
        let rest = path.drop_last();
        assert forall|i: int| 0 <= i < rest.len() implies a[(#[trigger] rest[i]).0 as int]
            == b[rest[i].0 as int] by {
            assert(rest[i] == path[i]);
        }
        lemma_admits_agree(
            a,
            b,
            rest,
            up.0 as int,
            up.1 + 1,
            layout::promoted(a[p], skip, item, a[up.0 as int], up.1 + 1, fresh),
            fresh + 1,
        );
    }
}

/// The insertion one level up is admitted if this one is, and nothing has
/// changed on the path.
pub proof fn lemma_step(c: Climb)
    requires
        c.ready(),
        !c.has_room(),
        c.splittable(),
        c.path.len() > 0,
    ensures
        c.up().ready(),
        c.up().pages.len() == c.pages.len() + 1,
        c.up().grown() == c.grown(),
        c.built() == if layout::appends(c.page(), c.skip) {
            c.up().built().insert(c.pages.len() as int)
        } else {
            c.up().built().insert(c.p).insert(c.pages.len() as int)
        },
        c.up().admitted() == c.admitted(),
        forall|i: int|
            0 <= i < c.path.len() ==> c.up().pages[(#[trigger] c.path[i]).0 as int]
                == c.pages[c.path[i].0 as int],
        c.page().next != c.p,
        c.page().next < c.pages.len(),
        ({
            let m = layout::cut_point(c.page(), c.skip, c.item);
            &&& 0 < m <= c.page().slots.len()
            &&& key::lt(c.all()[m - 1].key, c.all()[m].key)
            &&& c.all()[m - 1].key.len() <= DEFAULT_PSIZE
            &&& c.all()[m].key.len() <= DEFAULT_PSIZE
        }),
{
    lemma_up(c);
    lemma_before_split(c);
    lemma_ready(c);
    let d = c.up();
    assert forall|i: int| 0 <= i < c.path.len() implies d.pages[(
    #[trigger] c.path[i]).0 as int] == c.pages[c.path[i].0 as int] by {
        lemma_sibling_apart(c, i);
    }
    let last = c.path.len() - 1;
    assert(c.path[last] == c.path.last());
    assert forall|i: int| 0 <= i < d.path.len() implies c.pages[(
    #[trigger] d.path[i]).0 as int] == d.pages[d.path[i].0 as int] by {
        assert(d.path[i] == c.path[i]);
    }
    lemma_admits_agree(c.pages, d.pages, d.path, d.p, d.skip, d.item, d.pages.len() as int);
    let m = layout::cut_point(c.page(), c.skip, c.item);
    layout::lemma_all_separate(c.pages, c.p, c.skip, c.item);
    assert(layout::can_separate(c.all()[m - 1].key));
    assert(layout::can_separate(c.all()[m].key));
}

/// Only the root is without a parent, and it may be split if the insertion
/// is admitted.
pub proof fn lemma_at_root(c: Climb)
    requires
        c.ready(),
        !c.has_room(),
        c.admitted(),
        c.p == 1,
    ensures
        c.path.len() == 0,
        c.splittable(),
        c.grown() == layout::split_root_pages(c.pages, c.skip, c.item),
{
    reveal(Climb::ready);
    if c.path.len() > 0 {
        lemma_hop(c, 0);
    }
}

/// An insertion into an internal page does not touch the leaves.
pub proof fn lemma_leaves_kept(c: Climb)
    requires
        c.ready(),
        c.admitted(),
        !c.page().is_leaf(),
    ensures
        layout::leaves_kept(c.pages, c.grown()),
    decreases c.path.len(),
{
    lemma_ready(c);
    if c.has_room() {
        lemma_settled(c);
    } else if c.path.len() == 0 {
        lemma_root(c);
        layout::lemma_halves_flags(c.pages, 1, c.skip, c.item);
    } else {
        lemma_step(c);
        lemma_up(c);
        let d = c.up();
        let last = c.path.len() - 1;
        lemma_hop(c, last);
        lemma_sibling_apart(c, last);
        assert(c.path[last] == c.path.last());
        assert(layout::leaves_kept(c.pages, d.pages)) by {
            reveal(Climb::ready);
            let t = c.tree();
            assert(t.page_ok(c.p, None));
            assert(t.nodes[c.p].next == c.page().next);
            let next = c.page().next as int;
            if next != 0 {
                assert(t.page_ok(next, None));
                assert(t.nodes[next].leaf == c.pages[next].is_leaf());
            }
            layout::lemma_halves_flags(c.pages, c.p, c.skip, c.item);
        }
        assert(!d.page().is_leaf());
        lemma_leaves_kept(d);
        assert(d.grown() == c.grown());
        lemma_leaves_transitive(c.pages, d.pages, d.grown());
    }
}

/// What is kept twice is kept.
pub proof fn lemma_leaves_transitive(a: Seq<Page>, b: Seq<Page>, c: Seq<Page>)
    requires
        layout::leaves_kept(a, b),
        layout::leaves_kept(b, c),
        a.len() >= 1,
    ensures
        layout::leaves_kept(a, c),
{
    assert forall|q: int| 1 <= q < a.len() && a[q].is_leaf() implies #[trigger] c[q] == a[q] by {
        assert(b[q] == a[q]);
    }
    assert forall|q: int| 1 <= q < a.len() && !a[q].is_leaf() implies !(
    #[trigger] c[q]).is_leaf() by {
        assert(!b[q].is_leaf());
    }
    assert forall|q: int| a.len() <= q < c.len() implies !(#[trigger] c[q]).is_leaf() by {
        if q < b.len() {
            assert(!b[q].is_leaf());
        }
    }
}

/// On a page with room the insertion ends.
pub proof fn lemma_settled(c: Climb)
    requires
        c.ready(),
        c.has_room(),
    ensures
        layout::pages_ok(c.grown()),
        layout::nodes(c.grown()) == c.tree().nodes,
        c.grown() == c.pages.update(c.p, c.page().place(c.skip, c.item)),
{
    reveal(Climb::ready);
    layout::lemma_placed(c.pages, c.p, c.skip, c.item);
}

/// At the root the insertion ends with a split.
pub proof fn lemma_root(c: Climb)
    requires
        c.ready(),
        !c.has_room(),
        c.splittable(),
        c.path.len() == 0,
    ensures
        c.p == 1,
        layout::pages_ok(c.grown()),
        c.grown() == layout::split_root_pages(c.pages, c.skip, c.item),
        c.grown().len() == c.pages.len() + 2,
        layout::nodes(c.grown()) == grow::split_root_nodes(
            c.tree().nodes,
            plan::split_point(c.all(), c.skip),
            c.all()[plan::split_point(c.all(), c.skip)].key,
        ),
        ({
            let key = c.all()[plan::split_point(c.all(), c.skip)].key;
            (Tree {
                nodes: layout::nodes(c.grown()),
                places: grow::split_root_places(c.tree(), key),
            }).inv(None)
        }),
        forall|k: Seq<u8>, v: Seq<u8>| #[trigger]
            tree::has(layout::nodes(c.grown()), k, v) <==> tree::has(c.tree().nodes, k, v),
{
    reveal(Climb::ready);
    broadcast use key::group_key_order;

    lemma_before_split(c);
    let m = plan::split_point(c.all(), c.skip);
    layout::lemma_split_root_pages(c.pages, c.skip, c.item);
    assert(grow::parts(c.tree().nodes[1], m, c.all()[m].key));
    grow::lemma_split_root(c.tree(), m, c.all()[m].key);
}

} // verus!
