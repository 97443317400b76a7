//! Insertion where a byte-balanced split would leave a page without room:
//! the entries are packed page by page, and the parent gets an entry for
//! each new page.

use crate::format::{DEFAULT_PSIZE, P_BINTERNAL, P_INVALID};
use crate::key;
use crate::writer::climb::Climb;
use crate::writer::grow;
use crate::writer::layout;
use crate::writer::model;
use crate::writer::model::{Item, Page};
use crate::writer::pack;
use crate::writer::tree;
use crate::writer::tree::{Pending, Place, Tree};
use vstd::prelude::*;

verus! {

/// `items` with `run` among them, from `at` on.
pub open spec fn splice(items: Seq<Item>, at: int, run: Seq<Item>) -> Seq<Item> {
    items.take(at) + run + items.skip(at)
}

/// Each entry can stand on a page with these flags, alone at least, and its
/// key can be a separator.
pub open spec fn entries_ok(items: Seq<Item>, flags: u32) -> bool {
    forall|i: int|
        0 <= i < items.len() ==> (#[trigger] items[i]).fits_kind(flags) && layout::can_separate(
            items[i].key,
        ) && items[i].cost() <= model::usable()
}

/// Hop `i` of the path is an entry that leads to its next page, one level
/// down.
pub open spec fn hop_ok(
    pages: Seq<Page>,
    places: Seq<Place>,
    path: Seq<(u32, usize)>,
    p: int,
    i: int,
) -> bool {
    let q = path[i].0 as int;
    &&& 1 <= q < pages.len()
    &&& !pages[q].is_leaf()
    &&& path[i].1 < pages[q].slots.len()
    &&& pages[q].slots[path[i].1 as int].item.word == tree::stop(path, p as u32, i + 1)
    &&& places[q].level == places[p].level + path.len() - i
}

/// The path leads from the root to page `p`.
pub open spec fn path_ok(
    pages: Seq<Page>,
    places: Seq<Place>,
    path: Seq<(u32, usize)>,
    p: int,
) -> bool {
    &&& tree::stop(path, p as u32, 0) == 1
    &&& forall|i: int| 0 <= i < path.len() ==> #[trigger] hop_ok(pages, places, path, p, i)
}

/// An insertion under way: the entries of `run` are to go to page `p`, which
/// `path` leads to, from slot `skip` on.
pub struct Spread {
    pub pages: Seq<Page>,
    pub places: Seq<Place>,
    pub path: Seq<(u32, usize)>,
    pub p: int,
    pub skip: int,
    pub run: Seq<Item>,
}

impl Spread {
    pub open spec fn page(self) -> Page {
        self.pages[self.p]
    }

    /// The entries of the page with the new ones among them.
    pub open spec fn all(self) -> Seq<Item> {
        splice(self.page().items(), self.skip, self.run)
    }

    /// The tree as it would be if the page had room for the entries.
    pub open spec fn tree(self) -> Tree {
        Tree {
            nodes: grow::with_items(layout::nodes(self.pages), self.p, self.all()),
            places: self.places,
        }
    }

    /// All that is missing is room on the page.
    #[verifier::opaque]
    pub open spec fn ready(self) -> bool {
        &&& layout::pages_ok(self.pages)
        &&& 1 <= self.p < self.pages.len()
        &&& 0 <= self.skip <= self.page().slots.len()
        &&& self.run.len() > 0
        &&& entries_ok(self.run, self.page().flags)
        &&& self.tree().inv(None)
        &&& path_ok(self.pages, self.places, self.path, self.p)
    }

    pub open spec fn has_room(self) -> bool {
        model::load(self.run) <= self.page().free()
    }

    /// The entries are to be packed over new pages right of the page.
    pub open spec fn spill(self) -> Spill {
        let up = self.path.last();
        Spill {
            pages: self.pages,
            places: self.places,
            path: self.path.drop_last(),
            parent: up.0 as int,
            slot: up.1 as int,
            run: Seq::empty(),
            q: self.p,
            rest: self.all(),
        }
    }

    /// The root has been emptied but for an entry that leads to the first
    /// `m` of its entries, on a new page; the others are to be packed over
    /// new pages right of that.
    pub open spec fn spill_root(self, m: int, sep: Seq<u8>) -> Spill {
        let r = self.pages.len() + 1;
        Spill {
            pages: raise_pages(self.pages, self.all().take(m)),
            places: grow::split_root_places(self.tree(), sep),
            path: Seq::empty(),
            parent: 1,
            slot: 0,
            run: seq![layout::branch(sep, r as int)],
            q: r as int,
            rest: self.all().skip(m),
        }
    }
}

/// Entries being packed: `rest` is still to go to page `q` and new pages
/// right of it, and `run` is what `parent` is to get after its slot `slot`.
pub struct Spill {
    pub pages: Seq<Page>,
    pub places: Seq<Place>,
    pub path: Seq<(u32, usize)>,
    pub parent: int,
    pub slot: int,
    pub run: Seq<Item>,
    pub q: int,
    pub rest: Seq<Item>,
}

impl Spill {
    /// The tree as it would be if both pages had room.
    pub open spec fn tree(self) -> Tree {
        Tree {
            nodes: grow::with_items(
                grow::with_items(layout::nodes(self.pages), self.q, self.rest),
                self.parent,
                splice(self.pages[self.parent].items(), self.slot + 1, self.run),
            ),
            places: self.places,
        }
    }

    #[verifier::opaque]
    pub open spec fn ready(self) -> bool {
        &&& layout::pages_ok(self.pages)
        &&& 1 < self.q < self.pages.len()
        &&& 1 <= self.parent < self.pages.len()
        &&& !self.pages[self.parent].is_leaf()
        &&& 0 <= self.slot < self.pages[self.parent].slots.len()
        &&& entries_ok(self.run, P_BINTERNAL)
        &&& self.rest.len() > 0
        &&& entries_ok(self.rest, self.pages[self.q].flags)
        &&& self.q != self.parent
        &&& self.tree().inv(None)
        &&& self.tree().slot_of(self.parent, self.slot + self.run.len(), self.q)
        &&& path_ok(self.pages, self.places, self.path, self.parent)
    }

    /// The first `m` entries stay on the page, the others are to go to a new
    /// one.
    pub open spec fn shed(self, m: int, sep: Seq<u8>) -> Spill {
        let r = self.pages.len() as int;
        Spill {
            pages: shed_pages(self.pages, self.q, self.rest.take(m)),
            places: grow::split_places(self.tree(), self.q, sep),
            run: self.run.push(layout::branch(sep, r)),
            q: r,
            rest: self.rest.skip(m),
            ..self
        }
    }

    /// The last entries are on their page.
    pub open spec fn settle(self) -> Spread {
        Spread {
            pages: settle_pages(self.pages, self.q, self.rest),
            places: self.places,
            path: self.path,
            p: self.parent,
            skip: self.slot + 1,
            run: self.run,
        }
    }
}

/// Page `q` filled anew with `items`.
pub open spec fn settle_pages(pages: Seq<Page>, q: int, items: Seq<Item>) -> Seq<Page> {
    let page = pages[q];
    pages.update(
        q,
        (Page { prev: page.prev, next: page.next, ..Page::empty(page.pgno, page.flags) }).fill(
            items,
        ),
    )
}

/// Page `q` filled anew with `items`, and a new empty page right of it.
pub open spec fn shed_pages(pages: Seq<Page>, q: int, items: Seq<Item>) -> Seq<Page> {
    let page = pages[q];
    let r = pages.len() as u32;
    let left = (Page { prev: page.prev, next: r, ..Page::empty(page.pgno, page.flags) }).fill(
        items,
    );
    let right = Page { prev: q as u32, next: page.next, ..Page::empty(r, page.flags) };
    let parted = pages.update(q, left).push(right);
    if page.next == P_INVALID {
        parted
    } else {
        parted.update(page.next as int, Page { prev: r, ..parted[page.next as int] })
    }
}

/// The root made an internal page with one entry, for a new page with
/// `items`; right of that a new empty page.
pub open spec fn raise_pages(pages: Seq<Page>, items: Seq<Item>) -> Seq<Page> {
    let page = pages[1];
    let l = pages.len() as u32;
    let r = (pages.len() + 1) as u32;
    let left = (Page { next: r, ..Page::empty(l, page.flags) }).fill(items);
    let right = Page { prev: l, ..Page::empty(r, page.flags) };
    pages.update(1, lone_root(page, l as int)).push(left).push(right)
}

/// The root, made an internal page with one entry, for page `l`.
pub open spec fn lone_root(page: Page, l: int) -> Page {
    (Page { flags: P_BINTERNAL, upper: DEFAULT_PSIZE as int, slots: Seq::empty(), ..page }).place(
        0,
        layout::branch(Seq::empty(), l),
    )
}

/// A page filled with entries that fit.
proof fn lemma_filled(page: Page, items: Seq<Item>)
    requires
        page.wf(),
        page.slots.len() == 0,
        entries_ok(items, page.flags),
        model::load(items) <= model::usable(),
    ensures
        page.fill(items).wf(),
        page.fill(items).items() == items,
        page.fill(items).pgno == page.pgno,
        page.fill(items).prev == page.prev,
        page.fill(items).next == page.next,
        page.fill(items).flags == page.flags,
        forall|i: int|
            0 <= i < page.fill(items).slots.len() ==> layout::can_separate(
                (#[trigger] page.fill(items).slots[i]).item.key,
            ),
{
    assert(page.items() =~= Seq::<Item>::empty());
    model::lemma_fill(page, items);
    assert(page.items() + items =~= items);
    let full = page.fill(items);
    assert forall|i: int| 0 <= i < full.slots.len() implies layout::can_separate(
        (#[trigger] full.slots[i]).item.key,
    ) by {
        assert(full.items()[i] == full.slots[i].item);
        assert(layout::can_separate(items[i].key));
    }
}

/// An empty page between its siblings.
proof fn lemma_linked_empty(pgno: u32, prev: u32, next: u32, flags: u32)
    requires
        flags == crate::format::P_BLEAF || flags == P_BINTERNAL,
    ensures
        (Page { prev, next, ..Page::empty(pgno, flags) }).wf(),
        (Page { prev, next, ..Page::empty(pgno, flags) }).items() == Seq::<Item>::empty(),
{
    model::lemma_empty(pgno, flags);
    layout::lemma_linked(Page::empty(pgno, flags), prev, next);
}

/// Filling a page anew is filling its node anew.
proof fn lemma_settle_pages(pages: Seq<Page>, q: int, items: Seq<Item>)
    requires
        layout::pages_ok(pages),
        1 <= q < pages.len(),
        entries_ok(items, pages[q].flags),
        model::load(items) <= model::usable(),
    ensures
        layout::pages_ok(settle_pages(pages, q, items)),
        layout::nodes(settle_pages(pages, q, items)) == grow::with_items(
            layout::nodes(pages),
            q,
            items,
        ),
{
    let page = pages[q];
    let after = settle_pages(pages, q, items);
    assert(layout::page_ok(pages, q));
    lemma_linked_empty(page.pgno, page.prev, page.next, page.flags);
    lemma_filled(
        Page { prev: page.prev, next: page.next, ..Page::empty(page.pgno, page.flags) },
        items,
    );
    assert forall|i: int| 1 <= i < after.len() implies #[trigger] layout::page_ok(after, i) by {
        assert(layout::page_ok(pages, i));
    }
    assert(layout::nodes(after) =~= grow::with_items(layout::nodes(pages), q, items));
}

/// Shedding entries to a new page is splitting a node.
proof fn lemma_shed_pages(pages: Seq<Page>, q: int, rest: Seq<Item>, m: int)
    requires
        layout::pages_ok(pages),
        1 <= q < pages.len(),
        pages.len() <= u32::MAX,
        pages[q].next != q,
        pages[q].next < pages.len(),
        0 <= m <= rest.len(),
        entries_ok(rest, pages[q].flags),
        model::load(rest.take(m)) <= model::usable(),
    ensures
        layout::pages_ok(shed_pages(pages, q, rest.take(m))),
        grow::with_items(
            layout::nodes(shed_pages(pages, q, rest.take(m))),
            pages.len() as int,
            rest.skip(m),
        ) == grow::split_nodes(grow::with_items(layout::nodes(pages), q, rest), q, m),
{
    let page = pages[q];
    let r = pages.len() as u32;
    let items = rest.take(m);
    let left = Page { prev: page.prev, next: r, ..Page::empty(page.pgno, page.flags) };
    let right = Page { prev: q as u32, next: page.next, ..Page::empty(r, page.flags) };
    let after = shed_pages(pages, q, items);
    assert(layout::page_ok(pages, q));
    lemma_linked_empty(page.pgno, page.prev, r, page.flags);
    lemma_linked_empty(r, q as u32, page.next, page.flags);
    assert forall|i: int| 0 <= i < items.len() implies (#[trigger] items[i]) == rest[i] by {}
    lemma_filled(left, items);
    assert forall|i: int| 1 <= i < after.len() implies #[trigger] layout::page_ok(after, i) by {
        if i < pages.len() {
            assert(layout::page_ok(pages, i));
            if i != q && i == page.next {
                layout::lemma_linked(pages[i], r, pages[i].next);
            }
        }
    }
    if page.next != 0 {
        let n = page.next as int;
        assert(layout::page_ok(pages, n));
        layout::lemma_linked(pages[n], r, pages[n].next);
    }
    assert(grow::with_items(layout::nodes(after), r as int, rest.skip(m)) =~= grow::split_nodes(
        grow::with_items(layout::nodes(pages), q, rest),
        q,
        m,
    ));
}

/// Emptying the root is splitting its node.
proof fn lemma_raise_pages(pages: Seq<Page>, all: Seq<Item>, m: int, sep: Seq<u8>)
    requires
        layout::pages_ok(pages),
        1 < pages.len(),
        pages.len() + 1 <= u32::MAX,
        0 <= m <= all.len(),
        entries_ok(all, pages[1].flags),
        model::load(all.take(m)) <= model::usable(),
    ensures
        layout::pages_ok(raise_pages(pages, all.take(m))),
        ({
            let r = pages.len() + 1;
            let after = raise_pages(pages, all.take(m));
            &&& after[1].items() == seq![layout::branch(Seq::empty(), pages.len() as int)]
            &&& !after[1].is_leaf()
            &&& after[r as int].flags == pages[1].flags
            &&& grow::with_items(
                grow::with_items(layout::nodes(after), r as int, all.skip(m)),
                1,
                splice(after[1].items(), 1, seq![layout::branch(sep, r as int)]),
            ) == grow::split_root_nodes(grow::with_items(layout::nodes(pages), 1, all), m, sep)
        }),
{
    let page = pages[1];
    let l = pages.len() as u32;
    let r = (pages.len() + 1) as u32;
    let items = all.take(m);
    let left = Page { next: r, ..Page::empty(l, page.flags) };
    let right = Page { prev: l, ..Page::empty(r, page.flags) };
    let after = raise_pages(pages, items);
    assert(layout::page_ok(pages, 1));
    lemma_linked_empty(l, 0, r, page.flags);
    lemma_linked_empty(r, l, 0, page.flags);
    assert forall|i: int| 0 <= i < items.len() implies (#[trigger] items[i]) == all[i] by {}
    lemma_filled(left, items);
    let first = layout::branch(Seq::empty(), l as int);
    let root = Page { flags: P_BINTERNAL, upper: DEFAULT_PSIZE as int, slots: Seq::empty(), ..page };
    lemma_linked_empty(page.pgno, page.prev, page.next, P_BINTERNAL);
    assert(root == Page {
        prev: page.prev,
        next: page.next,
        ..Page::empty(page.pgno, P_BINTERNAL)
    });
    model::lemma_item_size(first);
    model::lemma_place(root, 0, first);
    assert(after[1].items() =~= seq![first]);
    assert forall|i: int| 1 <= i < after.len() implies #[trigger] layout::page_ok(after, i) by {
        if 1 < i < pages.len() {
            assert(layout::page_ok(pages, i));
        }
    }
    assert(splice(after[1].items(), 1, seq![layout::branch(sep, r as int)]) =~= seq![
        first,
        layout::branch(sep, r as int),
    ]);
    assert(grow::with_items(
        grow::with_items(layout::nodes(after), r as int, all.skip(m)),
        1,
        splice(after[1].items(), 1, seq![layout::branch(sep, r as int)]),
    ) =~= grow::split_root_nodes(grow::with_items(layout::nodes(pages), 1, all), m, sep));
}

/// The entries of a sound page can stand on their page.
proof fn lemma_page_entries(pages: Seq<Page>, p: int)
    requires
        layout::page_ok(pages, p),
    ensures
        entries_ok(pages[p].items(), pages[p].flags),
{
    let page = pages[p];
    assert forall|i: int| 0 <= i < page.items().len() implies (
    #[trigger] page.items()[i]).fits_kind(page.flags) && layout::can_separate(page.items()[i].key)
        && page.items()[i].cost() <= model::usable() by {
        assert(page.items()[i] == page.slots[i].item);
        crate::writer::plan::lemma_one_fits(page, i);
    }
}

/// What a page needs to know of an insertion that is ready.
pub proof fn lemma_ready(s: Spread)
    requires
        s.ready(),
    ensures
        layout::pages_ok(s.pages),
        layout::page_ok(s.pages, s.p),
        1 <= s.p < s.pages.len(),
        0 <= s.skip <= s.page().slots.len(),
        s.run.len() > 0,
        entries_ok(s.run, s.page().flags),
        entries_ok(s.all(), s.page().flags),
        s.all().len() == s.page().slots.len() + s.run.len(),
        model::load(s.all()) == model::load(s.page().items()) + model::load(s.run),
        tree::sorted(s.all()),
        s.tree().inv(None),
        s.path.len() == 0 <==> s.p == 1,
        forall|i: int|
            0 <= i < s.path.len() ==> 1 <= (#[trigger] s.path[i]).0 < s.pages.len() && s.path[i].1
                < s.pages[s.path[i].0 as int].slots.len() && !s.pages[s.path[i].0 as int].is_leaf(),
{
    reveal(Spread::ready);
    let items = s.page().items();
    assert(layout::page_ok(s.pages, s.p));
    lemma_page_entries(s.pages, s.p);
    let all = s.all();
    assert forall|i: int| 0 <= i < all.len() implies (#[trigger] all[i]).fits_kind(s.page().flags)
        && layout::can_separate(all[i].key) && all[i].cost() <= model::usable() by {
        if i < s.skip {
            assert(all[i] == items[i]);
        } else if i < s.skip + s.run.len() {
            assert(all[i] == s.run[i - s.skip]);
        } else {
            assert(all[i] == items[i - s.run.len()]);
        }
    }
    model::lemma_load_concat(items.take(s.skip) + s.run, items.skip(s.skip));
    model::lemma_load_concat(items.take(s.skip), s.run);
    model::lemma_load_concat(items.take(s.skip), items.skip(s.skip));
    assert(items =~= items.take(s.skip) + items.skip(s.skip));
    let t = s.tree();
    assert(t.page_ok(s.p, None));
    assert(t.nodes[s.p].items == all);
    assert forall|i: int| 0 <= i < s.path.len() implies 1 <= (#[trigger] s.path[i]).0
        < s.pages.len() && s.path[i].1 < s.pages[s.path[i].0 as int].slots.len()
        && !s.pages[s.path[i].0 as int].is_leaf() by {
        assert(hop_ok(s.pages, s.places, s.path, s.p, i));
    }
    if s.path.len() > 0 && s.p == 1 {
        assert(hop_ok(s.pages, s.places, s.path, s.p, 0));
        assert(false);
    }
}

/// A single entry is a run.
pub proof fn lemma_from_climb(c: Climb)
    requires
        c.ready(),
    ensures
        ({
            let s = Spread {
                pages: c.pages,
                places: c.places,
                path: c.path,
                p: c.p,
                skip: c.skip,
                run: seq![c.item],
            };
            &&& s.ready()
            &&& s.tree().nodes == c.tree().nodes
        }),
{
    reveal(Climb::ready);
    reveal(Spread::ready);
    let s = Spread {
        pages: c.pages,
        places: c.places,
        path: c.path,
        p: c.p,
        skip: c.skip,
        run: seq![c.item],
    };
    assert(s.all() =~= c.all());
    assert forall|i: int| 0 <= i < s.path.len() implies #[trigger] hop_ok(
        s.pages,
        s.places,
        s.path,
        s.p,
        i,
    ) by {
        assert(c.hop_ok(i));
    }
}

/// Packing begins with the same tree.
pub proof fn lemma_spill(s: Spread)
    requires
        s.ready(),
        s.path.len() > 0,
    ensures
        s.spill().ready(),
        s.spill().tree().nodes == s.tree().nodes,
{
    lemma_ready(s);
    reveal(Spread::ready);
    reveal(Spill::ready);
    let d = s.spill();
    let last = s.path.len() - 1;
    assert(hop_ok(s.pages, s.places, s.path, s.p, last));
    assert(s.path[last] == s.path.last());
    let items = s.pages[d.parent].items();
    assert(splice(items, d.slot + 1, Seq::empty()) =~= items);
    assert(d.tree().nodes =~= s.tree().nodes);
    assert(d.tree().slot_of(d.parent, d.slot, d.q));
    assert forall|i: int| 0 <= i < d.path.len() implies #[trigger] hop_ok(
        d.pages,
        d.places,
        d.path,
        d.parent,
        i,
    ) by {
        assert(hop_ok(s.pages, s.places, s.path, s.p, i));
        assert(tree::stop(d.path, d.parent as u32, i + 1) == tree::stop(
            s.path,
            s.p as u32,
            i + 1,
        ));
    }
    assert(tree::stop(d.path, d.parent as u32, 0) == tree::stop(s.path, s.p as u32, 0));
}

/// Emptying the root leaves the rest of its entries to be packed, in the
/// same tree.
pub proof fn lemma_spill_root(s: Spread, m: int, sep: Seq<u8>)
    requires
        s.ready(),
        s.path.len() == 0,
        0 < m < s.all().len(),
        model::load(s.all().take(m)) <= model::usable(),
        key::lt(s.all()[m - 1].key, sep),
        key::le(sep, s.all()[m].key),
        !s.page().is_leaf() ==> sep == s.all()[m].key,
        sep.len() <= s.all()[m].key.len(),
        s.pages.len() + 1 <= u32::MAX,
    ensures
        s.spill_root(m, sep).ready(),
        s.spill_root(m, sep).pages.len() == s.pages.len() + 2,
        s.spill_root(m, sep).pages[1].slots.len() == 1,
        forall|k: Seq<u8>, v: Seq<u8>| #[trigger]
            tree::has(s.spill_root(m, sep).tree().nodes, k, v) <==> tree::has(s.tree().nodes, k, v),
{
    lemma_ready(s);
    reveal(Spill::ready);
    let d = s.spill_root(m, sep);
    let t = s.tree();
    lemma_raise_pages(s.pages, s.all(), m, sep);
    assert(grow::parts(t.nodes[1], m, sep));
    grow::lemma_split_root(t, m, sep);
    assert(d.tree().nodes == grow::split_root_nodes(t.nodes, m, sep));
    assert(layout::can_separate(s.all()[m].key));
    crate::writer::climb::lemma_shorter_separates(sep, s.all()[m].key);
    model::lemma_item_size(layout::branch(sep, d.q));
    assert(d.pages[1].items().len() == d.pages[1].slots.len());
    assert(d.tree().slot_of(1, 1, d.q));
    assert forall|i: int| 0 <= i < d.rest.len() implies (#[trigger] d.rest[i]).fits_kind(
        d.pages[d.q].flags,
    ) && layout::can_separate(d.rest[i].key) && d.rest[i].cost() <= model::usable() by {
        assert(d.rest[i] == s.all()[m + i]);
    }
}

/// What the page needs to know of entries being packed.
pub proof fn lemma_spill_ready(d: Spill)
    requires
        d.ready(),
    ensures
        layout::pages_ok(d.pages),
        layout::page_ok(d.pages, d.q),
        layout::page_ok(d.pages, d.parent),
        1 < d.q < d.pages.len(),
        1 <= d.parent < d.pages.len(),
        0 <= d.slot < d.pages[d.parent].slots.len(),
        d.q != d.parent,
        d.rest.len() > 0,
        entries_ok(d.rest, d.pages[d.q].flags),
        tree::sorted(d.rest),
        d.pages[d.q].next != d.q,
        d.pages[d.q].next != d.parent,
        d.pages[d.q].next < d.pages.len(),
        forall|i: int|
            0 <= i < d.path.len() ==> (#[trigger] d.path[i]).0 != d.q && d.path[i].0
                != d.pages[d.q].next && 1 <= d.path[i].0 < d.pages.len() && d.path[i].0
                != d.parent,
{
    broadcast use key::group_key_order;

    reveal(Spill::ready);
    let t = d.tree();
    assert(layout::page_ok(d.pages, d.q));
    assert(layout::page_ok(d.pages, d.parent));
    assert(t.page_ok(d.q, None));
    assert(t.page_ok(d.parent, None));
    assert(t.nodes[d.q].items == d.rest);
    assert(t.nodes[d.q].next == d.pages[d.q].next);
    assert(t.child_ok(d.parent, d.slot + d.run.len(), None));
    if d.pages[d.q].next == d.q {
        assert(t.places[d.q].hi == Some(t.places[d.q].lo));
        assert(false);
    }
    assert forall|i: int| 0 <= i < d.path.len() implies (#[trigger] d.path[i]).0 != d.q
        && d.path[i].0 != d.pages[d.q].next && 1 <= d.path[i].0 < d.pages.len() && d.path[i].0
        != d.parent by {
        assert(hop_ok(d.pages, d.places, d.path, d.parent, i));
    }
}

/// Shedding entries to a new page leaves the rest to be packed, in the same
/// tree.
pub proof fn lemma_shed(d: Spill, m: int, sep: Seq<u8>)
    requires
        d.ready(),
        0 < m < d.rest.len(),
        model::load(d.rest.take(m)) <= model::usable(),
        key::lt(d.rest[m - 1].key, sep),
        key::le(sep, d.rest[m].key),
        !d.pages[d.q].is_leaf() ==> sep == d.rest[m].key,
        sep.len() <= d.rest[m].key.len(),
        d.pages.len() <= u32::MAX,
    ensures
        d.shed(m, sep).ready(),
        d.shed(m, sep).pages.len() == d.pages.len() + 1,
        d.shed(m, sep).pages[d.parent] == d.pages[d.parent],
        forall|k: Seq<u8>, v: Seq<u8>| #[trigger]
            tree::has(d.shed(m, sep).tree().nodes, k, v) <==> tree::has(d.tree().nodes, k, v),
{
    lemma_spill_ready(d);
    reveal(Spill::ready);
    let t = d.tree();
    let f = d.shed(m, sep);
    let r = d.pages.len() as int;
    let s = d.slot + d.run.len();
    assert(t.nodes[d.q].items == d.rest);
    lemma_shed_pages(d.pages, d.q, d.rest, m);
    assert(grow::parts(t.nodes[d.q], m, sep));
    grow::lemma_split(t, d.q, m, sep);
    let split = Tree {
        nodes: grow::split_nodes(t.nodes, d.q, m),
        places: grow::split_places(t, d.q, sep),
    };
    assert(split.nodes[d.parent] == t.nodes[d.parent]);
    assert(split.slot_of(d.parent, s as int, d.q));
    grow::lemma_insert_separator(split, Pending { left: d.q, right: r }, d.parent, s as int);
    let item = layout::branch(sep, r);
    assert(split.places[r].lo == sep);
    let before = splice(d.pages[d.parent].items(), d.slot + 1, d.run);
    let after = splice(d.pages[d.parent].items(), d.slot + 1, f.run);
    assert(before.insert(s + 1, item) =~= after);
    let inner = grow::with_items(layout::nodes(d.pages), d.q, d.rest);
    assert(t.nodes == grow::with_items(inner, d.parent, before));
    assert(f.pages[d.parent] == d.pages[d.parent]);
    assert(f.tree().nodes =~= grow::with_items(split.nodes, d.parent, after)) by {
        let part = grow::split_nodes(inner, d.q, m);
        assert(grow::with_items(part, d.parent, after) =~= grow::with_items(
            split.nodes,
            d.parent,
            after,
        ));
    }
    assert(layout::can_separate(d.rest[m].key));
    crate::writer::climb::lemma_shorter_separates(sep, d.rest[m].key);
    model::lemma_item_size(item);
    assert forall|i: int| 0 <= i < f.run.len() implies (#[trigger] f.run[i]).fits_kind(P_BINTERNAL)
        && layout::can_separate(f.run[i].key) && f.run[i].cost() <= model::usable() by {
        if i < d.run.len() {
            assert(f.run[i] == d.run[i]);
        }
    }
    assert forall|i: int| 0 <= i < f.rest.len() implies (#[trigger] f.rest[i]).fits_kind(
        f.pages[f.q].flags,
    ) && layout::can_separate(f.rest[i].key) && f.rest[i].cost() <= model::usable() by {
        assert(f.rest[i] == d.rest[m + i]);
    }
    assert(f.tree().slot_of(f.parent, f.slot + f.run.len(), f.q)) by {
        assert(after[s + 1] == item);
    }
    assert forall|i: int| 0 <= i < f.path.len() implies #[trigger] hop_ok(
        f.pages,
        f.places,
        f.path,
        f.parent,
        i,
    ) by {
        assert(hop_ok(d.pages, d.places, d.path, d.parent, i));
        assert(d.path[i].0 != d.q);
    }
}

/// Once the rest fits its page, the parent is next, with the same tree.
pub proof fn lemma_settle(d: Spill)
    requires
        d.ready(),
        d.run.len() > 0,
        model::load(d.rest) <= model::usable(),
    ensures
        d.settle().ready(),
        d.settle().pages.len() == d.pages.len(),
        d.settle().page() == d.pages[d.parent],
        d.settle().tree().nodes == d.tree().nodes,
{
    lemma_spill_ready(d);
    reveal(Spill::ready);
    reveal(Spread::ready);
    let s = d.settle();
    lemma_settle_pages(d.pages, d.q, d.rest);
    assert(s.tree().nodes =~= d.tree().nodes);
    assert(d.pages[d.parent].flags == P_BINTERNAL);
    assert forall|i: int| 0 <= i < s.path.len() implies #[trigger] hop_ok(
        s.pages,
        s.places,
        s.path,
        s.p,
        i,
    ) by {
        assert(hop_ok(d.pages, d.places, d.path, d.parent, i));
        assert(d.path[i].0 != d.q);
    }
}

/// Packing the entries of an internal page does not touch the leaves.
pub proof fn lemma_packed_leaves(d: Spill, items: Seq<Item>)
    requires
        d.ready(),
        !d.pages[d.q].is_leaf(),
    ensures
        layout::leaves_kept(d.pages, shed_pages(d.pages, d.q, items)),
        layout::leaves_kept(d.pages, settle_pages(d.pages, d.q, items)),
{
    lemma_spill_ready(d);
    reveal(Spill::ready);
    let t = d.tree();
    let page = d.pages[d.q];
    let next = page.next as int;
    assert(t.page_ok(d.q, None));
    assert(t.nodes[d.q].next == page.next);
    assert(t.nodes[d.q].leaf == page.is_leaf());
    if next != 0 {
        assert(t.page_ok(next, None));
        assert(t.nodes[next].leaf == d.pages[next].is_leaf());
    }
    let r = d.pages.len() as u32;
    layout::lemma_fill_flags(
        Page { prev: page.prev, next: r, ..Page::empty(page.pgno, page.flags) },
        items,
    );
    layout::lemma_fill_flags(
        Page { prev: page.prev, next: page.next, ..Page::empty(page.pgno, page.flags) },
        items,
    );
}

/// Nor does emptying an internal root.
pub proof fn lemma_raised_leaves(pages: Seq<Page>, items: Seq<Item>)
    requires
        1 < pages.len(),
        !pages[1].is_leaf(),
    ensures
        layout::leaves_kept(pages, raise_pages(pages, items)),
{
    let r = (pages.len() + 1) as u32;
    let l = pages.len() as u32;
    layout::lemma_fill_flags(Page { next: r, ..Page::empty(l, pages[1].flags) }, items);
}

/// A page without room for the run has entries, and they do not fit a page
/// together.
pub proof fn lemma_full(s: Spread)
    requires
        s.ready(),
        !s.has_room(),
    ensures
        model::load(s.all()) > model::usable(),
        model::load(s.page().items()) <= model::usable(),
{
    lemma_ready(s);
}

/// A root with a single entry needs fewer pages than it has entries.
pub proof fn lemma_fresh_pieces(s: Spread)
    requires
        s.ready(),
        s.p == 1,
        s.skip == 1,
        s.page().slots.len() == 1,
        !s.page().is_leaf(),
    ensures
        pack::pieces(s.all(), 0) <= s.run.len(),
{
    lemma_ready(s);
    let t = s.tree();
    let all = s.all();
    assert(t.page_ok(1, None));
    assert(t.nodes[1].items == all);
    assert(all[0].key == Seq::<u8>::empty());
    assert(all[1] == s.run[0]);
    assert(layout::can_separate(all[1].key));
    assert(all[0].fits_kind(s.page().flags) && all[1].fits_kind(s.page().flags));
    assert(s.page().flags == P_BINTERNAL);
    assert(pack::each_fits(all));
    pack::lemma_paired_pieces(all);
}

/// On a page with room the insertion ends.
pub proof fn lemma_placed(s: Spread, after: Seq<Page>)
    requires
        s.ready(),
        after.len() == s.pages.len(),
        after[s.p].wf(),
        after[s.p].items() == s.all(),
        after[s.p].pgno == s.page().pgno,
        after[s.p].prev == s.page().prev,
        after[s.p].next == s.page().next,
        after[s.p].flags == s.page().flags,
        forall|q: int| 0 <= q < after.len() && q != s.p ==> after[q] == s.pages[q],
    ensures
        layout::pages_ok(after),
        layout::nodes(after) == s.tree().nodes,
{
    lemma_ready(s);
    assert forall|q: int| 1 <= q < after.len() implies #[trigger] layout::page_ok(after, q) by {
        assert(layout::page_ok(s.pages, q));
        if q == s.p {
            assert forall|i: int| 0 <= i < after[q].slots.len() implies layout::can_separate(
                (#[trigger] after[q].slots[i]).item.key,
            ) by {
                assert(after[q].items()[i] == s.all()[i]);
            }
        }
    }
    assert(layout::nodes(after) =~= s.tree().nodes);
}

} // verus!
