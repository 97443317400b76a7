//! Where entries go, page by page: the rules of `bt_split.c`, in numbers.

use crate::disk;
use crate::key;
use crate::writer::arena;
use crate::writer::climb;
use crate::writer::climb::Climb;
use crate::writer::layout;
use crate::writer::model;
use crate::writer::model::{Item, Page, Slot};
use crate::writer::plan;
use crate::writer::separator;
use crate::writer::tree;
use crate::writer::tree::{Place, Tree};
use vstd::prelude::*;

verus! {

/// The bytes that an entry takes up: nine, the key and the value, rounded up
/// to a multiple of four.
pub open spec fn size(item: Item) -> int {
    (9 + item.key.len() + item.val.len() + 3) as int / 4 * 4
}

/// The bytes that entries take up, with two for the offset of each.
pub open spec fn weight(items: Seq<Item>) -> int
    decreases items.len(),
{
    if items.len() == 0 {
        0
    } else {
        weight(items.drop_last()) + size(items.last()) + 2
    }
}

/// The bytes between the offsets of a page, which follow its 20-byte header,
/// and its entries.
pub open spec fn room(page: Page) -> int {
    page.upper - 20 - 2 * page.slots.len()
}

/// How entries are measured.
pub proof fn law_measures(item: Item, items: Seq<Item>, page: Page)
    ensures
        item.size() == size(item),
        item.cost() == size(item) + 2,
        size(item) % 4 == 0,
        9 + item.key.len() + item.val.len() <= size(item) < 9 + item.key.len() + item.val.len()
            + 4,
        model::load(items) == weight(items),
        page.free() == room(page),
        model::usable() == 4076,
    decreases items.len(),
{
    model::lemma_item_size(item);
    if items.len() > 0 {
        law_measures(items.last(), items.drop_last(), page);
    }
}

/// Of the first `j` entries, the number of those that were on the page
/// before the new one, at `skip`, came.
pub open spec fn old_among(skip: int, j: int) -> int {
    if skip < j {
        j - 1
    } else {
        j
    }
}

/// The left page is done with `j` entries: they fill half of its 4076 bytes;
/// or only one of the old entries is left; or one more would fill the page
/// and the new one is among them, or is that one.
pub open spec fn done(items: Seq<Item>, skip: int, j: int) -> bool {
    ||| weight(items.take(j)) >= 2038
    ||| old_among(skip, j) == items.len() - 2
    ||| skip <= j && weight(items.take(j + 1)) >= 4076
}

/// A page is split at the first point where the left page is done.
pub proof fn law_split_at(items: Seq<Item>, skip: int)
    requires
        items.len() >= 2,
        0 <= skip < items.len(),
    ensures
        0 <= plan::split_point(items, skip) < items.len(),
        done(items, skip, plan::split_point(items, skip)),
        forall|j: int|
            0 <= j < plan::split_point(items, skip) ==> !#[trigger] done(items, skip, j),
{
    assert(items.take(0) =~= Seq::<Item>::empty());
    lemma_split_from(items, skip, 0);
}

proof fn lemma_split_from(items: Seq<Item>, skip: int, off: int)
    requires
        items.len() >= 2,
        0 <= skip < items.len(),
        0 <= off < items.len(),
        0 <= old_among(skip, off) < items.len() - 1,
        weight(items.take(off)) < 2038,
        forall|j: int| 0 <= j < off ==> !#[trigger] done(items, skip, j),
    ensures
        ({
            let m = plan::split_from(items, skip, off, weight(items.take(off)));
            &&& off <= m < items.len()
            &&& done(items, skip, m)
            &&& forall|j: int| 0 <= j < m ==> !#[trigger] done(items, skip, j)
        }),
    decreases items.len() - off,
{
    let cost = items[off].cost();
    law_measures(items[off], items, Page::empty(0, 0));
    assert(items.take(off + 1).drop_last() =~= items.take(off));
    assert(items.take(off + 1).last() == items[off]);
    assert(weight(items.take(off + 1)) == weight(items.take(off)) + cost);
    if done(items, skip, off) {
    } else if weight(items.take(off + 1)) >= 2038 {
        assert(done(items, skip, off + 1));
    } else {
        lemma_split_from(items, skip, off + 1);
    }
}

/// Each entry lies right below the one before it, the first right below
/// `top`.
pub open spec fn stacked(slots: Seq<Slot>, top: int) -> bool {
    forall|i: int|
        0 <= i < slots.len() ==> (#[trigger] slots[i]).off + size(slots[i].item) == if i == 0 {
            top
        } else {
            slots[i - 1].off
        }
}

/// The page was filled with `items` from its end down, and if one of them is
/// new, that one was the last to be written.
#[verifier::opaque]
pub open spec fn filled(page: Page, items: Seq<Item>, new: Option<int>) -> bool {
    &&& page.slots.len() == items.len()
    &&& forall|i: int| 0 <= i < items.len() ==> (#[trigger] page.slots[i]).item == items[i]
    &&& page.upper == 4096 - (weight(items) - 2 * items.len())
    &&& match new {
        None => stacked(page.slots, 4096),
        Some(s) => {
            &&& 0 <= s < items.len()
            &&& stacked(page.slots.remove(s), 4096)
            &&& page.slots[s].off == page.upper
        },
    }
}

proof fn lemma_filled(page: Page, items: Seq<Item>)
    requires
        page.slots.len() == 0,
        page.upper == 4096,
    ensures
        filled(page.fill(items), items, None),
        page.fill(items).pgno == page.pgno,
        page.fill(items).prev == page.prev,
        page.fill(items).next == page.next,
        page.fill(items).flags == page.flags,
        items.len() > 0 ==> page.fill(items).upper == page.fill(items).slots.last().off,
    decreases items.len(),
{
    reveal(filled);
    if items.len() > 0 {
        lemma_filled(page, items.drop_last());
        law_measures(items.last(), items, page);
        let a = page.fill(items.drop_last());
        let b = page.fill(items);
        assert(b == a.place(a.slots.len() as int, items.last()));
        assert forall|i: int| 0 <= i < items.len() implies (#[trigger] b.slots[i]).item
            == items[i] && b.slots[i].off + size(b.slots[i].item) == if i == 0 {
            4096
        } else {
            b.slots[i - 1].off
        } by {
            if i < items.len() - 1 {
                assert(b.slots[i] == a.slots[i]);
                assert(items.drop_last()[i] == items[i]);
            }
        }
    }
}

/// A filled page with a new entry.
proof fn lemma_placed(page: Page, items: Seq<Item>, s: int, item: Item)
    requires
        filled(page, items, None),
        0 <= s <= items.len(),
    ensures
        filled(page.place(s, item), items.insert(s, item), Some(s)),
{
    reveal(filled);
    let after = page.place(s, item);
    law_measures(item, items, page);
    law_measures(item, items.insert(s, item), page);
    model::lemma_load_insert(items, s, item);
    assert(after.slots.remove(s) =~= page.slots);
    assert forall|i: int| 0 <= i < items.len() + 1 implies (#[trigger] after.slots[i]).item
        == items.insert(s, item)[i] by {
        if i < s {
            assert(after.slots[i] == page.slots[i]);
        } else if i > s {
            assert(after.slots[i] == page.slots[i - 1]);
        }
    }
}

/// The two pages of a split: the entries up to the split point are on the
/// left one, the others on the right one.
proof fn lemma_halves(left: Page, right: Page, items: Seq<Item>, skip: int, item: Item)
    requires
        left.slots.len() == 0,
        left.upper == 4096,
        right.slots.len() == 0,
        right.upper == 4096,
        items.len() > 0,
        0 <= skip <= items.len(),
    ensures
        ({
            let all = items.insert(skip, item);
            let m = plan::split_point(all, skip);
            let (a, b) = layout::halves(left, right, items, skip, item);
            &&& 0 <= m < all.len()
            &&& filled(
                a,
                all.take(m),
                if skip < m {
                    Some(skip)
                } else {
                    None
                },
            )
            &&& filled(
                b,
                all.skip(m),
                if skip < m {
                    None
                } else {
                    Some(skip - m)
                },
            )
            &&& a.pgno == left.pgno && a.prev == left.prev && a.next == left.next && a.flags
                == left.flags
            &&& b.pgno == right.pgno && b.prev == right.prev && b.next == right.next && b.flags
                == right.flags
        }),
{
    let all = items.insert(skip, item);
    let m = plan::split_point(all, skip);
    law_split_at(all, skip);
    if skip < m {
        lemma_filled(left, items.take(m - 1));
        lemma_filled(right, items.skip(m - 1));
        lemma_placed(left.fill(items.take(m - 1)), items.take(m - 1), skip, item);
        assert(items.take(m - 1).insert(skip, item) =~= all.take(m));
        assert(items.skip(m - 1) =~= all.skip(m));
    } else {
        lemma_filled(left, items.take(m));
        lemma_filled(right, items.skip(m));
        lemma_placed(right.fill(items.skip(m)), items.skip(m), skip - m, item);
        assert(items.take(m) =~= all.take(m));
        assert(items.skip(m).insert(skip - m, item) =~= all.skip(m));
    }
}

/// A page that is split keeps its number and the entries up to the split
/// point; the next free number goes to a page right of it with the others.
/// No other page changes but for the link of the page that was next.
pub proof fn law_split(pages: Seq<Page>, p: int, skip: int, item: Item)
    requires
        1 <= p < pages.len() <= u32::MAX,
        pages[p].slots.len() > 0,
        0 <= skip <= pages[p].slots.len(),
        pages[p].next != p,
        pages[p].next < pages.len(),
    ensures
        ({
            let n = pages.len() as int;
            let page = pages[p];
            let all = page.items().insert(skip, item);
            let m = plan::split_point(all, skip);
            let after = layout::split_pages(pages, p, skip, item);
            &&& after.len() == n + 1
            &&& filled(
                after[p],
                all.take(m),
                if skip < m {
                    Some(skip)
                } else {
                    None
                },
            )
            &&& after[p].pgno == page.pgno && after[p].flags == page.flags && after[p].prev
                == page.prev && after[p].next == n
            &&& filled(
                after[n],
                all.skip(m),
                if skip < m {
                    None
                } else {
                    Some(skip - m)
                },
            )
            &&& after[n].pgno == n && after[n].flags == page.flags && after[n].prev == p
                && after[n].next == page.next
            &&& page.next != 0 ==> after[page.next as int] == (Page {
                prev: n as u32,
                ..pages[page.next as int]
            })
            &&& forall|q: int|
                0 <= q < n && q != p && (q != page.next || q == 0) ==> #[trigger] after[q]
                    == pages[q]
        }),
{
    let page = pages[p];
    let r = pages.len() as u32;
    lemma_halves(
        Page { prev: page.prev, next: r, ..Page::empty(page.pgno, page.flags) },
        Page { prev: p as u32, next: page.next, ..Page::empty(r, page.flags) },
        page.items(),
        skip,
        item,
    );
}

/// A page that gets a new last entry and has no page right of it is left as
/// it is; the next free number goes to a page right of it with the new entry
/// only.
pub proof fn law_append(pages: Seq<Page>, p: int, item: Item)
    requires
        1 <= p < pages.len() <= u32::MAX,
    ensures
        ({
            let n = pages.len() as int;
            let page = pages[p];
            let after = layout::append_page(pages, p, item);
            &&& after.len() == n + 1
            &&& after[p] == (Page { next: n as u32, ..page })
            &&& filled(after[n], seq![item], None)
            &&& after[n].pgno == n && after[n].flags == page.flags && after[n].prev == p
                && after[n].next == 0
            &&& forall|q: int| 0 <= q < n && q != p ==> #[trigger] after[q] == pages[q]
        }),
{
    let page = pages[p];
    let r = pages.len() as u32;
    let right = Page { prev: p as u32, ..Page::empty(r, page.flags) };
    lemma_filled(right, seq![item]);
    assert(seq![item].drop_last() =~= Seq::<Item>::empty());
    assert(right.fill(seq![item].drop_last()) == right);
    assert(right.fill(seq![item]) == right.place(0, item));
}

/// A root that is split keeps its number and becomes an internal page with
/// two entries: one without a key for the page with the next free number,
/// which gets the entries up to the split point, and one with the first key
/// of the page after that, which gets the others.
pub proof fn law_split_root(pages: Seq<Page>, skip: int, item: Item)
    requires
        1 < pages.len() < u32::MAX,
        pages[1].slots.len() > 0,
        0 <= skip <= pages[1].slots.len(),
    ensures
        ({
            let n = pages.len() as int;
            let page = pages[1];
            let all = page.items().insert(skip, item);
            let m = plan::split_point(all, skip);
            let after = layout::split_root_pages(pages, skip, item);
            let left = Item { key: Seq::empty(), word: n as u32, val: Seq::empty() };
            let right = Item { key: all[m].key, word: (n + 1) as u32, val: Seq::empty() };
            &&& after.len() == n + 2
            &&& after[1] == (Page {
                flags: 1,
                upper: 4084 - size(right),
                slots: seq![
                    Slot { off: 4084, item: left },
                    Slot { off: 4084 - size(right), item: right },
                ],
                ..page
            })
            &&& filled(
                after[n],
                all.take(m),
                if skip < m {
                    Some(skip)
                } else {
                    None
                },
            )
            &&& after[n].pgno == n && after[n].flags == page.flags && after[n].prev == 0
                && after[n].next == n + 1
            &&& filled(
                after[n + 1],
                all.skip(m),
                if skip < m {
                    None
                } else {
                    Some(skip - m)
                },
            )
            &&& after[n + 1].pgno == n + 1 && after[n + 1].flags == page.flags && after[n + 1].prev
                == n && after[n + 1].next == 0
            &&& forall|q: int| 0 <= q < n && q != 1 ==> #[trigger] after[q] == pages[q]
        }),
{
    let page = pages[1];
    let n = pages.len() as int;
    let all = page.items().insert(skip, item);
    let m = plan::split_point(all, skip);
    let l = pages.len() as u32;
    let r = (pages.len() + 1) as u32;
    let a = Page { next: r, ..Page::empty(l, page.flags) };
    let b = Page { prev: l, ..Page::empty(r, page.flags) };
    lemma_halves(a, b, page.items(), skip, item);
    let (left, right) = layout::halves(a, b, page.items(), skip, item);
    let first = right.items()[0].key;
    reveal(filled);
    assert(right.slots[0].item == all.skip(m)[0]);
    assert(first == all[m].key);
    let x = layout::branch(Seq::empty(), n);
    let y = layout::branch(first, n + 1);
    law_measures(x, Seq::empty(), page);
    law_measures(y, Seq::empty(), page);
    let root = layout::new_root(page, n, n + 1, first);
    assert(size(x) == 12);
    assert(root.slots =~= seq![
        Slot { off: 4084, item: x },
        Slot { off: 4084 - size(y), item: y },
    ]);
}

/// The separator for a page that begins with `first`, right of one that ends
/// with `last`, is `first` itself, or between leaves the shortest beginning
/// of it that comes after `last`, of `n` bytes, if that takes up less and
/// the entry is not the first separator of its level.
pub proof fn law_separator(
    leaf: bool,
    last: Seq<u8>,
    first: Seq<u8>,
    parent_prev: u32,
    slot: int,
    n: int,
)
    requires
        disk::before(last, first),
        0 <= n <= first.len(),
        disk::before(last, first.take(n)),
        forall|j: int| 0 <= j < n ==> !disk::before(last, #[trigger] first.take(j)),
    ensures
        separator::separator_key(leaf, last, first, parent_prev, slot) == if leaf && (parent_prev
            != 0 || slot > 1) && (9 + n + 3) / 4 * 4 < (9 + first.len() + 3) as int / 4 * 4 {
            first.take(n)
        } else {
            first
        },
{
    disk::law_order(last, first);
    separator::law_prefix(last, first);
    let k = separator::prefix_len(last, first);
    disk::law_order(last, first.take(n));
    disk::law_order(last, first.take(k));
    if n < k {
        assert(!key::lt(last, first.take(n)));
    }
    if k < n {
        assert(!disk::before(last, first.take(k)));
    }
}

/// How an insertion goes up the tree.  A page with room gets the entry below
/// all others; a root without room is split; any other page without room is
/// split, or appended to, and its parent gets the separator, with the number
/// of the new page, right after the entry that led to it.
pub proof fn law_levels(
    pages: Seq<Page>,
    path: Seq<(u32, usize)>,
    p: int,
    skip: int,
    item: Item,
)
    ensures
        ({
            let page = pages[p];
            let after = layout::grown(pages, path, p, skip, item);
            let all = page.items().insert(skip, item);
            let last = page.next == 0 && skip == page.slots.len();
            let m = if last {
                skip
            } else {
                plan::split_point(all, skip)
            };
            let up = path.last();
            if room(page) >= size(item) + 2 {
                after == pages.update(
                    p,
                    Page {
                        upper: page.upper - size(item),
                        slots: page.slots.insert(
                            skip,
                            Slot { off: page.upper - size(item), item },
                        ),
                        ..page
                    },
                )
            } else if path.len() == 0 {
                after == layout::split_root_pages(pages, skip, item)
            } else {
                after == layout::grown(
                    if last {
                        layout::append_page(pages, p, item)
                    } else {
                        layout::split_pages(pages, p, skip, item)
                    },
                    path.drop_last(),
                    up.0 as int,
                    up.1 + 1,
                    Item {
                        key: separator::separator_key(
                            page.flags == 2,
                            all[m - 1].key,
                            all[m].key,
                            pages[up.0 as int].prev,
                            up.1 + 1,
                        ),
                        word: pages.len() as u32,
                        val: Seq::empty(),
                    },
                )
            }
        }),
{
    law_measures(item, Seq::empty(), pages[p]);
}

/// Leaf `p` has been left as it is, but for its link to the new leaf, which
/// has the next free number and holds `item` only.  No other leaf has
/// changed, and there is no other new one.
pub open spec fn appended(a: Seq<Page>, b: Seq<Page>, p: int, item: Item) -> bool {
    let n = a.len() as int;
    &&& n < b.len()
    &&& b[p] == (Page { next: n as u32, ..a[p] })
    &&& b[n].pgno == n && b[n].prev == p && b[n].next == 0 && b[n].flags == 2
    &&& b[n].upper == 4096 - size(item)
    &&& b[n].slots == seq![Slot { off: 4096 - size(item), item }]
    &&& forall|q: int| 1 <= q < n && q != p && a[q].flags == 2 ==> #[trigger] b[q] == a[q]
    &&& forall|q: int| n < q < b.len() ==> (#[trigger] b[q]).flags != 2
}

/// Leaf `p` is the last one, is not the root, and has no room for the entry
/// of a pair whose key comes after all keys that are there.
pub open spec fn comes_last(pages: Seq<Page>, p: int, k: Seq<u8>, v: Seq<u8>) -> bool {
    &&& 1 < p < pages.len()
    &&& pages[p].flags == 2
    &&& pages[p].next == 0
    &&& room(pages[p]) < size(arena::pair(k, v)) + 2
    &&& forall|q: int, i: int|
        1 <= q < pages.len() && pages[q].flags == 2 && 0 <= i < pages[q].slots.len()
            ==> disk::before((#[trigger] pages[q].slots[i]).item.key, k)
}

/// A pair that comes last goes to the end of the last leaf.
pub proof fn lemma_comes_last(pages: Seq<Page>, p: int, k: Seq<u8>, v: Seq<u8>)
    requires
        arena::valid(pages),
        !arena::too_large(k, v),
        comes_last(pages, p, k, v),
    ensures
        arena::leaf_for(pages, k) == p,
        arena::slot_for(pages, k) == pages[p].slots.len(),
        !arena::contents(pages).contains_key(k),
        arena::path_to(pages, k).len() > 0,
        layout::appends(pages[p], arena::slot_for(pages, k)),
        arena::pair(k, v).cost() > pages[p].free(),
{
    broadcast use key::group_key_order;

    let places = choose|places: Seq<Place>| arena::placed(pages, places);
    let t = Tree { nodes: layout::nodes(pages), places };
    let items = pages[p].items();
    law_measures(arena::pair(k, v), Seq::empty(), pages[p]);
    assert(layout::page_ok(pages, p));
    assert(t.page_ok(p, None));
    assert(t.nodes[p].items == items);
    climb::lemma_full(pages[p], arena::pair(k, v));
    assert forall|i: int| 0 <= i < items.len() implies key::lt((#[trigger] items[i]).key, k) by {
        assert(disk::before(pages[p].slots[i].item.key, k));
        disk::law_order(items[i].key, k);
    }
    assert(t.covers(p, items[0].key));
    assert(t.covers(p, k));
    arena::lemma_path(pages, places, k);
    let path = arena::path_to(pages, k);
    tree::lemma_path_meets(t, k, path, arena::leaf_for(pages, k), path.len() as int, p);
    tree::lemma_rank_splits(items, k);
    let r = tree::rank(items, k);
    if r < items.len() {
        assert(key::le(k, items[r].key));
    }
    arena::lemma_lookup(pages, k);
    if path.len() == 0 {
        assert(tree::stop(path, arena::leaf_for(pages, k), 0) == 1);
    }
}

/// A pair whose key comes after all others leaves a full last leaf as it is
/// and gets a leaf of its own.
pub proof fn law_sorted_insert(pages: Seq<Page>, p: int, k: Seq<u8>, v: Seq<u8>)
    requires
        arena::valid(pages),
        arena::has_room(pages),
        !arena::too_large(k, v),
        arena::accepts(pages, k, v),
        comes_last(pages, p, k, v),
    ensures
        appended(pages, arena::inserted(pages, k, v), p, arena::pair(k, v)),
{
    let places = choose|places: Seq<Place>| arena::placed(pages, places);
    let c = arena::climb(pages, places, k, v);
    lemma_comes_last(pages, p, k, v);
    arena::lemma_climb_ready(pages, places, k, v);
    climb::lemma_ready(c);
    climb::lemma_step(c);
    let d = c.up();
    lemma_appended(c);
    climb::lemma_leaves_kept(d);
    lemma_still_appended(pages, d.pages, d.grown(), p, arena::pair(k, v));
}

/// The step up from a leaf that is appended to.
pub proof fn lemma_appended(c: Climb)
    requires
        c.ready(),
        !c.has_room(),
        c.path.len() > 0,
        c.page().is_leaf(),
        layout::appends(c.page(), c.skip),
    ensures
        appended(c.pages, c.up().pages, c.p, c.item),
        c.up().pages == layout::append_page(c.pages, c.p, c.item),
        c.up().ready(),
        !c.up().page().is_leaf(),
{
    let n = c.pages.len() as int;
    climb::lemma_ready(c);
    climb::lemma_step(c);
    climb::lemma_sibling_apart(c, c.path.len() - 1);
    law_append(c.pages, c.p, c.item);
    law_measures(c.item, seq![c.item], c.page());
    reveal(filled);
    let page = c.up().pages[n];
    assert(seq![c.item].drop_last() =~= Seq::<Item>::empty());
    assert(weight(seq![c.item].drop_last()) == 0);
    assert(weight(seq![c.item]) == size(c.item) + 2);
    assert(page.slots[0].off + size(page.slots[0].item) == 4096);
    assert(page.slots =~= seq![Slot { off: 4096 - size(c.item), item: c.item }]);
    climb::lemma_parent(c);
}

/// What follows above the leaves does not change them.
pub proof fn lemma_still_appended(
    a: Seq<Page>,
    b: Seq<Page>,
    c: Seq<Page>,
    p: int,
    item: Item,
)
    requires
        1 <= p < a.len(),
        a[p].flags == 2,
        appended(a, b, p, item),
        b.len() == a.len() + 1,
        layout::leaves_kept(b, c),
    ensures
        appended(a, c, p, item),
{
    let n = a.len() as int;
    assert(b[n].is_leaf() && b[p].is_leaf());
    assert(c[n] == b[n] && c[p] == b[p]);
    assert forall|q: int| 1 <= q < n && q != p && a[q].flags == 2 implies #[trigger] c[q]
        == a[q] by {
        assert(b[q] == a[q]);
        assert(b[q].is_leaf());
    }
    assert forall|q: int| n < q < c.len() implies (#[trigger] c[q]).flags != 2 by {
        assert(!c[q].is_leaf());
    }
}

/// In the entries of a sound leaf, a key is looked for among those that it
/// is neither before nor after.
pub proof fn law_rank(items: Seq<Item>, k: Seq<u8>, r: int)
    requires
        forall|i: int, j: int|
            0 <= i < j < items.len() ==> disk::before(
                (#[trigger] items[i]).key,
                (#[trigger] items[j]).key,
            ),
        0 <= r <= items.len(),
        forall|i: int| 0 <= i < r ==> disk::before((#[trigger] items[i]).key, k),
        forall|i: int| r <= i < items.len() ==> !disk::before((#[trigger] items[i]).key, k),
    ensures
        tree::rank(items, k) == r,
        tree::present(items, k) <==> exists|i: int|
            0 <= i < items.len() && (#[trigger] items[i]).key == k,
{
    broadcast use key::group_key_order;

    assert forall|i: int, j: int| 0 <= i < j < items.len() implies key::lt(
        (#[trigger] items[i]).key,
        (#[trigger] items[j]).key,
    ) by {
        assert(disk::before(items[i].key, items[j].key));
        disk::law_order(items[i].key, items[j].key);
    }
    tree::lemma_rank_splits(items, k);
    let n = tree::rank(items, k);
    if n < r {
        assert(disk::before(items[n].key, k));
        disk::law_order(items[n].key, k);
        assert(key::le(k, items[n].key));
    }
    if r < n {
        assert(!disk::before(items[r].key, k));
        disk::law_order(items[r].key, k);
        assert(key::lt(items[r].key, k));
    }
    if exists|i: int| 0 <= i < items.len() && (#[trigger] items[i]).key == k {
        let i = choose|i: int| 0 <= i < items.len() && (#[trigger] items[i]).key == k;
        tree::lemma_rank_of_key(items, i);
    }
}

/// In an internal page, a key is looked for below the last separator that it
/// is not before, or below the first entry.
pub proof fn law_pick(items: Seq<Item>, k: Seq<u8>, s: int)
    requires
        forall|i: int, j: int|
            0 <= i < j < items.len() ==> disk::before(
                (#[trigger] items[i]).key,
                (#[trigger] items[j]).key,
            ),
        0 <= s < items.len(),
        s > 0 ==> !disk::before(k, items[s].key),
        s + 1 < items.len() ==> disk::before(k, items[s + 1].key),
    ensures
        tree::pick(items, k) == s,
{
    broadcast use key::group_key_order;

    assert forall|i: int, j: int| 0 <= i < j < items.len() implies key::lt(
        (#[trigger] items[i]).key,
        (#[trigger] items[j]).key,
    ) by {
        assert(disk::before(items[i].key, items[j].key));
        disk::law_order(items[i].key, items[j].key);
    }
    disk::law_order(k, items[s].key);
    if s + 1 < items.len() {
        disk::law_order(k, items[s + 1].key);
    }
    tree::lemma_pick(items, k, s);
}

/// A removal takes the entry off its leaf and moves the entries below it up
/// by what it took up.  No other page changes, and a leaf may be left empty.
pub proof fn law_removed(pages: Seq<Page>, p: int, s: int)
    requires
        arena::valid(pages),
        1 <= p < pages.len(),
        pages[p].flags == 2,
        0 <= s < pages[p].slots.len(),
    ensures
        ({
            let page = pages[p];
            let gone = page.slots[s];
            let k = gone.item.key;
            let after = arena::removed(pages, k);
            &&& arena::contents(pages).contains_key(k)
            &&& after.len() == pages.len()
            &&& forall|q: int| 0 <= q < pages.len() && q != p ==> #[trigger] after[q] == pages[q]
            &&& after[p].upper == page.upper + size(gone.item)
            &&& after[p].pgno == page.pgno && after[p].flags == page.flags && after[p].prev
                == page.prev && after[p].next == page.next
            &&& after[p].slots.len() == page.slots.len() - 1
            &&& forall|i: int|
                0 <= i < after[p].slots.len() ==> (#[trigger] after[p].slots[i]).item
                    == page.slots[old_slot(s, i)].item && after[p].slots[i].off
                    == page.slots[old_slot(s, i)].off + if page.slots[old_slot(s, i)].off
                    < gone.off {
                    size(gone.item)
                } else {
                    0
                }
        }),
{
    let places = choose|places: Seq<Place>| arena::placed(pages, places);
    let t = Tree { nodes: layout::nodes(pages), places };
    let items = pages[p].items();
    let k = items[s].key;
    assert(t.page_ok(p, None));
    assert(t.nodes[p].items == items);
    assert(t.covers(p, items[s].key));
    arena::lemma_path(pages, places, k);
    let path = arena::path_to(pages, k);
    tree::lemma_path_meets(t, k, path, arena::leaf_for(pages, k), path.len() as int, p);
    tree::lemma_rank_of_key(items, s);
    arena::lemma_lookup(pages, k);
    law_measures(items[s], Seq::empty(), pages[p]);
}

/// The slot that slot `i` was before slot `s` went.
pub open spec fn old_slot(s: int, i: int) -> int {
    if i < s {
        i
    } else {
        i + 1
    }
}

/// An insertion can go up the tree as it is if each page that is split in
/// two at its split point leaves both halves with entries, and with no more
/// than fit their 4076 bytes.
pub proof fn law_admits(
    pages: Seq<Page>,
    path: Seq<(u32, usize)>,
    p: int,
    skip: int,
    item: Item,
    fresh: int,
)
    ensures
        ({
            let page = pages[p];
            let all = page.items().insert(skip, item);
            let last = page.next == 0 && skip == page.slots.len();
            let at = plan::split_point(all, skip);
            let parts = 0 < at < all.len() && weight(all.take(at)) <= 4076 && weight(all.skip(at))
                <= 4076;
            let m = if last {
                skip
            } else {
                at
            };
            let up = path.last();
            layout::admits(pages, path, p, skip, item, fresh) <==> if room(page) >= size(item)
                + 2 {
                true
            } else if path.len() == 0 {
                parts
            } else {
                (last || parts) && layout::admits(
                    pages,
                    path.drop_last(),
                    up.0 as int,
                    up.1 + 1,
                    Item {
                        key: separator::separator_key(
                            page.flags == 2,
                            all[m - 1].key,
                            all[m].key,
                            pages[up.0 as int].prev,
                            up.1 + 1,
                        ),
                        word: fresh as u32,
                        val: Seq::empty(),
                    },
                    fresh + 1,
                )
            }
        }),
{
    let all = pages[p].items().insert(skip, item);
    let at = plan::split_point(all, skip);
    law_measures(item, all.take(at), pages[p]);
    law_measures(item, all.skip(at), pages[p]);
}

/// A pair is inserted from its leaf up, as an entry with its key, the length
/// of its value and its value.
pub proof fn law_inserted(pages: Seq<Page>, k: Seq<u8>, v: Seq<u8>)
    ensures
        ({
            let item = Item { key: k, word: v.len() as u32, val: v };
            let path = arena::path_to(pages, k);
            let p = arena::leaf_for(pages, k) as int;
            let skip = tree::rank(pages[p].items(), k);
            &&& arena::pair(k, v) == item
            &&& arena::inserted(pages, k, v) == layout::grown(pages, path, p, skip, item)
            &&& arena::accepts(pages, k, v) <==> layout::admits(
                pages,
                path,
                p,
                skip,
                item,
                pages.len() as int,
            )
        }),
{
}

} // verus!
