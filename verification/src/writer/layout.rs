//! What an insertion does to the pages.

use crate::format::{DEFAULT_PSIZE, P_BINTERNAL, P_INVALID};
use crate::key;
use crate::writer::grow;
use crate::writer::model;
use crate::writer::model::{Item, Page};
use crate::writer::plan;
use crate::writer::separator;
use crate::writer::tree::Node;
use vstd::prelude::*;

verus! {

/// The entry of an internal page that leads to page `child`.
pub open spec fn branch(key: Seq<u8>, child: int) -> Item {
    Item { key, word: child as u32, val: Seq::empty() }
}

/// The pages as the tree sees them.
pub open spec fn nodes(pages: Seq<Page>) -> Seq<Node> {
    Seq::new(pages.len(), |p: int| pages[p].node())
}

/// The key can be a separator on any page, the root in particular, where it
/// shares the page with the entry for the left page.
pub open spec fn can_separate(key: Seq<u8>) -> bool {
    branch(key, 0).cost() + branch(Seq::empty(), 0).cost() <= model::usable()
}

/// The page is sound, has its number, and its keys can be separators.
pub open spec fn page_ok(pages: Seq<Page>, p: int) -> bool {
    &&& pages[p].wf()
    &&& pages[p].pgno == p
    &&& forall|i: int|
        0 <= i < pages[p].slots.len() ==> can_separate((#[trigger] pages[p].slots[i]).item.key)
}

/// Every page but the meta page is sound.
pub open spec fn pages_ok(pages: Seq<Page>) -> bool {
    forall|p: int| 1 <= p < pages.len() ==> #[trigger] page_ok(pages, p)
}

/// The two pages that the entries of a full page go to, with the new entry
/// among them at `skip`.  On its page the new entry is the last to be
/// written.
pub open spec fn halves(left: Page, right: Page, items: Seq<Item>, skip: int, item: Item) -> (
    Page,
    Page,
) {
    let m = plan::split_point(items.insert(skip, item), skip);
    if skip < m {
        (left.fill(items.take(m - 1)).place(skip, item), right.fill(items.skip(m - 1)))
    } else {
        (left.fill(items.take(m)), right.fill(items.skip(m)).place(skip - m, item))
    }
}

/// Page `p` split in two: the left half stays, the right half becomes a new
/// page.
pub open spec fn split_pages(pages: Seq<Page>, p: int, skip: int, item: Item) -> Seq<Page> {
    let page = pages[p];
    let r = pages.len() as u32;
    let (left, right) = halves(
        Page { prev: page.prev, next: r, ..Page::empty(page.pgno, page.flags) },
        Page { prev: p as u32, next: page.next, ..Page::empty(r, page.flags) },
        page.items(),
        skip,
        item,
    );
    let parted = pages.update(p, left).push(right);
    if page.next == P_INVALID {
        parted
    } else {
        parted.update(page.next as int, Page { prev: r, ..parted[page.next as int] })
    }
}

/// A new page to the right of `p`, the last of its level, with the new entry
/// only.
pub open spec fn append_page(pages: Seq<Page>, p: int, item: Item) -> Seq<Page> {
    let page = pages[p];
    let r = pages.len() as u32;
    let right = Page { prev: p as u32, ..Page::empty(r, page.flags) };
    pages.update(p, Page { next: r, ..page }).push(right.place(0, item))
}

/// The root split in two new pages, to which it then leads.
pub open spec fn split_root_pages(pages: Seq<Page>, skip: int, item: Item) -> Seq<Page> {
    let page = pages[1];
    let l = pages.len() as u32;
    let r = (pages.len() + 1) as u32;
    let (left, right) = halves(
        Page { next: r, ..Page::empty(l, page.flags) },
        Page { prev: l, ..Page::empty(r, page.flags) },
        page.items(),
        skip,
        item,
    );
    pages.update(1, new_root(page, l as int, r as int, right.items()[0].key)).push(left).push(
        right,
    )
}

/// The root, made an internal page with two entries: one for page `l`, with
/// the empty key, and one for page `r`.
pub open spec fn new_root(page: Page, l: int, r: int, key: Seq<u8>) -> Page {
    let root = Page { flags: P_BINTERNAL, upper: DEFAULT_PSIZE as int, slots: Seq::empty(), ..page };
    root.place(0, branch(Seq::empty(), l)).place(1, branch(key, r))
}

/// A page that is the last of its level and gets a new last entry is left
/// full, and the entry gets a page of its own.
pub open spec fn appends(page: Page, skip: int) -> bool {
    page.next == P_INVALID && skip == page.slots.len()
}

/// The first entry that goes to the right page when page `p` is split.
pub open spec fn cut_point(page: Page, skip: int, item: Item) -> int {
    if appends(page, skip) {
        page.slots.len() as int
    } else {
        plan::split_point(page.items().insert(skip, item), skip)
    }
}

/// The entry that the parent gets for the new page `child` when `page` is
/// split, in slot `slot`.
pub open spec fn promoted(
    page: Page,
    skip: int,
    item: Item,
    parent: Page,
    slot: int,
    child: int,
) -> Item {
    let items = page.items().insert(skip, item);
    let m = cut_point(page, skip, item);
    branch(
        separator::separator_key(
            page.is_leaf(),
            items[m - 1].key,
            items[m].key,
            parent.prev,
            slot,
        ),
        child,
    )
}

/// The pages once `item` is in slot `skip` of page `p`, the last stop of
/// `path`.  A page without room is split, and its parent gets an entry for
/// the new page in the same way.
pub open spec fn grown(
    pages: Seq<Page>,
    path: Seq<(u32, usize)>,
    p: int,
    skip: int,
    item: Item,
) -> Seq<Page>
    decreases path.len(),
{
    let page = pages[p];
    if item.cost() <= page.free() {
        pages.update(p, page.place(skip, item))
    } else if path.len() == 0 {
        split_root_pages(pages, skip, item)
    } else {
        let up = path.last();
        let after = if appends(page, skip) {
            append_page(pages, p, item)
        } else {
            split_pages(pages, p, skip, item)
        };
        grown(
            after,
            path.drop_last(),
            up.0 as int,
            up.1 + 1,
            promoted(page, skip, item, pages[up.0 as int], up.1 + 1, pages.len() as int),
        )
    }
}

/// The pages that the insertion writes from scratch: all new ones, and those
/// that are split but the root.
pub open spec fn built(
    pages: Seq<Page>,
    path: Seq<(u32, usize)>,
    p: int,
    skip: int,
    item: Item,
) -> Set<int>
    decreases path.len(),
{
    let page = pages[p];
    let r = pages.len() as int;
    if item.cost() <= page.free() {
        Set::empty()
    } else if path.len() == 0 {
        set![r, r + 1]
    } else {
        let up = path.last();
        let after = if appends(page, skip) {
            append_page(pages, p, item)
        } else {
            split_pages(pages, p, skip, item)
        };
        let above = built(
            after,
            path.drop_last(),
            up.0 as int,
            up.1 + 1,
            promoted(page, skip, item, pages[up.0 as int], up.1 + 1, r),
        );
        if appends(page, skip) {
            above.insert(r)
        } else {
            above.insert(p).insert(r)
        }
    }
}

/// Every split that the insertion brings leaves both pages with room for
/// their entries.  `fresh` is the number of the next new page.
pub open spec fn admits(
    pages: Seq<Page>,
    path: Seq<(u32, usize)>,
    p: int,
    skip: int,
    item: Item,
    fresh: int,
) -> bool
    decreases path.len(),
{
    let page = pages[p];
    if item.cost() <= page.free() {
        true
    } else if path.len() == 0 {
        plan::splits(page.items().insert(skip, item), skip)
    } else {
        let up = path.last();
        &&& appends(page, skip) || plan::splits(page.items().insert(skip, item), skip)
        &&& admits(
            pages,
            path.drop_last(),
            up.0 as int,
            up.1 + 1,
            promoted(page, skip, item, pages[up.0 as int], up.1 + 1, fresh),
            fresh + 1,
        )
    }
}

/// The leaves are the same, and there are no new ones.
pub open spec fn leaves_kept(a: Seq<Page>, b: Seq<Page>) -> bool {
    &&& a.len() <= b.len()
    &&& forall|q: int| 1 <= q < a.len() && a[q].is_leaf() ==> #[trigger] b[q] == a[q]
    &&& forall|q: int| 1 <= q < a.len() && !a[q].is_leaf() ==> !(#[trigger] b[q]).is_leaf()
    &&& forall|q: int| a.len() <= q < b.len() ==> !(#[trigger] b[q]).is_leaf()
}

/// Filling a page does not change its kind.
pub proof fn lemma_fill_flags(page: Page, items: Seq<Item>)
    ensures
        page.fill(items).flags == page.flags,
    decreases items.len(),
{
    if items.len() > 0 {
        lemma_fill_flags(page, items.drop_last());
    }
}

/// The two halves of a page are of its kind.
pub proof fn lemma_halves_flags(pages: Seq<Page>, p: int, skip: int, item: Item)
    ensures
        forall|left: Page, right: Page|
            ({
                let (a, b) = #[trigger] halves(left, right, pages[p].items(), skip, item);
                a.flags == left.flags && b.flags == right.flags
            }),
{
    let items = pages[p].items();
    assert forall|left: Page, right: Page|
        ({
            let (a, b) = #[trigger] halves(left, right, items, skip, item);
            a.flags == left.flags && b.flags == right.flags
        }) by {
        let m = plan::split_point(items.insert(skip, item), skip);
        lemma_fill_flags(left, items.take(m - 1));
        lemma_fill_flags(right, items.skip(m - 1));
        lemma_fill_flags(left, items.take(m));
        lemma_fill_flags(right, items.skip(m));
    }
}

/// The sibling links of a page do not matter to its entries.
pub proof fn lemma_linked(page: Page, prev: u32, next: u32)
    requires
        page.wf(),
    ensures
        (Page { prev, next, ..page }).wf(),
        (Page { prev, next, ..page }).items() == page.items(),
        (Page { prev, next, ..page }).free() == page.free(),
{
    assert((Page { prev, next, ..page }).items() =~= page.items());
}

/// What is on the two halves of a page.
proof fn lemma_halves(left: Page, right: Page, items: Seq<Item>, skip: int, item: Item)
    requires
        left.wf(),
        right.wf(),
        left.flags == right.flags,
        left.slots.len() == 0,
        right.slots.len() == 0,
        0 <= skip <= items.len(),
        item.fits_kind(left.flags),
        forall|i: int| 0 <= i < items.len() ==> (#[trigger] items[i]).fits_kind(left.flags),
        plan::splits(items.insert(skip, item), skip),
    ensures
        ({
            let m = plan::split_point(items.insert(skip, item), skip);
            let (a, b) = halves(left, right, items, skip, item);
            &&& a.wf()
            &&& b.wf()
            &&& a.items() == items.insert(skip, item).take(m)
            &&& b.items() == items.insert(skip, item).skip(m)
            &&& a.pgno == left.pgno && b.pgno == right.pgno
            &&& a.prev == left.prev && b.prev == right.prev
            &&& a.next == left.next && b.next == right.next
            &&& a.flags == left.flags && b.flags == right.flags
        }),
{
    let all = items.insert(skip, item);
    let m = plan::split_point(all, skip);
    assert(left.items() =~= Seq::<Item>::empty());
    assert(right.items() =~= Seq::<Item>::empty());
    assert(left.free() == model::usable());
    assert(right.free() == model::usable());
    model::lemma_item_size(item);
    if skip < m {
        let l = items.take(m - 1);
        let r = items.skip(m - 1);
        assert(l.insert(skip, item) =~= all.take(m));
        assert(r =~= all.skip(m));
        model::lemma_load_insert(l, skip, item);
        model::lemma_fill(left, l);
        model::lemma_fill(right, r);
        assert(left.items() + l =~= l);
        assert(right.items() + r =~= r);
        assert(left.fill(l).items().len() == left.fill(l).slots.len());
        model::lemma_place(left.fill(l), skip, item);
    } else {
        let l = items.take(m);
        let r = items.skip(m);
        assert(l =~= all.take(m));
        assert(r.insert(skip - m, item) =~= all.skip(m));
        model::lemma_load_insert(r, skip - m, item);
        model::lemma_fill(left, l);
        model::lemma_fill(right, r);
        assert(left.items() + l =~= l);
        assert(right.items() + r =~= r);
        assert(right.fill(r).items().len() == right.fill(r).slots.len());
        model::lemma_place(right.fill(r), skip - m, item);
    }
}

/// The entries of sound pages are of the kind of their page.
pub proof fn lemma_kinds(page: Page)
    requires
        page.wf(),
    ensures
        forall|i: int|
            0 <= i < page.items().len() ==> (#[trigger] page.items()[i]).fits_kind(page.flags),
{
    assert forall|i: int| 0 <= i < page.items().len() implies (
    #[trigger] page.items()[i]).fits_kind(page.flags) by {
        assert(page.items()[i] == page.slots[i].item);
    }
}

/// A page whose entries are among those of `items` is sound in its place.
proof fn lemma_page_ok(pages: Seq<Page>, p: int, items: Seq<Item>)
    requires
        0 <= p < pages.len(),
        pages[p].wf(),
        pages[p].pgno == p,
        forall|i: int| 0 <= i < items.len() ==> can_separate((#[trigger] items[i]).key),
        forall|i: int|
            0 <= i < pages[p].items().len() ==> items.contains(#[trigger] pages[p].items()[i]),
    ensures
        page_ok(pages, p),
{
    assert forall|i: int| 0 <= i < pages[p].slots.len() implies can_separate(
        (#[trigger] pages[p].slots[i]).item.key,
    ) by {
        assert(items.contains(pages[p].items()[i]));
        let j = choose|j: int| 0 <= j < items.len() && items[j] == pages[p].items()[i];
        assert(can_separate(items[j].key));
    }
}

/// The keys of a sound page and of a new entry can all be separators.
pub proof fn lemma_all_separate(pages: Seq<Page>, p: int, skip: int, item: Item)
    requires
        page_ok(pages, p),
        0 <= skip <= pages[p].slots.len(),
        can_separate(item.key),
    ensures
        forall|i: int|
            0 <= i <= pages[p].slots.len() ==> can_separate(
                (#[trigger] pages[p].items().insert(skip, item)[i]).key,
            ),
{
    assert forall|i: int| 0 <= i <= pages[p].slots.len() implies can_separate(
        (#[trigger] pages[p].items().insert(skip, item)[i]).key,
    ) by {
        if i < skip {
            assert(can_separate(pages[p].slots[i].item.key));
        } else if i > skip {
            assert(can_separate(pages[p].slots[i - 1].item.key));
        }
    }
}

/// An entry placed on a page with room for it.
pub proof fn lemma_placed(pages: Seq<Page>, p: int, skip: int, item: Item)
    requires
        pages_ok(pages),
        1 <= p < pages.len(),
        0 <= skip <= pages[p].slots.len(),
        item.fits_kind(pages[p].flags),
        can_separate(item.key),
        item.cost() <= pages[p].free(),
    ensures
        pages_ok(pages.update(p, pages[p].place(skip, item))),
        nodes(pages.update(p, pages[p].place(skip, item))) == grow::with_items(
            nodes(pages),
            p,
            pages[p].items().insert(skip, item),
        ),
{
    let after = pages.update(p, pages[p].place(skip, item));
    assert(page_ok(pages, p));
    model::lemma_place(pages[p], skip, item);
    lemma_all_separate(pages, p, skip, item);
    assert forall|q: int| 1 <= q < after.len() implies #[trigger] page_ok(after, q) by {
        assert(page_ok(pages, q));
        if q == p {
            lemma_page_ok(after, p, pages[p].items().insert(skip, item));
        }
    }
    assert(nodes(after) =~= grow::with_items(
        nodes(pages),
        p,
        pages[p].items().insert(skip, item),
    ));
}

/// A page split in two.
pub proof fn lemma_split_pages(pages: Seq<Page>, p: int, skip: int, item: Item)
    requires
        pages_ok(pages),
        1 <= p < pages.len(),
        pages.len() <= u32::MAX,
        0 <= skip <= pages[p].slots.len(),
        item.fits_kind(pages[p].flags),
        can_separate(item.key),
        pages[p].next != p,
        pages[p].next < pages.len(),
        plan::splits(pages[p].items().insert(skip, item), skip),
    ensures
        pages_ok(split_pages(pages, p, skip, item)),
        nodes(split_pages(pages, p, skip, item)) == grow::split_nodes(
            grow::with_items(nodes(pages), p, pages[p].items().insert(skip, item)),
            p,
            plan::split_point(pages[p].items().insert(skip, item), skip),
        ),
{
    let page = pages[p];
    let all = page.items().insert(skip, item);
    let m = plan::split_point(all, skip);
    let r = pages.len() as u32;
    let left = Page { prev: page.prev, next: r, ..Page::empty(page.pgno, page.flags) };
    let right = Page { prev: p as u32, next: page.next, ..Page::empty(r, page.flags) };
    let (a, b) = halves(left, right, page.items(), skip, item);
    let after = split_pages(pages, p, skip, item);
    assert(page_ok(pages, p));
    model::lemma_empty(page.pgno, page.flags);
    model::lemma_empty(r, page.flags);
    lemma_linked(Page::empty(page.pgno, page.flags), page.prev, r);
    lemma_linked(Page::empty(r, page.flags), p as u32, page.next);
    lemma_kinds(page);
    lemma_halves(left, right, page.items(), skip, item);
    lemma_all_separate(pages, p, skip, item);
    assert forall|q: int| 1 <= q < after.len() implies #[trigger] page_ok(after, q) by {
        if q == p {
            lemma_page_ok(after, q, all);
        } else if q == r {
            lemma_page_ok(after, q, all);
        } else {
            assert(page_ok(pages, q));
            if q == page.next {
                lemma_linked(pages[q], r, pages[q].next);
            }
        }
    }
    if page.next != 0 {
        let n = page.next as int;
        assert(page_ok(pages, n));
        lemma_linked(pages[n], r, pages[n].next);
    }
    assert(nodes(after) =~= grow::split_nodes(grow::with_items(nodes(pages), p, all), p, m));
}

/// A new last page of a level.
pub proof fn lemma_append_page(pages: Seq<Page>, p: int, item: Item)
    requires
        pages_ok(pages),
        1 <= p < pages.len(),
        pages.len() <= u32::MAX,
        item.fits_kind(pages[p].flags),
        can_separate(item.key),
        item.cost() <= model::usable(),
        pages[p].next == P_INVALID,
    ensures
        pages_ok(append_page(pages, p, item)),
        ({
            let n = pages[p].slots.len() as int;
            nodes(append_page(pages, p, item)) == grow::split_nodes(
                grow::with_items(nodes(pages), p, pages[p].items().insert(n, item)),
                p,
                n,
            )
        }),
{
    let page = pages[p];
    let n = page.slots.len() as int;
    let all = page.items().insert(n, item);
    let r = pages.len() as u32;
    let right = Page { prev: p as u32, ..Page::empty(r, page.flags) };
    let after = append_page(pages, p, item);
    assert(page_ok(pages, p));
    model::lemma_empty(r, page.flags);
    lemma_linked(Page::empty(r, page.flags), p as u32, 0);
    lemma_linked(page, page.prev, r);
    model::lemma_place(right, 0, item);
    lemma_all_separate(pages, p, n, item);
    assert(all.take(n) =~= page.items());
    assert(all.skip(n) =~= seq![item]);
    assert(right.place(0, item).items() =~= seq![item]);
    assert forall|q: int| 1 <= q < after.len() implies #[trigger] page_ok(after, q) by {
        if q == r {
            assert(all[n] == item);
            lemma_page_ok(after, q, all);
        } else {
            assert(page_ok(pages, q));
        }
    }
    assert(nodes(after) =~= grow::split_nodes(grow::with_items(nodes(pages), p, all), p, n));
}

/// The new root is sound, and each of its entries has room.
pub proof fn lemma_new_root(page: Page, l: int, r: int, key: Seq<u8>)
    requires
        can_separate(key),
    ensures
        new_root(page, l, r, key).wf(),
        new_root(page, l, r, key).items() == seq![branch(Seq::empty(), l), branch(key, r)],
        ({
            let root = Page {
                flags: P_BINTERNAL,
                upper: DEFAULT_PSIZE as int,
                slots: Seq::empty(),
                ..page
            };
            &&& branch(Seq::empty(), l).cost() <= root.free()
            &&& branch(key, r).cost() <= root.place(0, branch(Seq::empty(), l)).free()
        }),
{
    let root = Page { flags: P_BINTERNAL, upper: DEFAULT_PSIZE as int, slots: Seq::empty(), ..page };
    let first = branch(Seq::empty(), l);
    let second = branch(key, r);
    model::lemma_empty(page.pgno, P_BINTERNAL);
    lemma_linked(Page::empty(page.pgno, P_BINTERNAL), page.prev, page.next);
    assert(root == Page {
        prev: page.prev,
        next: page.next,
        ..Page::empty(page.pgno, P_BINTERNAL)
    });
    model::lemma_item_size(first);
    model::lemma_item_size(second);
    model::lemma_place(root, 0, first);
    let half = root.place(0, first);
    assert(half.items().len() == half.slots.len());
    model::lemma_place(half, 1, second);
    assert(new_root(page, l, r, key).items() =~= seq![first, second]);
}

/// The first key of the right half of the root can be its separator.
pub proof fn lemma_root_room(pages: Seq<Page>, skip: int, item: Item)
    requires
        pages_ok(pages),
        1 < pages.len(),
        0 <= skip <= pages[1].slots.len(),
        item.fits_kind(pages[1].flags),
        can_separate(item.key),
        plan::splits(pages[1].items().insert(skip, item), skip),
    ensures
        ({
            let l = pages.len() as u32;
            let r = (pages.len() + 1) as u32;
            let (left, right) = halves(
                Page { next: r, ..Page::empty(l, pages[1].flags) },
                Page { prev: l, ..Page::empty(r, pages[1].flags) },
                pages[1].items(),
                skip,
                item,
            );
            &&& right.slots.len() > 0
            &&& can_separate(right.slots[0].item.key)
            &&& right.items()[0] == right.slots[0].item
        }),
{
    let page = pages[1];
    let all = page.items().insert(skip, item);
    let m = plan::split_point(all, skip);
    let l = pages.len() as u32;
    let r = (pages.len() + 1) as u32;
    let left = Page { next: r, ..Page::empty(l, page.flags) };
    let right = Page { prev: l, ..Page::empty(r, page.flags) };
    let (a, b) = halves(left, right, page.items(), skip, item);
    assert(page_ok(pages, 1));
    model::lemma_empty(l, page.flags);
    model::lemma_empty(r, page.flags);
    lemma_linked(Page::empty(l, page.flags), 0, r);
    lemma_linked(Page::empty(r, page.flags), l, 0);
    lemma_kinds(page);
    lemma_halves(left, right, page.items(), skip, item);
    lemma_all_separate(pages, 1, skip, item);
    assert(b.items().len() == b.slots.len());
    assert(b.items()[0] == all[m]);
}

/// The root split in two.
pub proof fn lemma_split_root_pages(pages: Seq<Page>, skip: int, item: Item)
    requires
        pages_ok(pages),
        1 < pages.len(),
        pages.len() + 1 <= u32::MAX,
        0 <= skip <= pages[1].slots.len(),
        item.fits_kind(pages[1].flags),
        can_separate(item.key),
        plan::splits(pages[1].items().insert(skip, item), skip),
    ensures
        pages_ok(split_root_pages(pages, skip, item)),
        ({
            let all = pages[1].items().insert(skip, item);
            let m = plan::split_point(all, skip);
            nodes(split_root_pages(pages, skip, item)) == grow::split_root_nodes(
                grow::with_items(nodes(pages), 1, all),
                m,
                all[m].key,
            )
        }),
{
    let page = pages[1];
    let all = page.items().insert(skip, item);
    let m = plan::split_point(all, skip);
    let l = pages.len() as u32;
    let r = (pages.len() + 1) as u32;
    let left = Page { next: r, ..Page::empty(l, page.flags) };
    let right = Page { prev: l, ..Page::empty(r, page.flags) };
    let (a, b) = halves(left, right, page.items(), skip, item);
    let after = split_root_pages(pages, skip, item);
    assert(page_ok(pages, 1));
    model::lemma_empty(l, page.flags);
    model::lemma_empty(r, page.flags);
    lemma_linked(Page::empty(l, page.flags), 0, r);
    lemma_linked(Page::empty(r, page.flags), l, 0);
    lemma_kinds(page);
    lemma_halves(left, right, page.items(), skip, item);
    lemma_all_separate(pages, 1, skip, item);

    let key = all[m].key;
    assert(b.items()[0] == all[m]);
    let first = branch(Seq::empty(), l as int);
    let second = branch(key, r as int);
    assert(can_separate(key));
    lemma_new_root(page, l as int, r as int, key);
    assert forall|q: int| 1 <= q < after.len() implies #[trigger] page_ok(after, q) by {
        if q == l {
            lemma_page_ok(after, q, all);
        } else if q == r {
            lemma_page_ok(after, q, all);
        } else if q == 1 {
            assert(can_separate(Seq::<u8>::empty()));
            lemma_page_ok(after, q, seq![first, second]);
        } else {
            assert(page_ok(pages, q));
        }
    }
    assert(nodes(after) =~= grow::split_root_nodes(
        grow::with_items(nodes(pages), 1, all),
        m,
        key,
    ));
}

} // verus!
