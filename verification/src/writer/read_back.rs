//! What a reader finds in a finished file.

use crate::bytes;
use crate::bytes::Endian;
use crate::disk;
use crate::disk::Disk;
use crate::error::Error;
use crate::format::{BTREE_MAGIC, DEFAULT_PSIZE, P_INVALID, P_ROOT};
use crate::image;
use crate::image::{Image, Pair};
use crate::key;
use crate::page::RawPage;
use crate::sound;
use crate::sound::{Btree, Cell, Sheet, Span};
use crate::writer::arena;
use crate::writer::file;
use crate::writer::layout;
use crate::writer::model::{Item, Page};
use crate::writer::tree;
use crate::writer::tree::{Place, Tree};
use vstd::prelude::*;
use vstd::set_lib::set_int_range;

verus! {

/// The image of a finished file.
pub open spec fn image_of(b: Seq<u8>, e: Endian) -> Image {
    Image { bytes: b, psize: DEFAULT_PSIZE as int, endian: e }
}

/// A finished file opens on a machine of either byte order.
pub proof fn law_opens(b: Seq<u8>, pages: Seq<Page>, e: Endian, host: Endian)
    requires
        file::is_file(b, pages, e),
        arena::valid(pages),
    ensures
        image::open_image(b, host) == Ok::<Image, Error>(image_of(b, e)),
{
    assert(bytes::u32_at(b, 0, e) == BTREE_MAGIC);
    image::lemma_magic(b, e);
    assert(crate::format::file_endian(b, host) == e);
    assert(0x20u32 & !0xa0u32 == 0 && 0x20u32 & 0x80u32 == 0) by (bit_vector);
    assert(b.len() as int % 4096 == 0);
}

/// Page `p` as the reader sees it.
pub open spec fn raw(b: Seq<u8>, p: int, e: Endian) -> RawPage {
    RawPage { pgno: p as u32, ..file::stored(b, p, e) }
}

/// The reader's page is the writer's.
pub proof fn lemma_page(b: Seq<u8>, pages: Seq<Page>, e: Endian, p: u32)
    requires
        file::is_file(b, pages, e),
        1 <= p < pages.len(),
    ensures
        image_of(b, e).page(p) == Ok::<RawPage, Error>(raw(b, p as int, e)),
        raw(b, p as int, e).nentries() == pages[p as int].slots.len(),
        raw(b, p as int, e).prev_pg() == pages[p as int].prev,
        raw(b, p as int, e).next_pg() == pages[p as int].next,
        pages[p as int].wf(),
        raw(b, p as int, e).is_leaf() == pages[p as int].is_leaf(),
        raw(b, p as int, e).is_internal() == !pages[p as int].is_leaf(),
{
    let s = file::stored(b, p as int, e);
    assert(s.sound() && s.decode() == pages[p as int]);
    assert(s.flags() == pages[p as int].flags);
    assert(0x01u32 & 0x1fu32 == 0x01u32 && 0x02u32 & 0x1fu32 == 0x02u32 && 0x01u32 & 0x02u32 == 0
        && 0x02u32 & 0x02u32 != 0 && 0x01u32 & 0x01u32 != 0 && 0x02u32 & 0x01u32 == 0) by (bit_vector);
    assert(s.decode().slots.len() == s.nentries());
    assert(raw(b, p as int, e).header_error() is None);
}

/// What an entry is to the reader.
pub open spec fn cell(item: Item) -> Cell {
    Cell { key: item.key, val: item.val, child: item.word }
}

/// What a page is to the reader.
pub open spec fn sheet(page: Page) -> Sheet {
    Sheet {
        leaf: page.is_leaf(),
        leftmost: page.prev == P_INVALID,
        next: page.next,
        cells: Seq::new(page.slots.len(), |i: int| cell(page.slots[i].item)),
    }
}

/// The reader decodes what the writer wrote.
proof fn lemma_sheet(b: Seq<u8>, pages: Seq<Page>, e: Endian, p: u32)
    requires
        file::is_file(b, pages, e),
        1 <= p < pages.len(),
        pages[p as int].is_leaf() || pages[p as int].slots.len() > 0,
    ensures
        sheet(pages[p as int]).is_on(image_of(b, e), raw(b, p as int, e)),
{
    let s = file::stored(b, p as int, e);
    let r = raw(b, p as int, e);
    let page = pages[p as int];
    let sh = sheet(page);
    let image = image_of(b, e);
    lemma_page(b, pages, e, p);
    assert(s.sound() && s.decode() == page);
    assert(s.decode().slots.len() == s.nentries());
    assert(s.flags() == page.flags);
    assert(0u8 & 0x01u8 == 0 && 0u8 & 0x02u8 == 0) by (bit_vector);
    assert forall|i: int| 0 <= i < sh.cells.len() implies (page.is_leaf() ==> sound::leaf_cell(
        image,
        r,
        i,
        #[trigger] sh.cells[i],
    )) && (!page.is_leaf() ==> sound::branch_cell(image, r, i, sh.cells[i], sh.counts(i))) by {
        assert(s.entry_sound(i));
        assert(s.decode().slots[i] == s.stored_slot(i));
        let item = s.stored_item(s.linp(i));
        if page.is_leaf() {
            let entry = r.leaf_entry(i)->Ok_0;
            assert(r.inline(entry.key)->Ok_0 =~= item.key);
            assert(r.inline(entry.data)->Ok_0 =~= item.val);
        } else {
            let entry = r.internal_entry(i)->Ok_0;
            assert(r.inline(entry.key)->Ok_0 =~= item.key);
        }
    }
}

/// Leaf `p` and the leaves right of it, at most `fuel` in all.
pub open spec fn chain(pages: Seq<Page>, p: u32, fuel: nat) -> Seq<u32>
    decreases fuel,
{
    if fuel == 0 || p == P_INVALID {
        Seq::empty()
    } else {
        seq![p] + chain(pages, pages[p as int].next, (fuel - 1) as nat)
    }
}

/// The leftmost leaf below page `p`.
pub open spec fn leftmost(pages: Seq<Page>, p: u32, fuel: nat) -> u32
    decreases fuel,
{
    if fuel == 0 || pages[p as int].is_leaf() {
        p
    } else {
        leftmost(pages, pages[p as int].items()[0].word, (fuel - 1) as nat)
    }
}

/// The tree that placed pages are to the reader.
pub open spec fn btree_of(pages: Seq<Page>, places: Seq<Place>) -> Btree {
    Btree {
        sheets: Map::new(|p: u32| 1 <= p < pages.len(), |p: u32| sheet(pages[p as int])),
        spans: Map::new(
            |p: u32| 1 <= p < pages.len(),
            |p: u32|
                Span {
                    level: places[p as int].level,
                    lo: places[p as int].lo,
                    hi: places[p as int].hi,
                },
        ),
        leaves: chain(pages, leftmost(pages, P_ROOT, pages.len()), pages.len()),
    }
}

/// The tree that valid pages are to the reader.
pub open spec fn btree(pages: Seq<Page>) -> Btree {
    btree_of(pages, choose|places: Seq<Place>| arena::placed(pages, places))
}

/// The leaves right of leaf `p`.
spec fn right_of(t: Tree, p: int) -> Set<int> {
    Set::new(
        |q: int|
            1 <= q < t.nodes.len() && t.nodes[q].leaf && key::lt(t.places[p].lo, t.places[q].lo),
    )
}

/// How many leaves there are from leaf `p` on.
spec fn span(t: Tree, p: int) -> nat {
    (right_of(t, p).len() + 1) as nat
}

proof fn lemma_span(t: Tree, p: int)
    requires
        t.inv(None),
        t.page(p),
        t.nodes[p].leaf,
    ensures
        right_of(t, p).finite(),
        span(t, p) < t.nodes.len(),
        ({
            let next = t.nodes[p].next as int;
            next != 0 ==> {
                &&& t.page(next)
                &&& t.nodes[next].leaf
                &&& t.places[p].hi == Some(t.places[next].lo)
                &&& key::lt(t.places[p].lo, t.places[next].lo)
                &&& span(t, next) < span(t, p)
            }
        }),
{
    broadcast use key::group_key_order;

    let all = set_int_range(1, t.nodes.len() as int);
    vstd::set_lib::lemma_int_range(1, t.nodes.len() as int);
    assert(right_of(t, p).subset_of(all));
    vstd::set_lib::lemma_len_subset(right_of(t, p), all);
    right_of(t, p).lemma_subset_not_in_lt(all, p);
    let next = t.nodes[p].next as int;
    assert(t.page_ok(p, None));
    if next != 0 {
        assert(t.page_ok(next, None));
        assert(right_of(t, next).subset_of(right_of(t, p))) by {
            assert forall|q: int| right_of(t, next).contains(q) implies right_of(
                t,
                p,
            ).contains(q) by {
                key::lemma_lt_transitive(
                    t.places[p].lo,
                    t.places[next].lo,
                    t.places[q].lo,
                );
            }
        }
        right_of(t, next).lemma_subset_not_in_lt(right_of(t, p), next);
    }
}

/// The leftmost leaf starts with the first of all keys.
proof fn lemma_leftmost(pages: Seq<Page>, places: Seq<Place>, p: u32, fuel: nat)
    requires
        layout::pages_ok(pages),
        arena::placed(pages, places),
        1 <= p < pages.len(),
        places[p as int].level <= fuel,
        places[p as int].lo == Seq::<u8>::empty(),
    ensures
        1 <= leftmost(pages, p, fuel) < pages.len(),
        pages[leftmost(pages, p, fuel) as int].is_leaf(),
        places[leftmost(pages, p, fuel) as int].lo == Seq::<u8>::empty(),
    decreases fuel,
{
    let t = Tree { nodes: layout::nodes(pages), places };
    assert(t.page_ok(p as int, None));
    if !pages[p as int].is_leaf() {
        assert(t.nodes[p as int].items == pages[p as int].items());
        assert(t.child_ok(p as int, 0, None));
        lemma_leftmost(
            pages,
            places,
            pages[p as int].items()[0].word,
            (fuel - 1) as nat,
        );
    }
}

/// The leaves from leaf `p` on are linked and share out the keys.
proof fn lemma_chain(pages: Seq<Page>, places: Seq<Place>, p: u32, fuel: nat)
    requires
        arena::placed(pages, places),
        1 <= p < pages.len(),
        pages[p as int].is_leaf(),
        span(Tree { nodes: layout::nodes(pages), places }, p as int) <= fuel,
    ensures
        ({
            let c = chain(pages, p, fuel);
            &&& c.len() > 0
            &&& c[0] == p
            &&& forall|i: int| 0 <= i < c.len() ==> #[trigger] linked(pages, places, c, i)
        }),
    decreases fuel,
{
    let t = Tree { nodes: layout::nodes(pages), places };
    let c = chain(pages, p, fuel);
    let next = pages[p as int].next;
    let rest = chain(pages, next, (fuel - 1) as nat);
    assert(c == seq![p] + rest);
    lemma_span(t, p as int);
    assert(t.page_ok(p as int, None));
    assert(t.nodes[p as int].next == next);
    if next != 0 {
        lemma_chain(pages, places, next, (fuel - 1) as nat);
    }
    assert forall|i: int| 0 <= i < c.len() implies #[trigger] linked(pages, places, c, i) by {
        if i > 0 {
            assert(c[i] == rest[i - 1]);
            assert(linked(pages, places, rest, i - 1));
        }
    }
}

/// Entry `i` of the chain is a leaf, and the next one is its right sibling.
spec fn linked(pages: Seq<Page>, places: Seq<Place>, c: Seq<u32>, i: int) -> bool {
    let p = c[i] as int;
    &&& 1 <= p < pages.len()
    &&& pages[p].is_leaf()
    &&& i + 1 < c.len() ==> pages[p].next == c[i + 1] && places[p].hi == Some(
        places[c[i + 1] as int].lo,
    )
    &&& i + 1 == c.len() ==> pages[p].next == P_INVALID && places[p].hi is None
}

/// The chain from leaf `p` on has every leaf right of `p`.
proof fn lemma_chain_complete(
    pages: Seq<Page>,
    places: Seq<Place>,
    p: u32,
    fuel: nat,
    q: u32,
)
    requires
        layout::pages_ok(pages),
        2 <= pages.len(),
        arena::placed(pages, places),
        1 <= p < pages.len(),
        pages[p as int].is_leaf(),
        span(Tree { nodes: layout::nodes(pages), places }, p as int) <= fuel,
        1 <= q < pages.len(),
        pages[q as int].is_leaf(),
        key::le(places[p as int].lo, places[q as int].lo),
    ensures
        chain(pages, p, fuel).contains(q),
    decreases fuel,
{
    broadcast use key::group_key_order;

    let t = Tree { nodes: layout::nodes(pages), places };
    let c = chain(pages, p, fuel);
    let next = pages[p as int].next;
    let rest = chain(pages, next, (fuel - 1) as nat);
    assert(c == seq![p] + rest);
    if p == q {
        assert(c[0] == q);
    } else {
        let k = places[q as int].lo;
        assert(t.page_ok(p as int, None));
        assert(t.page_ok(q as int, None));
        assert(t.covers(q as int, k));
        arena::lemma_path(pages, places, k);
        let path = arena::path_to(pages, k);
        let leaf = arena::leaf_for(pages, k);
        tree::lemma_path_meets(t, k, path, leaf, path.len() as int, q as int);
        if t.covers(p as int, k) {
            tree::lemma_path_meets(t, k, path, leaf, path.len() as int, p as int);
            assert(false);
        }
        lemma_span(t, p as int);
        assert(t.nodes[p as int].next == next);
        lemma_chain_complete(pages, places, next, (fuel - 1) as nat, q);
        let j = choose|j: int| 0 <= j < rest.len() && rest[j] == q;
        assert(c[1 + j] == q);
    }
}

/// The leaves of the tree, from the leftmost on.
proof fn lemma_leaves(pages: Seq<Page>, places: Seq<Place>)
    requires
        2 <= pages.len(),
        layout::pages_ok(pages),
        arena::placed(pages, places),
    ensures
        ({
            let c = btree_of(pages, places).leaves;
            &&& c.len() > 0
            &&& places[c[0] as int].lo == Seq::<u8>::empty()
            &&& forall|i: int| 0 <= i < c.len() ==> #[trigger] linked(pages, places, c, i)
            &&& forall|q: u32|
                1 <= q < pages.len() && pages[q as int].is_leaf() ==> #[trigger] c.contains(q)
        }),
{
    let t = Tree { nodes: layout::nodes(pages), places };
    let first = leftmost(pages, P_ROOT, pages.len());
    let c = btree_of(pages, places).leaves;
    lemma_leftmost(pages, places, P_ROOT, pages.len());
    lemma_span(t, first as int);
    lemma_chain(pages, places, first, pages.len());
    assert forall|q: u32| 1 <= q < pages.len() && pages[q as int].is_leaf() implies #[trigger] c.contains(
        q,
    ) by {
        key::lemma_empty_before(places[q as int].lo);
        lemma_chain_complete(pages, places, first, pages.len(), q);
    }
}

/// A finished file is sound: it holds the tree that the writer built.
pub proof fn law_sound(b: Seq<u8>, pages: Seq<Page>, e: Endian)
    requires
        file::is_file(b, pages, e),
        arena::valid(pages),
    ensures
        btree(pages).sound(image_of(b, e)),
{
    let places = choose|places: Seq<Place>| arena::placed(pages, places);
    let t = Tree { nodes: layout::nodes(pages), places };
    let bt = btree(pages);
    let image = image_of(b, e);
    lemma_leaves(pages, places);
    assert(bt == btree_of(pages, places));
    assert forall|p: u32| #[trigger] bt.sheets.contains_key(p) implies bt.sheet_ok(image, p) by {
        let sh = bt.sheets[p];
        let items = pages[p as int].items();
        assert(t.page_ok(p as int, None));
        assert(t.nodes[p as int].items == items);
        assert(items.len() == pages[p as int].slots.len());
        lemma_page(b, pages, e, p);
        lemma_sheet(b, pages, e, p);
        assert forall|i: int| 0 <= i < sh.cells.len() implies (#[trigger] sh.cells[i]).key
            == items[i].key by {}
        assert forall|i: int, j: int|
            0 <= i < j < sh.cells.len() && sh.counts(i) implies key::lt(
            (#[trigger] sh.cells[i]).key,
            (#[trigger] sh.cells[j]).key,
        ) by {
            assert(key::lt(items[i].key, items[j].key));
        }
        if sh.leaf {
            assert forall|i: int| 0 <= i < sh.cells.len() implies bt.spans[p].covers(
                (#[trigger] sh.cells[i]).key,
            ) by {
                assert(t.covers(p as int, items[i].key));
            }
        } else {
            assert forall|s: int| 0 <= s < sh.cells.len() implies #[trigger] bt.child_ok(p, s) by {
                assert(t.child_ok(p as int, s, None));
            }
        }
    }
    assert forall|i: int| 0 <= i < bt.leaves.len() implies #[trigger] bt.leaf_ok(i) by {
        assert(linked(pages, places, bt.leaves, i));
        assert(t.page_ok(bt.leaves[i] as int, None));
        if i + 1 < bt.leaves.len() {
            assert(linked(pages, places, bt.leaves, i + 1));
        }
    }
    assert(linked(pages, places, bt.leaves, 0));
    assert(t.page_ok(1, None));
}

/// Page numbers are page numbers.
proof fn lemma_small_page_number(pages: Seq<Page>, q: int)
    requires
        layout::pages_ok(pages),
        1 <= q < pages.len(),
    ensures
        q <= u32::MAX,
{
    assert(layout::page_ok(pages, q));
}

/// The listing of the tree is what the pages hold.
pub proof fn law_listing(pages: Seq<Page>, k: Seq<u8>, v: Seq<u8>)
    requires
        arena::valid(pages),
    ensures
        btree(pages).listing().contains((k, v)) <==> arena::contents(pages).contains_key(k)
            && arena::contents(pages)[k] == v,
{
    let places = choose|places: Seq<Place>| arena::placed(pages, places);
    let nodes = layout::nodes(pages);
    let bt = btree(pages);
    lemma_leaves(pages, places);
    arena::lemma_lookup(pages, k);
    if bt.listing().contains((k, v)) {
        let n = choose|n: int| 0 <= n < bt.listing().len() && bt.listing()[n] == (k, v);
        let (i, j) = sound::lemma_listed(bt, 0, n);
        assert(linked(pages, places, bt.leaves, i));
        let p = bt.leaves[i] as int;
        assert(bt.sheets[bt.leaves[i]] == sheet(pages[p]));
        assert(tree::holds(nodes, p, j, k, v));
        assert(tree::has(nodes, k, v));
    }
    if tree::has(nodes, k, v) {
        let (q, j) = choose|q: int, j: int| #[trigger] tree::holds(nodes, q, j, k, v);
        assert(tree::holds(nodes, q, j, k, v));
        lemma_small_page_number(pages, q);
        assert(bt.leaves.contains(q as u32));
        let i = choose|i: int| 0 <= i < bt.leaves.len() && bt.leaves[i] == q as u32;
        assert(bt.sheets[q as u32] == sheet(pages[q]));
        sound::lemma_lists(bt, 0, i, j);
        assert(bt.pairs(i)[j] == (k, v));
    }
}

/// What was written is what is read: looking up a key in a finished file
/// gives the value that the writer holds for it, and nothing for a key that
/// it does not hold.
pub proof fn law_get(b: Seq<u8>, pages: Seq<Page>, e: Endian, k: Seq<u8>)
    requires
        file::is_file(b, pages, e),
        arena::valid(pages),
    ensures
        image_of(b, e).get(k) == Ok::<Option<Seq<u8>>, Error>(
            if arena::contents(pages).contains_key(k) {
                Some(arena::contents(pages)[k])
            } else {
                None
            },
        ),
{
    law_sound(b, pages, e);
    sound::law_get(btree(pages), image_of(b, e), k);
    if let Ok(Some(v)) = image_of(b, e).get(k) {
        law_listing(pages, k, v);
    }
    if arena::contents(pages).contains_key(k) {
        law_listing(pages, k, arena::contents(pages)[k]);
    }
}

/// A forward scan of a finished file yields every pair that the writer
/// holds, once each, in ascending key order, and then ends.
pub proof fn law_scan(b: Seq<u8>, pages: Seq<Page>, e: Endian, n: nat)
    requires
        file::is_file(b, pages, e),
        arena::valid(pages),
    ensures
        image::yielded(image_of(b, e), n) == if n < btree(pages).listing().len() {
            Some(Ok::<Pair, Error>(btree(pages).listing()[n as int]))
        } else {
            None
        },
        sound::ascending(btree(pages).listing()),
        forall|k: Seq<u8>, v: Seq<u8>| #[trigger]
            btree(pages).listing().contains((k, v)) <==> arena::contents(pages).contains_key(k)
                && arena::contents(pages)[k] == v,
{
    law_sound(b, pages, e);
    sound::law_scan(btree(pages), image_of(b, e), n);
    assert forall|k: Seq<u8>, v: Seq<u8>| #[trigger]
        btree(pages).listing().contains((k, v)) <==> arena::contents(pages).contains_key(k)
            && arena::contents(pages)[k] == v by {
        law_listing(pages, k, v);
    }
}

/// A finished file is of the format: its meta page says so, and its pages
/// hold a tree with the pairs that the writer holds, and no other.
pub proof fn law_format(b: Seq<u8>, pages: Seq<Page>, e: Endian)
    requires
        file::is_file(b, pages, e),
        arena::valid(pages),
    ensures
        disk::meta_ok(b, 4096, e is Big),
        disk::word(b, 12, e is Big) == 0,
        disk::word(b, 16, e is Big) == 0,
        disk::word(b, 20, e is Big) == 0x20,
        forall|i: int| 24 <= i < 4096 ==> b[i] == 0,
        disk::stores(Disk { b, psize: 4096, big: e is Big }, arena::contents(pages)),
{
    let image = image_of(b, e);
    let d = Disk { b, psize: 4096, big: e is Big };
    let t = btree(pages);
    let m = arena::contents(pages);
    disk::law_numbers(b, 0, e);
    disk::law_numbers(b, 4, e);
    disk::law_numbers(b, 8, e);
    disk::law_numbers(b, 12, e);
    disk::law_numbers(b, 16, e);
    disk::law_numbers(b, 20, e);
    assert(b.len() as int % 4096 == 0);
    law_sound(b, pages, e);
    assert(disk::disk_of(image) == d);
    disk::law_sound(image, t);
    assert forall|k: Seq<u8>, v: Seq<u8>| #[trigger] disk::has(t, k, v) <==> m.dom().contains(k)
        && m[k] == v by {
        law_listing(pages, k, v);
        disk::lemma_listed(t, image, k, v);
    }
    assert(d.holds(t) && disk::has_all(t, m));
}

} // verus!
