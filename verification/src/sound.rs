//! What a sound file holds, and that the reader finds it.
//!
//! A file need not come from this crate's writer: pages may have any size,
//! keys and values may overflow, and pages that are no part of the tree may
//! lie between those that are.

use crate::error::Error;
use crate::format::{P_INVALID, P_ROOT};
use crate::image;
use crate::image::{Image, Pair, Spot};
use crate::key;
use crate::key::Order;
use crate::page::{ItemRef, RawPage};
use vstd::prelude::*;
use vstd::set_lib::set_int_range;

verus! {

/// What an entry holds: a key and a value on a leaf, a separator and a child
/// on an internal page.
pub struct Cell {
    pub key: Seq<u8>,
    pub val: Seq<u8>,
    pub child: u32,
}

/// What a page of the tree holds.  `leftmost` says that it has no left
/// sibling.
pub struct Sheet {
    pub leaf: bool,
    pub leftmost: bool,
    pub next: u32,
    pub cells: Seq<Cell>,
}

/// A page's place in the tree: its height above the leaves, and the keys
/// that belong to it, `lo` and up, below `hi`.
pub struct Span {
    pub level: nat,
    pub lo: Seq<u8>,
    pub hi: Option<Seq<u8>>,
}

/// The pages that make up a tree, by number, and the leaves from left to
/// right.
pub struct Btree {
    pub sheets: Map<u32, Sheet>,
    pub spans: Map<u32, Span>,
    pub leaves: Seq<u32>,
}

impl Span {
    /// `k` belongs to the page.
    pub open spec fn covers(self, k: Seq<u8>) -> bool {
        key::le(self.lo, k) && match self.hi {
            None => true,
            Some(h) => key::lt(k, h),
        }
    }
}

/// Leaf entry `i` of `raw` is the pair of `cell`.
pub open spec fn leaf_cell(image: Image, raw: RawPage, i: int, cell: Cell) -> bool {
    match raw.leaf_entry(i) {
        Err(_) => false,
        Ok(entry) => {
            &&& image.item_bytes(raw, entry.key) == Ok::<Seq<u8>, Error>(cell.key)
            &&& image.item_bytes(raw, entry.data) == Ok::<Seq<u8>, Error>(cell.val)
        },
    }
}

/// Internal entry `i` of `raw` leads to the child of `cell`, and its
/// separator is that of `cell` if it counts.
pub open spec fn branch_cell(
    image: Image,
    raw: RawPage,
    i: int,
    cell: Cell,
    counts: bool,
) -> bool {
    match raw.internal_entry(i) {
        Err(_) => false,
        Ok(entry) => {
            &&& entry.child == cell.child
            &&& counts ==> image.item_bytes(raw, entry.key) == Ok::<Seq<u8>, Error>(cell.key)
        },
    }
}

impl Sheet {
    /// The first separator of the leftmost page of a level does not count:
    /// it comes before every key.
    pub open spec fn counts(self, i: int) -> bool {
        i > 0 || self.leaf || !self.leftmost
    }

    /// Page `raw` holds the sheet.
    pub open spec fn is_on(self, image: Image, raw: RawPage) -> bool {
        &&& raw.nentries() == self.cells.len()
        &&& raw.next_pg() == self.next
        &&& raw.prev_pg() == P_INVALID <==> self.leftmost
        &&& raw.is_leaf() == self.leaf
        &&& !self.leaf ==> raw.is_internal() && self.cells.len() > 0
        &&& self.leaf ==> forall|i: int|
            0 <= i < self.cells.len() ==> leaf_cell(image, raw, i, #[trigger] self.cells[i])
        &&& !self.leaf ==> forall|i: int|
            0 <= i < self.cells.len() ==> branch_cell(
                image,
                raw,
                i,
                #[trigger] self.cells[i],
                self.counts(i),
            )
    }

    /// Keys go up from entry to entry.
    pub open spec fn sorted(self) -> bool {
        forall|i: int, j: int|
            0 <= i < j < self.cells.len() && self.counts(i) ==> key::lt(
                (#[trigger] self.cells[i]).key,
                (#[trigger] self.cells[j]).key,
            )
    }
}

impl Btree {
    /// The keys that belong to the child of entry `s` of page `p`.
    pub open spec fn child_span(self, p: u32, s: int) -> Span {
        let cells = self.sheets[p].cells;
        Span {
            level: (self.spans[p].level - 1) as nat,
            lo: if s == 0 {
                self.spans[p].lo
            } else {
                cells[s].key
            },
            hi: if s + 1 < cells.len() {
                Some(cells[s + 1].key)
            } else {
                self.spans[p].hi
            },
        }
    }

    /// Entry `s` of page `p` leads to a page of the tree, one level down.
    pub open spec fn child_ok(self, p: u32, s: int) -> bool {
        let child = self.sheets[p].cells[s].child;
        &&& self.sheets.contains_key(child)
        &&& self.spans[child] == self.child_span(p, s)
    }

    /// Page `p` of the image is as the tree has it, and in its place.
    pub open spec fn sheet_ok(self, image: Image, p: u32) -> bool {
        let sheet = self.sheets[p];
        &&& image.page(p) is Ok
        &&& sheet.is_on(image, image.page(p)->Ok_0)
        &&& sheet.sorted()
        &&& sheet.leaf <==> self.spans[p].level == 0
        &&& sheet.leaf ==> self.leaves.contains(p)
        &&& sheet.leaf ==> forall|i: int|
            0 <= i < sheet.cells.len() ==> self.spans[p].covers((#[trigger] sheet.cells[i]).key)
        &&& !sheet.leaf ==> forall|s: int|
            0 <= s < sheet.cells.len() ==> #[trigger] self.child_ok(p, s)
    }

    /// Leaf `i` and the next one are siblings, and share out the keys.
    pub open spec fn leaf_ok(self, i: int) -> bool {
        let p = self.leaves[i];
        &&& self.sheets.contains_key(p)
        &&& self.sheets[p].leaf
        &&& self.spans[p].covers(self.spans[p].lo)
        &&& i + 1 < self.leaves.len() ==> self.sheets[p].next == self.leaves[i + 1]
            && self.spans[p].hi == Some(self.spans[self.leaves[i + 1]].lo)
        &&& i + 1 == self.leaves.len() ==> self.sheets[p].next == P_INVALID
            && self.spans[p].hi is None
    }

    /// The image holds the tree.
    pub open spec fn sound(self, image: Image) -> bool {
        &&& image.wf()
        &&& self.sheets.contains_key(P_ROOT)
        &&& !self.sheets.contains_key(P_INVALID)
        &&& self.spans[P_ROOT].lo == Seq::<u8>::empty()
        &&& self.spans[P_ROOT].hi is None
        &&& forall|p: u32| #[trigger] self.sheets.contains_key(p) ==> self.sheet_ok(image, p)
        &&& self.leaves.len() > 0
        &&& self.spans[self.leaves[0]].lo == Seq::<u8>::empty()
        &&& forall|i: int| 0 <= i < self.leaves.len() ==> #[trigger] self.leaf_ok(i)
    }

    /// The pairs of leaf `i`.
    pub open spec fn pairs(self, i: int) -> Seq<Pair> {
        let cells = self.sheets[self.leaves[i]].cells;
        Seq::new(cells.len(), |j: int| (cells[j].key, cells[j].val))
    }

    /// The pairs from leaf `i` on.
    pub open spec fn listing_from(self, i: int) -> Seq<Pair>
        decreases self.leaves.len() - i,
    {
        if i < 0 || i >= self.leaves.len() {
            Seq::empty()
        } else {
            self.pairs(i) + self.listing_from(i + 1)
        }
    }

    /// All pairs, leaf by leaf from the left.
    pub open spec fn listing(self) -> Seq<Pair> {
        self.listing_from(0)
    }
}

/// Keys go up from pair to pair.
pub open spec fn ascending(s: Seq<Pair>) -> bool {
    forall|i: int, j: int|
        0 <= i < j < s.len() ==> key::lt((#[trigger] s[i]).0, (#[trigger] s[j]).0)
}

/// How a key compares with an item is how it compares with its bytes.
proof fn lemma_item_order(image: Image, k: Seq<u8>, raw: RawPage, item: ItemRef, s: Seq<u8>)
    requires
        image.wf(),
        image.item_bytes(raw, item) == Ok::<Seq<u8>, Error>(s),
    ensures
        image.item_order(k, raw, item) == Ok::<Order, Error>(key::lex(k, s)),
{
    if let ItemRef::Overflow { pgno, size } = item {
        image::law_overflow_order(image, k, pgno, pgno, size as int);
    }
}

/// The leaves are in ascending order.
proof fn lemma_leaves_ascend(t: Btree, image: Image, i: int, j: int)
    requires
        t.sound(image),
        0 <= i < j < t.leaves.len(),
    ensures
        t.spans[t.leaves[i]].hi is Some,
        key::le(t.spans[t.leaves[i]].hi->0, t.spans[t.leaves[j]].lo),
        key::lt(t.spans[t.leaves[i]].lo, t.spans[t.leaves[j]].lo),
    decreases j - i,
{
    broadcast use key::group_key_order;

    assert(t.leaf_ok(i));
    if i + 1 < j {
        lemma_leaves_ascend(t, image, i + 1, j);
        assert(t.leaf_ok(i + 1));
    }
}

/// Only one leaf covers a key.
proof fn lemma_one_leaf(t: Btree, image: Image, i: int, j: int, k: Seq<u8>)
    requires
        t.sound(image),
        0 <= i < t.leaves.len(),
        0 <= j < t.leaves.len(),
        t.spans[t.leaves[i]].covers(k),
        t.spans[t.leaves[j]].covers(k),
    ensures
        i == j,
{
    broadcast use key::group_key_order;

    if i < j {
        lemma_leaves_ascend(t, image, i, j);
    }
    if j < i {
        lemma_leaves_ascend(t, image, j, i);
    }
}

/// What the listing from leaf `i` on holds.
proof fn lemma_listing_from(t: Btree, image: Image, i: int)
    requires
        t.sound(image),
        0 <= i <= t.leaves.len(),
    ensures
        ascending(t.listing_from(i)),
        i < t.leaves.len() ==> forall|n: int|
            0 <= n < t.listing_from(i).len() ==> key::le(
                t.spans[t.leaves[i]].lo,
                (#[trigger] t.listing_from(i)[n]).0,
            ),
    decreases t.leaves.len() - i,
{
    broadcast use key::group_key_order;

    if i < t.leaves.len() {
        let s = t.listing_from(i);
        let here = t.pairs(i);
        let rest = t.listing_from(i + 1);
        let p = t.leaves[i];
        let cells = t.sheets[p].cells;
        lemma_listing_from(t, image, i + 1);
        assert(t.leaf_ok(i));
        assert(t.sheet_ok(image, p));
        assert(s == here + rest);
        assert forall|n: int| 0 <= n < s.len() implies key::le(
            t.spans[p].lo,
            (#[trigger] s[n]).0,
        ) by {
            if n < here.len() {
                assert(t.spans[p].covers(cells[n].key));
            } else {
                assert(s[n] == rest[n - here.len()]);
                assert(t.leaf_ok(i + 1));
                lemma_leaves_ascend(t, image, i, i + 1);
            }
        }
        assert forall|n: int, m: int| 0 <= n < m < s.len() implies key::lt(
            (#[trigger] s[n]).0,
            (#[trigger] s[m]).0,
        ) by {
            if m < here.len() {
                assert(key::lt(cells[n].key, cells[m].key));
            } else if n < here.len() {
                assert(t.spans[p].covers(cells[n].key));
                assert(s[m] == rest[m - here.len()]);
            } else {
                assert(s[n] == rest[n - here.len()]);
                assert(s[m] == rest[m - here.len()]);
            }
        }
    }
}

/// Every pair of the listing from leaf `i` on is on a leaf.
pub proof fn lemma_listed(t: Btree, i: int, n: int) -> (at: (int, int))
    requires
        0 <= i,
        0 <= n < t.listing_from(i).len(),
    ensures
        i <= at.0 < t.leaves.len(),
        0 <= at.1 < t.pairs(at.0).len(),
        t.pairs(at.0)[at.1] == t.listing_from(i)[n],
    decreases t.leaves.len() - i,
{
    let here = t.pairs(i);
    let rest = t.listing_from(i + 1);
    assert(t.listing_from(i) == here + rest);
    if n < here.len() {
        (i, n)
    } else {
        assert(t.listing_from(i)[n] == rest[n - here.len()]);
        lemma_listed(t, i + 1, n - here.len())
    }
}

/// Every pair on a leaf is in the listing.
pub proof fn lemma_lists(t: Btree, i: int, leaf: int, j: int)
    requires
        0 <= i <= leaf < t.leaves.len(),
        0 <= j < t.pairs(leaf).len(),
    ensures
        t.listing_from(i).contains(t.pairs(leaf)[j]),
    decreases leaf - i,
{
    let here = t.pairs(i);
    let rest = t.listing_from(i + 1);
    let s = t.listing_from(i);
    assert(s == here + rest);
    if i == leaf {
        assert(s[j] == t.pairs(leaf)[j]);
    } else {
        lemma_lists(t, i + 1, leaf, j);
        let n = choose|n: int| 0 <= n < rest.len() && rest[n] == t.pairs(leaf)[j];
        assert(s[here.len() + n] == t.pairs(leaf)[j]);
    }
}

/// The listing goes up, and so has every key once.
pub proof fn law_listing_ascends(t: Btree, image: Image)
    requires
        t.sound(image),
    ensures
        ascending(t.listing()),
{
    lemma_listing_from(t, image, 0);
}

/// Pages that can be read are numbered below the number of pages.
proof fn lemma_page_number(image: Image, p: u32)
    requires
        image.wf(),
        image.page(p) is Ok,
    ensures
        p < image.npages(),
{
    let n = image.bytes.len() as int;
    let psize = image.psize;
    assert(p + 1 <= n / psize) by (nonlinear_arith)
        requires
            (p + 1) * psize <= n,
            psize > 0,
    ;
}

/// The pages of the tree up to a level.
spec fn up_to(t: Btree, level: nat) -> Set<int> {
    Set::new(
        |q: int|
            0 <= q <= u32::MAX && t.sheets.contains_key(q as u32) && t.spans[q as u32].level
                <= level,
    )
}

/// There are no more levels than pages.
proof fn lemma_levels(t: Btree, image: Image, p: u32)
    requires
        t.sound(image),
        t.sheets.contains_key(p),
    ensures
        up_to(t, t.spans[p].level).finite(),
        t.spans[p].level < up_to(t, t.spans[p].level).len(),
        t.spans[p].level < image.npages(),
    decreases t.spans[p].level,
{
    let level = t.spans[p].level;
    let all = set_int_range(0, image.npages() as int);
    vstd::set_lib::lemma_int_range(0, image.npages() as int);
    assert(up_to(t, level).subset_of(all)) by {
        assert forall|q: int| up_to(t, level).contains(q) implies all.contains(q) by {
            assert(t.sheet_ok(image, q as u32));
            lemma_page_number(image, q as u32);
        }
    }
    vstd::set_lib::lemma_len_subset(up_to(t, level), all);
    assert(t.sheet_ok(image, p));
    assert(up_to(t, level).contains(p as int));
    if level == 0 {
        Set::<int>::empty().lemma_subset_not_in_lt(up_to(t, level), p as int);
    } else {
        assert(t.child_ok(p, 0));
        let child = t.sheets[p].cells[0].child;
        lemma_levels(t, image, child);
        up_to(t, t.spans[child].level).lemma_subset_not_in_lt(up_to(t, level), p as int);
    }
}

/// The leaves from the `i`th on.
spec fn leaves_from(t: Btree, i: int) -> Set<int> {
    Set::new(|q: int| exists|j: int| i <= j < t.leaves.len() && #[trigger] t.leaves[j] == q)
}

/// There are no more leaves than pages.
proof fn lemma_leaf_count(t: Btree, image: Image, i: int)
    requires
        t.sound(image),
        0 <= i <= t.leaves.len(),
    ensures
        leaves_from(t, i).finite(),
        leaves_from(t, i).len() == t.leaves.len() - i,
        t.leaves.len() - i <= image.npages(),
    decreases t.leaves.len() - i,
{
    broadcast use key::group_key_order;

    let all = set_int_range(0, image.npages() as int);
    vstd::set_lib::lemma_int_range(0, image.npages() as int);
    assert(leaves_from(t, i).subset_of(all)) by {
        assert forall|q: int| leaves_from(t, i).contains(q) implies all.contains(q) by {
            let j = choose|j: int| i <= j < t.leaves.len() && #[trigger] t.leaves[j] == q;
            assert(t.leaf_ok(j));
            assert(t.sheet_ok(image, t.leaves[j]));
            lemma_page_number(image, t.leaves[j]);
        }
    }
    vstd::set_lib::lemma_len_subset(leaves_from(t, i), all);
    if i == t.leaves.len() {
        assert(leaves_from(t, i) =~= Set::<int>::empty());
    } else {
        lemma_leaf_count(t, image, i + 1);
        let p = t.leaves[i] as int;
        assert(!leaves_from(t, i + 1).contains(p)) by {
            if leaves_from(t, i + 1).contains(p) {
                let j = choose|j: int| i + 1 <= j < t.leaves.len() && #[trigger] t.leaves[j] == p;
                lemma_leaves_ascend(t, image, i, j);
            }
        }
        assert(leaves_from(t, i) =~= leaves_from(t, i + 1).insert(p));
    }
}

/// The binary search of a leaf finds what is there.
proof fn lemma_leaf_slot(t: Btree, image: Image, p: u32, k: Seq<u8>, base: int, lim: int)
    requires
        t.sound(image),
        t.sheets.contains_key(p),
        t.sheets[p].leaf,
        0 <= base,
        0 <= lim,
        base + lim <= t.sheets[p].cells.len(),
        forall|j: int| 0 <= j < base ==> key::lt((#[trigger] t.sheets[p].cells[j]).key, k),
        forall|j: int|
            base + lim <= j < t.sheets[p].cells.len() ==> key::lt(
                k,
                (#[trigger] t.sheets[p].cells[j]).key,
            ),
    ensures
        match image.leaf_slot(k, image.page(p)->Ok_0, base, lim) {
            Err(_) => false,
            Ok(Some(i)) => 0 <= i < t.sheets[p].cells.len() && t.sheets[p].cells[i].key == k,
            Ok(None) => forall|j: int|
                0 <= j < t.sheets[p].cells.len() ==> (#[trigger] t.sheets[p].cells[j]).key != k,
        },
    decreases lim,
{
    broadcast use key::group_key_order;

    let cells = t.sheets[p].cells;
    let raw = image.page(p)->Ok_0;
    assert(t.sheet_ok(image, p));
    if lim > 0 {
        let idx = base + lim / 2;
        let entry = raw.leaf_entry(idx)->Ok_0;
        assert(leaf_cell(image, raw, idx, cells[idx]));
        lemma_item_order(image, k, raw, entry.key, cells[idx].key);
        key::lemma_lex_lt(k, cells[idx].key);
        if key::lt(cells[idx].key, k) {
            assert forall|j: int| 0 <= j < idx + 1 implies key::lt(
                (#[trigger] cells[j]).key,
                k,
            ) by {
                if j < idx {
                    key::lemma_lt_transitive(cells[j].key, cells[idx].key, k);
                }
            }
            lemma_leaf_slot(t, image, p, k, idx + 1, (lim - 1) / 2);
        } else if key::lt(k, cells[idx].key) {
            assert forall|j: int| base + lim / 2 <= j < cells.len() implies key::lt(
                k,
                (#[trigger] cells[j]).key,
            ) by {
                if j > idx {
                    key::lemma_lt_transitive(k, cells[idx].key, cells[j].key);
                }
            }
            lemma_leaf_slot(t, image, p, k, base, lim / 2);
        }
    }
}

/// The binary search of an internal page finds the child to which the key
/// belongs.
proof fn lemma_child_slot(t: Btree, image: Image, p: u32, k: Seq<u8>, base: int, lim: int)
    requires
        t.sound(image),
        t.sheets.contains_key(p),
        !t.sheets[p].leaf,
        0 <= base,
        0 <= lim,
        base + lim <= t.sheets[p].cells.len(),
        forall|j: int| 1 <= j < base ==> key::le((#[trigger] t.sheets[p].cells[j]).key, k),
        forall|j: int|
            1 <= j && base + lim <= j < t.sheets[p].cells.len() ==> key::lt(
                k,
                (#[trigger] t.sheets[p].cells[j]).key,
            ),
    ensures
        match image.child_slot(k, image.page(p)->Ok_0, base, lim) {
            Err(_) => false,
            Ok(s) => {
                &&& 0 <= s < t.sheets[p].cells.len()
                &&& s > 0 ==> key::le(t.sheets[p].cells[s].key, k)
                &&& s + 1 < t.sheets[p].cells.len() ==> key::lt(k, t.sheets[p].cells[s + 1].key)
            },
        },
    decreases lim,
{
    broadcast use key::group_key_order;

    let sheet = t.sheets[p];
    let cells = sheet.cells;
    let raw = image.page(p)->Ok_0;
    assert(t.sheet_ok(image, p));
    if lim > 0 {
        let idx = base + lim / 2;
        let entry = raw.internal_entry(idx)->Ok_0;
        assert(branch_cell(image, raw, idx, cells[idx], sheet.counts(idx)));
        if sheet.counts(idx) {
            lemma_item_order(image, k, raw, entry.key, cells[idx].key);
            key::lemma_lex_lt(k, cells[idx].key);
        }
        let order = image.separator_order(k, raw, idx);
        if order == Ok::<Order, Error>(Order::Greater) {
            assert forall|j: int| 1 <= j < idx + 1 implies key::le(
                (#[trigger] cells[j]).key,
                k,
            ) by {
                if j < idx {
                    key::lemma_lt_transitive(cells[j].key, cells[idx].key, k);
                }
            }
            lemma_child_slot(t, image, p, k, idx + 1, (lim - 1) / 2);
        } else if order == Ok::<Order, Error>(Order::Less) {
            assert forall|j: int| 1 <= j && base + lim / 2 <= j < cells.len() implies key::lt(
                k,
                (#[trigger] cells[j]).key,
            ) by {
                if j > idx {
                    key::lemma_lt_transitive(k, cells[idx].key, cells[j].key);
                }
            }
            lemma_child_slot(t, image, p, k, base, lim / 2);
        } else {
            assert(k == cells[idx].key);
            assert(sheet.counts(idx));
            if idx + 1 < cells.len() {
                assert(key::lt(cells[idx].key, cells[idx + 1].key));
            }
        }
    }
}

/// A descent ends on the leaf that covers the key, and finds the key if it
/// is there.
proof fn lemma_search(t: Btree, image: Image, k: Seq<u8>, p: u32, hops: nat) -> (leaf: u32)
    requires
        t.sound(image),
        t.sheets.contains_key(p),
        t.spans[p].covers(k),
        t.spans[p].level <= hops,
    ensures
        t.sheets.contains_key(leaf),
        t.sheets[leaf].leaf,
        t.spans[leaf].covers(k),
        match image.search(k, p, hops) {
            Err(_) => false,
            Ok(Some((raw, i))) => {
                &&& raw == image.page(leaf)->Ok_0
                &&& 0 <= i < t.sheets[leaf].cells.len()
                &&& t.sheets[leaf].cells[i].key == k
            },
            Ok(None) => forall|j: int|
                0 <= j < t.sheets[leaf].cells.len() ==> (#[trigger] t.sheets[leaf].cells[j]).key
                    != k,
        },
    decreases hops,
{
    let cells = t.sheets[p].cells;
    let raw = image.page(p)->Ok_0;
    assert(t.sheet_ok(image, p));
    if t.sheets[p].leaf {
        lemma_leaf_slot(t, image, p, k, 0, cells.len() as int);
        p
    } else {
        lemma_child_slot(t, image, p, k, 0, cells.len() as int);
        let s = image.child_slot(k, raw, 0, cells.len() as int)->Ok_0;
        assert(branch_cell(image, raw, s, cells[s], t.sheets[p].counts(s)));
        assert(t.child_ok(p, s));
        lemma_search(t, image, k, cells[s].child, (hops - 1) as nat)
    }
}

/// Looking up a key in a sound file gives its value, and nothing for a key
/// that the file does not hold.
pub proof fn law_get(t: Btree, image: Image, k: Seq<u8>)
    requires
        t.sound(image),
    ensures
        match image.get(k) {
            Err(_) => false,
            Ok(Some(v)) => t.listing().contains((k, v)),
            Ok(None) => forall|v: Seq<u8>| !t.listing().contains((k, v)),
        },
{
    key::lemma_empty_before(k);
    lemma_levels(t, image, P_ROOT);
    let leaf = lemma_search(t, image, k, P_ROOT, image.npages());
    assert(t.sheet_ok(image, leaf));
    let n = choose|n: int| 0 <= n < t.leaves.len() && t.leaves[n] == leaf;
    let cells = t.sheets[leaf].cells;
    match image.search(k, P_ROOT, image.npages()) {
        Ok(Some((raw, i))) => {
            assert(leaf_cell(image, raw, i, cells[i]));
            lemma_lists(t, 0, n, i);
            assert(t.pairs(n)[i] == (k, cells[i].val));
        },
        _ => {
            assert forall|v: Seq<u8>| !t.listing().contains((k, v)) by {
                if t.listing().contains((k, v)) {
                    let m = choose|m: int|
                        0 <= m < t.listing().len() && t.listing()[m] == (k, v);
                    let (other, j) = lemma_listed(t, 0, m);
                    assert(t.leaf_ok(other));
                    let q = t.leaves[other];
                    assert(t.sheet_ok(image, q));
                    assert(t.sheets[q].cells[j].key == k);
                    lemma_one_leaf(t, image, n, other, k);
                }
            }
        },
    }
}

/// The scan is at `spot`, with `rest` still to come.
spec fn at(t: Btree, image: Image, spot: Spot, rest: Seq<Pair>) -> bool {
    match spot {
        Spot::Start => false,
        Spot::End => rest.len() == 0,
        Spot::At { page, index } => exists|i: int| #[trigger]
            at_leaf(t, image, i, page, index, rest),
    }
}

/// The scan is at entry `index` of leaf `i`, with `rest` still to come.
spec fn at_leaf(
    t: Btree,
    image: Image,
    i: int,
    page: RawPage,
    index: int,
    rest: Seq<Pair>,
) -> bool {
    &&& 0 <= i < t.leaves.len()
    &&& image.page(t.leaves[i]) == Ok::<RawPage, Error>(page)
    &&& 0 <= index < t.pairs(i).len()
    &&& rest == t.pairs(i).skip(index) + t.listing_from(i + 1)
}

proof fn lemma_at(t: Btree, image: Image, i: int, page: RawPage, index: int, rest: Seq<Pair>)
    requires
        at_leaf(t, image, i, page, index, rest),
    ensures
        at(t, image, Spot::At { page, index }, rest),
{
    let spot = Spot::At { page, index };
    assert(at_leaf(t, image, i, spot->page, spot->index, rest));
}

/// The number of leaf `i`, or that of no page after the last one.
spec fn leaf_number(t: Btree, i: int) -> u32 {
    if i < t.leaves.len() {
        t.leaves[i]
    } else {
        P_INVALID
    }
}

/// The start of the next leaf with entries is the start of the listing from
/// there on.
proof fn lemma_next_leaf(t: Btree, image: Image, i: int, hops: nat)
    requires
        t.sound(image),
        0 <= i <= t.leaves.len(),
        t.leaves.len() - i <= hops,
    ensures
        image.next_leaf(leaf_number(t, i), hops) is Ok,
        at(t, image, image.next_leaf(leaf_number(t, i), hops)->Ok_0, t.listing_from(i)),
    decreases hops,
{
    if i < t.leaves.len() {
        let p = t.leaves[i];
        assert(t.leaf_ok(i));
        assert(t.sheet_ok(image, p));
        let raw = image.page(p)->Ok_0;
        let here = t.pairs(i);
        let rest = t.listing_from(i + 1);
        assert(t.listing_from(i) == here + rest);
        if here.len() > 0 {
            assert(here.skip(0) =~= here);
            lemma_at(t, image, i, raw, 0, t.listing_from(i));
        } else {
            assert(here + rest =~= rest);
            lemma_next_leaf(t, image, i + 1, (hops - 1) as nat);
        }
    }
}

/// The first descent ends at the leftmost leaf.
proof fn lemma_first_leaf(t: Btree, image: Image, p: u32, hops: nat)
    requires
        t.sound(image),
        t.sheets.contains_key(p),
        t.spans[p].lo == Seq::<u8>::empty(),
        t.spans[p].level <= hops,
    ensures
        image.first_leaf(p, hops) is Ok,
        at(t, image, image.first_leaf(p, hops)->Ok_0, t.listing()),
    decreases hops,
{
    let raw = image.page(p)->Ok_0;
    assert(t.sheet_ok(image, p));
    if t.sheets[p].leaf {
        let n = choose|n: int| 0 <= n < t.leaves.len() && t.leaves[n] == p;
        assert(t.leaf_ok(n));
        assert(t.leaf_ok(0));
        lemma_one_leaf(t, image, n, 0, Seq::empty());
        let here = t.pairs(0);
        let rest = t.listing_from(1);
        assert(t.listing() == here + rest);
        if here.len() > 0 {
            assert(here.skip(0) =~= here);
            lemma_at(t, image, 0, raw, 0, t.listing());
        } else {
            assert(here + rest =~= rest);
            lemma_leaf_count(t, image, 0);
            lemma_next_leaf(t, image, 1, image.npages());
        }
    } else {
        let cells = t.sheets[p].cells;
        assert(branch_cell(image, raw, 0, cells[0], t.sheets[p].counts(0)));
        assert(t.child_ok(p, 0));
        lemma_first_leaf(t, image, cells[0].child, (hops - 1) as nat);
    }
}

/// A step yields the first of what is to come, and leaves the rest.
proof fn lemma_step(t: Btree, image: Image, spot: Spot, rest: Seq<Pair>)
    requires
        t.sound(image),
        at(t, image, spot, rest),
    ensures
        rest.len() == 0 ==> image.step(spot) == (None::<Result<Pair, Error>>, Spot::End),
        rest.len() > 0 ==> image.step(spot).0 == Some(Ok::<Pair, Error>(rest[0])) && at(
            t,
            image,
            image.step(spot).1,
            rest.drop_first(),
        ),
{
    if let Spot::At { page, index } = spot {
        let i = choose|i: int| #[trigger] at_leaf(t, image, i, page, index, rest);
        let p = t.leaves[i];
        let here = t.pairs(i);
        assert(t.leaf_ok(i));
        assert(t.sheet_ok(image, p));
        assert(leaf_cell(image, page, index, t.sheets[p].cells[index]));
        assert(rest[0] == here[index]);
        if index + 1 < here.len() {
            assert(rest.drop_first() =~= here.skip(index + 1) + t.listing_from(i + 1));
            lemma_at(t, image, i, page, index + 1, rest.drop_first());
        } else {
            assert(rest.drop_first() =~= t.listing_from(i + 1));
            lemma_leaf_count(t, image, 0);
            lemma_next_leaf(t, image, i + 1, image.npages());
        }
    }
}

/// After the first `n` steps the rest of the listing is to come.
proof fn lemma_spot_after(t: Btree, image: Image, n: nat)
    requires
        t.sound(image),
    ensures
        n < t.listing().len() ==> image::yielded(image, n) == Some(
            Ok::<Pair, Error>(t.listing()[n as int]),
        ),
        n >= t.listing().len() ==> image::yielded(image, n) is None,
        at(
            t,
            image,
            image::spot_after(image, n + 1),
            if n < t.listing().len() {
                t.listing().skip(n as int + 1)
            } else {
                Seq::empty()
            },
        ),
    decreases n,
{
    let s = t.listing();
    if n == 0 {
        lemma_levels(t, image, P_ROOT);
        lemma_first_leaf(t, image, P_ROOT, image.npages());
        let here = image.first_leaf(P_ROOT, image.npages())->Ok_0;
        lemma_step(t, image, here, s);
        assert(image.step(Spot::Start) == image.step(here));
        assert(s.len() > 0 ==> s.drop_first() =~= s.skip(1));
    } else {
        lemma_spot_after(t, image, (n - 1) as nat);
        let spot = image::spot_after(image, n);
        let rest = if n - 1 < s.len() {
            s.skip(n as int)
        } else {
            Seq::empty()
        };
        lemma_step(t, image, spot, rest);
        assert(n < s.len() ==> rest.drop_first() =~= s.skip(n as int + 1));
    }
    assert(image::spot_after(image, n + 1) == image.step(image::spot_after(image, n)).1);
}

/// A forward scan of a sound file yields every pair, once each, in ascending
/// key order, and then ends.
pub proof fn law_scan(t: Btree, image: Image, n: nat)
    requires
        t.sound(image),
    ensures
        ascending(t.listing()),
        image::yielded(image, n) == if n < t.listing().len() {
            Some(Ok::<Pair, Error>(t.listing()[n as int]))
        } else {
            None
        },
{
    law_listing_ascends(t, image);
    lemma_spot_after(t, image, n);
}

} // verus!
