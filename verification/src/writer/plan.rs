//! Where a full page is split.

use crate::format::{align_entry, BLEAF_HEADER_SIZE, DEFAULT_PSIZE, PAGE_HEADER_SIZE};
use crate::writer::model;
use crate::writer::model::{Item, Page};
use crate::writer::page_buf::PageBuf;
use vstd::prelude::*;

verus! {

/// How many entries go to the left page, from `off` on, which take up `used`
/// bytes up to there.  `items` are those of the full page with the new one
/// among them, at `skip`.  The left page is filled until half its bytes are
/// used, but it is not filled up once the new entry is reached, and the last
/// of the old entries always goes right.
pub open spec fn split_from(items: Seq<Item>, skip: int, off: int, used: int) -> int
    decreases items.len() - off,
{
    let top = items.len() - 1;
    let nxt = if skip < off {
        off - 1
    } else {
        off
    };
    let cost = items[off].cost();
    if off >= items.len() || nxt >= top {
        off
    } else if (skip <= off && used + cost >= model::usable()) || nxt + 1 == top {
        off
    } else if used + cost >= model::usable() / 2 {
        off + 1
    } else {
        split_from(items, skip, off + 1, used + cost)
    }
}

/// How many entries go to the left page.
pub open spec fn split_point(items: Seq<Item>, skip: int) -> int {
    split_from(items, skip, 0, 0)
}

/// Both pages of a split have room for their entries, and neither is empty.
pub open spec fn splits(items: Seq<Item>, skip: int) -> bool {
    let m = split_point(items, skip);
    &&& 0 < m < items.len()
    &&& model::load(items.take(m)) <= model::usable()
    &&& model::load(items.skip(m)) <= model::usable()
}

/// Some entry is left for the right page.
proof fn lemma_split_from_bound(items: Seq<Item>, skip: int, off: int, used: int)
    requires
        items.len() >= 2,
        0 <= skip < items.len(),
        0 <= off < items.len(),
        skip < off || off + 1 < items.len(),
    ensures
        off <= split_from(items, skip, off, used) < items.len(),
    decreases items.len() - off,
{
    let top = items.len() - 1;
    let nxt = if skip < off {
        off - 1
    } else {
        off
    };
    let cost = items[off].cost();
    if nxt >= top {
    } else if (skip <= off && used + cost >= model::usable()) || nxt + 1 == top {
    } else if used + cost >= model::usable() / 2 {
    } else {
        lemma_split_from_bound(items, skip, off + 1, used + cost);
    }
}

/// Some entry is left for the right page.
pub proof fn lemma_split_point_bound(items: Seq<Item>, skip: int)
    requires
        items.len() >= 2,
        0 <= skip < items.len(),
    ensures
        0 <= split_point(items, skip) < items.len(),
{
    lemma_split_from_bound(items, skip, 0, 0);
}

/// How many of the first `m` entries were on the page before the new one
/// came.
pub open spec fn old_among(skip: int, m: int) -> int {
    if skip < m {
        m - 1
    } else {
        m
    }
}

/// Where the old entries fit a page, a split leaves the left page with no
/// more entries than fit it, of which all but the last take up less than
/// half of it, and at least one old entry goes right.  It ends where half
/// the page is used, where only one old entry is left, or where one more
/// entry would fill the page that has the new one.
pub proof fn law_split_point(items: Seq<Item>, skip: int)
    requires
        items.len() >= 2,
        0 <= skip < items.len(),
        model::load(items.remove(skip)) <= model::usable(),
    ensures
        ({
            let m = split_point(items, skip);
            &&& 0 <= old_among(skip, m) < items.len() - 1
            &&& model::load(items.take(m)) <= model::usable()
            &&& m > 0 ==> model::load(items.take(m - 1)) < model::usable() / 2
            &&& {
                ||| model::load(items.take(m)) >= model::usable() / 2
                ||| old_among(skip, m) == items.len() - 2
                ||| skip <= m && model::load(items.take(m + 1)) >= model::usable()
            }
        }),
{
    assert(items.take(0) =~= Seq::<Item>::empty());
    lemma_split_from(items, skip, 0);
}

proof fn lemma_split_from(items: Seq<Item>, skip: int, off: int)
    requires
        items.len() >= 2,
        0 <= skip < items.len(),
        0 <= off < items.len(),
        0 <= old_among(skip, off) < items.len() - 1,
        model::load(items.remove(skip)) <= model::usable(),
        model::load(items.take(off)) < model::usable() / 2,
    ensures
        ({
            let m = split_from(items, skip, off, model::load(items.take(off)));
            &&& off <= m
            &&& 0 <= old_among(skip, m) < items.len() - 1
            &&& model::load(items.take(m)) <= model::usable()
            &&& m > off ==> model::load(items.take(m - 1)) < model::usable() / 2
            &&& {
                ||| model::load(items.take(m)) >= model::usable() / 2
                ||| old_among(skip, m) == items.len() - 2
                ||| skip <= m && model::load(items.take(m + 1)) >= model::usable()
            }
        }),
    decreases items.len() - off,
{
    let top = items.len() - 1;
    let nxt = old_among(skip, off);
    let used = model::load(items.take(off));
    let cost = items[off].cost();
    model::lemma_item_size(items[off]);
    assert(items.take(off + 1).drop_last() =~= items.take(off));
    assert(model::load(items.take(off + 1)) == used + cost);
    if (skip <= off && used + cost >= model::usable()) || nxt + 1 == top {
    } else if used + cost >= model::usable() / 2 {
        if skip > off {
            let old_items = items.remove(skip);
            assert(items.take(off + 1) =~= old_items.take(off + 1));
            assert(old_items =~= old_items.take(off + 1) + old_items.skip(off + 1));
            model::lemma_load_concat(old_items.take(off + 1), old_items.skip(off + 1));
            model::lemma_load_nonneg(old_items.skip(off + 1));
        }
    } else {
        lemma_split_from(items, skip, off + 1);
    }
}

/// Entries of at most half a page can always be split over two pages.
pub proof fn lemma_small_entries_split(items: Seq<Item>, skip: int)
    requires
        0 <= skip < items.len(),
        forall|i: int| 0 <= i < items.len() ==> (#[trigger] items[i]).cost() <= model::usable() / 2,
        model::usable() < model::load(items) <= model::usable() + model::usable() / 2,
    ensures
        splits(items, skip),
{
    if items.len() < 2 {
        if items.len() == 1 {
            assert(items.drop_last() =~= Seq::<Item>::empty());
            assert(model::load(items.drop_last()) == 0);
        }
        assert(false);
    }
    lemma_small_split_from(items, skip, 0);
    lemma_split_point_bound(items, skip);
}

proof fn lemma_small_split_from(items: Seq<Item>, skip: int, off: int)
    requires
        items.len() >= 2,
        0 <= skip < items.len(),
        0 <= off < items.len(),
        skip < off || off + 1 < items.len(),
        forall|i: int| 0 <= i < items.len() ==> (#[trigger] items[i]).cost() <= model::usable() / 2,
        model::usable() < model::load(items) <= model::usable() + model::usable() / 2,
        off > 0 ==> model::load(items.take(off)) < model::usable() / 2,
    ensures
        ({
            let m = split_from(items, skip, off, model::load(items.take(off)));
            &&& 0 < m < items.len()
            &&& model::load(items.take(m)) <= model::usable()
            &&& model::load(items.skip(m)) <= model::usable()
        }),
    decreases items.len() - off,
{
    let used = model::load(items.take(off));
    let top = items.len() - 1;
    let nxt = if skip < off {
        off - 1
    } else {
        off
    };
    let cost = items[off].cost();
    model::lemma_item_size(items[off]);
    if off == 0 {
        assert(items.take(0) =~= Seq::<Item>::empty());
    }
    assert(items.take(off + 1).drop_last() =~= items.take(off));
    assert(model::load(items.take(off + 1)) == used + cost);
    assert(items =~= items.take(off) + items.skip(off));
    model::lemma_load_concat(items.take(off), items.skip(off));
    assert(items =~= items.take(off + 1) + items.skip(off + 1));
    model::lemma_load_concat(items.take(off + 1), items.skip(off + 1));
    if nxt + 1 == top {
        let rest = items.skip(off);
        if rest.len() == 1 {
            assert(rest.drop_last() =~= Seq::<Item>::empty());
            assert(model::load(rest.drop_last()) == 0);
            assert(rest.last() == items[off]);
        } else {
            assert(rest.len() == 2);
            assert(rest.drop_last().drop_last() =~= Seq::<Item>::empty());
            assert(model::load(rest.drop_last().drop_last()) == 0);
            assert(rest.last() == items[off + 1]);
            assert(rest.drop_last().last() == items[off]);
        }
        if off == 0 {
            assert(rest =~= items);
        }
    } else if used + cost >= model::usable() / 2 {
    } else {
        lemma_small_split_from(items, skip, off + 1);
    }
}

/// Decision of the byte-balanced split loop.
#[derive(Clone, Copy, Debug)]
pub struct SplitPlan {
    /// Number of slots in the left page after the split, the new entry's
    /// included when it lands on the left.
    pub left_slots: usize,
    /// `true` if the new entry should go to the right page.
    pub right_target: bool,
    /// Both pages have room for what they get.
    pub fits: bool,
}

impl SplitPlan {
    /// Number of old entries copied to the left page.
    pub fn h_in_l(self) -> (r: usize)
        requires
            self.right_target || self.left_slots > 0,
        ensures
            r == if self.right_target {
                self.left_slots as int
            } else {
                self.left_slots - 1
            },
    {
        if self.right_target {
            self.left_slots
        } else {
            self.left_slots - 1
        }
    }

    /// The slot of the new entry in whichever page receives it.
    pub fn target_slot(self, skip: usize) -> (r: usize)
        requires
            self.right_target <==> skip >= self.left_slots,
        ensures
            r == if self.right_target {
                skip - self.left_slots
            } else {
                skip as int
            },
    {
        if self.right_target {
            skip - self.left_slots
        } else {
            skip
        }
    }
}

/// Walk the page's entries left-to-right, the new one at `skip` among them,
/// summing byte cost (entry plus a `linp` slot) until the running total
/// reaches half the page's usable space.
pub fn psplit(page: &PageBuf, skip: usize, key: &[u8], word: u32, val: &[u8]) -> (plan: SplitPlan)
    requires
        page.wf(),
        0 < page@.slots.len(),
        skip <= page@.slots.len(),
        (Item { key: key@, word, val: val@ }).cost() <= model::usable(),
    ensures
        ({
            let item = Item { key: key@, word, val: val@ };
            let items = page@.items().insert(skip as int, item);
            &&& plan.left_slots == split_point(items, skip as int)
            &&& plan.left_slots < items.len()
            &&& plan.right_target <==> skip >= plan.left_slots
            &&& plan.fits <==> splits(items, skip as int)
        }),
{
    let ghost item = Item { key: key@, word, val: val@ };
    let ghost old_items = page@.items();
    let ghost items = old_items.insert(skip as int, item);
    proof {
        model::lemma_item_size(item);
        model::lemma_load_insert(old_items, skip as int, item);
        lemma_split_point_bound(items, skip as int);
        assert(items.take(0) =~= Seq::<Item>::empty());
    }
    let top = page.nentries();
    let full = DEFAULT_PSIZE - PAGE_HEADER_SIZE;
    let half = full / 2;
    let ilen = align_entry(BLEAF_HEADER_SIZE + key.len() + val.len());
    let total = full - page.free_space() + ilen + 2;
    let mut used: usize = 0;
    let mut nxt: usize = 0;
    let mut off: usize = 0;
    let mut looking = true;
    while looking
        invariant
            page.wf(),
            top == page@.slots.len(),
            skip <= top,
            full == model::usable(),
            half == full / 2,
            ilen == item.size(),
            ilen <= full,
            old_items == page@.items(),
            items == old_items.insert(skip as int, item),
            item == (Item { key: key@, word, val: val@ }),
            off <= top,
            looking ==> nxt == if skip < off {
                off - 1
            } else {
                off as int
            },
            looking ==> nxt < top,
            used == model::load(items.take(off as int)),
            looking ==> used < half,
            used <= half + full + 2,
            split_point(items, skip as int) == if looking {
                split_from(items, skip as int, off as int, used as int)
            } else {
                off as int
            },
        decreases
            (if looking {
                top + 1 - off
            } else {
                0
            }),
    {
        let nbytes = if skip == off {
            ilen
        } else {
            page.entry_nbytes(nxt)
        };
        proof {
            assert(items[off as int].size() == nbytes);
            assert(items.take(off + 1).drop_last() =~= items.take(off as int));
            assert(model::load(items.take(off + 1)) == used + nbytes + 2);
            if skip != off {
                lemma_one_fits(page@, nxt as int);
            }
        }
        // Stop if placing this entry would overflow the page with the new
        // entry on the same side, or if it is the last old entry.
        if (skip <= off && used + nbytes + 2 >= full) || nxt + 1 == top {
            looking = false;
        } else {
            if skip != off {
                nxt = nxt + 1;
            }
            used = used + nbytes + 2;
            off = off + 1;
            if used >= half {
                looking = false;
            }
        }
    }
    proof {
        assert(items =~= items.take(off as int) + items.skip(off as int));
        model::lemma_load_concat(items.take(off as int), items.skip(off as int));
        model::lemma_load_nonneg(items.skip(off as int));
    }
    SplitPlan {
        left_slots: off,
        right_target: skip >= off,
        fits: off > 0 && used <= full && total - used <= full,
    }
}

/// One entry of a page takes up no more than the page has.
pub proof fn lemma_one_fits(p: Page, i: int)
    requires
        p.wf(),
        0 <= i < p.slots.len(),
    ensures
        p.slots[i].item.cost() <= model::usable(),
{
    let items = p.items();
    let others = items.remove(i);
    assert(items =~= others.insert(i, items[i]));
    model::lemma_load_insert(others, i, items[i]);
    model::lemma_load_nonneg(others);
}

} // verus!
