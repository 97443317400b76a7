//! Distributing the entries of a full page over two pages.

use crate::writer::layout;
use crate::writer::model;
use crate::writer::model::Item;
use crate::writer::page_buf;
use crate::writer::page_buf::PageBuf;
use crate::writer::plan;
use crate::writer::plan::SplitPlan;
use vstd::prelude::*;

verus! {

/// Copy entries `from..to` of `src` into the destination page in order.
pub fn copy_entries(src: &PageBuf, from: usize, to: usize, dst: &mut PageBuf)
    requires
        src.wf(),
        old(dst).wf(),
        old(dst)@.flags == src@.flags,
        from <= to <= src@.slots.len(),
        model::load(src@.items().subrange(from as int, to as int)) <= old(dst)@.free(),
    ensures
        final(dst).wf(),
        final(dst).endian == old(dst).endian,
        final(dst)@ == old(dst)@.fill(src@.items().subrange(from as int, to as int)),
        page_buf::kept(old(dst).bytes@, final(dst).bytes@, final(dst)@),
{
    let ghost items = src@.items();
    let ghost all = items.subrange(from as int, to as int);
    let ghost page = dst@;
    let mut i: usize = from;
    proof {
        assert(items.subrange(from as int, from as int) =~= Seq::<Item>::empty());
        layout::lemma_kinds(src@);
    }
    while i < to
        invariant
            src.wf(),
            items == src@.items(),
            all == items.subrange(from as int, to as int),
            from <= i <= to <= items.len(),
            items.len() == src@.slots.len(),
            forall|j: int|
                0 <= j < items.len() ==> (#[trigger] items[j]).fits_kind(page.flags),
            page.wf(),
            page.flags == src@.flags,
            page == old(dst)@,
            model::load(all) <= page.free(),
            dst.wf(),
            dst.endian == old(dst).endian,
            dst@ == page.fill(items.subrange(from as int, i as int)),
            page_buf::kept(old(dst).bytes@, dst.bytes@, dst@),
        decreases to - i,
    {
        let ghost done = items.subrange(from as int, i as int);
        let ghost more = items.subrange(from as int, i + 1);
        proof {
            assert(more.drop_last() =~= done);
            assert(more.last() == items[i as int]);
            let rest = items.subrange(i + 1, to as int);
            assert(all =~= more + rest);
            model::lemma_load_concat(more, rest);
            model::lemma_load_nonneg(rest);
            model::lemma_load_nonneg(done);
            model::lemma_item_size(items[i as int]);
            model::lemma_fill(page, done);
            assert(items[i as int].fits_kind(page.flags));
        }
        let slot = dst.nentries();
        let ghost before = *dst;
        dst.insert_entry(slot, src.key(i), src.word(i), src.val(i));
        proof {
            page_buf::lemma_kept_inserted(
                old(dst).bytes@,
                before.bytes@,
                dst.bytes@,
                before@,
                slot as int,
                items[i as int],
            );
        }
        i = i + 1;
    }
}

/// Distribute the entries of `page` over the empty pages `left` and
/// `right`, with the new entry among them at `skip`.
pub fn fill_halves(
    page: &PageBuf,
    left: &mut PageBuf,
    right: &mut PageBuf,
    skip: usize,
    key: &[u8],
    word: u32,
    val: &[u8],
    plan: SplitPlan,
)
    requires
        page.wf(),
        old(left).wf(),
        old(right).wf(),
        old(left)@.flags == page@.flags,
        old(right)@.flags == page@.flags,
        old(left)@.slots.len() == 0,
        old(right)@.slots.len() == 0,
        skip <= page@.slots.len(),
        (Item { key: key@, word, val: val@ }).fits_kind(page@.flags),
        ({
            let item = Item { key: key@, word, val: val@ };
            let items = page@.items().insert(skip as int, item);
            &&& plan::splits(items, skip as int)
            &&& plan.left_slots == plan::split_point(items, skip as int)
            &&& plan.right_target <==> skip >= plan.left_slots
        }),
    ensures
        final(left).wf(),
        final(right).wf(),
        final(left).endian == old(left).endian,
        final(right).endian == old(right).endian,
        (final(left)@, final(right)@) == layout::halves(
            old(left)@,
            old(right)@,
            page@.items(),
            skip as int,
            Item { key: key@, word, val: val@ },
        ),
        page_buf::kept(old(left).bytes@, final(left).bytes@, final(left)@),
        page_buf::kept(old(right).bytes@, final(right).bytes@, final(right)@),
{
    let ghost item = Item { key: key@, word, val: val@ };
    let ghost items = page@.items();
    let ghost all = items.insert(skip as int, item);
    let ghost m = plan::split_point(all, skip as int);
    let n = page.nentries();
    let h = plan.h_in_l();
    proof {
        model::lemma_item_size(item);
        assert(left@.items() =~= Seq::<Item>::empty());
        assert(right@.items() =~= Seq::<Item>::empty());
        let l = items.take(h as int);
        let r = items.skip(h as int);
        assert(items.subrange(0, h as int) =~= l);
        assert(items.subrange(h as int, n as int) =~= r);
        if skip < m {
            assert(l.insert(skip as int, item) =~= all.take(m));
            assert(r =~= all.skip(m));
            model::lemma_load_insert(l, skip as int, item);
        } else {
            assert(l =~= all.take(m));
            assert(r.insert(skip - m, item) =~= all.skip(m));
            model::lemma_load_insert(r, skip - m, item);
        }
        layout::lemma_kinds(page@);
        model::lemma_fill(left@, l);
        model::lemma_fill(right@, r);
        assert(left@.items() + l =~= l);
        assert(right@.items() + r =~= r);
        assert(left@.fill(l).items().len() == h);
        assert(right@.fill(r).items().len() == n - h);
    }
    copy_entries(page, 0, h, left);
    copy_entries(page, h, n, right);
    let slot = plan.target_slot(skip);
    let ghost filled = (*left, *right);
    if plan.right_target {
        right.insert_entry(slot, key, word, val);
        proof {
            page_buf::lemma_kept_inserted(
                old(right).bytes@,
                filled.1.bytes@,
                right.bytes@,
                filled.1@,
                slot as int,
                item,
            );
        }
    } else {
        left.insert_entry(slot, key, word, val);
        proof {
            page_buf::lemma_kept_inserted(
                old(left).bytes@,
                filled.0.bytes@,
                left.bytes@,
                filled.0@,
                slot as int,
                item,
            );
        }
    }
}

/// The key of entry `i` of `page`, with a new entry for `key` among them at
/// `skip`.
pub fn key_among<'a>(page: &'a PageBuf, skip: usize, key: &'a [u8], i: usize) -> (r: &'a [u8])
    requires
        page.wf(),
        skip <= page@.slots.len(),
        i <= page@.slots.len(),
    ensures
        forall|item: Item|
            item.key == key@ ==> (#[trigger] page@.items().insert(skip as int, item))[i as int].key
                == r@,
{
    if i < skip {
        page.key(i)
    } else if i == skip {
        key
    } else {
        page.key(i - 1)
    }
}

} // verus!
