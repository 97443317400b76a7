//! Packing entries page by page, each filled as far as it goes.

use crate::format::{align_entry, BLEAF_HEADER_SIZE, DEFAULT_PSIZE, PAGE_HEADER_SIZE};
use crate::writer::layout;
use crate::writer::model;
use crate::writer::model::{Item, Page};
use crate::writer::page_buf::PageBuf;
use crate::writer::spread;
use vstd::prelude::*;
use vstd::slice::slice_to_vec;

verus! {

/// An entry apart from any page.
pub struct Record {
    pub key: Vec<u8>,
    pub word: u32,
    pub val: Vec<u8>,
}

impl View for Record {
    type V = Item;

    open spec fn view(&self) -> Item {
        Item { key: self.key@, word: self.word, val: self.val@ }
    }
}

/// What the records hold.
pub open spec fn items(records: Seq<Record>) -> Seq<Item> {
    Seq::new(records.len(), |i: int| records[i]@)
}

/// How far a page with `used` bytes taken goes with the entries from `to`
/// on.
pub open spec fn cut_from(items: Seq<Item>, to: int, used: int) -> int
    decreases items.len() - to,
{
    if 0 <= to < items.len() && used + items[to].cost() <= model::usable() {
        cut_from(items, to + 1, used + items[to].cost())
    } else {
        to
    }
}

/// How far a page goes with the entries from `from` on.
pub open spec fn cut(items: Seq<Item>, from: int) -> int {
    cut_from(items, from, 0)
}

/// The number of pages that the entries from `from` on take.
pub open spec fn pieces(items: Seq<Item>, from: int) -> nat
    decreases items.len() - from,
{
    if !(from < cut(items, from) <= items.len()) {
        0
    } else {
        1 + pieces(items, cut(items, from))
    }
}

/// Each entry fits a page.
pub open spec fn each_fits(items: Seq<Item>) -> bool {
    forall|i: int| 0 <= i < items.len() ==> (#[trigger] items[i]).cost() <= model::usable()
}

proof fn lemma_cut_from(items: Seq<Item>, from: int, to: int)
    requires
        0 <= from <= to <= items.len(),
        model::load(items.subrange(from, to)) <= model::usable(),
    ensures
        ({
            let n = cut_from(items, to, model::load(items.subrange(from, to)));
            &&& to <= n <= items.len()
            &&& model::load(items.subrange(from, n)) <= model::usable()
            &&& forall|m: int|
                to <= m <= items.len() && #[trigger] model::load(items.subrange(from, m))
                    <= model::usable() ==> m <= n
        }),
    decreases items.len() - to,
{
    let used = model::load(items.subrange(from, to));
    if to < items.len() {
        assert(items.subrange(from, to + 1).drop_last() =~= items.subrange(from, to));
        assert(model::load(items.subrange(from, to + 1)) == used + items[to].cost());
        if used + items[to].cost() <= model::usable() {
            lemma_cut_from(items, from, to + 1);
        } else {
            assert forall|m: int|
                to <= m <= items.len() && #[trigger] model::load(items.subrange(from, m))
                    <= model::usable() implies m <= to by {
                if m > to {
                    lemma_part(items, from, to + 1, m);
                }
            }
        }
    }
}

/// A part of a load is no more than the whole.
proof fn lemma_part(items: Seq<Item>, from: int, mid: int, to: int)
    requires
        0 <= from <= mid <= to <= items.len(),
    ensures
        model::load(items.subrange(from, mid)) <= model::load(items.subrange(from, to)),
        model::load(items.subrange(mid, to)) <= model::load(items.subrange(from, to)),
{
    assert(items.subrange(from, to) =~= items.subrange(from, mid) + items.subrange(mid, to));
    model::lemma_load_concat(items.subrange(from, mid), items.subrange(mid, to));
    model::lemma_load_nonneg(items.subrange(mid, to));
    model::lemma_load_nonneg(items.subrange(from, mid));
}

/// One entry.
proof fn lemma_single(items: Seq<Item>, i: int)
    requires
        0 <= i < items.len(),
    ensures
        model::load(items.subrange(i, i + 1)) == items[i].cost(),
{
    let one = items.subrange(i, i + 1);
    assert(one.drop_last() =~= Seq::<Item>::empty());
    assert(model::load(one.drop_last()) == 0);
}

/// A page takes what fits and no less.
pub proof fn lemma_cut(items: Seq<Item>, from: int)
    requires
        0 <= from <= items.len(),
        each_fits(items),
    ensures
        from <= cut(items, from) <= items.len(),
        from < items.len() ==> from < cut(items, from),
        model::load(items.subrange(from, cut(items, from))) <= model::usable(),
        forall|m: int|
            from <= m <= items.len() && #[trigger] model::load(items.subrange(from, m))
                <= model::usable() ==> m <= cut(items, from),
{
    assert(items.subrange(from, from) =~= Seq::<Item>::empty());
    lemma_cut_from(items, from, from);
    if from < items.len() {
        lemma_single(items, from);
    }
}

/// Fewer entries take no more pages.
proof fn lemma_fewer(items: Seq<Item>, i: int, j: int)
    requires
        0 <= i <= j <= items.len(),
        each_fits(items),
    ensures
        pieces(items, j) <= pieces(items, i),
    decreases items.len() - i,
{
    lemma_cut(items, i);
    lemma_cut(items, j);
    if i < j < items.len() {
        let n = cut(items, i);
        if j < n {
            lemma_part(items, i, j, n);
            assert(model::load(items.subrange(j, n)) <= model::usable());
        }
        lemma_fewer(items, n, cut(items, j));
    }
}

/// What fits one page is no more than one page.
proof fn lemma_one_page(items: Seq<Item>, i: int, j: int)
    requires
        0 <= i <= j <= items.len(),
        each_fits(items),
        model::load(items.subrange(i, j)) <= model::usable(),
    ensures
        pieces(items, i) <= 1 + pieces(items, j),
{
    lemma_cut(items, i);
    if i < items.len() {
        lemma_fewer(items, j, cut(items, i));
    }
}

/// Entries take at most a page each.
proof fn lemma_one_each(items: Seq<Item>, i: int, j: int)
    requires
        0 <= i <= j <= items.len(),
        each_fits(items),
    ensures
        pieces(items, i) <= j - i + pieces(items, j),
    decreases j - i,
{
    if i < j {
        lemma_single(items, i);
        lemma_one_page(items, i, i + 1);
        lemma_one_each(items, i + 1, j);
    }
}

/// The entries of a page with new ones among them take at most two pages
/// more than there are new ones.
pub proof fn lemma_spliced_pieces(old: Seq<Item>, at: int, run: Seq<Item>)
    requires
        0 <= at <= old.len(),
        model::load(old) <= model::usable(),
        each_fits(spread::splice(old, at, run)),
    ensures
        pieces(spread::splice(old, at, run), 0) <= run.len() + 2,
{
    let all = spread::splice(old, at, run);
    let end = at + run.len();
    assert(all.subrange(0, at) =~= old.subrange(0, at));
    assert(all.subrange(end as int, all.len() as int) =~= old.subrange(at, old.len() as int));
    assert(old.subrange(0, old.len() as int) =~= old);
    lemma_part(old, 0, at, old.len() as int);
    lemma_one_page(all, 0, at);
    lemma_one_each(all, at, end as int);
    lemma_one_page(all, end as int, all.len() as int);
}

/// Where the first two entries fit one page, there are fewer pages than
/// entries.
pub proof fn lemma_paired_pieces(all: Seq<Item>)
    requires
        each_fits(all),
        2 <= all.len(),
        all[0].cost() + all[1].cost() <= model::usable(),
    ensures
        pieces(all, 0) < all.len(),
{
    let two = all.subrange(0, 2);
    lemma_single(all, 0);
    assert(two.drop_last() =~= all.subrange(0, 1));
    assert(model::load(two) == all[0].cost() + all[1].cost());
    lemma_one_page(all, 0, 2);
    lemma_one_each(all, 2, all.len() as int);
}

/// Entries that do not fit a page take at least two.
pub proof fn lemma_two_pieces(all: Seq<Item>, from: int)
    requires
        each_fits(all),
        0 <= from < all.len(),
    ensures
        pieces(all, from) == 1 <==> cut(all, from) == all.len(),
        pieces(all, from) >= 1,
        pieces(all, from) == 1 + pieces(all, cut(all, from)),
        cut(all, from) == all.len() <==> model::load(all.skip(from)) <= model::usable(),
{
    let n = cut(all, from);
    lemma_cut(all, from);
    assert(all.skip(from) =~= all.subrange(from, all.len() as int));
    if n < all.len() {
        lemma_cut(all, n);
        assert(pieces(all, n) == 1 + pieces(all, cut(all, n)));
    } else {
        assert(pieces(all, n) == 0);
    }
}

/// The end of what one page takes of the records from `from` on.
pub fn find_cut(all: &Vec<Record>, from: usize) -> (to: usize)
    requires
        from < all@.len(),
        each_fits(items(all@)),
    ensures
        to == cut(items(all@), from as int),
        from < to <= all@.len(),
        model::load(items(all@).subrange(from as int, to as int)) <= model::usable(),
{
    let full = DEFAULT_PSIZE - PAGE_HEADER_SIZE;
    let ghost its = items(all@);
    let mut to: usize = from;
    let mut used: usize = 0;
    let mut looking = true;
    while looking && to < all.len()
        invariant
            its == items(all@),
            each_fits(its),
            full == model::usable(),
            from <= to <= all@.len(),
            used <= full,
            looking ==> cut(its, from as int) == cut_from(its, to as int, used as int),
            !looking ==> cut(its, from as int) == to,
        decreases
            all@.len() - to + if looking {
                1int
            } else {
                0
            },
    {
        let r = &all[to];
        assert(its[to as int] == r@);
        proof {
            model::lemma_item_size(its[to as int]);
        }
        let cost = align_entry(BLEAF_HEADER_SIZE + r.key.len() + r.val.len()) + 2;
        if used + cost <= full {
            used = used + cost;
            to = to + 1;
        } else {
            looking = false;
        }
    }
    proof {
        lemma_cut(its, from as int);
    }
    to
}

/// The records take up at most `free` bytes, their `linp[]` slots included.
pub fn fit_in(run: &Vec<Record>, free: usize) -> (r: bool)
    requires
        each_fits(items(run@)),
        free <= DEFAULT_PSIZE,
    ensures
        r == (model::load(items(run@)) <= free),
{
    let ghost its = items(run@);
    let mut used: usize = 0;
    let mut i: usize = 0;
    proof {
        assert(its.subrange(0, 0) =~= Seq::<Item>::empty());
        assert(its.subrange(0, its.len() as int) =~= its);
    }
    while i < run.len()
        invariant
            its == items(run@),
            its.subrange(0, its.len() as int) == its,
            each_fits(its),
            i <= run@.len(),
            free <= DEFAULT_PSIZE,
            used <= free,
            used == model::load(its.subrange(0, i as int)),
        decreases run@.len() - i,
    {
        let r = &run[i];
        assert(its[i as int] == r@);
        proof {
            model::lemma_item_size(its[i as int]);
            assert(its.subrange(0, i + 1).drop_last() =~= its.subrange(0, i as int));
            lemma_part(its, 0, i + 1, its.len() as int);
        }
        let cost = align_entry(BLEAF_HEADER_SIZE + r.key.len() + r.val.len()) + 2;
        if used + cost > free {
            return false;
        }
        used = used + cost;
        i = i + 1;
    }
    true
}

/// The entries of a page with the records of `run` among them, from `skip`
/// on.
pub fn collect(page: &PageBuf, skip: usize, run: &Vec<Record>) -> (r: Vec<Record>)
    requires
        page.wf(),
        skip <= page@.slots.len(),
    ensures
        items(r@) == spread::splice(page@.items(), skip as int, items(run@)),
{
    let ghost old = page@.items();
    let n = page.nentries();
    let mut out: Vec<Record> = Vec::new();
    let mut i: usize = 0;
    while i < skip
        invariant
            page.wf(),
            old == page@.items(),
            i <= skip <= old.len(),
            old.len() == page@.slots.len(),
            items(out@) =~= old.take(i as int),
        decreases skip - i,
    {
        let ghost before = out@;
        let r = Record {
            key: slice_to_vec(page.key(i)),
            word: page.word(i),
            val: slice_to_vec(page.val(i)),
        };
        assert(r@ == old[i as int]);
        out.push(r);
        assert(items(out@) =~= items(before).push(old[i as int]));
        i = i + 1;
    }
    let mut j: usize = 0;
    while j < run.len()
        invariant
            j <= run@.len(),
            skip <= old.len(),
            items(out@) =~= old.take(skip as int) + items(run@).take(j as int),
        decreases run@.len() - j,
    {
        let ghost before = out@;
        let source = &run[j];
        let r = Record {
            key: slice_to_vec(source.key.as_slice()),
            word: source.word,
            val: slice_to_vec(source.val.as_slice()),
        };
        assert(r@ == items(run@)[j as int]);
        out.push(r);
        assert(items(out@) =~= items(before).push(items(run@)[j as int]));
        j = j + 1;
    }
    i = skip;
    while i < n
        invariant
            page.wf(),
            old == page@.items(),
            skip <= i <= n,
            n == old.len(),
            old.len() == page@.slots.len(),
            items(out@) =~= old.take(skip as int) + items(run@) + old.subrange(
                skip as int,
                i as int,
            ),
        decreases n - i,
    {
        let ghost before = out@;
        let r = Record {
            key: slice_to_vec(page.key(i)),
            word: page.word(i),
            val: slice_to_vec(page.val(i)),
        };
        assert(r@ == old[i as int]);
        out.push(r);
        assert(items(out@) =~= items(before).push(old[i as int]));
        i = i + 1;
    }
    assert(old.subrange(skip as int, n as int) =~= old.skip(skip as int));
    out
}

/// Append records `from..to` to a page.
pub fn fill_page(page: &mut PageBuf, all: &Vec<Record>, from: usize, to: usize)
    requires
        old(page).wf(),
        old(page)@.slots.len() == 0,
        from <= to <= all@.len(),
        spread::entries_ok(items(all@), old(page)@.flags),
        model::load(items(all@).subrange(from as int, to as int)) <= model::usable(),
    ensures
        final(page).wf(),
        final(page).endian == old(page).endian,
        final(page)@ == old(page)@.fill(items(all@).subrange(from as int, to as int)),
{
    let ghost its = items(all@);
    let ghost blank = page@;
    let mut i: usize = from;
    proof {
        assert(its.subrange(from as int, from as int) =~= Seq::<Item>::empty());
        assert(blank.items() =~= Seq::<Item>::empty());
    }
    while i < to
        invariant
            its == items(all@),
            from <= i <= to <= all@.len(),
            blank == old(page)@,
            blank.wf(),
            blank.slots.len() == 0,
            blank.free() == model::usable(),
            spread::entries_ok(its, blank.flags),
            model::load(its.subrange(from as int, to as int)) <= model::usable(),
            page.wf(),
            page.endian == old(page).endian,
            page@ == blank.fill(its.subrange(from as int, i as int)),
        decreases to - i,
    {
        let ghost done = its.subrange(from as int, i as int);
        let ghost more = its.subrange(from as int, i + 1);
        proof {
            assert(more.drop_last() =~= done);
            assert(more.last() == its[i as int]);
            lemma_part(its, from as int, i + 1, to as int);
            model::lemma_load_nonneg(done);
            model::lemma_item_size(its[i as int]);
            assert forall|j: int| 0 <= j < done.len() implies (#[trigger] done[j]).fits_kind(
                blank.flags,
            ) by {
                assert(done[j] == its[from + j]);
            }
            model::lemma_fill(blank, done);
            assert(its[i as int].fits_kind(blank.flags));
        }
        let slot = page.nentries();
        let r = &all[i];
        assert(its[i as int] == r@);
        page.insert_entry(slot, r.key.as_slice(), r.word, r.val.as_slice());
        i = i + 1;
    }
}

/// Insert records into a page with room for them, from slot `skip` on.
#[verifier::rlimit(40)]
pub fn insert_run(page: &mut PageBuf, skip: usize, run: &Vec<Record>)
    requires
        old(page).wf(),
        skip <= old(page)@.slots.len(),
        spread::entries_ok(items(run@), old(page)@.flags),
        model::load(items(run@)) <= old(page)@.free(),
    ensures
        final(page).wf(),
        final(page).endian == old(page).endian,
        final(page)@.items() == spread::splice(old(page)@.items(), skip as int, items(run@)),
        final(page)@.pgno == old(page)@.pgno,
        final(page)@.prev == old(page)@.prev,
        final(page)@.next == old(page)@.next,
        final(page)@.flags == old(page)@.flags,
{
    let ghost its = items(run@);
    let ghost before = page@;
    let ghost base = before.items();
    let n = page.nentries();
    let mut i: usize = 0;
    proof {
        assert(its.subrange(0, 0) =~= Seq::<Item>::empty());
        assert(its.subrange(0, its.len() as int) =~= its);
        assert(spread::splice(base, skip as int, Seq::empty()) =~= base);
    }
    while i < run.len()
        invariant
            its == items(run@),
            its.subrange(0, its.len() as int) == its,
            i <= run@.len(),
            before == old(page)@,
            base == before.items(),
            base.len() == before.slots.len(),
            n == base.len(),
            n <= DEFAULT_PSIZE,
            skip <= n,
            spread::entries_ok(its, before.flags),
            model::load(its) <= before.free(),
            page.wf(),
            page.endian == old(page).endian,
            page@.items() == spread::splice(base, skip as int, its.subrange(0, i as int)),
            page@.free() == before.free() - model::load(its.subrange(0, i as int)),
            page@.pgno == before.pgno,
            page@.prev == before.prev,
            page@.next == before.next,
            page@.flags == before.flags,
        decreases run@.len() - i,
    {
        let ghost done = its.subrange(0, i as int);
        let ghost more = its.subrange(0, i + 1);
        let ghost item = its[i as int];
        let ghost here = page@;
        proof {
            assert(more.drop_last() =~= done);
            assert(more.last() == item);
            lemma_part(its, 0, i + 1, its.len() as int);
            assert(item.fits_kind(before.flags));
            assert(here.items().len() == here.slots.len());
            model::lemma_load_nonneg(done);
            model::lemma_load_nonneg(base);
            assert(i <= DEFAULT_PSIZE) by {
                model::lemma_load_nonneg(done);
            }
            model::lemma_place(here, skip + i, item);
            assert(spread::splice(base, skip as int, done).insert(skip + i, item)
                =~= spread::splice(base, skip as int, more));
        }
        let r = &run[i];
        assert(item == r@);
        page.insert_entry(skip + i, r.key.as_slice(), r.word, r.val.as_slice());
        i = i + 1;
    }
}

} // verus!
