//! Pages as the writer thinks of them.

use crate::bytes;
use crate::format::{
    DEFAULT_PSIZE, PAGE_HEADER_SIZE, P_BINTERNAL, P_BLEAF,
};
use crate::page::RawPage;
use vstd::prelude::*;

verus! {

/// What an entry holds: a key and a value on a leaf, where `word` is the
/// length of the value; a separator and a child page number on an internal
/// page, where `word` is that number and `val` is empty.
pub struct Item {
    pub key: Seq<u8>,
    pub word: u32,
    pub val: Seq<u8>,
}

/// A `linp[]` slot: the offset it holds and the entry there.
pub struct Slot {
    pub off: int,
    pub item: Item,
}

/// The active content of a page: every header field, every `linp[]` value
/// and every entry.  What is left out is alignment padding and the slack
/// between `linp[]` and the entries.
pub struct Page {
    pub pgno: u32,
    pub prev: u32,
    pub next: u32,
    pub flags: u32,
    pub upper: int,
    pub slots: Seq<Slot>,
}

/// Bytes of a page that `linp[]` slots and entries share.
pub open spec fn usable() -> int {
    DEFAULT_PSIZE - PAGE_HEADER_SIZE
}

impl Item {
    /// The bytes that the entry writes.
    pub open spec fn raw(self) -> int {
        (9 + self.key.len() + self.val.len()) as int
    }

    /// The bytes that the entry takes up, alignment included.
    pub open spec fn size(self) -> int {
        crate::format::align4(self.raw())
    }

    /// The bytes that the entry takes up, its `linp[]` slot included.
    pub open spec fn cost(self) -> int {
        self.size() + 2
    }

    /// The entry is of the kind that pages with these flags hold.
    pub open spec fn fits_kind(self, flags: u32) -> bool {
        if flags == P_BLEAF {
            self.word == self.val.len()
        } else {
            self.val.len() == 0
        }
    }
}

/// The bytes that the entries take up, their `linp[]` slots included.
pub open spec fn load(items: Seq<Item>) -> int
    decreases items.len(),
{
    if items.len() == 0 {
        0
    } else {
        load(items.drop_last()) + items.last().cost()
    }
}

impl Page {
    /// A page with no entries.
    pub open spec fn empty(pgno: u32, flags: u32) -> Page {
        Page { pgno, prev: 0, next: 0, flags, upper: DEFAULT_PSIZE as int, slots: Seq::empty() }
    }

    /// The entries in `linp[]` order.
    pub open spec fn items(self) -> Seq<Item> {
        Seq::new(self.slots.len(), |i: int| self.slots[i].item)
    }

    pub open spec fn is_leaf(self) -> bool {
        self.flags == P_BLEAF
    }

    /// Bytes between the end of `linp[]` and the first entry.
    pub open spec fn free(self) -> int {
        self.upper - PAGE_HEADER_SIZE - 2 * self.slots.len()
    }

    /// Insert an entry before slot `idx`, below all others.
    pub open spec fn place(self, idx: int, item: Item) -> Page {
        let off = self.upper - item.size();
        Page { upper: off, slots: self.slots.insert(idx, Slot { off, item }), ..self }
    }

    /// Remove the entry of slot `idx` and move the entries below it up to
    /// close the gap.
    pub open spec fn cut(self, idx: int) -> Page {
        let gone = self.slots[idx];
        Page {
            upper: self.upper + gone.item.size(),
            slots: Seq::new(
                (self.slots.len() - 1) as nat,
                |i: int| self.slots[if i < idx {
                    i
                } else {
                    i + 1
                }].closing(gone),
            ),
            ..self
        }
    }

    /// Append entries one below the other.
    pub open spec fn fill(self, items: Seq<Item>) -> Page
        decreases items.len(),
    {
        if items.len() == 0 {
            self
        } else {
            let p = self.fill(items.drop_last());
            p.place(p.slots.len() as int, items.last())
        }
    }

    /// Entries lie apart and aligned, in the entry region, which they fill,
    /// and are of the page's kind.
    pub open spec fn wf(self) -> bool {
        &&& self.flags == P_BLEAF || self.flags == P_BINTERNAL
        &&& self.free() >= 0
        &&& self.free() == usable() - load(self.items())
        &&& self.upper % 4 == 0
        &&& forall|i: int|
            0 <= i < self.slots.len() ==> self.upper <= (#[trigger] self.slots[i]).off
                && self.slots[i].end() <= DEFAULT_PSIZE && self.slots[i].off % 4 == 0
                && self.slots[i].item.fits_kind(self.flags)
        &&& forall|i: int, j: int|
            0 <= i < self.slots.len() && 0 <= j < self.slots.len() && i != j
                ==> #[trigger] self.slots[i].apart(#[trigger] self.slots[j])
    }
}

impl Slot {
    pub open spec fn end(self) -> int {
        self.off + self.item.size()
    }

    /// The two entries share no byte.
    pub open spec fn apart(self, other: Slot) -> bool {
        self.end() <= other.off || other.end() <= self.off
    }

    /// This slot after entry `gone` has been cut out.
    pub open spec fn closing(self, gone: Slot) -> Slot {
        Slot {
            off: if self.off < gone.off {
                self.off + gone.item.size()
            } else {
                self.off
            },
            item: self.item,
        }
    }
}

/// An entry takes up what it writes and at most three bytes more.
pub proof fn lemma_item_size(item: Item)
    ensures
        item.raw() <= item.size() < item.raw() + 4,
        item.size() >= 12,
{
}

/// Where an entry is inserted does not matter to the load.
pub proof fn lemma_load_insert(items: Seq<Item>, idx: int, item: Item)
    requires
        0 <= idx <= items.len(),
    ensures
        load(items.insert(idx, item)) == load(items) + item.cost(),
    decreases items.len(),
{
    let after = items.insert(idx, item);
    if idx == items.len() {
        assert(after.drop_last() =~= items);
    } else {
        assert(after.drop_last() =~= items.drop_last().insert(idx, item));
        lemma_load_insert(items.drop_last(), idx, item);
    }
}

/// The load of a concatenation is the sum of the loads.
pub proof fn lemma_load_concat(a: Seq<Item>, b: Seq<Item>)
    ensures
        load(a + b) == load(a) + load(b),
    decreases b.len(),
{
    if b.len() == 0 {
        assert(a + b =~= a);
    } else {
        assert((a + b).drop_last() =~= a + b.drop_last());
        lemma_load_concat(a, b.drop_last());
    }
}

/// No part of a load is more than the whole.
pub proof fn lemma_load_nonneg(items: Seq<Item>)
    ensures
        load(items) >= 14 * items.len(),
    decreases items.len(),
{
    if items.len() > 0 {
        lemma_load_nonneg(items.drop_last());
        lemma_item_size(items.last());
    }
}

/// Inserting an entry that fits keeps a page sound.
pub proof fn lemma_place(p: Page, idx: int, item: Item)
    requires
        p.wf(),
        0 <= idx <= p.slots.len(),
        item.fits_kind(p.flags),
        item.cost() <= p.free(),
    ensures
        p.place(idx, item).wf(),
        p.place(idx, item).items() == p.items().insert(idx, item),
{
    let q = p.place(idx, item);
    assert(q.items() =~= p.items().insert(idx, item));
    lemma_load_insert(p.items(), idx, item);
    lemma_item_size(item);
    assert forall|i: int| 0 <= i < q.slots.len() implies q.upper <= (#[trigger] q.slots[i]).off
        && q.slots[i].end() <= DEFAULT_PSIZE && q.slots[i].item.fits_kind(q.flags) by {
        if i < idx {
            assert(q.slots[i] == p.slots[i]);
        } else if i > idx {
            assert(q.slots[i] == p.slots[i - 1]);
        }
    }
    assert forall|i: int, j: int|
        0 <= i < q.slots.len() && 0 <= j < q.slots.len() && i != j implies #[trigger] q.slots[i].apart(
    #[trigger] q.slots[j]) by {
        let i0 = if i < idx {
            i
        } else {
            i - 1
        };
        let j0 = if j < idx {
            j
        } else {
            j - 1
        };
        if i != idx {
            assert(q.slots[i] == p.slots[i0]);
        }
        if j != idx {
            assert(q.slots[j] == p.slots[j0]);
        }
        if i != idx && j != idx {
            assert(p.slots[i0].apart(p.slots[j0]));
        }
    }
}

/// Cutting an entry out keeps a page sound.
pub proof fn lemma_cut(p: Page, idx: int)
    requires
        p.wf(),
        0 <= idx < p.slots.len(),
    ensures
        p.cut(idx).wf(),
        p.cut(idx).items() == p.items().remove(idx),
{
    let q = p.cut(idx);
    let gone = p.slots[idx];
    assert(q.items() =~= p.items().remove(idx));
    assert(p.items() =~= q.items().insert(idx, gone.item));
    lemma_load_insert(q.items(), idx, gone.item);
    lemma_item_size(gone.item);
    let source = |i: int|
        if i < idx {
            i
        } else {
            i + 1
        };
    assert forall|i: int| 0 <= i < q.slots.len() implies q.upper <= (#[trigger] q.slots[i]).off
        && q.slots[i].end() <= DEFAULT_PSIZE && q.slots[i].item.fits_kind(q.flags) by {
        let s = p.slots[source(i)];
        assert(q.slots[i] == s.closing(gone));
        assert(s.apart(gone));
        lemma_item_size(s.item);
    }
    assert forall|i: int, j: int|
        0 <= i < q.slots.len() && 0 <= j < q.slots.len() && i != j implies #[trigger] q.slots[i].apart(
    #[trigger] q.slots[j]) by {
        let s = p.slots[source(i)];
        let t = p.slots[source(j)];
        assert(q.slots[i] == s.closing(gone));
        assert(q.slots[j] == t.closing(gone));
        assert(s.apart(t) && s.apart(gone) && t.apart(gone));
        lemma_item_size(s.item);
        lemma_item_size(t.item);
    }
}

/// Cutting out the entry that was placed last gives the page back.
pub proof fn lemma_undone(p: Page, idx: int, item: Item)
    requires
        p.wf(),
        0 <= idx <= p.slots.len(),
    ensures
        p.place(idx, item).cut(idx) == p,
{
    lemma_item_size(item);
    assert(p.place(idx, item).cut(idx).slots =~= p.slots);
}

/// A page with no entries is sound.
pub proof fn lemma_empty(pgno: u32, flags: u32)
    requires
        flags == P_BLEAF || flags == P_BINTERNAL,
    ensures
        Page::empty(pgno, flags).wf(),
        Page::empty(pgno, flags).free() == usable(),
        Page::empty(pgno, flags).items() == Seq::<Item>::empty(),
{
    assert(Page::empty(pgno, flags).items() =~= Seq::<Item>::empty());
}

/// Appending entries that fit together keeps a page sound.
pub proof fn lemma_fill(p: Page, items: Seq<Item>)
    requires
        p.wf(),
        load(items) <= p.free(),
        forall|i: int| 0 <= i < items.len() ==> (#[trigger] items[i]).fits_kind(p.flags),
    ensures
        p.fill(items).wf(),
        p.fill(items).items() == p.items() + items,
        p.fill(items).free() == p.free() - load(items),
        p.fill(items).pgno == p.pgno,
        p.fill(items).prev == p.prev,
        p.fill(items).next == p.next,
        p.fill(items).flags == p.flags,
    decreases items.len(),
{
    if items.len() == 0 {
        assert(p.items() + items =~= p.items());
    } else {
        lemma_item_size(items.last());
        lemma_load_nonneg(items.drop_last());
        lemma_fill(p, items.drop_last());
        let q = p.fill(items.drop_last());
        lemma_place(q, q.slots.len() as int, items.last());
        assert(q.items().insert(q.slots.len() as int, items.last()) =~= p.items() + items);
    }
}

impl RawPage {
    /// The page holds leaf entries.
    pub open spec fn holds_leaf(self) -> bool {
        self.flags() == P_BLEAF
    }

    /// The bytes that the entry at `off` occupies, by its own header.
    pub open spec fn stored_raw(self, off: int) -> int {
        9 + bytes::u32_at(self.bytes, off, self.endian) + if self.holds_leaf() {
            bytes::u32_at(self.bytes, off + 4, self.endian) as int
        } else {
            0
        }
    }

    /// The entry at `off`.
    pub open spec fn stored_item(self, off: int) -> Item {
        let k = bytes::u32_at(self.bytes, off, self.endian) as int;
        let w = bytes::u32_at(self.bytes, off + 4, self.endian);
        Item {
            key: self.bytes.subrange(off + 9, off + 9 + k),
            word: w,
            val: if self.holds_leaf() {
                self.bytes.subrange(off + 9 + k, off + 9 + k + w)
            } else {
                Seq::empty()
            },
        }
    }

    /// The slot that `linp[i]` is.
    pub open spec fn stored_slot(self, i: int) -> Slot {
        Slot { off: self.linp(i), item: self.stored_item(self.linp(i)) }
    }

    /// The active content of the page.
    pub open spec fn decode(self) -> Page {
        Page {
            pgno: bytes::u32_at(self.bytes, 0, self.endian),
            prev: self.prev_pg(),
            next: self.next_pg(),
            flags: self.flags(),
            upper: self.upper(),
            slots: Seq::new(self.nentries() as nat, |i: int| self.stored_slot(i)),
        }
    }

    /// The entry that `linp[i]` names lies within the page and is inline.
    pub open spec fn entry_sound(self, i: int) -> bool {
        &&& self.linp(i) + self.stored_raw(self.linp(i)) <= DEFAULT_PSIZE
        &&& self.bytes[self.linp(i) + 8] == 0
    }

    /// The bytes are those of a page of the writer.
    pub open spec fn sound(self) -> bool {
        &&& self.bytes.len() == DEFAULT_PSIZE
        &&& PAGE_HEADER_SIZE <= self.lower() <= self.upper() <= DEFAULT_PSIZE
        &&& self.lower() % 2 == 0
        &&& forall|i: int| 0 <= i < self.nentries() ==> #[trigger] self.entry_sound(i)
        &&& self.decode().wf()
    }
}

/// An entry that has been moved, or left in place, reads as before.
pub proof fn lemma_stored_moved(a: RawPage, i: int, b: RawPage, j: int)
    requires
        a.endian == b.endian,
        a.flags() == b.flags(),
        0 <= i,
        0 <= j,
        i + a.stored_raw(i) <= a.bytes.len(),
        j + a.stored_raw(i) <= b.bytes.len(),
        forall|t: int| 0 <= t < a.stored_raw(i) ==> b.bytes[j + t] == #[trigger] a.bytes[i + t],
    ensures
        b.stored_raw(j) == a.stored_raw(i),
        b.stored_item(j) == a.stored_item(i),
        b.bytes[j + 8] == a.bytes[i + 8],
{
    reveal(bytes::u32_at);
    assert forall|t: int| 0 <= t < 9 implies b.bytes[j + t] == #[trigger] a.bytes[i + t] by {}
    assert(b.bytes[j] == a.bytes[i + 0]);
    assert(b.bytes[j + 1] == a.bytes[i + 1]);
    assert(b.bytes[j + 2] == a.bytes[i + 2]);
    assert(b.bytes[j + 3] == a.bytes[i + 3]);
    assert(b.bytes[j + 4 + 0] == a.bytes[i + 4]);
    assert(b.bytes[j + 4 + 1] == a.bytes[i + 5]);
    assert(b.bytes[j + 4 + 2] == a.bytes[i + 6]);
    assert(b.bytes[j + 4 + 3] == a.bytes[i + 7]);
    assert(b.bytes[j + 8] == a.bytes[i + 8]);
    assert(bytes::u32_at(a.bytes, i, a.endian) == bytes::u32_at(b.bytes, j, b.endian));
    assert(bytes::u32_at(a.bytes, i + 4, a.endian) == bytes::u32_at(b.bytes, j + 4, b.endian));
    let x = a.stored_item(i);
    let y = b.stored_item(j);
    let k = bytes::u32_at(a.bytes, i, a.endian) as int;
    assert forall|t: int| 0 <= t < x.key.len() implies x.key[t] == y.key[t] by {
        assert(a.bytes[i + (9 + t)] == b.bytes[j + (9 + t)]);
    }
    assert(x.key =~= y.key);
    assert forall|t: int| 0 <= t < x.val.len() implies x.val[t] == y.val[t] by {
        assert(a.bytes[i + (9 + k + t)] == b.bytes[j + (9 + k + t)]);
    }
    assert(x.val =~= y.val);
}

} // verus!
