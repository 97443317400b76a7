//! Page buffers that the writer owns.
//!
//! A page is a flat byte buffer whose first [`PAGE_HEADER_SIZE`] bytes are
//! the header, followed by an `indx_t` (`u16`) array `linp[]` growing upward
//! from the header, with entries placed at the offsets named in `linp[]` and
//! growing downward from the end of the page.
//!
//! Most algorithmic code in the writer does not want to think in terms of
//! "byte 16 is `lower`, byte 18 is `upper`".  This module is the seam where
//! those raw byte offsets are translated into named methods.

use crate::bytes;
use crate::bytes::{read_u16, read_u32, write_u16, write_u32, Endian};
use crate::format::{
    align_entry, BLEAF_HEADER_SIZE, DEFAULT_PSIZE, PAGE_HEADER_SIZE, P_BINTERNAL, P_BLEAF,
    P_INVALID,
};
use crate::page::RawPage;
use crate::writer::model;
use crate::writer::model::{Item, Page, Slot};
use vstd::prelude::*;
use vstd::slice::slice_subrange;

verus! {

/// A page under construction.
pub struct PageBuf {
    pub bytes: Vec<u8>,
    pub endian: Endian,
}

impl View for PageBuf {
    type V = Page;

    open spec fn view(&self) -> Page {
        self.raw().decode()
    }
}

/// Copy `src` into `buf` at `pos`.
fn copy_at(buf: &mut Vec<u8>, pos: usize, src: &[u8])
    requires
        pos + src@.len() <= old(buf).len(),
    ensures
        final(buf)@.len() == old(buf)@.len(),
        final(buf)@.subrange(pos as int, pos + src@.len()) == src@,
        bytes::agree(old(buf)@, final(buf)@, 0, pos as int),
        bytes::agree(old(buf)@, final(buf)@, pos + src@.len(), old(buf)@.len() as int),
{
    let n = src.len();
    let mut i: usize = 0;
    while i < n
        invariant
            i <= n,
            n == src@.len(),
            pos + n <= buf.len(),
            buf@.len() == old(buf)@.len(),
            forall|t: int| 0 <= t < i ==> buf@[pos + t] == src@[t],
            bytes::agree(old(buf)@, buf@, 0, pos as int),
            bytes::agree(old(buf)@, buf@, pos + n, old(buf)@.len() as int),
        decreases n - i,
    {
        buf.set(pos + i, src[i]);
        i = i + 1;
    }
    assert(buf@.subrange(pos as int, pos + src@.len()) =~= src@);
}

/// A page whose bytes differ from those of a sound page in the page number
/// and the sibling links only.
proof fn lemma_links_changed(a: RawPage, b: RawPage)
    requires
        a.sound(),
        a.endian == b.endian,
        b.bytes.len() == a.bytes.len(),
        bytes::agree(a.bytes, b.bytes, 12, DEFAULT_PSIZE as int),
    ensures
        b.sound(),
        b.decode() == (Page {
            pgno: b.decode().pgno,
            prev: b.prev_pg(),
            next: b.next_pg(),
            ..a.decode()
        }),
{
    bytes::lemma_agree(a.bytes, b.bytes, 12, DEFAULT_PSIZE as int, a.endian);
    assert forall|i: int| 0 <= i < a.nentries() implies #[trigger] b.entry_sound(i)
        && b.stored_slot(i) == a.stored_slot(i) by {
        assert(a.entry_sound(i));
        assert(b.linp(i) == a.linp(i));
        assert(a.decode().slots[i].off == a.linp(i));
        model::lemma_stored_moved(a, a.linp(i), b, b.linp(i));
    }
    assert forall|i: int| 0 <= i < a.nentries() implies b.decode().slots[i]
        == a.decode().slots[i] by {
        assert(b.entry_sound(i));
    }
    assert(b.decode().slots =~= a.decode().slots);
    assert(b.decode().items() =~= a.decode().items());
}

/// The bytes of a page before and after an insertion: only the bounds,
/// `linp[]` and what the entry writes are different.
pub open spec fn inserted_bytes(a: Seq<u8>, b: Seq<u8>, page: Page, item: Item) -> bool {
    let off = page.upper - item.size();
    &&& b.len() == a.len()
    &&& bytes::agree(a, b, 0, 16)
    &&& bytes::agree(a, b, PAGE_HEADER_SIZE + 2 * (page.slots.len() + 1), off)
    &&& bytes::agree(a, b, off + item.raw(), DEFAULT_PSIZE as int)
}

/// The bytes of a page before and after the removal of entry `idx`: those
/// below the entry have moved up, and but for the bounds and `linp[]` all
/// others are as they were.
pub open spec fn deleted_bytes(a: Seq<u8>, b: Seq<u8>, page: Page, idx: int) -> bool {
    let gone = page.slots[idx];
    &&& b.len() == a.len()
    &&& bytes::agree(a, b, 0, 16)
    &&& bytes::agree(
        a,
        b,
        PAGE_HEADER_SIZE + 2 * (page.slots.len() - 1),
        page.upper + gone.item.size(),
    )
    &&& forall|t: int| page.upper <= t < gone.off ==> b[t + gone.item.size()] == #[trigger] a[t]
    &&& bytes::agree(a, b, gone.end(), DEFAULT_PSIZE as int)
}

/// Byte `i` is part of the active content of the page: of its header, its
/// `linp[]` or an entry.
pub open spec fn active(page: Page, i: int) -> bool {
    ||| i < PAGE_HEADER_SIZE + 2 * page.slots.len()
    ||| exists|j: int|
        0 <= j < page.slots.len() && (#[trigger] page.slots[j]).off <= i < page.slots[j].off
            + page.slots[j].item.raw()
}

/// Padding and slack of the page, whose bytes are `b`, are as in `ground`.
pub open spec fn kept(ground: Seq<u8>, b: Seq<u8>, page: Page) -> bool {
    &&& ground.len() == DEFAULT_PSIZE
    &&& b.len() == DEFAULT_PSIZE
    &&& forall|i: int| 0 <= i < DEFAULT_PSIZE && !active(page, i) ==> #[trigger] b[i] == ground[i]
}

/// The bytes of a page that nothing has been written to.
pub open spec fn zeros() -> Seq<u8> {
    Seq::new(DEFAULT_PSIZE as nat, |i: int| 0u8)
}

/// An insertion touches neither padding nor slack.
pub proof fn lemma_kept_inserted(
    ground: Seq<u8>,
    a: Seq<u8>,
    b: Seq<u8>,
    page: Page,
    idx: int,
    item: Item,
)
    requires
        kept(ground, a, page),
        inserted_bytes(a, b, page, item),
        0 <= idx <= page.slots.len(),
    ensures
        kept(ground, b, page.place(idx, item)),
{
    let after = page.place(idx, item);
    assert forall|i: int| 0 <= i < DEFAULT_PSIZE && !active(after, i) implies #[trigger] b[i]
        == ground[i] by {
        assert(after.slots[idx].off == page.upper - item.size());
        if active(page, i) {
            let j = choose|j: int|
                0 <= j < page.slots.len() && (#[trigger] page.slots[j]).off <= i
                    < page.slots[j].off + page.slots[j].item.raw();
            if j < idx {
                assert(after.slots[j] == page.slots[j]);
            } else {
                assert(after.slots[j + 1] == page.slots[j]);
            }
        }
        assert(a[i] == ground[i]);
    }
}

/// A page whose header alone has changed.
pub proof fn lemma_kept_relinked(ground: Seq<u8>, a: Seq<u8>, b: Seq<u8>, page: Page, after: Page)
    requires
        kept(ground, a, page),
        b.len() == a.len(),
        bytes::agree(a, b, PAGE_HEADER_SIZE as int, DEFAULT_PSIZE as int),
        after.slots == page.slots,
    ensures
        kept(ground, b, after),
{
    assert forall|i: int| 0 <= i < DEFAULT_PSIZE && !active(after, i) implies #[trigger] b[i]
        == ground[i] by {
        assert(!active(page, i));
        assert(a[i] == ground[i]);
    }
}

/// Where padding and slack are kept, so is all between `linp[]` and the
/// first entry.
pub proof fn law_kept_slack(ground: Seq<u8>, b: Seq<u8>, page: Page)
    requires
        page.wf(),
        kept(ground, b, page),
    ensures
        bytes::agree(ground, b, PAGE_HEADER_SIZE + 2 * page.slots.len(), page.upper),
{
    assert forall|i: int|
        PAGE_HEADER_SIZE + 2 * page.slots.len() <= i < page.upper implies ground[i] == b[i] by {
        assert(!active(page, i));
    }
}

/// A byte of an entry is that of every page that holds the entry there.
proof fn lemma_entry_bytes(a: RawPage, b: RawPage, j: int, i: int)
    requires
        a.sound(),
        b.sound(),
        a.endian == b.endian,
        a.decode() == b.decode(),
        0 <= j < a.decode().slots.len(),
        a.decode().slots[j].off <= i < a.decode().slots[j].off + a.decode().slots[j].item.raw(),
    ensures
        a.bytes[i] == b.bytes[i],
{
    assert(a.decode().slots.len() == a.nentries());
    assert(b.decode().slots.len() == b.nentries());
    assert(a.entry_sound(j) && b.entry_sound(j));
    let off = a.linp(j);
    assert(a.decode().slots[j] == a.stored_slot(j));
    assert(b.decode().slots[j] == b.stored_slot(j));
    assert(b.linp(j) == off);
    let x = a.stored_item(off);
    let y = b.stored_item(off);
    assert(x == y);
    let k = x.key.len() as int;
    assert(bytes::u32_at(a.bytes, off, a.endian) == k);
    assert(bytes::u32_at(b.bytes, off, a.endian) == k);
    bytes::lemma_same_words(a.bytes, b.bytes, off, a.endian);
    bytes::lemma_same_words(a.bytes, b.bytes, off + 4, a.endian);
    if off + 9 <= i < off + 9 + k {
        assert(x.key[i - off - 9] == a.bytes[i]);
        assert(y.key[i - off - 9] == b.bytes[i]);
    } else if off + 9 + k <= i {
        assert(x.val[i - off - 9 - k] == a.bytes[i]);
        assert(y.val[i - off - 9 - k] == b.bytes[i]);
    }
}

/// Active content, padding and slack are all there is to a page: every byte
/// follows from them.
pub proof fn law_bytes_determined(ground: Seq<u8>, a: RawPage, b: RawPage)
    requires
        a.sound(),
        b.sound(),
        a.endian == b.endian,
        a.decode() == b.decode(),
        kept(ground, a.bytes, a.decode()),
        kept(ground, b.bytes, b.decode()),
    ensures
        a.bytes == b.bytes,
{
    let page = a.decode();
    let e = a.endian;
    assert(page.slots.len() == a.nentries());
    assert(b.decode().slots.len() == b.nentries());
    bytes::lemma_same_words(a.bytes, b.bytes, 0, e);
    bytes::lemma_same_words(a.bytes, b.bytes, 4, e);
    bytes::lemma_same_words(a.bytes, b.bytes, 8, e);
    bytes::lemma_same_words(a.bytes, b.bytes, 12, e);
    bytes::lemma_same_words(a.bytes, b.bytes, 16, e);
    bytes::lemma_same_words(a.bytes, b.bytes, 18, e);
    assert(a.lower() == b.lower());
    assert forall|i: int| 0 <= i < DEFAULT_PSIZE implies a.bytes[i] == b.bytes[i] by {
        if !active(page, i) {
            assert(a.bytes[i] == ground[i] && b.bytes[i] == ground[i]);
        } else if i < PAGE_HEADER_SIZE {
        } else if i < PAGE_HEADER_SIZE + 2 * page.slots.len() {
            let j = (i - PAGE_HEADER_SIZE) / 2;
            assert(page.slots[j].off == a.linp(j));
            assert(b.decode().slots[j].off == b.linp(j));
            bytes::lemma_same_words(a.bytes, b.bytes, PAGE_HEADER_SIZE + 2 * j, e);
        } else {
            let j = choose|j: int|
                0 <= j < page.slots.len() && (#[trigger] page.slots[j]).off <= i
                    < page.slots[j].off + page.slots[j].item.raw();
            lemma_entry_bytes(a, b, j, i);
        }
    }
    assert(a.bytes =~= b.bytes);
}

/// A removal undoes an insertion to the byte: the number, the links, the
/// flags, the bounds, `linp[]`, and every byte from the first entry on are
/// as they were, padding included.
pub proof fn law_delete_undoes_insert(
    a: RawPage,
    b: RawPage,
    c: RawPage,
    idx: int,
    item: Item,
)
    requires
        a.sound(),
        0 <= idx <= a.decode().slots.len(),
        item.fits_kind(a.flags()),
        item.cost() <= a.decode().free(),
        b.sound(),
        c.sound(),
        b.decode() == a.decode().place(idx, item),
        inserted_bytes(a.bytes, b.bytes, a.decode(), item),
        c.decode() == b.decode().cut(idx),
        deleted_bytes(b.bytes, c.bytes, b.decode(), idx),
    ensures
        c.decode() == a.decode(),
        c.lower() == a.lower(),
        c.upper() == a.upper(),
        forall|i: int| 0 <= i < a.nentries() ==> #[trigger] c.linp(i) == a.linp(i),
        bytes::agree(a.bytes, c.bytes, 0, 16),
        bytes::agree(a.bytes, c.bytes, a.upper(), DEFAULT_PSIZE as int),
{
    model::lemma_item_size(item);
    model::lemma_undone(a.decode(), idx, item);
    assert(b.decode().slots[idx].off == a.upper() - item.size());
    assert forall|i: int| 0 <= i < a.nentries() implies #[trigger] c.linp(i) == a.linp(i) by {
        assert(c.decode().slots[i].off == c.linp(i));
        assert(a.decode().slots[i].off == a.linp(i));
    }
}

impl PageBuf {
    /// The bytes as the decoder sees them.
    pub open spec fn raw(&self) -> RawPage {
        RawPage { pgno: 0, bytes: self.bytes@, endian: self.endian }
    }

    /// The buffer holds a sound page.
    pub open spec fn wf(&self) -> bool {
        self.raw().sound()
    }

    /// A page of zero bytes.  It is no tree page; its room is for the meta
    /// page.
    pub fn blank(endian: Endian) -> (r: PageBuf)
        ensures
            r.endian == endian,
            r.bytes@ == Seq::new(DEFAULT_PSIZE as nat, |i: int| 0u8),
    {
        let bytes: Vec<u8> = vec![0u8; DEFAULT_PSIZE];
        assert(bytes@ =~= Seq::new(DEFAULT_PSIZE as nat, |i: int| 0u8));
        PageBuf { bytes, endian }
    }

    /// Build an empty page.
    pub fn empty_page(pgno: u32, flags: u32, endian: Endian) -> (r: PageBuf)
        requires
            flags == P_BLEAF || flags == P_BINTERNAL,
        ensures
            r.wf(),
            r.endian == endian,
            r@ == Page::empty(pgno, flags),
            forall|i: int| PAGE_HEADER_SIZE <= i < DEFAULT_PSIZE ==> r.bytes@[i] == 0,
    {
        let mut page = PageBuf::blank(endian);
        proof {
            lemma_zero_words(page.bytes@, endian);
        }
        let ghost b0 = page.bytes@;
        write_u32(&mut page.bytes, 0, pgno, endian);
        let ghost b1 = page.bytes@;
        proof {
            bytes::lemma_agree(b0, b1, 4, DEFAULT_PSIZE as int, endian);
        }
        page.reset(flags);
        proof {
            bytes::lemma_agree(b1, page.bytes@, 0, 12, endian);
        }
        assert(page@.slots =~= Seq::<Slot>::empty());
        page
    }

    /// Make this an empty page of the given kind, with the page number and
    /// sibling links that it has.
    pub fn reset(&mut self, flags: u32)
        requires
            flags == P_BLEAF || flags == P_BINTERNAL,
            old(self).bytes.len() == DEFAULT_PSIZE,
        ensures
            final(self).wf(),
            final(self).endian == old(self).endian,
            bytes::agree(old(self).bytes@, final(self).bytes@, 0, 12),
            bytes::agree(
                old(self).bytes@,
                final(self).bytes@,
                PAGE_HEADER_SIZE as int,
                DEFAULT_PSIZE as int,
            ),
            final(self)@ == (Page {
                flags,
                upper: DEFAULT_PSIZE as int,
                slots: Seq::empty(),
                ..old(self)@
            }),
    {
        let e = self.endian;
        let ghost b0 = self.bytes@;
        write_u32(&mut self.bytes, 12, flags, e);
        let ghost b1 = self.bytes@;
        write_u16(&mut self.bytes, 16, 20, e);
        let ghost b2 = self.bytes@;
        write_u16(&mut self.bytes, 18, 4096, e);
        let ghost b3 = self.bytes@;
        proof {
            assert(bytes::agree(b0, b3, 0, 12));
            assert(bytes::agree(b1, b3, 12, 16));
            assert(bytes::agree(b2, b3, 16, 18));
            bytes::lemma_agree(b0, b3, 0, 12, e);
            bytes::lemma_agree(b1, b3, 12, 16, e);
            bytes::lemma_agree(b2, b3, 16, 18, e);
            assert(self@.slots =~= Seq::<Slot>::empty());
            model::lemma_empty(0, flags);
            assert(self@.items() =~= Seq::<Item>::empty());
        }
    }

    /// Page number of the previous sibling at this level; `P_INVALID` if
    /// this is the leftmost page.
    pub fn prev_pg(&self) -> (r: u32)
        requires
            self.wf(),
        ensures
            r == self@.prev,
    {
        read_u32(self.bytes.as_slice(), 4, self.endian)
    }

    /// Page number of the next sibling at this level; `P_INVALID` if this is
    /// the rightmost page.
    pub fn next_pg(&self) -> (r: u32)
        requires
            self.wf(),
        ensures
            r == self@.next,
    {
        read_u32(self.bytes.as_slice(), 8, self.endian)
    }

    /// Page flags word.
    pub fn flags(&self) -> (r: u32)
        requires
            self.wf(),
        ensures
            r == self@.flags,
    {
        read_u32(self.bytes.as_slice(), 12, self.endian)
    }

    /// End of `linp[]`, in bytes.
    pub fn lower(&self) -> (r: usize)
        requires
            self.wf(),
        ensures
            r == PAGE_HEADER_SIZE + 2 * self@.slots.len(),
    {
        read_u16(self.bytes.as_slice(), 16, self.endian) as usize
    }

    /// Start of the entry region, in bytes.
    pub fn upper(&self) -> (r: usize)
        requires
            self.wf(),
        ensures
            r == self@.upper,
    {
        read_u16(self.bytes.as_slice(), 18, self.endian) as usize
    }

    /// Number of entries currently in `linp[]`.
    pub fn nentries(&self) -> (r: usize)
        requires
            self.wf(),
        ensures
            r == self@.slots.len(),
            r <= DEFAULT_PSIZE,
    {
        (self.lower() - PAGE_HEADER_SIZE) / 2
    }

    /// Free space, in bytes, between the end of `linp[]` and the start of
    /// the entry region.  A new entry of `nbytes` aligned bytes (plus its
    /// 2-byte `linp[]` slot) fits iff `free_space() >= nbytes + 2`.
    pub fn free_space(&self) -> (r: usize)
        requires
            self.wf(),
        ensures
            r == self@.free(),
    {
        self.upper() - self.lower()
    }

    /// `true` if the page is a btree leaf.
    pub fn is_leaf(&self) -> (r: bool)
        requires
            self.wf(),
        ensures
            r == self@.is_leaf(),
    {
        self.flags() == P_BLEAF
    }

    /// `true` if this is the rightmost page on its level.
    pub fn is_rightmost(&self) -> (r: bool)
        requires
            self.wf(),
        ensures
            r == (self@.next == P_INVALID),
    {
        self.next_pg() == P_INVALID
    }

    /// The `i`-th `linp[]` entry.
    fn linp(&self, i: usize) -> (r: usize)
        requires
            self.bytes.len() == DEFAULT_PSIZE,
            PAGE_HEADER_SIZE + 2 * i + 2 <= DEFAULT_PSIZE,
        ensures
            r == self.raw().linp(i as int),
            r <= 65535,
    {
        read_u16(self.bytes.as_slice(), PAGE_HEADER_SIZE + 2 * i, self.endian) as usize
    }

    /// The key of entry `i`.
    pub fn key(&self, i: usize) -> (r: &[u8])
        requires
            self.wf(),
            i < self@.slots.len(),
        ensures
            r@ == self@.slots[i as int].item.key,
    {
        let off = self.linp(i);
        assert(self.raw().entry_sound(i as int));
        let ksize = read_u32(self.bytes.as_slice(), off, self.endian) as usize;
        slice_subrange(self.bytes.as_slice(), off + 9, off + 9 + ksize)
    }

    /// The second header word of entry `i`: the child page number on an
    /// internal page, the length of the value on a leaf.
    pub fn word(&self, i: usize) -> (r: u32)
        requires
            self.wf(),
            i < self@.slots.len(),
        ensures
            r == self@.slots[i as int].item.word,
    {
        let off = self.linp(i);
        assert(self.raw().entry_sound(i as int));
        read_u32(self.bytes.as_slice(), off + 4, self.endian)
    }

    /// The value of entry `i`, empty on an internal page.
    pub fn val(&self, i: usize) -> (r: &[u8])
        requires
            self.wf(),
            i < self@.slots.len(),
        ensures
            r@ == self@.slots[i as int].item.val,
    {
        let off = self.linp(i);
        assert(self.raw().entry_sound(i as int));
        let ksize = read_u32(self.bytes.as_slice(), off, self.endian) as usize;
        let dsize = if self.is_leaf() {
            read_u32(self.bytes.as_slice(), off + 4, self.endian) as usize
        } else {
            0
        };
        let r = slice_subrange(self.bytes.as_slice(), off + 9 + ksize, off + 9 + ksize + dsize);
        assert(r@ =~= self@.slots[i as int].item.val);
        r
    }

    /// The aligned bytes that entry `i` takes up.
    pub fn entry_nbytes(&self, i: usize) -> (r: usize)
        requires
            self.wf(),
            i < self@.slots.len(),
        ensures
            r == self@.slots[i as int].item.size(),
            r <= DEFAULT_PSIZE,
    {
        let key = self.key(i);
        let val = self.val(i);
        assert(self.raw().entry_sound(i as int));
        assert(self@.slots[i as int].end() <= DEFAULT_PSIZE);
        align_entry(BLEAF_HEADER_SIZE + key.len() + val.len())
    }

    /// Set the previous-sibling page number.
    pub fn set_prev_pg(&mut self, v: u32)
        requires
            old(self).wf(),
        ensures
            final(self).wf(),
            final(self).endian == old(self).endian,
            final(self)@ == (Page { prev: v, ..old(self)@ }),
            bytes::agree(old(self).bytes@, final(self).bytes@, 0, 4),
            bytes::agree(old(self).bytes@, final(self).bytes@, 8, DEFAULT_PSIZE as int),
    {
        let e = self.endian;
        let ghost b0 = self.bytes@;
        write_u32(&mut self.bytes, 4, v, e);
        proof {
            bytes::lemma_agree(b0, self.bytes@, 0, 4, e);
            bytes::lemma_agree(b0, self.bytes@, 8, DEFAULT_PSIZE as int, e);
            lemma_links_changed(old(self).raw(), self.raw());
        }
    }

    /// Set the next-sibling page number.
    pub fn set_next_pg(&mut self, v: u32)
        requires
            old(self).wf(),
        ensures
            final(self).wf(),
            final(self).endian == old(self).endian,
            final(self)@ == (Page { next: v, ..old(self)@ }),
            bytes::agree(old(self).bytes@, final(self).bytes@, 0, 8),
            bytes::agree(old(self).bytes@, final(self).bytes@, 12, DEFAULT_PSIZE as int),
    {
        let e = self.endian;
        let ghost b0 = self.bytes@;
        write_u32(&mut self.bytes, 8, v, e);
        proof {
            bytes::lemma_agree(b0, self.bytes@, 0, 8, e);
            lemma_links_changed(old(self).raw(), self.raw());
        }
    }

    /// Set the `i`-th `linp[]` entry.
    fn set_linp(&mut self, i: usize, v: usize)
        requires
            old(self).bytes.len() == DEFAULT_PSIZE,
            PAGE_HEADER_SIZE + 2 * i + 2 <= DEFAULT_PSIZE,
            v <= 65535,
        ensures
            final(self).bytes.len() == DEFAULT_PSIZE,
            final(self).endian == old(self).endian,
            final(self).raw().linp(i as int) == v,
            forall|j: int|
                0 <= j && PAGE_HEADER_SIZE + 2 * j + 2 <= DEFAULT_PSIZE && j != i
                    ==> #[trigger] final(self).raw().linp(j) == old(self).raw().linp(j),
            bytes::agree(old(self).bytes@, final(self).bytes@, 0, PAGE_HEADER_SIZE + 2 * i),
            bytes::agree(
                old(self).bytes@,
                final(self).bytes@,
                PAGE_HEADER_SIZE + 2 * i + 2,
                DEFAULT_PSIZE as int,
            ),
    {
        let e = self.endian;
        write_u16(&mut self.bytes, PAGE_HEADER_SIZE + 2 * i, v as u16, e);
        proof {
            bytes::lemma_agree(old(self).bytes@, self.bytes@, 0, PAGE_HEADER_SIZE + 2 * i, e);
            bytes::lemma_agree(
                old(self).bytes@,
                self.bytes@,
                PAGE_HEADER_SIZE + 2 * i + 2,
                DEFAULT_PSIZE as int,
                e,
            );
        }
    }

    /// Set the bounds of the free space.
    fn set_bounds(&mut self, lower: usize, upper: usize)
        requires
            old(self).bytes.len() == DEFAULT_PSIZE,
            lower <= DEFAULT_PSIZE,
            upper <= DEFAULT_PSIZE,
        ensures
            final(self).bytes.len() == DEFAULT_PSIZE,
            final(self).endian == old(self).endian,
            final(self).raw().lower() == lower,
            final(self).raw().upper() == upper,
            bytes::agree(old(self).bytes@, final(self).bytes@, 0, 16),
            bytes::agree(
                old(self).bytes@,
                final(self).bytes@,
                PAGE_HEADER_SIZE as int,
                DEFAULT_PSIZE as int,
            ),
    {
        let e = self.endian;
        write_u16(&mut self.bytes, 16, lower as u16, e);
        let ghost b1 = self.bytes@;
        write_u16(&mut self.bytes, 18, upper as u16, e);
        proof {
            bytes::lemma_agree(b1, self.bytes@, 0, 18, e);
        }
    }

    /// Reserve `linp[idx]` for a new entry occupying `nbytes` aligned bytes.
    /// Shifts `linp[idx..nentries]` up by one, increments `lower` by 2,
    /// decrements `upper` by `nbytes`, and writes `linp[idx] = new_upper`.
    /// Returns the new `upper` so the caller can write the entry payload
    /// starting there.
    fn reserve_slot(&mut self, idx: usize, nbytes: usize) -> (new_upper: usize)
        requires
            old(self).wf(),
            idx <= old(self)@.slots.len(),
            nbytes % 4 == 0,
            nbytes + 2 <= old(self)@.free(),
        ensures
            final(self).bytes.len() == DEFAULT_PSIZE,
            final(self).endian == old(self).endian,
            new_upper == old(self)@.upper - nbytes,
            final(self).raw().lower() == old(self).raw().lower() + 2,
            final(self).raw().upper() == new_upper,
            final(self).raw().linp(idx as int) == new_upper,
            forall|j: int|
                0 <= j < idx ==> #[trigger] final(self).raw().linp(j) == old(self).raw().linp(j),
            forall|j: int|
                idx < j <= old(self)@.slots.len() ==> #[trigger] final(self).raw().linp(j) == old(
                    self,
                ).raw().linp(j - 1),
            bytes::agree(old(self).bytes@, final(self).bytes@, 0, 16),
            bytes::agree(
                old(self).bytes@,
                final(self).bytes@,
                PAGE_HEADER_SIZE + 2 * (old(self)@.slots.len() + 1),
                DEFAULT_PSIZE as int,
            ),
    {
        let n = self.nentries();
        let lower = self.lower();
        let upper = self.upper();
        let new_upper = upper - nbytes;
        let mut i: usize = n;
        while i > idx
            invariant
                idx <= i <= n,
                n == old(self)@.slots.len(),
                PAGE_HEADER_SIZE + 2 * n + 2 <= upper <= DEFAULT_PSIZE,
                self.bytes.len() == DEFAULT_PSIZE,
                self.endian == old(self).endian,
                forall|j: int|
                    i < j <= n ==> #[trigger] self.raw().linp(j) == old(self).raw().linp(j - 1),
                forall|j: int|
                    0 <= j <= i && j < n ==> #[trigger] self.raw().linp(j) == old(self).raw().linp(
                        j,
                    ),
                bytes::agree(old(self).bytes@, self.bytes@, 0, PAGE_HEADER_SIZE as int),
                bytes::agree(
                    old(self).bytes@,
                    self.bytes@,
                    PAGE_HEADER_SIZE + 2 * (n + 1),
                    DEFAULT_PSIZE as int,
                ),
            decreases i - idx,
        {
            let v = self.linp(i - 1);
            self.set_linp(i, v);
            i = i - 1;
        }
        let ghost shifted = *self;
        self.set_linp(idx, new_upper);
        let ghost written = *self;
        self.set_bounds(lower + 2, new_upper);
        proof {
            bytes::lemma_agree(
                written.bytes@,
                self.bytes@,
                PAGE_HEADER_SIZE as int,
                DEFAULT_PSIZE as int,
                self.endian,
            );
            assert forall|j: int| 0 <= j <= n implies #[trigger] self.raw().linp(j)
                == written.raw().linp(j) by {}
        }
        new_upper
    }

    /// Write an inline entry at offset `off`: header (key length, `word`,
    /// `flags = 0`) followed by the key then the value.  Padding bytes
    /// between the entry's last written byte and the next 4-byte boundary
    /// are left untouched.
    fn write_entry(&mut self, off: usize, key: &[u8], word: u32, val: &[u8])
        requires
            old(self).bytes.len() == DEFAULT_PSIZE,
            off + 9 + key@.len() + val@.len() <= DEFAULT_PSIZE,
        ensures
            final(self).bytes.len() == DEFAULT_PSIZE,
            final(self).endian == old(self).endian,
            bytes::u32_at(final(self).bytes@, off as int, final(self).endian) == key@.len(),
            bytes::u32_at(final(self).bytes@, off + 4, final(self).endian) == word,
            final(self).bytes@[off + 8] == 0,
            final(self).bytes@.subrange(off + 9, off + 9 + key@.len()) == key@,
            final(self).bytes@.subrange(off + 9 + key@.len(), off + 9 + key@.len() + val@.len())
                == val@,
            bytes::agree(old(self).bytes@, final(self).bytes@, 0, off as int),
            bytes::agree(
                old(self).bytes@,
                final(self).bytes@,
                off + 9 + key@.len() + val@.len(),
                DEFAULT_PSIZE as int,
            ),
    {
        let e = self.endian;
        write_u32(&mut self.bytes, off, key.len() as u32, e);
        let ghost b1 = self.bytes@;
        write_u32(&mut self.bytes, off + 4, word, e);
        let ghost b2 = self.bytes@;
        self.bytes.set(off + 8, 0);
        copy_at(&mut self.bytes, off + 9, key);
        let ghost b4 = self.bytes@;
        copy_at(&mut self.bytes, off + 9 + key.len(), val);
        proof {
            assert(bytes::agree(b1, self.bytes@, 0, off + 4));
            assert(bytes::agree(b2, self.bytes@, 0, off + 8));
            bytes::lemma_agree(b1, self.bytes@, 0, off + 4, e);
            bytes::lemma_agree(b2, self.bytes@, 0, off + 8, e);
            assert(self.bytes@.subrange(off + 9, off + 9 + key@.len()) =~= b4.subrange(
                off + 9,
                off + 9 + key@.len(),
            ));
        }
    }

    /// Insert a new entry at slot `idx`, splicing it into `linp[]` and
    /// writing its header and payload into the free region of the page.
    pub fn insert_entry(&mut self, idx: usize, key: &[u8], word: u32, val: &[u8])
        requires
            old(self).wf(),
            idx <= old(self)@.slots.len(),
            (Item { key: key@, word, val: val@ }).fits_kind(old(self)@.flags),
            (Item { key: key@, word, val: val@ }).cost() <= old(self)@.free(),
        ensures
            final(self).wf(),
            final(self).endian == old(self).endian,
            final(self)@ == old(self)@.place(idx as int, Item { key: key@, word, val: val@ }),
            inserted_bytes(
                old(self).bytes@,
                final(self).bytes@,
                old(self)@,
                Item { key: key@, word, val: val@ },
            ),
    {
        let ghost item = Item { key: key@, word, val: val@ };
        proof {
            model::lemma_item_size(item);
            model::lemma_place(old(self)@, idx as int, item);
        }
        let nbytes = align_entry(BLEAF_HEADER_SIZE + key.len() + val.len());
        let new_upper = self.reserve_slot(idx, nbytes);
        let ghost reserved = *self;
        self.write_entry(new_upper, key, word, val);
        proof {
            lemma_inserted(old(self).raw(), reserved.raw(), self.raw(), idx as int, item);
        }
    }

    /// Move the bytes of `[from, to)` up by `by`.
    fn shift_up(&mut self, from: usize, to: usize, by: usize)
        requires
            old(self).bytes.len() == DEFAULT_PSIZE,
            from <= to,
            to + by <= DEFAULT_PSIZE,
        ensures
            final(self).bytes.len() == DEFAULT_PSIZE,
            final(self).endian == old(self).endian,
            forall|t: int|
                from <= t < to ==> final(self).bytes@[t + by] == #[trigger] old(self).bytes@[t],
            bytes::agree(old(self).bytes@, final(self).bytes@, 0, from + by),
            bytes::agree(old(self).bytes@, final(self).bytes@, to + by, DEFAULT_PSIZE as int),
    {
        let mut i: usize = to;
        while i > from
            invariant
                from <= i <= to,
                to + by <= DEFAULT_PSIZE,
                self.bytes.len() == DEFAULT_PSIZE,
                self.endian == old(self).endian,
                forall|t: int|
                    i <= t < to ==> self.bytes@[t + by] == #[trigger] old(self).bytes@[t],
                bytes::agree(old(self).bytes@, self.bytes@, 0, i + by),
                bytes::agree(old(self).bytes@, self.bytes@, to + by, DEFAULT_PSIZE as int),
            decreases i - from,
        {
            i = i - 1;
            let v = self.bytes[i];
            self.bytes.set(i + by, v);
        }
    }

    /// Remove the entry at index `idx`, compacting the page in place.  All
    /// entries previously placed *after* the deleted one (smaller offset)
    /// shift up by the deleted entry's size; their `linp` values get
    /// adjusted.
    pub fn delete_entry(&mut self, idx: usize)
        requires
            old(self).wf(),
            idx < old(self)@.slots.len(),
        ensures
            final(self).wf(),
            final(self).endian == old(self).endian,
            final(self)@ == old(self)@.cut(idx as int),
            deleted_bytes(old(self).bytes@, final(self).bytes@, old(self)@, idx as int),
    {
        let lower = self.lower();
        let upper = self.upper();
        let n = self.nentries();
        let offset = self.linp(idx);
        let nbytes = self.entry_nbytes(idx);
        let ghost gone = self@.slots[idx as int];
        proof {
            model::lemma_cut(self@, idx as int);
            assert(gone.end() <= DEFAULT_PSIZE);
        }

        // Everything in `[upper, offset)` moves up, over the deleted entry.
        self.shift_up(upper, offset, nbytes);
        let ghost shifted = *self;
        proof {
            bytes::lemma_agree(old(self).bytes@, shifted.bytes@, 0, upper as int, self.endian);
            assert forall|j: int| 0 <= j < n implies #[trigger] shifted.raw().linp(j) == old(
                self,
            ).raw().linp(j) by {}
            assert forall|j: int| 0 <= j < n implies upper <= #[trigger] old(self).raw().linp(j)
                && old(self).raw().linp(j) + nbytes <= DEFAULT_PSIZE || old(self).raw().linp(j)
                >= offset by {
                assert(old(self)@.slots[j].off == old(self).raw().linp(j));
                if j != idx {
                    assert(old(self)@.slots[j].apart(gone));
                }
            }
        }

        // Any pointer below `offset` moves with its entry, and the pointers
        // after `linp[idx]` close the gap.
        let mut i: usize = 0;
        while i + 1 < n
            invariant
                i < n,
                idx < n,
                n == old(self)@.slots.len(),
                PAGE_HEADER_SIZE + 2 * n <= upper <= DEFAULT_PSIZE,
                offset + nbytes <= DEFAULT_PSIZE,
                self.bytes.len() == DEFAULT_PSIZE,
                self.endian == shifted.endian,
                shifted.endian == old(self).endian,
                forall|j: int|
                    0 <= j < i ==> #[trigger] self.raw().linp(j) == moved_offset(
                        shifted.raw().linp(
                            if j < idx {
                                j
                            } else {
                                j + 1
                            },
                        ),
                        offset as int,
                        nbytes as int,
                    ),
                forall|j: int|
                    i <= j < n ==> #[trigger] self.raw().linp(j) == shifted.raw().linp(j),
                bytes::agree(shifted.bytes@, self.bytes@, 0, PAGE_HEADER_SIZE as int),
                bytes::agree(
                    shifted.bytes@,
                    self.bytes@,
                    PAGE_HEADER_SIZE + 2 * (n - 1),
                    DEFAULT_PSIZE as int,
                ),
            decreases n - i,
        {
            let source = if i < idx {
                i
            } else {
                i + 1
            };
            let v = self.linp(source);
            let v2 = if v < offset {
                v + nbytes
            } else {
                v
            };
            self.set_linp(i, v2);
            i = i + 1;
        }
        let ghost pointed = *self;
        self.set_bounds(lower - 2, upper + nbytes);
        proof {
            bytes::lemma_agree(
                pointed.bytes@,
                self.bytes@,
                PAGE_HEADER_SIZE as int,
                DEFAULT_PSIZE as int,
                self.endian,
            );
            assert forall|j: int| 0 <= j < n implies #[trigger] self.raw().linp(j)
                == pointed.raw().linp(j) by {}
            assert(bytes::agree(old(self).bytes@, self.bytes@, 0, 16));
            assert(bytes::agree(shifted.bytes@, self.bytes@, upper as int, DEFAULT_PSIZE as int));
            assert(bytes::agree(
                shifted.bytes@,
                self.bytes@,
                PAGE_HEADER_SIZE + 2 * (n - 1),
                DEFAULT_PSIZE as int,
            ));
            lemma_deleted(old(self).raw(), self.raw(), idx as int);
        }
    }
}

/// Where an entry at `v` is once the entry of `nbytes` bytes at `offset` has
/// been cut out.
spec fn moved_offset(v: int, offset: int, nbytes: int) -> int {
    if v < offset {
        v + nbytes
    } else {
        v
    }
}

/// A page whose entries and `linp[]` values have closed the gap of entry
/// `idx` is the page with that entry cut out.
proof fn lemma_deleted(a: RawPage, c: RawPage, idx: int)
    requires
        a.sound(),
        0 <= idx < a.nentries(),
        a.decode().cut(idx).wf(),
        c.bytes.len() == DEFAULT_PSIZE,
        c.endian == a.endian,
        c.lower() == a.lower() - 2,
        c.upper() == a.upper() + a.decode().slots[idx].item.size(),
        bytes::agree(a.bytes, c.bytes, 0, 16),
        forall|j: int|
            0 <= j < a.nentries() - 1 ==> #[trigger] c.linp(j) == moved_offset(
                a.linp(
                    if j < idx {
                        j
                    } else {
                        j + 1
                    },
                ),
                a.linp(idx),
                a.decode().slots[idx].item.size(),
            ),
        forall|t: int|
            a.upper() <= t < a.linp(idx) ==> c.bytes[t + a.decode().slots[idx].item.size()]
                == #[trigger] a.bytes[t],
        bytes::agree(
            a.bytes,
            c.bytes,
            a.linp(idx) + a.decode().slots[idx].item.size(),
            DEFAULT_PSIZE as int,
        ),
    ensures
        c.sound(),
        c.decode() == a.decode().cut(idx),
{
    let e = a.endian;
    let gone = a.decode().slots[idx];
    let want = a.decode().cut(idx);
    bytes::lemma_agree(a.bytes, c.bytes, 0, 16, e);
    assert(c.nentries() == a.nentries() - 1);
    assert forall|j: int| 0 <= j < c.nentries() implies #[trigger] c.entry_sound(j)
        && c.stored_slot(j) == want.slots[j] by {
        let j0 = if j < idx {
            j
        } else {
            j + 1
        };
        let s = a.decode().slots[j0];
        assert(a.entry_sound(j0));
        assert(s.off == a.linp(j0));
        assert(s.apart(gone));
        model::lemma_item_size(s.item);
        model::lemma_item_size(gone.item);
        assert(a.stored_raw(a.linp(j0)) == s.item.raw());
        assert forall|t: int| 0 <= t < s.item.raw() implies c.bytes[c.linp(j) + t]
            == #[trigger] a.bytes[s.off + t] by {}
        model::lemma_stored_moved(a, a.linp(j0), c, c.linp(j));
    }
    assert forall|j: int| 0 <= j < c.nentries() implies c.decode().slots[j] == want.slots[j] by {
        assert(c.entry_sound(j));
    }
    assert(c.decode().slots =~= want.slots);
    assert(c.decode().items() =~= want.items());
}

/// A page whose `linp[]` has been opened at `idx` and whose free space has
/// received an entry is the page with that entry inserted.
proof fn lemma_inserted(a: RawPage, b: RawPage, c: RawPage, idx: int, item: Item)
    requires
        a.sound(),
        0 <= idx <= a.nentries(),
        item.fits_kind(a.flags()),
        item.cost() <= a.decode().free(),
        a.decode().place(idx, item).wf(),
        // the slot is reserved
        b.bytes.len() == DEFAULT_PSIZE,
        b.endian == a.endian,
        b.lower() == a.lower() + 2,
        b.upper() == a.upper() - item.size(),
        b.linp(idx) == b.upper(),
        forall|j: int| 0 <= j < idx ==> #[trigger] b.linp(j) == a.linp(j),
        forall|j: int| idx < j <= a.nentries() ==> #[trigger] b.linp(j) == a.linp(j - 1),
        bytes::agree(a.bytes, b.bytes, 0, 16),
        bytes::agree(a.bytes, b.bytes, a.upper(), DEFAULT_PSIZE as int),
        // the entry is written
        c.bytes.len() == DEFAULT_PSIZE,
        c.endian == a.endian,
        bytes::u32_at(c.bytes, b.upper(), c.endian) == item.key.len(),
        bytes::u32_at(c.bytes, b.upper() + 4, c.endian) == item.word,
        c.bytes[b.upper() + 8] == 0,
        c.bytes.subrange(b.upper() + 9, b.upper() + 9 + item.key.len()) == item.key,
        c.bytes.subrange(
            b.upper() + 9 + item.key.len(),
            b.upper() + 9 + item.key.len() + item.val.len(),
        ) == item.val,
        bytes::agree(b.bytes, c.bytes, 0, b.upper()),
        bytes::agree(b.bytes, c.bytes, b.upper() + item.raw(), DEFAULT_PSIZE as int),
    ensures
        c.sound(),
        c.decode() == a.decode().place(idx, item),
{
    let e = a.endian;
    let off = b.upper();
    let want = a.decode().place(idx, item);
    model::lemma_item_size(item);
    bytes::lemma_agree(a.bytes, b.bytes, 0, 16, e);
    bytes::lemma_agree(b.bytes, c.bytes, 0, off, e);
    assert(c.nentries() == a.nentries() + 1);
    assert(c.upper() == off && c.lower() == b.lower() && c.flags() == a.flags());
    assert forall|j: int| 0 <= j < c.nentries() implies c.linp(j) == b.linp(j) by {}
    assert(c.stored_item(off).val =~= item.val);
    assert(c.stored_item(off) == item);
    assert forall|j: int| 0 <= j < c.nentries() implies #[trigger] c.entry_sound(j)
        && c.stored_slot(j) == want.slots[j] by {
        if j == idx {
        } else {
            let j0 = if j < idx {
                j
            } else {
                j - 1
            };
            assert(a.entry_sound(j0));
            assert(b.linp(j) == a.linp(j0));
            assert(a.decode().slots[j0].off == a.linp(j0));
            model::lemma_stored_moved(a, a.linp(j0), c, c.linp(j));
        }
    }
    assert forall|j: int| 0 <= j < c.nentries() implies c.decode().slots[j] == want.slots[j] by {
        assert(c.entry_sound(j));
    }
    assert(c.decode().slots =~= want.slots);
    assert(c.decode().items() =~= want.items());
}

/// Zero bytes are zero integers.
proof fn lemma_zero_words(b: Seq<u8>, e: Endian)
    requires
        b == Seq::new(DEFAULT_PSIZE as nat, |i: int| 0u8),
    ensures
        forall|off: int|
            0 <= off && off + 4 <= b.len() ==> #[trigger] bytes::u32_at(b, off, e) == 0,
{
    reveal(bytes::u32_at);
}

} // verus!
