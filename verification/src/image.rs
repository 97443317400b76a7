//! What the bytes of a file mean to a reader, corrupt files included.

use crate::bytes;
use crate::bytes::Endian;
use crate::error::Error;
use crate::format::{
    BTREE_MAGIC, BTREE_VERSION, MAX_PSIZE, META_SIZE, MIN_PSIZE, PAGE_HEADER_SIZE, P_INVALID,
    P_ROOT, R_RECNO, SAVEMETA,
};
use crate::key;
use crate::key::Order;
use crate::page::{ItemRef, LeafEntry, RawPage};
use vstd::prelude::*;

verus! {

/// The bytes of a file, with the parameters decoded from its meta page.
pub struct Image {
    pub bytes: Seq<u8>,
    pub psize: int,
    pub endian: Endian,
}

/// A place in a forward scan.
pub enum Spot {
    /// The tree has not been descended yet.
    Start,
    /// The next entry is the one at `index` of the leaf `page`.
    At { page: RawPage, index: int },
    /// The scan is over.
    End,
}

/// A key and its value.
pub type Pair = (Seq<u8>, Seq<u8>);

/// What a host of byte order `host` finds in the meta page at the start of
/// `b`: the image, or the reason to refuse it.
pub open spec fn open_image(b: Seq<u8>, host: Endian) -> Result<Image, Error> {
    let endian = crate::format::file_endian(b, host);
    let meta = crate::format::meta_at(b, endian);
    if b.len() < META_SIZE {
        Err(Error::ShortFile)
    } else if meta.magic != BTREE_MAGIC {
        Err(Error::BadMagic { magic: meta.magic })
    } else if meta.version != BTREE_VERSION {
        Err(Error::BadVersion { version: meta.version })
    } else if !(MIN_PSIZE <= meta.psize <= MAX_PSIZE) || meta.psize % 2 != 0 {
        Err(Error::BadPageSize { psize: meta.psize })
    } else if meta.flags & !SAVEMETA != 0 || meta.flags & R_RECNO != 0 {
        Err(Error::UnsupportedFlags { flags: meta.flags })
    } else if b.len() as int % meta.psize as int != 0 {
        Err(Error::UnalignedFileLength { len: b.len() as u64, psize: meta.psize })
    } else {
        Ok(Image { bytes: b, psize: meta.psize as int, endian })
    }
}

/// The smaller of two integers.
pub open spec fn least(a: int, b: int) -> int {
    if a < b {
        a
    } else {
        b
    }
}

impl Image {
    /// The parameters are those that a meta page can give.
    pub open spec fn wf(self) -> bool {
        MIN_PSIZE <= self.psize <= MAX_PSIZE
    }

    /// Number of whole pages.
    pub open spec fn npages(self) -> nat {
        (self.bytes.len() as int / self.psize) as nat
    }

    /// Page `pgno`, if it lies within the image and its header is sound.
    pub open spec fn page(self, pgno: u32) -> Result<RawPage, Error> {
        if (pgno + 1) * self.psize > self.bytes.len() {
            Err(Error::PageOutOfBounds { pgno })
        } else {
            let raw = RawPage {
                pgno,
                bytes: self.bytes.subrange(pgno * self.psize, (pgno + 1) * self.psize),
                endian: self.endian,
            };
            match raw.header_error() {
                Some(e) => Err(e),
                None => Ok(raw),
            }
        }
    }

    /// How many of the `left` bytes still to come lie on the next page of
    /// an overflow chain.
    pub open spec fn chunk(self, left: int) -> int {
        least(left, self.psize - PAGE_HEADER_SIZE)
    }

    /// Page `pgno` of the overflow chain that starts at `start`.
    pub open spec fn overflow_page(self, start: u32, pgno: u32) -> Result<RawPage, Error> {
        if pgno == P_INVALID {
            Err(Error::CorruptOverflow { pgno: start })
        } else {
            match self.page(pgno) {
                Err(e) => Err(e),
                Ok(p) => if p.is_overflow() {
                    Ok(p)
                } else {
                    Err(Error::CorruptOverflow { pgno: start })
                },
            }
        }
    }

    /// The last `left` bytes of the overflow chain that starts at `start`,
    /// the first of them on page `pgno`.
    pub open spec fn overflow_bytes(self, start: u32, pgno: u32, left: int) -> Result<
        Seq<u8>,
        Error,
    >
        decreases left,
        when self.wf()
    {
        if left <= 0 {
            Ok(Seq::empty())
        } else {
            match self.overflow_page(start, pgno) {
                Err(e) => Err(e),
                Ok(p) => match self.overflow_bytes(start, p.next_pg(), left - self.chunk(left)) {
                    Err(e) => Err(e),
                    Ok(rest) => Ok(p.overflow_payload().take(self.chunk(left)) + rest),
                },
            }
        }
    }

    /// How `key` compares with the last `left` bytes of an overflow chain.
    /// Pages past the first difference are not looked at.
    pub open spec fn overflow_order(self, key: Seq<u8>, start: u32, pgno: u32, left: int) -> Result<
        Order,
        Error,
    >
        decreases left,
        when self.wf()
    {
        if left <= 0 {
            Ok(key::lex(key, Seq::empty()))
        } else {
            match self.overflow_page(start, pgno) {
                Err(e) => Err(e),
                Ok(p) => {
                    let take = self.chunk(left);
                    let other = p.overflow_payload().take(take);
                    if key.len() < take {
                        Ok(key::lex(key, other))
                    } else if key::lex(key.take(take), other) != Order::Equal {
                        Ok(key::lex(key.take(take), other))
                    } else {
                        self.overflow_order(key.skip(take), start, p.next_pg(), left - take)
                    }
                },
            }
        }
    }

    /// The bytes of a key or value of page `p`.
    pub open spec fn item_bytes(self, p: RawPage, item: ItemRef) -> Result<Seq<u8>, Error> {
        match item {
            ItemRef::Inline { .. } => p.inline(item),
            ItemRef::Overflow { pgno, size } => self.overflow_bytes(pgno, pgno, size as int),
        }
    }

    /// How `key` compares with an item of page `p`.
    pub open spec fn item_order(self, key: Seq<u8>, p: RawPage, item: ItemRef) -> Result<
        Order,
        Error,
    > {
        match item {
            ItemRef::Inline { .. } => match p.inline(item) {
                Err(e) => Err(e),
                Ok(s) => Ok(key::lex(key, s)),
            },
            ItemRef::Overflow { pgno, size } => self.overflow_order(key, pgno, pgno, size as int),
        }
    }

    /// How `key` compares with the key of leaf entry `idx`.
    pub open spec fn leaf_order(self, key: Seq<u8>, p: RawPage, idx: int) -> Result<Order, Error> {
        match p.leaf_entry(idx) {
            Err(e) => Err(e),
            Ok(entry) => self.item_order(key, p, entry.key),
        }
    }

    /// How `key` compares with separator `idx`.  The first separator of the
    /// leftmost page of a level comes before every key.
    pub open spec fn separator_order(self, key: Seq<u8>, p: RawPage, idx: int) -> Result<
        Order,
        Error,
    > {
        match p.internal_entry(idx) {
            Err(e) => Err(e),
            Ok(entry) => if idx == 0 && p.prev_pg() == P_INVALID {
                Ok(Order::Greater)
            } else {
                self.item_order(key, p, entry.key)
            },
        }
    }

    /// The slot of leaf `p` at which halving `[base, base + lim)` meets
    /// `key`.
    pub open spec fn leaf_slot(self, key: Seq<u8>, p: RawPage, base: int, lim: int) -> Result<
        Option<int>,
        Error,
    >
        decreases lim,
    {
        if lim <= 0 {
            Ok(None)
        } else {
            let idx = base + lim / 2;
            match self.leaf_order(key, p, idx) {
                Err(e) => Err(e),
                Ok(Order::Equal) => Ok(Some(idx)),
                Ok(Order::Greater) => self.leaf_slot(key, p, idx + 1, (lim - 1) / 2),
                Ok(Order::Less) => self.leaf_slot(key, p, base, lim / 2),
            }
        }
    }

    /// The slot of internal page `p` at which halving `[base, base + lim)`
    /// meets `key`, or else the one before where it ends.
    pub open spec fn child_slot(self, key: Seq<u8>, p: RawPage, base: int, lim: int) -> Result<
        int,
        Error,
    >
        decreases lim,
    {
        if lim <= 0 {
            Ok(
                if base == 0 {
                    0
                } else {
                    base - 1
                },
            )
        } else {
            let idx = base + lim / 2;
            match self.separator_order(key, p, idx) {
                Err(e) => Err(e),
                Ok(Order::Equal) => Ok(idx),
                Ok(Order::Greater) => self.child_slot(key, p, idx + 1, (lim - 1) / 2),
                Ok(Order::Less) => self.child_slot(key, p, base, lim / 2),
            }
        }
    }

    /// The child of `p` in whose subtree `key` would be.
    pub open spec fn child(self, key: Seq<u8>, p: RawPage) -> Result<u32, Error> {
        match self.child_slot(key, p, 0, p.nentries()) {
            Err(e) => Err(e),
            Ok(slot) => match p.internal_entry(slot) {
                Err(e) => Err(e),
                Ok(entry) => Ok(entry.child),
            },
        }
    }

    /// Where `key` is in the subtree of page `pgno`.  After more hops than
    /// there are pages some page has been met twice, and the descent would
    /// not end.
    pub open spec fn search(self, key: Seq<u8>, pgno: u32, hops: nat) -> Result<
        Option<(RawPage, int)>,
        Error,
    >
        decreases hops,
    {
        match self.page(pgno) {
            Err(e) => Err(e),
            Ok(p) => if p.is_leaf() {
                match self.leaf_slot(key, p, 0, p.nentries()) {
                    Err(e) => Err(e),
                    Ok(None) => Ok(None),
                    Ok(Some(idx)) => Ok(Some((p, idx))),
                }
            } else if !p.is_internal() {
                Err(p.corrupt("non-internal page during descent"))
            } else {
                match self.child(key, p) {
                    Err(e) => Err(e),
                    Ok(child) => if hops == 0 {
                        Err(p.corrupt("cycle during descent"))
                    } else {
                        self.search(key, child, (hops - 1) as nat)
                    },
                }
            },
        }
    }

    /// The page and the item that hold the value of `key`.
    pub open spec fn value_item(self, key: Seq<u8>) -> Result<Option<(RawPage, ItemRef)>, Error> {
        match self.search(key, P_ROOT, self.npages()) {
            Err(e) => Err(e),
            Ok(None) => Ok(None),
            Ok(Some((p, idx))) => match p.leaf_entry(idx) {
                Err(e) => Err(e),
                Ok(entry) => Ok(Some((p, entry.data))),
            },
        }
    }

    /// The value of `key`.
    pub open spec fn get(self, key: Seq<u8>) -> Result<Option<Seq<u8>>, Error> {
        match self.value_item(key) {
            Err(e) => Err(e),
            Ok(None) => Ok(None),
            Ok(Some((p, item))) => match self.item_bytes(p, item) {
                Err(e) => Err(e),
                Ok(s) => Ok(Some(s)),
            },
        }
    }

    /// The start of the next leaf that has entries, from leaf `pgno` on
    /// along the sibling links.
    pub open spec fn next_leaf(self, pgno: u32, hops: nat) -> Result<Spot, Error>
        decreases hops,
    {
        if pgno == P_INVALID {
            Ok(Spot::End)
        } else {
            match self.page(pgno) {
                Err(e) => Err(e),
                Ok(p) => if !p.is_leaf() {
                    Err(p.corrupt("seq sibling is not a leaf"))
                } else if p.nentries() > 0 {
                    Ok(Spot::At { page: p, index: 0 })
                } else if hops == 0 {
                    Err(p.corrupt("cycle among seq siblings"))
                } else {
                    self.next_leaf(p.next_pg(), (hops - 1) as nat)
                },
            }
        }
    }

    /// The start of the leftmost leaf that has entries, in the subtree of
    /// page `pgno` or right of it.
    pub open spec fn first_leaf(self, pgno: u32, hops: nat) -> Result<Spot, Error>
        decreases hops,
    {
        match self.page(pgno) {
            Err(e) => Err(e),
            Ok(p) => if p.is_leaf() {
                if p.nentries() > 0 {
                    Ok(Spot::At { page: p, index: 0 })
                } else {
                    self.next_leaf(p.next_pg(), self.npages())
                }
            } else if p.nentries() == 0 {
                Ok(Spot::End)
            } else if !p.is_internal() {
                Err(p.corrupt("non-internal page during seq descent"))
            } else {
                match p.internal_entry(0) {
                    Err(e) => Err(e),
                    Ok(entry) => if hops == 0 {
                        Err(p.corrupt("cycle during seq descent"))
                    } else {
                        self.first_leaf(entry.child, (hops - 1) as nat)
                    },
                }
            },
        }
    }

    /// The spot after entry `index` of leaf `p`.
    pub open spec fn after(self, p: RawPage, index: int) -> Result<Spot, Error> {
        if index + 1 < p.nentries() {
            Ok(Spot::At { page: p, index: index + 1 })
        } else {
            self.next_leaf(p.next_pg(), self.npages())
        }
    }

    /// Entry `index` of leaf `p`, and the spot after it.
    pub open spec fn entry(self, p: RawPage, index: int) -> Result<(Pair, Spot), Error> {
        match p.leaf_entry(index) {
            Err(e) => Err(e),
            Ok(leaf) => match self.item_bytes(p, leaf.key) {
                Err(e) => Err(e),
                Ok(k) => match self.item_bytes(p, leaf.data) {
                    Err(e) => Err(e),
                    Ok(v) => match self.after(p, index) {
                        Err(e) => Err(e),
                        Ok(spot) => Ok(((k, v), spot)),
                    },
                },
            },
        }
    }

    /// Where a scan at `spot` reads on: at the start, that is the leftmost
    /// leaf that has entries.
    pub open spec fn here(self, spot: Spot) -> Result<Spot, Error> {
        match spot {
            Spot::Start => self.first_leaf(P_ROOT, self.npages()),
            _ => Ok(spot),
        }
    }

    /// The entry that a scan at `spot` reads.
    pub open spec fn leaf_at(self, spot: Spot) -> Option<LeafEntry> {
        match self.here(spot) {
            Ok(Spot::At { page, index }) => match page.leaf_entry(index) {
                Ok(leaf) => Some(leaf),
                Err(_) => None,
            },
            _ => None,
        }
    }

    /// One step of a forward scan: what it yields, and where it is then.
    /// The scan ends at the first error.
    pub open spec fn step(self, spot: Spot) -> (Option<Result<Pair, Error>>, Spot) {
        match self.here(spot) {
            Err(e) => (Some(Err(e)), Spot::End),
            Ok(Spot::At { page, index }) => match self.entry(page, index) {
                Err(e) => (Some(Err(e)), Spot::End),
                Ok((pair, next)) => (Some(Ok(pair)), next),
            },
            Ok(_) => (None, Spot::End),
        }
    }
}

/// A file with the magic number in either byte order is the same file to
/// every host.
pub proof fn law_any_host(b: Seq<u8>, e: Endian, host: Endian)
    requires
        bytes::u32_at(b, 0, e) == BTREE_MAGIC,
    ensures
        open_image(b, host) == open_image(b, e),
{
    lemma_magic(b, e);
}

/// The magic number read in the opposite byte order is another number.
pub proof fn lemma_magic(b: Seq<u8>, e: Endian)
    requires
        bytes::u32_at(b, 0, e) == BTREE_MAGIC,
    ensures
        bytes::u32_at(b, 0, e.other()) != BTREE_MAGIC,
{
    reveal(bytes::u32_at);
}

/// Where a forward scan is after `n` steps.
pub open spec fn spot_after(image: Image, n: nat) -> Spot
    decreases n,
{
    if n == 0 {
        Spot::Start
    } else {
        image.step(spot_after(image, (n - 1) as nat)).1
    }
}

/// What step `n` of a forward scan yields, counted from 0.
pub open spec fn yielded(image: Image, n: nat) -> Option<Result<Pair, Error>> {
    image.step(spot_after(image, n)).0
}

/// A scan that has yielded nothing, or an error, yields nothing from then
/// on.
pub proof fn law_fused(image: Image, n: nat, m: nat)
    requires
        n < m,
        yielded(image, n) is None || yielded(image, n) matches Some(Err(_)),
    ensures
        yielded(image, m) is None,
{
    lemma_ended(image, n, m);
}

proof fn lemma_ended(image: Image, n: nat, m: nat)
    requires
        n < m,
        yielded(image, n) is None || yielded(image, n) matches Some(Err(_)),
    ensures
        spot_after(image, m) == Spot::End,
    decreases m,
{
    if n + 1 < m {
        lemma_ended(image, n, (m - 1) as nat);
    }
}

/// Where an overflow chain is whole, comparing with it page by page is
/// comparing with its bytes.
pub proof fn law_overflow_order(
    image: Image,
    key: Seq<u8>,
    start: u32,
    pgno: u32,
    left: int,
)
    requires
        image.wf(),
        image.overflow_bytes(start, pgno, left) is Ok,
    ensures
        image.overflow_order(key, start, pgno, left) == Ok::<Order, Error>(
            key::lex(key, image.overflow_bytes(start, pgno, left)->Ok_0),
        ),
    decreases left,
{
    if left > 0 {
        let p = image.overflow_page(start, pgno)->Ok_0;
        let take = image.chunk(left);
        let other = p.overflow_payload().take(take);
        let rest = image.overflow_bytes(start, p.next_pg(), left - take)->Ok_0;
        let whole = other + rest;
        assert(other.len() == take) by {
            lemma_page_len(image, pgno);
        }
        if key.len() < take {
            key::lemma_lex_extend(key, other, rest);
        } else {
            let head = key.take(take);
            key::lemma_lex_sides(head, other);
            if head != other {
                key::lemma_lex_concat(head, key.skip(take), other, rest);
                assert(key =~= head + key.skip(take));
            } else {
                assert(whole.take(take) =~= other);
                assert(whole.skip(take) =~= rest);
                key::lemma_lex_skip(key, whole, take);
                law_overflow_order(image, key.skip(take), start, p.next_pg(), left - take);
            }
        }
    }
}

/// A page has `psize` bytes.
pub proof fn lemma_page_len(image: Image, pgno: u32)
    requires
        image.wf(),
        image.page(pgno) is Ok,
    ensures
        image.page(pgno)->Ok_0.bytes.len() == image.psize,
        image.page(pgno)->Ok_0.pgno == pgno,
        image.page(pgno)->Ok_0.header_error() is None,
{
    assert(0 <= pgno * image.psize <= (pgno + 1) * image.psize && (pgno + 1) * image.psize - pgno
        * image.psize == image.psize) by (nonlinear_arith)
        requires
            image.psize >= 0,
            pgno >= 0,
    ;
}

} // verus!
