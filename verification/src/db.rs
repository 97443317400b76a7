//! Database handle: meta-page validation, tree descent.
//!
//! The whole file is one byte slice.  Page access is a bounds-checked slice
//! of it; there is no per-page heap allocation and no cache to manage.  All
//! read operations take `&self`.

use crate::bytes;
use crate::bytes::{native_endian, Endian};
use crate::error::Error;
use crate::format::{
    Meta, BTREE_MAGIC, BTREE_VERSION, MAX_PSIZE, META_SIZE, MIN_PSIZE, PAGE_HEADER_SIZE, P_INVALID,
    P_ROOT, R_RECNO, SAVEMETA,
};
use crate::image;
use crate::image::{Image, Spot};
use crate::iter::Iter;
use crate::key;
use crate::key::{compare, Order};
use crate::page::{ItemRef, PageView, RawPage};
use std::borrow::Cow;
use vstd::prelude::*;
use vstd::slice::slice_subrange;

verus! {

/// Open handle on the bytes of a btree database file.
#[derive(Clone, Copy, Debug)]
pub struct Db<'a> {
    data: &'a [u8],
    psize: usize,
    endian: Endian,
}

/// Location of a key/value pair within the tree.
#[derive(Clone, Copy)]
pub struct Position<'a> {
    view: PageView<'a>,
    index: usize,
}

impl<'a> View for Db<'a> {
    type V = Image;

    closed spec fn view(&self) -> Image {
        Image { bytes: self.data@, psize: self.psize as int, endian: self.endian }
    }
}

impl<'a> View for Position<'a> {
    type V = (RawPage, int);

    closed spec fn view(&self) -> (RawPage, int) {
        (self.view@, self.index as int)
    }
}

impl<'a> Position<'a> {
    pub closed spec fn wf(&self) -> bool {
        self.view.wf()
    }
}

impl<'a> Db<'a> {
    /// Open the bytes of a database file for reading.
    ///
    /// Validates the meta page.  Recno trees are rejected; btree pages
    /// themselves are validated lazily on first access.  Files of either
    /// byte order are accepted; the host's own matters only for the value
    /// that [`Error::BadMagic`] reports.
    ///
    /// # Errors
    ///
    /// Returns [`Error::ShortFile`] if `data` is too small to contain a meta
    /// page.  Returns [`Error::BadMagic`], [`Error::BadVersion`],
    /// [`Error::BadPageSize`], [`Error::UnsupportedFlags`] or
    /// [`Error::UnalignedFileLength`] when the meta page is recognisable but
    /// its contents fall outside the supported subset.
    pub fn open(data: &'a [u8]) -> (r: Result<Db<'a>, Error>)
        ensures
            exists|host: Endian| #[trigger]
                bytes::is_native(host) && match r {
                    Ok(db) => image::open_image(data@, host) == Ok::<Image, Error>(db@),
                    Err(e) => image::open_image(data@, host) == Err::<Image, Error>(e),
                },
            r matches Ok(db) ==> db.wf(),
    {
        Self::open_on(data, native_endian())
    }

    /// [`Db::open`] on a host of byte order `host`.
    pub fn open_on(data: &'a [u8], host: Endian) -> (r: Result<Db<'a>, Error>)
        ensures
            match r {
                Ok(db) => image::open_image(data@, host) == Ok::<Image, Error>(db@),
                Err(e) => image::open_image(data@, host) == Err::<Image, Error>(e),
            },
            r matches Ok(db) ==> db.wf(),
    {
        if data.len() < META_SIZE {
            return Err(Error::ShortFile);
        }
        let (meta, endian) = Meta::parse(data, host);

        if meta.magic != BTREE_MAGIC {
            return Err(Error::BadMagic { magic: meta.magic });
        }
        if meta.version != BTREE_VERSION {
            return Err(Error::BadVersion { version: meta.version });
        }
        let psize = meta.psize as usize;
        if psize < MIN_PSIZE || psize > MAX_PSIZE || psize % 2 != 0 {
            return Err(Error::BadPageSize { psize: meta.psize });
        }
        if meta.flags & !SAVEMETA != 0 || meta.flags & R_RECNO != 0 {
            return Err(Error::UnsupportedFlags { flags: meta.flags });
        }
        if data.len() % psize != 0 {
            return Err(Error::UnalignedFileLength { len: data.len() as u64, psize: meta.psize });
        }
        Ok(Db { data, psize, endian })
    }

    /// The same file in other memory, read as its meta page said on open.
    pub fn over<'b>(&self, data: &'b [u8]) -> (r: Db<'b>)
        requires
            self.wf(),
        ensures
            r.wf(),
            r@ == (Image { bytes: data@, ..self@ }),
    {
        Db { data, psize: self.psize, endian: self.endian }
    }

    /// The page size is one that a meta page can give.
    pub closed spec fn wf(&self) -> bool {
        MIN_PSIZE <= self.psize <= MAX_PSIZE
    }

    /// Look up a key.
    ///
    /// Returns `Ok(Some(value))` on hit and `Ok(None)` if the key is absent.
    /// Inline values are returned as `Cow::Borrowed` slices of the file;
    /// overflow values are materialised into `Cow::Owned`.  Keys are
    /// compared as raw byte strings with unsigned byte-by-byte ordering and
    /// shorter-wins.
    ///
    /// # Errors
    ///
    /// Returns an [`Error`] on corruption encountered while descending the
    /// tree.
    pub fn get(&self, key: &[u8]) -> (r: Result<Option<Cow<'a, [u8]>>, Error>)
        requires
            self.wf(),
        ensures
            match r {
                Ok(None) => self@.get(key@) == Ok::<Option<Seq<u8>>, Error>(None),
                Ok(Some(v)) => self@.get(key@) == Ok::<Option<Seq<u8>>, Error>(Some(v@)) && (
                self@.value_item(key@) matches Ok(Some((_, item))) && (v is Borrowed
                    <==> item is Inline)),
                Err(e) => self@.get(key@) == Err::<Option<Seq<u8>>, Error>(e),
            },
    {
        let pos = match self.search(key) {
            Err(e) => return Err(e),
            Ok(None) => return Ok(None),
            Ok(Some(pos)) => pos,
        };
        let entry = match pos.view.leaf_entry(pos.index) {
            Err(e) => return Err(e),
            Ok(entry) => entry,
        };
        match self.materialise(&pos.view, entry.data) {
            Err(e) => Err(e),
            Ok(v) => Ok(Some(v)),
        }
    }

    /// Begin a forward iteration over all key/value pairs in sorted order.
    /// Equivalent to `seq(R_FIRST)` followed by repeated `seq(R_NEXT)` in
    /// the historical `dbopen(3)` API.
    pub fn iter(&self) -> (r: Iter<'a>)
        requires
            self.wf(),
        ensures
            r.wf(),
            r@ == (self@, Spot::Start),
    {
        Iter::new(*self)
    }

    /// Number of whole pages.
    pub(crate) fn npages(&self) -> (r: usize)
        requires
            self.wf(),
        ensures
            r == self@.npages(),
    {
        self.data.len() / self.psize
    }

    /// Borrow the bytes of page `pgno` and decode its header.
    ///
    /// # Errors
    ///
    /// Returns [`Error::PageOutOfBounds`] if `pgno` lies past the end of the
    /// file, or what is wrong with the header.
    pub(crate) fn page(&self, pgno: u32) -> (r: Result<PageView<'a>, Error>)
        requires
            self.wf(),
        ensures
            match r {
                Ok(view) => self@.page(pgno) == Ok::<RawPage, Error>(view@) && view.wf(),
                Err(e) => self@.page(pgno) == Err::<RawPage, Error>(e),
            },
    {
        proof {
            assert(0 <= pgno * self.psize <= 0xffff_ffff * MAX_PSIZE) by (nonlinear_arith)
                requires
                    pgno <= 0xffff_ffff,
                    self.psize <= MAX_PSIZE,
            ;
            assert((pgno + 1) * self.psize == pgno * self.psize + self.psize) by (nonlinear_arith);
        }
        let start = pgno as u64 * self.psize as u64;
        let end = start + self.psize as u64;
        if end > self.data.len() as u64 {
            return Err(Error::PageOutOfBounds { pgno });
        }
        let bytes = slice_subrange(self.data, start as usize, end as usize);
        PageView::parse(pgno, bytes, self.endian)
    }

    /// Descend the tree from the root to the leaf that would contain `key`,
    /// returning an exact-match position or `None`.
    fn search(&self, key: &[u8]) -> (r: Result<Option<Position<'a>>, Error>)
        requires
            self.wf(),
        ensures
            match r {
                Ok(None) => self@.search(key@, P_ROOT, self@.npages()) == Ok::<
                    Option<(RawPage, int)>,
                    Error,
                >(None),
                Ok(Some(pos)) => self@.search(key@, P_ROOT, self@.npages()) == Ok::<
                    Option<(RawPage, int)>,
                    Error,
                >(Some(pos@)) && pos.wf(),
                Err(e) => self@.search(key@, P_ROOT, self@.npages()) == Err::<
                    Option<(RawPage, int)>,
                    Error,
                >(e),
            },
    {
        let mut pgno: u32 = P_ROOT;
        let mut hops = self.npages();
        loop
            invariant
                self.wf(),
                self@.search(key@, P_ROOT, self@.npages()) == self@.search(
                    key@,
                    pgno,
                    hops as nat,
                ),
            decreases hops,
        {
            let view = match self.page(pgno) {
                Err(e) => return Err(e),
                Ok(view) => view,
            };
            if view.is_leaf() {
                return match self.search_leaf(&view, key) {
                    Err(e) => Err(e),
                    Ok(None) => Ok(None),
                    Ok(Some(index)) => Ok(Some(Position { view, index })),
                };
            }
            if !view.is_internal() {
                return Err(
                    Error::CorruptPage {
                        pgno: view.pgno,
                        reason: "non-internal page during descent",
                    },
                );
            }
            let child = match self.descend_internal(&view, key) {
                Err(e) => return Err(e),
                Ok(child) => child,
            };
            if hops == 0 {
                return Err(Error::CorruptPage { pgno: view.pgno, reason: "cycle during descent" });
            }
            hops = hops - 1;
            pgno = child;
        }
    }

    /// Binary search a leaf page for an exact match.
    fn search_leaf(&self, view: &PageView<'a>, key: &[u8]) -> (r: Result<Option<usize>, Error>)
        requires
            self.wf(),
            view.wf(),
        ensures
            match r {
                Ok(None) => self@.leaf_slot(key@, view@, 0, view@.nentries()) == Ok::<
                    Option<int>,
                    Error,
                >(None),
                Ok(Some(i)) => self@.leaf_slot(key@, view@, 0, view@.nentries()) == Ok::<
                    Option<int>,
                    Error,
                >(Some(i as int)),
                Err(e) => self@.leaf_slot(key@, view@, 0, view@.nentries()) == Err::<
                    Option<int>,
                    Error,
                >(e),
            },
    {
        let mut base: usize = 0;
        let mut lim: usize = view.nentries();
        while lim > 0
            invariant
                self.wf(),
                view.wf(),
                base + lim <= MAX_PSIZE,
                self@.leaf_slot(key@, view@, 0, view@.nentries()) == self@.leaf_slot(
                    key@,
                    view@,
                    base as int,
                    lim as int,
                ),
            decreases lim,
        {
            let idx = base + lim / 2;
            let entry = match view.leaf_entry(idx) {
                Err(e) => return Err(e),
                Ok(entry) => entry,
            };
            match self.compare_item(key, view, entry.key) {
                Err(e) => return Err(e),
                Ok(Order::Equal) => return Ok(Some(idx)),
                Ok(Order::Greater) => {
                    base = idx + 1;
                    lim = (lim - 1) / 2;
                },
                Ok(Order::Less) => {
                    lim = lim / 2;
                },
            }
        }
        Ok(None)
    }

    /// Decide which child of an internal page to descend into for `key`.  On
    /// the leftmost internal page of any level (the one with `prevpg ==
    /// P_INVALID`), the separator at index 0 compares as "less than any
    /// key", which keeps the leftmost path always descendable.
    fn descend_internal(&self, view: &PageView<'a>, key: &[u8]) -> (r: Result<u32, Error>)
        requires
            self.wf(),
            view.wf(),
        ensures
            r == self@.child(key@, view@),
    {
        let leftmost_spine = view.prev_pg == P_INVALID;
        let mut base: usize = 0;
        let mut lim: usize = view.nentries();
        let mut matched: Option<usize> = None;
        while lim > 0
            invariant
                self.wf(),
                view.wf(),
                leftmost_spine == (view@.prev_pg() == P_INVALID),
                base + lim <= MAX_PSIZE,
                match matched {
                    Some(idx) => lim == 0 && self@.child_slot(key@, view@, 0, view@.nentries())
                        == Ok::<int, Error>(idx as int),
                    None => self@.child_slot(key@, view@, 0, view@.nentries()) == self@.child_slot(
                        key@,
                        view@,
                        base as int,
                        lim as int,
                    ),
                },
            decreases lim,
        {
            let idx = base + lim / 2;
            let entry = match view.internal_entry(idx) {
                Err(e) => return Err(e),
                Ok(entry) => entry,
            };
            let order = if idx == 0 && leftmost_spine {
                Order::Greater
            } else {
                match self.compare_item(key, view, entry.key) {
                    Err(e) => return Err(e),
                    Ok(order) => order,
                }
            };
            match order {
                Order::Equal => {
                    matched = Some(idx);
                    lim = 0;
                },
                Order::Greater => {
                    base = idx + 1;
                    lim = (lim - 1) / 2;
                },
                Order::Less => {
                    lim = lim / 2;
                },
            }
        }
        let chosen = match matched {
            Some(idx) => idx,
            None => if base == 0 {
                0
            } else {
                base - 1
            },
        };
        match view.internal_entry(chosen) {
            Err(e) => Err(e),
            Ok(entry) => Ok(entry.child),
        }
    }

    /// Compare a user key against an [`ItemRef`] decoded from `view`.
    ///
    /// Inline items compare directly against the borrowed slice.  Overflow
    /// items stream through the page chain a page at a time.
    fn compare_item(&self, key: &[u8], view: &PageView<'a>, item: ItemRef) -> (r: Result<
        Order,
        Error,
    >)
        requires
            self.wf(),
            view.wf(),
        ensures
            r == self@.item_order(key@, view@, item),
    {
        match item {
            ItemRef::Inline { .. } => match view.inline(item) {
                Err(e) => Err(e),
                Ok(s) => Ok(compare(key, s)),
            },
            ItemRef::Overflow { pgno, size } => self.compare_overflow(key, pgno, size),
        }
    }

    /// Page `pgno` of the overflow chain that starts at `start_pgno`.
    fn overflow_page(&self, start_pgno: u32, pgno: u32) -> (r: Result<PageView<'a>, Error>)
        requires
            self.wf(),
        ensures
            match r {
                Ok(view) => self@.overflow_page(start_pgno, pgno) == Ok::<RawPage, Error>(view@)
                    && view.wf() && view@.bytes.len() == self@.psize,
                Err(e) => self@.overflow_page(start_pgno, pgno) == Err::<RawPage, Error>(e),
            },
    {
        if pgno == P_INVALID {
            return Err(Error::CorruptOverflow { pgno: start_pgno });
        }
        let view = match self.page(pgno) {
            Err(e) => return Err(e),
            Ok(view) => view,
        };
        proof {
            image::lemma_page_len(self@, pgno);
        }
        if !view.is_overflow() {
            return Err(Error::CorruptOverflow { pgno: start_pgno });
        }
        Ok(view)
    }

    /// Streaming comparison of `key` against the overflow chain starting at
    /// `start_pgno` whose total declared payload length is `size`.  Walks at
    /// most as many pages as needed to find the first differing byte (or to
    /// exhaust the shorter side), without ever materialising the full
    /// overflow key.
    pub fn compare_overflow(&self, key: &[u8], start_pgno: u32, size: u32) -> (r: Result<
        Order,
        Error,
    >)
        requires
            self.wf(),
        ensures
            r == self@.overflow_order(key@, start_pgno, start_pgno, size as int),
            self@.overflow_bytes(start_pgno, start_pgno, size as int) matches Ok(v) ==> r == Ok::<
                Order,
                Error,
            >(key::lex(key@, v)),
    {
        proof {
            if self@.overflow_bytes(start_pgno, start_pgno, size as int) is Ok {
                image::law_overflow_order(self@, key@, start_pgno, start_pgno, size as int);
            }
        }
        let payload_per_page = self.psize - PAGE_HEADER_SIZE;
        let total = size as usize;
        let mut pgno = start_pgno;
        let mut consumed: usize = 0;
        proof {
            assert(key@.skip(0) =~= key@);
        }
        while consumed < total
            invariant
                self.wf(),
                payload_per_page == self@.psize - PAGE_HEADER_SIZE,
                total == size,
                consumed <= total,
                consumed <= key@.len(),
                self@.overflow_bytes(start_pgno, start_pgno, size as int) matches Ok(v)
                    ==> self@.overflow_order(key@, start_pgno, start_pgno, size as int) == Ok::<
                    Order,
                    Error,
                >(key::lex(key@, v)),
                self@.overflow_order(key@, start_pgno, start_pgno, size as int)
                    == self@.overflow_order(
                    key@.skip(consumed as int),
                    start_pgno,
                    pgno,
                    total - consumed,
                ),
            decreases total - consumed,
        {
            let view = match self.overflow_page(start_pgno, pgno) {
                Err(e) => return Err(e),
                Ok(view) => view,
            };
            let take = if total - consumed < payload_per_page {
                total - consumed
            } else {
                payload_per_page
            };
            let payload = view.overflow_payload();
            let other = slice_subrange(payload, 0, take);
            let key_rest = slice_subrange(key, consumed, key.len());
            proof {
                assert(other@ =~= view@.overflow_payload().take(take as int));
                assert(key_rest@ =~= key@.skip(consumed as int));
            }
            if key_rest.len() < take {
                return Ok(compare(key_rest, other));
            }
            let head = slice_subrange(key_rest, 0, take);
            proof {
                assert(head@ =~= key_rest@.take(take as int));
                assert(key_rest@.skip(take as int) =~= key@.skip(consumed + take));
            }
            match compare(head, other) {
                Order::Equal => {},
                order => return Ok(order),
            }
            consumed = consumed + take;
            pgno = view.next_pg;
        }
        // Whole overflow consumed without a mismatch; `key` may have extra
        // trailing bytes.
        if key.len() > total {
            Ok(Order::Greater)
        } else {
            Ok(Order::Equal)
        }
    }

    /// Resolve an [`ItemRef`] decoded from `view` into a borrowed or owned
    /// byte slice, fetching overflow pages when necessary.
    pub(crate) fn materialise(&self, view: &PageView<'a>, item: ItemRef) -> (r: Result<
        Cow<'a, [u8]>,
        Error,
    >)
        requires
            self.wf(),
            view.wf(),
        ensures
            match r {
                Ok(v) => self@.item_bytes(view@, item) == Ok::<Seq<u8>, Error>(v@) && (
                v is Borrowed <==> item is Inline),
                Err(e) => self@.item_bytes(view@, item) == Err::<Seq<u8>, Error>(e),
            },
    {
        match item {
            ItemRef::Inline { .. } => match view.inline(item) {
                Err(e) => Err(e),
                Ok(s) => Ok(Cow::Borrowed(s)),
            },
            ItemRef::Overflow { pgno, size } => match self.fetch_overflow(pgno, size) {
                Err(e) => Err(e),
                Ok(v) => Ok(Cow::Owned(v)),
            },
        }
    }

    /// Read a key or data item out of an overflow chain.
    ///
    /// The chain starts at page `start_pgno` and is linked by each page's
    /// `nextpg` field.  Each page contributes up to `psize -
    /// PAGE_HEADER_SIZE` bytes of payload.
    pub fn fetch_overflow(&self, start_pgno: u32, size: u32) -> (r: Result<Vec<u8>, Error>)
        requires
            self.wf(),
        ensures
            match r {
                Ok(v) => self@.overflow_bytes(start_pgno, start_pgno, size as int) == Ok::<
                    Seq<u8>,
                    Error,
                >(v@),
                Err(e) => self@.overflow_bytes(start_pgno, start_pgno, size as int) == Err::<
                    Seq<u8>,
                    Error,
                >(e),
            },
    {
        let mut out: Vec<u8> = Vec::new();
        let payload_per_page = self.psize - PAGE_HEADER_SIZE;
        let mut pgno = start_pgno;
        let mut remaining = size as usize;
        let ghost whole = self@.overflow_bytes(start_pgno, start_pgno, size as int);
        while remaining > 0
            invariant
                self.wf(),
                payload_per_page == self@.psize - PAGE_HEADER_SIZE,
                remaining <= size,
                whole == self@.overflow_bytes(start_pgno, start_pgno, size as int),
                match self@.overflow_bytes(start_pgno, pgno, remaining as int) {
                    Ok(rest) => whole == Ok::<Seq<u8>, Error>(out@ + rest),
                    Err(e) => whole == Err::<Seq<u8>, Error>(e),
                },
            decreases remaining,
        {
            let view = match self.overflow_page(start_pgno, pgno) {
                Err(e) => return Err(e),
                Ok(view) => view,
            };
            let take = if remaining < payload_per_page {
                remaining
            } else {
                payload_per_page
            };
            let payload = view.overflow_payload();
            let part = slice_subrange(payload, 0, take);
            let ghost before = out@;
            out.extend_from_slice(part);
            proof {
                assert(part@ =~= view@.overflow_payload().take(take as int));
                assert(out@ =~= before + part@);
                match self@.overflow_bytes(start_pgno, view.next_pg, remaining - take) {
                    Ok(rest) => {
                        assert(before + (part@ + rest) =~= out@ + rest);
                    },
                    Err(_) => {},
                }
            }
            remaining = remaining - take;
            pgno = view.next_pg;
        }
        proof {
            assert(out@ + Seq::<u8>::empty() =~= out@);
        }
        Ok(out)
    }
}

} // verus!
