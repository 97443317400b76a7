//! Decoding of btree pages.
//!
//! A page is a flat `psize`-byte buffer.  It begins with a fixed
//! [`PAGE_HEADER_SIZE`]-byte header, followed by an `indx_t` (u16) array
//! `linp[]` growing upward from the header, with entries stored at the
//! offsets named in `linp[]` growing downward from the end of the page.
//!
//! [`PageView::parse`] validates and decodes the header in one shot.
//! Per-entry decoders still return [`Result`] because each entry's bounds
//! are checked on access.

use crate::bytes;
use crate::bytes::{read_u16, read_u32, Endian};
use crate::error::Error;
use crate::format::{
    BINTERNAL_HEADER_SIZE, BLEAF_HEADER_SIZE, ENTRY_ALIGN, MAX_PSIZE, NOVFLSIZE,
    PAGE_HEADER_SIZE, P_BIGDATA, P_BIGKEY, P_BINTERNAL, P_BLEAF, P_OVERFLOW, P_TYPE,
};
use vstd::prelude::*;
use vstd::slice::slice_subrange;

verus! {

/// What a page is to the decoder: a number, some bytes, and the byte order
/// in which to read them.
pub struct RawPage {
    pub pgno: u32,
    pub bytes: Seq<u8>,
    pub endian: Endian,
}

/// A key or value: either an inline slice within the page, or a reference
/// to the first page of an overflow chain.
#[derive(Clone, Copy, Debug)]
pub enum ItemRef {
    /// Inline bytes at `[off, off + len)` within the owning page.
    Inline { off: u32, len: u32 },
    /// `{pgno, size}` reference to an overflow chain of `size` bytes
    /// starting at page `pgno`.
    Overflow { pgno: u32, size: u32 },
}

/// Decoded leaf entry.
#[derive(Clone, Copy, Debug)]
pub struct LeafEntry {
    pub key: ItemRef,
    pub data: ItemRef,
}

/// Decoded btree internal entry: a separator key plus the child page number
/// whose subtree holds keys `>=` the separator.
#[derive(Clone, Copy, Debug)]
pub struct InternalEntry {
    pub key: ItemRef,
    pub child: u32,
}

impl RawPage {
    /// Page number of the previous sibling at this level.
    pub open spec fn prev_pg(self) -> u32 {
        bytes::u32_at(self.bytes, 4, self.endian)
    }

    /// Page number of the next sibling at this level, or the next page of
    /// an overflow chain.
    pub open spec fn next_pg(self) -> u32 {
        bytes::u32_at(self.bytes, 8, self.endian)
    }

    /// Page type and other bits.
    pub open spec fn flags(self) -> u32 {
        bytes::u32_at(self.bytes, 12, self.endian)
    }

    /// End of `linp[]`.
    pub open spec fn lower(self) -> int {
        bytes::u16_at(self.bytes, 16, self.endian) as int
    }

    /// Start of the entry region.
    pub open spec fn upper(self) -> int {
        bytes::u16_at(self.bytes, 18, self.endian) as int
    }

    /// Number of entries referenced by `linp[]`.
    pub open spec fn nentries(self) -> int {
        (self.lower() - PAGE_HEADER_SIZE) / 2
    }

    pub open spec fn is_leaf(self) -> bool {
        self.flags() & P_BLEAF != 0
    }

    pub open spec fn is_internal(self) -> bool {
        self.flags() & P_BINTERNAL != 0
    }

    pub open spec fn is_overflow(self) -> bool {
        self.flags() & P_OVERFLOW != 0
    }

    pub open spec fn corrupt(self, reason: &'static str) -> Error {
        Error::CorruptPage { pgno: self.pgno, reason }
    }

    /// What is wrong with the page's header, if anything.
    pub open spec fn header_error(self) -> Option<Error> {
        if self.bytes.len() < PAGE_HEADER_SIZE {
            Some(self.corrupt("page shorter than header"))
        } else if self.lower() < PAGE_HEADER_SIZE || self.upper() > self.bytes.len() || self.lower()
            > self.upper() || (self.lower() - PAGE_HEADER_SIZE) % 2 != 0 {
            Some(self.corrupt("page bounds inconsistent"))
        } else if self.flags() & P_TYPE != P_BINTERNAL && self.flags() & P_TYPE != P_BLEAF
            && self.flags() & P_TYPE != P_OVERFLOW {
            Some(self.corrupt("unsupported page type"))
        } else {
            None
        }
    }

    /// Byte offset of entry `idx` within the page, as recorded in
    /// `linp[idx]`.
    pub open spec fn linp(self, idx: int) -> int {
        bytes::u16_at(self.bytes, PAGE_HEADER_SIZE + 2 * idx, self.endian) as int
    }

    /// The item in the slot `[off, off + len)`, which is an overflow
    /// reference if `big` is set.
    pub open spec fn item(self, off: int, len: int, big: bool) -> Result<ItemRef, Error> {
        if !big {
            Ok(ItemRef::Inline { off: off as u32, len: len as u32 })
        } else if len < NOVFLSIZE {
            Err(self.corrupt("overflow ref too short"))
        } else {
            Ok(
                ItemRef::Overflow {
                    pgno: bytes::u32_at(self.bytes, off, self.endian),
                    size: bytes::u32_at(self.bytes, off + 4, self.endian),
                },
            )
        }
    }

    /// What is wrong with the fixed part of entry `idx`, if anything.
    pub open spec fn entry_header_error(self, idx: int) -> Option<Error> {
        if idx >= self.nentries() {
            Some(self.corrupt("entry index out of range"))
        } else if self.linp(idx) < self.upper() {
            Some(self.corrupt("entry offset outside entry region"))
        } else if self.linp(idx) + 8 > self.bytes.len() {
            Some(self.corrupt("u32 read out of range"))
        } else if self.linp(idx) + 9 > self.bytes.len() {
            Some(self.corrupt("byte read out of range"))
        } else if (self.bytes.len() - self.linp(idx)) % ENTRY_ALIGN as int != 0 {
            Some(self.corrupt("entry offset misaligned"))
        } else {
            None
        }
    }

    /// The leaf entry at `idx`.
    pub open spec fn leaf_entry(self, idx: int) -> Result<LeafEntry, Error> {
        let off = self.linp(idx);
        let ksize = bytes::u32_at(self.bytes, off, self.endian) as int;
        let dsize = bytes::u32_at(self.bytes, off + 4, self.endian) as int;
        let eflags = self.bytes[off + 8];
        let payload = off + BLEAF_HEADER_SIZE;
        match self.entry_header_error(idx) {
            Some(e) => Err(e),
            None => if payload + ksize + dsize > usize::MAX {
                Err(self.corrupt("leaf payload length overflows"))
            } else if payload + ksize + dsize > self.bytes.len() {
                Err(self.corrupt("leaf payload out of range"))
            } else {
                match self.item(payload, ksize, eflags & P_BIGKEY != 0) {
                    Err(e) => Err(e),
                    Ok(key) => match self.item(payload + ksize, dsize, eflags & P_BIGDATA != 0) {
                        Err(e) => Err(e),
                        Ok(data) => Ok(LeafEntry { key, data }),
                    },
                }
            },
        }
    }

    /// The internal entry at `idx`.
    pub open spec fn internal_entry(self, idx: int) -> Result<InternalEntry, Error> {
        let off = self.linp(idx);
        let ksize = bytes::u32_at(self.bytes, off, self.endian) as int;
        let child = bytes::u32_at(self.bytes, off + 4, self.endian);
        let eflags = self.bytes[off + 8];
        let payload = off + BINTERNAL_HEADER_SIZE;
        match self.entry_header_error(idx) {
            Some(e) => Err(e),
            None => if payload + ksize > usize::MAX {
                Err(self.corrupt("internal payload length overflows"))
            } else if payload + ksize > self.bytes.len() {
                Err(self.corrupt("internal payload out of range"))
            } else {
                match self.item(payload, ksize, eflags & P_BIGKEY != 0) {
                    Err(e) => Err(e),
                    Ok(key) => Ok(InternalEntry { key, child }),
                }
            },
        }
    }

    /// The bytes of an inline item.
    pub open spec fn inline(self, item: ItemRef) -> Result<Seq<u8>, Error> {
        match item {
            ItemRef::Inline { off, len } => if off + len > usize::MAX {
                Err(self.corrupt("inline offset + length overflows"))
            } else if off + len > self.bytes.len() {
                Err(self.corrupt("inline offset out of range"))
            } else {
                Ok(self.bytes.subrange(off as int, off + len))
            },
            ItemRef::Overflow { .. } => Err(self.corrupt("expected inline item, found overflow")),
        }
    }

    /// Bytes of an overflow page's payload: everything after the header.
    pub open spec fn overflow_payload(self) -> Seq<u8> {
        self.bytes.skip(PAGE_HEADER_SIZE as int)
    }
}

/// Parsed, validated view over a single page's bytes.
///
/// Construct via [`PageView::parse`].  The header fields are decoded up
/// front so all queries about page type, links and entry count are
/// infallible.
#[derive(Clone, Copy)]
pub struct PageView<'a> {
    pub pgno: u32,
    pub prev_pg: u32,
    pub next_pg: u32,
    pub bytes: &'a [u8],
    pub endian: Endian,
    /// Page type and other bits; queried through [`PageView::is_leaf`] and
    /// friends rather than directly.
    pub flags: u32,
    /// `linp[]` slot count, precomputed from the page header's `lower`.
    pub nentries: usize,
}

impl<'a> View for PageView<'a> {
    type V = RawPage;

    open spec fn view(&self) -> RawPage {
        RawPage { pgno: self.pgno, bytes: self.bytes@, endian: self.endian }
    }
}

impl<'a> PageView<'a> {
    /// The header is sound and its decoded copies are those of the bytes.
    pub open spec fn wf(&self) -> bool {
        &&& self@.bytes.len() <= MAX_PSIZE
        &&& self@.header_error() is None
        &&& self.prev_pg == self@.prev_pg()
        &&& self.next_pg == self@.next_pg()
        &&& self.flags == self@.flags()
        &&& self.nentries == self@.nentries()
    }

    /// Parse and validate `bytes` as page `pgno`.
    ///
    /// Decodes the header and checks the cheap structural invariants:
    ///
    /// - The slice is at least [`PAGE_HEADER_SIZE`] bytes long.
    /// - `lower` and `upper` form a valid `(linp-end, entry-start)` pair
    ///   within the page.
    /// - `flags & P_TYPE` is `P_BINTERNAL`, `P_BLEAF` or `P_OVERFLOW`.
    ///
    /// `linp[i]` is *not* validated up front.  An offset that points outside
    /// the entry region, or whose distance from the end of the page is no
    /// multiple of the entry alignment, is caught when the entry is
    /// accessed.
    pub fn parse(pgno: u32, bytes: &'a [u8], endian: Endian) -> (r: Result<Self, Error>)
        requires
            bytes@.len() <= MAX_PSIZE,
        ensures
            ({
                let raw = RawPage { pgno, bytes: bytes@, endian };
                match r {
                    Ok(view) => raw.header_error() is None && view@ == raw && view.wf(),
                    Err(e) => raw.header_error() == Some(e),
                }
            }),
    {
        if bytes.len() < PAGE_HEADER_SIZE {
            return Err(Error::CorruptPage { pgno, reason: "page shorter than header" });
        }
        let prev_pg = read_u32(bytes, 4, endian);
        let next_pg = read_u32(bytes, 8, endian);
        let flags = read_u32(bytes, 12, endian);
        let lower = read_u16(bytes, 16, endian) as usize;
        let upper = read_u16(bytes, 18, endian) as usize;

        if lower < PAGE_HEADER_SIZE || upper > bytes.len() || lower > upper || (lower
            - PAGE_HEADER_SIZE) % 2 != 0 {
            return Err(Error::CorruptPage { pgno, reason: "page bounds inconsistent" });
        }
        let kind = flags & P_TYPE;
        if kind != P_BINTERNAL && kind != P_BLEAF && kind != P_OVERFLOW {
            return Err(Error::CorruptPage { pgno, reason: "unsupported page type" });
        }
        Ok(
            PageView {
                pgno,
                prev_pg,
                next_pg,
                bytes,
                endian,
                flags,
                nentries: (lower - PAGE_HEADER_SIZE) / 2,
            },
        )
    }

    /// `true` if this is a btree leaf page.
    pub fn is_leaf(&self) -> (r: bool)
        requires
            self.wf(),
        ensures
            r == self@.is_leaf(),
    {
        self.flags & P_BLEAF != 0
    }

    /// `true` if this is a btree internal page.
    pub fn is_internal(&self) -> (r: bool)
        requires
            self.wf(),
        ensures
            r == self@.is_internal(),
    {
        self.flags & P_BINTERNAL != 0
    }

    /// `true` if this is an overflow-chain page.
    pub fn is_overflow(&self) -> (r: bool)
        requires
            self.wf(),
        ensures
            r == self@.is_overflow(),
    {
        self.flags & P_OVERFLOW != 0
    }

    /// Number of entries referenced by `linp[]`.
    pub fn nentries(&self) -> (r: usize)
        requires
            self.wf(),
        ensures
            r == self@.nentries(),
            r <= MAX_PSIZE,
    {
        self.nentries
    }

    /// Bytes of an overflow page's payload (everything after the page
    /// header).
    pub fn overflow_payload(&self) -> (r: &'a [u8])
        requires
            self.wf(),
        ensures
            r@ == self@.overflow_payload(),
    {
        slice_subrange(self.bytes, PAGE_HEADER_SIZE, self.bytes.len())
    }

    /// Resolve an [`ItemRef`] decoded from this page to its inline bytes.
    ///
    /// # Errors
    ///
    /// Returns [`Error::CorruptPage`] if `item` is an overflow reference, or
    /// if its inline offset/length falls outside this page.
    pub fn inline(&self, item: ItemRef) -> (r: Result<&'a [u8], Error>)
        requires
            self.wf(),
        ensures
            match r {
                Ok(s) => self@.inline(item) == Ok::<Seq<u8>, Error>(s@),
                Err(e) => self@.inline(item) == Err::<Seq<u8>, Error>(e),
            },
    {
        match item {
            ItemRef::Inline { off, len } => {
                let start = off as usize;
                match start.checked_add(len as usize) {
                    None => Err(self.corrupt("inline offset + length overflows")),
                    Some(end) => if end > self.bytes.len() {
                        Err(self.corrupt("inline offset out of range"))
                    } else {
                        Ok(slice_subrange(self.bytes, start, end))
                    },
                }
            },
            ItemRef::Overflow { .. } => Err(self.corrupt("expected inline item, found overflow")),
        }
    }

    /// Decode the leaf entry at `idx`.
    ///
    /// # Errors
    ///
    /// Returns [`Error::CorruptPage`] if `idx` is out of range, if the entry
    /// lies outside the entry region or is misaligned, if any of its fields
    /// fall outside the page, or if an overflow reference is shorter than
    /// [`NOVFLSIZE`].
    pub fn leaf_entry(&self, idx: usize) -> (r: Result<LeafEntry, Error>)
        requires
            self.wf(),
        ensures
            r == self@.leaf_entry(idx as int),
    {
        let off = match self.entry_offset(idx) {
            Ok(off) => off,
            Err(e) => return Err(e),
        };
        let ksize = read_u32(self.bytes, off, self.endian) as usize;
        let dsize = read_u32(self.bytes, off + 4, self.endian) as usize;
        let eflags = self.bytes[off + 8];
        let payload = off + BLEAF_HEADER_SIZE;
        let payload_end = match payload.checked_add(ksize) {
            None => return Err(self.corrupt("leaf payload length overflows")),
            Some(p) => match p.checked_add(dsize) {
                None => return Err(self.corrupt("leaf payload length overflows")),
                Some(p) => p,
            },
        };
        if payload_end > self.bytes.len() {
            return Err(self.corrupt("leaf payload out of range"));
        }
        let key = match self.decode_item(payload, ksize, eflags & P_BIGKEY != 0) {
            Ok(key) => key,
            Err(e) => return Err(e),
        };
        let data = match self.decode_item(payload + ksize, dsize, eflags & P_BIGDATA != 0) {
            Ok(data) => data,
            Err(e) => return Err(e),
        };
        Ok(LeafEntry { key, data })
    }

    /// Decode the internal entry at `idx`.
    ///
    /// # Errors
    ///
    /// Same conditions as [`PageView::leaf_entry`].
    pub fn internal_entry(&self, idx: usize) -> (r: Result<InternalEntry, Error>)
        requires
            self.wf(),
        ensures
            r == self@.internal_entry(idx as int),
    {
        let off = match self.entry_offset(idx) {
            Ok(off) => off,
            Err(e) => return Err(e),
        };
        let ksize = read_u32(self.bytes, off, self.endian) as usize;
        let child = read_u32(self.bytes, off + 4, self.endian);
        let eflags = self.bytes[off + 8];
        let payload = off + BINTERNAL_HEADER_SIZE;
        let payload_end = match payload.checked_add(ksize) {
            None => return Err(self.corrupt("internal payload length overflows")),
            Some(p) => p,
        };
        if payload_end > self.bytes.len() {
            return Err(self.corrupt("internal payload out of range"));
        }
        match self.decode_item(payload, ksize, eflags & P_BIGKEY != 0) {
            Ok(key) => Ok(InternalEntry { key, child }),
            Err(e) => Err(e),
        }
    }

    /// Byte offset of entry `idx` within the page, as recorded in
    /// `linp[idx]`.  The offset is in the entry region, aligned, and leaves
    /// room for an entry header.
    fn entry_offset(&self, idx: usize) -> (r: Result<usize, Error>)
        requires
            self.wf(),
        ensures
            match r {
                Ok(off) => self@.entry_header_error(idx as int) is None && off == self@.linp(
                    idx as int,
                ) && off + 9 <= self@.bytes.len(),
                Err(e) => self@.entry_header_error(idx as int) == Some(e),
            },
    {
        if idx >= self.nentries {
            return Err(self.corrupt("entry index out of range"));
        }
        let off = read_u16(self.bytes, PAGE_HEADER_SIZE + idx * 2, self.endian) as usize;
        let upper = read_u16(self.bytes, 18, self.endian) as usize;
        if off < upper {
            Err(self.corrupt("entry offset outside entry region"))
        } else if off + 8 > self.bytes.len() {
            Err(self.corrupt("u32 read out of range"))
        } else if off + 9 > self.bytes.len() {
            Err(self.corrupt("byte read out of range"))
        } else if (self.bytes.len() - off) % ENTRY_ALIGN != 0 {
            Err(self.corrupt("entry offset misaligned"))
        } else {
            Ok(off)
        }
    }

    /// Decode an item slot at `[off, off + len)`, treating it as an overflow
    /// reference if `big` is set.
    fn decode_item(&self, off: usize, len: usize, big: bool) -> (r: Result<ItemRef, Error>)
        requires
            self.wf(),
            off + len <= self@.bytes.len(),
        ensures
            r == self@.item(off as int, len as int, big),
    {
        if !big {
            return Ok(ItemRef::Inline { off: off as u32, len: len as u32 });
        }
        if len < NOVFLSIZE {
            return Err(self.corrupt("overflow ref too short"));
        }
        let pgno = read_u32(self.bytes, off, self.endian);
        let size = read_u32(self.bytes, off + 4, self.endian);
        Ok(ItemRef::Overflow { pgno, size })
    }

    fn corrupt(&self, reason: &'static str) -> (r: Error)
        ensures
            r == self@.corrupt(reason),
    {
        Error::CorruptPage { pgno: self.pgno, reason }
    }
}

} // verus!
