//! On-disk constants and layout helpers.
//!
//! Field widths and offsets follow `libnbcompat`'s `nbcompat/db.h` and
//! `db/btree/btree.h`.

use crate::bytes;
use crate::bytes::{read_u32, Endian};
use vstd::prelude::*;

verus! {

/// Magic number at the start of `BTMETA` (page 0), stored in the byte order
/// of the host that wrote the file.
pub const BTREE_MAGIC: u32 = 0x0005_3162;

/// Btree on-disk version.  Only this version is supported.
pub const BTREE_VERSION: u32 = 3;

/// Smallest legal page size.
pub const MIN_PSIZE: usize = 512;

/// Largest legal page size.  Page offsets are stored in `indx_t` which is
/// `u16`, so a page may be at most 65536 bytes.
pub const MAX_PSIZE: usize = 65536;

/// Page size used for new files.  Matches `pkg_install`, which always
/// passes `psize = 4096` to `dbopen`.
pub const DEFAULT_PSIZE: usize = 4096;

/// Reserved page number used for both the metadata page and for "no page"
/// sentinels in sibling / overflow links.
pub const P_INVALID: u32 = 0;

/// Page number of the root of the btree.
pub const P_ROOT: u32 = 1;

/// Page flag: internal page of a btree.
pub const P_BINTERNAL: u32 = 0x01;

/// Page flag: leaf page of a btree.
pub const P_BLEAF: u32 = 0x02;

/// Page flag: overflow page (a member of a key or value overflow chain).
pub const P_OVERFLOW: u32 = 0x04;

/// Mask of all page type bits.
pub const P_TYPE: u32 = 0x1f;

/// Entry flag: the data lives on an overflow chain and the entry's data
/// slot is an 8-byte `{pgno, size}` reference.  Only meaningful for
/// [`P_BLEAF`] entries.
pub const P_BIGDATA: u8 = 0x01;

/// Entry flag: the key lives on an overflow chain and the entry's key slot
/// is an 8-byte `{pgno, size}` reference.
pub const P_BIGKEY: u8 = 0x02;

/// `BTMETA` flag: duplicate keys are forbidden.
pub const B_NODUPS: u32 = 0x0020;

/// `BTMETA` flag: this is a recno tree.  Unsupported.
pub const R_RECNO: u32 = 0x0080;

/// All metadata flag bits that have a meaning.
pub const SAVEMETA: u32 = 0x00a0;

/// Size of the `BTMETA` structure: six `u32` fields.
pub const META_SIZE: usize = 24;

/// Size of the `PAGE` header (the fixed part before `linp[]`): `pgno`,
/// `prevpg`, `nextpg`, `flags` (each `u32`), `lower`, `upper` (each `u16`).
pub const PAGE_HEADER_SIZE: usize = 20;

/// Size of an overflow reference: `{pgno_t, u32 size}`.
pub const NOVFLSIZE: usize = 8;

/// Size of a `BLEAF` entry header before the `bytes[]` payload: `ksize`
/// (`u32`), `dsize` (`u32`), `flags` (`u8`).
pub const BLEAF_HEADER_SIZE: usize = 9;

/// Size of a `BINTERNAL` entry header before the `bytes[]` payload: `ksize`
/// (`u32`), `pgno` (`u32`), `flags` (`u8`).
pub const BINTERNAL_HEADER_SIZE: usize = 9;

/// Alignment of entries within a page, `sizeof(pgno_t)`.
pub const ENTRY_ALIGN: usize = 4;

/// `n` rounded up to the next multiple of [`ENTRY_ALIGN`].
pub open spec fn align4(n: int) -> int {
    (n + 3) / 4 * 4
}

/// Round `n` up to the next multiple of [`ENTRY_ALIGN`].  Equivalent to the
/// `BTLALIGN` macro in `btree.h`.
pub fn align_entry(n: usize) -> (r: usize)
    requires
        n + 3 <= usize::MAX,
    ensures
        r == align4(n as int),
{
    (n + 3) / ENTRY_ALIGN * ENTRY_ALIGN
}

/// Rounding gives the only multiple of four among `n` and the three numbers
/// after it.
pub proof fn law_align(n: int, m: int)
    requires
        n <= m < n + 4,
        m % 4 == 0,
    ensures
        align4(n) == m,
{
}

/// Byte layout of the `BTMETA` page (page 0).
#[derive(Clone, Copy, Debug)]
pub struct Meta {
    /// Magic number.
    pub magic: u32,
    /// Format version.
    pub version: u32,
    /// Page size in bytes.
    pub psize: u32,
    /// Head of the free-page chain, or [`P_INVALID`].
    pub free: u32,
    /// Number of records (recno only; zero for btree).
    pub nrecs: u32,
    /// Metadata flag bits (a subset of [`SAVEMETA`]).
    pub flags: u32,
}

/// The byte order in which a host of order `host` reads a file that starts
/// with `b`: its own if the magic number reads right that way, else the
/// opposite one.
pub open spec fn file_endian(b: Seq<u8>, host: Endian) -> Endian {
    if bytes::u32_at(b, 0, host) == BTREE_MAGIC {
        host
    } else {
        host.other()
    }
}

/// The six fields at the start of `b`.
pub open spec fn meta_at(b: Seq<u8>, e: Endian) -> Meta {
    Meta {
        magic: bytes::u32_at(b, 0, e),
        version: bytes::u32_at(b, 4, e),
        psize: bytes::u32_at(b, 8, e),
        free: bytes::u32_at(b, 12, e),
        nrecs: bytes::u32_at(b, 16, e),
        flags: bytes::u32_at(b, 20, e),
    }
}

impl Meta {
    /// Decode a meta page from the first [`META_SIZE`] bytes of the file.
    /// Returns the parsed meta and the byte order of the file.
    pub fn parse(buf: &[u8], host: Endian) -> (r: (Meta, Endian))
        requires
            buf@.len() >= META_SIZE,
        ensures
            r.1 == file_endian(buf@, host),
            r.0 == meta_at(buf@, r.1),
    {
        let native_magic = read_u32(buf, 0, host);
        let e = if native_magic == BTREE_MAGIC {
            host
        } else {
            host.swapped()
        };
        let meta = Meta {
            magic: read_u32(buf, 0, e),
            version: read_u32(buf, 4, e),
            psize: read_u32(buf, 8, e),
            free: read_u32(buf, 12, e),
            nrecs: read_u32(buf, 16, e),
            flags: read_u32(buf, 20, e),
        };
        (meta, e)
    }
}

} // verus!
