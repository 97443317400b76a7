use vstd::prelude::*;

verus! {

/// Errors returned by this crate.
///
/// The library works on bytes that are already in memory, so no variant
/// stands for a failing read or write of a file: those belong to whoever
/// loads the bytes.
#[derive(Clone, Copy, Debug)]
#[non_exhaustive]
pub enum Error {
    /// The image is shorter than the minimum required to hold a `BTMETA`
    /// page.
    ShortFile,
    /// The image does not begin with a recognised `BTMETA` header.
    BadMagic {
        /// The 32-bit value found where the magic was expected.
        magic: u32,
    },
    /// Header magic matches but the version is unsupported.  Only version 3
    /// is supported, matching `BTREEVERSION` from `nbcompat/db.h`.
    BadVersion {
        /// Version read from the meta page.
        version: u32,
    },
    /// Page size in the metadata is outside the supported range or is not
    /// a multiple of `sizeof(indx_t)`.
    BadPageSize {
        /// Page size read from the meta page, in bytes.
        psize: u32,
    },
    /// Image length is not an exact multiple of the meta page's declared
    /// page size, so it cannot be a valid sequence of `psize`-byte pages.
    UnalignedFileLength {
        /// Image length in bytes.
        len: u64,
        /// Page size read from the meta page, in bytes.
        psize: u32,
    },
    /// Metadata flags include bits this implementation cannot interpret.
    /// Currently only `B_NODUPS` and `R_RECNO` are recognised, and
    /// `R_RECNO` indicates a recno tree, which is not supported.
    UnsupportedFlags {
        /// Raw flag word read from the meta page.
        flags: u32,
    },
    /// The image is shorter than the page being requested.
    PageOutOfBounds {
        /// Page number that was requested.
        pgno: u32,
    },
    /// Page header or entry layout is internally inconsistent.
    CorruptPage {
        /// Page number whose contents failed validation.
        pgno: u32,
        /// Short description of the structural problem.
        reason: &'static str,
    },
    /// Overflow chain is malformed: it ends before all bytes were read, or
    /// includes a page whose flags are not `P_OVERFLOW`.
    CorruptOverflow {
        /// First page number of the malformed chain.
        pgno: u32,
    },
    /// The writer was asked to insert a key/value pair that it cannot
    /// represent inline everywhere the pair might need to appear in the
    /// tree, given that it never writes overflow chains.
    ///
    /// 1. The `BLEAF` entry plus its `linp[]` slot must fit a fresh empty
    ///    leaf.
    /// 2. The same key may become a `BINTERNAL` separator at every level
    ///    above the leaf.  The most constrained context is a root split,
    ///    which packs the new separator alongside a zero-key entry and two
    ///    `linp` slots on a fresh page.
    ///
    /// Both are bounds on the two lengths: whether a pair is refused does
    /// not depend on what else the tree holds.
    EntryTooLarge {
        /// Key length in bytes.
        key_len: usize,
        /// Value length in bytes.
        val_len: usize,
    },
}

} // verus!
