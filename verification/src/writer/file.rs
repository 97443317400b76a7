//! The bytes of the finished file.

use crate::bytes;
use crate::bytes::{write_u32, Endian};
use crate::format::{
    Meta, BTREE_MAGIC, BTREE_VERSION, B_NODUPS, DEFAULT_PSIZE, MAX_PSIZE, META_SIZE, P_INVALID,
};
use crate::image;
use crate::page::RawPage;
use crate::writer::model::Page;
use vstd::prelude::*;

verus! {

/// The fields of the meta page of a new file.
pub open spec fn new_meta() -> Meta {
    Meta {
        magic: BTREE_MAGIC,
        version: BTREE_VERSION,
        psize: 4096,
        free: P_INVALID,
        nrecs: 0,
        flags: B_NODUPS,
    }
}

/// Page `p` of the file.
pub open spec fn stored(b: Seq<u8>, p: int, e: Endian) -> RawPage {
    RawPage {
        pgno: 0,
        bytes: b.subrange(p * DEFAULT_PSIZE, (p + 1) * DEFAULT_PSIZE),
        endian: e,
    }
}

/// The bytes are a meta page, followed by sound pages whose active content
/// is that of `pages`.
pub open spec fn is_file(b: Seq<u8>, pages: Seq<Page>, e: Endian) -> bool {
    &&& b.len() == pages.len() * DEFAULT_PSIZE
    &&& crate::format::meta_at(b, e) == new_meta()
    &&& forall|i: int| META_SIZE <= i < DEFAULT_PSIZE ==> b[i] == 0
    &&& forall|p: int|
        1 <= p < pages.len() ==> (#[trigger] stored(b, p, e)).sound() && stored(b, p, e).decode()
            == pages[p]
}

/// Build a fresh meta page.  Layout follows `BTMETA` in `nbcompat/db.h`:
/// magic, version, psize, free, nrecs, flags, then `psize - 24` zero bytes.
pub fn build_meta(psize: usize, free: u32, nrecs: u32, flags: u32, e: Endian) -> (r: Vec<u8>)
    requires
        META_SIZE <= psize <= MAX_PSIZE,
    ensures
        r@.len() == psize,
        crate::format::meta_at(r@, e) == (Meta {
            magic: BTREE_MAGIC,
            version: BTREE_VERSION,
            psize: psize as u32,
            free,
            nrecs,
            flags,
        }),
        forall|i: int| META_SIZE <= i < psize ==> r@[i] == 0,
{
    let mut p: Vec<u8> = vec![0u8; psize];
    write_u32(&mut p, 0, BTREE_MAGIC, e);
    let ghost b0 = p@;
    write_u32(&mut p, 4, BTREE_VERSION, e);
    let ghost b1 = p@;
    write_u32(&mut p, 8, psize as u32, e);
    let ghost b2 = p@;
    write_u32(&mut p, 12, free, e);
    let ghost b3 = p@;
    write_u32(&mut p, 16, nrecs, e);
    let ghost b4 = p@;
    write_u32(&mut p, 20, flags, e);
    proof {
        assert(bytes::agree(b0, p@, 0, 4));
        assert(bytes::agree(b1, p@, 4, 8));
        assert(bytes::agree(b2, p@, 8, 12));
        assert(bytes::agree(b3, p@, 12, 16));
        assert(bytes::agree(b4, p@, 16, 20));
        bytes::lemma_agree(b0, p@, 0, 4, e);
        bytes::lemma_agree(b1, p@, 4, 8, e);
        bytes::lemma_agree(b2, p@, 8, 12, e);
        bytes::lemma_agree(b3, p@, 12, 16, e);
        bytes::lemma_agree(b4, p@, 16, 20, e);
    }
    p
}

/// The four bytes of `b` at `off` are those of `a` in reverse.
pub open spec fn reversed_at(a: Seq<u8>, b: Seq<u8>, off: int) -> bool {
    b.subrange(off, off + 4) == a.subrange(off, off + 4).reverse()
}

/// An integer whose bytes are reversed reads the same in the opposite order.
proof fn lemma_reversed(a: Seq<u8>, b: Seq<u8>, off: int, e: Endian)
    requires
        0 <= off,
        off + 4 <= a.len(),
        off + 4 <= b.len(),
        reversed_at(a, b, off),
    ensures
        bytes::u32_at(b, off, e.other()) == bytes::u32_at(a, off, e),
{
    reveal(bytes::u32_at);
    let x = a.subrange(off, off + 4).reverse();
    let y = b.subrange(off, off + 4);
    assert(y[0] == x[0] && y[1] == x[1] && y[2] == x[2] && y[3] == x[3]);
}

/// The magic number tells the byte order of a meta page, whatever that of
/// the host: with the bytes of each field reversed the page reads the same,
/// in the opposite order.
pub proof fn law_meta_either_order(a: Seq<u8>, b: Seq<u8>, e: Endian, host: Endian)
    requires
        META_SIZE <= a.len(),
        META_SIZE <= b.len(),
        crate::format::meta_at(a, e).magic == BTREE_MAGIC,
        reversed_at(a, b, 0),
        reversed_at(a, b, 4),
        reversed_at(a, b, 8),
        reversed_at(a, b, 12),
        reversed_at(a, b, 16),
        reversed_at(a, b, 20),
    ensures
        crate::format::file_endian(a, host) == e,
        crate::format::file_endian(b, host) == e.other(),
        crate::format::meta_at(b, e.other()) == crate::format::meta_at(a, e),
{
    lemma_reversed(a, b, 0, e);
    lemma_reversed(a, b, 4, e);
    lemma_reversed(a, b, 8, e);
    lemma_reversed(a, b, 12, e);
    lemma_reversed(a, b, 16, e);
    lemma_reversed(a, b, 20, e);
    image::lemma_magic(a, e);
    image::lemma_magic(b, e.other());
}

} // verus!
