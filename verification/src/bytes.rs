//! Integers in byte sequences, in either byte order.

use vstd::prelude::*;

verus! {

/// Order in which the bytes of an integer are stored.
#[derive(Clone, Copy, Debug, PartialEq, Eq, Structural)]
pub enum Endian {
    Little,
    Big,
}

impl Endian {
    /// The opposite byte order.
    pub open spec fn other(self) -> Endian {
        match self {
            Endian::Little => Endian::Big,
            Endian::Big => Endian::Little,
        }
    }

    /// The opposite byte order.
    pub fn swapped(self) -> (r: Endian)
        ensures
            r == self.other(),
    {
        match self {
            Endian::Little => Endian::Big,
            Endian::Big => Endian::Little,
        }
    }
}

/// The value of two bytes, least significant first.
pub open spec fn word16(b0: u8, b1: u8) -> u16 {
    (b0 + 256 * b1) as u16
}

/// The value of four bytes, least significant first.
pub open spec fn word32(b0: u8, b1: u8, b2: u8, b3: u8) -> u32 {
    (b0 + 256 * b1 + 65536 * b2 + 16777216 * b3) as u32
}

/// The `u16` stored at `off`.
#[verifier::opaque]
pub open spec fn u16_at(b: Seq<u8>, off: int, e: Endian) -> u16 {
    match e {
        Endian::Little => word16(b[off], b[off + 1]),
        Endian::Big => word16(b[off + 1], b[off]),
    }
}

/// The `u32` stored at `off`.
#[verifier::opaque]
pub open spec fn u32_at(b: Seq<u8>, off: int, e: Endian) -> u32 {
    match e {
        Endian::Little => word32(b[off], b[off + 1], b[off + 2], b[off + 3]),
        Endian::Big => word32(b[off + 3], b[off + 2], b[off + 1], b[off]),
    }
}

/// The two sequences hold the same bytes in `[lo, hi)`.
pub open spec fn agree(a: Seq<u8>, b: Seq<u8>, lo: int, hi: int) -> bool {
    forall|i: int| lo <= i < hi ==> a[i] == b[i]
}

/// Integers that lie in a range of equal bytes are equal.
pub proof fn lemma_agree(a: Seq<u8>, b: Seq<u8>, lo: int, hi: int, e: Endian)
    requires
        agree(a, b, lo, hi),
    ensures
        forall|off: int|
            lo <= off && off + 2 <= hi ==> #[trigger] u16_at(b, off, e) == u16_at(a, off, e),
        forall|off: int|
            lo <= off && off + 4 <= hi ==> #[trigger] u32_at(b, off, e) == u32_at(a, off, e),
{
    reveal(u16_at);
    reveal(u32_at);
}

/// Equal integers have equal bytes.
pub proof fn lemma_same_words(a: Seq<u8>, b: Seq<u8>, off: int, e: Endian)
    ensures
        u16_at(a, off, e) == u16_at(b, off, e) ==> agree(a, b, off, off + 2),
        u32_at(a, off, e) == u32_at(b, off, e) ==> agree(a, b, off, off + 4),
{
    reveal(u16_at);
    reveal(u32_at);
    if u16_at(a, off, e) == u16_at(b, off, e) {
        assert(a[off] == b[off] && a[off + 1] == b[off + 1]);
    }
    if u32_at(a, off, e) == u32_at(b, off, e) {
        assert(a[off] == b[off] && a[off + 1] == b[off + 1] && a[off + 2] == b[off + 2]
            && a[off + 3] == b[off + 3]);
    }
}

/// Read an unaligned `u16` from `bytes[off..]`.
pub fn read_u16(bytes: &[u8], off: usize, e: Endian) -> (v: u16)
    requires
        off + 2 <= bytes@.len(),
    ensures
        v == u16_at(bytes@, off as int, e),
{
    proof {
        reveal(u16_at);
    }
    let b0 = bytes[off] as u16;
    let b1 = bytes[off + 1] as u16;
    match e {
        Endian::Little => b0 + 256 * b1,
        Endian::Big => b1 + 256 * b0,
    }
}

/// Read an unaligned `u32` from `bytes[off..]`.
pub fn read_u32(bytes: &[u8], off: usize, e: Endian) -> (v: u32)
    requires
        off + 4 <= bytes@.len(),
    ensures
        v == u32_at(bytes@, off as int, e),
{
    proof {
        reveal(u32_at);
    }
    let b0 = bytes[off] as u32;
    let b1 = bytes[off + 1] as u32;
    let b2 = bytes[off + 2] as u32;
    let b3 = bytes[off + 3] as u32;
    match e {
        Endian::Little => b0 + 256 * b1 + 65536 * b2 + 16777216 * b3,
        Endian::Big => b3 + 256 * b2 + 65536 * b1 + 16777216 * b0,
    }
}

/// Store `v` at `buf[off..]`.
pub fn write_u16(buf: &mut Vec<u8>, off: usize, v: u16, e: Endian)
    requires
        off + 2 <= old(buf).len(),
    ensures
        final(buf)@.len() == old(buf)@.len(),
        u16_at(final(buf)@, off as int, e) == v,
        agree(old(buf)@, final(buf)@, 0, off as int),
        agree(old(buf)@, final(buf)@, off + 2, old(buf)@.len() as int),
{
    proof {
        reveal(u16_at);
    }
    let b0 = (v % 256) as u8;
    let b1 = (v / 256) as u8;
    match e {
        Endian::Little => {
            buf.set(off, b0);
            buf.set(off + 1, b1);
        },
        Endian::Big => {
            buf.set(off, b1);
            buf.set(off + 1, b0);
        },
    }
}

/// Store `v` at `buf[off..]`.
pub fn write_u32(buf: &mut Vec<u8>, off: usize, v: u32, e: Endian)
    requires
        off + 4 <= old(buf).len(),
    ensures
        final(buf)@.len() == old(buf)@.len(),
        u32_at(final(buf)@, off as int, e) == v,
        agree(old(buf)@, final(buf)@, 0, off as int),
        agree(old(buf)@, final(buf)@, off + 4, old(buf)@.len() as int),
{
    proof {
        reveal(u32_at);
    }
    let b0 = (v % 256) as u8;
    let b1 = (v / 256 % 256) as u8;
    let b2 = (v / 65536 % 256) as u8;
    let b3 = (v / 16777216) as u8;
    match e {
        Endian::Little => {
            buf.set(off, b0);
            buf.set(off + 1, b1);
            buf.set(off + 2, b2);
            buf.set(off + 3, b3);
        },
        Endian::Big => {
            buf.set(off, b3);
            buf.set(off + 1, b2);
            buf.set(off + 2, b1);
            buf.set(off + 3, b0);
        },
    }
}

/// `u32::to_ne_bytes`: the four bytes of `v` as the host stores them.  The
/// host stores them least significant first or most significant first;
/// which of the two is the machine's affair.
#[verifier::external_body]
fn native_bytes(v: u32) -> (b: [u8; 4])
    ensures
        u32_at(b@, 0, Endian::Little) == v || u32_at(b@, 0, Endian::Big) == v,
{
    v.to_ne_bytes()
}

/// The byte order in which `b` is the integer 1.
pub fn order_of_one(b: [u8; 4]) -> (e: Endian)
    requires
        u32_at(b@, 0, Endian::Little) == 1 || u32_at(b@, 0, Endian::Big) == 1,
    ensures
        u32_at(b@, 0, e) == 1,
        u32_at(b@, 0, e.other()) != 1,
{
    proof {
        reveal(u32_at);
    }
    if b[0] == 1 {
        Endian::Little
    } else {
        Endian::Big
    }
}

/// The byte order is one in which the host stores the integer 1.  Which of
/// the two that is depends on the machine alone.
pub closed spec fn is_native(e: Endian) -> bool {
    exists|b: [u8; 4]| #[trigger]
        call_ensures(native_bytes, (1u32,), b) && u32_at(b@, 0, e) == 1
}

/// The byte order of the host.
pub(crate) fn native_endian() -> (e: Endian)
    ensures
        is_native(e),
{
    order_of_one(native_bytes(1))
}

} // verus!
