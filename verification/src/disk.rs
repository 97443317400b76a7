//! The file format, byte by byte.
//!
//! What is said here of a file rests on its bytes alone, apart from how they
//! are read or written, so that it can be held against both.

use crate::bytes;
use crate::bytes::Endian;
use crate::error::Error;
use crate::image;
use crate::image::{Image, Pair};
use crate::key;
use crate::page::{ItemRef, RawPage};
use crate::sound;
use crate::sound::{Btree, Sheet, Span};
use vstd::prelude::*;

verus! {

/// The number in two bytes, the first of which is the most significant if
/// `big`, and the least significant if not.
pub open spec fn half(b: Seq<u8>, off: int, big: bool) -> int {
    if big {
        256 * b[off] + b[off + 1]
    } else {
        b[off] + 256 * b[off + 1]
    }
}

/// The number in four bytes.
pub open spec fn word(b: Seq<u8>, off: int, big: bool) -> int {
    if big {
        16777216 * b[off] + 65536 * b[off + 1] + 256 * b[off + 2] + b[off + 3]
    } else {
        b[off] + 256 * b[off + 1] + 65536 * b[off + 2] + 16777216 * b[off + 3]
    }
}

/// The first difference between the keys is a smaller byte of `a`, or the
/// end of `a`.
pub open spec fn before(a: Seq<u8>, b: Seq<u8>) -> bool {
    exists|i: int| #[trigger] differ_at(a, b, i)
}

pub open spec fn differ_at(a: Seq<u8>, b: Seq<u8>, i: int) -> bool {
    &&& 0 <= i <= a.len()
    &&& i < b.len()
    &&& forall|j: int| 0 <= j < i ==> a[j] == b[j]
    &&& i == a.len() || (a[i] as int) < (b[i] as int)
}

/// The bytes start with a meta page: magic number, version, page size, head
/// of the free list, record count, flags.  The only flag that may be set is
/// the one that forbids duplicate keys.
pub open spec fn meta_ok(b: Seq<u8>, psize: int, big: bool) -> bool {
    &&& b.len() >= 24
    &&& word(b, 0, big) == 0x53162
    &&& word(b, 4, big) == 3
    &&& word(b, 8, big) == psize
    &&& 512 <= psize <= 65536
    &&& psize % 2 == 0
    &&& word(b, 20, big) == 0 || word(b, 20, big) == 0x20
    &&& b.len() as int % psize == 0
}

/// The bytes of a file, in pages of `psize` bytes.
pub struct Disk {
    pub b: Seq<u8>,
    pub psize: int,
    pub big: bool,
}

impl Disk {
    /// Byte `off` of page `p`.
    pub open spec fn byte(self, p: int, off: int) -> u8 {
        self.b[p * self.psize + off]
    }

    /// The 16-bit number at `off` of page `p`.
    pub open spec fn num16(self, p: int, off: int) -> int {
        half(self.b, p * self.psize + off, self.big)
    }

    /// The 32-bit number at `off` of page `p`.
    pub open spec fn num32(self, p: int, off: int) -> int {
        word(self.b, p * self.psize + off, self.big)
    }

    /// The number of the page left of page `p`, or 0.
    pub open spec fn prev(self, p: int) -> int {
        self.num32(p, 4)
    }

    /// The number of the page right of page `p`, or that follows it in a
    /// chain, or 0.
    pub open spec fn next(self, p: int) -> int {
        self.num32(p, 8)
    }

    /// What page `p` is: 1 for an internal page, 2 for a leaf, 4 for a page
    /// of an overflow chain.
    pub open spec fn kind(self, p: int) -> int {
        self.num32(p, 12) % 32
    }

    /// Where the offsets of the entries of page `p` end.
    pub open spec fn lower(self, p: int) -> int {
        self.num16(p, 16)
    }

    /// Where the entries of page `p` start.
    pub open spec fn upper(self, p: int) -> int {
        self.num16(p, 18)
    }

    /// Page `p` is there, and its header is that of a page.
    pub open spec fn page(self, p: int) -> bool {
        &&& 0 <= p
        &&& (p + 1) * self.psize <= self.b.len()
        &&& 20 <= self.lower(p) <= self.upper(p) <= self.psize
        &&& self.lower(p) % 2 == 0
        &&& self.kind(p) == 1 || self.kind(p) == 2 || self.kind(p) == 4
    }

    /// The number of entries of page `p`.
    pub open spec fn slots(self, p: int) -> int {
        (self.lower(p) - 20) / 2
    }

    /// The offset of entry `i` of page `p`.
    pub open spec fn offset(self, p: int, i: int) -> int {
        self.num16(p, 20 + 2 * i)
    }

    /// The pages of `run` are an overflow chain that holds `s`: what follows
    /// the header of each is a piece of `s`, as long as it goes.
    pub open spec fn chain(self, start: int, s: Seq<u8>, run: Seq<int>) -> bool {
        let room = self.psize - 20;
        &&& (run.len() - 1) * room < s.len() <= run.len() * room
        &&& run.len() > 0 ==> run[0] == start
        &&& forall|n: int| 0 <= n < run.len() ==> #[trigger] self.link(run, n)
        &&& forall|j: int|
            0 <= j < s.len() ==> #[trigger] s[j] == self.byte(run[j / room], 20 + j % room)
    }

    /// Page `n` of the run is a page of a chain, and leads to the next one.
    pub open spec fn link(self, run: Seq<int>, n: int) -> bool {
        &&& 0 < run[n] <= u32::MAX
        &&& self.page(run[n])
        &&& self.kind(run[n]) == 4
        &&& n + 1 < run.len() ==> self.next(run[n]) == run[n + 1]
    }

    /// The overflow chain that starts at page `start` holds `s`.
    pub open spec fn chained(self, start: int, s: Seq<u8>) -> bool {
        exists|run: Seq<int>| #[trigger] self.chain(start, s, run)
    }

    /// The `len` bytes at `off` of page `p` are `s`; or, if `long`, they are
    /// the first page and the length of a chain that holds `s`.
    pub open spec fn item(self, p: int, off: int, len: int, long: bool, s: Seq<u8>) -> bool {
        if long {
            &&& len >= 8
            &&& self.num32(p, off + 4) == s.len()
            &&& self.chained(self.num32(p, off), s)
        } else {
            s == self.b.subrange(p * self.psize + off, p * self.psize + off + len)
        }
    }

    /// Entry `i` of page `p` starts where an entry can: among the entries,
    /// and a multiple of four bytes from the end of the page.
    pub open spec fn entry(self, p: int, i: int) -> bool {
        &&& self.upper(p) <= self.offset(p, i)
        &&& self.offset(p, i) + 9 <= self.psize
        &&& (self.psize - self.offset(p, i)) % 4 == 0
    }

    /// Entry `i` of leaf `p` is the pair of `k` and `v`.  It has the length
    /// of the key, that of the value, and a byte that says which of the two
    /// are on overflow chains; then come both.
    pub open spec fn leaf_entry(self, p: int, i: int, k: Seq<u8>, v: Seq<u8>) -> bool {
        let off = self.offset(p, i);
        let klen = self.num32(p, off);
        let vlen = self.num32(p, off + 4);
        let flags = self.byte(p, off + 8) as int;
        &&& self.entry(p, i)
        &&& off + 9 + klen + vlen <= self.psize
        &&& self.item(p, off + 9, klen, flags / 2 % 2 == 1, k)
        &&& self.item(p, off + 9 + klen, vlen, flags % 2 == 1, v)
    }

    /// Entry `i` of internal page `p` leads to page `child`, and if it
    /// counts, its separator is `k`.  It has the length of the separator,
    /// the number of the child, and a byte that says whether the separator
    /// is on an overflow chain; then comes the separator.
    pub open spec fn branch_entry(
        self,
        p: int,
        i: int,
        child: int,
        counts: bool,
        k: Seq<u8>,
    ) -> bool {
        let off = self.offset(p, i);
        let klen = self.num32(p, off);
        let long = self.byte(p, off + 8) as int / 2 % 2 == 1;
        &&& self.entry(p, i)
        &&& off + 9 + klen <= self.psize
        &&& self.num32(p, off + 4) == child
        &&& long ==> klen >= 8
        &&& counts ==> self.item(p, off + 9, klen, long, k)
    }

    /// Page `p` holds the sheet.  The first separator of a page that has
    /// none to its left does not count.
    pub open spec fn sheet(self, p: int, sheet: Sheet) -> bool {
        &&& self.page(p)
        &&& self.slots(p) == sheet.cells.len()
        &&& self.next(p) == sheet.next
        &&& self.prev(p) == 0 <==> sheet.leftmost
        &&& sheet.leaf ==> {
            &&& self.kind(p) == 2
            &&& forall|i: int|
                0 <= i < sheet.cells.len() ==> self.leaf_entry(
                    p,
                    i,
                    (#[trigger] sheet.cells[i]).key,
                    sheet.cells[i].val,
                )
        }
        &&& !sheet.leaf ==> {
            &&& self.kind(p) == 1
            &&& sheet.cells.len() > 0
            &&& forall|i: int|
                0 <= i < sheet.cells.len() ==> self.branch_entry(
                    p,
                    i,
                    (#[trigger] sheet.cells[i]).child as int,
                    i > 0 || !sheet.leftmost,
                    sheet.cells[i].key,
                )
        }
    }

    /// The file holds the tree: page 1 is its root.
    pub open spec fn holds(self, t: Btree) -> bool {
        &&& 512 <= self.psize <= 65536
        &&& t.sheets.contains_key(1)
        &&& !t.sheets.contains_key(0)
        &&& t.spans[1].lo == Seq::<u8>::empty()
        &&& t.spans[1].hi is None
        &&& forall|p: u32| #[trigger]
            t.sheets.contains_key(p) ==> self.sheet(p as int, t.sheets[p]) && in_place(t, p)
        &&& t.leaves.len() > 0
        &&& t.spans[t.leaves[0]].lo == Seq::<u8>::empty()
        &&& forall|i: int| 0 <= i < t.leaves.len() ==> #[trigger] in_row(t, i)
    }
}

/// `k` is not before `lo`, and before `hi`.
pub open spec fn within(lo: Seq<u8>, hi: Option<Seq<u8>>, k: Seq<u8>) -> bool {
    &&& lo == k || before(lo, k)
    &&& match hi {
        None => true,
        Some(h) => before(k, h),
    }
}

/// The keys of page `p` go up; those of a leaf belong to it; and each child
/// of an internal page, one level down, gets the keys from its separator up
/// to the next.
pub open spec fn in_place(t: Btree, p: u32) -> bool {
    let sheet = t.sheets[p];
    let span = t.spans[p];
    &&& forall|i: int, j: int|
        0 <= i < j < sheet.cells.len() && (i > 0 || sheet.leaf || !sheet.leftmost) ==> before(
            (#[trigger] sheet.cells[i]).key,
            (#[trigger] sheet.cells[j]).key,
        )
    &&& sheet.leaf <==> span.level == 0
    &&& sheet.leaf ==> t.leaves.contains(p)
    &&& sheet.leaf ==> forall|i: int|
        0 <= i < sheet.cells.len() ==> within(span.lo, span.hi, (#[trigger] sheet.cells[i]).key)
    &&& !sheet.leaf ==> forall|s: int|
        0 <= s < sheet.cells.len() ==> child_in_place(t, span, sheet, s, #[trigger] sheet.cells[s].child)
}

/// Page `child` has the keys of entry `s`.
pub open spec fn child_in_place(t: Btree, span: Span, sheet: Sheet, s: int, child: u32) -> bool {
    &&& t.sheets.contains_key(child)
    &&& t.spans[child].level == span.level - 1
    &&& t.spans[child].lo == if s == 0 {
        span.lo
    } else {
        sheet.cells[s].key
    }
    &&& t.spans[child].hi == if s + 1 < sheet.cells.len() {
        Some(sheet.cells[s + 1].key)
    } else {
        span.hi
    }
}

/// Leaf `i` is linked to the next one, which has the keys that follow.
pub open spec fn in_row(t: Btree, i: int) -> bool {
    let p = t.leaves[i];
    &&& t.sheets.contains_key(p)
    &&& t.sheets[p].leaf
    &&& within(t.spans[p].lo, t.spans[p].hi, t.spans[p].lo)
    &&& if i + 1 < t.leaves.len() {
        &&& t.sheets[p].next == t.leaves[i + 1]
        &&& t.spans[p].hi == Some(t.spans[t.leaves[i + 1]].lo)
    } else {
        &&& t.sheets[p].next == 0
        &&& t.spans[p].hi is None
    }
}

/// Some leaf of the tree has the pair.
pub open spec fn has(t: Btree, k: Seq<u8>, v: Seq<u8>) -> bool {
    exists|p: u32, i: int| #[trigger] has_at(t, p, i, k, v)
}

pub open spec fn has_at(t: Btree, p: u32, i: int, k: Seq<u8>, v: Seq<u8>) -> bool {
    &&& t.sheets.contains_key(p)
    &&& t.sheets[p].leaf
    &&& 0 <= i < t.sheets[p].cells.len()
    &&& t.sheets[p].cells[i].key == k
    &&& t.sheets[p].cells[i].val == v
}

/// The file holds a tree with the pairs of `m`, and no other.
pub open spec fn stores(d: Disk, m: Map<Seq<u8>, Seq<u8>>) -> bool {
    exists|t: Btree| #[trigger] d.holds(t) && has_all(t, m)
}

pub open spec fn has_all(t: Btree, m: Map<Seq<u8>, Seq<u8>>) -> bool {
    forall|k: Seq<u8>, v: Seq<u8>| #[trigger] has(t, k, v) <==> m.dom().contains(k) && m[k] == v
}

/// The order of keys is that of their bytes.
pub proof fn law_order(a: Seq<u8>, b: Seq<u8>)
    ensures
        key::lt(a, b) <==> before(a, b),
        key::le(a, b) <==> a == b || before(a, b),
        key::lex(a, b) == key::Order::Less <==> before(a, b),
        key::lex(a, b) == key::Order::Greater <==> before(b, a),
        key::lex(a, b) == key::Order::Equal <==> a == b,
{
    lemma_before(a, b);
    lemma_before(b, a);
    key::lemma_lex_lt(a, b);
}

proof fn lemma_before(a: Seq<u8>, b: Seq<u8>)
    ensures
        key::lt(a, b) <==> before(a, b),
{
    if before(a, b) {
        let i = choose|i: int| #[trigger] differ_at(a, b, i);
        key::law_byte_order(a, b, i);
    }
    if key::lt(a, b) {
        let i = lemma_differ(a, b, 0);
        key::lemma_lt_total(a, b);
        key::law_byte_order(a, b, i);
        key::law_byte_order(b, a, i);
        assert(differ_at(a, b, i));
    }
}

/// Where two keys first differ.
proof fn lemma_differ(a: Seq<u8>, b: Seq<u8>, n: int) -> (i: int)
    requires
        0 <= n <= a.len(),
        n <= b.len(),
        forall|j: int| 0 <= j < n ==> a[j] == b[j],
    ensures
        n <= i <= a.len(),
        i <= b.len(),
        forall|j: int| 0 <= j < i ==> a[j] == b[j],
        i == a.len() || i == b.len() || a[i] != b[i],
    decreases a.len() - n,
{
    if n < a.len() && n < b.len() && a[n] == b[n] {
        lemma_differ(a, b, n + 1)
    } else {
        n
    }
}

/// What the reader takes the bytes to be.
pub open spec fn disk_of(image: Image) -> Disk {
    Disk { b: image.bytes, psize: image.psize, big: image.endian is Big }
}

/// The numbers in the file are those that the reader reads.
pub proof fn law_numbers(b: Seq<u8>, off: int, e: Endian)
    ensures
        bytes::u16_at(b, off, e) as int == half(b, off, e is Big),
        bytes::u32_at(b, off, e) as int == word(b, off, e is Big),
{
    reveal(bytes::u16_at);
    reveal(bytes::u32_at);
}

/// A legal meta page is accepted, on every host.
pub proof fn law_opens(b: Seq<u8>, psize: int, big: bool, host: Endian)
    requires
        meta_ok(b, psize, big),
    ensures
        image::open_image(b, host) == Ok::<Image, Error>(
            Image {
                bytes: b,
                psize,
                endian: if big {
                    Endian::Big
                } else {
                    Endian::Little
                },
            },
        ),
{
    let e = if big {
        Endian::Big
    } else {
        Endian::Little
    };
    law_numbers(b, 0, e);
    law_numbers(b, 4, e);
    law_numbers(b, 8, e);
    law_numbers(b, 20, e);
    image::lemma_magic(b, e);
    assert(0u32 & !0xa0u32 == 0 && 0u32 & 0x80u32 == 0 && 0x20u32 & !0xa0u32 == 0 && 0x20u32
        & 0x80u32 == 0) by (bit_vector);
}

/// The kinds of pages as the flags have them.
proof fn lemma_kind(f: u32)
    ensures
        f & 0x1fu32 == f % 32,
        f % 32 == 1 ==> f & 0x01u32 != 0 && f & 0x02u32 == 0 && f & 0x04u32 == 0,
        f % 32 == 2 ==> f & 0x01u32 == 0 && f & 0x02u32 != 0 && f & 0x04u32 == 0,
        f % 32 == 4 ==> f & 0x01u32 == 0 && f & 0x02u32 == 0 && f & 0x04u32 != 0,
{
    assert(f & 0x1fu32 == f % 32) by (bit_vector);
    assert(f % 32 == 1 ==> f & 0x01u32 != 0 && f & 0x02u32 == 0 && f & 0x04u32 == 0)
        by (bit_vector);
    assert(f % 32 == 2 ==> f & 0x01u32 == 0 && f & 0x02u32 != 0 && f & 0x04u32 == 0)
        by (bit_vector);
    assert(f % 32 == 4 ==> f & 0x01u32 == 0 && f & 0x02u32 == 0 && f & 0x04u32 != 0)
        by (bit_vector);
}

/// The bytes that the reader takes to be page `p`.
pub open spec fn raw_page(image: Image, p: u32) -> RawPage {
    RawPage {
        pgno: p,
        bytes: image.bytes.subrange(p * image.psize, (p + 1) * image.psize),
        endian: image.endian,
    }
}

/// The bytes and numbers of a page within the file.
proof fn lemma_within(image: Image, p: u32)
    requires
        image.wf(),
        (p + 1) * image.psize <= image.bytes.len(),
    ensures
        raw_page(image, p).bytes.len() == image.psize,
        forall|off: int|
            0 <= off < image.psize ==> (#[trigger] raw_page(image, p).bytes[off]) == disk_of(
                image,
            ).byte(p as int, off),
        forall|off: int|
            0 <= off && off + 2 <= image.psize ==> (#[trigger] bytes::u16_at(
                raw_page(image, p).bytes,
                off,
                image.endian,
            )) as int == disk_of(image).num16(p as int, off),
        forall|off: int|
            0 <= off && off + 4 <= image.psize ==> (#[trigger] bytes::u32_at(
                raw_page(image, p).bytes,
                off,
                image.endian,
            )) as int == disk_of(image).num32(p as int, off),
{
    let base = p * image.psize;
    assert((p + 1) * image.psize - base == image.psize && 0 <= base) by (nonlinear_arith)
        requires
            base == p * image.psize,
            image.psize >= 0,
            p >= 0,
    ;
    let r = raw_page(image, p).bytes;
    assert forall|off: int| 0 <= off && off + 2 <= image.psize implies (#[trigger] bytes::u16_at(
        r,
        off,
        image.endian,
    )) as int == disk_of(image).num16(p as int, off) by {
        law_numbers(r, off, image.endian);
        assert(r[off] == image.bytes[base + off] && r[off + 1] == image.bytes[base + off + 1]);
    }
    assert forall|off: int| 0 <= off && off + 4 <= image.psize implies (#[trigger] bytes::u32_at(
        r,
        off,
        image.endian,
    )) as int == disk_of(image).num32(p as int, off) by {
        law_numbers(r, off, image.endian);
        assert(r[off] == image.bytes[base + off] && r[off + 1] == image.bytes[base + off + 1]
            && r[off + 2] == image.bytes[base + off + 2] && r[off + 3] == image.bytes[base + off
            + 3]);
    }
}

/// Pages are what the reader takes to be pages, and their header fields are
/// what it takes them to be.
pub proof fn law_page(image: Image, p: u32)
    requires
        image.wf(),
    ensures
        image.page(p) is Ok <==> disk_of(image).page(p as int),
        image.page(p) == Err::<RawPage, Error>(Error::PageOutOfBounds { pgno: p }) <==> (p + 1)
            * image.psize > image.bytes.len(),
        image.page(p) matches Err(e) ==> e == (Error::PageOutOfBounds { pgno: p }) || e
            is CorruptPage && e->CorruptPage_pgno == p,
        image.page(p) matches Ok(raw) ==> {
            let d = disk_of(image);
            &&& raw == raw_page(image, p)
            &&& raw.prev_pg() == d.prev(p as int)
            &&& raw.next_pg() == d.next(p as int)
            &&& raw.nentries() == d.slots(p as int)
            &&& raw.upper() == d.upper(p as int)
            &&& raw.is_internal() <==> d.kind(p as int) == 1
            &&& raw.is_leaf() <==> d.kind(p as int) == 2
            &&& raw.is_overflow() <==> d.kind(p as int) == 4
            &&& forall|i: int|
                0 <= i < raw.nentries() ==> #[trigger] raw.linp(i) == d.offset(p as int, i)
        },
{
    let raw = raw_page(image, p);
    if (p + 1) * image.psize <= image.bytes.len() {
        lemma_within(image, p);
        lemma_kind(raw.flags());
        assert(raw.flags() as int == disk_of(image).num32(p as int, 12));
        assert(raw.lower() == disk_of(image).lower(p as int));
        assert(raw.upper() == disk_of(image).upper(p as int));
        assert(raw.next_pg() as int == disk_of(image).num32(p as int, 8));
        assert(raw.prev_pg() as int == disk_of(image).num32(p as int, 4));
        if raw.header_error() is None {
            assert forall|i: int| 0 <= i < raw.nentries() implies #[trigger] raw.linp(i)
                == disk_of(image).offset(p as int, i) by {}
        }
    }
}

/// The place of byte `j` of a chain, one page on.
proof fn lemma_place(j: int, room: int)
    requires
        0 <= j,
        0 < room,
    ensures
        j < room ==> j / room == 0 && j % room == j,
        j >= room ==> j / room == (j - room) / room + 1 && j % room == (j - room) % room,
        0 <= j / room,
        0 <= j % room < room,
        j / room * room <= j < (j / room + 1) * room,
{
    vstd::arithmetic::div_mod::lemma_fundamental_div_mod(j, room);
    vstd::arithmetic::div_mod::lemma_mod_bound(j, room);
    vstd::arithmetic::div_mod::lemma_div_pos_is_pos(j, room);
    assert(j / room * room <= j < (j / room + 1) * room) by (nonlinear_arith)
        requires
            j == room * (j / room) + j % room,
            0 <= j % room < room,
    ;
    if j < room {
        vstd::arithmetic::div_mod::lemma_basic_div(j, room);
        vstd::arithmetic::div_mod::lemma_small_mod(j as nat, room as nat);
    } else {
        vstd::arithmetic::div_mod::lemma_div_plus_one(j - room, room);
        vstd::arithmetic::div_mod::lemma_mod_add_multiples_vanish(j - room, room);
    }
}

/// Byte `j` of a chain is on one of its pages.
proof fn lemma_on_page(j: int, room: int, n: int)
    requires
        0 <= j < n * room,
        0 < room,
    ensures
        0 <= j / room < n,
{
    lemma_place(j, room);
    let q = j / room;
    assert(q < n) by (nonlinear_arith)
        requires
            q * room <= j < n * room,
            0 < room,
    ;
}

/// The reader reads what a chain holds.
#[verifier::spinoff_prover]
proof fn lemma_chain_read(image: Image, start: u32, pgno: u32, s: Seq<u8>, run: Seq<int>)
    requires
        image.wf(),
        disk_of(image).chain(pgno as int, s, run),
    ensures
        image.overflow_bytes(start, pgno, s.len() as int) == Ok::<Seq<u8>, Error>(s),
    decreases s.len(),
{
    let d = disk_of(image);
    let room = image.psize - 20;
    if s.len() == 0 {
        assert(s =~= Seq::<u8>::empty());
    } else {
        assert(run.len() > 0) by (nonlinear_arith)
            requires
                0 < s.len() <= run.len() * room,
        ;
        assert(d.link(run, 0));
        law_page(image, pgno);
        lemma_within(image, pgno);
        let raw = raw_page(image, pgno);
        let n = image.chunk(s.len() as int);
        let rest = s.skip(n);
        let next = run.drop_first();
        assert(n == if s.len() < room {
            s.len() as int
        } else {
            room
        });
        let head = raw.overflow_payload().take(n);
        assert forall|j: int| 0 <= j < n implies head[j] == s[j] by {
            lemma_place(j, room);
            assert(s[j] == d.byte(run[j / room], 20 + j % room));
            assert(raw.bytes[20 + j] == d.byte(pgno as int, 20 + j));
        }
        assert(next.len() == run.len() - 1);
        assert((next.len() - 1) * room < rest.len() <= next.len() * room) by (nonlinear_arith)
            requires
                (run.len() - 1) * room < s.len() <= run.len() * room,
                next.len() == run.len() - 1,
                run.len() > 0,
                room > 0,
                rest.len() == s.len() - n,
                n == if s.len() < room {
                    s.len() as int
                } else {
                    room
                },
        ;
        if rest.len() > 0 {
            assert(next.len() > 0) by (nonlinear_arith)
                requires
                    0 < rest.len() <= next.len() * room,
            ;
            assert(d.link(run, 1));
        }
        assert forall|m: int| 0 <= m < next.len() implies #[trigger] d.link(next, m) by {
            assert(d.link(run, m + 1));
        }
        assert forall|j: int| 0 <= j < rest.len() implies #[trigger] rest[j] == d.byte(
            next[j / room],
            20 + j % room,
        ) by {
            lemma_place(j, room);
            lemma_place(j + room, room);
            lemma_on_page(j, room, next.len() as int);
            assert(rest[j] == s[j + n]);
            assert(n == room);
        }
        let after = d.next(pgno as int) as u32;
        assert(raw.next_pg() == after);
        if rest.len() > 0 {
            assert(next[0] == after);
            assert(d.chain(after as int, rest, next));
            lemma_chain_read(image, start, after, rest, next);
        } else {
            assert(rest =~= Seq::<u8>::empty());
        }
        assert(image.overflow_page(start, pgno) == Ok::<RawPage, Error>(raw));
        assert(image.overflow_bytes(start, raw.next_pg(), s.len() - n) == Ok::<Seq<u8>, Error>(
            rest,
        ));
        assert(head + rest =~= s);
    }
}

/// What the reader reads is what a chain holds.
proof fn lemma_read_chain(image: Image, start: u32, pgno: u32, left: int) -> (run: Seq<int>)
    requires
        image.wf(),
        0 <= left,
        image.overflow_bytes(start, pgno, left) is Ok,
    ensures
        image.overflow_bytes(start, pgno, left)->Ok_0.len() == left,
        disk_of(image).chain(
            pgno as int,
            image.overflow_bytes(start, pgno, left)->Ok_0,
            run,
        ),
    decreases left,
{
    let d = disk_of(image);
    let room = image.psize - 20;
    let s = image.overflow_bytes(start, pgno, left)->Ok_0;
    if left == 0 {
        let run = Seq::<int>::empty();
        assert((run.len() - 1) * room < 0) by (nonlinear_arith)
            requires
                run.len() == 0,
                room > 0,
        ;
        run
    } else {
        law_page(image, pgno);
        lemma_within(image, pgno);
        let raw = raw_page(image, pgno);
        let n = image.chunk(left);
        let head = raw.overflow_payload().take(n);
        let rest = image.overflow_bytes(start, raw.next_pg(), left - n)->Ok_0;
        let next = lemma_read_chain(image, start, raw.next_pg(), left - n);
        let run = seq![pgno as int] + next;
        assert(s == head + rest);
        assert(n == if left < room {
            left
        } else {
            room
        });
        assert((run.len() - 1) * room < s.len() <= run.len() * room) by (nonlinear_arith)
            requires
                (next.len() - 1) * room < rest.len() <= next.len() * room,
                run.len() == next.len() + 1,
                rest.len() == left - n,
                s.len() == left,
                left > 0,
                room > 0,
                n == if left < room {
                    left
                } else {
                    room
                },
        ;
        assert forall|m: int| 0 <= m < run.len() implies #[trigger] d.link(run, m) by {
            if m > 0 {
                assert(d.link(next, m - 1));
                assert(run[m] == next[m - 1]);
            } else if run.len() > 1 {
                assert(run[1] == next[0]);
            }
        }
        assert forall|j: int| 0 <= j < s.len() implies #[trigger] s[j] == d.byte(
            run[j / room],
            20 + j % room,
        ) by {
            lemma_place(j, room);
            if j < n {
                assert(raw.bytes[20 + j] == d.byte(pgno as int, 20 + j));
            } else {
                assert(n == room);
                assert(s[j] == rest[j - n]);
                lemma_place(j - n, room);
                lemma_on_page(j - n, room, next.len() as int);
                assert(run[j / room] == next[(j - n) / room]);
            }
        }
        run
    }
}

/// The reader reads from an overflow chain what the chain holds: byte `j` of
/// an item is byte `20 + j % (psize - 20)` of page `j / (psize - 20)` of the
/// chain.  It refuses the chain if there is no such item.
pub proof fn law_overflow(image: Image, start: u32, s: Seq<u8>)
    requires
        image.wf(),
    ensures
        image.overflow_bytes(start, start, s.len() as int) == Ok::<Seq<u8>, Error>(s)
            <==> disk_of(image).chained(start as int, s),
        image.overflow_bytes(start, start, s.len() as int) matches Ok(r) ==> r.len() == s.len()
            && disk_of(image).chained(start as int, r),
{
    if disk_of(image).chained(start as int, s) {
        let run = choose|run: Seq<int>| #[trigger] disk_of(image).chain(start as int, s, run);
        lemma_chain_read(image, start, start, s, run);
    }
    if image.overflow_bytes(start, start, s.len() as int) is Ok {
        let run = lemma_read_chain(image, start, start, s.len() as int);
        assert(disk_of(image).chain(
            start as int,
            image.overflow_bytes(start, start, s.len() as int)->Ok_0,
            run,
        ));
    }
}

/// What the reader makes of an item: a range of the page, or the first page
/// and the length of a chain.
pub open spec fn item_ref(d: Disk, p: int, off: int, len: int, long: bool) -> ItemRef {
    if long {
        ItemRef::Overflow {
            pgno: d.num32(p, off) as u32,
            size: d.num32(p, off + 4) as u32,
        }
    } else {
        ItemRef::Inline { off: off as u32, len: len as u32 }
    }
}

/// The bits of an entry's flags.
proof fn lemma_flags(f: u8)
    ensures
        f & 0x01u8 != 0 <==> f as int % 2 == 1,
        f & 0x02u8 != 0 <==> f as int / 2 % 2 == 1,
{
    assert(f & 0x01u8 != 0 <==> f % 2 == 1) by (bit_vector);
    assert(f & 0x02u8 != 0 <==> f / 2 % 2 == 1) by (bit_vector);
}

/// A leaf entry is read by its two lengths and its flags: bit 1 for the key,
/// bit 0 for the value.  It is refused if it does not lie among the entries,
/// or if a reference to a chain has less than eight bytes.
pub proof fn law_leaf_entry(image: Image, p: u32, i: int)
    requires
        image.wf(),
        image.page(p) is Ok,
        0 <= i < disk_of(image).slots(p as int),
    ensures
        ({
            let d = disk_of(image);
            let off = d.offset(p as int, i);
            let klen = d.num32(p as int, off);
            let vlen = d.num32(p as int, off + 4);
            let flags = d.byte(p as int, off + 8) as int;
            let klong = flags / 2 % 2 == 1;
            let vlong = flags % 2 == 1;
            let fits = d.entry(p as int, i) && off + 9 + klen + vlen <= image.psize && (klong
                ==> klen >= 8) && (vlong ==> vlen >= 8);
            match raw_page(image, p).leaf_entry(i) {
                Ok(e) => {
                    &&& fits
                    &&& e.key == item_ref(d, p as int, off + 9, klen, klong)
                    &&& e.data == item_ref(d, p as int, off + 9 + klen, vlen, vlong)
                },
                Err(e) => !fits && e is CorruptPage && e->CorruptPage_pgno == p,
            }
        }),
{
    let d = disk_of(image);
    let raw = raw_page(image, p);
    law_page(image, p);
    lemma_within(image, p);
    let off = raw.linp(i);
    assert(off == d.offset(p as int, i));
    if d.entry(p as int, i) {
        lemma_flags(raw.bytes[off + 8]);
        assert(bytes::u32_at(raw.bytes, off, raw.endian) as int == d.num32(p as int, off));
        assert(bytes::u32_at(raw.bytes, off + 4, raw.endian) as int == d.num32(p as int, off + 4));
        let klen = d.num32(p as int, off);
        let vlen = d.num32(p as int, off + 4);
        if off + 9 + klen + vlen <= image.psize {
            if klen >= 8 {
                assert(bytes::u32_at(raw.bytes, off + 9, raw.endian) as int == d.num32(
                    p as int,
                    off + 9,
                ));
                assert(bytes::u32_at(raw.bytes, off + 9 + 4, raw.endian) as int == d.num32(
                    p as int,
                    off + 9 + 4,
                ));
            }
            if vlen >= 8 {
                assert(bytes::u32_at(raw.bytes, off + 9 + klen, raw.endian) as int == d.num32(
                    p as int,
                    off + 9 + klen,
                ));
                assert(bytes::u32_at(raw.bytes, off + 9 + klen + 4, raw.endian) as int == d.num32(
                    p as int,
                    off + 9 + klen + 4,
                ));
            }
        }
    }
}

/// An internal entry is read by the length of its separator, its child and
/// bit 1 of its flags.  It is refused as a leaf entry is.
pub proof fn law_internal_entry(image: Image, p: u32, i: int)
    requires
        image.wf(),
        image.page(p) is Ok,
        0 <= i < disk_of(image).slots(p as int),
    ensures
        ({
            let d = disk_of(image);
            let off = d.offset(p as int, i);
            let klen = d.num32(p as int, off);
            let long = d.byte(p as int, off + 8) as int / 2 % 2 == 1;
            let fits = d.entry(p as int, i) && off + 9 + klen <= image.psize && (long ==> klen
                >= 8);
            match raw_page(image, p).internal_entry(i) {
                Ok(e) => {
                    &&& fits
                    &&& e.child == d.num32(p as int, off + 4)
                    &&& e.key == item_ref(d, p as int, off + 9, klen, long)
                },
                Err(e) => !fits && e is CorruptPage && e->CorruptPage_pgno == p,
            }
        }),
{
    let d = disk_of(image);
    let raw = raw_page(image, p);
    law_page(image, p);
    lemma_within(image, p);
    let off = raw.linp(i);
    assert(off == d.offset(p as int, i));
    if d.entry(p as int, i) {
        lemma_flags(raw.bytes[off + 8]);
        assert(bytes::u32_at(raw.bytes, off, raw.endian) as int == d.num32(p as int, off));
        assert(bytes::u32_at(raw.bytes, off + 4, raw.endian) as int == d.num32(p as int, off + 4));
        let klen = d.num32(p as int, off);
        if off + 9 + klen <= image.psize && klen >= 8 {
            assert(bytes::u32_at(raw.bytes, off + 9, raw.endian) as int == d.num32(
                p as int,
                off + 9,
            ));
            assert(bytes::u32_at(raw.bytes, off + 9 + 4, raw.endian) as int == d.num32(
                p as int,
                off + 9 + 4,
            ));
        }
    }
}

/// The reader gets the bytes of an item from where the item is.
pub proof fn law_item(image: Image, p: u32, off: int, len: int, long: bool, s: Seq<u8>)
    requires
        image.wf(),
        image.page(p) is Ok,
        0 <= off,
        0 <= len,
        off + len <= image.psize,
        long ==> len >= 8,
    ensures
        image.item_bytes(
            raw_page(image, p),
            item_ref(disk_of(image), p as int, off, len, long),
        ) == Ok::<Seq<u8>, Error>(s) <==> disk_of(image).item(p as int, off, len, long, s),
{
    let d = disk_of(image);
    let raw = raw_page(image, p);
    law_page(image, p);
    lemma_within(image, p);
    if long {
        let start = bytes::u32_at(raw.bytes, off, raw.endian);
        let size = bytes::u32_at(raw.bytes, off + 4, raw.endian);
        assert(start as int == d.num32(p as int, off));
        assert(size as int == d.num32(p as int, off + 4));
        if image.overflow_bytes(start, start, size as int) is Ok {
            let run = lemma_read_chain(image, start, start, size as int);
        }
        law_overflow(image, start, s);
    } else {
        let base = p * image.psize;
        assert(base >= 0 && (p + 1) * image.psize == base + image.psize) by (nonlinear_arith)
            requires
                base == p * image.psize,
                p >= 0,
                image.psize >= 0,
        ;
        assert(raw.bytes.subrange(off, off + len) =~= image.bytes.subrange(
            base + off,
            base + off + len,
        ));
    }
}

/// A leaf entry is the pair that its bytes are.
proof fn lemma_leaf_cell(image: Image, p: u32, i: int, cell: sound::Cell)
    requires
        image.wf(),
        image.page(p) is Ok,
        0 <= i < disk_of(image).slots(p as int),
    ensures
        sound::leaf_cell(image, raw_page(image, p), i, cell) <==> disk_of(image).leaf_entry(
            p as int,
            i,
            cell.key,
            cell.val,
        ),
{
    let d = disk_of(image);
    let off = d.offset(p as int, i);
    let klen = d.num32(p as int, off);
    let vlen = d.num32(p as int, off + 4);
    let flags = d.byte(p as int, off + 8) as int;
    law_leaf_entry(image, p, i);
    law_page(image, p);
    if raw_page(image, p).leaf_entry(i) is Ok {
        law_item(image, p, off + 9, klen, flags / 2 % 2 == 1, cell.key);
        law_item(image, p, off + 9 + klen, vlen, flags % 2 == 1, cell.val);
    }
}

/// An internal entry is the separator and the child that its bytes are.
proof fn lemma_branch_cell(image: Image, p: u32, i: int, cell: sound::Cell, counts: bool)
    requires
        image.wf(),
        image.page(p) is Ok,
        0 <= i < disk_of(image).slots(p as int),
    ensures
        sound::branch_cell(image, raw_page(image, p), i, cell, counts) <==> disk_of(
            image,
        ).branch_entry(p as int, i, cell.child as int, counts, cell.key),
{
    let d = disk_of(image);
    let off = d.offset(p as int, i);
    let klen = d.num32(p as int, off);
    let long = d.byte(p as int, off + 8) as int / 2 % 2 == 1;
    law_internal_entry(image, p, i);
    law_page(image, p);
    if raw_page(image, p).internal_entry(i) is Ok {
        law_item(image, p, off + 9, klen, long, cell.key);
    }
}

/// What the reader takes a page to hold is what its bytes are.
proof fn lemma_sheet(image: Image, p: u32, sheet: Sheet)
    requires
        image.wf(),
    ensures
        disk_of(image).sheet(p as int, sheet) <==> image.page(p) is Ok && sheet.is_on(
            image,
            image.page(p)->Ok_0,
        ),
{
    let d = disk_of(image);
    law_page(image, p);
    if image.page(p) is Ok && d.slots(p as int) == sheet.cells.len() {
        let raw = raw_page(image, p);
        assert forall|i: int| 0 <= i < sheet.cells.len() implies sound::leaf_cell(
            image,
            raw,
            i,
            #[trigger] sheet.cells[i],
        ) == d.leaf_entry(p as int, i, sheet.cells[i].key, sheet.cells[i].val) by {
            lemma_leaf_cell(image, p, i, sheet.cells[i]);
        }
        assert forall|i: int| 0 <= i < sheet.cells.len() && !sheet.leaf implies sound::branch_cell(
            image,
            raw,
            i,
            #[trigger] sheet.cells[i],
            sheet.counts(i),
        ) == d.branch_entry(
            p as int,
            i,
            sheet.cells[i].child as int,
            i > 0 || !sheet.leftmost,
            sheet.cells[i].key,
        ) by {
            lemma_branch_cell(image, p, i, sheet.cells[i], sheet.counts(i));
        }
    }
}

/// The tree that the bytes hold is the tree that the reader finds sound.
pub proof fn law_sound(image: Image, t: Btree)
    ensures
        disk_of(image).holds(t) <==> t.sound(image),
{
    let d = disk_of(image);
    lemma_orders();
    if image.wf() {
        assert forall|p: u32| #[trigger] t.sheets.contains_key(p) implies (d.sheet(
            p as int,
            t.sheets[p],
        ) && in_place(t, p)) == t.sheet_ok(image, p) by {
            lemma_sheet(image, p, t.sheets[p]);
            lemma_in_place(image, t, p);
        }
        assert forall|i: int| 0 <= i < t.leaves.len() implies #[trigger] in_row(t, i)
            == t.leaf_ok(i) by {}
        if d.holds(t) {
            assert forall|i: int| 0 <= i < t.leaves.len() implies #[trigger] t.leaf_ok(i) by {
                assert(in_row(t, i));
            }
        }
        if t.sound(image) {
            assert forall|i: int| 0 <= i < t.leaves.len() implies #[trigger] in_row(t, i) by {
                assert(t.leaf_ok(i));
            }
        }
    }
}

/// The order of keys, for all keys at once.
proof fn lemma_orders()
    ensures
        forall|a: Seq<u8>, b: Seq<u8>| #[trigger] key::lt(a, b) == before(a, b),
        forall|a: Seq<u8>, b: Seq<u8>| #[trigger] before(a, b) == key::lt(a, b),
{
    assert forall|a: Seq<u8>, b: Seq<u8>| #[trigger] key::lt(a, b) == before(a, b) by {
        law_order(a, b);
    }
    assert forall|a: Seq<u8>, b: Seq<u8>| #[trigger] before(a, b) == key::lt(a, b) by {
        law_order(a, b);
    }
}

proof fn lemma_in_place(image: Image, t: Btree, p: u32)
    ensures
        t.sheet_ok(image, p) <==> {
            &&& image.page(p) is Ok
            &&& t.sheets[p].is_on(image, image.page(p)->Ok_0)
            &&& in_place(t, p)
        },
{
    let sheet = t.sheets[p];
    let span = t.spans[p];
    lemma_orders();
    assert(sheet.leaf ==> ((forall|i: int|
        0 <= i < sheet.cells.len() ==> within(span.lo, span.hi, (#[trigger] sheet.cells[i]).key))
        <==> (forall|i: int|
        0 <= i < sheet.cells.len() ==> span.covers((#[trigger] sheet.cells[i]).key))));
    if !sheet.leaf && span.level > 0 {
        assert forall|s: int| 0 <= s < sheet.cells.len() implies #[trigger] t.child_ok(p, s)
            == child_in_place(t, span, sheet, s, sheet.cells[s].child) by {}
        if forall|s: int| 0 <= s < sheet.cells.len() ==> #[trigger] t.child_ok(p, s) {
            assert forall|s: int| 0 <= s < sheet.cells.len() implies child_in_place(
                t,
                span,
                sheet,
                s,
                #[trigger] sheet.cells[s].child,
            ) by {
                assert(t.child_ok(p, s));
            }
        }
    }
}

/// Looking up a key in a file of the format gives its value, and nothing for
/// a key that the file does not have.
pub proof fn law_get(b: Seq<u8>, psize: int, big: bool, host: Endian, t: Btree, k: Seq<u8>)
    requires
        meta_ok(b, psize, big),
        (Disk { b, psize, big }).holds(t),
    ensures
        image::open_image(b, host) is Ok,
        match image::open_image(b, host)->Ok_0.get(k) {
            Err(_) => false,
            Ok(None) => forall|v: Seq<u8>| !#[trigger] has(t, k, v),
            Ok(Some(v)) => has(t, k, v) && forall|w: Seq<u8>| #[trigger] has(t, k, w) ==> w == v,
        },
{
    law_opens(b, psize, big, host);
    let image = image::open_image(b, host)->Ok_0;
    assert(disk_of(image) == (Disk { b, psize, big }));
    law_sound(image, t);
    sound::law_get(t, image, k);
    sound::law_listing_ascends(t, image);
    let s = t.listing();
    assert forall|v: Seq<u8>| #[trigger] has(t, k, v) == s.contains((k, v)) by {
        lemma_listed(t, image, k, v);
    }
    if let Ok(Some(v)) = image.get(k) {
        assert forall|w: Seq<u8>| #[trigger] has(t, k, w) implies w == v by {
            let i = choose|i: int| 0 <= i < s.len() && s[i] == (k, v);
            let j = choose|j: int| 0 <= j < s.len() && s[j] == (k, w);
            key::lemma_lt_total(k, k);
            assert(i < j ==> key::lt(s[i].0, s[j].0));
            assert(j < i ==> key::lt(s[j].0, s[i].0));
        }
    }
}

/// The listing of a sound tree has the pairs of its leaves.
pub proof fn lemma_listed(t: Btree, image: Image, k: Seq<u8>, v: Seq<u8>)
    requires
        t.sound(image),
    ensures
        has(t, k, v) <==> t.listing().contains((k, v)),
{
    if has(t, k, v) {
        let (p, i) = choose|p: u32, i: int| #[trigger] has_at(t, p, i, k, v);
        assert(t.sheet_ok(image, p));
        let n = choose|n: int| 0 <= n < t.leaves.len() && t.leaves[n] == p;
        sound::lemma_lists(t, 0, n, i);
        assert(t.pairs(n)[i] == (k, v));
    }
    if t.listing().contains((k, v)) {
        let n = choose|n: int| 0 <= n < t.listing().len() && t.listing()[n] == (k, v);
        let (i, j) = sound::lemma_listed(t, 0, n);
        assert(t.leaf_ok(i));
        assert(has_at(t, t.leaves[i], j, k, v));
    }
}

/// A forward scan of a file of the format yields the pairs of `all`, which
/// are the pairs of the file, each once, in the order of their keys; and
/// then nothing.
pub proof fn law_scan(b: Seq<u8>, psize: int, big: bool, host: Endian, t: Btree) -> (all: Seq<Pair>)
    requires
        meta_ok(b, psize, big),
        (Disk { b, psize, big }).holds(t),
    ensures
        image::open_image(b, host) is Ok,
        forall|n: nat| #[trigger]
            image::yielded(image::open_image(b, host)->Ok_0, n) == if n < all.len() {
                Some(Ok::<Pair, Error>(all[n as int]))
            } else {
                None
            },
        forall|i: int, j: int|
            0 <= i < j < all.len() ==> before((#[trigger] all[i]).0, (#[trigger] all[j]).0),
        forall|k: Seq<u8>, v: Seq<u8>| #[trigger] has(t, k, v) <==> all.contains((k, v)),
{
    law_opens(b, psize, big, host);
    let image = image::open_image(b, host)->Ok_0;
    assert(disk_of(image) == (Disk { b, psize, big }));
    law_sound(image, t);
    let all = t.listing();
    sound::law_listing_ascends(t, image);
    lemma_orders();
    assert forall|n: nat| #[trigger] image::yielded(image, n) == if n < all.len() {
        Some(Ok::<Pair, Error>(all[n as int]))
    } else {
        None
    } by {
        sound::law_scan(t, image, n);
    }
    assert forall|k: Seq<u8>, v: Seq<u8>| #[trigger] has(t, k, v) <==> all.contains((k, v)) by {
        lemma_listed(t, image, k, v);
    }
    all
}

/// What is wrong with a meta page that is refused.  The fields are tested in
/// this order: magic number, version, page size, flags, length of the file.
pub proof fn law_refuses(b: Seq<u8>, host: Endian)
    ensures
        ({
            let little = word(b, 0, false) == 0x53162;
            let big = word(b, 0, true) == 0x53162;
            let version = word(b, 4, big);
            let psize = word(b, 8, big);
            let flags = word(b, 20, big);
            match image::open_image(b, host) {
                Ok(image) => meta_ok(b, image.psize, big) && (little || big) && image.bytes == b
                    && (image.endian is Big <==> big),
                Err(Error::ShortFile) => b.len() < 24,
                Err(Error::BadMagic { magic }) => b.len() >= 24 && !little && !big && magic == word(
                    b,
                    0,
                    !(host is Big),
                ),
                Err(Error::BadVersion { version: n }) => {
                    &&& b.len() >= 24 && (little || big)
                    &&& version != 3 && n == version
                },
                Err(Error::BadPageSize { psize: n }) => {
                    &&& b.len() >= 24 && (little || big) && version == 3
                    &&& !(512 <= psize <= 65536 && psize % 2 == 0) && n == psize
                },
                Err(Error::UnsupportedFlags { flags: n }) => {
                    &&& b.len() >= 24 && (little || big) && version == 3
                    &&& 512 <= psize <= 65536 && psize % 2 == 0
                    &&& flags != 0 && flags != 0x20 && n == flags
                },
                Err(Error::UnalignedFileLength { len, psize: n }) => {
                    &&& b.len() >= 24 && (little || big) && version == 3
                    &&& 512 <= psize <= 65536 && psize % 2 == 0
                    &&& flags == 0 || flags == 0x20
                    &&& b.len() as int % psize != 0 && len == b.len() as u64 && n == psize
                },
                _ => false,
            }
        }),
{
    let e = crate::format::file_endian(b, host);
    law_numbers(b, 0, Endian::Little);
    law_numbers(b, 0, Endian::Big);
    law_numbers(b, 4, e);
    law_numbers(b, 8, e);
    law_numbers(b, 20, e);
    if word(b, 0, true) == 0x53162 {
        image::lemma_magic(b, Endian::Big);
    }
    if word(b, 0, false) == 0x53162 {
        image::lemma_magic(b, Endian::Little);
    }
    let f = bytes::u32_at(b, 20, e);
    assert((f & !0xa0u32 != 0 || f & 0x80u32 != 0) <==> (f != 0 && f != 0x20)) by (bit_vector);
}

/// The fields of a meta page.
pub proof fn law_meta_fields(b: Seq<u8>, e: Endian)
    ensures
        crate::format::meta_at(b, e).magic == word(b, 0, e is Big),
        crate::format::meta_at(b, e).version == word(b, 4, e is Big),
        crate::format::meta_at(b, e).psize == word(b, 8, e is Big),
        crate::format::meta_at(b, e).free == word(b, 12, e is Big),
        crate::format::meta_at(b, e).nrecs == word(b, 16, e is Big),
        crate::format::meta_at(b, e).flags == word(b, 20, e is Big),
{
    law_numbers(b, 0, e);
    law_numbers(b, 4, e);
    law_numbers(b, 8, e);
    law_numbers(b, 12, e);
    law_numbers(b, 16, e);
    law_numbers(b, 20, e);
}

/// A chain that ends early, or runs into a page of another kind, is reported
/// with its first page.
pub proof fn law_broken_chain(image: Image, start: u32, pgno: u32, left: int)
    requires
        image.wf(),
        left > 0,
        pgno == 0 || disk_of(image).page(pgno as int) && disk_of(image).kind(pgno as int) != 4,
    ensures
        image.overflow_bytes(start, pgno, left) == Err::<Seq<u8>, Error>(
            Error::CorruptOverflow { pgno: start },
        ),
        forall|k: Seq<u8>|
            #![trigger image.overflow_order(k, start, pgno, left)]
            image.overflow_order(k, start, pgno, left) == Err::<key::Order, Error>(
                Error::CorruptOverflow { pgno: start },
            ),
{
    law_page(image, pgno);
}

/// A key is compared with an overflow chain page by page: where it differs
/// from what the pages of `run` hold, or ends before that does, the rest of
/// the chain does not matter.
pub proof fn law_early_order(
    image: Image,
    k: Seq<u8>,
    start: u32,
    pgno: u32,
    left: int,
    s: Seq<u8>,
    run: Seq<int>,
)
    requires
        image.wf(),
        disk_of(image).chain(pgno as int, s, run),
        s.len() == run.len() * (image.psize - 20),
        s.len() <= left,
        before(k, s) || before(s, k) && !s.is_prefix_of(k),
    ensures
        image.overflow_order(k, start, pgno, left) == Ok::<key::Order, Error>(
            if before(k, s) {
                key::Order::Less
            } else {
                key::Order::Greater
            },
        ),
    decreases run.len(),
{
    let d = disk_of(image);
    let room = image.psize - 20;
    law_order(k, s);
    law_order(s, k);
    key::lemma_lt_total(k, s);
    if run.len() == 0 {
        assert(s =~= Seq::<u8>::empty());
        assert(s.is_prefix_of(k));
        assert(false);
    }
    assert(s.len() >= room) by (nonlinear_arith)
        requires
            s.len() == run.len() * room,
            run.len() > 0,
            room > 0,
    ;
    assert(d.link(run, 0));
    law_page(image, pgno);
    lemma_within(image, pgno);
    let raw = raw_page(image, pgno);
    let head = raw.overflow_payload().take(room);
    let rest = s.skip(room);
    let next = run.drop_first();
    assert forall|j: int| 0 <= j < room implies head[j] == s[j] by {
        lemma_place(j, room);
        assert(s[j] == d.byte(run[j / room], 20 + j % room));
        assert(raw.bytes[20 + j] == d.byte(pgno as int, 20 + j));
    }
    assert(image.chunk(left) == room);
    assert(s =~= head + rest);
    if k.len() < room {
        key::lemma_lex_extend(k, head, rest);
        if s.is_prefix_of(k) {
            assert(s.len() <= k.len());
        }
    } else {
        let mine = k.take(room);
        assert(k =~= mine + k.skip(room));
        key::lemma_lex_sides(mine, head);
        if mine != head {
            key::lemma_lex_concat(mine, k.skip(room), head, rest);
        } else {
            assert(s.take(room) =~= head);
            key::lemma_lex_skip(k, s, room);
            law_order(k.skip(room), rest);
            law_order(rest, k.skip(room));
            if rest.is_prefix_of(k.skip(room)) {
                assert(s.is_prefix_of(k)) by {
                    assert(k.subrange(0, s.len() as int) =~= head + k.skip(room).subrange(
                        0,
                        rest.len() as int,
                    ));
                    assert(s =~= k.subrange(0, s.len() as int));
                }
            }
            assert(rest.len() == next.len() * room) by (nonlinear_arith)
                requires
                    s.len() == run.len() * room,
                    rest.len() == s.len() - room,
                    next.len() == run.len() - 1,
            ;
            assert((next.len() - 1) * room < rest.len()) by (nonlinear_arith)
                requires
                    rest.len() == next.len() * room,
                    room > 0,
            ;
            assert forall|m: int| 0 <= m < next.len() implies #[trigger] d.link(next, m) by {
                assert(d.link(run, m + 1));
            }
            assert forall|j: int| 0 <= j < rest.len() implies #[trigger] rest[j] == d.byte(
                next[j / room],
                20 + j % room,
            ) by {
                lemma_place(j, room);
                lemma_place(j + room, room);
                lemma_on_page(j, room, next.len() as int);
                assert(rest[j] == s[j + room]);
            }
            if next.len() > 0 {
                assert(d.link(run, 1));
                assert(next[0] == raw.next_pg());
            }
            law_early_order(image, k.skip(room), start, raw.next_pg(), left - room, rest, next);
        }
    }
}

/// A file without a root page, or with a root of another kind, is reported
/// by every lookup and scan.
pub proof fn law_no_root(image: Image, k: Seq<u8>)
    requires
        image.wf(),
        !disk_of(image).page(1) || disk_of(image).kind(1) == 4,
    ensures
        image.get(k) is Err,
        2 * image.psize > image.bytes.len() ==> image.get(k) == Err::<Option<Seq<u8>>, Error>(
            Error::PageOutOfBounds { pgno: 1 },
        ) && image::yielded(image, 0) == Some(
            Err::<Pair, Error>(Error::PageOutOfBounds { pgno: 1 }),
        ),
        disk_of(image).page(1) && disk_of(image).slots(1) > 0 || !disk_of(image).page(1)
            ==> image::yielded(image, 0) matches Some(Err(_)),
{
    law_page(image, 1);
}

/// There is no entry past the last one.
pub proof fn law_no_entry(image: Image, p: u32, i: int)
    requires
        image.wf(),
        image.page(p) is Ok,
        i >= disk_of(image).slots(p as int),
    ensures
        raw_page(image, p).leaf_entry(i) matches Err(e) && e is CorruptPage
            && e->CorruptPage_pgno == p,
        raw_page(image, p).internal_entry(i) matches Err(e) && e is CorruptPage
            && e->CorruptPage_pgno == p,
{
    law_page(image, p);
}

/// A range of a page is its bytes, if it lies within the page; a reference
/// to a chain is no range.
pub proof fn law_inline(raw: RawPage, item: ItemRef)
    requires
        raw.bytes.len() <= 65536,
    ensures
        match item {
            ItemRef::Inline { off, len } => if off + len <= raw.bytes.len() {
                raw.inline(item) == Ok::<Seq<u8>, Error>(
                    raw.bytes.subrange(off as int, off + len),
                )
            } else {
                raw.inline(item) matches Err(e) && e is CorruptPage && e->CorruptPage_pgno
                    == raw.pgno
            },
            ItemRef::Overflow { .. } => raw.inline(item) matches Err(e) && e is CorruptPage
                && e->CorruptPage_pgno == raw.pgno,
        },
{
}

/// A descent that runs into a page that cannot be read, or is neither a leaf
/// nor internal, or that does not end, is reported.
pub proof fn law_descent_refuses(image: Image, k: Seq<u8>, p: u32, hops: nat)
    requires
        image.wf(),
    ensures
        image.page(p) matches Err(e) ==> image.search(k, p, hops) == Err::<
            Option<(RawPage, int)>,
            Error,
        >(e) && image.first_leaf(p, hops) == Err::<image::Spot, Error>(e),
        disk_of(image).page(p as int) && disk_of(image).kind(p as int) == 4 ==> (image.search(
            k,
            p,
            hops,
        ) matches Err(e) && e is CorruptPage && e->CorruptPage_pgno == p),
        disk_of(image).page(p as int) && disk_of(image).kind(p as int) == 1 ==> image.search(
            k,
            p,
            0,
        ) is Err,
{
    law_page(image, p);
}

/// A scan follows the links from leaf to leaf past empty ones, and reports a
/// link to a page that cannot be read or is no leaf.
pub proof fn law_next_leaf(image: Image, p: u32, hops: nat)
    requires
        image.wf(),
        p != 0,
    ensures
        image.page(p) matches Err(e) ==> image.next_leaf(p, hops) == Err::<image::Spot, Error>(e),
        disk_of(image).page(p as int) && disk_of(image).kind(p as int) != 2 ==> (image.next_leaf(
            p,
            hops,
        ) matches Err(e) && e is CorruptPage && e->CorruptPage_pgno == p),
        disk_of(image).page(p as int) && disk_of(image).kind(p as int) == 2 && disk_of(image).slots(
            p as int,
        ) > 0 ==> image.next_leaf(p, hops) == Ok::<image::Spot, Error>(
            image::Spot::At { page: raw_page(image, p), index: 0 },
        ),
        disk_of(image).page(p as int) && disk_of(image).kind(p as int) == 2 && disk_of(image).slots(
            p as int,
        ) == 0 && hops > 0 ==> image.next_leaf(p, hops) == image.next_leaf(
            disk_of(image).next(p as int) as u32,
            (hops - 1) as nat,
        ),
        image.next_leaf(0, hops) == Ok::<image::Spot, Error>(image::Spot::End),
{
    law_page(image, p);
}

/// Within a leaf a scan yields entry after entry, whatever comes after the
/// leaf.
pub proof fn law_step(image: Image, p: u32, i: int, k: Seq<u8>, v: Seq<u8>)
    requires
        image.wf(),
        disk_of(image).page(p as int),
        0 <= i,
        i + 1 < disk_of(image).slots(p as int),
        disk_of(image).leaf_entry(p as int, i, k, v),
    ensures
        image.step(image::Spot::At { page: raw_page(image, p), index: i }) == (
            Some(Ok::<Pair, Error>((k, v))),
            image::Spot::At { page: raw_page(image, p), index: i + 1 },
        ),
{
    law_page(image, p);
    lemma_leaf_cell(image, p, i, sound::Cell { key: k, val: v, child: 0 });
}

} // verus!
