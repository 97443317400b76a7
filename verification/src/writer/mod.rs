//! Build a fresh btree file from a sequence of [`Writer::put`] /
//! [`Writer::del`] operations.
//!
//! Pages are staged in an in-memory arena indexed by page number and handed
//! out on finish, meta page first.  Split decisions and prefix compression
//! follow `libnbcompat`'s `bt_split.c`, so output matches a fresh
//! `dbopen(3)` rebuild byte-for-byte in active bytes (page headers,
//! `linp[]`, entry headers + keys + values).  Entry-alignment padding and
//! free-space slack are zero on pages written from scratch, and left as they
//! were on pages changed in place, the root included when it is split.
//! Where such a split would leave one of the two pages without room for its
//! entries, they are packed over as many pages as they need instead, and
//! padding and slack are unspecified.
//!
//! Overflow keys/values are not supported; oversize entries return
//! [`Error::EntryTooLarge`].

pub mod arena;
pub mod climb;
pub mod compact;
pub mod file;
pub mod grow;
pub mod halves;
pub mod layout;
pub mod model;
pub mod pack;
pub mod page_buf;
pub mod plan;
pub mod read_back;
pub mod rules;
pub mod search;
pub mod separator;
pub mod spread;
pub mod tree;

use crate::bytes;
use crate::bytes::{native_endian, Endian};
use crate::disk;
use crate::disk::Disk;
use crate::error::Error;
use crate::format::{
    align_entry, BINTERNAL_HEADER_SIZE, BLEAF_HEADER_SIZE, B_NODUPS, DEFAULT_PSIZE,
    PAGE_HEADER_SIZE, P_BINTERNAL, P_BLEAF, P_INVALID, P_ROOT,
};
use crate::image;
use crate::image::Image;
use crate::key;
use crate::writer::climb::Climb;
use crate::writer::file::build_meta;
use crate::writer::halves::{fill_halves, key_among};
use crate::writer::model::{Item, Page};
use crate::writer::pack::{collect, fill_page, find_cut, fit_in, insert_run, Record};
use crate::writer::page_buf::PageBuf;
use crate::writer::plan::psplit;
use crate::writer::search::{descend_internal_pick, leaf_search};
use crate::writer::separator::encoded_key;
use crate::writer::spread::{Spill, Spread};
use crate::writer::tree::{Place, Tree};
use vstd::prelude::*;
use vstd::slice::slice_to_vec;

verus! {

/// Builder for a new btree file.
///
/// [`Writer::create_new`] initialises the in-memory state with an empty root
/// leaf; [`Writer::finish`] yields that plus the meta page as the bytes of
/// the file.
#[must_use]
pub struct Writer {
    /// In-memory page arena, indexed by page number.  Slot 0 (the meta page)
    /// is built fresh at finish; slot 1 is the root.  Pages are always
    /// allocated in increasing page number order.
    pages: Vec<PageBuf>,
    /// Byte order of the file.
    endian: Endian,
}

/// The active content of the buffers.
spec fn models(bufs: Seq<PageBuf>) -> Seq<Page> {
    Seq::new(bufs.len(), |i: int| bufs[i]@)
}

/// Every buffer but that of the meta page holds a sound page.
spec fn bufs_ok(bufs: Seq<PageBuf>, endian: Endian) -> bool {
    &&& bufs.len() > 0
    &&& bufs[0].bytes.len() == DEFAULT_PSIZE
    &&& forall|i: int|
        1 <= i < bufs.len() ==> (#[trigger] bufs[i]).wf() && bufs[i].endian == endian
}

/// Of the buffers only that of page `p` has been written to, and only where
/// a new entry goes.
spec fn entry_written(a: Seq<PageBuf>, b: Seq<PageBuf>, p: int, item: Item) -> bool {
    &&& b.len() == a.len()
    &&& forall|q: int| 0 <= q < a.len() && q != p ==> #[trigger] b[q] == a[q]
    &&& page_buf::inserted_bytes(a[p].bytes@, b[p].bytes@, a[p]@, item)
}

/// The two buffers hold the same entries, padding and slack.
spec fn same_entries(a: PageBuf, b: PageBuf) -> bool {
    &&& b.bytes@.len() == a.bytes@.len()
    &&& bytes::agree(a.bytes@, b.bytes@, PAGE_HEADER_SIZE as int, DEFAULT_PSIZE as int)
    &&& b@.slots == a@.slots
}

/// The buffer was written from scratch.
spec fn from_scratch(b: PageBuf) -> bool {
    page_buf::kept(page_buf::zeros(), b.bytes@, b@)
}

/// The buffers before and after page `p` got a new right sibling.  Nothing
/// on other pages has changed but the link of the next page; page `p` has
/// been left as it was, but for its link, or written from scratch.
spec fn parted(a: Seq<PageBuf>, b: Seq<PageBuf>, p: int, next: int, whole: bool) -> bool {
    &&& b.len() == a.len() + 1
    &&& from_scratch(b[a.len() as int])
    &&& forall|q: int| 0 <= q < a.len() && q != p && q != next ==> #[trigger] b[q] == a[q]
    &&& forall|q: int| 0 <= q < a.len() && q != p ==> same_entries(a[q], #[trigger] b[q])
    &&& if whole {
        same_entries(a[p], b[p])
    } else {
        from_scratch(b[p])
    }
}

/// The buffers before and after a root split: the root has kept what its new
/// entries do not touch, and there are two new pages.
spec fn root_parted(a: Seq<PageBuf>, b: Seq<PageBuf>) -> bool {
    &&& b.len() == a.len() + 2
    &&& from_scratch(b[a.len() as int])
    &&& from_scratch(b[a.len() as int + 1])
    &&& bytes::agree(a[1].bytes@, b[1].bytes@, 0, 12)
    &&& page_buf::kept(a[1].bytes@, b[1].bytes@, b[1]@)
    &&& forall|q: int| 0 <= q < a.len() && q != 1 ==> #[trigger] b[q] == a[q]
}

/// An empty page that has been filled was written from scratch.
proof fn lemma_from_scratch(empty: PageBuf, b: PageBuf)
    requires
        empty.bytes@.len() == DEFAULT_PSIZE,
        forall|i: int| PAGE_HEADER_SIZE <= i < DEFAULT_PSIZE ==> empty.bytes@[i] == 0,
        page_buf::kept(empty.bytes@, b.bytes@, b@),
    ensures
        from_scratch(b),
{
    assert forall|i: int| 0 <= i < DEFAULT_PSIZE && !page_buf::active(b@, i) implies (
    #[trigger] b.bytes@[i]) == page_buf::zeros()[i] by {
        assert(b.bytes@[i] == empty.bytes@[i]);
    }
}

/// The bytes that padding and slack of page `q` come from.
spec fn ground(a: Seq<PageBuf>, built: Set<int>, q: int) -> Seq<u8> {
    if built.contains(q) {
        page_buf::zeros()
    } else {
        a[q].bytes@
    }
}

/// Padding and slack are zero on the pages of `built`, and as they were on
/// all others.
spec fn all_kept(a: Seq<PageBuf>, b: Seq<PageBuf>, built: Set<int>) -> bool {
    forall|q: int|
        1 <= q < b.len() ==> page_buf::kept(
            ground(a, built, q),
            (#[trigger] b[q]).bytes@,
            b[q]@,
        )
}

/// A page more has been split.
proof fn lemma_all_kept(
    start: Seq<PageBuf>,
    a: Seq<PageBuf>,
    b: Seq<PageBuf>,
    built: Set<int>,
    p: int,
    next: int,
    whole: bool,
)
    requires
        all_kept(start, a, built),
        parted(a, b, p, next, whole),
        1 <= p < a.len(),
    ensures
        all_kept(
            start,
            b,
            if whole {
                built.insert(a.len() as int)
            } else {
                built.insert(p).insert(a.len() as int)
            },
        ),
{
    let more = if whole {
        built.insert(a.len() as int)
    } else {
        built.insert(p).insert(a.len() as int)
    };
    assert forall|q: int| 1 <= q < b.len() implies page_buf::kept(
        ground(start, more, q),
        (#[trigger] b[q]).bytes@,
        b[q]@,
    ) by {
        if q < a.len() && (q != p || whole) {
            let g = ground(start, built, q);
            assert(page_buf::kept(g, a[q].bytes@, a[q]@));
            assert(same_entries(a[q], b[q]));
            page_buf::lemma_kept_relinked(g, a[q].bytes@, b[q].bytes@, a[q]@, b[q]@);
        }
    }
}

/// The last page to change has got an entry.
proof fn lemma_kept_placed(
    start: Seq<PageBuf>,
    a: Seq<PageBuf>,
    b: Seq<PageBuf>,
    built: Set<int>,
    p: int,
    skip: int,
    item: Item,
)
    requires
        all_kept(start, a, built),
        1 <= p < a.len(),
        entry_written(a, b, p, item),
        0 <= skip <= a[p]@.slots.len(),
        b[p]@ == a[p]@.place(skip, item),
    ensures
        all_kept(start, b, built),
{
    assert forall|q: int| 1 <= q < b.len() implies page_buf::kept(
        ground(start, built, q),
        (#[trigger] b[q]).bytes@,
        b[q]@,
    ) by {
        let g = ground(start, built, q);
        assert(page_buf::kept(g, a[q].bytes@, a[q]@));
        if q == p {
            page_buf::lemma_kept_inserted(g, a[p].bytes@, b[p].bytes@, a[p]@, skip, item);
        } else {
            assert(b[q] == a[q]);
        }
    }
}

/// The root has been split.
proof fn lemma_kept_root(
    start: Seq<PageBuf>,
    a: Seq<PageBuf>,
    b: Seq<PageBuf>,
    built: Set<int>,
)
    requires
        all_kept(start, a, built),
        2 <= a.len(),
        a[1] == start[1],
        !built.contains(1),
        root_parted(a, b),
    ensures
        all_kept(start, b, built.union(set![a.len() as int, a.len() as int + 1])),
{
    let more = built.union(set![a.len() as int, a.len() as int + 1]);
    assert forall|q: int| 1 <= q < b.len() implies page_buf::kept(
        ground(start, more, q),
        (#[trigger] b[q]).bytes@,
        b[q]@,
    ) by {
        if 1 < q < a.len() {
            assert(b[q] == a[q]);
        }
    }
}

/// Path from the root to a leaf, as recorded during descent.  Each element
/// is an internal page and the slot descended from; the leaf is named
/// separately.  Pop the path to walk back up the tree when a leaf split has
/// to be propagated through parents.
struct Spine {
    path: Vec<(u32, usize)>,
    leaf_pgno: u32,
}

impl View for Writer {
    type V = Map<Seq<u8>, Seq<u8>>;

    /// The pairs that the file will hold.
    open spec fn view(&self) -> Map<Seq<u8>, Seq<u8>> {
        arena::contents(self.pages())
    }
}

impl Writer {
    /// The active content of every page.
    pub closed spec fn pages(&self) -> Seq<Page> {
        models(self.pages@)
    }

    /// Every byte of page `p`.
    pub closed spec fn page_bytes(&self, p: int) -> Seq<u8> {
        self.pages@[p].bytes@
    }

    /// The bytes that padding and slack of page `q` come from once the pages
    /// of `built` have been written from scratch.
    pub open spec fn ground(&self, built: Set<int>, q: int) -> Seq<u8> {
        if built.contains(q) {
            page_buf::zeros()
        } else {
            self.page_bytes(q)
        }
    }

    /// The bytes of every page but page `p` are the same in `other`.
    pub open spec fn differs_at(&self, other: &Writer, p: int) -> bool {
        &&& other.pages().len() == self.pages().len()
        &&& forall|q: int|
            1 <= q < self.pages().len() && q != p ==> #[trigger] other.page_bytes(q)
                == self.page_bytes(q)
    }

    /// The byte order of the file.
    pub closed spec fn endian(&self) -> Endian {
        self.endian
    }

    /// Every page buffer but that of the meta page holds a sound page.
    pub closed spec fn buffers_ok(&self) -> bool {
        bufs_ok(self.pages@, self.endian)
    }

    /// The pages are sound and form a search tree.
    pub open spec fn wf(&self) -> bool {
        &&& self.buffers_ok()
        &&& arena::valid(self.pages())
    }

    /// Stage an empty btree in the byte order of this machine.
    pub fn create_new() -> (r: Self)
        ensures
            r.wf(),
            bytes::is_native(r.endian()),
            r@ == Map::<Seq<u8>, Seq<u8>>::empty(),
            r.pages().len() == 2,
            r.pages()[1] == Page::empty(P_ROOT, P_BLEAF),
            arena::height(r.pages()) == 0,
            arena::has_room(r.pages()),
            compact::compact(r.pages()),
            forall|i: int| PAGE_HEADER_SIZE <= i < DEFAULT_PSIZE ==> r.page_bytes(1)[i] == 0,
    {
        Self::create_in(native_endian())
    }

    /// Stage an empty btree in the given byte order.
    pub fn create_in(endian: Endian) -> (r: Self)
        ensures
            r.wf(),
            r.endian() == endian,
            r@ == Map::<Seq<u8>, Seq<u8>>::empty(),
            r.pages().len() == 2,
            r.pages()[1] == Page::empty(P_ROOT, P_BLEAF),
            arena::height(r.pages()) == 0,
            arena::has_room(r.pages()),
            compact::compact(r.pages()),
            forall|i: int| PAGE_HEADER_SIZE <= i < DEFAULT_PSIZE ==> r.page_bytes(1)[i] == 0,
    {
        // Slot 0 is reserved for the meta page; slot 1 is the initial empty
        // leaf root.
        let mut pages: Vec<PageBuf> = Vec::new();
        pages.push(PageBuf::blank(endian));
        pages.push(PageBuf::empty_page(P_ROOT, P_BLEAF, endian));
        let r = Writer { pages, endian };
        proof {
            arena::lemma_fresh(r.pages());
            assert(layout::nodes(r.pages())[1].items.len() == 0);
        }
        r
    }

    /// The number of pages, the meta page included.
    pub fn page_count(&self) -> (r: usize)
        ensures
            r == self.pages().len(),
    {
        self.pages.len()
    }

    /// There are page numbers left for every page that one insertion can
    /// add.
    pub fn has_room(&self) -> (r: bool)
        requires
            self.wf(),
        ensures
            r == arena::has_room(self.pages()),
    {
        let empty: Vec<u8> = Vec::new();
        let spine = self.descend(empty.as_slice());
        let h = spine.path.len();
        proof {
            assert(empty@ =~= Seq::<u8>::empty());
            arena::lemma_growth(h as int, 0, 0);
        }
        if h >= 65536 || self.pages.len() > u32::MAX as usize {
            return false;
        }
        let h = h as u64;
        let growth = h * (h + 2) + (h + 3) * (h + 3);
        self.pages.len() as u64 + growth <= u32::MAX as u64
    }

    /// Descend the tree from the root, returning a [`Spine`] that records
    /// every (internal page, slot) hop and the leaf at the bottom.
    fn descend(&self, key: &[u8]) -> (r: Spine)
        requires
            self.wf(),
        ensures
            r.path@ == arena::path_to(self.pages(), key@),
            r.leaf_pgno == arena::leaf_for(self.pages(), key@),
    {
        let ghost pages = self.pages();
        let ghost nodes = layout::nodes(pages);
        let ghost places = choose|places: Seq<Place>| arena::placed(pages, places);
        let ghost t = Tree { nodes, places };
        let mut path: Vec<(u32, usize)> = Vec::new();
        let mut current = P_ROOT;
        assert(t.page_ok(1, None));
        assert(path@ + arena::path_to(pages, key@) =~= arena::path_to(pages, key@));
        loop
            invariant
                self.wf(),
                pages == self.pages(),
                nodes == layout::nodes(pages),
                t == (Tree { nodes, places }),
                t.inv(None),
                1 <= current < pages.len(),
                places[current as int].level + path@.len() == places[1].level,
                arena::path_to(pages, key@) == path@ + arena::descent(
                    nodes,
                    key@,
                    current,
                    (pages.len() - path@.len()) as nat,
                ).0,
                arena::leaf_for(pages, key@) == arena::descent(
                    nodes,
                    key@,
                    current,
                    (pages.len() - path@.len()) as nat,
                ).1,
            decreases places[current as int].level,
        {
            let page = &self.pages[current as usize];
            assert(page@ == pages[current as int]);
            assert(t.page_ok(current as int, None));
            assert(layout::page_ok(pages, current as int));
            let ghost fuel = (pages.len() - path@.len()) as nat;
            if page.is_leaf() {
                assert(path@ + Seq::<(u32, usize)>::empty() =~= path@);
                return Spine { path, leaf_pgno: current };
            }
            assert(page@.items().len() == page@.slots.len());
            let chosen = descend_internal_pick(page, key);
            proof {
                tree::lemma_pick_splits(page@.items(), key@);
                assert(t.child_ok(current as int, chosen as int, None));
            }
            let child = page.word(chosen);
            let ghost before = path@;
            path.push((current, chosen));
            proof {
                let rest = arena::descent(nodes, key@, child, (fuel - 1) as nat).0;
                assert(before + (seq![(current, chosen)] + rest) =~= path@ + rest);
            }
            current = child;
        }
    }

    /// The buffers are sound and hold `pages`.
    spec fn holds(&self, pages: Seq<Page>) -> bool {
        &&& bufs_ok(self.pages@, self.endian)
        &&& self.pages() == pages
    }

    /// Page `p` split in two: the left half stays at `p`, the right half
    /// becomes a new page.
    fn split_page(&mut self, p: u32, skip: usize, key: &[u8], word: u32, val: &[u8])
        requires
            old(self).holds(old(self).pages()),
            layout::pages_ok(old(self).pages()),
            1 <= p < old(self).pages().len(),
            old(self).pages().len() <= u32::MAX,
            skip <= old(self).pages()[p as int].slots.len(),
            (Item { key: key@, word, val: val@ }).fits_kind(old(self).pages()[p as int].flags),
            (Item { key: key@, word, val: val@ }).cost() <= model::usable(),
            old(self).pages()[p as int].slots.len() > 0,
            old(self).pages()[p as int].next != p,
            old(self).pages()[p as int].next < old(self).pages().len(),
            plan::splits(
                old(self).pages()[p as int].items().insert(
                    skip as int,
                    Item { key: key@, word, val: val@ },
                ),
                skip as int,
            ),
        ensures
            final(self).holds(
                layout::split_pages(
                    old(self).pages(),
                    p as int,
                    skip as int,
                    Item { key: key@, word, val: val@ },
                ),
            ),
            final(self).endian == old(self).endian,
            parted(
                old(self).pages@,
                final(self).pages@,
                p as int,
                old(self).pages()[p as int].next as int,
                false,
            ),
    {
        let ghost pages = self.pages();
        let ghost bufs = self.pages@;
        let ghost item = Item { key: key@, word, val: val@ };
        let r_pgno = self.pages.len() as u32;
        let page = &self.pages[p as usize];
        assert(page@ == pages[p as int]);
        assert(layout::page_ok(pages, p as int));
        let next_pg = page.next_pg();
        let flags = page.flags();
        let mut left = PageBuf::empty_page(p, flags, self.endian);
        let mut right = PageBuf::empty_page(r_pgno, flags, self.endian);
        left.set_prev_pg(page.prev_pg());
        left.set_next_pg(r_pgno);
        right.set_prev_pg(p);
        right.set_next_pg(next_pg);
        let ghost empty = (left, right);
        let plan = psplit(page, skip, key, word, val);
        fill_halves(page, &mut left, &mut right, skip, key, word, val, plan);
        proof {
            lemma_from_scratch(empty.0, left);
            lemma_from_scratch(empty.1, right);
        }
        self.pages.set(p as usize, left);
        self.pages.push(right);
        if next_pg != P_INVALID {
            assert(self.pages@[next_pg as int]@ == pages[next_pg as int]);
            self.pages[next_pg as usize].set_prev_pg(r_pgno);
        }
        assert(self.pages() =~= layout::split_pages(pages, p as int, skip as int, item));
        assert(from_scratch(self.pages@[bufs.len() as int]));
    }

    /// The sorted-insert shortcut: the last page of a level gets a new last
    /// entry.  The page keeps all existing entries; a fresh sibling holds
    /// just the new one.
    fn append_page(&mut self, p: u32, key: &[u8], word: u32, val: &[u8])
        requires
            old(self).holds(old(self).pages()),
            layout::pages_ok(old(self).pages()),
            1 <= p < old(self).pages().len(),
            old(self).pages().len() <= u32::MAX,
            (Item { key: key@, word, val: val@ }).fits_kind(old(self).pages()[p as int].flags),
            (Item { key: key@, word, val: val@ }).cost() <= model::usable(),
        ensures
            final(self).holds(
                layout::append_page(
                    old(self).pages(),
                    p as int,
                    Item { key: key@, word, val: val@ },
                ),
            ),
            final(self).endian == old(self).endian,
            parted(
                old(self).pages@,
                final(self).pages@,
                p as int,
                old(self).pages()[p as int].next as int,
                true,
            ),
    {
        let ghost pages = self.pages();
        let ghost bufs = self.pages@;
        let ghost item = Item { key: key@, word, val: val@ };
        let r_pgno = self.pages.len() as u32;
        assert(layout::page_ok(pages, p as int));
        assert(self.pages@[p as int]@ == pages[p as int]);
        let flags = self.pages[p as usize].flags();
        let mut right = PageBuf::empty_page(r_pgno, flags, self.endian);
        right.set_prev_pg(p);
        let ghost empty = right;
        right.insert_entry(0, key, word, val);
        proof {
            page_buf::lemma_kept_inserted(
                empty.bytes@,
                empty.bytes@,
                right.bytes@,
                empty@,
                0,
                item,
            );
            lemma_from_scratch(empty, right);
        }
        self.pages[p as usize].set_next_pg(r_pgno);
        self.pages.push(right);
        assert(self.pages() =~= layout::append_page(pages, p as int, item));
    }

    /// Split the root.  Allocates two fresh pages, distributes the root's
    /// entries between them with the new one among them, and converts the
    /// original root in place into a 2-entry internal page pointing at the
    /// new pages.
    fn split_root(&mut self, skip: usize, key: &[u8], word: u32, val: &[u8])
        requires
            old(self).holds(old(self).pages()),
            layout::pages_ok(old(self).pages()),
            1 < old(self).pages().len(),
            old(self).pages().len() + 1 <= u32::MAX,
            skip <= old(self).pages()[1].slots.len(),
            (Item { key: key@, word, val: val@ }).fits_kind(old(self).pages()[1].flags),
            (Item { key: key@, word, val: val@ }).cost() <= model::usable(),
            layout::can_separate(key@),
            old(self).pages()[1].slots.len() > 0,
            plan::splits(
                old(self).pages()[1].items().insert(
                    skip as int,
                    Item { key: key@, word, val: val@ },
                ),
                skip as int,
            ),
        ensures
            final(self).holds(
                layout::split_root_pages(
                    old(self).pages(),
                    skip as int,
                    Item { key: key@, word, val: val@ },
                ),
            ),
            final(self).endian == old(self).endian,
            root_parted(old(self).pages@, final(self).pages@),
    {
        let ghost pages = self.pages();
        let ghost bufs = self.pages@;
        let ghost item = Item { key: key@, word, val: val@ };
        let l_pgno = self.pages.len() as u32;
        let r_pgno = l_pgno + 1;
        let page = &self.pages[P_ROOT as usize];
        assert(page@ == pages[1]);
        assert(layout::page_ok(pages, 1));
        let flags = page.flags();
        let mut left = PageBuf::empty_page(l_pgno, flags, self.endian);
        let mut right = PageBuf::empty_page(r_pgno, flags, self.endian);
        left.set_next_pg(r_pgno);
        right.set_prev_pg(l_pgno);
        let ghost empty = (left, right);
        let plan = psplit(page, skip, key, word, val);
        fill_halves(page, &mut left, &mut right, skip, key, word, val, plan);
        proof {
            lemma_from_scratch(empty.0, left);
            lemma_from_scratch(empty.1, right);
            layout::lemma_root_room(pages, skip as int, item);
        }
        let r_first_key = slice_to_vec(right.key(0));
        self.convert_root_to_internal(l_pgno, r_pgno, r_first_key.as_slice());
        self.pages.push(left);
        self.pages.push(right);
        assert(self.pages() =~= layout::split_root_pages(pages, skip as int, item));
    }

    /// Convert the root page into a 2-entry internal page pointing at
    /// `l_pgno` (zero-key separator at `linp[0]`, matching the
    /// leftmost-spine convention) and `r_pgno` (key = `r_first_key` at
    /// `linp[1]`).  The change is made in place: only the header fields,
    /// `linp[0..2]`, and the two new internal entries at the page tail are
    /// touched.
    fn convert_root_to_internal(&mut self, l_pgno: u32, r_pgno: u32, r_first_key: &[u8])
        requires
            old(self).holds(old(self).pages()),
            1 < old(self).pages().len(),
            layout::can_separate(r_first_key@),
        ensures
            final(self).holds(
                old(self).pages().update(
                    1,
                    layout::new_root(
                        old(self).pages()[1],
                        l_pgno as int,
                        r_pgno as int,
                        r_first_key@,
                    ),
                ),
            ),
            final(self).endian == old(self).endian,
            bytes::agree(old(self).page_bytes(1), final(self).page_bytes(1), 0, 12),
            bytes::agree(
                old(self).page_bytes(1),
                final(self).page_bytes(1),
                PAGE_HEADER_SIZE + 4,
                final(self).pages()[1].upper,
            ),
            page_buf::kept(
                old(self).page_bytes(1),
                final(self).page_bytes(1),
                final(self).pages()[1],
            ),
            forall|q: int|
                0 <= q < old(self).pages@.len() && q != 1 ==> #[trigger] final(self).pages@[q]
                    == old(self).pages@[q],
    {
        let ghost pages = self.pages();
        let ghost bufs = self.pages@;
        assert(self.pages@[1]@ == pages[1]);
        let empty: Vec<u8> = Vec::new();
        assert(empty@ =~= Seq::<u8>::empty());
        proof {
            layout::lemma_new_root(pages[1], l_pgno as int, r_pgno as int, r_first_key@);
        }
        self.pages[P_ROOT as usize].reset(P_BINTERNAL);
        let ghost b0 = self.pages@[1];
        self.pages[P_ROOT as usize].insert_entry(0, empty.as_slice(), l_pgno, empty.as_slice());
        let ghost b1 = self.pages@[1];
        self.pages[P_ROOT as usize].insert_entry(1, r_first_key, r_pgno, empty.as_slice());
        let ghost b2 = self.pages@[1];
        proof {
            let old_bytes = bufs[1].bytes@;
            let zero = layout::branch(Seq::empty(), l_pgno as int);
            let sep = layout::branch(r_first_key@, r_pgno as int);
            page_buf::lemma_kept_inserted(old_bytes, b0.bytes@, b1.bytes@, b0@, 0, zero);
            page_buf::lemma_kept_inserted(old_bytes, b1.bytes@, b2.bytes@, b1@, 1, sep);
            page_buf::law_kept_slack(old_bytes, b2.bytes@, b2@);
        }
        assert(self.pages() =~= pages.update(
            1,
            layout::new_root(pages[1], l_pgno as int, r_pgno as int, r_first_key@),
        ));
    }

    /// The split that puts a new entry for `key` at `skip` of page `p`, or
    /// `None` if the two pages would not have room for their entries.
    /// Returns the number of entries that stay left.
    fn cut_point(&self, p: u32, skip: usize, key: &[u8], word: u32, val: &[u8], root: bool) -> (r:
        Option<usize>)
        requires
            self.holds(self.pages()),
            1 <= p < self.pages().len(),
            skip <= self.pages()[p as int].slots.len(),
            self.pages()[p as int].slots.len() > 0,
            (Item { key: key@, word, val: val@ }).cost() <= model::usable(),
        ensures
            ({
                let page = self.pages()[p as int];
                let item = Item { key: key@, word, val: val@ };
                let splittable = (!root && layout::appends(page, skip as int)) || plan::splits(
                    page.items().insert(skip as int, item),
                    skip as int,
                );
                &&& r is Some <==> splittable
                &&& r matches Some(m) ==> !root ==> m == layout::cut_point(page, skip as int, item)
            }),
    {
        let page = &self.pages[p as usize];
        assert(page@ == self.pages()[p as int]);
        if !root && page.is_rightmost() && skip == page.nentries() {
            return Some(skip);
        }
        let plan = psplit(page, skip, key, word, val);
        if plan.fits {
            Some(plan.left_slots)
        } else {
            None
        }
    }

    /// Every split that a new entry at slot `idx` of leaf `leaf` brings
    /// leaves both pages with room for their entries.
    fn admits(
        &self,
        path: &Vec<(u32, usize)>,
        leaf: u32,
        idx: usize,
        key: &[u8],
        val: &[u8],
        Ghost(start): Ghost<Climb>,
    ) -> (r: bool)
        requires
            self.holds(start.pages),
            start.ready(),
            start.path == path@,
            start.p == leaf,
            start.skip == idx,
            start.item == arena::pair(key@, val@),
        ensures
            r == start.admitted(),
    {
        let ghost pages = self.pages();
        let ghost mut c = start;
        let mut depth: usize = path.len();
        let mut p = leaf;
        let mut skip = idx;
        let mut k = slice_to_vec(key);
        let mut w = val.len() as u32;
        let mut v = slice_to_vec(val);
        let mut fresh = self.pages.len() as u32;
        proof {
            climb::lemma_ready(start);
            assert(path@.take(depth as int) =~= path@);
        }
        loop
            invariant
                self.holds(pages),
                pages == start.pages,
                c.ready(),
                c.pages.len() == fresh,
                c.path == path@.take(depth as int),
                depth <= path@.len(),
                c.p == p,
                c.skip == skip,
                c.item == (Item { key: k@, word: w, val: v@ }),
                p < pages.len(),
                c.page() == pages[p as int],
                forall|i: int|
                    0 <= i < depth ==> c.pages[(#[trigger] path@[i]).0 as int]
                        == pages[path@[i].0 as int],
                forall|i: int|
                    0 <= i < path@.len() ==> 1 <= (#[trigger] path@[i]).0 < pages.len()
                        && path@[i].1 < usize::MAX,
                c.admitted() == start.admitted(),
            decreases depth,
        {
            proof {
                model::lemma_item_size(c.item);
                climb::lemma_ready(c);
            }
            let page = &self.pages[p as usize];
            assert(page@ == pages[p as int]);
            let need = align_entry(BLEAF_HEADER_SIZE + k.len() + v.len()) + 2;
            if page.free_space() >= need {
                return true;
            }
            let cut = self.cut_point(p, skip, k.as_slice(), w, v.as_slice(), depth == 0);
            let m = match cut {
                None => {
                    return false;
                },
                Some(m) => m,
            };
            if depth == 0 {
                return true;
            }
            depth = depth - 1;
            let (parent, slot) = path[depth];
            let ghost d = c.up();
            proof {
                climb::lemma_step(c);
                climb::lemma_ready(d);
                assert(c.path.last() == path@[depth as int]);
                assert(d.path =~= path@.take(depth as int));
                assert forall|i: int| 0 <= i <= depth implies d.pages[(
                #[trigger] path@[i]).0 as int] == pages[path@[i].0 as int] by {
                    assert(c.path[i] == path@[i]);
                }
            }
            let parent_prev = self.pages[parent as usize].prev_pg();
            let sep = {
                let last = key_among(page, skip, k.as_slice(), m - 1);
                let first = key_among(page, skip, k.as_slice(), m);
                proof {
                    assert(page@.items().insert(skip as int, c.item) == c.all());
                }
                encoded_key(page.is_leaf(), last, first, parent_prev, slot + 1)
            };
            k = sep;
            w = fresh;
            v = Vec::new();
            assert(v@ =~= Seq::<u8>::empty());
            fresh = fresh + 1;
            p = parent;
            skip = slot + 1;
            proof {
                c = d;
            }
        }
    }

    /// Insert an entry into slot `idx` of leaf `leaf`.  Where a page has no
    /// room it is split, and its parent on the path gets an entry for the
    /// new page in the same way, splitting it as needed.
    #[verifier::spinoff_prover]
    #[verifier::rlimit(40)]
    fn propagate(
        &mut self,
        mut path: Vec<(u32, usize)>,
        leaf: u32,
        idx: usize,
        key: &[u8],
        val: &[u8],
        Ghost(start): Ghost<Climb>,
    )
        requires
            old(self).holds(start.pages),
            start.ready(),
            start.admitted(),
            start.path == path@,
            start.p == leaf,
            start.skip == idx,
            start.item == arena::pair(key@, val@),
        ensures
            final(self).holds(start.grown()),
            final(self).endian == old(self).endian,
            start.has_room() ==> entry_written(
                old(self).pages@,
                final(self).pages@,
                start.p,
                start.item,
            ),
            all_kept(old(self).pages@, final(self).pages@, start.built()),
    {
        let ghost mut c = start;
        let ghost mut done: Set<int> = Set::empty();
        let ghost bufs = self.pages@;
        let mut p = leaf;
        let mut skip = idx;
        let mut k = slice_to_vec(key);
        let mut w = val.len() as u32;
        let mut v = slice_to_vec(val);
        proof {
            climb::lemma_ready(start);
            assert(done.union(start.built()) =~= start.built());
        }
        loop
            invariant
                self.holds(c.pages),
                self.endian == old(self).endian,
                c.ready(),
                c.admitted(),
                c.grown() == start.grown(),
                start.has_room() ==> c == start && self.pages@ == old(self).pages@,
                bufs == old(self).pages@,
                bufs.len() <= self.pages@.len(),
                all_kept(bufs, self.pages@, done),
                start.built() == done.union(c.built()),
                1 <= c.p < bufs.len(),
                !done.contains(c.p),
                self.pages@[c.p] == bufs[c.p],
                forall|i: int|
                    0 <= i < path@.len() ==> 1 <= (#[trigger] path@[i]).0 < bufs.len()
                        && !done.contains(path@[i].0 as int) && self.pages@[path@[i].0 as int]
                        == bufs[path@[i].0 as int],
                c.path == path@,
                c.p == p,
                c.skip == skip,
                c.item == (Item { key: k@, word: w, val: v@ }),
            decreases path@.len(),
        {
            let ghost pages = self.pages();
            proof {
                model::lemma_item_size(c.item);
                climb::lemma_ready(c);
            }
            let page = &self.pages[p as usize];
            assert(page@ == pages[p as int]);
            let need = align_entry(BLEAF_HEADER_SIZE + k.len() + v.len()) + 2;
            if page.free_space() >= need {
                let ghost at = self.pages@;
                self.pages[p as usize].insert_entry(skip, k.as_slice(), w, v.as_slice());
                assert(self.pages() =~= c.grown());
                proof {
                    assert(done.union(c.built()) =~= done);
                    lemma_kept_placed(bufs, at, self.pages@, done, c.p, c.skip, c.item);
                }
                return;
            }
            if p == P_ROOT {
                proof {
                    climb::lemma_at_root(c);
                }
                let ghost at = self.pages@;
                self.split_root(skip, k.as_slice(), w, v.as_slice());
                proof {
                    lemma_kept_root(bufs, at, self.pages@, done);
                }
                return;
            }
            let ghost before = path@;
            let (parent, slot) = match path.pop() {
                Some(hop) => hop,
                None => {
                    assert(false);
                    return;
                },
            };
            let ghost d = c.up();
            proof {
                climb::lemma_step(c);
                climb::lemma_ready(d);
                assert(c.path[before.len() - 1] == (parent, slot));
                assert(d.path =~= path@);
            }
            let ghost at = self.pages@;
            let r_pgno = self.pages.len() as u32;
            let parent_prev = self.pages[parent as usize].prev_pg();
            assert(self.pages@[parent as int]@ == pages[parent as int]);
            let sorted_append = page.is_rightmost() && skip == page.nentries();
            let m = if sorted_append {
                skip
            } else {
                psplit(page, skip, k.as_slice(), w, v.as_slice()).left_slots
            };
            let sep = {
                let last = key_among(page, skip, k.as_slice(), m - 1);
                let first = key_among(page, skip, k.as_slice(), m);
                proof {
                    assert(page@.items().insert(skip as int, c.item) == c.all());
                }
                encoded_key(page.is_leaf(), last, first, parent_prev, slot + 1)
            };
            if sorted_append {
                self.append_page(p, k.as_slice(), w, v.as_slice());
            } else {
                self.split_page(p, skip, k.as_slice(), w, v.as_slice());
            }
            proof {
                let next = c.page().next as int;
                lemma_all_kept(bufs, at, self.pages@, done, c.p, next, sorted_append);
                let more = if sorted_append {
                    done.insert(at.len() as int)
                } else {
                    done.insert(c.p).insert(at.len() as int)
                };
                assert(more.union(d.built()) =~= done.union(c.built()));
                assert forall|i: int| 0 <= i < before.len() implies 1 <= (
                #[trigger] before[i]).0 < bufs.len() && !more.contains(before[i].0 as int)
                    && self.pages@[before[i].0 as int] == bufs[before[i].0 as int] by {
                    climb::lemma_sibling_apart(c, i);
                }
                assert forall|i: int| 0 <= i < path@.len() implies 1 <= (
                #[trigger] path@[i]).0 < bufs.len() && !more.contains(path@[i].0 as int)
                    && self.pages@[path@[i].0 as int] == bufs[path@[i].0 as int] by {
                    assert(path@[i] == before[i]);
                }
                assert(before[before.len() - 1] == (parent, slot));
                done = more;
            }
            k = sep;
            w = r_pgno;
            v = Vec::new();
            assert(v@ =~= Seq::<u8>::empty());
            p = parent;
            skip = slot + 1;
            proof {
                c = d;
            }
        }
    }

    /// Fill page `q` anew with records `from..to`, and put a new empty page
    /// right of it.
    fn shed_page(&mut self, q: u32, all: &Vec<Record>, from: usize, to: usize)
        requires
            old(self).holds(old(self).pages()),
            layout::pages_ok(old(self).pages()),
            1 <= q < old(self).pages().len(),
            old(self).pages().len() <= u32::MAX,
            old(self).pages()[q as int].next != q,
            old(self).pages()[q as int].next < old(self).pages().len(),
            from <= to <= all@.len(),
            spread::entries_ok(pack::items(all@), old(self).pages()[q as int].flags),
            model::load(pack::items(all@).subrange(from as int, to as int)) <= model::usable(),
        ensures
            final(self).holds(
                spread::shed_pages(
                    old(self).pages(),
                    q as int,
                    pack::items(all@).subrange(from as int, to as int),
                ),
            ),
            final(self).endian == old(self).endian,
    {
        let ghost pages = self.pages();
        let ghost items = pack::items(all@).subrange(from as int, to as int);
        let r_pgno = self.pages.len() as u32;
        let page = &self.pages[q as usize];
        assert(page@ == pages[q as int]);
        assert(layout::page_ok(pages, q as int));
        let next_pg = page.next_pg();
        let flags = page.flags();
        let mut left = PageBuf::empty_page(q, flags, self.endian);
        let mut right = PageBuf::empty_page(r_pgno, flags, self.endian);
        left.set_prev_pg(page.prev_pg());
        left.set_next_pg(r_pgno);
        right.set_prev_pg(q);
        right.set_next_pg(next_pg);
        fill_page(&mut left, all, from, to);
        self.pages.set(q as usize, left);
        self.pages.push(right);
        if next_pg != P_INVALID {
            self.pages[next_pg as usize].set_prev_pg(r_pgno);
        }
        assert(self.pages() =~= spread::shed_pages(pages, q as int, items));
    }

    /// Fill page `q` anew with the records from `from` on.
    fn settle_page(&mut self, q: u32, all: &Vec<Record>, from: usize)
        requires
            old(self).holds(old(self).pages()),
            layout::pages_ok(old(self).pages()),
            1 <= q < old(self).pages().len(),
            from <= all@.len(),
            spread::entries_ok(pack::items(all@), old(self).pages()[q as int].flags),
            model::load(pack::items(all@).skip(from as int)) <= model::usable(),
        ensures
            final(self).holds(
                spread::settle_pages(
                    old(self).pages(),
                    q as int,
                    pack::items(all@).skip(from as int),
                ),
            ),
            final(self).endian == old(self).endian,
    {
        let ghost pages = self.pages();
        let ghost items = pack::items(all@).skip(from as int);
        assert(items =~= pack::items(all@).subrange(from as int, all@.len() as int));
        let page = &self.pages[q as usize];
        assert(page@ == pages[q as int]);
        assert(layout::page_ok(pages, q as int));
        let mut fresh = PageBuf::empty_page(q, page.flags(), self.endian);
        fresh.set_prev_pg(page.prev_pg());
        fresh.set_next_pg(page.next_pg());
        fill_page(&mut fresh, all, from, all.len());
        self.pages.set(q as usize, fresh);
        assert(self.pages() =~= spread::settle_pages(pages, q as int, items));
    }

    /// Make the root an internal page with one entry, for a new page with
    /// the records up to `to`, and put a new empty page right of that.
    fn raise_root(&mut self, all: &Vec<Record>, to: usize)
        requires
            old(self).holds(old(self).pages()),
            layout::pages_ok(old(self).pages()),
            1 < old(self).pages().len(),
            old(self).pages().len() + 1 <= u32::MAX,
            to <= all@.len(),
            spread::entries_ok(pack::items(all@), old(self).pages()[1].flags),
            model::load(pack::items(all@).take(to as int)) <= model::usable(),
        ensures
            final(self).holds(
                spread::raise_pages(old(self).pages(), pack::items(all@).take(to as int)),
            ),
            final(self).endian == old(self).endian,
    {
        let ghost pages = self.pages();
        let ghost items = pack::items(all@).take(to as int);
        assert(items =~= pack::items(all@).subrange(0, to as int));
        let l_pgno = self.pages.len() as u32;
        let r_pgno = l_pgno + 1;
        assert(self.pages@[1]@ == pages[1]);
        assert(layout::page_ok(pages, 1));
        let flags = self.pages[P_ROOT as usize].flags();
        let mut left = PageBuf::empty_page(l_pgno, flags, self.endian);
        let mut right = PageBuf::empty_page(r_pgno, flags, self.endian);
        left.set_next_pg(r_pgno);
        right.set_prev_pg(l_pgno);
        fill_page(&mut left, all, 0, to);
        let empty: Vec<u8> = Vec::new();
        assert(empty@ =~= Seq::<u8>::empty());
        proof {
            model::lemma_item_size(layout::branch(Seq::empty(), l_pgno as int));
        }
        self.pages[P_ROOT as usize].reset(P_BINTERNAL);
        self.pages[P_ROOT as usize].insert_entry(0, empty.as_slice(), l_pgno, empty.as_slice());
        self.pages.push(left);
        self.pages.push(right);
        assert(self.pages() =~= spread::raise_pages(pages, items));
    }

    /// Pack the records from `start` on over page `first` and new pages
    /// right of it.  Returns what the parent is to get after its slot
    /// `slot`: `above`, and an entry for each new page.
    fn pack_rest(
        &mut self,
        first: u32,
        all: &Vec<Record>,
        start: usize,
        parent: u32,
        slot: usize,
        above: Vec<Record>,
        Ghost(begun): Ghost<Spill>,
    ) -> (r: (Vec<Record>, Ghost<Spread>))
        requires
            old(self).holds(begun.pages),
            begun.ready(),
            begun.q == first,
            begun.parent == parent,
            begun.slot == slot,
            begun.run == pack::items(above@),
            start < all@.len(),
            begun.rest == pack::items(all@).skip(start as int),
            spread::entries_ok(pack::items(all@), begun.pages[first as int].flags),
            begun.pages.len() + pack::pieces(pack::items(all@), start as int) <= u32::MAX + 1,
            above@.len() + pack::pieces(pack::items(all@), start as int) >= 2,
        ensures
            final(self).holds(r.1@.pages),
            final(self).endian == old(self).endian,
            r.1@.ready(),
            r.1@.path == begun.path,
            r.1@.p == parent,
            r.1@.skip == slot + 1,
            r.1@.run == pack::items(r.0@),
            r.1@.page() == begun.pages[parent as int],
            r.1@.pages.len() == begun.pages.len() + pack::pieces(
                pack::items(all@),
                start as int,
            ) - 1,
            r.0@.len() == above@.len() + pack::pieces(pack::items(all@), start as int) - 1,
            !begun.pages[first as int].is_leaf() ==> layout::leaves_kept(
                begun.pages,
                r.1@.pages,
            ),
            forall|k: Seq<u8>, v: Seq<u8>| #[trigger]
                tree::has(r.1@.tree().nodes, k, v) <==> tree::has(begun.tree().nodes, k, v),
    {
        let ghost its = pack::items(all@);
        let ghost mut d = begun;
        let mut q = first;
        let mut from = start;
        let mut run = above;
        proof {
            assert(pack::each_fits(its));
            spread::lemma_spill_ready(d);
        }
        let leaf = self.pages[q as usize].is_leaf();
        let parent_prev = self.pages[parent as usize].prev_pg();
        loop
            invariant
                self.holds(d.pages),
                self.endian == old(self).endian,
                its == pack::items(all@),
                pack::each_fits(its),
                d.ready(),
                d.path == begun.path,
                d.q == q,
                d.parent == parent,
                d.slot == slot,
                d.run == pack::items(run@),
                from < all@.len(),
                d.rest == its.skip(from as int),
                spread::entries_ok(its, d.pages[q as int].flags),
                leaf == d.pages[q as int].is_leaf(),
                d.pages[parent as int] == begun.pages[parent as int],
                leaf == begun.pages[first as int].is_leaf(),
                1 <= begun.pages.len(),
                !leaf ==> layout::leaves_kept(begun.pages, d.pages),
                d.pages.len() + pack::pieces(its, from as int) == begun.pages.len() + pack::pieces(
                    its,
                    start as int,
                ),
                run@.len() + pack::pieces(its, from as int) == above@.len() + pack::pieces(
                    its,
                    start as int,
                ),
                begun.pages.len() + pack::pieces(its, start as int) <= u32::MAX + 1,
                above@.len() + pack::pieces(its, start as int) >= 2,
                forall|k: Seq<u8>, v: Seq<u8>| #[trigger]
                    tree::has(d.tree().nodes, k, v) <==> tree::has(begun.tree().nodes, k, v),
            decreases all@.len() - from,
        {
            proof {
                spread::lemma_spill_ready(d);
                pack::lemma_two_pieces(its, from as int);
            }
            let to = find_cut(all, from);
            if to == all.len() {
                proof {
                    spread::lemma_settle(d);
                    if !leaf {
                        spread::lemma_packed_leaves(d, d.rest);
                        climb::lemma_leaves_transitive(begun.pages, d.pages, d.settle().pages);
                    }
                }
                self.settle_page(q, all, from);
                return (run, Ghost(d.settle()));
            }
            let ghost m = to - from;
            proof {
                assert(d.rest[m - 1] == its[to - 1]);
                assert(d.rest[m] == its[to as int]);
                assert(d.rest.take(m) =~= its.subrange(from as int, to as int));
                assert(d.rest.skip(m) =~= its.skip(to as int));
                assert(all@[to - 1]@ == its[to - 1] && all@[to as int]@ == its[to as int]);
                assert(layout::can_separate(its[to - 1].key));
                assert(layout::can_separate(its[to as int].key));
                assert(key::lt(d.rest[m - 1].key, d.rest[m].key));
            }
            let position: usize = if slot == 0 && run.len() == 0 {
                1
            } else {
                2
            };
            let sep = encoded_key(
                leaf,
                all[to - 1].key.as_slice(),
                all[to].key.as_slice(),
                parent_prev,
                position,
            );
            let r_pgno = self.pages.len() as u32;
            let ghost f = d.shed(m, sep@);
            proof {
                separator::lemma_separator_key(
                    leaf,
                    its[to - 1].key,
                    its[to as int].key,
                    parent_prev,
                    position as int,
                );
                spread::lemma_shed(d, m, sep@);
                pack::lemma_two_pieces(its, to as int);
                if !leaf {
                    spread::lemma_packed_leaves(d, d.rest.take(m));
                    climb::lemma_leaves_transitive(begun.pages, d.pages, f.pages);
                }
            }
            self.shed_page(q, all, from, to);
            let ghost before = run@;
            let entry = Record { key: sep, word: r_pgno, val: Vec::new() };
            assert(entry.val@ =~= Seq::<u8>::empty());
            run.push(entry);
            assert(pack::items(run@) =~= pack::items(before).push(entry@));
            q = r_pgno;
            from = to;
            proof {
                d = f;
            }
        }
    }

    /// Insert `entry` into slot `idx` of page `first` where byte-balanced
    /// splits would leave a page without room.  Where a page has no room its
    /// entries are packed over new pages right of it, and its parent on the
    /// path gets an entry for each of them in the same way.
    #[verifier::spinoff_prover]
    #[verifier::rlimit(60)]
    fn spread(
        &mut self,
        mut path: Vec<(u32, usize)>,
        first: u32,
        idx: usize,
        entry: Record,
        Ghost(start): Ghost<Spread>,
    )
        requires
            old(self).holds(start.pages),
            start.ready(),
            start.path == path@,
            start.p == first,
            start.skip == idx,
            start.run == seq![entry@],
            start.pages.len() + arena::growth(path@.len() as int) <= u32::MAX,
        ensures
            bufs_ok(final(self).pages@, final(self).endian),
            final(self).endian == old(self).endian,
            layout::pages_ok(final(self).pages()),
            exists|places: Seq<Place>| #[trigger] arena::placed(final(self).pages(), places),
            start.pages.len() <= final(self).pages().len() <= start.pages.len() + arena::growth(
                start.path.len() as int,
            ),
            forall|k: Seq<u8>, v: Seq<u8>| #[trigger]
                tree::has(layout::nodes(final(self).pages()), k, v) <==> tree::has(
                    start.tree().nodes,
                    k,
                    v,
                ),
            !start.page().is_leaf() ==> layout::leaves_kept(start.pages, final(self).pages()),
    {
        let ghost most = path@.len() + 1;
        let ghost limit = start.pages.len() + arena::growth(path@.len() as int);
        let ghost mut s = start;
        // the root has been emptied but for one entry
        let ghost mut fresh = false;
        let mut p = first;
        let mut skip = idx;
        let ghost record = entry@;
        let mut run: Vec<Record> = Vec::new();
        run.push(entry);
        proof {
            spread::lemma_ready(s);
            assert(pack::items(run@) =~= seq![record]);
            arena::lemma_growth(path@.len() as int, 0, 0);
        }
        loop
            invariant
                self.holds(s.pages),
                self.endian == old(self).endian,
                s.ready(),
                s.path == path@,
                s.p == p,
                s.skip == skip,
                s.run == pack::items(run@),
                start.pages.len() <= s.pages.len(),
                limit <= u32::MAX,
                limit == start.pages.len() + arena::growth(start.path.len() as int),
                !fresh ==> run@.len() + path@.len() <= most,
                !fresh ==> s.pages.len() + path@.len() * (most + 1) + (most + 2) * (most + 2)
                    <= limit,
                fresh ==> path@.len() == 0 && skip == 1 && s.page().slots.len() == 1
                    && !s.page().is_leaf(),
                fresh ==> s.pages.len() + run@.len() * run@.len() <= limit,
                1 <= start.pages.len(),
                !start.page().is_leaf() ==> !s.page().is_leaf() && layout::leaves_kept(
                    start.pages,
                    s.pages,
                ),
                forall|k: Seq<u8>, v: Seq<u8>| #[trigger]
                    tree::has(s.tree().nodes, k, v) <==> tree::has(start.tree().nodes, k, v),
            decreases
                path@.len(),
                (if fresh {
                    0int
                } else {
                    1
                }),
                run@.len(),
        {
            let ghost pages = s.pages;
            let ghost its = s.all();
            proof {
                spread::lemma_ready(s);
                assert(pack::each_fits(s.run));
                assert(pack::each_fits(its));
            }
            let page = &self.pages[p as usize];
            assert(page@ == pages[p as int]);
            if fit_in(&run, page.free_space()) {
                insert_run(&mut self.pages[p as usize], skip, &run);
                proof {
                    spread::lemma_placed(s, self.pages());
                    assert(arena::placed(self.pages(), s.places));
                    assert(0 <= path@.len() * (most + 1) && 0 <= (most + 2) * (most + 2) && 0
                        <= run@.len() * run@.len()) by (nonlinear_arith);
                    if !start.page().is_leaf() {
                        assert(layout::leaves_kept(s.pages, self.pages()));
                        climb::lemma_leaves_transitive(start.pages, s.pages, self.pages());
                    }
                }
                return;
            }
            let all = collect(page, skip, &run);
            proof {
                spread::lemma_full(s);
                pack::lemma_two_pieces(its, 0);
                pack::lemma_spliced_pieces(s.page().items(), skip as int, s.run);
                assert(its.skip(0) =~= its);
                if fresh {
                    spread::lemma_fresh_pieces(s);
                }
                arena::lemma_growth(path@.len() as int, most as int, pack::pieces(its, 0) - 1);
                arena::lemma_growth(0, run@.len() as int, pack::pieces(its, 0) - 1);
                assert(0 <= (path@.len() - 1) * (most + 1) || path@.len() == 0) by (nonlinear_arith)
                    requires
                        most >= 0,
                ;
                assert(0 <= path@.len() * (most + 1)) by (nonlinear_arith);
            }
            if p == P_ROOT {
                let to = find_cut(&all, 0);
                proof {
                    assert(all@[to - 1]@ == its[to - 1] && all@[to as int]@ == its[to as int]);
                    assert(its.take(to as int) =~= its.subrange(0, to as int));
                    assert(layout::can_separate(its[to - 1].key));
                    assert(layout::can_separate(its[to as int].key));
                    assert(key::lt(its[to - 1].key, its[to as int].key));
                    separator::lemma_separator_key(
                        false,
                        its[to - 1].key,
                        its[to as int].key,
                        P_INVALID,
                        1,
                    );
                }
                let sep = slice_to_vec(all[to].key.as_slice());
                let r_pgno = self.pages.len() as u32 + 1;
                let ghost d = s.spill_root(to as int, sep@);
                proof {
                    spread::lemma_spill_root(s, to as int, sep@);
                    pack::lemma_two_pieces(its, to as int);
                    assert(spread::entries_ok(its, d.pages[d.q].flags));
                }
                self.raise_root(&all, to);
                let mut above: Vec<Record> = Vec::new();
                let first = Record { key: sep, word: r_pgno, val: Vec::new() };
                assert(first.val@ =~= Seq::<u8>::empty());
                above.push(first);
                assert(pack::items(above@) =~= d.run);
                let (up, Ghost(next)) = self.pack_rest(r_pgno, &all, to, P_ROOT, 0, above, Ghost(d));
                run = up;
                skip = 1;
                proof {
                    if !start.page().is_leaf() {
                        spread::lemma_raised_leaves(s.pages, its.take(to as int));
                        climb::lemma_leaves_transitive(start.pages, s.pages, d.pages);
                        climb::lemma_leaves_transitive(start.pages, d.pages, next.pages);
                    }
                    fresh = true;
                    s = next;
                }
            } else {
                let ghost before = path@;
                let (parent, slot) = match path.pop() {
                    Some(hop) => hop,
                    None => {
                        assert(false);
                        return;
                    },
                };
                let ghost d = s.spill();
                proof {
                    assert(before.last() == (parent, slot));
                    assert(before.drop_last() =~= path@);
                    spread::lemma_spill(s);
                }
                let none: Vec<Record> = Vec::new();
                assert(pack::items(none@) =~= Seq::<Item>::empty());
                let (up, Ghost(next)) = self.pack_rest(p, &all, 0, parent, slot, none, Ghost(d));
                run = up;
                p = parent;
                skip = slot + 1;
                proof {
                    if !start.page().is_leaf() {
                        climb::lemma_leaves_transitive(start.pages, s.pages, next.pages);
                    }
                    s = next;
                }
            }
        }
    }

    /// [`Writer::spread`] for a pair that goes to slot `idx` of leaf `leaf`.
    /// The last leaf of all is left full for a pair that comes after it, as
    /// where splits leave room, and the pair gets a leaf of its own.
    fn spread_from_leaf(
        &mut self,
        mut path: Vec<(u32, usize)>,
        leaf: u32,
        idx: usize,
        key: &[u8],
        val: &[u8],
        Ghost(start): Ghost<Climb>,
    )
        requires
            old(self).holds(start.pages),
            start.ready(),
            start.path == path@,
            start.p == leaf,
            start.skip == idx,
            start.item == arena::pair(key@, val@),
            start.page().is_leaf(),
            start.pages.len() + arena::growth(path@.len() as int) <= u32::MAX,
        ensures
            bufs_ok(final(self).pages@, final(self).endian),
            final(self).endian == old(self).endian,
            layout::pages_ok(final(self).pages()),
            exists|places: Seq<Place>| #[trigger] arena::placed(final(self).pages(), places),
            start.pages.len() <= final(self).pages().len() <= start.pages.len() + arena::growth(
                start.path.len() as int,
            ),
            forall|k: Seq<u8>, v: Seq<u8>| #[trigger]
                tree::has(layout::nodes(final(self).pages()), k, v) <==> tree::has(
                    start.tree().nodes,
                    k,
                    v,
                ),
            !start.has_room() && start.path.len() > 0 && layout::appends(start.page(), start.skip)
                ==> rules::appended(start.pages, final(self).pages(), start.p, start.item),
    {
        proof {
            climb::lemma_ready(start);
            model::lemma_item_size(start.item);
            arena::lemma_growth(path@.len() as int, 0, 0);
        }
        let page = &self.pages[leaf as usize];
        assert(page@ == start.page());
        let need = align_entry(BLEAF_HEADER_SIZE + key.len() + val.len()) + 2;
        if path.len() > 0 && page.free_space() < need && page.is_rightmost() && idx
            == page.nentries() {
            let ghost d = start.up();
            let ghost before = path@;
            proof {
                climb::lemma_step(start);
                climb::lemma_up(start);
                rules::lemma_appended(start);
                spread::lemma_from_climb(d);
                assert(start.path[before.len() - 1] == start.path.last());
            }
            let (parent, slot) = match path.pop() {
                Some(hop) => hop,
                None => {
                    assert(false);
                    return;
                },
            };
            let r_pgno = self.pages.len() as u32;
            let parent_prev = self.pages[parent as usize].prev_pg();
            assert(self.pages@[parent as int]@ == start.pages[parent as int]);
            let sep = {
                let last = key_among(page, idx, key, idx - 1);
                proof {
                    assert(page@.items().insert(idx as int, start.item) == start.all());
                }
                encoded_key(true, last, key, parent_prev, slot + 1)
            };
            self.append_page(leaf, key, val.len() as u32, val);
            let entry = Record { key: sep, word: r_pgno, val: Vec::new() };
            let ghost wide = Spread {
                pages: d.pages,
                places: d.places,
                path: d.path,
                p: d.p,
                skip: d.skip,
                run: seq![d.item],
            };
            proof {
                assert(entry.val@ =~= Seq::<u8>::empty());
                assert(entry@ == d.item);
                assert(d.path =~= path@);
            }
            self.spread(path, parent, slot + 1, entry, Ghost(wide));
            proof {
                rules::lemma_still_appended(
                    start.pages,
                    d.pages,
                    self.pages(),
                    start.p,
                    start.item,
                );
            }
            return;
        }
        let entry = Record { key: slice_to_vec(key), word: val.len() as u32, val: slice_to_vec(val) };
        let ghost wide = Spread {
            pages: start.pages,
            places: start.places,
            path: start.path,
            p: start.p,
            skip: start.skip,
            run: seq![start.item],
        };
        proof {
            spread::lemma_from_climb(start);
        }
        self.spread(path, leaf, idx, entry, Ghost(wide));
    }

    /// Insert `key` / `val` into the tree.
    ///
    /// This is `dbopen(3)`'s `R_NOOVERWRITE` semantics: returns `Ok(true)`
    /// on a successful insert, or `Ok(false)` if `key` is already present
    /// (in which case the existing value is left untouched).
    ///
    /// # Errors
    ///
    /// Returns [`Error::EntryTooLarge`], and leaves the tree as it was, for
    /// a pair that does not fit an empty leaf or whose key could not be a
    /// separator on the root.  Every other pair is stored.
    ///
    /// Where the leaf has room nothing is written but the entry, its
    /// `linp[]` slot and the page's bounds.  Where pages are split in two,
    /// padding and slack are zero on the new pages and on those that were
    /// split, and as they were on all others, the root included.
    pub fn put(&mut self, key: &[u8], val: &[u8]) -> (r: Result<bool, Error>)
        requires
            old(self).wf(),
            arena::has_room(old(self).pages()) || arena::too_large(key@, val@)
                || old(self)@.contains_key(key@),
        ensures
            final(self).wf(),
            final(self).endian() == old(self).endian(),
            match r {
                Ok(true) => {
                    let leaf = arena::leaf_for(old(self).pages(), key@) as int;
                    let entry = arena::pair(key@, val@);
                    &&& !arena::too_large(key@, val@)
                    &&& !old(self)@.contains_key(key@)
                    &&& final(self)@ == old(self)@.insert(key@, val@)
                    &&& forall|p: int| #[trigger]
                        rules::comes_last(old(self).pages(), p, key@, val@) ==> rules::appended(
                            old(self).pages(),
                            final(self).pages(),
                            p,
                            entry,
                        )
                    &&& arena::accepts(old(self).pages(), key@, val@) ==> {
                        &&& final(self).pages() == arena::inserted(
                            old(self).pages(),
                            key@,
                            val@,
                        )
                        &&& forall|q: int|
                            1 <= q < final(self).pages().len() ==> page_buf::kept(
                                old(self).ground(
                                    arena::built(old(self).pages(), key@, val@),
                                    q,
                                ),
                                #[trigger] final(self).page_bytes(q),
                                final(self).pages()[q],
                            )
                    }
                    &&& entry.cost() <= old(self).pages()[leaf].free() ==> {
                        &&& final(self).pages() == arena::inserted(
                            old(self).pages(),
                            key@,
                            val@,
                        )
                        &&& old(self).differs_at(final(self), leaf)
                        &&& page_buf::inserted_bytes(
                            old(self).page_bytes(leaf),
                            final(self).page_bytes(leaf),
                            old(self).pages()[leaf],
                            entry,
                        )
                    }
                },
                Ok(false) => {
                    &&& !arena::too_large(key@, val@)
                    &&& old(self)@.contains_key(key@)
                    &&& *final(self) == *old(self)
                },
                Err(e) => {
                    &&& arena::too_large(key@, val@)
                    &&& e == (Error::EntryTooLarge { key_len: key.len(), val_len: val.len() })
                    &&& *final(self) == *old(self)
                },
            },
            old(self).pages().len() <= final(self).pages().len() <= old(self).pages().len()
                + arena::growth(arena::height(old(self).pages()) as int),
            arena::accepts(old(self).pages(), key@, val@) ==> {
                &&& final(self).pages().len() <= old(self).pages().len() + arena::height(
                    old(self).pages(),
                ) + 2
                &&& arena::height(final(self).pages()) <= arena::height(old(self).pages()) + 1
            },
            compact::compact(old(self).pages()) && compact::small(arena::pair(key@, val@)) ==> {
                &&& arena::accepts(old(self).pages(), key@, val@) || old(self)@.contains_key(key@)
                &&& compact::compact(final(self).pages())
            },
    {
        let too_large = Error::EntryTooLarge { key_len: key.len(), val_len: val.len() };
        proof {
            model::lemma_item_size(arena::pair(key@, val@));
            model::lemma_item_size(layout::branch(key@, 0));
            arena::lemma_growth(arena::height(self.pages()) as int, 0, 0);
            let small = compact::small(arena::pair(key@, val@));
            if compact::compact(self.pages()) && small && !self@.contains_key(key@) {
                compact::law_small_accepted(self.pages(), key@, val@);
            }
            if small {
                compact::lemma_small_fits(key@, val@);
            }
        }
        // Two bounds matter, both detailed in the `Error::EntryTooLarge` doc:
        // the leaf entry plus its `linp[]` slot must fit a fresh empty leaf,
        // and the key must fit a fresh root as a separator, alongside the
        // zero-key entry and two `linp[]` slots.
        if key.len() > DEFAULT_PSIZE || val.len() > DEFAULT_PSIZE {
            return Err(too_large);
        }
        let usable = DEFAULT_PSIZE - PAGE_HEADER_SIZE;
        let leaf_bytes = align_entry(BLEAF_HEADER_SIZE + key.len() + val.len());
        let sep_bytes = align_entry(BINTERNAL_HEADER_SIZE + key.len());
        let zero_key_bytes = align_entry(BINTERNAL_HEADER_SIZE);
        if leaf_bytes + 2 > usable || sep_bytes + zero_key_bytes + 4 > usable {
            return Err(too_large);
        }
        let ghost pages = self.pages();
        let ghost places = choose|places: Seq<Place>| arena::placed(pages, places);
        proof {
            arena::lemma_lookup(pages, key@);
        }
        let spine = self.descend(key);
        let leaf = &self.pages[spine.leaf_pgno as usize];
        assert(leaf@ == pages[spine.leaf_pgno as int]);
        let (exact, idx) = leaf_search(leaf, key);
        if exact {
            return Ok(false);
        }
        let ghost start = arena::climb(pages, places, key@, val@);
        proof {
            arena::lemma_climb_ready(pages, places, key@, val@);
        }
        if self.admits(&spine.path, spine.leaf_pgno, idx, key, val, Ghost(start)) {
            proof {
                arena::lemma_inserted(pages, key@, val@);
            }
            self.propagate(spine.path, spine.leaf_pgno, idx, key, val, Ghost(start));
        } else {
            proof {
                arena::lemma_path(pages, places, key@);
            }
            self.spread_from_leaf(spine.path, spine.leaf_pgno, idx, key, val, Ghost(start));
            proof {
                arena::lemma_gained(pages, self.pages(), key@, val@);
            }
        }
        proof {
            let after = self.pages();
            assert forall|p: int| #[trigger] rules::comes_last(
                pages,
                p,
                key@,
                val@,
            ) implies rules::appended(pages, after, p, arena::pair(key@, val@)) by {
                rules::lemma_comes_last(pages, p, key@, val@);
                if arena::accepts(pages, key@, val@) {
                    rules::law_sorted_insert(pages, p, key@, val@);
                }
            }
        }
        Ok(true)
    }

    /// Delete the entry for `key` from the tree.
    ///
    /// Returns `true` if an entry was removed, `false` if `key` wasn't
    /// present.  The leaf is compacted in place.  Page underflow doesn't
    /// trigger merges: underfull pages are left alone, as in the BSD btree.
    pub fn del(&mut self, key: &[u8]) -> (r: Result<bool, Error>)
        requires
            old(self).wf(),
        ensures
            final(self).wf(),
            final(self).endian() == old(self).endian(),
            r == Ok::<bool, Error>(old(self)@.contains_key(key@)),
            final(self)@ == old(self)@.remove(key@),
            final(self).pages() == if old(self)@.contains_key(key@) {
                arena::removed(old(self).pages(), key@)
            } else {
                old(self).pages()
            },
            final(self).pages().len() == old(self).pages().len(),
            arena::height(final(self).pages()) == arena::height(old(self).pages()),
            compact::compact(old(self).pages()) ==> compact::compact(final(self).pages()),
            !old(self)@.contains_key(key@) ==> *final(self) == *old(self),
            old(self)@.contains_key(key@) ==> {
                let leaf = arena::leaf_for(old(self).pages(), key@) as int;
                &&& old(self).differs_at(final(self), leaf)
                &&& page_buf::deleted_bytes(
                    old(self).page_bytes(leaf),
                    final(self).page_bytes(leaf),
                    old(self).pages()[leaf],
                    arena::slot_for(old(self).pages(), key@),
                )
            },
    {
        let ghost pages = self.pages();
        proof {
            arena::lemma_lookup(pages, key@);
        }
        let spine = self.descend(key);
        let leaf = &self.pages[spine.leaf_pgno as usize];
        assert(leaf@ == pages[spine.leaf_pgno as int]);
        let (exact, idx) = leaf_search(leaf, key);
        if !exact {
            assert(self@.remove(key@) =~= self@);
            return Ok(false);
        }
        proof {
            arena::lemma_removed(pages, key@);
            if compact::compact(pages) {
                compact::law_small_removed(pages, key@);
            }
        }
        self.pages[spine.leaf_pgno as usize].delete_entry(idx);
        assert(self.pages() =~= arena::removed(pages, key@));
        Ok(true)
    }

    /// The bytes of the file, consuming the writer: the meta page, then
    /// every page in page number order.  A machine of either byte order can
    /// open it, and finds in it what the writer held.
    pub fn finish(self) -> (r: Vec<u8>)
        requires
            self.wf(),
        ensures
            file::is_file(r@, self.pages(), self.endian()),
            disk::meta_ok(r@, 4096, self.endian() is Big),
            disk::stores(Disk { b: r@, psize: 4096, big: self.endian() is Big }, self@),
            forall|p: int|
                1 <= p < self.pages().len() ==> (#[trigger] file::stored(
                    r@,
                    p,
                    self.endian(),
                )).bytes == self.page_bytes(p),
            forall|host: Endian| #[trigger]
                image::open_image(r@, host) == Ok::<Image, Error>(
                    read_back::image_of(r@, self.endian()),
                ),
            forall|k: Seq<u8>| #[trigger]
                read_back::image_of(r@, self.endian()).get(k) == Ok::<Option<Seq<u8>>, Error>(
                    if self@.contains_key(k) {
                        Some(self@[k])
                    } else {
                        None
                    },
                ),
    {
        let ghost pages = self.pages();
        let ghost bufs = self.pages@;
        let e = self.endian;
        let mut out = build_meta(DEFAULT_PSIZE, P_INVALID, 0, B_NODUPS, e);
        let ghost head = out@;
        let mut i: usize = 1;
        while i < self.pages.len()
            invariant
                bufs == self.pages@,
                pages == models(bufs),
                bufs_ok(bufs, e),
                1 <= i <= bufs.len(),
                head.len() == DEFAULT_PSIZE,
                out@.len() == i * DEFAULT_PSIZE,
                bytes::agree(head, out@, 0, DEFAULT_PSIZE as int),
                forall|p: int| 1 <= p < i ==> #[trigger] file::stored(out@, p, e) == bufs[p].raw(),
            decreases bufs.len() - i,
        {
            let ghost before = out@;
            assert(bufs[i as int].wf());
            out.extend_from_slice(self.pages[i].bytes.as_slice());
            proof {
                assert forall|p: int| 1 <= p < i + 1 implies #[trigger] file::stored(out@, p, e)
                    == bufs[p].raw() by {
                    assert(bufs[p].wf());
                    if p < i {
                        assert(file::stored(before, p, e) == bufs[p].raw());
                        assert(file::stored(out@, p, e).bytes =~= file::stored(before, p, e).bytes);
                    } else {
                        assert(file::stored(out@, p, e).bytes =~= bufs[p].bytes@);
                    }
                }
            }
            i = i + 1;
        }
        proof {
            bytes::lemma_agree(head, out@, 0, DEFAULT_PSIZE as int, e);
            assert forall|p: int| 1 <= p < pages.len() implies (
            #[trigger] file::stored(out@, p, e)).sound() && file::stored(out@, p, e).decode()
                == pages[p] by {
                assert(bufs[p].wf());
            }
            assert(file::is_file(out@, pages, e));
            read_back::law_format(out@, pages, e);
            assert forall|host: Endian| #[trigger]
                image::open_image(out@, host) == Ok::<Image, Error>(
                    read_back::image_of(out@, e),
                ) by {
                read_back::law_opens(out@, pages, e, host);
            }
            assert forall|k: Seq<u8>| #[trigger]
                read_back::image_of(out@, e).get(k) == Ok::<Option<Seq<u8>>, Error>(
                    if self@.contains_key(k) {
                        Some(self@[k])
                    } else {
                        None
                    },
                ) by {
                read_back::law_get(out@, pages, e, k);
            }
        }
        out
    }
}

} // verus!
