//! The parts that reader and writer are made of.

use db185::bytes::{order_of_one, read_u16, read_u32, write_u16, write_u32};
use db185::dump::{path_key, trim_nul, write_pair};
use db185::format::{align_entry, Meta};
use db185::key::{compare, Order};
use db185::page::{ItemRef, PageView};
use db185::writer::file::build_meta;
use db185::writer::page_buf::PageBuf;
use db185::writer::plan::psplit;
use db185::writer::search::{descend_internal_pick, leaf_search};
use db185::writer::separator::{bt_defpfx, encoded_key};
use db185::{Endian, Error};

#[test]
fn integers_in_both_orders() {
    let mut buf = vec![0u8; 8];
    write_u32(&mut buf, 1, 0x0102_0304, Endian::Little);
    assert_eq!(buf, vec![0, 4, 3, 2, 1, 0, 0, 0]);
    assert_eq!(read_u32(&buf, 1, Endian::Little), 0x0102_0304);
    assert_eq!(read_u32(&buf, 1, Endian::Big), 0x0403_0201);
    write_u32(&mut buf, 4, 0xfffe_fdfc, Endian::Big);
    assert_eq!(buf[4..8], [0xff, 0xfe, 0xfd, 0xfc]);
    write_u16(&mut buf, 0, 0xabcd, Endian::Big);
    assert_eq!(buf[0..2], [0xab, 0xcd]);
    assert_eq!(read_u16(&buf, 0, Endian::Big), 0xabcd);
    assert_eq!(read_u16(&buf, 0, Endian::Little), 0xcdab);
    write_u16(&mut buf, 0, 0xabcd, Endian::Little);
    assert_eq!(buf[0..2], [0xcd, 0xab]);
    assert_eq!(Endian::Little.swapped(), Endian::Big);
    assert_eq!(Endian::Big.swapped(), Endian::Little);
}

#[test]
fn order_in_which_bytes_are_one() {
    assert_eq!(order_of_one([1, 0, 0, 0]), Endian::Little);
    assert_eq!(order_of_one([0, 0, 0, 1]), Endian::Big);
}

#[test]
fn alignment() {
    let got: Vec<usize> = (0..10).map(align_entry).collect();
    assert_eq!(got, vec![0, 4, 4, 4, 4, 8, 8, 8, 8, 12]);
}

#[test]
fn meta_page() {
    let page = build_meta(4096, 7, 8, 0x20, Endian::Big);
    assert_eq!(page.len(), 4096);
    assert_eq!(
        page[..28],
        [0, 5, 0x31, 0x62, 0, 0, 0, 3, 0, 0, 16, 0, 0, 0, 0, 7, 0, 0, 0, 8, 0, 0, 0, 0x20, 0, 0, 0, 0]
    );
    for psize in [24usize, 512, 4096, 65536] {
        let page = build_meta(psize, 7, 8, 0x20, Endian::Big);
        assert_eq!(page.len(), psize);
        assert!(page[24..].iter().all(|b| *b == 0));
        let mut reversed = page.clone();
        for field in 0..6 {
            reversed[4 * field..4 * field + 4].reverse();
        }
        assert_eq!(reversed, build_meta(psize, 7, 8, 0x20, Endian::Little));
        for host in [Endian::Little, Endian::Big] {
            for (bytes, e) in [(&page, Endian::Big), (&reversed, Endian::Little)] {
                let (back, order) = Meta::parse(bytes, host);
                assert_eq!(order, e);
                assert_eq!(
                    (back.magic, back.version, back.psize, back.free, back.nrecs, back.flags),
                    (0x0005_3162, 3, psize as u32, 7, 8, 0x20)
                );
            }
        }
    }
}

#[test]
fn key_order() {
    assert_eq!(compare(b"", b""), Order::Equal);
    assert_eq!(compare(b"", b"a"), Order::Less);
    assert_eq!(compare(b"ab", b"a"), Order::Greater);
    assert_eq!(compare(b"ab", b"ab"), Order::Equal);
    assert_eq!(compare(b"\x7f", b"\x80"), Order::Less);
    assert_eq!(compare(b"b", b"aaaa"), Order::Greater);
}

#[test]
fn prefix_lengths() {
    assert_eq!(bt_defpfx(b"abc", b"abd"), 3);
    assert_eq!(bt_defpfx(b"abc", b"b"), 1);
    assert_eq!(bt_defpfx(b"ab", b"abcdef"), 3);
    assert_eq!(bt_defpfx(b"", b"x"), 1);
    assert_eq!(bt_defpfx(b"abc", b"abc"), 3);
    assert_eq!(bt_defpfx(b"abcd", b"ab"), 4);
}

#[test]
fn separator_keys() {
    let last = b"/usr/pkg/bin/aaa";
    let first = b"/usr/pkg/lib/libzzz.so.1";
    // not the first separator of its level
    assert_eq!(encoded_key(true, last, first, 0, 2), b"/usr/pkg/l".to_vec());
    assert_eq!(encoded_key(true, last, first, 5, 1), b"/usr/pkg/l".to_vec());
    // the first one
    assert_eq!(encoded_key(true, last, first, 0, 1), first.to_vec());
    // between internal pages
    assert_eq!(encoded_key(false, last, first, 5, 3), first.to_vec());
    // no smaller after alignment
    assert_eq!(encoded_key(true, b"aa", b"abc", 5, 3), b"abc".to_vec());
}

fn leaf(keys: &[&[u8]], vlen: usize) -> PageBuf {
    let mut page = PageBuf::empty_page(9, 2, Endian::Little);
    let val = vec![b'v'; vlen];
    for (i, key) in keys.iter().enumerate() {
        assert!(page.free_space() >= align_entry(9 + key.len() + vlen) + 2);
        page.insert_entry(i, key, vlen as u32, &val);
    }
    page
}

#[test]
fn page_buffer_fields() {
    let mut page = leaf(&[b"b", b"d"], 3);
    assert!(page.is_leaf());
    assert!(page.is_rightmost());
    assert_eq!(page.nentries(), 2);
    assert_eq!(page.lower(), 24);
    assert_eq!(page.upper(), 4096 - 32);
    assert_eq!(page.free_space(), 4096 - 32 - 24);
    assert_eq!(page.entry_nbytes(0), 16);
    page.set_prev_pg(3);
    page.set_next_pg(4);
    assert_eq!((page.prev_pg(), page.next_pg(), page.flags()), (3, 4, 2));
    assert!(!page.is_rightmost());
    page.insert_entry(1, b"c", 1, b"x");
    assert_eq!(page.key(0), b"b");
    assert_eq!(page.key(1), b"c");
    assert_eq!(page.key(2), b"d");
    assert_eq!(page.val(1), b"x");
    assert_eq!(page.word(2), 3);
    page.delete_entry(0);
    assert_eq!(page.nentries(), 2);
    assert_eq!(page.key(0), b"c");
    assert_eq!(page.key(1), b"d");
    assert_eq!(page.val(1), b"vvv");
    assert_eq!(page.upper(), 4096 - 28);
    page.reset(1);
    assert_eq!((page.nentries(), page.upper(), page.flags()), (0, 4096, 1));
    assert_eq!((page.prev_pg(), page.next_pg()), (3, 4));
}

/// A removal gives back every byte from the first entry on.
#[test]
fn delete_undoes_insert() {
    let keys: [&[u8]; 3] = [b"b", b"dd", b"ffff"];
    let mut page = leaf(&keys, 5);
    // bytes that no entry writes
    let top = page.bytes.len();
    page.bytes[top - 1] = 0xee;
    page.bytes[100] = 0xaa;
    for (idx, key) in [(0usize, &b"a"[..]), (1, b"c"), (2, b"eee"), (3, b"g")] {
        let before = page.bytes.clone();
        let upper = page.upper();
        page.insert_entry(idx, key, 7, b"1234567");
        assert_eq!(page.key(idx), key);
        assert_eq!(page.bytes[100], 0xaa);
        assert_eq!(page.bytes[top - 1], 0xee);
        page.delete_entry(idx);
        assert_eq!(page.bytes[..26], before[..26]);
        assert_eq!(page.bytes[upper..], before[upper..]);
        assert_eq!(page.bytes[100], 0xaa);
    }
}

#[test]
fn searches_within_a_page() {
    let page = leaf(&[b"b", b"d", b"f"], 1);
    assert_eq!(leaf_search(&page, b"a"), (false, 0));
    assert_eq!(leaf_search(&page, b"b"), (true, 0));
    assert_eq!(leaf_search(&page, b"c"), (false, 1));
    assert_eq!(leaf_search(&page, b"f"), (true, 2));
    assert_eq!(leaf_search(&page, b"g"), (false, 3));
    assert_eq!(descend_internal_pick(&page, b"a"), 0);
    assert_eq!(descend_internal_pick(&page, b"b"), 0);
    assert_eq!(descend_internal_pick(&page, b"e"), 1);
    assert_eq!(descend_internal_pick(&page, b"f"), 2);
    assert_eq!(descend_internal_pick(&page, b"z"), 2);
}

#[test]
fn split_plans() {
    // Four entries of 1012 bytes, slots included 1014; a fifth does not fit.
    let page = leaf(&[b"b", b"d", b"f", b"h"], 1002);
    let val = vec![b'v'; 1002];
    let plan = |skip: usize, key: &[u8]| {
        let p = psplit(&page, skip, key, 1002, &val);
        (p.left_slots, p.right_target, p.fits)
    };
    // 2028 bytes after two entries, 3042 after three: half is 2038
    assert_eq!(plan(0, b"a"), (3, false, true));
    assert_eq!(plan(2, b"e"), (3, false, true));
    assert_eq!(plan(3, b"g"), (3, true, true));
    assert_eq!(plan(4, b"i"), (3, true, true));
    // One large entry: the last old entry always goes right.
    let single = leaf(&[b"m"], 3000);
    let val = vec![b'v'; 3000];
    let p = psplit(&single, 0, b"a", 3000, &val);
    assert_eq!((p.left_slots, p.right_target, p.fits), (0, true, false));
}

/// The left page of a split is at most half full but for its last entry, and
/// the last of the old entries goes right.
#[test]
fn split_leaves_old_entries_right() {
    let keys: [&[u8]; 3] = [b"b", b"d", b"f"];
    for vlen in [10usize, 600, 1300] {
        let page = leaf(&keys, vlen);
        for (skip, key) in [(0usize, b"a"), (1, b"c"), (2, b"e"), (3, b"g")] {
            for len in [0usize, 2000, 4000] {
                let p = psplit(&page, skip, key, len as u32, &vec![0u8; len]);
                let mut costs: Vec<usize> = vec![align_entry(9 + 1 + vlen) + 2; 3];
                costs.insert(skip, align_entry(9 + 1 + len) + 2);
                let m = p.left_slots;
                let old = if skip < m { m - 1 } else { m };
                assert!(old < 3);
                assert!(costs[..m].iter().sum::<usize>() <= 4076);
                assert!(m == 0 || costs[..m - 1].iter().sum::<usize>() < 2038);
            }
        }
    }
}

#[test]
fn page_view_decodes_entries() {
    let page = leaf(&[b"key"], 5);
    let view = PageView::parse(9, &page.bytes, Endian::Little).unwrap();
    assert!(view.is_leaf() && !view.is_internal() && !view.is_overflow());
    assert_eq!(view.nentries(), 1);
    let entry = view.leaf_entry(0).unwrap();
    assert_eq!(view.inline(entry.key).unwrap(), b"key");
    assert_eq!(view.inline(entry.data).unwrap(), b"vvvvv");
    assert!(matches!(
        view.leaf_entry(1),
        Err(Error::CorruptPage { pgno: 9, reason: "entry index out of range" })
    ));
    assert!(matches!(
        view.inline(ItemRef::Inline { off: 4090, len: 10 }),
        Err(Error::CorruptPage { pgno: 9, reason: "inline offset out of range" })
    ));
    assert!(matches!(
        view.inline(ItemRef::Overflow { pgno: 1, size: 1 }),
        Err(Error::CorruptPage { pgno: 9, reason: "expected inline item, found overflow" })
    ));
}

#[test]
fn dump_lines() {
    let mut out = b"> ".to_vec();
    write_pair(&mut out, b"/bin/ls\0", b"ls-1.0\0");
    write_pair(&mut out, b"plain", b"");
    assert_eq!(out, b"> file: /bin/ls pkg: ls-1.0\nfile: plain pkg: \n".to_vec());
    assert_eq!(trim_nul(b"a\0\0"), b"a\0");
    assert_eq!(trim_nul(b""), b"");
    assert_eq!(path_key(b"/x"), b"/x\0".to_vec());
}
