//! Writer round-trip tests.

use db185::{Db, Endian, Error, Writer};

fn put(w: &mut Writer, key: &[u8], val: &[u8]) -> bool {
    assert!(w.has_room());
    w.put(key, val).unwrap()
}

fn pairs(bytes: &[u8]) -> Vec<(Vec<u8>, Vec<u8>)> {
    let db = Db::open(bytes).unwrap();
    let mut iter = db.iter();
    let mut out: Vec<(Vec<u8>, Vec<u8>)> = Vec::new();
    while let Some(entry) = iter.next() {
        let entry = entry.unwrap();
        out.push((entry.key().to_vec(), entry.value().to_vec()));
    }
    out
}

#[test]
fn empty_round_trip() {
    let bytes = Writer::create_new().finish();

    let db = Db::open(&bytes).unwrap();
    assert!(
        db.iter().next().is_none(),
        "fresh db should yield no entries"
    );
    assert!(db.get(b"any\0").unwrap().is_none(), "fresh db should have no keys");
}

#[test]
fn put_round_trip_single_entry() {
    let mut w = Writer::create_new();
    assert_eq!(put(&mut w, b"hello\0", b"world\0"), true);
    let bytes = w.finish();

    let db = Db::open(&bytes).unwrap();
    let val = db.get(b"hello\0").unwrap().expect("hello should be present");
    assert_eq!(val.as_ref(), b"world\0");
    assert!(db.get(b"missing\0").unwrap().is_none());
}

#[test]
fn put_no_overwrite() {
    let mut w = Writer::create_new();
    assert_eq!(put(&mut w, b"k\0", b"v1\0"), true);
    assert_eq!(put(&mut w, b"k\0", b"v2\0"), false);
    let bytes = w.finish();

    let db = Db::open(&bytes).unwrap();
    let val = db.get(b"k\0").unwrap().expect("k should be present");
    assert_eq!(val.as_ref(), b"v1\0", "first put wins under R_NOOVERWRITE");
}

/// Delete an entry, then insert enough new entries to force a leaf split.
/// Exercises the post-delete free-space accounting plus a regular non-root
/// leaf split on the compacted page.  Verified via the reader: after the
/// dance the surviving keys must iterate in sorted order with the right
/// values.
#[test]
fn delete_then_split_via_reader() {
    let mut w = Writer::create_new();
    let prefix = "/tmp/del-split/path/to/some/directory/file_";
    let mut keys: Vec<Vec<u8>> = Vec::new();
    for i in 0..200 {
        let mut k = prefix.as_bytes().to_vec();
        k.extend_from_slice(format!("{i:04}_with_padding_to_force_splits").as_bytes());
        k.push(0);
        assert_eq!(put(&mut w, &k, b"pkg-1.0\0"), true);
        keys.push(k);
    }
    // Delete every 7th entry, then insert that key back with a longer value
    // so it lands in a different leaf slot than before.
    for (i, k) in keys.iter().enumerate() {
        if i % 7 == 0 {
            assert!(w.del(k).unwrap());
        }
    }
    for (i, k) in keys.iter().enumerate() {
        if i % 7 == 0 {
            assert_eq!(put(&mut w, k, b"pkg-2.0-replacement\0"), true);
        }
    }
    let bytes = w.finish();

    let db = Db::open(&bytes).unwrap();
    let mut iter = db.iter();
    let mut prev: Option<Vec<u8>> = None;
    let mut count = 0usize;
    while let Some(entry) = iter.next() {
        let entry = entry.unwrap();
        if let Some(p) = prev.as_ref() {
            assert!(p.as_slice() < entry.key(), "keys must iterate sorted");
        }
        let expected: &[u8] = if count % 7 == 0 {
            b"pkg-2.0-replacement\0"
        } else {
            b"pkg-1.0\0"
        };
        assert_eq!(entry.value(), expected);
        prev = Some(entry.key().to_vec());
        count += 1;
    }
    assert_eq!(count, 200, "delete + re-insert preserves count");
}

/// Sorted-append into the rightmost leaf is special-cased: the existing
/// rightmost page is kept intact and a fresh leaf holding only the new entry
/// is linked after it.  This test sorted-appends enough keys to force many
/// such splits at the leaf level *and* at an internal level.
#[test]
fn sorted_append_grows_rightmost_leaf_chain() {
    let mut w = Writer::create_new();
    for i in 0..2000u32 {
        let key = format!("/sorted/{i:08}_some_padding_to_take_real_space\0");
        let val = format!("pkg-{i}\0");
        assert_eq!(put(&mut w, key.as_bytes(), val.as_bytes()), true);
    }
    let bytes = w.finish();

    let db = Db::open(&bytes).unwrap();
    let mut iter = db.iter();
    let mut last: Option<u32> = None;
    let mut count = 0usize;
    while let Some(entry) = iter.next() {
        let entry = entry.unwrap();
        let key = std::str::from_utf8(entry.key()).unwrap().trim_end_matches('\0');
        // Keys are "/sorted/<8-digit index>_..."; pull the index out.
        let idx: u32 = key
            .trim_start_matches("/sorted/")
            .get(..8)
            .expect("8-digit index field")
            .parse()
            .expect("parse idx");
        if let Some(p) = last {
            assert_eq!(idx, p + 1, "sorted iteration must visit indices in order");
        }
        last = Some(idx);
        count += 1;
    }
    assert_eq!(count, 2000);
}

/// Inserts that can never fit on any leaf return [`Error::EntryTooLarge`]
/// instead of panicking.
#[test]
fn put_oversize_entry_returns_clean_error() {
    let mut w = Writer::create_new();
    // 4080-byte key, NUL-terminated value: total entry (header + key +
    // value, aligned to 4 + the 2-byte linp slot) exceeds the 4076-byte
    // usable area of a 4096-byte page.
    let huge = vec![b'x'; 4080];
    let err = w.put(&huge, b"v\0").unwrap_err();
    assert!(
        matches!(err, Error::EntryTooLarge { .. }),
        "expected EntryTooLarge, got {err:?}",
    );
    w.finish();
}

/// A key that fits as a *leaf* entry but is too large to survive as an
/// *internal* separator on a root-conversion page.
#[test]
fn put_leaf_fittable_but_separator_too_large_errors() {
    let mut w = Writer::create_new();
    // 4060-byte key: align(9+4060+2)=4072 bytes leaf-entry, +2 linp = 4074
    // <= 4076 usable.  But as a separator: align(9+4060)=4072 bytes, + the
    // 12-byte zero-key entry + 4 bytes for 2 linp slots = 4088 > 4076
    // usable, so it must be rejected.
    let huge_key = vec![b'k'; 4060];
    let err = w.put(&huge_key, b"v\0").unwrap_err();
    assert!(
        matches!(err, Error::EntryTooLarge { .. }),
        "expected EntryTooLarge for separator-overflowing key, got {err:?}",
    );
    w.finish();
}

/// The whole file for one entry, byte by byte.
#[test]
fn single_entry_file_bytes() {
    let mut w = Writer::create_in(Endian::Little);
    assert_eq!(put(&mut w, b"/tmp/hello\0", b"foo-1.0\0"), true);
    let bytes = w.finish();

    let mut want = vec![0u8; 8192];
    want[0..4].copy_from_slice(&[0x62, 0x31, 0x05, 0x00]);
    want[4] = 3;
    want[8..12].copy_from_slice(&[0x00, 0x10, 0x00, 0x00]);
    want[20] = 0x20;
    // page 1: pgno, prevpg, nextpg, flags, lower, upper, linp[0]
    want[4096] = 1;
    want[4096 + 12] = 2;
    want[4096 + 16] = 22;
    want[4096 + 18..4096 + 20].copy_from_slice(&[0xe4, 0x0f]);
    want[4096 + 20..4096 + 22].copy_from_slice(&[0xe4, 0x0f]);
    let off = 4096 + 4068;
    want[off] = 11;
    want[off + 4] = 8;
    want[off + 9..off + 20].copy_from_slice(b"/tmp/hello\0");
    want[off + 20..off + 28].copy_from_slice(b"foo-1.0\0");
    assert!(bytes == want);
}

/// The same file in the opposite byte order.
#[test]
fn single_entry_file_bytes_big_endian() {
    let mut w = Writer::create_in(Endian::Big);
    assert_eq!(put(&mut w, b"ab", b"c"), true);
    let bytes = w.finish();

    let mut want = vec![0u8; 8192];
    want[0..4].copy_from_slice(&[0x00, 0x05, 0x31, 0x62]);
    want[7] = 3;
    want[8..12].copy_from_slice(&[0x00, 0x00, 0x10, 0x00]);
    want[23] = 0x20;
    want[4096 + 3] = 1;
    want[4096 + 15] = 2;
    want[4096 + 17] = 22;
    want[4096 + 18..4096 + 20].copy_from_slice(&[0x0f, 0xf4]);
    want[4096 + 20..4096 + 22].copy_from_slice(&[0x0f, 0xf4]);
    let off = 4096 + 4084;
    want[off + 3] = 2;
    want[off + 7] = 1;
    want[off + 9..off + 12].copy_from_slice(b"abc");
    assert!(bytes == want);
    for host in [Endian::Little, Endian::Big] {
        let db = Db::open_on(&bytes, host).unwrap();
        assert_eq!(db.get(b"ab").unwrap().unwrap().as_ref(), b"c");
    }
}

/// A new file is in the byte order of the machine.
#[test]
fn new_file_is_in_native_order() {
    let bytes = Writer::create_new().finish();
    assert_eq!(bytes.len(), 8192);
    assert_eq!(bytes[0..4], 0x0005_3162u32.to_ne_bytes());
    assert_eq!(bytes[4..8], 3u32.to_ne_bytes());
    assert_eq!(bytes[8..12], 4096u32.to_ne_bytes());
}

/// At these key and value sizes, 38 entries fit in the root leaf and the
/// 39th forces exactly one root split.
#[test]
fn one_root_split() {
    let mut w = Writer::create_in(Endian::Little);
    for i in 1..=39 {
        let key = format!(
            "/tmp/onesplit-files/path/to/some/longer/directory/file_with_a_somewhat_long_name_{i:03}\0"
        );
        assert_eq!(w.page_count(), 2);
        assert_eq!(put(&mut w, key.as_bytes(), b"big-1.0\0"), true);
    }
    assert_eq!(w.page_count(), 4);
    let bytes = w.finish();
    assert_eq!(bytes.len(), 16384);
    assert_eq!(pairs(&bytes).len(), 39);

    // Entries are 104 bytes, 106 with their slot; the left page stops at
    // half of 4076 bytes.
    let left = &bytes[8192..12288];
    let right = &bytes[12288..16384];
    assert_eq!(left[0..16], [2, 0, 0, 0, 0, 0, 0, 0, 3, 0, 0, 0, 2, 0, 0, 0]);
    assert_eq!(right[0..16], [3, 0, 0, 0, 2, 0, 0, 0, 0, 0, 0, 0, 2, 0, 0, 0]);
    assert_eq!(left[16], 20 + 2 * 20);
    assert_eq!(right[16], 20 + 2 * 19);

    // The root is an internal page with an empty separator for the left
    // page and the right page's first key, in full.
    let root = &bytes[4096..8192];
    assert_eq!(root[0..16], [1, 0, 0, 0, 0, 0, 0, 0, 0, 0, 0, 0, 1, 0, 0, 0]);
    assert_eq!(root[16], 24);
    assert_eq!(root[20..22], [0xf4, 0x0f]);
    assert_eq!(root[4084..4093], [0, 0, 0, 0, 2, 0, 0, 0, 0]);
    let sep = 4084 - 96;
    assert_eq!(root[sep..sep + 9], [85, 0, 0, 0, 3, 0, 0, 0, 0]);
    assert_eq!(
        &root[sep + 9..sep + 94],
        &b"/tmp/onesplit-files/path/to/some/longer/directory/file_with_a_somewhat_long_name_021\0"[..]
    );
}

/// A root split leaves what it does not write: the bytes of the old root
/// between the new `linp[]` and the new entries, and their padding.  The new
/// pages are zero but for their entries.
#[test]
fn root_split_bytes() {
    let key = |i: u32| format!("key{i:04}").into_bytes();
    let val = |i: u32| vec![i as u8 | 0x80; 150];
    // 9 + 7 + 150 = 166, aligned 168, plus the slot 170: 23 to a page
    let fill = |n: u32| {
        let mut w = Writer::create_in(Endian::Little);
        for i in 0..n {
            assert_eq!(put(&mut w, &key(i), &val(i)), true);
        }
        w.finish()
    };
    let before = fill(23);
    let after = fill(24);
    assert_eq!(before.len(), 2 * 4096);
    assert_eq!(after.len(), 4 * 4096);
    let old = &before[4096..8192];
    let new = &after[4096..8192];
    let upper = new[18] as usize + 256 * new[19] as usize;
    // the empty separator takes 12 bytes, that of a 7-byte key 16
    assert_eq!(upper, 4096 - 12 - 16);
    assert_eq!(new[..12], old[..12]);
    assert_eq!(new[24..upper], old[24..upper]);
    assert_eq!(new[4093..], old[4093..]);
    assert!(new[24..upper].iter().any(|b| *b != 0));
    for page in [&after[8192..12288], &after[12288..16384]] {
        let lower = page[16] as usize + 256 * page[17] as usize;
        let upper = page[18] as usize + 256 * page[19] as usize;
        assert!(page[lower..upper].iter().all(|b| *b == 0));
        for i in (20..lower).step_by(2) {
            let off = page[i] as usize + 256 * page[i + 1] as usize;
            assert_eq!(page[off + 166..off + 168], [0, 0]);
        }
    }
}

/// A later split writes both halves from scratch, and leaves the slack of
/// the other pages alone.
#[test]
fn leaf_split_bytes() {
    let mut w = Writer::create_in(Endian::Little);
    let mut n: u32 = 0;
    // descending keys, so that the first leaf is the one to be split
    while w.page_count() < 4 {
        n += 1;
        assert_eq!(put(&mut w, format!("{:04}", 9000 - n).as_bytes(), &[0xaa; 300]), true);
    }
    // leave stale bytes in the slack of the first leaf
    assert_eq!(w.del(format!("{:04}", 9000 - n).as_bytes()).unwrap(), true);
    while w.page_count() < 5 {
        n += 1;
        assert_eq!(put(&mut w, format!("{:04}", 9000 - n).as_bytes(), &[0xaa; 300]), true);
    }
    let bytes = w.finish();
    for p in [2usize, 4] {
        let page = &bytes[p * 4096..(p + 1) * 4096];
        let lower = page[16] as usize + 256 * page[17] as usize;
        let upper = page[18] as usize + 256 * page[19] as usize;
        assert!(page[lower..upper].iter().all(|b| *b == 0));
    }
}

/// Later separators are cut down to what tells the pages apart.
#[test]
fn separators_are_compressed() {
    let mut w = Writer::create_in(Endian::Little);
    let val = vec![b'v'; 1000];
    for c in b'a'..=b'z' {
        let mut key = vec![c; 40];
        key[0] = c;
        assert_eq!(put(&mut w, &key, &val), true);
    }
    let bytes = w.finish();
    let root = &bytes[4096..8192];
    let n = (root[16] as usize - 20) / 2;
    assert!(n > 3);
    for slot in 0..n {
        let at = 20 + 2 * slot;
        let off = root[at] as usize + 256 * root[at + 1] as usize;
        let ksize = root[off] as usize;
        // slot 0: the empty key; slot 1: from the root split, in full; the
        // others differ from the key before them in the first byte.
        let want = match slot {
            0 => 0,
            1 => 40,
            _ => 1,
        };
        assert_eq!(ksize, want);
    }
    assert_eq!(pairs(&bytes).len(), 26);
}

/// Inserting in descending order splits the leftmost leaf over and over.
#[test]
fn descending_inserts_iterate_sorted() {
    let mut w = Writer::create_new();
    for i in (0..3000u32).rev() {
        let key = format!("key-{i:06}-{}", "x".repeat((i % 37) as usize));
        assert_eq!(put(&mut w, key.as_bytes(), &i.to_be_bytes()), true);
    }
    let bytes = w.finish();
    let got = pairs(&bytes);
    assert_eq!(got.len(), 3000);
    let db = Db::open(&bytes).unwrap();
    for (i, (key, val)) in got.iter().enumerate() {
        assert_eq!(val[..], (i as u32).to_be_bytes());
        assert_eq!(db.get(key).unwrap().unwrap().as_ref(), &val[..]);
    }
}

/// Pseudo-random inserts and deletes against a sorted map, read back by both
/// byte orders.
#[test]
fn mixed_operations_match_a_map() {
    for endian in [Endian::Little, Endian::Big] {
        let mut map: std::collections::BTreeMap<Vec<u8>, Vec<u8>> =
            std::collections::BTreeMap::new();
        let mut w = Writer::create_in(endian);
        let mut seed: u32 = 12345;
        for _ in 0..6000 {
            seed = seed.wrapping_mul(1_664_525).wrapping_add(1_013_904_223);
            let k = (seed >> 8) % 1500;
            let key = format!("{:x}-{}", k.wrapping_mul(2_654_435_761), "p".repeat((k % 90) as usize));
            let key = key.into_bytes();
            if (seed >> 28) < 5 {
                assert_eq!(w.del(&key).unwrap(), map.remove(&key).is_some());
            } else {
                let val = vec![(seed >> 16) as u8; ((seed >> 12) % 200) as usize];
                let fresh = !map.contains_key(&key);
                assert_eq!(put(&mut w, &key, &val), fresh);
                if fresh {
                    map.insert(key, val);
                }
            }
        }
        let bytes = w.finish();
        let got = pairs(&bytes);
        let want: Vec<(Vec<u8>, Vec<u8>)> = map.into_iter().collect();
        assert_eq!(got, want);
        let db = Db::open(&bytes).unwrap();
        for (key, val) in &want {
            assert_eq!(db.get(key).unwrap().unwrap().as_ref(), &val[..]);
        }
        assert!(db.get(b"absent").unwrap().is_none());
    }
}

/// The empty key is a key like any other, also once the root has split.
#[test]
fn empty_key_and_value() {
    let mut w = Writer::create_new();
    assert_eq!(put(&mut w, b"", b""), true);
    assert_eq!(put(&mut w, b"", b"x"), false);
    for i in 0..500u32 {
        assert_eq!(put(&mut w, &i.to_be_bytes(), &[7u8; 30]), true);
    }
    let bytes = w.finish();
    let db = Db::open(&bytes).unwrap();
    assert_eq!(db.get(b"").unwrap().unwrap().as_ref(), b"");
    let got = pairs(&bytes);
    assert_eq!(got.len(), 501);
    assert_eq!(got[0], (Vec::new(), Vec::new()));
}

/// Deleting what was never there, or is there no more.
#[test]
fn delete_absent() {
    let mut w = Writer::create_new();
    assert_eq!(w.del(b"a").unwrap(), false);
    assert_eq!(put(&mut w, b"a", b"1"), true);
    assert_eq!(w.del(b"a").unwrap(), true);
    assert_eq!(w.del(b"a").unwrap(), false);
    assert!(pairs(&w.finish()).is_empty());
}

/// A delete takes back an insert: page headers, slots and entries are as
/// they were.
#[test]
fn delete_restores_the_page() {
    let build = |extra: bool| {
        let mut w = Writer::create_in(Endian::Little);
        put(&mut w, b"alpha", b"first");
        put(&mut w, b"omega", b"last");
        if extra {
            put(&mut w, b"middle", b"gone");
            assert!(w.del(b"middle").unwrap());
        }
        w.finish()
    };
    let with = build(true);
    let without = build(false);
    let upper = with[4096 + 18] as usize + 256 * with[4096 + 19] as usize;
    assert_eq!(with[..4096 + 24], without[..4096 + 24]);
    assert_eq!(with[4096 + upper..], without[4096 + upper..]);
}

/// Deleting closes the gap: the entries below move up and their slots
/// follow.
#[test]
fn delete_compacts_the_page() {
    let mut w = Writer::create_in(Endian::Little);
    for key in [b"a", b"b", b"c"] {
        put(&mut w, key, b"12");
    }
    assert!(w.del(b"b").unwrap());
    let bytes = w.finish();
    let page = &bytes[4096..8192];
    assert_eq!(page[16..20], [24, 0, 0xe8, 0x0f]);
    assert_eq!(page[20..24], [0xf4, 0x0f, 0xe8, 0x0f]);
    assert_eq!(&page[4084 + 9..4084 + 12], b"a12");
    assert_eq!(&page[4072 + 9..4072 + 12], b"c12");
}

/// The largest entries: one that fills a leaf to the last byte, and one byte
/// more.
#[test]
fn largest_entry() {
    let mut w = Writer::create_new();
    // 9 + 1 + 4062 = 4072, aligned 4072, plus the slot 4074 <= 4076
    assert_eq!(put(&mut w, b"k", &vec![1u8; 4062]), true);
    let mut w2 = Writer::create_new();
    let err = w2.put(b"k", &vec![1u8; 4063]).unwrap_err();
    assert!(matches!(err, Error::EntryTooLarge { key_len: 1, val_len: 4063 }));
    let bytes = w.finish();
    let db = Db::open(&bytes).unwrap();
    assert_eq!(db.get(b"k").unwrap().unwrap().as_ref(), &vec![1u8; 4062][..]);

    // 9 + 4047 = 4056, with the zero-key entry and two slots 4072
    let mut w3 = Writer::create_new();
    assert_eq!(put(&mut w3, &vec![2u8; 4047], b""), true);
    let mut w4 = Writer::create_new();
    assert_eq!(put(&mut w4, &vec![2u8; 4051], b""), true);
    assert!(w4.put(&vec![2u8; 4052], b"").is_err());
    assert!(w4.put(&vec![2u8; 100_000], b"").is_err());
}

/// Two entries that each fit a page, and together do not.
#[test]
fn entries_over_half_a_page() {
    for (first, second) in [("a", "b"), ("b", "a")] {
        let mut w = Writer::create_new();
        assert_eq!(put(&mut w, first.as_bytes(), &[0u8; 2990]), true);
        assert_eq!(put(&mut w, second.as_bytes(), &[1u8; 2990]), true);
        // The keys that are there are still reported as such.
        assert_eq!(put(&mut w, b"a", &[3u8; 3000]), false);
        assert_eq!(put(&mut w, b"b", &[3u8; 3000]), false);
        assert_eq!(put(&mut w, b"c", b"small"), true);
        assert_eq!(
            pairs(&w.finish()),
            vec![
                (b"a".to_vec(), vec![u8::from(first == "b"); 2990]),
                (b"b".to_vec(), vec![u8::from(first == "a"); 2990]),
                (b"c".to_vec(), b"small".to_vec())
            ]
        );
    }
}

/// An entry that fits neither with what is left of it nor with what is right
/// of it gets a leaf of its own.
#[test]
fn entry_with_a_leaf_of_its_own() {
    let mut w = Writer::create_in(Endian::Little);
    assert_eq!(put(&mut w, b"a", &[1u8; 1990]), true);
    assert_eq!(put(&mut w, b"c", &[3u8; 1990]), true);
    assert_eq!(put(&mut w, b"b", &[2u8; 2990]), true);
    let bytes = w.finish();
    // the root and three leaves
    assert_eq!(bytes.len(), 5 * 4096);
    assert_eq!(bytes[4096 + 12..4096 + 18], [1, 0, 0, 0, 26, 0]);
    assert_eq!(
        pairs(&bytes),
        vec![
            (b"a".to_vec(), vec![1u8; 1990]),
            (b"b".to_vec(), vec![2u8; 2990]),
            (b"c".to_vec(), vec![3u8; 1990])
        ]
    );
    let db = Db::open(&bytes).unwrap();
    for (k, n) in [(b"a", 1990), (b"b", 2990), (b"c", 1990)] {
        assert_eq!(db.get(k).unwrap().unwrap().len(), n);
    }
    assert!(db.get(b"bb").unwrap().is_none());
}

/// Separators that fill a page each, over many levels.
#[test]
fn long_separators() {
    let mut w = Writer::create_new();
    let mut want: Vec<(Vec<u8>, Vec<u8>)> = Vec::new();
    for i in 0..40u32 {
        let n = i.wrapping_mul(27) % 40;
        let mut key = vec![b'x'; 4000];
        key.extend_from_slice(format!("{n:02}").as_bytes());
        assert_eq!(put(&mut w, &key, &[n as u8]), true);
        want.push((key, vec![n as u8]));
    }
    want.sort();
    let bytes = w.finish();
    assert_eq!(pairs(&bytes), want);
    let db = Db::open(&bytes).unwrap();
    for (k, v) in &want {
        assert_eq!(db.get(k).unwrap().unwrap().as_ref(), &v[..]);
    }
}

/// Entries of all sizes, put and deleted in no order.
#[test]
fn entries_of_all_sizes_match_a_map() {
    for seed in 1..6u64 {
        let mut state = seed;
        let mut next = move |below: u64| {
            state = state.wrapping_mul(6_364_136_223_846_793_005).wrapping_add(1_442_695_040_888_963_407);
            (state >> 33) % below
        };
        let mut w = Writer::create_new();
        let mut map: std::collections::BTreeMap<Vec<u8>, Vec<u8>> = std::collections::BTreeMap::new();
        for _ in 0..400 {
            // a few keys, of which some are long
            let n = next(90);
            let mut key = vec![b'k'; if n % 3 == 0 { 40 * n as usize } else { 1 }];
            key.extend_from_slice(format!("{n:02}").as_bytes());
            if next(4) == 0 {
                assert_eq!(w.del(&key).unwrap(), map.remove(&key).is_some());
                continue;
            }
            let longest = (4063 - key.len()) as u64;
            let len = match next(3) {
                0 => longest,
                1 => next(longest + 1),
                _ => next(40),
            };
            let val = vec![next(256) as u8; len as usize];
            assert_eq!(put(&mut w, &key, &val), !map.contains_key(&key));
            map.entry(key).or_insert(val);
        }
        let bytes = w.finish();
        let want: Vec<(Vec<u8>, Vec<u8>)> =
            map.iter().map(|(k, v)| (k.clone(), v.clone())).collect();
        assert_eq!(pairs(&bytes), want);
        let db = Db::open(&bytes).unwrap();
        for (k, v) in &want {
            assert_eq!(db.get(k).unwrap().unwrap().as_ref(), &v[..]);
        }
    }
}

/// A refused or repeated put changes no byte, nor does a delete of a key
/// that is not there.
#[test]
fn refused_put_changes_nothing() {
    let mut a = Writer::create_new();
    let mut b = Writer::create_new();
    for i in 0..300u32 {
        let key = format!("{:03}", i.wrapping_mul(7) % 300).into_bytes();
        let val = vec![i as u8; (i * 5) as usize];
        assert_eq!(put(&mut a, &key, &val), true);
        assert_eq!(put(&mut b, &key, &val), true);
        assert_eq!(put(&mut b, &key, b"other"), false);
        assert!(matches!(
            b.put(&key, &[0u8; 4061]),
            Err(Error::EntryTooLarge { key_len: 3, val_len: 4061 })
        ));
        assert_eq!(b.del(b"none").unwrap(), false);
        assert_eq!(a.page_count(), b.page_count());
    }
    assert_eq!(a.finish(), b.finish());
}

/// Entries of half a page, slot and all, always find room.
#[test]
fn half_page_entries_always_fit() {
    let mut w = Writer::create_new();
    let mut keys: Vec<Vec<u8>> = Vec::new();
    for i in 0..120u32 {
        let n = i.wrapping_mul(37) % 120;
        let key = format!("{n:03}").into_bytes();
        // 9 + 3 + 2024 = 2036, plus the slot 2038
        let val = vec![n as u8; if n % 3 == 0 { 2024 } else { 10 * n as usize }];
        assert_eq!(put(&mut w, &key, &val), true);
        keys.push(key);
    }
    keys.sort();
    let got: Vec<Vec<u8>> = pairs(&w.finish()).into_iter().map(|p| p.0).collect();
    assert_eq!(got, keys);
}

/// Deletes between inserts of such entries do not change that.
#[test]
fn half_page_entries_fit_after_deletes() {
    let mut w = Writer::create_new();
    for round in 0..4u32 {
        for i in 0..60u32 {
            let key = format!("{:02}", i.wrapping_mul(29) % 60).into_bytes();
            if (i + round) % 3 == 0 {
                w.del(&key).unwrap();
            } else {
                let fresh = w.del(&key).unwrap();
                assert_eq!(fresh, round > 0 && (i + round - 1) % 3 != 0);
                // 9 + 2 + 2025 = 2036, plus the slot 2038
                assert_eq!(put(&mut w, &key, &vec![round as u8; 2025]), true);
            }
        }
    }
    assert_eq!(pairs(&w.finish()).len(), 40);
}

/// A leftmost leaf that has been emptied does not end the iteration.
#[test]
fn iteration_passes_emptied_leaves() {
    let mut w = Writer::create_new();
    for i in 0..300u32 {
        put(&mut w, &i.to_be_bytes(), &[9u8; 50]);
    }
    for i in 0..150u32 {
        assert!(w.del(&i.to_be_bytes()).unwrap());
    }
    let got = pairs(&w.finish());
    assert_eq!(got.len(), 150);
    assert_eq!(got[0].0[..], 150u32.to_be_bytes());
}
