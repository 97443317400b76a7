//! Reader tests on files laid out by hand.

use db185::key::Order;
use db185::{Db, Endian, Entry, Error};

const PSIZE: usize = 512;

/// A file under construction, in one byte order.
struct Build {
    bytes: Vec<u8>,
    endian: Endian,
}

impl Build {
    fn new(pages: usize, endian: Endian) -> Build {
        let mut b = Build { bytes: vec![0u8; pages * PSIZE], endian };
        b.u32(0, 0x0005_3162);
        b.u32(4, 3);
        b.u32(8, PSIZE as u32);
        b.u32(20, 0x20);
        b
    }

    fn u16(&mut self, off: usize, v: u16) {
        let b = match self.endian {
            Endian::Little => v.to_le_bytes(),
            Endian::Big => v.to_be_bytes(),
        };
        self.bytes[off..off + 2].copy_from_slice(&b);
    }

    fn u32(&mut self, off: usize, v: u32) {
        let b = match self.endian {
            Endian::Little => v.to_le_bytes(),
            Endian::Big => v.to_be_bytes(),
        };
        self.bytes[off..off + 4].copy_from_slice(&b);
    }

    fn header(&mut self, p: usize, prev: u32, next: u32, flags: u32, lower: u16, upper: u16) {
        let at = p * PSIZE;
        self.u32(at, p as u32);
        self.u32(at + 4, prev);
        self.u32(at + 8, next);
        self.u32(at + 12, flags);
        self.u16(at + 16, lower);
        self.u16(at + 18, upper);
    }

    /// A page with entries of `(second word, flags, key bytes, value bytes)`.
    fn page(
        &mut self,
        p: usize,
        prev: u32,
        next: u32,
        flags: u32,
        entries: &[(u32, u8, &[u8], &[u8])],
    ) {
        let at = p * PSIZE;
        let mut upper = PSIZE;
        for (i, (word, eflags, key, val)) in entries.iter().enumerate() {
            upper -= (9 + key.len() + val.len() + 3) / 4 * 4;
            self.u32(at + upper, key.len() as u32);
            self.u32(at + upper + 4, *word);
            self.bytes[at + upper + 8] = *eflags;
            let k = at + upper + 9;
            self.bytes[k..k + key.len()].copy_from_slice(key);
            let v = k + key.len();
            self.bytes[v..v + val.len()].copy_from_slice(val);
            self.u16(at + 20 + 2 * i, upper as u16);
        }
        self.header(p, prev, next, flags, 20 + 2 * entries.len() as u16, upper as u16);
    }

    fn leaf(&mut self, p: usize, prev: u32, next: u32, pairs: &[(&[u8], &[u8])]) {
        let entries: Vec<(u32, u8, &[u8], &[u8])> =
            pairs.iter().map(|(k, v)| (v.len() as u32, 0u8, *k, *v)).collect();
        self.page(p, prev, next, 2, &entries);
    }

    fn internal(&mut self, p: usize, prev: u32, next: u32, children: &[(&[u8], u32)]) {
        let none: &[u8] = &[];
        let entries: Vec<(u32, u8, &[u8], &[u8])> =
            children.iter().map(|(k, c)| (*c, 0u8, *k, none)).collect();
        self.page(p, prev, next, 1, &entries);
    }

    fn overflow(&mut self, p: usize, next: u32, payload: &[u8]) {
        self.header(p, 0, next, 4, 20, 512);
        let at = p * PSIZE + 20;
        self.bytes[at..at + payload.len()].copy_from_slice(payload);
    }

    /// An `{pgno, size}` reference.
    fn reference(&self, pgno: u32, size: u32) -> Vec<u8> {
        let (a, b) = match self.endian {
            Endian::Little => (pgno.to_le_bytes(), size.to_le_bytes()),
            Endian::Big => (pgno.to_be_bytes(), size.to_be_bytes()),
        };
        [a, b].concat()
    }
}

fn collect(db: &Db) -> Vec<(Vec<u8>, Vec<u8>)> {
    let mut iter = db.iter();
    let mut out: Vec<(Vec<u8>, Vec<u8>)> = Vec::new();
    while let Some(entry) = iter.next() {
        let (k, v) = entry.unwrap().into_parts();
        out.push((k.into_owned(), v.into_owned()));
    }
    assert!(iter.next().is_none());
    out
}

fn get(db: &Db, key: &[u8]) -> Option<Vec<u8>> {
    db.get(key).unwrap().map(|v| v.into_owned())
}

/// Two levels, with the leaves not in page order.
fn two_levels(endian: Endian) -> Vec<u8> {
    let mut b = Build::new(5, endian);
    b.internal(1, 0, 0, &[(b"", 4), (b"h", 2), (b"p", 3)]);
    b.leaf(4, 0, 2, &[(b"a", b"1"), (b"c", b"2")]);
    b.leaf(2, 4, 3, &[(b"h", b"3"), (b"k", b"4"), (b"o", b"5")]);
    b.leaf(3, 2, 0, &[(b"q", b"6")]);
    b.bytes
}

#[test]
fn either_byte_order_on_either_host() {
    for endian in [Endian::Little, Endian::Big] {
        let bytes = two_levels(endian);
        for host in [Endian::Little, Endian::Big] {
            let db = Db::open_on(&bytes, host).unwrap();
            let got = collect(&db);
            let keys: Vec<&[u8]> = got.iter().map(|p| &p.0[..]).collect();
            let want: Vec<&[u8]> = vec![b"a", b"c", b"h", b"k", b"o", b"q"];
            assert_eq!(keys, want);
            for (k, v) in &got {
                assert_eq!(get(&db, k), Some(v.clone()));
            }
            for absent in [&b""[..], b"b", b"d", b"g", b"i", b"p", b"z"] {
                assert_eq!(get(&db, absent), None);
            }
        }
        let db = Db::open(&bytes).unwrap();
        assert_eq!(get(&db, b"k"), Some(b"4".to_vec()));
    }
}

#[test]
fn inline_values_are_borrowed() {
    let bytes = two_levels(Endian::Little);
    let db = Db::open(&bytes).unwrap();
    assert!(matches!(db.get(b"q").unwrap(), Some(std::borrow::Cow::Borrowed(b"6"))));
    let entry: Entry = db.iter().next().unwrap().unwrap();
    assert_eq!((entry.key(), entry.value()), (&b"a"[..], &b"1"[..]));
    let copy = entry.clone();
    assert_eq!(copy.key(), entry.key());
    let (k, v) = entry.into_parts();
    assert!(matches!((k, v), (std::borrow::Cow::Borrowed(_), std::borrow::Cow::Borrowed(_))));
}

#[test]
fn first_separator_of_a_level_does_not_count() {
    let mut b = Build::new(4, Endian::Big);
    b.internal(1, 0, 0, &[(b"zzz", 2), (b"m", 3)]);
    b.leaf(2, 0, 3, &[(b"a", b"1")]);
    b.leaf(3, 2, 0, &[(b"m", b"2")]);
    let db = Db::open(&b.bytes).unwrap();
    assert_eq!(get(&db, b"a"), Some(b"1".to_vec()));
    assert_eq!(get(&db, b"m"), Some(b"2".to_vec()));
}

#[test]
fn overflow_values_and_keys() {
    for endian in [Endian::Little, Endian::Big] {
        let long: Vec<u8> = (0..1200u32).map(|i| (i % 251) as u8).collect();
        let long_key: Vec<u8> = vec![b'k'; 600];
        let mut b = Build::new(8, endian);
        let value = b.reference(2, 1200);
        let key = b.reference(5, 600);
        b.page(1, 0, 0, 2, &[
            (value.len() as u32, 1, b"big", &value),
            (1, 2, &key, b"x"),
            (1, 0, b"l", b"y"),
        ]);
        b.overflow(2, 3, &long[..492]);
        b.overflow(3, 4, &long[492..984]);
        b.overflow(4, 0, &long[984..]);
        b.overflow(5, 6, &long_key[..492]);
        b.overflow(6, 0, &long_key[492..]);
        let db = Db::open(&b.bytes).unwrap();
        let got = db.get(b"big").unwrap().unwrap();
        assert!(matches!(got, std::borrow::Cow::Owned(_)));
        assert_eq!(got.as_ref(), &long[..]);
        assert_eq!(db.fetch_overflow(2, 1200).unwrap(), long);
        assert_eq!(db.fetch_overflow(5, 600).unwrap(), long_key);
        assert!(matches!(db.fetch_overflow(5, 985), Err(Error::CorruptOverflow { pgno: 5 })));
        let mut above = long_key.clone();
        above[599] = 0xff;
        let probes: [&[u8]; 8] = [
            b"",
            b"k",
            b"l",
            &long_key[..492],
            &long_key[..599],
            &long_key,
            &above,
            &[b'k'; 601],
        ];
        for probe in probes {
            let want = match probe.cmp(&long_key[..]) {
                std::cmp::Ordering::Less => Order::Less,
                std::cmp::Ordering::Equal => Order::Equal,
                std::cmp::Ordering::Greater => Order::Greater,
            };
            assert_eq!(db.compare_overflow(probe, 5, 600).unwrap(), want);
        }
        assert_eq!(get(&db, &long_key), Some(b"x".to_vec()));
        assert_eq!(get(&db, &long_key[..599]), None);
        assert_eq!(get(&db, &long_key[..492]), None);
        assert_eq!(get(&db, &vec![b'k'; 601]), None);
        let mut other = long_key.clone();
        other[550] = b'z';
        assert_eq!(get(&db, &other), None);
        assert_eq!(get(&db, b"l"), Some(b"y".to_vec()));
        assert_eq!(
            collect(&db),
            vec![
                (b"big".to_vec(), long.clone()),
                (long_key.clone(), b"x".to_vec()),
                (b"l".to_vec(), b"y".to_vec()),
            ]
        );
    }
}

#[test]
fn broken_overflow_chains() {
    let mut b = Build::new(4, Endian::Little);
    let value = b.reference(2, 1000);
    b.page(1, 0, 0, 2, &[(8, 1, b"big", &value)]);
    b.overflow(2, 0, &[1u8; 492]);
    b.leaf(3, 0, 0, &[]);
    {
        let db = Db::open(&b.bytes).unwrap();
        assert!(matches!(db.get(b"big"), Err(Error::CorruptOverflow { pgno: 2 })));
    }
    // the next page is no overflow page
    b.overflow(2, 3, &[1u8; 492]);
    {
        let db = Db::open(&b.bytes).unwrap();
        assert!(matches!(db.get(b"big"), Err(Error::CorruptOverflow { pgno: 2 })));
        let mut iter = db.iter();
        assert!(matches!(iter.next(), Some(Err(Error::CorruptOverflow { pgno: 2 }))));
        assert!(iter.next().is_none());
    }
    // the next page is past the end
    b.overflow(2, 77, &[1u8; 492]);
    let db = Db::open(&b.bytes).unwrap();
    assert!(matches!(db.get(b"big"), Err(Error::PageOutOfBounds { pgno: 77 })));
}

#[test]
fn overflow_reference_too_short() {
    let mut b = Build::new(2, Endian::Little);
    b.page(1, 0, 0, 2, &[(4, 1, b"k", b"1234")]);
    let db = Db::open(&b.bytes).unwrap();
    assert!(matches!(
        db.get(b"k"),
        Err(Error::CorruptPage { pgno: 1, reason: "overflow ref too short" })
    ));
}

#[test]
fn refused_meta_pages() {
    let good = Build::new(2, Endian::Little);
    assert!(Db::open(&good.bytes).is_ok());
    assert!(matches!(Db::open(&good.bytes[..23]), Err(Error::ShortFile)));
    assert!(matches!(Db::open(&[]), Err(Error::ShortFile)));

    let mut b = Build::new(2, Endian::Little);
    b.u32(0, 0xdead_beef);
    assert!(matches!(
        Db::open_on(&b.bytes, Endian::Little),
        Err(Error::BadMagic { magic: 0xefbe_adde })
    ));
    assert!(matches!(
        Db::open_on(&b.bytes, Endian::Big),
        Err(Error::BadMagic { magic: 0xdead_beef })
    ));

    let mut b = Build::new(2, Endian::Big);
    b.u32(4, 2);
    assert!(matches!(Db::open(&b.bytes), Err(Error::BadVersion { version: 2 })));

    for psize in [0u32, 510, 513, 65538] {
        let mut b = Build::new(2, Endian::Big);
        b.u32(8, psize);
        match Db::open(&b.bytes) {
            Err(Error::BadPageSize { psize: got }) => assert_eq!(got, psize),
            _ => panic!("page size {psize} accepted"),
        }
    }

    for flags in [0x80u32, 0xa0, 0x01, 0x120] {
        let mut b = Build::new(2, Endian::Little);
        b.u32(20, flags);
        match Db::open(&b.bytes) {
            Err(Error::UnsupportedFlags { flags: got }) => assert_eq!(got, flags),
            _ => panic!("flags {flags} accepted"),
        }
    }
    let mut b = Build::new(2, Endian::Little);
    b.u32(20, 0);
    assert!(Db::open(&b.bytes).is_ok());

    let good = Build::new(2, Endian::Little);
    assert!(matches!(
        Db::open(&good.bytes[..1000]),
        Err(Error::UnalignedFileLength { len: 1000, psize: 512 })
    ));
}

#[test]
fn missing_root() {
    let b = Build::new(1, Endian::Little);
    let db = Db::open(&b.bytes).unwrap();
    assert!(matches!(db.get(b"x"), Err(Error::PageOutOfBounds { pgno: 1 })));
    let mut iter = db.iter();
    assert!(matches!(iter.next(), Some(Err(Error::PageOutOfBounds { pgno: 1 }))));
    assert!(iter.next().is_none());
}

#[test]
fn corrupt_pages() {
    let reason = |b: &Build| match Db::open(&b.bytes).unwrap().get(b"k") {
        Err(Error::CorruptPage { pgno, reason }) => (pgno, reason),
        _ => panic!("page accepted"),
    };
    for (lower, upper) in [(19u16, 512u16), (20, 513), (300, 200), (21, 512)] {
        let mut b = Build::new(2, Endian::Little);
        b.header(1, 0, 0, 2, lower, upper);
        assert_eq!(reason(&b), (1, "page bounds inconsistent"));
    }
    let mut b = Build::new(2, Endian::Little);
    b.header(1, 0, 0, 8, 20, 512);
    assert_eq!(reason(&b), (1, "unsupported page type"));
    b.header(1, 0, 0, 4, 20, 512);
    assert_eq!(reason(&b), (1, "non-internal page during descent"));

    let mut b = Build::new(2, Endian::Little);
    b.leaf(1, 0, 0, &[(b"k", b"v")]);
    b.u16(PSIZE + 20, 505);
    assert_eq!(reason(&b), (1, "u32 read out of range"));
    b.u16(PSIZE + 20, 504);
    assert_eq!(reason(&b), (1, "byte read out of range"));
    b.u16(PSIZE + 20, 500);
    b.u32(PSIZE + 504, 4);
    assert_eq!(reason(&b), (1, "leaf payload out of range"));

    let mut b = Build::new(2, Endian::Little);
    b.internal(1, 0, 0, &[(b"k", 1)]);
    b.u32(PSIZE + 500, 4);
    assert_eq!(reason(&b), (1, "internal payload out of range"));
}

/// A handle carries over to other memory that holds the file.
#[test]
fn handle_over_other_memory() {
    for endian in [Endian::Little, Endian::Big] {
        let bytes = two_levels(endian);
        let opened = Db::open(&bytes).unwrap().over(&[]);
        assert!(matches!(opened.get(b"a"), Err(Error::PageOutOfBounds { pgno: 1 })));
        let mut copy = bytes.clone();
        // what the meta page says now does not matter
        copy[..24].fill(0);
        let db = opened.over(&copy);
        assert_eq!(collect(&db), collect(&Db::open(&bytes).unwrap()));
    }
}

/// An offset in `linp[]` that no entry can have is caught when the entry is
/// read.
#[test]
fn offsets_outside_the_entry_region() {
    for endian in [Endian::Little, Endian::Big] {
        for flags in [1u32, 2] {
            let mut b = Build::new(2, endian);
            let first = |b: &Build| match Db::open(&b.bytes).unwrap().get(b"k") {
                Err(Error::CorruptPage { pgno, reason }) => (pgno, reason),
                _ => panic!("page accepted"),
            };
            // the page header as an entry
            b.header(1, 0, 0, flags, 22, 512);
            assert_eq!(first(&b), (1, "entry offset outside entry region"));
            // one byte before the region
            b.header(1, 0, 0, flags, 22, 480);
            b.u16(PSIZE + 20, 479);
            assert_eq!(first(&b), (1, "entry offset outside entry region"));
            for off in [481u16, 482, 483] {
                b.u16(PSIZE + 20, off);
                assert_eq!(first(&b), (1, "entry offset misaligned"));
            }
            assert!(matches!(
                Db::open(&b.bytes).unwrap().iter().next(),
                Some(Err(Error::CorruptPage { pgno: 1, reason: "entry offset misaligned" }))
            ));
            // in the region and aligned: an entry with an empty key
            b.u16(PSIZE + 20, 480);
            assert!(!matches!(
                Db::open(&b.bytes).unwrap().get(b"k"),
                Err(Error::CorruptPage { reason: "entry offset misaligned", .. })
            ));
        }
    }
}

/// A tree whose leftmost leaf is said to be page 0, the meta page: its
/// fields are those of a leaf header too, its page size the number of the
/// next leaf, and its flags the first offset.
#[test]
fn scan_from_page_zero() {
    let mut b = Build::new(PSIZE + 1, Endian::Little);
    b.internal(1, 0, 0, &[(b"", 0)]);
    b.leaf(PSIZE, 0, 0, &[(b"n", b"x")]);
    // flags, lower and upper
    b.u32(12, 2);
    b.u16(16, 22);
    b.u16(18, 32);
    // the entry at offset 0x20
    b.u32(32, 1);
    b.u32(36, 2);
    b.bytes[41..44].copy_from_slice(b"kvw");
    let db = Db::open(&b.bytes).unwrap();
    assert_eq!(get(&db, b"k"), Some(b"vw".to_vec()));
    assert_eq!(
        collect(&db),
        vec![(b"k".to_vec(), b"vw".to_vec()), (b"n".to_vec(), b"x".to_vec())]
    );
}

#[test]
fn cycles_are_reported() {
    let mut b = Build::new(3, Endian::Little);
    b.internal(1, 0, 0, &[(b"", 2)]);
    b.internal(2, 0, 0, &[(b"", 1)]);
    let db = Db::open(&b.bytes).unwrap();
    assert!(matches!(
        db.get(b"k"),
        Err(Error::CorruptPage { reason: "cycle during descent", .. })
    ));
    assert!(matches!(
        db.iter().next(),
        Some(Err(Error::CorruptPage { reason: "cycle during seq descent", .. }))
    ));
    let mut b = Build::new(3, Endian::Little);
    b.leaf(1, 0, 2, &[]);
    b.leaf(2, 1, 1, &[]);
    let db = Db::open(&b.bytes).unwrap();
    assert!(matches!(
        db.iter().next(),
        Some(Err(Error::CorruptPage { reason: "cycle among seq siblings", .. }))
    ));
}

#[test]
fn iteration_skips_empty_leaves() {
    let mut b = Build::new(6, Endian::Big);
    b.internal(1, 0, 0, &[(b"", 2), (b"c", 3), (b"f", 4), (b"m", 5)]);
    b.leaf(2, 0, 3, &[]);
    b.leaf(3, 2, 4, &[(b"d", b"1")]);
    b.leaf(4, 3, 5, &[]);
    b.leaf(5, 4, 0, &[(b"n", b"2")]);
    let db = Db::open(&b.bytes).unwrap();
    assert_eq!(
        collect(&db),
        vec![(b"d".to_vec(), b"1".to_vec()), (b"n".to_vec(), b"2".to_vec())]
    );
    assert_eq!(get(&db, b"b"), None);
    assert_eq!(get(&db, b"n"), Some(b"2".to_vec()));
}

#[test]
fn iteration_ends_at_the_first_error() {
    let mut b = Build::new(4, Endian::Little);
    b.internal(1, 0, 0, &[(b"", 2), (b"m", 3)]);
    b.leaf(2, 0, 3, &[(b"a", b"1"), (b"b", b"2")]);
    b.internal(3, 2, 0, &[(b"x", 2)]);
    let db = Db::open(&b.bytes).unwrap();
    let mut iter = db.iter();
    assert_eq!(iter.next().unwrap().unwrap().key(), b"a");
    assert!(matches!(
        iter.next(),
        Some(Err(Error::CorruptPage { pgno: 3, reason: "seq sibling is not a leaf" }))
    ));
    assert!(iter.next().is_none());
    assert!(iter.next().is_none());
}

#[test]
fn empty_tree() {
    let mut b = Build::new(2, Endian::Little);
    b.leaf(1, 0, 0, &[]);
    let db = Db::open(&b.bytes).unwrap();
    assert!(collect(&db).is_empty());
    assert_eq!(get(&db, b""), None);
}
