# Berkeley DB 1.85 btree files, verified

`db185` reads and writes Berkeley DB 1.85 btree files - the on-disk format
used by 4.4BSD's `dbopen(3)` and still shipped today in NetBSD `libc` and
pkgsrc's `libnbcompat`.  The library under `src/` is written and proved in
[Verus](https://github.com/verus-lang/verus); it works on bytes in memory.

- **Reader:** any Berkeley DB 1.85 btree file, in either byte order.  Every
  byte sequence gets an exact answer, corrupt ones included.
- **Writer:** builds a new file from scratch.  Each key/value pair must fit
  in a single page (~4 KiB).

Hash and recno access methods are out of scope.

## Layout

| where | what |
|-------|------|
| `src/db.rs`, `src/iter.rs` | lookup and forward iteration |
| `src/image.rs` | what a file means to a reader, errors included |
| `src/sound.rs` | what a sound file holds, and that the reader finds it |
| `src/page.rs`, `src/format.rs`, `src/bytes.rs` | pages, constants, integers |
| `src/key.rs` | the order of keys |
| `src/writer/` | the writer |
| `src/writer/model.rs`, `page_buf.rs` | one page: its active content, and its bytes |
| `src/writer/tree.rs`, `grow.rs` | the search tree that the pages form, and how splits keep it |
| `src/writer/plan.rs`, `halves.rs`, `separator.rs` | where a page is split, and what the parent gets |
| `src/writer/layout.rs`, `climb.rs`, `arena.rs` | what insertion and removal do to the pages |
| `src/writer/pack.rs`, `spread.rs` | packing of entries that a split in two leaves no room for |
| `src/writer/compact.rs` | small entries never need it |
| `src/writer/file.rs`, `read_back.rs` | the finished file, and that a reader finds in it what was written |
| `src/dump.rs` | text lines in the form of `pkg_admin dump` |
| `app/` | files on disk: `mmap` for reading, create and write for writing |

## What is proved

- Whether a pair is stored depends on its two lengths alone: one that fits a
  leaf, and whose key fits a root as a separator, is stored whatever else the
  tree holds.  Any other is refused, and then nothing changes.
- Where pages are split in two, every byte of them is determined, padding and
  slack included.
- A finished file opens on machines of either byte order.
- Looking up a key in it gives the value that was put, and nothing for a key
  that was not, or was deleted.
- Iterating it yields every pair once, in ascending key order.
- The same holds of any sound file, whoever wrote it: any page size, overflow
  keys and values, unused pages.
- No call panics or fails to return, whatever the bytes.

One thing is taken on trust: that `u32::to_ne_bytes` gives the bytes of an
integer in one of the two byte orders.
