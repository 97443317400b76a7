//! Read and write Berkeley DB 1.85 btree files - the on-disk format used by
//! 4.4BSD's `dbopen(3)` and still shipped today in NetBSD `libc` and
//! pkgsrc's `libnbcompat`.  Hash and recno access methods are out of scope.
//!
//! # Reader
//!
//! [`Db`] opens the bytes of an existing file, retrieves values by key, and
//! iterates all key/value pairs in sorted order via [`Iter`].  Files written
//! in either byte order are accepted.  What a file holds is said byte by
//! byte in [`disk`], and proved to be what the reader finds.
//!
//! # Writer
//!
//! [`Writer`] builds a new file from scratch via a sequence of
//! [`Writer::put`] / [`Writer::del`] operations, handed out by
//! [`Writer::finish`].  It does not modify existing files, and writes in the
//! byte order of the machine unless told otherwise (the reader handles
//! both).  That a reader finds in the file what the writer held is proved in
//! [`writer::read_back`]; where entries go, page by page, is said in
//! [`writer::rules`].
//!
//! Each key/value pair must fit in a single page (~4 KiB); larger entries
//! return [`Error::EntryTooLarge`].
//!
//! # Errors
//!
//! Fallible operations return a `Result`.  [`Error`] distinguishes the
//! on-disk format problems (bad magic, unsupported version, corrupt pages).

pub mod bytes;
pub mod db;
pub mod disk;
pub mod dump;
pub mod error;
pub mod format;
pub mod image;
pub mod iter;
pub mod key;
pub mod page;
pub mod sound;
pub mod writer;

pub use crate::bytes::Endian;
pub use crate::db::Db;
pub use crate::error::Error;
pub use crate::iter::{Entry, Iter};
pub use crate::writer::Writer;
