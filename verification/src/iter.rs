//! Forward sequential scan.
//!
//! Equivalent to `seq(R_FIRST)` followed by repeated `seq(R_NEXT)` in the
//! historical `dbopen(3)` API.  Iteration starts at the leftmost leaf that
//! has entries (found by descending child 0 of every internal page and then
//! following the sibling links) and advances along the leaf sibling chain
//! via the `nextpg` link.
//!
//! The iterator yields [`Entry`] values that borrow directly from the bytes
//! of the database: an inline key or value is returned as a
//! `Cow::Borrowed(&[u8])` with no per-entry allocation.  Overflow keys and
//! values are materialised at yield time into `Cow::Owned`.

use crate::db::Db;
use crate::error::Error;
use crate::format::{P_INVALID, P_ROOT};
use crate::image::{Image, Spot};
use crate::page::{LeafEntry, PageView};
use std::borrow::Cow;
use vstd::prelude::*;
use vstd::slice::slice_to_vec;

verus! {

/// A key/value pair yielded by [`Iter`].
///
/// `Entry` borrows from the bytes of the database.  Inline fields cost no
/// allocation; overflow fields hold an owned `Vec<u8>`.
#[derive(Debug)]
pub struct Entry<'a> {
    pub key: Cow<'a, [u8]>,
    pub value: Cow<'a, [u8]>,
}

impl<'a> View for Entry<'a> {
    type V = (Seq<u8>, Seq<u8>);

    open spec fn view(&self) -> (Seq<u8>, Seq<u8>) {
        (self.key@, self.value@)
    }
}

fn borrow_bytes<'b>(bytes: &'b Cow<'_, [u8]>) -> (r: &'b [u8])
    ensures
        r@ == bytes@,
{
    match bytes {
        Cow::Borrowed(s) => *s,
        Cow::Owned(v) => v.as_slice(),
    }
}

fn clone_bytes<'a>(bytes: &Cow<'a, [u8]>) -> (r: Cow<'a, [u8]>)
    ensures
        r@ == bytes@,
        r is Borrowed <==> bytes is Borrowed,
{
    match bytes {
        Cow::Borrowed(s) => Cow::Borrowed(*s),
        Cow::Owned(v) => Cow::Owned(slice_to_vec(v.as_slice())),
    }
}

impl<'a> Clone for Entry<'a> {
    fn clone(&self) -> (r: Self)
        ensures
            r@ == self@,
            r.key is Borrowed <==> self.key is Borrowed,
            r.value is Borrowed <==> self.value is Borrowed,
    {
        Entry { key: clone_bytes(&self.key), value: clone_bytes(&self.value) }
    }
}

impl<'a> Entry<'a> {
    /// What is inline in `leaf` is borrowed here, and what is not is owned.
    pub open spec fn borrows(&self, leaf: LeafEntry) -> bool {
        &&& self.key is Borrowed <==> leaf.key is Inline
        &&& self.value is Borrowed <==> leaf.data is Inline
    }

    /// Borrow the key bytes for this entry.
    pub fn key(&self) -> (r: &[u8])
        ensures
            r@ == self@.0,
    {
        borrow_bytes(&self.key)
    }

    /// Borrow the value bytes for this entry.
    pub fn value(&self) -> (r: &[u8])
        ensures
            r@ == self@.1,
    {
        borrow_bytes(&self.value)
    }

    /// Decompose into key and value.  Inline fields are returned as
    /// `Cow::Borrowed` slices of the database; overflowed fields are
    /// returned as `Cow::Owned`.
    pub fn into_parts(self) -> (r: (Cow<'a, [u8]>, Cow<'a, [u8]>))
        ensures
            r == (self.key, self.value),
    {
        (self.key, self.value)
    }
}

/// Where the iterator is currently positioned.
#[derive(Clone, Copy)]
enum State<'a> {
    /// Not yet initialised; the tree spine has not been descended.
    Pristine,
    /// Positioned on a loaded leaf page, before entry `index`.
    Active { view: PageView<'a>, index: usize },
    /// Iterator exhausted or terminated by an error.
    Done,
}

/// Forward iterator over a [`Db`].  Yields `Result<Entry>`; iteration stops
/// on the first error.
pub struct Iter<'a> {
    db: Db<'a>,
    state: State<'a>,
}

impl<'a> State<'a> {
    spec fn spot(&self) -> Spot {
        match self {
            State::Pristine => Spot::Start,
            State::Active { view, index } => Spot::At { page: view@, index: *index as int },
            State::Done => Spot::End,
        }
    }

    spec fn wf(&self) -> bool {
        match self {
            State::Active { view, index } => view.wf() && index < view@.nentries(),
            _ => true,
        }
    }
}

impl<'a> View for Iter<'a> {
    type V = (Image, Spot);

    closed spec fn view(&self) -> (Image, Spot) {
        (self.db@, self.state.spot())
    }
}

impl<'a> Iter<'a> {
    pub closed spec fn wf(&self) -> bool {
        self.db.wf() && self.state.wf()
    }

    pub(crate) fn new(db: Db<'a>) -> (r: Iter<'a>)
        requires
            db.wf(),
        ensures
            r.wf(),
            r@ == (db@, Spot::Start),
    {
        Iter { db, state: State::Pristine }
    }

    /// Walk down the left spine of the tree to the leftmost non-empty leaf.
    /// Returns [`State::Done`] for an empty tree.
    fn initial_state(&self) -> (r: Result<State<'a>, Error>)
        requires
            self.wf(),
        ensures
            match r {
                Ok(s) => self.db@.first_leaf(P_ROOT, self.db@.npages()) == Ok::<Spot, Error>(
                    s.spot(),
                ) && s.wf() && s !is Pristine,
                Err(e) => self.db@.first_leaf(P_ROOT, self.db@.npages()) == Err::<Spot, Error>(e),
            },
    {
        let mut pgno: u32 = P_ROOT;
        let mut hops = self.db.npages();
        loop
            invariant
                self.wf(),
                self.db@.first_leaf(P_ROOT, self.db@.npages()) == self.db@.first_leaf(
                    pgno,
                    hops as nat,
                ),
            decreases hops,
        {
            let view = match self.db.page(pgno) {
                Err(e) => return Err(e),
                Ok(view) => view,
            };
            if view.is_leaf() {
                if view.nentries() > 0 {
                    return Ok(State::Active { view, index: 0 });
                }
                return self.advance_leaf(view.next_pg);
            }
            if view.nentries() == 0 {
                return Ok(State::Done);
            }
            if !view.is_internal() {
                return Err(
                    Error::CorruptPage {
                        pgno: view.pgno,
                        reason: "non-internal page during seq descent",
                    },
                );
            }
            let entry = match view.internal_entry(0) {
                Err(e) => return Err(e),
                Ok(entry) => entry,
            };
            if hops == 0 {
                return Err(
                    Error::CorruptPage { pgno: view.pgno, reason: "cycle during seq descent" },
                );
            }
            hops = hops - 1;
            pgno = entry.child;
        }
    }

    /// Move to the start of the next non-empty leaf, from `next_pg` on, or
    /// to [`State::Done`] when no more siblings remain.
    fn advance_leaf(&self, next_pg: u32) -> (r: Result<State<'a>, Error>)
        requires
            self.wf(),
        ensures
            match r {
                Ok(s) => self.db@.next_leaf(next_pg, self.db@.npages()) == Ok::<Spot, Error>(
                    s.spot(),
                ) && s.wf() && s !is Pristine,
                Err(e) => self.db@.next_leaf(next_pg, self.db@.npages()) == Err::<Spot, Error>(e),
            },
    {
        let mut pgno = next_pg;
        let mut hops = self.db.npages();
        while pgno != P_INVALID
            invariant
                self.wf(),
                self.db@.next_leaf(next_pg, self.db@.npages()) == self.db@.next_leaf(
                    pgno,
                    hops as nat,
                ),
            decreases hops,
        {
            let view = match self.db.page(pgno) {
                Err(e) => return Err(e),
                Ok(view) => view,
            };
            if !view.is_leaf() {
                return Err(
                    Error::CorruptPage { pgno: view.pgno, reason: "seq sibling is not a leaf" },
                );
            }
            if view.nentries() > 0 {
                return Ok(State::Active { view, index: 0 });
            }
            if hops == 0 {
                return Err(
                    Error::CorruptPage { pgno: view.pgno, reason: "cycle among seq siblings" },
                );
            }
            hops = hops - 1;
            pgno = view.next_pg;
        }
        Ok(State::Done)
    }

    /// Decode entry `index` of `view`, advance the iterator state, and
    /// return the resulting [`Entry`].
    fn yield_current(&mut self, view: PageView<'a>, index: usize) -> (r: Result<Entry<'a>, Error>)
        requires
            old(self).wf(),
            old(self)@.1 == Spot::End,
            view.wf(),
            index < view@.nentries(),
        ensures
            final(self).wf(),
            final(self)@.0 == old(self)@.0,
            match r {
                Ok(entry) => old(self)@.0.entry(view@, index as int) == Ok::<
                    ((Seq<u8>, Seq<u8>), Spot),
                    Error,
                >((entry@, final(self)@.1)) && (view@.leaf_entry(index as int) matches Ok(leaf)
                    && entry.borrows(leaf)),
                Err(e) => old(self)@.0.entry(view@, index as int) == Err::<
                    ((Seq<u8>, Seq<u8>), Spot),
                    Error,
                >(e) && final(self)@.1 == Spot::End,
            },
    {
        let leaf = match view.leaf_entry(index) {
            Err(e) => return Err(e),
            Ok(leaf) => leaf,
        };
        let key = match self.db.materialise(&view, leaf.key) {
            Err(e) => return Err(e),
            Ok(key) => key,
        };
        let value = match self.db.materialise(&view, leaf.data) {
            Err(e) => return Err(e),
            Ok(value) => value,
        };
        let nentries = view.nentries();
        if index + 1 < nentries {
            self.state = State::Active { view, index: index + 1 };
        } else {
            match self.advance_leaf(view.next_pg) {
                Err(e) => return Err(e),
                Ok(state) => {
                    self.state = state;
                },
            }
        }
        Ok(Entry { key, value })
    }

    /// The next entry in sorted order, or `None` once all have been yielded
    /// or an error has been.
    pub fn next(&mut self) -> (r: Option<Result<Entry<'a>, Error>>)
        requires
            old(self).wf(),
        ensures
            final(self).wf(),
            final(self)@.0 == old(self)@.0,
            final(self)@.1 == old(self)@.0.step(old(self)@.1).1,
            match r {
                None => old(self)@.0.step(old(self)@.1).0 is None,
                Some(Ok(entry)) => old(self)@.0.step(old(self)@.1).0 == Some(
                    Ok::<(Seq<u8>, Seq<u8>), Error>(entry@),
                ) && (old(self)@.0.leaf_at(old(self)@.1) matches Some(leaf) && entry.borrows(
                    leaf,
                )),
                Some(Err(e)) => old(self)@.0.step(old(self)@.1).0 == Some(
                    Err::<(Seq<u8>, Seq<u8>), Error>(e),
                ),
            },
    {
        let state = self.state;
        self.state = State::Done;
        let state = match state {
            State::Pristine => match self.initial_state() {
                Err(e) => return Some(Err(e)),
                Ok(state) => state,
            },
            state => state,
        };
        match state {
            State::Active { view, index } => Some(self.yield_current(view, index)),
            _ => None,
        }
    }
}

} // verus!
