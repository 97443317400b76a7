//! Binary search within a page.

use crate::key;
use crate::key::{compare, Order};
use crate::writer::page_buf::PageBuf;
use crate::writer::tree;
use vstd::prelude::*;

verus! {

/// Binary-search a leaf for `key`.  Returns `(exact, idx)`: `exact` is
/// `true` if a record with `key` exists, in which case `idx` is its
/// position; otherwise `idx` is the position where the new record should be
/// inserted.
pub fn leaf_search(page: &PageBuf, key: &[u8]) -> (r: (bool, usize))
    requires
        page.wf(),
        tree::sorted(page@.items()),
    ensures
        r.0 == tree::present(page@.items(), key@),
        r.1 == tree::rank(page@.items(), key@),
{
    broadcast use key::group_key_order;

    let ghost items = page@.items();
    let mut base: usize = 0;
    let mut lim: usize = page.nentries();
    while lim > 0
        invariant
            page.wf(),
            items == page@.items(),
            tree::sorted(items),
            base + lim <= items.len(),
            items.len() <= usize::MAX,
            forall|j: int| 0 <= j < base ==> key::lt((#[trigger] items[j]).key, key@),
            forall|j: int|
                base + lim <= j < items.len() ==> key::lt(key@, (#[trigger] items[j]).key),
        decreases lim,
    {
        let idx = base + lim / 2;
        let found = compare(key, page.key(idx));
        proof {
            key::lemma_lex_lt(key@, items[idx as int].key);
            assert forall|j: int| 0 <= j < idx && key::lt(items[idx as int].key, key@) implies key::lt(
                (#[trigger] items[j]).key,
                key@,
            ) by {
                key::lemma_lt_transitive(items[j].key, items[idx as int].key, key@);
            }
            assert forall|j: int|
                idx < j < items.len() && key::lt(key@, items[idx as int].key) implies key::lt(
                key@,
                (#[trigger] items[j]).key,
            ) by {
                key::lemma_lt_transitive(key@, items[idx as int].key, items[j].key);
            }
        }
        match found {
            Order::Equal => {
                proof {
                    tree::lemma_rank_of_key(items, idx as int);
                }
                return (true, idx);
            },
            Order::Greater => {
                base = idx + 1;
                lim = (lim - 1) / 2;
            },
            Order::Less => {
                lim = lim / 2;
            },
        }
    }
    proof {
        tree::lemma_rank(items, key@, base as int);
    }
    (false, base)
}

/// Choose the slot to follow when descending through an internal page: that
/// of the last separator that is not after `key`, or the first one.
pub fn descend_internal_pick(page: &PageBuf, key: &[u8]) -> (r: usize)
    requires
        page.wf(),
        tree::sorted(page@.items()),
        page@.slots.len() > 0,
    ensures
        r == tree::pick(page@.items(), key@),
{
    broadcast use key::group_key_order;

    let ghost items = page@.items();
    let mut base: usize = 0;
    let mut lim: usize = page.nentries();
    while lim > 0
        invariant
            page.wf(),
            items == page@.items(),
            tree::sorted(items),
            items.len() > 0,
            base + lim <= items.len(),
            items.len() <= usize::MAX,
            forall|j: int| 0 <= j < base ==> key::lt((#[trigger] items[j]).key, key@),
            forall|j: int|
                base + lim <= j < items.len() ==> key::lt(key@, (#[trigger] items[j]).key),
        decreases lim,
    {
        let mid = base + lim / 2;
        let found = compare(key, page.key(mid));
        proof {
            key::lemma_lex_lt(key@, items[mid as int].key);
            assert forall|j: int| 0 <= j < mid && key::lt(items[mid as int].key, key@) implies key::lt(
                (#[trigger] items[j]).key,
                key@,
            ) by {
                key::lemma_lt_transitive(items[j].key, items[mid as int].key, key@);
            }
            assert forall|j: int|
                mid < j < items.len() && key::lt(key@, items[mid as int].key) implies key::lt(
                key@,
                (#[trigger] items[j]).key,
            ) by {
                key::lemma_lt_transitive(key@, items[mid as int].key, items[j].key);
            }
        }
        match found {
            Order::Equal => {
                proof {
                    tree::lemma_pick(items, key@, mid as int);
                }
                return mid;
            },
            Order::Greater => {
                base = mid + 1;
                lim = (lim - 1) / 2;
            },
            Order::Less => {
                lim = lim / 2;
            },
        }
    }
    if base == 0 {
        proof {
            tree::lemma_pick(items, key@, 0);
        }
        0
    } else {
        proof {
            tree::lemma_pick(items, key@, base - 1);
        }
        base - 1
    }
}

} // verus!
