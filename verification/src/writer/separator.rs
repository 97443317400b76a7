//! Separators between the pages of a level, and their prefix compression.

use crate::format::{align_entry, BINTERNAL_HEADER_SIZE, DEFAULT_PSIZE, P_INVALID};
use crate::key;
use vstd::prelude::*;
use vstd::slice::slice_subrange;
use vstd::slice::slice_to_vec;

verus! {

/// The length of the longest common beginning of `a` and `b`, of which the
/// first `i` bytes are known to agree.
pub open spec fn common_from(a: Seq<u8>, b: Seq<u8>, i: int) -> int
    decreases a.len() - i,
{
    if i < a.len() && i < b.len() && a[i] == b[i] {
        common_from(a, b, i + 1)
    } else {
        i
    }
}

/// The number of bytes of `b` needed to come after `a`: all that they have
/// in common and one more.  If there is no more, the length of `a`.
pub open spec fn prefix_len(a: Seq<u8>, b: Seq<u8>) -> int {
    let n = common_from(a, b, 0);
    if n < b.len() {
        n + 1
    } else {
        a.len() as int
    }
}

/// The key of the separator between two pages, the left of which ends with
/// `last` and the right of which begins with `first`.  Between leaves, the
/// beginning of `first` that is needed to come after `last` will do, if that
/// makes the entry smaller.  The first separator of a level is never
/// compressed: it goes to slot 1 of a page without a left sibling.
pub open spec fn separator_key(
    leaf: bool,
    last: Seq<u8>,
    first: Seq<u8>,
    parent_prev: u32,
    slot: int,
) -> Seq<u8> {
    let n = prefix_len(last, first);
    if leaf && (parent_prev != P_INVALID || slot > 1) && crate::format::align4(
        BINTERNAL_HEADER_SIZE + n,
    ) < crate::format::align4((BINTERNAL_HEADER_SIZE + first.len()) as int) {
        first.take(n)
    } else {
        first
    }
}

proof fn lemma_common(a: Seq<u8>, b: Seq<u8>, i: int)
    requires
        0 <= i <= a.len(),
        i <= b.len(),
        a.take(i) == b.take(i),
    ensures
        ({
            let n = common_from(a, b, i);
            &&& i <= n <= a.len()
            &&& n <= b.len()
            &&& a.take(n) == b.take(n)
            &&& n < a.len() && n < b.len() ==> a[n] != b[n]
        }),
    decreases a.len() - i,
{
    if i < a.len() && i < b.len() && a[i] == b[i] {
        assert(a.take(i + 1) =~= a.take(i).push(a[i]));
        assert(b.take(i + 1) =~= b.take(i).push(b[i]));
        lemma_common(a, b, i + 1);
    }
}

/// A beginning of `b` of that length comes after `a`, and no shorter one
/// does.
pub proof fn law_prefix(a: Seq<u8>, b: Seq<u8>)
    requires
        key::lt(a, b),
    ensures
        0 < prefix_len(a, b) <= b.len(),
        key::lt(a, b.take(prefix_len(a, b))),
        key::le(b.take(prefix_len(a, b)), b),
        forall|n: int| 0 <= n < prefix_len(a, b) ==> !key::lt(a, #[trigger] b.take(n)),
{
    broadcast use key::group_key_order;

    let n = common_from(a, b, 0);
    assert(a.take(0) =~= b.take(0));
    lemma_common(a, b, 0);
    key::lemma_lex_lt(a, b);
    if n == b.len() {
        lemma_beginning(a, n);
        assert(b =~= b.take(n));
        assert(false);
    }
    let c = b.take(n + 1);
    key::lemma_lex_lt(a, c);
    key::lemma_lex_skip(a, b, n);
    assert(c.take(n) =~= b.take(n));
    key::lemma_lex_skip(a, c, n);
    assert(c.skip(n) =~= seq![b[n]]);
    if n < a.len() {
        assert(a.skip(n)[0] == a[n] && b.skip(n)[0] == b[n]);
    }
    lemma_beginning(b, n + 1);
    assert forall|k: int| 0 <= k < n + 1 implies !key::lt(a, #[trigger] b.take(k)) by {
        assert(b.take(k) =~= b.take(n).take(k));
        assert(a.take(k) =~= a.take(n).take(k));
        lemma_beginning(a, k);
    }
}

/// Of two keys that first differ at `i`, the number of bytes needed is
/// `i + 1`; so it is if the first key ends there and the second does not.
/// Where the second ends there, it is the length of the first.
pub proof fn law_prefix_len(a: Seq<u8>, b: Seq<u8>, i: int)
    requires
        0 <= i <= a.len(),
        i <= b.len(),
        forall|j: int| 0 <= j < i ==> a[j] == b[j],
        i < a.len() && i < b.len() ==> a[i] != b[i],
    ensures
        i < b.len() ==> prefix_len(a, b) == i + 1,
        i == b.len() ==> prefix_len(a, b) == a.len(),
{
    lemma_common_ends(a, b, i, 0);
}

proof fn lemma_common_ends(a: Seq<u8>, b: Seq<u8>, i: int, j: int)
    requires
        0 <= j <= i <= a.len(),
        i <= b.len(),
        forall|k: int| 0 <= k < i ==> a[k] == b[k],
        i < a.len() && i < b.len() ==> a[i] != b[i],
        i == a.len() || i == b.len() || a[i] != b[i],
    ensures
        common_from(a, b, j) == i,
    decreases i - j,
{
    if j < i {
        lemma_common_ends(a, b, i, j + 1);
    }
}

/// No key comes before its own beginning.
proof fn lemma_beginning(a: Seq<u8>, n: int)
    requires
        0 <= n <= a.len(),
    ensures
        key::le(a.take(n), a),
        !key::lt(a, a.take(n)),
{
    broadcast use key::group_key_order;

    let b = a.take(n);
    assert(b.take(n) =~= a.take(n));
    key::lemma_lex_lt(b, a);
    key::lemma_lex_skip(b, a, n);
    assert(b.skip(n).len() == 0);
    if n == a.len() {
        assert(b =~= a);
    }
}

/// The separator key parts the two pages.
pub proof fn lemma_separator_key(
    leaf: bool,
    last: Seq<u8>,
    first: Seq<u8>,
    parent_prev: u32,
    slot: int,
)
    requires
        key::lt(last, first),
    ensures
        key::lt(last, separator_key(leaf, last, first, parent_prev, slot)),
        key::le(separator_key(leaf, last, first, parent_prev, slot), first),
        separator_key(leaf, last, first, parent_prev, slot).len() <= first.len(),
        !leaf ==> separator_key(leaf, last, first, parent_prev, slot) == first,
{
    law_prefix(last, first);
}

/// The number of bytes of `b` needed to come after `a`: the 1-indexed
/// position of the first differing byte; if `a` is a proper prefix of `b`,
/// `a.len() + 1`.
pub fn bt_defpfx(a: &[u8], b: &[u8]) -> (r: usize)
    requires
        a@.len() < usize::MAX,
    ensures
        r == prefix_len(a@, b@),
{
    let mut i: usize = 0;
    while i < a.len() && i < b.len() && a[i] == b[i]
        invariant
            i <= a@.len(),
            i <= b@.len(),
            common_from(a@, b@, 0) == common_from(a@, b@, i as int),
        decreases a@.len() - i,
    {
        i = i + 1;
    }
    if i < b.len() {
        i + 1
    } else {
        a.len()
    }
}

/// The key that a separator for a page beginning with `first` is written
/// with, in slot `slot` of a page whose left sibling is `parent_prev`.
pub fn encoded_key(leaf: bool, last: &[u8], first: &[u8], parent_prev: u32, slot: usize) -> (r: Vec<
    u8,
>)
    requires
        key::lt(last@, first@),
        first@.len() <= DEFAULT_PSIZE,
        last@.len() <= DEFAULT_PSIZE,
    ensures
        r@ == separator_key(leaf, last@, first@, parent_prev, slot as int),
{
    if leaf && (parent_prev != P_INVALID || slot > 1) {
        proof {
            law_prefix(last@, first@);
        }
        let n = bt_defpfx(last, first);
        if align_entry(BINTERNAL_HEADER_SIZE + n) < align_entry(
            BINTERNAL_HEADER_SIZE + first.len(),
        ) {
            assert(first@.take(n as int) =~= first@.subrange(0, n as int));
            return slice_to_vec(slice_subrange(first, 0, n));
        }
    }
    slice_to_vec(first)
}

} // verus!
