//! The order of keys: byte by byte, unsigned, shorter first.

use vstd::prelude::*;

verus! {

/// Outcome of a comparison.
#[derive(Clone, Copy, Debug, PartialEq, Eq, Structural)]
pub enum Order {
    Less,
    Equal,
    Greater,
}

/// How `a` compares with `b`.
pub open spec fn lex(a: Seq<u8>, b: Seq<u8>) -> Order
    decreases a.len(),
{
    if a.len() == 0 {
        if b.len() == 0 {
            Order::Equal
        } else {
            Order::Less
        }
    } else if b.len() == 0 || a[0] > b[0] {
        Order::Greater
    } else if a[0] < b[0] {
        Order::Less
    } else {
        lex(a.drop_first(), b.drop_first())
    }
}

/// `a` comes before `b`.
#[verifier::opaque]
pub open spec fn lt(a: Seq<u8>, b: Seq<u8>) -> bool {
    lex(a, b) == Order::Less
}

/// `a` comes before `b` or is `b`.
pub open spec fn le(a: Seq<u8>, b: Seq<u8>) -> bool {
    a == b || lt(a, b)
}

/// The comparison says `Equal` of equal keys only, and exchanging the sides
/// reverses it.
pub proof fn lemma_lex_sides(a: Seq<u8>, b: Seq<u8>)
    ensures
        lex(a, b) == Order::Equal <==> a == b,
        lex(a, b) == Order::Less <==> lex(b, a) == Order::Greater,
    decreases a.len(),
{
    if a.len() == 0 || b.len() == 0 {
        assert(a.len() == b.len() ==> a =~= b);
    } else {
        lemma_lex_sides(a.drop_first(), b.drop_first());
        if a[0] == b[0] && a.drop_first() == b.drop_first() {
            assert(a =~= seq![a[0]] + a.drop_first());
            assert(b =~= seq![b[0]] + b.drop_first());
        }
    }
}

/// The order is transitive.
pub proof fn lemma_lex_transitive(a: Seq<u8>, b: Seq<u8>, c: Seq<u8>)
    requires
        lex(a, b) == Order::Less,
        lex(b, c) == Order::Less,
    ensures
        lex(a, c) == Order::Less,
    decreases a.len(),
{
    if a.len() > 0 && b.len() > 0 && c.len() > 0 && a[0] == b[0] && b[0] == c[0] {
        lemma_lex_transitive(a.drop_first(), b.drop_first(), c.drop_first());
    }
}

/// Of two keys one is first, or they are the same; never more than one of
/// the three.
pub broadcast proof fn lemma_lt_total(a: Seq<u8>, b: Seq<u8>)
    ensures
        #[trigger] lt(a, b) || a == b || lt(b, a),
        lt(a, b) ==> a != b && !lt(b, a),
{
    reveal(lt);
    lemma_lex_sides(a, b);
    lemma_lex_sides(b, a);
}

/// The order is transitive.
pub broadcast proof fn lemma_lt_transitive(a: Seq<u8>, b: Seq<u8>, c: Seq<u8>)
    requires
        #[trigger] lt(a, b),
        #[trigger] lt(b, c),
    ensures
        lt(a, c),
{
    reveal(lt);
    lemma_lex_transitive(a, b, c);
}

/// No key comes before the empty one.
pub broadcast proof fn lemma_empty_is_first(a: Seq<u8>, b: Seq<u8>)
    requires
        #[trigger] lt(a, b),
    ensures
        b.len() > 0,
{
    reveal(lt);
}

/// The empty key comes before every other.
pub proof fn lemma_empty_before(b: Seq<u8>)
    ensures
        le(Seq::empty(), b),
{
    reveal(lt);
    if b.len() == 0 {
        assert(b =~= Seq::empty());
    }
}

pub broadcast group group_key_order {
    lemma_lt_total,
    lemma_lt_transitive,
}

/// What a comparison says, in terms of the order.
pub proof fn lemma_lex_lt(a: Seq<u8>, b: Seq<u8>)
    ensures
        lex(a, b) == Order::Less <==> lt(a, b),
        lex(a, b) == Order::Greater <==> lt(b, a),
        lex(a, b) == Order::Equal <==> a == b,
{
    reveal(lt);
    lemma_lex_sides(a, b);
    lemma_lex_sides(b, a);
}

/// Dropping an equal beginning does not change a comparison.
pub proof fn lemma_lex_skip(a: Seq<u8>, b: Seq<u8>, n: int)
    requires
        0 <= n <= a.len(),
        n <= b.len(),
        a.take(n) == b.take(n),
    ensures
        lex(a, b) == lex(a.skip(n), b.skip(n)),
    decreases n,
{
    if n == 0 {
        assert(a.skip(0) =~= a);
        assert(b.skip(0) =~= b);
    } else {
        assert(a[0] == a.take(n)[0] && b[0] == b.take(n)[0]);
        let a1 = a.drop_first();
        let b1 = b.drop_first();
        assert(a1.take(n - 1) =~= a.take(n).drop_first());
        assert(b1.take(n - 1) =~= b.take(n).drop_first());
        lemma_lex_skip(a1, b1, n - 1);
        assert(a1.skip(n - 1) =~= a.skip(n));
        assert(b1.skip(n - 1) =~= b.skip(n));
    }
}

/// A key that is shorter than `b` compares with `b` as with anything that
/// starts with `b`.
pub proof fn lemma_lex_extend(a: Seq<u8>, b: Seq<u8>, rest: Seq<u8>)
    requires
        a.len() < b.len(),
    ensures
        lex(a, b + rest) == lex(a, b),
    decreases a.len(),
{
    if a.len() > 0 {
        assert((b + rest).drop_first() =~= b.drop_first() + rest);
        lemma_lex_extend(a.drop_first(), b.drop_first(), rest);
    }
}

/// What follows a difference does not matter.
pub proof fn lemma_lex_concat(a: Seq<u8>, a_rest: Seq<u8>, b: Seq<u8>, b_rest: Seq<u8>)
    requires
        a.len() == b.len(),
        a != b,
    ensures
        lex(a + a_rest, b + b_rest) == lex(a, b),
    decreases a.len(),
{
    if a.len() == 0 {
        assert(a =~= b);
    } else {
        assert((a + a_rest).drop_first() =~= a.drop_first() + a_rest);
        assert((b + b_rest).drop_first() =~= b.drop_first() + b_rest);
        if a[0] == b[0] {
            if a.drop_first() == b.drop_first() {
                assert(a =~= seq![a[0]] + a.drop_first());
                assert(b =~= seq![b[0]] + b.drop_first());
            }
            lemma_lex_concat(a.drop_first(), a_rest, b.drop_first(), b_rest);
        }
    }
}

/// Of two keys that agree in their first `i` bytes, the one with the smaller
/// byte there comes first, bytes taken as numbers; and a key comes before
/// every longer one that begins with it.
pub proof fn law_byte_order(a: Seq<u8>, b: Seq<u8>, i: int)
    requires
        0 <= i <= a.len(),
        i <= b.len(),
        forall|j: int| 0 <= j < i ==> a[j] == b[j],
    ensures
        i < a.len() && i < b.len() && (a[i] as int) < (b[i] as int) ==> {
            &&& lt(a, b)
            &&& lex(a, b) == Order::Less
            &&& lex(b, a) == Order::Greater
        },
        i == a.len() && i < b.len() ==> {
            &&& lt(a, b)
            &&& lex(a, b) == Order::Less
            &&& lex(b, a) == Order::Greater
        },
        i == a.len() && i == b.len() ==> lex(a, b) == Order::Equal && !lt(a, b),
{
    assert(a.take(i) =~= b.take(i));
    lemma_lex_skip(a, b, i);
    lemma_lex_sides(a, b);
    lemma_lex_sides(b, a);
    lemma_lex_lt(a, b);
}

/// Compare two keys.
pub fn compare(a: &[u8], b: &[u8]) -> (r: Order)
    ensures
        r == lex(a@, b@),
{
    let n = if a.len() < b.len() {
        a.len()
    } else {
        b.len()
    };
    let mut i: usize = 0;
    while i < n
        invariant
            i <= n,
            n <= a@.len(),
            n <= b@.len(),
            n == a@.len() || n == b@.len(),
            a@.take(i as int) == b@.take(i as int),
        decreases n - i,
    {
        if a[i] != b[i] {
            proof {
                lemma_lex_skip(a@, b@, i as int);
            }
            return if a[i] < b[i] {
                Order::Less
            } else {
                Order::Greater
            };
        }
        assert(a@.take(i + 1) =~= a@.take(i as int).push(a@[i as int]));
        assert(b@.take(i + 1) =~= b@.take(i as int).push(b@[i as int]));
        i = i + 1;
    }
    proof {
        lemma_lex_skip(a@, b@, n as int);
    }
    if a.len() < b.len() {
        Order::Less
    } else if a.len() == b.len() {
        Order::Equal
    } else {
        Order::Greater
    }
}

} // verus!
