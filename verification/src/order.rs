//! The lexicographic order on byte strings, by which keys are sorted.

use vstd::prelude::*;

verus! {

/// How one key stands to another.
#[derive(Debug, Clone, Copy, PartialEq, Eq, Structural)]
pub enum KeyOrder {
    Before,
    Same,
    After,
}

/// `a` and `b` hold the same bytes at every index below `n`.
pub open spec fn agree_below(a: Seq<u8>, b: Seq<u8>, n: int) -> bool {
    forall|j: int| 0 <= j < n ==> a[j] == b[j]
}

/// `a` sorts before `b`, and `i` is where that shows: the two agree below
/// `i`, and there `a` has ended or holds the smaller byte.
pub open spec fn before_at(a: Seq<u8>, b: Seq<u8>, i: int) -> bool {
    &&& 0 <= i <= a.len()
    &&& i < b.len()
    &&& agree_below(a, b, i)
    &&& (i == a.len() || a[i] < b[i])
}

/// `a` is strictly before `b` in lexicographic byte order.
pub open spec fn key_lt(a: Seq<u8>, b: Seq<u8>) -> bool {
    exists|i: int| before_at(a, b, i)
}

/// `a` is before `b` or equal to it.
pub open spec fn key_le(a: Seq<u8>, b: Seq<u8>) -> bool {
    a == b || key_lt(a, b)
}

/// No key is before itself.
pub proof fn lemma_key_lt_irreflexive(a: Seq<u8>)
    ensures
        !key_lt(a, a),
{
}

/// The order is transitive.
pub proof fn lemma_key_lt_transitive(a: Seq<u8>, b: Seq<u8>, c: Seq<u8>)
    requires
        key_lt(a, b),
        key_lt(b, c),
    ensures
        key_lt(a, c),
{
    let i = choose|i: int| before_at(a, b, i);
    let j = choose|j: int| before_at(b, c, j);
    let k = if i <= j { i } else { j };
    assert(before_at(a, c, k));
}

/// Of two keys at most one is before the other, and then they differ.
pub proof fn lemma_key_lt_asymmetric(a: Seq<u8>, b: Seq<u8>)
    requires
        key_lt(a, b),
    ensures
        !key_lt(b, a),
        a != b,
{
    if key_lt(b, a) {
        lemma_key_lt_transitive(a, b, a);
    }
}

/// A key before one that is not after a third is before the third.
pub proof fn lemma_key_lt_le(a: Seq<u8>, b: Seq<u8>, c: Seq<u8>)
    requires
        key_lt(a, b),
        key_le(b, c),
    ensures
        key_lt(a, c),
{
    if b != c {
        lemma_key_lt_transitive(a, b, c);
    }
}

/// Compares two keys byte by byte.
pub fn compare_keys(a: &[u8], b: &[u8]) -> (side: KeyOrder)
    ensures
        side == KeyOrder::Before <==> key_lt(a@, b@),
        side == KeyOrder::Same <==> a@ == b@,
        side == KeyOrder::After <==> key_lt(b@, a@),
{
    let mut i: usize = 0;
    while i < a.len() && i < b.len()
        invariant
            i <= a.len(),
            i <= b.len(),
            agree_below(a@, b@, i as int),
        decreases a.len() - i,
    {
        if a[i] < b[i] {
            proof {
                assert(before_at(a@, b@, i as int));
                lemma_key_lt_asymmetric(a@, b@);
            }
            return KeyOrder::Before;
        }
        if a[i] > b[i] {
            proof {
                assert(agree_below(b@, a@, i as int));
                assert(before_at(b@, a@, i as int));
                lemma_key_lt_asymmetric(b@, a@);
            }
            return KeyOrder::After;
        }
        i += 1;
    }
    if a.len() < b.len() {
        proof {
            assert(before_at(a@, b@, i as int));
            lemma_key_lt_asymmetric(a@, b@);
        }
        KeyOrder::Before
    } else if a.len() > b.len() {
        proof {
            assert(agree_below(b@, a@, i as int));
            assert(before_at(b@, a@, i as int));
            lemma_key_lt_asymmetric(b@, a@);
        }
        KeyOrder::After
    } else {
        proof {
            assert(a@ =~= b@);
            lemma_key_lt_irreflexive(a@);
        }
        KeyOrder::Same
    }
}

/// Any two keys are comparable: one is before the other, or they are equal.
pub proof fn lemma_key_order_total(a: Seq<u8>, b: Seq<u8>)
    ensures
        key_lt(a, b) || a == b || key_lt(b, a),
{
    lemma_first_difference(a, b, 0);
}

/// Two keys that agree below `n` are ordered by what follows.
proof fn lemma_first_difference(a: Seq<u8>, b: Seq<u8>, n: int)
    requires
        0 <= n <= a.len(),
        n <= b.len(),
        agree_below(a, b, n),
    ensures
        key_lt(a, b) || a == b || key_lt(b, a),
    decreases a.len() - n,
{
    if n == a.len() {
        if n == b.len() {
            assert(a =~= b);
        } else {
            assert(before_at(a, b, n));
        }
    } else if n == b.len() {
        assert(agree_below(b, a, n));
        assert(before_at(b, a, n));
    } else if a[n] < b[n] {
        assert(before_at(a, b, n));
    } else if a[n] > b[n] {
        assert(agree_below(b, a, n));
        assert(before_at(b, a, n));
    } else {
        lemma_first_difference(a, b, n + 1);
    }
}

} // verus!
