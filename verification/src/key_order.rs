//! Equality and order of keys: user key bytes in lexicographic order, and
//! among equal user keys the newer timestamp first.
use vstd::prelude::*;
use std::cmp::Ordering;
use crate::key::{KeyView, common_prefix_len, int_of};

verus! {

/// Lexicographic order of byte sequences.
pub open spec fn bytes_order(a: Seq<u8>, b: Seq<u8>) -> Ordering
    decreases a.len(),
{
    if a.len() == 0 {
        if b.len() == 0 {
            Ordering::Equal
        } else {
            Ordering::Less
        }
    } else if b.len() == 0 {
        Ordering::Greater
    } else if a[0] < b[0] {
        Ordering::Less
    } else if a[0] > b[0] {
        Ordering::Greater
    } else {
        bytes_order(a.drop_first(), b.drop_first())
    }
}

/// The order of keys: by user key bytes, then by timestamp, newest first.
/// The record type and the expiry time take no part in it.
pub open spec fn key_order(a: KeyView, b: KeyView) -> Ordering {
    match bytes_order(a.bytes, b.bytes) {
        Ordering::Equal => if a.ts > b.ts {
            Ordering::Less
        } else if a.ts < b.ts {
            Ordering::Greater
        } else {
            Ordering::Equal
        },
        o => o,
    }
}

/// Whether key `a` sorts before key `b`.
pub open spec fn key_less(a: KeyView, b: KeyView) -> bool {
    key_order(a, b) == Ordering::Less
}

/// Whether keys `a` and `b` sort the same: same user key and timestamp.
pub open spec fn key_same(a: KeyView, b: KeyView) -> bool {
    key_order(a, b) == Ordering::Equal
}

/// Whether key `a` sorts after key `b`.
pub open spec fn key_greater(a: KeyView, b: KeyView) -> bool {
    key_order(a, b) == Ordering::Greater
}

proof fn lemma_bytes_order_skip(a: Seq<u8>, b: Seq<u8>, i: int)
    requires
        0 <= i <= a.len(),
        i <= b.len(),
        a.take(i) == b.take(i),
    ensures
        bytes_order(a, b) == bytes_order(a.skip(i), b.skip(i)),
    decreases i,
{
    if i > 0 {
        assert(a[0] == a.take(i)[0]);
        assert(b[0] == b.take(i)[0]);
        assert(a.drop_first().take(i - 1) =~= a.take(i).drop_first());
        assert(b.drop_first().take(i - 1) =~= b.take(i).drop_first());
        lemma_bytes_order_skip(a.drop_first(), b.drop_first(), i - 1);
        assert(a.drop_first().skip(i - 1) =~= a.skip(i));
        assert(b.drop_first().skip(i - 1) =~= b.skip(i));
    } else {
        assert(a.skip(0) =~= a);
        assert(b.skip(0) =~= b);
    }
}

/// Two byte sequences are equal exactly when they compare equal.
pub proof fn lemma_bytes_order_equal(a: Seq<u8>, b: Seq<u8>)
    ensures
        (bytes_order(a, b) == Ordering::Equal) == (a == b),
    decreases a.len(),
{
    if a.len() == 0 && b.len() == 0 {
        assert(a =~= b);
    }
    if a.len() > 0 && b.len() > 0 {
        lemma_bytes_order_equal(a.drop_first(), b.drop_first());
        if a[0] == b[0] && a.drop_first() == b.drop_first() {
            assert forall|i: int| 0 <= i < a.len() implies a[i] == b[i] by {
                if i > 0 {
                    assert(a[i] == a.drop_first()[i - 1]);
                    assert(b[i] == b.drop_first()[i - 1]);
                }
            }
            assert(a =~= b);
        }
        if a == b {
            assert(a.drop_first() =~= b.drop_first());
        }
    }
}

/// Compares two byte slices lexicographically.
pub fn compare_bytes(a: &[u8], b: &[u8]) -> (r: Ordering)
    ensures
        r == bytes_order(a@, b@),
{
    let i = common_prefix_len(a, b);
    proof {
        lemma_bytes_order_skip(a@, b@, int_of(i));
    }
    if i == a.len() {
        if i == b.len() {
            Ordering::Equal
        } else {
            Ordering::Less
        }
    } else if i == b.len() {
        Ordering::Greater
    } else if a[i] < b[i] {
        Ordering::Less
    } else {
        Ordering::Greater
    }
}

/// Whether two byte slices hold the same bytes.
pub fn bytes_equal(a: &[u8], b: &[u8]) -> (r: bool)
    ensures
        r == (a@ == b@),
{
    let o = compare_bytes(a, b);
    proof {
        lemma_bytes_order_equal(a@, b@);
    }
    match o {
        Ordering::Equal => true,
        _ => false,
    }
}

/// Lexicographic order is antisymmetric: `a` sorts before `b` exactly when
/// `b` sorts after `a`.
pub proof fn lemma_bytes_order_antisym(a: Seq<u8>, b: Seq<u8>)
    ensures
        (bytes_order(a, b) == Ordering::Less) == (bytes_order(b, a) == Ordering::Greater),
        (bytes_order(a, b) == Ordering::Equal) == (bytes_order(b, a) == Ordering::Equal),
    decreases a.len(),
{
    if a.len() > 0 && b.len() > 0 && a[0] == b[0] {
        lemma_bytes_order_antisym(a.drop_first(), b.drop_first());
    }
}

/// Lexicographic order is transitive, and strict as soon as one step is.
pub proof fn lemma_bytes_order_trans(a: Seq<u8>, b: Seq<u8>, c: Seq<u8>)
    requires
        bytes_order(a, b) != Ordering::Greater,
        bytes_order(b, c) != Ordering::Greater,
    ensures
        bytes_order(a, c) != Ordering::Greater,
        (bytes_order(a, b) == Ordering::Less || bytes_order(b, c) == Ordering::Less) ==> bytes_order(a, c)
            == Ordering::Less,
    decreases a.len(),
{
    if a.len() > 0 && b.len() > 0 && c.len() > 0 && a[0] == b[0] && b[0] == c[0] {
        lemma_bytes_order_trans(a.drop_first(), b.drop_first(), c.drop_first());
    }
    if a.len() == 0 && b.len() == 0 {
        lemma_bytes_order_equal(a, b);
    }
    if b.len() == 0 && c.len() == 0 {
        lemma_bytes_order_equal(b, c);
    }
}

/// Key order is a total order on user key and timestamp: antisymmetric,
/// transitive, and `Equal` exactly for equal user keys and timestamps.
pub proof fn lemma_key_order_total(a: KeyView, b: KeyView, c: KeyView)
    ensures
        key_less(a, b) == key_greater(b, a),
        key_same(a, b) == (a.bytes == b.bytes && a.ts == b.ts),
        !key_greater(a, b) && !key_greater(b, c) ==> !key_greater(a, c),
        key_less(a, b) && !key_greater(b, c) ==> key_less(a, c),
        !key_greater(a, b) && key_less(b, c) ==> key_less(a, c),
{
    lemma_bytes_order_antisym(a.bytes, b.bytes);
    lemma_bytes_order_equal(a.bytes, b.bytes);
    lemma_bytes_order_equal(b.bytes, c.bytes);
    lemma_bytes_order_equal(a.bytes, c.bytes);
    if bytes_order(a.bytes, b.bytes) != Ordering::Greater && bytes_order(b.bytes, c.bytes) != Ordering::Greater {
        lemma_bytes_order_trans(a.bytes, b.bytes, c.bytes);
    }
}

} // verus!
