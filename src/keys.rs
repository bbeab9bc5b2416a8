//! Keys are byte strings ordered byte-wise lexicographically, a shorter key
//! coming before every longer key that extends it.

use std::cmp::Ordering;
use vstd::prelude::*;

verus! {

/// `a` comes strictly before `b`, looking only at positions `i` and later.
pub open spec fn key_lt_from(a: Seq<u8>, b: Seq<u8>, i: nat) -> bool
    decreases a.len() - i,
{
    if i >= a.len() {
        i < b.len()
    } else if i >= b.len() {
        false
    } else if a[i as int] != b[i as int] {
        a[i as int] < b[i as int]
    } else {
        key_lt_from(a, b, i + 1)
    }
}

/// Strict byte-wise lexicographic order on keys.
pub open spec fn key_lt(a: Seq<u8>, b: Seq<u8>) -> bool {
    key_lt_from(a, b, 0)
}

proof fn lemma_lt_from_irreflexive(a: Seq<u8>, i: nat)
    ensures
        !key_lt_from(a, a, i),
    decreases a.len() - i,
{
    if i < a.len() {
        lemma_lt_from_irreflexive(a, i + 1);
    }
}

proof fn lemma_lt_from_transitive(a: Seq<u8>, b: Seq<u8>, c: Seq<u8>, i: nat)
    requires
        key_lt_from(a, b, i),
        key_lt_from(b, c, i),
    ensures
        key_lt_from(a, c, i),
    decreases a.len() - i,
{
    if i < a.len() && i < b.len() && i < c.len() && a[i as int] == b[i as int] && b[i as int]
        == c[i as int] {
        lemma_lt_from_transitive(a, b, c, i + 1);
    }
}

/// No key comes before itself.
pub proof fn lemma_key_lt_irreflexive(a: Seq<u8>)
    ensures
        !key_lt(a, a),
{
    lemma_lt_from_irreflexive(a, 0);
}

/// The key order is transitive.
pub proof fn lemma_key_lt_transitive(a: Seq<u8>, b: Seq<u8>, c: Seq<u8>)
    requires
        key_lt(a, b),
        key_lt(b, c),
    ensures
        key_lt(a, c),
{
    lemma_lt_from_transitive(a, b, c, 0);
}

/// Two keys are never each before the other.
pub proof fn lemma_key_lt_asymmetric(a: Seq<u8>, b: Seq<u8>)
    ensures
        !(key_lt(a, b) && key_lt(b, a)),
{
    if key_lt(a, b) && key_lt(b, a) {
        lemma_key_lt_transitive(a, b, a);
        lemma_key_lt_irreflexive(a);
    }
}

/// Compares two keys in the key order.
pub fn compare_keys(a: &[u8], b: &[u8]) -> (r: Ordering)
    ensures
        (r == Ordering::Less) <==> key_lt(a@, b@),
        (r == Ordering::Equal) <==> a@ == b@,
        (r == Ordering::Greater) <==> key_lt(b@, a@),
{
    proof {
        lemma_key_lt_irreflexive(a@);
        lemma_key_lt_asymmetric(a@, b@);
    }
    let mut i: usize = 0;
    while i < a.len() && i < b.len()
        invariant
            i <= a.len(),
            i <= b.len(),
            a@.subrange(0, i as int) == b@.subrange(0, i as int),
            key_lt(a@, b@) == key_lt_from(a@, b@, i as nat),
            key_lt(b@, a@) == key_lt_from(b@, a@, i as nat),
        decreases a.len() - i,
    {
        if a[i] != b[i] {
            if a[i] < b[i] {
                return Ordering::Less;
            } else {
                return Ordering::Greater;
            }
        }
        assert(a@.subrange(0, i + 1) =~= a@.subrange(0, i as int).push(a@[i as int]));
        assert(b@.subrange(0, i + 1) =~= b@.subrange(0, i as int).push(b@[i as int]));
        i = i + 1;
    }
    if a.len() < b.len() {
        Ordering::Less
    } else if b.len() < a.len() {
        Ordering::Greater
    } else {
        assert(a@ =~= a@.subrange(0, i as int));
        assert(b@ =~= b@.subrange(0, i as int));
        Ordering::Equal
    }
}

} // verus!
