//! Byte-string comparison: equality and the lexicographic order that Rust's
//! `Ord` gives `[u8]` and `Vec<u8>`.

use vstd::prelude::*;

verus! {

/// Index of the first position where `a` and `b` differ, or the length of the
/// shorter one when one is a prefix of the other, searching from `i`.
pub open spec fn first_diff_from(a: Seq<u8>, b: Seq<u8>, i: int) -> int
    decreases a.len() - i,
{
    if i < 0 || i >= a.len() || i >= b.len() || a[i] != b[i] {
        i
    } else {
        first_diff_from(a, b, i + 1)
    }
}

/// Index of the first difference between `a` and `b`.
pub open spec fn first_diff(a: Seq<u8>, b: Seq<u8>) -> int {
    first_diff_from(a, b, 0)
}

/// Strict lexicographic order on byte strings.
pub open spec fn seq_lt(a: Seq<u8>, b: Seq<u8>) -> bool {
    let k = first_diff(a, b);
    (k == a.len() && k < b.len()) || (k < a.len() && k < b.len() && a[k] < b[k])
}

/// Non-strict lexicographic order on byte strings.
pub open spec fn seq_le(a: Seq<u8>, b: Seq<u8>) -> bool {
    seq_lt(a, b) || a == b
}

pub proof fn lemma_first_diff_from(a: Seq<u8>, b: Seq<u8>, i: int)
    requires
        0 <= i <= a.len(),
        i <= b.len(),
        forall|j: int| 0 <= j < i ==> a[j] == b[j],
    ensures
        i <= first_diff_from(a, b, i) <= a.len(),
        first_diff_from(a, b, i) <= b.len(),
        forall|j: int| 0 <= j < first_diff_from(a, b, i) ==> a[j] == b[j],
        first_diff_from(a, b, i) < a.len() && first_diff_from(a, b, i) < b.len() ==> a[first_diff_from(a, b, i)] != b[first_diff_from(a, b, i)],
    decreases a.len() - i,
{
    if i < a.len() && i < b.len() && a[i] == b[i] {
        lemma_first_diff_from(a, b, i + 1);
    }
}

pub proof fn lemma_first_diff(a: Seq<u8>, b: Seq<u8>)
    ensures
        0 <= first_diff(a, b) <= a.len(),
        first_diff(a, b) <= b.len(),
        forall|j: int| 0 <= j < first_diff(a, b) ==> a[j] == b[j],
        first_diff(a, b) < a.len() && first_diff(a, b) < b.len() ==> a[first_diff(a, b)] != b[first_diff(a, b)],
        first_diff(a, b) == first_diff(b, a),
        (first_diff(a, b) == a.len() && first_diff(a, b) == b.len()) <==> a == b,
{
    lemma_first_diff_from(a, b, 0);
    lemma_first_diff_from(b, a, 0);
    lemma_first_diff_unique(a, b, 0);
    if first_diff(a, b) == a.len() && first_diff(a, b) == b.len() {
        assert(a =~= b);
    }
}

proof fn lemma_first_diff_unique(a: Seq<u8>, b: Seq<u8>, i: int)
    requires
        0 <= i <= a.len(),
        i <= b.len(),
    ensures
        first_diff_from(a, b, i) == first_diff_from(b, a, i),
    decreases a.len() - i,
{
    if i < a.len() && i < b.len() && a[i] == b[i] {
        lemma_first_diff_unique(a, b, i + 1);
    }
}

/// The lexicographic order is irreflexive, asymmetric and total.
pub proof fn lemma_seq_lt_total(a: Seq<u8>, b: Seq<u8>)
    ensures
        !seq_lt(a, a),
        seq_lt(a, b) ==> !seq_lt(b, a),
        a != b ==> seq_lt(a, b) || seq_lt(b, a),
        seq_lt(a, b) ==> a != b,
{
    lemma_first_diff(a, b);
    lemma_first_diff(a, a);
}

/// The lexicographic order is transitive.
pub proof fn lemma_seq_lt_transitive(a: Seq<u8>, b: Seq<u8>, c: Seq<u8>)
    requires
        seq_lt(a, b),
        seq_lt(b, c),
    ensures
        seq_lt(a, c),
{
    lemma_first_diff(a, b);
    lemma_first_diff(b, c);
    lemma_first_diff(a, c);
    let k1 = first_diff(a, b);
    let k2 = first_diff(b, c);
    let k3 = first_diff(a, c);
    if k1 < k2 {
        assert forall|j: int| 0 <= j < k1 implies a[j] == c[j] by {}
        if k3 < k1 {
            assert(a[k3] == b[k3]);
            assert(b[k3] == c[k3]);
        }
        assert(k1 < c.len());
        assert(b[k1] == c[k1]);
        if k3 > k1 {
            assert(a[k1] == c[k1]);
        }
    } else if k2 < k1 {
        if k3 < k2 {
            assert(a[k3] == b[k3]);
            assert(b[k3] == c[k3]);
        }
        assert(a[k2] == b[k2]);
        if k3 > k2 {
            assert(a[k2] == c[k2]);
        }
    } else {
        if k3 < k1 {
            assert(a[k3] == b[k3]);
            assert(b[k3] == c[k3]);
        }
        if k3 > k1 {
            assert(k1 < a.len());
            assert(a[k1] == c[k1]);
        }
    }
}

/// Byte-string equality.
pub fn bytes_eq(a: &[u8], b: &[u8]) -> (r: bool)
    ensures
        r == (a@ == b@),
{
    if a.len() != b.len() {
        return false;
    }
    let mut i: usize = 0;
    while i < a.len()
        invariant
            a@.len() == b@.len(),
            i <= a@.len(),
            forall|j: int| 0 <= j < i ==> a@[j] == b@[j],
        decreases a@.len() - i,
    {
        if a[i] != b[i] {
            return false;
        }
        i = i + 1;
    }
    assert(a@ =~= b@);
    true
}

/// Lexicographic strict comparison, as `a < b` on `[u8]`.
pub fn bytes_lt(a: &[u8], b: &[u8]) -> (r: bool)
    ensures
        r == seq_lt(a@, b@),
{
    proof {
        lemma_first_diff(a@, b@);
    }
    let mut i: usize = 0;
    while i < a.len() && i < b.len() && a[i] == b[i]
        invariant
            i <= a@.len(),
            i <= b@.len(),
            forall|j: int| 0 <= j < i ==> a@[j] == b@[j],
            first_diff_from(a@, b@, i as int) == first_diff(a@, b@),
        decreases a@.len() - i,
    {
        i = i + 1;
    }
    if i == a.len() {
        i < b.len()
    } else if i == b.len() {
        false
    } else {
        a[i] < b[i]
    }
}

/// A copy of a byte string.
pub fn copy_bytes(a: &[u8]) -> (r: Vec<u8>)
    ensures
        r@ == a@,
{
    let mut r: Vec<u8> = Vec::new();
    let mut i: usize = 0;
    while i < a.len()
        invariant
            i <= a@.len(),
            r@ == a@.subrange(0, i as int),
        decreases a@.len() - i,
    {
        r.push(a[i]);
        i = i + 1;
        assert(r@ =~= a@.subrange(0, i as int));
    }
    assert(r@ =~= a@);
    r
}

} // verus!
