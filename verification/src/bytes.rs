//! Byte-lexicographic ordering of byte sequences.
//!
//! The whole crate rests on this order: an encoding is order-preserving
//! when comparing two encodings with `lex_lt` agrees with the natural
//! order of the source values, and the store keeps its entries sorted by
//! it.

use vstd::prelude::*;

verus! {

/// Byte-lexicographic "less than", comparing from position `i` on: the
/// sequences agree on everything before `i`, and the first position at or
/// after `i` where they differ (or where one of them ends) decides.
pub open spec fn lex_lt_from(a: Seq<u8>, b: Seq<u8>, i: int) -> bool
    decreases b.len() - i,
{
    if i >= b.len() {
        false
    } else if i >= a.len() {
        true
    } else if a[i] < b[i] {
        true
    } else if a[i] > b[i] {
        false
    } else {
        lex_lt_from(a, b, i + 1)
    }
}

/// Byte-lexicographic "strictly less than".
pub open spec fn lex_lt(a: Seq<u8>, b: Seq<u8>) -> bool {
    lex_lt_from(a, b, 0)
}

/// Byte-lexicographic "less than or equal".
pub open spec fn lex_le(a: Seq<u8>, b: Seq<u8>) -> bool {
    lex_lt(a, b) || a == b
}

/// Comparison from `i` ignores the bytes before `i` when the two sequences
/// agree on them.
pub proof fn lemma_lex_from_common_prefix(a: Seq<u8>, b: Seq<u8>, i: int)
    requires
        0 <= i <= a.len(),
        i <= b.len(),
        forall|j: int| 0 <= j < i ==> a[j] == b[j],
    ensures
        lex_lt_from(a, b, 0) == lex_lt_from(a, b, i),
    decreases i,
{
    if i > 0 {
        lemma_lex_from_common_prefix(a, b, i - 1);
    }
}

/// At most one of `a < b` and `b < a` holds, and neither holds of a
/// sequence and itself.
pub proof fn lemma_lex_from_asymmetric(a: Seq<u8>, b: Seq<u8>, i: int)
    ensures
        !(lex_lt_from(a, b, i) && lex_lt_from(b, a, i)),
    decreases b.len() - i,
{
    if i < a.len() && i < b.len() && a[i] == b[i] {
        lemma_lex_from_asymmetric(a, b, i + 1);
    }
}

/// Two sequences that neither compares below the other are equal: the
/// order is total.
pub proof fn lemma_lex_from_total(a: Seq<u8>, b: Seq<u8>, i: int)
    requires
        0 <= i <= a.len(),
        i <= b.len(),
        !lex_lt_from(a, b, i),
        !lex_lt_from(b, a, i),
    ensures
        a.skip(i) =~= b.skip(i),
    decreases a.len() - i,
{
    if i < a.len() && i < b.len() {
        lemma_lex_from_total(a, b, i + 1);
        assert(a.skip(i) =~= seq![a[i]] + a.skip(i + 1));
        assert(b.skip(i) =~= seq![b[i]] + b.skip(i + 1));
    }
}

/// The byte-lexicographic order is transitive.
pub proof fn lemma_lex_from_transitive(a: Seq<u8>, b: Seq<u8>, c: Seq<u8>, i: int)
    requires
        lex_lt_from(a, b, i),
        lex_lt_from(b, c, i),
    ensures
        lex_lt_from(a, c, i),
    decreases c.len() - i,
{
    if i < a.len() && i < b.len() && i < c.len() && a[i] == b[i] && b[i] == c[i] {
        lemma_lex_from_transitive(a, b, c, i + 1);
    }
}

/// `lex_lt` is transitive.
pub proof fn lemma_lex_lt_transitive(a: Seq<u8>, b: Seq<u8>, c: Seq<u8>)
    requires
        lex_lt(a, b),
        lex_lt(b, c),
    ensures
        lex_lt(a, c),
{
    lemma_lex_from_transitive(a, b, c, 0);
}

/// `lex_lt` is asymmetric and irreflexive.
pub proof fn lemma_lex_lt_asymmetric(a: Seq<u8>, b: Seq<u8>)
    ensures
        !(lex_lt(a, b) && lex_lt(b, a)),
        a == b ==> !lex_lt(a, b),
{
    lemma_lex_from_asymmetric(a, b, 0);
    if a == b && lex_lt(a, b) {
        assert(lex_lt(b, a));
    }
}

/// `lex_lt` is total: of two distinct sequences one compares below the
/// other.
pub proof fn lemma_lex_lt_total(a: Seq<u8>, b: Seq<u8>)
    ensures
        lex_lt(a, b) || lex_lt(b, a) || a == b,
{
    if !lex_lt(a, b) && !lex_lt(b, a) {
        lemma_lex_from_total(a, b, 0);
        assert(a.skip(0) =~= a);
        assert(b.skip(0) =~= b);
        assert(a =~= b);
    }
}

/// A prefix never compares above an extension of it; a strict extension
/// compares strictly above.
pub proof fn lemma_prefix_lex_le(p: Seq<u8>, k: Seq<u8>)
    requires
        p.is_prefix_of(k),
    ensures
        lex_le(p, k),
        p.len() < k.len() ==> lex_lt(p, k),
{
    assert(forall|j: int| 0 <= j < p.len() ==> p[j] == k.subrange(0, p.len() as int)[j]);
    lemma_lex_from_common_prefix(p, k, p.len() as int);
    if p.len() < k.len() {
    } else {
        assert(p =~= k);
    }
}

/// Three-way byte-lexicographic comparison.
pub fn lex_cmp(a: &[u8], b: &[u8]) -> (r: i8)
    ensures
        r == -1 || r == 0 || r == 1,
        (r == -1) <==> lex_lt(a@, b@),
        (r == 0) <==> a@ == b@,
        (r == 1) <==> lex_lt(b@, a@),
{
    proof {
        lemma_lex_from_asymmetric(a@, b@, 0);
        lemma_lex_lt_total(a@, b@);
        lemma_lex_lt_asymmetric(a@, b@);
    }
    let alen = a.len();
    let blen = b.len();
    let n = if alen < blen {
        alen
    } else {
        blen
    };
    let mut i: usize = 0;
    while i < n
        invariant
            0 <= i <= n,
            n <= alen,
            n <= blen,
            alen == a@.len(),
            blen == b@.len(),
            n == if alen < blen { alen } else { blen },
            forall|j: int| 0 <= j < i ==> a@[j] == b@[j],
        decreases n - i,
    {
        if a[i] < b[i] {
            proof {
                lemma_lex_from_common_prefix(a@, b@, i as int);
                lemma_lex_from_asymmetric(a@, b@, 0);
                lemma_lex_lt_asymmetric(a@, b@);
            }
            return -1;
        }
        if a[i] > b[i] {
            proof {
                lemma_lex_from_common_prefix(b@, a@, i as int);
                lemma_lex_from_asymmetric(a@, b@, 0);
                lemma_lex_lt_asymmetric(b@, a@);
            }
            return 1;
        }
        i += 1;
    }
    proof {
        lemma_lex_from_common_prefix(a@, b@, n as int);
        lemma_lex_from_common_prefix(b@, a@, n as int);
    }
    if alen < blen {
        -1
    } else if blen < alen {
        1
    } else {
        proof {
            assert(a@ =~= b@);
        }
        0
    }
}

} // verus!

verus! {

/// Comparison of two concatenations past their equal-length heads is
/// comparison of the tails.
proof fn lemma_lex_from_shift(a1: Seq<u8>, a2: Seq<u8>, b1: Seq<u8>, b2: Seq<u8>, j: int)
    requires
        a1.len() == b1.len(),
        0 <= j,
    ensures
        lex_lt_from(a1 + a2, b1 + b2, a1.len() + j) == lex_lt_from(a2, b2, j),
    decreases b2.len() - j,
{
    if j < a2.len() && j < b2.len() && a2[j] == b2[j] {
        lemma_lex_from_shift(a1, a2, b1, b2, j + 1);
    }
}

proof fn lemma_lex_from_concat_front(a1: Seq<u8>, a2: Seq<u8>, b1: Seq<u8>, b2: Seq<u8>, i: int)
    requires
        a1.len() == b1.len(),
        0 <= i <= a1.len(),
    ensures
        lex_lt_from(a1 + a2, b1 + b2, i) == (lex_lt_from(a1, b1, i) || ((forall|m: int|
            i <= m < a1.len() ==> a1[m] == b1[m]) && lex_lt(a2, b2))),
    decreases a1.len() - i,
{
    if i == a1.len() {
        lemma_lex_from_shift(a1, a2, b1, b2, 0);
    } else if a1[i] == b1[i] {
        lemma_lex_from_concat_front(a1, a2, b1, b2, i + 1);
    }
}

/// Order of concatenations with equal-length heads: the heads decide,
/// and the tails break a tie. This is what makes the concatenation of
/// order-preserving fixed-width encodings order-preserving again.
pub proof fn lemma_lex_concat_eqlen(a1: Seq<u8>, a2: Seq<u8>, b1: Seq<u8>, b2: Seq<u8>)
    requires
        a1.len() == b1.len(),
    ensures
        lex_lt(a1 + a2, b1 + b2) <==> (lex_lt(a1, b1) || (a1 == b1 && lex_lt(a2, b2))),
{
    lemma_lex_from_concat_front(a1, a2, b1, b2, 0);
    if forall|m: int| 0 <= m < a1.len() ==> a1[m] == b1[m] {
        assert(a1 =~= b1);
    }
}

} // verus!
