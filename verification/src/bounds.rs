//! The boundary algorithm: turning encoded prefix bytes into the byte
//! range a store scan must visit.
//!
//! A prefix scan for bytes `p` covers exactly the keys whose encodings
//! extend `p`. Those are the keys in `[p, u)`, where the exclusive upper
//! bound `u` comes from the carry increment: the rightmost byte of `p`
//! that is not `0xFF` is incremented and everything after it dropped.
//! When every byte is `0xFF` (or `p` is empty) no finite bound exists and
//! the range is `[p, +inf)`.

use vstd::prelude::*;

use crate::bytes::{
    lex_le,
    lex_lt,
    lex_lt_from,
    lemma_lex_from_asymmetric,
    lemma_lex_from_common_prefix,
    lemma_prefix_lex_le,
};

verus! {

/// The carry-increment upper bound of prefix bytes `p`, or `None` when
/// no finite bound exists.
pub open spec fn spec_prefix_upper_bound(p: Seq<u8>) -> Option<Seq<u8>>
    decreases p.len(),
{
    if p.len() == 0 {
        None
    } else if p[p.len() - 1] < 255 {
        Some(p.take(p.len() - 1).push((p[p.len() - 1] + 1) as u8))
    } else {
        spec_prefix_upper_bound(p.take(p.len() - 1))
    }
}

/// The index of the rightmost byte of `p` below `0xFF`, or `-1` when
/// there is none.
pub open spec fn last_below_max(p: Seq<u8>) -> int
    decreases p.len(),
{
    if p.len() == 0 {
        -1
    } else if p[p.len() - 1] < 255 {
        p.len() - 1
    } else {
        last_below_max(p.take(p.len() - 1))
    }
}

/// What the carry increment produces, stated over `last_below_max`.
pub proof fn lemma_upper_bound_shape(p: Seq<u8>)
    ensures
        -1 <= last_below_max(p) < p.len(),
        last_below_max(p) >= 0 ==> p[last_below_max(p)] < 255,
        forall|i: int| last_below_max(p) < i < p.len() ==> p[i] == 255,
        spec_prefix_upper_bound(p) == if last_below_max(p) == -1 {
            None::<Seq<u8>>
        } else {
            Some(
                p.take(last_below_max(p)).push((p[last_below_max(p)] + 1) as u8),
            )
        },
    decreases p.len(),
{
    if p.len() == 0 {
    } else if p[p.len() - 1] < 255 {
    } else {
        let q = p.take(p.len() - 1);
        lemma_upper_bound_shape(q);
        let j = last_below_max(q);
        assert(forall|i: int| j < i < p.len() - 1 ==> p[i] == q[i]);
        if j >= 0 {
            assert(p.take(j) =~= q.take(j));
        }
    }
}

/// The first position at or after `i` where `a` and `b` differ or one of
/// them ends.
pub open spec fn first_diff(a: Seq<u8>, b: Seq<u8>, i: int) -> int
    decreases a.len() - i,
{
    if i >= a.len() || i >= b.len() {
        i
    } else if a[i] != b[i] {
        i
    } else {
        first_diff(a, b, i + 1)
    }
}

pub proof fn lemma_first_diff(a: Seq<u8>, b: Seq<u8>, i: int)
    requires
        0 <= i <= a.len(),
        i <= b.len(),
    ensures
        i <= first_diff(a, b, i),
        first_diff(a, b, i) <= a.len(),
        first_diff(a, b, i) <= b.len(),
        forall|m: int| i <= m < first_diff(a, b, i) ==> a[m] == b[m],
        first_diff(a, b, i) < a.len() && first_diff(a, b, i) < b.len() ==> a[first_diff(a, b, i)]
            != b[first_diff(a, b, i)],
    decreases a.len() - i,
{
    if i < a.len() && i < b.len() && a[i] == b[i] {
        lemma_first_diff(a, b, i + 1);
    }
}

/// A sequence below another in the byte-lexicographic order is smaller at
/// the first position where the two differ.
proof fn lemma_lex_lt_at_first_diff(a: Seq<u8>, b: Seq<u8>)
    requires
        lex_lt(a, b),
    ensures
        ({
            let d = first_diff(a, b, 0);
            d < b.len() && (d < a.len() ==> a[d] < b[d])
        }),
{
    lemma_first_diff(a, b, 0);
    let d = first_diff(a, b, 0);
    lemma_lex_from_common_prefix(a, b, d);
    if d >= b.len() {
        assert(!lex_lt_from(a, b, d));
    }
}

/// Boundary correctness: when the carry increment yields a finite bound
/// `u`, a key `k` extends the prefix bytes `p` exactly when
/// `p <= k < u`; when it yields none, `k` extends `p` exactly when
/// `p <= k`.
pub proof fn lemma_prefix_bound_correct(p: Seq<u8>, k: Seq<u8>)
    ensures
        match spec_prefix_upper_bound(p) {
            Some(u) => p.is_prefix_of(k) <==> (lex_le(p, k) && lex_lt(k, u)),
            None => p.is_prefix_of(k) <==> lex_le(p, k),
        },
{
    lemma_upper_bound_shape(p);
    let j = last_below_max(p);
    if p.is_prefix_of(k) {
        lemma_prefix_lex_le(p, k);
        assert(forall|i: int| 0 <= i < p.len() ==> p[i] == k.subrange(0, p.len() as int)[i]);
        assert(forall|i: int| 0 <= i < p.len() ==> p[i] == k[i]);
        if j >= 0 {
            let u = p.take(j).push((p[j] + 1) as u8);
            assert(forall|i: int| 0 <= i < j ==> u[i] == k[i]);
            assert(k[j] < u[j]);
            assert(lex_lt_from(k, u, j));
            lemma_lex_from_common_prefix(k, u, j);
        }
    }
    if !p.is_prefix_of(k) && lex_le(p, k) {
        // show that k then lies at or above the upper bound
        lemma_first_diff(p, k, 0);
        let d = first_diff(p, k, 0);
        if d >= p.len() {
            // p and k agree on all of p, yet p is not a prefix: k is shorter
            assert(k.len() < p.len());
            assert(forall|i: int| 0 <= i < k.len() ==> k[i] == p.subrange(0, k.len() as int)[i]);
            assert(k.is_prefix_of(p));
            lemma_prefix_lex_le(k, p);
            lemma_lex_from_asymmetric(p, k, 0);
            assert(false);
        } else if d >= k.len() {
            assert(k.is_prefix_of(p)) by {
                assert(forall|i: int| 0 <= i < k.len() ==> k[i] == p.subrange(0, k.len() as int)[i]);
            }
            lemma_prefix_lex_le(k, p);
            lemma_lex_from_asymmetric(p, k, 0);
            if p == k {
                assert(p.is_prefix_of(k));
            }
            assert(false);
        } else {
            // a genuine difference at d
            assert(p[d] != k[d]);
            if p == k {
                assert(false);
            }
            lemma_lex_lt_at_first_diff(p, k);
            assert(p[d] < k[d]);
            assert(d <= j) by {
                if d > j {
                    assert(p[d] == 255);
                }
            }
            assert(j >= 0);
            let u = p.take(j).push((p[j] + 1) as u8);
            if d < j {
                assert(u[d] == p[d]);
                assert(forall|i: int| 0 <= i < d ==> u[i] == k[i]);
                assert(lex_lt_from(u, k, d));
                lemma_lex_from_common_prefix(u, k, d);
                lemma_lex_from_asymmetric(k, u, 0);
                assert(!lex_lt(k, u));
            } else {
                assert(d == j);
                assert(k[j] >= p[j] + 1);
                if k[j] > u[j] {
                    assert(forall|i: int| 0 <= i < j ==> u[i] == k[i]);
                    assert(lex_lt_from(u, k, j));
                    lemma_lex_from_common_prefix(u, k, j);
                    lemma_lex_from_asymmetric(k, u, 0);
                    assert(!lex_lt(k, u));
                } else {
                    assert(k[j] == u[j]);
                    assert(forall|i: int| 0 <= i < u.len() ==> u[i] == k.subrange(
                        0,
                        u.len() as int,
                    )[i]);
                    assert(u.is_prefix_of(k));
                    lemma_prefix_lex_le(u, k);
                    lemma_lex_from_asymmetric(k, u, 0);
                    if k == u {
                        assert(!lex_lt(k, u)) by {
                            lemma_lex_from_asymmetric(k, k, 0);
                        }
                    }
                    assert(!lex_lt(k, u));
                }
            }
        }
    }
}

/// The carry-increment upper bound of `prefix`, executable form.
pub fn prefix_upper_bound(prefix: &[u8]) -> (r: Option<Vec<u8>>)
    ensures
        match r {
            Some(u) => spec_prefix_upper_bound(prefix@) == Some(u@),
            None => spec_prefix_upper_bound(prefix@) is None,
        },
{
    let mut end: Vec<u8> = vstd::slice::slice_to_vec(prefix);
    while end.len() > 0
        invariant
            spec_prefix_upper_bound(prefix@) == spec_prefix_upper_bound(end@),
        decreases end.len(),
    {
        let ghost before = end@;
        let last = match end.pop() {
            Some(x) => x,
            None => {
                return None;
            },
        };
        proof {
            assert(end@ =~= before.take(before.len() - 1));
        }
        if last < 255 {
            end.push(last + 1);
            proof {
                assert(end@ =~= before.take(before.len() - 1).push((before[before.len() - 1]
                    + 1) as u8));
            }
            return Some(end);
        }
    }
    None
}

} // verus!
