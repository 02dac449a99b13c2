//! The ordered byte store: a minimal capability contract over byte keys
//! and values, and the reference in-memory backend.
//!
//! The reference backend keeps its entries in a vector sorted by
//! byte-lexicographic key order with no duplicate keys, so every range
//! scan yields entries in ascending key order. Its mathematical model is
//! a map from key bytes to value bytes, together with the ordered
//! sequence of entries.

use vstd::prelude::*;

use crate::Record;
use crate::key::{DecodeKey, EncodeKey, PrefixKey};
use crate::bytes::{lex_cmp, lex_le, lex_lt, lemma_lex_lt_asymmetric, lemma_lex_lt_transitive};

verus! {

/// An entry pair as the model sees it: key bytes and value bytes.
pub type EntryView = (Seq<u8>, Seq<u8>);

/// Whether the entries are strictly ascending in byte-lexicographic key
/// order; strictness also makes every key unique.
pub open spec fn entries_sorted(s: Seq<EntryView>) -> bool {
    forall|i: int, j: int|
        #![trigger s[i], s[j]]
        0 <= i < j < s.len() ==> lex_lt(s[i].0, s[j].0)
}

/// The entries as a map from key bytes to value bytes.
pub open spec fn map_of(s: Seq<EntryView>) -> Map<Seq<u8>, Seq<u8>> {
    Map::new(
        |k: Seq<u8>| exists|i: int| 0 <= i < s.len() && s[i].0 == k,
        |k: Seq<u8>| s[choose|i: int| 0 <= i < s.len() && s[i].0 == k].1,
    )
}

/// Strictly sorted entries have pairwise distinct keys.
pub proof fn lemma_sorted_unique_keys(s: Seq<EntryView>)
    requires
        entries_sorted(s),
    ensures
        forall|i: int, j: int|
            #![trigger s[i], s[j]]
            0 <= i < s.len() && 0 <= j < s.len() && i != j ==> s[i].0 != s[j].0,
{
    assert forall|i: int, j: int|
        #![trigger s[i], s[j]]
        0 <= i < s.len() && 0 <= j < s.len() && i != j implies s[i].0 != s[j].0 by {
        if i < j {
            lemma_lex_lt_asymmetric(s[i].0, s[j].0);
        } else {
            lemma_lex_lt_asymmetric(s[j].0, s[i].0);
        }
    }
}

/// The map holds exactly the keys of the entries, each with its entry's
/// value.
pub proof fn lemma_map_of_index(s: Seq<EntryView>, i: int)
    requires
        entries_sorted(s),
        0 <= i < s.len(),
    ensures
        map_of(s).contains_key(s[i].0),
        map_of(s)[s[i].0] == s[i].1,
{
    lemma_sorted_unique_keys(s);
    let j = choose|j: int| 0 <= j < s.len() && s[j].0 == s[i].0;
    assert(s[j].0 == s[i].0);
}

/// Inserting an entry with a fresh key at any position adds exactly that
/// binding to the map.
proof fn lemma_map_of_insert(s: Seq<EntryView>, i: int, kv: EntryView)
    requires
        0 <= i <= s.len(),
        forall|m: int| #![trigger s[m]] 0 <= m < s.len() ==> s[m].0 != kv.0,
        forall|m: int, n: int|
            #![trigger s[m], s[n]]
            0 <= m < s.len() && 0 <= n < s.len() && m != n ==> s[m].0 != s[n].0,
    ensures
        map_of(s.insert(i, kv)) =~= map_of(s).insert(kv.0, kv.1),
{
    let t = s.insert(i, kv);
    assert forall|k: Seq<u8>| #[trigger] map_of(t).contains_key(k) implies map_of(s).insert(
        kv.0,
        kv.1,
    ).contains_key(k) by {
        let m = choose|m: int| 0 <= m < t.len() && t[m].0 == k;
        if m < i {
            assert(s[m].0 == k);
        } else if m > i {
            assert(s[m - 1].0 == k);
        }
    }
    assert forall|k: Seq<u8>| #[trigger] map_of(s).insert(kv.0, kv.1).contains_key(k) implies map_of(
        t,
    ).contains_key(k) by {
        if k == kv.0 {
            assert(t[i].0 == k);
        } else {
            let m = choose|m: int| 0 <= m < s.len() && s[m].0 == k;
            if m < i {
                assert(t[m].0 == k);
            } else {
                assert(t[m + 1].0 == k);
            }
        }
    }
    assert forall|k: Seq<u8>| map_of(t).contains_key(k) implies map_of(t)[k] == map_of(s).insert(
        kv.0,
        kv.1,
    )[k] by {
        let m = choose|m: int| 0 <= m < t.len() && t[m].0 == k;
        if k == kv.0 {
            assert(t[i] == kv);
            assert forall|n: int| 0 <= n < t.len() && t[n].0 == k implies t[n] == kv by {
                if n < i {
                    assert(s[n].0 == k);
                } else if n > i {
                    assert(s[n - 1].0 == k);
                }
            }
            assert(map_of(t)[k] == kv.1);
        } else {
            let w = if m < i {
                m
            } else {
                m - 1
            };
            assert(s[w].0 == k && s[w].1 == t[m].1);
            assert forall|n: int| 0 <= n < t.len() && t[n].0 == k implies t[n].1 == map_of(s)[k] by {
                let wn = if n < i {
                    n
                } else {
                    n - 1
                };
                assert(s[wn].0 == k && s[wn].1 == t[n].1);
                let c = choose|c: int| 0 <= c < s.len() && s[c].0 == k;
                assert(map_of(s)[k] == s[c].1);
                assert(s[wn].1 == s[c].1) by {
                    lemma_value_of_key(s, wn, c);
                }
            }
        }
    }
}

/// Two entries of a duplicate-free sequence with the same key are the
/// same entry.
proof fn lemma_value_of_key(s: Seq<EntryView>, i: int, j: int)
    requires
        0 <= i < s.len(),
        0 <= j < s.len(),
        s[i].0 == s[j].0,
        forall|m: int, n: int|
            #![trigger s[m], s[n]]
            0 <= m < s.len() && 0 <= n < s.len() && m != n ==> s[m].0 != s[n].0,
    ensures
        i == j,
        s[i].1 == s[j].1,
{
}

/// Overwriting the entry at `i` with a same-keyed pair updates exactly
/// that binding in the map.
proof fn lemma_map_of_update(s: Seq<EntryView>, i: int, kv: EntryView)
    requires
        entries_sorted(s),
        0 <= i < s.len(),
        s[i].0 == kv.0,
    ensures
        map_of(s.update(i, kv)) =~= map_of(s).insert(kv.0, kv.1),
{
    lemma_sorted_unique_keys(s);
    let t = s.update(i, kv);
    assert forall|k: Seq<u8>| #[trigger] map_of(t).contains_key(k) implies map_of(s).insert(
        kv.0,
        kv.1,
    ).contains_key(k) by {
        let m = choose|m: int| 0 <= m < t.len() && t[m].0 == k;
        if m != i {
            assert(s[m].0 == k);
        }
    }
    assert forall|k: Seq<u8>| #[trigger] map_of(s).insert(kv.0, kv.1).contains_key(k) implies map_of(
        t,
    ).contains_key(k) by {
        if k == kv.0 {
            assert(t[i].0 == k);
        } else {
            let m = choose|m: int| 0 <= m < s.len() && s[m].0 == k;
            assert(m != i);
            assert(t[m].0 == k);
        }
    }
    assert forall|k: Seq<u8>| map_of(t).contains_key(k) implies map_of(t)[k] == map_of(s).insert(
        kv.0,
        kv.1,
    )[k] by {
        if k == kv.0 {
            assert forall|n: int| 0 <= n < t.len() && t[n].0 == k implies t[n] == kv by {
                if n != i {
                    assert(s[n].0 == k && s[i].0 == k);
                }
            }
            assert(map_of(t)[k] == kv.1);
        } else {
            assert forall|n: int| 0 <= n < t.len() && t[n].0 == k implies t[n].1 == map_of(s)[k] by {
                assert(n != i);
                assert(s[n].0 == k);
                let c = choose|c: int| 0 <= c < s.len() && s[c].0 == k;
                lemma_value_of_key(s, n, c);
            }
        }
    }
}

/// Removing the entry at `i` removes exactly its binding from the map.
proof fn lemma_map_of_remove(s: Seq<EntryView>, i: int)
    requires
        entries_sorted(s),
        0 <= i < s.len(),
    ensures
        map_of(s.remove(i)) =~= map_of(s).remove(s[i].0),
{
    lemma_sorted_unique_keys(s);
    let t = s.remove(i);
    assert forall|k: Seq<u8>| #[trigger] map_of(t).contains_key(k) implies map_of(s).remove(
        s[i].0,
    ).contains_key(k) by {
        let m = choose|m: int| 0 <= m < t.len() && t[m].0 == k;
        let w = if m < i {
            m
        } else {
            m + 1
        };
        assert(s[w].0 == k);
        assert(w != i);
    }
    assert forall|k: Seq<u8>| #[trigger] map_of(s).remove(s[i].0).contains_key(k) implies map_of(
        t,
    ).contains_key(k) by {
        let m = choose|m: int| 0 <= m < s.len() && s[m].0 == k;
        assert(m != i);
        if m < i {
            assert(t[m].0 == k);
        } else {
            assert(t[m - 1].0 == k);
        }
    }
    assert forall|k: Seq<u8>| map_of(t).contains_key(k) implies map_of(t)[k] == map_of(s).remove(
        s[i].0,
    )[k] by {
        assert forall|n: int| 0 <= n < t.len() && t[n].0 == k implies t[n].1 == map_of(s)[k] by {
            let wn = if n < i {
                n
            } else {
                n + 1
            };
            assert(s[wn].0 == k && s[wn].1 == t[n].1);
            let c = choose|c: int| 0 <= c < s.len() && s[c].0 == k;
            lemma_value_of_key(s, wn, c);
        }
    }
}

/// The reference in-memory backend: an ordered mapping of byte keys to
/// byte values, kept as a vector sorted by key.
pub struct MemStore {
    entries: Vec<(Vec<u8>, Vec<u8>)>,
}

impl MemStore {
    /// The stored entries, in order, as the model sees them.
    pub closed spec fn entries_view(&self) -> Seq<EntryView> {
        Seq::new(self.entries@.len(), |i: int| (self.entries@[i].0@, self.entries@[i].1@))
    }

    /// The store's invariant: entries strictly ascending by key.
    pub open spec fn wf(&self) -> bool {
        entries_sorted(self.entries_view())
    }

    /// The store as a map from key bytes to value bytes.
    pub open spec fn map_view(&self) -> Map<Seq<u8>, Seq<u8>> {
        map_of(self.entries_view())
    }

    /// An empty store.
    pub fn new() -> (s: MemStore)
        ensures
            s.wf(),
            s.entries_view() =~= Seq::<EntryView>::empty(),
            s.map_view() =~= Map::<Seq<u8>, Seq<u8>>::empty(),
    {
        let s = MemStore { entries: Vec::new() };
        proof {
            assert(s.entries_view() =~= Seq::<EntryView>::empty());
            assert(s.map_view() =~= Map::<Seq<u8>, Seq<u8>>::empty());
        }
        s
    }

    /// The position `key` holds or would hold: every earlier entry is
    /// strictly below `key`, and the flag says whether the entry at that
    /// position has exactly `key`.
    fn find(&self, key: &[u8]) -> (r: (usize, bool))
        requires
            self.wf(),
        ensures
            r.0 <= self.entries_view().len(),
            forall|m: int|
                #![trigger self.entries_view()[m]]
                0 <= m < r.0 ==> lex_lt(self.entries_view()[m].0, key@),
            r.1 <==> (r.0 < self.entries_view().len() && self.entries_view()[r.0 as int].0 == key@),
            !r.1 && r.0 < self.entries_view().len() ==> lex_lt(
                key@,
                self.entries_view()[r.0 as int].0,
            ),
    {
        let n = self.entries.len();
        let mut i: usize = 0;
        while i < n
            invariant
                self.wf(),
                n == self.entries_view().len(),
                i <= n,
                forall|m: int|
                    #![trigger self.entries_view()[m]]
                    0 <= m < i ==> lex_lt(self.entries_view()[m].0, key@),
            decreases n - i,
        {
            let c = lex_cmp(self.entries[i].0.as_slice(), key);
            proof {
                assert(self.entries@[i as int].0@ == self.entries_view()[i as int].0);
            }
            if c == 0 {
                return (i, true);
            }
            if c == 1 {
                proof {
                    lemma_lex_lt_asymmetric(key@, self.entries_view()[i as int].0);
                }
                return (i, false);
            }
            i += 1;
        }
        (i, false)
    }

    /// Fetch the value stored under `key`, if any.
    pub fn get(&self, key: &[u8]) -> (r: Option<&Vec<u8>>)
        requires
            self.wf(),
        ensures
            match r {
                Some(v) => self.map_view().contains_key(key@) && self.map_view()[key@] == v@,
                None => !self.map_view().contains_key(key@),
            },
    {
        let (i, found) = self.find(key);
        if found {
            proof {
                lemma_map_of_index(self.entries_view(), i as int);
            }
            Some(&self.entries[i].1)
        } else {
            proof {
                let ev = self.entries_view();
                assert forall|m: int| 0 <= m < ev.len() implies ev[m].0 != key@ by {
                    if m < i {
                        lemma_lex_lt_asymmetric(ev[m].0, key@);
                    } else {
                        lemma_lex_lt_asymmetric(key@, ev[i as int].0);
                        if m > i {
                            lemma_lex_lt_transitive(key@, ev[i as int].0, ev[m].0);
                            lemma_lex_lt_asymmetric(key@, ev[m].0);
                        }
                    }
                }
            }
            None
        }
    }

    /// Insert `value` under `key`, overwriting any previous value: the
    /// upsert of the store contract.
    pub fn insert(&mut self, key: Vec<u8>, value: Vec<u8>)
        requires
            old(self).wf(),
        ensures
            final(self).wf(),
            final(self).map_view() =~= old(self).map_view().insert(key@, value@),
    {
        let ghost ev = self.entries_view();
        let ghost kv: EntryView = (key@, value@);
        let (i, found) = self.find(key.as_slice());
        if found {
            self.entries.remove(i);
            self.entries.insert(i, (key, value));
            proof {
                assert(self.entries_view() =~= ev.update(i as int, kv));
                lemma_map_of_update(ev, i as int, kv);
                assert forall|m: int, n: int|
                    #![trigger self.entries_view()[m], self.entries_view()[n]]
                    0 <= m < n < self.entries_view().len() implies lex_lt(
                    self.entries_view()[m].0,
                    self.entries_view()[n].0,
                ) by {
                    assert(self.entries_view()[m].0 == ev[m].0);
                    assert(self.entries_view()[n].0 == ev[n].0);
                }
            }
        } else {
            proof {
                let evl = ev;
                assert forall|m: int| #![trigger evl[m]] 0 <= m < evl.len() implies evl[m].0
                    != kv.0 by {
                    if m < i {
                        lemma_lex_lt_asymmetric(evl[m].0, key@);
                    } else {
                        lemma_lex_lt_asymmetric(key@, evl[i as int].0);
                        if m > i {
                            lemma_lex_lt_transitive(key@, evl[i as int].0, evl[m].0);
                            lemma_lex_lt_asymmetric(key@, evl[m].0);
                        }
                    }
                }
                lemma_sorted_unique_keys(ev);
                lemma_map_of_insert(ev, i as int, kv);
            }
            self.entries.insert(i, (key, value));
            proof {
                assert(self.entries_view() =~= ev.insert(i as int, kv));
                assert forall|m: int, n: int|
                    #![trigger self.entries_view()[m], self.entries_view()[n]]
                    0 <= m < n < self.entries_view().len() implies lex_lt(
                    self.entries_view()[m].0,
                    self.entries_view()[n].0,
                ) by {
                    let t = self.entries_view();
                    if n < i {
                        assert(t[m] == ev[m] && t[n] == ev[n]);
                    } else if m > i {
                        assert(t[m] == ev[m - 1] && t[n] == ev[n - 1]);
                    } else if m < i && n == i {
                        assert(t[m] == ev[m]);
                    } else if m < i && n > i {
                        assert(t[m] == ev[m] && t[n] == ev[n - 1]);
                    } else if m == i && n > i {
                        assert(t[n] == ev[n - 1]);
                        if i < ev.len() {
                            if n - 1 > i {
                                lemma_lex_lt_transitive(key@, ev[i as int].0, ev[n - 1].0);
                            }
                        }
                    }
                }
            }
        }
    }

    /// Remove the entry stored under `key`, if any.
    pub fn remove(&mut self, key: &[u8])
        requires
            old(self).wf(),
        ensures
            final(self).wf(),
            final(self).map_view() =~= old(self).map_view().remove(key@),
    {
        let ghost ev = self.entries_view();
        let (i, found) = self.find(key);
        if found {
            self.entries.remove(i);
            proof {
                assert(self.entries_view() =~= ev.remove(i as int));
                lemma_map_of_remove(ev, i as int);
                assert forall|m: int, n: int|
                    #![trigger self.entries_view()[m], self.entries_view()[n]]
                    0 <= m < n < self.entries_view().len() implies lex_lt(
                    self.entries_view()[m].0,
                    self.entries_view()[n].0,
                ) by {
                    let t = self.entries_view();
                    let wm = if m < i {
                        m
                    } else {
                        m + 1
                    };
                    let wn = if n < i {
                        n
                    } else {
                        n + 1
                    };
                    assert(t[m] == ev[wm] && t[n] == ev[wn]);
                }
            }
        } else {
            proof {
                let evl = ev;
                assert forall|m: int| #![trigger evl[m]] 0 <= m < evl.len() implies evl[m].0
                    != key@ by {
                    if m < i {
                        lemma_lex_lt_asymmetric(evl[m].0, key@);
                    } else {
                        lemma_lex_lt_asymmetric(key@, evl[i as int].0);
                        if m > i {
                            lemma_lex_lt_transitive(key@, evl[i as int].0, evl[m].0);
                            lemma_lex_lt_asymmetric(key@, evl[m].0);
                        }
                    }
                }
                assert(self.map_view() =~= map_of(ev).remove(key@));
            }
        }
    }
}

} // verus!

verus! {

/// One endpoint of a byte-range scan.
#[derive(Debug, Clone)]
pub enum KeyBound<T> {
    /// The endpoint value itself lies inside the range.
    Included(T),
    /// The endpoint value lies outside the range.
    Excluded(T),
    /// The range is open on this side.
    Unbounded,
}

/// Whether key bytes `k` lie at or above the start bound.
pub open spec fn start_bound_ok(b: KeyBound<Seq<u8>>, k: Seq<u8>) -> bool {
    match b {
        KeyBound::Included(s) => lex_le(s, k),
        KeyBound::Excluded(s) => lex_lt(s, k),
        KeyBound::Unbounded => true,
    }
}

/// Whether key bytes `k` lie at or below the end bound.
pub open spec fn end_bound_ok(b: KeyBound<Seq<u8>>, k: Seq<u8>) -> bool {
    match b {
        KeyBound::Included(e) => lex_le(k, e),
        KeyBound::Excluded(e) => lex_lt(k, e),
        KeyBound::Unbounded => true,
    }
}

/// The view of an owned byte bound.
pub open spec fn bound_view(b: &KeyBound<Vec<u8>>) -> KeyBound<Seq<u8>> {
    match b {
        KeyBound::Included(v) => KeyBound::Included(v@),
        KeyBound::Excluded(v) => KeyBound::Excluded(v@),
        KeyBound::Unbounded => KeyBound::Unbounded,
    }
}

/// Whether key bytes `k` lie between the two bounds.
pub open spec fn in_byte_range(start: KeyBound<Seq<u8>>, end: KeyBound<Seq<u8>>, k: Seq<u8>) -> bool {
    start_bound_ok(start, k) && end_bound_ok(end, k)
}

/// The entry predicate of a byte-range scan.
pub open spec fn range_pred(start: KeyBound<Seq<u8>>, end: KeyBound<Seq<u8>>) -> spec_fn(
    EntryView,
) -> bool {
    |e: EntryView| in_byte_range(start, end, e.0)
}

/// The entry predicate of a byte-prefix scan.
pub open spec fn prefix_pred(p: Seq<u8>) -> spec_fn(EntryView) -> bool {
    |e: EntryView| p.is_prefix_of(e.0)
}

/// The views of a vector of owned entries.
pub open spec fn pairs_view(s: Seq<(Vec<u8>, Vec<u8>)>) -> Seq<EntryView> {
    Seq::new(s.len(), |i: int| (s[i].0@, s[i].1@))
}

fn start_ok(b: &KeyBound<Vec<u8>>, k: &[u8]) -> (r: bool)
    ensures
        r == start_bound_ok(bound_view(b), k@),
{
    match b {
        KeyBound::Included(s) => {
            let c = lex_cmp(s.as_slice(), k);
            c == -1 || c == 0
        },
        KeyBound::Excluded(s) => lex_cmp(s.as_slice(), k) == -1,
        KeyBound::Unbounded => true,
    }
}

fn end_ok(b: &KeyBound<Vec<u8>>, k: &[u8]) -> (r: bool)
    ensures
        r == end_bound_ok(bound_view(b), k@),
{
    match b {
        KeyBound::Included(e) => {
            let c = lex_cmp(k, e.as_slice());
            c == -1 || c == 0
        },
        KeyBound::Excluded(e) => lex_cmp(k, e.as_slice()) == -1,
        KeyBound::Unbounded => true,
    }
}

/// Appending one element filters to the old filtered sequence, plus the
/// element when the predicate accepts it.
proof fn lemma_filter_push<A>(s: Seq<A>, pred: spec_fn(A) -> bool, e: A)
    ensures
        s.push(e).filter(pred) == if pred(e) {
            s.filter(pred).push(e)
        } else {
            s.filter(pred)
        },
{
    reveal(Seq::filter);
    assert(s.push(e).drop_last() =~= s);
    assert(s.push(e).last() == e);
}

/// Predicates that agree on every element of a sequence filter it to the
/// same subsequence.
pub proof fn lemma_filter_equiv<A>(s: Seq<A>, p1: spec_fn(A) -> bool, p2: spec_fn(A) -> bool)
    requires
        forall|i: int| 0 <= i < s.len() ==> (p1(s[i]) <==> p2(s[i])),
    ensures
        s.filter(p1) == s.filter(p2),
    decreases s.len(),
{
    reveal(Seq::filter);
    if s.len() > 0 {
        assert(forall|i: int| 0 <= i < s.len() - 1 ==> s.drop_last()[i] == s[i]);
        lemma_filter_equiv(s.drop_last(), p1, p2);
    }
}

/// A predicate that accepts every element of a sequence leaves it whole.
pub proof fn lemma_filter_all<A>(s: Seq<A>, pred: spec_fn(A) -> bool)
    requires
        forall|i: int| 0 <= i < s.len() ==> pred(s[i]),
    ensures
        s.filter(pred) == s,
    decreases s.len(),
{
    reveal(Seq::filter);
    if s.len() > 0 {
        assert(forall|i: int| 0 <= i < s.len() - 1 ==> s.drop_last()[i] == s[i]);
        lemma_filter_all(s.drop_last(), pred);
        assert(s.drop_last().push(s.last()) =~= s);
    } else {
        assert(s.filter(pred) =~= s);
    }
}

impl MemStore {
    /// Every entry whose key lies between the bounds, in ascending key
    /// order: the eagerly materialized snapshot that a scan of the
    /// reference backend iterates.
    pub fn range_entries(&self, start: &KeyBound<Vec<u8>>, end: &KeyBound<Vec<u8>>) -> (r: Vec<
        (Vec<u8>, Vec<u8>),
    >)
        requires
            self.wf(),
        ensures
            pairs_view(r@) == self.entries_view().filter(
                range_pred(bound_view(start), bound_view(end)),
            ),
    {
        let ghost pred = range_pred(bound_view(start), bound_view(end));
        let n = self.entries.len();
        let mut out: Vec<(Vec<u8>, Vec<u8>)> = Vec::new();
        proof {
            reveal(Seq::filter);
            assert(pairs_view(out@) =~= self.entries_view().take(0).filter(pred));
        }
        let mut i: usize = 0;
        while i < n
            invariant
                self.wf(),
                n == self.entries_view().len(),
                i <= n,
                pred == range_pred(bound_view(start), bound_view(end)),
                pairs_view(out@) == self.entries_view().take(i as int).filter(pred),
            decreases n - i,
        {
            let ghost ev = self.entries_view();
            let ghost prev = out@;
            let sok = start_ok(start, self.entries[i].0.as_slice());
            let eok = end_ok(end, self.entries[i].0.as_slice());
            proof {
                assert(self.entries@[i as int].0@ == ev[i as int].0);
            }
            if sok && eok {
                let k = vstd::slice::slice_to_vec(self.entries[i].0.as_slice());
                let v = vstd::slice::slice_to_vec(self.entries[i].1.as_slice());
                out.push((k, v));
                proof {
                    assert(pairs_view(out@) =~= pairs_view(prev).push(ev[i as int]));
                }
            }
            proof {
                lemma_filter_push(ev.take(i as int), pred, ev[i as int]);
                assert(ev.take(i as int).push(ev[i as int]) =~= ev.take(i as int + 1));
            }
            i += 1;
        }
        proof {
            assert(self.entries_view().take(n as int) =~= self.entries_view());
        }
        out
    }
}

/// Why reading a record failed: the store itself, the key bytes, or the
/// payload bytes.
#[derive(Debug, Clone, Copy, PartialEq, Eq)]
pub enum ReadStoreError<S, K, V> {
    /// The backend reported an error.
    StoreError(S),
    /// The stored key bytes did not decode.
    KeyDecodeErr(K),
    /// The stored payload bytes did not decode.
    ValueDecodeError(V),
}

/// Why writing a record failed: the store itself, or encoding the
/// record.
#[derive(Debug, Clone, Copy, PartialEq, Eq)]
pub enum WriteStoreError<S, V> {
    /// The backend reported an error.
    StoreError(S),
    /// The record would not encode; the store was not touched.
    EncodeError(V),
}

} // verus!

verus! {

/// A materialized scan over the reference backend: the matching byte
/// entries were copied out eagerly, and records are decoded one at a
/// time as the caller advances, so one undecodable entry never aborts
/// the rest of the scan.
pub struct MemStoreIter<R> {
    entries: Vec<(Vec<u8>, Vec<u8>)>,
    pos: usize,
    _marker: core::marker::PhantomData<R>,
}

impl<R: Record> MemStoreIter<R> {
    /// The byte entries this scan decodes, in ascending key order.
    pub closed spec fn entries_view(&self) -> Seq<EntryView> {
        pairs_view(self.entries@)
    }

    /// How many entries have been handed out so far.
    pub closed spec fn position(&self) -> int {
        self.pos as int
    }

    /// Decode and return the next record, or `None` at the end. Each
    /// entry decodes independently: an entry whose key or payload does
    /// not decode yields an error item, and the scan goes on.
    pub fn next(&mut self) -> (r: Option<
        Result<
            R,
            ReadStoreError<core::convert::Infallible, <R::Key as DecodeKey>::Error, R::DecodeError>,
        >,
    >)
        ensures
            final(self).entries_view() == old(self).entries_view(),
            old(self).position() >= old(self).entries_view().len() ==> r is None
                && final(self).position() == old(self).position(),
            old(self).position() < old(self).entries_view().len() ==> r is Some
                && final(self).position() == old(self).position() + 1,
            r matches Some(Err(ReadStoreError::KeyDecodeErr(_)))
                ==> !<R::Key as DecodeKey>::decodable(
                old(self).entries_view()[old(self).position()].0,
            ),
            (r matches Some(Ok(_)) || r matches Some(
                Err(ReadStoreError::ValueDecodeError(_)),
            )) ==> <R::Key as DecodeKey>::decodable(
                old(self).entries_view()[old(self).position()].0,
            ),
            r matches Some(Ok(rec)) ==> exists|k: R::Key|
                #![auto]
                <R::Key as DecodeKey>::decodes_to(
                    old(self).entries_view()[old(self).position()].0,
                    &k,
                ) && R::decodes_from(&k, old(self).entries_view()[old(self).position()].1, &rec),
    {
        if self.pos >= self.entries.len() {
            return None;
        }
        let idx = self.pos;
        self.pos = self.pos + 1;
        proof {
            assert(self.entries@[idx as int].0@ == self.entries_view()[idx as int].0);
        }
        let key = match <R::Key as DecodeKey>::try_decode(self.entries[idx].0.as_slice()) {
            Ok((key, _)) => key,
            Err(e) => {
                return Some(Err(ReadStoreError::KeyDecodeErr(e)));
            },
        };
        let ghost kg = key;
        proof {
            assert(self.entries@[idx as int].1@ == self.entries_view()[idx as int].1);
        }
        match R::try_decode(key, self.entries[idx].1.as_slice()) {
            Ok(rec) => {
                proof {
                    assert(R::decodes_from(&kg, self.entries_view()[idx as int].1, &rec));
                }
                Some(Ok(rec))
            },
            Err(e) => Some(Err(ReadStoreError::ValueDecodeError(e))),
        }
    }
}

/// Whether `rec` is a record that the value bytes stored under `kb` in
/// `m` decode to, under some key value.
pub open spec fn fetched_record_matches<R: Record>(
    m: Map<Seq<u8>, Seq<u8>>,
    kb: Seq<u8>,
    rec: &R,
) -> bool {
    exists|k2: R::Key| #![auto] R::decodes_from(&k2, m[kb], rec)
}

/// The read capability of an ordered byte store: fetch one record by
/// key, or scan ascending ranges of records.
pub trait ReadStore<R: Record>: Sized {
    /// The backend's own error type.
    type Error;

    /// The scan this store hands out.
    type Iter;

    /// The store's invariant; an unverified backend may leave the
    /// trivial one in place.
    open spec fn inv(&self) -> bool {
        true
    }

    /// The store as a map from key bytes to value bytes; an unverified
    /// backend may leave the trivial model in place.
    open spec fn byte_map(&self) -> Map<Seq<u8>, Seq<u8>> {
        Map::empty()
    }

    /// The store's entries in ascending byte-key order; an unverified
    /// backend may leave the trivial model in place.
    open spec fn entries(&self) -> Seq<EntryView> {
        Seq::empty()
    }

    /// The byte entries a scan will decode, in order; an unverified
    /// backend may leave the trivial model in place.
    open spec fn iter_entries(it: &Self::Iter) -> Seq<EntryView> {
        Seq::empty()
    }

    /// How many entries a scan has already handed out.
    open spec fn iter_position(it: &Self::Iter) -> int {
        0
    }

    /// Encode `key` and fetch the record stored under it: a present
    /// record, absence, or an error from the store or the decoders.
    /// Fetching never decodes a key, so a key-decode error never comes
    /// back from it.
    fn fetch(&self, key: &R::Key) -> (r: Result<
        Option<R>,
        ReadStoreError<Self::Error, <R::Key as DecodeKey>::Error, R::DecodeError>,
    >)
        requires
            self.inv(),
        ensures
            r matches Ok(Some(rec)) ==> self.byte_map().contains_key(key.encoding())
                && fetched_record_matches::<R>(self.byte_map(), key.encoding(), &rec),
            r matches Ok(None) ==> !self.byte_map().contains_key(key.encoding()),
            r matches Err(ReadStoreError::ValueDecodeError(_)) ==> self.byte_map().contains_key(
                key.encoding(),
            ),
            r matches Err(ReadStoreError::KeyDecodeErr(_)) ==> false,
    ;

    /// Scan every record of the type, ascending by encoded key: the
    /// returned scan decodes exactly the store's entries.
    fn scan(&self) -> (r: Self::Iter)
        requires
            self.inv(),
        ensures
            Self::iter_entries(&r) == self.entries(),
            Self::iter_position(&r) == 0,
    ;

    /// Scan the records whose keys fall in `range`, ascending: the
    /// returned scan decodes the store's entries restricted to the byte
    /// range that the encoded endpoints of `range` span. Which byte
    /// range that is depends on what `range`'s own bound methods hand
    /// back, so the contract promises a byte-range restriction without
    /// naming its endpoints.
    fn scan_range<P: PrefixKey<R::Key> + Clone, RB: core::ops::RangeBounds<P>>(
        &self,
        range: RB,
    ) -> (r: Self::Iter)
        requires
            self.inv(),
        ensures
            exists|s: KeyBound<Seq<u8>>, e: KeyBound<Seq<u8>>|
                Self::iter_entries(&r) == self.entries().filter(range_pred(s, e)),
            Self::iter_position(&r) == 0,
    ;

    /// Scan the records whose encoded keys extend the encoding of
    /// `prefix`, ascending: the returned scan decodes exactly the
    /// store's entries whose key bytes have that encoding as a prefix.
    fn scan_prefix<P: PrefixKey<R::Key>>(&self, prefix: &P) -> (r: Self::Iter)
        requires
            self.inv(),
        ensures
            Self::iter_entries(&r) == self.entries().filter(prefix_pred(prefix.encoding())),
            Self::iter_position(&r) == 0,
    ;
}

/// The write capability of an ordered byte store: upsert one record, or
/// remove one by key.
pub trait WriteStore<R: Record> {
    /// The backend's own error type.
    type Error;

    /// The store's invariant; an unverified backend may leave the
    /// trivial one in place.
    open spec fn inv(&self) -> bool {
        true
    }

    /// The store as a map from key bytes to value bytes; an unverified
    /// backend may leave the trivial model in place.
    open spec fn byte_map(&self) -> Map<Seq<u8>, Seq<u8>> {
        Map::empty()
    }

    /// Encode `record` and upsert it under its encoded key. When the
    /// record fails to encode, the store is left untouched.
    fn persist(&mut self, record: &R) -> (r: Result<
        (),
        WriteStoreError<Self::Error, R::EncodeError>,
    >)
        requires
            old(self).inv(),
        ensures
            final(self).inv(),
            r is Ok ==> exists|k: R::Key, v: Seq<u8>|
                #![auto]
                record.encodes_to(&k, v) && final(self).byte_map() == old(
                    self,
                ).byte_map().insert(k.encoding(), v),
            r matches Err(WriteStoreError::EncodeError(_)) ==> final(self).byte_map() == old(self).byte_map(),
    ;

    /// Encode `key` and remove the entry stored under it, if any.
    fn remove(&mut self, key: &R::Key) -> (r: Result<
        (),
        WriteStoreError<Self::Error, R::EncodeError>,
    >)
        requires
            old(self).inv(),
        ensures
            final(self).inv(),
            r is Ok ==> final(self).byte_map() == old(self).byte_map().remove(key.encoding()),
    ;
}

/// Relies on `core::ops::RangeBounds::start_bound`, cloning the borrowed
/// endpoint into an owned bound of the library's own shape.
#[verifier::external_body]
fn start_bound_of<P: Clone, RB: core::ops::RangeBounds<P>>(range: &RB) -> KeyBound<P> {
    match range.start_bound() {
        core::ops::Bound::Included(p) => KeyBound::Included(p.clone()),
        core::ops::Bound::Excluded(p) => KeyBound::Excluded(p.clone()),
        core::ops::Bound::Unbounded => KeyBound::Unbounded,
    }
}

/// Relies on `core::ops::RangeBounds::end_bound`, cloning the borrowed
/// endpoint into an owned bound of the library's own shape.
#[verifier::external_body]
fn end_bound_of<P: Clone, RB: core::ops::RangeBounds<P>>(range: &RB) -> KeyBound<P> {
    match range.end_bound() {
        core::ops::Bound::Included(p) => KeyBound::Included(p.clone()),
        core::ops::Bound::Excluded(p) => KeyBound::Excluded(p.clone()),
        core::ops::Bound::Unbounded => KeyBound::Unbounded,
    }
}

/// Encode the typed endpoint of a bound. An included or excluded typed
/// endpoint becomes the same kind of byte endpoint over its encoding:
/// the exact-match translation of bounds.
pub fn encode_bound<P: EncodeKey>(b: &KeyBound<P>) -> (r: KeyBound<Vec<u8>>)
    ensures
        bound_view(&r) == match b {
            KeyBound::Included(p) => KeyBound::Included(p.encoding()),
            KeyBound::Excluded(p) => KeyBound::Excluded(p.encoding()),
            KeyBound::Unbounded => KeyBound::<Seq<u8>>::Unbounded,
        },
{
    match b {
        KeyBound::Included(p) => KeyBound::Included(p.encode()),
        KeyBound::Excluded(p) => KeyBound::Excluded(p.encode()),
        KeyBound::Unbounded => KeyBound::Unbounded,
    }
}

impl MemStore {
    /// The scan over every entry whose key lies between the two byte
    /// bounds, ascending: the verified heart of every range scan.
    pub fn scan_bounds<R: Record>(&self, start: &KeyBound<Vec<u8>>, end: &KeyBound<Vec<u8>>) -> (it:
        MemStoreIter<R>)
        requires
            self.wf(),
        ensures
            it.position() == 0,
            it.entries_view() == self.entries_view().filter(
                range_pred(bound_view(start), bound_view(end)),
            ),
    {
        MemStoreIter { entries: self.range_entries(start, end), pos: 0, _marker: core::marker::PhantomData }
    }
}

impl MemStore {
    /// The scan over every entry, ascending.
    pub fn scan_all<R: Record>(&self) -> (it: MemStoreIter<R>)
        requires
            self.wf(),
        ensures
            it.position() == 0,
            it.entries_view() == self.entries_view(),
    {
        let it = self.scan_bounds(&KeyBound::Unbounded, &KeyBound::Unbounded);
        proof {
            lemma_filter_all(
                self.entries_view(),
                range_pred(KeyBound::Unbounded, KeyBound::Unbounded),
            );
        }
        it
    }

    /// The scan over every entry whose key bytes extend `prefix`,
    /// ascending: the prefix is turned into a byte range by the carry
    /// increment, and boundary correctness makes the two readings agree.
    pub fn scan_prefix_bytes<R: Record>(&self, prefix: &[u8]) -> (it: MemStoreIter<R>)
        requires
            self.wf(),
        ensures
            it.position() == 0,
            it.entries_view() == self.entries_view().filter(prefix_pred(prefix@)),
    {
        let end: KeyBound<Vec<u8>> = match crate::bounds::prefix_upper_bound(prefix) {
            Some(u) => KeyBound::Excluded(u),
            None => KeyBound::Unbounded,
        };
        let ghost pb = prefix@;
        let start = KeyBound::Included(vstd::slice::slice_to_vec(prefix));
        let it = self.scan_bounds(&start, &end);
        proof {
            let ev = self.entries_view();
            let rp = range_pred(bound_view(&start), bound_view(&end));
            let pp = prefix_pred(pb);
            assert forall|i: int| 0 <= i < ev.len() implies (rp(ev[i]) <==> pp(ev[i])) by {
                crate::bounds::lemma_prefix_bound_correct(pb, ev[i].0);
            }
            lemma_filter_equiv(ev, rp, pp);
        }
        it
    }
}

impl<R: Record> ReadStore<R> for MemStore {
    type Error = core::convert::Infallible;

    type Iter = MemStoreIter<R>;

    open spec fn inv(&self) -> bool {
        self.wf()
    }

    open spec fn byte_map(&self) -> Map<Seq<u8>, Seq<u8>> {
        self.map_view()
    }

    open spec fn entries(&self) -> Seq<EntryView> {
        self.entries_view()
    }

    open spec fn iter_entries(it: &MemStoreIter<R>) -> Seq<EntryView> {
        it.entries_view()
    }

    open spec fn iter_position(it: &MemStoreIter<R>) -> int {
        it.position()
    }

    #[verifier::rlimit(50)]
    fn fetch(&self, key: &R::Key) -> (r: Result<
        Option<R>,
        ReadStoreError<core::convert::Infallible, <R::Key as DecodeKey>::Error, R::DecodeError>,
    >) {
        let kb = key.encode();
        let value = match self.get(kb.as_slice()) {
            Some(value) => value,
            None => {
                return Ok(None);
            },
        };
        let key2 = key.clone();
        let ghost k2 = key2;
        match R::try_decode(key2, value.as_slice()) {
            Ok(record) => {
                proof {
                    assert(fetched_record_matches::<R>(
                        <MemStore as ReadStore<R>>::byte_map(self),
                        key.encoding(),
                        &record,
                    )) by {
                        assert(R::decodes_from(
                            &k2,
                            <MemStore as ReadStore<R>>::byte_map(self)[key.encoding()],
                            &record,
                        ));
                    }
                }
                Ok(Some(record))
            },
            Err(err) => Err(ReadStoreError::ValueDecodeError(err)),
        }
    }

    fn scan(&self) -> Self::Iter {
        self.scan_all()
    }

    fn scan_range<P: PrefixKey<R::Key> + Clone, RB: core::ops::RangeBounds<P>>(
        &self,
        range: RB,
    ) -> Self::Iter {
        let sb = start_bound_of(&range);
        let eb = end_bound_of(&range);
        let sbb = encode_bound(&sb);
        let ebb = encode_bound(&eb);
        let it = self.scan_bounds(&sbb, &ebb);
        proof {
            assert(it.entries_view() == self.entries_view().filter(
                range_pred(bound_view(&sbb), bound_view(&ebb)),
            ));
        }
        it
    }

    fn scan_prefix<P: PrefixKey<R::Key>>(&self, prefix: &P) -> Self::Iter {
        let p = prefix.encode();
        self.scan_prefix_bytes(p.as_slice())
    }
}

impl<R: Record> WriteStore<R> for MemStore {
    type Error = core::convert::Infallible;

    open spec fn inv(&self) -> bool {
        self.wf()
    }

    open spec fn byte_map(&self) -> Map<Seq<u8>, Seq<u8>> {
        self.map_view()
    }

    fn persist(&mut self, record: &R) -> (r: Result<
        (),
        WriteStoreError<core::convert::Infallible, R::EncodeError>,
    >) {
        let (key, value) = match record.try_encode() {
            Ok(data) => data,
            Err(err) => {
                return Err(WriteStoreError::EncodeError(err));
            },
        };
        let kb = key.encode();
        let ghost vbv = value@;
        let ghost k0 = key;
        self.insert(kb, value);
        proof {
            assert(exists|k2: R::Key, v2: Seq<u8>|
                #![auto]
                record.encodes_to(&k2, v2) && <MemStore as WriteStore<R>>::byte_map(self)
                    == <MemStore as WriteStore<R>>::byte_map(old(self)).insert(
                    k2.encoding(),
                    v2,
                )) by {
                assert(record.encodes_to(&k0, vbv) && <MemStore as WriteStore<R>>::byte_map(self)
                    == <MemStore as WriteStore<R>>::byte_map(old(self)).insert(
                    k0.encoding(),
                    vbv,
                ));
            }
        }
        Ok(())
    }

    fn remove(&mut self, key: &R::Key) -> (r: Result<
        (),
        WriteStoreError<core::convert::Infallible, R::EncodeError>,
    >) {
        let kb = key.encode();
        MemStore::remove(self, kb.as_slice());
        Ok(())
    }
}

/// Idempotence of persisting: writing the same key and payload twice
/// leaves the byte map exactly as one write left it, with a single
/// binding for that key holding the latest payload.
pub proof fn lemma_upsert_idempotent(m: Map<Seq<u8>, Seq<u8>>, k: Seq<u8>, v: Seq<u8>)
    ensures
        m.insert(k, v).insert(k, v) =~= m.insert(k, v),
        m.insert(k, v).contains_key(k),
        m.insert(k, v)[k] == v,
{
}

} // verus!
