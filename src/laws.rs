//! Laws of the map that a list presents, stated over the sequences that
//! the list operations' contracts speak of: `inserted`, `removed`, `found`.

use vstd::prelude::*;
use crate::key::SkipKey;
use crate::skiplist::{key_sorted, lower_bound, key_at, inserted, inserted_all, removed, found};

verus! {

/// `lower_bound` splits a sorted sequence into the keys below rank `r` and
/// the others.
pub proof fn lemma_lower_bound_split<K: SkipKey, V>(s: Seq<(K, V)>, r: int)
    requires
        key_sorted(s),
    ensures
        0 <= lower_bound(s, r) <= s.len(),
        forall|j: int| 0 <= j < lower_bound(s, r) ==> (#[trigger] s[j]).0.rank() < r,
        forall|j: int| lower_bound(s, r) <= j < s.len() ==> (#[trigger] s[j]).0.rank() >= r,
    decreases s.len(),
{
    if s.len() > 0 && s[0].0.rank() < r {
        let t = s.drop_first();
        assert(key_sorted(t)) by {
            assert forall|i: int, j: int| 0 <= i < j < t.len() implies t[i].0.rank() < t[j].0.rank() by {
                assert(t[i] == s[i + 1]);
                assert(t[j] == s[j + 1]);
            }
        }
        lemma_lower_bound_split(t, r);
        assert forall|j: int| 0 <= j < lower_bound(s, r) implies (#[trigger] s[j]).0.rank() < r by {
            if j > 0 {
                assert(s[j] == t[j - 1]);
            }
        }
        assert forall|j: int| lower_bound(s, r) <= j < s.len() implies (#[trigger] s[j]).0.rank() >= r by {
            assert(s[j] == t[j - 1]);
        }
    } else if s.len() > 0 {
        assert forall|j: int| 0 <= j < s.len() implies (#[trigger] s[j]).0.rank() >= r by {
            if j > 0 {
                assert(s[0].0.rank() < s[j].0.rank());
            }
        }
    }
}

/// In a sorted sequence, each key is held at one position at most.
pub proof fn law_one_entry_per_key<K: SkipKey, V>(s: Seq<(K, V)>)
    requires
        key_sorted(s),
    ensures
        forall|i: int, j: int|
            0 <= i < s.len() && 0 <= j < s.len() && (#[trigger] s[i]).0 == (#[trigger] s[j]).0
                ==> i == j,
{
    assert forall|i: int, j: int|
        0 <= i < s.len() && 0 <= j < s.len() && (#[trigger] s[i]).0 == (#[trigger] s[j]).0 implies i
        == j by {
        if i < j {
            assert(s[i].0.rank() < s[j].0.rank());
        } else if j < i {
            assert(s[j].0.rank() < s[i].0.rank());
        }
    }
}

/// Putting a pair into a sorted sequence keeps it sorted, and the pair is
/// then found under its key.
pub proof fn lemma_inserted<K: SkipKey, V>(s: Seq<(K, V)>, k: K, v: V)
    requires
        key_sorted(s),
    ensures
        key_sorted(inserted(s, k, v)),
        found(inserted(s, k, v), k) == Some((k, v)),
{
    let r = k.rank();
    let p = lower_bound(s, r);
    lemma_lower_bound_split(s, r);
    let t = inserted(s, k, v);
    if key_at(s, p, k) {
        assert forall|i: int, j: int| 0 <= i < j < t.len() implies t[i].0.rank() < t[j].0.rank() by {
            if i == p {
                if j > p {
                    assert(s[p].0.rank() < s[j].0.rank());
                }
            } else if j == p {
                assert(s[i].0.rank() < s[p].0.rank());
            }
        }
    } else {
        assert forall|i: int, j: int| 0 <= i < j < t.len() implies t[i].0.rank() < t[j].0.rank() by {
            if i < p && j > p {
                assert(t[j] == s[j - 1]);
            }
            if i > p {
                assert(t[i] == s[i - 1]);
                assert(t[j] == s[j - 1]);
            }
            if i == p {
                assert(t[j] == s[j - 1]);
                if s[j - 1].0.rank() == r {
                    K::lemma_rank_injective(&s[j - 1].0, &k);
                    if j - 1 > p {
                        assert(s[p].0.rank() < s[j - 1].0.rank());
                        assert(s[p].0.rank() >= r);
                    }
                }
            }
        }
    }
    lemma_lower_bound_split(t, r);
    let q = lower_bound(t, r);
    if q < p {
        assert(t[q] == s[q]);
    }
    if q > p {
        assert(t[p].0.rank() == r);
    }
    assert(q == p);
}

/// Taking the pair with key `k` out of a sorted sequence keeps it sorted,
/// and no pair with key `k` is then found.
pub proof fn lemma_removed<K: SkipKey, V>(s: Seq<(K, V)>, k: K)
    requires
        key_sorted(s),
    ensures
        key_sorted(removed(s, k)),
        found(removed(s, k), k) is None,
{
    let r = k.rank();
    let p = lower_bound(s, r);
    lemma_lower_bound_split(s, r);
    let t = removed(s, k);
    if key_at(s, p, k) {
        assert forall|i: int, j: int| 0 <= i < j < t.len() implies t[i].0.rank() < t[j].0.rank() by {
            let ii = if i < p { i } else { i + 1 };
            let jj = if j < p { j } else { j + 1 };
            assert(t[i] == s[ii]);
            assert(t[j] == s[jj]);
        }
        lemma_lower_bound_split(t, r);
        let q = lower_bound(t, r);
        if q < p {
            assert(t[q] == s[q]);
        }
        if q > p {
            assert(t[p] == s[p + 1]);
            assert(s[p].0.rank() < s[p + 1].0.rank());
        }
        if q < t.len() {
            assert(t[q] == s[q + 1]);
            assert(s[p].0.rank() < s[q + 1].0.rank());
        }
    }
}

/// Replacement: after `k` gets `v1`, putting `v2` under `k` hands back the
/// pair with `v1`, and `v2` is then the value found under `k`.
pub proof fn law_replacement<K: SkipKey, V>(s: Seq<(K, V)>, k: K, v1: V, v2: V)
    requires
        key_sorted(s),
    ensures
        found(inserted(s, k, v1), k) == Some((k, v1)),
        found(inserted(inserted(s, k, v1), k, v2), k) == Some((k, v2)),
{
    lemma_inserted(s, k, v1);
    lemma_inserted(inserted(s, k, v1), k, v2);
}

/// Removing a key twice: the second removal finds nothing.
pub proof fn law_remove_twice<K: SkipKey, V>(s: Seq<(K, V)>, k: K)
    requires
        key_sorted(s),
    ensures
        found(removed(s, k), k) is None,
        removed(removed(s, k), k) == removed(s, k),
{
    lemma_removed(s, k);
}

/// Round trip: a value put under `k` is found under `k`, and after `k` is
/// removed nothing is.
pub proof fn law_round_trip<K: SkipKey, V>(s: Seq<(K, V)>, k: K, v: V)
    requires
        key_sorted(s),
    ensures
        found(inserted(s, k, v), k) == Some((k, v)),
        found(removed(inserted(s, k, v), k), k) is None,
{
    lemma_inserted(s, k, v);
    lemma_removed(inserted(s, k, v), k);
}

/// The number of entries of a sorted sequence is the number of its
/// distinct keys.
pub proof fn law_len_counts_keys<K: SkipKey, V>(s: Seq<(K, V)>)
    requires
        key_sorted(s),
    ensures
        s.map_values(|e: (K, V)| e.0).to_set().len() == s.len(),
{
    let ks = s.map_values(|e: (K, V)| e.0);
    assert(ks.no_duplicates()) by {
        assert forall|i: int, j: int| 0 <= i < ks.len() && 0 <= j < ks.len() && i != j implies ks[i] != ks[j] by {
            if i < j {
                assert(s[i].0.rank() < s[j].0.rank());
            } else {
                assert(s[j].0.rank() < s[i].0.rank());
            }
        }
    }
    ks.unique_seq_to_set();
}

/// The keys held by a sequence of pairs.
pub open spec fn keys_of<K, V>(s: Seq<(K, V)>) -> Set<K> {
    s.map_values(|e: (K, V)| e.0).to_set()
}

proof fn lemma_keys_of_member<K, V>(s: Seq<(K, V)>, x: K)
    ensures
        keys_of(s).contains(x) <==> exists|i: int| 0 <= i < s.len() && (#[trigger] s[i]).0 == x,
{
    let ks = s.map_values(|e: (K, V)| e.0);
    if keys_of(s).contains(x) {
        let i = choose|i: int| 0 <= i < ks.len() && ks[i] == x;
        assert(s[i].0 == x);
    }
    if exists|i: int| 0 <= i < s.len() && (#[trigger] s[i]).0 == x {
        let i = choose|i: int| 0 <= i < s.len() && (#[trigger] s[i]).0 == x;
        assert(ks[i] == x);
    }
}

/// Putting a pair under `k` adds `k` to the keys and changes no other.
pub proof fn lemma_inserted_keys<K: SkipKey, V>(s: Seq<(K, V)>, k: K, v: V)
    requires
        key_sorted(s),
    ensures
        keys_of(inserted(s, k, v)) == keys_of(s).insert(k),
{
    let r = k.rank();
    let p = lower_bound(s, r);
    lemma_lower_bound_split(s, r);
    let t = inserted(s, k, v);
    assert forall|x: K| keys_of(t).contains(x) <==> keys_of(s).insert(k).contains(x) by {
        lemma_keys_of_member(t, x);
        lemma_keys_of_member(s, x);
        if key_at(s, p, k) {
            if exists|i: int| 0 <= i < s.len() && (#[trigger] s[i]).0 == x {
                let i = choose|i: int| 0 <= i < s.len() && (#[trigger] s[i]).0 == x;
                if i == p {
                    assert(t[p].0 == x);
                } else {
                    assert(t[i] == s[i]);
                }
            }
            if exists|i: int| 0 <= i < t.len() && (#[trigger] t[i]).0 == x {
                let i = choose|i: int| 0 <= i < t.len() && (#[trigger] t[i]).0 == x;
                if i != p {
                    assert(s[i] == t[i]);
                }
            }
            assert(t[p].0 == k);
        } else {
            if exists|i: int| 0 <= i < s.len() && (#[trigger] s[i]).0 == x {
                let i = choose|i: int| 0 <= i < s.len() && (#[trigger] s[i]).0 == x;
                if i < p {
                    assert(t[i] == s[i]);
                } else {
                    assert(t[i + 1] == s[i]);
                }
            }
            if exists|i: int| 0 <= i < t.len() && (#[trigger] t[i]).0 == x {
                let i = choose|i: int| 0 <= i < t.len() && (#[trigger] t[i]).0 == x;
                if i < p {
                    assert(s[i] == t[i]);
                } else if i > p {
                    assert(s[i - 1] == t[i]);
                }
            }
            assert(t[p].0 == k);
        }
    }
    assert(keys_of(t) =~= keys_of(s).insert(k));
}

/// Ordering: after any sequence of insertions into an empty list, the keys
/// are strictly ascending (so each appears once) and are exactly the keys
/// inserted.
pub proof fn law_inserted_all<K: SkipKey, V>(ps: Seq<(K, V)>)
    ensures
        key_sorted(inserted_all(ps)),
        keys_of(inserted_all(ps)) == keys_of(ps),
    decreases ps.len(),
{
    if ps.len() == 0 {
        assert(keys_of(ps) =~= Set::<K>::empty()) by {
            assert forall|x: K| !keys_of(ps).contains(x) by {
                lemma_keys_of_member(ps, x);
            }
        }
        assert(keys_of(inserted_all(ps)) =~= Set::<K>::empty()) by {
            assert forall|x: K| !keys_of(inserted_all(ps)).contains(x) by {
                lemma_keys_of_member(inserted_all(ps), x);
            }
        }
    } else {
        let front = ps.drop_last();
        let last = ps.last();
        law_inserted_all(front);
        lemma_inserted(inserted_all(front), last.0, last.1);
        lemma_inserted_keys(inserted_all(front), last.0, last.1);
        assert forall|x: K| keys_of(ps).contains(x) <==> keys_of(front).insert(last.0).contains(x) by {
            lemma_keys_of_member(ps, x);
            lemma_keys_of_member(front, x);
            if exists|i: int| 0 <= i < ps.len() && (#[trigger] ps[i]).0 == x {
                let i = choose|i: int| 0 <= i < ps.len() && (#[trigger] ps[i]).0 == x;
                if i < ps.len() - 1 {
                    assert(front[i] == ps[i]);
                }
            }
            if exists|i: int| 0 <= i < front.len() && (#[trigger] front[i]).0 == x {
                let i = choose|i: int| 0 <= i < front.len() && (#[trigger] front[i]).0 == x;
                assert(ps[i] == front[i]);
            }
        }
        assert(keys_of(ps) =~= keys_of(front).insert(last.0));
    }
}

/// Counting: an insertion adds one entry unless its key was present, and a
/// removal takes one away exactly when its key was present; so the number
/// of entries plus the number of removals that found their key is the
/// number of distinct keys inserted.
pub proof fn law_counts<K: SkipKey, V>(s: Seq<(K, V)>, k: K, v: V)
    requires
        key_sorted(s),
    ensures
        inserted(s, k, v).len() == s.len() + if found(s, k) is Some {
            0int
        } else {
            1int
        },
        removed(s, k).len() + if found(s, k) is Some {
            1int
        } else {
            0int
        } == s.len(),
{
    lemma_lower_bound_split(s, k.rank());
}

} // verus!
