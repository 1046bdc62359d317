//! Association-list reasoning: a table is a vector of key/value pairs with
//! pairwise-distinct keys, and its mathematical reading is a finite `Map`.

use vstd::prelude::*;

verus! {

/// No key occurs twice in the table.
pub open spec fn distinct_keys<K, V>(s: Seq<(K, V)>) -> bool {
    forall|i: int, j: int| 0 <= i < j < s.len() ==> (#[trigger] s[i]).0 != (#[trigger] s[j]).0
}

/// Some entry carries the key.
pub open spec fn kv_contains<K, V>(s: Seq<(K, V)>, k: K) -> bool {
    exists|i: int| 0 <= i < s.len() && (#[trigger] s[i]).0 == k
}

/// The index of the entry carrying the key (meaningful when present).
pub open spec fn kv_index<K, V>(s: Seq<(K, V)>, k: K) -> int {
    choose|i: int| 0 <= i < s.len() && (#[trigger] s[i]).0 == k
}

/// The value stored under the key (meaningful when present).
pub open spec fn kv_get<K, V>(s: Seq<(K, V)>, k: K) -> V {
    s[kv_index(s, k)].1
}

/// The table read as a finite map.
pub open spec fn kv_map<K, V>(s: Seq<(K, V)>) -> Map<K, V> {
    Map::new(|k: K| kv_contains(s, k), |k: K| kv_get(s, k))
}

/// In a table with distinct keys, the entry at a given index is the one
/// the map reads for that key.
pub proof fn lemma_kv_get_at<K, V>(s: Seq<(K, V)>, i: int)
    requires
        distinct_keys(s),
        0 <= i < s.len(),
    ensures
        kv_contains(s, s[i].0),
        kv_map(s).dom().contains(s[i].0),
        kv_map(s)[s[i].0] == s[i].1,
        kv_index(s, s[i].0) == i,
{
    assert(kv_contains(s, s[i].0));
    let j = kv_index(s, s[i].0);
    assert(0 <= j < s.len() && s[j].0 == s[i].0);
    if i != j {
        assert(s[i].0 != s[j].0);
    }
}

/// Appending an entry under a fresh key inserts it into the map reading.
pub proof fn lemma_kv_push_fresh<K, V>(s: Seq<(K, V)>, k: K, v: V)
    requires
        distinct_keys(s),
        !kv_contains(s, k),
    ensures
        distinct_keys(s.push((k, v))),
        kv_map(s.push((k, v))) == kv_map(s).insert(k, v),
{
    let t = s.push((k, v));
    assert forall|i: int, j: int| 0 <= i < j < t.len() implies (#[trigger] t[i]).0 != (
    #[trigger] t[j]).0 by {
        if j < s.len() {
            assert(t[i] == s[i] && t[j] == s[j]);
        } else {
            assert(t[j] == (k, v));
            assert(t[i] == s[i]);
            assert(kv_contains(s, s[i].0));
        }
    }
    assert forall|k2: K| #[trigger] kv_map(t).dom().contains(k2) <==> kv_map(s).insert(
        k,
        v,
    ).dom().contains(k2) by {
        if kv_contains(t, k2) {
            let i = choose|i: int| 0 <= i < t.len() && (#[trigger] t[i]).0 == k2;
            if i < s.len() {
                assert(s[i].0 == k2);
                assert(kv_contains(s, k2));
            } else {
                assert(k2 == k);
            }
        }
        if kv_contains(s, k2) {
            let i = choose|i: int| 0 <= i < s.len() && (#[trigger] s[i]).0 == k2;
            assert(t[i].0 == k2);
            assert(kv_contains(t, k2));
        }
        if k2 == k {
            assert(t[s.len() as int].0 == k);
            assert(kv_contains(t, k));
        }
    }
    assert forall|k2: K| kv_map(t).dom().contains(k2) implies #[trigger] kv_map(t)[k2]
        == kv_map(s).insert(k, v)[k2] by {
        let i = kv_index(t, k2);
        assert(0 <= i < t.len() && t[i].0 == k2);
        if k2 == k {
            assert(t[s.len() as int].0 == k);
            if i < s.len() {
                assert(kv_contains(s, k));
            }
            assert(i == s.len());
            assert(kv_map(t)[k2] == v);
        } else {
            assert(i < s.len());
            assert(s[i].0 == k2);
            lemma_kv_get_at(s, i);
            assert(kv_index(t, k2) == i);
            assert(kv_map(t)[k2] == s[i].1);
        }
    }
    assert(kv_map(t) =~= kv_map(s).insert(k, v));
}

/// Swap-removing an index (replace by the last entry, then drop the last)
/// removes exactly that entry's key from the map reading.
pub proof fn lemma_kv_swap_remove<K, V>(s: Seq<(K, V)>, i: int)
    requires
        distinct_keys(s),
        0 <= i < s.len(),
    ensures
        distinct_keys(s.update(i, s.last()).drop_last()),
        kv_map(s.update(i, s.last()).drop_last()) == kv_map(s).remove(s[i].0),
{
    let k = s[i].0;
    let t = s.update(i, s.last()).drop_last();
    let n = s.len() - 1;
    assert(t.len() == n);
    assert forall|j: int| 0 <= j < n implies #[trigger] t[j] == (if j == i {
        s[n]
    } else {
        s[j]
    }) by {}
    assert forall|p: int, q: int| 0 <= p < q < t.len() implies (#[trigger] t[p]).0 != (
    #[trigger] t[q]).0 by {
        let sp = if p == i {
            n
        } else {
            p
        };
        let sq = if q == i {
            n
        } else {
            q
        };
        assert(t[p] == s[sp] && t[q] == s[sq]);
        assert(sp != sq);
    }
    assert forall|k2: K| #[trigger] kv_contains(t, k2) <==> (kv_contains(s, k2) && k2 != k) by {
        if kv_contains(t, k2) {
            let j = choose|j: int| 0 <= j < t.len() && (#[trigger] t[j]).0 == k2;
            let sj = if j == i {
                n
            } else {
                j
            };
            assert(s[sj].0 == k2);
            assert(kv_contains(s, k2));
            if k2 == k {
                assert(s[sj].0 == s[i].0);
                assert(sj != i || j == i);
                if sj == i {
                    assert(j == i && i == n);
                    assert(j < n);
                }
                assert(false);
            }
        }
        if kv_contains(s, k2) && k2 != k {
            let j = choose|j: int| 0 <= j < s.len() && (#[trigger] s[j]).0 == k2;
            assert(j != i);
            if j < n {
                assert(t[j].0 == k2);
            } else {
                if i < n {
                    assert(t[i] == s[n]);
                    assert(t[i].0 == k2);
                } else {
                    assert(i == n && j == n);
                    assert(false);
                }
            }
        }
    }
    assert forall|k2: K| kv_contains(t, k2) implies #[trigger] kv_map(t)[k2] == kv_map(s).remove(
        k,
    )[k2] by {
        let j = kv_index(t, k2);
        assert(0 <= j < t.len() && t[j].0 == k2);
        let sj = if j == i {
            n
        } else {
            j
        };
        assert(t[j] == s[sj]);
        lemma_kv_get_at(s, sj);
        assert(kv_map(s)[k2] == s[sj].1);
        assert(kv_map(t)[k2] == t[j].1);
    }
    assert(kv_map(t) =~= kv_map(s).remove(k));
}

/// The map reading of a table with distinct keys has exactly one entry per
/// row: its domain is finite with the table's length.
pub proof fn lemma_kv_dom_len<K, V>(s: Seq<(K, V)>)
    requires
        distinct_keys(s),
    ensures
        kv_map(s).dom().finite(),
        kv_map(s).dom().len() == s.len(),
    decreases s.len(),
{
    if s.len() == 0 {
        assert(kv_map(s).dom() =~= Set::<K>::empty());
    } else {
        let r = s.drop_last();
        lemma_kv_dom_len(r);
        assert(s == r.push(s.last()));
        assert(!kv_contains(r, s.last().0)) by {
            if kv_contains(r, s.last().0) {
                let i = choose|i: int| 0 <= i < r.len() && (#[trigger] r[i]).0 == s.last().0;
                assert(s[i].0 == s[s.len() - 1].0);
                assert(false);
            }
        }
        lemma_kv_push_fresh(r, s.last().0, s.last().1);
        assert(kv_map(s).dom() =~= kv_map(r).dom().insert(s.last().0));
    }
}

/// Even without distinct keys, a table's map reading has at most one key
/// per row.
pub proof fn lemma_kv_dom_len_le<K, V>(s: Seq<(K, V)>)
    ensures
        kv_map(s).dom().finite(),
        kv_map(s).dom().len() <= s.len(),
    decreases s.len(),
{
    if s.len() == 0 {
        assert(kv_map(s).dom() =~= Set::<K>::empty());
    } else {
        let r = s.drop_last();
        lemma_kv_dom_len_le(r);
        assert(kv_map(s).dom().subset_of(kv_map(r).dom().insert(s.last().0))) by {
            assert forall|k: K| kv_map(s).dom().contains(k) implies kv_map(r).dom().insert(
                s.last().0,
            ).contains(k) by {
                let i = choose|i: int| 0 <= i < s.len() && (#[trigger] s[i]).0 == k;
                if i < r.len() {
                    assert(r[i].0 == k);
                    assert(kv_contains(r, k));
                } else {
                    assert(k == s.last().0);
                }
            }
        }
        vstd::set_lib::lemma_len_subset(kv_map(s).dom(), kv_map(r).dom().insert(s.last().0));
    }
}

/// A table whose map reading has one key per row has pairwise-distinct
/// keys.
pub proof fn lemma_full_dom_distinct<K, V>(s: Seq<(K, V)>)
    requires
        kv_map(s).dom().len() == s.len(),
    ensures
        distinct_keys(s),
    decreases s.len(),
{
    if s.len() > 0 {
        let r = s.drop_last();
        lemma_kv_dom_len_le(r);
        assert(kv_map(s).dom() =~= kv_map(r).dom().insert(s.last().0)) by {
            assert forall|k: K| kv_map(s).dom().contains(k) implies kv_map(r).dom().insert(
                s.last().0,
            ).contains(k) by {
                let i = choose|i: int| 0 <= i < s.len() && (#[trigger] s[i]).0 == k;
                if i < r.len() {
                    assert(r[i].0 == k);
                    assert(kv_contains(r, k));
                } else {
                    assert(k == s.last().0);
                }
            }
            assert forall|k: K| kv_map(r).dom().insert(s.last().0).contains(k) implies kv_map(
                s,
            ).dom().contains(k) by {
                if k == s.last().0 {
                    assert(s[s.len() - 1].0 == k);
                    assert(kv_contains(s, k));
                } else {
                    let i = choose|i: int| 0 <= i < r.len() && (#[trigger] r[i]).0 == k;
                    assert(s[i].0 == k);
                    assert(kv_contains(s, k));
                }
            }
        }
        if kv_contains(r, s.last().0) {
            assert(kv_map(r).dom().contains(s.last().0));
            assert(kv_map(s).dom() =~= kv_map(r).dom());
            assert(s.len() <= r.len());
            assert(false);
        }
        assert(kv_map(r).dom().len() == r.len());
        lemma_full_dom_distinct(r);
        assert forall|i: int, j: int| 0 <= i < j < s.len() implies (#[trigger] s[i]).0 != (
        #[trigger] s[j]).0 by {
            if j < r.len() {
                assert(r[i].0 != r[j].0);
            } else {
                assert(s[j] == s.last());
                assert(s[i] == r[i]);
                assert(kv_contains(r, r[i].0));
            }
        }
    }
}

/// The elements of `s` at positions `n` and above that the predicate keeps,
/// in the order a back-to-front pop loop visits them: the element at `n`
/// comes last.
pub open spec fn sieve<T>(s: Seq<T>, keep: spec_fn(T) -> bool, n: int) -> Seq<T>
    decreases s.len() - n,
{
    if n < 0 || n >= s.len() {
        Seq::empty()
    } else {
        let rest = sieve(s, keep, n + 1);
        if keep(s[n]) {
            rest.push(s[n])
        } else {
            rest
        }
    }
}

/// Some element of `s` at position `n` or above, kept by the predicate,
/// equals `x`.
pub open spec fn sieve_source<T>(s: Seq<T>, keep: spec_fn(T) -> bool, n: int, x: T) -> bool {
    exists|i: int| #![trigger s[i]] n <= i < s.len() && s[i] == x && keep(s[i])
}

/// Each sieved element is an original element at or above the cut that the
/// predicate keeps; conversely, every such element appears in the sieve.
pub proof fn lemma_sieve_members<T>(s: Seq<T>, keep: spec_fn(T) -> bool, n: int)
    requires
        0 <= n <= s.len(),
    ensures
        forall|j: int|
            #![trigger sieve(s, keep, n)[j]]
            0 <= j < sieve(s, keep, n).len() ==> sieve_source(s, keep, n, sieve(s, keep, n)[j]),
        forall|i: int|
            n <= i < s.len() && keep(#[trigger] s[i]) ==> sieve(s, keep, n).contains(s[i]),
    decreases s.len() - n,
{
    if n < s.len() {
        lemma_sieve_members(s, keep, n + 1);
        let rest = sieve(s, keep, n + 1);
        assert forall|j: int|
            #![trigger sieve(s, keep, n)[j]]
            0 <= j < sieve(s, keep, n).len() implies sieve_source(
            s,
            keep,
            n,
            sieve(s, keep, n)[j],
        ) by {
            if keep(s[n]) && j == sieve(s, keep, n).len() - 1 {
                assert(sieve(s, keep, n)[j] == s[n]);
                assert(n <= n < s.len() && s[n] == sieve(s, keep, n)[j] && keep(s[n]));
            } else {
                assert(sieve(s, keep, n)[j] == rest[j]);
                assert(sieve_source(s, keep, n + 1, rest[j]));
                let i = choose|i: int|
                    #![trigger s[i]]
                    n + 1 <= i < s.len() && s[i] == rest[j] && keep(s[i]);
                assert(n <= i < s.len() && s[i] == sieve(s, keep, n)[j] && keep(s[i]));
            }
        }
        assert forall|i: int| n <= i < s.len() && keep(#[trigger] s[i]) implies sieve(
            s,
            keep,
            n,
        ).contains(s[i]) by {
            if i == n {
                assert(sieve(s, keep, n)[sieve(s, keep, n).len() - 1] == s[n]);
            } else {
                assert(rest.contains(s[i]));
                let j = choose|j: int| 0 <= j < rest.len() && rest[j] == s[i];
                assert(sieve(s, keep, n)[j] == s[i]);
            }
        }
    }
}

/// A sieve of a sequence with pairwise-distinct keys has pairwise-distinct
/// keys.
pub proof fn lemma_sieve_distinct<T, K>(
    s: Seq<T>,
    keep: spec_fn(T) -> bool,
    key: spec_fn(T) -> K,
    n: int,
)
    requires
        0 <= n <= s.len(),
        forall|i: int, j: int| 0 <= i < j < s.len() ==> key(#[trigger] s[i]) != key(#[trigger] s[j]),
    ensures
        forall|p: int, q: int|
            0 <= p < q < sieve(s, keep, n).len() ==> key(#[trigger] sieve(s, keep, n)[p]) != key(
                #[trigger] sieve(s, keep, n)[q],
            ),
    decreases s.len() - n,
{
    if n < s.len() {
        lemma_sieve_distinct(s, keep, key, n + 1);
        lemma_sieve_members(s, keep, n + 1);
        let f = sieve(s, keep, n);
        let rest = sieve(s, keep, n + 1);
        assert forall|p: int, q: int| 0 <= p < q < f.len() implies key(#[trigger] f[p]) != key(
            #[trigger] f[q],
        ) by {
            if keep(s[n]) && q == f.len() - 1 {
                assert(f[q] == s[n]);
                assert(f[p] == rest[p]);
                let i = choose|i: int| n + 1 <= i < s.len() && s[i] == rest[p] && keep(s[i]);
                assert(key(s[n]) != key(s[i]));
            } else {
                assert(f[p] == rest[p] && f[q] == rest[q]);
            }
        }
    }
}

/// A distinct-key table whose keys all occur in another distinct-key table
/// is no longer than it.
pub proof fn lemma_table_members_bound<K, V1, V2>(ks: Seq<(K, V1)>, s: Seq<(K, V2)>)
    requires
        distinct_keys(ks),
        distinct_keys(s),
        forall|i: int| 0 <= i < ks.len() ==> kv_contains(s, (#[trigger] ks[i]).0),
    ensures
        ks.len() <= s.len(),
{
    lemma_kv_dom_len(ks);
    lemma_kv_dom_len(s);
    assert(kv_map(ks).dom().subset_of(kv_map(s).dom())) by {
        assert forall|k: K| kv_map(ks).dom().contains(k) implies kv_map(s).dom().contains(k) by {
            let i = choose|i: int| 0 <= i < ks.len() && (#[trigger] ks[i]).0 == k;
            assert(kv_contains(s, ks[i].0));
        }
    }
    vstd::set_lib::lemma_len_subset(kv_map(ks).dom(), kv_map(s).dom());
}

} // verus!
