//! Mathematical model of the store: a sequence of key-value entries ordered
//! from most-recently-used (front) to least-recently-used (back), and the
//! operations the cache performs on it.

use vstd::prelude::*;

verus! {

/// The value stored under `k`: the first entry with key `k`, scanning from
/// the most-recently-used end.
pub open spec fn lookup<A, B>(s: Seq<(A, B)>, k: A) -> Option<B>
    decreases s.len(),
{
    if s.len() == 0 {
        None
    } else if s[0].0 == k {
        Some(s[0].1)
    } else {
        lookup(s.drop_first(), k)
    }
}

/// Whether some entry holds key `k`.
pub open spec fn contains_key<A, B>(s: Seq<(A, B)>, k: A) -> bool {
    lookup(s, k) is Some
}

/// `s` without its first entry whose key is `k`; `s` itself when `k` is absent.
pub open spec fn remove_key<A, B>(s: Seq<(A, B)>, k: A) -> Seq<(A, B)>
    decreases s.len(),
{
    if s.len() == 0 {
        s
    } else if s[0].0 == k {
        s.drop_first()
    } else {
        seq![s[0]] + remove_key(s.drop_first(), k)
    }
}

/// No key occurs in two entries.
pub open spec fn keys_unique<A, B>(s: Seq<(A, B)>) -> bool {
    forall|i: int, j: int| 0 <= i < j < s.len() ==> s[i].0 != s[j].0
}

/// Move the entry holding `k` to the most-recently-used position; a miss
/// changes nothing.
pub open spec fn promote<A, B>(s: Seq<(A, B)>, k: A) -> Seq<(A, B)> {
    match lookup(s, k) {
        Some(v) => seq![(k, v)] + remove_key(s, k),
        None => s,
    }
}

/// Insert `(k, v)`: the entry takes the most-recently-used position, any old
/// entry for `k` disappears, and if the bound `cap` would be exceeded the
/// least-recently-used entry is evicted.
pub open spec fn insert_entry<A, B>(s: Seq<(A, B)>, cap: nat, k: A, v: B) -> Seq<(A, B)> {
    let placed = seq![(k, v)] + remove_key(s, k);
    if placed.len() > cap {
        placed.drop_last()
    } else {
        placed
    }
}

/// The model a vector of owned key-value pairs stands for.
pub open spec fn entries_view(items: Seq<(String, String)>) -> Seq<(Seq<char>, Seq<char>)> {
    Seq::new(items.len(), |i: int| (items[i].0@, items[i].1@))
}

/// `lookup` and `remove_key` act at the first index holding `k`.
pub proof fn lemma_lookup_at_index<A, B>(s: Seq<(A, B)>, k: A, i: int)
    requires
        0 <= i < s.len(),
        s[i].0 == k,
        forall|j: int| 0 <= j < i ==> s[j].0 != k,
    ensures
        lookup(s, k) == Some(s[i].1),
        remove_key(s, k) == s.remove(i),
    decreases i,
{
    if i == 0 {
        assert(s.drop_first() =~= s.remove(0));
    } else {
        lemma_lookup_at_index(s.drop_first(), k, i - 1);
        assert(seq![s[0]] + s.drop_first().remove(i - 1) =~= s.remove(i));
    }
}

/// On a sequence without `k`, `lookup` misses and `remove_key` is the identity.
pub proof fn lemma_lookup_absent<A, B>(s: Seq<(A, B)>, k: A)
    requires
        forall|j: int| 0 <= j < s.len() ==> s[j].0 != k,
    ensures
        lookup(s, k) is None,
        remove_key(s, k) == s,
    decreases s.len(),
{
    if s.len() > 0 {
        lemma_lookup_absent(s.drop_first(), k);
        assert(seq![s[0]] + s.drop_first() =~= s);
    }
}

/// A hit happens exactly at some first index.
pub proof fn lemma_contains_first_index<A, B>(s: Seq<(A, B)>, k: A) -> (i: int)
    requires
        contains_key(s, k),
    ensures
        0 <= i < s.len(),
        s[i].0 == k,
        forall|j: int| 0 <= j < i ==> s[j].0 != k,
        lookup(s, k) == Some(s[i].1),
        remove_key(s, k) == s.remove(i),
    decreases s.len(),
{
    if s[0].0 == k {
        lemma_lookup_at_index(s, k, 0);
        0
    } else {
        let i0 = lemma_contains_first_index(s.drop_first(), k);
        let i = i0 + 1;
        assert(s[i].0 == k) by {
            assert(s.drop_first()[i0] == s[i]);
        }
        assert forall|j: int| 0 <= j < i implies s[j].0 != k by {
            if j >= 1 {
                assert(s.drop_first()[j - 1] == s[j]);
            }
        }
        lemma_lookup_at_index(s, k, i);
        i
    }
}

/// A key that `lookup` misses occurs at no index, and removing it changes
/// nothing.
pub proof fn lemma_absent_keys<A, B>(s: Seq<(A, B)>, k: A)
    requires
        !contains_key(s, k),
    ensures
        forall|j: int| 0 <= j < s.len() ==> s[j].0 != k,
        remove_key(s, k) == s,
    decreases s.len(),
{
    if s.len() > 0 {
        lemma_absent_keys(s.drop_first(), k);
        assert forall|j: int| 0 <= j < s.len() implies s[j].0 != k by {
            if j >= 1 {
                assert(s.drop_first()[j - 1] == s[j]);
            }
        }
        assert(seq![s[0]] + s.drop_first() =~= s);
    }
}

/// Removing a present key drops exactly one entry.
pub proof fn lemma_remove_key_len<A, B>(s: Seq<(A, B)>, k: A)
    requires
        contains_key(s, k),
    ensures
        remove_key(s, k).len() == s.len() - 1,
{
    let i = lemma_contains_first_index(s, k);
}

/// Removing one key never touches what the others hold.
pub proof fn lemma_remove_key_other<A, B>(s: Seq<(A, B)>, k: A, k2: A)
    requires
        k2 != k,
    ensures
        lookup(remove_key(s, k), k2) == lookup(s, k2),
{
    if contains_key(s, k) {
        let i = lemma_contains_first_index(s, k);
        let r = s.remove(i);
        if contains_key(s, k2) {
            let i2 = lemma_contains_first_index(s, k2);
            if i2 < i {
                assert(r[i2] == s[i2]);
                assert forall|j: int| 0 <= j < i2 implies r[j].0 != k2 by {
                    assert(r[j] == s[j]);
                }
                lemma_lookup_at_index(r, k2, i2);
            } else {
                assert(r[i2 - 1] == s[i2]);
                assert forall|j: int| 0 <= j < i2 - 1 implies r[j].0 != k2 by {
                    if j < i {
                        assert(r[j] == s[j]);
                    } else {
                        assert(r[j] == s[j + 1]);
                    }
                }
                lemma_lookup_at_index(r, k2, i2 - 1);
            }
        } else {
            lemma_absent_keys(s, k2);
            assert forall|j: int| 0 <= j < r.len() implies r[j].0 != k2 by {
                if j < i {
                    assert(r[j] == s[j]);
                } else {
                    assert(r[j] == s[j + 1]);
                }
            }
            lemma_lookup_absent(r, k2);
        }
    } else {
        lemma_absent_keys(s, k);
    }
}

/// Removal keeps keys unique and leaves no entry for the removed key.
pub proof fn lemma_remove_key_unique<A, B>(s: Seq<(A, B)>, k: A)
    requires
        keys_unique(s),
    ensures
        keys_unique(remove_key(s, k)),
        !contains_key(remove_key(s, k), k),
{
    if contains_key(s, k) {
        let i = lemma_contains_first_index(s, k);
        let r = s.remove(i);
        assert forall|a: int, b: int| 0 <= a < b < r.len() implies r[a].0 != r[b].0 by {
            let sa = if a < i { a } else { a + 1 };
            let sb = if b < i { b } else { b + 1 };
            assert(r[a] == s[sa]);
            assert(r[b] == s[sb]);
        }
        assert forall|j: int| 0 <= j < r.len() implies r[j].0 != k by {
            if j < i {
                assert(r[j] == s[j]);
            } else {
                assert(r[j] == s[j + 1]);
                assert(s[i].0 != s[j + 1].0);
            }
        }
        lemma_lookup_absent(r, k);
    } else {
        lemma_absent_keys(s, k);
    }
}

/// Capacity invariant: an insert keeps keys unique, never leaves more than
/// `cap` live entries, and stores `v` at the most-recently-used position.
pub proof fn lemma_insert_entry_wf<A, B>(s: Seq<(A, B)>, cap: nat, k: A, v: B)
    requires
        keys_unique(s),
        s.len() <= cap,
        cap >= 1,
    ensures
        keys_unique(insert_entry(s, cap, k, v)),
        insert_entry(s, cap, k, v).len() <= cap,
        insert_entry(s, cap, k, v).len() == if contains_key(s, k) {
            s.len()
        } else if s.len() < cap {
            s.len() + 1
        } else {
            cap
        },
        lookup(insert_entry(s, cap, k, v), k) == Some(v),
        insert_entry(s, cap, k, v)[0] == (k, v),
{
    let r = remove_key(s, k);
    let placed = seq![(k, v)] + r;
    lemma_remove_key_unique(s, k);
    if contains_key(s, k) {
        lemma_remove_key_len(s, k);
    } else {
        lemma_absent_keys(s, k);
    }
    lemma_absent_keys(r, k);
    assert(placed[0] == (k, v));
    assert forall|a: int, b: int| 0 <= a < b < placed.len() implies placed[a].0 != placed[b].0 by {
        if a >= 1 {
            assert(placed[a] == r[a - 1]);
        }
        assert(placed[b] == r[b - 1]);
    }
    if placed.len() > cap {
        let t = placed.drop_last();
        assert(t[0] == (k, v));
        assert(lookup(t, k) == Some(v));
    } else {
        assert(lookup(placed, k) == Some(v));
    }
}

/// Promotion reorders: it never changes the entry count, what any key holds,
/// or key uniqueness.
pub proof fn lemma_promote_wf<A, B>(s: Seq<(A, B)>, k: A)
    requires
        keys_unique(s),
    ensures
        keys_unique(promote(s, k)),
        promote(s, k).len() == s.len(),
        lookup(promote(s, k), k) == lookup(s, k),
        forall|k2: A| k2 != k ==> lookup(promote(s, k), k2) == lookup(s, k2),
{
    if contains_key(s, k) {
        let v = lookup(s, k)->Some_0;
        lemma_remove_key_unique(s, k);
        lemma_remove_key_len(s, k);
        let r = remove_key(s, k);
        lemma_absent_keys(r, k);
        let p = seq![(k, v)] + r;
        assert(p[0] == (k, v));
        assert forall|a: int, b: int| 0 <= a < b < p.len() implies p[a].0 != p[b].0 by {
            if a >= 1 {
                assert(p[a] == r[a - 1]);
            }
            assert(p[b] == r[b - 1]);
        }
        assert(lookup(p, k) == Some(v));
        assert forall|k2: A| k2 != k implies lookup(p, k2) == lookup(s, k2) by {
            lemma_remove_key_other(s, k, k2);
            assert(p.drop_first() =~= r);
        }
    }
}

/// Updating a key already present rewrites only that entry's value and
/// recency: the entry count and every other key's value are unchanged.
pub proof fn lemma_update_in_place<A, B>(s: Seq<(A, B)>, cap: nat, k: A, v: B)
    requires
        keys_unique(s),
        s.len() <= cap,
        cap >= 1,
        contains_key(s, k),
    ensures
        insert_entry(s, cap, k, v).len() == s.len(),
        lookup(insert_entry(s, cap, k, v), k) == Some(v),
        forall|k2: A|
            k2 != k ==> lookup(insert_entry(s, cap, k, v), k2) == lookup(s, k2),
{
    lemma_insert_entry_wf(s, cap, k, v);
    lemma_remove_key_len(s, k);
    let r = remove_key(s, k);
    let placed = seq![(k, v)] + r;
    assert forall|k2: A| k2 != k implies lookup(placed, k2) == lookup(s, k2) by {
        lemma_remove_key_other(s, k, k2);
        assert(placed.drop_first() =~= r);
    }
}

/// The state after inserting each of `kvs`, in order, into an empty store of
/// capacity `cap`.
pub open spec fn insert_all<A, B>(cap: nat, kvs: Seq<(A, B)>) -> Seq<(A, B)>
    decreases kvs.len(),
{
    if kvs.len() == 0 {
        Seq::empty()
    } else {
        insert_entry(insert_all(cap, kvs.drop_last()), cap, kvs.last().0, kvs.last().1)
    }
}

/// Capacity invariant: over any sequence of inserts into an empty store,
/// repeated keys included, the live entries never exceed `cap` and their keys
/// stay unique.
pub proof fn lemma_insert_all_wf<A, B>(cap: nat, kvs: Seq<(A, B)>)
    requires
        cap >= 1,
    ensures
        keys_unique(insert_all(cap, kvs)),
        insert_all(cap, kvs).len() <= cap,
    decreases kvs.len(),
{
    if kvs.len() > 0 {
        lemma_insert_all_wf(cap, kvs.drop_last());
        lemma_insert_entry_wf(insert_all(cap, kvs.drop_last()), cap, kvs.last().0, kvs.last().1);
    }
}

/// LRU ordering: inserting distinct keys in order into an empty store, and
/// reading none of them, keeps exactly the last `cap` insertions, youngest
/// first; every older key is evicted.
pub proof fn lemma_lru_eviction_order<A, B>(cap: nat, kvs: Seq<(A, B)>)
    requires
        cap >= 1,
        keys_unique(kvs),
    ensures
        insert_all(cap, kvs) == Seq::new(
            if kvs.len() <= cap {
                kvs.len()
            } else {
                cap
            },
            |i: int| kvs[kvs.len() - 1 - i],
        ),
        forall|j: int|
            0 <= j < kvs.len() - cap ==> !contains_key(insert_all(cap, kvs), kvs[j].0),
        forall|j: int|
            0 <= j < kvs.len() && kvs.len() - cap <= j ==> lookup(insert_all(cap, kvs), kvs[j].0)
                == Some(kvs[j].1),
    decreases kvs.len(),
{
    let n = kvs.len() as int;
    let r = insert_all(cap, kvs);
    let target = Seq::new(
        if kvs.len() <= cap {
            kvs.len()
        } else {
            cap
        },
        |i: int| kvs[kvs.len() - 1 - i],
    );
    if kvs.len() == 0 {
        assert(r =~= target);
    } else {
        let prev = kvs.drop_last();
        assert forall|a: int, b: int| 0 <= a < b < prev.len() implies prev[a].0 != prev[b].0 by {
            assert(prev[a] == kvs[a]);
            assert(prev[b] == kvs[b]);
        }
        lemma_lru_eviction_order(cap, prev);
        let rp = insert_all(cap, prev);
        let x = kvs.last();
        assert(x == (x.0, x.1));
        assert forall|j: int| 0 <= j < rp.len() implies rp[j].0 != x.0 by {
            assert(rp[j] == prev[n - 2 - j]);
            assert(prev[n - 2 - j] == kvs[n - 2 - j]);
            assert(kvs[n - 2 - j].0 != kvs[n - 1].0);
        }
        lemma_lookup_absent(rp, x.0);
        let placed = seq![(x.0, x.1)] + rp;
        assert(r == if placed.len() > cap {
            placed.drop_last()
        } else {
            placed
        });
        assert forall|i: int| 0 <= i < target.len() implies placed[i] == target[i] by {
            if i >= 1 {
                assert(placed[i] == rp[i - 1]);
                assert(rp[i - 1] == prev[n - 2 - (i - 1)]);
                assert(prev[n - 1 - i] == kvs[n - 1 - i]);
            }
        }
        assert(r =~= target);
        assert forall|j: int| 0 <= j < n - cap implies !contains_key(r, kvs[j].0) by {
            assert forall|m: int| 0 <= m < r.len() implies r[m].0 != kvs[j].0 by {
                assert(r[m] == kvs[n - 1 - m]);
                assert(kvs[j].0 != kvs[n - 1 - m].0);
            }
            lemma_lookup_absent(r, kvs[j].0);
        }
        assert forall|j: int| 0 <= j < n && n - cap <= j implies lookup(r, kvs[j].0) == Some(
            kvs[j].1,
        ) by {
            let i = n - 1 - j;
            assert(r[i] == kvs[j]);
            assert forall|m: int| 0 <= m < i implies r[m].0 != kvs[j].0 by {
                assert(r[m] == kvs[n - 1 - m]);
                assert(kvs[j].0 != kvs[n - 1 - m].0);
            }
            lemma_lookup_at_index(r, kvs[j].0, i);
        }
    }
}

/// Promotion on access: with capacity two, after inserting `k1` then `k2`,
/// reading `k1`, and inserting a fresh `k3`, the store evicts `k2` and still
/// holds `k1` and `k3`.
pub proof fn lemma_promotion_protects<A, B>(k1: A, v1: B, k2: A, v2: B, k3: A, v3: B)
    requires
        k1 != k2,
        k1 != k3,
        k2 != k3,
    ensures
        ({
            let s1 = insert_entry(Seq::<(A, B)>::empty(), 2, k1, v1);
            let s2 = insert_entry(s1, 2, k2, v2);
            let s3 = promote(s2, k1);
            let s4 = insert_entry(s3, 2, k3, v3);
            &&& lookup(s4, k1) == Some(v1)
            &&& !contains_key(s4, k2)
            &&& lookup(s4, k3) == Some(v3)
        }),
{
    let e = Seq::<(A, B)>::empty();
    let s1 = insert_entry(e, 2, k1, v1);
    lemma_lookup_absent(e, k1);
    assert(s1 =~= seq![(k1, v1)]);
    let s2 = insert_entry(s1, 2, k2, v2);
    lemma_lookup_absent(s1, k2);
    assert(s2 =~= seq![(k2, v2), (k1, v1)]);
    let s3 = promote(s2, k1);
    lemma_lookup_at_index(s2, k1, 1);
    assert(s2.remove(1) =~= seq![(k2, v2)]);
    assert(s3 =~= seq![(k1, v1), (k2, v2)]);
    let s4 = insert_entry(s3, 2, k3, v3);
    lemma_lookup_absent(s3, k3);
    let placed = seq![(k3, v3)] + s3;
    assert(placed.len() == 3);
    assert(s4 =~= seq![(k3, v3), (k1, v1)]);
    lemma_lookup_at_index(s4, k1, 1);
    lemma_lookup_at_index(s4, k3, 0);
    lemma_lookup_absent(s4, k2);
}

} // verus!
