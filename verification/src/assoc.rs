//! Association-list reasoning: lookup into a sequence of key/value pairs and
//! the lemmas that relate it to pushing, updating and removing entries.
//!
//! The quest registry, the quest screen's node mapping and the health arena
//! all store their entries in a `Vec` of pairs with pairwise-distinct keys;
//! their contracts are stated over [`alookup`].

use vstd::prelude::*;

verus! {

/// The value of the last entry with key `k`, or `None` if no entry has it.
/// With pairwise-distinct keys this is the value of the one entry with key `k`.
pub open spec fn alookup<K, V>(s: Seq<(K, V)>, k: K) -> Option<V>
    decreases s.len(),
{
    if s.len() == 0 {
        None
    } else if s.last().0 == k {
        Some(s.last().1)
    } else {
        alookup(s.drop_last(), k)
    }
}

/// No two entries share a key.
pub open spec fn keys_unique<K, V>(s: Seq<(K, V)>) -> bool {
    forall|i: int, j: int| 0 <= i < j < s.len() ==> s[i].0 != s[j].0
}

/// Appending an entry makes its key map to its value and leaves every other
/// key's lookup unchanged.
pub proof fn lemma_alookup_push<K, V>(s: Seq<(K, V)>, p: (K, V), k: K)
    ensures
        alookup(s.push(p), k) == if p.0 == k {
            Some(p.1)
        } else {
            alookup(s, k)
        },
{
    assert(s.push(p).drop_last() =~= s);
    assert(s.push(p).last() == p);
}

/// A key that no entry carries looks up to `None`.
pub proof fn lemma_alookup_absent<K, V>(s: Seq<(K, V)>, k: K)
    requires
        forall|i: int| 0 <= i < s.len() ==> s[i].0 != k,
    ensures
        alookup(s, k) is None,
    decreases s.len(),
{
    if s.len() > 0 {
        assert(forall|i: int| 0 <= i < s.drop_last().len() ==> s.drop_last()[i] == s[i]);
        lemma_alookup_absent(s.drop_last(), k);
    }
}

/// With pairwise-distinct keys, the entry at index `i` is what its key looks
/// up to.
pub proof fn lemma_alookup_index<K, V>(s: Seq<(K, V)>, i: int)
    requires
        keys_unique(s),
        0 <= i < s.len(),
    ensures
        alookup(s, s[i].0) == Some(s[i].1),
    decreases s.len(),
{
    if i == s.len() - 1 {
    } else {
        assert(s.last().0 != s[i].0);
        assert(forall|j: int| 0 <= j < s.drop_last().len() ==> s.drop_last()[j] == s[j]);
        lemma_alookup_index(s.drop_last(), i);
    }
}

/// A successful lookup names the entry it came from.
pub proof fn lemma_alookup_some_exists<K, V>(s: Seq<(K, V)>, k: K)
    requires
        alookup(s, k) is Some,
    ensures
        exists|i: int|
            0 <= i < s.len() && #[trigger] s[i].0 == k && s[i].1 == alookup(s, k)->Some_0,
    decreases s.len(),
{
    if s.last().0 == k {
        assert(s[s.len() - 1].0 == k);
    } else {
        lemma_alookup_some_exists(s.drop_last(), k);
        let i = choose|i: int|
            0 <= i < s.drop_last().len() && #[trigger] s.drop_last()[i].0 == k && s.drop_last()[i].1
                == alookup(s.drop_last(), k)->Some_0;
        assert(s[i].0 == k);
    }
}

/// Removing the entry at index `i` erases its key and leaves every other
/// key's lookup unchanged.
pub proof fn lemma_alookup_remove<K, V>(s: Seq<(K, V)>, i: int, k: K)
    requires
        keys_unique(s),
        0 <= i < s.len(),
    ensures
        alookup(s.remove(i), k) == if s[i].0 == k {
            None::<V>
        } else {
            alookup(s, k)
        },
    decreases s.len(),
{
    if i == s.len() - 1 {
        assert(s.remove(i) =~= s.drop_last());
        if s[i].0 == k {
            assert(forall|j: int|
                0 <= j < s.drop_last().len() ==> #[trigger] s.drop_last()[j].0 != k);
            lemma_alookup_absent(s.drop_last(), k);
        }
    } else {
        assert(s.remove(i).last() == s.last());
        assert(s.remove(i).drop_last() =~= s.drop_last().remove(i));
        assert(forall|j: int| 0 <= j < s.drop_last().len() ==> s.drop_last()[j] == s[j]);
        if s.last().0 == k {
            assert(s[i].0 != k);
        } else {
            lemma_alookup_remove(s.drop_last(), i, k);
        }
    }
}

/// Removing an entry keeps the remaining keys pairwise distinct.
pub proof fn lemma_keys_unique_remove<K, V>(s: Seq<(K, V)>, i: int)
    requires
        keys_unique(s),
        0 <= i < s.len(),
    ensures
        keys_unique(s.remove(i)),
{
    assert forall|p: int, q: int|
        0 <= p < q < s.remove(i).len() implies s.remove(i)[p].0 != s.remove(i)[q].0 by {
        let p0 = if p < i { p } else { p + 1 };
        let q0 = if q < i { q } else { q + 1 };
        assert(s.remove(i)[p] == s[p0]);
        assert(s.remove(i)[q] == s[q0]);
    }
}

/// Overwriting the value at index `i` (keeping its key) changes that key's
/// lookup to the new value and no other.
pub proof fn lemma_alookup_update<K, V>(s: Seq<(K, V)>, i: int, v: V, k: K)
    requires
        keys_unique(s),
        0 <= i < s.len(),
    ensures
        alookup(s.update(i, (s[i].0, v)), k) == if s[i].0 == k {
            Some(v)
        } else {
            alookup(s, k)
        },
    decreases s.len(),
{
    let t = s.update(i, (s[i].0, v));
    if i == s.len() - 1 {
        assert(t.last() == (s[i].0, v));
        assert(t.drop_last() =~= s.drop_last());
        if s[i].0 != k {
            assert(alookup(t, k) == alookup(s.drop_last(), k));
        }
    } else {
        assert(t.last() == s.last());
        assert(t.drop_last() =~= s.drop_last().update(i, (s[i].0, v)));
        assert(forall|j: int| 0 <= j < s.drop_last().len() ==> s.drop_last()[j] == s[j]);
        if s.last().0 == k {
            assert(s[i].0 != k);
        } else {
            lemma_alookup_update(s.drop_last(), i, v, k);
        }
    }
}

/// No element occurs twice.
pub open spec fn distinct_seq<T>(s: Seq<T>) -> bool {
    forall|i: int, j: int| 0 <= i < j < s.len() ==> s[i] != s[j]
}

/// Removing an element of a duplicate-free sequence removes exactly that
/// element from the sequence's contents.
pub proof fn lemma_distinct_remove<T>(s: Seq<T>, i: int)
    requires
        distinct_seq(s),
        0 <= i < s.len(),
    ensures
        distinct_seq(s.remove(i)),
        forall|x: T|
            #![trigger s.remove(i).contains(x)]
            #![trigger s.contains(x)]
            s.remove(i).contains(x) <==> (s.contains(x) && x != s[i]),
{
    assert forall|p: int, q: int|
        0 <= p < q < s.remove(i).len() implies s.remove(i)[p] != s.remove(i)[q] by {
        let p0 = if p < i {
            p
        } else {
            p + 1
        };
        let q0 = if q < i {
            q
        } else {
            q + 1
        };
        assert(s.remove(i)[p] == s[p0]);
        assert(s.remove(i)[q] == s[q0]);
    }
    assert forall|x: T| s.remove(i).contains(x) implies (s.contains(x) && x != s[i]) by {
        let j = choose|j: int| 0 <= j < s.remove(i).len() && s.remove(i)[j] == x;
        let j0 = if j < i {
            j
        } else {
            j + 1
        };
        assert(s[j0] == x);
    }
    assert forall|x: T| s.contains(x) && x != s[i] implies s.remove(i).contains(x) by {
        let j = choose|j: int| 0 <= j < s.len() && s[j] == x;
        if j < i {
            assert(s.remove(i)[j] == x);
        } else {
            assert(s.remove(i)[j - 1] == x);
        }
    }
}

/// Appending an element extends the sequence's contents by exactly it.
pub proof fn lemma_push_contains<T>(s: Seq<T>, e: T)
    ensures
        forall|x: T|
            #![trigger s.push(e).contains(x)]
            #![trigger s.contains(x)]
            s.push(e).contains(x) <==> (s.contains(x) || x == e),
{
    assert forall|x: T| s.push(e).contains(x) implies (s.contains(x) || x == e) by {
        let j = choose|j: int| 0 <= j < s.push(e).len() && s.push(e)[j] == x;
        if j < s.len() {
            assert(s[j] == x);
        }
    }
    assert forall|x: T| s.contains(x) || x == e implies s.push(e).contains(x) by {
        if x == e {
            assert(s.push(e)[s.len() as int] == x);
        } else {
            let j = choose|j: int| 0 <= j < s.len() && s[j] == x;
            assert(s.push(e)[j] == x);
        }
    }
}

/// Updating an entry without changing its key keeps the keys pairwise
/// distinct.
pub proof fn lemma_keys_unique_update<K, V>(s: Seq<(K, V)>, i: int, v: V)
    requires
        keys_unique(s),
        0 <= i < s.len(),
    ensures
        keys_unique(s.update(i, (s[i].0, v))),
{
    let t = s.update(i, (s[i].0, v));
    assert(forall|j: int| 0 <= j < s.len() ==> t[j].0 == s[j].0);
}

} // verus!
