//! Association logs: every index of the store is kept as a sequence of
//! key/value rows, where a later row with the same key overrides an earlier
//! one. `find_last` is the abstract lookup that the executable scans are
//! proved against.

use vstd::prelude::*;

verus! {

/// The value of the last row whose key is `k`, if any.
pub open spec fn find_last<K, V>(s: Seq<(K, V)>, k: K) -> Option<V>
    decreases s.len(),
{
    if s.len() == 0 {
        None
    } else if s.last().0 == k {
        Some(s.last().1)
    } else {
        find_last(s.drop_last(), k)
    }
}

/// Appending a row binds its own key and leaves every other key alone.
pub broadcast proof fn lemma_find_last_push<K, V>(s: Seq<(K, V)>, e: (K, V), k: K)
    ensures
        #[trigger] find_last(s.push(e), k) == if e.0 == k {
            Some(e.1)
        } else {
            find_last(s, k)
        },
{
    assert(s.push(e).drop_last() =~= s);
}

/// A lookup result is witnessed by some row; a miss means no row has the key.
pub broadcast proof fn lemma_find_last_index<K, V>(s: Seq<(K, V)>, k: K)
    ensures
        match #[trigger] find_last(s, k) {
            Some(v) => exists|i: int| 0 <= i < s.len() && s[i].0 == k && s[i].1 == v,
            None => forall|i: int| 0 <= i < s.len() ==> (#[trigger] s[i]).0 != k,
        },
    decreases s.len(),
{
    if s.len() > 0 {
        lemma_find_last_index(s.drop_last(), k);
        if s.last().0 == k {
            assert(s[s.len() - 1].0 == k && s[s.len() - 1].1 == s.last().1);
        } else {
            match find_last(s.drop_last(), k) {
                Some(v) => {
                    let i = choose|i: int|
                        0 <= i < s.drop_last().len() && s.drop_last()[i].0 == k
                            && s.drop_last()[i].1 == v;
                    assert(s[i].0 == k && s[i].1 == v);
                },
                None => {
                    assert forall|i: int| 0 <= i < s.len() implies (#[trigger] s[i]).0 != k by {
                        if i < s.len() - 1 {
                            assert(s.drop_last()[i] == s[i]);
                        }
                    }
                },
            }
        }
    }
}

/// Replacing the value of a row whose key has no later occurrence rebinds
/// that key and leaves every other key alone.
pub proof fn lemma_find_last_update<K, V>(s: Seq<(K, V)>, j: int, e: (K, V), k: K)
    requires
        0 <= j < s.len(),
        s[j].0 == e.0,
        forall|i: int| j < i < s.len() ==> (#[trigger] s[i]).0 != e.0,
    ensures
        find_last(s.update(j, e), k) == if e.0 == k {
            Some(e.1)
        } else {
            find_last(s, k)
        },
    decreases s.len(),
{
    let su = s.update(j, e);
    if j == s.len() - 1 {
        assert(su.drop_last() =~= s.drop_last());
        if e.0 == k {
        } else {
            if s.last().0 == k {
                assert(s[j].0 == e.0);
            }
        }
    } else {
        assert(su.last() == s.last());
        assert(su.drop_last() =~= s.drop_last().update(j, e));
        lemma_find_last_update(s.drop_last(), j, e, k);
    }
}

/// While scanning backwards: stepping past a non-matching row keeps the
/// lookup over the remaining prefix unchanged.
pub proof fn lemma_find_last_take<K, V>(s: Seq<(K, V)>, i: int, k: K)
    requires
        0 <= i < s.len(),
    ensures
        find_last(s.take(i + 1), k) == if s[i].0 == k {
            Some(s[i].1)
        } else {
            find_last(s.take(i), k)
        },
{
    assert(s.take(i + 1) =~= s.take(i).push(s[i]));
    lemma_find_last_push(s.take(i), s[i], k);
}

} // verus!
