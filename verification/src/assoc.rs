//! Association lists keyed by a view.
//!
//! The backends keep small registries (key to timeline, tag to snapshot)
//! as vectors of pairs whose keys are pairwise distinct.  This module
//! gives such a list a `Map` model keyed by the key's view, the lemmas
//! that relate list edits to map edits, and the executable searches.

use vstd::prelude::*;

verus! {

/// The binding of `k` in the list, scanning from the most recently
/// added pair backwards.
pub open spec fn assoc_find<K: View, T>(s: Seq<(K, T)>, k: <K as View>::V) -> Option<T>
    decreases s.len(),
{
    if s.len() == 0 {
        None
    } else if s.last().0@ == k {
        Some(s.last().1)
    } else {
        assoc_find(s.drop_last(), k)
    }
}

/// The keys of the list are pairwise distinct (by view).
pub open spec fn distinct_keys<K: View, T>(s: Seq<(K, T)>) -> bool {
    forall|i: int, j: int| 0 <= i < j < s.len() ==> s[i].0@ != s[j].0@
}

/// The list, read as a map from key view to bound value.
pub open spec fn assoc_map<K: View, T>(s: Seq<(K, T)>) -> Map<<K as View>::V, T> {
    Map::new(
        |k: <K as View>::V| assoc_find(s, k) is Some,
        |k: <K as View>::V| assoc_find(s, k).unwrap(),
    )
}

/// A pair whose key is nowhere else in a distinct list is found where it
/// stands.
pub proof fn lemma_assoc_find_at<K: View, T>(s: Seq<(K, T)>, i: int)
    requires
        distinct_keys(s),
        0 <= i < s.len(),
    ensures
        assoc_find(s, s[i].0@) == Some(s[i].1),
    decreases s.len(),
{
    if i == s.len() - 1 {
    } else {
        assert(s.last().0@ != s[i].0@);
        lemma_assoc_find_at(s.drop_last(), i);
    }
}

/// A key that matches no pair of the list is not found.
pub proof fn lemma_assoc_find_absent<K: View, T>(s: Seq<(K, T)>, k: <K as View>::V)
    requires
        forall|i: int| 0 <= i < s.len() ==> s[i].0@ != k,
    ensures
        assoc_find(s, k) is None,
    decreases s.len(),
{
    if s.len() > 0 {
        lemma_assoc_find_absent(s.drop_last(), k);
    }
}

/// Replacing one pair by another with the same key view leaves every
/// other binding alone.
pub proof fn lemma_assoc_find_update_other<K: View, T>(
    s: Seq<(K, T)>,
    i: int,
    p: (K, T),
    k: <K as View>::V,
)
    requires
        0 <= i < s.len(),
        p.0@ == s[i].0@,
        k != p.0@,
    ensures
        assoc_find(s.update(i, p), k) == assoc_find(s, k),
    decreases s.len(),
{
    let t = s.update(i, p);
    if i == s.len() - 1 {
        assert(t.drop_last() =~= s.drop_last());
    } else {
        assert(t.last() == s.last());
        assert(t.drop_last() =~= s.drop_last().update(i, p));
        if s.last().0@ != k {
            lemma_assoc_find_update_other(s.drop_last(), i, p, k);
        }
    }
}

/// Replacing the pair at `i` by a pair with the same key view rebinds
/// exactly that key in the map model.
pub proof fn lemma_assoc_update<K: View, T>(s: Seq<(K, T)>, i: int, p: (K, T))
    requires
        distinct_keys(s),
        0 <= i < s.len(),
        p.0@ == s[i].0@,
    ensures
        distinct_keys(s.update(i, p)),
        assoc_map(s.update(i, p)) == assoc_map(s).insert(p.0@, p.1),
{
    let t = s.update(i, p);
    assert(distinct_keys(t));
    assert forall|k: <K as View>::V| true implies #[trigger] assoc_find(t, k) == (if k == p.0@ {
        Some(p.1)
    } else {
        assoc_find(s, k)
    }) by {
        if k == p.0@ {
            lemma_assoc_find_at(t, i);
        } else {
            lemma_assoc_find_update_other(s, i, p, k);
        }
    }
    assert(assoc_map(t) =~= assoc_map(s).insert(p.0@, p.1));
}

/// Appending a pair with a fresh key extends the map model by exactly
/// that binding.
pub proof fn lemma_assoc_push<K: View, T>(s: Seq<(K, T)>, p: (K, T))
    requires
        distinct_keys(s),
        forall|i: int| 0 <= i < s.len() ==> s[i].0@ != p.0@,
    ensures
        distinct_keys(s.push(p)),
        assoc_map(s.push(p)) == assoc_map(s).insert(p.0@, p.1),
{
    let t = s.push(p);
    assert forall|i: int, j: int| 0 <= i < j < t.len() implies t[i].0@ != t[j].0@ by {
        if j < s.len() {
            assert(s[i].0@ != s[j].0@);
        }
    }
    assert(t.drop_last() =~= s);
    assert(assoc_map(t) =~= assoc_map(s).insert(p.0@, p.1));
}

/// Removing the pair at `i` removes exactly its key from the map model.
pub proof fn lemma_assoc_remove<K: View, T>(s: Seq<(K, T)>, i: int)
    requires
        distinct_keys(s),
        0 <= i < s.len(),
    ensures
        distinct_keys(s.remove(i)),
        assoc_map(s.remove(i)) == assoc_map(s).remove(s[i].0@),
{
    let t = s.remove(i);
    s.remove_ensures(i);
    assert(distinct_keys(t));
    assert forall|k: <K as View>::V| true implies #[trigger] assoc_find(t, k) == (if k == s[i].0@ {
        None::<T>
    } else {
        assoc_find(s, k)
    }) by {
        if k == s[i].0@ {
            lemma_assoc_find_absent(t, k);
        } else {
            lemma_assoc_find_remove_other(s, i, k);
        }
    }
    assert(assoc_map(t) =~= assoc_map(s).remove(s[i].0@));
}

/// Removing one pair leaves every other binding alone.
pub proof fn lemma_assoc_find_remove_other<K: View, T>(s: Seq<(K, T)>, i: int, k: <K as View>::V)
    requires
        0 <= i < s.len(),
        k != s[i].0@,
    ensures
        assoc_find(s.remove(i), k) == assoc_find(s, k),
    decreases s.len(),
{
    let t = s.remove(i);
    s.remove_ensures(i);
    if i == s.len() - 1 {
        assert(t =~= s.drop_last());
    } else {
        assert(t.last() == s.last());
        assert(t.drop_last() =~= s.drop_last().remove(i));
        if s.last().0@ != k {
            lemma_assoc_find_remove_other(s.drop_last(), i, k);
        }
    }
}

/// A found binding comes from some pair of the list.
pub proof fn lemma_assoc_find_some<K: View, T>(s: Seq<(K, T)>, k: <K as View>::V)
    requires
        assoc_find(s, k) is Some,
    ensures
        exists|i: int|
            0 <= i < s.len() && (#[trigger] s[i]).0@ == k && s[i].1 == assoc_find(s, k).unwrap(),
    decreases s.len(),
{
    if s.last().0@ == k {
        assert(s[s.len() - 1].0@ == k);
    } else {
        lemma_assoc_find_some(s.drop_last(), k);
        let i = choose|i: int|
            0 <= i < s.drop_last().len() && (#[trigger] s.drop_last()[i]).0@ == k
                && s.drop_last()[i].1 == assoc_find(s.drop_last(), k).unwrap();
        assert(s[i] == s.drop_last()[i]);
    }
}

/// Two lists with pointwise equal key views are found at the same
/// position.
pub proof fn lemma_assoc_find_same_pos<K1: View, K2: View<V = <K1 as View>::V>, T1, T2>(
    e1: Seq<(K1, T1)>,
    e2: Seq<(K2, T2)>,
    k: <K1 as View>::V,
)
    requires
        e1.len() == e2.len(),
        forall|i: int| 0 <= i < e1.len() ==> (#[trigger] e1[i]).0@ == e2[i].0@,
    ensures
        assoc_find(e1, k) is Some <==> assoc_find(e2, k) is Some,
        assoc_find(e1, k) is Some ==> exists|i: int|
            0 <= i < e1.len() && (#[trigger] e1[i]).0@ == k && assoc_find(e1, k) == Some(e1[i].1)
                && assoc_find(e2, k) == Some(e2[i].1),
    decreases e1.len(),
{
    if e1.len() > 0 {
        if e1.last().0@ == k {
            assert(e1[e1.len() - 1].0@ == k);
            assert(e2.last().0@ == k);
        } else {
            assert(e2.last().0@ != k);
            assert(forall|i: int|
                0 <= i < e1.drop_last().len() ==> (#[trigger] e1.drop_last()[i]).0@
                    == e2.drop_last()[i].0@);
            lemma_assoc_find_same_pos(e1.drop_last(), e2.drop_last(), k);
            if assoc_find(e1, k) is Some {
                let i = choose|i: int|
                    0 <= i < e1.drop_last().len() && (#[trigger] e1.drop_last()[i]).0@ == k
                        && assoc_find(e1.drop_last(), k) == Some(e1.drop_last()[i].1)
                        && assoc_find(e2.drop_last(), k) == Some(e2.drop_last()[i].1);
                assert(e1[i] == e1.drop_last()[i]);
                assert(e2[i] == e2.drop_last()[i]);
            }
        }
    }
}

/// Byte-slice equality, decided element by element.
pub fn bytes_eq(a: &[u8], b: &[u8]) -> (r: bool)
    ensures
        r == (a@ == b@),
{
    if a.len() != b.len() {
        return false;
    }
    let n = a.len();
    let mut i: usize = 0;
    while i < n
        invariant
            n == a@.len() == b@.len(),
            i <= n,
            forall|j: int| 0 <= j < i ==> a@[j] == b@[j],
        decreases n - i,
    {
        if a[i] != b[i] {
            return false;
        }
        i += 1;
    }
    proof {
        assert(a@ =~= b@);
    }
    true
}

/// Find the position of the pair bound to the byte key `k`.
pub fn find_key<T>(s: &Vec<(Vec<u8>, T)>, k: &[u8]) -> (r: Option<usize>)
    ensures
        match r {
            Some(i) => i < s@.len() && s@[i as int].0@ == k@,
            None => forall|i: int| 0 <= i < s@.len() ==> s@[i].0@ != k@,
        },
{
    let n = s.len();
    let mut i: usize = 0;
    while i < n
        invariant
            n == s@.len(),
            i <= n,
            forall|j: int| 0 <= j < i ==> s@[j].0@ != k@,
        decreases n - i,
    {
        if bytes_eq(s[i].0.as_slice(), k) {
            return Some(i);
        }
        i += 1;
    }
    None
}

/// Find the position of the pair bound to the tag `t`.
pub fn find_tag<T>(s: &Vec<(String, T)>, t: &String) -> (r: Option<usize>)
    ensures
        match r {
            Some(i) => i < s@.len() && s@[i as int].0@ == t@,
            None => forall|i: int| 0 <= i < s@.len() ==> s@[i].0@ != t@,
        },
{
    let n = s.len();
    let mut i: usize = 0;
    while i < n
        invariant
            n == s@.len(),
            i <= n,
            forall|j: int| 0 <= j < i ==> s@[j].0@ != t@,
        decreases n - i,
    {
        if s[i].0 == *t {
            return Some(i);
        }
        i += 1;
    }
    None
}

/// Copy a byte vector.
pub fn copy_bytes(a: &Vec<u8>) -> (r: Vec<u8>)
    ensures
        r@ == a@,
{
    let n = a.len();
    let mut out: Vec<u8> = Vec::new();
    let mut i: usize = 0;
    while i < n
        invariant
            n == a@.len(),
            i <= n,
            out@ =~= a@.subrange(0, i as int),
        decreases n - i,
    {
        out.push(a[i]);
        i += 1;
    }
    proof {
        assert(out@ =~= a@);
    }
    out
}

} // verus!
