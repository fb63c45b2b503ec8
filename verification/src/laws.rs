//! Cross-operation laws of the versioned-map contract.
//!
//! Each law is stated over the spec-level views (`m()` and `snaps()`)
//! that the operations' own contracts use, so it applies to every
//! backend alike.  `insert_all` and `remove_all` mirror a sequence of
//! insert and remove calls at the model level: each operation's
//! `ensures` says that the view evolves by exactly one `insert` or
//! `remove`, so a loop of calls evolves it by exactly these folds.

use vstd::prelude::*;

verus! {

use crate::VersionedMap;
use crate::treelike::as_bytes::AsFromBytes;

/// The view after inserting every binding of `es`, in order.
pub open spec fn insert_all<V>(m: Map<Seq<u8>, V>, es: Seq<(Seq<u8>, V)>) -> Map<Seq<u8>, V>
    decreases es.len(),
{
    if es.len() == 0 {
        m
    } else {
        insert_all(m, es.drop_last()).insert(es.last().0, es.last().1)
    }
}

/// The view after removing every key of `ks`, in order.
pub open spec fn remove_all<V>(m: Map<Seq<u8>, V>, ks: Seq<Seq<u8>>) -> Map<Seq<u8>, V>
    decreases ks.len(),
{
    if ks.len() == 0 {
        m
    } else {
        remove_all(m, ks.drop_last()).remove(ks.last())
    }
}

/// Law: after inserting a set of distinct keys, every one of them reads
/// back exactly the value inserted with it, and a key never inserted
/// reads empty.
pub proof fn lemma_insert_all_get<V>(m0: Map<Seq<u8>, V>, es: Seq<(Seq<u8>, V)>, other: Seq<u8>)
    requires
        forall|i: int, j: int| 0 <= i < j < es.len() ==> es[i].0 != es[j].0,
        forall|i: int| 0 <= i < es.len() ==> (#[trigger] es[i]).0 != other,
        !m0.dom().contains(other),
    ensures
        forall|i: int|
            0 <= i < es.len() ==> insert_all(m0, es).dom().contains((#[trigger] es[i]).0)
                && insert_all(m0, es)[es[i].0] == es[i].1,
        !insert_all(m0, es).dom().contains(other),
    decreases es.len(),
{
    if es.len() > 0 {
        let pre = es.drop_last();
        lemma_insert_all_get(m0, pre, other);
        assert(forall|i: int| 0 <= i < pre.len() ==> pre[i] == es[i]);
        assert forall|i: int| 0 <= i < es.len() implies insert_all(m0, es).dom().contains(
            (#[trigger] es[i]).0,
        ) && insert_all(m0, es)[es[i].0] == es[i].1 by {
            if i < es.len() - 1 {
                assert(es[i].0 != es.last().0);
            }
        }
    }
}

/// Law: insert-then-remove hands back the inserted value, and a
/// subsequent read on that key is empty.
pub proof fn lemma_insert_remove<V>(m: Map<Seq<u8>, V>, kb: Seq<u8>, v: V)
    ensures
        m.insert(kb, v).dom().contains(kb),
        m.insert(kb, v)[kb] == v,
        !m.insert(kb, v).remove(kb).dom().contains(kb),
{
}

/// Law: the checkpoint/rollback round trip over two disjoint key sets.
/// With `m1` the view after inserting all of `a` into an empty store and
/// `m2` the view after then inserting all of `b` — exactly what the
/// insert contract forces a loop of calls to produce — all of `a` and
/// `b` are readable in `m2`; the empty capture reads all of them empty;
/// the middle capture reads `a` and none of `b`.  Rolling back replaces
/// the live view by the captured one, so each capture reads this way
/// whenever it is restored.
pub proof fn lemma_checkpoint_rollback_union<V>(a: Seq<(Seq<u8>, V)>, b: Seq<(Seq<u8>, V)>)
    requires
        forall|i: int, j: int| 0 <= i < j < a.len() ==> a[i].0 != a[j].0,
        forall|i: int, j: int| 0 <= i < j < b.len() ==> b[i].0 != b[j].0,
        forall|i: int, j: int|
            0 <= i < a.len() && 0 <= j < b.len() ==> (#[trigger] a[i]).0 != (#[trigger] b[j]).0,
    ensures
        ({
            let m1 = insert_all(Map::<Seq<u8>, V>::empty(), a);
            let m2 = insert_all(m1, b);
            &&& forall|i: int|
                0 <= i < a.len() ==> m2.dom().contains((#[trigger] a[i]).0) && m2[a[i].0]
                    == a[i].1
            &&& forall|j: int|
                0 <= j < b.len() ==> m2.dom().contains((#[trigger] b[j]).0) && m2[b[j].0]
                    == b[j].1
            &&& forall|i: int|
                0 <= i < a.len() ==> !Map::<Seq<u8>, V>::empty().dom().contains(
                    (#[trigger] a[i]).0,
                )
            &&& forall|j: int|
                0 <= j < b.len() ==> !Map::<Seq<u8>, V>::empty().dom().contains(
                    (#[trigger] b[j]).0,
                )
            &&& forall|i: int|
                0 <= i < a.len() ==> m1.dom().contains((#[trigger] a[i]).0) && m1[a[i].0]
                    == a[i].1
            &&& forall|j: int| 0 <= j < b.len() ==> !m1.dom().contains((#[trigger] b[j]).0)
        }),
{
    let m1 = insert_all(Map::<Seq<u8>, V>::empty(), a);
    let m2 = insert_all(m1, b);
    assert forall|i: int| 0 <= i < a.len() implies m1.dom().contains((#[trigger] a[i]).0)
        && m1[a[i].0] == a[i].1 by {
        lemma_insert_all_entry(Map::<Seq<u8>, V>::empty(), a, i);
    }
    assert forall|j: int| 0 <= j < b.len() implies !m1.dom().contains((#[trigger] b[j]).0) by {
        lemma_insert_all_fresh(Map::<Seq<u8>, V>::empty(), a, b[j].0);
    }
    assert forall|j: int| 0 <= j < b.len() implies m2.dom().contains((#[trigger] b[j]).0)
        && m2[b[j].0] == b[j].1 by {
        lemma_insert_all_entry(m1, b, j);
    }
    assert forall|i: int| 0 <= i < a.len() implies m2.dom().contains((#[trigger] a[i]).0)
        && m2[a[i].0] == a[i].1 by {
        lemma_insert_all_fresh(m1, b, a[i].0);
    }
}

/// A key not among the inserted ones keeps its old binding.
pub proof fn lemma_insert_all_fresh<V>(m0: Map<Seq<u8>, V>, es: Seq<(Seq<u8>, V)>, kb: Seq<u8>)
    requires
        forall|i: int| 0 <= i < es.len() ==> (#[trigger] es[i]).0 != kb,
    ensures
        insert_all(m0, es).dom().contains(kb) == m0.dom().contains(kb),
        m0.dom().contains(kb) ==> insert_all(m0, es)[kb] == m0[kb],
    decreases es.len(),
{
    if es.len() > 0 {
        assert(forall|i: int|
            0 <= i < es.drop_last().len() ==> (#[trigger] es.drop_last()[i]) == es[i]);
        lemma_insert_all_fresh(m0, es.drop_last(), kb);
    }
}

/// One of the inserted bindings is in the result (the last write to its
/// key wins; with distinct keys, that is the binding itself).
pub proof fn lemma_insert_all_entry<V>(m0: Map<Seq<u8>, V>, es: Seq<(Seq<u8>, V)>, i: int)
    requires
        forall|p: int, q: int| 0 <= p < q < es.len() ==> es[p].0 != es[q].0,
        0 <= i < es.len(),
    ensures
        insert_all(m0, es).dom().contains(es[i].0),
        insert_all(m0, es)[es[i].0] == es[i].1,
    decreases es.len(),
{
    if i == es.len() - 1 {
    } else {
        assert(forall|p: int|
            0 <= p < es.drop_last().len() ==> (#[trigger] es.drop_last()[p]) == es[p]);
        lemma_insert_all_entry(m0, es.drop_last(), i);
        assert(es[i].0 != es.last().0);
    }
}

/// Law: checkpoint/rollback under deletion.  With `mf` the view after
/// inserting the full set `f` into an empty store and `md` the view
/// after then removing the keys `d` — what the contracts force the two
/// call loops to produce — the capture taken before the removals reads
/// all of `f`, while `md` reads every key of `d` empty and every other
/// key of `f` unchanged.
pub proof fn lemma_checkpoint_rollback_difference<V>(f: Seq<(Seq<u8>, V)>, d: Seq<Seq<u8>>)
    requires
        forall|i: int, j: int| 0 <= i < j < f.len() ==> f[i].0 != f[j].0,
    ensures
        ({
            let mf = insert_all(Map::<Seq<u8>, V>::empty(), f);
            let md = remove_all(mf, d);
            &&& forall|i: int|
                0 <= i < f.len() ==> mf.dom().contains((#[trigger] f[i]).0) && mf[f[i].0]
                    == f[i].1
            &&& forall|j: int| 0 <= j < d.len() ==> !md.dom().contains(#[trigger] d[j])
            &&& forall|i: int|
                0 <= i < f.len() && !d.contains(f[i].0) ==> md.dom().contains(
                    (#[trigger] f[i]).0,
                ) && md[f[i].0] == f[i].1
        }),
{
    let mf = insert_all(Map::<Seq<u8>, V>::empty(), f);
    let md = remove_all(mf, d);
    assert forall|i: int| 0 <= i < f.len() implies mf.dom().contains((#[trigger] f[i]).0)
        && mf[f[i].0] == f[i].1 by {
        lemma_insert_all_entry(Map::<Seq<u8>, V>::empty(), f, i);
    }
    assert forall|j: int| 0 <= j < d.len() implies !md.dom().contains(#[trigger] d[j]) by {
        lemma_remove_all_gone(mf, d, j);
    }
    assert forall|i: int| 0 <= i < f.len() && !d.contains(f[i].0) implies md.dom().contains(
        (#[trigger] f[i]).0,
    ) && md[f[i].0] == f[i].1 by {
        lemma_remove_all_keeps(mf, d, f[i].0);
    }
}

/// A removed key stays gone through the remaining removals.
pub proof fn lemma_remove_all_gone<V>(m0: Map<Seq<u8>, V>, ks: Seq<Seq<u8>>, j: int)
    requires
        0 <= j < ks.len(),
    ensures
        !remove_all(m0, ks).dom().contains(ks[j]),
    decreases ks.len(),
{
    if j == ks.len() - 1 {
    } else {
        assert(forall|p: int|
            0 <= p < ks.drop_last().len() ==> (#[trigger] ks.drop_last()[p]) == ks[p]);
        lemma_remove_all_gone(m0, ks.drop_last(), j);
    }
}

/// A key that is not removed keeps its binding.
pub proof fn lemma_remove_all_keeps<V>(m0: Map<Seq<u8>, V>, ks: Seq<Seq<u8>>, kb: Seq<u8>)
    requires
        !ks.contains(kb),
    ensures
        remove_all(m0, ks).dom().contains(kb) == m0.dom().contains(kb),
        m0.dom().contains(kb) ==> remove_all(m0, ks)[kb] == m0[kb],
    decreases ks.len(),
{
    if ks.len() > 0 {
        assert(ks.last() != kb) by {
            assert(ks[ks.len() - 1] == ks.last());
        }
        assert(!ks.drop_last().contains(kb)) by {
            if ks.drop_last().contains(kb) {
                let p = choose|p: int| 0 <= p < ks.drop_last().len() && ks.drop_last()[p] == kb;
                assert(ks[p] == kb);
            }
        }
        lemma_remove_all_keeps(m0, ks.drop_last(), kb);
    }
}

/// Law: pruning invalidates every tag without touching the live state.
/// After a prune, whose contract empties `snaps()` and keeps `m()`, a
/// rollback for any tag must return `false` (its result equals tag
/// membership in `snaps()`), and every binding still reads as before.
pub proof fn lemma_prune_invalidates<K: AsFromBytes, V, T: VersionedMap<K, V>>(
    s0: T,
    s1: T,
    tag: Seq<char>,
)
    requires
        s1.snaps() == Map::<Seq<char>, Map<Seq<u8>, V>>::empty(),
        s1.m() == s0.m(),
    ensures
        !s1.snaps().dom().contains(tag),
        forall|kb: Seq<u8>|
            s0.m().dom().contains(kb) ==> s1.m().dom().contains(kb) && s1.m()[kb] == s0.m()[kb],
{
}

/// Law: rollback to one tag is repeatable with identical results.  Two
/// states that each satisfy the rollback contract against the same
/// registry and tag have the same bindings and the same registry.
pub proof fn lemma_rollback_repeatable<K: AsFromBytes, V, T: VersionedMap<K, V>>(
    s0: T,
    s1: T,
    s2: T,
    tag: Seq<char>,
)
    requires
        s0.snaps().dom().contains(tag),
        s1.m() == s0.snaps()[tag],
        s1.snaps() == s0.snaps(),
        s2.m() == s1.snaps()[tag],
        s2.snaps() == s1.snaps(),
    ensures
        s2.m() == s1.m(),
        s2.snaps() == s1.snaps(),
{
}

/// Law: `get` is side-effect-free and deterministic.  It takes `&self`,
/// so it cannot mutate the store; and any two results that satisfy its
/// contract against the same store and key are equal.
pub proof fn lemma_get_deterministic<K: AsFromBytes, V, T: VersionedMap<K, V>>(
    s: T,
    k: K,
    r1: Option<V>,
    r2: Option<V>,
)
    requires
        match r1 {
            Some(v) => s.m().dom().contains(k.sp_bytes()) && v == s.m()[k.sp_bytes()],
            None => !s.m().dom().contains(k.sp_bytes()),
        },
        match r2 {
            Some(v) => s.m().dom().contains(k.sp_bytes()) && v == s.m()[k.sp_bytes()],
            None => !s.m().dom().contains(k.sp_bytes()),
        },
    ensures
        r1 == r2,
{
}

} // verus!
