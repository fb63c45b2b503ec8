//! The version-chain backend.
//!
//! Instead of duplicating structure, this backend keeps for every key an
//! append-only timeline of version markers, ordered by a global version
//! counter owned by the store.  `Actual(n)` records a genuine write or
//! delete at version `n`; `Link { linked_to, this }` records, at version
//! `this`, that resolution should continue as if the version were
//! `linked_to`.  Rollback appends one `Link` per key and is therefore
//! proportional to the number of distinct keys ever seen, independent of
//! the write volume since the checkpoint; nothing is ever deleted or
//! copied.

use vstd::prelude::*;

verus! {

use core::marker::PhantomData;
use crate::VersionedMap;
use crate::assoc::{
    assoc_find, assoc_map, distinct_keys, find_key, find_tag, lemma_assoc_find_absent,
    lemma_assoc_find_at, lemma_assoc_find_same_pos, lemma_assoc_find_some,
    lemma_assoc_find_update_other, lemma_assoc_push,
    lemma_assoc_update,
};
use crate::dup::DupValue;
use crate::treelike::as_bytes::AsFromBytes;

/// A point in a key's timeline: a genuine write at a version, or an
/// indirection that resolves one version as another, earlier one.
#[derive(Clone, Copy)]
pub enum Version {
    Actual(u64),
    Link { linked_to: u64, this: u64 },
}

/// The version number a marker stands at.
pub open spec fn ver_num(v: Version) -> u64 {
    match v {
        Version::Actual(num) => num,
        Version::Link { this, .. } => this,
    }
}

impl Version {
    /// The version number this marker stands at.
    pub fn num(&self) -> (r: u64)
        ensures
            r == ver_num(*self),
    {
        match self {
            Self::Actual(num) => *num,
            Self::Link { this, .. } => *this,
        }
    }
}

/// A well-formed timeline: it starts with the absent sentinel at version
/// zero, version numbers strictly increase, and every indirection points
/// strictly backwards.
pub open spec fn tl_ok<V>(tl: Seq<(Version, Option<V>)>) -> bool {
    &&& tl.len() >= 1
    &&& tl[0].0 == Version::Actual(0u64)
    &&& tl[0].1 is None
    &&& forall|i: int| 0 <= i < tl.len() - 1 ==> ver_num(#[trigger] tl[i].0) < ver_num(tl[i + 1].0)
    &&& forall|i: int|
        0 <= i < tl.len() ==> ((#[trigger] tl[i].0) matches Version::Link { linked_to, this }
            ==> linked_to < this)
}

/// The index of the last timeline entry standing at or before `ver`, or
/// a negative number if there is none.
pub open spec fn last_le<V>(tl: Seq<(Version, Option<V>)>, ver: u64) -> int
    decreases tl.len(),
{
    if tl.len() == 0 {
        -1
    } else if ver_num(tl.last().0) <= ver {
        tl.len() - 1
    } else {
        last_le(tl.drop_last(), ver)
    }
}

/// The index of the `Actual` entry that resolution at `ver` lands on:
/// take the last entry at or before `ver`, and follow indirections
/// backwards until an `Actual` marker.
pub open spec fn resolve_idx<V>(tl: Seq<(Version, Option<V>)>, ver: u64) -> int
    decreases ver,
{
    let i = last_le(tl, ver);
    if i < 0 {
        -1
    } else {
        match tl[i].0 {
            Version::Actual(_) => i,
            Version::Link { linked_to, this } => if linked_to < ver {
                resolve_idx(tl, linked_to)
            } else {
                -1
            },
        }
    }
}

/// The entry effective at `ver`: the value of the `Actual` marker that
/// resolution lands on (which may be `None`, denoting deletion).
pub open spec fn resolve<V>(tl: Seq<(Version, Option<V>)>, ver: u64) -> Option<V> {
    let i = resolve_idx(tl, ver);
    if i < 0 {
        None
    } else {
        tl[i].1
    }
}

/// What `last_le` returns on a well-formed timeline: a valid index whose
/// entry stands at or before `ver`, every later entry standing after.
pub proof fn lemma_last_le<V>(tl: Seq<(Version, Option<V>)>, ver: u64)
    requires
        tl.len() >= 1,
        ver_num(tl[0].0) == 0,
        forall|i: int|
            0 <= i < tl.len() - 1 ==> ver_num(#[trigger] tl[i].0) < ver_num(tl[i + 1].0),
    ensures
        0 <= last_le(tl, ver) < tl.len(),
        ver_num(tl[last_le(tl, ver)].0) <= ver,
        forall|j: int| last_le(tl, ver) < j < tl.len() ==> ver_num(#[trigger] tl[j].0) > ver,
    decreases tl.len(),
{
    if ver_num(tl.last().0) <= ver {
    } else {
        assert(tl.len() >= 2);
        let pre = tl.drop_last();
        assert(pre[0] == tl[0]);
        assert(forall|i: int|
            0 <= i < pre.len() - 1 ==> ver_num(#[trigger] pre[i].0) < ver_num(pre[i + 1].0));
        lemma_last_le(pre, ver);
        assert(forall|j: int| 0 <= j < pre.len() ==> pre[j] == tl[j]);
    }
}

/// The index `last_le` finds is the unique one at or before `ver` whose
/// successors all stand after `ver`.
pub proof fn lemma_last_le_at<V>(tl: Seq<(Version, Option<V>)>, ver: u64, j: int)
    requires
        0 <= j < tl.len(),
        ver_num(tl[j].0) <= ver,
        forall|jj: int| j < jj < tl.len() ==> ver_num(#[trigger] tl[jj].0) > ver,
    ensures
        last_le(tl, ver) == j,
    decreases tl.len(),
{
    if j == tl.len() - 1 {
    } else {
        let pre = tl.drop_last();
        assert(forall|jj: int| 0 <= jj < pre.len() ==> pre[jj] == tl[jj]);
        lemma_last_le_at(pre, ver, j);
    }
}

/// Appending an entry standing after `ver` does not change resolution at
/// `ver`.
pub proof fn lemma_resolve_push<V>(tl: Seq<(Version, Option<V>)>, p: (Version, Option<V>), ver: u64)
    requires
        ver_num(p.0) > ver,
    ensures
        last_le(tl.push(p), ver) == last_le(tl, ver),
        resolve_idx(tl.push(p), ver) == resolve_idx(tl, ver),
        resolve(tl.push(p), ver) == resolve(tl, ver),
    decreases ver,
{
    let post = tl.push(p);
    assert(post.drop_last() =~= tl);
    assert(last_le(post, ver) == last_le(tl, ver));
    let i = last_le(tl, ver);
    if i >= 0 {
        lemma_last_le_entry(tl, ver);
        assert(post[i] == tl[i]);
        match tl[i].0 {
            Version::Actual(_) => {},
            Version::Link { linked_to, this } => {
                if linked_to < ver {
                    lemma_resolve_push(tl, p, linked_to);
                }
            },
        }
    }
}

/// Raising the version past every entry of the timeline does not change
/// resolution.
pub proof fn lemma_resolve_raise<V>(tl: Seq<(Version, Option<V>)>, v1: u64, v2: u64)
    requires
        tl.len() >= 1,
        v1 <= v2,
        ver_num(tl.last().0) <= v1,
        forall|i: int|
            0 <= i < tl.len() ==> ((#[trigger] tl[i].0) matches Version::Link { linked_to, this }
                ==> linked_to < this),
    ensures
        resolve_idx(tl, v2) == resolve_idx(tl, v1),
        resolve(tl, v2) == resolve(tl, v1),
{
    assert(last_le(tl, v1) == tl.len() - 1);
    assert(last_le(tl, v2) == tl.len() - 1);
    match tl[tl.len() - 1].0 {
        Version::Actual(_) => {},
        Version::Link { linked_to, this } => {
            assert(linked_to < this <= v1);
        },
    }
}

/// Following a freshly appended indirection resolves exactly as the
/// version it links back to did before.
pub proof fn lemma_resolve_link<V>(tl: Seq<(Version, Option<V>)>, f: u64, nv: u64, x: u64)
    requires
        tl.len() >= 1,
        f < nv <= x,
        forall|i: int| 0 <= i < tl.len() ==> ver_num(#[trigger] tl[i].0) < nv,
    ensures
        resolve(tl.push((Version::Link { linked_to: f, this: nv }, None)), x) == resolve(tl, f),
    decreases tl.len(),
{
    let p = (Version::Link { linked_to: f, this: nv }, None::<V>);
    let post = tl.push(p);
    assert(ver_num(post.last().0) == nv <= x);
    assert(last_le(post, x) == post.len() - 1);
    assert(post[post.len() - 1] == p);
    assert(resolve_idx(post, x) == resolve_idx(post, f));
    lemma_resolve_push(tl, p, f);
}

/// Replacing the value of an entry standing after `ver` (keeping its
/// marker) does not change resolution at `ver`.
pub proof fn lemma_resolve_update<V>(
    tl: Seq<(Version, Option<V>)>,
    i: int,
    val: Option<V>,
    ver: u64,
)
    requires
        0 <= i < tl.len(),
        ver < ver_num(tl[i].0),
        forall|a: int, b: int|
            0 <= a < b < tl.len() ==> ver_num(#[trigger] tl[a].0) < ver_num(#[trigger] tl[b].0),
    ensures
        last_le(tl.update(i, (tl[i].0, val)), ver) == last_le(tl, ver),
        resolve_idx(tl.update(i, (tl[i].0, val)), ver) == resolve_idx(tl, ver),
        resolve(tl.update(i, (tl[i].0, val)), ver) == resolve(tl, ver),
    decreases ver,
{
    let post = tl.update(i, (tl[i].0, val));
    assert(forall|j: int| 0 <= j < tl.len() ==> ver_num(#[trigger] post[j].0) == ver_num(tl[j].0));
    lemma_last_le_same_nums(tl, post, ver);
    let li = last_le(tl, ver);
    if li >= 0 {
        lemma_last_le_entry(tl, ver);
        assert(ver_num(tl[li].0) <= ver);
        assert(li != i);
        assert(post[li] == tl[li]);
        match tl[li].0 {
            Version::Actual(_) => {},
            Version::Link { linked_to, this } => {
                if linked_to < ver {
                    lemma_resolve_update(tl, i, val, linked_to);
                }
            },
        }
    }
}

/// Two timelines with pointwise equal version numbers cut at the same
/// place.
pub proof fn lemma_last_le_same_nums<V>(
    t1: Seq<(Version, Option<V>)>,
    t2: Seq<(Version, Option<V>)>,
    ver: u64,
)
    requires
        t1.len() == t2.len(),
        forall|j: int| 0 <= j < t1.len() ==> ver_num(#[trigger] t2[j].0) == ver_num(t1[j].0),
    ensures
        last_le(t2, ver) == last_le(t1, ver),
    decreases t1.len(),
{
    if t1.len() > 0 {
        let p1 = t1.drop_last();
        let p2 = t2.drop_last();
        assert(forall|j: int| 0 <= j < p1.len() ==> p1[j] == t1[j] && p2[j] == t2[j]);
        lemma_last_le_same_nums(p1, p2, ver);
    }
}

/// In a sorted timeline the version numbers increase across any
/// distance, not only between neighbours.
pub proof fn lemma_sorted_pair<V>(tl: Seq<(Version, Option<V>)>, a: int, b: int)
    requires
        forall|i: int|
            0 <= i < tl.len() - 1 ==> ver_num(#[trigger] tl[i].0) < ver_num(tl[i + 1].0),
        0 <= a < b < tl.len(),
    ensures
        ver_num(tl[a].0) < ver_num(tl[b].0),
    decreases b - a,
{
    if b > a + 1 {
        lemma_sorted_pair(tl, a, b - 1);
    }
}

/// Every timeline entry bounded by `cur` that stands exactly at `cur`
/// must be the last entry.
pub proof fn lemma_at_cur_is_last<V>(tl: Seq<(Version, Option<V>)>, i: int, cur: u64)
    requires
        forall|a: int|
            0 <= a < tl.len() - 1 ==> ver_num(#[trigger] tl[a].0) < ver_num(tl[a + 1].0),
        forall|a: int| 0 <= a < tl.len() ==> ver_num(#[trigger] tl[a].0) <= cur,
        0 <= i < tl.len(),
        ver_num(tl[i].0) == cur,
    ensures
        i == tl.len() - 1,
{
    if i < tl.len() - 1 {
        lemma_sorted_pair(tl, i, tl.len() - 1);
    }
}

/// Whatever entry `last_le` returns stands at or before `ver`.
pub proof fn lemma_last_le_entry<V>(tl: Seq<(Version, Option<V>)>, ver: u64)
    requires
        last_le(tl, ver) >= 0,
    ensures
        last_le(tl, ver) < tl.len(),
        ver_num(tl[last_le(tl, ver)].0) <= ver,
    decreases tl.len(),
{
    if tl.len() > 0 {
        if ver_num(tl.last().0) <= ver {
        } else {
            lemma_last_le_entry(tl.drop_last(), ver);
            assert(tl.drop_last()[last_le(tl, ver)] == tl[last_le(tl, ver)]);
        }
    }
}

/// The bindings effective at version `ver`: a key is bound when its
/// timeline resolves to a value there.
pub open spec fn m_at<V>(
    state: Seq<(Vec<u8>, Vec<(Version, Option<V>)>)>,
    ver: u64,
) -> Map<Seq<u8>, V> {
    Map::new(
        |kb: Seq<u8>|
            assoc_find(state, kb) is Some && resolve(assoc_find(state, kb).unwrap()@, ver)
                is Some,
        |kb: Seq<u8>| resolve(assoc_find(state, kb).unwrap()@, ver).unwrap(),
    )
}

/// Every version number of the timeline is at most `cur`, and every
/// indirection stands strictly before `cur`.
pub open spec fn tl_bounded<V>(tl: Seq<(Version, Option<V>)>, cur: u64) -> bool {
    &&& forall|i: int| 0 <= i < tl.len() ==> ver_num(#[trigger] tl[i].0) <= cur
    &&& forall|i: int|
        0 <= i < tl.len() ==> ((#[trigger] tl[i].0) matches Version::Link { .. } ==> ver_num(
            tl[i].0,
        ) < cur)
}

/// The registry, read as a map from tag to the bindings effective at
/// the version it recorded.
pub open spec fn snaps_view<V>(
    state: Seq<(Vec<u8>, Vec<(Version, Option<V>)>)>,
    snaps: Seq<(String, u64)>,
) -> Map<Seq<char>, Map<Seq<u8>, V>> {
    let reg = assoc_map(snaps);
    Map::new(|t: Seq<char>| reg.dom().contains(t), |t: Seq<char>| m_at(state, reg[t]))
}

/// Two states whose bindings agree at every version below the counter
/// present every recorded checkpoint identically.
proof fn lemma_snaps_same<V>(
    snaps: Seq<(String, u64)>,
    s1: Seq<(Vec<u8>, Vec<(Version, Option<V>)>)>,
    s2: Seq<(Vec<u8>, Vec<(Version, Option<V>)>)>,
    cur: u64,
)
    requires
        forall|p: int| 0 <= p < snaps.len() ==> (#[trigger] snaps[p]).1 < cur,
        forall|w: u64| w < cur ==> #[trigger] m_at(s2, w) == m_at(s1, w),
    ensures
        snaps_view(s2, snaps) == snaps_view(s1, snaps),
{
    assert forall|t: Seq<char>| #[trigger] assoc_map(snaps).dom().contains(t) implies m_at(
        s2,
        assoc_map(snaps)[t],
    ) == m_at(s1, assoc_map(snaps)[t]) by {
        lemma_assoc_find_some(snaps, t);
        let p = choose|p: int|
            0 <= p < snaps.len() && (#[trigger] snaps[p]).0@ == t && snaps[p].1 == assoc_find(
                snaps,
                t,
            ).unwrap();
        assert(snaps[p].1 < cur);
        assert(m_at(s2, snaps[p].1) == m_at(s1, snaps[p].1));
    }
    assert(snaps_view(s2, snaps) =~= snaps_view(s1, snaps));
}

/// A store of per-key timelines with a global version counter and a
/// tag-to-version registry.
pub struct VMapNoTrie<K, V> {
    current_ver: u64,
    state: Vec<(Vec<u8>, Vec<(Version, Option<V>)>)>,
    snapshots: Vec<(String, u64)>,
    _phantom_data: PhantomData<K>,
}

impl<K, V> VMapNoTrie<K, V> {
    /// Internal well-formedness: keys are distinct, every timeline is
    /// well formed and bounded by the counter, tags are distinct, and
    /// every recorded checkpoint version lies strictly before the
    /// counter.
    pub closed spec fn wf(&self) -> bool {
        &&& distinct_keys(self.state@)
        &&& forall|i: int| 0 <= i < self.state@.len() ==> tl_ok((#[trigger] self.state@[i]).1@)
        &&& forall|i: int|
            0 <= i < self.state@.len() ==> tl_bounded(
                (#[trigger] self.state@[i]).1@,
                self.current_ver,
            )
        &&& distinct_keys(self.snapshots@)
        &&& forall|p: int|
            0 <= p < self.snapshots@.len() ==> (#[trigger] self.snapshots@[p]).1
                < self.current_ver
        &&& self.current_ver >= 1
    }

    /// The current bindings.
    pub closed spec fn view_m(&self) -> Map<Seq<u8>, V> {
        m_at(self.state@, self.current_ver)
    }

    /// The registered checkpoints.
    pub closed spec fn view_snaps(&self) -> Map<Seq<char>, Map<Seq<u8>, V>> {
        snaps_view(self.state@, self.snapshots@)
    }

    /// A fresh store: no keys, no tags, counter at one.
    pub fn new() -> (s: Self)
        ensures
            s.wf(),
            s.view_m() == Map::<Seq<u8>, V>::empty(),
            s.view_snaps() == Map::<Seq<char>, Map<Seq<u8>, V>>::empty(),
            s.headroom_now() == u64::MAX - 1,
    {
        let s = VMapNoTrie {
            current_ver: 1,
            state: Vec::new(),
            snapshots: Vec::new(),
            _phantom_data: PhantomData,
        };
        proof {
            assert(s.view_m() =~= Map::<Seq<u8>, V>::empty());
            assert(s.view_snaps() =~= Map::<Seq<char>, Map<Seq<u8>, V>>::empty());
        }
        s
    }

    /// How many version numbers the counter can still hand out.
    pub closed spec fn headroom_now(&self) -> nat {
        (u64::MAX - self.current_ver) as nat
    }

    /// Find the last timeline entry standing at or before `ver`.
    fn find_le(tl: &Vec<(Version, Option<V>)>, ver: u64) -> (r: usize)
        requires
            tl@.len() >= 1,
            ver_num(tl@[0].0) == 0,
            forall|i: int|
                0 <= i < tl@.len() - 1 ==> ver_num(#[trigger] tl@[i].0) < ver_num(tl@[i + 1].0),
        ensures
            r < tl@.len(),
            r as int == last_le(tl@, ver),
            ver_num(tl@[r as int].0) <= ver,
    {
        proof {
            lemma_last_le(tl@, ver);
        }
        let mut j: usize = tl.len() - 1;
        while tl[j].0.num() > ver
            invariant
                0 <= j < tl@.len(),
                forall|i: int|
                    0 <= i < tl@.len() - 1 ==> ver_num(#[trigger] tl@[i].0) < ver_num(
                        tl@[i + 1].0,
                    ),
                ver_num(tl@[0].0) == 0,
                forall|jj: int| j < jj < tl@.len() ==> ver_num(#[trigger] tl@[jj].0) > ver,
            decreases j,
        {
            j -= 1;
        }
        proof {
            lemma_last_le_at(tl@, ver, j as int);
        }
        j
    }

    /// Resolve the entry effective at `version`: find the last entry at
    /// or before it and follow `Link` markers backwards until landing on
    /// an `Actual` marker; return that entry's index.
    pub fn get_version(v_map: &Vec<(Version, Option<V>)>, version: u64) -> (r: usize)
        requires
            tl_ok(v_map@),
        ensures
            r < v_map@.len(),
            r as int == resolve_idx(v_map@, version),
            v_map@[r as int].0 is Actual,
            ver_num(v_map@[r as int].0) <= version,
            v_map@[r as int].1 == resolve(v_map@, version),
    {
        let mut ver = version;
        let mut j = Self::find_le(v_map, ver);
        loop
            invariant
                tl_ok(v_map@),
                ver <= version,
                j < v_map@.len(),
                j as int == last_le(v_map@, ver),
                ver_num(v_map@[j as int].0) <= ver,
                resolve_idx(v_map@, version) == resolve_idx(v_map@, ver),
            decreases ver,
        {
            match v_map[j].0 {
                Version::Actual(_) => {
                    return j;
                },
                Version::Link { linked_to, .. } => {
                    proof {
                        assert(linked_to < ver_num(v_map@[j as int].0));
                    }
                    ver = linked_to;
                    j = Self::find_le(v_map, ver);
                },
            }
        }
    }

    /// Resolve the entry effective at `version` and hand back its marker
    /// together with mutable access to its value, so a same-version write
    /// can coalesce in place.
    pub fn get_version_mut(v_map: &mut Vec<(Version, Option<V>)>, version: u64) -> (r: (
        Version,
        &mut Option<V>,
    ))
        requires
            tl_ok(old(v_map)@),
        ensures
            ({
                let i = resolve_idx(old(v_map)@, version);
                &&& 0 <= i < old(v_map)@.len()
                &&& r.0 == old(v_map)@[i].0
                &&& r.0 is Actual
                &&& ver_num(r.0) <= version
                &&& *r.1 == old(v_map)@[i].1
                &&& *r.1 == resolve(old(v_map)@, version)
                &&& final(v_map)@ == old(v_map)@.update(i, (old(v_map)@[i].0, *final(r.1)))
            }),
    {
        let i = Self::get_version(v_map, version);
        let entry = &mut v_map[i];
        let marker = entry.0;
        (marker, &mut entry.1)
    }
}

/// Rebinding one key's timeline rewrites exactly that key's binding at
/// `w`, according to what the new timeline resolves to there.
proof fn lemma_m_at_rebind<V>(
    pre: Seq<(Vec<u8>, Vec<(Version, Option<V>)>)>,
    post: Seq<(Vec<u8>, Vec<(Version, Option<V>)>)>,
    idx: int,
    w: u64,
)
    requires
        distinct_keys(pre),
        0 <= idx < pre.len(),
        post == pre.update(idx, (pre[idx].0, post[idx].1)),
    ensures
        m_at(post, w) == (match resolve(post[idx].1@, w) {
            Some(x) => m_at(pre, w).insert(pre[idx].0@, x),
            None => m_at(pre, w).remove(pre[idx].0@),
        }),
        resolve(post[idx].1@, w) == resolve(pre[idx].1@, w) ==> m_at(post, w) == m_at(pre, w),
{
    let kb = pre[idx].0@;
    assert(distinct_keys(post));
    lemma_assoc_find_at(post, idx);
    lemma_assoc_find_at(pre, idx);
    assert forall|kb2: Seq<u8>| kb2 != kb implies #[trigger] assoc_find(post, kb2) == assoc_find(
        pre,
        kb2,
    ) by {
        lemma_assoc_find_update_other(pre, idx, (pre[idx].0, post[idx].1), kb2);
    }
    match resolve(post[idx].1@, w) {
        Some(x) => {
            assert(m_at(post, w) =~= m_at(pre, w).insert(kb, x));
        },
        None => {
            assert(m_at(post, w) =~= m_at(pre, w).remove(kb));
        },
    }
    if resolve(post[idx].1@, w) == resolve(pre[idx].1@, w) {
        assert(m_at(post, w) =~= m_at(pre, w));
    }
}

impl<K: AsFromBytes, V: DupValue> VersionedMap<K, V> for VMapNoTrie<K, V> {
    open spec fn m(&self) -> Map<Seq<u8>, V> {
        self.view_m()
    }

    open spec fn snaps(&self) -> Map<Seq<char>, Map<Seq<u8>, V>> {
        self.view_snaps()
    }

    open spec fn inv(&self) -> bool {
        self.wf()
    }

    open spec fn key_ok(&self, k: &K) -> bool {
        true
    }

    open spec fn headroom(&self) -> nat {
        self.headroom_now()
    }

    #[verifier::rlimit(100)]
    fn insert(&mut self, k: K, v: V) -> (r: Option<V>) {
        let kb = k.as_bytes();
        let cur = self.current_ver;
        let found = find_key(&self.state, kb);
        match found {
            None => {
                let mut tl: Vec<(Version, Option<V>)> = Vec::new();
                tl.push((Version::Actual(0), None));
                tl.push((Version::Actual(cur), Some(v)));
                let key_vec = vstd::slice::slice_to_vec(kb);
                let ghost pre_state = self.state@;
                let ghost entry = (key_vec, tl);
                self.state.push((key_vec, tl));
                proof {
                    lemma_assoc_push(pre_state, entry);
                    assert(tl_ok(entry.1@));
                    assert(last_le(entry.1@, cur) == 1);
                    assert(resolve(entry.1@, cur) == Some(v));
                    assert forall|kb2: Seq<u8>| kb2 != kb@ implies #[trigger] assoc_find(
                        self.state@,
                        kb2,
                    ) == assoc_find(pre_state, kb2) by {
                        assert(self.state@.drop_last() =~= pre_state);
                    }
                    lemma_assoc_find_at(self.state@, self.state@.len() - 1);
                    assert(self.view_m() =~= old(self).view_m().insert(k.sp_bytes(), v));
                    lemma_assoc_find_absent(pre_state, kb@);
                    assert(assoc_find(pre_state, kb@) is None);
                    assert(!old(self).view_m().dom().contains(k.sp_bytes()));
                    assert forall|w: u64| w < cur implies #[trigger] m_at(self.state@, w) == m_at(
                        pre_state,
                        w,
                    ) by {
                        let tl2 = entry.1@;
                        assert(tl2.drop_last() =~= seq![(Version::Actual(0u64), None::<V>)]);
                        assert(last_le(tl2.drop_last(), w) == 0);
                        assert(last_le(tl2, w) == 0);
                        assert(resolve_idx(tl2, w) == 0);
                        assert(resolve(tl2, w) is None);
                        assert(m_at(self.state@, w) =~= m_at(pre_state, w));
                    }
                    lemma_snaps_same(self.snapshots@, pre_state, self.state@, cur);
                }
                None
            },
            Some(idx) => {
                let ghost pre_state = self.state@;
                let ghost pre_tl = self.state@[idx as int].1@;
                proof {
                    assert(tl_ok(pre_tl));
                    assert(tl_bounded(pre_tl, cur));
                    lemma_assoc_find_at(pre_state, idx as int);
                }
                let ri = Self::get_version(&self.state[idx].1, cur);
                let marker = self.state[idx].1[ri].0;
                if marker.num() == cur {
                    proof {
                        lemma_at_cur_is_last(pre_tl, ri as int, cur);
                    }
                    let (_vf, val) = Self::get_version_mut(&mut self.state[idx].1, cur);
                    let prev = val.take();
                    *val = Some(v);
                    proof {
                        let post_tl = self.state@[idx as int].1@;
                        assert(post_tl == pre_tl.update(
                            ri as int,
                            (pre_tl[ri as int].0, Some(v)),
                        ));
                        assert(self.state@ == pre_state.update(
                            idx as int,
                            (pre_state[idx as int].0, self.state@[idx as int].1),
                        ));
                        assert(ri as int == pre_tl.len() - 1);
                        assert(last_le(post_tl, cur) == post_tl.len() - 1) by {
                            assert(ver_num(post_tl.last().0) == cur);
                        }
                        assert(resolve(post_tl, cur) == Some(v));
                        lemma_m_at_rebind(pre_state, self.state@, idx as int, cur);
                        assert(self.view_m() == old(self).view_m().insert(k.sp_bytes(), v));
                        assert(prev == resolve(pre_tl, cur));
                        assert forall|w: u64| w < cur implies #[trigger] m_at(self.state@, w)
                            == m_at(pre_state, w) by {
                            assert forall|a: int, b: int| 0 <= a < b < pre_tl.len() implies
                                ver_num(#[trigger] pre_tl[a].0) < ver_num(
                                #[trigger] pre_tl[b].0,
                            ) by {
                                lemma_sorted_pair(pre_tl, a, b);
                            }
                            lemma_resolve_update(pre_tl, ri as int, Some(v), w);
                            lemma_m_at_rebind(pre_state, self.state@, idx as int, w);
                        }
                        lemma_snaps_same(self.snapshots@, pre_state, self.state@, cur);
                        // well-formedness of the updated timeline
                        assert(tl_ok(post_tl)) by {
                            assert(ri as int != 0);
                            assert(post_tl[0] == pre_tl[0]);
                            assert(forall|a: int|
                                0 <= a < post_tl.len() ==> ver_num(#[trigger] post_tl[a].0)
                                    == ver_num(pre_tl[a].0));
                        }
                        assert(tl_bounded(post_tl, cur));
                        assert(distinct_keys(self.state@));
                    }
                    prev
                } else {
                    let prev = match &self.state[idx].1[ri].1 {
                        None => None,
                        Some(x) => Some(x.dup()),
                    };
                    let ghost entry = (Version::Actual(cur), Some(v));
                    self.state[idx].1.push((Version::Actual(cur), Some(v)));
                    proof {
                        let post_tl = self.state@[idx as int].1@;
                        assert(post_tl == pre_tl.push(entry));
                        assert(self.state@ == pre_state.update(
                            idx as int,
                            (pre_state[idx as int].0, self.state@[idx as int].1),
                        ));
                        // the last old entry stands strictly before `cur`
                        assert(ver_num(pre_tl.last().0) < cur) by {
                            let last = pre_tl.len() - 1;
                            if ver_num(pre_tl[last].0) == cur {
                                match pre_tl[last].0 {
                                    Version::Actual(_) => {
                                        assert(last_le(pre_tl, cur) == last);
                                        assert(resolve_idx(pre_tl, cur) == last);
                                    },
                                    Version::Link { .. } => {},
                                }
                            }
                        }
                        assert(last_le(post_tl, cur) == post_tl.len() - 1);
                        assert(resolve(post_tl, cur) == Some(v));
                        lemma_m_at_rebind(pre_state, self.state@, idx as int, cur);
                        assert(self.view_m() == old(self).view_m().insert(k.sp_bytes(), v));
                        assert(prev == resolve(pre_tl, cur));
                        assert forall|w: u64| w < cur implies #[trigger] m_at(self.state@, w)
                            == m_at(pre_state, w) by {
                            lemma_resolve_push(pre_tl, entry, w);
                            lemma_m_at_rebind(pre_state, self.state@, idx as int, w);
                        }
                        lemma_snaps_same(self.snapshots@, pre_state, self.state@, cur);
                        assert(tl_ok(post_tl)) by {
                            assert(post_tl[0] == pre_tl[0]);
                        }
                        assert(tl_bounded(post_tl, cur));
                        assert(distinct_keys(self.state@));
                    }
                    prev
                }
            },
        }
    }

    fn get<'a>(&'a self, k: &K) -> (r: Option<&'a V>) {
        let kb = k.as_bytes();
        let found = find_key(&self.state, kb);
        match found {
            None => {
                proof {
                    lemma_assoc_find_absent(self.state@, kb@);
                }
                None
            },
            Some(idx) => {
                proof {
                    assert(tl_ok(self.state@[idx as int].1@));
                    lemma_assoc_find_at(self.state@, idx as int);
                }
                let ri = Self::get_version(&self.state[idx].1, self.current_ver);
                match &self.state[idx].1[ri].1 {
                    None => None,
                    Some(x) => Some(x),
                }
            },
        }
    }

    #[verifier::rlimit(100)]
    fn remove(&mut self, k: &K) -> (r: Option<V>) {
        let kb = k.as_bytes();
        let cur = self.current_ver;
        let found = find_key(&self.state, kb);
        match found {
            None => {
                proof {
                    lemma_assoc_find_absent(self.state@, kb@);
                    assert(self.view_m() =~= old(self).view_m().remove(k.sp_bytes()));
                }
                None
            },
            Some(idx) => {
                let ghost pre_state = self.state@;
                let ghost pre_tl = self.state@[idx as int].1@;
                proof {
                    assert(tl_ok(pre_tl));
                    assert(tl_bounded(pre_tl, cur));
                    lemma_assoc_find_at(pre_state, idx as int);
                }
                let ri = Self::get_version(&self.state[idx].1, cur);
                let marker = self.state[idx].1[ri].0;
                if marker.num() == cur {
                    proof {
                        lemma_at_cur_is_last(pre_tl, ri as int, cur);
                    }
                    let (_vf, val) = Self::get_version_mut(&mut self.state[idx].1, cur);
                    let prev = val.take();
                    proof {
                        let post_tl = self.state@[idx as int].1@;
                        assert(post_tl == pre_tl.update(
                            ri as int,
                            (pre_tl[ri as int].0, None::<V>),
                        ));
                        assert(self.state@ == pre_state.update(
                            idx as int,
                            (pre_state[idx as int].0, self.state@[idx as int].1),
                        ));
                        assert(ri as int == pre_tl.len() - 1);
                        assert(last_le(post_tl, cur) == post_tl.len() - 1) by {
                            assert(ver_num(post_tl.last().0) == cur);
                        }
                        assert(resolve(post_tl, cur) is None);
                        lemma_m_at_rebind(pre_state, self.state@, idx as int, cur);
                        assert(self.view_m() == old(self).view_m().remove(k.sp_bytes()));
                        assert(prev == resolve(pre_tl, cur));
                        assert forall|w: u64| w < cur implies #[trigger] m_at(self.state@, w)
                            == m_at(pre_state, w) by {
                            assert forall|a: int, b: int| 0 <= a < b < pre_tl.len() implies
                                ver_num(#[trigger] pre_tl[a].0) < ver_num(
                                #[trigger] pre_tl[b].0,
                            ) by {
                                lemma_sorted_pair(pre_tl, a, b);
                            }
                            lemma_resolve_update(pre_tl, ri as int, None::<V>, w);
                            lemma_m_at_rebind(pre_state, self.state@, idx as int, w);
                        }
                        lemma_snaps_same(self.snapshots@, pre_state, self.state@, cur);
                        assert(tl_ok(post_tl)) by {
                            assert(ri as int != 0 || pre_tl[0].1 is None);
                            assert(post_tl[0].0 == pre_tl[0].0);
                            assert(forall|a: int|
                                0 <= a < post_tl.len() ==> ver_num(#[trigger] post_tl[a].0)
                                    == ver_num(pre_tl[a].0));
                        }
                        assert(tl_bounded(post_tl, cur));
                        assert(distinct_keys(self.state@));
                    }
                    prev
                } else {
                    let prev = match &self.state[idx].1[ri].1 {
                        None => None,
                        Some(x) => Some(x.dup()),
                    };
                    let ghost entry = (Version::Actual(cur), None::<V>);
                    self.state[idx].1.push((Version::Actual(cur), None));
                    proof {
                        let post_tl = self.state@[idx as int].1@;
                        assert(post_tl == pre_tl.push(entry));
                        assert(self.state@ == pre_state.update(
                            idx as int,
                            (pre_state[idx as int].0, self.state@[idx as int].1),
                        ));
                        assert(ver_num(pre_tl.last().0) < cur) by {
                            let last = pre_tl.len() - 1;
                            if ver_num(pre_tl[last].0) == cur {
                                match pre_tl[last].0 {
                                    Version::Actual(_) => {
                                        assert(last_le(pre_tl, cur) == last);
                                        assert(resolve_idx(pre_tl, cur) == last);
                                    },
                                    Version::Link { .. } => {},
                                }
                            }
                        }
                        assert(last_le(post_tl, cur) == post_tl.len() - 1);
                        assert(resolve(post_tl, cur) is None);
                        lemma_m_at_rebind(pre_state, self.state@, idx as int, cur);
                        assert(self.view_m() == old(self).view_m().remove(k.sp_bytes()));
                        assert(prev == resolve(pre_tl, cur));
                        assert forall|w: u64| w < cur implies #[trigger] m_at(self.state@, w)
                            == m_at(pre_state, w) by {
                            lemma_resolve_push(pre_tl, entry, w);
                            lemma_m_at_rebind(pre_state, self.state@, idx as int, w);
                        }
                        lemma_snaps_same(self.snapshots@, pre_state, self.state@, cur);
                        assert(tl_ok(post_tl)) by {
                            assert(post_tl[0] == pre_tl[0]);
                        }
                        assert(tl_bounded(post_tl, cur));
                        assert(distinct_keys(self.state@));
                    }
                    prev
                }
            },
        }
    }

    fn checkpoint(&mut self, tag: String)
        ensures
            final(self).headroom_now() == old(self).headroom_now() - 1,
    {
        let cur = self.current_ver;
        let found = find_tag(&self.snapshots, &tag);
        let ghost pre_snapshots = self.snapshots@;
        let ghost entry = (tag, cur);
        match found {
            Some(idx) => {
                self.snapshots[idx] = (tag, cur);
                proof {
                    lemma_assoc_update(pre_snapshots, idx as int, entry);
                }
            },
            None => {
                self.snapshots.push((tag, cur));
                proof {
                    lemma_assoc_push(pre_snapshots, entry);
                }
            },
        }
        self.current_ver = cur + 1;
        proof {
            let cur1 = self.current_ver;
            assert forall|i: int| 0 <= i < self.state@.len() implies resolve(
                (#[trigger] self.state@[i]).1@,
                cur1,
            ) == resolve(self.state@[i].1@, cur) by {
                assert(tl_ok(self.state@[i].1@));
                assert(tl_bounded(self.state@[i].1@, cur));
                lemma_resolve_raise(self.state@[i].1@, cur, cur1);
            }
            assert forall|kb: Seq<u8>| assoc_find(self.state@, kb) is Some implies resolve(
                #[trigger] assoc_find(self.state@, kb).unwrap()@,
                cur1,
            ) == resolve(assoc_find(self.state@, kb).unwrap()@, cur) by {
                lemma_assoc_find_some(self.state@, kb);
            }
            assert(self.view_m() =~= old(self).view_m());
            assert forall|t: Seq<char>| #[trigger] assoc_map(self.snapshots@).dom().contains(t)
                implies m_at(self.state@, assoc_map(self.snapshots@)[t]) == (if t == entry.0@ {
                m_at(self.state@, cur)
            } else {
                m_at(self.state@, assoc_map(pre_snapshots)[t])
            }) by {}
            assert(self.view_snaps() =~= old(self).view_snaps().insert(
                entry.0@,
                old(self).view_m(),
            ));
        }
    }

    #[verifier::rlimit(100)]
    fn rollback(&mut self, tag: String) -> (r: bool)
        ensures
            r ==> final(self).headroom_now() == old(self).headroom_now() - 2,
            !r ==> final(self).headroom_now() == old(self).headroom_now(),
    {
        let found = find_tag(&self.snapshots, &tag);
        match found {
            None => {
                proof {
                    lemma_assoc_find_absent(self.snapshots@, tag@);
                }
                false
            },
            Some(idx) => {
                let f = self.snapshots[idx].1;
                proof {
                    lemma_assoc_find_at(self.snapshots@, idx as int);
                }
                let nv = self.current_ver + 1;
                let ghost pre_state = self.state@;
                let ghost pre_cur = self.current_ver;
                self.current_ver = nv;
                let n = self.state.len();
                let mut i: usize = 0;
                while i < n
                    invariant
                        i <= n,
                        n == self.state@.len() == pre_state.len(),
                        self.snapshots@ == old(self).snapshots@,
                        self.current_ver == nv,
                        nv == pre_cur + 1,
                        pre_cur == old(self).current_ver,
                        old(self).wf(),
                        f < pre_cur,
                        forall|j: int| i <= j < n ==> #[trigger] self.state@[j] == pre_state[j],
                        forall|j: int|
                            0 <= j < i ==> #[trigger] self.state@[j] == (
                            pre_state[j].0,
                            self.state@[j].1,
                            ) && self.state@[j].1@ == pre_state[j].1@.push(
                                (Version::Link { linked_to: f, this: nv }, None::<V>),
                            ),
                    decreases n - i,
                {
                    proof {
                        assert(pre_state[i as int] == self.state@[i as int]);
                    }
                    self.state[i].1.push((Version::Link { linked_to: f, this: nv }, None));
                    i += 1;
                }
                self.current_ver = nv + 1;
                proof {
                    let post_state = self.state@;
                    let cur2 = self.current_ver;
                    let ghost link = (Version::Link { linked_to: f, this: nv }, None::<V>);
                    assert forall|j: int| 0 <= j < n implies (#[trigger] post_state[j]).0
                        == pre_state[j].0 && post_state[j].1@ == pre_state[j].1@.push(link) by {}
                    // key views are unchanged, so the association is too
                    assert forall|kb: Seq<u8>| true implies {
                        &&& (assoc_find(post_state, kb) is Some <==> assoc_find(pre_state, kb)
                            is Some)
                        &&& (assoc_find(post_state, kb) is Some ==> assoc_find(
                            post_state,
                            kb,
                        ).unwrap()@ == assoc_find(pre_state, kb).unwrap()@.push(link))
                    } by {
                        lemma_assoc_find_same_pos(pre_state, post_state, kb);
                        if assoc_find(pre_state, kb) is Some {
                            let p = choose|p: int|
                                0 <= p < pre_state.len() && (#[trigger] pre_state[p]).0@ == kb
                                    && assoc_find(pre_state, kb) == Some(pre_state[p].1)
                                    && assoc_find(post_state, kb) == Some(post_state[p].1);
                        }
                    }
                    // every timeline now resolves, at the new current version,
                    // to what it resolved to at the checkpoint version
                    assert forall|j: int| 0 <= j < n implies resolve(
                        (#[trigger] post_state[j]).1@,
                        cur2,
                    ) == resolve(pre_state[j].1@, f) && resolve(post_state[j].1@, f) == resolve(
                        pre_state[j].1@,
                        f,
                    ) by {
                        assert(tl_ok(pre_state[j].1@));
                        assert(tl_bounded(pre_state[j].1@, pre_cur));
                        assert(forall|a: int|
                            0 <= a < pre_state[j].1@.len() ==> ver_num(
                                #[trigger] pre_state[j].1@[a].0,
                            ) < nv);
                        lemma_resolve_link(pre_state[j].1@, f, nv, cur2);
                        lemma_resolve_push(pre_state[j].1@, link, f);
                    }
                    assert forall|kb: Seq<u8>| assoc_find(pre_state, kb) is Some implies {
                        &&& resolve(#[trigger] assoc_find(post_state, kb).unwrap()@, cur2)
                            == resolve(assoc_find(pre_state, kb).unwrap()@, f)
                    } by {
                        lemma_assoc_find_some(pre_state, kb);
                        let p = choose|p: int|
                            0 <= p < pre_state.len() && (#[trigger] pre_state[p]).0@ == kb
                                && pre_state[p].1 == assoc_find(pre_state, kb).unwrap();
                        lemma_assoc_find_same_pos(pre_state, post_state, kb);
                    }
                    assert(self.view_m() =~= m_at(pre_state, f));
                    assert(old(self).view_snaps()[tag@] == m_at(pre_state, f));
                    // every recorded checkpoint reads as before
                    assert forall|w: u64| w < pre_cur implies #[trigger] m_at(post_state, w)
                        == m_at(pre_state, w) by {
                        assert forall|j: int| 0 <= j < n implies resolve(
                            (#[trigger] post_state[j]).1@,
                            w,
                        ) == resolve(pre_state[j].1@, w) by {
                            lemma_resolve_push(pre_state[j].1@, link, w);
                        }
                        assert forall|kb: Seq<u8>| assoc_find(pre_state, kb) is Some implies
                            resolve(#[trigger] assoc_find(post_state, kb).unwrap()@, w) == resolve(
                            assoc_find(pre_state, kb).unwrap()@,
                            w,
                        ) by {
                            lemma_assoc_find_some(pre_state, kb);
                            lemma_assoc_find_same_pos(pre_state, post_state, kb);
                        }
                        assert(m_at(post_state, w) =~= m_at(pre_state, w));
                    }
                    lemma_snaps_same(self.snapshots@, pre_state, post_state, pre_cur);
                    // well-formedness
                    assert forall|j: int| 0 <= j < n implies tl_ok(
                        (#[trigger] post_state[j]).1@,
                    ) && tl_bounded(post_state[j].1@, cur2) by {
                        assert(tl_ok(pre_state[j].1@));
                        assert(tl_bounded(pre_state[j].1@, pre_cur));
                        let tl2 = post_state[j].1@;
                        assert(tl2[0] == pre_state[j].1@[0]);
                        assert(forall|a: int|
                            0 <= a < tl2.len() - 1 ==> ver_num(#[trigger] tl2[a].0) < ver_num(
                                tl2[a + 1].0,
                            ));
                    }
                    assert(distinct_keys(post_state));
                }
                true
            },
        }
    }

    fn prune(&mut self) {
        self.snapshots.clear();
        proof {
            assert(self.view_snaps() =~= Map::<Seq<char>, Map<Seq<u8>, V>>::empty());
            assert(self.view_m() =~= old(self).view_m());
        }
    }
}

} // verus!
