//! The naive baseline backend.
//!
//! One full copy of the live bindings is kept per checkpoint tag.  It is
//! a correctness reference, not an engineering effort: checkpoint and
//! rollback cost a deep copy of the whole map.

use vstd::prelude::*;

verus! {

use core::marker::PhantomData;
use crate::VersionedMap;
use crate::assoc::{
    assoc_find, assoc_map, copy_bytes, distinct_keys, find_key, find_tag,
    lemma_assoc_find_absent, lemma_assoc_find_at, lemma_assoc_find_same_pos,
    lemma_assoc_find_some, lemma_assoc_push, lemma_assoc_remove, lemma_assoc_update,
};
use crate::dup::DupValue;
use crate::treelike::as_bytes::AsFromBytes;

/// A store that keeps the live bindings as one list and every checkpoint
/// as a full, independent copy of such a list.
pub struct VMapTriv<K, V> {
    latest: Vec<(Vec<u8>, V)>,
    tagged: Vec<(String, Vec<(Vec<u8>, V)>)>,
    _phantom_data: PhantomData<K>,
}

impl<K, V> VMapTriv<K, V> {
    /// Internal well-formedness: keys are distinct in the live list and
    /// in every captured copy, and tags are distinct.
    pub closed spec fn wf(&self) -> bool {
        &&& distinct_keys(self.latest@)
        &&& distinct_keys(self.tagged@)
        &&& forall|p: int|
            0 <= p < self.tagged@.len() ==> distinct_keys((#[trigger] self.tagged@[p]).1@)
    }

    /// The current bindings.
    pub closed spec fn view_m(&self) -> Map<Seq<u8>, V> {
        assoc_map(self.latest@)
    }

    /// The registered checkpoints.
    pub closed spec fn view_snaps(&self) -> Map<Seq<char>, Map<Seq<u8>, V>> {
        let reg = assoc_map(self.tagged@);
        Map::new(
            |t: Seq<char>| reg.dom().contains(t),
            |t: Seq<char>| assoc_map(reg[t]@),
        )
    }

    /// A fresh store: no bindings, no checkpoints.
    pub fn new() -> (s: Self)
        ensures
            s.wf(),
            s.view_m() == Map::<Seq<u8>, V>::empty(),
            s.view_snaps() == Map::<Seq<char>, Map<Seq<u8>, V>>::empty(),
    {
        let s = VMapTriv { latest: Vec::new(), tagged: Vec::new(), _phantom_data: PhantomData };
        proof {
            assert(s.view_m() =~= Map::<Seq<u8>, V>::empty());
            assert(s.view_snaps() =~= Map::<Seq<char>, Map<Seq<u8>, V>>::empty());
        }
        s
    }
}

/// An independent copy of a binding list: same key views, equal values.
fn copy_entries<V: DupValue>(src: &Vec<(Vec<u8>, V)>) -> (r: Vec<(Vec<u8>, V)>)
    ensures
        r@.len() == src@.len(),
        forall|i: int|
            0 <= i < src@.len() ==> (#[trigger] r@[i]).0@ == src@[i].0@ && r@[i].1 == src@[i].1,
{
    let n = src.len();
    let mut out: Vec<(Vec<u8>, V)> = Vec::new();
    let mut i: usize = 0;
    while i < n
        invariant
            i <= n,
            n == src@.len(),
            out@.len() == i,
            forall|j: int|
                0 <= j < i ==> (#[trigger] out@[j]).0@ == src@[j].0@ && out@[j].1 == src@[j].1,
        decreases n - i,
    {
        let kb = copy_bytes(&src[i].0);
        let v = src[i].1.dup();
        out.push((kb, v));
        i += 1;
    }
    out
}

/// Lists with the same key views and equal values model the same map.
proof fn lemma_entries_equiv<V>(a: Seq<(Vec<u8>, V)>, b: Seq<(Vec<u8>, V)>)
    requires
        a.len() == b.len(),
        forall|i: int| 0 <= i < a.len() ==> (#[trigger] b[i]).0@ == a[i].0@ && b[i].1 == a[i].1,
    ensures
        assoc_map(b) == assoc_map(a),
        distinct_keys(a) ==> distinct_keys(b),
{
    assert forall|kb: Seq<u8>| true implies #[trigger] assoc_find(b, kb) == assoc_find(a, kb) by {
        lemma_assoc_find_same_pos(a, b, kb);
        if assoc_find(a, kb) is Some {
            let i = choose|i: int|
                0 <= i < a.len() && (#[trigger] a[i]).0@ == kb && assoc_find(a, kb) == Some(
                    a[i].1,
                ) && assoc_find(b, kb) == Some(b[i].1);
        }
    }
    assert(assoc_map(b) =~= assoc_map(a));
}

impl<K: AsFromBytes, V: DupValue> VersionedMap<K, V> for VMapTriv<K, V> {
    open spec fn m(&self) -> Map<Seq<u8>, V> {
        self.view_m()
    }

    open spec fn snaps(&self) -> Map<Seq<char>, Map<Seq<u8>, V>> {
        self.view_snaps()
    }

    open spec fn inv(&self) -> bool {
        self.wf()
    }

    open spec fn key_ok(&self, k: &K) -> bool {
        true
    }

    open spec fn headroom(&self) -> nat {
        u64::MAX as nat
    }

    fn insert(&mut self, k: K, v: V) -> (r: Option<V>) {
        let kb = k.as_bytes();
        let found = find_key(&self.latest, kb);
        match found {
            Some(i) => {
                let prev = Some(self.latest[i].1.dup());
                proof {
                    lemma_assoc_find_at(self.latest@, i as int);
                }
                let ghost pre = self.latest@;
                self.latest[i].1 = v;
                proof {
                    assert(self.latest@ == pre.update(i as int, (pre[i as int].0, v)));
                    lemma_assoc_update(pre, i as int, (pre[i as int].0, v));
                }
                prev
            },
            None => {
                proof {
                    lemma_assoc_find_absent(self.latest@, kb@);
                }
                let key_vec = vstd::slice::slice_to_vec(kb);
                let ghost pre = self.latest@;
                let ghost entry = (key_vec, v);
                self.latest.push((key_vec, v));
                proof {
                    lemma_assoc_push(pre, entry);
                }
                None
            },
        }
    }

    fn get<'a>(&'a self, k: &K) -> (r: Option<&'a V>) {
        let kb = k.as_bytes();
        let found = find_key(&self.latest, kb);
        match found {
            Some(i) => {
                proof {
                    lemma_assoc_find_at(self.latest@, i as int);
                }
                Some(&self.latest[i].1)
            },
            None => {
                proof {
                    lemma_assoc_find_absent(self.latest@, kb@);
                }
                None
            },
        }
    }

    fn remove(&mut self, k: &K) -> (r: Option<V>) {
        let kb = k.as_bytes();
        let found = find_key(&self.latest, kb);
        match found {
            Some(i) => {
                proof {
                    lemma_assoc_find_at(self.latest@, i as int);
                    lemma_assoc_remove(self.latest@, i as int);
                }
                let (_key, v) = self.latest.remove(i);
                Some(v)
            },
            None => {
                proof {
                    lemma_assoc_find_absent(self.latest@, kb@);
                    assert(self.view_m() =~= self.view_m().remove(k.sp_bytes()));
                }
                None
            },
        }
    }

    fn checkpoint(&mut self, tag: String) {
        let snapshot = copy_entries(&self.latest);
        proof {
            lemma_entries_equiv(self.latest@, snapshot@);
        }
        let found = find_tag(&self.tagged, &tag);
        let ghost pre = self.tagged@;
        let ghost entry = (tag, snapshot);
        match found {
            Some(i) => {
                self.tagged[i] = (tag, snapshot);
                proof {
                    lemma_assoc_update(pre, i as int, entry);
                    assert(self.view_snaps() =~= old(self).view_snaps().insert(
                        entry.0@,
                        old(self).view_m(),
                    ));
                }
            },
            None => {
                self.tagged.push((tag, snapshot));
                proof {
                    lemma_assoc_push(pre, entry);
                    assert(self.view_snaps() =~= old(self).view_snaps().insert(
                        entry.0@,
                        old(self).view_m(),
                    ));
                }
            },
        }
    }

    fn rollback(&mut self, tag: String) -> (r: bool) {
        let found = find_tag(&self.tagged, &tag);
        match found {
            None => {
                proof {
                    lemma_assoc_find_absent(self.tagged@, tag@);
                }
                false
            },
            Some(i) => {
                proof {
                    lemma_assoc_find_at(self.tagged@, i as int);
                }
                let restored = copy_entries(&self.tagged[i].1);
                proof {
                    lemma_entries_equiv(self.tagged@[i as int].1@, restored@);
                }
                self.latest = restored;
                proof {
                    assert(self.view_snaps() =~= old(self).view_snaps());
                }
                true
            },
        }
    }

    fn prune(&mut self) {
        self.tagged.clear();
        proof {
            assert(self.view_snaps() =~= Map::<Seq<char>, Map<Seq<u8>, V>>::empty());
        }
    }
}

} // verus!
