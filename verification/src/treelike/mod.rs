//! The trie-backed versioned store.
//!
//! A store is a live root index into the node arena plus a registry of
//! tag-to-root entries.  A checkpoint retains the current root; rollback
//! swaps the live root for a retained one; prune clears the registry.
//! Whenever a root reference is displaced, the arena is swept
//! ([`node::vacuum_clean`]) so that nodes no retained root reaches are
//! reclaimed.  No destructor is needed: the arena is one flat vector, so
//! dropping the store frees every node without recursing down the tree,
//! however deep the key paths run.

use vstd::prelude::*;

pub mod as_bytes;
pub mod node;

verus! {

use core::marker::PhantomData;
use crate::VersionedMap;
use crate::assoc::{
    assoc_find, assoc_map, distinct_keys, find_tag, lemma_assoc_find_absent,
    lemma_assoc_find_at, lemma_assoc_find_same_pos, lemma_assoc_find_some, lemma_assoc_push,
    lemma_assoc_update,
};
use crate::dup::DupValue;
use crate::treelike::as_bytes::AsFromBytes;
use crate::treelike::node::{
    arena_ok, lemma_arena_empty, lemma_empty_lookup, lemma_lookup_extend, lemma_push_ok, lookup,
    lookup_at, Node, reach_count, root_reachable, vacuum_clean,
};

/// The bindings below one root, read as a map from byte key to value.
pub open spec fn root_map<V>(nodes: Seq<Node<V>>, i: int) -> Map<Seq<u8>, V> {
    Map::new(
        |s: Seq<u8>| lookup(nodes, i, s) is Some,
        |s: Seq<u8>| lookup(nodes, i, s).unwrap(),
    )
}

/// The registry, read as a map from tag to the captured bindings.
pub open spec fn snaps_of<V>(nodes: Seq<Node<V>>, entries: Seq<(String, usize)>) -> Map<
    Seq<char>,
    Map<Seq<u8>, V>,
> {
    let reg = assoc_map(entries);
    Map::new(
        |t: Seq<char>| reg.dom().contains(t),
        |t: Seq<char>| root_map(nodes, reg[t] as int),
    )
}

/// A store whose keys encode to bytes and whose state is a
/// copy-on-write trie with structural sharing across checkpoints.
pub struct VMapTree<K, V> {
    nodes: Vec<Node<V>>,
    root: usize,
    snapshots: Vec<(String, usize)>,
    _phantom_data: PhantomData<K>,
}

impl<K, V> VMapTree<K, V> {
    /// Internal well-formedness: the arena is well formed, the live root
    /// and every registered root point into it, and tags are distinct.
    pub closed spec fn wf(&self) -> bool {
        &&& arena_ok(self.nodes@)
        &&& (self.root as int) < self.nodes@.len()
        &&& forall|p: int|
            0 <= p < self.snapshots@.len() ==> ((#[trigger] self.snapshots@[p]).1 as int)
                < self.nodes@.len()
        &&& distinct_keys(self.snapshots@)
    }

    /// The current bindings.
    pub closed spec fn view_m(&self) -> Map<Seq<u8>, V> {
        root_map(self.nodes@, self.root as int)
    }

    /// The registered checkpoints.
    pub closed spec fn view_snaps(&self) -> Map<Seq<char>, Map<Seq<u8>, V>> {
        snaps_of(self.nodes@, self.snapshots@)
    }

    /// How many nodes the arena currently holds.
    pub closed spec fn spec_node_count(&self) -> nat {
        self.nodes@.len()
    }

    /// The arena indices the store retains: the live root, then every
    /// registered capture's root.
    pub closed spec fn spec_retained_roots(&self) -> Seq<usize> {
        seq![self.root] + Seq::new(self.snapshots@.len(), |q: int| self.snapshots@[q].1)
    }

    /// Every arena node is reachable from a retained root: nothing that
    /// only discarded captures reached survives a sweep.
    pub closed spec fn arena_tight(&self) -> bool {
        forall|q: int|
            0 <= q < self.nodes@.len() ==> root_reachable(
                self.nodes@,
                self.spec_retained_roots(),
                q,
            )
    }

    /// How many arena nodes the live root alone reaches.
    pub closed spec fn spec_live_reach_count(&self) -> int {
        reach_count(self.nodes@, seq![self.root])
    }

    /// The number of nodes the arena currently holds: checkpoints add
    /// none (they only retain a root), and a sweep never grows it.
    pub fn node_count(&self) -> (r: usize)
        ensures
            r == self.spec_node_count(),
    {
        self.nodes.len()
    }

    /// A fresh store: no bindings, no checkpoints.
    pub fn new() -> (s: Self)
        ensures
            s.wf(),
            s.view_m() == Map::<Seq<u8>, V>::empty(),
            s.view_snaps() == Map::<Seq<char>, Map<Seq<u8>, V>>::empty(),
    {
        let mut nodes: Vec<Node<V>> = Vec::new();
        let n = Node::new();
        proof {
            lemma_arena_empty::<V>();
            lemma_push_ok(nodes@, n);
        }
        nodes.push(n);
        let s = VMapTree { nodes, root: 0, snapshots: Vec::new(), _phantom_data: PhantomData };
        proof {
            assert forall|key: Seq<u8>| #[trigger] lookup(s.nodes@, 0int, key) is None by {
                lemma_empty_lookup(s.nodes@, 0int, key);
            }
            assert(s.view_m() =~= Map::<Seq<u8>, V>::empty());
            assert(s.view_snaps() =~= Map::<Seq<char>, Map<Seq<u8>, V>>::empty());
        }
        s
    }
}

/// Encode a key for the trie; keys that encode to an empty byte
/// sequence are a usage-contract violation and are ruled out up front.
pub fn bytes<K: AsFromBytes>(input: &K) -> (r: &[u8])
    requires
        input.sp_bytes().len() > 0,
    ensures
        r@ == input.sp_bytes(),
        r@.len() > 0,
{
    input.as_bytes()
}

impl<K, V: DupValue> VMapTree<K, V> {
    /// Sweep the arena, keeping exactly what the live root and the
    /// registered roots can reach, and rebase those roots.
    fn vacuum(&mut self)
        requires
            old(self).wf(),
        ensures
            final(self).wf(),
            final(self).view_m() == old(self).view_m(),
            final(self).view_snaps() == old(self).view_snaps(),
            final(self).snapshots@.len() == old(self).snapshots@.len(),
            forall|p: int|
                0 <= p < final(self).snapshots@.len() ==> (#[trigger] final(self).snapshots@[p]).0
                    == old(self).snapshots@[p].0,
            final(self).spec_node_count() == reach_count(
                old(self).nodes@,
                old(self).spec_retained_roots(),
            ),
            final(self).arena_tight(),
            final(self).spec_node_count() <= old(self).spec_node_count(),
    {
        let ghost pre_nodes = self.nodes@;
        let ghost pre_snapshots = self.snapshots@;
        let mut roots: Vec<usize> = Vec::new();
        roots.push(self.root);
        let count = self.snapshots.len();
        let mut p: usize = 0;
        while p < count
            invariant
                p <= count,
                count == self.snapshots@.len(),
                self.snapshots@ == pre_snapshots,
                self.nodes@ == pre_nodes,
                self == old(self),
                roots@.len() == p + 1,
                roots@[0] == self.root,
                forall|q: int| 0 <= q < p ==> #[trigger] roots@[q + 1] == self.snapshots@[q].1,
            decreases count - p,
        {
            roots.push(self.snapshots[p].1);
            p += 1;
        }
        proof {
            assert(old(self).wf());
            assert forall|q: int| 0 <= q < roots@.len() implies (#[trigger] roots@[q] as int)
                < self.nodes@.len() by {
                if q > 0 {
                    assert(roots@[(q - 1) + 1] == self.snapshots@[q - 1].1);
                }
            }
            assert forall|q: int| 0 <= q < roots@.len() implies #[trigger] roots@[q] == old(
                self,
            ).spec_retained_roots()[q] by {
                if q > 0 {
                    assert(roots@[(q - 1) + 1] == self.snapshots@[q - 1].1);
                }
            }
            assert(roots@ =~= old(self).spec_retained_roots());
        }
        let ghost pre_roots = roots@;
        vacuum_clean(&mut self.nodes, &mut roots);
        let ghost post_nodes = self.nodes@;
        let ghost post_roots = roots@;
        self.root = roots[0];
        let mut q: usize = 0;
        while q < count
            invariant
                q <= count,
                count == self.snapshots@.len() == pre_snapshots.len(),
                self.nodes@ == post_nodes,
                self.root == post_roots[0],
                roots@ == post_roots,
                post_roots.len() == count + 1,
                forall|r: int| 0 <= r < q ==> #[trigger] self.snapshots@[r] == (
                    pre_snapshots[r].0,
                    post_roots[r + 1],
                ),
                forall|r: int| q <= r < count ==> #[trigger] self.snapshots@[r]
                    == pre_snapshots[r],
            decreases count - q,
        {
            self.snapshots[q].1 = roots[q + 1];
            q += 1;
        }
        proof {
            // the live state is preserved (root is position 0)
            assert forall|s: Seq<u8>| #[trigger] lookup(post_nodes, post_roots[0] as int, s)
                == lookup(pre_nodes, pre_roots[0] as int, s) by {}
            assert(self.view_m() =~= old(self).view_m());
            // tags are untouched, and each registered root reads the same
            assert(distinct_keys(self.snapshots@));
            assert forall|p2: int| 0 <= p2 < self.snapshots@.len() implies ((
            #[trigger] self.snapshots@[p2]).1 as int) < self.nodes@.len() by {
                assert(self.snapshots@[p2].1 == post_roots[p2 + 1]);
            }
            assert forall|t: Seq<char>| true implies {
                &&& (assoc_find(self.snapshots@, t) is Some <==> assoc_find(pre_snapshots, t)
                    is Some)
                &&& (assoc_find(self.snapshots@, t) is Some ==> root_map(
                    post_nodes,
                    assoc_find(self.snapshots@, t).unwrap() as int,
                ) == root_map(pre_nodes, assoc_find(pre_snapshots, t).unwrap() as int))
            } by {
                lemma_assoc_find_same_pos(pre_snapshots, self.snapshots@, t);
                if assoc_find(pre_snapshots, t) is Some {
                    let i = choose|i: int|
                        0 <= i < pre_snapshots.len() && (#[trigger] pre_snapshots[i]).0@ == t
                            && assoc_find(pre_snapshots, t) == Some(pre_snapshots[i].1)
                            && assoc_find(self.snapshots@, t) == Some(self.snapshots@[i].1);
                    assert(self.snapshots@[i].1 == post_roots[i + 1]);
                    assert(pre_roots[i + 1] == pre_snapshots[i].1);
                    assert forall|s: Seq<u8>| #[trigger] lookup(
                        post_nodes,
                        post_roots[i + 1] as int,
                        s,
                    ) == lookup(pre_nodes, pre_roots[i + 1] as int, s) by {}
                    assert(root_map(post_nodes, post_roots[i + 1] as int) =~= root_map(
                        pre_nodes,
                        pre_roots[i + 1] as int,
                    ));
                }
            }
            assert(self.view_snaps() =~= old(self).view_snaps());
            // only what the retained roots reached survives, and all of it
            // is still reachable from the rebased roots
            assert(pre_roots == old(self).spec_retained_roots());
            assert(self.spec_node_count() == reach_count(pre_nodes, pre_roots));
            assert forall|q: int| 0 <= q < self.spec_retained_roots().len() implies #[trigger] self
                .spec_retained_roots()[q] == post_roots[q] by {
                if q > 0 {
                    assert(self.snapshots@[q - 1] == (pre_snapshots[q - 1].0, post_roots[q]));
                }
            }
            assert(self.spec_retained_roots() =~= post_roots);
            assert(self.arena_tight());
        }
    }
}

impl<K: AsFromBytes, V: DupValue> VersionedMap<K, V> for VMapTree<K, V> {
    open spec fn m(&self) -> Map<Seq<u8>, V> {
        self.view_m()
    }

    open spec fn snaps(&self) -> Map<Seq<char>, Map<Seq<u8>, V>> {
        self.view_snaps()
    }

    open spec fn inv(&self) -> bool {
        self.wf()
    }

    open spec fn key_ok(&self, k: &K) -> bool {
        k.sp_bytes().len() > 0
    }

    open spec fn headroom(&self) -> nat {
        u64::MAX as nat
    }

    fn insert(&mut self, k: K, v: V) -> (r: Option<V>) {
        let key = bytes(&k);
        let ghost pre = self.nodes@;
        let (nr, displaced) = Node::insert(&mut self.nodes, Some(self.root), key, 0, v);
        let ghost old_root = self.root;
        self.root = nr;
        proof {
            assert(key@.subrange(0, key@.len() as int) =~= k.sp_bytes());
            assert(self.view_m() =~= old(self).view_m().insert(k.sp_bytes(), v));
            lemma_snaps_extend(pre, self.nodes@, self.snapshots@);
        }
        displaced
    }

    fn get<'a>(&'a self, k: &K) -> (r: Option<&'a V>) {
        let key = bytes(k);
        proof {
            assert(key@.subrange(0, key@.len() as int) =~= k.sp_bytes());
        }
        Node::get(&self.nodes, self.root, key, 0)
    }

    fn remove(&mut self, k: &K) -> (r: Option<V>) {
        let key = bytes(k);
        let ghost pre = self.nodes@;
        let (nr, displaced) = Node::remove(&mut self.nodes, Some(self.root), key, 0);
        proof {
            assert(key@.subrange(0, key@.len() as int) =~= k.sp_bytes());
        }
        match nr {
            Some(r) => {
                self.root = r;
                proof {
                    assert forall|s: Seq<u8>| #[trigger] lookup(self.nodes@, r as int, s) == (if s
                        == k.sp_bytes() {
                        None::<V>
                    } else {
                        lookup(pre, old(self).root as int, s)
                    }) by {
                        assert(lookup_at(self.nodes@, nr, s) == lookup(self.nodes@, r as int, s));
                    }
                    assert(self.view_m() =~= old(self).view_m().remove(k.sp_bytes()));
                    lemma_snaps_extend(pre, self.nodes@, self.snapshots@);
                }
            },
            None => {
                let ghost mid = self.nodes@;
                let n = Node::new();
                proof {
                    lemma_push_ok(self.nodes@, n);
                }
                self.nodes.push(n);
                self.root = self.nodes.len() - 1;
                proof {
                    assert(pre.is_prefix_of(self.nodes@)) by {
                        assert(pre.is_prefix_of(mid));
                        assert(pre =~= self.nodes@.subrange(0, pre.len() as int));
                    }
                    assert forall|s: Seq<u8>| #[trigger] lookup(
                        self.nodes@,
                        self.root as int,
                        s,
                    ) is None by {
                        lemma_empty_lookup(self.nodes@, self.root as int, s);
                    }
                    assert forall|s: Seq<u8>| s != k.sp_bytes() implies #[trigger] lookup(
                        pre,
                        old(self).root as int,
                        s,
                    ) is None by {
                        assert(lookup_at(mid, None::<usize>, s) == lookup_at(
                            pre,
                            Some(old(self).root),
                            s,
                        ));
                    }
                    assert(self.view_m() =~= old(self).view_m().remove(k.sp_bytes()));
                    lemma_snaps_extend(pre, self.nodes@, self.snapshots@);
                }
            },
        }
        displaced
    }

    fn checkpoint(&mut self, tag: String)
        ensures
            final(self).spec_node_count() <= old(self).spec_node_count(),
            old(self).snaps().dom().contains(tag@) ==> final(self).arena_tight(),
    {
        let found = find_tag(&self.snapshots, &tag);
        match found {
            Some(idx) => {
                let ghost pre_snapshots = self.snapshots@;
                let ghost entry = (tag, self.root);
                self.snapshots[idx] = (tag, self.root);
                proof {
                    lemma_assoc_update(pre_snapshots, idx as int, entry);
                    assert(self.view_snaps() =~= old(self).view_snaps().insert(
                        entry.0@,
                        old(self).view_m(),
                    ));
                }
                self.vacuum();
            },
            None => {
                let ghost pre_snapshots = self.snapshots@;
                let ghost entry = (tag, self.root);
                proof {
                    lemma_assoc_find_absent(pre_snapshots, entry.0@);
                    assert(!old(self).view_snaps().dom().contains(entry.0@));
                }
                self.snapshots.push((tag, self.root));
                proof {
                    lemma_assoc_push(pre_snapshots, entry);
                    assert(self.view_snaps() =~= old(self).view_snaps().insert(
                        entry.0@,
                        old(self).view_m(),
                    ));
                }
            },
        }
    }

    fn rollback(&mut self, tag: String) -> (r: bool)
        ensures
            final(self).spec_node_count() <= old(self).spec_node_count(),
            r ==> final(self).arena_tight(),
    {
        let found = find_tag(&self.snapshots, &tag);
        match found {
            None => {
                proof {
                    lemma_assoc_find_absent(self.snapshots@, tag@);
                }
                false
            },
            Some(idx) => {
                self.root = self.snapshots[idx].1;
                proof {
                    lemma_assoc_find_at(self.snapshots@, idx as int);
                    assert(self.view_m() == old(self).view_snaps()[tag@]);
                }
                self.vacuum();
                true
            },
        }
    }

    fn prune(&mut self)
        ensures
            final(self).arena_tight(),
            final(self).spec_node_count() == old(self).spec_live_reach_count(),
            final(self).spec_node_count() <= old(self).spec_node_count(),
    {
        self.snapshots.clear();
        proof {
            assert(self.view_snaps() =~= Map::<Seq<char>, Map<Seq<u8>, V>>::empty());
            assert(self.spec_retained_roots() =~= seq![self.root]);
            assert(self.spec_live_reach_count() == old(self).spec_live_reach_count());
        }
        self.vacuum();
    }
}

/// Growing the arena leaves every registered checkpoint's capture
/// unchanged.
proof fn lemma_snaps_extend<V>(
    pre: Seq<Node<V>>,
    post: Seq<Node<V>>,
    entries: Seq<(String, usize)>,
)
    requires
        arena_ok(pre),
        pre.is_prefix_of(post),
        forall|p: int| 0 <= p < entries.len() ==> ((#[trigger] entries[p]).1 as int) < pre.len(),
    ensures
        snaps_of::<V>(post, entries) == snaps_of::<V>(pre, entries),
{
    assert forall|t: Seq<char>| assoc_find(entries, t) is Some implies root_map::<V>(
        post,
        assoc_find(entries, t).unwrap() as int,
    ) == root_map::<V>(pre, assoc_find(entries, t).unwrap() as int) by {
        lemma_assoc_find_some(entries, t);
        let i = choose|i: int|
            0 <= i < entries.len() && (#[trigger] entries[i]).0@ == t && entries[i].1
                == assoc_find(entries, t).unwrap();
        assert forall|s: Seq<u8>| #[trigger] lookup(post, entries[i].1 as int, s) == lookup(
            pre,
            entries[i].1 as int,
            s,
        ) by {
            lemma_lookup_extend(pre, post, entries[i].1 as int, s);
        }
        assert(root_map::<V>(post, entries[i].1 as int) =~= root_map::<V>(
            pre,
            entries[i].1 as int,
        ));
    }
    assert(snaps_of::<V>(post, entries) =~= snaps_of::<V>(pre, entries));
}

} // verus!
