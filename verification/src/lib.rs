//! An in-memory, versioned key-value map.
//!
//! A versioned map supports ordinary insert/get/remove plus named
//! checkpoints and rollback to a checkpoint, without paying the cost of a
//! full deep copy on every checkpoint.  Three backends implement the same
//! contract:
//!
//! * [`treelike::VMapTree`]: a copy-on-write byte trie with structural
//!   sharing and an iterative, bounded-stack reclamation sweep;
//! * [`treelike_no_trie::VMapNoTrie`]: a per-key multi-version timeline
//!   that makes rollback cheap by appending version-indirection markers
//!   instead of deleting or copying data;
//! * [`trivial::VMapTriv`]: a naive baseline that keeps one full copy of
//!   the live map per checkpoint tag.
//!
//! The common contract is the [`VersionedMap`] trait.  Its model is a
//! [`Map`] from the key's byte encoding (see
//! [`treelike::as_bytes::AsFromBytes`]) to the stored value, together with
//! a map from checkpoint tags to captured states.

use vstd::prelude::*;

pub mod assoc;
pub mod dup;
pub mod laws;
pub mod treelike;
pub mod treelike_no_trie;
pub mod trivial;

verus! {

use crate::treelike::as_bytes::AsFromBytes;

/// The operation set shared by every backend.
///
/// A store models two pieces of state: `m()`, the current bindings, keyed
/// by each key's byte encoding, and `snaps()`, the registry of named
/// checkpoints, each a full capture of the bindings at checkpoint time.
/// A fresh store has `m()` and `snaps()` both empty.
pub trait VersionedMap<K: AsFromBytes, V> {
    /// The current bindings, keyed by the key's byte encoding.
    spec fn m(&self) -> Map<Seq<u8>, V>;

    /// The registered checkpoints: tag to captured bindings.
    spec fn snaps(&self) -> Map<Seq<char>, Map<Seq<u8>, V>>;

    /// The backend's internal well-formedness; established by its
    /// constructor and preserved by every operation.
    spec fn inv(&self) -> bool;

    /// Which keys the backend accepts (the trie refuses keys that
    /// encode to an empty byte sequence).
    spec fn key_ok(&self, k: &K) -> bool;

    /// How many more version numbers the backend can still consume.  A
    /// checkpoint consumes at most one and a rollback at most two, so a
    /// caller can chain them by tracking this bound; a backend without a
    /// version counter reports a constant.
    spec fn headroom(&self) -> nat;

    /// Bind `k` to `v` in the current state; return the prior binding,
    /// if any.
    fn insert(&mut self, k: K, v: V) -> (r: Option<V>)
        requires
            old(self).inv(),
            old(self).key_ok(&k),
        ensures
            final(self).inv(),
            final(self).headroom() == old(self).headroom(),
            final(self).m() == old(self).m().insert(k.sp_bytes(), v),
            final(self).snaps() == old(self).snaps(),
            r == (if old(self).m().dom().contains(k.sp_bytes()) {
                Some(old(self).m()[k.sp_bytes()])
            } else {
                None::<V>
            }),
    ;

    /// Return the current binding of `k`, or `None`; never mutates.
    fn get<'a>(&'a self, k: &K) -> (r: Option<&'a V>)
        requires
            self.inv(),
            self.key_ok(k),
        ensures
            match r {
                Some(v) => self.m().dom().contains(k.sp_bytes()) && *v == self.m()[k.sp_bytes()],
                None => !self.m().dom().contains(k.sp_bytes()),
            },
    ;

    /// Remove the current binding of `k`; return what was removed, or
    /// `None` if `k` was absent.
    fn remove(&mut self, k: &K) -> (r: Option<V>)
        requires
            old(self).inv(),
            old(self).key_ok(k),
        ensures
            final(self).inv(),
            final(self).headroom() == old(self).headroom(),
            final(self).m() == old(self).m().remove(k.sp_bytes()),
            final(self).snaps() == old(self).snaps(),
            r == (if old(self).m().dom().contains(k.sp_bytes()) {
                Some(old(self).m()[k.sp_bytes()])
            } else {
                None::<V>
            }),
    ;

    /// Capture the entire current state under `tag`.  If `tag` was
    /// already registered, its previous capture is discarded.
    fn checkpoint(&mut self, tag: String)
        requires
            old(self).inv(),
            old(self).headroom() >= 1,
        ensures
            final(self).inv(),
            final(self).headroom() >= old(self).headroom() - 1,
            final(self).m() == old(self).m(),
            final(self).snaps() == old(self).snaps().insert(tag@, old(self).m()),
    ;

    /// If `tag` is registered, replace the current state wholesale by
    /// its capture and return `true`; otherwise mutate nothing and
    /// return `false`.
    fn rollback(&mut self, tag: String) -> (r: bool)
        requires
            old(self).inv(),
            old(self).headroom() >= 2,
        ensures
            final(self).inv(),
            final(self).headroom() >= old(self).headroom() - 2,
            r == old(self).snaps().dom().contains(tag@),
            r ==> final(self).m() == old(self).snaps()[tag@],
            !r ==> final(self).m() == old(self).m(),
            final(self).snaps() == old(self).snaps(),
    ;

    /// Discard every registered tag without altering the live state.
    fn prune(&mut self)
        requires
            old(self).inv(),
        ensures
            final(self).inv(),
            final(self).headroom() == old(self).headroom(),
            final(self).m() == old(self).m(),
            final(self).snaps() == Map::<Seq<char>, Map<Seq<u8>, V>>::empty(),
    ;
}

} // verus!
