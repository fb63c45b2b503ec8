//! The copy-on-write trie engine.
//!
//! Nodes live in an arena (a vector); a child slot holds the arena index
//! of the child.  Mutation never touches a published node: insert and
//! remove duplicate the root-to-leaf path of the touched key and append
//! the duplicates to the arena, so every untouched subtree stays shared
//! between the old shape (still referenced by checkpoints) and the new
//! one.  A checkpoint is therefore just a retained root index.
//!
//! Node indices strictly decrease from parent to child (a node is
//! appended only after its children exist), which makes the structure
//! acyclic by construction.  Reclamation is an explicit, bounded-stack
//! sweep ([`vacuum_clean`]): a FIFO worklist marks everything reachable
//! from the retained roots, then the arena is compacted to exactly the
//! marked nodes and the roots are rebased.  Path copies orphaned by
//! insert and remove simply accrue in the arena until the next sweep;
//! reclamation is deferred to those epochs by design.

use vstd::prelude::*;

verus! {

use std::collections::VecDeque;

use vstd::seq_lib::*;
use crate::dup::DupValue;

/// Number of distinct child slots: one per byte value.
pub const BYTE_VALS: usize = 256;

/// One byte-position of key space: an optional terminal value and one
/// optional child per byte value.
pub struct Node<V> {
    terminal: Option<V>,
    children: Vec<Option<usize>>,
}

/// The node at `i` has a full child array and only children that stand
/// strictly earlier in the arena.
pub closed spec fn node_ok<V>(nodes: Seq<Node<V>>, i: int) -> bool {
    &&& nodes[i].children@.len() == 256
    &&& forall|b: int|
        0 <= b < 256 ==> ((#[trigger] nodes[i].children@[b]) matches Some(c) ==> (c as int) < i)
}

/// Every node of the arena is well formed.
pub closed spec fn arena_ok<V>(nodes: Seq<Node<V>>) -> bool {
    forall|i: int| 0 <= i < nodes.len() ==> #[trigger] node_ok(nodes, i)
}

/// The binding of `key` in the subtree rooted at `i`: follow one child
/// per key byte, then read the terminal.
pub closed spec fn lookup<V>(nodes: Seq<Node<V>>, i: int, key: Seq<u8>) -> Option<V>
    decreases key.len(),
{
    if key.len() == 0 {
        nodes[i].terminal
    } else {
        match nodes[i].children@[key.first() as int] {
            None => None,
            Some(c) => lookup(nodes, c as int, key.drop_first()),
        }
    }
}

/// The binding of `key` under an optional subtree handle; no subtree
/// means no bindings at all.
pub open spec fn lookup_at<V>(nodes: Seq<Node<V>>, at: Option<usize>, key: Seq<u8>) -> Option<V> {
    match at {
        None => None,
        Some(i) => lookup(nodes, i as int, key),
    }
}

impl<V> Node<V> {
    /// The child slot for byte `b`.
    pub closed spec fn spec_child(&self, b: int) -> Option<usize> {
        self.children@[b]
    }

    /// A full child array whose entries all stay below `bound`.
    pub closed spec fn children_bounded(&self, bound: int) -> bool {
        &&& self.children@.len() == 256
        &&& forall|b: int|
            0 <= b < 256 ==> ((#[trigger] self.children@[b]) matches Some(c) ==> (c as int)
                < bound)
    }

    /// No terminal and no children.
    pub closed spec fn is_empty_node(&self) -> bool {
        &&& self.terminal is None
        &&& self.children@.len() == 256
        &&& forall|b: int| 0 <= b < 256 ==> (#[trigger] self.children@[b]) is None
    }

    /// A fresh node: no terminal, all child slots empty.
    pub fn new() -> (n: Self)
        ensures
            n.is_empty_node(),
    {
        let mut children: Vec<Option<usize>> = Vec::new();
        let mut b: usize = 0;
        while b < BYTE_VALS
            invariant
                b <= 256,
                children@.len() == b,
                forall|j: int| 0 <= j < b ==> (#[trigger] children@[j]) is None,
            decreases 256 - b,
        {
            children.push(None);
            b += 1;
        }
        Node { terminal: None, children }
    }
}

/// Growing the arena never changes what an existing subtree holds: a
/// lookup from a root inside the old prefix visits only nodes of that
/// prefix.
pub proof fn lemma_lookup_extend<V>(pre: Seq<Node<V>>, post: Seq<Node<V>>, i: int, key: Seq<u8>)
    requires
        arena_ok(pre),
        pre.is_prefix_of(post),
        0 <= i < pre.len(),
    ensures
        lookup(post, i, key) == lookup(pre, i, key),
    decreases key.len(),
{
    assert(pre[i] == post[i]);
    if key.len() > 0 {
        assert(node_ok(pre, i));
        match pre[i].children@[key.first() as int] {
            None => {},
            Some(c) => {
                lemma_lookup_extend(pre, post, c as int, key.drop_first());
            },
        }
    }
}

/// An empty node holds no bindings.
pub proof fn lemma_empty_lookup<V>(nodes: Seq<Node<V>>, i: int, key: Seq<u8>)
    requires
        0 <= i < nodes.len(),
        nodes[i].is_empty_node(),
    ensures
        lookup(nodes, i, key) is None,
{
    if key.len() > 0 {
        assert(nodes[i].children@[key.first() as int] is None);
    }
}

/// Appending an empty node keeps the arena well formed.
pub proof fn lemma_push_ok<V>(nodes: Seq<Node<V>>, n: Node<V>)
    requires
        arena_ok(nodes),
        n.is_empty_node(),
    ensures
        arena_ok(nodes.push(n)),
{
    let post = nodes.push(n);
    assert forall|i: int| 0 <= i < post.len() implies #[trigger] node_ok(post, i) by {
        if i < nodes.len() {
            assert(node_ok(nodes, i));
            assert(post[i] == nodes[i]);
        } else {
            assert(post[i] == n);
        }
    }
}

/// An arena with no nodes is well formed.
pub proof fn lemma_arena_empty<V>()
    ensures
        arena_ok(Seq::<Node<V>>::empty()),
{
}

/// Two sequences with the same head and the same tail are the same.
proof fn lemma_first_rest<A>(s: Seq<A>, t: Seq<A>)
    requires
        s.len() > 0,
        t.len() > 0,
        s.first() == t.first(),
        s.drop_first() == t.drop_first(),
    ensures
        s == t,
{
    assert(s.drop_first().len() == t.drop_first().len());
    assert(s.len() == s.drop_first().len() + 1);
    assert(t.len() == t.drop_first().len() + 1);
    assert(s.len() == t.len());
    assert forall|q: int| 0 <= q < s.len() implies s[q] == t[q] by {
        if q > 0 {
            assert(s.drop_first()[q - 1] == s.subrange(1, s.len() as int)[q - 1]);
            assert(t.drop_first()[q - 1] == t.subrange(1, t.len() as int)[q - 1]);
            assert(s[q] == s.subrange(1, s.len() as int)[q - 1]);
            assert(t[q] == t.subrange(1, t.len() as int)[q - 1]);
        }
    }
    assert(s =~= t);
}

/// A private duplicate of a published node: the terminal value is
/// duplicated, the child references are copied (the children themselves
/// stay shared).
fn copy_node<V: DupValue>(n: &Node<V>) -> (r: Node<V>)
    ensures
        r.terminal == n.terminal,
        r.children@ == n.children@,
{
    let terminal = match &n.terminal {
        None => None,
        Some(v) => Some(v.dup()),
    };
    let len = n.children.len();
    let mut children: Vec<Option<usize>> = Vec::new();
    let mut b: usize = 0;
    while b < len
        invariant
            b <= len,
            len == n.children@.len(),
            children@ =~= n.children@.subrange(0, b as int),
        decreases len - b,
    {
        children.push(n.children[b]);
        b += 1;
    }
    proof {
        assert(children@ =~= n.children@);
    }
    Node { terminal, children }
}

impl<V: DupValue> Node<V> {
    /// Copy-on-write insertion of `v` at `key[pos..]` below the subtree
    /// handle `at`.  Returns the index of the rebuilt subtree and the
    /// displaced binding.  The old subtree is left untouched; only the
    /// path to the key is duplicated.
    pub fn insert(nodes: &mut Vec<Node<V>>, at: Option<usize>, key: &[u8], pos: usize, v: V) -> (r:
        (usize, Option<V>))
        requires
            arena_ok(old(nodes)@),
            at matches Some(i) ==> (i as int) < old(nodes)@.len(),
            pos <= key@.len(),
        ensures
            arena_ok(final(nodes)@),
            old(nodes)@.is_prefix_of(final(nodes)@),
            (r.0 as int) < final(nodes)@.len(),
            forall|s: Seq<u8>|
                #[trigger] lookup(final(nodes)@, r.0 as int, s) == (if s == key@.subrange(
                    pos as int,
                    key@.len() as int,
                ) {
                    Some(v)
                } else {
                    lookup_at(old(nodes)@, at, s)
                }),
            r.1 == lookup_at(old(nodes)@, at, key@.subrange(pos as int, key@.len() as int)),
        decreases key@.len() - pos,
    {
        let ghost suffix = key@.subrange(pos as int, key@.len() as int);
        if pos == key.len() {
            let mut node = match at {
                None => Node::new(),
                Some(i) => copy_node(&nodes[i]),
            };
            let displaced = node.terminal.take();
            node.terminal = Some(v);
            proof {
                if at is Some {
                    assert(node_ok(nodes@, at.unwrap() as int));
                }
            }
            nodes.push(node);
            let idx = nodes.len() - 1;
            proof {
                let post = nodes@;
                let pre = old(nodes)@;
                assert forall|i: int| 0 <= i < post.len() implies #[trigger] node_ok(post, i) by {
                    if i < pre.len() {
                        assert(node_ok(pre, i));
                        assert(post[i] == pre[i]);
                    }
                }
                assert forall|s: Seq<u8>| #[trigger] lookup(post, idx as int, s) == (if s == suffix {
                    Some(v)
                } else {
                    lookup_at(pre, at, s)
                }) by {
                    if s.len() == 0 {
                        assert(s =~= suffix);
                    } else {
                        assert(s != suffix);
                        match post[idx as int].children@[s.first() as int] {
                            None => {
                                if at is Some {
                                    assert(lookup(pre, at.unwrap() as int, s) is None);
                                }
                            },
                            Some(c) => {
                                lemma_lookup_extend(pre, post, c as int, s.drop_first());
                            },
                        }
                    }
                }
                if at is Some {
                    assert(lookup(pre, at.unwrap() as int, suffix) == pre[at.unwrap() as int].terminal);
                }
            }
            (idx, displaced)
        } else {
            let b = key[pos];
            let child: Option<usize> = match at {
                None => None,
                Some(i) => {
                    proof {
                        assert(node_ok(nodes@, i as int));
                    }
                    nodes[i].children[b as usize]
                },
            };
            let (ci, displaced) = Node::insert(nodes, child, key, pos + 1, v);
            let ghost mid = nodes@;
            let mut node = match at {
                None => Node::new(),
                Some(i) => {
                    proof {
                        assert(node_ok(mid, i as int));
                    }
                    copy_node(&nodes[i])
                },
            };
            let ghost base_children = node.children@;
            node.children[b as usize] = Some(ci);
            nodes.push(node);
            let idx = nodes.len() - 1;
            proof {
                let pre = old(nodes)@;
                let post = nodes@;
                let ghost suffix2 = key@.subrange(pos as int + 1, key@.len() as int);
                assert(suffix.first() == b);
                assert(suffix.drop_first() =~= suffix2);
                // well-formedness of the rebuilt parent and of the arena
                assert forall|i: int| 0 <= i < post.len() implies #[trigger] node_ok(post, i) by {
                    if i < mid.len() {
                        assert(node_ok(mid, i));
                        assert(post[i] == mid[i]);
                    } else {
                        assert(post[i].children@ == base_children.update(b as int, Some(ci)));
                        if at is Some {
                            assert(node_ok(pre, at.unwrap() as int));
                            assert(base_children == pre[at.unwrap() as int].children@);
                        }
                    }
                }
                // lookup of the rebuilt subtree
                assert forall|s: Seq<u8>| #[trigger] lookup(post, idx as int, s) == (if s == suffix {
                    Some(v)
                } else {
                    lookup_at(pre, at, s)
                }) by {
                    if s.len() == 0 {
                        assert(s != suffix);
                    } else if s.first() == b {
                        assert(lookup(post, idx as int, s) == lookup(mid, ci as int, s.drop_first()))
                        by {
                            lemma_lookup_extend(mid, post, ci as int, s.drop_first());
                        }
                        if s.drop_first() == suffix2 {
                            lemma_first_rest(s, suffix);
                        } else {
                            assert(s != suffix);
                            if at is Some {
                                assert(lookup(pre, at.unwrap() as int, s) == lookup_at(
                                    pre,
                                    child,
                                    s.drop_first(),
                                ));
                            }
                        }
                    } else {
                        assert(s != suffix);
                        match post[idx as int].children@[s.first() as int] {
                            None => {
                                if at is Some {
                                    assert(lookup(pre, at.unwrap() as int, s) is None);
                                }
                            },
                            Some(c) => {
                                assert((c as int) < pre.len());
                                lemma_lookup_extend(pre, post, c as int, s.drop_first());
                                assert(lookup(pre, at.unwrap() as int, s) == lookup(
                                    pre,
                                    c as int,
                                    s.drop_first(),
                                ));
                            },
                        }
                    }
                }
                // the displaced binding
                if at is Some {
                    assert(lookup(pre, at.unwrap() as int, suffix) == lookup_at(
                        pre,
                        child,
                        suffix2,
                    ));
                }
            }
            (idx, displaced)
        }
    }

    /// Read the binding of `key[pos..]` below node `i`, following child
    /// references without mutation.
    pub fn get<'a>(nodes: &'a Vec<Node<V>>, i: usize, key: &[u8], pos: usize) -> (r: Option<&'a V>)
        requires
            arena_ok(nodes@),
            (i as int) < nodes@.len(),
            pos <= key@.len(),
        ensures
            match r {
                Some(v) => lookup(nodes@, i as int, key@.subrange(pos as int, key@.len() as int))
                    == Some(*v),
                None => lookup(nodes@, i as int, key@.subrange(pos as int, key@.len() as int))
                    is None,
            },
        decreases key@.len() - pos,
    {
        proof {
            assert(node_ok(nodes@, i as int));
        }
        if pos == key.len() {
            match &nodes[i].terminal {
                None => None,
                Some(v) => Some(v),
            }
        } else {
            let b = key[pos];
            let ghost suffix = key@.subrange(pos as int, key@.len() as int);
            proof {
                assert(suffix.first() == b);
                assert(suffix.drop_first() =~= key@.subrange(pos as int + 1, key@.len() as int));
            }
            match nodes[i].children[b as usize] {
                None => None,
                Some(c) => Node::get(nodes, c, key, pos + 1),
            }
        }
    }

    /// Copy-on-write removal of the binding at `key[pos..]` below the
    /// subtree handle `at`.  Returns the handle of the rebuilt subtree
    /// (`None` when that subtree became completely empty, so the caller
    /// can drop its reference) and the removed binding.  Sibling
    /// structure retained by a checkpoint is never touched.
    pub fn remove(nodes: &mut Vec<Node<V>>, at: Option<usize>, key: &[u8], pos: usize) -> (r: (
        Option<usize>,
        Option<V>,
    ))
        requires
            arena_ok(old(nodes)@),
            at matches Some(i) ==> (i as int) < old(nodes)@.len(),
            pos <= key@.len(),
        ensures
            arena_ok(final(nodes)@),
            old(nodes)@.is_prefix_of(final(nodes)@),
            r.0 matches Some(j) ==> (j as int) < final(nodes)@.len(),
            forall|s: Seq<u8>|
                #[trigger] lookup_at(final(nodes)@, r.0, s) == (if s == key@.subrange(
                    pos as int,
                    key@.len() as int,
                ) {
                    None::<V>
                } else {
                    lookup_at(old(nodes)@, at, s)
                }),
            r.1 == lookup_at(old(nodes)@, at, key@.subrange(pos as int, key@.len() as int)),
        decreases key@.len() - pos,
    {
        let ghost suffix = key@.subrange(pos as int, key@.len() as int);
        let i = match at {
            None => {
                return (None, None);
            },
            Some(i) => i,
        };
        proof {
            assert(node_ok(nodes@, i as int));
        }
        if pos == key.len() {
            if nodes[i].terminal.is_some() {
                let mut node = copy_node(&nodes[i]);
                let displaced = node.terminal.take();
                if has_no_children(&node) {
                    proof {
                        let pre = old(nodes)@;
                        assert forall|s: Seq<u8>| #[trigger] lookup_at(pre, at, s) == (if s
                            == suffix {
                            lookup(pre, i as int, suffix)
                        } else {
                            None::<V>
                        }) by {
                            if s.len() > 0 {
                                assert(node.children@[s.first() as int] is None);
                                assert(pre[i as int].children@[s.first() as int] is None);
                            } else {
                                assert(s =~= suffix);
                            }
                        }
                    }
                    (None, displaced)
                } else {
                    nodes.push(node);
                    let idx = nodes.len() - 1;
                    proof {
                        let pre = old(nodes)@;
                        let post = nodes@;
                        assert forall|ii: int| 0 <= ii < post.len() implies #[trigger] node_ok(
                            post,
                            ii,
                        ) by {
                            if ii < pre.len() {
                                assert(node_ok(pre, ii));
                                assert(post[ii] == pre[ii]);
                            } else {
                                assert(post[ii].children@ == pre[i as int].children@);
                            }
                        }
                        assert forall|s: Seq<u8>| #[trigger] lookup(post, idx as int, s) == (if s
                            == suffix {
                            None::<V>
                        } else {
                            lookup_at(pre, at, s)
                        }) by {
                            if s.len() == 0 {
                                assert(s =~= suffix);
                            } else {
                                match post[idx as int].children@[s.first() as int] {
                                    None => {
                                        assert(lookup(pre, i as int, s) is None);
                                    },
                                    Some(c) => {
                                        lemma_lookup_extend(pre, post, c as int, s.drop_first());
                                    },
                                }
                            }
                        }
                    }
                    (Some(idx), displaced)
                }
            } else {
                (Some(i), None)
            }
        } else {
            let b = key[pos];
            let ghost suffix2 = key@.subrange(pos as int + 1, key@.len() as int);
            proof {
                assert(suffix.first() == b);
                assert(suffix.drop_first() =~= suffix2);
            }
            let child: Option<usize> = nodes[i].children[b as usize];
            if child.is_none() {
                proof {
                    assert(lookup(old(nodes)@, i as int, suffix) is None);
                    assert forall|s: Seq<u8>| s == suffix implies #[trigger] lookup_at(
                        old(nodes)@,
                        at,
                        s,
                    ) is None by {}
                }
                return (Some(i), None);
            }
            let (nc, displaced) = Node::remove(nodes, child, key, pos + 1);
            let ghost mid = nodes@;
            proof {
                assert(node_ok(mid, i as int));
            }
            let mut node = copy_node(&nodes[i]);
            let ghost base_children = node.children@;
            node.children[b as usize] = nc;
            let became_empty = node.terminal.is_none() && has_no_children(&node);
            proof {
                let pre = old(nodes)@;
                // what the rebuilt parent would hold, whether or not it is pushed
                assert(node.children@ == base_children.update(b as int, nc));
                assert(base_children == pre[i as int].children@);
            }
            if became_empty {
                proof {
                    let pre = old(nodes)@;
                    assert(nc is None);
                    assert(pre[i as int] == mid[i as int]);
                    assert forall|s: Seq<u8>| #[trigger] lookup_at(mid, None::<usize>, s) == (if s
                        == suffix {
                        None::<V>
                    } else {
                        lookup_at(pre, at, s)
                    }) by {
                        if s != suffix {
                            if s.len() == 0 {
                                assert(node.terminal is None);
                                assert(lookup(pre, i as int, s) == pre[i as int].terminal);
                            } else if s.first() == b {
                                assert(lookup(pre, i as int, s) == lookup_at(
                                    pre,
                                    child,
                                    s.drop_first(),
                                ));
                                assert(s.drop_first() != suffix2) by {
                                    if s.drop_first() == suffix2 {
                                        lemma_first_rest(s, suffix);
                                    }
                                }
                                assert(lookup_at(mid, nc, s.drop_first()) == lookup_at(
                                    pre,
                                    child,
                                    s.drop_first(),
                                ));
                            } else {
                                assert(node.children@[s.first() as int] is None);
                                assert(node.children@[s.first() as int] == base_children[s.first() as int]);
                                assert(pre[i as int].children@[s.first() as int] is None);
                            }
                        }
                    }
                }
                (None, displaced)
            } else {
                nodes.push(node);
                let idx = nodes.len() - 1;
                proof {
                    let pre = old(nodes)@;
                    let post = nodes@;
                    assert(pre[i as int] == mid[i as int]);
                    assert(post[idx as int].terminal == pre[i as int].terminal);
                    assert forall|ii: int| 0 <= ii < post.len() implies #[trigger] node_ok(
                        post,
                        ii,
                    ) by {
                        if ii < mid.len() {
                            assert(node_ok(mid, ii));
                            assert(post[ii] == mid[ii]);
                        } else {
                            assert(post[ii].children@ == base_children.update(b as int, nc));
                            assert(node_ok(pre, i as int));
                        }
                    }
                    assert forall|s: Seq<u8>| #[trigger] lookup(post, idx as int, s) == (if s
                        == suffix {
                        None::<V>
                    } else {
                        lookup_at(pre, at, s)
                    }) by {
                        if s.len() == 0 {
                            assert(s != suffix);
                        } else if s.first() == b {
                            assert(lookup_at(mid, nc, s.drop_first()) == (if s.drop_first()
                                == suffix2 {
                                None::<V>
                            } else {
                                lookup_at(pre, child, s.drop_first())
                            }));
                            assert(lookup_at(post, nc, s.drop_first()) == lookup_at(
                                mid,
                                nc,
                                s.drop_first(),
                            )) by {
                                if nc is Some {
                                    lemma_lookup_extend(mid, post, nc.unwrap() as int, s.drop_first());
                                }
                            }
                            assert(lookup(post, idx as int, s) == lookup_at(
                                post,
                                nc,
                                s.drop_first(),
                            ));
                            if s.drop_first() == suffix2 {
                                lemma_first_rest(s, suffix);
                            } else {
                                assert(s != suffix);
                                assert(lookup(pre, i as int, s) == lookup_at(
                                    pre,
                                    child,
                                    s.drop_first(),
                                ));
                            }
                        } else {
                            assert(s != suffix);
                            match post[idx as int].children@[s.first() as int] {
                                None => {
                                    assert(lookup(pre, i as int, s) is None);
                                },
                                Some(c) => {
                                    assert((c as int) < pre.len());
                                    lemma_lookup_extend(pre, post, c as int, s.drop_first());
                                    assert(lookup(pre, i as int, s) == lookup(
                                        pre,
                                        c as int,
                                        s.drop_first(),
                                    ));
                                },
                            }
                        }
                    }
                }
                (Some(idx), displaced)
            }
        }
    }
}

/// Node `c` hangs off a child slot of node `j`.
pub closed spec fn is_child<V>(nodes: Seq<Node<V>>, j: int, c: int) -> bool {
    exists|b: int|
        0 <= b < 256 && ((#[trigger] nodes[j].children@[b]) matches Some(cc) && cc as int == c)
}

/// Node `j` reaches node `i`: either they are the same node, or a child
/// of `j` reaches `i`.  Children stand strictly earlier in the arena, so
/// the walk descends and terminates.
pub closed spec fn reaches<V>(nodes: Seq<Node<V>>, j: int, i: int) -> bool
    decreases j,
{
    j == i || (exists|c: int| 0 <= c < j && #[trigger] is_child(nodes, j, c) && reaches(nodes, c, i))
}

/// Some retained root reaches node `i`.
pub open spec fn root_reachable<V>(nodes: Seq<Node<V>>, roots: Seq<usize>, i: int) -> bool {
    exists|k: int| 0 <= k < roots.len() && reaches(nodes, #[trigger] roots[k] as int, i)
}

/// How many of the first `upto` arena nodes some retained root reaches.
pub closed spec fn reach_count_upto<V>(nodes: Seq<Node<V>>, roots: Seq<usize>, upto: int) -> int
    decreases upto,
{
    if upto <= 0 {
        0
    } else {
        reach_count_upto(nodes, roots, upto - 1) + if root_reachable(nodes, roots, upto - 1) {
            1int
        } else {
            0int
        }
    }
}

/// How many arena nodes some retained root reaches.
pub open spec fn reach_count<V>(nodes: Seq<Node<V>>, roots: Seq<usize>) -> int {
    reach_count_upto(nodes, roots, nodes.len() as int)
}

/// Whatever reaches a node also reaches each of that node's children.
proof fn lemma_reaches_child<V>(nodes: Seq<Node<V>>, r: int, j: int, c: int)
    requires
        reaches(nodes, r, j),
        0 <= c < j,
        is_child(nodes, j, c),
    ensures
        reaches(nodes, r, c),
    decreases r,
{
    if r == j {
        assert(reaches(nodes, c, c));
    } else {
        let c2 = choose|c2: int|
            0 <= c2 < r && #[trigger] is_child(nodes, r, c2) && reaches(nodes, c2, j);
        lemma_reaches_child(nodes, c2, j, c);
    }
}

/// Marks that hold the start of a walk and are closed under children
/// hold its end.
proof fn lemma_closure_reaches<V>(nodes: Seq<Node<V>>, reached: Seq<bool>, j: int, i: int)
    requires
        reached.len() == nodes.len(),
        0 <= j < nodes.len(),
        reached[j],
        forall|m: int|
            0 <= m < nodes.len() && #[trigger] reached[m] ==> children_reached(nodes, m, reached),
        reaches(nodes, j, i),
    ensures
        0 <= i < nodes.len() && reached[i],
    decreases j,
{
    if j != i {
        let c = choose|c: int|
            0 <= c < j && #[trigger] is_child(nodes, j, c) && reaches(nodes, c, i);
        assert(children_reached(nodes, j, reached));
        let b = choose|b: int|
            0 <= b < 256 && ((#[trigger] nodes[j].children@[b]) matches Some(cc) && cc as int
                == c);
        assert(reached[c]);
        lemma_closure_reaches(nodes, reached, c, i);
    }
}

/// On marks that agree pointwise with reachability, counting the marks
/// counts the reachable nodes.
proof fn lemma_count_matches<V>(
    nodes: Seq<Node<V>>,
    roots: Seq<usize>,
    s: Seq<bool>,
    upto: int,
)
    requires
        s.len() == nodes.len(),
        0 <= upto <= s.len(),
        forall|i: int| 0 <= i < s.len() ==> ((#[trigger] s[i]) <==> root_reachable(nodes, roots, i)),
    ensures
        count_marked(s.subrange(0, upto)) == reach_count_upto(nodes, roots, upto),
    decreases upto,
{
    if upto > 0 {
        lemma_count_matches(nodes, roots, s, upto - 1);
        assert(s.subrange(0, upto).drop_last() =~= s.subrange(0, upto - 1));
        assert(s.subrange(0, upto).last() == s[upto - 1]);
    }
}

/// How many entries of the mark vector are set.
pub closed spec fn count_marked(s: Seq<bool>) -> int
    decreases s.len(),
{
    if s.len() == 0 {
        0
    } else {
        count_marked(s.drop_last()) + if s.last() {
            1int
        } else {
            0int
        }
    }
}

proof fn lemma_count_marked_update(s: Seq<bool>, i: int)
    requires
        0 <= i < s.len(),
        !s[i],
    ensures
        count_marked(s.update(i, true)) == count_marked(s) + 1,
    decreases s.len(),
{
    let t = s.update(i, true);
    if i == s.len() - 1 {
        assert(t.drop_last() =~= s.drop_last());
    } else {
        assert(t.last() == s.last());
        assert(t.drop_last() =~= s.drop_last().update(i, true));
        lemma_count_marked_update(s.drop_last(), i);
    }
}

proof fn lemma_count_marked_le(s: Seq<bool>)
    ensures
        0 <= count_marked(s) <= s.len(),
    decreases s.len(),
{
    if s.len() > 0 {
        lemma_count_marked_le(s.drop_last());
    }
}

/// Every child of the node at `i` is marked.
pub closed spec fn children_reached<V>(nodes: Seq<Node<V>>, i: int, reached: Seq<bool>) -> bool {
    forall|b: int|
        0 <= b < 256 ==> ((#[trigger] nodes[i].children@[b]) matches Some(c) ==> reached[c as int])
}

/// The node at `nj` of the compacted arena is the image of the node at
/// `j` of the old one, with every child reference rebased through
/// `remap`.
pub closed spec fn node_mapped<V>(
    olds: Seq<Node<V>>,
    j: int,
    news: Seq<Node<V>>,
    nj: int,
    remap: Seq<Option<usize>>,
) -> bool {
    &&& news[nj].terminal == olds[j].terminal
    &&& news[nj].children@.len() == 256
    &&& forall|b: int|
        0 <= b < 256 ==> #[trigger] news[nj].children@[b] == (match olds[j].children@[b] {
            None => None::<usize>,
            Some(c) => remap[c as int],
        })
}

/// The compacted arena carries an image of every marked node, the marks
/// are closed under children, and `remap` sends exactly the marked
/// indices somewhere.
pub closed spec fn compacted<V>(
    olds: Seq<Node<V>>,
    news: Seq<Node<V>>,
    remap: Seq<Option<usize>>,
    reached: Seq<bool>,
) -> bool {
    &&& remap.len() == olds.len()
    &&& reached.len() == olds.len()
    &&& forall|j: int| 0 <= j < olds.len() ==> ((#[trigger] remap[j]) is Some <==> reached[j])
    &&& forall|j: int|
        0 <= j < olds.len() && reached[j] ==> ((#[trigger] remap[j]).unwrap() as int) < news.len()
            && node_mapped(olds, j, news, remap[j].unwrap() as int, remap)
    &&& forall|j: int|
        0 <= j < olds.len() && #[trigger] reached[j] ==> children_reached(olds, j, reached)
    &&& forall|a: int, b: int|
        0 <= a < b < olds.len() && reached[a] && reached[b] ==> ((#[trigger] remap[a]).unwrap()
            as int) < ((#[trigger] remap[b]).unwrap() as int)
}

/// Compaction preserves every lookup below a marked node.
pub proof fn lemma_compact_lookup<V>(
    olds: Seq<Node<V>>,
    news: Seq<Node<V>>,
    remap: Seq<Option<usize>>,
    reached: Seq<bool>,
    j: int,
    s: Seq<u8>,
)
    requires
        arena_ok(olds),
        compacted(olds, news, remap, reached),
        0 <= j < olds.len(),
        reached[j],
    ensures
        lookup(news, remap[j].unwrap() as int, s) == lookup(olds, j, s),
    decreases s.len(),
{
    let nj = remap[j].unwrap() as int;
    if s.len() > 0 {
        assert(node_ok(olds, j));
        assert(children_reached(olds, j, reached));
        match olds[j].children@[s.first() as int] {
            None => {
                assert(news[nj].children@[s.first() as int] is None);
            },
            Some(c) => {
                assert(reached[c as int]);
                assert(news[nj].children@[s.first() as int] == remap[c as int]);
                lemma_compact_lookup(olds, news, remap, reached, c as int, s.drop_first());
            },
        }
    }
}

/// Image index `q` of the compacted arena has a marked source below
/// `upto` that `remap` sends onto it.
spec fn has_source(remap: Seq<Option<usize>>, reached: Seq<bool>, upto: int, q: int) -> bool {
    exists|i2: int| 0 <= i2 < upto && reached[i2] && #[trigger] remap[i2] == Some(q as usize)
}

/// Compaction preserves reachability: the image of a marked node
/// reaches the image of whatever that node reached.
proof fn lemma_compact_reaches<V>(
    olds: Seq<Node<V>>,
    news: Seq<Node<V>>,
    remap: Seq<Option<usize>>,
    reached: Seq<bool>,
    j: int,
    i: int,
)
    requires
        arena_ok(olds),
        compacted(olds, news, remap, reached),
        0 <= j < olds.len(),
        reached[j],
        reaches(olds, j, i),
    ensures
        0 <= i < olds.len(),
        reached[i],
        reaches(news, remap[j].unwrap() as int, remap[i].unwrap() as int),
    decreases j,
{
    if j == i {
        assert(reaches(news, remap[j].unwrap() as int, remap[j].unwrap() as int));
    } else {
        let c = choose|c: int|
            0 <= c < j && #[trigger] is_child(olds, j, c) && reaches(olds, c, i);
        let b = choose|b: int|
            0 <= b < 256 && ((#[trigger] olds[j].children@[b]) matches Some(cc) && cc as int
                == c);
        assert(children_reached(olds, j, reached));
        assert(reached[c]);
        lemma_compact_reaches(olds, news, remap, reached, c, i);
        let nj = remap[j].unwrap() as int;
        let nc = remap[c].unwrap() as int;
        assert(node_mapped(olds, j, news, nj, remap));
        assert(news[nj].children@[b] == remap[c]);
        assert(is_child(news, nj, nc));
        assert(0 <= nc < nj);
        assert(reaches(news, nj, remap[i].unwrap() as int));
    }
}

impl<V> Node<V> {
    /// One worklist step of the reclamation sweep: visit every child
    /// slot of this node, mark each not-yet-marked child, and enqueue it
    /// so that its own references are visited in turn.  Stack depth
    /// stays constant no matter how deep the tree is.
    pub fn drop_references(&self, reached: &mut Vec<bool>, work: &mut VecDeque<usize>)
        requires
            self.children_bounded(old(reached)@.len() as int),
        ensures
            final(reached)@.len() == old(reached)@.len(),
            forall|j: int|
                0 <= j < old(reached)@.len() && old(reached)@[j] ==> final(reached)@[j],
            final(work)@.len() >= old(work)@.len(),
            forall|k: int| 0 <= k < old(work)@.len() ==> final(work)@[k] == old(work)@[k],
            forall|k: int|
                old(work)@.len() <= k < final(work)@.len() ==> (final(work)@[k] as int)
                    < final(reached)@.len() && final(reached)@[final(work)@[k] as int],
            forall|j: int|
                0 <= j < old(reached)@.len() && !old(reached)@[j] && final(reached)@[j]
                    ==> final(work)@.contains(j as usize),
            forall|j: int|
                0 <= j < old(reached)@.len() && !old(reached)@[j] && final(reached)@[j]
                    ==> exists|b: int|
                    0 <= b < 256 && ((#[trigger] self.spec_child(b)) matches Some(cc)
                        && cc as int == j),
            forall|b: int|
                0 <= b < 256 ==> ((#[trigger] self.spec_child(b)) matches Some(c)
                    ==> final(reached)@[c as int]),
            count_marked(final(reached)@) - count_marked(old(reached)@) == final(work)@.len()
                - old(work)@.len(),
    {
        let mut b: usize = 0;
        while b < BYTE_VALS
            invariant
                b <= 256,
                self.children@.len() == 256,
                forall|bb: int|
                    0 <= bb < 256 ==> ((#[trigger] self.children@[bb]) matches Some(c) ==> (
                    c as int) < old(reached)@.len()),
                reached@.len() == old(reached)@.len(),
                forall|j: int| 0 <= j < old(reached)@.len() && old(reached)@[j] ==> reached@[j],
                work@.len() >= old(work)@.len(),
                forall|k: int| 0 <= k < old(work)@.len() ==> work@[k] == old(work)@[k],
                forall|k: int|
                    old(work)@.len() <= k < work@.len() ==> (work@[k] as int) < reached@.len()
                        && reached@[work@[k] as int],
                forall|j: int|
                    0 <= j < old(reached)@.len() && !old(reached)@[j] && reached@[j]
                        ==> work@.contains(j as usize),
                forall|j: int|
                    0 <= j < old(reached)@.len() && !old(reached)@[j] && reached@[j]
                        ==> exists|bb: int|
                        0 <= bb < 256 && ((#[trigger] self.spec_child(bb)) matches Some(cc)
                            && cc as int == j),
                forall|bb: int|
                    0 <= bb < b ==> ((#[trigger] self.children@[bb]) matches Some(c)
                        ==> reached@[c as int]),
                count_marked(reached@) - count_marked(old(reached)@) == work@.len()
                    - old(work)@.len(),
            decreases 256 - b,
        {
            match self.children[b] {
                None => {},
                Some(c) => {
                    if !reached[c] {
                        let ghost r_pre = reached@;
                        let ghost w_pre = work@;
                        reached[c] = true;
                        work.push_back(c);
                        proof {
                            lemma_count_marked_update(r_pre, c as int);
                            assert(self.spec_child(b as int) == Some(c));
                            assert forall|j: int|
                                0 <= j < old(reached)@.len() && !old(reached)@[j] && reached@[j]
                                    implies work@.contains(j as usize) by {
                                if j == c as int {
                                    assert(work@[work@.len() - 1] == c);
                                } else {
                                    assert(r_pre[j]);
                                    let p = choose|p: int|
                                        0 <= p < w_pre.len() && w_pre[p] == j as usize;
                                    assert(work@[p] == j as usize);
                                }
                            }
                        }
                    }
                },
            }
            b += 1;
        }
    }
}

/// Reclaim every node that no retained root can reach, without ever
/// recursing once per tree level.
///
/// A FIFO worklist first marks everything reachable from `roots`
/// (seeding the roots, then draining the list one node at a time via
/// [`Node::drop_references`]); the arena is then compacted to exactly
/// the marked nodes, and each root is rebased onto its image.  Every
/// lookup below a retained root reads the same as before.
pub fn vacuum_clean<V: DupValue>(nodes: &mut Vec<Node<V>>, roots: &mut Vec<usize>)
    requires
        arena_ok(old(nodes)@),
        forall|k: int|
            0 <= k < old(roots)@.len() ==> (#[trigger] old(roots)@[k] as int) < old(nodes)@.len(),
    ensures
        arena_ok(final(nodes)@),
        final(nodes)@.len() <= old(nodes)@.len(),
        final(roots)@.len() == old(roots)@.len(),
        forall|k: int|
            0 <= k < final(roots)@.len() ==> (#[trigger] final(roots)@[k] as int)
                < final(nodes)@.len(),
        forall|k: int, s: Seq<u8>|
            0 <= k < final(roots)@.len() ==> #[trigger] lookup(
                final(nodes)@,
                final(roots)@[k] as int,
                s,
            ) == lookup(old(nodes)@, old(roots)@[k] as int, s),
        final(nodes)@.len() == reach_count(old(nodes)@, old(roots)@),
        forall|q: int|
            0 <= q < final(nodes)@.len() ==> root_reachable(final(nodes)@, final(roots)@, q),
{
    let ghost olds = old(nodes)@;
    let ghost orig_roots = old(roots)@;
    let n = nodes.len();

    // Phase one: mark everything reachable from the retained roots.
    let mut reached: Vec<bool> = Vec::new();
    let mut t: usize = 0;
    while t < n
        invariant
            t <= n,
            reached@.len() == t,
            forall|j: int| 0 <= j < t ==> !(#[trigger] reached@[j]),
        decreases n - t,
    {
        reached.push(false);
        t += 1;
    }

    let mut work: VecDeque<usize> = VecDeque::new();
    let mut k: usize = 0;
    while k < roots.len()
        invariant
            k <= roots@.len(),
            roots@ == orig_roots,
            n == nodes@.len(),
            forall|kk: int| 0 <= kk < orig_roots.len() ==> (#[trigger] orig_roots[kk] as int) < n,
            reached@.len() == n,
            forall|p: int|
                0 <= p < work@.len() ==> (#[trigger] work@[p] as int) < n
                    && reached@[work@[p] as int],
            forall|j: int| 0 <= j < n && #[trigger] reached@[j] ==> work@.contains(j as usize),
            forall|j: int|
                0 <= j < n && #[trigger] reached@[j] ==> root_reachable(nodes@, orig_roots, j),
            forall|kk: int| 0 <= kk < k ==> reached@[#[trigger] orig_roots[kk] as int],
        decreases roots@.len() - k,
    {
        let r = roots[k];
        if !reached[r] {
            let ghost w_pre = work@;
            reached[r] = true;
            work.push_back(r);
            proof {
                assert(reaches(nodes@, orig_roots[k as int] as int, r as int));
                assert(root_reachable(nodes@, orig_roots, r as int));
                assert forall|j: int| 0 <= j < n && #[trigger] reached@[j] implies work@.contains(
                    j as usize,
                ) by {
                    if j == r as int {
                        assert(work@[work@.len() - 1] == r);
                    } else {
                        let p = choose|p: int| 0 <= p < w_pre.len() && w_pre[p] == j as usize;
                        assert(work@[p] == j as usize);
                    }
                }
            }
        }
        k += 1;
    }

    proof {
        lemma_count_marked_le(reached@);
    }
    loop
        invariant
            nodes@ == olds,
            arena_ok(nodes@),
            n == nodes@.len(),
            roots@ == orig_roots,
            forall|kk: int| 0 <= kk < orig_roots.len() ==> (#[trigger] orig_roots[kk] as int) < n,
            reached@.len() == n,
            forall|kk: int|
                0 <= kk < orig_roots.len() ==> reached@[#[trigger] orig_roots[kk] as int],
            forall|p: int|
                0 <= p < work@.len() ==> (#[trigger] work@[p] as int) < n
                    && reached@[work@[p] as int],
            forall|j: int|
                0 <= j < n && #[trigger] reached@[j] ==> work@.contains(j as usize)
                    || children_reached(nodes@, j, reached@),
            forall|j: int|
                0 <= j < n && #[trigger] reached@[j] ==> root_reachable(nodes@, orig_roots, j),
            0 <= count_marked(reached@) <= n,
        ensures
            nodes@ == olds,
            roots@ == orig_roots,
            reached@.len() == n,
            forall|kk: int|
                0 <= kk < orig_roots.len() ==> reached@[#[trigger] orig_roots[kk] as int],
            forall|j: int|
                0 <= j < n && #[trigger] reached@[j] ==> children_reached(nodes@, j, reached@),
            forall|j: int|
                0 <= j < n && #[trigger] reached@[j] ==> root_reachable(nodes@, orig_roots, j),
        decreases n - count_marked(reached@) + work@.len(),
    {
        let ghost w_pre = work@;
        let ghost r_pre = reached@;
        let next = work.pop_front();
        match next {
            None => {
                break ;
            },
            Some(i) => {
                let ghost w0 = work@;
                proof {
                    assert(node_ok(nodes@, i as int));
                }
                nodes[i].drop_references(&mut reached, &mut work);
                proof {
                    lemma_count_marked_le(reached@);
                    assert(w0 =~= w_pre.subrange(1, w_pre.len() as int));
                    assert forall|j: int| 0 <= j < n && #[trigger] reached@[j] implies
                        root_reachable(nodes@, orig_roots, j) by {
                        if !r_pre[j] {
                            // newly marked: a child of the processed node
                            let b = choose|b: int|
                                0 <= b < 256 && ((#[trigger] nodes@[i as int].spec_child(
                                    b,
                                )) matches Some(cc) && cc as int == j);
                            assert(node_ok(nodes@, i as int));
                            assert(j < i as int);
                            assert(is_child(nodes@, i as int, j));
                            assert(r_pre[i as int]);
                            assert(root_reachable(nodes@, orig_roots, i as int));
                            let kk = choose|kk: int|
                                0 <= kk < orig_roots.len() && reaches(
                                    nodes@,
                                    #[trigger] orig_roots[kk] as int,
                                    i as int,
                                );
                            lemma_reaches_child(nodes@, orig_roots[kk] as int, i as int, j);
                            assert(root_reachable(nodes@, orig_roots, j));
                        }
                    }
                    assert forall|p: int| 0 <= p < work@.len() implies (#[trigger] work@[p] as int)
                        < n && reached@[work@[p] as int] by {
                        if p < w0.len() {
                            assert(work@[p] == w0[p]);
                            assert(w0[p] == w_pre[p + 1]);
                            assert(r_pre[w0[p] as int]);
                        }
                    }
                    assert forall|j: int| 0 <= j < n && #[trigger] reached@[j] implies
                        work@.contains(j as usize) || children_reached(nodes@, j, reached@) by {
                        if r_pre[j] {
                            if w_pre.contains(j as usize) {
                                if j == i as int {
                                    assert forall|bb: int| 0 <= bb < 256 implies ((
                                    #[trigger] nodes@[j].children@[bb]) matches Some(c)
                                        ==> reached@[c as int]) by {
                                        assert(nodes@[j].spec_child(bb) == nodes@[j].children@[bb]);
                                    }
                                    assert(children_reached(nodes@, j, reached@));
                                } else {
                                    let p = choose|p: int|
                                        0 <= p < w_pre.len() && w_pre[p] == j as usize;
                                    assert(p > 0);
                                    assert(w0[p - 1] == w_pre[p]);
                                    assert(work@[p - 1] == w0[p - 1]);
                                    assert(work@.contains(j as usize)) by {
                                        assert(work@[p - 1] == j as usize);
                                    }
                                }
                            } else {
                                assert(children_reached(nodes@, j, r_pre));
                                assert forall|bb: int| 0 <= bb < 256 implies ((
                                #[trigger] nodes@[j].children@[bb]) matches Some(c)
                                    ==> reached@[c as int]) by {
                                    match nodes@[j].children@[bb] {
                                        None => {},
                                        Some(c) => {
                                            assert(node_ok(nodes@, j));
                                            assert((c as int) < n);
                                            assert(r_pre[c as int]);
                                        },
                                    }
                                }
                                assert(children_reached(nodes@, j, reached@));
                            }
                        }
                    }
                }
            },
        }
    }

    proof {
        // the marks agree exactly with reachability from the roots
        assert forall|q: int| 0 <= q < n implies ((#[trigger] reached@[q]) <==> root_reachable(
            nodes@,
            orig_roots,
            q,
        )) by {
            if root_reachable(nodes@, orig_roots, q) {
                let kk = choose|kk: int|
                    0 <= kk < orig_roots.len() && reaches(
                        nodes@,
                        #[trigger] orig_roots[kk] as int,
                        q,
                    );
                lemma_closure_reaches(nodes@, reached@, orig_roots[kk] as int, q);
            }
        }
    }

    // Phase two: compact the arena to the marked nodes.
    let mut news: Vec<Node<V>> = Vec::new();
    let mut remap: Vec<Option<usize>> = Vec::new();
    let mut i: usize = 0;
    while i < n
        invariant
            nodes@ == olds,
            arena_ok(nodes@),
            n == nodes@.len(),
            roots@ == orig_roots,
            forall|kk: int| 0 <= kk < orig_roots.len() ==> (#[trigger] orig_roots[kk] as int) < n,
            reached@.len() == n,
            forall|kk: int|
                0 <= kk < orig_roots.len() ==> reached@[#[trigger] orig_roots[kk] as int],
            forall|j: int|
                0 <= j < n && #[trigger] reached@[j] ==> children_reached(nodes@, j, reached@),
            i <= n,
            remap@.len() == i,
            forall|j: int| 0 <= j < i ==> ((#[trigger] remap@[j]) is Some <==> reached@[j]),
            forall|j: int|
                0 <= j < i && reached@[j] ==> ((#[trigger] remap@[j]).unwrap() as int)
                    < news@.len() && node_mapped(nodes@, j, news@, remap@[j].unwrap() as int, remap@),
            arena_ok(news@),
            news@.len() == count_marked(reached@.subrange(0, i as int)),
            forall|q: int| 0 <= q < n ==> ((#[trigger] reached@[q]) <==> root_reachable(nodes@, orig_roots, q)),
            forall|a: int, b2: int|
                0 <= a < b2 < i && reached@[a] && reached@[b2] ==> ((#[trigger] remap@[a]).unwrap()
                    as int) < ((#[trigger] remap@[b2]).unwrap() as int),
            forall|q: int|
                0 <= q < news@.len() ==> #[trigger] has_source(remap@, reached@, i as int, q),
        decreases n - i,
    {
        if reached[i] {
            proof {
                assert(node_ok(nodes@, i as int));
                assert(children_reached(nodes@, i as int, reached@));
            }
            let terminal = match &nodes[i].terminal {
                None => None,
                Some(v) => Some(v.dup()),
            };
            let mut kids: Vec<Option<usize>> = Vec::new();
            let mut b: usize = 0;
            while b < BYTE_VALS
                invariant
                    nodes@ == olds,
                    n == nodes@.len(),
                    i < n,
                    node_ok(nodes@, i as int),
                    children_reached(nodes@, i as int, reached@),
                    reached@.len() == n,
                    remap@.len() == i,
                    forall|j: int| 0 <= j < i ==> ((#[trigger] remap@[j]) is Some <==> reached@[j]),
                    forall|j: int|
                        0 <= j < i && reached@[j] ==> ((#[trigger] remap@[j]).unwrap() as int)
                            < news@.len(),
                    b <= 256,
                    kids@.len() == b,
                    forall|bb: int|
                        0 <= bb < b ==> #[trigger] kids@[bb] == (match nodes@[i as int].children@[bb] {
                            None => None::<usize>,
                            Some(c) => remap@[c as int],
                        }),
                    forall|bb: int|
                        0 <= bb < b ==> ((#[trigger] kids@[bb]) matches Some(nc) ==> (nc as int)
                            < news@.len()),
                decreases 256 - b,
            {
                match nodes[i].children[b] {
                    None => {
                        kids.push(None);
                    },
                    Some(c) => {
                        proof {
                            assert((c as int) < i);
                            assert(reached@[c as int]);
                        }
                        kids.push(remap[c]);
                    },
                }
                b += 1;
            }
            let ghost news_pre = news@;
            let ghost remap_pre = remap@;
            news.push(Node { terminal, children: kids });
            remap.push(Some(news.len() - 1));
            proof {
                let nj = news@.len() - 1;
                assert(news@[nj].terminal == nodes@[i as int].terminal);
                assert forall|j: int|
                    0 <= j < i && reached@[j] implies ((#[trigger] remap@[j]).unwrap() as int)
                        < news@.len() && node_mapped(
                        nodes@,
                        j,
                        news@,
                        remap@[j].unwrap() as int,
                        remap@,
                    ) by {
                    assert(remap@[j] == remap_pre[j]);
                    assert(node_mapped(nodes@, j, news_pre, remap_pre[j].unwrap() as int, remap_pre));
                    assert(node_ok(nodes@, j));
                    let oj = remap_pre[j].unwrap() as int;
                    assert(news@[oj] == news_pre[oj]);
                    assert forall|bb: int|
                        0 <= bb < 256 implies #[trigger] news@[oj].children@[bb] == (
                        match nodes@[j].children@[bb] {
                            None => None::<usize>,
                            Some(c) => remap@[c as int],
                        }) by {
                        assert(news_pre[oj].children@[bb] == (match nodes@[j].children@[bb] {
                            None => None::<usize>,
                            Some(c) => remap_pre[c as int],
                        }));
                        match nodes@[j].children@[bb] {
                            None => {},
                            Some(c) => {
                                assert((c as int) < j);
                                assert(remap@[c as int] == remap_pre[c as int]);
                            },
                        }
                    }
                }
                assert(node_ok(nodes@, i as int));
                assert forall|bb: int|
                    0 <= bb < 256 implies #[trigger] news@[nj].children@[bb] == (
                    match nodes@[i as int].children@[bb] {
                        None => None::<usize>,
                        Some(c) => remap@[c as int],
                    }) by {
                    assert(news@[nj].children@[bb] == kids@[bb]);
                    match nodes@[i as int].children@[bb] {
                        None => {},
                        Some(c) => {
                            assert((c as int) < i);
                            assert(remap@[c as int] == remap_pre[c as int]);
                        },
                    }
                }
                assert(node_mapped(nodes@, i as int, news@, nj, remap@));
                assert forall|j: int| 0 <= j < news@.len() implies #[trigger] node_ok(news@, j) by {
                    if j < news_pre.len() {
                        assert(node_ok(news_pre, j));
                        assert(news@[j] == news_pre[j]);
                    } else {
                        assert(j == nj);
                        assert(news@[j].children@ == kids@);
                    }
                }
                // one more node for one more mark
                assert(reached@.subrange(0, i as int + 1).drop_last() =~= reached@.subrange(
                    0,
                    i as int,
                ));
                assert(reached@.subrange(0, i as int + 1).last() == reached@[i as int]);
                // image order follows arena order
                assert forall|a: int, b2: int|
                    0 <= a < b2 < i + 1 && reached@[a] && reached@[b2] implies ((
                #[trigger] remap@[a]).unwrap() as int) < ((#[trigger] remap@[b2]).unwrap()
                    as int) by {
                    assert(remap@[a] == remap_pre[a]);
                    if b2 == i as int {
                        assert(remap@[b2] == Some((news@.len() - 1) as usize));
                        assert((remap_pre[a].unwrap() as int) < news_pre.len());
                    } else {
                        assert(remap@[b2] == remap_pre[b2]);
                    }
                }
                // every image has a marked source
                assert forall|q: int| 0 <= q < news@.len() implies #[trigger] has_source(
                    remap@,
                    reached@,
                    i as int + 1,
                    q,
                ) by {
                    if q < news_pre.len() {
                        assert(has_source(remap_pre, reached@, i as int, q));
                        let i2 = choose|i2: int|
                            0 <= i2 < i && reached@[i2] && #[trigger] remap_pre[i2] == Some(
                                q as usize,
                            );
                        assert(remap@[i2] == Some(q as usize));
                    } else {
                        assert(q == nj);
                        assert(remap@[i as int] == Some(q as usize));
                    }
                }
            }
        } else {
            let ghost remap_pre = remap@;
            remap.push(None);
            proof {
                assert forall|j: int|
                    0 <= j < i && reached@[j] implies ((#[trigger] remap@[j]).unwrap() as int)
                        < news@.len() && node_mapped(
                        nodes@,
                        j,
                        news@,
                        remap@[j].unwrap() as int,
                        remap@,
                    ) by {
                    assert(remap@[j] == remap_pre[j]);
                    assert(node_mapped(nodes@, j, news@, remap_pre[j].unwrap() as int, remap_pre));
                    assert(node_ok(nodes@, j));
                    let oj = remap_pre[j].unwrap() as int;
                    assert forall|bb: int|
                        0 <= bb < 256 implies #[trigger] news@[oj].children@[bb] == (
                        match nodes@[j].children@[bb] {
                            None => None::<usize>,
                            Some(c) => remap@[c as int],
                        }) by {
                        assert(news@[oj].children@[bb] == (match nodes@[j].children@[bb] {
                            None => None::<usize>,
                            Some(c) => remap_pre[c as int],
                        }));
                        match nodes@[j].children@[bb] {
                            None => {},
                            Some(c) => {
                                assert((c as int) < j);
                            },
                        }
                    }
                }
                assert(reached@.subrange(0, i as int + 1).drop_last() =~= reached@.subrange(
                    0,
                    i as int,
                ));
                assert(reached@.subrange(0, i as int + 1).last() == reached@[i as int]);
                assert forall|a: int, b2: int|
                    0 <= a < b2 < i + 1 && reached@[a] && reached@[b2] implies ((
                #[trigger] remap@[a]).unwrap() as int) < ((#[trigger] remap@[b2]).unwrap()
                    as int) by {
                    assert(remap@[a] == remap_pre[a]);
                    assert(b2 != i as int);
                    assert(remap@[b2] == remap_pre[b2]);
                }
                assert forall|q: int| 0 <= q < news@.len() implies #[trigger] has_source(
                    remap@,
                    reached@,
                    i as int + 1,
                    q,
                ) by {
                    assert(has_source(remap_pre, reached@, i as int, q));
                    let i2 = choose|i2: int|
                        0 <= i2 < i && reached@[i2] && #[trigger] remap_pre[i2] == Some(
                            q as usize,
                        );
                    assert(remap@[i2] == Some(q as usize));
                }
            }
        }
        i += 1;
    }

    proof {
        assert(compacted(olds, news@, remap@, reached@));
    }

    // Phase three: rebase the retained roots onto their images.
    let mut k2: usize = 0;
    while k2 < roots.len()
        invariant
            nodes@ == olds,
            n == nodes@.len(),
            reached@.len() == n,
            remap@.len() == n,
            compacted(olds, news@, remap@, reached@),
            roots@.len() == orig_roots.len(),
            forall|kk: int| 0 <= kk < orig_roots.len() ==> (#[trigger] orig_roots[kk] as int) < n,
            forall|kk: int|
                0 <= kk < orig_roots.len() ==> reached@[#[trigger] orig_roots[kk] as int],
            k2 <= roots@.len(),
            forall|kk: int| k2 <= kk < roots@.len() ==> #[trigger] roots@[kk] == orig_roots[kk],
            forall|kk: int|
                0 <= kk < k2 ==> #[trigger] roots@[kk] == remap@[orig_roots[kk] as int].unwrap(),
        decreases roots@.len() - k2,
    {
        let r = roots[k2];
        proof {
            assert(reached@[r as int]);
        }
        roots[k2] = remap[r].unwrap();
        k2 += 1;
    }

    *nodes = news;
    proof {
        assert forall|k: int, s: Seq<u8>| 0 <= k < roots@.len() implies #[trigger] lookup(
            nodes@,
            roots@[k] as int,
            s,
        ) == lookup(olds, orig_roots[k] as int, s) by {
            lemma_compact_lookup(olds, nodes@, remap@, reached@, orig_roots[k] as int, s);
        }
        // the compacted arena holds exactly the nodes the roots reached
        assert(reached@.subrange(0, n as int) =~= reached@);
        lemma_count_matches(olds, orig_roots, reached@, n as int);
        assert(nodes@.len() == reach_count(olds, orig_roots));
        // and each surviving node is reachable from the rebased roots
        assert forall|q: int| 0 <= q < nodes@.len() implies root_reachable(
            nodes@,
            roots@,
            q,
        ) by {
            assert(has_source(remap@, reached@, n as int, q));
            let i2 = choose|i2: int|
                0 <= i2 < n && reached@[i2] && #[trigger] remap@[i2] == Some(q as usize);
            assert(root_reachable(olds, orig_roots, i2));
            let kk = choose|kk: int|
                0 <= kk < orig_roots.len() && reaches(olds, #[trigger] orig_roots[kk] as int, i2);
            assert(reached@[orig_roots[kk] as int]);
            lemma_compact_reaches(olds, nodes@, remap@, reached@, orig_roots[kk] as int, i2);
            assert(roots@[kk] == remap@[orig_roots[kk] as int].unwrap());
            assert(remap@[i2].unwrap() as int == q);
            assert(reaches(nodes@, roots@[kk] as int, q));
        }
    }
}

/// Whether every child slot of the node is empty.
fn has_no_children<V>(n: &Node<V>) -> (r: bool)
    ensures
        r == (forall|b: int| 0 <= b < n.children@.len() ==> (#[trigger] n.children@[b]) is None),
{
    let len = n.children.len();
    let mut b: usize = 0;
    while b < len
        invariant
            b <= len,
            len == n.children@.len(),
            forall|j: int| 0 <= j < b ==> (#[trigger] n.children@[j]) is None,
        decreases len - b,
    {
        if n.children[b].is_some() {
            return false;
        }
        b += 1;
    }
    true
}

} // verus!
