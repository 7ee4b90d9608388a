//! A directed graph over cell references, tracking which cells depend on
//! which. Every edge is recorded twice: in the outgoing set of its source
//! and the incoming set of its target, and both are always kept in step.

use vstd::prelude::*;
use crate::reference::Reference;
use crate::vecset::{copy_refs, insert_ref, remove_ref};

verus! {

/// The graph contains a dependency cycle, so no topological order exists.
#[derive(Debug, Clone, Copy, PartialEq, Eq, Structural)]
pub struct GraphHasCycles;

struct Node {
    outgoing_edges: Vec<Reference>,
    incoming_edges: Vec<Reference>,
}

/// A directed graph whose nodes are cell references.
pub struct DirectedGraph {
    nodes: Vec<(Reference, Node)>,
}

impl DirectedGraph {
    spec fn len(self) -> int {
        self.nodes@.len() as int
    }

    /// Whether `r` has a node entry, even one with no edges.
    pub closed spec fn contains_node(self, r: Reference) -> bool {
        exists|i: int| 0 <= i < self.len() && self.nodes@[i].0 == r
    }

    /// The number of node entries.
    pub closed spec fn node_count(self) -> int {
        self.len()
    }

    spec fn out_rel(self, u: Reference, v: Reference) -> bool {
        exists|i: int|
            0 <= i < self.len() && self.nodes@[i].0 == u && self.nodes@[i].1.outgoing_edges@.contains(
                v,
            )
    }

    spec fn in_rel(self, u: Reference, v: Reference) -> bool {
        exists|i: int|
            0 <= i < self.len() && self.nodes@[i].0 == v && self.nodes@[i].1.incoming_edges@.contains(
                u,
            )
    }

    /// Whether the graph holds the edge `u -> v`: `v`'s formula reads `u`.
    pub closed spec fn edge(self, u: Reference, v: Reference) -> bool {
        self.out_rel(u, v)
    }

    spec fn keys_unique(self) -> bool {
        forall|i: int, j: int|
            0 <= i < j < self.len() ==> self.nodes@[i].0 != self.nodes@[j].0
    }

    spec fn lists_no_dup(self) -> bool {
        forall|i: int|
            0 <= i < self.len() ==> (#[trigger] self.nodes@[i].1).outgoing_edges@.no_duplicates()
                && self.nodes@[i].1.incoming_edges@.no_duplicates()
    }

    spec fn symmetric(self) -> bool {
        forall|u: Reference, v: Reference|
            #![trigger self.out_rel(u, v)]
            #![trigger self.in_rel(u, v)]
            self.out_rel(u, v) <==> self.in_rel(u, v)
    }

    /// The representation invariant: node keys are unique, edge lists are
    /// duplicate-free, and the outgoing and incoming sides agree on every
    /// edge.
    pub closed spec fn wf(self) -> bool {
        self.keys_unique() && self.lists_no_dup() && self.symmetric()
    }

    /// The references recorded on the outgoing side of `u`'s node.
    pub closed spec fn outgoing_edges_of(self, u: Reference) -> Set<Reference> {
        Set::new(|v: Reference| self.out_rel(u, v))
    }

    /// The references recorded on the incoming side of `v`'s node.
    pub closed spec fn incoming_edges_of(self, v: Reference) -> Set<Reference> {
        Set::new(|u: Reference| self.in_rel(u, v))
    }

    /// The two directions of the edge record always agree: `v` stands in
    /// `u`'s outgoing set exactly when `u` stands in `v`'s incoming set.
    /// Every operation establishes and preserves `wf`, so this holds after
    /// any sequence of edge updates.
    pub proof fn lemma_edge_directions_agree(self, u: Reference, v: Reference)
        requires
            self.wf(),
        ensures
            self.outgoing_edges_of(u).contains(v) <==> self.incoming_edges_of(v).contains(u),
    {
        assert(self.out_rel(u, v) <==> self.in_rel(u, v));
    }

    /// Whether `v` depends on some cell, that is, an edge enters `v`.
    pub open spec fn has_incoming(self, v: Reference) -> bool {
        exists|u: Reference| self.edge(u, v)
    }

    /// Under `wf`, an edge's endpoints both have node entries.
    pub proof fn lemma_edge_endpoints(self, u: Reference, v: Reference)
        requires
            self.wf(),
            self.edge(u, v),
        ensures
            self.contains_node(u),
            self.contains_node(v),
    {
        let i = choose|i: int|
            0 <= i < self.len() && self.nodes@[i].0 == u
                && self.nodes@[i].1.outgoing_edges@.contains(v);
        assert(self.contains_node(u));
        assert(self.in_rel(u, v));
        let j = choose|j: int|
            0 <= j < self.len() && self.nodes@[j].0 == v
                && self.nodes@[j].1.incoming_edges@.contains(u);
        assert(self.contains_node(v));
    }

    /// Under unique keys, the relations at a node's own index are exactly
    /// its two edge lists.
    proof fn lemma_rel_at(self, i: int)
        requires
            self.keys_unique(),
            0 <= i < self.len(),
        ensures
            forall|v: Reference|
                self.out_rel(self.nodes@[i].0, v) <==> #[trigger] self.nodes@[i].1.outgoing_edges@.contains(
                    v,
                ),
            forall|u: Reference|
                self.in_rel(u, self.nodes@[i].0) <==> #[trigger] self.nodes@[i].1.incoming_edges@.contains(
                    u,
                ),
    {
        let r = self.nodes@[i].0;
        assert forall|v: Reference|
            self.out_rel(r, v) implies #[trigger] self.nodes@[i].1.outgoing_edges@.contains(v) by {
            let j = choose|j: int|
                0 <= j < self.len() && self.nodes@[j].0 == r
                    && self.nodes@[j].1.outgoing_edges@.contains(v);
            if j != i {
                if j < i {
                    assert(self.nodes@[j].0 != self.nodes@[i].0);
                } else {
                    assert(self.nodes@[i].0 != self.nodes@[j].0);
                }
            }
        }
        assert forall|u: Reference|
            self.in_rel(u, r) implies #[trigger] self.nodes@[i].1.incoming_edges@.contains(u) by {
            let j = choose|j: int|
                0 <= j < self.len() && self.nodes@[j].0 == r
                    && self.nodes@[j].1.incoming_edges@.contains(u);
            if j != i {
                if j < i {
                    assert(self.nodes@[j].0 != self.nodes@[i].0);
                } else {
                    assert(self.nodes@[i].0 != self.nodes@[j].0);
                }
            }
        }
    }

    /// Finds the index of `r`'s node entry.
    fn find_index(&self, r: Reference) -> (o: Option<usize>)
        ensures
            o is Some <==> self.contains_node(r),
            o matches Some(i) ==> i < self.nodes@.len() && self.nodes@[i as int].0 == r,
    {
        let n = self.nodes.len();
        let mut i: usize = 0;
        while i < n
            invariant
                i <= n == self.nodes@.len(),
                forall|j: int| 0 <= j < i ==> self.nodes@[j].0 != r,
            decreases n - i,
        {
            if self.nodes[i].0 == r {
                return Some(i);
            }
            i = i + 1;
        }
        None
    }

    /// Adds an empty node entry for `r` if none exists.
    fn ensure_node(&mut self, r: Reference)
        requires
            old(self).wf(),
        ensures
            final(self).wf(),
            forall|x: Reference|
                #![trigger final(self).contains_node(x)]
                #![trigger old(self).contains_node(x)]
                final(self).contains_node(x) <==> old(self).contains_node(x) || x == r,
            forall|a: Reference, b: Reference|
                #![trigger final(self).edge(a, b)]
                #![trigger old(self).edge(a, b)]
                final(self).edge(a, b) <==> old(self).edge(a, b),
            final(self).contains_node(r),
    {
        let ghost g0 = *self;
        let found = self.find_index(r);
        match found {
            Some(_) => {
                proof {
                    assert forall|x: Reference| #[trigger] self.contains_node(x) <==> g0.contains_node(x) || x == r by {}
                }
            },
            None => {
                self.nodes.push(
                    (r, Node { outgoing_edges: Vec::new(), incoming_edges: Vec::new() }),
                );
                proof {
                    let n0 = g0.nodes@.len() as int;
                    assert(self.nodes@.len() == n0 + 1);
                    assert(forall|j: int| 0 <= j < n0 ==> self.nodes@[j] == g0.nodes@[j]);
                    assert(self.nodes@[n0].0 == r);
                    assert forall|x: Reference| #[trigger] self.contains_node(x) implies g0.contains_node(x) || x == r by {
                        let i = choose|i: int| 0 <= i < self.len() && self.nodes@[i].0 == x;
                        if i < n0 {
                            assert(g0.nodes@[i].0 == x);
                        }
                    }
                    assert forall|x: Reference| g0.contains_node(x) || x == r implies #[trigger] self.contains_node(x) by {
                        if g0.contains_node(x) {
                            let i = choose|i: int| 0 <= i < g0.len() && g0.nodes@[i].0 == x;
                            assert(self.nodes@[i].0 == x);
                        } else {
                            assert(self.nodes@[n0].0 == x);
                        }
                    }
                    assert forall|a: Reference, b: Reference| #[trigger] self.out_rel(a, b) <==> g0.out_rel(a, b) by {
                        if self.out_rel(a, b) {
                            let i = choose|i: int|
                                0 <= i < self.len() && self.nodes@[i].0 == a
                                    && self.nodes@[i].1.outgoing_edges@.contains(b);
                            assert(i != n0);
                            assert(g0.nodes@[i].0 == a && g0.nodes@[i].1.outgoing_edges@.contains(
                                b,
                            ));
                        }
                        if g0.out_rel(a, b) {
                            let i = choose|i: int|
                                0 <= i < g0.len() && g0.nodes@[i].0 == a
                                    && g0.nodes@[i].1.outgoing_edges@.contains(b);
                            assert(self.nodes@[i].0 == a
                                && self.nodes@[i].1.outgoing_edges@.contains(b));
                        }
                    }
                    assert forall|a: Reference, b: Reference| #[trigger] self.in_rel(a, b) <==> g0.in_rel(a, b) by {
                        if self.in_rel(a, b) {
                            let i = choose|i: int|
                                0 <= i < self.len() && self.nodes@[i].0 == b
                                    && self.nodes@[i].1.incoming_edges@.contains(a);
                            assert(i != n0);
                            assert(g0.nodes@[i].0 == b && g0.nodes@[i].1.incoming_edges@.contains(
                                a,
                            ));
                        }
                        if g0.in_rel(a, b) {
                            let i = choose|i: int|
                                0 <= i < g0.len() && g0.nodes@[i].0 == b
                                    && g0.nodes@[i].1.incoming_edges@.contains(a);
                            assert(self.nodes@[i].0 == b
                                && self.nodes@[i].1.incoming_edges@.contains(a));
                        }
                    }
                    assert(self.keys_unique()) by {
                        assert forall|i: int, j: int| 0 <= i < j < self.len() implies self.nodes@[i].0 != self.nodes@[j].0 by {
                            if j < n0 {
                                assert(g0.nodes@[i].0 != g0.nodes@[j].0);
                            } else {
                                assert(!g0.contains_node(r));
                                if self.nodes@[i].0 == r {
                                    assert(g0.nodes@[i].0 == r);
                                    assert(g0.contains_node(r));
                                }
                            }
                        }
                    }
                    assert(self.lists_no_dup()) by {
                        assert forall|i: int| 0 <= i < self.len() implies (#[trigger] self.nodes@[i].1).outgoing_edges@.no_duplicates()
                            && self.nodes@[i].1.incoming_edges@.no_duplicates() by {
                            if i < n0 {
                                assert(g0.nodes@[i].1.outgoing_edges@.no_duplicates());
                                assert(g0.nodes@[i].1.incoming_edges@.no_duplicates());
                            }
                        }
                    }
                }
            },
        }
    }

    /// The node lists of `a` and `b` coincide except possibly the outgoing
    /// list of the entry at `i`.
    spec fn same_but_outgoing_at(a: Self, b: Self, i: int) -> bool {
        &&& a.len() == b.len()
        &&& 0 <= i < a.len()
        &&& forall|j: int| 0 <= j < a.len() ==> (#[trigger] a.nodes@[j]).0 == b.nodes@[j].0
        &&& forall|j: int|
            0 <= j < a.len() ==> (#[trigger] a.nodes@[j]).1.incoming_edges@
                == b.nodes@[j].1.incoming_edges@
        &&& forall|j: int|
            0 <= j < a.len() && j != i ==> (#[trigger] a.nodes@[j]).1.outgoing_edges@
                == b.nodes@[j].1.outgoing_edges@
    }

    spec fn same_but_incoming_at(a: Self, b: Self, i: int) -> bool {
        &&& a.len() == b.len()
        &&& 0 <= i < a.len()
        &&& forall|j: int| 0 <= j < a.len() ==> (#[trigger] a.nodes@[j]).0 == b.nodes@[j].0
        &&& forall|j: int|
            0 <= j < a.len() ==> (#[trigger] a.nodes@[j]).1.outgoing_edges@
                == b.nodes@[j].1.outgoing_edges@
        &&& forall|j: int|
            0 <= j < a.len() && j != i ==> (#[trigger] a.nodes@[j]).1.incoming_edges@
                == b.nodes@[j].1.incoming_edges@
    }

    proof fn lemma_rels_after_out_change(a: Self, b: Self, i: int)
        requires
            Self::same_but_outgoing_at(a, b, i),
            a.keys_unique(),
        ensures
            b.keys_unique(),
            forall|u: Reference, v: Reference|
                #![trigger b.in_rel(u, v)]
                #![trigger a.in_rel(u, v)]
                b.in_rel(u, v) <==> a.in_rel(u, v),
            forall|u: Reference, v: Reference|
                #![trigger b.out_rel(u, v)]
                #![trigger a.out_rel(u, v)]
                u != a.nodes@[i].0 ==> (b.out_rel(u, v) <==> a.out_rel(u, v)),
            forall|v: Reference|
                b.out_rel(a.nodes@[i].0, v) <==> #[trigger] b.nodes@[i].1.outgoing_edges@.contains(
                    v,
                ),
            forall|v: Reference|
                a.out_rel(a.nodes@[i].0, v) <==> #[trigger] a.nodes@[i].1.outgoing_edges@.contains(
                    v,
                ),
            forall|x: Reference|
                #![trigger b.contains_node(x)]
                #![trigger a.contains_node(x)]
                b.contains_node(x) <==> a.contains_node(x),
    {
        assert(b.keys_unique()) by {
            assert forall|p: int, q: int| 0 <= p < q < b.len() implies b.nodes@[p].0
                != b.nodes@[q].0 by {
                assert(a.nodes@[p].0 != a.nodes@[q].0);
            }
        }
        assert forall|u: Reference, v: Reference| #[trigger] b.in_rel(u, v) <==> a.in_rel(
            u,
            v,
        ) by {
            if b.in_rel(u, v) {
                let j = choose|j: int|
                    0 <= j < b.len() && b.nodes@[j].0 == v
                        && b.nodes@[j].1.incoming_edges@.contains(u);
                assert(a.nodes@[j].0 == v && a.nodes@[j].1.incoming_edges@.contains(u));
            }
            if a.in_rel(u, v) {
                let j = choose|j: int|
                    0 <= j < a.len() && a.nodes@[j].0 == v
                        && a.nodes@[j].1.incoming_edges@.contains(u);
                assert(b.nodes@[j].0 == v && b.nodes@[j].1.incoming_edges@.contains(u));
            }
        }
        assert forall|u: Reference, v: Reference|
            u != a.nodes@[i].0 implies (#[trigger] b.out_rel(u, v) <==> #[trigger] a.out_rel(
            u,
            v,
        )) by {
            if b.out_rel(u, v) {
                let j = choose|j: int|
                    0 <= j < b.len() && b.nodes@[j].0 == u
                        && b.nodes@[j].1.outgoing_edges@.contains(v);
                assert(j != i);
                assert(a.nodes@[j].0 == u && a.nodes@[j].1.outgoing_edges@.contains(v));
            }
            if a.out_rel(u, v) {
                let j = choose|j: int|
                    0 <= j < a.len() && a.nodes@[j].0 == u
                        && a.nodes@[j].1.outgoing_edges@.contains(v);
                assert(j != i);
                assert(b.nodes@[j].0 == u && b.nodes@[j].1.outgoing_edges@.contains(v));
            }
        }
        b.lemma_rel_at(i);
        a.lemma_rel_at(i);
        assert forall|x: Reference| #[trigger] b.contains_node(x) <==> a.contains_node(x) by {
            if b.contains_node(x) {
                let j = choose|j: int| 0 <= j < b.len() && b.nodes@[j].0 == x;
                assert(a.nodes@[j].0 == x);
            }
            if a.contains_node(x) {
                let j = choose|j: int| 0 <= j < a.len() && a.nodes@[j].0 == x;
                assert(b.nodes@[j].0 == x);
            }
        }
    }

    proof fn lemma_rels_after_in_change(a: Self, b: Self, i: int)
        requires
            Self::same_but_incoming_at(a, b, i),
            a.keys_unique(),
        ensures
            b.keys_unique(),
            forall|u: Reference, v: Reference|
                #![trigger b.out_rel(u, v)]
                #![trigger a.out_rel(u, v)]
                b.out_rel(u, v) <==> a.out_rel(u, v),
            forall|u: Reference, v: Reference|
                #![trigger b.in_rel(u, v)]
                #![trigger a.in_rel(u, v)]
                v != a.nodes@[i].0 ==> (b.in_rel(u, v) <==> a.in_rel(u, v)),
            forall|u: Reference|
                b.in_rel(u, a.nodes@[i].0) <==> #[trigger] b.nodes@[i].1.incoming_edges@.contains(
                    u,
                ),
            forall|u: Reference|
                a.in_rel(u, a.nodes@[i].0) <==> #[trigger] a.nodes@[i].1.incoming_edges@.contains(
                    u,
                ),
            forall|x: Reference|
                #![trigger b.contains_node(x)]
                #![trigger a.contains_node(x)]
                b.contains_node(x) <==> a.contains_node(x),
    {
        assert(b.keys_unique()) by {
            assert forall|p: int, q: int| 0 <= p < q < b.len() implies b.nodes@[p].0
                != b.nodes@[q].0 by {
                assert(a.nodes@[p].0 != a.nodes@[q].0);
            }
        }
        assert forall|u: Reference, v: Reference| #[trigger] b.out_rel(u, v) <==> a.out_rel(
            u,
            v,
        ) by {
            if b.out_rel(u, v) {
                let j = choose|j: int|
                    0 <= j < b.len() && b.nodes@[j].0 == u
                        && b.nodes@[j].1.outgoing_edges@.contains(v);
                assert(a.nodes@[j].0 == u && a.nodes@[j].1.outgoing_edges@.contains(v));
            }
            if a.out_rel(u, v) {
                let j = choose|j: int|
                    0 <= j < a.len() && a.nodes@[j].0 == u
                        && a.nodes@[j].1.outgoing_edges@.contains(v);
                assert(b.nodes@[j].0 == u && b.nodes@[j].1.outgoing_edges@.contains(v));
            }
        }
        assert forall|u: Reference, v: Reference|
            v != a.nodes@[i].0 implies (#[trigger] b.in_rel(u, v) <==> #[trigger] a.in_rel(
            u,
            v,
        )) by {
            if b.in_rel(u, v) {
                let j = choose|j: int|
                    0 <= j < b.len() && b.nodes@[j].0 == v
                        && b.nodes@[j].1.incoming_edges@.contains(u);
                assert(j != i);
                assert(a.nodes@[j].0 == v && a.nodes@[j].1.incoming_edges@.contains(u));
            }
            if a.in_rel(u, v) {
                let j = choose|j: int|
                    0 <= j < a.len() && a.nodes@[j].0 == v
                        && a.nodes@[j].1.incoming_edges@.contains(u);
                assert(j != i);
                assert(b.nodes@[j].0 == v && b.nodes@[j].1.incoming_edges@.contains(u));
            }
        }
        b.lemma_rel_at(i);
        a.lemma_rel_at(i);
        assert forall|x: Reference| #[trigger] b.contains_node(x) <==> a.contains_node(x) by {
            if b.contains_node(x) {
                let j = choose|j: int| 0 <= j < b.len() && b.nodes@[j].0 == x;
                assert(a.nodes@[j].0 == x);
            }
            if a.contains_node(x) {
                let j = choose|j: int| 0 <= j < a.len() && a.nodes@[j].0 == x;
                assert(b.nodes@[j].0 == x);
            }
        }
    }

    /// Rewrites the outgoing list of the entry at `i`, inserting or
    /// removing `v`.
    fn update_outgoing(&mut self, i: usize, v: Reference, insert: bool)
        requires
            old(self).keys_unique(),
            old(self).lists_no_dup(),
            i < old(self).nodes@.len(),
        ensures
            final(self).lists_no_dup(),
            Self::same_but_outgoing_at(*old(self), *final(self), i as int),
            forall|y: Reference|
                #![trigger final(self).nodes@[i as int].1.outgoing_edges@.contains(y)]
                final(self).nodes@[i as int].1.outgoing_edges@.contains(y) <==> (if insert {
                    old(self).nodes@[i as int].1.outgoing_edges@.contains(y) || y == v
                } else {
                    old(self).nodes@[i as int].1.outgoing_edges@.contains(y) && y != v
                }),
    {
        let ghost g0 = *self;
        let mut entry = self.nodes.remove(i);
        if insert {
            insert_ref(&mut entry.1.outgoing_edges, v);
        } else {
            remove_ref(&mut entry.1.outgoing_edges, v);
        }
        self.nodes.insert(i, entry);
        proof {
            assert(self.nodes@.len() == g0.nodes@.len());
            assert forall|j: int| 0 <= j < self.len() && j != i implies self.nodes@[j]
                == g0.nodes@[j] by {}
            assert(self.nodes@[i as int].0 == g0.nodes@[i as int].0);
            assert(self.nodes@[i as int].1.incoming_edges@ == g0.nodes@[i as int].1.incoming_edges@);
            assert forall|j: int| 0 <= j < self.len() implies (#[trigger] self.nodes@[j].1).outgoing_edges@.no_duplicates()
                && self.nodes@[j].1.incoming_edges@.no_duplicates() by {
                if j != i {
                    assert(g0.nodes@[j].1.outgoing_edges@.no_duplicates());
                    assert(g0.nodes@[j].1.incoming_edges@.no_duplicates());
                } else {
                    assert(g0.nodes@[j].1.incoming_edges@.no_duplicates());
                }
            }
        }
    }

    /// Rewrites the incoming list of the entry at `i`, inserting or
    /// removing `u`.
    fn update_incoming(&mut self, i: usize, u: Reference, insert: bool)
        requires
            old(self).keys_unique(),
            old(self).lists_no_dup(),
            i < old(self).nodes@.len(),
        ensures
            final(self).lists_no_dup(),
            Self::same_but_incoming_at(*old(self), *final(self), i as int),
            forall|y: Reference|
                #![trigger final(self).nodes@[i as int].1.incoming_edges@.contains(y)]
                final(self).nodes@[i as int].1.incoming_edges@.contains(y) <==> (if insert {
                    old(self).nodes@[i as int].1.incoming_edges@.contains(y) || y == u
                } else {
                    old(self).nodes@[i as int].1.incoming_edges@.contains(y) && y != u
                }),
    {
        let ghost g0 = *self;
        let mut entry = self.nodes.remove(i);
        if insert {
            insert_ref(&mut entry.1.incoming_edges, u);
        } else {
            remove_ref(&mut entry.1.incoming_edges, u);
        }
        self.nodes.insert(i, entry);
        proof {
            assert(self.nodes@.len() == g0.nodes@.len());
            assert forall|j: int| 0 <= j < self.len() && j != i implies self.nodes@[j]
                == g0.nodes@[j] by {}
            assert(self.nodes@[i as int].0 == g0.nodes@[i as int].0);
            assert(self.nodes@[i as int].1.outgoing_edges@ == g0.nodes@[i as int].1.outgoing_edges@);
            assert forall|j: int| 0 <= j < self.len() implies (#[trigger] self.nodes@[j].1).outgoing_edges@.no_duplicates()
                && self.nodes@[j].1.incoming_edges@.no_duplicates() by {
                if j != i {
                    assert(g0.nodes@[j].1.outgoing_edges@.no_duplicates());
                    assert(g0.nodes@[j].1.incoming_edges@.no_duplicates());
                } else {
                    assert(g0.nodes@[j].1.outgoing_edges@.no_duplicates());
                }
            }
        }
    }

    /// Records the edge `from_reference -> to_reference`, creating nodes as
    /// needed. Idempotent.
    pub fn add_edge(&mut self, from_reference: Reference, to_reference: Reference)
        requires
            old(self).wf(),
        ensures
            final(self).wf(),
            forall|x: Reference|
                #![trigger final(self).contains_node(x)]
                #![trigger old(self).contains_node(x)]
                final(self).contains_node(x) <==> old(self).contains_node(x) || x
                    == from_reference || x == to_reference,
            forall|a: Reference, b: Reference|
                #![trigger final(self).edge(a, b)]
                #![trigger old(self).edge(a, b)]
                final(self).edge(a, b) <==> old(self).edge(a, b) || (a == from_reference && b
                    == to_reference),
    {
        self.ensure_node(from_reference);
        self.ensure_node(to_reference);
        let ghost g1 = *self;
        let i = match self.find_index(from_reference) {
            Some(i) => i,
            None => {
                proof {
                    assert(false);
                }
                0
            },
        };
        self.update_outgoing(i, to_reference, true);
        let ghost g2 = *self;
        proof {
            Self::lemma_rels_after_out_change(g1, g2, i as int);
            assert forall|a: Reference, b: Reference| #[trigger] g2.out_rel(a, b) <==> g1.out_rel(
                a,
                b,
            ) || (a == from_reference && b == to_reference) by {
                if a == from_reference {
                    assert(g2.out_rel(a, b) <==> g2.nodes@[i as int].1.outgoing_edges@.contains(
                        b,
                    ));
                    assert(g1.out_rel(a, b) <==> g1.nodes@[i as int].1.outgoing_edges@.contains(
                        b,
                    ));
                }
            }
        }
        let j = match self.find_index(to_reference) {
            Some(j) => j,
            None => {
                proof {
                    assert(false);
                }
                0
            },
        };
        self.update_incoming(j, from_reference, true);
        let ghost g3 = *self;
        proof {
            Self::lemma_rels_after_in_change(g2, g3, j as int);
            assert forall|a: Reference, b: Reference| #[trigger] g3.in_rel(a, b) <==> g2.in_rel(
                a,
                b,
            ) || (a == from_reference && b == to_reference) by {
                if b == to_reference {
                    assert(g3.in_rel(a, b) <==> g3.nodes@[j as int].1.incoming_edges@.contains(a));
                    assert(g2.in_rel(a, b) <==> g2.nodes@[j as int].1.incoming_edges@.contains(a));
                }
            }
            assert(self.symmetric()) by {
                assert forall|u: Reference, v: Reference| #[trigger] g3.out_rel(u, v) <==> #[trigger] g3.in_rel(u, v) by {
                    assert(g1.out_rel(u, v) <==> g1.in_rel(u, v));
                }
            }
        }
    }

    /// Removes the edge `from_reference -> to_reference` if present; never
    /// removes a node. Idempotent.
    pub fn remove_edge(&mut self, from_reference: Reference, to_reference: Reference)
        requires
            old(self).wf(),
        ensures
            final(self).wf(),
            forall|x: Reference|
                #![trigger final(self).contains_node(x)]
                #![trigger old(self).contains_node(x)]
                final(self).contains_node(x) <==> old(self).contains_node(x),
            final(self).node_count() == old(self).node_count(),
            forall|a: Reference, b: Reference|
                #![trigger final(self).edge(a, b)]
                #![trigger old(self).edge(a, b)]
                final(self).edge(a, b) <==> old(self).edge(a, b) && !(a == from_reference && b
                    == to_reference),
    {
        let ghost g1 = *self;
        let found_i = self.find_index(from_reference);
        match found_i {
            None => {
                proof {
                    assert forall|a: Reference, b: Reference|
                        #[trigger] g1.edge(a, b) implies !(a == from_reference && b
                        == to_reference) by {
                        if a == from_reference && b == to_reference {
                            g1.lemma_edge_endpoints(a, b);
                        }
                    }
                }
            },
            Some(i) => {
                self.update_outgoing(i, to_reference, false);
                let ghost g2 = *self;
                proof {
                    Self::lemma_rels_after_out_change(g1, g2, i as int);
                    assert forall|a: Reference, b: Reference| #[trigger] g2.out_rel(a, b)
                        <==> g1.out_rel(a, b) && !(a == from_reference && b == to_reference) by {
                        if a == from_reference {
                            assert(g2.out_rel(a, b) <==> g2.nodes@[i as int].1.outgoing_edges@.contains(b));
                            assert(g1.out_rel(a, b) <==> g1.nodes@[i as int].1.outgoing_edges@.contains(b));
                        }
                    }
                }
                let found_j = self.find_index(to_reference);
                match found_j {
                    None => {
                        proof {
                            assert forall|a: Reference, b: Reference|
                                #[trigger] g2.out_rel(a, b) implies !(b == to_reference) by {
                                if b == to_reference {
                                    assert(g2.in_rel(a, b) <==> g1.in_rel(a, b));
                                    assert(g1.out_rel(a, b) <==> g1.in_rel(a, b));
                                    assert(g2.contains_node(b) <==> g1.contains_node(b));
                                    if g2.out_rel(a, b) {
                                        assert(g1.in_rel(a, b));
                                        g1.lemma_edge_endpoints(a, b);
                                        assert(g1.contains_node(b));
                                        assert(false);
                                    }
                                }
                            }
                            assert(self.symmetric()) by {
                                assert forall|u: Reference, v: Reference|
                                    #[trigger] g2.out_rel(u, v) <==> #[trigger] g2.in_rel(
                                    u,
                                    v,
                                ) by {
                                    assert(g1.out_rel(u, v) <==> g1.in_rel(u, v));
                                    if v == to_reference {
                                        if g2.in_rel(u, v) {
                                            assert(g1.in_rel(u, v));
                                            assert(g1.out_rel(u, v));
                                            g1.lemma_edge_endpoints(u, v);
                                            assert(false);
                                        }
                                    }
                                }
                            }
                        }
                    },
                    Some(j) => {
                        self.update_incoming(j, from_reference, false);
                        let ghost g3 = *self;
                        proof {
                            Self::lemma_rels_after_in_change(g2, g3, j as int);
                            assert forall|a: Reference, b: Reference| #[trigger] g3.in_rel(a, b)
                                <==> g2.in_rel(a, b) && !(a == from_reference && b
                                == to_reference) by {
                                if b == to_reference {
                                    assert(g3.in_rel(a, b) <==> g3.nodes@[j as int].1.incoming_edges@.contains(a));
                                    assert(g2.in_rel(a, b) <==> g2.nodes@[j as int].1.incoming_edges@.contains(a));
                                }
                            }
                            assert(self.symmetric()) by {
                                assert forall|u: Reference, v: Reference|
                                    #[trigger] g3.out_rel(u, v) <==> #[trigger] g3.in_rel(
                                    u,
                                    v,
                                ) by {
                                    assert(g1.out_rel(u, v) <==> g1.in_rel(u, v));
                                }
                            }
                        }
                    },
                }
            },
        }
    }


    /// Replaces the full incoming edge set of `reference` in one logical
    /// step, updating the outgoing set on the other endpoint of every added
    /// or dropped predecessor. Afterwards `reference` depends on exactly
    /// the cells listed in `new_incoming_edges`.
    pub fn set_incoming_edges(&mut self, reference: Reference, new_incoming_edges: Vec<Reference>)
        requires
            old(self).wf(),
        ensures
            final(self).wf(),
            forall|x: Reference|
                #![trigger final(self).contains_node(x)]
                #![trigger old(self).contains_node(x)]
                final(self).contains_node(x) <==> old(self).contains_node(x) || x == reference
                    || new_incoming_edges@.contains(x),
            forall|a: Reference, b: Reference|
                #![trigger final(self).edge(a, b)]
                #![trigger old(self).edge(a, b)]
                final(self).edge(a, b) <==> (if b == reference {
                    new_incoming_edges@.contains(a)
                } else {
                    old(self).edge(a, b)
                }),
    {
        let ghost g0 = *self;
        self.ensure_node(reference);
        let i = match self.find_index(reference) {
            Some(i) => i,
            None => {
                proof {
                    assert(false);
                }
                0
            },
        };
        let previous_incoming_edges = copy_refs(&self.nodes[i].1.incoming_edges);
        let ghost ga = *self;
        proof {
            ga.lemma_rel_at(i as int);
            assert forall|u: Reference| #[trigger] previous_incoming_edges@.contains(u)
                <==> ga.edge(u, reference) by {
                assert(previous_incoming_edges@.contains(u) <==> ga.in_rel(u, reference));
            }
        }
        let m = previous_incoming_edges.len();
        let mut k: usize = 0;
        while k < m
            invariant
                k <= m == previous_incoming_edges@.len(),
                self.wf(),
                forall|u: Reference|
                    #[trigger] previous_incoming_edges@.contains(u) <==> ga.edge(u, reference),
                forall|x: Reference|
                    #![trigger self.contains_node(x)]
                    #![trigger ga.contains_node(x)]
                    self.contains_node(x) <==> ga.contains_node(x),
                forall|a: Reference, b: Reference|
                    #![trigger self.edge(a, b)]
                    #![trigger ga.edge(a, b)]
                    self.edge(a, b) <==> ga.edge(a, b) && !(b == reference
                        && previous_incoming_edges@.take(k as int).contains(a)),
            decreases m - k,
        {
            let u = previous_incoming_edges[k];
            self.remove_edge(u, reference);
            k = k + 1;
            proof {
                let taken = previous_incoming_edges@.take(k as int);
                assert forall|a: Reference| #[trigger] taken.contains(a) <==> (
                previous_incoming_edges@.take(k - 1).contains(a) || a == u) by {
                    if taken.contains(a) {
                        let j = choose|j: int| 0 <= j < k && taken[j] == a;
                        if j < k - 1 {
                            assert(previous_incoming_edges@.take(k - 1)[j] == a);
                        }
                    }
                    if previous_incoming_edges@.take(k - 1).contains(a) {
                        let j = choose|j: int|
                            0 <= j < k - 1 && #[trigger] previous_incoming_edges@.take(k - 1)[j]
                                == a;
                        assert(taken[j] == a);
                    }
                    if a == u {
                        assert(taken[k - 1] == a);
                    }
                }
            }
        }
        let ghost gb = *self;
        proof {
            assert(previous_incoming_edges@.take(m as int) =~= previous_incoming_edges@);
            assert forall|a: Reference, b: Reference| #[trigger] gb.edge(a, b) <==> ga.edge(a, b)
                && b != reference by {
                if b == reference && ga.edge(a, b) {
                    assert(previous_incoming_edges@.contains(a));
                }
            }
        }
        let n = new_incoming_edges.len();
        let mut k: usize = 0;
        while k < n
            invariant
                k <= n == new_incoming_edges@.len(),
                self.wf(),
                gb.contains_node(reference),
                forall|x: Reference|
                    #![trigger self.contains_node(x)]
                    #![trigger gb.contains_node(x)]
                    self.contains_node(x) <==> gb.contains_node(x) || new_incoming_edges@.take(
                        k as int,
                    ).contains(x),
                forall|a: Reference, b: Reference|
                    #![trigger self.edge(a, b)]
                    #![trigger gb.edge(a, b)]
                    self.edge(a, b) <==> gb.edge(a, b) || (b == reference
                        && new_incoming_edges@.take(k as int).contains(a)),
            decreases n - k,
        {
            let u = new_incoming_edges[k];
            self.add_edge(u, reference);
            k = k + 1;
            proof {
                let taken = new_incoming_edges@.take(k as int);
                assert forall|a: Reference| #[trigger] taken.contains(a) <==> (
                new_incoming_edges@.take(k - 1).contains(a) || a == u) by {
                    if taken.contains(a) {
                        let j = choose|j: int| 0 <= j < k && taken[j] == a;
                        if j < k - 1 {
                            assert(new_incoming_edges@.take(k - 1)[j] == a);
                        }
                    }
                    if new_incoming_edges@.take(k - 1).contains(a) {
                        let j = choose|j: int|
                            0 <= j < k - 1 && #[trigger] new_incoming_edges@.take(k - 1)[j] == a;
                        assert(taken[j] == a);
                    }
                    if a == u {
                        assert(taken[k - 1] == a);
                    }
                }
            }
        }
        proof {
            assert(new_incoming_edges@.take(n as int) =~= new_incoming_edges@);
        }
    }

    /// Whether any node retains an edge, in either direction.
    pub fn has_edges(&self) -> (b: bool)
        requires
            self.wf(),
        ensures
            b == exists|u: Reference, v: Reference| self.edge(u, v),
    {
        let n = self.nodes.len();
        let mut i: usize = 0;
        while i < n
            invariant
                i <= n == self.nodes@.len(),
                self.wf(),
                forall|j: int|
                    0 <= j < i ==> (#[trigger] self.nodes@[j].1).outgoing_edges@.len() == 0
                        && self.nodes@[j].1.incoming_edges@.len() == 0,
            decreases n - i,
        {
            if self.nodes[i].1.outgoing_edges.len() > 0 {
                proof {
                    let v = self.nodes@[i as int].1.outgoing_edges@[0];
                    assert(self.nodes@[i as int].1.outgoing_edges@.contains(v));
                    assert(self.out_rel(self.nodes@[i as int].0, v));
                    assert(self.edge(self.nodes@[i as int].0, v));
                }
                return true;
            }
            if self.nodes[i].1.incoming_edges.len() > 0 {
                proof {
                    let u = self.nodes@[i as int].1.incoming_edges@[0];
                    assert(self.nodes@[i as int].1.incoming_edges@.contains(u));
                    assert(self.in_rel(u, self.nodes@[i as int].0));
                    assert(self.out_rel(u, self.nodes@[i as int].0));
                    assert(self.edge(u, self.nodes@[i as int].0));
                }
                return true;
            }
            i = i + 1;
        }
        proof {
            assert forall|u: Reference, v: Reference| !(#[trigger] self.edge(u, v)) by {
                if self.out_rel(u, v) {
                    let j = choose|j: int|
                        0 <= j < self.len() && self.nodes@[j].0 == u
                            && self.nodes@[j].1.outgoing_edges@.contains(v);
                    assert(self.nodes@[j].1.outgoing_edges@.len() == 0);
                }
            }
        }
        false
    }

    /// Whether any edge enters `reference`.
    fn has_incoming_edges(&self, reference: Reference) -> (b: bool)
        requires
            self.wf(),
        ensures
            b == self.has_incoming(reference),
    {
        match self.find_index(reference) {
            None => {
                proof {
                    if self.has_incoming(reference) {
                        let u = choose|u: Reference| self.edge(u, reference);
                        self.lemma_edge_endpoints(u, reference);
                    }
                }
                false
            },
            Some(i) => {
                proof {
                    self.lemma_rel_at(i as int);
                }
                if self.nodes[i].1.incoming_edges.len() > 0 {
                    proof {
                        let u = self.nodes@[i as int].1.incoming_edges@[0];
                        assert(self.nodes@[i as int].1.incoming_edges@.contains(u));
                        assert(self.in_rel(u, reference));
                        assert(self.edge(u, reference));
                    }
                    true
                } else {
                    proof {
                        if self.has_incoming(reference) {
                            let u = choose|u: Reference| self.edge(u, reference);
                            assert(self.in_rel(u, reference));
                            assert(self.nodes@[i as int].1.incoming_edges@.contains(u));
                        }
                    }
                    false
                }
            },
        }
    }

    /// The distinct targets of the edges leaving `reference`.
    fn outgoing_copy(&self, reference: Reference) -> (o: Vec<Reference>)
        requires
            self.wf(),
        ensures
            o@.no_duplicates(),
            forall|v: Reference| #![trigger o@.contains(v)] o@.contains(v) <==> self.edge(
                reference,
                v,
            ),
    {
        match self.find_index(reference) {
            None => {
                let o: Vec<Reference> = Vec::new();
                proof {
                    assert forall|v: Reference| !(#[trigger] self.edge(reference, v)) by {
                        if self.edge(reference, v) {
                            self.lemma_edge_endpoints(reference, v);
                        }
                    }
                }
                o
            },
            Some(i) => {
                let o = copy_refs(&self.nodes[i].1.outgoing_edges);
                proof {
                    self.lemma_rel_at(i as int);
                }
                o
            },
        }
    }

    /// The nodes with no incoming edges: cells no formula in the graph
    /// depends on.
    fn get_references_with_no_incoming_edges(&self) -> (o: Vec<Reference>)
        requires
            self.wf(),
        ensures
            o@.no_duplicates(),
            forall|x: Reference|
                #![trigger o@.contains(x)]
                o@.contains(x) <==> self.contains_node(x) && !self.has_incoming(x),
    {
        let n = self.nodes.len();
        let mut o: Vec<Reference> = Vec::new();
        let mut i: usize = 0;
        while i < n
            invariant
                i <= n == self.nodes@.len(),
                self.wf(),
                o@.no_duplicates(),
                forall|x: Reference|
                    #![trigger o@.contains(x)]
                    o@.contains(x) <==> exists|j: int|
                        0 <= j < i && (#[trigger] self.nodes@[j]).0 == x
                            && self.nodes@[j].1.incoming_edges@.len() == 0,
            decreases n - i,
        {
            let ghost o0 = o@;
            if self.nodes[i].1.incoming_edges.len() == 0 {
                let x = self.nodes[i].0;
                proof {
                    if o@.contains(x) {
                        let j = choose|j: int|
                            0 <= j < i && self.nodes@[j].0 == x
                                && self.nodes@[j].1.incoming_edges@.len() == 0;
                        assert(self.nodes@[j].0 != self.nodes@[i as int].0);
                        assert(false);
                    }
                }
                o.push(x);
                proof {
                    assert forall|y: Reference| #[trigger] o@.contains(y) <==> (o0.contains(y) || y
                        == x) by {
                        if o@.contains(y) {
                            let j = choose|j: int| 0 <= j < o@.len() && o@[j] == y;
                            if j < o@.len() - 1 {
                                assert(o0[j] == y);
                            }
                        }
                        if o0.contains(y) {
                            let j = choose|j: int| 0 <= j < o0.len() && o0[j] == y;
                            assert(o@[j] == y);
                        }
                        if y == x {
                            assert(o@[o@.len() - 1] == y);
                        }
                    }
                }
            }
            i = i + 1;
            proof {
                assert forall|x: Reference| #[trigger] o@.contains(x) implies exists|j: int|
                    0 <= j < i && (#[trigger] self.nodes@[j]).0 == x
                        && self.nodes@[j].1.incoming_edges@.len() == 0 by {
                    if o0.contains(x) {
                        let j = choose|j: int|
                            0 <= j < i - 1 && self.nodes@[j].0 == x
                                && self.nodes@[j].1.incoming_edges@.len() == 0;
                        assert(0 <= j < i && self.nodes@[j].0 == x
                            && self.nodes@[j].1.incoming_edges@.len() == 0);
                    } else {
                        assert(self.nodes@[i - 1].0 == x && self.nodes@[i - 1].1.incoming_edges@.len() == 0);
                    }
                }
            }
        }
        proof {
            assert forall|x: Reference|
                #[trigger] o@.contains(x) <==> self.contains_node(x) && !self.has_incoming(x) by {
                if o@.contains(x) {
                    let j = choose|j: int|
                        0 <= j < n && self.nodes@[j].0 == x && self.nodes@[j].1.incoming_edges@.len()
                            == 0;
                    assert(self.contains_node(x));
                    self.lemma_rel_at(j);
                    if self.has_incoming(x) {
                        let u = choose|u: Reference| self.edge(u, x);
                        assert(self.in_rel(u, x));
                        assert(self.nodes@[j].1.incoming_edges@.contains(u));
                    }
                }
                if self.contains_node(x) && !self.has_incoming(x) {
                    let j = choose|j: int| 0 <= j < self.len() && self.nodes@[j].0 == x;
                    self.lemma_rel_at(j);
                    if self.nodes@[j].1.incoming_edges@.len() > 0 {
                        let u = self.nodes@[j].1.incoming_edges@[0];
                        assert(self.nodes@[j].1.incoming_edges@.contains(u));
                        assert(self.in_rel(u, x));
                        assert(self.edge(u, x));
                    }
                }
            }
        }
        o
    }

    /// A structurally fresh copy with the same nodes and edges, used as the
    /// private working copy of a query.
    fn duplicate(&self) -> (g: Self)
        requires
            self.wf(),
        ensures
            g.wf(),
            g.node_count() == self.node_count(),
            forall|x: Reference|
                #![trigger g.contains_node(x)]
                #![trigger self.contains_node(x)]
                g.contains_node(x) <==> self.contains_node(x),
            forall|a: Reference, b: Reference|
                #![trigger g.edge(a, b)]
                #![trigger self.edge(a, b)]
                g.edge(a, b) <==> self.edge(a, b),
    {
        let n = self.nodes.len();
        let mut nodes: Vec<(Reference, Node)> = Vec::new();
        let mut i: usize = 0;
        while i < n
            invariant
                i <= n == self.nodes@.len(),
                nodes@.len() == i,
                forall|j: int|
                    0 <= j < i ==> (#[trigger] nodes@[j]).0 == self.nodes@[j].0
                        && nodes@[j].1.outgoing_edges@ == self.nodes@[j].1.outgoing_edges@
                        && nodes@[j].1.incoming_edges@ == self.nodes@[j].1.incoming_edges@,
            decreases n - i,
        {
            let entry = &self.nodes[i];
            let out_copy = copy_refs(&entry.1.outgoing_edges);
            let in_copy = copy_refs(&entry.1.incoming_edges);
            nodes.push((entry.0, Node { outgoing_edges: out_copy, incoming_edges: in_copy }));
            i = i + 1;
        }
        let g = DirectedGraph { nodes };
        proof {
            assert forall|x: Reference| #[trigger] g.contains_node(x) <==> self.contains_node(
                x,
            ) by {
                if g.contains_node(x) {
                    let j = choose|j: int| 0 <= j < g.len() && g.nodes@[j].0 == x;
                    assert(self.nodes@[j].0 == x);
                }
                if self.contains_node(x) {
                    let j = choose|j: int| 0 <= j < self.len() && self.nodes@[j].0 == x;
                    assert(g.nodes@[j].0 == x);
                }
            }
            assert forall|a: Reference, b: Reference| #[trigger] g.out_rel(a, b)
                <==> self.out_rel(a, b) by {
                if g.out_rel(a, b) {
                    let j = choose|j: int|
                        0 <= j < g.len() && g.nodes@[j].0 == a
                            && g.nodes@[j].1.outgoing_edges@.contains(b);
                    assert(self.nodes@[j].0 == a && self.nodes@[j].1.outgoing_edges@.contains(b));
                }
                if self.out_rel(a, b) {
                    let j = choose|j: int|
                        0 <= j < self.len() && self.nodes@[j].0 == a
                            && self.nodes@[j].1.outgoing_edges@.contains(b);
                    assert(g.nodes@[j].0 == a && g.nodes@[j].1.outgoing_edges@.contains(b));
                }
            }
            assert forall|a: Reference, b: Reference| #[trigger] g.in_rel(a, b) <==> self.in_rel(
                a,
                b,
            ) by {
                if g.in_rel(a, b) {
                    let j = choose|j: int|
                        0 <= j < g.len() && g.nodes@[j].0 == b
                            && g.nodes@[j].1.incoming_edges@.contains(a);
                    assert(self.nodes@[j].0 == b && self.nodes@[j].1.incoming_edges@.contains(a));
                }
                if self.in_rel(a, b) {
                    let j = choose|j: int|
                        0 <= j < self.len() && self.nodes@[j].0 == b
                            && self.nodes@[j].1.incoming_edges@.contains(a);
                    assert(g.nodes@[j].0 == b && g.nodes@[j].1.incoming_edges@.contains(a));
                }
            }
            assert(g.keys_unique()) by {
                assert forall|p: int, q: int| 0 <= p < q < g.len() implies g.nodes@[p].0
                    != g.nodes@[q].0 by {
                    assert(self.nodes@[p].0 != self.nodes@[q].0);
                }
            }
            assert(g.lists_no_dup()) by {
                assert forall|j: int| 0 <= j < g.len() implies (#[trigger] g.nodes@[j].1).outgoing_edges@.no_duplicates()
                    && g.nodes@[j].1.incoming_edges@.no_duplicates() by {
                    assert(self.nodes@[j].1.outgoing_edges@.no_duplicates());
                    assert(self.nodes@[j].1.incoming_edges@.no_duplicates());
                }
            }
            assert(g.symmetric()) by {
                assert forall|u: Reference, v: Reference| #[trigger] g.out_rel(u, v)
                    <==> #[trigger] g.in_rel(u, v) by {
                    assert(self.out_rel(u, v) <==> self.in_rel(u, v));
                }
            }
        }
        g
    }


    spec fn keys(self) -> Seq<Reference> {
        Seq::new(self.nodes@.len() as nat, |i: int| self.nodes@[i].0)
    }

    /// A duplicate-free sequence of node references is no longer than the
    /// node count.
    proof fn lemma_done_bound(self, done: Seq<Reference>)
        requires
            done.no_duplicates(),
            forall|x: Reference| #[trigger] done.contains(x) ==> self.contains_node(x),
        ensures
            done.len() <= self.node_count(),
    {
        broadcast use vstd::seq_lib::seq_to_set_is_finite;

        let ks = self.keys();
        done.unique_seq_to_set();
        assert(done.to_set().subset_of(ks.to_set())) by {
            assert forall|x: Reference| #[trigger] done.to_set().contains(x) implies ks.to_set().contains(x) by {
                assert(done.contains(x));
                assert(self.contains_node(x));
                let i = choose|i: int| 0 <= i < self.len() && self.nodes@[i].0 == x;
                assert(ks[i] == x);
                assert(ks.contains(x));
            }
        }
        ks.lemma_cardinality_of_set();
        vstd::set_lib::lemma_len_subset(done.to_set(), ks.to_set());
    }

    /// A non-empty closed walk along edges: consecutive elements are joined
    /// by edges and an edge leads from the last element back to the first.
    pub open spec fn is_cycle(self, p: Seq<Reference>) -> bool {
        &&& p.len() > 0
        &&& forall|i: int| 0 <= i && i + 1 < p.len() ==> self.edge(#[trigger] p[i], p[i + 1])
        &&& self.edge(p[p.len() - 1], p[0])
    }

    /// Whether any dependency cycle exists.
    pub open spec fn has_cycle(self) -> bool {
        exists|p: Seq<Reference>| self.is_cycle(p)
    }

    /// Builds a walk of length `k` inside `s`, walking predecessor edges
    /// backwards: possible whenever every element of `s` has a predecessor
    /// in `s`.
    proof fn lemma_build_chain(w: Self, s: Set<Reference>, k: nat) -> (q: Seq<Reference>)
        requires
            k >= 1,
            exists|x: Reference| s.contains(x),
            forall|v: Reference| #[trigger] s.contains(v) ==> exists|u: Reference|
                s.contains(u) && w.edge(u, v),
        ensures
            q.len() == k,
            forall|i: int| 0 <= i < k ==> s.contains(#[trigger] q[i]),
            forall|i: int| 0 <= i && i + 1 < k ==> w.edge(#[trigger] q[i], q[i + 1]),
        decreases k,
    {
        if k == 1 {
            let x = choose|x: Reference| s.contains(x);
            let q = seq![x];
            q
        } else {
            let q0 = Self::lemma_build_chain(w, s, (k - 1) as nat);
            let h = q0[0];
            assert(s.contains(h));
            let u = choose|u: Reference| s.contains(u) && w.edge(u, h);
            let q = seq![u] + q0;
            assert forall|i: int| 0 <= i && i + 1 < k implies w.edge(#[trigger] q[i], q[i + 1]) by {
                if i == 0 {
                    assert(q[0] == u && q[1] == q0[0]);
                } else {
                    assert(q[i] == q0[i - 1] && q[i + 1] == q0[i]);
                    assert(w.edge(q0[i - 1], q0[i - 1 + 1]));
                }
            }
            assert forall|i: int| 0 <= i < k implies s.contains(#[trigger] q[i]) by {
                if i > 0 {
                    assert(q[i] == q0[i - 1]);
                }
            }
            q
        }
    }

    /// If every element of a finite, non-empty set `s` has a predecessor in
    /// `s` under `w`'s edges, and every edge of `w` is an edge of `g`, then
    /// `g` has a cycle.
    #[verifier::rlimit(50)]
    proof fn lemma_blocked_set_has_cycle(w: Self, g: Self, s: Set<Reference>)
        requires
            s.finite(),
            exists|x: Reference| s.contains(x),
            forall|v: Reference| #[trigger] s.contains(v) ==> exists|u: Reference|
                s.contains(u) && w.edge(u, v),
            forall|a: Reference, b: Reference| #[trigger] w.edge(a, b) ==> g.edge(a, b),
        ensures
            g.has_cycle(),
    {
        let k = (s.len() + 1) as nat;
        let q = Self::lemma_build_chain(w, s, k);
        if q.no_duplicates() {
            q.unique_seq_to_set();
            assert(q.to_set().subset_of(s)) by {
                assert forall|x: Reference| #[trigger] q.to_set().contains(x) implies s.contains(
                    x,
                ) by {
                    assert(q.contains(x));
                    let i = choose|i: int| 0 <= i < q.len() && q[i] == x;
                    assert(s.contains(q[i]));
                }
            }
            vstd::set_lib::lemma_len_subset(q.to_set(), s);
            assert(false);
        }
        let (i, j) = choose|i: int, j: int| 0 <= i < j < q.len() && q[i] == q[j];
        Self::lemma_window_cycle(w, g, q, i, j);
    }

    /// A walk that revisits an element contains a cycle: the window between
    /// the two visits.
    proof fn lemma_window_cycle(w: Self, g: Self, q: Seq<Reference>, i: int, j: int)
        requires
            0 <= i < j < q.len(),
            q[i] == q[j],
            forall|m: int| 0 <= m && m + 1 < q.len() ==> w.edge(#[trigger] q[m], q[m + 1]),
            forall|a: Reference, b: Reference| #[trigger] w.edge(a, b) ==> g.edge(a, b),
        ensures
            g.has_cycle(),
    {
        let p = q.subrange(i, j);
        assert(p.len() > 0);
        assert forall|m: int| 0 <= m && m + 1 < p.len() implies g.edge(#[trigger] p[m], p[m + 1]) by {
            assert(p[m] == q[i + m] && p[m + 1] == q[i + m + 1]);
            assert(w.edge(q[i + m], q[i + m + 1]));
        }
        assert(g.edge(p[p.len() - 1], p[0])) by {
            assert(p[p.len() - 1] == q[j - 1] && p[0] == q[i]);
            assert(w.edge(q[j - 1], q[j - 1 + 1]));
            assert(q[j] == q[i]);
        }
        assert(g.is_cycle(p));
    }

    spec fn position_of(order: Seq<Reference>, x: Reference) -> int {
        choose|i: int| 0 <= i < order.len() && order[i] == x
    }

    proof fn lemma_position_valid(order: Seq<Reference>, x: Reference)
        requires
            order.contains(x),
        ensures
            0 <= Self::position_of(order, x) < order.len(),
            order[Self::position_of(order, x)] == x,
    {
        let i = choose|i: int| 0 <= i < order.len() && order[i] == x;
        assert(0 <= i < order.len() && order[i] == x);
    }

    /// Along a walk whose steps respect an edge-respecting order, positions
    /// grow at least one per step.
    proof fn lemma_chain_increases(g: Self, order: Seq<Reference>, p: Seq<Reference>, m: int)
        requires
            g.wf(),
            forall|x: Reference|
                #![trigger order.contains(x)]
                #![trigger g.contains_node(x)]
                order.contains(x) <==> g.contains_node(x),
            forall|i: int, j: int|
                0 <= i < order.len() && 0 <= j < order.len() && g.edge(
                    #[trigger] order[i],
                    #[trigger] order[j],
                ) ==> i < j,
            forall|i: int| 0 <= i && i + 1 < p.len() ==> g.edge(#[trigger] p[i], p[i + 1]),
            0 <= m < p.len(),
            order.contains(p[0]),
        ensures
            0 <= Self::position_of(order, p[m]) < order.len(),
            order[Self::position_of(order, p[m])] == p[m],
            Self::position_of(order, p[0]) + m <= Self::position_of(order, p[m]),
        decreases m,
    {
        if m == 0 {
            Self::lemma_position_valid(order, p[0]);
        } else {
            Self::lemma_chain_increases(g, order, p, m - 1);
            assert(g.edge(p[m - 1], p[m - 1 + 1]));
            g.lemma_edge_endpoints(p[m - 1], p[m]);
            assert(order.contains(p[m]));
            Self::lemma_position_valid(order, p[m]);
            let a = Self::position_of(order, p[m - 1]);
            let b = Self::position_of(order, p[m]);
            assert(g.edge(order[a], order[b]));
        }
    }

    /// A permutation of the nodes in which every edge points forward rules
    /// out any cycle.
    proof fn lemma_ordered_acyclic(g: Self, order: Seq<Reference>)
        requires
            g.wf(),
            forall|x: Reference|
                #![trigger order.contains(x)]
                #![trigger g.contains_node(x)]
                order.contains(x) <==> g.contains_node(x),
            forall|i: int, j: int|
                0 <= i < order.len() && 0 <= j < order.len() && g.edge(
                    #[trigger] order[i],
                    #[trigger] order[j],
                ) ==> i < j,
        ensures
            !g.has_cycle(),
    {
        if g.has_cycle() {
            let p = choose|p: Seq<Reference>| g.is_cycle(p);
            let n = p.len() as int;
            assert(g.edge(p[n - 1], p[0]));
            g.lemma_edge_endpoints(p[n - 1], p[0]);
            assert(order.contains(p[0]));
            Self::lemma_chain_increases(g, order, p, n - 1);
            let a = Self::position_of(order, p[n - 1]);
            let b = Self::position_of(order, p[0]);
            Self::lemma_position_valid(order, p[0]);
            assert(g.edge(order[a], order[b]));
            assert(false);
        }
    }

    /// Kahn's algorithm on a private working copy: repeatedly emits a node
    /// with no remaining incoming edges and removes its outgoing edges.
    /// Succeeds with a permutation of all nodes in which every edge points
    /// forward exactly when the graph is acyclic; the graph itself is never
    /// mutated by this query.
    #[verifier::rlimit(50)]
    pub fn to_topological_sort(&self) -> (res: Result<Vec<Reference>, GraphHasCycles>)
        requires
            self.wf(),
        ensures
            (match res {
                Ok(order) => {
                    &&& order@.no_duplicates()
                    &&& forall|x: Reference|
                        #![trigger order@.contains(x)]
                        #![trigger self.contains_node(x)]
                        order@.contains(x) <==> self.contains_node(x)
                    &&& forall|i: int, j: int|
                        0 <= i < order@.len() && 0 <= j < order@.len() && self.edge(
                            #[trigger] order@[i],
                            #[trigger] order@[j],
                        ) ==> i < j
                    &&& !self.has_cycle()
                },
                Err(_) => self.has_cycle(),
            }),
    {
        let mut graph = self.duplicate();
        let mut sorted_references: Vec<Reference> = Vec::new();
        let mut independent_references = graph.get_references_with_no_incoming_edges();
        while independent_references.len() > 0
            invariant
                self.wf(),
                graph.wf(),
                graph.node_count() == self.node_count(),
                forall|x: Reference|
                    #![trigger graph.contains_node(x)]
                    #![trigger self.contains_node(x)]
                    graph.contains_node(x) <==> self.contains_node(x),
                sorted_references@.no_duplicates(),
                independent_references@.no_duplicates(),
                forall|x: Reference|
                    #[trigger] sorted_references@.contains(x) ==> self.contains_node(x)
                        && !independent_references@.contains(x),
                forall|x: Reference|
                    #[trigger] independent_references@.contains(x) ==> self.contains_node(x),
                forall|a: Reference, b: Reference|
                    #![trigger graph.edge(a, b)]
                    #![trigger self.edge(a, b)]
                    graph.edge(a, b) <==> self.edge(a, b) && !sorted_references@.contains(a),
                forall|x: Reference, u: Reference|
                    (sorted_references@.contains(x) || independent_references@.contains(x))
                        ==> !(#[trigger] graph.edge(u, x)),
                forall|x: Reference|
                    #[trigger] self.contains_node(x) && !sorted_references@.contains(x)
                        && !independent_references@.contains(x) ==> graph.has_incoming(x),
                forall|idx: int, u: Reference|
                    0 <= idx < sorted_references@.len() && #[trigger] self.edge(
                        u,
                        sorted_references@[idx],
                    ) ==> exists|jdx: int| 0 <= jdx < idx && sorted_references@[jdx] == u,
                sorted_references@.len() <= self.node_count(),
            decreases self.node_count() - sorted_references@.len(),
        {
            let ghost q0 = independent_references@;
            let r = independent_references.pop().unwrap();
            proof {
                assert(r == q0.last());
                assert(q0.contains(r)) by {
                    assert(q0[q0.len() - 1] == r);
                }
                assert forall|x: Reference| #[trigger] q0.contains(x) <==> (
                independent_references@.contains(x) || x == r) by {
                    if q0.contains(x) {
                        let j = choose|j: int| 0 <= j < q0.len() && q0[j] == x;
                        if j < q0.len() - 1 {
                            assert(independent_references@[j] == x);
                        }
                    }
                    if independent_references@.contains(x) {
                        let j = choose|j: int|
                            0 <= j < independent_references@.len()
                                && independent_references@[j] == x;
                        assert(q0[j] == x);
                    }
                }
                assert(!independent_references@.contains(r)) by {
                    if independent_references@.contains(r) {
                        let j = choose|j: int|
                            0 <= j < independent_references@.len()
                                && independent_references@[j] == r;
                        assert(q0[j] == r && q0[q0.len() - 1] == r);
                    }
                }
                assert forall|x: Reference|
                    #[trigger] independent_references@.contains(x) implies q0.contains(x) by {
                    let j = choose|j: int|
                        0 <= j < independent_references@.len() && independent_references@[j] == x;
                    assert(q0[j] == x);
                }
            }
            let ghost done0 = sorted_references@;
            let outs = graph.outgoing_copy(r);
            let ghost ga = graph;
            proof {
                assert forall|v: Reference| #[trigger] outs@.contains(v) <==> self.edge(r, v) by {
                    assert(outs@.contains(v) <==> ga.edge(r, v));
                }
                assert(!outs@.contains(r)) by {
                    if ga.edge(r, r) {
                        assert(false);
                    }
                }
            }
            let m = outs.len();
            let mut k: usize = 0;
            while k < m
                invariant
                    k <= m == outs@.len(),
                    self.wf(),
                    graph.wf(),
                    graph.node_count() == self.node_count(),
                    forall|x: Reference|
                        #![trigger graph.contains_node(x)]
                        #![trigger self.contains_node(x)]
                        graph.contains_node(x) <==> self.contains_node(x),
                    sorted_references@ == done0,
                    done0.no_duplicates(),
                    independent_references@.no_duplicates(),
                    self.contains_node(r),
                    !done0.contains(r),
                    !independent_references@.contains(r),
                    outs@.no_duplicates(),
                    !outs@.contains(r),
                    forall|v: Reference| #[trigger] outs@.contains(v) <==> self.edge(r, v),
                    forall|x: Reference|
                        #[trigger] done0.contains(x) ==> self.contains_node(x)
                            && !independent_references@.contains(x),
                    forall|x: Reference|
                        #[trigger] independent_references@.contains(x) ==> self.contains_node(x),
                    forall|a: Reference, b: Reference|
                        #![trigger graph.edge(a, b)]
                        #![trigger self.edge(a, b)]
                        graph.edge(a, b) <==> self.edge(a, b) && !done0.contains(a) && !(a == r
                            && outs@.take(k as int).contains(b)),
                    forall|x: Reference, u: Reference|
                        (done0.contains(x) || independent_references@.contains(x) || x == r)
                            ==> !(#[trigger] graph.edge(u, x)),
                    forall|x: Reference|
                        #[trigger] self.contains_node(x) && !done0.contains(x)
                            && !independent_references@.contains(x) && x != r
                            ==> graph.has_incoming(x),
                    forall|idx: int, u: Reference|
                        0 <= idx < done0.len() && #[trigger] self.edge(u, done0[idx]) ==> exists|
                            jdx: int,
                        | 0 <= jdx < idx && done0[jdx] == u,
                    done0.len() <= self.node_count(),
                decreases m - k,
            {
                let v = outs[k];
                let ghost gb = graph;
                proof {
                    assert(outs@.contains(v)) by {
                        assert(outs@[k as int] == v);
                    }
                    assert(!outs@.take(k as int).contains(v)) by {
                        if outs@.take(k as int).contains(v) {
                            let j = choose|j: int| 0 <= j < k && outs@.take(k as int)[j] == v;
                            assert(outs@[j] == v && outs@[k as int] == v);
                        }
                    }
                    assert(gb.edge(r, v));
                    assert(!done0.contains(v) && !independent_references@.contains(v) && v != r)
                        by {
                        if done0.contains(v) || independent_references@.contains(v) || v == r {
                            assert(!gb.edge(r, v));
                        }
                    }
                }
                graph.remove_edge(r, v);
                proof {
                    lemma_take_extend(outs@, k as int);
                    assert forall|a: Reference, b: Reference| #[trigger] graph.edge(a, b)
                        <==> self.edge(a, b) && !done0.contains(a) && !(a == r && outs@.take(
                        k + 1,
                    ).contains(b)) by {
                        assert(graph.edge(a, b) <==> gb.edge(a, b) && !(a == r && b == v));
                    }
                }
                let ghost q_before = independent_references@;
                let no_incoming = !graph.has_incoming_edges(v);
                if no_incoming {
                    independent_references.push(v);
                    proof {
                        let qn = independent_references@;
                        assert(qn.drop_last() =~= q_before);
                        assert forall|x: Reference| #[trigger] qn.contains(x) <==> (qn.drop_last().contains(x) || x == v) by {
                            if qn.contains(x) {
                                let j = choose|j: int| 0 <= j < qn.len() && qn[j] == x;
                                if j < qn.len() - 1 {
                                    assert(qn.drop_last()[j] == x);
                                }
                            }
                            if qn.drop_last().contains(x) {
                                let j = choose|j: int|
                                    0 <= j < qn.len() - 1 && qn.drop_last()[j] == x;
                                assert(qn[j] == x);
                            }
                            if x == v {
                                assert(qn[qn.len() - 1] == x);
                            }
                        }
                        assert(self.contains_node(v)) by {
                            self.lemma_edge_endpoints(r, v);
                        }
                    }
                }
                proof {
                    assert forall|x: Reference|
                        #[trigger] q_before.contains(x) implies independent_references@.contains(
                        x,
                    ) by {
                        let j = choose|j: int| 0 <= j < q_before.len() && q_before[j] == x;
                        assert(independent_references@[j] == x);
                    }
                    assert forall|x: Reference|
                        #[trigger] self.contains_node(x) && !done0.contains(x)
                            && !independent_references@.contains(x) && x
                            != r implies graph.has_incoming(x) by {
                        if x == v {
                            assert(graph.has_incoming(v));
                        } else {
                            assert(!q_before.contains(x));
                            assert(gb.has_incoming(x));
                            let u = choose|u: Reference| gb.edge(u, x);
                            assert(graph.edge(u, x));
                        }
                    }
                }
                k = k + 1;
            }
            proof {
                assert(outs@.take(m as int) =~= outs@);
            }
            sorted_references.push(r);
            proof {
                let dn = sorted_references@;
                assert(dn == done0.push(r));
                assert forall|x: Reference| #[trigger] dn.contains(x) <==> (done0.contains(x) || x
                    == r) by {
                    if dn.contains(x) {
                        let j = choose|j: int| 0 <= j < dn.len() && dn[j] == x;
                        if j < dn.len() - 1 {
                            assert(done0[j] == x);
                        }
                    }
                    if done0.contains(x) {
                        let j = choose|j: int| 0 <= j < done0.len() && done0[j] == x;
                        assert(dn[j] == x);
                    }
                    if x == r {
                        assert(dn[dn.len() - 1] == x);
                    }
                }
                assert forall|a: Reference, b: Reference| #[trigger] graph.edge(a, b)
                    <==> self.edge(a, b) && !dn.contains(a) by {
                    if a == r && self.edge(a, b) {
                        assert(outs@.contains(b));
                    }
                }
                assert forall|idx: int, u: Reference|
                    0 <= idx < dn.len() && #[trigger] self.edge(u, dn[idx]) implies exists|
                    jdx: int,
                | 0 <= jdx < idx && dn[jdx] == u by {
                    if idx < dn.len() - 1 {
                        assert(dn[idx] == done0[idx]);
                        let jdx = choose|jdx: int| 0 <= jdx < idx && done0[jdx] == u;
                        assert(dn[jdx] == u);
                    } else {
                        assert(dn[idx] == r);
                        assert(self.edge(u, r));
                        if !done0.contains(u) {
                            assert(!(u == r && outs@.contains(r)));
                            assert(graph.edge(u, r));
                            assert(false);
                        }
                        let jdx = choose|jdx: int| 0 <= jdx < done0.len() && done0[jdx] == u;
                        assert(dn[jdx] == u);
                    }
                }
                self.lemma_done_bound(dn);
            }
        }
        let blocked = graph.has_edges();
        if blocked {
            proof {
                let done = sorted_references@;
                let s = Set::new(
                    |x: Reference| self.contains_node(x) && !done.contains(x),
                );
                let (ea, eb) = choose|ea: Reference, eb: Reference| graph.edge(ea, eb);
                assert(s.contains(ea)) by {
                    graph.lemma_edge_endpoints(ea, eb);
                    assert(self.contains_node(ea));
                    assert(!done.contains(ea));
                }
                assert(s.finite()) by {
                    broadcast use vstd::seq_lib::seq_to_set_is_finite;

                    let ks = self.keys();
                    assert(s.subset_of(ks.to_set())) by {
                        assert forall|x: Reference| #[trigger] s.contains(x) implies ks.to_set().contains(x) by {
                            let i = choose|i: int|
                                0 <= i < self.len() && self.nodes@[i].0 == x;
                            assert(ks[i] == x);
                            assert(ks.contains(x));
                        }
                    }
                    vstd::set_lib::lemma_len_subset(s, ks.to_set());
                }
                assert forall|v: Reference| #[trigger] s.contains(v) implies exists|u: Reference|
                    s.contains(u) && graph.edge(u, v) by {
                    assert(graph.has_incoming(v));
                    let u = choose|u: Reference| graph.edge(u, v);
                    assert(self.edge(u, v) && !done.contains(u));
                    graph.lemma_edge_endpoints(u, v);
                    assert(s.contains(u));
                    assert(s.contains(u) && graph.edge(u, v));
                }
                Self::lemma_blocked_set_has_cycle(graph, *self, s);
            }
            Err(GraphHasCycles)
        } else {
            proof {
                let done = sorted_references@;
                assert forall|x: Reference| #[trigger] done.contains(x) <==> self.contains_node(
                    x,
                ) by {
                    if self.contains_node(x) && !done.contains(x) {
                        assert(graph.has_incoming(x));
                        let u = choose|u: Reference| graph.edge(u, x);
                        assert(false);
                    }
                }
                assert forall|i: int, j: int|
                    0 <= i < done.len() && 0 <= j < done.len() && self.edge(
                        #[trigger] done[i],
                        #[trigger] done[j],
                    ) implies i < j by {
                    let jdx = choose|jdx: int| 0 <= jdx < j && done[jdx] == done[i];
                    if jdx != i {
                        assert(false);
                    }
                }
                Self::lemma_ordered_acyclic(*self, done);
            }
            Ok(sorted_references)
        }
    }

}

proof fn lemma_take_extend(s: Seq<Reference>, k: int)
    requires
        0 <= k < s.len(),
    ensures
        forall|a: Reference|
            #![trigger s.take(k + 1).contains(a)]
            s.take(k + 1).contains(a) <==> s.take(k).contains(a) || a == s[k],
{
    assert forall|a: Reference| #[trigger] s.take(k + 1).contains(a) <==> (s.take(k).contains(a)
        || a == s[k]) by {
        if s.take(k + 1).contains(a) {
            let j = choose|j: int| 0 <= j < k + 1 && #[trigger] s.take(k + 1)[j] == a;
            if j < k {
                assert(s.take(k)[j] == a);
            }
        }
        if s.take(k).contains(a) {
            let j = choose|j: int| 0 <= j < k && #[trigger] s.take(k)[j] == a;
            assert(s.take(k + 1)[j] == a);
        }
        if a == s[k] {
            assert(s.take(k + 1)[k] == a);
        }
    }
}

impl Default for DirectedGraph {
    /// An empty graph: no nodes, no edges.
    fn default() -> (g: Self)
        ensures
            g.wf(),
            g.node_count() == 0,
            forall|x: Reference| !(#[trigger] g.contains_node(x)),
            forall|a: Reference, b: Reference| !(#[trigger] g.edge(a, b)),
    {
        DirectedGraph { nodes: Vec::new() }
    }
}

} // verus!
