//! Reachability in the borrow graph: ancestors, roots, and transitive
//! children.
//!
//! Reachability is specified by paths along edges; the executable walks are
//! worklist traversals with an explicit visited set, so they terminate on
//! any graph, and their results are proved to be exactly the reachable
//! sets.

use crate::edge::BorrowEdge;
use crate::graph::NodeV;
use crate::sets::LabelSet;
use crate::state::children_consistent;
use crate::state::parents_consistent;
use crate::state::LifetimeState;
use vstd::prelude::*;

verus! {

/// There is an edge from `a` to `b`.
pub open spec fn has_edge(g: Map<u64, NodeV>, a: u64, b: u64) -> bool {
    g.dom().contains(a) && exists|e: BorrowEdge| #[trigger]
        g[a].children.contains(e) && e.target == b
}

/// `a` lists `b` as a parent.
pub open spec fn has_parent(g: Map<u64, NodeV>, a: u64, b: u64) -> bool {
    g.dom().contains(a) && g[a].parents.contains(b)
}

/// Consecutive elements are connected by edges.
pub open spec fn is_path(g: Map<u64, NodeV>, p: Seq<u64>) -> bool {
    forall|i: int| 0 <= i < p.len() - 1 ==> has_edge(g, #[trigger] p[i], p[i + 1])
}

/// Consecutive elements are connected by parent links.
pub open spec fn is_parent_path(g: Map<u64, NodeV>, p: Seq<u64>) -> bool {
    forall|i: int| 0 <= i < p.len() - 1 ==> has_parent(g, #[trigger] p[i], p[i + 1])
}

/// `b` is reachable from `a` along edges; reflexive and transitive.
pub open spec fn reaches(g: Map<u64, NodeV>, a: u64, b: u64) -> bool {
    exists|p: Seq<u64>| p.len() >= 1 && p.first() == a && p.last() == b && #[trigger] is_path(g, p)
}

/// `b` is reachable from one of the seeds along edges.
pub open spec fn reaches_any(g: Map<u64, NodeV>, seeds: Seq<u64>, b: u64) -> bool {
    exists|j: int| 0 <= j < seeds.len() && reaches(g, #[trigger] seeds[j], b)
}

/// `b` is reachable from `a` along parent links; reflexive and transitive.
pub open spec fn parent_reaches(g: Map<u64, NodeV>, a: u64, b: u64) -> bool {
    exists|p: Seq<u64>| p.len() >= 1 && p.first() == a && p.last() == b && #[trigger] is_parent_path(
        g,
        p,
    )
}

/// Reachability is reflexive.
pub proof fn lemma_reaches_refl(g: Map<u64, NodeV>, a: u64)
    ensures
        reaches(g, a, a),
{
    let p = seq![a];
    assert(is_path(g, p));
}

/// Reachability extends along an edge.
pub proof fn lemma_reaches_step(g: Map<u64, NodeV>, a: u64, b: u64, c: u64)
    requires
        reaches(g, a, b),
        has_edge(g, b, c),
    ensures
        reaches(g, a, c),
{
    let p = choose|p: Seq<u64>|
        p.len() >= 1 && p.first() == a && p.last() == b && #[trigger] is_path(g, p);
    let q = p.push(c);
    assert(is_path(g, q)) by {
        assert forall|i: int| 0 <= i < q.len() - 1 implies has_edge(g, #[trigger] q[i], q[i + 1]) by {
            if i < p.len() - 1 {
                assert(q[i] == p[i] && q[i + 1] == p[i + 1]);
            } else {
                assert(q[i] == p.last() && q[i + 1] == c);
            }
        }
    }
    assert(q.first() == a && q.last() == c);
}

/// Parent-reachability extends along a parent link.
pub proof fn lemma_parent_reaches_step(g: Map<u64, NodeV>, a: u64, b: u64, c: u64)
    requires
        parent_reaches(g, a, b),
        has_parent(g, b, c),
    ensures
        parent_reaches(g, a, c),
{
    let p = choose|p: Seq<u64>|
        p.len() >= 1 && p.first() == a && p.last() == b && #[trigger] is_parent_path(g, p);
    let q = p.push(c);
    assert(is_parent_path(g, q)) by {
        assert forall|i: int| 0 <= i < q.len() - 1 implies has_parent(
            g,
            #[trigger] q[i],
            q[i + 1],
        ) by {
            if i < p.len() - 1 {
                assert(q[i] == p[i] && q[i + 1] == p[i + 1]);
            } else {
                assert(q[i] == p.last() && q[i + 1] == c);
            }
        }
    }
    assert(q.first() == a && q.last() == c);
}

/// A set that contains the start of a path and is closed under edges
/// contains its end.
proof fn lemma_closed_path(g: Map<u64, NodeV>, s: Set<u64>, p: Seq<u64>)
    requires
        p.len() >= 1,
        is_path(g, p),
        s.contains(p.first()),
        forall|x: u64, y: u64| s.contains(x) && #[trigger] has_edge(g, x, y) ==> s.contains(y),
    ensures
        s.contains(p.last()),
    decreases p.len(),
{
    if p.len() > 1 {
        assert(has_edge(g, p[0], p[1]));
        let q = p.drop_first();
        assert(is_path(g, q)) by {
            assert forall|i: int| 0 <= i < q.len() - 1 implies has_edge(
                g,
                #[trigger] q[i],
                q[i + 1],
            ) by {
                assert(q[i] == p[i + 1] && q[i + 1] == p[i + 2]);
            }
        }
        assert(s.contains(q.first()));
        lemma_closed_path(g, s, q);
        assert(q.last() == p.last());
    }
}

/// A set that contains the start of a parent path and is closed under
/// parent links contains its end.
proof fn lemma_closed_parent_path(g: Map<u64, NodeV>, s: Set<u64>, p: Seq<u64>)
    requires
        p.len() >= 1,
        is_parent_path(g, p),
        s.contains(p.first()),
        forall|x: u64, y: u64| s.contains(x) && #[trigger] has_parent(g, x, y) ==> s.contains(y),
    ensures
        s.contains(p.last()),
    decreases p.len(),
{
    if p.len() > 1 {
        assert(has_parent(g, p[0], p[1]));
        let q = p.drop_first();
        assert(is_parent_path(g, q)) by {
            assert forall|i: int| 0 <= i < q.len() - 1 implies has_parent(
                g,
                #[trigger] q[i],
                q[i + 1],
            ) by {
                assert(q[i] == p[i + 1] && q[i + 1] == p[i + 2]);
            }
        }
        assert(s.contains(q.first()));
        lemma_closed_parent_path(g, s, q);
        assert(q.last() == p.last());
    }
}

/// In a consistent graph, walking parent links backwards is the same as
/// walking edges forwards.
pub proof fn lemma_parent_reaches_is_reaches(g: Map<u64, NodeV>, a: u64, b: u64)
    requires
        children_consistent(g),
        parents_consistent(g),
    ensures
        parent_reaches(g, a, b) <==> reaches(g, b, a),
{
    if parent_reaches(g, a, b) {
        let p = choose|p: Seq<u64>|
            p.len() >= 1 && p.first() == a && p.last() == b && #[trigger] is_parent_path(g, p);
        lemma_parent_path_reverses(g, p);
    }
    if reaches(g, b, a) {
        let p = choose|p: Seq<u64>|
            p.len() >= 1 && p.first() == b && p.last() == a && #[trigger] is_path(g, p);
        lemma_path_reverses(g, p);
    }
}

/// A parent path from `a` to `b` yields edge-reachability from `b` to `a`.
proof fn lemma_parent_path_reverses(g: Map<u64, NodeV>, p: Seq<u64>)
    requires
        parents_consistent(g),
        p.len() >= 1,
        is_parent_path(g, p),
    ensures
        reaches(g, p.last(), p.first()),
    decreases p.len(),
{
    if p.len() == 1 {
        lemma_reaches_refl(g, p.first());
    } else {
        let q = p.drop_first();
        assert(is_parent_path(g, q)) by {
            assert forall|i: int| 0 <= i < q.len() - 1 implies has_parent(
                g,
                #[trigger] q[i],
                q[i + 1],
            ) by {
                assert(q[i] == p[i + 1] && q[i + 1] == p[i + 2]);
            }
        }
        lemma_parent_path_reverses(g, q);
        assert(has_parent(g, p[0], p[1]));
        assert(has_edge(g, p[1], p[0])) by {
            let e = choose|e: BorrowEdge| #[trigger] g[p[1]].children.contains(e) && e.target
                == p[0];
        }
        assert(q.first() == p[1]);
        lemma_reaches_step(g, p.last(), p[1], p[0]);
    }
}

/// An edge path from `b` to `a` yields parent-reachability from `a` to `b`.
proof fn lemma_path_reverses(g: Map<u64, NodeV>, p: Seq<u64>)
    requires
        children_consistent(g),
        p.len() >= 1,
        is_path(g, p),
    ensures
        parent_reaches(g, p.last(), p.first()),
    decreases p.len(),
{
    if p.len() == 1 {
        let q = seq![p.first()];
        assert(is_parent_path(g, q));
    } else {
        let q = p.drop_first();
        assert(is_path(g, q)) by {
            assert forall|i: int| 0 <= i < q.len() - 1 implies has_edge(
                g,
                #[trigger] q[i],
                q[i + 1],
            ) by {
                assert(q[i] == p[i + 1] && q[i + 1] == p[i + 2]);
            }
        }
        lemma_path_reverses(g, q);
        assert(has_edge(g, p[0], p[1]));
        assert(has_parent(g, p[1], p[0]));
        lemma_parent_reaches_step(g, p.last(), p[1], p[0]);
    }
}

impl LifetimeState {
    /// The set of labels reachable from `start` along edges, `start`
    /// included.
    pub fn reachable_from(&self, start: u64) -> (r: LabelSet)
        requires
            self.wf(),
        ensures
            r.wf(),
            forall|b: u64| #[trigger] r@.contains(b) <==> reaches(self@.graph, start, b),
    {
        let mut seeds: Vec<u64> = Vec::new();
        seeds.push(start);
        let r = self.collect_forward(seeds);
        proof {
            assert forall|b: u64| #[trigger] r@.contains(b) implies reaches(
                self@.graph,
                start,
                b,
            ) by {
                let j = choose|j: int|
                    0 <= j < seeds@.len() && reaches(self@.graph, #[trigger] seeds@[j], b);
                assert(seeds@[j] == start);
            }
            assert forall|b: u64| reaches(self@.graph, start, b) implies r@.contains(b) by {
                assert(reaches(self@.graph, seeds@[0], b));
                assert(reaches_any(self@.graph, seeds@, b));
            }
        }
        r
    }

    /// Worklist collection of everything edge-reachable from the seeds, the
    /// seeds included.  Used with a single seed by `reachable_from`, and by
    /// `transitive_children` with the children of a node.
    fn collect_forward(&self, seeds: Vec<u64>) -> (r: LabelSet)
        requires
            self.wf(),
        ensures
            r.wf(),
            forall|b: u64| #[trigger] r@.contains(b) <==> reaches_any(self@.graph, seeds@, b),
    {
        let ghost g = self@.graph;
        let mut visited = LabelSet::new();
        let mut todo = seeds;
        proof {
            self.graph.lemma_finite();
            assert forall|j: int| 0 <= j < todo@.len() implies reaches_any(g, seeds@, #[trigger] todo@[j]) by {
                lemma_reaches_refl(g, todo@[j]);
            }
        }
        while todo.len() > 0
            invariant
                self.wf(),
                g == self@.graph,
                visited.wf(),
                g.dom().finite(),
                forall|b: u64| #[trigger] visited@.contains(b) ==> reaches_any(g, seeds@, b),
                forall|j: int| 0 <= j < todo@.len() ==> reaches_any(g, seeds@, #[trigger] todo@[j]),
                forall|x: u64, y: u64|
                    visited@.contains(x) && #[trigger] has_edge(g, x, y) ==> visited@.contains(y)
                        || todo@.contains(y),
                forall|j: int| 0 <= j < seeds@.len() ==> visited@.contains(#[trigger] seeds@[j])
                    || todo@.contains(seeds@[j]),
                forall|j: int| 0 <= j < todo@.len() ==> g.dom().contains(#[trigger] todo@[j])
                    || seeds@.to_set().contains(todo@[j]),
                visited@.subset_of(g.dom().union(seeds@.to_set())),
            decreases g.dom().union(seeds@.to_set()).len() - visited@.len(), todo@.len(),
        {
            proof {
                visited.lemma_finite();
                assert(seeds@.to_set().finite());
                vstd::set_lib::lemma_len_subset(
                    visited@,
                    g.dom().union(seeds@.to_set()),
                );
            }
            let ghost todo0 = todo@;
            let l = todo.pop().unwrap();
            proof {
                assert(todo0[todo0.len() - 1] == l);
                assert forall|x: u64, y: u64|
                    visited@.contains(x) && #[trigger] has_edge(g, x, y) implies visited@.contains(
                    y,
                ) || todo@.contains(y) || y == l by {
                    if !visited@.contains(y) {
                        let j = choose|j: int| 0 <= j < todo0.len() && todo0[j] == y;
                        if j < todo0.len() - 1 {
                            assert(todo@[j] == y);
                        }
                    }
                }
                assert forall|j: int| 0 <= j < seeds@.len() implies visited@.contains(
                    #[trigger] seeds@[j],
                ) || todo@.contains(seeds@[j]) || seeds@[j] == l by {
                    if !visited@.contains(seeds@[j]) {
                        let j2 = choose|j2: int| 0 <= j2 < todo0.len() && todo0[j2] == seeds@[j];
                        if j2 < todo0.len() - 1 {
                            assert(todo@[j2] == seeds@[j]);
                        }
                    }
                }
            }
            if visited.contains(l) {
                continue ;
            }
            visited.insert(l);
            match self.graph.get(l) {
                None => {
                    proof {
                        assert forall|x: u64, y: u64|
                            visited@.contains(x) && #[trigger] has_edge(g, x, y)
                            implies visited@.contains(y) || todo@.contains(y) by {
                            if x == l {
                                assert(g.dom().contains(l));
                            }
                        }
                    }
                },
                Some(n) => {
                    let edges = n.children.elems();
                    let mut k: usize = 0;
                    while k < edges.len()
                        invariant
                            self.wf(),
                            k <= edges.len(),
                            g == self@.graph,
                            visited.wf(),
                            edges@.to_set() == g[l].children,
                            g.dom().contains(l),
                            reaches_any(g, seeds@, l),
                            visited@.contains(l),
                            forall|b: u64| #[trigger] visited@.contains(b) ==> reaches_any(g, seeds@, b),
                            forall|j: int| 0 <= j < todo@.len() ==> reaches_any(g, seeds@, #[trigger] todo@[j]),
                            forall|x: u64, y: u64|
                                visited@.contains(x) && x != l && #[trigger] has_edge(g, x, y)
                                    ==> visited@.contains(y) || todo@.contains(y),
                            forall|j: int| 0 <= j < k ==> visited@.contains(
                                (#[trigger] edges@[j]).target,
                            ) || todo@.contains(edges@[j].target),
                            forall|j: int| 0 <= j < seeds@.len() ==> visited@.contains(
                                #[trigger] seeds@[j],
                            ) || todo@.contains(seeds@[j]),
                            forall|j: int| 0 <= j < todo@.len() ==> g.dom().contains(
                                #[trigger] todo@[j],
                            ) || seeds@.to_set().contains(todo@[j]),
                            visited@.subset_of(g.dom().union(seeds@.to_set())),
                        decreases edges.len() - k,
                    {
                        let ghost todo1 = todo@;
                        todo.push(edges[k].target);
                        proof {
                            assert(has_edge(g, l, edges@[k as int].target)) by {
                                assert(g[l].children.contains(edges@[k as int]));
                            }
                            assert(reaches_any(g, seeds@, edges@[k as int].target)) by {
                                let j0 = choose|j0: int|
                                    0 <= j0 < seeds@.len() && reaches(
                                        g,
                                        #[trigger] seeds@[j0],
                                        l,
                                    );
                                lemma_reaches_step(g, seeds@[j0], l, edges@[k as int].target);
                            }
                            assert(g.dom().contains(edges@[k as int].target)) by {
                                assert(edges@.contains(edges@[k as int]));
                                assert(edges@.to_set().contains(edges@[k as int]));
                                assert(g[l].children.contains(edges@[k as int]));
                            }
                            broadcast use vstd::seq_lib::lemma_seq_contains_after_push;

                            assert forall|j: int| 0 <= j < todo@.len() implies reaches_any(g, seeds@, #[trigger] todo@[j]) by {
                                if j < todo1.len() {
                                    assert(todo@[j] == todo1[j]);
                                }
                            }
                        }
                        k += 1;
                    }
                    proof {
                        assert forall|x: u64, y: u64|
                            visited@.contains(x) && #[trigger] has_edge(g, x, y)
                            implies visited@.contains(y) || todo@.contains(y) by {
                            if x == l {
                                let e = choose|e: BorrowEdge| #[trigger]
                                    g[l].children.contains(e) && e.target == y;
                                assert(edges@.to_set().contains(e));
                                assert(edges@.contains(e));
                                let j = choose|j: int|
                                    0 <= j < edges@.len() && edges@[j] == e;
                            }
                        }
                    }
                },
            }
            proof {
                visited.lemma_finite();
                assert(seeds@.to_set().finite());
                vstd::set_lib::lemma_len_subset(visited@, g.dom().union(seeds@.to_set()));
            }
        }
        proof {
            assert forall|b: u64| reaches_any(g, seeds@, b) implies visited@.contains(b) by {
                let j = choose|j: int|
                    0 <= j < seeds@.len() && reaches(g, #[trigger] seeds@[j], b);
                let p = choose|p: Seq<u64>|
                    p.len() >= 1 && p.first() == seeds@[j] && p.last() == b && #[trigger] is_path(
                        g,
                        p,
                    );
                assert(visited@.contains(seeds@[j]));
                lemma_closed_path(g, visited@, p);
            }
        }
        visited
    }

    /// Whether `label` is an ancestor of `descendant`: reflexive, transitive
    /// reachability through children.
    pub fn is_ancestor(&self, label: u64, descendant: u64) -> (r: bool)
        requires
            self.wf(),
        ensures
            r == reaches(self@.graph, label, descendant),
    {
        let reached = self.reachable_from(label);
        reached.contains(descendant)
    }
}


/// The transitive children of a node: the node itself if it is a leaf, else
/// everything reachable through at least one edge.
pub open spec fn tc_spec(g: Map<u64, NodeV>, l: u64) -> Set<u64> {
    if g[l].children.is_empty() {
        Set::<u64>::empty().insert(l)
    } else {
        Set::new(
            |x: u64| exists|e: BorrowEdge| #[trigger]
                g[l].children.contains(e) && reaches(g, e.target, x),
        )
    }
}

/// The roots of a node: the ancestors without parents, the node itself when
/// it has none.
pub open spec fn roots_spec(g: Map<u64, NodeV>, l: u64) -> Set<u64> {
    Set::new(|x: u64| reaches(g, x, l) && g.dom().contains(x) && g[x].parents.is_empty())
}

/// The source of a nonempty reachability is in the graph whenever the sink
/// is.
pub proof fn lemma_reaches_source_in_dom(g: Map<u64, NodeV>, a: u64, b: u64)
    requires
        reaches(g, a, b),
        g.dom().contains(b),
    ensures
        g.dom().contains(a),
{
    let p = choose|p: Seq<u64>|
        p.len() >= 1 && p.first() == a && p.last() == b && #[trigger] is_path(g, p);
    if p.len() == 1 {
        assert(a == b);
    } else {
        assert(has_edge(g, p[0], p[1]));
    }
}

impl LifetimeState {
    /// The set of labels reachable from `start` along parent links, `start`
    /// included.
    pub(crate) fn ancestor_set(&self, start: u64) -> (r: LabelSet)
        requires
            self.wf(),
        ensures
            r.wf(),
            forall|b: u64| #[trigger] r@.contains(b) <==> parent_reaches(self@.graph, start, b),
    {
        let ghost g = self@.graph;
        let mut visited = LabelSet::new();
        let mut todo: Vec<u64> = Vec::new();
        todo.push(start);
        proof {
            self.graph.lemma_finite();
            assert forall|j: int| 0 <= j < todo@.len() implies parent_reaches(
                g,
                start,
                #[trigger] todo@[j],
            ) by {
                let p = seq![start];
                assert(is_parent_path(g, p));
            }
            assert(todo@[0] == start);
            assert(todo@.contains(start));
        }
        while todo.len() > 0
            invariant
                self.wf(),
                g == self@.graph,
                visited.wf(),
                g.dom().finite(),
                forall|b: u64| #[trigger] visited@.contains(b) ==> parent_reaches(g, start, b),
                forall|j: int| 0 <= j < todo@.len() ==> parent_reaches(
                    g,
                    start,
                    #[trigger] todo@[j],
                ),
                forall|x: u64, y: u64|
                    visited@.contains(x) && #[trigger] has_parent(g, x, y) ==> visited@.contains(
                        y,
                    ) || todo@.contains(y),
                visited@.contains(start) || todo@.contains(start),
                forall|j: int| 0 <= j < todo@.len() ==> g.dom().contains(#[trigger] todo@[j])
                    || todo@[j] == start,
                visited@.subset_of(g.dom().insert(start)),
            decreases g.dom().insert(start).len() - visited@.len(), todo@.len(),
        {
            proof {
                visited.lemma_finite();
                vstd::set_lib::lemma_len_subset(visited@, g.dom().insert(start));
            }
            let ghost todo0 = todo@;
            let l = todo.pop().unwrap();
            proof {
                assert(todo0[todo0.len() - 1] == l);
                assert forall|x: u64, y: u64|
                    visited@.contains(x) && #[trigger] has_parent(g, x, y)
                    implies visited@.contains(y) || todo@.contains(y) || y == l by {
                    if !visited@.contains(y) {
                        let j = choose|j: int| 0 <= j < todo0.len() && todo0[j] == y;
                        if j < todo0.len() - 1 {
                            assert(todo@[j] == y);
                        }
                    }
                }
                if !visited@.contains(start) && start != l {
                    let j = choose|j: int| 0 <= j < todo0.len() && todo0[j] == start;
                    if j < todo0.len() - 1 {
                        assert(todo@[j] == start);
                    }
                }
            }
            if visited.contains(l) {
                continue ;
            }
            visited.insert(l);
            match self.graph.get(l) {
                None => {
                    proof {
                        assert forall|x: u64, y: u64|
                            visited@.contains(x) && #[trigger] has_parent(g, x, y)
                            implies visited@.contains(y) || todo@.contains(y) by {
                            if x == l {
                                assert(g.dom().contains(l));
                            }
                        }
                    }
                },
                Some(n) => {
                    let parents = n.parents.elems();
                    let mut k: usize = 0;
                    while k < parents.len()
                        invariant
                            self.wf(),
                            k <= parents.len(),
                            g == self@.graph,
                            visited.wf(),
                            parents@.to_set() == g[l].parents,
                            g.dom().contains(l),
                            parent_reaches(g, start, l),
                            visited@.contains(l),
                            visited@.contains(start) || todo@.contains(start),
                            forall|b: u64| #[trigger] visited@.contains(b) ==> parent_reaches(
                                g,
                                start,
                                b,
                            ),
                            forall|j: int| 0 <= j < todo@.len() ==> parent_reaches(
                                g,
                                start,
                                #[trigger] todo@[j],
                            ),
                            forall|x: u64, y: u64|
                                visited@.contains(x) && x != l && #[trigger] has_parent(g, x, y)
                                    ==> visited@.contains(y) || todo@.contains(y),
                            forall|j: int| 0 <= j < k ==> visited@.contains(
                                #[trigger] parents@[j],
                            ) || todo@.contains(parents@[j]),
                            forall|j: int| 0 <= j < todo@.len() ==> g.dom().contains(
                                #[trigger] todo@[j],
                            ) || todo@[j] == start,
                            visited@.subset_of(g.dom().insert(start)),
                        decreases parents.len() - k,
                    {
                        let ghost todo1 = todo@;
                        todo.push(parents[k]);
                        proof {
                            assert(has_parent(g, l, parents@[k as int])) by {
                                assert(parents@.contains(parents@[k as int]));
                                assert(g[l].parents.contains(parents@[k as int]));
                            }
                            lemma_parent_reaches_step(g, start, l, parents@[k as int]);
                            assert(g.dom().contains(parents@[k as int])) by {
                                assert(g[l].parents.contains(parents@[k as int]));
                            }
                            broadcast use vstd::seq_lib::lemma_seq_contains_after_push;

                            assert forall|j: int| 0 <= j < todo@.len() implies parent_reaches(
                                g,
                                start,
                                #[trigger] todo@[j],
                            ) by {
                                if j < todo1.len() {
                                    assert(todo@[j] == todo1[j]);
                                }
                            }
                        }
                        k += 1;
                    }
                    proof {
                        assert forall|x: u64, y: u64|
                            visited@.contains(x) && #[trigger] has_parent(g, x, y)
                            implies visited@.contains(y) || todo@.contains(y) by {
                            if x == l {
                                assert(parents@.to_set().contains(y));
                                assert(parents@.contains(y));
                                let j = choose|j: int|
                                    0 <= j < parents@.len() && parents@[j] == y;
                            }
                        }
                    }
                },
            }
            proof {
                visited.lemma_finite();
                vstd::set_lib::lemma_len_subset(visited@, g.dom().insert(start));
            }
        }
        proof {
            assert forall|b: u64| parent_reaches(g, start, b) implies visited@.contains(b) by {
                let p = choose|p: Seq<u64>|
                    p.len() >= 1 && p.first() == start && p.last() == b
                        && #[trigger] is_parent_path(g, p);
                lemma_closed_parent_path(g, visited@, p);
            }
        }
        visited
    }

    /// The roots of a node: those ancestors which have no parents, the node
    /// itself when it has none.
    pub fn roots(&self, label: u64) -> (r: LabelSet)
        requires
            self.wf(),
            self@.graph.dom().contains(label),
        ensures
            r.wf(),
            r@ == roots_spec(self@.graph, label),
    {
        let ghost g = self@.graph;
        let anc = self.ancestor_set(label);
        let anc_items = anc.elems();
        let mut r = LabelSet::new();
        let mut i: usize = 0;
        while i < anc_items.len()
            invariant
                self.wf(),
                g == self@.graph,
                g.dom().contains(label),
                r.wf(),
                i <= anc_items.len(),
                anc_items@.to_set() == anc@,
                anc_items@.no_duplicates(),
                forall|b: u64| #[trigger] anc@.contains(b) <==> parent_reaches(g, label, b),
                forall|x: u64| #[trigger]
                    r@.contains(x) <==> (anc_items@.take(i as int).contains(x) && g.dom().contains(
                        x,
                    ) && g[x].parents.is_empty()),
            decreases anc_items.len() - i,
        {
            let x = anc_items[i];
            proof {
                assert(anc_items@.contains(x));
                assert(anc@.contains(x));
                lemma_parent_reaches_is_reaches(g, label, x);
                lemma_reaches_source_in_dom(g, x, label);
            }
            let n = self.graph.get(x).unwrap();
            if n.parents.is_empty() {
                r.insert(x);
            }
            proof {
                assert(anc_items@.take(i + 1) =~= anc_items@.take(i as int).push(x));
                broadcast use vstd::seq_lib::lemma_seq_contains_after_push;

            }
            i += 1;
        }
        proof {
            assert(anc_items@.take(anc_items@.len() as int) =~= anc_items@);
            assert(r@ =~= roots_spec(g, label)) by {
                assert forall|x: u64| r@.contains(x) implies roots_spec(g, label).contains(x) by {
                    assert(anc@.contains(x));
                    lemma_parent_reaches_is_reaches(g, label, x);
                }
                assert forall|x: u64| roots_spec(g, label).contains(x) implies r@.contains(x) by {
                    lemma_parent_reaches_is_reaches(g, label, x);
                    assert(anc@.contains(x));
                    assert(anc_items@.contains(x));
                }
            }
        }
        r
    }

    /// The transitive children of a node: the node itself if it is a leaf,
    /// else everything reachable through at least one of its edges.
    pub fn transitive_children(&self, label: u64) -> (r: LabelSet)
        requires
            self.wf(),
            self@.graph.dom().contains(label),
        ensures
            r.wf(),
            r@ == tc_spec(self@.graph, label),
    {
        let ghost g = self@.graph;
        let n = self.graph.get(label).unwrap();
        if n.children.is_empty() {
            let r = LabelSet::singleton(label);
            proof {
                assert(r@ =~= tc_spec(g, label));
            }
            r
        } else {
            let edges = n.children.elems();
            let mut seeds: Vec<u64> = Vec::new();
            let mut k: usize = 0;
            while k < edges.len()
                invariant
                    k <= edges.len(),
                    edges@.to_set() == g[label].children,
                    seeds@.len() == k,
                    forall|j: int| 0 <= j < k ==> #[trigger] seeds@[j] == edges@[j].target,
                decreases edges.len() - k,
            {
                seeds.push(edges[k].target);
                k += 1;
            }
            let r = self.collect_forward(seeds);
            proof {
                assert(r@ =~= tc_spec(g, label)) by {
                    assert forall|x: u64| r@.contains(x) implies tc_spec(g, label).contains(x) by {
                        let j = choose|j: int|
                            0 <= j < seeds@.len() && reaches(g, #[trigger] seeds@[j], x);
                        assert(edges@.contains(edges@[j]));
                        assert(g[label].children.contains(edges@[j]));
                        assert(reaches(g, edges@[j].target, x));
                    }
                    assert forall|x: u64| tc_spec(g, label).contains(x) implies r@.contains(x) by {
                        let e = choose|e: BorrowEdge| #[trigger]
                            g[label].children.contains(e) && reaches(g, e.target, x);
                        assert(edges@.to_set().contains(e));
                        assert(edges@.contains(e));
                        let j = choose|j: int| 0 <= j < edges@.len() && edges@[j] == e;
                        assert(seeds@[j] == e.target);
                        assert(reaches_any(g, seeds@, x));
                    }
                }
            }
            r
        }
    }
}

} // verus!
