//! The analysis state: a borrow graph together with the maps that tie live
//! temporaries and global resources to graph nodes.

use crate::edge::BorrowEdge;
use crate::edge::MemLoc;
use crate::graph::Graph;
use crate::graph::Node;
use crate::graph::NodeV;
use crate::ids::code_label;
use crate::ids::label_from_code_offset;
use crate::maps::LabelMap;
use crate::maps::TempMap;
use crate::sets::LabelSet;
use crate::sets::LocSet;
use crate::sets::TempSet;
use vstd::prelude::*;

verus! {

/// Every edge's child is in the graph and carries the matching backlink.
pub open spec fn children_consistent(g: Map<u64, NodeV>) -> bool {
    forall|l: u64, e: BorrowEdge|
        g.dom().contains(l) && #[trigger] g[l].children.contains(e) ==> g.dom().contains(e.target)
            && g[e.target].parents.contains(l)
}

/// Every backlink points at a node in the graph with a matching edge.
pub open spec fn parents_consistent(g: Map<u64, NodeV>) -> bool {
    forall|l: u64, p: u64|
        g.dom().contains(l) && #[trigger] g[l].parents.contains(p) ==> g.dom().contains(p)
            && exists|e: BorrowEdge| #[trigger] g[p].children.contains(e) && e.target == l
}

/// Every node stands for at least one memory location.
pub open spec fn locations_nonempty(g: Map<u64, NodeV>) -> bool {
    forall|l: u64| #[trigger]
        g.dom().contains(l) ==> exists|m: MemLoc| g[l].locs.contains(m)
}

/// The graph invariant: backlink symmetry, resolving edge targets, and
/// nonempty location sets.
pub open spec fn graph_consistent(g: Map<u64, NodeV>) -> bool {
    children_consistent(g) && parents_consistent(g) && locations_nonempty(g)
}

/// Every label in the temporary map is a node of the graph.
pub open spec fn temps_sound(g: Map<u64, NodeV>, temps: Map<usize, u64>) -> bool {
    forall|t: usize| #[trigger]
        temps.dom().contains(t) ==> g.dom().contains(temps[t])
}

/// Every label in the global map is a node of the graph, and that node
/// carries the global's location.
pub open spec fn globals_sound(g: Map<u64, NodeV>, globals: Map<u64, u64>) -> bool {
    forall|r: u64| #[trigger]
        globals.dom().contains(r) ==> g.dom().contains(globals[r]) && g[globals[r]].locs.contains(
            MemLoc::Global { resource: r },
        )
}

/// The labels that temporaries currently point at; nodes with these labels
/// are in use and must not be dropped.
pub open spec fn used_labels(temps: Map<usize, u64>) -> Set<u64> {
    Set::new(|l: u64| exists|t: usize| #[trigger] temps.dom().contains(t) && temps[t] == l)
}

/// The mathematical abstraction of an analysis state.
#[verifier::ext_equal]
pub ghost struct StateV {
    pub graph: Map<u64, NodeV>,
    pub temps: Map<usize, u64>,
    pub globals: Map<u64, u64>,
}

/// The analysis state at one program point: the borrow graph, the map from
/// temporaries holding or rooting references to node labels, and the map
/// from borrowed global resources to node labels.
pub struct LifetimeState {
    /// The borrow graph.
    pub graph: Graph,
    /// Temporaries that denote a graph node: a borrowed local points at a
    /// node with its `Local` location, a reference at a `Derived` node.
    pub temp_to_label: TempMap,
    /// Global resources whose root node is live.
    pub global_to_label: LabelMap,
}

impl View for LifetimeState {
    type V = StateV;

    open spec fn view(&self) -> StateV {
        StateV { graph: self.graph@, temps: self.temp_to_label@, globals: self.global_to_label@ }
    }
}

impl LifetimeState {
    /// Well-formed: the containers are well-formed, the graph is consistent,
    /// and both maps resolve into the graph.
    pub open spec fn wf(self) -> bool {
        &&& self.graph.wf()
        &&& self.temp_to_label.wf()
        &&& self.global_to_label.wf()
        &&& graph_consistent(self.graph@)
        &&& temps_sound(self.graph@, self.temp_to_label@)
        &&& globals_sound(self.graph@, self.global_to_label@)
    }

    /// The empty state, used at function entry.
    pub fn new() -> (r: Self)
        ensures
            r.wf(),
            r@.graph == Map::<u64, NodeV>::empty(),
            r@.temps == Map::<usize, u64>::empty(),
            r@.globals == Map::<u64, u64>::empty(),
    {
        LifetimeState {
            graph: Graph::new(),
            temp_to_label: TempMap::new(),
            global_to_label: LabelMap::new(),
        }
    }

    /// Creates a new node with the given label and single location.
    pub fn new_node(&mut self, label: u64, location: MemLoc)
        requires
            old(self).wf(),
            !old(self)@.graph.dom().contains(label),
        ensures
            final(self).wf(),
            final(self)@.graph == old(self)@.graph.insert(label, fresh_node_v(location)),
            final(self)@.temps == old(self)@.temps,
            final(self)@.globals == old(self)@.globals,
    {
        let n = Node::new_with_loc(location);
        proof {
            assert(n@ =~= fresh_node_v(location));
        }
        self.graph.put(label, n);
        proof {
            lemma_insert_isolated_consistent(old(self)@.graph, label, location);
        }
    }

    /// Adds an edge from the node labeled `label`: the edge is recorded in
    /// the parent's children and the parent in the child's backlinks.
    pub fn add_edge(&mut self, label: u64, edge: BorrowEdge)
        requires
            old(self).wf(),
            old(self)@.graph.dom().contains(label),
            old(self)@.graph.dom().contains(edge.target),
        ensures
            final(self).wf(),
            final(self)@.graph == add_edge_v(old(self)@.graph, label, edge),
            final(self)@.temps == old(self)@.temps,
            final(self)@.globals == old(self)@.globals,
    {
        self.graph.add_child(label, edge);
        self.graph.add_parent(edge.target, label);
        proof {
            lemma_add_edge_consistent(old(self)@.graph, label, edge);
        }
    }

    /// The label bound to a temporary, if any.
    pub fn label_for_temp(&self, temp: usize) -> (r: Option<u64>)
        requires
            self.wf(),
        ensures
            r == if self@.temps.dom().contains(temp) {
                Some(self@.temps[temp])
            } else {
                None::<u64>
            },
    {
        self.temp_to_label.get(temp)
    }

    /// The label bound to a global resource, if any.
    pub fn label_for_global(&self, resource: u64) -> (r: Option<u64>)
        requires
            self.wf(),
        ensures
            r == if self@.globals.dom().contains(resource) {
                Some(self@.globals[resource])
            } else {
                None::<u64>
            },
    {
        self.global_to_label.get(resource)
    }

    /// Whether the node has no outgoing edges.
    pub fn is_leaf(&self, label: u64) -> (r: bool)
        requires
            self.wf(),
            self@.graph.dom().contains(label),
        ensures
            r == self@.graph[label].children.is_empty(),
    {
        let n = self.graph.get(label).unwrap();
        n.children.is_empty()
    }

    /// Whether the node has an outgoing mutable edge.
    pub fn has_mut_edges(&self, label: u64) -> (r: bool)
        requires
            self.wf(),
            self@.graph.dom().contains(label),
        ensures
            r == exists|e: BorrowEdge| #[trigger]
                self@.graph[label].children.contains(e) && e.kind.is_mut_spec(),
    {
        let n = self.graph.get(label).unwrap();
        let edges = n.children.elems();
        let mut i: usize = 0;
        while i < edges.len()
            invariant
                i <= edges.len(),
                edges@.to_set() == self@.graph[label].children,
                forall|j: int| 0 <= j < i ==> !(#[trigger] edges@[j]).kind.is_mut_spec(),
            decreases edges.len() - i,
        {
            if edges[i].kind.is_mut() {
                proof {
                    assert(edges@.to_set().contains(edges@[i as int]));
                }
                return true;
            }
            i += 1;
        }
        proof {
            if exists|e: BorrowEdge|
                self@.graph[label].children.contains(e) && e.kind.is_mut_spec() {
                let e = choose|e: BorrowEdge|
                    self@.graph[label].children.contains(e) && e.kind.is_mut_spec();
                assert(edges@.contains(e));
            }
        }
        false
    }

    /// The label bound to a temporary that has outgoing edges, if any: the
    /// test for "is this temporary effectively borrowed?".
    pub fn label_for_temp_with_children(&self, temp: usize) -> (r: Option<u64>)
        requires
            self.wf(),
        ensures
            r == borrowed_label_spec(self@, temp),
    {
        match self.label_for_temp(temp) {
            Some(label) => {
                if !self.is_leaf(label) {
                    Some(label)
                } else {
                    None
                }
            },
            None => None,
        }
    }

    /// Returns the label bound to `temp`, or creates one: a fresh node
    /// labeled for the code position, rooted at the local itself if `root`
    /// holds, else a derived node.  If the code-position label already names
    /// a node (the fixpoint revisits a code offset while the node is still
    /// alive), that node is reused as it stands.
    pub fn make_temp(&mut self, temp: usize, code_offset: u16, qualifier: u8, root: bool) -> (r:
        u64)
        requires
            old(self).wf(),
        ensures
            final(self).wf(),
            final(self)@.globals == old(self)@.globals,
            old(self)@.temps.dom().contains(temp) ==> r == old(self)@.temps[temp] && final(self)@
                == old(self)@,
            !old(self)@.temps.dom().contains(temp) ==> r == code_label(code_offset, qualifier)
                && final(self)@.temps == old(self)@.temps.insert(temp, r),
            !old(self)@.temps.dom().contains(temp) && old(self)@.graph.dom().contains(
                (code_label(code_offset, qualifier) as u64),
            ) ==> final(self)@.graph == old(self)@.graph,
            !old(self)@.temps.dom().contains(temp) && !old(self)@.graph.dom().contains(
                (code_label(code_offset, qualifier) as u64),
            ) ==> final(self)@.graph == old(self)@.graph.insert(
                r,
                fresh_node_v(if root { (MemLoc::Local { temp }) } else { MemLoc::Derived }),
            ),
    {
        match self.temp_to_label.get(temp) {
            Some(label) => label,
            None => {
                let label = label_from_code_offset(code_offset, qualifier);
                if !self.graph.contains_key(label) {
                    self.new_node(
                        label,
                        if root {
                            MemLoc::Local { temp }
                        } else {
                            MemLoc::Derived
                        },
                    );
                }
                self.temp_to_label.insert(temp, label);
                label
            },
        }
    }

    /// Returns the label bound to the global `resource`, or creates one
    /// rooted at the global.  If the code-position label already names a
    /// node, the global's location is added to it and it is reused.
    pub fn make_global(&mut self, resource: u64, code_offset: u16, qualifier: u8) -> (r: u64)
        requires
            old(self).wf(),
        ensures
            final(self).wf(),
            final(self)@.temps == old(self)@.temps,
            old(self)@.globals.dom().contains(resource) ==> r == old(self)@.globals[resource]
                && final(self)@ == old(self)@,
            !old(self)@.globals.dom().contains(resource) ==> r == code_label(
                code_offset,
                qualifier,
            ) && final(self)@.globals == old(self)@.globals.insert(resource, r),
            !old(self)@.globals.dom().contains(resource) && !old(self)@.graph.dom().contains(
                (code_label(code_offset, qualifier) as u64),
            ) ==> final(self)@.graph == old(self)@.graph.insert(
                r,
                fresh_node_v((MemLoc::Global { resource })),
            ),
            !old(self)@.globals.dom().contains(resource) && old(self)@.graph.dom().contains(
                (code_label(code_offset, qualifier) as u64),
            ) ==> final(self)@.graph == old(self)@.graph.insert(
                r,
                old(self)@.graph[r as u64].with_loc((MemLoc::Global { resource })),
            ),
    {
        match self.global_to_label.get(resource) {
            Some(label) => label,
            None => {
                let label = label_from_code_offset(code_offset, qualifier);
                if !self.graph.contains_key(label) {
                    self.new_node(label, MemLoc::Global { resource });
                } else {
                    self.graph.add_loc(label, MemLoc::Global { resource });
                    proof {
                        lemma_add_loc_consistent(
                            old(self)@.graph,
                            label,
                            (MemLoc::Global { resource }),
                        );
                    }
                }
                self.global_to_label.insert(resource, label);
                label
            },
        }
    }

    /// Moves a reference between temporaries: the destination takes the
    /// source's label and the source is unbound.
    pub fn move_ref(&mut self, dest: usize, src: usize)
        requires
            old(self).wf(),
        ensures
            final(self).wf(),
            final(self)@.graph == old(self)@.graph,
            final(self)@.globals == old(self)@.globals,
            final(self)@.temps == if old(self)@.temps.dom().contains(src) {
                old(self)@.temps.remove(src).insert(dest, old(self)@.temps[src])
            } else {
                old(self)@.temps
            },
    {
        match self.temp_to_label.get(src) {
            Some(label) => {
                self.temp_to_label.remove(src);
                self.temp_to_label.insert(dest, label);
            },
            None => (),
        }
    }

    /// Copies a reference: both temporaries then share one node.
    pub fn copy_ref(&mut self, dest: usize, src: usize)
        requires
            old(self).wf(),
        ensures
            final(self).wf(),
            final(self)@.graph == old(self)@.graph,
            final(self)@.globals == old(self)@.globals,
            final(self)@.temps == if old(self)@.temps.dom().contains(src) {
                old(self)@.temps.insert(dest, old(self)@.temps[src])
            } else {
                old(self)@.temps
            },
    {
        match self.temp_to_label.get(src) {
            Some(label) => {
                self.temp_to_label.insert(dest, label);
            },
            None => (),
        }
    }

    /// Drops the leaf `start` unless it is in use, and cascades: a parent
    /// whose last edge was cut is dropped too.  Collects the locations of
    /// the dropped nodes.
    fn drop_cascade(&mut self, start: u64, in_use: &LabelSet, removed: &mut LocSet)
        requires
            old(self).wf(),
            in_use.wf(),
            old(removed).wf(),
            used_labels(old(self)@.temps).subset_of(in_use@),
        ensures
            final(self).temp_to_label == old(self).temp_to_label,
            final(self).global_to_label == old(self).global_to_label,
            final(self).graph.wf(),
            graph_consistent(final(self)@.graph),
            final(self)@.graph.dom().subset_of(old(self)@.graph.dom()),
            forall|l: u64| #[trigger] final(self)@.graph.dom().contains(l)
                ==> final(self)@.graph[l].locs == old(self)@.graph[l].locs
                && final(self)@.graph[l].parents == old(self)@.graph[l].parents
                && final(self)@.graph[l].children == old(self)@.graph[l].children.filter(
                |e: BorrowEdge| final(self)@.graph.dom().contains(e.target),
            ),
            forall|l: u64| in_use@.contains(l) && old(self)@.graph.dom().contains(l)
                ==> final(self)@.graph.dom().contains(l),
            final(removed).wf(),
            forall|m: MemLoc| old(removed)@.contains(m) ==> final(removed)@.contains(m),
            forall|r_: u64| #[trigger] old(self)@.globals.dom().contains(r_)
                ==> final(self)@.graph.dom().contains(old(self)@.globals[r_])
                || final(removed)@.contains((MemLoc::Global { resource: r_ })),
            old(self)@.graph.dom().contains(start) && old(self)@.graph[start].children.is_empty()
                && !in_use@.contains(start) ==> !final(self)@.graph.dom().contains(start),
            forall|l: u64, e: BorrowEdge|
                old(self)@.graph.dom().contains(l) && !final(self)@.graph.dom().contains(l)
                    && #[trigger] old(self)@.graph[l].children.contains(e) ==> !final(self)@.graph.dom().contains(e.target),
            forall|l: u64, m: MemLoc|
                old(self)@.graph.dom().contains(l) && !final(self)@.graph.dom().contains(l)
                    && #[trigger] old(self)@.graph[l].locs.contains(m) ==> final(removed)@.contains(m),
            forall|m: MemLoc| #[trigger] final(removed)@.contains(m) ==> old(removed)@.contains(m)
                || exists|l: u64| #[trigger]
                old(self)@.graph.dom().contains(l) && !final(self)@.graph.dom().contains(l)
                    && old(self)@.graph[l].locs.contains(m),
    {
        let ghost g0 = old(self)@.graph;
        let mut todo: Vec<u64> = Vec::new();
        todo.push(start);
        proof {
            assert(todo@[0] == start);
            assert(todo@.contains(start));
            self.graph.lemma_finite();
            assert forall|l: u64| #[trigger] self@.graph.dom().contains(l)
                implies self@.graph[l].children =~= g0[l].children.filter(
                |e: BorrowEdge| self@.graph.dom().contains(e.target),
            ) by {
                assert forall|e: BorrowEdge| g0[l].children.contains(e)
                    implies self@.graph.dom().contains(e.target) by {}
            }
        }
        while todo.len() > 0
            invariant
                in_use.wf(),
                removed.wf(),
                self.temp_to_label == old(self).temp_to_label,
                self.global_to_label == old(self).global_to_label,
                self.graph.wf(),
                graph_consistent(self@.graph),
                self@.graph.dom().subset_of(g0.dom()),
                g0 == old(self)@.graph,
                old(self).wf(),
                forall|l: u64| #[trigger] self@.graph.dom().contains(l)
                    ==> self@.graph[l].locs == g0[l].locs
                    && self@.graph[l].parents == g0[l].parents
                    && self@.graph[l].children == g0[l].children.filter(
                    |e: BorrowEdge| self@.graph.dom().contains(e.target),
                ),
                forall|l: u64| in_use@.contains(l) && g0.dom().contains(l)
                    ==> self@.graph.dom().contains(l),
                forall|m: MemLoc| old(removed)@.contains(m) ==> removed@.contains(m),
                forall|r_: u64| #[trigger] old(self)@.globals.dom().contains(r_)
                    ==> self@.graph.dom().contains(old(self)@.globals[r_])
                    || removed@.contains((MemLoc::Global { resource: r_ })),
                g0.dom().contains(start) && g0[start].children.is_empty() && !in_use@.contains(
                    start,
                ) ==> !self@.graph.dom().contains(start) || todo@.contains(start),
                forall|l: u64, e: BorrowEdge|
                    g0.dom().contains(l) && !self@.graph.dom().contains(l)
                        && #[trigger] g0[l].children.contains(e) ==> !self@.graph.dom().contains(
                        e.target,
                    ),
                forall|l: u64, m: MemLoc|
                    g0.dom().contains(l) && !self@.graph.dom().contains(l)
                        && #[trigger] g0[l].locs.contains(m) ==> removed@.contains(m),
                forall|m: MemLoc| #[trigger] removed@.contains(m) ==> old(removed)@.contains(m)
                    || exists|l: u64| #[trigger]
                    g0.dom().contains(l) && !self@.graph.dom().contains(l)
                        && g0[l].locs.contains(m),
                g0.dom().finite(),
            decreases self@.graph.dom().len(), todo@.len(),
        {
            proof {
                self.graph.lemma_finite();
                vstd::set_lib::lemma_len_subset(self@.graph.dom(), g0.dom());
            }
            let ghost todo0 = todo@;
            let l = todo.pop().unwrap();
            proof {
                assert(todo0[todo0.len() - 1] == l);
                if g0.dom().contains(start) && g0[start].children.is_empty()
                    && !in_use@.contains(start) && self@.graph.dom().contains(start) && l
                    != start && !todo@.contains(start) {
                    assert(todo0.contains(start));
                    let j = choose|j: int| 0 <= j < todo0.len() && todo0[j] == start;
                    assert(j < todo0.len() - 1);
                    assert(todo@[j] == start);
                }
            }
            if in_use.contains(l) {
                continue ;
            }
            let ghost g_prev = self@.graph;
            let taken = self.graph.take(l);
            match taken {
                None => {
                    proof {
                        assert(self@.graph =~= g_prev);
                    }
                    continue ;
                },
                Some(n) => {
                    if !n.children.is_empty() {
                        self.graph.put(l, n);
                        proof {
                            assert(self@.graph =~= g_prev);
                            if l == start && g0.dom().contains(start)
                                && g0[start].children.is_empty() && !in_use@.contains(start) {
                                assert(g_prev[start].children =~= Set::<BorrowEdge>::empty()) by {
                                    assert(g_prev[start].children == g0[start].children.filter(
                                        |e: BorrowEdge| g_prev.dom().contains(e.target),
                                    ));
                                }
                            }
                        }
                        continue ;
                    }
                    removed.union_with(&n.locs);
                    let parents_vec = n.parents.to_vec();
                    let ghost g_del = g_prev.remove(l);
                    let mut j: usize = 0;
                    while j < parents_vec.len()
                        invariant
                            self.temp_to_label == old(self).temp_to_label,
                            self.global_to_label == old(self).global_to_label,
                            self.graph.wf(),
                            parents_vec@.no_duplicates(),
                            parents_vec@.to_set() == g_prev[l].parents,
                            graph_consistent(g_prev),
                            g_prev.dom().contains(l),
                            g_prev[l].children.is_empty(),
                            g_del == g_prev.remove(l),
                            j <= parents_vec.len(),
                            self@.graph.dom() =~= g_del.dom(),
                            forall|k: u64| #[trigger] self@.graph.dom().contains(k)
                                ==> self@.graph[k] == (if parents_vec@.take(j as int).contains(k) {
                                g_prev[k].without_edges_to(l)
                            } else {
                                g_prev[k]
                            }),
                        decreases parents_vec.len() - j,
                    {
                        let p = parents_vec[j];
                        proof {
                            assert(g_prev[l].parents.contains(p)) by {
                                assert(parents_vec@.to_set().contains(p));
                            }
                            assert(p != l) by {
                                if p == l {
                                    let e = choose|e: BorrowEdge| #[trigger]
                                        g_prev[l].children.contains(e) && e.target == l;
                                }
                            }
                            assert(!parents_vec@.take(j as int).contains(p));
                        }
                        self.graph.retain_children_not_target(p, l);
                        proof {
                            assert(parents_vec@.take(j + 1) =~= parents_vec@.take(
                                j as int,
                            ).push(p));
                            broadcast use vstd::seq_lib::lemma_seq_contains_after_push;

                        }
                        j += 1;
                    }
                    proof {
                        assert(parents_vec@.take(parents_vec@.len() as int) =~= parents_vec@);
                        assert(self@.graph =~= drop_node_v(g_prev, l)) by {
                            assert forall|k: u64| self@.graph.dom().contains(k)
                                implies self@.graph[k] =~= drop_node_v(g_prev, l)[k] by {
                                if parents_vec@.contains(k) {
                                } else {
                                    assert(!g_prev[l].parents.contains(k)) by {
                                        assert(parents_vec@.to_set() == g_prev[l].parents);
                                        if g_prev[l].parents.contains(k) {
                                            assert(parents_vec@.to_set().contains(k));
                                        }
                                    }
                                    assert(g_prev[k].children.filter(
                                        |e: BorrowEdge| e.target != l,
                                    ) =~= g_prev[k].children) by {
                                        assert forall|e: BorrowEdge|
                                            g_prev[k].children.contains(e)
                                            implies e.target != l by {
                                            if e.target == l {
                                                assert(g_prev[l].parents.contains(k));
                                            }
                                        }
                                    }
                                }
                            }
                            assert(self@.graph.dom() =~= drop_node_v(g_prev, l).dom());
                        }
                        lemma_drop_leaf_consistent(g_prev, l);
                        assert forall|k: u64| #[trigger] self@.graph.dom().contains(k)
                            implies self@.graph[k].children =~= g0[k].children.filter(
                            |e: BorrowEdge| self@.graph.dom().contains(e.target),
                        ) by {
                            assert(self@.graph[k].children =~= g_prev[k].children.filter(
                                |e: BorrowEdge| e.target != l,
                            ));
                            assert(g_prev[k].children == g0[k].children.filter(
                                |e: BorrowEdge| g_prev.dom().contains(e.target),
                            ));
                        }
                    }
                    proof {
                        assert forall|k: int| 0 <= k < parents_vec@.len()
                            implies parents_vec@[k] != l by {
                            if parents_vec@[k] == l {
                                assert(parents_vec@.to_set().contains(l));
                                assert(g_prev[l].parents.contains(l));
                                let e = choose|e: BorrowEdge| #[trigger]
                                    g_prev[l].children.contains(e) && e.target == l;
                            }
                        }
                    }
                    // Parents that lost their last edge are dropped in turn.
                    let mut j2: usize = 0;
                    while j2 < parents_vec.len()
                        invariant
                            self.graph.wf(),
                            parents_vec@.no_duplicates(),
                            j2 <= parents_vec.len(),
                            forall|k: int| 0 <= k < parents_vec@.len()
                                ==> parents_vec@[k] != l,
                            self@.graph.dom() =~= g_prev.dom().remove(l),
                            (g0.dom().contains(start) && g0[start].children.is_empty()
                                && !in_use@.contains(start)) ==> !self@.graph.dom().contains(
                                start,
                            ) || todo@.contains(start),
                        decreases parents_vec.len() - j2,
                    {
                        let p = parents_vec[j2];
                        match self.graph.get(p) {
                            Some(n2) => {
                                if n2.children.is_empty() {
                                    todo.push(p);
                                    proof {
                                        broadcast use vstd::seq_lib::lemma_seq_contains_after_push;

                                    }
                                }
                            },
                            None => (),
                        }
                        j2 += 1;
                    }
                    proof {
                        vstd::set_lib::lemma_len_subset(self@.graph.dom(), g0.dom());
                        assert(self@.graph.dom().len() < g_prev.dom().len()) by {
                            self.graph.lemma_finite();
                            assert(self@.graph.dom() =~= g_prev.dom().remove(l));
                            vstd::set_lib::lemma_len_subset(g_prev.dom(), g0.dom());
                        }
                    }
                },
            }
        }
    }

    /// Releases the reference held in `temp`: the binding is removed, and if
    /// the node it pointed at is a leaf that no other temporary uses, the
    /// node is dropped, cascading to parents that lose their last edge.  Map
    /// entries whose root locations died are purged.
    pub fn release_ref(&mut self, temp: usize)
        requires
            old(self).wf(),
        ensures
            final(self).wf(),
            !final(self)@.temps.dom().contains(temp),
            final(self)@.graph.dom().subset_of(old(self)@.graph.dom()),
            forall|l: u64| #[trigger] final(self)@.graph.dom().contains(l)
                ==> final(self)@.graph[l].locs == old(self)@.graph[l].locs
                && final(self)@.graph[l].parents == old(self)@.graph[l].parents
                && final(self)@.graph[l].children == old(self)@.graph[l].children.filter(
                |e: BorrowEdge| final(self)@.graph.dom().contains(e.target),
            ),
            forall|t: usize| #[trigger] final(self)@.temps.dom().contains(t) ==> t != temp
                && old(self)@.temps.dom().contains(t) && final(self)@.temps[t] == old(self)@.temps[t],
            forall|r_: u64| #[trigger] final(self)@.globals.dom().contains(r_) ==> old(self)@.globals.dom().contains(r_) && final(self)@.globals[r_] == old(self)@.globals[r_],
            forall|t: usize| old(self)@.temps.dom().contains(t) && t != temp
                ==> final(self)@.graph.dom().contains(old(self)@.temps[t]),
            !old(self)@.temps.dom().contains(temp) ==> final(self)@ == old(self)@,
            old(self)@.temps.dom().contains(temp) && !old(self)@.graph[old(self)@.temps[temp]].children.is_empty() ==> final(self)@.graph == old(self)@.graph
                && final(self)@.temps == old(self)@.temps.remove(temp) && final(self)@.globals
                == old(self)@.globals,
            old(self)@.temps.dom().contains(temp) && old(self)@.graph[old(self)@.temps[temp]].children.is_empty() && !used_labels(
                old(self)@.temps.remove(temp),
            ).contains(old(self)@.temps[temp]) ==> !final(self)@.graph.dom().contains(
                old(self)@.temps[temp],
            ),
            forall|l: u64, e: BorrowEdge|
                old(self)@.graph.dom().contains(l) && !final(self)@.graph.dom().contains(l)
                    && #[trigger] old(self)@.graph[l].children.contains(e) ==> !final(self)@.graph.dom().contains(e.target),
            forall|t: usize|
                old(self)@.temps.dom().contains(t) && t != temp ==> ((#[trigger] final(self)@.temps.dom().contains(t)) <==> !(exists|l: u64| #[trigger]
                    old(self)@.graph.dom().contains(l) && !final(self)@.graph.dom().contains(l)
                        && old(self)@.graph[l].locs.contains((MemLoc::Local { temp: t })))),
            forall|r_: u64|
                old(self)@.globals.dom().contains(r_) ==> ((#[trigger] final(self)@.globals.dom().contains(r_)) <==> !(exists|l: u64| #[trigger]
                    old(self)@.graph.dom().contains(l) && !final(self)@.graph.dom().contains(l)
                        && old(self)@.graph[l].locs.contains(
                        (MemLoc::Global { resource: r_ }),
                    ))),
    {
        let label_opt = self.temp_to_label.get(temp);
        match label_opt {
            None => {
                proof {
                    lemma_children_filter_identity(self@.graph);
                }
            },
            Some(label) => {
                self.temp_to_label.remove(temp);
                if self.is_leaf(label) {
                    let in_use = self.labels_in_use();
                    let mut removed = LocSet::new();
                    let ghost pre = self@;
                    self.drop_cascade(label, &in_use, &mut removed);
                    let ghost mid = self@;
                    let locs_vec = removed.to_vec();
                    proof {
                        assert(self@.globals == pre.globals);
                        assert(self@.temps == pre.temps);
                        assert(temps_sound(self@.graph, self@.temps)) by {
                            assert forall|t: usize| #[trigger] self@.temps.dom().contains(t)
                                implies self@.graph.dom().contains(self@.temps[t]) by {
                                assert(used_labels(pre.temps).contains(pre.temps[t]));
                                assert(pre.graph.dom().contains(pre.temps[t]));
                            }
                        }
                        assert forall|r_: u64| #[trigger] self@.globals.dom().contains(r_)
                            implies self@.graph.dom().contains(self@.globals[r_])
                            || locs_vec@.skip(0).contains((MemLoc::Global { resource: r_ }))
                            by {
                            assert(locs_vec@.skip(0) =~= locs_vec@);
                            assert(pre.globals.dom().contains(r_));
                            if !self@.graph.dom().contains(self@.globals[r_]) {
                                assert(removed@.contains((MemLoc::Global { resource: r_ })));
                                assert(locs_vec@.to_set().contains(
                                    (MemLoc::Global { resource: r_ }),
                                ));
                            }
                        }
                    }
                    let mut i: usize = 0;
                    while i < locs_vec.len()
                        invariant
                            i <= locs_vec.len(),
                            locs_vec@.to_set() == removed@,
                            self.graph.wf(),
                            self.temp_to_label.wf(),
                            self.global_to_label.wf(),
                            graph_consistent(self@.graph),
                            self@.graph == mid.graph,
                            forall|t: usize| #[trigger] self@.temps.dom().contains(t)
                                ==> mid.temps.dom().contains(t) && self@.temps[t] == mid.temps[t],
                            forall|r_: u64| #[trigger] self@.globals.dom().contains(r_)
                                ==> mid.globals.dom().contains(r_) && self@.globals[r_]
                                == mid.globals[r_],
                            !self@.temps.dom().contains(temp),
                            temps_sound(self@.graph, self@.temps),
                            forall|r_: u64| #[trigger] self@.globals.dom().contains(r_)
                                ==> self@.graph.dom().contains(self@.globals[r_])
                                || locs_vec@.skip(i as int).contains(
                                (MemLoc::Global { resource: r_ }),
                            ),
                            forall|r_: u64| #[trigger] self@.globals.dom().contains(r_)
                                ==> old(self)@.graph[self@.globals[r_]].locs.contains(
                                (MemLoc::Global { resource: r_ }),
                            ) && old(self)@.graph.dom().contains(self@.globals[r_]),
                            forall|t: usize| #[trigger] mid.temps.dom().contains(t)
                                ==> (self@.temps.dom().contains(t) <==> !locs_vec@.take(
                                i as int,
                            ).contains((MemLoc::Local { temp: t }))),
                            forall|r_: u64| #[trigger] mid.globals.dom().contains(r_)
                                ==> (self@.globals.dom().contains(r_) <==> !locs_vec@.take(
                                i as int,
                            ).contains((MemLoc::Global { resource: r_ }))),
                        decreases locs_vec.len() - i,
                    {
                        let m = locs_vec[i];
                        let ghost head = self@;
                        proof {
                            assert(locs_vec@.skip(i as int)[0] == m);
                            assert forall|x: MemLoc| locs_vec@.skip(i + 1).contains(x)
                                implies locs_vec@.skip(i as int).contains(x) by {
                                let j = choose|j: int|
                                    0 <= j < locs_vec@.skip(i + 1).len() && #[trigger] locs_vec@.skip(
                                        i + 1,
                                    )[j] == x;
                                assert(locs_vec@.skip(i as int)[j + 1] == x);
                            }
                            assert forall|x: MemLoc|
                                locs_vec@.skip(i as int).contains(x) && x != m
                                implies locs_vec@.skip(i + 1).contains(x) by {
                                let j = choose|j: int|
                                    0 <= j < locs_vec@.skip(i as int).len() && #[trigger] locs_vec@.skip(
                                        i as int,
                                    )[j] == x;
                                assert(j != 0);
                                assert(locs_vec@.skip(i + 1)[j - 1] == x);
                            }
                        }
                        match m {
                            MemLoc::Local { temp: t } => {
                                self.temp_to_label.remove(t);
                            },
                            MemLoc::Global { resource } => {
                                self.global_to_label.remove(resource);
                            },
                            MemLoc::External => (),
                            MemLoc::Derived => (),
                        }
                        proof {
                            assert(locs_vec@.take(i + 1) =~= locs_vec@.take(i as int).push(m));
                            broadcast use vstd::seq_lib::lemma_seq_contains_after_push;

                            assert forall|r_: u64| #[trigger] self@.globals.dom().contains(r_)
                                implies head.globals.dom().contains(r_) && self@.globals[r_]
                                == head.globals[r_] by {}
                            assert forall|r_: u64| #[trigger] self@.globals.dom().contains(r_)
                                implies self@.graph.dom().contains(self@.globals[r_])
                                || locs_vec@.skip(i + 1).contains(
                                (MemLoc::Global { resource: r_ }),
                            ) by {
                                if !self@.graph.dom().contains(self@.globals[r_]) {
                                    assert(head.globals.dom().contains(r_));
                                    assert(locs_vec@.skip(i as int).contains(
                                        (MemLoc::Global { resource: r_ }),
                                    ));
                                    assert((MemLoc::Global { resource: r_ }) != m);
                                }
                            }
                        }
                        i += 1;
                    }
                    proof {
                        assert(locs_vec@.take(locs_vec@.len() as int) =~= locs_vec@);
                        assert(pre.graph == old(self)@.graph);
                        assert(self@.graph == mid.graph);
                        assert forall|t: usize|
                            old(self)@.temps.dom().contains(t) && t != temp implies ((
                        #[trigger] self@.temps.dom().contains(t)) <==> !(exists|l: u64| #[trigger]
                            old(self)@.graph.dom().contains(l) && !self@.graph.dom().contains(l)
                                && old(self)@.graph[l].locs.contains(
                                (MemLoc::Local { temp: t }),
                            ))) by {
                            let ghost m = (MemLoc::Local { temp: t });
                            assert(mid.temps.dom().contains(t));
                            if exists|l: u64| #[trigger]
                                old(self)@.graph.dom().contains(l)
                                    && !self@.graph.dom().contains(l)
                                    && old(self)@.graph[l].locs.contains(m) {
                                let l = choose|l: u64| #[trigger]
                                    old(self)@.graph.dom().contains(l)
                                        && !self@.graph.dom().contains(l)
                                        && old(self)@.graph[l].locs.contains(m);
                                assert(pre.graph.dom().contains(l) && !mid.graph.dom().contains(l)
                                    && pre.graph[l].locs.contains(m));
                                assert(removed@.contains(m));
                                assert(locs_vec@.to_set().contains(m));
                                assert(locs_vec@.contains(m));
                                assert(!self@.temps.dom().contains(t));
                            } else {
                                if locs_vec@.contains(m) {
                                    assert(locs_vec@.to_set().contains(m));
                                    assert(removed@.contains(m));
                                    let l = choose|l: u64| #[trigger]
                                        pre.graph.dom().contains(l) && !mid.graph.dom().contains(
                                            l,
                                        ) && pre.graph[l].locs.contains(m);
                                    assert(old(self)@.graph.dom().contains(l)
                                        && !self@.graph.dom().contains(l)
                                        && old(self)@.graph[l].locs.contains(m));
                                    assert(false);
                                }
                                assert(self@.temps.dom().contains(t));
                            }
                        }
                        assert forall|r_: u64|
                            old(self)@.globals.dom().contains(r_) implies ((
                        #[trigger] self@.globals.dom().contains(r_)) <==> !(exists|l: u64|
                            #[trigger] old(self)@.graph.dom().contains(l)
                                && !self@.graph.dom().contains(l)
                                && old(self)@.graph[l].locs.contains(
                                (MemLoc::Global { resource: r_ }),
                            ))) by {
                            let ghost m = (MemLoc::Global { resource: r_ });
                            assert(mid.globals.dom().contains(r_));
                            if exists|l: u64| #[trigger]
                                old(self)@.graph.dom().contains(l)
                                    && !self@.graph.dom().contains(l)
                                    && old(self)@.graph[l].locs.contains(m) {
                                let l = choose|l: u64| #[trigger]
                                    old(self)@.graph.dom().contains(l)
                                        && !self@.graph.dom().contains(l)
                                        && old(self)@.graph[l].locs.contains(m);
                                assert(pre.graph.dom().contains(l) && !mid.graph.dom().contains(l)
                                    && pre.graph[l].locs.contains(m));
                                assert(removed@.contains(m));
                                assert(locs_vec@.to_set().contains(m));
                                assert(locs_vec@.contains(m));
                                assert(!self@.globals.dom().contains(r_));
                            } else {
                                if locs_vec@.contains(m) {
                                    assert(locs_vec@.to_set().contains(m));
                                    assert(removed@.contains(m));
                                    let l = choose|l: u64| #[trigger]
                                        pre.graph.dom().contains(l) && !mid.graph.dom().contains(
                                            l,
                                        ) && pre.graph[l].locs.contains(m);
                                    assert(old(self)@.graph.dom().contains(l)
                                        && !self@.graph.dom().contains(l)
                                        && old(self)@.graph[l].locs.contains(m));
                                    assert(false);
                                }
                                assert(self@.globals.dom().contains(r_));
                            }
                        }
                        assert(locs_vec@.skip(locs_vec@.len() as int) =~= Seq::<MemLoc>::empty());
                        assert(globals_sound(self@.graph, self@.globals)) by {
                            assert forall|r_: u64| #[trigger] self@.globals.dom().contains(r_)
                                implies self@.graph.dom().contains(self@.globals[r_])
                                && self@.graph[self@.globals[r_]].locs.contains(
                                (MemLoc::Global { resource: r_ }),
                            ) by {
                                assert(!locs_vec@.skip(locs_vec@.len() as int).contains(
                                    (MemLoc::Global { resource: r_ }),
                                ));
                            }
                        }
                    }
                } else {
                    proof {
                        lemma_children_filter_identity(self@.graph);
                    }
                }
            },
        }
    }

    /// Replaces the reference held in `temp` by a fresh derived node labeled
    /// for the code position, releasing the old binding first.
    pub fn replace_ref(&mut self, temp: usize, code_offset: u16, qualifier: u8) -> (r: u64)
        requires
            old(self).wf(),
        ensures
            final(self).wf(),
            r == code_label(code_offset, qualifier),
            final(self)@.temps.dom().contains(temp),
            final(self)@.temps[temp] == r,
            final(self)@.graph.dom().contains(r),
            forall|t: usize| #[trigger] final(self)@.temps.dom().contains(t) && t != temp
                ==> old(self)@.temps.dom().contains(t) && final(self)@.temps[t] == old(self)@.temps[t],
            forall|r_: u64| #[trigger] final(self)@.globals.dom().contains(r_) ==> old(self)@.globals.dom().contains(r_) && final(self)@.globals[r_] == old(self)@.globals[r_],
            final(self)@.graph.dom().subset_of(old(self)@.graph.dom().insert(r as u64)),
            forall|l: u64|
                old(self)@.graph.dom().contains(l) && #[trigger] final(self)@.graph.dom().contains(
                    l,
                ) && l != r ==> final(self)@.graph[l].locs == old(self)@.graph[l].locs && final(self)@.graph[l].parents == old(self)@.graph[l].parents
                    && final(self)@.graph[l].children.subset_of(old(self)@.graph[l].children),
            forall|l: u64, e: BorrowEdge|
                old(self)@.graph.dom().contains(l) && final(self)@.graph.dom().contains(l) && l
                    != r && #[trigger] old(self)@.graph[l].children.contains(e) && final(self)@.graph.dom().contains(e.target) && e.target != r ==> final(self)@.graph[l].children.contains(e),
            forall|t: usize|
                old(self)@.temps.dom().contains(t) && t != temp ==> final(self)@.graph.dom().contains(old(self)@.temps[t]),
    {
        self.release_ref(temp);
        self.make_temp(temp, code_offset, qualifier, false)
    }

    /// Like `make_temp`, but labels a fresh node from the entry counter;
    /// used for the reference parameters at function entry.
    pub fn make_temp_counter(&mut self, temp: usize, count: u32, root: bool) -> (r: u64)
        requires
            old(self).wf(),
        ensures
            final(self).wf(),
            final(self)@.globals == old(self)@.globals,
            old(self)@.temps.dom().contains(temp) ==> r == old(self)@.temps[temp] && final(self)@
                == old(self)@,
            !old(self)@.temps.dom().contains(temp) ==> r == crate::ids::counter_label(count)
                && final(self)@.temps == old(self)@.temps.insert(temp, r),
            !old(self)@.temps.dom().contains(temp) && old(self)@.graph.dom().contains(
                (crate::ids::counter_label(count) as u64),
            ) ==> final(self)@.graph == old(self)@.graph,
            !old(self)@.temps.dom().contains(temp) && !old(self)@.graph.dom().contains(
                (crate::ids::counter_label(count) as u64),
            ) ==> final(self)@.graph == old(self)@.graph.insert(
                r,
                fresh_node_v(if root { (MemLoc::Local { temp }) } else { MemLoc::Derived }),
            ),
    {
        match self.temp_to_label.get(temp) {
            Some(label) => label,
            None => {
                let label = crate::ids::label_from_counter(count);
                if !self.graph.contains_key(label) {
                    self.new_node(
                        label,
                        if root {
                            MemLoc::Local { temp }
                        } else {
                            MemLoc::Derived
                        },
                    );
                }
                self.temp_to_label.insert(temp, label);
                label
            },
        }
    }

    /// An owned copy of the whole state.
    pub fn duplicate(&self) -> (r: Self)
        requires
            self.wf(),
        ensures
            r.wf(),
            r@ == self@,
    {
        let entries = self.graph.entries();
        let mut graph = Graph::new();
        let mut i: usize = 0;
        while i < entries.len()
            invariant
                i <= entries.len(),
                graph.wf(),
                crate::graph::graph_key_seq(entries@).no_duplicates(),
                crate::graph::graph_key_seq(entries@).to_set() == self@.graph.dom(),
                forall|j: int| 0 <= j < entries@.len() ==> self@.graph.dom().contains(
                    (#[trigger] entries@[j]).0,
                ) && self@.graph[entries@[j].0] == entries@[j].1@ && entries@[j].1.wf(),
                graph@.dom() =~= crate::graph::graph_key_seq(entries@).take(i as int).to_set(),
                forall|l: u64| #[trigger] graph@.dom().contains(l) ==> graph@[l] == self@.graph[l],
            decreases entries.len() - i,
        {
            let (l, n) = (entries[i].0, &entries[i].1);
            proof {
                let keys = crate::graph::graph_key_seq(entries@);
                assert(keys[i as int] == l);
                assert(keys.take(i + 1) =~= keys.take(i as int).push(l));
                broadcast use vstd::prelude::Seq::lemma_push_to_set_commute;

                assert(!keys.take(i as int).to_set().contains(l)) by {
                    if keys.take(i as int).contains(l) {
                        let j = choose|j: int| 0 <= j < i && keys.take(i as int)[j] == l;
                        assert(keys[j] == l);
                    }
                }
            }
            let copy = n.duplicate();
            graph.put(l, copy);
            i += 1;
        }
        let mut temp_to_label = TempMap::new();
        let tpairs = self.temp_to_label.elems();
        let mut j: usize = 0;
        while j < tpairs.len()
            invariant
                j <= tpairs.len(),
                temp_to_label.wf(),
                crate::maps::temp_key_seq(tpairs@).no_duplicates(),
                crate::maps::temp_key_seq(tpairs@).to_set() == self@.temps.dom(),
                forall|k: int| 0 <= k < tpairs@.len() ==> self@.temps.dom().contains(
                    (#[trigger] tpairs@[k]).0,
                ) && self@.temps[tpairs@[k].0] == tpairs@[k].1,
                temp_to_label@.dom() =~= crate::maps::temp_key_seq(tpairs@).take(
                    j as int,
                ).to_set(),
                forall|t: usize| #[trigger] temp_to_label@.dom().contains(t) ==> temp_to_label@[t]
                    == self@.temps[t],
            decreases tpairs.len() - j,
        {
            let (t, v) = (tpairs[j].0, tpairs[j].1);
            proof {
                let keys = crate::maps::temp_key_seq(tpairs@);
                assert(keys[j as int] == t);
                assert(keys.take(j + 1) =~= keys.take(j as int).push(t));
                broadcast use vstd::prelude::Seq::lemma_push_to_set_commute;

            }
            temp_to_label.insert(t, v);
            j += 1;
        }
        let mut global_to_label = LabelMap::new();
        let gpairs = self.global_to_label.elems();
        let mut k: usize = 0;
        while k < gpairs.len()
            invariant
                k <= gpairs.len(),
                global_to_label.wf(),
                crate::maps::label_key_seq(gpairs@).no_duplicates(),
                crate::maps::label_key_seq(gpairs@).to_set() == self@.globals.dom(),
                forall|k2: int| 0 <= k2 < gpairs@.len() ==> self@.globals.dom().contains(
                    (#[trigger] gpairs@[k2]).0,
                ) && self@.globals[gpairs@[k2].0] == gpairs@[k2].1,
                global_to_label@.dom() =~= crate::maps::label_key_seq(gpairs@).take(
                    k as int,
                ).to_set(),
                forall|t: u64| #[trigger] global_to_label@.dom().contains(t)
                    ==> global_to_label@[t] == self@.globals[t],
            decreases gpairs.len() - k,
        {
            let (t, v) = (gpairs[k].0, gpairs[k].1);
            proof {
                let keys = crate::maps::label_key_seq(gpairs@);
                assert(keys[k as int] == t);
                assert(keys.take(k + 1) =~= keys.take(k as int).push(t));
                broadcast use vstd::prelude::Seq::lemma_push_to_set_commute;

            }
            global_to_label.insert(t, v);
            k += 1;
        }
        let r = LifetimeState { graph, temp_to_label, global_to_label };
        proof {
            assert(crate::graph::graph_key_seq(entries@).take(entries@.len() as int)
                =~= crate::graph::graph_key_seq(entries@));
            assert(crate::maps::temp_key_seq(tpairs@).take(tpairs@.len() as int)
                =~= crate::maps::temp_key_seq(tpairs@));
            assert(crate::maps::label_key_seq(gpairs@).take(gpairs@.len() as int)
                =~= crate::maps::label_key_seq(gpairs@));
            assert(r@.graph =~= self@.graph);
            assert(r@.temps =~= self@.temps);
            assert(r@.globals =~= self@.globals);
            assert(r@ =~= self@);
        }
        r
    }

    /// The temporaries currently bound to graph nodes.
    pub fn borrowed_locals(&self) -> (r: Vec<usize>)
        requires
            self.wf(),
        ensures
            r@.no_duplicates(),
            r@.to_set() == self@.temps.dom(),
    {
        self.temp_to_label.keys_vec()
    }

    /// Whether the local is effectively borrowed: bound to a node with
    /// outgoing edges.
    pub fn is_borrowed(&self, temp: usize) -> (r: bool)
        requires
            self.wf(),
        ensures
            r == (borrowed_label_spec(self@, temp) is Some),
    {
        self.label_for_temp_with_children(temp).is_some()
    }

    /// Graph consistency, stated as a law: in a well-formed state, a node
    /// lists a child exactly when the child lists it as a parent, every edge
    /// target resolves in the graph, and every label in the temporary and
    /// global maps names a node of the graph.
    pub proof fn lemma_graph_and_map_invariants(&self)
        requires
            self.wf(),
        ensures
            children_consistent(self@.graph),
            parents_consistent(self@.graph),
            temps_sound(self@.graph, self@.temps),
            globals_sound(self@.graph, self@.globals),
    {
    }

    /// The labels currently pointed at from the temporary map.
    pub fn labels_in_use(&self) -> (r: LabelSet)
        requires
            self.wf(),
        ensures
            r.wf(),
            r@ == used_labels(self@.temps),
    {
        let pairs = self.temp_to_label.elems();
        let mut r = LabelSet::new();
        let mut i: usize = 0;
        while i < pairs.len()
            invariant
                i <= pairs.len(),
                r.wf(),
                self.temp_to_label.wf(),
                crate::maps::temp_key_seq(pairs@).no_duplicates(),
                crate::maps::temp_key_seq(pairs@).to_set() == self@.temps.dom(),
                forall|j: int| 0 <= j < pairs@.len() ==> self@.temps.dom().contains(
                    (#[trigger] pairs@[j]).0,
                ) && self@.temps[pairs@[j].0] == pairs@[j].1,
                forall|l: u64| #[trigger]
                    r@.contains(l) <==> exists|j: int|
                        0 <= j < i && (#[trigger] pairs@[j]).1 == l,
            decreases pairs.len() - i,
        {
            r.insert(pairs[i].1);
            i += 1;
        }
        proof {
            assert(r@ =~= used_labels(self@.temps)) by {
                assert forall|l: u64| r@.contains(l) implies used_labels(self@.temps).contains(
                    l,
                ) by {
                    let j = choose|j: int| 0 <= j < pairs@.len() && (#[trigger] pairs@[j]).1 == l;
                    assert(self@.temps.dom().contains(pairs@[j].0) && self@.temps[pairs@[j].0]
                        == l);
                }
                assert forall|l: u64| used_labels(self@.temps).contains(l) implies r@.contains(
                    l,
                ) by {
                    let t = choose|t: usize| #[trigger]
                        self@.temps.dom().contains(t) && self@.temps[t] == l;
                    assert(crate::maps::temp_key_seq(pairs@).to_set().contains(t));
                    assert(crate::maps::temp_key_seq(pairs@).contains(t));
                    let j = choose|j: int|
                        0 <= j < pairs@.len() && crate::maps::temp_key_seq(pairs@)[j] == t;
                    assert(pairs@[j].0 == t);
                    assert(pairs@[j].1 == l);
                }
            }
        }
        r
    }

    /// The temporaries bound to the given label.
    pub fn temps_for_label(&self, label: u64) -> (r: TempSet)
        requires
            self.wf(),
        ensures
            r.wf(),
            r@ == temps_of(self@.temps, label),
    {
        let pairs = self.temp_to_label.elems();
        let mut r = TempSet::new();
        let mut i: usize = 0;
        while i < pairs.len()
            invariant
                i <= pairs.len(),
                r.wf(),
                self.temp_to_label.wf(),
                crate::maps::temp_key_seq(pairs@).no_duplicates(),
                crate::maps::temp_key_seq(pairs@).to_set() == self@.temps.dom(),
                forall|j: int| 0 <= j < pairs@.len() ==> self@.temps.dom().contains(
                    (#[trigger] pairs@[j]).0,
                ) && self@.temps[pairs@[j].0] == pairs@[j].1,
                forall|t: usize| #[trigger]
                    r@.contains(t) <==> exists|j: int|
                        0 <= j < i && (#[trigger] pairs@[j]).0 == t && pairs@[j].1 == label,
            decreases pairs.len() - i,
        {
            if pairs[i].1 == label {
                r.insert(pairs[i].0);
            }
            i += 1;
        }
        proof {
            assert(r@ =~= temps_of(self@.temps, label)) by {
                assert forall|t: usize| r@.contains(t) implies temps_of(
                    self@.temps,
                    label,
                ).contains(t) by {
                    let j = choose|j: int|
                        0 <= j < pairs@.len() && (#[trigger] pairs@[j]).0 == t && pairs@[j].1
                            == label;
                }
                assert forall|t: usize| temps_of(self@.temps, label).contains(t) implies
                    r@.contains(t) by {
                    assert(crate::maps::temp_key_seq(pairs@).to_set().contains(t));
                    assert(crate::maps::temp_key_seq(pairs@).contains(t));
                    let j = choose|j: int|
                        0 <= j < pairs@.len() && crate::maps::temp_key_seq(pairs@)[j] == t;
                    assert(pairs@[j].0 == t);
                }
            }
        }
        r
    }
}

/// The node a `make_temp`/`make_global` creation starts from: one location,
/// no edges.
pub open spec fn fresh_node_v(location: MemLoc) -> NodeV {
    NodeV {
        locs: Set::<MemLoc>::empty().insert(location),
        children: Set::<BorrowEdge>::empty(),
        parents: Set::<u64>::empty(),
    }
}

/// The label of a temporary that is effectively borrowed: bound to a node
/// with outgoing edges.
pub open spec fn borrowed_label_spec(s: StateV, temp: usize) -> Option<u64> {
    if s.temps.dom().contains(temp) && !s.graph[s.temps[temp]].children.is_empty() {
        Some(s.temps[temp])
    } else {
        None
    }
}

/// The temporaries bound to a label.
pub open spec fn temps_of(temps: Map<usize, u64>, label: u64) -> Set<usize> {
    Set::new(|t: usize| temps.dom().contains(t) && temps[t] == label)
}

/// The graph after adding an edge from `l`: the edge joins `l`'s children
/// and `l` joins the target's backlinks.
pub open spec fn add_edge_v(g: Map<u64, NodeV>, l: u64, e: BorrowEdge) -> Map<u64, NodeV> {
    let g1 = g.insert(l, g[l].with_child(e));
    g1.insert(e.target, g1[e.target].with_parent(l))
}

/// Inserting an isolated node preserves the graph invariant.
pub proof fn lemma_insert_isolated_consistent(g: Map<u64, NodeV>, label: u64, location: MemLoc)
    requires
        graph_consistent(g),
        !g.dom().contains(label),
    ensures
        graph_consistent(g.insert(label, fresh_node_v(location))),
{
    let g2 = g.insert(label, fresh_node_v(location));
    assert forall|l: u64, e: BorrowEdge|
        g2.dom().contains(l) && #[trigger] g2[l].children.contains(e) implies g2.dom().contains(
        e.target,
    ) && g2[e.target].parents.contains(l) by {
        assert(l != label);
        assert(g[l].children.contains(e));
        assert(e.target != label);
    }
    assert forall|l: u64, p: u64|
        g2.dom().contains(l) && #[trigger] g2[l].parents.contains(p) implies g2.dom().contains(p)
        && exists|e: BorrowEdge| #[trigger] g2[p].children.contains(e) && e.target == l by {
        assert(l != label);
        assert(g[l].parents.contains(p));
        assert(p != label);
        let e = choose|e: BorrowEdge| #[trigger] g[p].children.contains(e) && e.target == l;
        assert(g2[p].children.contains(e));
    }
    assert forall|l: u64| #[trigger]
        g2.dom().contains(l) implies exists|m: MemLoc| g2[l].locs.contains(m) by {
        if l == label {
            assert(g2[l].locs.contains(location));
        } else {
            let m = choose|m: MemLoc| g[l].locs.contains(m);
            assert(g2[l].locs.contains(m));
        }
    }
}

/// In a consistent graph, filtering the children of any node by "the target
/// is in the graph" changes nothing.
pub proof fn lemma_children_filter_identity(g: Map<u64, NodeV>)
    requires
        children_consistent(g),
    ensures
        forall|l: u64| #[trigger] g.dom().contains(l) ==> g[l].children == g[l].children.filter(
            |e: BorrowEdge| g.dom().contains(e.target),
        ),
{
    assert forall|l: u64| #[trigger] g.dom().contains(l) implies g[l].children
        == g[l].children.filter(|e: BorrowEdge| g.dom().contains(e.target)) by {
        assert(g[l].children =~= g[l].children.filter(
            |e: BorrowEdge| g.dom().contains(e.target),
        )) by {
            assert forall|e: BorrowEdge| g[l].children.contains(e) implies g.dom().contains(
                e.target,
            ) by {}
        }
    }
}

/// The graph after dropping the leaf `l`: the node disappears and the edges
/// into it are cut from every remaining node.
pub open spec fn drop_node_v(g: Map<u64, NodeV>, l: u64) -> Map<u64, NodeV> {
    Map::new(
        |k: u64| g.dom().contains(k) && k != l,
        |k: u64| g[k].without_edges_to(l),
    )
}

/// Dropping a leaf preserves the graph invariant.
pub proof fn lemma_drop_leaf_consistent(g: Map<u64, NodeV>, l0: u64)
    requires
        graph_consistent(g),
        g.dom().contains(l0),
        g[l0].children.is_empty(),
    ensures
        graph_consistent(drop_node_v(g, l0)),
        drop_node_v(g, l0).dom() == g.dom().remove(l0),
{
    let g2 = drop_node_v(g, l0);
    assert(g2.dom() =~= g.dom().remove(l0));
    assert forall|l: u64, e: BorrowEdge|
        g2.dom().contains(l) && #[trigger] g2[l].children.contains(e) implies g2.dom().contains(
        e.target,
    ) && g2[e.target].parents.contains(l) by {
        assert(g[l].children.contains(e));
        assert(e.target != l0);
        assert(g[e.target].parents.contains(l));
    }
    assert forall|l: u64, p: u64|
        g2.dom().contains(l) && #[trigger] g2[l].parents.contains(p) implies g2.dom().contains(p)
        && exists|e: BorrowEdge| #[trigger] g2[p].children.contains(e) && e.target == l by {
        assert(g[l].parents.contains(p));
        let e = choose|e: BorrowEdge| #[trigger] g[p].children.contains(e) && e.target == l;
        assert(p != l0) by {
            if p == l0 {
                assert(g[l0].children.contains(e));
            }
        }
        assert(e.target != l0);
        assert(g2[p].children.contains(e));
    }
    assert forall|l: u64| #[trigger]
        g2.dom().contains(l) implies exists|m: MemLoc| g2[l].locs.contains(m) by {
        let m = choose|m: MemLoc| g[l].locs.contains(m);
        assert(g2[l].locs.contains(m));
    }
}

/// Adding a location to an existing node preserves the graph invariant.
pub proof fn lemma_add_loc_consistent(g: Map<u64, NodeV>, l0: u64, m: MemLoc)
    requires
        graph_consistent(g),
        g.dom().contains(l0),
    ensures
        graph_consistent(g.insert(l0, g[l0].with_loc(m))),
{
    let g2 = g.insert(l0, g[l0].with_loc(m));
    assert(g2.dom() =~= g.dom());
    assert forall|l: u64, e: BorrowEdge|
        g2.dom().contains(l) && #[trigger] g2[l].children.contains(e) implies g2.dom().contains(
        e.target,
    ) && g2[e.target].parents.contains(l) by {
        assert(g[l].children.contains(e));
        assert(g[e.target].parents.contains(l));
    }
    assert forall|l: u64, p: u64|
        g2.dom().contains(l) && #[trigger] g2[l].parents.contains(p) implies g2.dom().contains(p)
        && exists|e: BorrowEdge| #[trigger] g2[p].children.contains(e) && e.target == l by {
        assert(g[l].parents.contains(p));
        let e = choose|e: BorrowEdge| #[trigger] g[p].children.contains(e) && e.target == l;
        assert(g2[p].children.contains(e));
    }
    assert forall|l: u64| #[trigger]
        g2.dom().contains(l) implies exists|m2: MemLoc| g2[l].locs.contains(m2) by {
        if l == l0 {
            assert(g2[l].locs.contains(m));
        } else {
            let m2 = choose|m2: MemLoc| g[l].locs.contains(m2);
            assert(g2[l].locs.contains(m2));
        }
    }
}

/// Adding an edge between existing nodes preserves the graph invariant.
pub proof fn lemma_add_edge_consistent(g: Map<u64, NodeV>, l0: u64, e0: BorrowEdge)
    requires
        graph_consistent(g),
        g.dom().contains(l0),
        g.dom().contains(e0.target),
    ensures
        graph_consistent(add_edge_v(g, l0, e0)),
        add_edge_v(g, l0, e0).dom() == g.dom(),
        forall|l: u64| #[trigger]
            g.dom().contains(l) ==> add_edge_v(g, l0, e0)[l].locs == g[l].locs,
{
    let g2 = add_edge_v(g, l0, e0);
    assert(g2.dom() =~= g.dom());
    assert forall|l: u64| #[trigger] g.dom().contains(l) implies g2[l].locs == g[l].locs by {}
    assert forall|l: u64, e: BorrowEdge|
        g2.dom().contains(l) && #[trigger] g2[l].children.contains(e) implies g2.dom().contains(
        e.target,
    ) && g2[e.target].parents.contains(l) by {
        if l == l0 && e == e0 {
            assert(g2[e0.target].parents.contains(l0));
        } else {
            assert(g[l].children.contains(e));
            assert(g[e.target].parents.contains(l));
            assert(g2[e.target].parents.contains(l));
        }
    }
    assert forall|l: u64, p: u64|
        g2.dom().contains(l) && #[trigger] g2[l].parents.contains(p) implies g2.dom().contains(p)
        && exists|e: BorrowEdge| #[trigger] g2[p].children.contains(e) && e.target == l by {
        if l == e0.target && p == l0 {
            assert(g2[l0].children.contains(e0) && e0.target == l);
        } else {
            assert(g[l].parents.contains(p));
            let e = choose|e: BorrowEdge| #[trigger] g[p].children.contains(e) && e.target == l;
            assert(g2[p].children.contains(e));
        }
    }
    assert forall|l: u64| #[trigger]
        g2.dom().contains(l) implies exists|m: MemLoc| g2[l].locs.contains(m) by {
        let m = choose|m: MemLoc| g[l].locs.contains(m);
        assert(g2[l].locs.contains(m));
    }
}

} // verus!
