//! The borrow graph: a map from node labels to lifetime nodes.
//!
//! A node carries the memory locations it stands for, its outgoing borrow
//! edges, and backlinks to its parents.  The graph is an association list
//! with unique labels, viewed as a mathematical `Map` from label to the
//! node's abstraction.

use crate::edge::BorrowEdge;
use crate::edge::MemLoc;
use crate::sets::EdgeSet;
use crate::sets::LabelSet;
use crate::sets::LocSet;
use vstd::prelude::*;

verus! {

broadcast use vstd::seq_lib::seq_to_set_is_finite;

/// A node of the borrow graph.
pub struct Node {
    /// Memory locations associated with this node; a set as a result of
    /// joins, and never empty.
    pub locs: LocSet,
    /// Outgoing edges to children.
    pub children: EdgeSet,
    /// Backlinks to parents.
    pub parents: LabelSet,
}

/// The mathematical abstraction of a node.
#[verifier::ext_equal]
pub ghost struct NodeV {
    pub locs: Set<MemLoc>,
    pub children: Set<BorrowEdge>,
    pub parents: Set<u64>,
}

impl View for Node {
    type V = NodeV;

    open spec fn view(&self) -> NodeV {
        NodeV { locs: self.locs@, children: self.children@, parents: self.parents@ }
    }
}

impl Node {
    /// Well-formed: the three component sets are well-formed.
    pub open spec fn wf(self) -> bool {
        self.locs.wf() && self.children.wf() && self.parents.wf()
    }

    /// A fresh node with a single location and no edges.
    pub fn new_with_loc(loc: MemLoc) -> (r: Self)
        ensures
            r.wf(),
            r@.locs == Set::<MemLoc>::empty().insert(loc),
            r@.children == Set::<BorrowEdge>::empty(),
            r@.parents == Set::<u64>::empty(),
    {
        Node { locs: LocSet::singleton(loc), children: EdgeSet::new(), parents: LabelSet::new() }
    }

    /// An owned copy of the node.
    pub fn duplicate(&self) -> (r: Self)
        requires
            self.wf(),
        ensures
            r.wf(),
            r@ == self@,
    {
        Node {
            locs: self.locs.duplicate(),
            children: self.children.duplicate(),
            parents: self.parents.duplicate(),
        }
    }

}

impl NodeV {
    /// Pointwise union of two node abstractions.
    pub open spec fn union_v(self, other: NodeV) -> NodeV {
        NodeV {
            locs: self.locs.union(other.locs),
            children: self.children.union(other.children),
            parents: self.parents.union(other.parents),
        }
    }

    /// This node with one more memory location.
    pub open spec fn with_loc(self, m: MemLoc) -> NodeV {
        NodeV { locs: self.locs.insert(m), ..self }
    }

    /// This node with one more outgoing edge.
    pub open spec fn with_child(self, e: BorrowEdge) -> NodeV {
        NodeV { children: self.children.insert(e), ..self }
    }

    /// This node with one more parent backlink.
    pub open spec fn with_parent(self, p: u64) -> NodeV {
        NodeV { parents: self.parents.insert(p), ..self }
    }

    /// This node without the edges into `target`.
    pub open spec fn without_edges_to(self, target: u64) -> NodeV {
        NodeV { children: self.children.filter(|e: BorrowEdge| e.target != target), ..self }
    }

    /// Whether `other` adds nothing to this node.
    pub open spec fn includes(self, other: NodeV) -> bool {
        other.locs.subset_of(self.locs) && other.children.subset_of(self.children)
            && other.parents.subset_of(self.parents)
    }
}

/// The keys of a graph pair sequence, in order.
pub open spec fn graph_key_seq(s: Seq<(u64, Node)>) -> Seq<u64> {
    s.map_values(|p: (u64, Node)| p.0)
}

/// The map that a graph pair sequence denotes.
pub open spec fn graph_assoc_view(s: Seq<(u64, Node)>) -> Map<u64, NodeV>
    decreases s.len(),
{
    if s.len() == 0 {
        Map::empty()
    } else {
        graph_assoc_view(s.drop_last()).insert(s.last().0, s.last().1@)
    }
}

/// Characterization of the view of a key-unique graph sequence.
pub proof fn lemma_graph_assoc_props(s: Seq<(u64, Node)>)
    requires
        graph_key_seq(s).no_duplicates(),
    ensures
        graph_assoc_view(s).dom() =~= graph_key_seq(s).to_set(),
        forall|i: int| 0 <= i < s.len() ==> graph_assoc_view(s)[s[i].0] == s[i].1@,
        graph_assoc_view(s).dom().finite(),
    decreases s.len(),
{
    if s.len() > 0 {
        let rest = s.drop_last();
        assert(graph_key_seq(rest) =~= graph_key_seq(s).drop_last());
        assert(graph_key_seq(rest).no_duplicates());
        lemma_graph_assoc_props(rest);
        let k = s.last().0;
        assert(!graph_key_seq(rest).contains(k)) by {
            if graph_key_seq(rest).contains(k) {
                let j = choose|j: int|
                    0 <= j < graph_key_seq(rest).len() && graph_key_seq(rest)[j] == k;
                assert(graph_key_seq(s)[j] == k);
                assert(graph_key_seq(s)[s.len() - 1] == k);
            }
        }
        assert(graph_assoc_view(s).dom() =~= graph_key_seq(s).to_set()) by {
            assert(graph_key_seq(s) =~= graph_key_seq(rest).push(k));
            broadcast use vstd::prelude::Seq::lemma_push_to_set_commute;

        }
        assert forall|i: int| 0 <= i < s.len() implies graph_assoc_view(s)[s[i].0] == s[i].1@ by {
            if i < s.len() - 1 {
                assert(graph_key_seq(s)[i] == s[i].0);
                assert(graph_key_seq(s)[s.len() - 1] == k);
                assert(s[i].0 != k);
                assert(rest[i] == s[i]);
            }
        }
    }
}

/// The borrow graph.
pub struct Graph {
    items: Vec<(u64, Node)>,
}

impl View for Graph {
    type V = Map<u64, NodeV>;

    closed spec fn view(&self) -> Map<u64, NodeV> {
        graph_assoc_view(self.items@)
    }
}

impl Graph {
    /// Well-formed: unique labels and well-formed nodes.
    pub closed spec fn wf(self) -> bool {
        graph_key_seq(self.items@).no_duplicates() && (forall|i: int|
            0 <= i < self.items@.len() ==> (#[trigger] self.items@[i]).1.wf())
    }

    /// The domain of a well-formed graph is finite.
    pub proof fn lemma_finite(&self)
        requires
            self.wf(),
        ensures
            self@.dom().finite(),
    {
        lemma_graph_assoc_props(self.items@);
    }

    /// The empty graph.
    pub fn new() -> (r: Self)
        ensures
            r.wf(),
            r@ == Map::<u64, NodeV>::empty(),
    {
        let r = Graph { items: Vec::new() };
        proof {
            assert(r@ =~= Map::<u64, NodeV>::empty());
        }
        r
    }

    /// Whether a node with this label exists.
    pub fn contains_key(&self, l: u64) -> (r: bool)
        requires
            self.wf(),
        ensures
            r == self@.dom().contains(l),
    {
        let mut i: usize = 0;
        while i < self.items.len()
            invariant
                i <= self.items.len(),
                self.wf(),
                forall|j: int| 0 <= j < i ==> (#[trigger] self.items@[j]).0 != l,
            decreases self.items.len() - i,
        {
            if self.items[i].0 == l {
                proof {
                    lemma_graph_assoc_props(self.items@);
                    assert(graph_key_seq(self.items@)[i as int] == l);
                    assert(graph_key_seq(self.items@).contains(l));
                }
                return true;
            }
            i += 1;
        }
        proof {
            lemma_graph_assoc_props(self.items@);
            assert(!graph_key_seq(self.items@).contains(l)) by {
                if graph_key_seq(self.items@).contains(l) {
                    let j = choose|j: int|
                        0 <= j < self.items@.len() && graph_key_seq(self.items@)[j] == l;
                    assert(self.items@[j].0 == l);
                }
            }
        }
        false
    }

    /// Read access to the node with this label, if any.
    pub fn get(&self, l: u64) -> (r: Option<&Node>)
        requires
            self.wf(),
        ensures
            match r {
                Some(n) => self@.dom().contains(l) && n@ == self@[l] && n.wf(),
                None => !self@.dom().contains(l),
            },
    {
        let mut i: usize = 0;
        while i < self.items.len()
            invariant
                i <= self.items.len(),
                self.wf(),
                forall|j: int| 0 <= j < i ==> (#[trigger] self.items@[j]).0 != l,
            decreases self.items.len() - i,
        {
            if self.items[i].0 == l {
                proof {
                    lemma_graph_assoc_props(self.items@);
                    assert(graph_key_seq(self.items@)[i as int] == l);
                    assert(graph_key_seq(self.items@).contains(l));
                }
                return Some(&self.items[i].1);
            }
            i += 1;
        }
        proof {
            lemma_graph_assoc_props(self.items@);
            assert(!graph_key_seq(self.items@).contains(l)) by {
                if graph_key_seq(self.items@).contains(l) {
                    let j = choose|j: int|
                        0 <= j < self.items@.len() && graph_key_seq(self.items@)[j] == l;
                    assert(self.items@[j].0 == l);
                }
            }
        }
        None
    }

    /// Inserts a node under a fresh label.
    pub fn put(&mut self, l: u64, n: Node)
        requires
            old(self).wf(),
            !old(self)@.dom().contains(l),
            n.wf(),
        ensures
            final(self).wf(),
            final(self)@ == old(self)@.insert(l, n@),
    {
        proof {
            lemma_graph_assoc_props(self.items@);
            assert(!graph_key_seq(self.items@).contains(l)) by {
                if graph_key_seq(self.items@).contains(l) {
                    let j = choose|j: int|
                        0 <= j < self.items@.len() && graph_key_seq(self.items@)[j] == l;
                    assert(self@.dom().contains(l));
                }
            }
            assert(graph_key_seq(self.items@.push((l, n))) =~= graph_key_seq(self.items@).push(l));
        }
        let ghost pre = self.items@;
        self.items.push((l, n));
        proof {
            assert(self.items@.drop_last() =~= pre);
        }
    }

    /// Removes and returns the node with this label, if any.
    pub fn take(&mut self, l: u64) -> (r: Option<Node>)
        requires
            old(self).wf(),
        ensures
            final(self).wf(),
            final(self)@ == old(self)@.remove(l),
            match r {
                Some(n) => old(self)@.dom().contains(l) && n@ == old(self)@[l] && n.wf(),
                None => !old(self)@.dom().contains(l),
            },
    {
        let mut i: usize = 0;
        while i < self.items.len()
            invariant
                i <= self.items.len(),
                self.wf(),
                self.items@ == old(self).items@,
                forall|j: int| 0 <= j < i ==> (#[trigger] self.items@[j]).0 != l,
            decreases self.items.len() - i,
        {
            if self.items[i].0 == l {
                let ghost s0 = old(self).items@;
                let pair = self.items.swap_remove(i);
                proof {
                    lemma_graph_assoc_props(s0);
                    assert(graph_key_seq(s0)[i as int] == l);
                    assert(graph_key_seq(s0).contains(l));
                    let s1 = self.items@;
                    let n = s0.len();
                    assert(graph_key_seq(s1).no_duplicates()) by {
                        assert forall|j1: int, j2: int|
                            0 <= j1 < j2 < s1.len() implies graph_key_seq(s1)[j1]
                            != graph_key_seq(s1)[j2] by {
                            let m1: int = if j1 == i { n - 1 } else { j1 };
                            let m2: int = if j2 == i { n - 1 } else { j2 };
                            assert(s1[j1] == s0[m1]);
                            assert(s1[j2] == s0[m2]);
                            assert(m1 != m2);
                            assert(graph_key_seq(s0)[m1] != graph_key_seq(s0)[m2]);
                        }
                    }
                    assert forall|j: int| 0 <= j < s1.len() implies (#[trigger] s1[j]).1.wf() by {
                        let m: int = if j == i { n - 1 } else { j };
                        assert(s1[j] == s0[m]);
                        assert(s0[m].1.wf());
                    }
                    lemma_graph_assoc_props(s1);
                    assert(graph_assoc_view(s1) =~= graph_assoc_view(s0).remove(l)) by {
                        assert forall|k: u64| graph_assoc_view(s1).dom().contains(
                            k,
                        ) implies graph_assoc_view(s0).remove(l).dom().contains(k)
                            && graph_assoc_view(s1)[k] == graph_assoc_view(s0)[k] by {
                            let j = choose|j: int|
                                0 <= j < s1.len() && graph_key_seq(s1)[j] == k;
                            let m: int = if j == i { n - 1 } else { j };
                            assert(s1[j] == s0[m]);
                            assert(graph_key_seq(s0)[m] == k);
                            assert(m != i);
                            assert(graph_assoc_view(s1)[k] == s1[j].1@);
                            assert(graph_assoc_view(s0)[k] == s0[m].1@);
                        }
                        assert forall|k: u64| graph_assoc_view(s0).remove(l).dom().contains(
                            k,
                        ) implies graph_assoc_view(s1).dom().contains(k) by {
                            let m = choose|m: int|
                                0 <= m < s0.len() && graph_key_seq(s0)[m] == k;
                            assert(m != i);
                            let j: int = if m == n - 1 { i as int } else { m };
                            if m == n - 1 && i == n - 1 {
                                // Then k == l, excluded.
                                assert(false);
                            } else {
                                assert(j < s1.len());
                                assert(s1[j] == s0[m]);
                                assert(graph_key_seq(s1)[j] == k);
                            }
                        }
                    }
                    assert(pair.1@ == graph_assoc_view(s0)[l]) by {
                        assert(graph_assoc_view(s0)[s0[i as int].0] == s0[i as int].1@);
                    }
                }
                return Some(pair.1);
            }
            i += 1;
        }
        proof {
            lemma_graph_assoc_props(self.items@);
            assert(!graph_key_seq(self.items@).contains(l)) by {
                if graph_key_seq(self.items@).contains(l) {
                    let j = choose|j: int|
                        0 <= j < self.items@.len() && graph_key_seq(self.items@)[j] == l;
                    assert(self.items@[j].0 == l);
                }
            }
            assert(self@ =~= self@.remove(l));
        }
        None
    }

    /// Read access to the entries: label-unique pairs agreeing with the view.
    pub fn entries(&self) -> (r: &Vec<(u64, Node)>)
        requires
            self.wf(),
        ensures
            graph_key_seq(r@).no_duplicates(),
            graph_key_seq(r@).to_set() == self@.dom(),
            forall|i: int| 0 <= i < r@.len() ==> self@.dom().contains(#[trigger] r@[i].0)
                && self@[r@[i].0] == r@[i].1@ && r@[i].1.wf(),
    {
        proof {
            lemma_graph_assoc_props(self.items@);
            assert forall|i: int| 0 <= i < self.items@.len() implies self@.dom().contains(
                #[trigger] self.items@[i].0,
            ) && self@[self.items@[i].0] == self.items@[i].1@ && self.items@[i].1.wf() by {
                assert(graph_key_seq(self.items@)[i] == self.items@[i].0);
            }
        }
        &self.items
    }


    /// Adds an outgoing edge to the node labeled `l`.
    pub fn add_child(&mut self, l: u64, e: BorrowEdge)
        requires
            old(self).wf(),
            old(self)@.dom().contains(l),
        ensures
            final(self).wf(),
            final(self)@ == old(self)@.insert(l, old(self)@[l].with_child(e)),
    {
        let mut n = self.take(l).unwrap();
        n.children.insert(e);
        self.put(l, n);
        proof {
            assert(final(self)@ =~= old(self)@.insert(l, old(self)@[l].with_child(e)));
        }
    }

    /// Adds a memory location to the node labeled `l`.
    pub fn add_loc(&mut self, l: u64, m: MemLoc)
        requires
            old(self).wf(),
            old(self)@.dom().contains(l),
        ensures
            final(self).wf(),
            final(self)@ == old(self)@.insert(l, old(self)@[l].with_loc(m)),
    {
        let mut n = self.take(l).unwrap();
        n.locs.insert(m);
        self.put(l, n);
        proof {
            assert(final(self)@ =~= old(self)@.insert(l, old(self)@[l].with_loc(m)));
        }
    }

    /// Adds a parent backlink to the node labeled `l`.
    pub fn add_parent(&mut self, l: u64, p: u64)
        requires
            old(self).wf(),
            old(self)@.dom().contains(l),
        ensures
            final(self).wf(),
            final(self)@ == old(self)@.insert(l, old(self)@[l].with_parent(p)),
    {
        let mut n = self.take(l).unwrap();
        n.parents.insert(p);
        self.put(l, n);
        proof {
            assert(final(self)@ =~= old(self)@.insert(l, old(self)@[l].with_parent(p)));
        }
    }

    /// Merges the contents of `other` into the node labeled `l`; reports
    /// whether anything was new.
    pub fn union_into(&mut self, l: u64, other: &Node) -> (changed: bool)
        requires
            old(self).wf(),
            old(self)@.dom().contains(l),
            other.wf(),
        ensures
            final(self).wf(),
            final(self)@ == old(self)@.insert(l, old(self)@[l].union_v(other@)),
            changed == !old(self)@[l].includes(other@),
    {
        let mut n = self.take(l).unwrap();
        let c1 = n.locs.union_with(&other.locs);
        let c2 = n.children.union_with(&other.children);
        let c3 = n.parents.union_with(&other.parents);
        self.put(l, n);
        proof {
            assert(final(self)@ =~= old(self)@.insert(l, old(self)@[l].union_v(other@)));
        }
        c1 || c2 || c3
    }

    /// Removes from the node labeled `l` every edge into `target`.
    pub fn retain_children_not_target(&mut self, l: u64, target: u64)
        requires
            old(self).wf(),
            old(self)@.dom().contains(l),
        ensures
            final(self).wf(),
            final(self)@ == old(self)@.insert(l, old(self)@[l].without_edges_to(target)),
    {
        let mut n = self.take(l).unwrap();
        n.children.retain_not_target(target);
        self.put(l, n);
        proof {
            assert(final(self)@ =~= old(self)@.insert(l, old(self)@[l].without_edges_to(target)));
        }
    }

    /// An owned copy of all labels.
    pub fn keys_vec(&self) -> (r: Vec<u64>)
        requires
            self.wf(),
        ensures
            r@.no_duplicates(),
            r@.to_set() == self@.dom(),
    {
        let entries = self.entries();
        let mut r: Vec<u64> = Vec::new();
        let mut i: usize = 0;
        while i < entries.len()
            invariant
                i <= entries.len(),
                graph_key_seq(entries@).no_duplicates(),
                graph_key_seq(entries@).to_set() == self@.dom(),
                r@ =~= graph_key_seq(entries@).take(i as int),
            decreases entries.len() - i,
        {
            r.push(entries[i].0);
            proof {
                assert(graph_key_seq(entries@).take(i + 1) =~= graph_key_seq(entries@).take(
                    i as int,
                ).push(entries@[i as int].0));
            }
            i += 1;
        }
        proof {
            assert(graph_key_seq(entries@).take(entries@.len() as int) =~= graph_key_seq(
                entries@,
            ));
        }
        r
    }

    /// The number of nodes.
    pub fn len(&self) -> (r: usize)
        requires
            self.wf(),
        ensures
            r == self@.dom().len(),
    {
        proof {
            lemma_graph_assoc_props(self.items@);
            graph_key_seq(self.items@).unique_seq_to_set();
        }
        self.items.len()
    }
}

} // verus!
