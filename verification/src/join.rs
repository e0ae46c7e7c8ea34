//! Joining two analysis states at a control-flow merge.
//!
//! The borrow graphs are joined label by label, which is consistent because
//! labels are derived from code positions.  Where the label maps of the two
//! states bind the same key to different labels, the incoming label is
//! unified with the kept one: the incoming node's contents are merged into
//! the final target of the kept label, every reference to a renamed label is
//! rewritten, and the renamed nodes are deleted.

use crate::edge::BorrowEdge;
use crate::graph::Graph;
use crate::graph::NodeV;
use crate::maps::LabelMap;
use crate::state::graph_consistent;
use vstd::prelude::*;

verus! {

/// Whether a join changed the state it was applied to.
#[derive(Clone, Copy, Debug, PartialEq, Eq, Structural)]
pub enum JoinResult {
    Unchanged,
    Changed,
}

/// The result of walking the renaming map from `l` for `fuel` steps.
pub open spec fn rstar_fuel(r: Map<u64, u64>, l: u64, fuel: nat) -> u64
    decreases fuel,
{
    if fuel == 0 {
        l
    } else if r.dom().contains(l) {
        rstar_fuel(r, r[l], (fuel - 1) as nat)
    } else {
        l
    }
}

/// The label a renamed label finally stands for: the renaming applied
/// transitively, with enough fuel to cross every entry once.
pub open spec fn rstar(r: Map<u64, u64>, l: u64) -> u64 {
    rstar_fuel(r, l, r.dom().len() + 1)
}

/// A renaming is grounded when following it from any of its keys ends
/// outside of its keys.  Renamings built by the join are grounded unless the
/// two states swap labels in a cycle, which the join then refuses to unify.
pub open spec fn renaming_grounded(r: Map<u64, u64>) -> bool {
    forall|l: u64| r.dom().contains(l) ==> !r.dom().contains(#[trigger] rstar(r, l))
}

/// A label outside the renaming's keys walks to itself.
pub proof fn lemma_rstar_fixed(r: Map<u64, u64>, l: u64, fuel: nat)
    requires
        !r.dom().contains(l),
    ensures
        rstar_fuel(r, l, fuel) == l,
{
}

/// The walk ends on the start or on a value of the renaming.
pub proof fn lemma_rstar_in_range(r: Map<u64, u64>, l: u64, fuel: nat)
    ensures
        rstar_fuel(r, l, fuel) == l || exists|k: u64| #[trigger]
            r.dom().contains(k) && r[k] == rstar_fuel(r, l, fuel),
    decreases fuel,
{
    if fuel > 0 && r.dom().contains(l) {
        lemma_rstar_in_range(r, r[l], (fuel - 1) as nat);
        if rstar_fuel(r, r[l], (fuel - 1) as nat) == r[l] {
            assert(r.dom().contains(l) && r[l] == rstar_fuel(r, l, fuel));
        }
    }
}

/// Walks the renaming map from `l` until it leaves the keys or the fuel is
/// spent.
pub fn rename_walk(r: &LabelMap, l: u64) -> (res: u64)
    requires
        r.wf(),
    ensures
        res == rstar(r@, l),
{
    proof {
        r.lemma_finite();
    }
    let mut cur = l;
    let n = r.len();
    // The spec walk takes at most `n + 1` steps.
    let mut remaining: u128 = n as u128 + 1;
    while remaining > 0
        invariant
            r.wf(),
            n == r@.dom().len(),
            rstar_fuel(r@, cur, remaining as nat) == rstar(r@, l),
        decreases remaining,
    {
        match r.get(cur) {
            Some(next) => {
                cur = next;
            },
            None => {
                proof {
                    lemma_rstar_fixed(r@, cur, remaining as nat);
                }
                return cur;
            },
        }
        remaining -= 1;
    }
    cur
}

/// Whether the renaming is grounded: from every key the walk escapes the
/// keys.
pub fn check_grounded(r: &LabelMap) -> (res: bool)
    requires
        r.wf(),
    ensures
        res == renaming_grounded(r@),
{
    let pairs = r.elems();
    let mut i: usize = 0;
    while i < pairs.len()
        invariant
            i <= pairs.len(),
            r.wf(),
            crate::maps::label_key_seq(pairs@).to_set() == r@.dom(),
            forall|j: int| 0 <= j < i ==> !r@.dom().contains(
                rstar(r@, (#[trigger] pairs@[j]).0),
            ),
        decreases pairs.len() - i,
    {
        let target = rename_walk(r, pairs[i].0);
        if r.contains_key(target) {
            proof {
                assert(crate::maps::label_key_seq(pairs@)[i as int] == pairs@[i as int].0);
                assert(r@.dom().contains(pairs@[i as int].0));
            }
            return false;
        }
        i += 1;
    }
    proof {
        assert forall|l: u64| r@.dom().contains(l) implies !r@.dom().contains(
            #[trigger] rstar(r@, l),
        ) by {
            assert(crate::maps::label_key_seq(pairs@).to_set().contains(l));
            assert(crate::maps::label_key_seq(pairs@).contains(l));
            let j = choose|j: int|
                0 <= j < pairs@.len() && crate::maps::label_key_seq(pairs@)[j] == l;
            assert(pairs@[j].0 == l);
        }
    }
    true
}

/// The pointwise union of two graphs: on shared labels the node contents are
/// united, elsewhere the one present is kept.
pub open spec fn graph_union(a: Map<u64, NodeV>, b: Map<u64, NodeV>) -> Map<u64, NodeV> {
    Map::new(
        |l: u64| a.dom().contains(l) || b.dom().contains(l),
        |l: u64|
            if a.dom().contains(l) && b.dom().contains(l) {
                a[l].union_v(b[l])
            } else if a.dom().contains(l) {
                a[l]
            } else {
                b[l]
            },
    )
}

/// The label maps of two states agree: no shared key is bound to different
/// labels, so a join of the two unifies nothing.  Such joins produce exactly
/// the pointwise union of the graphs, and the union is symmetric: joining in
/// either order yields the same graph.
pub open spec fn maps_agree(a: crate::state::StateV, b: crate::state::StateV) -> bool {
    (forall|t: usize|
        a.temps.dom().contains(t) && #[trigger] b.temps.dom().contains(t) ==> a.temps[t]
            == b.temps[t]) && (forall|r_: u64|
        a.globals.dom().contains(r_) && #[trigger] b.globals.dom().contains(r_) ==> a.globals[r_]
            == b.globals[r_])
}

/// `b` adds nothing to `a` pointwise.
pub open spec fn graph_leq(b: Map<u64, NodeV>, a: Map<u64, NodeV>) -> bool {
    forall|l: u64| #[trigger] b.dom().contains(l) ==> a.dom().contains(l) && a[l].includes(b[l])
}

/// The union of consistent graphs is consistent.
pub proof fn lemma_graph_union_consistent(a: Map<u64, NodeV>, b: Map<u64, NodeV>)
    requires
        graph_consistent(a),
        graph_consistent(b),
    ensures
        graph_consistent(graph_union(a, b)),
{
    let u = graph_union(a, b);
    assert forall|l: u64, e: BorrowEdge|
        u.dom().contains(l) && #[trigger] u[l].children.contains(e) implies u.dom().contains(
        e.target,
    ) && u[e.target].parents.contains(l) by {
        if a.dom().contains(l) && a[l].children.contains(e) {
            assert(a.dom().contains(e.target) && a[e.target].parents.contains(l));
        } else {
            assert(b.dom().contains(l) && b[l].children.contains(e));
            assert(b.dom().contains(e.target) && b[e.target].parents.contains(l));
        }
    }
    assert forall|l: u64, p: u64|
        u.dom().contains(l) && #[trigger] u[l].parents.contains(p) implies u.dom().contains(p)
        && exists|e: BorrowEdge| #[trigger] u[p].children.contains(e) && e.target == l by {
        if a.dom().contains(l) && a[l].parents.contains(p) {
            let e = choose|e: BorrowEdge| #[trigger] a[p].children.contains(e) && e.target == l;
            assert(u[p].children.contains(e));
        } else {
            assert(b.dom().contains(l) && b[l].parents.contains(p));
            let e = choose|e: BorrowEdge| #[trigger] b[p].children.contains(e) && e.target == l;
            assert(u[p].children.contains(e));
        }
    }
    assert forall|l: u64| #[trigger]
        u.dom().contains(l) implies exists|m: crate::edge::MemLoc| u[l].locs.contains(m) by {
        if a.dom().contains(l) {
            let m = choose|m: crate::edge::MemLoc| a[l].locs.contains(m);
            assert(u[l].locs.contains(m));
        } else {
            let m = choose|m: crate::edge::MemLoc| b[l].locs.contains(m);
            assert(u[l].locs.contains(m));
        }
    }
}

/// The pointwise union is symmetric.
pub proof fn lemma_graph_union_commutes(a: Map<u64, NodeV>, b: Map<u64, NodeV>)
    ensures
        graph_union(a, b) =~= graph_union(b, a),
{
    let u = graph_union(a, b);
    let v = graph_union(b, a);
    assert(u.dom() =~= v.dom());
    assert forall|l: u64| u.dom().contains(l) implies u[l] == v[l] by {
        if a.dom().contains(l) && b.dom().contains(l) {
            assert(u[l] =~= v[l]);
        }
    }
}

/// Joining a graph with a part of itself changes nothing.
pub proof fn lemma_graph_union_absorb(a: Map<u64, NodeV>, b: Map<u64, NodeV>)
    requires
        graph_leq(b, a),
    ensures
        graph_union(a, b) =~= a,
{
    let u = graph_union(a, b);
    assert(u.dom() =~= a.dom());
    assert forall|l: u64| u.dom().contains(l) implies u[l] == a[l] by {
        if b.dom().contains(l) {
            assert(a[l].includes(b[l]));
            assert(u[l] =~= a[l]);
        }
    }
}

impl Graph {
    /// Merges every node of `other` into this graph, label by label; reports
    /// whether anything was new.
    pub fn union_graph(&mut self, other: &Graph) -> (changed: bool)
        requires
            old(self).wf(),
            other.wf(),
        ensures
            final(self).wf(),
            final(self)@ == graph_union(old(self)@, other@),
            changed == !graph_leq(other@, old(self)@),
    {
        let entries = other.entries();
        let mut changed = false;
        let mut i: usize = 0;
        while i < entries.len()
            invariant
                i <= entries.len(),
                self.wf(),
                other.wf(),
                crate::graph::graph_key_seq(entries@).no_duplicates(),
                crate::graph::graph_key_seq(entries@).to_set() == other@.dom(),
                forall|j: int| 0 <= j < entries@.len() ==> other@.dom().contains(
                    (#[trigger] entries@[j]).0,
                ) && other@[entries@[j].0] == entries@[j].1@ && entries@[j].1.wf(),
                self@.dom() =~= old(self)@.dom().union(
                    crate::graph::graph_key_seq(entries@).take(i as int).to_set(),
                ),
                forall|l: u64| #[trigger] self@.dom().contains(l)
                    ==> self@[l] == (if crate::graph::graph_key_seq(entries@).take(
                        i as int,
                    ).to_set().contains(l) {
                        if old(self)@.dom().contains(l) {
                            old(self)@[l].union_v(other@[l])
                        } else {
                            other@[l]
                        }
                    } else {
                        old(self)@[l]
                    }),
                changed == !(forall|l: u64| crate::graph::graph_key_seq(entries@).take(
                    i as int,
                ).to_set().contains(l) ==> old(self)@.dom().contains(l) && old(self)@[l].includes(#[trigger] other@[l])),
            decreases entries.len() - i,
        {
            let ghost keys = crate::graph::graph_key_seq(entries@);
            let (l, n) = (entries[i].0, &entries[i].1);
            proof {
                assert(keys[i as int] == l);
                assert(keys.take(i + 1) =~= keys.take(i as int).push(l));
                broadcast use vstd::seq_lib::lemma_seq_contains_after_push;

                assert(keys.take(i + 1).to_set() =~= keys.take(i as int).to_set().insert(l)) by {
                    broadcast use vstd::prelude::Seq::lemma_push_to_set_commute;

                }
                assert(!keys.take(i as int).to_set().contains(l)) by {
                    if keys.take(i as int).contains(l) {
                        let j = choose|j: int| 0 <= j < i && keys.take(i as int)[j] == l;
                        assert(keys[j] == l);
                    }
                }
            }
            if self.contains_key(l) {
                let c = self.union_into(l, n);
                proof {
                    if old(self)@.dom().contains(l) {
                    } else {
                        assert(keys.take(i as int).to_set().contains(l));
                        assert(false);
                    }
                }
                if c {
                    changed = true;
                }
                proof {
                    assert(self@.dom() =~= old(self)@.dom().union(keys.take(i + 1).to_set()));
                }
            } else {
                let copy = n.duplicate();
                self.put(l, copy);
                changed = true;
                proof {
                    assert(self@.dom() =~= old(self)@.dom().union(keys.take(i + 1).to_set()));
                    assert(!old(self)@.dom().contains(l));
                }
            }
            i += 1;
        }
        proof {
            let keys = crate::graph::graph_key_seq(entries@);
            assert(keys.take(keys.len() as int) =~= keys);
            assert(self@ =~= graph_union(old(self)@, other@)) by {
                assert forall|l: u64| self@.dom().contains(l) implies self@[l] == graph_union(
                    old(self)@,
                    other@,
                )[l] by {
                    if keys.to_set().contains(l) {
                        if old(self)@.dom().contains(l) {
                            assert(self@[l] =~= graph_union(old(self)@, other@)[l]);
                        }
                    }
                }
                assert(self@.dom() =~= graph_union(old(self)@, other@).dom());
            }
            assert(changed == !graph_leq(other@, old(self)@)) by {
                if !changed {
                    assert forall|l: u64| #[trigger] other@.dom().contains(l) implies old(self)@.dom().contains(l) && old(self)@[l].includes(other@[l]) by {
                        assert(keys.to_set().contains(l));
                    }
                }
                if changed {
                    if graph_leq(other@, old(self)@) {
                        assert forall|l: u64| keys.to_set().contains(l) implies old(self)@.dom().contains(l) && old(self)@[l].includes(#[trigger] other@[l]) by {
                            assert(other@.dom().contains(l));
                        }
                    }
                }
            }
        }
        changed
    }
}



/// An edge with its child renamed.
pub open spec fn rename_edge(r: Map<u64, u64>, e: BorrowEdge) -> BorrowEdge {
    BorrowEdge { target: rstar(r, e.target), ..e }
}

/// The graph after applying a renaming: the renamed labels disappear, and
/// every edge target and backlink is rewritten to its final label.
pub open spec fn rename_graph_v(g: Map<u64, NodeV>, r: Map<u64, u64>) -> Map<u64, NodeV> {
    Map::new(
        |l: u64| g.dom().contains(l) && !r.dom().contains(l),
        |l: u64|
            NodeV {
                locs: g[l].locs,
                children: g[l].children.map(|e: BorrowEdge| rename_edge(r, e)),
                parents: g[l].parents.map(|p: u64| rstar(r, p)),
            },
    )
}

/// Under a grounded renaming whose keys and values are labels of a graph,
/// every walk from a label of the graph ends on a kept label of the graph.
pub proof fn lemma_rstar_kept(g: Map<u64, NodeV>, r: Map<u64, u64>, l: u64)
    requires
        renaming_grounded(r),
        forall|k: u64| #[trigger] r.dom().contains(k) ==> g.dom().contains(k) && g.dom().contains(
            r[k],
        ),
        g.dom().contains(l),
    ensures
        g.dom().contains(rstar(r, l)),
        !r.dom().contains(rstar(r, l)),
    decreases r.dom().len() + 1,
{
    if r.dom().contains(l) {
        lemma_rstar_in_range(r, l, r.dom().len() + 1);
        if rstar(r, l) == l {
        } else {
            let k = choose|k: u64| #[trigger] r.dom().contains(k) && r[k] == rstar(r, l);
            assert(g.dom().contains(rstar(r, l)));
        }
    } else {
        lemma_rstar_fixed(r, l, r.dom().len() + 1);
    }
}

/// After merging the contents of every renamed node into its final label and
/// rewriting all references, the graph invariant holds again.  `g1` is the
/// consistent graph before the merges, `g2` the graph after them.
pub proof fn lemma_rename_consistent(g1: Map<u64, NodeV>, g2: Map<u64, NodeV>, r: Map<u64, u64>)
    requires
        graph_consistent(g1),
        g2.dom() == g1.dom(),
        renaming_grounded(r),
        forall|k: u64| #[trigger] r.dom().contains(k) ==> g1.dom().contains(k)
            && g1.dom().contains(r[k]),
        forall|l: u64| #[trigger] g2.dom().contains(l) ==> g2[l].includes(g1[l]),
        forall|k: u64| #[trigger] r.dom().contains(k) ==> g2[rstar(r, k)].includes(g1[k]),
        forall|l: u64, e: BorrowEdge|
            g2.dom().contains(l) && #[trigger] g2[l].children.contains(e) ==> g1[l].children.contains(
                e,
            ) || exists|k: u64| #[trigger]
                r.dom().contains(k) && rstar(r, k) == l && g1[k].children.contains(e),
        forall|l: u64, p: u64|
            g2.dom().contains(l) && #[trigger] g2[l].parents.contains(p) ==> g1[l].parents.contains(
                p,
            ) || exists|k: u64| #[trigger]
                r.dom().contains(k) && rstar(r, k) == l && g1[k].parents.contains(p),
    ensures
        graph_consistent(rename_graph_v(g2, r)),
{
    let g3 = rename_graph_v(g2, r);
    assert forall|l: u64, e2: BorrowEdge|
        g3.dom().contains(l) && #[trigger] g3[l].children.contains(e2) implies g3.dom().contains(
        e2.target,
    ) && g3[e2.target].parents.contains(l) by {
        let e = choose|e: BorrowEdge| g2[l].children.contains(e) && rename_edge(r, e) == e2;
        let t = e.target;
        // The edge's origin: the kept node itself or a node merged into it.
        let m: u64 = if g1[l].children.contains(e) {
            l
        } else {
            choose|k: u64| #[trigger]
                r.dom().contains(k) && rstar(r, k) == l && g1[k].children.contains(e)
        };
        assert(g1.dom().contains(m));
        assert(g1[m].children.contains(e));
        assert(g1.dom().contains(t) && g1[t].parents.contains(m));
        lemma_rstar_kept(g1, r, t);
        assert(e2.target == rstar(r, t));
        assert(g3.dom().contains(e2.target));
        // The parents of the final node at the renamed target include m.
        assert(g2[rstar(r, t)].includes(g1[t])) by {
            if r.dom().contains(t) {
            } else {
                lemma_rstar_fixed(r, t, r.dom().len() + 1);
            }
        }
        assert(g2[rstar(r, t)].parents.contains(m));
        assert(g3[e2.target].parents.contains(rstar(r, m)));
        assert(rstar(r, m) == l) by {
            if m == l {
                lemma_rstar_fixed(r, l, r.dom().len() + 1);
            }
        }
    }
    assert forall|l: u64, p2: u64|
        g3.dom().contains(l) && #[trigger] g3[l].parents.contains(p2) implies g3.dom().contains(
        p2,
    ) && exists|e: BorrowEdge| #[trigger] g3[p2].children.contains(e) && e.target == l by {
        let p = choose|p: u64| g2[l].parents.contains(p) && rstar(r, p) == p2;
        let m: u64 = if g1[l].parents.contains(p) {
            l
        } else {
            choose|k: u64| #[trigger]
                r.dom().contains(k) && rstar(r, k) == l && g1[k].parents.contains(p)
        };
        assert(g1.dom().contains(m));
        assert(g1[m].parents.contains(p));
        let e = choose|e: BorrowEdge| #[trigger] g1[p].children.contains(e) && e.target == m;
        lemma_rstar_kept(g1, r, p);
        assert(g3.dom().contains(p2));
        assert(g2[rstar(r, p)].includes(g1[p])) by {
            if r.dom().contains(p) {
            } else {
                lemma_rstar_fixed(r, p, r.dom().len() + 1);
            }
        }
        assert(g2[p2].children.contains(e));
        assert(g3[p2].children.contains(rename_edge(r, e)));
        assert(rename_edge(r, e).target == rstar(r, m));
        assert(rstar(r, m) == l) by {
            if m == l {
                lemma_rstar_fixed(r, l, r.dom().len() + 1);
            }
        }
    }
    assert forall|l: u64| #[trigger]
        g3.dom().contains(l) implies exists|m: crate::edge::MemLoc| g3[l].locs.contains(m) by {
        let m = choose|m: crate::edge::MemLoc| g1[l].locs.contains(m);
        assert(g2[l].locs.contains(m));
        assert(g3[l].locs.contains(m));
    }
}

impl crate::state::LifetimeState {
    /// Joins the temporary maps: missing bindings are taken over from
    /// `other`; a key bound to different labels on the two sides records the
    /// unification of `other`'s label with the kept one in `renaming`.
    fn join_temp_maps(
        &mut self,
        other: &crate::maps::TempMap,
        renaming: &mut LabelMap,
        g: Ghost<Map<u64, NodeV>>,
    ) -> (changed: bool)
        requires
            old(self).temp_to_label.wf(),
            other.wf(),
            old(renaming).wf(),
            crate::state::temps_sound(g@, old(self)@.temps),
            crate::state::temps_sound(g@, other@),
            forall|k: u64| #[trigger] old(renaming)@.dom().contains(k) ==> g@.dom().contains(k)
                && g@.dom().contains(old(renaming)@[k]),
        ensures
            final(self).graph == old(self).graph,
            final(self).global_to_label == old(self).global_to_label,
            final(self).temp_to_label.wf(),
            final(renaming).wf(),
            crate::state::temps_sound(g@, final(self)@.temps),
            forall|k: u64| #[trigger] final(renaming)@.dom().contains(k) ==> g@.dom().contains(k)
                && g@.dom().contains(final(renaming)@[k]),
            final(self)@.temps.dom() == old(self)@.temps.dom().union(other@.dom()),
            forall|t: usize| #[trigger] old(self)@.temps.dom().contains(t) ==> final(self)@.temps[t] == old(self)@.temps[t],
            forall|t: usize| #[trigger] other@.dom().contains(t) && !old(self)@.temps.dom().contains(t) ==> final(self)@.temps[t] == other@[t],
            changed == !(forall|t: usize| #[trigger] other@.dom().contains(t) ==> old(self)@.temps.dom().contains(t) && old(self)@.temps[t] == other@[t]),
            !changed ==> final(self).temp_to_label == old(self).temp_to_label && *final(renaming)
                == *old(renaming),
            (forall|t: usize|
                old(self)@.temps.dom().contains(t) && #[trigger] other@.dom().contains(t) ==> old(
                    self,
                )@.temps[t] == other@[t]) ==> *final(renaming) == *old(renaming),
    {
        let pairs = other.elems();
        let mut changed = false;
        let mut i: usize = 0;
        while i < pairs.len()
            invariant
                i <= pairs.len(),
                other.wf(),
                self.graph == old(self).graph,
                self.global_to_label == old(self).global_to_label,
                self.temp_to_label.wf(),
                renaming.wf(),
                crate::state::temps_sound(g@, old(self)@.temps),
                crate::state::temps_sound(g@, other@),
                crate::state::temps_sound(g@, self@.temps),
                forall|k: u64| #[trigger] renaming@.dom().contains(k) ==> g@.dom().contains(k)
                    && g@.dom().contains(renaming@[k]),
                crate::maps::temp_key_seq(pairs@).no_duplicates(),
                crate::maps::temp_key_seq(pairs@).to_set() == other@.dom(),
                forall|j: int| 0 <= j < pairs@.len() ==> other@.dom().contains(
                    (#[trigger] pairs@[j]).0,
                ) && other@[pairs@[j].0] == pairs@[j].1,
                self@.temps.dom() =~= old(self)@.temps.dom().union(
                    crate::maps::temp_key_seq(pairs@).take(i as int).to_set(),
                ),
                forall|t: usize| #[trigger] old(self)@.temps.dom().contains(t) ==> self@.temps[t]
                    == old(self)@.temps[t],
                forall|t: usize| #[trigger] other@.dom().contains(t) && !old(self)@.temps.dom().contains(t) && self@.temps.dom().contains(t) ==> self@.temps[t]
                    == other@[t],
                changed == !(forall|j: int| 0 <= j < i ==> old(self)@.temps.dom().contains(
                    (#[trigger] pairs@[j]).0,
                ) && old(self)@.temps[pairs@[j].0] == pairs@[j].1),
                !changed ==> self.temp_to_label == old(self).temp_to_label && renaming == old(renaming),
                (forall|t: usize|
                    old(self)@.temps.dom().contains(t) && #[trigger] other@.dom().contains(t)
                        ==> old(self)@.temps[t] == other@[t]) ==> *renaming == *old(renaming),
            decreases pairs.len() - i,
        {
            let (t, lb) = (pairs[i].0, pairs[i].1);
            proof {
                assert(crate::maps::temp_key_seq(pairs@)[i as int] == t);
                assert(crate::maps::temp_key_seq(pairs@).take(i + 1) =~= crate::maps::temp_key_seq(
                    pairs@,
                ).take(i as int).push(t));
                broadcast use vstd::prelude::Seq::lemma_push_to_set_commute;

            }
            match self.temp_to_label.get(t) {
                None => {
                    self.temp_to_label.insert(t, lb);
                    changed = true;
                    proof {
                        assert(other@.dom().contains(t));
                        assert(g@.dom().contains(other@[t]));
                    }
                },
                Some(la) => {
                    if la != lb {
                        proof {
                            assert(old(self)@.temps.dom().contains(t)) by {
                                if !old(self)@.temps.dom().contains(t) {
                                    assert(crate::maps::temp_key_seq(pairs@).take(
                                        i as int,
                                    ).to_set().contains(t));
                                    assert(crate::maps::temp_key_seq(pairs@).take(
                                        i as int,
                                    ).contains(t));
                                    let j = choose|j: int|
                                        0 <= j < i && crate::maps::temp_key_seq(pairs@).take(
                                            i as int,
                                        )[j] == t;
                                    assert(crate::maps::temp_key_seq(pairs@)[j] == t);
                                    assert(crate::maps::temp_key_seq(pairs@)[i as int] == t);
                                }
                            }
                            assert(la == old(self)@.temps[t]);
                            assert(lb == other@[t]);
                        }
                        renaming.insert(lb, la);
                        changed = true;
                        proof {
                            assert(g@.dom().contains(lb)) by {
                                assert(other@.dom().contains(t));
                            }
                            assert(g@.dom().contains(la)) by {
                                assert(self@.temps.dom().contains(t));
                            }
                            assert(self@.temps.dom() =~= old(self)@.temps.dom().union(
                                crate::maps::temp_key_seq(pairs@).take(i + 1).to_set(),
                            ));
                        }
                    } else {
                        proof {
                            assert(self@.temps.dom() =~= old(self)@.temps.dom().union(
                                crate::maps::temp_key_seq(pairs@).take(i + 1).to_set(),
                            ));
                        }
                    }
                },
            }
            i += 1;
        }
        proof {
            assert(crate::maps::temp_key_seq(pairs@).take(pairs@.len() as int)
                =~= crate::maps::temp_key_seq(pairs@));
            assert(changed == !(forall|t: usize| #[trigger] other@.dom().contains(t) ==> old(self)@.temps.dom().contains(t) && old(self)@.temps[t] == other@[t])) by {
                if !changed {
                    assert forall|t: usize| #[trigger] other@.dom().contains(t) implies old(self)@.temps.dom().contains(t) && old(self)@.temps[t] == other@[t] by {
                        assert(crate::maps::temp_key_seq(pairs@).to_set().contains(t));
                        assert(crate::maps::temp_key_seq(pairs@).contains(t));
                        let j = choose|j: int|
                            0 <= j < pairs@.len() && crate::maps::temp_key_seq(pairs@)[j] == t;
                        assert(pairs@[j].0 == t && pairs@[j].1 == other@[t]);
                    }
                } else {
                    let j = choose|j: int|
                        0 <= j < pairs@.len() && !(old(self)@.temps.dom().contains(
                            (#[trigger] pairs@[j]).0,
                        ) && old(self)@.temps[pairs@[j].0] == pairs@[j].1);
                    assert(other@.dom().contains(pairs@[j].0));
                }
            }
        }
        changed
    }

    /// Joins the global maps, sharing the renaming with the temporary-map
    /// phase.
    fn join_global_maps(
        &mut self,
        other: &LabelMap,
        renaming: &mut LabelMap,
        g: Ghost<Map<u64, NodeV>>,
    ) -> (changed: bool)
        requires
            old(self).global_to_label.wf(),
            other.wf(),
            old(renaming).wf(),
            crate::state::globals_sound(g@, old(self)@.globals),
            crate::state::globals_sound(g@, other@),
            forall|k: u64| #[trigger] old(renaming)@.dom().contains(k) ==> g@.dom().contains(k)
                && g@.dom().contains(old(renaming)@[k]),
        ensures
            final(self).graph == old(self).graph,
            final(self).temp_to_label == old(self).temp_to_label,
            final(self).global_to_label.wf(),
            final(renaming).wf(),
            crate::state::globals_sound(g@, final(self)@.globals),
            forall|k: u64| #[trigger] final(renaming)@.dom().contains(k) ==> g@.dom().contains(k)
                && g@.dom().contains(final(renaming)@[k]),
            final(self)@.globals.dom() == old(self)@.globals.dom().union(other@.dom()),
            forall|t: u64| #[trigger] old(self)@.globals.dom().contains(t) ==> final(self)@.globals[t] == old(self)@.globals[t],
            forall|t: u64| #[trigger] other@.dom().contains(t) && !old(self)@.globals.dom().contains(t) ==> final(self)@.globals[t] == other@[t],
            changed == !(forall|t: u64| #[trigger] other@.dom().contains(t) ==> old(self)@.globals.dom().contains(t) && old(self)@.globals[t] == other@[t]),
            !changed ==> final(self).global_to_label == old(self).global_to_label
                && *final(renaming) == *old(renaming),
            (forall|t: u64|
                old(self)@.globals.dom().contains(t) && #[trigger] other@.dom().contains(t)
                    ==> old(self)@.globals[t] == other@[t]) ==> *final(renaming) == *old(renaming),
    {
        let pairs = other.elems();
        let mut changed = false;
        let mut i: usize = 0;
        while i < pairs.len()
            invariant
                i <= pairs.len(),
                other.wf(),
                self.graph == old(self).graph,
                self.temp_to_label == old(self).temp_to_label,
                self.global_to_label.wf(),
                renaming.wf(),
                crate::state::globals_sound(g@, old(self)@.globals),
                crate::state::globals_sound(g@, other@),
                crate::state::globals_sound(g@, self@.globals),
                forall|k: u64| #[trigger] renaming@.dom().contains(k) ==> g@.dom().contains(k)
                    && g@.dom().contains(renaming@[k]),
                crate::maps::label_key_seq(pairs@).no_duplicates(),
                crate::maps::label_key_seq(pairs@).to_set() == other@.dom(),
                forall|j: int| 0 <= j < pairs@.len() ==> other@.dom().contains(
                    (#[trigger] pairs@[j]).0,
                ) && other@[pairs@[j].0] == pairs@[j].1,
                self@.globals.dom() =~= old(self)@.globals.dom().union(
                    crate::maps::label_key_seq(pairs@).take(i as int).to_set(),
                ),
                forall|t: u64| #[trigger] old(self)@.globals.dom().contains(t)
                    ==> self@.globals[t] == old(self)@.globals[t],
                forall|t: u64| #[trigger] other@.dom().contains(t) && !old(self)@.globals.dom().contains(t) && self@.globals.dom().contains(t)
                    ==> self@.globals[t] == other@[t],
                changed == !(forall|j: int| 0 <= j < i ==> old(self)@.globals.dom().contains(
                    (#[trigger] pairs@[j]).0,
                ) && old(self)@.globals[pairs@[j].0] == pairs@[j].1),
                !changed ==> self.global_to_label == old(self).global_to_label && renaming == old(renaming),
                (forall|t: u64|
                    old(self)@.globals.dom().contains(t) && #[trigger] other@.dom().contains(t)
                        ==> old(self)@.globals[t] == other@[t]) ==> *renaming == *old(renaming),
            decreases pairs.len() - i,
        {
            let (t, lb) = (pairs[i].0, pairs[i].1);
            proof {
                assert(crate::maps::label_key_seq(pairs@)[i as int] == t);
                assert(crate::maps::label_key_seq(pairs@).take(i + 1)
                    =~= crate::maps::label_key_seq(pairs@).take(i as int).push(t));
                broadcast use vstd::prelude::Seq::lemma_push_to_set_commute;

            }
            match self.global_to_label.get(t) {
                None => {
                    self.global_to_label.insert(t, lb);
                    changed = true;
                    proof {
                        assert(other@.dom().contains(t));
                        assert(g@.dom().contains(other@[t]));
                    }
                },
                Some(la) => {
                    if la != lb {
                        proof {
                            assert(old(self)@.globals.dom().contains(t)) by {
                                if !old(self)@.globals.dom().contains(t) {
                                    assert(crate::maps::label_key_seq(pairs@).take(
                                        i as int,
                                    ).to_set().contains(t));
                                    assert(crate::maps::label_key_seq(pairs@).take(
                                        i as int,
                                    ).contains(t));
                                    let j = choose|j: int|
                                        0 <= j < i && crate::maps::label_key_seq(pairs@).take(
                                            i as int,
                                        )[j] == t;
                                    assert(crate::maps::label_key_seq(pairs@)[j] == t);
                                    assert(crate::maps::label_key_seq(pairs@)[i as int] == t);
                                }
                            }
                            assert(la == old(self)@.globals[t]);
                            assert(lb == other@[t]);
                        }
                        renaming.insert(lb, la);
                        changed = true;
                        proof {
                            assert(g@.dom().contains(lb)) by {
                                assert(other@.dom().contains(t));
                            }
                            assert(g@.dom().contains(la)) by {
                                assert(self@.globals.dom().contains(t));
                            }
                            assert(self@.globals.dom() =~= old(self)@.globals.dom().union(
                                crate::maps::label_key_seq(pairs@).take(i + 1).to_set(),
                            ));
                        }
                    } else {
                        proof {
                            assert(self@.globals.dom() =~= old(self)@.globals.dom().union(
                                crate::maps::label_key_seq(pairs@).take(i + 1).to_set(),
                            ));
                        }
                    }
                },
            }
            i += 1;
        }
        proof {
            assert(crate::maps::label_key_seq(pairs@).take(pairs@.len() as int)
                =~= crate::maps::label_key_seq(pairs@));
            assert(changed == !(forall|t: u64| #[trigger] other@.dom().contains(t) ==> old(self)@.globals.dom().contains(t) && old(self)@.globals[t] == other@[t])) by {
                if !changed {
                    assert forall|t: u64| #[trigger] other@.dom().contains(t) implies old(self)@.globals.dom().contains(t) && old(self)@.globals[t] == other@[t] by {
                        assert(crate::maps::label_key_seq(pairs@).to_set().contains(t));
                        assert(crate::maps::label_key_seq(pairs@).contains(t));
                        let j = choose|j: int|
                            0 <= j < pairs@.len() && crate::maps::label_key_seq(pairs@)[j] == t;
                        assert(pairs@[j].0 == t && pairs@[j].1 == other@[t]);
                    }
                } else {
                    let j = choose|j: int|
                        0 <= j < pairs@.len() && !(old(self)@.globals.dom().contains(
                            (#[trigger] pairs@[j]).0,
                        ) && old(self)@.globals[pairs@[j].0] == pairs@[j].1);
                    assert(other@.dom().contains(pairs@[j].0));
                }
            }
        }
        changed
    }

    /// Merges the contents of every renamed node into the node at its final
    /// label.  The renamed nodes themselves are left untouched; the rename
    /// pass deletes them.
    fn merge_renamed(&mut self, renaming: &LabelMap)
        requires
            old(self).graph.wf(),
            renaming.wf(),
            renaming_grounded(renaming@),
            forall|k: u64| #[trigger] renaming@.dom().contains(k) ==> old(self)@.graph.dom().contains(k) && old(self)@.graph.dom().contains(renaming@[k]),
        ensures
            final(self).graph.wf(),
            final(self).temp_to_label == old(self).temp_to_label,
            final(self).global_to_label == old(self).global_to_label,
            final(self)@.graph.dom() == old(self)@.graph.dom(),
            forall|k: u64| #[trigger] renaming@.dom().contains(k) ==> final(self)@.graph[k] == old(self)@.graph[k],
            forall|l: u64| #[trigger] final(self)@.graph.dom().contains(l) ==> final(self)@.graph[l].includes(old(self)@.graph[l]),
            forall|k: u64| #[trigger] renaming@.dom().contains(k) ==> final(self)@.graph[rstar(
                renaming@,
                k,
            )].includes(old(self)@.graph[k]),
            forall|l: u64, e: BorrowEdge|
                final(self)@.graph.dom().contains(l) && #[trigger] final(self)@.graph[l].children.contains(e) ==> old(self)@.graph[l].children.contains(e)
                    || exists|k: u64| #[trigger]
                    renaming@.dom().contains(k) && rstar(renaming@, k) == l && old(self)@.graph[k].children.contains(e),
            forall|l: u64, p: u64|
                final(self)@.graph.dom().contains(l) && #[trigger] final(self)@.graph[l].parents.contains(p) ==> old(self)@.graph[l].parents.contains(p)
                    || exists|k: u64| #[trigger]
                    renaming@.dom().contains(k) && rstar(renaming@, k) == l && old(self)@.graph[k].parents.contains(p),
    {
        let ghost g1 = old(self)@.graph;
        let pairs = renaming.elems();
        let mut i: usize = 0;
        while i < pairs.len()
            invariant
                i <= pairs.len(),
                renaming.wf(),
                renaming_grounded(renaming@),
                self.graph.wf(),
                self.temp_to_label == old(self).temp_to_label,
                self.global_to_label == old(self).global_to_label,
                g1 == old(self)@.graph,
                forall|k: u64| #[trigger] renaming@.dom().contains(k) ==> g1.dom().contains(k)
                    && g1.dom().contains(renaming@[k]),
                crate::maps::label_key_seq(pairs@).no_duplicates(),
                crate::maps::label_key_seq(pairs@).to_set() == renaming@.dom(),
                forall|j: int| 0 <= j < pairs@.len() ==> renaming@.dom().contains(
                    (#[trigger] pairs@[j]).0,
                ) && renaming@[pairs@[j].0] == pairs@[j].1,
                self@.graph.dom() == g1.dom(),
                forall|k: u64| #[trigger] renaming@.dom().contains(k) ==> self@.graph[k] == g1[k],
                forall|l: u64| #[trigger] self@.graph.dom().contains(l)
                    ==> self@.graph[l].includes(g1[l]),
                forall|j: int| 0 <= j < i ==> self@.graph[rstar(
                    renaming@,
                    (#[trigger] pairs@[j]).0,
                )].includes(g1[pairs@[j].0]),
                forall|l: u64, e: BorrowEdge|
                    self@.graph.dom().contains(l) && #[trigger] self@.graph[l].children.contains(
                        e,
                    ) ==> g1[l].children.contains(e) || exists|k: u64| #[trigger]
                        renaming@.dom().contains(k) && rstar(renaming@, k) == l
                            && g1[k].children.contains(e),
                forall|l: u64, p: u64|
                    self@.graph.dom().contains(l) && #[trigger] self@.graph[l].parents.contains(
                        p,
                    ) ==> g1[l].parents.contains(p) || exists|k: u64| #[trigger]
                        renaming@.dom().contains(k) && rstar(renaming@, k) == l
                            && g1[k].parents.contains(p),
            decreases pairs.len() - i,
        {
            let k = pairs[i].0;
            proof {
                assert(crate::maps::label_key_seq(pairs@)[i as int] == k);
                assert(renaming@.dom().contains(k));
                lemma_rstar_kept(g1, renaming@, k);
            }
            let tgt = rename_walk(renaming, k);
            let source = self.graph.get(k).unwrap().duplicate();
            let ghost before = self@.graph;
            self.graph.union_into(tgt, &source);
            proof {
                assert(self@.graph.dom() =~= g1.dom());
                assert forall|k2: u64| #[trigger] renaming@.dom().contains(k2)
                    implies self@.graph[k2] == g1[k2] by {
                    assert(k2 != tgt);
                }
                assert forall|l: u64| #[trigger] self@.graph.dom().contains(l)
                    implies self@.graph[l].includes(g1[l]) by {
                    if l == tgt {
                        assert(before[tgt].includes(g1[tgt]));
                    }
                }
                assert forall|j: int| 0 <= j < i + 1 implies self@.graph[rstar(
                    renaming@,
                    (#[trigger] pairs@[j]).0,
                )].includes(g1[pairs@[j].0]) by {
                    let kj = pairs@[j].0;
                    let tj = rstar(renaming@, kj);
                    if j < i {
                        if tj == tgt {
                            assert(before[tgt].includes(g1[kj]));
                        } else {
                            assert(self@.graph[tj] == before[tj]);
                        }
                    } else {
                        assert(kj == k);
                        assert(source@ == g1[k]);
                    }
                }
                assert forall|l: u64, e: BorrowEdge|
                    self@.graph.dom().contains(l) && #[trigger] self@.graph[l].children.contains(
                        e,
                    ) implies g1[l].children.contains(e) || exists|k2: u64| #[trigger]
                        renaming@.dom().contains(k2) && rstar(renaming@, k2) == l
                            && g1[k2].children.contains(e) by {
                    if l == tgt && !before[l].children.contains(e) {
                        assert(source@.children.contains(e));
                        assert(g1[k].children.contains(e));
                        assert(renaming@.dom().contains(k) && rstar(renaming@, k) == l
                            && g1[k].children.contains(e));
                    }
                }
                assert forall|l: u64, p: u64|
                    self@.graph.dom().contains(l) && #[trigger] self@.graph[l].parents.contains(
                        p,
                    ) implies g1[l].parents.contains(p) || exists|k2: u64| #[trigger]
                        renaming@.dom().contains(k2) && rstar(renaming@, k2) == l
                            && g1[k2].parents.contains(p) by {
                    if l == tgt && !before[l].parents.contains(p) {
                        assert(source@.parents.contains(p));
                        assert(g1[k].parents.contains(p));
                        assert(renaming@.dom().contains(k) && rstar(renaming@, k) == l
                            && g1[k].parents.contains(p));
                    }
                }
            }
            i += 1;
        }
        proof {
            assert forall|k: u64| #[trigger] renaming@.dom().contains(k) implies self@.graph[rstar(
                renaming@,
                k,
            )].includes(g1[k]) by {
                assert(crate::maps::label_key_seq(pairs@).to_set().contains(k));
                assert(crate::maps::label_key_seq(pairs@).contains(k));
                let j = choose|j: int|
                    0 <= j < pairs@.len() && crate::maps::label_key_seq(pairs@)[j] == k;
                assert(pairs@[j].0 == k);
            }
        }
    }

    /// Rewrites every edge target and backlink to its final label and drops
    /// the renamed nodes.
    fn apply_renaming_to_graph(&mut self, renaming: &LabelMap)
        requires
            old(self).graph.wf(),
            renaming.wf(),
        ensures
            final(self).graph.wf(),
            final(self).temp_to_label == old(self).temp_to_label,
            final(self).global_to_label == old(self).global_to_label,
            final(self)@.graph == rename_graph_v(old(self)@.graph, renaming@),
    {
        let ghost g2 = old(self)@.graph;
        let entries = self.graph.entries();
        let mut out = Graph::new();
        let mut i: usize = 0;
        while i < entries.len()
            invariant
                i <= entries.len(),
                renaming.wf(),
                out.wf(),
                crate::graph::graph_key_seq(entries@).no_duplicates(),
                crate::graph::graph_key_seq(entries@).to_set() == g2.dom(),
                forall|j: int| 0 <= j < entries@.len() ==> g2.dom().contains(
                    (#[trigger] entries@[j]).0,
                ) && g2[entries@[j].0] == entries@[j].1@ && entries@[j].1.wf(),
                out@.dom() =~= crate::graph::graph_key_seq(entries@).take(i as int).to_set().difference(
                    renaming@.dom(),
                ),
                forall|l: u64| #[trigger] out@.dom().contains(l) ==> out@[l] == rename_graph_v(
                    g2,
                    renaming@,
                )[l],
            decreases entries.len() - i,
        {
            let (l, n) = (entries[i].0, &entries[i].1);
            proof {
                let keys = crate::graph::graph_key_seq(entries@);
                assert(keys[i as int] == l);
                assert(keys.take(i + 1) =~= keys.take(i as int).push(l));
                broadcast use vstd::prelude::Seq::lemma_push_to_set_commute;

                assert(keys.take(i + 1).to_set() =~= keys.take(i as int).to_set().insert(l));
                assert(!keys.take(i as int).to_set().contains(l)) by {
                    if keys.take(i as int).contains(l) {
                        let j = choose|j: int| 0 <= j < i && keys.take(i as int)[j] == l;
                        assert(keys[j] == l);
                    }
                }
            }
            if !renaming.contains_key(l) {
                let locs = n.locs.duplicate();
                let edges = n.children.elems();
                let mut children = crate::sets::EdgeSet::new();
                let mut k: usize = 0;
                while k < edges.len()
                    invariant
                        k <= edges.len(),
                        renaming.wf(),
                        children.wf(),
                        edges@.no_duplicates(),
                        edges@.to_set() == g2[l].children,
                        g2.dom().contains(l),
                        forall|e2: BorrowEdge| #[trigger] children@.contains(e2) <==> exists|j: int|
                            0 <= j < k && rename_edge(renaming@, #[trigger] edges@[j]) == e2,
                    decreases edges.len() - k,
                {
                    let e = edges[k];
                    let t2 = rename_walk(renaming, e.target);
                    let e2 = BorrowEdge { kind: e.kind, loc: e.loc, target: t2 };
                    children.insert(e2);
                    proof {
                        assert(e2 == rename_edge(renaming@, edges@[k as int]));
                    }
                    k += 1;
                }
                let parents_v = n.parents.elems();
                let mut parents = crate::sets::LabelSet::new();
                let mut k2: usize = 0;
                while k2 < parents_v.len()
                    invariant
                        k2 <= parents_v.len(),
                        renaming.wf(),
                        parents.wf(),
                        parents_v@.no_duplicates(),
                        parents_v@.to_set() == g2[l].parents,
                        g2.dom().contains(l),
                        forall|p2: u64| #[trigger] parents@.contains(p2) <==> exists|j: int|
                            0 <= j < k2 && rstar(renaming@, #[trigger] parents_v@[j]) == p2,
                    decreases parents_v.len() - k2,
                {
                    let p2 = rename_walk(renaming, parents_v[k2]);
                    parents.insert(p2);
                    k2 += 1;
                }
                let node = crate::graph::Node { locs, children, parents };
                proof {
                    assert(node@ =~= rename_graph_v(g2, renaming@)[l]) by {
                        assert(node@.children =~= g2[l].children.map(
                            |e: BorrowEdge| rename_edge(renaming@, e),
                        )) by {
                            assert forall|e2: BorrowEdge| node@.children.contains(e2)
                                implies g2[l].children.map(
                                |e: BorrowEdge| rename_edge(renaming@, e),
                            ).contains(e2) by {
                                let j = choose|j: int|
                                    0 <= j < edges@.len() && rename_edge(
                                        renaming@,
                                        #[trigger] edges@[j],
                                    ) == e2;
                                assert(edges@.contains(edges@[j]));
                                assert(g2[l].children.contains(edges@[j]));
                            }
                            assert forall|e2: BorrowEdge|
                                g2[l].children.map(
                                |e: BorrowEdge| rename_edge(renaming@, e),
                            ).contains(e2) implies node@.children.contains(e2) by {
                                let e = choose|e: BorrowEdge|
                                    g2[l].children.contains(e) && rename_edge(renaming@, e) == e2;
                                assert(edges@.to_set().contains(e));
                                assert(edges@.contains(e));
                                let j = choose|j: int|
                                    0 <= j < edges@.len() && edges@[j] == e;
                            }
                        }
                        assert(node@.parents =~= g2[l].parents.map(
                            |p: u64| rstar(renaming@, p),
                        )) by {
                            assert forall|p2: u64| node@.parents.contains(p2)
                                implies g2[l].parents.map(|p: u64| rstar(renaming@, p)).contains(
                                p2,
                            ) by {
                                let j = choose|j: int|
                                    0 <= j < parents_v@.len() && rstar(
                                        renaming@,
                                        #[trigger] parents_v@[j],
                                    ) == p2;
                                assert(parents_v@.contains(parents_v@[j]));
                                assert(g2[l].parents.contains(parents_v@[j]));
                            }
                            assert forall|p2: u64|
                                g2[l].parents.map(|p: u64| rstar(renaming@, p)).contains(
                                p2,
                            ) implies node@.parents.contains(p2) by {
                                let pp = choose|pp: u64|
                                    g2[l].parents.contains(pp) && rstar(renaming@, pp) == p2;
                                assert(parents_v@.to_set().contains(pp));
                                assert(parents_v@.contains(pp));
                                let j = choose|j: int|
                                    0 <= j < parents_v@.len() && parents_v@[j] == pp;
                            }
                        }
                    }
                }
                out.put(l, node);
            }
            i += 1;
        }
        proof {
            let keys = crate::graph::graph_key_seq(entries@);
            assert(keys.take(keys.len() as int) =~= keys);
            assert(out@ =~= rename_graph_v(g2, renaming@)) by {
                assert(out@.dom() =~= rename_graph_v(g2, renaming@).dom());
            }
        }
        self.graph = out;
    }

    /// Rewrites the labels in the temporary map to their final names.
    fn apply_renaming_to_temps(&mut self, renaming: &LabelMap)
        requires
            old(self).temp_to_label.wf(),
            renaming.wf(),
        ensures
            final(self).graph == old(self).graph,
            final(self).global_to_label == old(self).global_to_label,
            final(self).temp_to_label.wf(),
            final(self)@.temps.dom() == old(self)@.temps.dom(),
            forall|t: usize| #[trigger] final(self)@.temps.dom().contains(t) ==> final(self)@.temps[t] == rstar(renaming@, old(self)@.temps[t]),
    {
        let keys = self.temp_to_label.keys_vec();
        let mut i: usize = 0;
        while i < keys.len()
            invariant
                i <= keys.len(),
                renaming.wf(),
                self.graph == old(self).graph,
                self.global_to_label == old(self).global_to_label,
                self.temp_to_label.wf(),
                keys@.no_duplicates(),
                keys@.to_set() == old(self)@.temps.dom(),
                self@.temps.dom() =~= old(self)@.temps.dom(),
                forall|t: usize| #[trigger] self@.temps.dom().contains(t) ==> self@.temps[t] == (
                if keys@.take(i as int).contains(t) {
                    rstar(renaming@, old(self)@.temps[t])
                } else {
                    old(self)@.temps[t]
                }),
            decreases keys.len() - i,
        {
            let t = keys[i];
            proof {
                assert(keys@.contains(t));
                assert(keys@.to_set().contains(t));
                assert(keys@.take(i + 1) =~= keys@.take(i as int).push(t));
                broadcast use vstd::seq_lib::lemma_seq_contains_after_push;

                assert(!keys@.take(i as int).contains(t)) by {
                    if keys@.take(i as int).contains(t) {
                        let j = choose|j: int| 0 <= j < i && keys@.take(i as int)[j] == t;
                        assert(keys@[j] == t);
                        assert(keys@[i as int] == t);
                    }
                }
            }
            let v = self.temp_to_label.get(t).unwrap();
            let v2 = rename_walk(renaming, v);
            self.temp_to_label.insert(t, v2);
            i += 1;
        }
        proof {
            assert(keys@.take(keys@.len() as int) =~= keys@);
        }
    }

    /// Rewrites the labels in the global map to their final names.
    fn apply_renaming_to_globals(&mut self, renaming: &LabelMap)
        requires
            old(self).global_to_label.wf(),
            renaming.wf(),
        ensures
            final(self).graph == old(self).graph,
            final(self).temp_to_label == old(self).temp_to_label,
            final(self).global_to_label.wf(),
            final(self)@.globals.dom() == old(self)@.globals.dom(),
            forall|t: u64| #[trigger] final(self)@.globals.dom().contains(t) ==> final(self)@.globals[t] == rstar(renaming@, old(self)@.globals[t]),
    {
        let pairs = self.global_to_label.elems();
        let mut keys: Vec<u64> = Vec::new();
        let mut k: usize = 0;
        while k < pairs.len()
            invariant
                k <= pairs.len(),
                keys@ =~= crate::maps::label_key_seq(pairs@).take(k as int),
            decreases pairs.len() - k,
        {
            keys.push(pairs[k].0);
            proof {
                assert(crate::maps::label_key_seq(pairs@).take(k + 1)
                    =~= crate::maps::label_key_seq(pairs@).take(k as int).push(
                    pairs@[k as int].0,
                ));
            }
            k += 1;
        }
        proof {
            assert(crate::maps::label_key_seq(pairs@).take(pairs@.len() as int)
                =~= crate::maps::label_key_seq(pairs@));
            assert(keys@.no_duplicates());
            assert(keys@.to_set() == self@.globals.dom());
        }
        let mut i: usize = 0;
        while i < keys.len()
            invariant
                i <= keys.len(),
                renaming.wf(),
                self.graph == old(self).graph,
                self.temp_to_label == old(self).temp_to_label,
                self.global_to_label.wf(),
                keys@.no_duplicates(),
                keys@.to_set() == old(self)@.globals.dom(),
                self@.globals.dom() =~= old(self)@.globals.dom(),
                forall|t: u64| #[trigger] self@.globals.dom().contains(t) ==> self@.globals[t] == (
                if keys@.take(i as int).contains(t) {
                    rstar(renaming@, old(self)@.globals[t])
                } else {
                    old(self)@.globals[t]
                }),
            decreases keys.len() - i,
        {
            let t = keys[i];
            proof {
                assert(keys@.contains(t));
                assert(keys@.to_set().contains(t));
                assert(keys@.take(i + 1) =~= keys@.take(i as int).push(t));
                broadcast use vstd::seq_lib::lemma_seq_contains_after_push;

                assert(!keys@.take(i as int).contains(t)) by {
                    if keys@.take(i as int).contains(t) {
                        let j = choose|j: int| 0 <= j < i && keys@.take(i as int)[j] == t;
                        assert(keys@[j] == t);
                        assert(keys@[i as int] == t);
                    }
                }
            }
            let v = self.global_to_label.get(t).unwrap();
            let v2 = rename_walk(renaming, v);
            self.global_to_label.insert(t, v2);
            i += 1;
        }
        proof {
            assert(keys@.take(keys@.len() as int) =~= keys@);
        }
    }

    /// Joins another state into this one at a control-flow merge.
    ///
    /// The graphs are united label by label.  A key bound to different
    /// labels on the two sides has the incoming label unified with the kept
    /// one; the resulting renaming is applied to the whole state.  The
    /// result reports whether anything changed, which drives the dataflow
    /// fixpoint: `Unchanged` is returned only if the state is untouched, and
    /// joining a state with an equal one is always `Unchanged`.  Joining
    /// never removes locations or edges: every node of the current graph
    /// survives under its final label, with its locations and its edges'
    /// kinds and source positions intact.
    pub fn join(&mut self, other: &crate::state::LifetimeState) -> (r: JoinResult)
        requires
            old(self).wf(),
            other.wf(),
        ensures
            final(self).wf(),
            r == JoinResult::Unchanged ==> final(self)@ == old(self)@,
            old(self)@ == other@ ==> r == JoinResult::Unchanged,
            final(self)@.temps.dom() == old(self)@.temps.dom().union(other@.temps.dom()),
            final(self)@.globals.dom() == old(self)@.globals.dom().union(other@.globals.dom()),
            forall|l: u64| #[trigger] old(self)@.graph.dom().contains(l) ==> exists|l2: u64|
                (#[trigger] final(self)@.graph.dom().contains(l2)) && old(
                    self,
                )@.graph[l].locs.subset_of(final(self)@.graph[l2].locs) && (forall|e: BorrowEdge|
                    #[trigger] old(self)@.graph[l].children.contains(e) ==> exists|e2: BorrowEdge|
                        #[trigger] final(self)@.graph[l2].children.contains(e2) && e2.kind == e.kind
                            && e2.loc == e.loc),
    {
        let ghost g0 = old(self)@.graph;
        let c1 = self.graph.union_graph(&other.graph);
        proof {
            lemma_graph_union_consistent(g0, other@.graph);
            assert(crate::state::temps_sound(self@.graph, self@.temps));
            assert(crate::state::temps_sound(self@.graph, other@.temps));
            assert(crate::state::globals_sound(self@.graph, self@.globals)) by {
                assert forall|r_: u64| #[trigger] self@.globals.dom().contains(r_)
                    implies self@.graph.dom().contains(self@.globals[r_])
                    && self@.graph[self@.globals[r_]].locs.contains(
                    (crate::edge::MemLoc::Global { resource: r_ }),
                ) by {
                    assert(g0[self@.globals[r_]].locs.subset_of(
                        self@.graph[self@.globals[r_]].locs,
                    ));
                }
            }
            assert(crate::state::globals_sound(self@.graph, other@.globals)) by {
                assert forall|r_: u64| #[trigger] other@.globals.dom().contains(r_)
                    implies self@.graph.dom().contains(other@.globals[r_])
                    && self@.graph[other@.globals[r_]].locs.contains(
                    (crate::edge::MemLoc::Global { resource: r_ }),
                ) by {
                    assert(other@.graph[other@.globals[r_]].locs.subset_of(
                        self@.graph[other@.globals[r_]].locs,
                    ));
                }
            }
        }
        let ghost g1 = self@.graph;
        let mut renaming = LabelMap::new();
        let c2 = self.join_temp_maps(&other.temp_to_label, &mut renaming, Ghost(g1));
        let c3 = self.join_global_maps(&other.global_to_label, &mut renaming, Ghost(g1));
        let ghost mid = self@;
        let changed = c1 || c2 || c3;
        if !renaming.is_empty() && check_grounded(&renaming) {
            self.merge_renamed(&renaming);
            let ghost g2 = self@.graph;
            self.apply_renaming_to_graph(&renaming);
            self.apply_renaming_to_temps(&renaming);
            self.apply_renaming_to_globals(&renaming);
            proof {
                let rv = renaming@;
                lemma_rename_consistent(g1, g2, rv);
                assert(graph_consistent(self@.graph));
                assert(crate::state::temps_sound(self@.graph, self@.temps)) by {
                    assert forall|t: usize| #[trigger] self@.temps.dom().contains(t)
                        implies self@.graph.dom().contains(self@.temps[t]) by {
                        assert(mid.temps.dom().contains(t));
                        let v = mid.temps[t];
                        assert(g1.dom().contains(v));
                        lemma_rstar_kept(g1, rv, v);
                        assert(self@.temps[t] == rstar(rv, v));
                    }
                }
                assert(crate::state::globals_sound(self@.graph, self@.globals)) by {
                    assert forall|r_: u64| #[trigger] self@.globals.dom().contains(r_)
                        implies self@.graph.dom().contains(self@.globals[r_])
                        && self@.graph[self@.globals[r_]].locs.contains(
                        (crate::edge::MemLoc::Global { resource: r_ }),
                    ) by {
                        assert(mid.globals.dom().contains(r_));
                        let v = mid.globals[r_];
                        assert(g1.dom().contains(v));
                        lemma_rstar_kept(g1, rv, v);
                        let w = rstar(rv, v);
                        assert(self@.globals[r_] == w);
                        assert(g2[w].includes(g1[v])) by {
                            if rv.dom().contains(v) {
                            } else {
                                lemma_rstar_fixed(rv, v, rv.dom().len() + 1);
                            }
                        }
                        assert(g1[v].locs.contains(
                            (crate::edge::MemLoc::Global { resource: r_ }),
                        ));
                        assert(self@.graph[w].locs == g2[w].locs);
                    }
                }
                assert forall|l: u64| #[trigger] g0.dom().contains(l) implies exists|l2: u64|
                    (#[trigger] self@.graph.dom().contains(l2)) && g0[l].locs.subset_of(
                    self@.graph[l2].locs,
                ) && (forall|e: BorrowEdge| #[trigger] g0[l].children.contains(e)
                    ==> exists|e2: BorrowEdge| #[trigger] self@.graph[l2].children.contains(e2)
                        && e2.kind == e.kind && e2.loc == e.loc) by {
                    lemma_rstar_kept(g1, rv, l);
                    let l2 = rstar(rv, l);
                    assert(g2[l2].includes(g1[l])) by {
                        if rv.dom().contains(l) {
                        } else {
                            lemma_rstar_fixed(rv, l, rv.dom().len() + 1);
                        }
                    }
                    assert(self@.graph.dom().contains(l2));
                    assert(self@.graph[l2].locs == g2[l2].locs);
                    assert(g0[l].locs.subset_of(self@.graph[l2].locs)) by {
                        assert(g0[l].locs.subset_of(g1[l].locs));
                        assert(g1[l].locs.subset_of(g2[l2].locs));
                    }
                    assert forall|e: BorrowEdge| #[trigger] g0[l].children.contains(e)
                        implies exists|e2: BorrowEdge|
                            #[trigger] self@.graph[l2].children.contains(e2) && e2.kind == e.kind
                                && e2.loc == e.loc by {
                        assert(g1[l].children.contains(e)) by {
                            assert(g0[l].children.subset_of(g1[l].children));
                        }
                        assert(g2[l2].children.contains(e));
                        let e2 = rename_edge(rv, e);
                        assert(self@.graph[l2].children.contains(e2));
                    }
                }
            }
            JoinResult::Changed
        } else {
            proof {
                assert(crate::state::temps_sound(self@.graph, self@.temps));
                assert(crate::state::globals_sound(self@.graph, self@.globals));
                assert forall|l: u64| #[trigger] g0.dom().contains(l) implies exists|l2: u64|
                    (#[trigger] self@.graph.dom().contains(l2)) && g0[l].locs.subset_of(
                    self@.graph[l2].locs,
                ) && (forall|e: BorrowEdge| #[trigger] g0[l].children.contains(e)
                    ==> exists|e2: BorrowEdge| #[trigger] self@.graph[l2].children.contains(e2)
                        && e2.kind == e.kind && e2.loc == e.loc) by {
                    let l2 = l;
                    assert(self@.graph.dom().contains(l2));
                    assert(g0[l].locs.subset_of(self@.graph[l2].locs));
                    assert forall|e: BorrowEdge| #[trigger] g0[l].children.contains(e)
                        implies exists|e2: BorrowEdge|
                            #[trigger] self@.graph[l2].children.contains(e2) && e2.kind == e.kind
                                && e2.loc == e.loc by {
                        assert(self@.graph[l2].children.contains(e)) by {
                            assert(g0[l].children.subset_of(g1[l].children));
                        }
                    }
                }
            }
            if changed {
                JoinResult::Changed
            } else {
                proof {
                    lemma_graph_union_absorb(g0, other@.graph);
                    assert(final(self)@ =~= old(self)@);
                    assert(old(self)@ == other@ ==> !changed);
                }
                JoinResult::Unchanged
            }
        }
    }
}

} // verus!