//! The safety checks: reads and writes of borrowed locals, and the
//! hyper-graph walk that validates the borrow graph against the set of
//! temporaries an instruction is about to use.

use crate::diag::borrow_info;
use crate::diag::usage_info;
use crate::diag::Diag;
use crate::diag::DiagKind;
use crate::diag::EdgeFilter;
use crate::diag::Hint;
use crate::diag::HintKind;
use crate::edge::BorrowEdge;
use crate::edge::EdgeKind;
use crate::graph::NodeV;
use crate::instr::FunctionCode;
use crate::instr::LiveVarInfo;
use crate::reach::tc_spec;
use crate::sets::LabelSet;
use crate::sets::TempSet;
use crate::state::borrowed_label_spec;
use crate::state::LifetimeState;
use crate::state::StateV;
use vstd::prelude::*;

verus! {

/// A sequence is its own full prefix.
pub proof fn lemma_subrange_refl(d: Seq<Diag>)
    ensures
        d.subrange(0, d.len() as int) == d,
{
    assert(d.subrange(0, d.len() as int) =~= d);
}

/// How a non-reference local is read.
#[derive(Clone, Copy, Debug, PartialEq, Eq, Structural)]
pub enum ReadMode {
    /// The local is moved.
    Move,
    /// The local is copied.
    Copy,
    /// The local is passed as an argument to an operation.
    Argument,
}

/// The node has an outgoing mutable edge.
pub open spec fn has_mut_edge(g: Map<u64, NodeV>, l: u64) -> bool {
    exists|e: BorrowEdge| #[trigger] g[l].children.contains(e) && e.kind.is_mut_spec()
}

/// Reading a local is allowed: references always; a non-reference unless it
/// is borrowed and the mode forbids it.  A move forbids any borrow, a copy
/// or argument pass only a mutable one.
pub open spec fn read_ok(s: StateV, code: FunctionCode, local: usize, mode: ReadMode) -> bool {
    if code.locals@[local as int].is_ref {
        true
    } else {
        match borrowed_label_spec(s, local) {
            Option::None => true,
            Option::Some(l) => match mode {
                ReadMode::Move => false,
                ReadMode::Copy => !has_mut_edge(s.graph, l),
                ReadMode::Argument => !has_mut_edge(s.graph, l),
            },
        }
    }
}

/// Writing a local is allowed: references always, a non-reference unless it
/// is still borrowed.
pub open spec fn write_ok(s: StateV, code: FunctionCode, local: usize) -> bool {
    code.locals@[local as int].is_ref || borrowed_label_spec(s, local) is None
}

/// The diagnostic kind for a forbidden read.
pub open spec fn read_diag_kind(local: usize, mode: ReadMode) -> DiagKind {
    match mode {
        ReadMode::Move => DiagKind::CannotMove { temp: local },
        ReadMode::Copy => DiagKind::CannotCopy { temp: local },
        ReadMode::Argument => DiagKind::CannotPassArgument { temp: local },
    }
}

/// Checks that a non-reference local may be read; on a violation appends
/// exactly one diagnostic of the matching kind at `cur_loc`.
pub fn check_read_local(
    st: &LifetimeState,
    code: &FunctionCode,
    live: &LiveVarInfo,
    local: usize,
    mode: ReadMode,
    cur_loc: u64,
    diags: &mut Vec<Diag>,
) -> (ok: bool)
    requires
        st.wf(),
        code.wf(),
        live.wf(),
        local < code.locals@.len(),
    ensures
        ok == read_ok(st@, *code, local, mode),
        final(diags)@.len() >= old(diags)@.len(),
        final(diags)@.subrange(0, old(diags)@.len() as int) == old(diags)@,
        ok ==> final(diags)@ == old(diags)@,
        !ok ==> final(diags)@.len() == old(diags)@.len() + 1 && final(diags)@.subrange(
            0,
            old(diags)@.len() as int,
        ) == old(diags)@ && final(diags)@.last().loc == cur_loc && final(diags)@.last().kind
            == read_diag_kind(local, mode),
{
    proof {
        lemma_subrange_refl(diags@);
    }
    if code.is_ref(local) {
        return true;
    }
    match st.label_for_temp_with_children(local) {
        None => true,
        Some(label) => {
            let violates = match mode {
                ReadMode::Move => true,
                ReadMode::Copy => st.has_mut_edges(label),
                ReadMode::Argument => st.has_mut_edges(label),
            };
            if violates {
                let filter = if mode == ReadMode::Copy {
                    EdgeFilter::MutOnly
                } else {
                    EdgeFilter::All
                };
                let mut hints = borrow_info(st, label, filter);
                let mut exclude = TempSet::new();
                exclude.insert(local);
                let mut usages = usage_info(st, code, live, label, &exclude);
                hints.append(&mut usages);
                let kind = match mode {
                    ReadMode::Move => DiagKind::CannotMove { temp: local },
                    ReadMode::Copy => DiagKind::CannotCopy { temp: local },
                    ReadMode::Argument => DiagKind::CannotPassArgument { temp: local },
                };
                let ghost d0 = diags@;
                diags.push(Diag { loc: cur_loc, kind, hints });
                proof {
                    assert(final(diags)@.subrange(0, d0.len() as int) =~= d0);
                }
                false
            } else {
                true
            }
        },
    }
}

/// Checks that a non-reference local may be overwritten; on a violation
/// appends exactly one diagnostic at `cur_loc`.
pub fn check_write_local(
    st: &LifetimeState,
    code: &FunctionCode,
    live: &LiveVarInfo,
    local: usize,
    cur_loc: u64,
    diags: &mut Vec<Diag>,
) -> (ok: bool)
    requires
        st.wf(),
        code.wf(),
        live.wf(),
        local < code.locals@.len(),
    ensures
        ok == write_ok(st@, *code, local),
        final(diags)@.len() >= old(diags)@.len(),
        final(diags)@.subrange(0, old(diags)@.len() as int) == old(diags)@,
        ok ==> final(diags)@ == old(diags)@,
        !ok ==> final(diags)@.len() == old(diags)@.len() + 1 && final(diags)@.subrange(
            0,
            old(diags)@.len() as int,
        ) == old(diags)@ && final(diags)@.last().loc == cur_loc && final(diags)@.last().kind == (
        DiagKind::CannotAssign { temp: local }),
{
    proof {
        lemma_subrange_refl(diags@);
    }
    if code.is_ref(local) {
        return true;
    }
    match st.label_for_temp_with_children(local) {
        None => true,
        Some(label) => {
            let mut hints = borrow_info(st, label, EdgeFilter::All);
            let mut exclude = TempSet::new();
            exclude.insert(local);
            let mut usages = usage_info(st, code, live, label, &exclude);
            hints.append(&mut usages);
            let ghost d0 = diags@;
            diags.push(Diag { loc: cur_loc, kind: DiagKind::CannotAssign { temp: local }, hints });
            proof {
                assert(final(diags)@.subrange(0, d0.len() as int) =~= d0);
            }
            false
        },
    }
}

/// Two edges out of one hyper node rejoin: their targets share a transitive
/// descendant.  A rejoining pair arose from branches that took the same
/// reference and is no conflict.
pub open spec fn rejoins(g: Map<u64, NodeV>, e1: BorrowEdge, e2: BorrowEdge) -> bool {
    !tc_spec(g, e1.target).disjoint(tc_spec(g, e2.target))
}

/// A pair of distinct edges out of one hyper node is reported as a diverging
/// conflict: one of them is mutable, their regions can overlap, and their
/// paths do not rejoin.
pub open spec fn diverging_reportable(g: Map<u64, NodeV>, e1: BorrowEdge, e2: BorrowEdge) -> bool {
    &&& e1 != e2
    &&& (e1.kind.is_mut_spec() || e2.kind.is_mut_spec())
    &&& e1.kind.overlaps_spec(e2.kind)
    &&& !rejoins(g, e1, e2)
}

/// Decides whether a pair of edges is a diverging conflict.
pub fn check_diverging_pair(st: &LifetimeState, e1: BorrowEdge, e2: BorrowEdge) -> (r: bool)
    requires
        st.wf(),
        st@.graph.dom().contains(e1.target),
        st@.graph.dom().contains(e2.target),
    ensures
        r == diverging_reportable(st@.graph, e1, e2),
{
    if e1 == e2 {
        return false;
    }
    if !(e1.kind.is_mut() || e2.kind.is_mut()) {
        return false;
    }
    if !e1.kind.overlaps(e2.kind) {
        return false;
    }
    let tc1 = st.transitive_children(e1.target);
    let tc2 = st.transitive_children(e2.target);
    tc1.disjoint_from(&tc2)
}

/// Law: among overlapping edge pairs with a mutable side, the diverging-edge
/// error is suppressed exactly when the two edge targets share a transitive
/// descendant.
pub proof fn lemma_rejoin_suppresses_divergence(g: Map<u64, NodeV>, e1: BorrowEdge, e2: BorrowEdge)
    requires
        e1 != e2,
        e1.kind.is_mut_spec() || e2.kind.is_mut_spec(),
        e1.kind.overlaps_spec(e2.kind),
    ensures
        !diverging_reportable(g, e1, e2) <==> !tc_spec(g, e1.target).disjoint(
            tc_spec(g, e2.target),
        ),
{
}


/// There is a mutable edge of kind `kind` from `l` to the node of each of
/// two distinct operands: one mutable region, two names.
pub open spec fn indirect_dup_at(
    s: StateV,
    operands: Set<usize>,
    l: u64,
    kind: EdgeKind,
) -> bool {
    exists|t1: usize, t2: usize, e1: BorrowEdge, e2: BorrowEdge|
        #![trigger s.graph[l].children.contains(e1), s.graph[l].children.contains(e2), operands.contains(t1), operands.contains(t2)]
        t1 != t2 && operands.contains(t1) && operands.contains(t2) && s.temps.dom().contains(t1)
            && s.temps.dom().contains(t2) && s.graph[l].children.contains(e1)
            && s.graph[l].children.contains(e2) && e1.kind == kind && e2.kind == kind
            && kind.is_mut_spec() && e1.target == s.temps[t1] && e2.target == s.temps[t2]
}

/// Picks a pair of distinct elements, one from each set, if any exists.
fn distinct_pair(ts1: &TempSet, ts2: &TempSet) -> (r: Option<(usize, usize)>)
    requires
        ts1.wf(),
        ts2.wf(),
    ensures
        match r {
            Some(p) => ts1@.contains(p.0) && ts2@.contains(p.1) && p.0 != p.1,
            None => !(exists|t1: usize, t2: usize|
                #[trigger] ts1@.contains(t1) && #[trigger] ts2@.contains(t2) && t1 != t2),
        },
{
    let v1 = ts1.elems();
    if v1.len() == 0 {
        proof {
            if exists|t1: usize, t2: usize|
                #[trigger] ts1@.contains(t1) && #[trigger] ts2@.contains(t2) && t1 != t2 {
                let t1 = choose|t1: usize| #[trigger] ts1@.contains(t1);
                assert(v1@.contains(t1));
            }
        }
        return None;
    }
    let a = v1[0];
    proof {
        assert(v1@.contains(v1@[0]));
        assert(ts1@.contains(a));
    }
    let v2 = ts2.elems();
    let mut i: usize = 0;
    while i < v2.len()
        invariant
            i <= v2@.len(),
            ts2.wf(),
            v2@.to_set() == ts2@,
            ts1@.contains(a),
            forall|j: int| 0 <= j < i ==> #[trigger] v2@[j] == a,
        decreases v2@.len() - i,
    {
        if v2[i] != a {
            proof {
                assert(v2@.contains(v2@[i as int]));
                assert(ts2@.contains(v2@[i as int]));
            }
            return Some((a, v2[i]));
        }
        i += 1;
    }
    // Every element of `ts2` is `a`; a differing element must come from
    // `ts1`, paired with `a` itself if it is in `ts2`.
    let mut j: usize = 0;
    while j < v1.len()
        invariant
            j <= v1@.len(),
            ts1.wf(),
            ts2.wf(),
            v1@.to_set() == ts1@,
            v2@.to_set() == ts2@,
            forall|k: int| 0 <= k < v2@.len() ==> #[trigger] v2@[k] == a,
            forall|k: int| 0 <= k < j ==> #[trigger] v1@[k] == a,
        decreases v1@.len() - j,
    {
        if v1[j] != a {
            let b = v1[j];
            proof {
                assert(v1@.contains(v1@[j as int]));
                assert(ts1@.contains(b));
            }
            if ts2.contains(a) {
                return Some((b, a));
            } else {
                proof {
                    if exists|t1: usize, t2: usize|
                        #[trigger] ts1@.contains(t1) && #[trigger] ts2@.contains(t2) && t1 != t2 {
                        let t2 = choose|t2: usize| #[trigger] ts2@.contains(t2);
                        assert(v2@.contains(t2));
                        let k = choose|k: int| 0 <= k < v2@.len() && v2@[k] == t2;
                        assert(t2 == a);
                    }
                }
                return None;
            }
        }
        j += 1;
    }
    proof {
        if exists|t1: usize, t2: usize|
            #[trigger] ts1@.contains(t1) && #[trigger] ts2@.contains(t2) && t1 != t2 {
            let (t1, t2) = choose|t1: usize, t2: usize|
                #[trigger] ts1@.contains(t1) && #[trigger] ts2@.contains(t2) && t1 != t2;
            assert(v1@.contains(t1));
            let k1 = choose|k1: int| 0 <= k1 < v1@.len() && v1@[k1] == t1;
            assert(t1 == a);
            assert(v2@.contains(t2));
            let k2 = choose|k2: int| 0 <= k2 < v2@.len() && v2@[k2] == t2;
            assert(t2 == a);
        }
    }
    None
}


/// The node has a mutable incoming edge.
pub open spec fn mut_incoming(s: StateV, label: u64) -> bool {
    exists|p: u64, ch: BorrowEdge|
        #![trigger s.graph[p].children.contains(ch)]
        s.graph[label].parents.contains(p) && s.graph.dom().contains(p)
            && s.graph[p].children.contains(ch) && ch.target == label && ch.kind.is_mut_spec()
}

/// `l` lies on a borrow chain above one of the operands: it reaches an
/// operand's node.
pub open spec fn operand_ancestor(s: StateV, operands: Seq<usize>, l: u64) -> bool {
    exists|j: int|
        0 <= j < operands.len() && s.temps.dom().contains(#[trigger] operands[j])
            && crate::reach::reaches(s.graph, l, s.temps[operands[j]])
}

/// The conflict pairs recorded as reported are reported indeed: every
/// genuine conflict among them has a diagnostic from `base` on.
pub open spec fn reported_invariant(
    rep: Seq<(BorrowEdge, BorrowEdge)>,
    g: Map<u64, NodeV>,
    base: int,
    d: Seq<Diag>,
) -> bool {
    forall|p: int|
        0 <= p < rep.len() && (#[trigger] rep[p]).0.kind != rep[p].1.kind && diverging_reportable(
            g,
            rep[p].0,
            rep[p].1,
        ) ==> exists|k: int|
            base <= k < d.len() && (#[trigger] d[k]).kind matches DiagKind::BorrowConflict { .. }
}

/// Appending twice keeps the first prefix.
pub(crate) proof fn lemma_prefix_chain(d0: Seq<Diag>, d1: Seq<Diag>, d2: Seq<Diag>)
    requires
        d1.len() >= d0.len(),
        d1.subrange(0, d0.len() as int) == d0,
        d2.len() >= d1.len(),
        d2.subrange(0, d1.len() as int) == d1,
    ensures
        d2.len() >= d0.len(),
        d2.subrange(0, d0.len() as int) == d0,
{
    assert(d2.subrange(0, d0.len() as int) =~= d0) by {
        assert forall|i: int| 0 <= i < d0.len() implies d2[i] == d0[i] by {
            assert(d2.subrange(0, d1.len() as int)[i] == d1[i]);
            assert(d1.subrange(0, d0.len() as int)[i] == d0[i]);
        }
    }
}

/// A recorded conflict report stays reported when the diagnostics grow.
proof fn lemma_reported_invariant_grows(
    rep: Seq<(BorrowEdge, BorrowEdge)>,
    g: Map<u64, NodeV>,
    base: int,
    d1: Seq<Diag>,
    d2: Seq<Diag>,
)
    requires
        0 <= base,
        reported_invariant(rep, g, base, d1),
        d2.len() >= d1.len(),
        d2.subrange(0, d1.len() as int) == d1,
    ensures
        reported_invariant(rep, g, base, d2),
{
    assert forall|p: int|
        0 <= p < rep.len() && (#[trigger] rep[p]).0.kind != rep[p].1.kind && diverging_reportable(
            g,
            rep[p].0,
            rep[p].1,
        ) implies exists|k: int|
        base <= k < d2.len() && (#[trigger] d2[k]).kind matches DiagKind::BorrowConflict {
            ..
        } by {
        let k = choose|k: int|
            base <= k < d1.len() && (#[trigger] d1[k]).kind matches DiagKind::BorrowConflict {
                ..
            };
        assert(d2.subrange(0, d1.len() as int)[k] == d1[k]);
        assert(d2[k] == d1[k]);
    }
}

/// After an append, the earlier diagnostics keep their places.
proof fn lemma_diags_stable(base: int, d1: Seq<Diag>, d2: Seq<Diag>)
    requires
        0 <= base,
        d2.len() >= d1.len(),
        d2.subrange(0, d1.len() as int) == d1,
    ensures
        forall|k1: int| base <= k1 < d1.len() ==> #[trigger] d2[k1] == d1[k1],
{
    assert forall|k1: int| base <= k1 < d1.len() implies #[trigger] d2[k1] == d1[k1] by {
        if 0 <= k1 {
            assert(d2.subrange(0, d1.len() as int)[k1] == d1[k1]);
        }
    }
}

/// Scans one node for operand-safety violations among its outgoing edges:
/// diverging pairs of overlapping kinds, mutable edges into still-borrowed
/// operand nodes, and one mutable region named by two operands.  Everything
/// such is reported, pairs once.
#[verifier::rlimit(100)]
#[verifier::spinoff_prover]
fn scan_label_conflicts(
    st: &LifetimeState,
    code: &FunctionCode,
    live: &LiveVarInfo,
    l: u64,
    temps: &TempSet,
    reported: &mut Vec<(BorrowEdge, BorrowEdge)>,
    cur_loc: u64,
    diags: &mut Vec<Diag>,
    base: Ghost<int>,
)
    requires
        st.wf(),
        code.wf(),
        live.wf(),
        temps.wf(),
        st@.graph.dom().contains(l),
        0 <= base@ <= old(diags)@.len(),
        reported_invariant(old(reported)@, st@.graph, base@, old(diags)@),
    ensures
        final(diags)@.len() >= old(diags)@.len(),
        final(diags)@.subrange(0, old(diags)@.len() as int) == old(diags)@,
        only_walk_diags(old(diags)@, final(diags)@),
        reported_invariant(final(reported)@, st@.graph, base@, final(diags)@),
        forall|e1: BorrowEdge, e2: BorrowEdge|
            #![trigger st@.graph[l].children.contains(e1), st@.graph[l].children.contains(e2)]
            st@.graph[l].children.contains(e1) && st@.graph[l].children.contains(e2) && e1.kind
                != e2.kind && diverging_reportable(st@.graph, e1, e2) ==> exists|k: int|
                base@ <= k < final(diags)@.len() && (#[trigger] final(diags)@[k]).kind matches
                    DiagKind::BorrowConflict { .. },
        forall|e: BorrowEdge, t: usize|
            #![trigger st@.graph[l].children.contains(e), temps@.contains(t)]
            st@.graph[l].children.contains(e) && e.kind.is_mut_spec() && temps@.contains(t)
                && st@.temps.dom().contains(t) && st@.temps[t] == e.target
                && st@.graph.dom().contains(e.target)
                && !st@.graph[e.target].children.is_empty() ==> exists|k: int|
                base@ <= k < final(diags)@.len() && (#[trigger] final(diags)@[k]).kind matches
                    DiagKind::ExclusiveAccessBorrowed { .. },
        forall|kind: EdgeKind|
            indirect_dup_at(st@, temps@, l, kind) ==> exists|k: int|
                base@ <= k < final(diags)@.len() && (#[trigger] final(diags)@[k]).kind matches
                    DiagKind::ExclusiveAccessIndirectDuplicate { .. },
{
    let ghost g = st@.graph;
    let n = st.graph.get(l).unwrap();
    let ev = n.children.elems();
    // Diverging pairs: edges of different kinds out of one node.
    let mut a: usize = 0;
    while a < ev.len()
        invariant
            a <= ev@.len(),
            st.wf(),
            code.wf(),
            live.wf(),
            temps.wf(),
            g == st@.graph,
            g.dom().contains(l),
            ev@.to_set() == g[l].children,
            0 <= base@ <= old(diags)@.len(),
            diags@.len() >= old(diags)@.len(),
            diags@.subrange(0, old(diags)@.len() as int) == old(diags)@,
            only_walk_diags(old(diags)@, diags@),
            reported_invariant(reported@, g, base@, diags@),
            forall|a2: int, b2: int|
                0 <= a2 < a && a2 < b2 < ev@.len() && (#[trigger] ev@[a2]).kind != (
                #[trigger] ev@[b2]).kind && diverging_reportable(g, ev@[a2], ev@[b2]) ==> exists|
                    k: int,
                |
                    base@ <= k < diags@.len() && (#[trigger] diags@[k]).kind matches
                        DiagKind::BorrowConflict { .. },
        decreases ev@.len() - a,
    {
        let mut b: usize = a + 1;
        while b < ev.len()
            invariant
                a < ev@.len(),
                a < b <= ev@.len() || b == a + 1,
                b >= a + 1,
                st.wf(),
                code.wf(),
                live.wf(),
                temps.wf(),
                g == st@.graph,
                g.dom().contains(l),
                ev@.to_set() == g[l].children,
                0 <= base@ <= old(diags)@.len(),
                diags@.len() >= old(diags)@.len(),
                diags@.subrange(0, old(diags)@.len() as int) == old(diags)@,
                only_walk_diags(old(diags)@, diags@),
                reported_invariant(reported@, g, base@, diags@),
                forall|a2: int, b2: int|
                    0 <= a2 < a && a2 < b2 < ev@.len() && (#[trigger] ev@[a2]).kind != (
                    #[trigger] ev@[b2]).kind && diverging_reportable(g, ev@[a2], ev@[b2])
                        ==> exists|k: int|
                        base@ <= k < diags@.len() && (#[trigger] diags@[k]).kind matches
                            DiagKind::BorrowConflict { .. },
                forall|b2: int|
                    a < b2 < b && (#[trigger] ev@[b2]).kind != ev@[a as int].kind
                        && diverging_reportable(g, ev@[a as int], ev@[b2]) ==> exists|k: int|
                        base@ <= k < diags@.len() && (#[trigger] diags@[k]).kind matches
                            DiagKind::BorrowConflict { .. },
            decreases ev@.len() - b,
        {
            let e1 = ev[a];
            let e2 = ev[b];
            proof {
                assert(ev@.contains(ev@[a as int]));
                assert(ev@.contains(ev@[b as int]));
                assert(g[l].children.contains(e1));
                assert(g[l].children.contains(e2));
            }
            if !(e1.kind == e2.kind) && (e1.kind.is_mut() || e2.kind.is_mut())
                && e1.kind.overlaps(e2.kind) {
                if !pair_reported(&reported, e1, e2) {
                    reported.push((e1, e2));
                    let ghost dpre = diags@;
                    if check_diverging_pair(st, e1, e2) {
                        diverging_edge_error(st, code, live, Some(l), e1, e2, cur_loc, diags);
                        proof {
                            assert(diags@.subrange(0, old(diags)@.len() as int) =~= old(diags)@)
                                by {
                                assert(dpre.subrange(0, old(diags)@.len() as int) == old(diags)@);
                                assert(diags@.subrange(0, dpre.len() as int) == dpre);
                                assert(diags@.subrange(0, old(diags)@.len() as int)
                                    =~= dpre.subrange(0, old(diags)@.len() as int));
                            }
                            assert(diags@[diags@.len() - 1].kind matches
                                DiagKind::BorrowConflict { .. });
                            lemma_diags_stable(0, dpre, diags@);
                            lemma_reported_invariant_grows(
                                reported@.drop_last(),
                                g,
                                base@,
                                dpre,
                                diags@,
                            );
                            assert(reported_invariant(reported@, g, base@, diags@)) by {
                                assert forall|p: int|
                                    0 <= p < reported@.len() && (#[trigger] reported@[p]).0.kind
                                        != reported@[p].1.kind && diverging_reportable(
                                        g,
                                        reported@[p].0,
                                        reported@[p].1,
                                    ) implies exists|k: int|
                                    base@ <= k < diags@.len() && (#[trigger] diags@[k]).kind
                                        matches DiagKind::BorrowConflict { .. } by {
                                    if p < reported@.len() - 1 {
                                        assert(reported@.drop_last()[p] == reported@[p]);
                                    } else {
                                        assert(base@ <= diags@.len() - 1 < diags@.len());
                                    }
                                }
                            }
                            assert(only_walk_diags(old(diags)@, diags@)) by {
                                assert forall|k: int|
                                    old(diags)@.len() <= k < diags@.len() implies match (
                                #[trigger] diags@[k]).kind {
                                    DiagKind::BorrowConflict { .. } => true,
                                    DiagKind::ExclusiveAccessBorrowed { .. } => true,
                                    DiagKind::ExclusiveAccessIndirectDuplicate { .. } => true,
                                    _ => false,
                                } by {
                                    if k < dpre.len() {
                                        assert(diags@[k] == dpre[k]);
                                    }
                                }
                            }
                        }
                    }
                }
            }
            b += 1;
        }
        a += 1;
    }
    proof {
        assert forall|e1: BorrowEdge, e2: BorrowEdge|
            g[l].children.contains(e1) && g[l].children.contains(e2) && e1.kind != e2.kind
                && diverging_reportable(g, e1, e2) implies exists|k: int|
            base@ <= k < diags@.len() && (#[trigger] diags@[k]).kind matches
                DiagKind::BorrowConflict { .. } by {
            assert(ev@.to_set().contains(e1));
            assert(ev@.contains(e1));
            assert(ev@.contains(e2));
            let i1 = choose|i1: int| 0 <= i1 < ev@.len() && ev@[i1] == e1;
            let i2 = choose|i2: int| 0 <= i2 < ev@.len() && ev@[i2] == e2;
            if i1 < i2 {
                assert(ev@[i1].kind != ev@[i2].kind && diverging_reportable(g, ev@[i1], ev@[i2]));
            } else {
                assert(i2 < i1);
                assert(ev@[i2].kind != ev@[i1].kind);
                assert(diverging_reportable(g, e2, e1)) by {
                    assert(e2.kind.overlaps_spec(e1.kind));
                    assert(!rejoins(g, e2, e1)) by {
                        assert forall|x: u64| tc_spec(g, e2.target).contains(x)
                            implies !tc_spec(g, e1.target).contains(x) by {}
                    }
                }
                assert(ev@[i2].kind != ev@[i1].kind && diverging_reportable(g, ev@[i2], ev@[i1]));
            }
        }
    }
    // Mutable edges into still-borrowed operand nodes, and one mutable
    // region named twice.
    let mut c: usize = 0;
    while c < ev.len()
        invariant
            c <= ev@.len(),
            st.wf(),
            code.wf(),
            live.wf(),
            temps.wf(),
            g == st@.graph,
            g.dom().contains(l),
            ev@.to_set() == g[l].children,
            0 <= base@ <= old(diags)@.len(),
            diags@.len() >= old(diags)@.len(),
            diags@.subrange(0, old(diags)@.len() as int) == old(diags)@,
            only_walk_diags(old(diags)@, diags@),
            reported_invariant(reported@, g, base@, diags@),
            forall|e1: BorrowEdge, e2: BorrowEdge|
                #![trigger g[l].children.contains(e1), g[l].children.contains(e2)]
                g[l].children.contains(e1) && g[l].children.contains(e2) && e1.kind != e2.kind
                    && diverging_reportable(g, e1, e2) ==> exists|k: int|
                    base@ <= k < diags@.len() && (#[trigger] diags@[k]).kind matches
                        DiagKind::BorrowConflict { .. },
            forall|c2: int, t: usize|
                #![trigger temps@.contains(t), ev@[c2]]
                0 <= c2 < c && ev@[c2].kind.is_mut_spec() && temps@.contains(t)
                    && st@.temps.dom().contains(t) && st@.temps[t] == ev@[c2].target
                    && g.dom().contains(ev@[c2].target)
                    && !g[ev@[c2].target].children.is_empty() ==> exists|k: int|
                    base@ <= k < diags@.len() && (#[trigger] diags@[k]).kind matches
                        DiagKind::ExclusiveAccessBorrowed { .. },
            forall|c2: int, b2: int, t1: usize, t2: usize|
                #![trigger ev@[c2], ev@[b2], temps@.contains(t1), temps@.contains(t2)]
                0 <= c2 < c && 0 <= b2 < ev@.len() && ev@[c2].kind.is_mut_spec()
                    && ev@[b2].kind == ev@[c2].kind && t1 != t2 && temps@.contains(t1)
                    && temps@.contains(t2) && st@.temps.dom().contains(t1)
                    && st@.temps.dom().contains(t2) && st@.temps[t1] == ev@[c2].target
                    && st@.temps[t2] == ev@[b2].target ==> exists|k: int|
                    base@ <= k < diags@.len() && (#[trigger] diags@[k]).kind matches
                        DiagKind::ExclusiveAccessIndirectDuplicate { .. },
        decreases ev@.len() - c,
    {
        let e = ev[c];
        proof {
            assert(ev@.contains(ev@[c as int]));
            assert(g[l].children.contains(e));
        }
        if e.kind.is_mut() {
            proof {
                assert(g.dom().contains(e.target));
            }
            let ts_all = st.temps_for_label(e.target);
            let inter = ts_all.intersect(temps);
            if !inter.is_empty() && !st.is_leaf(e.target) {
                let ghost dpre = diags@;
                let mut hints = borrow_info(st, e.target, EdgeFilter::All);
                let mut usages = usage_info(st, code, live, e.target, &inter);
                hints.append(&mut usages);
                diags.push(
                    Diag {
                        loc: cur_loc,
                        kind: DiagKind::ExclusiveAccessBorrowed { temps: inter.to_vec() },
                        hints,
                    },
                );
                proof {
                    assert(diags@.subrange(0, old(diags)@.len() as int) =~= old(diags)@) by {
                        assert(dpre.subrange(0, old(diags)@.len() as int) == old(diags)@);
                        assert(diags@.subrange(0, old(diags)@.len() as int) =~= dpre.subrange(
                            0,
                            old(diags)@.len() as int,
                        ));
                    }
                    assert(only_walk_diags(old(diags)@, diags@)) by {
                        assert forall|k: int|
                            old(diags)@.len() <= k < diags@.len() implies match (
                        #[trigger] diags@[k]).kind {
                            DiagKind::BorrowConflict { .. } => true,
                            DiagKind::ExclusiveAccessBorrowed { .. } => true,
                            DiagKind::ExclusiveAccessIndirectDuplicate { .. } => true,
                            _ => false,
                        } by {
                            if k < dpre.len() {
                                assert(diags@[k] == dpre[k]);
                            }
                        }
                    }
                    assert(diags@[diags@.len() - 1].kind matches
                        DiagKind::ExclusiveAccessBorrowed { .. });
                    assert(diags@.subrange(0, dpre.len() as int) =~= dpre);
                    lemma_reported_invariant_grows(reported@, g, base@, dpre, diags@);
                    lemma_diags_stable(0, dpre, diags@);
                }
            }
            proof {
                assert forall|t: usize|
                    #[trigger] temps@.contains(t) && st@.temps.dom().contains(t) && st@.temps[t]
                        == e.target && !g[e.target].children.is_empty() && g.dom().contains(
                        e.target,
                    ) implies exists|k: int|
                    base@ <= k < diags@.len() && (#[trigger] diags@[k]).kind matches
                        DiagKind::ExclusiveAccessBorrowed { .. } by {
                    assert(crate::state::temps_of(st@.temps, e.target).contains(t));
                    assert(inter@.contains(t));
                }
            }
            // One mutable region named by two operands, through any pair of
            // equal-kind mutable edges.
            let mut b3: usize = 0;
            while b3 < ev.len()
                invariant
                    b3 <= ev@.len(),
                    c < ev@.len(),
                    st.wf(),
                    code.wf(),
                    live.wf(),
                    temps.wf(),
                    g == st@.graph,
                    g.dom().contains(l),
                    ev@.to_set() == g[l].children,
                    e == ev@[c as int],
                    e.kind.is_mut_spec(),
                    inter.wf(),
                    inter@ == crate::state::temps_of(st@.temps, e.target).intersect(temps@),
                    0 <= base@ <= old(diags)@.len(),
                    diags@.len() >= old(diags)@.len(),
                    diags@.subrange(0, old(diags)@.len() as int) == old(diags)@,
                    only_walk_diags(old(diags)@, diags@),
                    reported_invariant(reported@, g, base@, diags@),
                    forall|e1: BorrowEdge, e2: BorrowEdge|
                        #![trigger g[l].children.contains(e1), g[l].children.contains(e2)]
                        g[l].children.contains(e1) && g[l].children.contains(e2) && e1.kind
                            != e2.kind && diverging_reportable(g, e1, e2) ==> exists|k: int|
                            base@ <= k < diags@.len() && (#[trigger] diags@[k]).kind matches
                                DiagKind::BorrowConflict { .. },
                    forall|c2: int, t: usize|
                        #![trigger temps@.contains(t), ev@[c2]]
                        0 <= c2 < c && ev@[c2].kind.is_mut_spec() && temps@.contains(t) && st@.temps.dom().contains(t) && st@.temps[t] == ev@[c2].target
                            && g.dom().contains(ev@[c2].target)
                            && !g[ev@[c2].target].children.is_empty() ==> exists|k: int|
                            base@ <= k < diags@.len() && (#[trigger] diags@[k]).kind matches
                                DiagKind::ExclusiveAccessBorrowed { .. },
                    forall|t: usize|
                        #![trigger temps@.contains(t)]
                        temps@.contains(t) && st@.temps.dom().contains(t) && st@.temps[t]
                            == e.target && !g[e.target].children.is_empty() && g.dom().contains(
                            e.target,
                        ) ==> exists|k: int|
                            base@ <= k < diags@.len() && (#[trigger] diags@[k]).kind matches
                                DiagKind::ExclusiveAccessBorrowed { .. },
                    forall|c2: int, b2: int, t1: usize, t2: usize|
                        #![trigger ev@[c2], ev@[b2], temps@.contains(t1), temps@.contains(t2)]
                        0 <= c2 < c && 0 <= b2 < ev@.len() && ev@[c2].kind.is_mut_spec()
                            && ev@[b2].kind == ev@[c2].kind && t1 != t2 && temps@.contains(t1)
                            && temps@.contains(t2) && st@.temps.dom().contains(t1)
                            && st@.temps.dom().contains(t2) && st@.temps[t1] == ev@[c2].target
                            && st@.temps[t2] == ev@[b2].target ==> exists|k: int|
                            base@ <= k < diags@.len() && (#[trigger] diags@[k]).kind matches
                                DiagKind::ExclusiveAccessIndirectDuplicate { .. },
                    forall|b2: int, t1: usize, t2: usize|
                        #![trigger ev@[b2], temps@.contains(t1), temps@.contains(t2)]
                        0 <= b2 < b3 && ev@[b2].kind == e.kind && t1 != t2 && temps@.contains(t1)
                            && temps@.contains(t2) && st@.temps.dom().contains(t1)
                            && st@.temps.dom().contains(t2) && st@.temps[t1] == e.target
                            && st@.temps[t2] == ev@[b2].target ==> exists|k: int|
                            base@ <= k < diags@.len() && (#[trigger] diags@[k]).kind matches
                                DiagKind::ExclusiveAccessIndirectDuplicate { .. },
                decreases ev@.len() - b3,
            {
                let f = ev[b3];
                proof {
                    assert(ev@.contains(ev@[b3 as int]));
                    assert(g[l].children.contains(f));
                }
                if f.kind == e.kind {
                    proof {
                        assert(g.dom().contains(f.target));
                    }
                    let ts2_all = st.temps_for_label(f.target);
                    let inter2 = ts2_all.intersect(temps);
                    let ghost inter2v = inter2@;
                    match distinct_pair(&inter, &inter2) {
                        Some(pair) => {
                            let ghost dpre = diags@;
                            let hints = borrow_info(st, l, EdgeFilter::All);
                            diags.push(
                                Diag {
                                    loc: cur_loc,
                                    kind: DiagKind::ExclusiveAccessIndirectDuplicate {
                                        first: pair.0,
                                        second: pair.1,
                                    },
                                    hints,
                                },
                            );
                            proof {
                                assert(diags@.subrange(0, old(diags)@.len() as int) =~= old(
                                    diags,
                                )@) by {
                                    assert(dpre.subrange(0, old(diags)@.len() as int) == old(
                                        diags,
                                    )@);
                                    assert(diags@.subrange(0, old(diags)@.len() as int)
                                        =~= dpre.subrange(0, old(diags)@.len() as int));
                                }
                                assert(only_walk_diags(old(diags)@, diags@)) by {
                                    assert forall|k: int|
                                        old(diags)@.len() <= k < diags@.len() implies match (
                                    #[trigger] diags@[k]).kind {
                                        DiagKind::BorrowConflict { .. } => true,
                                        DiagKind::ExclusiveAccessBorrowed { .. } => true,
                                        DiagKind::ExclusiveAccessIndirectDuplicate {
                                            ..
                                        } => true,
                                        _ => false,
                                    } by {
                                        if k < dpre.len() {
                                            assert(diags@[k] == dpre[k]);
                                        }
                                    }
                                }
                                assert(diags@[diags@.len() - 1].kind matches
                                    DiagKind::ExclusiveAccessIndirectDuplicate { .. });
                                assert(diags@.subrange(0, dpre.len() as int) =~= dpre);
                                lemma_reported_invariant_grows(reported@, g, base@, dpre, diags@);
                                lemma_diags_stable(0, dpre, diags@);
                            }
                        },
                        None => (),
                    }
                    proof {
                        assert forall|t1: usize, t2: usize|
                            t1 != t2 && #[trigger] temps@.contains(t1) && #[trigger] temps@.contains(
                                t2,
                            ) && st@.temps.dom().contains(t1) && st@.temps.dom().contains(t2)
                                && st@.temps[t1] == e.target && st@.temps[t2] == f.target
                            implies exists|k: int|
                            base@ <= k < diags@.len() && (#[trigger] diags@[k]).kind matches
                                DiagKind::ExclusiveAccessIndirectDuplicate { .. } by {
                            assert(crate::state::temps_of(st@.temps, e.target).contains(t1));
                            assert(inter@.contains(t1));
                            assert(crate::state::temps_of(st@.temps, f.target).contains(t2));
                            assert(inter2v.contains(t2));
                        }
                    }
                }
                b3 += 1;
            }
        }
        c += 1;
    }
    proof {
        assert forall|kind: EdgeKind| indirect_dup_at(st@, temps@, l, kind) implies exists|k: int|
            base@ <= k < diags@.len() && (#[trigger] diags@[k]).kind matches
                DiagKind::ExclusiveAccessIndirectDuplicate { .. } by {
            let (t1, t2, e1, e2) = choose|t1: usize, t2: usize, e1: BorrowEdge, e2: BorrowEdge|
                #![trigger st@.graph[l].children.contains(e1), st@.graph[l].children.contains(e2), temps@.contains(t1), temps@.contains(t2)]
                t1 != t2 && temps@.contains(t1) && temps@.contains(t2) && st@.temps.dom().contains(
                    t1,
                ) && st@.temps.dom().contains(t2) && st@.graph[l].children.contains(e1)
                    && st@.graph[l].children.contains(e2) && e1.kind == kind && e2.kind == kind
                    && kind.is_mut_spec() && e1.target == st@.temps[t1] && e2.target
                    == st@.temps[t2];
            assert(ev@.to_set().contains(e1));
            assert(ev@.contains(e1));
            assert(ev@.contains(e2));
            let i1 = choose|i1: int| 0 <= i1 < ev@.len() && ev@[i1] == e1;
            let i2 = choose|i2: int| 0 <= i2 < ev@.len() && ev@[i2] == e2;
        }
    }
}

/// Whether an unordered edge pair was already reported.
fn pair_reported(reported: &Vec<(BorrowEdge, BorrowEdge)>, e1: BorrowEdge, e2: BorrowEdge) -> (r:
    bool)
    ensures
        r == (reported@.contains((e1, e2)) || reported@.contains((e2, e1))),
{
    let mut i: usize = 0;
    while i < reported.len()
        invariant
            i <= reported.len(),
            forall|j: int| 0 <= j < i ==> #[trigger] reported@[j] != (e1, e2) && reported@[j] != (
                e2,
                e1,
            ),
        decreases reported.len() - i,
    {
        let p = reported[i];
        if (p.0 == e1 && p.1 == e2) || (p.0 == e2 && p.1 == e1) {
            proof {
                assert(reported@.contains(reported@[i as int]));
            }
            return true;
        }
        i += 1;
    }
    false
}

/// There are two positions in the operand list holding the same temporary.
pub open spec fn has_direct_duplicate(temps: Seq<usize>, t: usize) -> bool {
    exists|i: int, j: int| 0 <= i < j < temps.len() && #[trigger] temps[i] == t && #[trigger] temps[j] == t
}

/// Checks the borrow graph for safety with respect to the ordered operand
/// list `temps_vec`: reports duplicate operands, then walks the hyper graph
/// built over the roots of the operands' nodes, reporting diverging borrows
/// of overlapping regions, mutable operands that are still borrowed, and
/// distinct operands naming one mutable node.  The walk carries fuel
/// bounding the visited hyper nodes; on the graphs the analysis builds the
/// fuel is ample.
pub fn check_borrow_safety(
    st: &LifetimeState,
    code: &FunctionCode,
    live: &LiveVarInfo,
    temps_vec: &Vec<usize>,
    cur_loc: u64,
    diags: &mut Vec<Diag>,
)
    requires
        st.wf(),
        code.wf(),
        live.wf(),
        forall|i: int| 0 <= i < temps_vec@.len() ==> #[trigger] temps_vec@[i]
            < code.locals@.len(),
    ensures
        final(diags)@.len() >= old(diags)@.len(),
        final(diags)@.subrange(0, old(diags)@.len() as int) == old(diags)@,
        forall|t: usize|
            has_direct_duplicate(temps_vec@, t) <==> exists|k: int|
                old(diags)@.len() <= k < final(diags)@.len() && (#[trigger] final(diags)@[k]).kind
                    == (DiagKind::ExclusiveAccessDirectDuplicate { temp: t }),
        forall|k: int|
            old(diags)@.len() <= k < final(diags)@.len() ==> operand_safety_kind(
                (#[trigger] final(diags)@[k]).kind,
            ),
        forall|l: u64, e1: BorrowEdge, e2: BorrowEdge|
            #![trigger st@.graph[l].children.contains(e1), st@.graph[l].children.contains(e2)]
            operand_ancestor(st@, temps_vec@, l) && st@.graph[l].children.contains(e1)
                && st@.graph[l].children.contains(e2) && e1.kind != e2.kind
                && diverging_reportable(st@.graph, e1, e2) ==> exists|k: int|
                old(diags)@.len() <= k < final(diags)@.len() && (#[trigger] final(diags)@[k]).kind
                    matches DiagKind::BorrowConflict { .. },
        forall|j: int|
            0 <= j < temps_vec@.len() && st@.temps.dom().contains(#[trigger] temps_vec@[j])
                && mut_incoming(st@, st@.temps[temps_vec@[j]])
                && !st@.graph[st@.temps[temps_vec@[j]]].children.is_empty() ==> exists|k: int|
                old(diags)@.len() <= k < final(diags)@.len() && (#[trigger] final(diags)@[k]).kind
                    matches DiagKind::ExclusiveAccessBorrowed { .. },
        forall|l: u64, kind: EdgeKind|
            operand_ancestor(st@, temps_vec@, l) && #[trigger] indirect_dup_at(
                st@,
                temps_vec@.to_set(),
                l,
                kind,
            ) ==> exists|k: int|
                old(diags)@.len() <= k < final(diags)@.len() && (#[trigger] final(diags)@[k]).kind
                    matches DiagKind::ExclusiveAccessIndirectDuplicate { .. },
{
    let ghost d0 = diags@;
    // Condition (d), direct form: the same temporary twice in the list.
    let mut i: usize = 0;
    while i < temps_vec.len()
        invariant
            i <= temps_vec.len(),
            diags@.len() >= d0.len(),
            diags@.subrange(0, d0.len() as int) == d0,
            forall|k: int| d0.len() <= k < diags@.len() ==> exists|i2: int, j2: int|
                0 <= i2 < j2 < temps_vec@.len() && temps_vec@[i2] == temps_vec@[j2]
                    && (#[trigger] diags@[k]).kind == (DiagKind::ExclusiveAccessDirectDuplicate {
                    temp: temps_vec@[i2],
                }),
            forall|i2: int, j2: int|
                0 <= i2 < j2 < temps_vec@.len() && i2 < i && #[trigger] temps_vec@[i2]
                    == #[trigger] temps_vec@[j2] ==> exists|k: int|
                    d0.len() <= k < diags@.len() && (#[trigger] diags@[k]).kind == (
                    DiagKind::ExclusiveAccessDirectDuplicate { temp: temps_vec@[i2] }),
        decreases temps_vec.len() - i,
    {
        let t = temps_vec[i];
        let mut j: usize = i + 1;
        let mut found = false;
        while j < temps_vec.len()
            invariant
                i < j <= temps_vec.len(),
                t == temps_vec@[i as int],
                found == exists|j2: int| i < j2 < j && #[trigger] temps_vec@[j2] == t,
            decreases temps_vec.len() - j,
        {
            if temps_vec[j] == t {
                found = true;
                proof {
                    assert(temps_vec@[j as int] == t);
                }
            }
            j += 1;
        }
        if found {
            let ghost dpre = diags@;
            diags.push(
                Diag {
                    loc: cur_loc,
                    kind: DiagKind::ExclusiveAccessDirectDuplicate { temp: t },
                    hints: Vec::new(),
                },
            );
            proof {
                assert(diags@.subrange(0, d0.len() as int) =~= d0) by {
                    assert(dpre.subrange(0, d0.len() as int) == d0);
                    assert(diags@.subrange(0, d0.len() as int) =~= dpre.subrange(
                        0,
                        d0.len() as int,
                    ));
                }
                assert(diags@[diags@.len() - 1].kind == (
                DiagKind::ExclusiveAccessDirectDuplicate { temp: temps_vec@[i as int] }));
                assert forall|k: int| d0.len() <= k < diags@.len() implies exists|
                    i2: int,
                    j3: int,
                |
                    0 <= i2 < j3 < temps_vec@.len() && temps_vec@[i2] == temps_vec@[j3]
                        && (#[trigger] diags@[k]).kind == (
                    DiagKind::ExclusiveAccessDirectDuplicate { temp: temps_vec@[i2] }) by {
                    if k < dpre.len() {
                        assert(diags@[k] == dpre[k]);
                    } else {
                        let j2 = choose|j2: int|
                            i < j2 < temps_vec@.len() && #[trigger] temps_vec@[j2] == t;
                        assert(0 <= i < j2 < temps_vec@.len() && temps_vec@[i as int]
                            == temps_vec@[j2] && diags@[k].kind == (
                        DiagKind::ExclusiveAccessDirectDuplicate { temp: temps_vec@[i as int] }));
                    }
                }
                assert forall|i2: int, j2: int|
                    0 <= i2 < j2 < temps_vec@.len() && i2 < i + 1 && #[trigger] temps_vec@[i2]
                        == #[trigger] temps_vec@[j2] implies exists|k: int|
                    d0.len() <= k < diags@.len() && (#[trigger] diags@[k]).kind == (
                    DiagKind::ExclusiveAccessDirectDuplicate { temp: temps_vec@[i2] }) by {
                    if i2 == i {
                        assert(diags@[diags@.len() - 1].kind == (
                        DiagKind::ExclusiveAccessDirectDuplicate { temp: temps_vec@[i2] }));
                        assert(d0.len() <= diags@.len() - 1 < diags@.len());
                    } else {
                        let k = choose|k: int|
                            d0.len() <= k < dpre.len() && (#[trigger] dpre[k]).kind == (
                            DiagKind::ExclusiveAccessDirectDuplicate { temp: temps_vec@[i2] });
                        assert(diags@[k] == dpre[k]);
                    }
                }
            }
        } else {
            proof {
                assert forall|i2: int, j2: int|
                    0 <= i2 < j2 < temps_vec@.len() && i2 < i + 1 && #[trigger] temps_vec@[i2]
                        == #[trigger] temps_vec@[j2] implies exists|k: int|
                    d0.len() <= k < diags@.len() && (#[trigger] diags@[k]).kind == (
                    DiagKind::ExclusiveAccessDirectDuplicate { temp: temps_vec@[i2] }) by {
                    if i2 == i {
                        assert(temps_vec@[j2] == t);
                        assert(found);
                    }
                }
            }
        }
        i += 1;
    }
    proof {
        assert forall|t: usize| has_direct_duplicate(temps_vec@, t) implies exists|k: int|
            d0.len() <= k < diags@.len() && (#[trigger] diags@[k]).kind == (
        DiagKind::ExclusiveAccessDirectDuplicate { temp: t }) by {
            let (i2, j2) = choose|i2: int, j2: int|
                0 <= i2 < j2 < temps_vec@.len() && #[trigger] temps_vec@[i2] == t
                    && #[trigger] temps_vec@[j2] == t;
        }
    }
    let ghost d1 = diags@;
    // The hyper-graph walk over the roots of the operands' nodes.
    let mut temps = TempSet::new();
    let mut i2: usize = 0;
    while i2 < temps_vec.len()
        invariant
            i2 <= temps_vec.len(),
            temps.wf(),
            forall|j: int| 0 <= j < i2 ==> temps@.contains(#[trigger] temps_vec@[j]),
            forall|t: usize| #[trigger] temps@.contains(t) ==> temps_vec@.contains(t),
        decreases temps_vec.len() - i2,
    {
        temps.insert(temps_vec[i2]);
        i2 += 1;
    }
    // Filtered leaves: the nodes of the operands, with the operands naming
    // them.
    let mut leaf_labels: Vec<u64> = Vec::new();
    let mut i3: usize = 0;
    while i3 < temps_vec.len()
        invariant
            i3 <= temps_vec.len(),
            st.wf(),
            leaf_labels@.no_duplicates(),
            forall|j: int| 0 <= j < leaf_labels@.len() ==> st@.graph.dom().contains(
                #[trigger] leaf_labels@[j],
            ),
            forall|j2: int|
                0 <= j2 < i3 && st@.temps.dom().contains(#[trigger] temps_vec@[j2])
                    ==> leaf_labels@.contains(st@.temps[temps_vec@[j2]]),
        decreases temps_vec.len() - i3,
    {
        match st.label_for_temp(temps_vec[i3]) {
            Some(l) => {
                let mut seen = false;
                let mut j: usize = 0;
                while j < leaf_labels.len()
                    invariant
                        j <= leaf_labels.len(),
                        seen == exists|j2: int| 0 <= j2 < j && #[trigger] leaf_labels@[j2] == l,
                    decreases leaf_labels.len() - j,
                {
                    if leaf_labels[j] == l {
                        seen = true;
                        proof {
                            assert(leaf_labels@[j as int] == l);
                        }
                    }
                    j += 1;
                }
                if !seen {
                    proof {
                        assert(!leaf_labels@.contains(l)) by {
                            if leaf_labels@.contains(l) {
                                let j2 = choose|j2: int|
                                    0 <= j2 < leaf_labels@.len() && leaf_labels@[j2] == l;
                            }
                        }
                        broadcast use vstd::seq_lib::lemma_seq_contains_after_push;

                    }
                    leaf_labels.push(l);
                } else {
                    proof {
                        let j2 = choose|j2: int|
                            0 <= j2 < leaf_labels@.len() && #[trigger] leaf_labels@[j2] == l;
                        assert(leaf_labels@.contains(l));
                    }
                }
            },
            None => (),
        }
        i3 += 1;
    }
    // Every node on a chain above an operand is scanned for conflicts among
    // its outgoing edges; the hyper walk below adds the cross-label cases.
    let mut reported: Vec<(BorrowEdge, BorrowEdge)> = Vec::new();
    let mut anc = LabelSet::new();
    let mut i5: usize = 0;
    while i5 < leaf_labels.len()
        invariant
            i5 <= leaf_labels@.len(),
            st.wf(),
            anc.wf(),
            forall|j: int| 0 <= j < leaf_labels@.len() ==> st@.graph.dom().contains(
                #[trigger] leaf_labels@[j],
            ),
            forall|x: u64| #[trigger]
                anc@.contains(x) <==> exists|j: int|
                    0 <= j < i5 && crate::reach::parent_reaches(
                        st@.graph,
                        #[trigger] leaf_labels@[j],
                        x,
                    ),
        decreases leaf_labels@.len() - i5,
    {
        let aset = st.ancestor_set(leaf_labels[i5]);
        let _ = anc.union_with(&aset);
        proof {
            assert forall|x: u64| #[trigger] anc@.contains(x) implies exists|j: int|
                0 <= j < i5 + 1 && crate::reach::parent_reaches(
                    st@.graph,
                    #[trigger] leaf_labels@[j],
                    x,
                ) by {}
            assert forall|x: u64|
                (exists|j: int|
                    0 <= j < i5 + 1 && crate::reach::parent_reaches(
                        st@.graph,
                        #[trigger] leaf_labels@[j],
                        x,
                    )) implies anc@.contains(x) by {
                let j = choose|j: int|
                    0 <= j < i5 + 1 && crate::reach::parent_reaches(
                        st@.graph,
                        #[trigger] leaf_labels@[j],
                        x,
                    );
                if j == i5 {
                    assert(aset@.contains(x));
                }
            }
        }
        i5 += 1;
    }
    proof {
        assert forall|x: u64| #[trigger] anc@.contains(x) implies st@.graph.dom().contains(x)
            && exists|j: int|
            0 <= j < leaf_labels@.len() && crate::reach::reaches(
                st@.graph,
                x,
                #[trigger] leaf_labels@[j],
            ) by {
            let j = choose|j: int|
                0 <= j < leaf_labels@.len() && crate::reach::parent_reaches(
                    st@.graph,
                    #[trigger] leaf_labels@[j],
                    x,
                );
            crate::reach::lemma_parent_reaches_is_reaches(st@.graph, leaf_labels@[j], x);
            crate::reach::lemma_reaches_source_in_dom(st@.graph, x, leaf_labels@[j]);
        }
        assert forall|x: u64, j: int|
            0 <= j < leaf_labels@.len() && crate::reach::reaches(
                st@.graph,
                x,
                #[trigger] leaf_labels@[j],
            ) && st@.graph.dom().contains(leaf_labels@[j]) implies #[trigger] anc@.contains(
            x,
        ) by {
            crate::reach::lemma_parent_reaches_is_reaches(st@.graph, leaf_labels@[j], x);
        }
    }
    let av = anc.elems();
    let mut i6: usize = 0;
    while i6 < av.len()
        invariant
            i6 <= av@.len(),
            st.wf(),
            code.wf(),
            live.wf(),
            temps.wf(),
            anc.wf(),
            av@.to_set() == anc@,
            forall|x: u64| #[trigger] anc@.contains(x) ==> st@.graph.dom().contains(x),
            diags@.len() >= d1.len(),
            d1.len() >= old(diags)@.len(),
            diags@.subrange(0, d1.len() as int) == d1,
            d1.subrange(0, old(diags)@.len() as int) == old(diags)@,
            only_walk_diags(d1, diags@),
            reported_invariant(reported@, st@.graph, d1.len() as int, diags@),
            forall|j6: int, e1: BorrowEdge, e2: BorrowEdge|
                #![trigger st@.graph[av@[j6]].children.contains(e1), st@.graph[av@[j6]].children.contains(e2)]
                0 <= j6 < i6 && st@.graph[av@[j6]].children.contains(e1)
                    && st@.graph[av@[j6]].children.contains(e2) && e1.kind != e2.kind
                    && diverging_reportable(st@.graph, e1, e2) ==> exists|k: int|
                    d1.len() <= k < diags@.len() && (#[trigger] diags@[k]).kind matches
                        DiagKind::BorrowConflict { .. },
            forall|j6: int, e: BorrowEdge, t: usize|
                #![trigger st@.graph[av@[j6]].children.contains(e), temps@.contains(t)]
                0 <= j6 < i6 && st@.graph[av@[j6]].children.contains(e) && e.kind.is_mut_spec()
                    && temps@.contains(t) && st@.temps.dom().contains(t) && st@.temps[t]
                    == e.target && st@.graph.dom().contains(e.target)
                    && !st@.graph[e.target].children.is_empty() ==> exists|k: int|
                    d1.len() <= k < diags@.len() && (#[trigger] diags@[k]).kind matches
                        DiagKind::ExclusiveAccessBorrowed { .. },
            forall|j6: int, kind: EdgeKind|
                0 <= j6 < i6 && #[trigger] indirect_dup_at(st@, temps@, av@[j6], kind)
                    ==> exists|k: int|
                    d1.len() <= k < diags@.len() && (#[trigger] diags@[k]).kind matches
                        DiagKind::ExclusiveAccessIndirectDuplicate { .. },
        decreases av@.len() - i6,
    {
        proof {
            assert(av@.contains(av@[i6 as int]));
            assert(anc@.contains(av@[i6 as int]));
        }
        let ghost dpre = diags@;
        scan_label_conflicts(
            st,
            code,
            live,
            av[i6],
            &temps,
            &mut reported,
            cur_loc,
            diags,
            Ghost(d1.len() as int),
        );
        proof {
            lemma_prefix_chain(d1, dpre, diags@);
            lemma_prefix_chain(old(diags)@, d1, diags@);
            lemma_diags_stable(0, dpre, diags@);
            assert(only_walk_diags(d1, diags@)) by {
                assert forall|k: int| d1.len() <= k < diags@.len() implies match (
                #[trigger] diags@[k]).kind {
                    DiagKind::BorrowConflict { .. } => true,
                    DiagKind::ExclusiveAccessBorrowed { .. } => true,
                    DiagKind::ExclusiveAccessIndirectDuplicate { .. } => true,
                    _ => false,
                } by {
                    if k < dpre.len() {
                        assert(diags@[k] == dpre[k]);
                    }
                }
            }
        }
        i6 += 1;
    }
    let ghost d_scan = diags@;
    // Worklist of hyper nodes, seeded with the roots of the leaves.
    let mut todo: Vec<LabelSet> = Vec::new();
    let mut i4: usize = 0;
    while i4 < leaf_labels.len()
        invariant
            i4 <= leaf_labels.len(),
            st.wf(),
            forall|j: int| 0 <= j < leaf_labels@.len() ==> st@.graph.dom().contains(
                #[trigger] leaf_labels@[j],
            ),
            forall|j: int| 0 <= j < todo@.len() ==> (#[trigger] todo@[j]).wf()
                && todo@[j]@.subset_of(st@.graph.dom()),
        decreases leaf_labels.len() - i4,
    {
        let roots = st.roots(leaf_labels[i4]);
        let roots_v = roots.elems();
        let mut j: usize = 0;
        while j < roots_v.len()
            invariant
                j <= roots_v.len(),
                st.wf(),
                roots_v@.to_set() == roots@,
                roots@ == crate::reach::roots_spec(st@.graph, leaf_labels@[i4 as int]),
                forall|j2: int| 0 <= j2 < todo@.len() ==> (#[trigger] todo@[j2]).wf()
                    && todo@[j2]@.subset_of(st@.graph.dom()),
            decreases roots_v.len() - j,
        {
            let h = LabelSet::singleton(roots_v[j]);
            proof {
                assert(roots_v@.contains(roots_v@[j as int]));
                assert(roots@.contains(roots_v@[j as int]));
                assert(h@.subset_of(st@.graph.dom()));
            }
            todo.push(h);
            j += 1;
        }
        i4 += 1;
    }
    let glen = st.graph.len();
    let mut fuel: u128 = if glen < 100 {
        1u128 << (glen as u32)
    } else {
        u128::MAX
    };
    while todo.len() > 0 && fuel > 0
        invariant
            st.wf(),
            code.wf(),
            live.wf(),
            temps.wf(),
            forall|t: usize| #[trigger] temps@.contains(t) ==> temps_vec@.contains(t),
            forall|j: int| 0 <= j < todo@.len() ==> (#[trigger] todo@[j]).wf()
                && todo@[j]@.subset_of(st@.graph.dom()),
            diags@.len() >= d1.len(),
            diags@.subrange(0, d1.len() as int) == d1,
            diags@.len() >= d_scan.len(),
            diags@.subrange(0, d_scan.len() as int) == d_scan,
            only_walk_diags(d1, diags@),
        decreases fuel, todo@.len(),
    {
        let ghost todo_pre = todo@;
        let hyper = todo.pop().unwrap();
        fuel -= 1;
        proof {
            assert(todo_pre[todo_pre.len() - 1] == hyper);
            assert(hyper.wf() && hyper@.subset_of(st@.graph.dom()));
        }
        let ghost d_iter = diags@;
        // Group the outgoing edges of the hyper node's labels by kind.
        let mut group_kinds: Vec<EdgeKind> = Vec::new();
        let mut group_edges: Vec<Vec<BorrowEdge>> = Vec::new();
        let hv = hyper.elems();
        let mut j: usize = 0;
        while j < hv.len()
            invariant
                j <= hv.len(),
                st.wf(),
                hv@.to_set() == hyper@,
                hyper@.subset_of(st@.graph.dom()),
                group_kinds@.len() == group_edges@.len(),
                forall|a: int, b: int|
                    0 <= a < group_edges@.len() && 0 <= b < (#[trigger] group_edges@[a])@.len()
                        ==> edge_in_graph(st@, #[trigger] group_edges@[a]@[b]),
            decreases hv.len() - j,
        {
            let l = hv[j];
            proof {
                assert(hv@.contains(hv@[j as int]));
                assert(hyper@.contains(l));
            }
            let n = st.graph.get(l).unwrap();
            let edges = n.children.elems();
            let mut k: usize = 0;
            while k < edges.len()
                invariant
                    k <= edges.len(),
                    st.wf(),
                    st@.graph.dom().contains(l),
                    edges@.to_set() == st@.graph[l].children,
                    group_kinds@.len() == group_edges@.len(),
                    forall|a: int, b: int|
                        0 <= a < group_edges@.len() && 0 <= b < (#[trigger] group_edges@[a])@.len()
                            ==> edge_in_graph(st@, #[trigger] group_edges@[a]@[b]),
                decreases edges.len() - k,
            {
                let e = edges[k];
                proof {
                    assert(edges@.contains(edges@[k as int]));
                    assert(st@.graph[l].children.contains(e));
                    assert(edge_in_graph(st@, e));
                }
                let mut gi: usize = 0;
                let mut placed = false;
                while gi < group_kinds.len()
                    invariant
                        gi <= group_kinds.len(),
                        st.wf(),
                        edge_in_graph(st@, e),
                        group_kinds@.len() == group_edges@.len(),
                        forall|a: int, b: int|
                            0 <= a < group_edges@.len() && 0 <= b < (
                            #[trigger] group_edges@[a])@.len() ==> edge_in_graph(
                                st@,
                                #[trigger] group_edges@[a]@[b],
                            ),
                        !placed ==> group_kinds@.len() == group_edges@.len(),
                    decreases group_kinds.len() - gi,
                {
                    if group_kinds[gi] == e.kind {
                        let mut v = group_edges.remove(gi);
                        v.push(e);
                        group_edges.insert(gi, v);
                        placed = true;
                        proof {
                            assert forall|a: int, b: int|
                                0 <= a < group_edges@.len() && 0 <= b < (
                                #[trigger] group_edges@[a])@.len() implies edge_in_graph(
                                st@,
                                #[trigger] group_edges@[a]@[b],
                            ) by {}
                        }
                        break ;
                    }
                    gi += 1;
                }
                if !placed {
                    group_kinds.push(e.kind);
                    let mut v: Vec<BorrowEdge> = Vec::new();
                    v.push(e);
                    group_edges.push(v);
                }
                k += 1;
            }
            j += 1;
        }
        // Condition (b): pairwise comparison of hyper edges.
        let rep_label = if hv.len() > 0 {
            Some(hv[0])
        } else {
            None
        };
        let mut a: usize = 0;
        while a < group_kinds.len()
            invariant
                st.wf(),
                code.wf(),
                live.wf(),
                temps.wf(),
                a <= group_kinds@.len(),
                group_kinds@.len() == group_edges@.len(),
                forall|a2: int, b2: int|
                    0 <= a2 < group_edges@.len() && 0 <= b2 < (#[trigger] group_edges@[a2])@.len()
                        ==> edge_in_graph(st@, #[trigger] group_edges@[a2]@[b2]),
                (match rep_label {
                    Some(l) => st@.graph.dom().contains(l),
                    None => true,
                }),
                diags@.len() >= d1.len(),
                diags@.subrange(0, d1.len() as int) == d1,
                diags@.len() >= d_scan.len(),
                diags@.subrange(0, d_scan.len() as int) == d_scan,
                only_walk_diags(d1, diags@),
            decreases group_kinds@.len() - a,
        {
            let mut b: usize = a + 1;
            while b < group_kinds.len()
                invariant
                    st.wf(),
                    code.wf(),
                    live.wf(),
                    temps.wf(),
                    a < b <= group_kinds@.len() || (a < group_kinds@.len() && b
                        == group_kinds@.len()) || b >= a,
                    a < group_kinds@.len() ==> b <= group_kinds@.len(),
                    group_kinds@.len() == group_edges@.len(),
                    a < group_kinds@.len(),
                    forall|a2: int, b2: int|
                        0 <= a2 < group_edges@.len() && 0 <= b2 < (
                        #[trigger] group_edges@[a2])@.len() ==> edge_in_graph(
                            st@,
                            #[trigger] group_edges@[a2]@[b2],
                        ),
                    (match rep_label {
                        Some(l) => st@.graph.dom().contains(l),
                        None => true,
                    }),
                    diags@.len() >= d1.len(),
                    diags@.subrange(0, d1.len() as int) == d1,
                    diags@.len() >= d_scan.len(),
                    diags@.subrange(0, d_scan.len() as int) == d_scan,
                    only_walk_diags(d1, diags@),
                decreases group_kinds@.len() - b,
            {
                let k1 = group_kinds[a];
                let k2 = group_kinds[b];
                if (k1.is_mut() || k2.is_mut()) && k1.overlaps(k2) {
                    let ghost d_ab = diags@;
                    let mut x: usize = 0;
                    while x < group_edges[a].len()
                        invariant
                            st.wf(),
                            code.wf(),
                            live.wf(),
                            temps.wf(),
                            a < group_edges@.len(),
                            b < group_edges@.len(),
                            x <= (group_edges@[a as int])@.len(),
                            group_kinds@.len() == group_edges@.len(),
                            forall|a2: int, b2: int|
                                0 <= a2 < group_edges@.len() && 0 <= b2 < (
                                #[trigger] group_edges@[a2])@.len() ==> edge_in_graph(
                                    st@,
                                    #[trigger] group_edges@[a2]@[b2],
                                ),
                            (match rep_label {
                                Some(l) => st@.graph.dom().contains(l),
                                None => true,
                            }),
                            diags@.len() >= d1.len(),
                            diags@.subrange(0, d1.len() as int) == d1,
                            diags@.len() >= d_scan.len(),
                            diags@.subrange(0, d_scan.len() as int) == d_scan,
                            only_walk_diags(d1, diags@),
                        decreases (group_edges@[a as int])@.len() - x,
                    {
                        let mut y: usize = 0;
                        while y < group_edges[b].len()
                            invariant
                                st.wf(),
                                code.wf(),
                                live.wf(),
                                temps.wf(),
                                a < group_edges@.len(),
                                b < group_edges@.len(),
                                x < (group_edges@[a as int])@.len(),
                                y <= (group_edges@[b as int])@.len(),
                                group_kinds@.len() == group_edges@.len(),
                                forall|a2: int, b2: int|
                                    0 <= a2 < group_edges@.len() && 0 <= b2 < (
                                    #[trigger] group_edges@[a2])@.len() ==> edge_in_graph(
                                        st@,
                                        #[trigger] group_edges@[a2]@[b2],
                                    ),
                                (match rep_label {
                                    Some(l) => st@.graph.dom().contains(l),
                                    None => true,
                                }),
                                diags@.len() >= d1.len(),
                                diags@.subrange(0, d1.len() as int) == d1,
                                diags@.len() >= d_scan.len(),
                                diags@.subrange(0, d_scan.len() as int) == d_scan,
                                only_walk_diags(d1, diags@),
                            decreases (group_edges@[b as int])@.len() - y,
                        {
                            let e1 = group_edges[a][x];
                            let e2 = group_edges[b][y];
                            proof {
                                assert(edge_in_graph(st@, (group_edges@[a as int])@[x as int]));
                                assert(edge_in_graph(st@, (group_edges@[b as int])@[y as int]));
                            }
                            if !(e1 == e2) && !pair_reported(&reported, e1, e2) {
                                reported.push((e1, e2));
                                if check_diverging_pair(st, e1, e2) {
                                    let ghost dpre = diags@;
                                    diverging_edge_error(
                                        st,
                                        code,
                                        live,
                                        rep_label,
                                        e1,
                                        e2,
                                        cur_loc,
                                        diags,
                                    );
                                    proof {
                                        assert(diags@.subrange(0, d1.len() as int) =~= d1) by {
                                            assert(dpre.subrange(0, d1.len() as int) == d1);
                                            assert(diags@.subrange(0, dpre.len() as int) == dpre);
                                            assert(diags@.subrange(0, d1.len() as int)
                                                =~= dpre.subrange(0, d1.len() as int));
                                        }
                                        assert(diags@.subrange(0, d_scan.len() as int)
                                            =~= d_scan) by {
                                            assert(dpre.subrange(0, d_scan.len() as int)
                                                == d_scan);
                                            assert(diags@.subrange(0, d_scan.len() as int)
                                                =~= dpre.subrange(0, d_scan.len() as int));
                                        }
                                        assert(only_walk_diags(d1, diags@)) by {
                                            assert forall|k: int|
                                                d1.len() <= k < diags@.len() implies match (
                                            #[trigger] diags@[k]).kind {
                                                DiagKind::BorrowConflict { .. } => true,
                                                DiagKind::ExclusiveAccessBorrowed { .. } => true,
                                                DiagKind::ExclusiveAccessIndirectDuplicate {
                                                    ..
                                                } => true,
                                                _ => false,
                                            } by {
                                                if k < dpre.len() {
                                                    assert(diags@[k] == dpre[k]);
                                                }
                                            }
                                        }
                                    }
                                }
                            }
                            y += 1;
                        }
                        x += 1;
                    }
                }
                b += 1;
            }
            a += 1;
        }
        // Conditions (c) and (d), indirect form, per hyper edge; then push
        // the successor hyper node.
        let mut a2: usize = 0;
        while a2 < group_kinds.len()
            invariant
                st.wf(),
                code.wf(),
                live.wf(),
                temps.wf(),
                hyper.wf(),
                hyper@.subset_of(st@.graph.dom()),
                forall|t: usize| #[trigger] temps@.contains(t) ==> temps_vec@.contains(t),
                a2 <= group_kinds@.len(),
                group_kinds@.len() == group_edges@.len(),
                forall|a3: int, b3: int|
                    0 <= a3 < group_edges@.len() && 0 <= b3 < (#[trigger] group_edges@[a3])@.len()
                        ==> edge_in_graph(st@, #[trigger] group_edges@[a3]@[b3]),
                forall|j2: int| 0 <= j2 < todo@.len() ==> (#[trigger] todo@[j2]).wf()
                    && todo@[j2]@.subset_of(st@.graph.dom()),
                diags@.len() >= d1.len(),
                diags@.subrange(0, d1.len() as int) == d1,
                diags@.len() >= d_scan.len(),
                diags@.subrange(0, d_scan.len() as int) == d_scan,
                only_walk_diags(d1, diags@),
            decreases group_kinds@.len() - a2,
        {
            let es = &group_edges[a2];
            let mut mapped = TempSet::new();
            let mut targets = LabelSet::new();
            let mut x2: usize = 0;
            while x2 < es.len()
                invariant
                    st.wf(),
                    code.wf(),
                    live.wf(),
                    temps.wf(),
                    forall|t: usize| #[trigger] temps@.contains(t) ==> temps_vec@.contains(t),
                    x2 <= es@.len(),
                    a2 < group_edges@.len(),
                    es@ == (group_edges@[a2 as int])@,
                    mapped.wf(),
                    targets.wf(),
                    targets@.subset_of(st@.graph.dom()),
                    forall|b3: int| 0 <= b3 < es@.len() ==> edge_in_graph(
                        st@,
                        #[trigger] es@[b3],
                    ),
                    diags@.len() >= d1.len(),
                    diags@.subrange(0, d1.len() as int) == d1,
                    diags@.len() >= d_scan.len(),
                    diags@.subrange(0, d_scan.len() as int) == d_scan,
                    only_walk_diags(d1, diags@),
                decreases es@.len() - x2,
            {
                let e = es[x2];
                proof {
                    assert(edge_in_graph(st@, es@[x2 as int]));
                }
                targets.insert(e.target);
                if e.kind.is_mut() {
                    let ts_all = st.temps_for_label(e.target);
                    let inter = ts_all.intersect(&temps);
                    if !inter.is_empty() {
                        if !st.is_leaf(e.target) {
                            // Condition (c): a mutable operand still borrowed.
                            let ghost dpre = diags@;
                            let mut hints = borrow_info(st, e.target, EdgeFilter::All);
                            let mut usages = usage_info(st, code, live, e.target, &inter);
                            hints.append(&mut usages);
                            diags.push(
                                Diag {
                                    loc: cur_loc,
                                    kind: DiagKind::ExclusiveAccessBorrowed {
                                        temps: inter.to_vec(),
                                    },
                                    hints,
                                },
                            );
                            proof {
                                assert(diags@.subrange(0, d1.len() as int) =~= d1) by {
                                    assert(dpre.subrange(0, d1.len() as int) == d1);
                                    assert(diags@.subrange(0, d1.len() as int) =~= dpre.subrange(
                                        0,
                                        d1.len() as int,
                                    ));
                                }
                                assert(diags@.subrange(0, d_scan.len() as int) =~= d_scan) by {
                                    assert(dpre.subrange(0, d_scan.len() as int) == d_scan);
                                    assert(diags@.subrange(0, d_scan.len() as int)
                                        =~= dpre.subrange(0, d_scan.len() as int));
                                }
                                assert(only_walk_diags(d1, diags@)) by {
                                    assert forall|k: int|
                                        d1.len() <= k < diags@.len() implies match (
                                    #[trigger] diags@[k]).kind {
                                        DiagKind::BorrowConflict { .. } => true,
                                        DiagKind::ExclusiveAccessBorrowed { .. } => true,
                                        DiagKind::ExclusiveAccessIndirectDuplicate { .. } => true,
                                        _ => false,
                                    } by {
                                        if k < dpre.len() {
                                            assert(diags@[k] == dpre[k]);
                                        }
                                    }
                                }
                            }
                        }
                        let _ = mapped.union_with(&inter);
                    }
                }
                x2 += 1;
            }
            if mapped.len() > 1 {
                // Condition (d), indirect form: one mutable node, two names.
                let mv = mapped.elems();
                proof {
                    mv@.unique_seq_to_set();
                }
                let first = mv[0];
                let second = mv[1];
                let ghost dpre = diags@;
                let mut hints: Vec<Hint> = Vec::new();
                let hv2 = hyper.elems();
                let mut j2: usize = 0;
                while j2 < hv2.len()
                    invariant
                        st.wf(),
                        j2 <= hv2.len(),
                        hv2@.to_set() == hyper@,
                        hyper@.subset_of(st@.graph.dom()),
                    decreases hv2.len() - j2,
                {
                    proof {
                        assert(hv2@.contains(hv2@[j2 as int]));
                        assert(hyper@.contains(hv2@[j2 as int]));
                    }
                    let mut more = borrow_info(st, hv2[j2], EdgeFilter::All);
                    hints.append(&mut more);
                    j2 += 1;
                }
                diags.push(
                    Diag {
                        loc: cur_loc,
                        kind: DiagKind::ExclusiveAccessIndirectDuplicate { first, second },
                        hints,
                    },
                );
                proof {
                    assert(diags@.subrange(0, d1.len() as int) =~= d1) by {
                        assert(dpre.subrange(0, d1.len() as int) == d1);
                        assert(diags@.subrange(0, d1.len() as int) =~= dpre.subrange(
                            0,
                            d1.len() as int,
                        ));
                    }
                    assert(diags@.subrange(0, d_scan.len() as int) =~= d_scan) by {
                        assert(dpre.subrange(0, d_scan.len() as int) == d_scan);
                        assert(diags@.subrange(0, d_scan.len() as int) =~= dpre.subrange(
                            0,
                            d_scan.len() as int,
                        ));
                    }
                    assert(only_walk_diags(d1, diags@)) by {
                        assert forall|k: int|
                            d1.len() <= k < diags@.len() implies match (
                        #[trigger] diags@[k]).kind {
                            DiagKind::BorrowConflict { .. } => true,
                            DiagKind::ExclusiveAccessBorrowed { .. } => true,
                            DiagKind::ExclusiveAccessIndirectDuplicate { .. } => true,
                            _ => false,
                        } by {
                            if k < dpre.len() {
                                assert(diags@[k] == dpre[k]);
                            }
                        }
                    }
                }
            }
            todo.push(targets);
            a2 += 1;
        }
        proof {
            assert(diags@.subrange(0, d1.len() as int) =~= d1);
        }
    }
    proof {
        assert(diags@.subrange(0, d0.len() as int) =~= d0) by {
            assert(d1.subrange(0, d0.len() as int) == d0);
            assert(diags@.subrange(0, d1.len() as int) == d1);
            assert(diags@.subrange(0, d0.len() as int) =~= d1.subrange(0, d0.len() as int));
        }
        assert forall|t: usize| has_direct_duplicate(temps_vec@, t) implies exists|k: int|
            d0.len() <= k < diags@.len() && (#[trigger] diags@[k]).kind == (
        DiagKind::ExclusiveAccessDirectDuplicate { temp: t }) by {
            let k = choose|k: int|
                d0.len() <= k < d1.len() && (#[trigger] d1[k]).kind == (
                DiagKind::ExclusiveAccessDirectDuplicate { temp: t });
            assert(diags@[k] == d1[k]);
        }
        assert forall|k: int|
            d0.len() <= k < diags@.len() implies operand_safety_kind(
            (#[trigger] diags@[k]).kind,
        ) by {
            if k < d1.len() {
                assert(diags@[k] == d1[k]);
            }
        }
        assert forall|t: usize|
            (exists|k: int|
                d0.len() <= k < diags@.len() && (#[trigger] diags@[k]).kind == (
                DiagKind::ExclusiveAccessDirectDuplicate { temp: t })) implies has_direct_duplicate(
            temps_vec@,
            t,
        ) by {
            let k = choose|k: int|
                d0.len() <= k < diags@.len() && (#[trigger] diags@[k]).kind == (
                DiagKind::ExclusiveAccessDirectDuplicate { temp: t });
            if k < d1.len() {
                assert(d1[k] == diags@[k]);
            } else {
                assert(false) by {
                    assert(only_walk_diags(d1, diags@));
                }
            }
        }
        // The scanned nodes cover every node above an operand: assemble the
        // completeness clauses from the per-node scan, stable under the
        // walk's later appends.
        lemma_diags_stable(0, d_scan, diags@);
        assert forall|l: u64, e1: BorrowEdge, e2: BorrowEdge|
            operand_ancestor(st@, temps_vec@, l) && #[trigger] st@.graph[l].children.contains(e1)
                && #[trigger] st@.graph[l].children.contains(e2) && e1.kind != e2.kind
                && diverging_reportable(st@.graph, e1, e2) implies exists|k: int|
            d0.len() <= k < diags@.len() && (#[trigger] diags@[k]).kind matches
                DiagKind::BorrowConflict { .. } by {
            let j = choose|j: int|
                0 <= j < temps_vec@.len() && st@.temps.dom().contains(#[trigger] temps_vec@[j])
                    && crate::reach::reaches(st@.graph, l, st@.temps[temps_vec@[j]]);
            assert(leaf_labels@.contains(st@.temps[temps_vec@[j]]));
            let j2 = choose|j2: int|
                0 <= j2 < leaf_labels@.len() && leaf_labels@[j2] == st@.temps[temps_vec@[j]];
            assert(anc@.contains(l));
            assert(av@.to_set().contains(l));
            assert(av@.contains(l));
            let j6 = choose|j6: int| 0 <= j6 < av@.len() && av@[j6] == l;
            let k = choose|k: int|
                d1.len() <= k < d_scan.len() && (#[trigger] d_scan[k]).kind matches
                    DiagKind::BorrowConflict { .. };
            assert(diags@[k] == d_scan[k]);
        }
        assert forall|j: int|
            0 <= j < temps_vec@.len() && st@.temps.dom().contains(#[trigger] temps_vec@[j])
                && mut_incoming(st@, st@.temps[temps_vec@[j]])
                && !st@.graph[st@.temps[temps_vec@[j]]].children.is_empty() implies exists|k: int|
            d0.len() <= k < diags@.len() && (#[trigger] diags@[k]).kind matches
                DiagKind::ExclusiveAccessBorrowed { .. } by {
            let t = temps_vec@[j];
            let node = st@.temps[t];
            let (p, ch) = choose|p: u64, ch: BorrowEdge|
                #![trigger st@.graph[p].children.contains(ch)]
                st@.graph[node].parents.contains(p) && st@.graph.dom().contains(p)
                    && st@.graph[p].children.contains(ch) && ch.target == node
                    && ch.kind.is_mut_spec();
            crate::reach::lemma_reaches_refl(st@.graph, p);
            assert(crate::reach::has_edge(st@.graph, p, node)) by {
                assert(st@.graph[p].children.contains(ch) && ch.target == node);
            }
            crate::reach::lemma_reaches_step(st@.graph, p, p, node);
            assert(leaf_labels@.contains(node));
            assert(anc@.contains(p));
            assert(av@.to_set().contains(p));
            assert(av@.contains(p));
            let j6 = choose|j6: int| 0 <= j6 < av@.len() && av@[j6] == p;
            assert(temps@.contains(t));
            assert(st@.graph.dom().contains(node));
            let k = choose|k: int|
                d1.len() <= k < d_scan.len() && (#[trigger] d_scan[k]).kind matches
                    DiagKind::ExclusiveAccessBorrowed { .. };
            assert(diags@[k] == d_scan[k]);
        }
        assert(temps@ =~= temps_vec@.to_set()) by {
            assert forall|t: usize| temps_vec@.to_set().contains(t) implies temps@.contains(t) by {
                assert(temps_vec@.contains(t));
                let j = choose|j: int| 0 <= j < temps_vec@.len() && temps_vec@[j] == t;
            }
            assert forall|t: usize| temps@.contains(t) implies temps_vec@.to_set().contains(t) by {
                assert(temps_vec@.contains(t));
            }
        }
        assert forall|l: u64, kind: EdgeKind|
            operand_ancestor(st@, temps_vec@, l) && #[trigger] indirect_dup_at(
                st@,
                temps_vec@.to_set(),
                l,
                kind,
            ) implies exists|k: int|
            d0.len() <= k < diags@.len() && (#[trigger] diags@[k]).kind matches
                DiagKind::ExclusiveAccessIndirectDuplicate { .. } by {
            let j = choose|j: int|
                0 <= j < temps_vec@.len() && st@.temps.dom().contains(#[trigger] temps_vec@[j])
                    && crate::reach::reaches(st@.graph, l, st@.temps[temps_vec@[j]]);
            assert(leaf_labels@.contains(st@.temps[temps_vec@[j]]));
            assert(anc@.contains(l));
            assert(av@.to_set().contains(l));
            assert(av@.contains(l));
            let j6 = choose|j6: int| 0 <= j6 < av@.len() && av@[j6] == l;
            assert(indirect_dup_at(st@, temps@, l, kind));
            let k = choose|k: int|
                d1.len() <= k < d_scan.len() && (#[trigger] d_scan[k]).kind matches
                    DiagKind::ExclusiveAccessIndirectDuplicate { .. };
            assert(diags@[k] == d_scan[k]);
        }
    }
}

/// The edge is an outgoing edge of some node of the graph.
pub open spec fn edge_in_graph(s: StateV, e: BorrowEdge) -> bool {
    exists|l: u64| #[trigger]
        s.graph.dom().contains(l) && s.graph[l].children.contains(e)
}

/// Everything appended after the duplicate scan is a hyper-walk finding:
/// a diverging borrow conflict, a mutable operand that is still borrowed, or
/// one mutable node named by two operands.
pub open spec fn only_walk_diags(d1: Seq<Diag>, d2: Seq<Diag>) -> bool {
    forall|k: int|
        d1.len() <= k < d2.len() ==> match (#[trigger] d2[k]).kind {
            DiagKind::BorrowConflict { .. } => true,
            DiagKind::ExclusiveAccessBorrowed { .. } => true,
            DiagKind::ExclusiveAccessIndirectDuplicate { .. } => true,
            _ => false,
        }
}

/// The diagnostic kinds that the operand-safety check emits.
pub open spec fn operand_safety_kind(k: DiagKind) -> bool {
    match k {
        DiagKind::ExclusiveAccessDirectDuplicate { .. } => true,
        DiagKind::BorrowConflict { .. } => true,
        DiagKind::ExclusiveAccessBorrowed { .. } => true,
        DiagKind::ExclusiveAccessIndirectDuplicate { .. } => true,
        _ => false,
    }
}

/// Reports a diverging-edge conflict: the textually later edge is flagged,
/// the earlier one is the existing borrow.
fn diverging_edge_error(
    st: &LifetimeState,
    code: &FunctionCode,
    live: &LiveVarInfo,
    rep_label: Option<u64>,
    e1: BorrowEdge,
    e2: BorrowEdge,
    cur_loc: u64,
    diags: &mut Vec<Diag>,
)
    requires
        st.wf(),
        code.wf(),
        live.wf(),
        st@.graph.dom().contains(e1.target),
        st@.graph.dom().contains(e2.target),
        (match rep_label {
            Some(l) => st@.graph.dom().contains(l),
            None => true,
        }),
    ensures
        final(diags)@.len() == old(diags)@.len() + 1,
        final(diags)@.subrange(0, old(diags)@.len() as int) == old(diags)@,
        final(diags)@.last().loc == (if e1.loc < e2.loc {
            e2.loc
        } else {
            e1.loc
        }),
        final(diags)@.last().kind matches DiagKind::BorrowConflict {
            attempted_is_mut,
            existing_is_mut,
            temp: _,
        } && attempted_is_mut == (if e1.loc < e2.loc {
            e2.kind.is_mut_spec()
        } else {
            e1.kind.is_mut_spec()
        }) && existing_is_mut == (if e1.loc < e2.loc {
            e1.kind.is_mut_spec()
        } else {
            e2.kind.is_mut_spec()
        }),
{
    // The later edge by source position is flagged.
    let (later, earlier) = if e1.loc < e2.loc {
        (e2, e1)
    } else {
        (e1, e2)
    };
    let (temp_opt, temps_at) = match rep_label {
        Some(l) => {
            let ts = st.temps_for_label(l);
            let tv = ts.elems();
            if tv.len() > 0 {
                let t0 = tv[0];
                (Some(t0), ts)
            } else {
                (None, ts)
            }
        },
        None => (None, TempSet::new()),
    };
    let mut hints: Vec<Hint> = Vec::new();
    match rep_label {
        Some(l) => {
            let mut bi = borrow_info(st, l, EdgeFilter::Excluding { edge: later });
            hints.append(&mut bi);
        },
        None => (),
    }
    hints.push(Hint { loc: cur_loc, kind: HintKind::EnforcedHere });
    let mut usages = usage_info(st, code, live, earlier.target, &temps_at);
    hints.append(&mut usages);
    let ghost d0 = diags@;
    diags.push(
        Diag {
            loc: later.loc,
            kind: DiagKind::BorrowConflict {
                attempted_is_mut: later.kind.is_mut(),
                existing_is_mut: earlier.kind.is_mut(),
                temp: temp_opt,
            },
            hints,
        },
    );
    proof {
        assert(final(diags)@.subrange(0, d0.len() as int) =~= d0);
    }
}

} // verus!
