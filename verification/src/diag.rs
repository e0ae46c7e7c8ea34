//! Structured diagnostics: every safety violation is reported as a primary
//! source location, a kind, and a list of hints pointing at the borrows and
//! uses involved.

use crate::edge::BorrowEdge;
use crate::edge::EdgeKind;
use crate::instr::FunctionCode;
use crate::instr::LiveVarInfo;
use crate::reach::reaches;
use crate::sets::TempSet;
use crate::state::used_labels;
use crate::state::LifetimeState;
use vstd::prelude::*;

verus! {

/// The shape of a borrow edge, for hint texts.
#[derive(Clone, Copy, Debug, PartialEq, Eq, Structural)]
pub enum EdgeClass {
    LocalBorrow,
    GlobalBorrow,
    FieldBorrow,
    CallResult,
    Freeze,
}

/// The class of an edge kind.
pub open spec fn edge_class_spec(k: EdgeKind) -> EdgeClass {
    match k {
        EdgeKind::BorrowLocal { .. } => EdgeClass::LocalBorrow,
        EdgeKind::BorrowGlobal { .. } => EdgeClass::GlobalBorrow,
        EdgeKind::BorrowField { .. } => EdgeClass::FieldBorrow,
        EdgeKind::Call { .. } => EdgeClass::CallResult,
        EdgeKind::Freeze => EdgeClass::Freeze,
    }
}

/// The class of an edge kind.
#[verifier::when_used_as_spec(edge_class_spec)]
pub fn edge_class(k: EdgeKind) -> (r: EdgeClass)
    ensures
        r == edge_class_spec(k),
{
    match k {
        EdgeKind::BorrowLocal { .. } => EdgeClass::LocalBorrow,
        EdgeKind::BorrowGlobal { .. } => EdgeClass::GlobalBorrow,
        EdgeKind::BorrowField { .. } => EdgeClass::FieldBorrow,
        EdgeKind::Call { .. } => EdgeClass::CallResult,
        EdgeKind::Freeze => EdgeClass::Freeze,
    }
}

/// One hint attached to a diagnostic.
#[derive(Clone, Copy, Debug, PartialEq, Eq, Structural)]
pub enum HintKind {
    /// A previous borrow of the involved node.
    PreviousBorrow { is_mut: bool, class: EdgeClass },
    /// A borrow through which the involved node is still used.
    UsedBy { is_mut: bool, class: EdgeClass },
    /// A later use of a conflicting reference.
    ConflictingUse { temp: usize },
    /// The program point enforcing the violated requirement.
    EnforcedHere,
}

/// A hint: a source location and what it shows.
#[derive(Clone, Copy, Debug, PartialEq, Eq, Structural)]
pub struct Hint {
    pub loc: u64,
    pub kind: HintKind,
}

/// The taxonomy of reference-safety violations.
#[derive(Clone, Debug)]
pub enum DiagKind {
    /// Copying a local that is still mutably borrowed.
    CannotCopy { temp: usize },
    /// Moving a local that is still borrowed.
    CannotMove { temp: usize },
    /// Passing a still mutably borrowed local as an argument.
    CannotPassArgument { temp: usize },
    /// Assigning to a local that is still borrowed.
    CannotAssign { temp: usize },
    /// Writing through a reference that is still borrowed.
    CannotWriteRef { temp: usize },
    /// Extracting a resource that is still borrowed.
    CannotExtractResource { resource: u64 },
    /// Two borrows of overlapping regions diverge and at least one is
    /// mutable: a diverging-edge conflict, or a mutable field borrow through
    /// an immutable reference.
    BorrowConflict { attempted_is_mut: bool, existing_is_mut: bool, temp: Option<usize> },
    /// A mutable reference in the operand set has further borrows.
    ExclusiveAccessBorrowed { temps: Vec<usize> },
    /// The same mutable node is named by two operands.
    ExclusiveAccessIndirectDuplicate { first: usize, second: usize },
    /// The same temporary appears twice in the operand list.
    ExclusiveAccessDirectDuplicate { temp: usize },
    /// Returning a reference derived from a global.
    ReturnsGlobal { resource: u64 },
    /// Returning a reference derived from a non-parameter local.
    ReturnsLocal { temp: usize },
}

/// A diagnostic: the primary source location, the violation, and hints.
#[derive(Clone, Debug)]
pub struct Diag {
    pub loc: u64,
    pub kind: DiagKind,
    pub hints: Vec<Hint>,
}

/// Which outgoing edges a borrow-information request reports.
#[derive(Clone, Copy, Debug, PartialEq, Eq, Structural)]
pub enum EdgeFilter {
    All,
    MutOnly,
    Excluding { edge: BorrowEdge },
}

impl EdgeFilter {
    /// Whether the filter keeps an edge.
    pub open spec fn applies_spec(self, e: BorrowEdge) -> bool {
        match self {
            EdgeFilter::All => true,
            EdgeFilter::MutOnly => e.kind.is_mut_spec(),
            EdgeFilter::Excluding { edge } => e != edge,
        }
    }

    /// Whether the filter keeps an edge.
    #[verifier::when_used_as_spec(applies_spec)]
    pub fn applies(self, e: BorrowEdge) -> (r: bool)
        ensures
            r == self.applies_spec(e),
    {
        match self {
            EdgeFilter::All => true,
            EdgeFilter::MutOnly => e.kind.is_mut(),
            EdgeFilter::Excluding { edge } => !(e == edge),
        }
    }
}

/// The hint reporting a previous borrow through `e`.
pub open spec fn previous_borrow_hint(e: BorrowEdge) -> Hint {
    Hint {
        loc: e.loc,
        kind: HintKind::PreviousBorrow {
            is_mut: e.kind.is_mut_spec(),
            class: edge_class_spec(e.kind),
        },
    }
}

/// The hint reporting a use of a node through `e`.
pub open spec fn used_by_hint(e: BorrowEdge) -> Hint {
    Hint {
        loc: e.loc,
        kind: HintKind::UsedBy { is_mut: e.kind.is_mut_spec(), class: edge_class_spec(e.kind) },
    }
}

/// Whether a hint is a sound borrow hint for the node `label`: it reports a
/// filtered outgoing edge, or an edge out of a filtered edge's no longer
/// used target.
pub open spec fn borrow_hint_sound(
    s: crate::state::StateV,
    label: u64,
    filter: EdgeFilter,
    h: Hint,
) -> bool {
    ||| (exists|e: BorrowEdge| #[trigger]
        s.graph[label].children.contains(e) && filter.applies_spec(e) && h == previous_borrow_hint(
            e,
        ))
    ||| (exists|e: BorrowEdge, e2: BorrowEdge|
        s.graph[label].children.contains(e) && filter.applies_spec(e) && !used_labels(
            s.temps,
        ).contains(e.target) && s.graph.dom().contains(e.target)
            && #[trigger] s.graph[e.target].children.contains(e2) && h == used_by_hint(e2))
}

/// Collects borrow hints for a node: one `PreviousBorrow` hint per filtered
/// outgoing edge and, for each filtered edge whose target no temporary uses
/// any longer, one `UsedBy` hint per edge out of that target.
#[verifier::rlimit(60)]
pub fn borrow_info(st: &LifetimeState, label: u64, filter: EdgeFilter) -> (r: Vec<Hint>)
    requires
        st.wf(),
        st@.graph.dom().contains(label),
    ensures
        forall|i: int| 0 <= i < r@.len() ==> borrow_hint_sound(st@, label, filter, #[trigger] r@[i]),
        forall|e: BorrowEdge| #[trigger]
            st@.graph[label].children.contains(e) && filter.applies_spec(e) ==> r@.contains(
                previous_borrow_hint(e),
            ),
        forall|e: BorrowEdge, e2: BorrowEdge|
            #![trigger st@.graph[label].children.contains(e), st@.graph[e.target].children.contains(e2)]
            st@.graph[label].children.contains(e) && filter.applies_spec(e) && !used_labels(
                st@.temps,
            ).contains(e.target) && st@.graph.dom().contains(e.target)
                && st@.graph[e.target].children.contains(e2) ==> r@.contains(used_by_hint(e2)),
{
    let ghost s = st@;
    let in_use = st.labels_in_use();
    let n = st.graph.get(label).unwrap();
    let edges = n.children.elems();
    let mut r: Vec<Hint> = Vec::new();
    let mut i: usize = 0;
    // Primary hints.
    while i < edges.len()
        invariant
            i <= edges.len(),
            st.wf(),
            s == st@,
            s.graph.dom().contains(label),
            edges@.to_set() == s.graph[label].children,
            forall|k: int| 0 <= k < r@.len() ==> borrow_hint_sound(s, label, filter, #[trigger] r@[k]),
            forall|j: int| 0 <= j < i && filter.applies_spec(#[trigger] edges@[j]) ==> r@.contains(
                previous_borrow_hint(edges@[j]),
            ),
        decreases edges.len() - i,
    {
        let e = edges[i];
        if filter.applies(e) {
            let h = Hint {
                loc: e.loc,
                kind: HintKind::PreviousBorrow {
                    is_mut: e.kind.is_mut(),
                    class: edge_class(e.kind),
                },
            };
            let ghost r0 = r@;
            r.push(h);
            proof {
                assert(edges@.to_set().contains(edges@[i as int]));
                assert(s.graph[label].children.contains(edges@[i as int]));
                assert(h == previous_borrow_hint(edges@[i as int]));
                assert(r@[r@.len() - 1] == h);
                assert forall|j: int|
                    0 <= j < i + 1 && filter.applies_spec(#[trigger] edges@[j])
                    implies r@.contains(previous_borrow_hint(edges@[j])) by {
                    if j < i {
                        let k = choose|k: int|
                            0 <= k < r0.len() && r0[k] == previous_borrow_hint(edges@[j]);
                        assert(r@[k] == previous_borrow_hint(edges@[j]));
                    } else {
                        assert(r@[r@.len() - 1] == previous_borrow_hint(edges@[j]));
                    }
                }
            }
        } else {
            proof {
                assert forall|j: int|
                    0 <= j < i + 1 && filter.applies_spec(#[trigger] edges@[j])
                    implies r@.contains(previous_borrow_hint(edges@[j])) by {}
            }
        }
        i += 1;
    }
    // Secondary hints for filtered edges whose target is no longer in use.
    let mut i2: usize = 0;
    while i2 < edges.len()
        invariant
            i2 <= edges.len(),
            st.wf(),
            s == st@,
            s.graph.dom().contains(label),
            in_use.wf(),
            in_use@ == used_labels(s.temps),
            edges@.to_set() == s.graph[label].children,
            forall|k: int| 0 <= k < r@.len() ==> borrow_hint_sound(s, label, filter, #[trigger] r@[k]),
            forall|e: BorrowEdge| #[trigger]
                s.graph[label].children.contains(e) && filter.applies_spec(e) ==> r@.contains(
                    previous_borrow_hint(e),
                ),
            forall|j: int, e2: BorrowEdge|
                #![trigger s.graph[edges@[j].target].children.contains(e2)]
                0 <= j < i2 && filter.applies_spec(edges@[j]) && !used_labels(s.temps).contains(
                    edges@[j].target,
                ) && s.graph.dom().contains(edges@[j].target) && s.graph[edges@[j].target].children.contains(
                    e2,
                ) ==> r@.contains(used_by_hint(e2)),
        decreases edges.len() - i2,
    {
        let e = edges[i2];
        proof {
            assert(edges@.to_set().contains(edges@[i2 as int]));
            assert(s.graph[label].children.contains(e));
        }
        if filter.applies(e) && !in_use.contains(e.target) {
            match st.graph.get(e.target) {
                Some(tn) => {
                    let sub = tn.children.elems();
                    let mut k: usize = 0;
                    while k < sub.len()
                        invariant
                            k <= sub.len(),
                            st.wf(),
                            s == st@,
                            s.graph.dom().contains(label),
                            s.graph[label].children.contains(e),
                            filter.applies_spec(e),
                            !used_labels(s.temps).contains(e.target),
                            s.graph.dom().contains(e.target),
                            sub@.to_set() == s.graph[e.target].children,
                            edges@.to_set() == s.graph[label].children,
                            e == edges@[i2 as int],
                            i2 < edges@.len(),
                            forall|k2: int| 0 <= k2 < r@.len() ==> borrow_hint_sound(
                                s,
                                label,
                                filter,
                                #[trigger] r@[k2],
                            ),
                            forall|e2: BorrowEdge| #[trigger]
                                s.graph[label].children.contains(e2) && filter.applies_spec(e2)
                                    ==> r@.contains(previous_borrow_hint(e2)),
                            forall|j: int, e2: BorrowEdge|
                                #![trigger s.graph[edges@[j].target].children.contains(e2)]
                                0 <= j < i2 && filter.applies_spec(edges@[j]) && !used_labels(
                                    s.temps,
                                ).contains(edges@[j].target) && s.graph.dom().contains(
                                    edges@[j].target,
                                ) && s.graph[edges@[j].target].children.contains(e2)
                                    ==> r@.contains(used_by_hint(e2)),
                            forall|k2: int| 0 <= k2 < k ==> r@.contains(
                                used_by_hint(#[trigger] sub@[k2]),
                            ),
                        decreases sub.len() - k,
                    {
                        let e2 = sub[k];
                        let h = Hint {
                            loc: e2.loc,
                            kind: HintKind::UsedBy {
                                is_mut: e2.kind.is_mut(),
                                class: edge_class(e2.kind),
                            },
                        };
                        let ghost r0 = r@;
                        r.push(h);
                        proof {
                            broadcast use vstd::seq_lib::lemma_seq_contains_after_push;

                            assert(sub@.to_set().contains(sub@[k as int]));
                            assert(s.graph[e.target].children.contains(e2));
                            assert(h == used_by_hint(e2));
                            assert(r@[r@.len() - 1] == h);
                            assert(r@.contains(used_by_hint(sub@[k as int])));
                            assert forall|e3: BorrowEdge| #[trigger]
                                s.graph[label].children.contains(e3) && filter.applies_spec(e3)
                                implies r@.contains(previous_borrow_hint(e3)) by {
                                let k2 = choose|k2: int|
                                    0 <= k2 < r0.len() && r0[k2] == previous_borrow_hint(e3);
                                assert(r@[k2] == previous_borrow_hint(e3));
                            }
                            assert forall|j: int, e3: BorrowEdge|
                                0 <= j < i2 && filter.applies_spec(edges@[j]) && !used_labels(
                                    s.temps,
                                ).contains(edges@[j].target) && s.graph.dom().contains(
                                    edges@[j].target,
                                ) && #[trigger] s.graph[edges@[j].target].children.contains(e3)
                                implies r@.contains(used_by_hint(e3)) by {
                                let k2 = choose|k2: int|
                                    0 <= k2 < r0.len() && r0[k2] == used_by_hint(e3);
                                assert(r@[k2] == used_by_hint(e3));
                            }
                            assert forall|k2: int| 0 <= k2 < k + 1 implies r@.contains(
                                used_by_hint(#[trigger] sub@[k2]),
                            ) by {
                                if k2 < k {
                                    let k3 = choose|k3: int|
                                        0 <= k3 < r0.len() && r0[k3] == used_by_hint(sub@[k2]);
                                    assert(r@[k3] == used_by_hint(sub@[k2]));
                                }
                            }
                        }
                        k += 1;
                    }
                },
                None => (),
            }
        }
        i2 += 1;
    }
    r
}

/// Whether a hint is a sound usage hint: a later use of a reference
/// temporary that is alive after the instruction, whose node lies on one
/// chain with `label`, and that the filter does not exclude.
pub open spec fn usage_hint_sound(
    s: crate::state::StateV,
    live: crate::instr::LiveVarInfo,
    label: u64,
    code: FunctionCode,
    h: Hint,
) -> bool {
    exists|t: usize, j: int|
        #![trigger s.temps.dom().contains(t), live.after_usages@[j]]
        s.temps.dom().contains(t) && t < code.locals@.len() && code.locals@[t as int].is_ref
            && live.after@.contains(t) && (reaches(s.graph, label, s.temps[t]) || reaches(
            s.graph,
            s.temps[t],
            label,
        )) && 0 <= j < live.after_usages@.len() && live.after_usages@[j].0 == t
            && live.after_usages@[j].1@.contains(h.loc) && h.kind == (HintKind::ConflictingUse {
            temp: t,
        })
}

/// Collects usage hints for a node: later uses of reference temporaries that
/// are alive after this instruction and lie on one borrow chain with the
/// node.  Of several candidates on one chain only the deepest is reported.
/// The temporaries in `exclude` are not reported.
pub fn usage_info(
    st: &LifetimeState,
    code: &FunctionCode,
    live: &LiveVarInfo,
    label: u64,
    exclude: &TempSet,
) -> (r: Vec<Hint>)
    requires
        st.wf(),
        code.wf(),
        live.wf(),
        exclude.wf(),
    ensures
        forall|i: int| 0 <= i < r@.len() ==> usage_hint_sound(st@, *live, label, *code, #[trigger] r@[i])
            && !exclude@.contains((match r@[i].kind {
            HintKind::ConflictingUse { temp } => temp,
            _ => 0,
        })),
{
    let ghost s = st@;
    // Candidates: temporaries on one chain with the node, keeping only the
    // deepest of any ancestor/descendant pair.
    let mut cand_temps: Vec<usize> = Vec::new();
    let mut cand_labels: Vec<u64> = Vec::new();
    let pairs = st.temp_to_label.elems();
    let mut i: usize = 0;
    while i < pairs.len()
        invariant
            i <= pairs.len(),
            st.wf(),
            code.wf(),
            live.wf(),
            exclude.wf(),
            s == st@,
            cand_labels@.len() == cand_temps@.len(),
            forall|j: int| 0 <= j < pairs@.len() ==> s.temps.dom().contains(
                (#[trigger] pairs@[j]).0,
            ) && s.temps[pairs@[j].0] == pairs@[j].1,
            forall|j: int| 0 <= j < cand_temps@.len() ==> cand_ok(
                s,
                *live,
                label,
                *code,
                exclude@,
                #[trigger] cand_temps@[j],
                cand_labels@[j],
            ),
        decreases pairs.len() - i,
    {
        let (t, leaf) = (pairs[i].0, pairs[i].1);
        if t < code.locals.len() && code.is_ref(t) && live.after.contains(t) && !exclude.contains(
            t,
        ) {
            let on_chain = if st.is_ancestor(label, leaf) {
                true
            } else {
                st.is_ancestor(leaf, label)
            };
            if on_chain {
                let mut done = false;
                let mut j: usize = 0;
                while j < cand_temps.len()
                    invariant
                        j <= cand_temps.len(),
                        st.wf(),
                        s == st@,
                        cand_labels@.len() == cand_temps@.len(),
                        forall|j2: int| 0 <= j2 < cand_temps@.len() ==> cand_ok(
                            s,
                            *live,
                            label,
                            *code,
                            exclude@,
                            #[trigger] cand_temps@[j2],
                            cand_labels@[j2],
                        ),
                        cand_ok(s, *live, label, *code, exclude@, t, leaf),
                    decreases cand_temps.len() - j,
                {
                    if st.is_ancestor(cand_labels[j], leaf) {
                        // The new candidate is deeper: it replaces this one.
                        cand_temps[j] = t;
                        cand_labels[j] = leaf;
                        done = true;
                        break ;
                    }
                    if st.is_ancestor(leaf, cand_labels[j]) {
                        done = true;
                        break ;
                    }
                    j += 1;
                }
                if !done {
                    cand_temps.push(t);
                    cand_labels.push(leaf);
                }
            }
        }
        i += 1;
    }
    // Report every recorded later usage of each candidate.
    let mut r: Vec<Hint> = Vec::new();
    let mut i2: usize = 0;
    while i2 < cand_temps.len()
        invariant
            i2 <= cand_temps.len(),
            live.wf(),
            cand_labels@.len() == cand_temps@.len(),
            forall|j: int| 0 <= j < cand_temps@.len() ==> cand_ok(
                s,
                *live,
                label,
                *code,
                exclude@,
                #[trigger] cand_temps@[j],
                cand_labels@[j],
            ),
            forall|k: int| 0 <= k < r@.len() ==> usage_hint_sound(
                s,
                *live,
                label,
                *code,
                #[trigger] r@[k],
            ) && !exclude@.contains((match r@[k].kind {
                HintKind::ConflictingUse { temp } => temp,
                _ => 0,
            })),
        decreases cand_temps.len() - i2,
    {
        let t = cand_temps[i2];
        let mut u: usize = 0;
        while u < live.after_usages.len()
            invariant
                u <= live.after_usages.len(),
                live.wf(),
                cand_ok(s, *live, label, *code, exclude@, t, cand_labels@[i2 as int]),
                forall|k: int| 0 <= k < r@.len() ==> usage_hint_sound(
                    s,
                    *live,
                    label,
                    *code,
                    #[trigger] r@[k],
                ) && !exclude@.contains((match r@[k].kind {
                    HintKind::ConflictingUse { temp } => temp,
                    _ => 0,
                })),
            decreases live.after_usages.len() - u,
        {
            if live.after_usages[u].0 == t {
                let locs = &live.after_usages[u].1;
                let mut v: usize = 0;
                while v < locs.len()
                    invariant
                        v <= locs.len(),
                        live.wf(),
                        0 <= u < live.after_usages@.len(),
                        live.after_usages@[u as int].0 == t,
                        locs@ == live.after_usages@[u as int].1@,
                        cand_ok(s, *live, label, *code, exclude@, t, cand_labels@[i2 as int]),
                        forall|k: int| 0 <= k < r@.len() ==> usage_hint_sound(
                            s,
                            *live,
                            label,
                            *code,
                            #[trigger] r@[k],
                        ) && !exclude@.contains((match r@[k].kind {
                            HintKind::ConflictingUse { temp } => temp,
                            _ => 0,
                        })),
                    decreases locs.len() - v,
                {
                    let h = Hint { loc: locs[v], kind: HintKind::ConflictingUse { temp: t } };
                    r.push(h);
                    proof {
                        assert(locs@.contains(locs@[v as int]));
                        assert(usage_hint_sound(s, *live, label, *code, h)) by {
                            assert(s.temps.dom().contains(t) && live.after_usages@[u as int].0 == t
                                && live.after_usages@[u as int].1@.contains(h.loc));
                        }
                    }
                    v += 1;
                }
            }
            u += 1;
        }
        i2 += 1;
    }
    r
}

/// A usage-hint candidate: a live reference temporary on one chain with the
/// node, not excluded.
pub open spec fn cand_ok(
    s: crate::state::StateV,
    live: LiveVarInfo,
    label: u64,
    code: FunctionCode,
    exclude: Set<usize>,
    t: usize,
    leaf: u64,
) -> bool {
    s.temps.dom().contains(t) && s.temps[t] == leaf && t < code.locals@.len()
        && code.locals@[t as int].is_ref && live.after@.contains(t) && !exclude.contains(t) && (
    reaches(s.graph, label, leaf) || reaches(s.graph, leaf, label))
}

} // verus!
