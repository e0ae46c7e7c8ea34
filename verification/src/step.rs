//! The per-instruction state transformer: pre-step release of dead
//! references, the borrow-safety check for the instruction's operands, the
//! instruction's borrow effect, and post-step release of newly dead
//! references.

use crate::diag::borrow_info;
use crate::diag::Diag;
use crate::diag::DiagKind;
use crate::diag::EdgeFilter;
use crate::edge::BorrowEdge;
use crate::edge::EdgeKind;
use crate::edge::MemLoc;
use crate::instr::AssignKind;
use crate::instr::FunctionCode;
use crate::instr::Instruction;
use crate::instr::LiveVarInfo;
use crate::instr::OperationKind;
use crate::safety::check_borrow_safety;
use crate::safety::lemma_prefix_chain;
use crate::safety::check_read_local;
use crate::safety::check_write_local;
use crate::safety::ReadMode;
use crate::sets::TempSet;
use crate::state::LifetimeState;
use vstd::prelude::*;

verus! {

/// The operation identifier recorded on call edges.
pub open spec fn oper_id_spec(o: OperationKind) -> u64 {
    match o {
        OperationKind::Function { id } => id,
        OperationKind::Eq => 0,
        OperationKind::Neq => 1,
        OperationKind::Other { id } => id,
    }
}

/// The operation identifier recorded on call edges.
#[verifier::when_used_as_spec(oper_id_spec)]
pub fn oper_id(o: OperationKind) -> (r: u64)
    ensures
        r == oper_id_spec(o),
{
    match o {
        OperationKind::Function { id } => id,
        OperationKind::Eq => 0,
        OperationKind::Neq => 1,
        OperationKind::Other { id } => id,
    }
}

/// The pre-step release touches nothing: every bound reference temporary is
/// alive before the instruction.  States produced by the analysis satisfy
/// this at every offset, since the previous step released the dead ones.
pub open spec fn pre_release_noop(
    s: crate::state::StateV,
    code: FunctionCode,
    live: LiveVarInfo,
) -> bool {
    forall|t: usize| #[trigger]
        s.temps.dom().contains(t) ==> !(t < code.locals@.len()
            && code.locals@[t as int].is_ref && !live.before@.contains(t))
}

/// The read mode of an assignment's source.
pub open spec fn assign_mode(kind: AssignKind) -> ReadMode {
    if kind == AssignKind::Move {
        ReadMode::Move
    } else {
        ReadMode::Copy
    }
}

/// The temporary map after assigning a reference: a move transfers the
/// binding, a copy shares it, and an inferred assignment moves exactly when
/// the source is not effectively borrowed and dies here.
pub open spec fn assign_ref_temps(
    s: crate::state::StateV,
    live: LiveVarInfo,
    dest: usize,
    src: usize,
    kind: AssignKind,
) -> Map<usize, u64> {
    let moves = match kind {
        AssignKind::Move => true,
        AssignKind::Copy => false,
        AssignKind::Inferred => crate::state::borrowed_label_spec(s, src) is None
            && !live.after@.contains(src),
    };
    if !s.temps.dom().contains(src) {
        s.temps
    } else if moves {
        s.temps.remove(src).insert(dest, s.temps[src])
    } else {
        s.temps.insert(dest, s.temps[src])
    }
}

impl Instruction {
    /// The destinations the instruction writes, as a vector.
    pub fn dests_vec(&self) -> (r: Vec<usize>)
        ensures
            r@ == self.dests_spec(),
    {
        let mut r: Vec<usize> = Vec::new();
        match self {
            Instruction::Assign { dest, .. } => { r.push(*dest); },
            Instruction::BorrowLoc { dest, .. } => { r.push(*dest); },
            Instruction::BorrowGlobal { dest, .. } => { r.push(*dest); },
            Instruction::BorrowField { dest, .. } => { r.push(*dest); },
            Instruction::ReadRef { dest, .. } => { r.push(*dest); },
            Instruction::WriteRef { .. } => {},
            Instruction::FreezeRef { dest, .. } => { r.push(*dest); },
            Instruction::MoveFrom { dest, .. } => { r.push(*dest); },
            Instruction::Call { dests, .. } => {
                let mut i: usize = 0;
                while i < dests.len()
                    invariant
                        i <= dests@.len(),
                        r@ == dests@.take(i as int),
                    decreases dests@.len() - i,
                {
                    r.push(dests[i]);
                    proof {
                        assert(dests@.take(i + 1) =~= dests@.take(i as int).push(
                            dests@[i as int],
                        ));
                    }
                    i += 1;
                }
                proof {
                    assert(dests@.take(dests@.len() as int) =~= dests@);
                }
            },
            Instruction::Ret { .. } => {},
            Instruction::Nop => {},
        }
        proof {
            assert(r@ =~= self.dests_spec());
        }
        r
    }
}

/// Releases every reference temporary of `temps` that is not in `keep`;
/// the released ones are guaranteed gone, bindings only disappear.
fn release_dead(
    st: &mut LifetimeState,
    code: &FunctionCode,
    temps: &Vec<usize>,
    keep: &TempSet,
)
    requires
        old(st).wf(),
        code.wf(),
        keep.wf(),
    ensures
        final(st).wf(),
        forall|t: usize| #[trigger] final(st)@.temps.dom().contains(t) ==> old(st)@.temps.dom().contains(t) && final(st)@.temps[t] == old(st)@.temps[t],
        forall|j: int|
            0 <= j < temps@.len() && (#[trigger] temps@[j]) < code.locals@.len()
                && code.locals@[temps@[j] as int].is_ref && !keep@.contains(temps@[j]) ==> !final(st)@.temps.dom().contains(temps@[j]),
        final(st)@.globals.dom().subset_of(old(st)@.globals.dom()),
        final(st)@.graph.dom().subset_of(old(st)@.graph.dom()),
        forall|l: u64| #[trigger] final(st)@.graph.dom().contains(l) ==> final(st)@.graph[l].locs
            == old(st)@.graph[l].locs && final(st)@.graph[l].parents == old(st)@.graph[l].parents && final(st)@.graph[l].children == old(st)@.graph[l].children.filter(
            |e: BorrowEdge| final(st)@.graph.dom().contains(e.target),
        ),
        (forall|j: int|
            0 <= j < temps@.len() ==> !((#[trigger] temps@[j]) < code.locals@.len()
                && code.locals@[temps@[j] as int].is_ref && !keep@.contains(temps@[j]))) ==> final(st)@ == old(st)@,
{
    proof {
        crate::state::lemma_children_filter_identity(st@.graph);
    }
    let mut i: usize = 0;
    while i < temps.len()
        invariant
            i <= temps@.len(),
            st.wf(),
            code.wf(),
            keep.wf(),
            forall|t: usize| #[trigger] st@.temps.dom().contains(t) ==> old(st)@.temps.dom().contains(t) && st@.temps[t] == old(st)@.temps[t],
            forall|j: int|
                0 <= j < i && (#[trigger] temps@[j]) < code.locals@.len()
                    && code.locals@[temps@[j] as int].is_ref && !keep@.contains(temps@[j])
                    ==> !st@.temps.dom().contains(temps@[j]),
            st@.globals.dom().subset_of(old(st)@.globals.dom()),
            st@.graph.dom().subset_of(old(st)@.graph.dom()),
            forall|l: u64| #[trigger] st@.graph.dom().contains(l) ==> st@.graph[l].locs == old(st)@.graph[l].locs && st@.graph[l].parents == old(st)@.graph[l].parents
                && st@.graph[l].children == old(st)@.graph[l].children.filter(
                |e: BorrowEdge| st@.graph.dom().contains(e.target),
            ),
            (forall|j: int|
                0 <= j < temps@.len() ==> !((#[trigger] temps@[j]) < code.locals@.len()
                    && code.locals@[temps@[j] as int].is_ref && !keep@.contains(temps@[j])))
                ==> st@ == old(st)@,
        decreases temps@.len() - i,
    {
        let t = temps[i];
        if t < code.locals.len() && code.is_ref(t) && !keep.contains(t) {
            let ghost pre = st@;
            st.release_ref(t);
            proof {
                assert forall|l: u64| #[trigger] st@.graph.dom().contains(l)
                    implies st@.graph[l].children == old(st)@.graph[l].children.filter(
                    |e: BorrowEdge| st@.graph.dom().contains(e.target),
                ) by {
                    assert(st@.graph[l].children == pre.graph[l].children.filter(
                        |e: BorrowEdge| st@.graph.dom().contains(e.target),
                    ));
                    assert(pre.graph[l].children == old(st)@.graph[l].children.filter(
                        |e: BorrowEdge| pre.graph.dom().contains(e.target),
                    ));
                    assert(st@.graph[l].children =~= old(st)@.graph[l].children.filter(
                        |e: BorrowEdge| st@.graph.dom().contains(e.target),
                    ));
                }
            }
        }
        i += 1;
    }
}

/// Processes an assignment: moving or copying a reference transfers or
/// shares its node; for non-references the source must be readable in the
/// assignment's mode and the destination writable.
fn assign(
    st: &mut LifetimeState,
    code: &FunctionCode,
    live: &LiveVarInfo,
    dest: usize,
    src: usize,
    kind: AssignKind,
    cur_loc: u64,
    diags: &mut Vec<Diag>,
)
    requires
        old(st).wf(),
        code.wf(),
        live.wf(),
        dest < code.locals@.len(),
        src < code.locals@.len(),
    ensures
        final(st).wf(),
        final(diags)@.len() >= old(diags)@.len(),
        final(diags)@.subrange(0, old(diags)@.len() as int) == old(diags)@,
        code.locals@[src as int].is_ref ==> final(st)@.graph == old(st)@.graph && final(st)@.globals == old(st)@.globals && final(st)@.temps == assign_ref_temps(
            old(st)@,
            *live,
            dest,
            src,
            kind,
        ) && final(diags)@ == old(diags)@,
        !code.locals@[src as int].is_ref ==> final(st)@ == old(st)@ && (crate::safety::read_ok(
            old(st)@,
            *code,
            src,
            assign_mode(kind),
        ) && crate::safety::write_ok(old(st)@, *code, dest) ==> final(diags)@ == old(diags)@),
        !code.locals@[src as int].is_ref && !crate::safety::read_ok(
            old(st)@,
            *code,
            src,
            assign_mode(kind),
        ) ==> exists|k: int|
            old(diags)@.len() <= k < final(diags)@.len() && (#[trigger] final(diags)@[k]).kind
                == crate::safety::read_diag_kind(src, assign_mode(kind)),
        !code.locals@[src as int].is_ref && !crate::safety::write_ok(old(st)@, *code, dest)
            ==> exists|k: int|
            old(diags)@.len() <= k < final(diags)@.len() && (#[trigger] final(diags)@[k]).kind
                == (DiagKind::CannotAssign { temp: dest }),
{
    if code.is_ref(src) {
        match kind {
            AssignKind::Move => st.move_ref(dest, src),
            AssignKind::Copy => st.copy_ref(dest, src),
            AssignKind::Inferred => {
                let borrowed = st.label_for_temp_with_children(src);
                if borrowed.is_none() && !live.after.contains(src) {
                    st.move_ref(dest, src);
                } else {
                    st.copy_ref(dest, src);
                }
            },
        }
    } else {
        let mode = if kind == AssignKind::Move {
            ReadMode::Move
        } else {
            ReadMode::Copy
        };
        let _ = check_read_local(st, code, live, src, mode, cur_loc, diags);
        let ghost d1 = diags@;
        let _ = check_write_local(st, code, live, dest, cur_loc, diags);
        proof {
            lemma_prefix_chain(old(diags)@, d1, diags@);
        }
    }
}

/// Processes a local borrow: the source gets a root node if it has none,
/// the destination a fresh derived node, and a local-borrow edge joins them.
fn borrow_local(
    st: &mut LifetimeState,
    code: &FunctionCode,
    dest: usize,
    src: usize,
    code_offset: u16,
    cur_loc: u64,
)
    requires
        old(st).wf(),
        code.wf(),
        dest < code.locals@.len(),
    ensures
        final(st).wf(),
        final(st)@.temps.dom().contains(dest),
        final(st)@.temps[dest] == crate::ids::code_label(code_offset, 1),
        final(st)@.graph.dom().contains((crate::ids::code_label(code_offset, 1) as u64)),
        final(st)@.temps.dom().contains(src) && src != dest ==> exists|e: BorrowEdge|
            (#[trigger] final(st)@.graph[final(st)@.temps[src]].children.contains(e)) && e.kind
                == (EdgeKind::BorrowLocal { is_mut: code.locals@[dest as int].is_mut }) && e.loc
                == cur_loc && e.target == final(st)@.temps[dest],
{
    let label = st.make_temp(src, code_offset, 0, true);
    let child = st.replace_ref(dest, code_offset, 1);
    let is_mut = code.is_mut(dest);
    if st.graph.contains_key(label) && st.graph.contains_key(child) {
        st.add_edge(
            label,
            BorrowEdge { kind: EdgeKind::BorrowLocal { is_mut }, loc: cur_loc, target: child },
        );
    }
    proof {
        if st@.temps.dom().contains(src) && src != dest {
            assert(st@.temps[src] == label);
            assert(st@.graph[label].children.contains(
                (BorrowEdge { kind: EdgeKind::BorrowLocal { is_mut }, loc: cur_loc, target: child }),
            ));
        }
    }
}

/// Processes a global borrow, like a local borrow with a global root.
fn borrow_global(
    st: &mut LifetimeState,
    code: &FunctionCode,
    resource: u64,
    dest: usize,
    code_offset: u16,
    cur_loc: u64,
)
    requires
        old(st).wf(),
        code.wf(),
        dest < code.locals@.len(),
    ensures
        final(st).wf(),
        final(st)@.temps.dom().contains(dest),
        final(st)@.temps[dest] == crate::ids::code_label(code_offset, 1),
        final(st)@.graph.dom().contains((crate::ids::code_label(code_offset, 1) as u64)),
        final(st)@.globals.dom().contains(resource) ==> exists|e: BorrowEdge|
            (#[trigger] final(st)@.graph[final(st)@.globals[resource]].children.contains(e))
                && e.kind == (EdgeKind::BorrowGlobal { is_mut: code.locals@[dest as int].is_mut })
                && e.loc == cur_loc && e.target == final(st)@.temps[dest],
{
    let label = st.make_global(resource, code_offset, 0);
    let ghost s1 = st@;
    let child = st.replace_ref(dest, code_offset, 1);
    let ghost s2 = st@;
    let is_mut = code.is_mut(dest);
    if st.graph.contains_key(label) && st.graph.contains_key(child) {
        st.add_edge(
            label,
            BorrowEdge { kind: EdgeKind::BorrowGlobal { is_mut }, loc: cur_loc, target: child },
        );
    }
    proof {
        if st@.globals.dom().contains(resource) {
            assert(s1.globals[resource] == label);
            assert(st@.globals == s2.globals);
            assert(s2.globals.dom().contains(resource));
            assert(s2.globals[resource] == s1.globals[resource]);
            assert(st@.globals[resource] == label);
            assert(st@.graph[label].children.contains(
                (BorrowEdge {
                    kind: EdgeKind::BorrowGlobal { is_mut },
                    loc: cur_loc,
                    target: child,
                }),
            ));
        }
    }
}

/// There is an immutable edge into the node labeled `label`.
pub open spec fn immut_incoming(s: crate::state::StateV, label: u64) -> bool {
    exists|p: u64, ch: BorrowEdge|
        #![trigger s.graph[p].children.contains(ch)]
        s.graph[label].parents.contains(p) && s.graph.dom().contains(p)
            && s.graph[p].children.contains(ch) && ch.target == label && !ch.kind.is_mut_spec()
}

/// Decides whether the node has an immutable incoming edge.
fn has_immut_incoming(st: &LifetimeState, label: u64) -> (r: bool)
    requires
        st.wf(),
        st@.graph.dom().contains(label),
    ensures
        r == immut_incoming(st@, label),
{
    let n = st.graph.get(label).unwrap();
    let parents = n.parents.elems();
    let mut i: usize = 0;
    while i < parents.len()
        invariant
            i <= parents@.len(),
            st.wf(),
            st@.graph.dom().contains(label),
            parents@.to_set() == st@.graph[label].parents,
            forall|j: int, ch: BorrowEdge|
                #![trigger st@.graph[parents@[j]].children.contains(ch)]
                0 <= j < i && st@.graph.dom().contains(parents@[j])
                    && st@.graph[parents@[j]].children.contains(ch) ==> !(ch.target == label
                    && !ch.kind.is_mut_spec()),
        decreases parents@.len() - i,
    {
        let p = parents[i];
        proof {
            assert(parents@.contains(parents@[i as int]));
            assert(st@.graph[label].parents.contains(p));
        }
        let pn = st.graph.get(p).unwrap();
        let edges = pn.children.elems();
        let mut j: usize = 0;
        while j < edges.len()
            invariant
                j <= edges@.len(),
                st.wf(),
                st@.graph.dom().contains(label),
                st@.graph.dom().contains(p),
                st@.graph[label].parents.contains(p),
                edges@.to_set() == st@.graph[p].children,
                forall|k: int| 0 <= k < j ==> !((#[trigger] edges@[k]).target == label
                    && !edges@[k].kind.is_mut_spec()),
            decreases edges@.len() - j,
        {
            let ch = edges[j];
            if ch.target == label && !ch.kind.is_mut() {
                proof {
                    assert(edges@.contains(edges@[j as int]));
                    assert(st@.graph[p].children.contains(ch));
                }
                return true;
            }
            j += 1;
        }
        proof {
            assert forall|ch: BorrowEdge| #[trigger]
                st@.graph[p].children.contains(ch) implies !(ch.target == label
                && !ch.kind.is_mut_spec()) by {
                assert(edges@.to_set().contains(ch));
                assert(edges@.contains(ch));
                let k = choose|k: int| 0 <= k < edges@.len() && edges@[k] == ch;
            }
        }
        i += 1;
    }
    proof {
        if immut_incoming(st@, label) {
            let (p, ch) = choose|p: u64, ch: BorrowEdge|
                #![trigger st@.graph[p].children.contains(ch)]
                st@.graph[label].parents.contains(p) && st@.graph.dom().contains(p)
                    && st@.graph[p].children.contains(ch) && ch.target == label
                    && !ch.kind.is_mut_spec();
            assert(parents@.to_set().contains(p));
            assert(parents@.contains(p));
            let j = choose|j: int| 0 <= j < parents@.len() && parents@[j] == p;
        }
    }
    false
}

/// The condition rejecting a field borrow: a mutable field borrow through a
/// source that an immutable edge reaches is a mutability inversion.
pub open spec fn field_borrow_inversion(
    s: crate::state::StateV,
    code: FunctionCode,
    dest: usize,
    src: usize,
) -> bool {
    code.locals@[dest as int].is_mut && s.temps.dom().contains(src) && immut_incoming(
        s,
        s.temps[src],
    )
}

/// Processes a field borrow.  A mutable field borrow through a node that an
/// immutable edge reaches is a mutability inversion: it is reported, exactly
/// then, and the new edge is not added.
fn borrow_field(
    st: &mut LifetimeState,
    code: &FunctionCode,
    field: u64,
    dest: usize,
    src: usize,
    code_offset: u16,
    cur_loc: u64,
    diags: &mut Vec<Diag>,
)
    requires
        old(st).wf(),
        code.wf(),
        dest < code.locals@.len(),
        src < code.locals@.len(),
    ensures
        final(st).wf(),
        final(diags)@.len() >= old(diags)@.len(),
        final(diags)@.subrange(0, old(diags)@.len() as int) == old(diags)@,
        final(st)@.temps.dom().contains(dest),
        final(st)@.temps[dest] == crate::ids::code_label(code_offset, 1),
        final(st)@.graph.dom().contains((crate::ids::code_label(code_offset, 1) as u64)),
        field_borrow_inversion(old(st)@, *code, dest, src) <==> (final(diags)@.len() == old(
            diags,
        )@.len() + 1 && final(diags)@.last().loc == cur_loc && final(diags)@.last().kind == (
        DiagKind::BorrowConflict {
            attempted_is_mut: true,
            existing_is_mut: false,
            temp: Some(src),
        })),
        !field_borrow_inversion(old(st)@, *code, dest, src) ==> final(diags)@ == old(diags)@,
        !field_borrow_inversion(old(st)@, *code, dest, src) && final(st)@.temps.dom().contains(
            src,
        ) && src != dest ==> exists|e: BorrowEdge|
            (#[trigger] final(st)@.graph[final(st)@.temps[src]].children.contains(e)) && e.kind
                == (EdgeKind::BorrowField { is_mut: code.locals@[dest as int].is_mut, field })
                && e.loc == cur_loc && e.target == final(st)@.temps[dest],
{
    // The inversion is decided before the step mutates anything.
    let inversion = if code.is_mut(dest) {
        match st.label_for_temp(src) {
            Some(label0) => has_immut_incoming(st, label0),
            None => false,
        }
    } else {
        false
    };
    let label = st.make_temp(src, code_offset, 0, false);
    let child = st.replace_ref(dest, code_offset, 1);
    let is_mut = code.is_mut(dest);
    if inversion {
        let hints = match st.label_for_temp(src) {
            Some(l2) => {
                if st.graph.contains_key(l2) {
                    borrow_info(st, l2, EdgeFilter::All)
                } else {
                    Vec::new()
                }
            },
            None => Vec::new(),
        };
        let ghost d0 = diags@;
        diags.push(
            Diag {
                loc: cur_loc,
                kind: DiagKind::BorrowConflict {
                    attempted_is_mut: true,
                    existing_is_mut: false,
                    temp: Some(src),
                },
                hints,
            },
        );
        proof {
            assert(diags@.subrange(0, d0.len() as int) =~= d0);
        }
        return ;
    }
    if st.graph.contains_key(label) && st.graph.contains_key(child) {
        st.add_edge(
            label,
            BorrowEdge {
                kind: EdgeKind::BorrowField { is_mut, field },
                loc: cur_loc,
                target: child,
            },
        );
    }
    proof {
        if st@.temps.dom().contains(src) && src != dest {
            assert(st@.temps[src] == label);
            assert(st@.graph[label].children.contains(
                (BorrowEdge {
                    kind: EdgeKind::BorrowField { is_mut, field },
                    loc: cur_loc,
                    target: child,
                }),
            ));
        }
    }
}

/// Processes a freeze: the destination gets a fresh derived node and a
/// freeze edge from the source's node.
fn freeze_ref(
    st: &mut LifetimeState,
    code: &FunctionCode,
    dest: usize,
    src: usize,
    code_offset: u16,
    cur_loc: u64,
)
    requires
        old(st).wf(),
        code.wf(),
        dest < code.locals@.len(),
    ensures
        final(st).wf(),
        final(st)@.temps.dom().contains(dest),
        final(st)@.temps[dest] == crate::ids::code_label(code_offset, 0),
        final(st)@.graph.dom().contains((crate::ids::code_label(code_offset, 0) as u64)),
        final(st)@.temps.dom().contains(src) && src != dest ==> exists|e: BorrowEdge|
            (#[trigger] final(st)@.graph[final(st)@.temps[src]].children.contains(e)) && e.kind
                == EdgeKind::Freeze && e.loc == cur_loc && e.target == final(st)@.temps[dest],
{
    let label = st.make_temp(src, code_offset, 1, false);
    let target = st.replace_ref(dest, code_offset, 0);
    if st.graph.contains_key(label) && st.graph.contains_key(target) {
        st.add_edge(label, BorrowEdge { kind: EdgeKind::Freeze, loc: cur_loc, target });
    }
    proof {
        if st@.temps.dom().contains(src) && src != dest {
            assert(st@.temps[src] == label);
            assert(st@.graph[label].children.contains(
                (BorrowEdge { kind: EdgeKind::Freeze, loc: cur_loc, target }),
            ));
        }
    }
}

/// Processes a resource extraction: the operands are checked, and a global
/// whose root node still has borrows is reported.
fn move_from(
    st: &mut LifetimeState,
    code: &FunctionCode,
    live: &LiveVarInfo,
    dest: usize,
    resource: u64,
    src: usize,
    cur_loc: u64,
    diags: &mut Vec<Diag>,
)
    requires
        old(st).wf(),
        code.wf(),
        live.wf(),
        dest < code.locals@.len(),
        src < code.locals@.len(),
    ensures
        final(st).wf(),
        final(st)@ == old(st)@,
        final(diags)@.len() >= old(diags)@.len(),
        final(diags)@.subrange(0, old(diags)@.len() as int) == old(diags)@,
        !crate::safety::read_ok(old(st)@, *code, src, ReadMode::Argument) ==> exists|k: int|
            old(diags)@.len() <= k < final(diags)@.len() && (#[trigger] final(diags)@[k]).kind
                == (DiagKind::CannotPassArgument { temp: src }),
        !crate::safety::write_ok(old(st)@, *code, dest) ==> exists|k: int|
            old(diags)@.len() <= k < final(diags)@.len() && (#[trigger] final(diags)@[k]).kind
                == (DiagKind::CannotAssign { temp: dest }),
        (old(st)@.globals.dom().contains(resource) && !old(st)@.graph[old(st)@.globals[resource]].children.is_empty()) <==> exists|k: int|
            old(diags)@.len() <= k < final(diags)@.len() && (#[trigger] final(diags)@[k]).kind
                == (DiagKind::CannotExtractResource { resource }),
{
    let _ = check_read_local(st, code, live, src, ReadMode::Argument, cur_loc, diags);
    let ghost d1 = diags@;
    let _ = check_write_local(st, code, live, dest, cur_loc, diags);
    let ghost d2 = diags@;
    proof {
        lemma_prefix_chain(old(diags)@, d1, d2);
    }
    match st.label_for_global(resource) {
        Some(label) => {
            if !st.is_leaf(label) {
                let mut hints = borrow_info(st, label, EdgeFilter::All);
                diags.push(
                    Diag { loc: cur_loc, kind: DiagKind::CannotExtractResource { resource }, hints },
                );
                proof {
                    assert(diags@.subrange(0, d2.len() as int) =~= d2);
                    lemma_prefix_chain(old(diags)@, d2, diags@);
                    assert(diags@[diags@.len() - 1].kind == (DiagKind::CannotExtractResource {
                        resource,
                    }));
                    assert(old(diags)@.len() <= diags@.len() - 1 < diags@.len());
                }
            }
        },
        None => (),
    }
    proof {
        // Only the extraction report carries its kind: the operand checks
        // appended other kinds.
        if !(old(st)@.globals.dom().contains(resource) && !old(st)@.graph[old(st)@.globals[resource]].children.is_empty()) {
            assert forall|k: int|
                old(diags)@.len() <= k < diags@.len() implies (#[trigger] diags@[k]).kind != (
            DiagKind::CannotExtractResource { resource }) by {
                if k < d1.len() {
                    assert(diags@[k] == d1[k]);
                    assert(d1[k].kind == crate::safety::read_diag_kind(src, ReadMode::Argument));
                } else if k < d2.len() {
                    assert(diags@[k] == d2[k]);
                    assert(d2[k].kind == (DiagKind::CannotAssign { temp: dest }));
                }
            }
        }
    }
}

/// Processes a write through a reference: the value must be readable, and a
/// reference that is itself re-borrowed cannot be written.
fn write_ref(
    st: &mut LifetimeState,
    code: &FunctionCode,
    live: &LiveVarInfo,
    ref_dest: usize,
    val_src: usize,
    cur_loc: u64,
    diags: &mut Vec<Diag>,
)
    requires
        old(st).wf(),
        code.wf(),
        live.wf(),
        ref_dest < code.locals@.len(),
        val_src < code.locals@.len(),
    ensures
        final(st).wf(),
        final(st)@ == old(st)@,
        final(diags)@.len() >= old(diags)@.len(),
        final(diags)@.subrange(0, old(diags)@.len() as int) == old(diags)@,
        crate::safety::read_ok(old(st)@, *code, val_src, ReadMode::Argument)
            && crate::state::borrowed_label_spec(old(st)@, ref_dest) is None ==> final(diags)@
            == old(diags)@,
        !crate::safety::read_ok(old(st)@, *code, val_src, ReadMode::Argument) ==> exists|k: int|
            old(diags)@.len() <= k < final(diags)@.len() && (#[trigger] final(diags)@[k]).kind
                == (DiagKind::CannotPassArgument { temp: val_src }),
        crate::state::borrowed_label_spec(old(st)@, ref_dest) is Some ==> exists|k: int|
            old(diags)@.len() <= k < final(diags)@.len() && (#[trigger] final(diags)@[k]).kind
                == (DiagKind::CannotWriteRef { temp: ref_dest }),
{
    let _ = check_read_local(st, code, live, val_src, ReadMode::Argument, cur_loc, diags);
    let ghost d1 = diags@;
    match st.label_for_temp_with_children(ref_dest) {
        Some(label) => {
            let mut hints = borrow_info(st, label, EdgeFilter::All);
            diags.push(
                Diag { loc: cur_loc, kind: DiagKind::CannotWriteRef { temp: ref_dest }, hints },
            );
            proof {
                assert(diags@.subrange(0, d1.len() as int) =~= d1);
                lemma_prefix_chain(old(diags)@, d1, diags@);
                assert(diags@[diags@.len() - 1].kind == (DiagKind::CannotWriteRef {
                    temp: ref_dest,
                }));
                assert(old(diags)@.len() <= diags@.len() - 1 < diags@.len());
            }
        },
        None => (),
    }
}

/// Processes a call: reference arguments must be readable, destinations
/// writable; every reference result gets a fresh derived node fed by a call
/// edge from every reference argument.
fn call_operation(
    st: &mut LifetimeState,
    code: &FunctionCode,
    live: &LiveVarInfo,
    oper: OperationKind,
    dests: &Vec<usize>,
    srcs: &Vec<usize>,
    code_offset: u16,
    cur_loc: u64,
    diags: &mut Vec<Diag>,
)
    requires
        old(st).wf(),
        code.wf(),
        live.wf(),
        forall|i: int| 0 <= i < dests@.len() ==> #[trigger] dests@[i] < code.locals@.len(),
        forall|i: int| 0 <= i < srcs@.len() ==> #[trigger] srcs@[i] < code.locals@.len(),
    ensures
        final(st).wf(),
        final(diags)@.len() >= old(diags)@.len(),
        final(diags)@.subrange(0, old(diags)@.len() as int) == old(diags)@,
        forall|i: int|
            0 <= i < srcs@.len() && !crate::safety::read_ok(
                old(st)@,
                *code,
                #[trigger] srcs@[i],
                ReadMode::Argument,
            ) ==> exists|k: int|
                old(diags)@.len() <= k < final(diags)@.len() && (#[trigger] final(diags)@[k]).kind
                    == (DiagKind::CannotPassArgument { temp: srcs@[i] }),
        forall|i: int|
            0 <= i < dests@.len() && !crate::safety::write_ok(old(st)@, *code, #[trigger] dests@[i])
                ==> exists|k: int|
                old(diags)@.len() <= k < final(diags)@.len() && (#[trigger] final(diags)@[k]).kind
                    == (DiagKind::CannotAssign { temp: dests@[i] }),
{
    let mut i: usize = 0;
    while i < srcs.len()
        invariant
            i <= srcs@.len(),
            st.wf(),
            st@ == old(st)@,
            code.wf(),
            live.wf(),
            forall|k: int| 0 <= k < srcs@.len() ==> #[trigger] srcs@[k] < code.locals@.len(),
            diags@.len() >= old(diags)@.len(),
            diags@.subrange(0, old(diags)@.len() as int) == old(diags)@,
            forall|j: int|
                0 <= j < i && !crate::safety::read_ok(
                    old(st)@,
                    *code,
                    #[trigger] srcs@[j],
                    ReadMode::Argument,
                ) ==> exists|k: int|
                    old(diags)@.len() <= k < diags@.len() && (#[trigger] diags@[k]).kind == (
                    DiagKind::CannotPassArgument { temp: srcs@[j] }),
        decreases srcs@.len() - i,
    {
        let ghost dpre = diags@;
        let ok = check_read_local(st, code, live, srcs[i], ReadMode::Argument, cur_loc, diags);
        proof {
            lemma_prefix_chain(old(diags)@, dpre, diags@);
            if !ok {
                assert(diags@[diags@.len() - 1].kind == crate::safety::read_diag_kind(
                    srcs@[i as int],
                    ReadMode::Argument,
                ));
                assert(old(diags)@.len() <= diags@.len() - 1 < diags@.len());
            }
        }
        i += 1;
    }
    let ghost dmid = diags@;
    let mut i2: usize = 0;
    while i2 < dests.len()
        invariant
            i2 <= dests@.len(),
            st.wf(),
            st@ == old(st)@,
            code.wf(),
            live.wf(),
            forall|k: int| 0 <= k < dests@.len() ==> #[trigger] dests@[k] < code.locals@.len(),
            diags@.len() >= dmid.len(),
            dmid.len() >= old(diags)@.len(),
            diags@.subrange(0, dmid.len() as int) == dmid,
            dmid.subrange(0, old(diags)@.len() as int) == old(diags)@,
            forall|j: int|
                0 <= j < dests@.len() && !crate::safety::read_ok(
                    old(st)@,
                    *code,
                    #[trigger] srcs@[j],
                    ReadMode::Argument,
                ) && 0 <= j < srcs@.len() ==> exists|k: int|
                    old(diags)@.len() <= k < diags@.len() && (#[trigger] diags@[k]).kind == (
                    DiagKind::CannotPassArgument { temp: srcs@[j] }),
            forall|j: int|
                0 <= j < srcs@.len() && !crate::safety::read_ok(
                    old(st)@,
                    *code,
                    #[trigger] srcs@[j],
                    ReadMode::Argument,
                ) ==> exists|k: int|
                    old(diags)@.len() <= k < diags@.len() && (#[trigger] diags@[k]).kind == (
                    DiagKind::CannotPassArgument { temp: srcs@[j] }),
            forall|j: int|
                0 <= j < i2 && !crate::safety::write_ok(old(st)@, *code, #[trigger] dests@[j])
                    ==> exists|k: int|
                    old(diags)@.len() <= k < diags@.len() && (#[trigger] diags@[k]).kind == (
                    DiagKind::CannotAssign { temp: dests@[j] }),
        decreases dests@.len() - i2,
    {
        let ghost dpre = diags@;
        let ok = check_write_local(st, code, live, dests[i2], cur_loc, diags);
        proof {
            lemma_prefix_chain(old(diags)@, dmid, dpre);
            lemma_prefix_chain(old(diags)@, dpre, diags@);
            lemma_prefix_chain(dmid, dpre, diags@);
            if !ok {
                assert(diags@[diags@.len() - 1].kind == (DiagKind::CannotAssign {
                    temp: dests@[i2 as int],
                }));
                assert(old(diags)@.len() <= diags@.len() - 1 < diags@.len());
            }
        }
        i2 += 1;
    }
    // Fresh derived nodes for the reference results, with stable qualifiers:
    // results first, then the arguments.
    let mut dest_temps: Vec<usize> = Vec::new();
    let mut dest_labels: Vec<u64> = Vec::new();
    let mut i3: usize = 0;
    while i3 < dests.len()
        invariant
            i3 <= dests@.len(),
            st.wf(),
            code.wf(),
            dest_temps@.len() == dest_labels@.len(),
            forall|k: int| 0 <= k < dests@.len() ==> #[trigger] dests@[k] < code.locals@.len(),
            forall|k: int| 0 <= k < dest_temps@.len() ==> #[trigger] dest_temps@[k]
                < code.locals@.len(),
        decreases dests@.len() - i3,
    {
        let d = dests[i3];
        if code.is_ref(d) {
            let q = (dest_temps.len() % 256) as u8;
            let l = st.replace_ref(d, code_offset, q);
            dest_temps.push(d);
            dest_labels.push(l);
        }
        i3 += 1;
    }
    let src_qualifier_offset = dest_labels.len();
    let mut i4: usize = 0;
    while i4 < dest_temps.len()
        invariant
            i4 <= dest_temps@.len(),
            st.wf(),
            code.wf(),
            dest_temps@.len() == dest_labels@.len(),
            forall|k: int| 0 <= k < dest_temps@.len() ==> #[trigger] dest_temps@[k]
                < code.locals@.len(),
            forall|k: int| 0 <= k < srcs@.len() ==> #[trigger] srcs@[k] < code.locals@.len(),
        decreases dest_temps@.len() - i4,
    {
        let child = dest_labels[i4];
        let is_mut = code.is_mut(dest_temps[i4]);
        let mut i5: usize = 0;
        while i5 < srcs.len()
            invariant
                i5 <= srcs@.len(),
                st.wf(),
                code.wf(),
                forall|k: int| 0 <= k < srcs@.len() ==> #[trigger] srcs@[k]
                    < code.locals@.len(),
            decreases srcs@.len() - i5,
        {
            let s = srcs[i5];
            if code.is_ref(s) {
                let q = (((src_qualifier_offset % 256) + (i5 % 256)) % 256) as u8;
                let label = st.make_temp(s, code_offset, q, false);
                if st.graph.contains_key(label) && st.graph.contains_key(child) {
                    st.add_edge(
                        label,
                        BorrowEdge {
                            kind: EdgeKind::Call {
                                is_mut,
                                oper: oper_id(oper),
                                offset: code_offset,
                            },
                            loc: cur_loc,
                            target: child,
                        },
                    );
                }
            }
            i5 += 1;
        }
        i4 += 1;
    }
}


/// The escape of a root location is reported in the region of `d` from
/// `from` on: a global-derived root as `ReturnsGlobal`, a non-parameter
/// local-derived root as `ReturnsLocal`.
pub open spec fn escape_reported(m: MemLoc, param_count: usize, from: int, d: Seq<Diag>) -> bool {
    match m {
        MemLoc::Global { resource } => exists|k: int|
            from <= k < d.len() && (#[trigger] d[k]).kind == (DiagKind::ReturnsGlobal { resource }),
        MemLoc::Local { temp } => temp >= param_count ==> exists|k: int|
            from <= k < d.len() && (#[trigger] d[k]).kind == (DiagKind::ReturnsLocal { temp }),
        MemLoc::External => true,
        MemLoc::Derived => true,
    }
}

/// A reported escape stays reported when the diagnostics grow.
proof fn lemma_escape_reported_grows(
    m: MemLoc,
    param_count: usize,
    from: int,
    d1: Seq<Diag>,
    d2: Seq<Diag>,
)
    requires
        0 <= from,
        escape_reported(m, param_count, from, d1),
        d2.len() >= d1.len(),
        d2.subrange(0, d1.len() as int) == d1,
    ensures
        escape_reported(m, param_count, from, d2),
{
    match m {
        MemLoc::Global { resource } => {
            let k = choose|k: int|
                from <= k < d1.len() && (#[trigger] d1[k]).kind == (DiagKind::ReturnsGlobal {
                    resource,
                });
            assert(d2.subrange(0, d1.len() as int)[k] == d1[k]);
            assert(d2[k] == d1[k]);
        },
        MemLoc::Local { temp } => {
            if temp >= param_count {
                let k = choose|k: int|
                    from <= k < d1.len() && (#[trigger] d1[k]).kind == (DiagKind::ReturnsLocal {
                        temp,
                    });
                assert(d2.subrange(0, d1.len() as int)[k] == d1[k]);
                assert(d2[k] == d1[k]);
            }
        },
        MemLoc::External => (),
        MemLoc::Derived => (),
    }
}

/// Processes a return: a returned reference must not be derived from a
/// global or from a non-parameter local.  Every root location of every
/// returned reference is inspected, and every escape is reported.
fn return_refs(
    st: &mut LifetimeState,
    code: &FunctionCode,
    srcs: &Vec<usize>,
    cur_loc: u64,
    diags: &mut Vec<Diag>,
)
    requires
        old(st).wf(),
        code.wf(),
        forall|i: int| 0 <= i < srcs@.len() ==> #[trigger] srcs@[i] < code.locals@.len(),
    ensures
        final(st).wf(),
        final(st)@ == old(st)@,
        final(diags)@.len() >= old(diags)@.len(),
        final(diags)@.subrange(0, old(diags)@.len() as int) == old(diags)@,
        forall|i: int, root: u64, m: MemLoc|
            #![trigger crate::reach::roots_spec(old(st)@.graph, old(st)@.temps[srcs@[i]]).contains(root), old(st)@.graph[root].locs.contains(m)]
            0 <= i < srcs@.len() && code.locals@[srcs@[i] as int].is_ref
                && old(st)@.temps.dom().contains(srcs@[i]) && crate::reach::roots_spec(
                old(st)@.graph,
                old(st)@.temps[srcs@[i]],
            ).contains(root) && old(st)@.graph[root].locs.contains(m) ==> escape_reported(
                m,
                code.param_count,
                old(diags)@.len() as int,
                final(diags)@,
            ),
{
    let mut i: usize = 0;
    while i < srcs.len()
        invariant
            i <= srcs@.len(),
            st.wf(),
            st@ == old(st)@,
            code.wf(),
            forall|k: int| 0 <= k < srcs@.len() ==> #[trigger] srcs@[k] < code.locals@.len(),
            diags@.len() >= old(diags)@.len(),
            diags@.subrange(0, old(diags)@.len() as int) == old(diags)@,
            forall|j: int, root: u64, m: MemLoc|
                #![trigger crate::reach::roots_spec(old(st)@.graph, old(st)@.temps[srcs@[j]]).contains(root), old(st)@.graph[root].locs.contains(m)]
                0 <= j < i && code.locals@[srcs@[j] as int].is_ref
                    && old(st)@.temps.dom().contains(srcs@[j]) && crate::reach::roots_spec(
                    old(st)@.graph,
                    old(st)@.temps[srcs@[j]],
                ).contains(root) && old(st)@.graph[root].locs.contains(m) ==> escape_reported(
                    m,
                    code.param_count,
                    old(diags)@.len() as int,
                    diags@,
                ),
        decreases srcs@.len() - i,
    {
        let s = srcs[i];
        if code.is_ref(s) {
            match st.label_for_temp(s) {
                Some(label) => {
                    let roots = st.roots(label);
                    let rv = roots.elems();
                    let mut j: usize = 0;
                    while j < rv.len()
                        invariant
                            j <= rv@.len(),
                            st.wf(),
                            st@ == old(st)@,
                            code.wf(),
                            rv@.to_set() == roots@,
                            roots@ == crate::reach::roots_spec(st@.graph, label),
                            st@.graph.dom().contains(label),
                            diags@.len() >= old(diags)@.len(),
                            diags@.subrange(0, old(diags)@.len() as int) == old(diags)@,
                            forall|j2: int, m: MemLoc|
                                #![trigger old(st)@.graph[rv@[j2]].locs.contains(m)]
                                0 <= j2 < j && old(st)@.graph.dom().contains(rv@[j2]) && old(st)@.graph[rv@[j2]].locs.contains(m) ==> escape_reported(
                                    m,
                                    code.param_count,
                                    old(diags)@.len() as int,
                                    diags@,
                                ),
                            forall|j3: int, root: u64, m: MemLoc|
                                #![trigger crate::reach::roots_spec(old(st)@.graph, old(st)@.temps[srcs@[j3]]).contains(root), old(st)@.graph[root].locs.contains(m)]
                                0 <= j3 < i && code.locals@[srcs@[j3] as int].is_ref
                                    && old(st)@.temps.dom().contains(srcs@[j3])
                                    && crate::reach::roots_spec(
                                    old(st)@.graph,
                                    old(st)@.temps[srcs@[j3]],
                                ).contains(root) && old(st)@.graph[root].locs.contains(m)
                                    ==> escape_reported(
                                    m,
                                    code.param_count,
                                    old(diags)@.len() as int,
                                    diags@,
                                ),
                        decreases rv@.len() - j,
                    {
                        let root = rv[j];
                        proof {
                            assert(rv@.contains(rv@[j as int]));
                            assert(roots@.contains(root));
                        }
                        let n = st.graph.get(root).unwrap();
                        let locs = n.locs.to_vec();
                        let mut k: usize = 0;
                        while k < locs.len()
                            invariant
                                k <= locs@.len(),
                                st.wf(),
                                st@ == old(st)@,
                                code.wf(),
                                st@.graph.dom().contains(root),
                                locs@.to_set() == st@.graph[root].locs,
                                diags@.len() >= old(diags)@.len(),
                                diags@.subrange(0, old(diags)@.len() as int) == old(diags)@,
                                forall|k2: int| 0 <= k2 < k ==> escape_reported(
                                    #[trigger] locs@[k2],
                                    code.param_count,
                                    old(diags)@.len() as int,
                                    diags@,
                                ),
                                forall|j2: int, m: MemLoc|
                                    #![trigger old(st)@.graph[rv@[j2]].locs.contains(m)]
                                    0 <= j2 < j && old(st)@.graph.dom().contains(rv@[j2]) && old(st)@.graph[rv@[j2]].locs.contains(m) ==> escape_reported(
                                        m,
                                        code.param_count,
                                        old(diags)@.len() as int,
                                        diags@,
                                    ),
                                forall|j3: int, root2: u64, m: MemLoc|
                                    #![trigger crate::reach::roots_spec(old(st)@.graph, old(st)@.temps[srcs@[j3]]).contains(root2), old(st)@.graph[root2].locs.contains(m)]
                                    0 <= j3 < i && code.locals@[srcs@[j3] as int].is_ref
                                        && old(st)@.temps.dom().contains(srcs@[j3])
                                        && crate::reach::roots_spec(
                                        old(st)@.graph,
                                        old(st)@.temps[srcs@[j3]],
                                    ).contains(root2) && old(st)@.graph[root2].locs.contains(m)
                                        ==> escape_reported(
                                        m,
                                        code.param_count,
                                        old(diags)@.len() as int,
                                        diags@,
                                    ),
                            decreases locs@.len() - k,
                        {
                            let ghost dpre = diags@;
                            match locs[k] {
                                MemLoc::Global { resource } => {
                                    let hints = borrow_info(st, root, EdgeFilter::All);
                                    diags.push(
                                        Diag {
                                            loc: cur_loc,
                                            kind: DiagKind::ReturnsGlobal { resource },
                                            hints,
                                        },
                                    );
                                    proof {
                                        assert(diags@.subrange(0, dpre.len() as int) =~= dpre);
                                        lemma_prefix_chain(old(diags)@, dpre, diags@);
                                        assert(diags@[diags@.len() - 1].kind == (
                                        DiagKind::ReturnsGlobal { resource }));
                                    }
                                },
                                MemLoc::Local { temp } => {
                                    if temp >= code.param_count {
                                        let hints = borrow_info(st, root, EdgeFilter::All);
                                        diags.push(
                                            Diag {
                                                loc: cur_loc,
                                                kind: DiagKind::ReturnsLocal { temp },
                                                hints,
                                            },
                                        );
                                        proof {
                                            assert(diags@.subrange(0, dpre.len() as int)
                                                =~= dpre);
                                            lemma_prefix_chain(old(diags)@, dpre, diags@);
                                            assert(diags@[diags@.len() - 1].kind == (
                                            DiagKind::ReturnsLocal { temp }));
                                        }
                                    }
                                },
                                MemLoc::External => (),
                                MemLoc::Derived => (),
                            }
                            proof {
                                assert(diags@.subrange(0, dpre.len() as int) =~= dpre);
                                assert(escape_reported(
                                    locs@[k as int],
                                    code.param_count,
                                    old(diags)@.len() as int,
                                    diags@,
                                ));
                                assert forall|k2: int| 0 <= k2 < k + 1 implies escape_reported(
                                    #[trigger] locs@[k2],
                                    code.param_count,
                                    old(diags)@.len() as int,
                                    diags@,
                                ) by {
                                    if k2 < k {
                                        lemma_escape_reported_grows(
                                            locs@[k2],
                                            code.param_count,
                                            old(diags)@.len() as int,
                                            dpre,
                                            diags@,
                                        );
                                    }
                                }
                                assert forall|j2: int, m: MemLoc|
                                    0 <= j2 < j && old(st)@.graph.dom().contains(rv@[j2])
                                        && #[trigger] old(st)@.graph[rv@[j2]].locs.contains(m)
                                    implies escape_reported(
                                    m,
                                    code.param_count,
                                    old(diags)@.len() as int,
                                    diags@,
                                ) by {
                                    lemma_escape_reported_grows(
                                        m,
                                        code.param_count,
                                        old(diags)@.len() as int,
                                        dpre,
                                        diags@,
                                    );
                                }
                                assert forall|j3: int, root2: u64, m: MemLoc|
                                    0 <= j3 < i && code.locals@[srcs@[j3] as int].is_ref
                                        && old(st)@.temps.dom().contains(srcs@[j3])
                                        && (#[trigger] crate::reach::roots_spec(
                                        old(st)@.graph,
                                        old(st)@.temps[srcs@[j3]],
                                    ).contains(root2)) && (#[trigger] old(st)@.graph[root2].locs.contains(m)) implies escape_reported(
                                    m,
                                    code.param_count,
                                    old(diags)@.len() as int,
                                    diags@,
                                ) by {
                                    lemma_escape_reported_grows(
                                        m,
                                        code.param_count,
                                        old(diags)@.len() as int,
                                        dpre,
                                        diags@,
                                    );
                                }
                            }
                            k += 1;
                        }
                        proof {
                            assert forall|m: MemLoc| #[trigger]
                                old(st)@.graph[root].locs.contains(m) implies escape_reported(
                                m,
                                code.param_count,
                                old(diags)@.len() as int,
                                diags@,
                            ) by {
                                assert(locs@.to_set().contains(m));
                                assert(locs@.contains(m));
                                let k2 = choose|k2: int| 0 <= k2 < locs@.len() && locs@[k2] == m;
                            }
                        }
                        j += 1;
                    }
                    proof {
                        assert forall|root: u64, m: MemLoc|
                            crate::reach::roots_spec(
                                old(st)@.graph,
                                old(st)@.temps[srcs@[i as int]],
                            ).contains(root) && #[trigger] old(st)@.graph[root].locs.contains(m)
                            implies escape_reported(
                            m,
                            code.param_count,
                            old(diags)@.len() as int,
                            diags@,
                        ) by {
                            assert(label == old(st)@.temps[srcs@[i as int]]);
                            assert(roots@.contains(root));
                            assert(rv@.to_set().contains(root));
                            assert(rv@.contains(root));
                            let j2 = choose|j2: int| 0 <= j2 < rv@.len() && rv@[j2] == root;
                            assert(old(st)@.graph.dom().contains(rv@[j2]));
                        }
                    }
                },
                None => (),
            }
        }
        i += 1;
    }
}

/// Runs the transformer for the instruction at `code_offset` on the state.
///
/// After the step, every reference temporary that the instruction touched
/// (alive before it, or written by it) and that is not alive after it has no
/// binding left: release is complete.
pub fn execute_step(
    st: &mut LifetimeState,
    code: &FunctionCode,
    live: &LiveVarInfo,
    code_offset: u16,
    diags: &mut Vec<Diag>,
)
    requires
        old(st).wf(),
        code.wf(),
        live.wf(),
        (code_offset as int) < code.code@.len(),
    ensures
        final(st).wf(),
        final(diags)@.len() >= old(diags)@.len(),
        final(diags)@.subrange(0, old(diags)@.len() as int) == old(diags)@,
        forall|t: usize|
            t < code.locals@.len() && code.locals@[t as int].is_ref && (live.before@.contains(t)
                || code.code@[code_offset as int].dests_spec().contains(t))
                && !live.after@.contains(t) ==> !final(st)@.temps.dom().contains(t),
        pre_release_noop(old(st)@, *code, *live) && (code.code@[code_offset as int] matches
        Instruction::Assign { dest, src, kind } && !code.locals@[src as int].is_ref
            && !crate::safety::read_ok(old(st)@, *code, src, assign_mode(kind))) ==> exists|k: int|
            old(diags)@.len() <= k < final(diags)@.len() && (#[trigger] final(diags)@[k]).kind
                == crate::safety::read_diag_kind(
                (code.code@[code_offset as int]->Assign_src),
                assign_mode((code.code@[code_offset as int]->Assign_kind)),
            ),
        pre_release_noop(old(st)@, *code, *live) && (code.code@[code_offset as int] matches
        Instruction::Assign { dest, src, kind } && !code.locals@[src as int].is_ref
            && !crate::safety::write_ok(old(st)@, *code, dest)) ==> exists|k: int|
            old(diags)@.len() <= k < final(diags)@.len() && (#[trigger] final(diags)@[k]).kind
                == (DiagKind::CannotAssign { temp: (code.code@[code_offset as int]->Assign_dest) }),
        pre_release_noop(old(st)@, *code, *live) && (code.code@[code_offset as int] matches
        Instruction::WriteRef { ref_dest, val_src } && crate::state::borrowed_label_spec(
            old(st)@,
            ref_dest,
        ) is Some) ==> exists|k: int|
            old(diags)@.len() <= k < final(diags)@.len() && (#[trigger] final(diags)@[k]).kind
                == (DiagKind::CannotWriteRef {
                temp: (code.code@[code_offset as int]->WriteRef_ref_dest),
            }),
        pre_release_noop(old(st)@, *code, *live) && (code.code@[code_offset as int] matches
        Instruction::MoveFrom { dest, resource, src } && old(st)@.globals.dom().contains(resource)
            && !old(st)@.graph[old(st)@.globals[resource]].children.is_empty()) ==> exists|k: int|
            old(diags)@.len() <= k < final(diags)@.len() && (#[trigger] final(diags)@[k]).kind
                == (DiagKind::CannotExtractResource {
                resource: (code.code@[code_offset as int]->MoveFrom_resource),
            }),
        pre_release_noop(old(st)@, *code, *live) && (code.code@[code_offset as int] matches
        Instruction::Ret { srcs }) ==> forall|t: usize|
            crate::safety::has_direct_duplicate(
                ref_operands(*code, (code.code@[code_offset as int]->Ret_srcs)@),
                t,
            ) ==> exists|k: int|
                old(diags)@.len() <= k < final(diags)@.len() && (#[trigger] final(diags)@[k]).kind
                    == (DiagKind::ExclusiveAccessDirectDuplicate { temp: t }),
        pre_release_noop(old(st)@, *code, *live) && (code.code@[code_offset as int] matches
        Instruction::BorrowField { field, dest, src } && field_borrow_inversion(
            old(st)@,
            *code,
            dest,
            src,
        )) ==> exists|k: int|
            old(diags)@.len() <= k < final(diags)@.len() && (#[trigger] final(diags)@[k]).kind
                matches DiagKind::BorrowConflict { .. },
        pre_release_noop(old(st)@, *code, *live) && (code.code@[code_offset as int] matches
        Instruction::BorrowLoc { dest, src } && final(st)@.temps.dom().contains(dest) && final(st)@.temps.dom().contains(src) && src != dest) ==> exists|e: BorrowEdge|
            (#[trigger] final(st)@.graph[final(st)@.temps[(code.code@[code_offset
                as int]->BorrowLoc_src)]].children.contains(e)) && e.kind == (
            EdgeKind::BorrowLocal {
                is_mut: code.locals@[(code.code@[code_offset as int]->BorrowLoc_dest) as int].is_mut,
            }) && e.loc == code.locs@[code_offset as int] && e.target == final(st)@.temps[(
            code.code@[code_offset as int]->BorrowLoc_dest)],
{
    let instr = &code.code[code_offset as usize];
    let cur_loc = code.locs[code_offset as usize];
    // Pre-step release: drop references that are no longer alive here.
    let bound = st.temp_to_label.keys_vec();
    release_dead(st, code, &bound, &live.before);
    proof {
        if pre_release_noop(old(st)@, *code, *live) {
            assert forall|j: int| 0 <= j < bound@.len() implies !((#[trigger] bound@[j])
                < code.locals@.len() && code.locals@[bound@[j] as int].is_ref
                && !live.before@.contains(bound@[j])) by {
                assert(bound@.contains(bound@[j]));
                assert(bound@.to_set().contains(bound@[j]));
                assert(old(st)@.temps.dom().contains(bound@[j]));
            }
            assert(st@ == old(st)@);
        }
    }
    let ghost d0 = diags@;
    // Pre-step safety check on the instruction's reference operands.
    let check_srcs: Option<Vec<usize>> = match instr {
        Instruction::Call { oper, srcs, .. } => {
            if oper.is_safety_checked() {
                Some(collect_refs(code, srcs))
            } else {
                None
            }
        },
        Instruction::ReadRef { src, .. } => {
            let mut v: Vec<usize> = Vec::new();
            v.push(*src);
            Some(collect_refs(code, &v))
        },
        Instruction::WriteRef { ref_dest, val_src } => {
            let mut v: Vec<usize> = Vec::new();
            v.push(*ref_dest);
            v.push(*val_src);
            Some(collect_refs(code, &v))
        },
        Instruction::Ret { srcs } => Some(collect_refs(code, srcs)),
        _ => None,
    };
    match check_srcs {
        Some(refs) => {
            check_borrow_safety(st, code, live, &refs, cur_loc, diags);
            proof {
                crate::safety::lemma_subrange_refl(d0);
                lemma_prefix_chain(old(diags)@, d0, diags@);
            }
        },
        None => (),
    }
    let ghost d1 = diags@;
    proof {
        crate::safety::lemma_subrange_refl(d1);
    }
    // The instruction's borrow effect.
    proof {
        assert(code.code@[code_offset as int].temps_below(code.locals@.len() as nat));
    }
    match instr {
        Instruction::Assign { dest, src, kind } => {
            assign(st, code, live, *dest, *src, *kind, cur_loc, diags);
        },
        Instruction::BorrowLoc { dest, src } => {
            borrow_local(st, code, *dest, *src, code_offset, cur_loc);
        },
        Instruction::BorrowGlobal { resource, dest } => {
            borrow_global(st, code, *resource, *dest, code_offset, cur_loc);
        },
        Instruction::BorrowField { field, dest, src } => {
            borrow_field(st, code, *field, *dest, *src, code_offset, cur_loc, diags);
        },
        Instruction::ReadRef { dest, src } => {
            let _ = check_write_local(st, code, live, *dest, cur_loc, diags);
            let ghost d2 = diags@;
            let _ = check_read_local(st, code, live, *src, ReadMode::Argument, cur_loc, diags);
            proof {
                lemma_prefix_chain(d1, d2, diags@);
            }
        },
        Instruction::WriteRef { ref_dest, val_src } => {
            write_ref(st, code, live, *ref_dest, *val_src, cur_loc, diags);
        },
        Instruction::FreezeRef { dest, src } => {
            freeze_ref(st, code, *dest, *src, code_offset, cur_loc);
        },
        Instruction::MoveFrom { dest, resource, src } => {
            move_from(st, code, live, *dest, *resource, *src, cur_loc, diags);
        },
        Instruction::Call { oper, dests, srcs } => {
            call_operation(st, code, live, *oper, dests, srcs, code_offset, cur_loc, diags);
        },
        Instruction::Ret { srcs } => {
            return_refs(st, code, srcs, cur_loc, diags);
        },
        Instruction::Nop => (),
    }
    proof {
        lemma_prefix_chain(old(diags)@, d1, diags@);
    }
    // Post-step release: drop references dying at this program point,
    // including results written here that are already dead.
    let ghost s_b = st@;
    let before_temps = live.before.to_vec();
    release_dead(st, code, &before_temps, &live.after);
    let ghost s_mid = st@;
    let dest_temps = instr.dests_vec();
    release_dead(st, code, &dest_temps, &live.after);
    proof {
        let iv = code.code@[code_offset as int];
        if pre_release_noop(old(st)@, *code, *live) && iv is BorrowLoc {
            let dest = iv->BorrowLoc_dest;
            let src = iv->BorrowLoc_src;
            if st@.temps.dom().contains(dest) && st@.temps.dom().contains(src) && src != dest {
                assert(s_mid.temps.dom().contains(src) && s_mid.temps[src] == st@.temps[src]);
                assert(s_b.temps.dom().contains(src) && s_b.temps[src] == st@.temps[src]);
                assert(s_mid.temps.dom().contains(dest) && s_mid.temps[dest] == st@.temps[dest]);
                assert(s_b.temps.dom().contains(dest) && s_b.temps[dest] == st@.temps[dest]);
                let e = choose|e: BorrowEdge|
                    (#[trigger] s_b.graph[s_b.temps[src]].children.contains(e)) && e.kind == (
                    EdgeKind::BorrowLocal { is_mut: code.locals@[dest as int].is_mut }) && e.loc
                        == cur_loc && e.target == s_b.temps[dest];
                let ll = st@.temps[src];
                let tt = st@.temps[dest];
                assert(st@.graph.dom().contains(ll));
                assert(st@.graph.dom().contains(tt));
                assert(s_mid.graph.dom().contains(ll) && s_mid.graph.dom().contains(tt));
                assert(s_mid.graph[ll].children.contains(e)) by {
                    assert(s_mid.graph[ll].children == s_b.graph[ll].children.filter(
                        |e2: BorrowEdge| s_mid.graph.dom().contains(e2.target),
                    ));
                }
                assert(st@.graph[ll].children.contains(e)) by {
                    assert(st@.graph[ll].children == s_mid.graph[ll].children.filter(
                        |e2: BorrowEdge| st@.graph.dom().contains(e2.target),
                    ));
                }
            }
        }
    }
    proof {
        assert forall|t: usize|
            t < code.locals@.len() && code.locals@[t as int].is_ref && (live.before@.contains(t)
                || code.code@[code_offset as int].dests_spec().contains(t))
                && !live.after@.contains(t) implies !st@.temps.dom().contains(t) by {
            if live.before@.contains(t) {
                assert(before_temps@.to_set().contains(t));
                assert(before_temps@.contains(t));
                let j = choose|j: int| 0 <= j < before_temps@.len() && before_temps@[j] == t;
                assert(!s_mid.temps.dom().contains(t));
            } else {
                assert(dest_temps@.contains(t));
                let j = choose|j: int| 0 <= j < dest_temps@.len() && dest_temps@[j] == t;
            }
        }
    }
}

/// The reference temporaries among `temps`, in order.
pub open spec fn ref_operands(code: FunctionCode, temps: Seq<usize>) -> Seq<usize> {
    temps.filter(|t: usize| code.locals@[t as int].is_ref)
}

/// The reference temporaries of `temps`, in order.
fn collect_refs(code: &FunctionCode, temps: &Vec<usize>) -> (r: Vec<usize>)
    requires
        code.wf(),
        forall|i: int| 0 <= i < temps@.len() ==> #[trigger] temps@[i] < code.locals@.len(),
    ensures
        r@ == ref_operands(*code, temps@),
        forall|i: int| 0 <= i < r@.len() ==> #[trigger] r@[i] < code.locals@.len(),
{
    let mut r: Vec<usize> = Vec::new();
    let mut i: usize = 0;
    while i < temps.len()
        invariant
            i <= temps@.len(),
            code.wf(),
            forall|k: int| 0 <= k < temps@.len() ==> #[trigger] temps@[k] < code.locals@.len(),
            forall|k: int| 0 <= k < r@.len() ==> #[trigger] r@[k] < code.locals@.len(),
            r@ == ref_operands(*code, temps@.take(i as int)),
        decreases temps@.len() - i,
    {
        let t = temps[i];
        if code.is_ref(t) {
            r.push(t);
        }
        proof {
            broadcast use vstd::prelude::Seq::lemma_filter_push;

            assert(temps@.take(i + 1) =~= temps@.take(i as int).push(t));
        }
        i += 1;
    }
    proof {
        assert(temps@.take(temps@.len() as int) =~= temps@);
    }
    r
}

} // verus!
