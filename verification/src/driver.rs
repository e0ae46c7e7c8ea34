//! The dataflow driver: a forward worklist over the control-flow graph,
//! joining states at block entries until a fixpoint, then a capture pass
//! that records the state before and after every instruction and collects
//! the diagnostics.

use crate::diag::Diag;
use crate::edge::BorrowEdge;
use crate::edge::EdgeKind;
use crate::edge::MemLoc;
use crate::ids::label_from_counter;
use crate::instr::ControlFlowGraph;
use crate::instr::FunctionCode;
use crate::instr::LiveVarAnnotation;
use crate::instr::LiveVarInfo;
use crate::join::JoinResult;
use crate::state::LifetimeState;
use crate::state::StateV;
use crate::step::execute_step;
use vstd::prelude::*;

verus! {

/// The borrow state before and after one instruction.
pub struct LifetimeInfoAtCodeOffset {
    pub before: LifetimeState,
    pub after: LifetimeState,
}

impl LifetimeInfoAtCodeOffset {
    /// Well-formed: both states are.
    pub open spec fn wf(self) -> bool {
        self.before.wf() && self.after.wf()
    }

    /// The temporaries released at the code offset: bound in the state
    /// before the instruction and no longer bound after it.  Downstream
    /// passes insert their drop glue from this.
    pub fn released_temps(&self) -> (r: Vec<usize>)
        requires
            self.wf(),
        ensures
            r@.no_duplicates(),
            forall|t: usize| #[trigger]
                r@.contains(t) <==> (self.before@.temps.dom().contains(t)
                    && !self.after@.temps.dom().contains(t)),
    {
        let keys = self.before.temp_to_label.keys_vec();
        let mut r: Vec<usize> = Vec::new();
        let mut i: usize = 0;
        while i < keys.len()
            invariant
                i <= keys@.len(),
                self.wf(),
                keys@.no_duplicates(),
                keys@.to_set() == self.before@.temps.dom(),
                r@.no_duplicates(),
                forall|t: usize| #[trigger]
                    r@.contains(t) <==> (keys@.take(i as int).contains(t)
                        && !self.after@.temps.dom().contains(t)),
            decreases keys@.len() - i,
        {
            let t = keys[i];
            proof {
                assert(keys@.take(i + 1) =~= keys@.take(i as int).push(t));
                broadcast use vstd::seq_lib::lemma_seq_contains_after_push;

                assert(!keys@.take(i as int).contains(t)) by {
                    if keys@.take(i as int).contains(t) {
                        let j = choose|j: int| 0 <= j < i && keys@.take(i as int)[j] == t;
                        assert(keys@[j] == t);
                        assert(keys@[i as int] == t);
                    }
                }
            }
            if !self.after.temp_to_label.contains_key(t) {
                proof {
                    assert(!r@.contains(t));
                }
                r.push(t);
            }
            i += 1;
        }
        proof {
            assert(keys@.take(keys@.len() as int) =~= keys@);
            assert forall|t: usize| #[trigger]
                r@.contains(t) <==> (self.before@.temps.dom().contains(t)
                    && !self.after@.temps.dom().contains(t)) by {
                if self.before@.temps.dom().contains(t) {
                    assert(keys@.to_set().contains(t));
                    assert(keys@.contains(t));
                }
                if keys@.contains(t) {
                    assert(keys@.to_set().contains(t));
                }
            }
        }
        r
    }
}

/// The annotation the analysis produces: the borrow state before and after
/// every instruction, indexed by code offset.
pub struct LifetimeAnnotation {
    pub infos: Vec<LifetimeInfoAtCodeOffset>,
}

impl LifetimeAnnotation {
    /// Well-formed for a function: one entry per instruction, all states
    /// well-formed.
    pub open spec fn wf(self, code_len: nat) -> bool {
        self.infos@.len() == code_len && forall|i: int|
            0 <= i < self.infos@.len() ==> (#[trigger] self.infos@[i]).wf()
    }

    /// The information at a code offset.
    pub fn get_info_at(&self, code_offset: u16) -> (r: &LifetimeInfoAtCodeOffset)
        requires
            (code_offset as int) < self.infos@.len(),
        ensures
            r == self.infos@[code_offset as int],
    {
        &self.infos[code_offset as usize]
    }
}

/// Release completeness at one code offset: every reference temporary that
/// the instruction touched and that is not alive after it is unbound in the
/// after state.
pub open spec fn release_complete(
    code: FunctionCode,
    live: LiveVarInfo,
    o: int,
    s: StateV,
) -> bool {
    forall|t: usize|
        t < code.locals@.len() && code.locals@[t as int].is_ref && (live.before@.contains(t)
            || code.code@[o].dests_spec().contains(t)) && !live.after@.contains(t)
            ==> !s.temps.dom().contains(t)
}

/// The state at function entry: an external root node and a derived node
/// per reference parameter, joined by a borrow edge.
fn entry_state(code: &FunctionCode) -> (r: LifetimeState)
    requires
        code.wf(),
        code.locs@.len() > 0,
    ensures
        r.wf(),
{
    let mut st = LifetimeState::new();
    let mut counter: u32 = 0;
    let mut i: usize = 0;
    while i < code.param_count
        invariant
            i <= code.param_count,
            code.wf(),
            code.locs@.len() > 0,
            st.wf(),
        decreases code.param_count - i,
    {
        if code.is_ref(i) && counter < 0xFFFF_FFFE {
            let label = label_from_counter(counter);
            counter += 1;
            if !st.graph.contains_key(label) {
                st.new_node(label, MemLoc::External);
            }
            let target = st.make_temp_counter(i, counter, false);
            counter += 1;
            if st.graph.contains_key(label) && st.graph.contains_key(target) {
                st.add_edge(
                    label,
                    BorrowEdge {
                        kind: EdgeKind::BorrowLocal { is_mut: code.is_mut(i) },
                        loc: code.locs[0],
                        target,
                    },
                );
            }
        }
        i += 1;
    }
    st
}

/// Runs the reference-safety analysis on a function: a forward dataflow to
/// fixpoint over the control-flow graph, then a capture pass computing the
/// state before and after every instruction together with the diagnostics.
///
/// Returns the annotation, the diagnostics (empty when `suppress_errors` is
/// set: suppression disables emission but preserves all state transitions),
/// and whether the fixpoint was reached within the iteration budget, which
/// it is for every function whose joins converge, labels being deterministic
/// per code position.
pub fn analyze_function(
    code: &FunctionCode,
    live: &LiveVarAnnotation,
    cfg: &ControlFlowGraph,
    suppress_errors: bool,
) -> (r: (LifetimeAnnotation, Vec<Diag>, bool))
    requires
        code.wf(),
        live.wf(code.code@.len() as nat),
        cfg.wf(code.code@.len() as nat),
    ensures
        r.0.wf(code.code@.len() as nat),
        forall|o: int| 0 <= o < code.code@.len() ==> release_complete(
            *code,
            live.infos@[o],
            o,
            (#[trigger] r.0.infos@[o]).after@,
        ),
        suppress_errors ==> r.1@.len() == 0,
{
    let n = code.code.len();
    if n == 0 {
        // Nothing to analyze: the annotation is empty and trivially stable.
        let infos: Vec<LifetimeInfoAtCodeOffset> = Vec::new();
        let diags: Vec<Diag> = Vec::new();
        return (LifetimeAnnotation { infos }, diags, true);
    }
    // In-states per offset; `has_state` marks offsets the dataflow reached.
    let mut states: Vec<LifetimeState> = Vec::new();
    let mut has_state: Vec<bool> = Vec::new();
    let mut i: usize = 0;
    while i < n
        invariant
            i <= n,
            states@.len() == i,
            has_state@.len() == i,
            forall|j: int| 0 <= j < i ==> (#[trigger] states@[j]).wf(),
        decreases n - i,
    {
        states.push(LifetimeState::new());
        has_state.push(false);
        i += 1;
    }
    let entry = entry_state(code);
    states.push(entry);
    let _ = states.swap_remove(0);
    proof {
        assert(states@.len() == n);
        assert forall|j: int| 0 <= j < n implies (#[trigger] states@[j]).wf() by {}
    }
    let mut hs = has_state;
    hs.push(true);
    let _ = hs.swap_remove(0);
    let mut has_state = hs;
    let mut worklist: Vec<usize> = Vec::new();
    worklist.push(0);
    // The fixpoint loop, with an iteration budget in the order of the code
    // size times the label count.
    let locals_bound: u128 = if code.locals.len() > 0xFFFF_FFFF {
        0xFFFF_FFFFu128
    } else {
        code.locals.len() as u128
    };
    let width: u128 = 256 * (n as u128) + 2 * locals_bound + 16;
    proof {
        assert(n <= 0x10000);
        assert(width <= 0x10_0000_0000u128);
        assert((n as u128 + 1) * width <= 0x20000u128 * 0x10_0000_0000u128) by (nonlinear_arith)
            requires
                n as u128 + 1 <= 0x20000u128,
                width <= 0x10_0000_0000u128,
        ;
    }
    let mut fuel: u128 = (n as u128 + 1) * width;
    let mut reached: bool = true;
    while worklist.len() > 0
        invariant
            code.wf(),
            live.wf(code.code@.len() as nat),
            cfg.wf(code.code@.len() as nat),
            n == code.code@.len(),
            states@.len() == n,
            has_state@.len() == n,
            forall|j: int| 0 <= j < n ==> (#[trigger] states@[j]).wf(),
            forall|j: int| 0 <= j < worklist@.len() ==> (#[trigger] worklist@[j]) < n,
        decreases fuel, worklist@.len(),
    {
        if fuel == 0 {
            reached = false;
            break ;
        }
        fuel = fuel - 1;
        let o = worklist.pop().unwrap();
        let mut s = states[o].duplicate();
        let mut scratch: Vec<Diag> = Vec::new();
        execute_step(&mut s, code, &live.infos[o], o as u16, &mut scratch);
        let succs = &cfg.successors[o];
        let mut k: usize = 0;
        while k < succs.len()
            invariant
                code.wf(),
                n == code.code@.len(),
                k <= succs@.len(),
                s.wf(),
                succs@ == cfg.successors@[o as int]@,
                forall|j: int| 0 <= j < succs@.len() ==> (#[trigger] succs@[j]) < n,
                states@.len() == n,
                has_state@.len() == n,
                forall|j: int| 0 <= j < n ==> (#[trigger] states@[j]).wf(),
                forall|j: int| 0 <= j < worklist@.len() ==> (#[trigger] worklist@[j]) < n,
            decreases succs@.len() - k,
        {
            let succ = succs[k];
            proof {
                assert(cfg.successors@[o as int]@[k as int] < n);
            }
            if !has_state[succ] {
                let copy = s.duplicate();
                states.push(copy);
                let _ = states.swap_remove(succ);
                let mut hs2 = has_state;
                hs2.push(true);
                let _ = hs2.swap_remove(succ);
                has_state = hs2;
                worklist.push(succ);
                proof {
                    assert(states@.len() == n);
                    assert forall|j: int| 0 <= j < n implies (#[trigger] states@[j]).wf() by {}
                }
            } else {
                // Join the out-state into the successor's in-state.
                states.push(LifetimeState::new());
                let mut cur = states.swap_remove(succ);
                let res = cur.join(&s);
                states.push(cur);
                let _ = states.swap_remove(succ);
                if res == JoinResult::Changed {
                    worklist.push(succ);
                }
                proof {
                    assert(states@.len() == n);
                    assert forall|j: int| 0 <= j < n implies (#[trigger] states@[j]).wf() by {}
                }
            }
            k += 1;
        }
    }
    // Capture pass: record before/after states per offset and collect the
    // diagnostics, once per triggering site.
    let mut infos: Vec<LifetimeInfoAtCodeOffset> = Vec::new();
    let mut diags: Vec<Diag> = Vec::new();
    let mut o2: usize = 0;
    while o2 < n
        invariant
            code.wf(),
            live.wf(code.code@.len() as nat),
            n == code.code@.len(),
            states@.len() == n,
            forall|j: int| 0 <= j < n ==> (#[trigger] states@[j]).wf(),
            infos@.len() == o2,
            o2 <= n,
            forall|j: int| 0 <= j < o2 ==> (#[trigger] infos@[j]).wf(),
            forall|j: int| 0 <= j < o2 ==> release_complete(
                *code,
                live.infos@[j],
                j,
                (#[trigger] infos@[j]).after@,
            ),
        decreases n - o2,
    {
        let before = states[o2].duplicate();
        let mut after = states[o2].duplicate();
        execute_step(&mut after, code, &live.infos[o2], o2 as u16, &mut diags);
        infos.push(LifetimeInfoAtCodeOffset { before, after });
        o2 += 1;
    }
    if suppress_errors {
        diags = Vec::new();
    }
    (LifetimeAnnotation { infos }, diags, reached)
}

} // verus!
