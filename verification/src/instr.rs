//! The analyzed function: stackless bytecode, local types, live-variable
//! information, and the control-flow graph.

use crate::sets::TempSet;
use vstd::prelude::*;

verus! {

/// How an assignment transfers its source.
#[derive(Clone, Copy, Debug, PartialEq, Eq, Structural)]
pub enum AssignKind {
    Move,
    Copy,
    Inferred,
}

/// The operation of a call instruction, as far as the analysis tells them
/// apart: user functions and (in)equality get a borrow-safety check on their
/// reference arguments; every operation derives its reference results from
/// its reference arguments.
#[derive(Clone, Copy, Debug, PartialEq, Eq, Structural)]
pub enum OperationKind {
    Function { id: u64 },
    Eq,
    Neq,
    Other { id: u64 },
}

impl OperationKind {
    /// Whether the borrow graph is checked for safety before this operation.
    pub open spec fn is_safety_checked_spec(self) -> bool {
        match self {
            OperationKind::Function { .. } => true,
            OperationKind::Eq => true,
            OperationKind::Neq => true,
            OperationKind::Other { .. } => false,
        }
    }

    /// Whether the borrow graph is checked for safety before this operation.
    #[verifier::when_used_as_spec(is_safety_checked_spec)]
    pub fn is_safety_checked(self) -> (r: bool)
        ensures
            r == self.is_safety_checked_spec(),
    {
        match self {
            OperationKind::Function { .. } => true,
            OperationKind::Eq => true,
            OperationKind::Neq => true,
            OperationKind::Other { .. } => false,
        }
    }
}

/// One bytecode instruction, reduced to what the analysis reads.  Control
/// instructions carry no reference effect and appear as `Nop`; their flow is
/// in the control-flow graph.
#[derive(Clone, Debug)]
pub enum Instruction {
    Assign { dest: usize, src: usize, kind: AssignKind },
    BorrowLoc { dest: usize, src: usize },
    BorrowGlobal { resource: u64, dest: usize },
    BorrowField { field: u64, dest: usize, src: usize },
    ReadRef { dest: usize, src: usize },
    WriteRef { ref_dest: usize, val_src: usize },
    FreezeRef { dest: usize, src: usize },
    MoveFrom { dest: usize, resource: u64, src: usize },
    Call { oper: OperationKind, dests: Vec<usize>, srcs: Vec<usize> },
    Ret { srcs: Vec<usize> },
    Nop,
}

impl Instruction {
    /// The destinations the instruction writes.
    pub open spec fn dests_spec(self) -> Seq<usize> {
        match self {
            Instruction::Assign { dest, .. } => seq![dest],
            Instruction::BorrowLoc { dest, .. } => seq![dest],
            Instruction::BorrowGlobal { dest, .. } => seq![dest],
            Instruction::BorrowField { dest, .. } => seq![dest],
            Instruction::ReadRef { dest, .. } => seq![dest],
            Instruction::WriteRef { .. } => seq![],
            Instruction::FreezeRef { dest, .. } => seq![dest],
            Instruction::MoveFrom { dest, .. } => seq![dest],
            Instruction::Call { dests, .. } => dests@,
            Instruction::Ret { .. } => seq![],
            Instruction::Nop => seq![],
        }
    }

    /// Every temporary the instruction mentions is below `n`.
    pub open spec fn temps_below(self, n: nat) -> bool {
        match self {
            Instruction::Assign { dest, src, .. } => dest < n && src < n,
            Instruction::BorrowLoc { dest, src } => dest < n && src < n,
            Instruction::BorrowGlobal { dest, .. } => dest < n,
            Instruction::BorrowField { dest, src, .. } => dest < n && src < n,
            Instruction::ReadRef { dest, src } => dest < n && src < n,
            Instruction::WriteRef { ref_dest, val_src } => ref_dest < n && val_src < n,
            Instruction::FreezeRef { dest, src } => dest < n && src < n,
            Instruction::MoveFrom { dest, src, .. } => dest < n && src < n,
            Instruction::Call { dests, srcs, .. } => (forall|i: int|
                0 <= i < dests@.len() ==> #[trigger] dests@[i] < n) && (forall|i: int|
                0 <= i < srcs@.len() ==> #[trigger] srcs@[i] < n),
            Instruction::Ret { srcs } => forall|i: int|
                0 <= i < srcs@.len() ==> #[trigger] srcs@[i] < n,
            Instruction::Nop => true,
        }
    }
}

/// The type of a local, as far as the analysis consults it.
#[derive(Clone, Copy, Debug, PartialEq, Eq, Structural)]
pub struct LocalType {
    /// The local is a reference.
    pub is_ref: bool,
    /// The local is a mutable reference; implies `is_ref`.
    pub is_mut: bool,
}

/// The function under analysis: its bytecode, the types of its locals, how
/// many of the locals are parameters, and a source location per instruction
/// for diagnostics.
pub struct FunctionCode {
    pub code: Vec<Instruction>,
    pub locals: Vec<LocalType>,
    pub param_count: usize,
    pub locs: Vec<u64>,
}

impl FunctionCode {
    /// Well-formed: one source location per instruction, the parameters are
    /// a prefix of the locals, code offsets fit the label scheme, every
    /// mentioned temporary has a type, and mutable references are
    /// references.
    pub open spec fn wf(self) -> bool {
        &&& self.locs@.len() == self.code@.len()
        &&& self.param_count <= self.locals@.len()
        &&& self.code@.len() <= 0x10000
        &&& forall|i: int| 0 <= i < self.code@.len() ==> (#[trigger] self.code@[i]).temps_below(
            self.locals@.len() as nat,
        )
        &&& forall|i: int| 0 <= i < self.locals@.len() ==> ((#[trigger] self.locals@[i]).is_mut
            ==> self.locals@[i].is_ref)
    }

    /// Whether the local is a reference.
    pub fn is_ref(&self, temp: usize) -> (r: bool)
        requires
            temp < self.locals@.len(),
        ensures
            r == self.locals@[temp as int].is_ref,
    {
        self.locals[temp].is_ref
    }

    /// Whether the local is a mutable reference.
    pub fn is_mut(&self, temp: usize) -> (r: bool)
        requires
            temp < self.locals@.len(),
        ensures
            r == self.locals@[temp as int].is_mut,
    {
        self.locals[temp].is_mut
    }
}

/// Live-variable information at one code offset: the temporaries alive
/// before and after the instruction, and for those alive after, the source
/// locations of their later uses.
pub struct LiveVarInfo {
    pub before: TempSet,
    pub after: TempSet,
    pub after_usages: Vec<(usize, Vec<u64>)>,
}

impl LiveVarInfo {
    /// Well-formed: the sets are well-formed.
    pub open spec fn wf(self) -> bool {
        self.before.wf() && self.after.wf()
    }
}

/// The live-variable annotation: information per code offset.
pub struct LiveVarAnnotation {
    pub infos: Vec<LiveVarInfo>,
}

impl LiveVarAnnotation {
    /// Well-formed for a function: one entry per instruction.
    pub open spec fn wf(self, code_len: nat) -> bool {
        self.infos@.len() == code_len && forall|i: int|
            0 <= i < self.infos@.len() ==> (#[trigger] self.infos@[i]).wf()
    }
}

/// The control-flow graph: forward edges over instruction offsets.
pub struct ControlFlowGraph {
    pub successors: Vec<Vec<usize>>,
}

impl ControlFlowGraph {
    /// Well-formed for a function: one successor list per instruction, all
    /// targets in range.
    pub open spec fn wf(self, code_len: nat) -> bool {
        self.successors@.len() == code_len && forall|i: int, j: int|
            0 <= i < self.successors@.len() && 0 <= j < (#[trigger] self.successors@[i])@.len()
                ==> (#[trigger] self.successors@[i]@[j]) < code_len
    }
}

} // verus!
