//! Memory locations and borrow edges, the building blocks of the borrow
//! graph.

use vstd::prelude::*;

verus! {

/// A memory location attached to a graph node: the root that the node
/// represents.  A node can accumulate several locations through joins.
#[derive(Clone, Copy, Debug, PartialEq, Eq, Structural)]
pub enum MemLoc {
    /// The underlying memory is a typed resource in global storage.
    Global { resource: u64 },
    /// The underlying memory is a local on the stack.
    Local { temp: usize },
    /// The underlying memory is external, referenced by a function parameter.
    External,
    /// The node derives from underlying memory through incoming edges: the
    /// result of a field select, a call, or a freeze.
    Derived,
}

/// How a child reference was produced from its parent.  Every kind except
/// `Freeze` carries a mutability flag.
#[derive(Clone, Copy, Debug, PartialEq, Eq, Structural)]
pub enum EdgeKind {
    /// Borrows the local at the source node's memory location.
    BorrowLocal { is_mut: bool },
    /// Borrows the global at the source node's memory location.
    BorrowGlobal { is_mut: bool },
    /// Borrows a field from a reference.
    BorrowField { is_mut: bool, field: u64 },
    /// An operation call deriving outgoing references from incoming ones.
    /// Two call edges are distinguished by the code offset of the call.
    Call { is_mut: bool, oper: u64, offset: u16 },
    /// Freezes a mutable reference.
    Freeze,
}

/// A directed edge of the borrow graph, parent to child.  The source is
/// implicit in the ownership of the edge by its source node.
#[derive(Clone, Copy, Debug, PartialEq, Eq, Structural)]
pub struct BorrowEdge {
    /// The kind of borrow edge.
    pub kind: EdgeKind,
    /// A source location associated with the edge, for diagnostics.
    pub loc: u64,
    /// The label of the child node.
    pub target: u64,
}

impl EdgeKind {
    /// Whether the edge kind is a mutating borrow.
    pub open spec fn is_mut_spec(self) -> bool {
        match self {
            EdgeKind::BorrowLocal { is_mut } => is_mut,
            EdgeKind::BorrowGlobal { is_mut } => is_mut,
            EdgeKind::BorrowField { is_mut, .. } => is_mut,
            EdgeKind::Call { is_mut, .. } => is_mut,
            EdgeKind::Freeze => false,
        }
    }

    /// Whether the edge kind is a mutating borrow.
    #[verifier::when_used_as_spec(is_mut_spec)]
    pub fn is_mut(self) -> (r: bool)
        ensures
            r == self.is_mut_spec(),
    {
        match self {
            EdgeKind::BorrowLocal { is_mut } => is_mut,
            EdgeKind::BorrowGlobal { is_mut } => is_mut,
            EdgeKind::BorrowField { is_mut, .. } => is_mut,
            EdgeKind::Call { is_mut, .. } => is_mut,
            EdgeKind::Freeze => false,
        }
    }

    /// Whether the memory region derived through this edge can overlap the
    /// region derived through `other`.  Overlap can be excluded only for
    /// borrows of distinct fields.
    pub open spec fn overlaps_spec(self, other: EdgeKind) -> bool {
        match (self, other) {
            (
                EdgeKind::BorrowField { field: f1, .. },
                EdgeKind::BorrowField { field: f2, .. },
            ) => f1 == f2,
            _ => true,
        }
    }

    /// Whether the memory region derived through this edge can overlap the
    /// region derived through `other`.
    #[verifier::when_used_as_spec(overlaps_spec)]
    pub fn overlaps(self, other: EdgeKind) -> (r: bool)
        ensures
            r == self.overlaps_spec(other),
    {
        match (self, other) {
            (
                EdgeKind::BorrowField { field: f1, .. },
                EdgeKind::BorrowField { field: f2, .. },
            ) => f1 == f2,
            _ => true,
        }
    }
}

} // verus!
