//! Labels for borrow-graph nodes.
//!
//! A label is an opaque 64-bit identifier.  Two construction schemes are in
//! use and must never collide:
//!
//! - *code-position labels*, derived from a 16-bit code offset and an 8-bit
//!   qualifier, packed into the low 24 bits.  They are deterministic across
//!   fixpoint iterations, which the convergence of the dataflow analysis
//!   depends on;
//! - *counter labels*, `(counter + 1) * 2^24`, used for the nodes of the
//!   reference parameters at function entry.  They are disjoint from all
//!   code-position labels.

use vstd::prelude::*;

verus! {

/// The bound below which all code-position labels live and at or above which
/// all counter labels live.
pub const CODE_LABEL_BOUND: u64 = 0x100_0000;

/// The label assigned to the node created at `code_offset` with the given
/// qualifier.
pub open spec fn code_label(code_offset: u16, qualifier: u8) -> int {
    code_offset * 256 + qualifier
}

/// The label assigned to the `count`-th counter-allocated node.
pub open spec fn counter_label(count: u32) -> int {
    (count + 1) * 0x100_0000
}

/// Builds a code-position label: offset and qualifier packed into the low
/// 24 bits.
pub fn label_from_code_offset(code_offset: u16, qualifier: u8) -> (r: u64)
    ensures
        r == code_label(code_offset, qualifier),
        r < CODE_LABEL_BOUND,
{
    code_offset as u64 * 256 + qualifier as u64
}

/// Builds a counter label, disjoint from every code-position label.
pub fn label_from_counter(count: u32) -> (r: u64)
    ensures
        r == counter_label(count),
        r >= CODE_LABEL_BOUND,
{
    (count as u64 + 1) * 0x100_0000
}

/// The two label schemes never produce the same value.
pub proof fn lemma_label_schemes_disjoint(code_offset: u16, qualifier: u8, count: u32)
    ensures
        code_label(code_offset, qualifier) != counter_label(count),
{
}

/// Code-position labels are injective in the pair (offset, qualifier).
pub proof fn lemma_code_label_injective(o1: u16, q1: u8, o2: u16, q2: u8)
    requires
        code_label(o1, q1) == code_label(o2, q2),
    ensures
        o1 == o2 && q1 == q2,
{
}

/// Counter labels are injective in the counter.
pub proof fn lemma_counter_label_injective(c1: u32, c2: u32)
    requires
        counter_label(c1) == counter_label(c2),
    ensures
        c1 == c2,
{
}

} // verus!
