//! Unit tests of the borrow-graph domain: labels, node creation, release,
//! reachability, and the join.

use ref_safety::edge::BorrowEdge;
use ref_safety::edge::EdgeKind;
use ref_safety::ids::label_from_code_offset;
use ref_safety::ids::label_from_counter;
use ref_safety::join::JoinResult;
use ref_safety::safety::check_diverging_pair;
use ref_safety::state::LifetimeState;

fn local_edge(is_mut: bool, loc: u64, target: u64) -> BorrowEdge {
    BorrowEdge { kind: EdgeKind::BorrowLocal { is_mut }, loc, target }
}

fn call_edge(oper: u64, offset: u16, loc: u64, target: u64) -> BorrowEdge {
    BorrowEdge { kind: EdgeKind::Call { is_mut: true, oper, offset }, loc, target }
}

#[test]
fn label_schemes_pack_and_stay_disjoint() {
    assert_eq!(label_from_code_offset(3, 1), 3 * 256 + 1);
    assert_eq!(label_from_code_offset(0, 0), 0);
    assert_eq!(label_from_code_offset(0xFFFF, 0xFF), 0xFF_FFFF);
    assert_eq!(label_from_counter(0), 0x100_0000);
    assert_eq!(label_from_counter(1), 0x200_0000);
    assert!(label_from_code_offset(0xFFFF, 0xFF) < label_from_counter(0));
}

#[test]
fn make_temp_reuses_existing_binding() {
    let mut st = LifetimeState::new();
    let l1 = st.make_temp(0, 5, 0, true);
    let l2 = st.make_temp(0, 9, 3, true);
    assert_eq!(l1, l2);
    assert_eq!(l1, label_from_code_offset(5, 0));
    assert_eq!(st.label_for_temp(0), Some(l1));
}

#[test]
fn make_global_binds_resource() {
    let mut st = LifetimeState::new();
    let l = st.make_global(42, 7, 0);
    assert_eq!(l, label_from_code_offset(7, 0));
    assert_eq!(st.label_for_global(42), Some(l));
    assert_eq!(st.label_for_global(43), None);
}

#[test]
fn release_drops_leaf_and_cascades_to_root() {
    let mut st = LifetimeState::new();
    let root = st.make_temp(0, 5, 0, true);
    let child = st.replace_ref(1, 5, 1);
    st.add_edge(root, local_edge(true, 1, child));
    assert!(st.is_borrowed(0));
    assert!(!st.is_borrowed(1));
    st.release_ref(1);
    // The child node is gone; the root survives because temporary 0 still
    // points at it, but it is a leaf again.
    assert_eq!(st.label_for_temp(1), None);
    assert_eq!(st.label_for_temp(0), Some(root));
    assert!(!st.is_borrowed(0));
}

#[test]
fn release_purges_local_rooted_bindings() {
    let mut st = LifetimeState::new();
    let root = st.make_temp(0, 5, 0, true);
    let child = st.replace_ref(1, 5, 1);
    st.add_edge(root, local_edge(true, 1, child));
    // Drop the root's own binding first; the node survives through the
    // borrow, then dies with it.
    st.release_ref(0);
    assert_eq!(st.label_for_temp(0), None);
    assert!(st.graph.contains_key(root));
    st.release_ref(1);
    assert!(!st.graph.contains_key(root));
    assert!(!st.graph.contains_key(child));
}

#[test]
fn move_and_copy_ref_transfer_bindings() {
    let mut st = LifetimeState::new();
    let l = st.make_temp(1, 3, 0, false);
    st.move_ref(2, 1);
    assert_eq!(st.label_for_temp(1), None);
    assert_eq!(st.label_for_temp(2), Some(l));
    st.copy_ref(3, 2);
    assert_eq!(st.label_for_temp(2), Some(l));
    assert_eq!(st.label_for_temp(3), Some(l));
}

#[test]
fn join_is_idempotent() {
    let mut a = LifetimeState::new();
    let root = a.make_temp(0, 5, 0, true);
    let child = a.replace_ref(1, 5, 1);
    a.add_edge(root, local_edge(true, 1, child));
    let b = a.duplicate();
    let r = a.join(&b);
    assert!(matches!(r, JoinResult::Unchanged));
    assert_eq!(a.label_for_temp(0), Some(root));
    assert_eq!(a.label_for_temp(1), Some(child));
}

#[test]
fn join_unifies_labels_and_keeps_both_edges() {
    // Two branches borrow the same local at different offsets; the join
    // renames the incoming labels onto the kept ones and both edges survive.
    let mut a = LifetimeState::new();
    let root_a = a.make_temp(0, 1, 0, true);
    let child_a = a.replace_ref(1, 1, 1);
    a.add_edge(root_a, local_edge(true, 11, child_a));
    let mut b = LifetimeState::new();
    let root_b = b.make_temp(0, 2, 0, true);
    let child_b = b.replace_ref(1, 2, 1);
    b.add_edge(root_b, local_edge(true, 22, child_b));
    let r = a.join(&b);
    assert!(matches!(r, JoinResult::Changed));
    // The current labels are kept, the incoming ones are gone.
    assert_eq!(a.label_for_temp(0), Some(root_a));
    assert_eq!(a.label_for_temp(1), Some(child_a));
    assert!(a.graph.contains_key(root_a));
    assert!(!a.graph.contains_key(root_b));
    assert!(!a.graph.contains_key(child_b));
    // Monotonicity: both borrow edges survive on the kept root.
    let n = a.graph.get(root_a).unwrap();
    let edges = n.children.elems();
    assert_eq!(edges.len(), 2);
    assert!(edges.iter().any(|e| e.loc == 11));
    assert!(edges.iter().any(|e| e.loc == 22));
}

#[test]
fn join_takes_over_missing_bindings() {
    let mut a = LifetimeState::new();
    let _ = a.make_temp(0, 1, 0, true);
    let mut b = LifetimeState::new();
    let lb = b.make_temp(5, 2, 0, true);
    let r = a.join(&b);
    assert!(matches!(r, JoinResult::Changed));
    assert_eq!(a.label_for_temp(5), Some(lb));
    // Joining again changes nothing.
    let r2 = a.join(&b);
    assert!(matches!(r2, JoinResult::Unchanged));
}

#[test]
fn joins_with_agreeing_maps_commute() {
    // The two states bind different temporaries, so their maps agree; the
    // joined graphs are the pointwise union either way.
    let mut a = LifetimeState::new();
    let ra = a.make_temp(0, 1, 0, true);
    let ca = a.replace_ref(1, 1, 1);
    a.add_edge(ra, local_edge(true, 11, ca));
    let mut b = LifetimeState::new();
    let rb = b.make_temp(2, 2, 0, true);
    let cb = b.replace_ref(3, 2, 1);
    b.add_edge(rb, local_edge(false, 22, cb));
    let mut ab = a.duplicate();
    let _ = ab.join(&b);
    let mut ba = b.duplicate();
    let _ = ba.join(&a);
    for l in [ra, ca, rb, cb] {
        assert!(ab.graph.contains_key(l));
        assert!(ba.graph.contains_key(l));
        let nab = ab.graph.get(l).unwrap();
        let nba = ba.graph.get(l).unwrap();
        assert_eq!(nab.children.elems().len(), nba.children.elems().len());
        assert_eq!(nab.parents.elems().len(), nba.parents.elems().len());
    }
}

#[test]
fn diverging_pair_suppressed_when_targets_rejoin() {
    // A diamond: two call edges from the root whose targets share a child.
    // The diverging-edge report is suppressed exactly then.
    let mut st = LifetimeState::new();
    let root = st.make_temp(0, 1, 0, true);
    let mid_a = st.replace_ref(1, 2, 0);
    let mid_b = st.replace_ref(2, 3, 0);
    let bottom = st.replace_ref(3, 4, 0);
    let e1 = call_edge(7, 2, 12, mid_a);
    let e2 = call_edge(8, 3, 13, mid_b);
    st.add_edge(root, e1);
    st.add_edge(root, e2);
    st.add_edge(mid_a, call_edge(9, 4, 14, bottom));
    st.add_edge(mid_b, call_edge(9, 4, 14, bottom));
    assert!(!check_diverging_pair(&st, e1, e2));

    // Without the shared child the pair is reported.
    let mut st2 = LifetimeState::new();
    let root2 = st2.make_temp(0, 1, 0, true);
    let m1 = st2.replace_ref(1, 2, 0);
    let m2 = st2.replace_ref(2, 3, 0);
    let f1 = call_edge(7, 2, 12, m1);
    let f2 = call_edge(8, 3, 13, m2);
    st2.add_edge(root2, f1);
    st2.add_edge(root2, f2);
    assert!(check_diverging_pair(&st2, f1, f2));
}

#[test]
fn ancestor_query_is_reflexive_and_transitive() {
    let mut st = LifetimeState::new();
    let root = st.make_temp(0, 1, 0, true);
    let mid = st.replace_ref(1, 2, 0);
    let bottom = st.replace_ref(2, 3, 0);
    st.add_edge(root, local_edge(true, 1, mid));
    st.add_edge(mid, call_edge(5, 3, 2, bottom));
    assert!(st.is_ancestor(root, root));
    assert!(st.is_ancestor(root, mid));
    assert!(st.is_ancestor(root, bottom));
    assert!(st.is_ancestor(mid, bottom));
    assert!(!st.is_ancestor(bottom, root));
    assert!(!st.is_ancestor(mid, root));
}

#[test]
fn roots_find_parentless_ancestors() {
    let mut st = LifetimeState::new();
    let root = st.make_temp(0, 1, 0, true);
    let mid = st.replace_ref(1, 2, 0);
    st.add_edge(root, local_edge(true, 1, mid));
    let roots_of_mid = st.roots(mid);
    let rv = roots_of_mid.elems();
    assert_eq!(rv.len(), 1);
    assert_eq!(rv[0], root);
    let roots_of_root = st.roots(root);
    assert_eq!(roots_of_root.elems().len(), 1);
}

#[test]
fn backlinks_mirror_edges() {
    // Graph consistency on a concrete graph: a node lists a child exactly
    // when the child lists it as a parent.
    let mut st = LifetimeState::new();
    let root = st.make_temp(0, 1, 0, true);
    let mid = st.replace_ref(1, 2, 0);
    let bottom = st.replace_ref(2, 3, 0);
    st.add_edge(root, local_edge(true, 1, mid));
    st.add_edge(mid, call_edge(5, 3, 2, bottom));
    let root_node = st.graph.get(root).unwrap();
    assert!(root_node.parents.elems().is_empty());
    assert_eq!(root_node.children.elems().len(), 1);
    assert_eq!(root_node.children.elems()[0].target, mid);
    let mid_node = st.graph.get(mid).unwrap();
    assert_eq!(mid_node.parents.elems().len(), 1);
    assert_eq!(mid_node.parents.elems()[0], root);
    assert_eq!(mid_node.children.elems().len(), 1);
    assert_eq!(mid_node.children.elems()[0].target, bottom);
    let bottom_node = st.graph.get(bottom).unwrap();
    assert_eq!(bottom_node.parents.elems().len(), 1);
    assert_eq!(bottom_node.parents.elems()[0], mid);
    assert!(bottom_node.children.elems().is_empty());
    // Every label in the maps resolves in the graph.
    for t in st.borrowed_locals() {
        assert!(st.graph.contains_key(st.label_for_temp(t).unwrap()));
    }
}

#[test]
fn cyclic_unification_keeps_current_bindings() {
    // The two states bind the same pair of labels crosswise; unifying them
    // would chase a cycle, so the join keeps the current bindings and does
    // not merge the nodes.
    let mut a = LifetimeState::new();
    let la = a.make_temp(1, 5, 0, false);
    let lb = a.make_temp(2, 6, 0, false);
    let mut b = LifetimeState::new();
    let b1 = b.make_temp(1, 6, 0, false);
    let b2 = b.make_temp(2, 5, 0, false);
    assert_eq!(la, b2);
    assert_eq!(lb, b1);
    let r = a.join(&b);
    assert!(matches!(r, JoinResult::Changed));
    assert_eq!(a.label_for_temp(1), Some(la));
    assert_eq!(a.label_for_temp(2), Some(lb));
    assert!(a.graph.contains_key(la));
    assert!(a.graph.contains_key(lb));
}

#[test]
fn make_temp_reuses_node_on_label_collision() {
    // A second temporary created at the same code position reuses the live
    // node instead of overwriting it.
    let mut st = LifetimeState::new();
    let l1 = st.make_temp(1, 5, 0, false);
    let l2 = st.make_temp(2, 5, 0, false);
    assert_eq!(l1, l2);
    assert_eq!(st.label_for_temp(1), st.label_for_temp(2));
}
