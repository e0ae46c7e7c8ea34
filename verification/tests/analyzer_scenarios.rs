//! End-to-end scenarios: small bytecode functions run through the analyzer,
//! checked for acceptance or for the expected diagnostic.

use ref_safety::diag::DiagKind;
use ref_safety::driver::analyze_function;
use ref_safety::instr::AssignKind;
use ref_safety::instr::ControlFlowGraph;
use ref_safety::instr::FunctionCode;
use ref_safety::instr::Instruction;
use ref_safety::instr::LiveVarAnnotation;
use ref_safety::instr::LiveVarInfo;
use ref_safety::instr::LocalType;
use ref_safety::instr::OperationKind;
use ref_safety::sets::TempSet;

fn ref_local(is_mut: bool) -> LocalType {
    LocalType { is_ref: true, is_mut }
}

fn val_local() -> LocalType {
    LocalType { is_ref: false, is_mut: false }
}

fn temp_set(temps: &[usize]) -> TempSet {
    let mut s = TempSet::new();
    for &t in temps {
        s.insert(t);
    }
    s
}

fn live(before: &[usize], after: &[usize]) -> LiveVarInfo {
    LiveVarInfo { before: temp_set(before), after: temp_set(after), after_usages: Vec::new() }
}

#[test]
fn distinct_field_borrows_accepted() {
    // let r1 = &s.f; let r2 = &s.g; use(r1, r2): distinct field ids do not
    // overlap, so the two immutable borrows coexist.
    let code = FunctionCode {
        code: vec![
            Instruction::BorrowField { field: 0, dest: 1, src: 0 },
            Instruction::BorrowField { field: 1, dest: 2, src: 0 },
            Instruction::Call {
                oper: OperationKind::Function { id: 7 },
                dests: vec![],
                srcs: vec![1, 2],
            },
            Instruction::Ret { srcs: vec![] },
        ],
        locals: vec![ref_local(false), ref_local(false), ref_local(false)],
        param_count: 1,
        locs: vec![10, 11, 12, 13],
    };
    let live_ann = LiveVarAnnotation {
        infos: vec![live(&[0], &[0, 1]), live(&[0, 1], &[1, 2]), live(&[1, 2], &[]), live(
            &[],
            &[],
        )],
    };
    let cfg = ControlFlowGraph { successors: vec![vec![1], vec![2], vec![3], vec![]] };
    let (ann, diags, reached) = analyze_function(&code, &live_ann, &cfg, false);
    assert!(reached);
    assert_eq!(diags.len(), 0);
    assert_eq!(ann.infos.len(), 4);
}

#[test]
fn mutable_and_immutable_same_field_rejected() {
    // let r1 = &mut s.f; let r2 = &s.f; use(r1, r2): diverging edges on the
    // same field with a mutable side.
    let code = FunctionCode {
        code: vec![
            Instruction::BorrowField { field: 0, dest: 1, src: 0 },
            Instruction::BorrowField { field: 0, dest: 2, src: 0 },
            Instruction::Call {
                oper: OperationKind::Function { id: 7 },
                dests: vec![],
                srcs: vec![1, 2],
            },
            Instruction::Ret { srcs: vec![] },
        ],
        locals: vec![ref_local(true), ref_local(true), ref_local(false)],
        param_count: 1,
        locs: vec![10, 11, 12, 13],
    };
    let live_ann = LiveVarAnnotation {
        infos: vec![live(&[0], &[0, 1]), live(&[0, 1], &[1, 2]), live(&[1, 2], &[]), live(
            &[],
            &[],
        )],
    };
    let cfg = ControlFlowGraph { successors: vec![vec![1], vec![2], vec![3], vec![]] };
    let (_ann, diags, reached) = analyze_function(&code, &live_ann, &cfg, false);
    assert!(reached);
    assert!(diags.iter().any(|d| matches!(d.kind, DiagKind::BorrowConflict { .. })));
}

#[test]
fn rejoining_branches_accepted() {
    // let r = if c { &mut s } else { &mut s }; use(r): the two borrows have
    // the same edge kind and rejoin at r, so no conflict is reported.
    let code = FunctionCode {
        code: vec![
            Instruction::Nop,
            Instruction::BorrowLoc { dest: 1, src: 0 },
            Instruction::BorrowLoc { dest: 1, src: 0 },
            Instruction::Call {
                oper: OperationKind::Function { id: 9 },
                dests: vec![],
                srcs: vec![1],
            },
            Instruction::Ret { srcs: vec![] },
        ],
        locals: vec![val_local(), ref_local(true)],
        param_count: 0,
        locs: vec![20, 21, 22, 23, 24],
    };
    let live_ann = LiveVarAnnotation {
        infos: vec![
            live(&[0], &[0]),
            live(&[0], &[0, 1]),
            live(&[0], &[0, 1]),
            live(&[0, 1], &[]),
            live(&[], &[]),
        ],
    };
    let cfg = ControlFlowGraph {
        successors: vec![vec![1, 2], vec![3], vec![3], vec![4], vec![]],
    };
    let (_ann, diags, reached) = analyze_function(&code, &live_ann, &cfg, false);
    assert!(reached);
    assert_eq!(diags.len(), 0);
}

#[test]
fn write_to_borrowed_local_rejected() {
    // let r = &x; x = 1; use(r): assigning to a borrowed local.
    let code = FunctionCode {
        code: vec![
            Instruction::BorrowLoc { dest: 1, src: 0 },
            Instruction::Assign { dest: 0, src: 2, kind: AssignKind::Copy },
            Instruction::Call {
                oper: OperationKind::Function { id: 5 },
                dests: vec![],
                srcs: vec![1],
            },
            Instruction::Ret { srcs: vec![] },
        ],
        locals: vec![val_local(), ref_local(false), val_local()],
        param_count: 0,
        locs: vec![30, 31, 32, 33],
    };
    let live_ann = LiveVarAnnotation {
        infos: vec![
            live(&[0, 2], &[0, 1, 2]),
            live(&[0, 1, 2], &[1]),
            live(&[1], &[]),
            live(&[], &[]),
        ],
    };
    let cfg = ControlFlowGraph { successors: vec![vec![1], vec![2], vec![3], vec![]] };
    let (_ann, diags, reached) = analyze_function(&code, &live_ann, &cfg, false);
    assert!(reached);
    assert!(diags.iter().any(|d| matches!(d.kind, DiagKind::CannotAssign { temp: 0 })));
    // The write site is flagged.
    let d = diags.iter().find(|d| matches!(d.kind, DiagKind::CannotAssign { .. })).unwrap();
    assert_eq!(d.loc, 31);
}

#[test]
fn return_of_local_derived_reference_rejected() {
    // fun f(s: &mut S): &mut T { &mut local.t }: the returned reference is
    // derived from a non-parameter local.
    let code = FunctionCode {
        code: vec![
            Instruction::BorrowLoc { dest: 2, src: 1 },
            Instruction::Ret { srcs: vec![2] },
        ],
        locals: vec![ref_local(true), val_local(), ref_local(true)],
        param_count: 1,
        locs: vec![40, 41],
    };
    let live_ann = LiveVarAnnotation {
        infos: vec![live(&[1], &[1, 2]), live(&[1, 2], &[])],
    };
    let cfg = ControlFlowGraph { successors: vec![vec![1], vec![]] };
    let (_ann, diags, reached) = analyze_function(&code, &live_ann, &cfg, false);
    assert!(reached);
    assert!(diags.iter().any(|d| matches!(d.kind, DiagKind::ReturnsLocal { temp: 1 })));
}

#[test]
fn return_of_global_derived_reference_rejected() {
    let code = FunctionCode {
        code: vec![
            Instruction::BorrowGlobal { resource: 77, dest: 0 },
            Instruction::Ret { srcs: vec![0] },
        ],
        locals: vec![ref_local(false)],
        param_count: 0,
        locs: vec![45, 46],
    };
    let live_ann = LiveVarAnnotation {
        infos: vec![live(&[], &[0]), live(&[0], &[])],
    };
    let cfg = ControlFlowGraph { successors: vec![vec![1], vec![]] };
    let (_ann, diags, reached) = analyze_function(&code, &live_ann, &cfg, false);
    assert!(reached);
    assert!(diags.iter().any(|d| matches!(d.kind, DiagKind::ReturnsGlobal { resource: 77 })));
}

#[test]
fn duplicate_argument_rejected() {
    // f(r, r) with r: &mut: the same temporary twice in the operand list.
    let code = FunctionCode {
        code: vec![
            Instruction::BorrowLoc { dest: 1, src: 0 },
            Instruction::Call {
                oper: OperationKind::Function { id: 3 },
                dests: vec![],
                srcs: vec![1, 1],
            },
            Instruction::Ret { srcs: vec![] },
        ],
        locals: vec![val_local(), ref_local(true)],
        param_count: 0,
        locs: vec![50, 51, 52],
    };
    let live_ann = LiveVarAnnotation {
        infos: vec![live(&[0], &[0, 1]), live(&[0, 1], &[]), live(&[], &[])],
    };
    let cfg = ControlFlowGraph { successors: vec![vec![1], vec![2], vec![]] };
    let (_ann, diags, reached) = analyze_function(&code, &live_ann, &cfg, false);
    assert!(reached);
    assert!(diags.iter().any(
        |d| matches!(d.kind, DiagKind::ExclusiveAccessDirectDuplicate { temp: 1 }),
    ));
}

#[test]
fn two_mutable_borrows_of_one_local_rejected() {
    // f(&mut x, &mut x) through two temporaries: both name one mutable root
    // region through identical paths.
    let code = FunctionCode {
        code: vec![
            Instruction::BorrowLoc { dest: 1, src: 0 },
            Instruction::BorrowLoc { dest: 2, src: 0 },
            Instruction::Call {
                oper: OperationKind::Function { id: 3 },
                dests: vec![],
                srcs: vec![1, 2],
            },
            Instruction::Ret { srcs: vec![] },
        ],
        locals: vec![val_local(), ref_local(true), ref_local(true)],
        param_count: 0,
        locs: vec![60, 61, 62, 63],
    };
    let live_ann = LiveVarAnnotation {
        infos: vec![
            live(&[0], &[0, 1]),
            live(&[0, 1], &[1, 2]),
            live(&[1, 2], &[]),
            live(&[], &[]),
        ],
    };
    let cfg = ControlFlowGraph { successors: vec![vec![1], vec![2], vec![3], vec![]] };
    let (_ann, diags, reached) = analyze_function(&code, &live_ann, &cfg, false);
    assert!(reached);
    assert!(diags.iter().any(
        |d| matches!(d.kind, DiagKind::ExclusiveAccessIndirectDuplicate { .. }),
    ));
}

#[test]
fn mutable_field_borrow_through_immutable_reference_rejected() {
    // let r = &s; let f = &mut r.f: a mutability inversion on the field
    // borrow.
    let code = FunctionCode {
        code: vec![
            Instruction::BorrowLoc { dest: 1, src: 0 },
            Instruction::BorrowField { field: 0, dest: 2, src: 1 },
            Instruction::Call {
                oper: OperationKind::Function { id: 4 },
                dests: vec![],
                srcs: vec![2],
            },
            Instruction::Ret { srcs: vec![] },
        ],
        locals: vec![val_local(), ref_local(false), ref_local(true)],
        param_count: 0,
        locs: vec![70, 71, 72, 73],
    };
    let live_ann = LiveVarAnnotation {
        infos: vec![
            live(&[0], &[0, 1]),
            live(&[0, 1], &[0, 2]),
            live(&[0, 2], &[]),
            live(&[], &[]),
        ],
    };
    let cfg = ControlFlowGraph { successors: vec![vec![1], vec![2], vec![3], vec![]] };
    let (_ann, diags, reached) = analyze_function(&code, &live_ann, &cfg, false);
    assert!(reached);
    assert!(diags.iter().any(|d| matches!(
        d.kind,
        DiagKind::BorrowConflict { attempted_is_mut: true, existing_is_mut: false, .. }
    )));
}

#[test]
fn move_of_borrowed_local_rejected() {
    // let r = &x; let y = move x: moving a borrowed local.
    let code = FunctionCode {
        code: vec![
            Instruction::BorrowLoc { dest: 1, src: 0 },
            Instruction::Assign { dest: 2, src: 0, kind: AssignKind::Move },
            Instruction::Call {
                oper: OperationKind::Function { id: 6 },
                dests: vec![],
                srcs: vec![1],
            },
            Instruction::Ret { srcs: vec![] },
        ],
        locals: vec![val_local(), ref_local(false), val_local()],
        param_count: 0,
        locs: vec![80, 81, 82, 83],
    };
    let live_ann = LiveVarAnnotation {
        infos: vec![
            live(&[0], &[0, 1]),
            live(&[0, 1], &[1, 2]),
            live(&[1, 2], &[]),
            live(&[], &[]),
        ],
    };
    let cfg = ControlFlowGraph { successors: vec![vec![1], vec![2], vec![3], vec![]] };
    let (_ann, diags, reached) = analyze_function(&code, &live_ann, &cfg, false);
    assert!(reached);
    assert!(diags.iter().any(|d| matches!(d.kind, DiagKind::CannotMove { temp: 0 })));
}

#[test]
fn suppression_keeps_states_but_drops_diagnostics() {
    let code = FunctionCode {
        code: vec![
            Instruction::BorrowLoc { dest: 1, src: 0 },
            Instruction::Assign { dest: 0, src: 2, kind: AssignKind::Copy },
            Instruction::Call {
                oper: OperationKind::Function { id: 5 },
                dests: vec![],
                srcs: vec![1],
            },
            Instruction::Ret { srcs: vec![] },
        ],
        locals: vec![val_local(), ref_local(false), val_local()],
        param_count: 0,
        locs: vec![30, 31, 32, 33],
    };
    let live_ann = LiveVarAnnotation {
        infos: vec![
            live(&[0, 2], &[0, 1, 2]),
            live(&[0, 1, 2], &[1]),
            live(&[1], &[]),
            live(&[], &[]),
        ],
    };
    let cfg = ControlFlowGraph { successors: vec![vec![1], vec![2], vec![3], vec![]] };
    let (ann, diags, _reached) = analyze_function(&code, &live_ann, &cfg, true);
    assert_eq!(diags.len(), 0);
    assert_eq!(ann.infos.len(), 4);
    // The state transitions are preserved: the borrow is in the graph after
    // the first instruction.
    assert!(ann.infos[0].after.is_borrowed(0));
}

#[test]
fn released_temps_reports_dying_references() {
    // The reference dies after its use: the annotation reports it released.
    let code = FunctionCode {
        code: vec![
            Instruction::BorrowLoc { dest: 1, src: 0 },
            Instruction::Call {
                oper: OperationKind::Function { id: 5 },
                dests: vec![],
                srcs: vec![1],
            },
            Instruction::Ret { srcs: vec![] },
        ],
        locals: vec![val_local(), ref_local(false)],
        param_count: 0,
        locs: vec![90, 91, 92],
    };
    let live_ann = LiveVarAnnotation {
        infos: vec![live(&[0], &[0, 1]), live(&[0, 1], &[]), live(&[], &[])],
    };
    let cfg = ControlFlowGraph { successors: vec![vec![1], vec![2], vec![]] };
    let (ann, diags, reached) = analyze_function(&code, &live_ann, &cfg, false);
    assert!(reached);
    assert_eq!(diags.len(), 0);
    let released = ann.infos[1].released_temps();
    assert!(released.contains(&1));
    // Release is complete: the dead reference is unbound.  The borrowed
    // local itself is not a reference; its root binding goes away with its
    // node, which died with the last borrow.
    assert_eq!(ann.infos[1].after.label_for_temp(1), None);
    assert!(!ann.infos[1].after.is_borrowed(0));
}

#[test]
fn loop_reaches_fixpoint() {
    // A borrow used inside a loop: the back edge makes the dataflow iterate,
    // and the deterministic labels let the join converge.
    let code = FunctionCode {
        code: vec![
            Instruction::BorrowLoc { dest: 1, src: 0 },
            Instruction::Call {
                oper: OperationKind::Function { id: 5 },
                dests: vec![],
                srcs: vec![1],
            },
            Instruction::Nop,
            Instruction::Ret { srcs: vec![] },
        ],
        locals: vec![val_local(), ref_local(false)],
        param_count: 0,
        locs: vec![100, 101, 102, 103],
    };
    let live_ann = LiveVarAnnotation {
        infos: vec![
            live(&[0], &[0, 1]),
            live(&[0, 1], &[0, 1]),
            live(&[0, 1], &[0, 1]),
            live(&[], &[]),
        ],
    };
    let cfg = ControlFlowGraph {
        successors: vec![vec![1], vec![2], vec![1, 3], vec![]],
    };
    let (ann, diags, reached) = analyze_function(&code, &live_ann, &cfg, false);
    assert!(reached);
    assert_eq!(diags.len(), 0);
    // The state at the loop head is stable: the borrow is present.
    assert!(ann.infos[1].before.is_borrowed(0));
}
