//! One scenario per remaining diagnostic kind.

use ref_safety::diag::DiagKind;
use ref_safety::driver::analyze_function;
use ref_safety::instr::AssignKind;
use ref_safety::instr::ControlFlowGraph;
use ref_safety::instr::FunctionCode;
use ref_safety::instr::Instruction;
use ref_safety::instr::LiveVarAnnotation;
use ref_safety::instr::LiveVarInfo;
use ref_safety::instr::LocalType;
use ref_safety::instr::OperationKind;
use ref_safety::sets::TempSet;

fn ref_local(is_mut: bool) -> LocalType {
    LocalType { is_ref: true, is_mut }
}

fn val_local() -> LocalType {
    LocalType { is_ref: false, is_mut: false }
}

fn temp_set(temps: &[usize]) -> TempSet {
    let mut s = TempSet::new();
    for &t in temps {
        s.insert(t);
    }
    s
}

fn live(before: &[usize], after: &[usize]) -> LiveVarInfo {
    LiveVarInfo { before: temp_set(before), after: temp_set(after), after_usages: Vec::new() }
}

#[test]
fn copy_of_mutably_borrowed_local_rejected() {
    // let r = &mut x; let y = copy x: a copy is forbidden only by a mutable
    // borrow.
    let code = FunctionCode {
        code: vec![
            Instruction::BorrowLoc { dest: 1, src: 0 },
            Instruction::Assign { dest: 2, src: 0, kind: AssignKind::Copy },
            Instruction::Call {
                oper: OperationKind::Function { id: 6 },
                dests: vec![],
                srcs: vec![1],
            },
            Instruction::Ret { srcs: vec![] },
        ],
        locals: vec![val_local(), ref_local(true), val_local()],
        param_count: 0,
        locs: vec![10, 11, 12, 13],
    };
    let live_ann = LiveVarAnnotation {
        infos: vec![
            live(&[0], &[0, 1]),
            live(&[0, 1], &[1, 2]),
            live(&[1, 2], &[]),
            live(&[], &[]),
        ],
    };
    let cfg = ControlFlowGraph { successors: vec![vec![1], vec![2], vec![3], vec![]] };
    let (_ann, diags, _reached) = analyze_function(&code, &live_ann, &cfg, false);
    assert!(diags.iter().any(|d| matches!(d.kind, DiagKind::CannotCopy { temp: 0 })));
}

#[test]
fn copy_of_immutably_borrowed_local_accepted() {
    // let r = &x; let y = copy x: an immutable borrow allows the copy.
    let code = FunctionCode {
        code: vec![
            Instruction::BorrowLoc { dest: 1, src: 0 },
            Instruction::Assign { dest: 2, src: 0, kind: AssignKind::Copy },
            Instruction::Call {
                oper: OperationKind::Function { id: 6 },
                dests: vec![],
                srcs: vec![1],
            },
            Instruction::Ret { srcs: vec![] },
        ],
        locals: vec![val_local(), ref_local(false), val_local()],
        param_count: 0,
        locs: vec![10, 11, 12, 13],
    };
    let live_ann = LiveVarAnnotation {
        infos: vec![
            live(&[0], &[0, 1]),
            live(&[0, 1], &[1, 2]),
            live(&[1, 2], &[]),
            live(&[], &[]),
        ],
    };
    let cfg = ControlFlowGraph { successors: vec![vec![1], vec![2], vec![3], vec![]] };
    let (_ann, diags, _reached) = analyze_function(&code, &live_ann, &cfg, false);
    assert_eq!(diags.len(), 0);
}

#[test]
fn passing_mutably_borrowed_local_rejected() {
    // let r = &mut x; f(x, r): passing the borrowed local by value.
    let code = FunctionCode {
        code: vec![
            Instruction::BorrowLoc { dest: 1, src: 0 },
            Instruction::Call {
                oper: OperationKind::Function { id: 6 },
                dests: vec![],
                srcs: vec![0, 1],
            },
            Instruction::Ret { srcs: vec![] },
        ],
        locals: vec![val_local(), ref_local(true)],
        param_count: 0,
        locs: vec![20, 21, 22],
    };
    let live_ann = LiveVarAnnotation {
        infos: vec![live(&[0], &[0, 1]), live(&[0, 1], &[]), live(&[], &[])],
    };
    let cfg = ControlFlowGraph { successors: vec![vec![1], vec![2], vec![]] };
    let (_ann, diags, _reached) = analyze_function(&code, &live_ann, &cfg, false);
    assert!(diags.iter().any(|d| matches!(d.kind, DiagKind::CannotPassArgument { temp: 0 })));
}

#[test]
fn write_through_reborrowed_reference_rejected() {
    // let r = &mut s; let f = &mut r.f; *r = v: writing through a reference
    // that is still borrowed.
    let code = FunctionCode {
        code: vec![
            Instruction::BorrowLoc { dest: 1, src: 0 },
            Instruction::BorrowField { field: 0, dest: 2, src: 1 },
            Instruction::WriteRef { ref_dest: 1, val_src: 3 },
            Instruction::Call {
                oper: OperationKind::Function { id: 6 },
                dests: vec![],
                srcs: vec![2],
            },
            Instruction::Ret { srcs: vec![] },
        ],
        locals: vec![val_local(), ref_local(true), ref_local(true), val_local()],
        param_count: 0,
        locs: vec![30, 31, 32, 33, 34],
    };
    let live_ann = LiveVarAnnotation {
        infos: vec![
            live(&[0, 3], &[0, 1, 3]),
            live(&[0, 1, 3], &[1, 2, 3]),
            live(&[1, 2, 3], &[2]),
            live(&[2], &[]),
            live(&[], &[]),
        ],
    };
    let cfg = ControlFlowGraph {
        successors: vec![vec![1], vec![2], vec![3], vec![4], vec![]],
    };
    let (_ann, diags, _reached) = analyze_function(&code, &live_ann, &cfg, false);
    assert!(diags.iter().any(|d| matches!(d.kind, DiagKind::CannotWriteRef { temp: 1 })));
}

#[test]
fn extracting_borrowed_resource_rejected() {
    // let r = &mut borrow_global(R); let v = move_from(R): the resource is
    // still borrowed when extracted.
    let code = FunctionCode {
        code: vec![
            Instruction::BorrowGlobal { resource: 9, dest: 0 },
            Instruction::MoveFrom { dest: 1, resource: 9, src: 2 },
            Instruction::Call {
                oper: OperationKind::Function { id: 6 },
                dests: vec![],
                srcs: vec![0],
            },
            Instruction::Ret { srcs: vec![] },
        ],
        locals: vec![ref_local(true), val_local(), val_local()],
        param_count: 0,
        locs: vec![40, 41, 42, 43],
    };
    let live_ann = LiveVarAnnotation {
        infos: vec![
            live(&[2], &[0, 2]),
            live(&[0, 2], &[0, 1]),
            live(&[0, 1], &[]),
            live(&[], &[]),
        ],
    };
    let cfg = ControlFlowGraph { successors: vec![vec![1], vec![2], vec![3], vec![]] };
    let (_ann, diags, _reached) = analyze_function(&code, &live_ann, &cfg, false);
    assert!(diags.iter().any(
        |d| matches!(d.kind, DiagKind::CannotExtractResource { resource: 9 }),
    ));
}

#[test]
fn mutable_operand_with_remaining_borrow_rejected() {
    // let r = &mut s; let f = &mut r.f; g(r) while f is alive: the mutable
    // operand still has an outgoing borrow.
    let code = FunctionCode {
        code: vec![
            Instruction::BorrowLoc { dest: 1, src: 0 },
            Instruction::BorrowField { field: 0, dest: 2, src: 1 },
            Instruction::Call {
                oper: OperationKind::Function { id: 6 },
                dests: vec![],
                srcs: vec![1],
            },
            Instruction::Call {
                oper: OperationKind::Function { id: 8 },
                dests: vec![],
                srcs: vec![2],
            },
            Instruction::Ret { srcs: vec![] },
        ],
        locals: vec![val_local(), ref_local(true), ref_local(true)],
        param_count: 0,
        locs: vec![50, 51, 52, 53, 54],
    };
    let live_ann = LiveVarAnnotation {
        infos: vec![
            live(&[0], &[0, 1]),
            live(&[0, 1], &[1, 2]),
            live(&[1, 2], &[2]),
            live(&[2], &[]),
            live(&[], &[]),
        ],
    };
    let cfg = ControlFlowGraph {
        successors: vec![vec![1], vec![2], vec![3], vec![4], vec![]],
    };
    let (_ann, diags, _reached) = analyze_function(&code, &live_ann, &cfg, false);
    assert!(diags.iter().any(
        |d| matches!(d.kind, DiagKind::ExclusiveAccessBorrowed { .. }),
    ));
}

#[test]
fn freeze_produces_shareable_reference() {
    // let r = &mut s; let i = freeze(r); g(i, i2) with a second immutable
    // borrow: immutable references coexist.
    let code = FunctionCode {
        code: vec![
            Instruction::BorrowLoc { dest: 1, src: 0 },
            Instruction::FreezeRef { dest: 2, src: 1 },
            Instruction::Call {
                oper: OperationKind::Function { id: 6 },
                dests: vec![],
                srcs: vec![2],
            },
            Instruction::Ret { srcs: vec![] },
        ],
        locals: vec![val_local(), ref_local(true), ref_local(false)],
        param_count: 0,
        locs: vec![60, 61, 62, 63],
    };
    let live_ann = LiveVarAnnotation {
        infos: vec![
            live(&[0], &[0, 1]),
            live(&[0, 1], &[2]),
            live(&[2], &[]),
            live(&[], &[]),
        ],
    };
    let cfg = ControlFlowGraph { successors: vec![vec![1], vec![2], vec![3], vec![]] };
    let (_ann, diags, _reached) = analyze_function(&code, &live_ann, &cfg, false);
    assert_eq!(diags.len(), 0);
}

#[test]
fn call_results_derive_from_reference_arguments() {
    // let r = f(&mut s): the result node hangs under the argument's node, so
    // returning it is fine while deriving conflicts are found later.
    let code = FunctionCode {
        code: vec![
            Instruction::BorrowLoc { dest: 1, src: 0 },
            Instruction::Call {
                oper: OperationKind::Function { id: 6 },
                dests: vec![2],
                srcs: vec![1],
            },
            Instruction::Call {
                oper: OperationKind::Function { id: 8 },
                dests: vec![],
                srcs: vec![2],
            },
            Instruction::Ret { srcs: vec![] },
        ],
        locals: vec![val_local(), ref_local(true), ref_local(true)],
        param_count: 0,
        locs: vec![70, 71, 72, 73],
    };
    let live_ann = LiveVarAnnotation {
        infos: vec![
            live(&[0], &[0, 1]),
            live(&[0, 1], &[2]),
            live(&[2], &[]),
            live(&[], &[]),
        ],
    };
    let cfg = ControlFlowGraph { successors: vec![vec![1], vec![2], vec![3], vec![]] };
    let (ann, diags, reached) = analyze_function(&code, &live_ann, &cfg, false);
    assert!(reached);
    assert_eq!(diags.len(), 0);
    // After the call the result is bound and the argument's binding is gone
    // with its liveness.
    assert!(ann.infos[1].after.label_for_temp(2).is_some());
    assert_eq!(ann.infos[1].after.label_for_temp(1), None);
}
