use lockcheck::config::{generate_lock_filler, Config, LockCheckTarget, LOCK_FILLER_FN_NAME};
use lockcheck::error::AnalysisError;
use lockcheck::errors::{Errors, InvocationErrorInfo};
use lockcheck::graph::reach_from;
use lockcheck::invocation::{FunctionReturnMap, ReturnLocation};
use lockcheck::ir::{BasicBlockData, Bbid, Body, CallArg, Operand, Rvalue, Span, Statement, Terminator, Ty};
use lockcheck::pass::{dependancies_contain, run_passes, AnalysisPassTarget};
use lockcheck::registry::{ClassCounter, LockClass, LockClassTyMap};
use lockcheck::shim::{parse_passes_from_hir, HirExpr, HirItem, HirItemKind, HirStmt, HirTy};
use lockcheck::status::ErrorStatus;
use lockcheck::transfer::{calculate_new_local_after_statement, guard_arg_local, local_after_block_statements};

#[test]
fn error_status_join_and_emitted() {
    assert_eq!(ErrorStatus::NoDeadlock.join(ErrorStatus::NoDeadlock), ErrorStatus::NoDeadlock);
    assert_eq!(ErrorStatus::NoDeadlock.join(ErrorStatus::DeadlockDetected), ErrorStatus::DeadlockDetected);
    assert_eq!(ErrorStatus::DeadlockDetected.join(ErrorStatus::NoDeadlock), ErrorStatus::DeadlockDetected);
    assert!(ErrorStatus::DeadlockDetected.error_emitted());
    assert!(!ErrorStatus::NoDeadlock.error_emitted());
}

#[test]
fn move_carries_guard_to_target() {
    let s = Statement::Assign { dest: 5, value: Rvalue::Use(Operand::Move(2)) };
    assert_eq!(calculate_new_local_after_statement(&s, 2), Ok(5));
    assert_eq!(calculate_new_local_after_statement(&s, 3), Ok(3));
}

#[test]
fn aggregate_carries_guard_to_target() {
    let s = Statement::Assign { dest: 7, value: Rvalue::Aggregate(vec![Operand::Constant, Operand::Move(1), Operand::Move(2)]) };
    assert_eq!(calculate_new_local_after_statement(&s, 2), Ok(7));
    assert_eq!(calculate_new_local_after_statement(&s, 4), Ok(4));
    let copied = Statement::Assign { dest: 7, value: Rvalue::Aggregate(vec![Operand::Copy(2), Operand::Move(2)]) };
    assert_eq!(calculate_new_local_after_statement(&copied, 2), Err(AnalysisError::GuardCopied));
}

#[test]
fn invalid_statements_on_guard_are_refused() {
    assert_eq!(calculate_new_local_after_statement(&Statement::Deinit(2), 2), Err(AnalysisError::InvalidDeinit));
    assert_eq!(calculate_new_local_after_statement(&Statement::StorageLive(2), 2), Err(AnalysisError::InvalidStorageLive));
    assert_eq!(calculate_new_local_after_statement(&Statement::StorageDead(2), 2), Err(AnalysisError::InvalidStorageDead));
    assert_eq!(calculate_new_local_after_statement(&Statement::StorageDead(3), 2), Ok(2));
    assert_eq!(calculate_new_local_after_statement(&Statement::Other, 2), Ok(2));
}

#[test]
fn statements_fold_in_order() {
    let ss = vec![
        Statement::Assign { dest: 3, value: Rvalue::Use(Operand::Move(1)) },
        Statement::Assign { dest: 4, value: Rvalue::Use(Operand::Move(3)) },
        Statement::Assign { dest: 6, value: Rvalue::Other },
    ];
    assert_eq!(local_after_block_statements(&ss, 1), Ok(4));
}

#[test]
fn guard_argument_slot_is_one_based() {
    let args = vec![
        CallArg { operand: Operand::Constant, ty: Ty::Other },
        CallArg { operand: Operand::Move(4), ty: Ty::Other },
        CallArg { operand: Operand::Move(2), ty: Ty::Other },
    ];
    assert_eq!(guard_arg_local(&args, 2), Ok(Some(3)));
    assert_eq!(guard_arg_local(&args, 9), Ok(None));
    let copy = vec![CallArg { operand: Operand::Copy(2), ty: Ty::Other }];
    assert_eq!(guard_arg_local(&copy, 2), Err(AnalysisError::GuardCopied));
}

#[test]
fn reachability_follows_edges() {
    let g = vec![vec![1], vec![2], vec![], vec![0], vec![9]];
    assert_eq!(reach_from(&g, 0), vec![true, true, true, false, false]);
    assert_eq!(reach_from(&g, 3), vec![true, true, true, true, false]);
}

#[test]
fn unreachable_blocks_are_marked() {
    let body = Body {
        blocks: vec![
            BasicBlockData { statements: vec![], terminator: Terminator::Goto { target: 2 } },
            BasicBlockData { statements: vec![], terminator: Terminator::Return },
            BasicBlockData { statements: vec![], terminator: Terminator::Drop { place: 1, target: 3, unwind: Some(4) } },
            BasicBlockData { statements: vec![], terminator: Terminator::Return },
            BasicBlockData { statements: vec![], terminator: Terminator::UnwindResume },
        ],
        num_locals: 2,
    };
    assert_eq!(body.reachable_blocks(), vec![true, false, true, true, true]);
}

#[test]
fn successors_include_unwind_edges() {
    let t = Terminator::Call { callee: None, args: vec![], destination: 0, target: Some(3), unwind: Some(7), span: Span { lo: 0, hi: 0 } };
    assert_eq!(t.successors(), vec![3, 7]);
    let s = Terminator::SwitchInt { targets: vec![1, 2], otherwise: 5 };
    assert_eq!(s.successors(), vec![1, 2, 5]);
    assert!(Terminator::Return.successors().is_empty());
}

#[test]
fn cycle_query_needs_at_least_one_edge() {
    // 0 -> 1 -> 2 -> 0, 3 -> 3, 4 alone
    let g = vec![vec![1], vec![2], vec![0], vec![3], vec![]];
    assert!(dependancies_contain(0, 1, &g));
    assert!(dependancies_contain(1, 1, &g));
    assert!(dependancies_contain(3, 3, &g));
    assert!(!dependancies_contain(4, 4, &g));
    assert!(!dependancies_contain(3, 0, &g));
}

#[test]
fn equal_types_get_equal_classes() {
    let mut map = LockClassTyMap::new();
    let mut counter = ClassCounter::new();
    let a = map.get_lock_class(7, &mut counter).unwrap();
    let b = map.get_lock_class(8, &mut counter).unwrap();
    let c = map.get_lock_class(7, &mut counter).unwrap();
    assert_eq!(a, c);
    assert_ne!(a, b);
    assert_eq!(a, LockClass(0));
    assert_eq!(b, LockClass(1));
    assert_eq!(counter.next, 2);
    assert_eq!(map.get_ty(b), Some(8));
    assert_eq!(map.get_ty(LockClass(5)), None);
}

#[test]
fn classes_stay_distinct_across_registries() {
    let mut counter = ClassCounter::new();
    let mut first = LockClassTyMap::new();
    let mut second = LockClassTyMap::new();
    let a = first.get_lock_class(7, &mut counter).unwrap();
    let b = second.get_lock_class(7, &mut counter).unwrap();
    assert_ne!(a, b);
}

#[test]
fn class_counter_refuses_overflow() {
    let mut counter = ClassCounter { next: u64::MAX };
    assert_eq!(LockClass::new(&mut counter), Err(AnalysisError::ClassIdsExhausted));
    assert_eq!(counter.next, u64::MAX);
}

fn info(lo: u64, ty: u64) -> InvocationErrorInfo {
    InvocationErrorInfo { span: Span { lo, hi: lo + 1 }, ty }
}

#[test]
fn findings_are_sorted_and_deduplicated_by_child_span() {
    let mut errors = Errors::new();
    errors.emit_deadlock_error(info(1, 0), info(50, 0));
    errors.emit_deadlock_error(info(2, 0), info(20, 0));
    errors.emit_deadlock_error(info(3, 0), info(50, 0));
    errors.emit_deadlock_error(info(4, 0), info(30, 0));
    let spans: Vec<(u64, u64)> = errors.diagnostics().iter().map(|e| (e.parent_invocation.span.lo, e.child_invocation.span.lo)).collect();
    assert_eq!(spans, vec![(2, 20), (4, 30), (1, 50)]);
    assert_eq!(errors.emit_all_errors(), ErrorStatus::DeadlockDetected);
    assert_eq!(Errors::new().emit_all_errors(), ErrorStatus::NoDeadlock);
}

#[test]
fn return_locations_are_kept_once() {
    let mut map = FunctionReturnMap::new(3);
    let loc = ReturnLocation { return_bbid: Bbid { func: 0, block: 4 }, return_local: 2 };
    map.insert_return_location(1, loc);
    map.insert_return_location(1, loc);
    assert_eq!(map.iter_return_locations(1), &vec![loc]);
    assert!(map.iter_return_locations(0).is_empty());
}

#[test]
fn bbid_helpers() {
    assert_eq!(Bbid::fn_start(3), Bbid { func: 3, block: 0 });
    assert_eq!(Bbid { func: 3, block: 1 }.with_basic_block(5), Bbid { func: 3, block: 5 });
}

fn one_target() -> LockCheckTarget {
    LockCheckTarget {
        lock: "std::sync::Mutex".to_string(),
        guard: "std::sync::MutexGuard".to_string(),
        constructor: "std::sync::Mutex::new".to_string(),
        lock_method: "std::sync::Mutex::lock".to_string(),
    }
}

#[test]
fn filler_function_text() {
    let text = generate_lock_filler(&Config { locks: vec![one_target()] });
    let expected = "\n#[allow(dead_code)]\nfn __lock_check_resolve() {\n    let lock: std::sync::Mutex<u8> = std::sync::Mutex::new(0);\n    let guard_result = std::sync::Mutex::lock(&lock);\n    let _guard: std::sync::MutexGuard<u8> = guard_result.unwrap();\n}\n";
    assert_eq!(text, expected);
    let empty = generate_lock_filler(&Config { locks: vec![] });
    assert_eq!(empty, format!("\n#[allow(dead_code)]\nfn {}() {{}}\n", LOCK_FILLER_FN_NAME));
}

fn shim_statements(lock: u64, ctor: u64, method: u64, guard: u64) -> Vec<HirStmt> {
    vec![
        HirStmt::Local {
            ty: Some(HirTy::Path(lock)),
            init: Some(HirExpr::Call { callee: Box::new(HirExpr::Path(ctor)) }),
        },
        HirStmt::Local { ty: None, init: Some(HirExpr::Call { callee: Box::new(HirExpr::Path(method)) }) },
        HirStmt::Local { ty: Some(HirTy::Path(guard)), init: Some(HirExpr::Other) },
    ]
}

#[test]
fn shim_statements_give_targets() {
    let mut stmts = shim_statements(1, 2, 3, 4);
    stmts.extend(shim_statements(5, 6, 7, 8));
    stmts.push(HirStmt::Other);
    let items = vec![
        HirItem { name: "main".to_string(), kind: HirItemKind::Other },
        HirItem { name: LOCK_FILLER_FN_NAME.to_string(), kind: HirItemKind::Fn(Some(stmts)) },
    ];
    let targets = parse_passes_from_hir(&items).unwrap();
    assert_eq!(
        targets,
        vec![
            AnalysisPassTarget { lock: 1, lock_constructor: 2, lock_method: 3, guard: 4 },
            AnalysisPassTarget { lock: 5, lock_constructor: 6, lock_method: 7, guard: 8 },
        ]
    );
}

#[test]
fn malformed_shim_is_refused() {
    let mut stmts = shim_statements(1, 2, 3, 4);
    stmts[0] = HirStmt::Local { ty: None, init: None };
    let items = vec![HirItem { name: LOCK_FILLER_FN_NAME.to_string(), kind: HirItemKind::Fn(Some(stmts)) }];
    assert_eq!(parse_passes_from_hir(&items), Err(AnalysisError::InvalidShim));
    let not_fn = vec![HirItem { name: LOCK_FILLER_FN_NAME.to_string(), kind: HirItemKind::Other }];
    assert_eq!(parse_passes_from_hir(&not_fn), Err(AnalysisError::InvalidShim));
}

#[test]
fn no_targets_means_no_deadlock() {
    let program = lockcheck::ir::Program { fns: vec![] };
    let mut counter = ClassCounter::new();
    let (status, passes) = run_passes(&vec![], &program, &mut counter);
    assert_eq!(status, Ok(ErrorStatus::NoDeadlock));
    assert!(passes.is_empty());
}
