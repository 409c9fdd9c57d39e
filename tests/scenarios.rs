use lockcheck::error::AnalysisError;
use lockcheck::ir::{BasicBlockData, Body, CallArg, Function, GenericArg, Operand, Program, Rvalue, Span, Statement, Terminator, Ty};
use lockcheck::pass::{run_passes, AnalysisPass, AnalysisPassTarget};
use lockcheck::registry::ClassCounter;
use lockcheck::status::ErrorStatus;

const MUTEX: u64 = 100;
const LOCK_METHOD: u64 = 200;

fn target() -> AnalysisPassTarget {
    AnalysisPassTarget { lock: MUTEX, lock_constructor: 201, lock_method: LOCK_METHOD, guard: 101 }
}

fn span(lo: u64) -> Span {
    Span { lo, hi: lo + 5 }
}

fn mutex_ref(data: u64) -> Ty {
    Ty::Ref(Box::new(Ty::Adt { def: MUTEX, args: vec![GenericArg::Type(data)] }))
}

fn block(statements: Vec<Statement>, terminator: Terminator) -> BasicBlockData {
    BasicBlockData { statements, terminator }
}

fn item(name: &str, def_id: u64, blocks: Vec<BasicBlockData>, num_locals: usize) -> Function {
    Function { def_id, name: name.to_string(), is_fn_item: true, body: Some(Body { blocks, num_locals }) }
}

/// The lock method (index 0), `drop` (index 1) and `Result::unwrap` (index 2).
fn library() -> Vec<Function> {
    let lock = Function { def_id: LOCK_METHOD, name: "lock".to_string(), is_fn_item: false, body: None };
    let drop_fn = Function {
        def_id: 300,
        name: "drop".to_string(),
        is_fn_item: false,
        body: Some(Body {
            blocks: vec![
                block(vec![], Terminator::Drop { place: 1, target: 1, unwind: None }),
                block(vec![], Terminator::Return),
            ],
            num_locals: 2,
        }),
    };
    let unwrap = Function {
        def_id: 301,
        name: "unwrap".to_string(),
        is_fn_item: false,
        body: Some(Body {
            blocks: vec![block(
                vec![Statement::Assign { dest: 0, value: Rvalue::Use(Operand::Move(1)) }],
                Terminator::Return,
            )],
            num_locals: 2,
        }),
    };
    vec![lock, drop_fn, unwrap]
}

const LOCK: usize = 0;
const DROP: usize = 1;
const UNWRAP: usize = 2;

/// `destination = lock(&mutex)`, with the reference to the mutex in `arg`.
fn lock_call(data: u64, arg: usize, destination: usize, target: usize, at: u64) -> Terminator {
    Terminator::Call {
        callee: Some(LOCK),
        args: vec![CallArg { operand: Operand::Move(arg), ty: mutex_ref(data) }],
        destination,
        target: Some(target),
        unwind: None,
        span: span(at),
    }
}

fn call(callee: usize, moved: usize, destination: usize, target: usize) -> Terminator {
    Terminator::Call {
        callee: Some(callee),
        args: vec![CallArg { operand: Operand::Move(moved), ty: Ty::Other }],
        destination,
        target: Some(target),
        unwind: None,
        span: span(0),
    }
}

fn run(fns: Vec<Function>) -> (Result<ErrorStatus, AnalysisError>, Vec<(u64, u64, u64, u64)>) {
    let program = Program { fns };
    let mut pass = AnalysisPass::new(target());
    let mut counter = ClassCounter::new();
    let status = pass.run_pass(&program, &mut counter);
    let found = pass
        .diagnostics()
        .iter()
        .map(|e| (e.parent_invocation.span.lo, e.child_invocation.span.lo, e.parent_invocation.ty, e.child_invocation.ty))
        .collect();
    (status, found)
}

/// Locks the mutex holding `data` twice in sequence; with `drop_between`,
/// the first guard is passed to `drop` before the second lock.
fn lock_twice(data: u64, drop_between: bool) -> Function {
    let mut blocks = vec![lock_call(data, 3, 2, 1, 10)].into_iter().map(|t| block(vec![], t)).collect::<Vec<_>>();
    if drop_between {
        blocks.push(block(vec![], call(DROP, 2, 5, 2)));
        blocks.push(block(vec![], lock_call(data, 3, 4, 3, 30)));
        blocks.push(block(vec![], Terminator::Drop { place: 4, target: 4, unwind: None }));
        blocks.push(block(vec![], Terminator::Return));
    } else {
        blocks.push(block(vec![], lock_call(data, 3, 4, 2, 30)));
        blocks.push(block(vec![], Terminator::Drop { place: 4, target: 3, unwind: None }));
        blocks.push(block(vec![], Terminator::Drop { place: 2, target: 4, unwind: None }));
        blocks.push(block(vec![], Terminator::Return));
    }
    item("twice", 1, blocks, 6)
}

#[test]
fn single_lock_is_ok() {
    let mut fns = library();
    fns.push(item(
        "okay1",
        1,
        vec![
            block(vec![], lock_call(7, 3, 2, 1, 10)),
            block(vec![], Terminator::Drop { place: 2, target: 2, unwind: None }),
            block(vec![], Terminator::Return),
        ],
        4,
    ));
    let (status, found) = run(fns);
    assert_eq!(status, Ok(ErrorStatus::NoDeadlock));
    assert!(found.is_empty());
}

#[test]
fn relock_same_class_is_deadlock() {
    let mut fns = library();
    fns.push(lock_twice(7, false));
    let (status, found) = run(fns);
    assert_eq!(status, Ok(ErrorStatus::DeadlockDetected));
    assert_eq!(found, vec![(10, 30, 7, 7)]);
}

#[test]
fn drop_before_relock_is_ok() {
    let mut fns = library();
    fns.push(lock_twice(7, true));
    let (status, found) = run(fns);
    assert_eq!(status, Ok(ErrorStatus::NoDeadlock));
    assert!(found.is_empty());
}

#[test]
fn relock_in_branch_is_deadlock() {
    let mut fns = library();
    fns.push(item(
        "deadlock3",
        1,
        vec![
            block(vec![], lock_call(7, 3, 2, 1, 10)),
            block(vec![], Terminator::SwitchInt { targets: vec![2], otherwise: 4 }),
            block(vec![], lock_call(7, 5, 4, 3, 30)),
            block(vec![], Terminator::Drop { place: 4, target: 4, unwind: None }),
            block(vec![], Terminator::Drop { place: 2, target: 5, unwind: None }),
            block(vec![], Terminator::Return),
        ],
        6,
    ));
    let (status, found) = run(fns);
    assert_eq!(status, Ok(ErrorStatus::DeadlockDetected));
    assert_eq!(found, vec![(10, 30, 7, 7)]);
}

/// Locks `first` then `second` while holding the first guard.
fn lock_pair(name: &str, first: u64, second: u64, at: u64) -> Function {
    item(
        name,
        1,
        vec![
            block(vec![], lock_call(first, 3, 2, 1, at)),
            block(vec![], lock_call(second, 5, 4, 2, at + 10)),
            block(vec![], Terminator::Drop { place: 4, target: 3, unwind: None }),
            block(vec![], Terminator::Drop { place: 2, target: 4, unwind: None }),
            block(vec![], Terminator::Return),
        ],
        6,
    )
}

#[test]
fn opposite_order_in_two_functions_is_deadlock() {
    let mut fns = library();
    fns.push(lock_pair("ab", 7, 8, 100));
    fns.push(lock_pair("ba", 8, 7, 200));
    let (status, found) = run(fns);
    assert_eq!(status, Ok(ErrorStatus::DeadlockDetected));
    assert_eq!(found, vec![(100, 110, 7, 8), (200, 210, 8, 7)]);
}

#[test]
fn same_order_in_two_functions_is_ok() {
    let mut fns = library();
    fns.push(lock_pair("ab", 7, 8, 100));
    fns.push(lock_pair("ab2", 7, 8, 200));
    let (status, found) = run(fns);
    assert_eq!(status, Ok(ErrorStatus::NoDeadlock));
    assert!(found.is_empty());
}

#[test]
fn three_function_cycle_reports_each_edge() {
    let mut fns = library();
    fns.push(lock_pair("deadlock16a", 7, 8, 100));
    fns.push(lock_pair("deadlock16b", 8, 9, 200));
    fns.push(lock_pair("deadlock16c", 9, 7, 300));
    let (status, found) = run(fns);
    assert_eq!(status, Ok(ErrorStatus::DeadlockDetected));
    assert_eq!(found, vec![(100, 110, 7, 8), (200, 210, 8, 9), (300, 310, 9, 7)]);
}

/// `return_guard` hands its guard back; `drop_guard` drops it.
fn guard_helpers() -> Vec<Function> {
    let return_guard = item(
        "return_guard",
        2,
        vec![block(vec![Statement::Assign { dest: 0, value: Rvalue::Use(Operand::Move(1)) }], Terminator::Return)],
        2,
    );
    let drop_guard = item(
        "drop_guard",
        3,
        vec![
            block(vec![], Terminator::Drop { place: 1, target: 1, unwind: None }),
            block(vec![], Terminator::Return),
        ],
        2,
    );
    vec![return_guard, drop_guard]
}

/// Locks, passes the guard to `helper`, then locks again.
fn pass_guard_then_relock(helper: usize) -> Function {
    item(
        "test",
        1,
        vec![
            block(vec![], lock_call(7, 3, 2, 1, 10)),
            block(vec![], call(helper, 2, 4, 2)),
            block(vec![], lock_call(7, 3, 5, 3, 30)),
            block(vec![], Terminator::Drop { place: 5, target: 4, unwind: None }),
            block(vec![], Terminator::Drop { place: 4, target: 5, unwind: None }),
            block(vec![], Terminator::Return),
        ],
        6,
    )
}

#[test]
fn guard_returned_by_callee_stays_live() {
    let mut fns = library();
    fns.extend(guard_helpers());
    fns.push(pass_guard_then_relock(3));
    let (status, found) = run(fns);
    assert_eq!(status, Ok(ErrorStatus::DeadlockDetected));
    assert_eq!(found, vec![(10, 30, 7, 7)]);
}

#[test]
fn guard_dropped_by_callee_is_released() {
    let mut fns = library();
    fns.extend(guard_helpers());
    fns.push(pass_guard_then_relock(4));
    let (status, found) = run(fns);
    assert_eq!(status, Ok(ErrorStatus::NoDeadlock));
    assert!(found.is_empty());
}

#[test]
fn unwrapped_guard_result_is_followed() {
    let mut fns = library();
    fns.push(item(
        "deadlock10",
        1,
        vec![
            block(vec![], lock_call(7, 3, 2, 1, 10)),
            block(vec![], call(UNWRAP, 2, 4, 2)),
            block(vec![], lock_call(7, 3, 5, 3, 30)),
            block(vec![], Terminator::Drop { place: 5, target: 4, unwind: None }),
            block(vec![], Terminator::Drop { place: 4, target: 5, unwind: None }),
            block(vec![], Terminator::Return),
        ],
        6,
    ));
    let (status, found) = run(fns);
    assert_eq!(status, Ok(ErrorStatus::DeadlockDetected));
    assert_eq!(found, vec![(10, 30, 7, 7)]);
}

#[test]
fn guard_moved_into_aggregate_stays_live() {
    let mut fns = library();
    fns.push(item(
        "deadlock9",
        1,
        vec![
            block(vec![], lock_call(7, 3, 2, 1, 10)),
            block(
                vec![Statement::Assign { dest: 4, value: Rvalue::Aggregate(vec![Operand::Constant, Operand::Move(2)]) }],
                lock_call(7, 3, 5, 2, 30),
            ),
            block(vec![], Terminator::Drop { place: 5, target: 3, unwind: None }),
            block(vec![], Terminator::Drop { place: 4, target: 4, unwind: None }),
            block(vec![], Terminator::Return),
        ],
        6,
    ));
    let (status, found) = run(fns);
    assert_eq!(status, Ok(ErrorStatus::DeadlockDetected));
    assert_eq!(found, vec![(10, 30, 7, 7)]);
}

#[test]
fn aggregate_dropped_before_relock_is_ok() {
    let mut fns = library();
    fns.push(item(
        "okay9",
        1,
        vec![
            block(vec![], lock_call(7, 3, 2, 1, 10)),
            block(
                vec![Statement::Assign { dest: 4, value: Rvalue::Aggregate(vec![Operand::Move(2)]) }],
                call(DROP, 4, 6, 2),
            ),
            block(vec![], lock_call(7, 3, 5, 3, 30)),
            block(vec![], Terminator::Drop { place: 5, target: 4, unwind: None }),
            block(vec![], Terminator::Return),
        ],
        7,
    ));
    let (status, found) = run(fns);
    assert_eq!(status, Ok(ErrorStatus::NoDeadlock));
    assert!(found.is_empty());
}

#[test]
fn locks_inside_closure_are_not_detected() {
    let mut fns = library();
    let mut closure = lock_twice(7, false);
    closure.is_fn_item = false;
    fns.push(closure);
    fns.push(item(
        "deadlock12",
        2,
        vec![
            block(
                vec![],
                Terminator::Call { callee: None, args: vec![], destination: 1, target: Some(1), unwind: None, span: span(0) },
            ),
            block(vec![], Terminator::Return),
        ],
        2,
    ));
    let (status, found) = run(fns);
    assert_eq!(status, Ok(ErrorStatus::NoDeadlock));
    assert!(found.is_empty());
}

#[test]
fn recursion_while_holding_lock_is_self_cycle() {
    let mut fns = library();
    // fn deadlock15(mutex) { let guard = mutex.lock(); deadlock15(mutex); }
    fns.push(item(
        "deadlock15",
        1,
        vec![
            block(vec![], lock_call(7, 1, 2, 1, 10)),
            block(
                vec![],
                Terminator::Call {
                    callee: Some(3),
                    args: vec![CallArg { operand: Operand::Copy(1), ty: mutex_ref(7) }],
                    destination: 3,
                    target: Some(2),
                    unwind: None,
                    span: span(20),
                },
            ),
            block(vec![], Terminator::Drop { place: 2, target: 3, unwind: None }),
            block(vec![], Terminator::Return),
        ],
        4,
    ));
    let (status, found) = run(fns);
    assert_eq!(status, Ok(ErrorStatus::DeadlockDetected));
    assert_eq!(found, vec![(10, 10, 7, 7)]);
}

#[test]
fn loop_with_scoped_guard_terminates_ok() {
    let mut fns = library();
    fns.push(item(
        "okay7",
        1,
        vec![
            block(vec![], Terminator::Goto { target: 1 }),
            block(vec![], lock_call(7, 3, 2, 2, 10)),
            block(vec![], Terminator::Drop { place: 2, target: 1, unwind: None }),
        ],
        4,
    ));
    let (status, found) = run(fns);
    assert_eq!(status, Ok(ErrorStatus::NoDeadlock));
    assert!(found.is_empty());
}

#[test]
fn running_twice_gives_same_findings() {
    let mut fns = library();
    fns.push(lock_pair("ab", 7, 8, 100));
    fns.push(lock_pair("ba", 8, 7, 200));
    let program = Program { fns };
    let mut counter = ClassCounter::new();
    let mut first = AnalysisPass::new(target());
    let s1 = first.run_pass(&program, &mut counter);
    let mut second = AnalysisPass::new(target());
    let s2 = second.run_pass(&program, &mut counter);
    assert_eq!(s1, s2);
    assert_eq!(first.diagnostics(), second.diagnostics());
    assert_eq!(counter.next, 4);
}

#[test]
fn lock_with_two_type_parameters_is_refused() {
    let mut fns = library();
    let bad = Ty::Adt { def: MUTEX, args: vec![GenericArg::Type(7), GenericArg::Type(8)] };
    fns.push(item(
        "bad",
        1,
        vec![
            block(
                vec![],
                Terminator::Call {
                    callee: Some(LOCK),
                    args: vec![CallArg { operand: Operand::Move(3), ty: bad }],
                    destination: 2,
                    target: Some(1),
                    unwind: None,
                    span: span(10),
                },
            ),
            block(vec![], Terminator::Return),
        ],
        4,
    ));
    let (status, _) = run(fns);
    assert_eq!(status, Err(AnalysisError::LockArity));
}

#[test]
fn lock_with_lifetime_parameter_is_refused() {
    let mut fns = library();
    let bad = Ty::Adt { def: MUTEX, args: vec![GenericArg::Lifetime] };
    fns.push(item(
        "bad",
        1,
        vec![
            block(
                vec![],
                Terminator::Call {
                    callee: Some(LOCK),
                    args: vec![CallArg { operand: Operand::Move(3), ty: bad }],
                    destination: 2,
                    target: Some(1),
                    unwind: None,
                    span: span(10),
                },
            ),
            block(vec![], Terminator::Return),
        ],
        4,
    ));
    let (status, _) = run(fns);
    assert_eq!(status, Err(AnalysisError::LockArgNotType));
}

fn after_lock(second: BasicBlockData) -> Result<ErrorStatus, AnalysisError> {
    let mut fns = library();
    fns.push(item("f", 1, vec![block(vec![], lock_call(7, 3, 2, 1, 10)), second, block(vec![], Terminator::Return)], 6));
    run(fns).0
}

#[test]
fn guard_copy_is_refused() {
    let s = block(vec![Statement::Assign { dest: 4, value: Rvalue::Use(Operand::Copy(2)) }], Terminator::Return);
    assert_eq!(after_lock(s), Err(AnalysisError::GuardCopied));
}

#[test]
fn guard_storage_dead_is_refused() {
    let s = block(vec![Statement::StorageDead(2)], Terminator::Return);
    assert_eq!(after_lock(s), Err(AnalysisError::InvalidStorageDead));
}

#[test]
fn return_with_live_guard_is_refused() {
    let s = block(vec![], Terminator::Return);
    assert_eq!(after_lock(s), Err(AnalysisError::ReturnWithoutDrop));
}

#[test]
fn guard_overwritten_by_call_is_refused() {
    let s = block(vec![], call(DROP, 3, 2, 2));
    assert_eq!(after_lock(s), Err(AnalysisError::GuardOverwritten));
}

#[test]
fn generator_terminator_is_refused() {
    let s = block(vec![], Terminator::GeneratorDrop);
    assert_eq!(after_lock(s), Err(AnalysisError::UnsupportedTerminator));
}

#[test]
fn unwind_ends_the_walk() {
    let s = block(vec![], Terminator::UnwindResume);
    assert_eq!(after_lock(s), Ok(ErrorStatus::NoDeadlock));
}

#[test]
fn diverging_lock_call_is_refused() {
    let mut fns = library();
    fns.push(item(
        "f",
        1,
        vec![block(
            vec![],
            Terminator::Call {
                callee: Some(LOCK),
                args: vec![CallArg { operand: Operand::Move(3), ty: mutex_ref(7) }],
                destination: 2,
                target: None,
                unwind: None,
                span: span(10),
            },
        )],
        4,
    ));
    assert_eq!(run(fns).0, Err(AnalysisError::LockCallDiverges));
}

#[test]
fn class_counter_exhaustion_is_reported() {
    let mut fns = library();
    fns.push(lock_twice(7, false));
    let program = Program { fns };
    let mut pass = AnalysisPass::new(target());
    let mut counter = ClassCounter { next: u64::MAX };
    assert_eq!(pass.run_pass(&program, &mut counter), Err(AnalysisError::ClassIdsExhausted));
}

/// `inner` locks the mutex of data 8 (index 3); the caller holds data 7's
/// lock while calling it, drops it, then locks `second` and `third`.
fn lock_in_callee(second: u64, third: u64) -> Vec<Function> {
    let mut fns = library();
    fns.push(item(
        "inner",
        2,
        vec![
            block(vec![], lock_call(8, 1, 2, 1, 100)),
            block(vec![], Terminator::Drop { place: 2, target: 2, unwind: None }),
            block(vec![], Terminator::Return),
        ],
        3,
    ));
    fns.push(item(
        "caller",
        3,
        vec![
            block(vec![], lock_call(7, 3, 2, 1, 10)),
            block(
                vec![],
                Terminator::Call {
                    callee: Some(3),
                    args: vec![CallArg { operand: Operand::Move(5), ty: mutex_ref(8) }],
                    destination: 6,
                    target: Some(2),
                    unwind: None,
                    span: span(20),
                },
            ),
            block(vec![], call(DROP, 2, 4, 3)),
            block(vec![], lock_call(second, 7, 8, 4, 30)),
            block(vec![], lock_call(third, 3, 9, 5, 40)),
            block(vec![], Terminator::Drop { place: 9, target: 6, unwind: None }),
            block(vec![], Terminator::Drop { place: 8, target: 7, unwind: None }),
            block(vec![], Terminator::Return),
        ],
        10,
    ));
    fns
}

#[test]
fn lock_taken_in_callee_counts_as_child() {
    let (status, found) = run(lock_in_callee(8, 7));
    assert_eq!(status, Ok(ErrorStatus::DeadlockDetected));
    assert_eq!(found, vec![(30, 40, 8, 7), (10, 100, 7, 8)]);
}

#[test]
fn same_order_through_callee_is_ok() {
    let (status, found) = run(lock_in_callee(7, 8));
    assert_eq!(status, Ok(ErrorStatus::NoDeadlock));
    assert!(found.is_empty());
}

#[test]
fn children_are_recorded_invocations() {
    let program = Program { fns: lock_in_callee(8, 7) };
    let mut pass = AnalysisPass::new(target());
    let mut counter = ClassCounter::new();
    pass.run_pass(&program, &mut counter).unwrap();
    let invocations = pass.invocation_list();
    let keys: Vec<_> = invocations.iter().map(|i| i.bbid).collect();
    assert_eq!(invocations.len(), 4);
    let mut with_children = 0;
    for inv in invocations.iter() {
        for child in inv.child_invocations.iter() {
            assert!(keys.contains(child));
        }
        if !inv.child_invocations.is_empty() {
            with_children += 1;
        }
    }
    assert_eq!(with_children, 2);
}

#[test]
fn any_pass_with_a_finding_makes_a_deadlock() {
    let mut fns = library();
    fns.push(lock_twice(7, false));
    let program = Program { fns };
    let other = AnalysisPassTarget { lock: 999, lock_constructor: 201, lock_method: LOCK_METHOD, guard: 101 };
    let mut counter = ClassCounter::new();
    let (status, passes) = run_passes(&vec![other, target()], &program, &mut counter);
    assert_eq!(status, Ok(ErrorStatus::DeadlockDetected));
    assert_eq!(passes.len(), 2);
    assert!(passes[0].diagnostics().is_empty());
    assert_eq!(passes[1].diagnostics().len(), 1);
    let (status, _) = run_passes(&vec![other], &program, &mut counter);
    assert_eq!(status, Ok(ErrorStatus::NoDeadlock));
}

#[test]
fn locks_in_transitively_called_functions_are_children() {
    let mut fns = library();
    // leaf (3) locks data 8; middle (4) calls leaf; top (5) holds data 7 and calls middle
    fns.push(item(
        "leaf",
        2,
        vec![
            block(vec![], lock_call(8, 1, 2, 1, 100)),
            block(vec![], Terminator::Drop { place: 2, target: 2, unwind: None }),
            block(vec![], Terminator::Return),
        ],
        3,
    ));
    fns.push(item("middle", 3, vec![block(vec![], call(3, 1, 2, 1)), block(vec![], Terminator::Return)], 3));
    fns.push(item(
        "top",
        4,
        vec![
            block(vec![], lock_call(7, 3, 2, 1, 10)),
            block(vec![], call(4, 5, 6, 2)),
            block(vec![], Terminator::Drop { place: 2, target: 3, unwind: None }),
            block(vec![], Terminator::Return),
        ],
        7,
    ));
    // and elsewhere data 8 is held while data 7 is locked
    fns.push(lock_pair("reverse", 8, 7, 200));
    let (status, found) = run(fns);
    assert_eq!(status, Ok(ErrorStatus::DeadlockDetected));
    assert_eq!(found, vec![(10, 100, 7, 8), (200, 210, 8, 7)]);
}
