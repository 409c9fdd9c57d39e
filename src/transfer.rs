//! Which local slot holds the guard after a statement or a call.
use vstd::prelude::*;
use crate::error::{is_walk_error, AnalysisError};
use crate::ir::{CallArg, Local, Operand, Rvalue, Statement};

verus! {

/// Where the guard is after an operand that may move it into `dest`:
/// a move of `cur` puts it in `dest`, a copy of `cur` is refused, and any
/// other operand leaves it in `cur`. `None` when the operand does not touch it.
pub open spec fn operand_transfer(op: Operand, cur: Local, dest: Local) -> Option<Result<Local, AnalysisError>> {
    match op {
        Operand::Copy(l) => if l == cur {
            Some(Err(AnalysisError::GuardCopied))
        } else {
            None
        },
        Operand::Move(l) => if l == cur {
            Some(Ok(dest))
        } else {
            None
        },
        Operand::Constant => None,
    }
}

/// The first operand of an aggregate that touches the guard decides where it goes.
pub open spec fn aggregate_transfer(ops: Seq<Operand>, cur: Local, dest: Local) -> Result<Local, AnalysisError>
    decreases ops.len(),
{
    if ops.len() == 0 {
        Ok(cur)
    } else {
        match operand_transfer(ops[0], cur, dest) {
            Some(r) => r,
            None => aggregate_transfer(ops.drop_first(), cur, dest),
        }
    }
}

/// The slot that holds the guard after `s`, when it was in `cur` before.
pub open spec fn local_after_statement(s: Statement, cur: Local) -> Result<Local, AnalysisError> {
    match s {
        Statement::Assign { dest, value } => match value {
            Rvalue::Use(op) => match operand_transfer(op, cur, dest) {
                Some(r) => r,
                None => Ok(cur),
            },
            Rvalue::Aggregate(ops) => aggregate_transfer(ops@, cur, dest),
            Rvalue::Other => Ok(cur),
        },
        Statement::Deinit(l) => if l == cur {
            Err(AnalysisError::InvalidDeinit)
        } else {
            Ok(cur)
        },
        Statement::StorageLive(l) => if l == cur {
            Err(AnalysisError::InvalidStorageLive)
        } else {
            Ok(cur)
        },
        Statement::StorageDead(l) => if l == cur {
            Err(AnalysisError::InvalidStorageDead)
        } else {
            Ok(cur)
        },
        Statement::Other => Ok(cur),
    }
}

/// The slot that holds the guard after running `ss` in order.
pub open spec fn local_after_statements(ss: Seq<Statement>, cur: Local) -> Result<Local, AnalysisError>
    decreases ss.len(),
{
    if ss.len() == 0 {
        Ok(cur)
    } else {
        match local_after_statement(ss[0], cur) {
            Ok(next) => local_after_statements(ss.drop_first(), next),
            Err(e) => Err(e),
        }
    }
}

fn operand_transfer_exec(op: &Operand, cur: Local, dest: Local) -> (r: Option<Result<Local, AnalysisError>>)
    ensures
        r == operand_transfer(*op, cur, dest),
        r matches Some(Err(e)) ==> e == AnalysisError::GuardCopied,
{
    match op {
        Operand::Copy(l) => if *l == cur {
            Some(Err(AnalysisError::GuardCopied))
        } else {
            None
        },
        Operand::Move(l) => if *l == cur {
            Some(Ok(dest))
        } else {
            None
        },
        Operand::Constant => None,
    }
}

/// Tracks where the guard is after executing one statement.
///
/// Moves carry the guard to the assigned local, also when it becomes a field
/// of an aggregate; fields read back out of an aggregate are not followed.
pub fn calculate_new_local_after_statement(statement: &Statement, current_local: Local) -> (r: Result<Local, AnalysisError>)
    ensures
        r == local_after_statement(*statement, current_local),
        r is Err ==> is_walk_error(r->Err_0),
{
    match statement {
        Statement::Assign { dest, value } => match value {
            Rvalue::Use(op) => match operand_transfer_exec(op, current_local, *dest) {
                Some(r) => r,
                None => Ok(current_local),
            },
            Rvalue::Aggregate(ops) => {
                let mut i: usize = 0;
                assert(ops@.subrange(0, ops@.len() as int) =~= ops@);
                while i < ops.len()
                    invariant
                        i <= ops@.len(),
                        local_after_statement(*statement, current_local) == aggregate_transfer(
                            ops@,
                            current_local,
                            *dest,
                        ),
                        aggregate_transfer(ops@, current_local, *dest) == aggregate_transfer(
                            ops@.subrange(i as int, ops@.len() as int),
                            current_local,
                            *dest,
                        ),
                    decreases ops@.len() - i,
                {
                    let ghost rest = ops@.subrange(i as int, ops@.len() as int);
                    assert(rest.len() > 0 && rest[0] == ops@[i as int]);
                    assert(rest.drop_first() =~= ops@.subrange(i + 1, ops@.len() as int));
                    if let Some(r) = operand_transfer_exec(&ops[i], current_local, *dest) {
                        assert(operand_transfer(rest[0], current_local, *dest) == Some(r));
                        assert(aggregate_transfer(rest, current_local, *dest) == r);
                        return r;
                    }
                    i = i + 1;
                }
                assert(ops@.subrange(i as int, ops@.len() as int).len() == 0);
                Ok(current_local)
            },
            Rvalue::Other => Ok(current_local),
        },
        Statement::Deinit(l) => if *l == current_local {
            Err(AnalysisError::InvalidDeinit)
        } else {
            Ok(current_local)
        },
        Statement::StorageLive(l) => if *l == current_local {
            Err(AnalysisError::InvalidStorageLive)
        } else {
            Ok(current_local)
        },
        Statement::StorageDead(l) => if *l == current_local {
            Err(AnalysisError::InvalidStorageDead)
        } else {
            Ok(current_local)
        },
        Statement::Other => Ok(current_local),
    }
}

/// Tracks where the guard is after executing every statement of a block.
pub fn local_after_block_statements(statements: &Vec<Statement>, current_local: Local) -> (r: Result<Local, AnalysisError>)
    ensures
        r == local_after_statements(statements@, current_local),
        r is Err ==> is_walk_error(r->Err_0),
{
    let mut cur = current_local;
    let mut i: usize = 0;
    assert(statements@.subrange(0, statements@.len() as int) =~= statements@);
    while i < statements.len()
        invariant
            i <= statements@.len(),
            local_after_statements(statements@, current_local) == local_after_statements(
                statements@.subrange(i as int, statements@.len() as int),
                cur,
            ),
        decreases statements@.len() - i,
    {
        let ghost rest = statements@.subrange(i as int, statements@.len() as int);
        assert(rest[0] == statements@[i as int]);
        assert(rest.drop_first() =~= statements@.subrange(i + 1, statements@.len() as int));
        cur = calculate_new_local_after_statement(&statements[i], cur)?;
        i = i + 1;
    }
    assert(statements@.subrange(i as int, statements@.len() as int).len() == 0);
    Ok(cur)
}

/// Slot in the callee that receives the guard: `k + 1` for the first argument
/// `k` (counting from `offset`) that moves `cur`. A copy of `cur` met first is refused.
pub open spec fn guard_arg_from(args: Seq<CallArg>, cur: Local, offset: int) -> Result<Option<int>, AnalysisError>
    decreases args.len(),
{
    if args.len() == 0 {
        Ok(None)
    } else {
        match args[0].operand {
            Operand::Move(l) if l == cur => Ok(Some(offset + 1)),
            Operand::Copy(l) if l == cur => Err(AnalysisError::GuardCopied),
            _ => guard_arg_from(args.drop_first(), cur, offset + 1),
        }
    }
}

/// The callee slot that receives the guard when it is moved into a call.
pub fn guard_arg_local(args: &Vec<CallArg>, current_local: Local) -> (r: Result<Option<Local>, AnalysisError>)
    ensures
        match guard_arg_from(args@, current_local, 0) {
            Ok(Some(k)) => r == Ok::<Option<Local>, AnalysisError>(Some(k as Local)),
            Ok(None) => r == Ok::<Option<Local>, AnalysisError>(None),
            Err(e) => r == Err::<Option<Local>, AnalysisError>(e),
        },
        r is Err ==> r->Err_0 == AnalysisError::GuardCopied,
        r matches Ok(Some(a)) ==> guard_arg_from(args@, current_local, 0) == Ok::<Option<int>, AnalysisError>(Some(a as int)),
{
    let mut i: usize = 0;
    assert(args@.subrange(0, args@.len() as int) =~= args@);
    while i < args.len()
        invariant
            i <= args@.len(),
            guard_arg_from(args@, current_local, 0) == guard_arg_from(
                args@.subrange(i as int, args@.len() as int),
                current_local,
                i as int,
            ),
        decreases args@.len() - i,
    {
        let ghost rest = args@.subrange(i as int, args@.len() as int);
        assert(rest[0] == args@[i as int]);
        assert(rest.drop_first() =~= args@.subrange(i + 1, args@.len() as int));
        match args[i].operand {
            Operand::Move(l) => if l == current_local {
                return Ok(Some(i + 1));
            },
            Operand::Copy(l) => if l == current_local {
                return Err(AnalysisError::GuardCopied);
            },
            Operand::Constant => {},
        }
        i = i + 1;
    }
    assert(args@.subrange(i as int, args@.len() as int).len() == 0);
    Ok(None)
}

} // verus!
