//! Reading the resolved lock definitions back from the generated
//! name-resolution function.
use vstd::prelude::*;
use crate::config::LOCK_FILLER_FN_NAME;
use crate::error::AnalysisError;
use crate::ir::DefId;
use crate::pass::AnalysisPassTarget;

verus! {

/// A written type, as far as the shim reader needs it.
#[derive(Debug)]
pub enum HirTy {
    /// A path that resolved to a definition.
    Path(DefId),
    Other,
}

/// An expression, as far as the shim reader needs it.
#[derive(Debug)]
pub enum HirExpr {
    Call { callee: Box<HirExpr> },
    /// A path that resolved to a definition.
    Path(DefId),
    Other,
}

/// A statement of a function body.
#[derive(Debug)]
pub enum HirStmt {
    /// `let pat: ty = init;`
    Local { ty: Option<HirTy>, init: Option<HirExpr> },
    Other,
}

/// What an item is.
#[derive(Debug)]
pub enum HirItemKind {
    /// A function; `None` when its body is not a block.
    Fn(Option<Vec<HirStmt>>),
    Other,
}

/// A top-level item of the crate.
#[derive(Debug)]
pub struct HirItem {
    pub name: String,
    pub kind: HirItemKind,
}

pub open spec fn def_of_ty(t: Option<HirTy>) -> Result<DefId, AnalysisError> {
    match t {
        Some(HirTy::Path(d)) => Ok(d),
        _ => Err(AnalysisError::InvalidShim),
    }
}

pub open spec fn def_of_call(e: Option<HirExpr>) -> Result<DefId, AnalysisError> {
    match e {
        Some(HirExpr::Call { callee }) => match *callee {
            HirExpr::Path(d) => Ok(d),
            _ => Err(AnalysisError::InvalidShim),
        },
        _ => Err(AnalysisError::InvalidShim),
    }
}

/// The target described by three generated statements: the lock's type and
/// constructor, the lock method, and the guard's type.
pub open spec fn target_of(s0: HirStmt, s1: HirStmt, s2: HirStmt) -> Result<AnalysisPassTarget, AnalysisError> {
    match (s0, s1, s2) {
        (HirStmt::Local { ty: t0, init: i0 }, HirStmt::Local { ty: _, init: i1 }, HirStmt::Local { ty: t2, init: _ }) => {
            match (def_of_ty(t0), def_of_ty(t2), def_of_call(i0), def_of_call(i1)) {
                (Ok(lock), Ok(guard), Ok(lock_constructor), Ok(lock_method)) => Ok(
                    AnalysisPassTarget { lock, lock_constructor, lock_method, guard },
                ),
                (Err(e), _, _, _) => Err(e),
                (_, Err(e), _, _) => Err(e),
                (_, _, Err(e), _) => Err(e),
                (_, _, _, Err(e)) => Err(e),
            }
        },
        _ => Err(AnalysisError::InvalidShim),
    }
}

/// The targets read from the first `3 * n` statements, three at a time.
pub open spec fn targets_of(stmts: Seq<HirStmt>, n: nat) -> Result<Seq<AnalysisPassTarget>, AnalysisError>
    decreases n,
{
    if n == 0 {
        Ok(Seq::empty())
    } else {
        match targets_of(stmts, (n - 1) as nat) {
            Err(e) => Err(e),
            Ok(ts) => match target_of(stmts[3 * n - 3], stmts[3 * n - 2], stmts[3 * n - 1]) {
                Err(e) => Err(e),
                Ok(t) => Ok(ts.push(t)),
            },
        }
    }
}

/// The targets of one item: none unless it has the generated name.
pub open spec fn item_targets(item: HirItem) -> Result<Seq<AnalysisPassTarget>, AnalysisError> {
    if item.name@ != LOCK_FILLER_FN_NAME@ {
        Ok(Seq::empty())
    } else {
        match item.kind {
            HirItemKind::Fn(Some(stmts)) => targets_of(stmts@, stmts@.len() / 3),
            _ => Err(AnalysisError::InvalidShim),
        }
    }
}

/// The targets of all items, in order.
pub open spec fn all_targets(items: Seq<HirItem>) -> Result<Seq<AnalysisPassTarget>, AnalysisError>
    decreases items.len(),
{
    if items.len() == 0 {
        Ok(Seq::empty())
    } else {
        match all_targets(items.drop_last()) {
            Err(e) => Err(e),
            Ok(ts) => match item_targets(items.last()) {
                Err(e) => Err(e),
                Ok(ts2) => Ok(ts + ts2),
            },
        }
    }
}

proof fn lemma_targets_err_persists(stmts: Seq<HirStmt>, c: nat, m: nat, e: AnalysisError)
    requires
        targets_of(stmts, c) == Err::<Seq<AnalysisPassTarget>, AnalysisError>(e),
        c <= m,
    ensures
        targets_of(stmts, m) == Err::<Seq<AnalysisPassTarget>, AnalysisError>(e),
    decreases m - c,
{
    if c < m {
        lemma_targets_err_persists(stmts, c, (m - 1) as nat, e);
    }
}

proof fn lemma_all_err_persists(items: Seq<HirItem>, i: int, m: int, e: AnalysisError)
    requires
        0 <= i <= m <= items.len(),
        all_targets(items.subrange(0, i)) == Err::<Seq<AnalysisPassTarget>, AnalysisError>(e),
    ensures
        all_targets(items.subrange(0, m)) == Err::<Seq<AnalysisPassTarget>, AnalysisError>(e),
    decreases m - i,
{
    if i < m {
        lemma_all_err_persists(items, i, m - 1, e);
        assert(items.subrange(0, m).drop_last() =~= items.subrange(0, m - 1));
    }
}

fn parse_def_id_from_ty(ty: &Option<HirTy>) -> (r: Result<DefId, AnalysisError>)
    ensures
        r == def_of_ty(*ty),
{
    match ty {
        Some(HirTy::Path(d)) => Ok(*d),
        _ => Err(AnalysisError::InvalidShim),
    }
}

fn parse_def_id_from_call_expr(expr: &Option<HirExpr>) -> (r: Result<DefId, AnalysisError>)
    ensures
        r == def_of_call(*expr),
{
    match expr {
        Some(HirExpr::Call { callee }) => match &**callee {
            HirExpr::Path(d) => Ok(*d),
            _ => Err(AnalysisError::InvalidShim),
        },
        _ => Err(AnalysisError::InvalidShim),
    }
}

fn parse_target(s0: &HirStmt, s1: &HirStmt, s2: &HirStmt) -> (r: Result<AnalysisPassTarget, AnalysisError>)
    ensures
        r == target_of(*s0, *s1, *s2),
{
    match (s0, s1, s2) {
        (HirStmt::Local { ty: t0, init: i0 }, HirStmt::Local { init: i1, .. }, HirStmt::Local { ty: t2, .. }) => {
            let lock = parse_def_id_from_ty(t0)?;
            let guard = parse_def_id_from_ty(t2)?;
            let lock_constructor = parse_def_id_from_call_expr(i0)?;
            let lock_method = parse_def_id_from_call_expr(i1)?;
            Ok(AnalysisPassTarget { lock, lock_constructor, lock_method, guard })
        },
        _ => Err(AnalysisError::InvalidShim),
    }
}

/// Reads one pass target from each group of three statements of the
/// generated function, in order; trailing statements are ignored.
pub fn parse_passes_from_hir(items: &Vec<HirItem>) -> (r: Result<Vec<AnalysisPassTarget>, AnalysisError>)
    ensures
        match all_targets(items@) {
            Ok(ts) => r is Ok && r->Ok_0@ == ts,
            Err(e) => r == Err::<Vec<AnalysisPassTarget>, AnalysisError>(e),
        },
{
    let mut passes: Vec<AnalysisPassTarget> = Vec::new();
    let filler = String::from_str(LOCK_FILLER_FN_NAME);
    let mut i: usize = 0;
    while i < items.len()
        invariant
            i <= items@.len(),
            filler@ == LOCK_FILLER_FN_NAME@,
            all_targets(items@.subrange(0, i as int)) == Ok::<Seq<AnalysisPassTarget>, AnalysisError>(passes@),
        decreases items@.len() - i,
    {
        let item = &items[i];
        proof {
            let pre = items@.subrange(0, i + 1);
            assert(pre.drop_last() =~= items@.subrange(0, i as int));
            assert(pre.last() == *item);
            assert(items@[i as int] == *item);
        }
        if item.name == filler {
            let stmts = match &item.kind {
                HirItemKind::Fn(Some(stmts)) => stmts,
                _ => {
                    proof {
                        lemma_all_err_persists(items@, i + 1, items@.len() as int, AnalysisError::InvalidShim);
                        assert(items@.subrange(0, items@.len() as int) =~= items@);
                    }
                    return Err(AnalysisError::InvalidShim);
                },
            };
            let ghost base = passes@;
            let len = stmts.len();
            let n = len / 3;
            proof {
                vstd::arithmetic::div_mod::lemma_fundamental_div_mod(stmts@.len() as int, 3);
            }
            let mut c: usize = 0;
            while c < n
                invariant
                    n == stmts@.len() / 3,
                    len == stmts@.len(),
                    3 * n <= stmts@.len(),
                    c <= n,
                    i < items@.len(),
                    item_targets(items@[i as int]) == targets_of(stmts@, n as nat),
                    all_targets(items@.subrange(0, i as int)) == Ok::<Seq<AnalysisPassTarget>, AnalysisError>(base),
                    items@.subrange(0, i + 1).drop_last() == items@.subrange(0, i as int),
                    items@.subrange(0, i + 1).last() == items@[i as int],
                    targets_of(stmts@, c as nat) is Ok,
                    passes@ == base + targets_of(stmts@, c as nat)->Ok_0,
                decreases n - c,
            {
                let t = match parse_target(&stmts[3 * c], &stmts[3 * c + 1], &stmts[3 * c + 2]) {
                    Ok(t) => t,
                    Err(e) => {
                        proof {
                            let c1 = (c + 1) as nat;
                            assert(3 * c1 - 3 == 3 * c && 3 * c1 - 2 == 3 * c + 1 && 3 * c1 - 1 == 3 * c + 2);
                            assert(targets_of(stmts@, c1) == Err::<Seq<AnalysisPassTarget>, AnalysisError>(e));
                            lemma_targets_err_persists(stmts@, c1, n as nat, e);
                            lemma_all_err_persists(items@, i + 1, items@.len() as int, e);
                            assert(items@.subrange(0, items@.len() as int) =~= items@);
                        }
                        return Err(e);
                    },
                };
                passes.push(t);
                proof {
                    let c1 = (c + 1) as nat;
                    assert(3 * c1 - 3 == 3 * c && 3 * c1 - 2 == 3 * c + 1 && 3 * c1 - 1 == 3 * c + 2);
                    assert(passes@ =~= base + targets_of(stmts@, c1)->Ok_0);
                }
                c = c + 1;
            }
            proof {
                assert(base + targets_of(stmts@, n as nat)->Ok_0 == passes@);
            }
        } else {
            proof {
                assert(passes@ + Seq::<AnalysisPassTarget>::empty() =~= passes@);
            }
        }
        i = i + 1;
    }
    assert(items@.subrange(0, items@.len() as int) =~= items@);
    Ok(passes)
}

} // verus!
