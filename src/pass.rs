//! One analysis pass: a configured lock type checked over a whole program.
use vstd::prelude::*;
use crate::collector::{map_rets, walk_covers, walk_fails, walk_witness, DependantClassCollector, LocalBlockPair};
use crate::config::LOCK_FILLER_FN_NAME;
use crate::error::AnalysisError;
use crate::errors::{DeadlockError, Errors, InvocationErrorInfo};
use crate::graph::{has_edge, reachable, reachable_plus, reach_from};
use crate::invocation::{find_invocation, is_invocation, keys_unique, FunctionReturnMap, LockInvocation, ReturnLocation};
use crate::ir::{cfg, Bbid, Body, CallArg, DefId, GenericArg, Program, Terminator, Ty, TyId, START_BLOCK};
use crate::registry::{intern_step, ClassCounter, LockClass, LockClassTyMap};
use crate::status::ErrorStatus;

verus! {

/// The resolved definitions of one configured lock type.
#[derive(Debug, Clone, Copy, PartialEq, Eq, Structural)]
pub struct AnalysisPassTarget {
    pub lock: DefId,
    pub lock_constructor: DefId,
    pub lock_method: DefId,
    pub guard: DefId,
}

/// `t` with every outer reference removed.
pub open spec fn peel_refs(t: Ty) -> Ty
    decreases t,
{
    match t {
        Ty::Ref(inner) => peel_refs(*inner),
        _ => t,
    }
}

fn peel_refs_exec(t: &Ty) -> (r: &Ty)
    ensures
        *r == peel_refs(*t),
    decreases t,
{
    match t {
        Ty::Ref(inner) => peel_refs_exec(inner),
        _ => t,
    }
}

/// The data type locked by a call: taken from the first argument whose type,
/// without references, is the lock type. `Ok(None)` when no argument is one.
pub open spec fn lock_data_ty(args: Seq<CallArg>, lock: DefId) -> Result<Option<TyId>, AnalysisError>
    decreases args.len(),
{
    if args.len() == 0 {
        Ok(None)
    } else {
        match peel_refs(args[0].ty) {
            Ty::Adt { def, args: generics } => if def == lock {
                if generics@.len() != 1 {
                    Err(AnalysisError::LockArity)
                } else {
                    match generics@[0] {
                        GenericArg::Type(t) => Ok(Some(t)),
                        _ => Err(AnalysisError::LockArgNotType),
                    }
                }
            } else {
                lock_data_ty(args.drop_first(), lock)
            },
            _ => lock_data_ty(args.drop_first(), lock),
        }
    }
}

/// What the terminator `t` locks: `Ok(Some(ty))` for a call of the lock
/// method on a lock of data type `ty`.
pub open spec fn lock_site(p: Program, target: AnalysisPassTarget, t: Terminator) -> Result<Option<TyId>, AnalysisError> {
    match t {
        Terminator::Call { callee: Some(h), args, .. } => if h < p.fns@.len() && p.fns@[h as int].def_id == target.lock_method {
            lock_data_ty(args@, target.lock)
        } else {
            Ok(None)
        },
        _ => Ok(None),
    }
}

/// Function `f` is scanned for acquisitions: a free function item with a
/// body, other than the generated name-resolution function.
pub open spec fn scanned(p: Program, f: int) -> bool {
    &&& 0 <= f < p.fns@.len()
    &&& p.fns@[f].is_fn_item
    &&& p.fns@[f].name@ != LOCK_FILLER_FN_NAME@
    &&& p.fns@[f].body is Some
}

/// Block `b` of function `f` is reachable from its entry.
pub open spec fn live_block(p: Program, f: int, b: usize) -> bool {
    &&& 0 <= f < p.fns@.len()
    &&& p.fns@[f].body is Some
    &&& b < p.fns@[f].body->0.blocks@.len()
    &&& reachable(crate::graph::edges(cfg(p.fns@[f].body->0)), START_BLOCK, b)
}

/// The terminator of block `b` of function `f`.
pub open spec fn terminator_at(p: Program, f: int, b: int) -> Terminator {
    p.fns@[f].body->0.blocks@[b].terminator
}

/// The acquisition sites of a program: reachable lock calls in scanned functions.
pub open spec fn is_lock_site(p: Program, target: AnalysisPassTarget, x: Bbid) -> bool {
    &&& scanned(p, x.func as int)
    &&& live_block(p, x.func as int, x.block)
    &&& lock_site(p, target, terminator_at(p, x.func as int, x.block as int)) is Ok
    &&& lock_site(p, target, terminator_at(p, x.func as int, x.block as int))->Ok_0 is Some
}

/// Block `b` of function `f` is a reachable call of function `h`, other
/// than an acquisition, that returns to `loc`.
pub open spec fn return_edge_at(p: Program, target: AnalysisPassTarget, f: int, b: usize, h: usize, loc: ReturnLocation) -> bool {
    &&& scanned(p, f)
    &&& live_block(p, f, b)
    &&& lock_site(p, target, terminator_at(p, f, b as int)) == Ok::<Option<TyId>, AnalysisError>(None)
    &&& match terminator_at(p, f, b as int) {
        Terminator::Call { callee: Some(c), target: Some(t), destination, .. } => c == h && loc == (ReturnLocation {
            return_bbid: Bbid { func: f as usize, block: t },
            return_local: destination,
        }),
        _ => false,
    }
}

/// `loc` is where some direct call of `h` returns to.
pub open spec fn is_return_edge(p: Program, target: AnalysisPassTarget, h: usize, loc: ReturnLocation) -> bool {
    exists|f: int, b: usize| #[trigger] return_edge_at(p, target, f, b, h, loc)
}

/// Block `(f2, b2)` comes before position `(f, b)` of the scan.
pub open spec fn scanned_before(f2: int, b2: int, f: int, b: int) -> bool {
    f2 < f || (f2 == f && b2 < b)
}

/// The source span of a call terminator.
pub open spec fn call_span(t: Terminator) -> crate::ir::Span {
    match t {
        Terminator::Call { span, .. } => span,
        _ => crate::ir::Span { lo: 0, hi: 0 },
    }
}

/// `inv` records the acquisition site at its block, under the class of the
/// locked data type.
pub open spec fn records_site(p: Program, target: AnalysisPassTarget, classes: Map<TyId, LockClass>, inv: LockInvocation) -> bool {
    let t = terminator_at(p, inv.bbid.func as int, inv.bbid.block as int);
    &&& is_lock_site(p, target, inv.bbid)
    &&& classes.contains_key(lock_site(p, target, t)->Ok_0->0)
    &&& classes[lock_site(p, target, t)->Ok_0->0] == inv.class
    &&& inv.span == call_span(t)
}

/// A reachable call in a scanned function whose lock type is not one the analysis handles.
pub open spec fn bad_site(p: Program, target: AnalysisPassTarget, e: AnalysisError) -> bool {
    exists|x: Bbid| scanned(p, x.func as int) && live_block(p, x.func as int, x.block)
        && #[trigger] lock_site(p, target, terminator_at(p, x.func as int, x.block as int))
        == Err::<Option<TyId>, AnalysisError>(e)
}

/// The return edges of the program, for every function.
pub open spec fn program_rets(p: Program, target: AnalysisPassTarget) -> spec_fn(usize, ReturnLocation) -> bool {
    |h: usize, loc: ReturnLocation| h < p.fns@.len() && is_return_edge(p, target, h, loc)
}

/// Some acquisition site fails: its call does not return, or following its
/// guard from the continuation reaches a state that raises `e`.
pub open spec fn site_fails(p: Program, target: AnalysisPassTarget, e: AnalysisError) -> bool {
    exists|x: Bbid| #[trigger] is_lock_site(p, target, x) && match lock_continuation(p, x) {
        None => e == AnalysisError::LockCallDiverges,
        Some(c) => walk_fails(p, program_rets(p, target), c, e),
    }
}

/// The reasons a pass for `target` may fail with `e`, the class counter
/// ending at `next`.
pub open spec fn pass_fails(p: Program, target: AnalysisPassTarget, e: AnalysisError, next: u64) -> bool {
    ||| e == AnalysisError::ClassIdsExhausted && next == u64::MAX
    ||| bad_site(p, target, e)
    ||| site_fails(p, target, e)
}

/// Where the walk for the acquisition at `x` starts: the block the lock call
/// returns to, with the guard in the call's destination.
pub open spec fn lock_continuation(p: Program, x: Bbid) -> Option<LocalBlockPair> {
    if x.func < p.fns@.len() && p.fns@[x.func as int].body is Some
        && x.block < p.fns@[x.func as int].body->0.blocks@.len() {
        match terminator_at(p, x.func as int, x.block as int) {
            Terminator::Call { target: Some(t), destination, .. } => Some(
                LocalBlockPair { block: Bbid { func: x.func, block: t }, local: destination },
            ),
            _ => None,
        }
    } else {
        None
    }
}

/// The children of acquisition `j` cover a carried-on walk from its continuation.
pub open spec fn covered(p: Program, rets: spec_fn(usize, ReturnLocation) -> bool, invs: Seq<LockInvocation>, j: int, children: Seq<Bbid>) -> bool {
    &&& lock_continuation(p, invs[j].bbid) is Some
    &&& walk_covers(p, rets, invs, lock_continuation(p, invs[j].bbid)->0, children)
}

/// Two records of acquisitions at the same blocks, position by position.
pub open spec fn same_keys(a: Seq<LockInvocation>, b: Seq<LockInvocation>) -> bool {
    a.len() == b.len() && forall|i: int| 0 <= i < a.len() ==> #[trigger] a[i].bbid == b[i].bbid
}

proof fn lemma_walk_covers_same_keys(p: Program, rets: spec_fn(usize, ReturnLocation) -> bool, a: Seq<LockInvocation>, b: Seq<LockInvocation>, start: LocalBlockPair, children: Seq<Bbid>)
    requires
        same_keys(a, b),
        walk_covers(p, rets, a, start, children),
    ensures
        walk_covers(p, rets, b, start, children),
{
    let (v, s, o) = choose|v: Seq<LocalBlockPair>, s: Seq<usize>, o: Map<LocalBlockPair, crate::collector::GuardState>|
        #[trigger] walk_witness(p, rets, a, start, children, v, s, o);
    assert forall|x: Bbid| #[trigger] is_invocation(b, x) <==> is_invocation(a, x) by {
        if is_invocation(b, x) {
            let k = choose|k: int| 0 <= k < b.len() && (#[trigger] b[k]).bbid == x;
            assert(a[k].bbid == x);
        }
        if is_invocation(a, x) {
            let k = choose|k: int| 0 <= k < a.len() && (#[trigger] a[k]).bbid == x;
            assert(b[k].bbid == x);
        }
    }
    assert forall|i: int| 0 <= i < v.len() && is_invocation(b, (#[trigger] v[i]).block) implies children.contains(v[i].block) by {
        assert(is_invocation(a, v[i].block));
    }
    assert forall|i: int| 0 <= i < s.len() implies crate::collector::swept_closed(p, b, children, s, #[trigger] s[i]) by {
        assert forall|k: usize| #[trigger] crate::collector::block_swept(p, b, children, s, s[i], k) by {
            assert(crate::collector::block_swept(p, a, children, s, s[i], k));
            assert(is_invocation(b, Bbid { func: s[i], block: k }) <==> is_invocation(a, Bbid { func: s[i], block: k }));
        }
    }
    assert forall|k: int| 0 <= k < children.len() implies is_invocation(b, #[trigger] children[k])
        && crate::collector::found_in(p, v, 0, s, 0, children[k]) by {
        assert(is_invocation(a, children[k]));
    }
    assert(walk_witness(p, rets, b, start, children, v, s, o));
}

/// Child `k` of acquisition `i` is acquisition `j`; the classes of `i` and
/// `j` are at positions `a` and `b` of the registry.
pub open spec fn edge_at(invs: Seq<LockInvocation>, reg: LockClassTyMap, i: int, k: int, j: int, a: usize, b: usize) -> bool {
    &&& 0 <= i < invs.len()
    &&& 0 <= k < invs[i].child_invocations@.len()
    &&& 0 <= j < invs.len()
    &&& invs[j].bbid == invs[i].child_invocations@[k]
    &&& a < reg.len()
    &&& b < reg.len()
    &&& invs[i].class == reg.class_at(a as int)
    &&& invs[j].class == reg.class_at(b as int)
}

/// The dependency relation over registry positions: some acquisition of
/// the class at `a` has a child of the class at `b`.
pub open spec fn dep_edge(invs: Seq<LockInvocation>, reg: LockClassTyMap, a: usize, b: usize) -> bool {
    exists|i: int, k: int, j: int| #[trigger] edge_at(invs, reg, i, k, j, a, b)
}

pub open spec fn dep_relation(invs: Seq<LockInvocation>, reg: LockClassTyMap) -> spec_fn(usize, usize) -> bool {
    |a: usize, b: usize| dep_edge(invs, reg, a, b)
}

/// Whether `target_class` can be reached from `current_class` by one or more edges.
pub fn dependancies_contain(target_class: usize, current_class: usize, dependant_map: &Vec<Vec<usize>>) -> (r: bool)
    requires
        current_class < dependant_map@.len(),
    ensures
        r == reachable_plus(crate::graph::edges(crate::graph::adj_view(dependant_map@)), current_class, target_class),
{
    let ghost g = crate::graph::adj_view(dependant_map@);
    let marks = reach_from(dependant_map, current_class);
    let n = dependant_map.len();
    let mut m: usize = 0;
    while m < n
        invariant
            n == dependant_map@.len(),
            g == crate::graph::adj_view(dependant_map@),
            g.len() == n,
            marks@.len() == n,
            forall|i: usize| i < n ==> (marks@[i as int] <==> reachable(crate::graph::edges(g), current_class, i)),
            m <= n,
            forall|x: usize| x < m && reachable(crate::graph::edges(g), current_class, x)
                ==> !has_edge(g, x, target_class),
        decreases n - m,
    {
        if marks[m] {
            let succ = &dependant_map[m];
            assert(succ@ == g[m as int]);
            assert(reachable(crate::graph::edges(g), current_class, m));
            let mut k: usize = 0;
            while k < succ.len()
                invariant
                    m < n,
                    g.len() == n,
                    succ@ == g[m as int],
                    reachable(crate::graph::edges(g), current_class, m),
                    k <= succ@.len(),
                    forall|t: int| 0 <= t < k ==> succ@[t] != target_class || target_class >= n,
                    g == crate::graph::adj_view(dependant_map@),
                decreases succ@.len() - k,
            {
                if succ[k] == target_class && target_class < n {
                    proof {
                        assert(g[m as int].contains(target_class)) by {
                            assert(g[m as int][k as int] == target_class);
                        }
                        assert(has_edge(g, m, target_class));
                        assert(crate::graph::edges(g)(m, target_class));
                    }
                    return true;
                }
                k = k + 1;
            }
        }
        m = m + 1;
    }
    proof {
        if reachable_plus(crate::graph::edges(g), current_class, target_class) {
            let x = choose|x: usize| reachable(crate::graph::edges(g), current_class, x) && #[trigger] crate::graph::edges(g)(x, target_class);
            assert(has_edge(g, x, target_class));
        }
    }
    false
}

/// The finding for child `k` of acquisition `i`, when that child is
/// acquisition `j` and the classes are at registry positions `a` and `b`.
pub open spec fn finding(invs: Seq<LockInvocation>, reg: LockClassTyMap, i: int, j: int, a: usize, b: usize) -> DeadlockError {
    DeadlockError {
        parent_invocation: InvocationErrorInfo { span: invs[i].span, ty: reg.ty_at(a as int) },
        child_invocation: InvocationErrorInfo { span: invs[j].span, ty: reg.ty_at(b as int) },
    }
}

/// Child `k` of acquisition `i` closes a cycle: the parent's class can be
/// reached again from the child's class in the dependency relation.
pub open spec fn closes_cycle(invs: Seq<LockInvocation>, reg: LockClassTyMap, i: int, k: int, j: int, a: usize, b: usize) -> bool {
    &&& edge_at(invs, reg, i, k, j, a, b)
    &&& reachable_plus(dep_relation(invs, reg), b, a)
}

/// `e` is the finding of some child that closes a cycle.
pub open spec fn is_finding(invs: Seq<LockInvocation>, reg: LockClassTyMap, e: DeadlockError) -> bool {
    exists|i: int, k: int, j: int, a: usize, b: usize| #[trigger] closes_cycle(invs, reg, i, k, j, a, b)
        && e == finding(invs, reg, i, j, a, b)
}

/// Finds the lock type among a call's arguments.
fn lock_data_ty_exec(args: &Vec<CallArg>, lock: DefId) -> (r: Result<Option<TyId>, AnalysisError>)
    ensures
        r == lock_data_ty(args@, lock),
        r is Err ==> r->Err_0 == AnalysisError::LockArity || r->Err_0 == AnalysisError::LockArgNotType,
{
    let mut i: usize = 0;
    assert(args@.subrange(0, args@.len() as int) =~= args@);
    while i < args.len()
        invariant
            i <= args@.len(),
            lock_data_ty(args@, lock) == lock_data_ty(args@.subrange(i as int, args@.len() as int), lock),
        decreases args@.len() - i,
    {
        let ghost rest = args@.subrange(i as int, args@.len() as int);
        assert(rest.len() > 0 && rest[0] == args@[i as int]);
        assert(rest.drop_first() =~= args@.subrange(i + 1, args@.len() as int));
        if let Ty::Adt { def, args: generics } = peel_refs_exec(&args[i].ty) {
            if *def == lock {
                if generics.len() != 1 {
                    return Err(AnalysisError::LockArity);
                }
                return match generics[0] {
                    GenericArg::Type(t) => Ok(Some(t)),
                    _ => Err(AnalysisError::LockArgNotType),
                };
            }
        }
        i = i + 1;
    }
    assert(args@.subrange(i as int, args@.len() as int).len() == 0);
    Ok(None)
}

/// Checks the terminator for a call of the lock method, and finds what it locks.
pub fn lock_site_exec(program: &Program, target: &AnalysisPassTarget, t: &Terminator) -> (r: Result<Option<TyId>, AnalysisError>)
    ensures
        r == lock_site(*program, *target, *t),
        r is Err ==> r->Err_0 == AnalysisError::LockArity || r->Err_0 == AnalysisError::LockArgNotType,
{
    match t {
        Terminator::Call { callee: Some(h), args, .. } => {
            if *h < program.fns.len() && program.fns[*h].def_id == target.lock_method {
                lock_data_ty_exec(args, target.lock)
            } else {
                Ok(None)
            }
        },
        _ => Ok(None),
    }
}

/// Whether the function's name is that of the generated resolution function.
fn is_filler_name(name: &String) -> (r: bool)
    ensures
        r == (name@ == LOCK_FILLER_FN_NAME@),
{
    let filler = String::from_str(LOCK_FILLER_FN_NAME);
    *name == filler
}

/// All state of one pass over one program.
pub struct AnalysisPass {
    pass_target: AnalysisPassTarget,
    invocations: Vec<LockInvocation>,
    return_map: FunctionReturnMap,
    lock_class_ty_map: LockClassTyMap,
    errors: Errors,
}

impl AnalysisPass {
    pub closed spec fn target(&self) -> AnalysisPassTarget {
        self.pass_target
    }

    /// The acquisitions recorded so far.
    pub closed spec fn invocations(&self) -> Seq<LockInvocation> {
        self.invocations@
    }

    /// The return edges recorded so far, per function.
    pub closed spec fn return_locations(&self) -> Seq<Seq<ReturnLocation>> {
        self.return_map@
    }

    /// The class of each data type met so far.
    pub closed spec fn classes(&self) -> Map<TyId, LockClass> {
        self.lock_class_ty_map@
    }

    /// The findings so far, in source order.
    pub closed spec fn errors(&self) -> Seq<DeadlockError> {
        self.errors@
    }

    /// The pass's own invariant, with every class numbered below `next`.
    pub closed spec fn wf(&self, next: u64) -> bool {
        &&& self.lock_class_ty_map.wf(next)
        &&& self.consistent()
    }

    /// The invariant that does not depend on the class counter.
    pub closed spec fn consistent(&self) -> bool {
        &&& self.lock_class_ty_map.inv()
        &&& crate::errors::sorted_by_child_span(self.errors@)
        &&& keys_unique(self.invocations@)
    }

    /// The class registry.
    pub closed spec fn registry(&self) -> LockClassTyMap {
        self.lock_class_ty_map
    }

    /// Every recorded acquisition is a site, and each site before scan
    /// position `(f, b)` is recorded.
    pub open spec fn sites_upto(&self, p: Program, f: int, b: int) -> bool {
        &&& forall|i: int| 0 <= i < self.invocations().len()
            ==> records_site(p, self.target(), self.classes(), #[trigger] self.invocations()[i])
        &&& forall|i: int| 0 <= i < self.invocations().len()
            ==> scanned_before((#[trigger] self.invocations()[i]).bbid.func as int, self.invocations()[i].bbid.block as int, f, b)
        &&& forall|x: Bbid| is_lock_site(p, self.target(), x) && scanned_before(x.func as int, x.block as int, f, b)
            ==> #[trigger] is_invocation(self.invocations(), x)
        &&& forall|x: Bbid| scanned(p, x.func as int) && live_block(p, x.func as int, x.block)
            && scanned_before(x.func as int, x.block as int, f, b)
            ==> (#[trigger] lock_site(p, self.target(), terminator_at(p, x.func as int, x.block as int))) is Ok
    }

    /// A reachable call in a scanned function whose lock type is not one the analysis handles.
    pub open spec fn bad_lock_site(&self, p: Program, e: AnalysisError) -> bool {
        bad_site(p, self.target(), e)
    }

    /// The recorded return edges are those of the calls before scan position `(f, b)`.
    pub open spec fn returns_upto(&self, p: Program, f: int, b: int) -> bool {
        &&& self.return_locations().len() == p.fns@.len()
        &&& forall|h: usize, loc: ReturnLocation| h < p.fns@.len() ==>
            (#[trigger] self.return_locations()[h as int].contains(loc) <==> exists|f2: int, b2: usize|
                scanned_before(f2, b2 as int, f, b) && #[trigger] return_edge_at(p, self.target(), f2, b2, h, loc))
    }

    /// Moving the scan position from `(f, b)` to `(f2, b2)` over blocks that
    /// are not reachable blocks of scanned functions records nothing new.
    proof fn lemma_scan_skip(&self, p: Program, f: int, b: int, f2: int, b2: int)
        requires
            self.sites_upto(p, f, b),
            self.returns_upto(p, f, b),
            f < f2 || (f == f2 && b <= b2),
            forall|f3: int, b3: usize| #![trigger live_block(p, f3, b3)]
                !scanned_before(f3, b3 as int, f, b) && scanned_before(f3, b3 as int, f2, b2)
                ==> !(scanned(p, f3) && live_block(p, f3, b3)),
        ensures
            self.sites_upto(p, f2, b2),
            self.returns_upto(p, f2, b2),
    {
        assert forall|h: usize, loc: ReturnLocation| h < p.fns@.len() implies
            (#[trigger] self.return_locations()[h as int].contains(loc) <==> exists|f3: int, b3: usize|
                scanned_before(f3, b3 as int, f2, b2) && #[trigger] return_edge_at(p, self.target(), f3, b3, h, loc)) by {
            if exists|f3: int, b3: usize| scanned_before(f3, b3 as int, f2, b2) && #[trigger] return_edge_at(p, self.target(), f3, b3, h, loc) {
                let (f3, b3) = choose|f3: int, b3: usize| scanned_before(f3, b3 as int, f2, b2) && #[trigger] return_edge_at(p, self.target(), f3, b3, h, loc);
                assert(scanned(p, f3) && live_block(p, f3, b3));
            }
            if exists|f3: int, b3: usize| scanned_before(f3, b3 as int, f, b) && #[trigger] return_edge_at(p, self.target(), f3, b3, h, loc) {
                let (f3, b3) = choose|f3: int, b3: usize| scanned_before(f3, b3 as int, f, b) && #[trigger] return_edge_at(p, self.target(), f3, b3, h, loc);
                assert(scanned_before(f3, b3 as int, f2, b2));
            }
        }
        assert forall|x: Bbid| is_lock_site(p, self.target(), x) && scanned_before(x.func as int, x.block as int, f2, b2)
            implies #[trigger] is_invocation(self.invocations(), x) by {
            assert(scanned(p, x.func as int) && live_block(p, x.func as int, x.block));
        }
        assert forall|x: Bbid| scanned(p, x.func as int) && live_block(p, x.func as int, x.block)
            && scanned_before(x.func as int, x.block as int, f2, b2)
            implies (#[trigger] lock_site(p, self.target(), terminator_at(p, x.func as int, x.block as int))) is Ok by {
        }
        assert forall|i: int| 0 <= i < self.invocations().len()
            implies scanned_before((#[trigger] self.invocations()[i]).bbid.func as int, self.invocations()[i].bbid.block as int, f2, b2) by {
            assert(scanned_before(self.invocations()[i].bbid.func as int, self.invocations()[i].bbid.block as int, f, b));
        }
    }

    pub fn new(pass_target: AnalysisPassTarget) -> (r: AnalysisPass)
        ensures
            forall|next: u64| r.wf(next),
            r.target() == pass_target,
            r.invocations().len() == 0,
            r.errors().len() == 0,
            r.classes() == Map::<TyId, LockClass>::empty(),
            r.registry().len() == 0,
    {
        AnalysisPass {
            pass_target,
            invocations: Vec::new(),
            return_map: FunctionReturnMap::new(0),
            lock_class_ty_map: LockClassTyMap::new(),
            errors: Errors::new(),
        }
    }

    fn collect_invocations_for_body(&mut self, program: &Program, f: usize, counter: &mut ClassCounter) -> (r: Result<(), AnalysisError>)
        requires
            old(self).wf(old(counter).next),
            scanned(*program, f as int),
            old(self).sites_upto(*program, f as int, 0),
            old(self).returns_upto(*program, f as int, 0),
            forall|i: int| 0 <= i < old(self).invocations().len()
                ==> (#[trigger] old(self).invocations()[i]).child_invocations@.len() == 0,
        ensures
            final(self).wf(final(counter).next),
            final(counter).next >= old(counter).next,
            final(counter).next == old(counter).next + (final(self).registry().len() - old(self).registry().len()),
            final(self).target() == old(self).target(),
            final(self).errors() == old(self).errors(),
            r is Ok ==> final(self).sites_upto(*program, f + 1, 0) && final(self).returns_upto(*program, f + 1, 0),
            forall|i: int| 0 <= i < final(self).invocations().len()
                ==> (#[trigger] final(self).invocations()[i]).child_invocations@.len() == 0,
            r is Err ==> r->Err_0 == AnalysisError::ClassIdsExhausted || old(self).bad_lock_site(*program, r->Err_0),
            r is Err && r->Err_0 == AnalysisError::ClassIdsExhausted ==> final(counter).next == u64::MAX,
    {
        let body = match &program.fns[f].body {
            Some(b) => b,
            None => return Ok(()),
        };
        let reach = body.reachable_blocks();
        let mut b: usize = 0;
        while b < body.blocks.len()
            invariant
                self.wf(counter.next),
                counter.next >= old(counter).next,
                counter.next == old(counter).next + (self.registry().len() - old(self).registry().len()),
                self.target() == old(self).target(),
                self.errors() == old(self).errors(),
                scanned(*program, f as int),
                program.fns@[f as int].body == Some(*body),
                reach@.len() == body.blocks@.len(),
                forall|i: usize| i < body.blocks@.len() ==>
                    (reach@[i as int] <==> reachable(crate::graph::edges(cfg(*body)), START_BLOCK, i)),
                b <= body.blocks@.len(),
                self.sites_upto(*program, f as int, b as int),
                self.returns_upto(*program, f as int, b as int),
                forall|i: int| 0 <= i < self.invocations().len()
                    ==> (#[trigger] self.invocations()[i]).child_invocations@.len() == 0,
            decreases body.blocks@.len() - b,
        {
            let ghost here = Bbid { func: f, block: b };
            assert(terminator_at(*program, f as int, b as int) == body.blocks@[b as int].terminator);
            if reach[b] {
                let terminator = &body.blocks[b].terminator;
                let site = match lock_site_exec(program, &self.pass_target, terminator) {
                    Ok(site) => site,
                    Err(e) => {
                        proof {
                            assert(scanned(*program, f as int) && live_block(*program, f as int, b));
                            let x = Bbid { func: f, block: b };
                            assert(scanned(*program, x.func as int) && live_block(*program, x.func as int, x.block));
                            assert(lock_site(*program, old(self).target(), terminator_at(*program, x.func as int, x.block as int)) == Err::<Option<TyId>, AnalysisError>(e));
                            assert(old(self).bad_lock_site(*program, e));
                        }
                        return Err(e);
                    },
                };
                match site {
                    Some(ty) => {
                        let ghost classes0 = self.lock_class_ty_map@;
                        let ghost invs0 = self.invocations@;
                        let class = self.lock_class_ty_map.get_lock_class(ty, counter)?;
                        let span = match terminator {
                            Terminator::Call { span, .. } => *span,
                            _ => crate::ir::Span { lo: 0, hi: 0 },
                        };
                        let bbid = Bbid { func: f, block: b };
                        self.invocations.push(LockInvocation::new(bbid, class, span));
                        proof {
                            assert(self.invocations@[invs0.len() as int].bbid == bbid);
                            assert forall|i: int| 0 <= i < self.invocations().len()
                                implies records_site(*program, self.target(), self.classes(), #[trigger] self.invocations()[i]) by {
                                if i < invs0.len() {
                                    assert(self.invocations()[i] == invs0[i]);
                                    let t = terminator_at(*program, invs0[i].bbid.func as int, invs0[i].bbid.block as int);
                                    crate::registry::lemma_interning_is_function(classes0, counter.next, counter.next, lock_site(*program, self.target(), t)->Ok_0->0, ty);
                                }
                            }
                            assert forall|x: Bbid| is_lock_site(*program, self.target(), x) && scanned_before(x.func as int, x.block as int, f as int, b + 1)
                                implies #[trigger] is_invocation(self.invocations(), x) by {
                                if x == bbid {
                                    assert(self.invocations()[invs0.len() as int].bbid == x);
                                } else {
                                    assert(is_invocation(invs0, x));
                                    let k = choose|k: int| 0 <= k < invs0.len() && (#[trigger] invs0[k]).bbid == x;
                                    assert(self.invocations()[k] == invs0[k]);
                                }
                            }
                            assert forall|i: int| 0 <= i < self.invocations().len()
                                implies scanned_before((#[trigger] self.invocations()[i]).bbid.func as int, self.invocations()[i].bbid.block as int, f as int, b + 1) by {
                                if i < invs0.len() {
                                    assert(self.invocations()[i] == invs0[i]);
                                }
                            }
                            assert forall|x: Bbid| scanned(*program, x.func as int) && live_block(*program, x.func as int, x.block)
                                && scanned_before(x.func as int, x.block as int, f as int, b + 1)
                                implies (#[trigger] lock_site(*program, self.target(), terminator_at(*program, x.func as int, x.block as int))) is Ok by {
                                if x != here {
                                    assert(scanned_before(x.func as int, x.block as int, f as int, b as int));
                                }
                            }
                            assert forall|i: int, j: int| 0 <= i < j < self.invocations@.len()
                                implies self.invocations@[i].bbid != self.invocations@[j].bbid by {
                                assert(self.invocations()[i] == invs0[i]);
                                if j < invs0.len() {
                                    assert(self.invocations()[j] == invs0[j]);
                                } else {
                                    assert(scanned_before(invs0[i].bbid.func as int, invs0[i].bbid.block as int, f as int, b as int));
                                }
                            }
                            assert forall|h: usize, loc: ReturnLocation| h < program.fns@.len() implies
                                (#[trigger] self.return_locations()[h as int].contains(loc) <==> exists|f2: int, b2: usize|
                                    scanned_before(f2, b2 as int, f as int, b + 1) && #[trigger] return_edge_at(*program, self.target(), f2, b2, h, loc)) by {
                                if exists|f2: int, b2: usize| scanned_before(f2, b2 as int, f as int, b + 1) && #[trigger] return_edge_at(*program, self.target(), f2, b2, h, loc) {
                                    let (f2, b2) = choose|f2: int, b2: usize| scanned_before(f2, b2 as int, f as int, b + 1) && #[trigger] return_edge_at(*program, self.target(), f2, b2, h, loc);
                                    assert(scanned_before(f2, b2 as int, f as int, b as int));
                                }
                            }
                        }
                    },
                    None => {
                        let ghost ret0 = self.return_map@;
                        if let Terminator::Call { callee: Some(h), target: Some(t), destination, .. } = terminator {
                            if *h < self.return_map.len() {
                                let loc = ReturnLocation { return_bbid: Bbid { func: f, block: *t }, return_local: *destination };
                                self.return_map.insert_return_location(*h, loc);
                                proof {
                                    assert(return_edge_at(*program, self.target(), f as int, b, *h, loc));
                                    assert forall|h2: usize, loc2: ReturnLocation| h2 < program.fns@.len() implies
                                        (#[trigger] self.return_locations()[h2 as int].contains(loc2) <==> exists|f2: int, b2: usize|
                                            scanned_before(f2, b2 as int, f as int, b + 1) && #[trigger] return_edge_at(*program, self.target(), f2, b2, h2, loc2)) by {
                                        if exists|f2: int, b2: usize| scanned_before(f2, b2 as int, f as int, b + 1) && #[trigger] return_edge_at(*program, self.target(), f2, b2, h2, loc2) {
                                            let (f2, b2) = choose|f2: int, b2: usize| scanned_before(f2, b2 as int, f as int, b + 1) && #[trigger] return_edge_at(*program, self.target(), f2, b2, h2, loc2);
                                            if !(f2 == f && b2 == b) {
                                                assert(scanned_before(f2, b2 as int, f as int, b as int));
                                            }
                                        }
                                        if self.return_locations()[h2 as int].contains(loc2) && !ret0[h2 as int].contains(loc2) {
                                            assert(h2 == *h && loc2 == loc);
                                        }
                                    }
                                }
                            }
                        }
                        proof {
                            assert forall|h2: usize, loc2: ReturnLocation| h2 < program.fns@.len() implies
                                (#[trigger] self.return_locations()[h2 as int].contains(loc2) <==> exists|f2: int, b2: usize|
                                    scanned_before(f2, b2 as int, f as int, b + 1) && #[trigger] return_edge_at(*program, self.target(), f2, b2, h2, loc2)) by {
                                if exists|f2: int, b2: usize| scanned_before(f2, b2 as int, f as int, b + 1) && #[trigger] return_edge_at(*program, self.target(), f2, b2, h2, loc2) {
                                    let (f2, b2) = choose|f2: int, b2: usize| scanned_before(f2, b2 as int, f as int, b + 1) && #[trigger] return_edge_at(*program, self.target(), f2, b2, h2, loc2);
                                    if !(f2 == f && b2 == b) {
                                        assert(scanned_before(f2, b2 as int, f as int, b as int));
                                    }
                                }
                            }
                            assert forall|x: Bbid| is_lock_site(*program, self.target(), x) && scanned_before(x.func as int, x.block as int, f as int, b + 1)
                                implies #[trigger] is_invocation(self.invocations(), x) by {
                                if x != here {
                                    assert(scanned_before(x.func as int, x.block as int, f as int, b as int));
                                }
                            }
                            assert forall|x: Bbid| scanned(*program, x.func as int) && live_block(*program, x.func as int, x.block)
                                && scanned_before(x.func as int, x.block as int, f as int, b + 1)
                                implies (#[trigger] lock_site(*program, self.target(), terminator_at(*program, x.func as int, x.block as int))) is Ok by {
                                if x != here {
                                    assert(scanned_before(x.func as int, x.block as int, f as int, b as int));
                                }
                            }
                        }
                    },
                }
            } else {
                proof {
                    self.lemma_scan_skip(*program, f as int, b as int, f as int, b + 1);
                }
            }
            b = b + 1;
        }
        proof {
            self.lemma_scan_skip(*program, f as int, b as int, f + 1, 0);
        }
        Ok(())
    }

    /// Records every acquisition site and every return edge of the program.
    pub fn collect_invocations(&mut self, program: &Program, counter: &mut ClassCounter) -> (r: Result<(), AnalysisError>)
        requires
            old(self).wf(old(counter).next),
        ensures
            final(self).wf(final(counter).next),
            final(counter).next >= old(counter).next,
            final(counter).next == old(counter).next + (final(self).registry().len() - old(self).registry().len()),
            final(self).target() == old(self).target(),
            final(self).errors() == old(self).errors(),
            r is Ok ==> final(self).sites_upto(*program, program.fns@.len() as int, 0)
                && final(self).returns_upto(*program, program.fns@.len() as int, 0),
            forall|i: int| 0 <= i < final(self).invocations().len()
                ==> (#[trigger] final(self).invocations()[i]).child_invocations@.len() == 0,
            r is Err ==> r->Err_0 == AnalysisError::ClassIdsExhausted || old(self).bad_lock_site(*program, r->Err_0),
            r is Err && r->Err_0 == AnalysisError::ClassIdsExhausted ==> final(counter).next == u64::MAX,
            forall|e: AnalysisError| old(self).bad_lock_site(*program, e) ==> r is Err,
    {
        self.invocations = Vec::new();
        self.return_map = FunctionReturnMap::new(program.fns.len());
        proof {
            assert forall|h: usize, loc: ReturnLocation| h < program.fns@.len() implies
                (#[trigger] self.return_locations()[h as int].contains(loc) <==> exists|f2: int, b2: usize|
                    scanned_before(f2, b2 as int, 0, 0) && #[trigger] return_edge_at(*program, self.target(), f2, b2, h, loc)) by {
                if exists|f2: int, b2: usize| scanned_before(f2, b2 as int, 0, 0) && #[trigger] return_edge_at(*program, self.target(), f2, b2, h, loc) {
                    let (f2, b2) = choose|f2: int, b2: usize| scanned_before(f2, b2 as int, 0, 0) && #[trigger] return_edge_at(*program, self.target(), f2, b2, h, loc);
                    assert(scanned(*program, f2));
                }
            }
            assert forall|x: Bbid| is_lock_site(*program, self.target(), x) && scanned_before(x.func as int, x.block as int, 0, 0)
                implies #[trigger] is_invocation(self.invocations(), x) by {
            }
        }
        let mut f: usize = 0;
        while f < program.fns.len()
            invariant
                self.wf(counter.next),
                counter.next >= old(counter).next,
                counter.next == old(counter).next + (self.registry().len() - old(self).registry().len()),
                self.target() == old(self).target(),
                self.errors() == old(self).errors(),
                f <= program.fns@.len(),
                self.sites_upto(*program, f as int, 0),
                self.returns_upto(*program, f as int, 0),
                forall|i: int| 0 <= i < self.invocations().len()
                    ==> (#[trigger] self.invocations()[i]).child_invocations@.len() == 0,
            decreases program.fns@.len() - f,
        {
            let func = &program.fns[f];
            // the generated resolution function is not part of the program
            if func.is_fn_item && !is_filler_name(&func.name) && func.body.is_some() {
                self.collect_invocations_for_body(program, f, counter)?;
            } else {
                proof {
                    self.lemma_scan_skip(*program, f as int, 0, f + 1, 0);
                }
            }
            f = f + 1;
        }
        Ok(())
    }

    /// The children of each acquisition cover a carried-on walk from its continuation.
    pub open spec fn children_cover(&self, p: Program) -> bool {
        forall|i: int| 0 <= i < self.invocations().len() ==> {
            &&& lock_continuation(p, (#[trigger] self.invocations()[i]).bbid) is Some
            &&& walk_covers(p, map_rets(self.return_locations()), self.invocations(), lock_continuation(p, self.invocations()[i].bbid)->0,
                self.invocations()[i].child_invocations@)
        }
    }

    /// Every recorded child is itself a recorded acquisition.
    pub open spec fn children_recorded(&self) -> bool {
        forall|i: int, k: int| 0 <= i < self.invocations().len() && 0 <= k < self.invocations()[i].child_invocations@.len()
            ==> is_invocation(self.invocations(), #[trigger] self.invocations()[i].child_invocations@[k])
    }

    /// Walks from each acquisition and records as its children the
    /// acquisitions that may run while its guard is live.
    pub fn collect_dependant_lock_classes(&mut self, program: &Program) -> (r: Result<(), AnalysisError>)
        requires
            old(self).return_locations().len() == program.fns@.len(),
        ensures
            final(self).target() == old(self).target(),
            final(self).errors() == old(self).errors(),
            final(self).classes() == old(self).classes(),
            final(self).registry() == old(self).registry(),
            final(self).return_locations() == old(self).return_locations(),
            forall|next: u64| old(self).wf(next) ==> final(self).wf(next),
            final(self).invocations().len() == old(self).invocations().len(),
            forall|i: int| 0 <= i < final(self).invocations().len() ==> (#[trigger] final(self).invocations()[i]).bbid
                == old(self).invocations()[i].bbid && final(self).invocations()[i].class == old(self).invocations()[i].class
                && final(self).invocations()[i].span == old(self).invocations()[i].span,
            r is Ok ==> final(self).children_recorded(),
            r is Ok ==> forall|i: int| 0 <= i < final(self).invocations().len()
                ==> (#[trigger] final(self).invocations()[i]).child_invocations@.no_duplicates(),
            r is Ok ==> final(self).children_cover(*program),
            r is Err ==> crate::error::is_walk_error(r->Err_0),
            r is Err ==> exists|i: int| 0 <= i < old(self).invocations().len() && match lock_continuation(*program,
                (#[trigger] old(self).invocations()[i]).bbid) {
                None => r->Err_0 == AnalysisError::LockCallDiverges,
                Some(c) => walk_fails(*program, map_rets(old(self).return_locations()), c, r->Err_0),
            },
    {
        let mut table: Vec<Vec<Bbid>> = Vec::new();
        let mut i: usize = 0;
        while i < self.invocations.len()
            invariant
                *self == *old(self),
                self.return_map@.len() == program.fns@.len(),
                i <= self.invocations@.len(),
                table@.len() == i,
                forall|j: int, k: int| 0 <= j < i && 0 <= k < table@[j]@.len()
                    ==> is_invocation(self.invocations@, #[trigger] table@[j]@[k]),
                forall|j: int| 0 <= j < i ==> (#[trigger] table@[j])@.no_duplicates(),
                forall|j: int| 0 <= j < i ==> covered(*program, map_rets(self.return_map@), self.invocations@, j, (#[trigger] table@[j])@),
            decreases self.invocations@.len() - i,
        {
            let bbid = self.invocations[i].bbid;
            if bbid.func >= program.fns.len() {
                proof {
                    assert(old(self).invocations()[i as int].bbid == bbid);
                    assert(lock_continuation(*program, old(self).invocations()[i as int].bbid) is None);
                }
                return Err(AnalysisError::LockCallDiverges);
            }
            let body = match &program.fns[bbid.func].body {
                Some(b) => b,
                None => {
                    proof {
                        assert(old(self).invocations()[i as int].bbid == bbid);
                        assert(lock_continuation(*program, old(self).invocations()[i as int].bbid) is None);
                    }
                    return Err(AnalysisError::LockCallDiverges);
                },
            };
            if bbid.block >= body.blocks.len() {
                proof {
                    assert(old(self).invocations()[i as int].bbid == bbid);
                    assert(lock_continuation(*program, old(self).invocations()[i as int].bbid) is None);
                }
                return Err(AnalysisError::LockCallDiverges);
            }
            proof {
                assert(terminator_at(*program, bbid.func as int, bbid.block as int) == body.blocks@[bbid.block as int].terminator);
            }
            match &body.blocks[bbid.block].terminator {
                Terminator::Call { target: Some(t), destination, .. } => {
                    let collector = DependantClassCollector::new(program, &self.invocations, &self.return_map);
                    let children = match collector.collect(bbid.with_basic_block(*t), *destination) {
                        Ok(c) => c,
                        Err(e) => {
                            proof {
                                assert(old(self).invocations()[i as int].bbid == bbid);
                                assert(lock_continuation(*program, bbid) == Some(LocalBlockPair { block: Bbid { func: bbid.func, block: *t }, local: *destination }));
                            }
                            return Err(e);
                        },
                    };
                    let ghost t0 = table@;
                    table.push(children);
                    proof {
                        assert(terminator_at(*program, bbid.func as int, bbid.block as int) == body.blocks@[bbid.block as int].terminator);
                        assert(lock_continuation(*program, bbid) == Some(LocalBlockPair { block: Bbid { func: bbid.func, block: *t }, local: *destination }));
                        assert(table@[i as int]@ == children@);
                        assert forall|j: int| 0 <= j < i + 1 implies covered(*program, map_rets(self.return_map@), self.invocations@, j, (#[trigger] table@[j])@) by {
                            if j < i {
                                assert(table@[j] == t0[j]);
                            }
                        }
                    }
                },
                _ => {
                    proof {
                        assert(old(self).invocations()[i as int].bbid == bbid);
                        assert(lock_continuation(*program, old(self).invocations()[i as int].bbid) is None);
                    }
                    return Err(AnalysisError::LockCallDiverges);
                },
            }
            i = i + 1;
        }
        let ghost invs0 = self.invocations@;
        let ghost table0 = table@;
        let mut i: usize = 0;
        while i < table.len()
            invariant
                self.target() == old(self).target(),
                self.errors() == old(self).errors(),
                self.classes() == old(self).classes(),
                self.return_locations() == old(self).return_locations(),
                self.lock_class_ty_map == old(self).lock_class_ty_map,
                self.errors == old(self).errors,
                invs0 == old(self).invocations@,
                table@.len() == invs0.len(),
                self.invocations@.len() == invs0.len(),
                i <= table@.len(),
                forall|j: int| 0 <= j < invs0.len() ==> (#[trigger] self.invocations@[j]).bbid == invs0[j].bbid
                    && self.invocations@[j].class == invs0[j].class && self.invocations@[j].span == invs0[j].span,
                forall|j: int| 0 <= j < i ==> (#[trigger] self.invocations@[j]).child_invocations@ == table0[j]@,
                forall|j: int| i <= j < table@.len() ==> (#[trigger] table@[j])@ == table0[j]@,
                forall|j: int, k: int| 0 <= j < invs0.len() && 0 <= k < table0[j]@.len()
                    ==> is_invocation(invs0, #[trigger] table0[j]@[k]),
                forall|j: int| 0 <= j < invs0.len() ==> (#[trigger] table0[j])@.no_duplicates(),
                forall|j: int| 0 <= j < invs0.len() ==> covered(*program, map_rets(self.return_map@), invs0, j, (#[trigger] table0[j])@),
            decreases table@.len() - i,
        {
            let mut children: Vec<Bbid> = Vec::new();
            std::mem::swap(&mut children, &mut table[i]);
            self.invocations[i].child_invocations = children;
            i = i + 1;
        }
        proof {
            assert forall|i: int, k: int| 0 <= i < self.invocations().len() && 0 <= k < self.invocations()[i].child_invocations@.len()
                implies is_invocation(self.invocations(), #[trigger] self.invocations()[i].child_invocations@[k]) by {
                let x = self.invocations()[i].child_invocations@[k];
                assert(table0[i]@[k] == x);
                let j = choose|j: int| 0 <= j < invs0.len() && (#[trigger] invs0[j]).bbid == x;
                assert(self.invocations()[j].bbid == x);
            }
            assert(same_keys(invs0, self.invocations@));
            assert forall|j: int| 0 <= j < self.invocations().len() implies {
                &&& lock_continuation(*program, (#[trigger] self.invocations()[j]).bbid) is Some
                &&& walk_covers(*program, map_rets(self.return_locations()), self.invocations(), lock_continuation(*program, self.invocations()[j].bbid)->0,
                    self.invocations()[j].child_invocations@)
            } by {
                assert(covered(*program, map_rets(self.return_map@), invs0, j, table0[j]@));
                lemma_walk_covers_same_keys(*program, map_rets(self.return_map@), invs0, self.invocations@, lock_continuation(*program, invs0[j].bbid)->0, table0[j]@);
            }
            if keys_unique(invs0) {
                assert forall|j: int, k: int| 0 <= j < k < self.invocations@.len()
                    implies self.invocations@[j].bbid != self.invocations@[k].bbid by {
                    assert(self.invocations@[j].bbid == invs0[j].bbid);
                    assert(self.invocations@[k].bbid == invs0[k].bbid);
                }
            }
        }
        Ok(())
    }

    /// For each lock class (by registry position), the classes acquired while it is held.
    fn get_dependant_map(&self) -> (g: Vec<Vec<usize>>)
        requires
            self.consistent(),
        ensures
            g@.len() == self.registry().len(),
            forall|a: usize, b: usize| #[trigger] has_edge(crate::graph::adj_view(g@), a, b)
                <==> dep_edge(self.invocations(), self.registry(), a, b),
    {
        let ghost invs = self.invocations@;
        let ghost reg = self.lock_class_ty_map;
        let n = self.lock_class_ty_map.num_classes();
        let mut g: Vec<Vec<usize>> = Vec::new();
        let mut c: usize = 0;
        while c < n
            invariant
                c <= n,
                g@.len() == c,
                forall|x: int| 0 <= x < c ==> (#[trigger] g@[x])@.len() == 0,
            decreases n - c,
        {
            g.push(Vec::new());
            c = c + 1;
        }
        proof {
            assert forall|a: usize, b: usize| #[trigger] has_edge(crate::graph::adj_view(g@), a, b) implies false by {
                assert(crate::graph::adj_view(g@)[a as int] == g@[a as int]@);
            }
        }
        let mut i: usize = 0;
        while i < self.invocations.len()
            invariant
                self.consistent(),
                invs == self.invocations@,
                reg == self.lock_class_ty_map,
                n == reg.len(),
                g@.len() == n,
                i <= invs.len(),
                forall|a: usize, b: usize| #[trigger] has_edge(crate::graph::adj_view(g@), a, b)
                    <==> exists|i2: int, k2: int, j2: int| scanned_before(i2, k2, i as int, 0)
                        && #[trigger] edge_at(invs, reg, i2, k2, j2, a, b),
            decreases invs.len() - i,
        {
            let children = &self.invocations[i].child_invocations;
            let pos_a = self.lock_class_ty_map.index_of(self.invocations[i].class);
            let mut k: usize = 0;
            while k < children.len()
                invariant
                    self.consistent(),
                    invs == self.invocations@,
                    reg == self.lock_class_ty_map,
                    n == reg.len(),
                    g@.len() == n,
                    i < invs.len(),
                    children@ == invs[i as int].child_invocations@,
                    pos_a is None ==> forall|x: int| 0 <= x < reg.len() ==> reg.class_at(x) != invs[i as int].class,
                    pos_a is Some ==> pos_a->0 < reg.len() && reg.class_at(pos_a->0 as int) == invs[i as int].class,
                    k <= children@.len(),
                    forall|a: usize, b: usize| #[trigger] has_edge(crate::graph::adj_view(g@), a, b)
                        <==> exists|i2: int, k2: int, j2: int| scanned_before(i2, k2, i as int, k as int)
                            && #[trigger] edge_at(invs, reg, i2, k2, j2, a, b),
                decreases children@.len() - k,
            {
                let ghost g0 = crate::graph::adj_view(g@);
                let found = match pos_a {
                    Some(a) => match find_invocation(&self.invocations, children[k]) {
                        Some(j) => match self.lock_class_ty_map.index_of(self.invocations[j].class) {
                            Some(b) => Some((a, j, b)),
                            None => None,
                        },
                        None => None,
                    },
                    None => None,
                };
                match found {
                    Some((a, j, b)) => {
                        let mut present = false;
                        let mut t: usize = 0;
                        while t < g[a].len()
                            invariant
                                a < g@.len(),
                                t <= g@[a as int]@.len(),
                                present == exists|x: int| 0 <= x < t && g@[a as int]@[x] == b,
                            decreases g@[a as int]@.len() - t,
                        {
                            if g[a][t] == b {
                                present = true;
                            }
                            t = t + 1;
                        }
                        if !present {
                            g[a].push(b);
                        }
                        proof {
                            assert(edge_at(invs, reg, i as int, k as int, j as int, a, b));
                            let g1 = crate::graph::adj_view(g@);
                            assert forall|a2: usize, b2: usize| #[trigger] has_edge(g1, a2, b2)
                                <==> exists|i2: int, k2: int, j2: int| scanned_before(i2, k2, i as int, k + 1)
                                    && #[trigger] edge_at(invs, reg, i2, k2, j2, a2, b2) by {
                                if exists|i2: int, k2: int, j2: int| scanned_before(i2, k2, i as int, k + 1)
                                    && #[trigger] edge_at(invs, reg, i2, k2, j2, a2, b2) {
                                    let (i2, k2, j2) = choose|i2: int, k2: int, j2: int| scanned_before(i2, k2, i as int, k + 1)
                                        && #[trigger] edge_at(invs, reg, i2, k2, j2, a2, b2);
                                    if i2 == i && k2 == k {
                                        reg.lemma_class_position_unique(a2 as int, a as int);
                                        reg.lemma_class_position_unique(b2 as int, b as int);
                                        assert(j2 == j) by {
                                            if j2 != j {
                                                assert(invs[j2].bbid == invs[j as int].bbid);
                                            }
                                        }
                                        if present {
                                            let x = choose|x: int| 0 <= x < g@[a as int]@.len() && g@[a as int]@[x] == b;
                                            assert(g1[a as int][x] == b);
                                        } else {
                                            assert(g1[a as int][g0[a as int].len() as int] == b);
                                        }
                                    } else {
                                        assert(scanned_before(i2, k2, i as int, k as int));
                                        assert(has_edge(g0, a2, b2));
                                        let x = choose|x: int| 0 <= x < g0[a2 as int].len() && g0[a2 as int][x] == b2;
                                        assert(g1[a2 as int][x] == b2);
                                    }
                                }
                                if has_edge(g1, a2, b2) && !has_edge(g0, a2, b2) {
                                    let x = choose|x: int| 0 <= x < g1[a2 as int].len() && g1[a2 as int][x] == b2;
                                    if a2 != a || x < g0[a2 as int].len() {
                                        assert(g0[a2 as int][x] == b2);
                                    }
                                    assert(a2 == a && b2 == b);
                                }
                            }
                        }
                    },
                    None => {
                        proof {
                            assert forall|a2: usize, b2: usize| #[trigger] has_edge(g0, a2, b2)
                                <==> exists|i2: int, k2: int, j2: int| scanned_before(i2, k2, i as int, k + 1)
                                    && #[trigger] edge_at(invs, reg, i2, k2, j2, a2, b2) by {
                                if exists|i2: int, k2: int, j2: int| scanned_before(i2, k2, i as int, k + 1)
                                    && #[trigger] edge_at(invs, reg, i2, k2, j2, a2, b2) {
                                    let (i2, k2, j2) = choose|i2: int, k2: int, j2: int| scanned_before(i2, k2, i as int, k + 1)
                                        && #[trigger] edge_at(invs, reg, i2, k2, j2, a2, b2);
                                    if i2 == i && k2 == k {
                                        assert(is_invocation(invs, children@[k as int])) by {
                                            assert(invs[j2].bbid == children@[k as int]);
                                        }
                                        assert(false);
                                    } else {
                                        assert(scanned_before(i2, k2, i as int, k as int));
                                    }
                                }
                            }
                        }
                    },
                }
                k = k + 1;
            }
            proof {
                let g1 = crate::graph::adj_view(g@);
                assert forall|a2: usize, b2: usize| #[trigger] has_edge(g1, a2, b2)
                    <==> exists|i2: int, k2: int, j2: int| scanned_before(i2, k2, i + 1, 0)
                        && #[trigger] edge_at(invs, reg, i2, k2, j2, a2, b2) by {
                    if exists|i2: int, k2: int, j2: int| scanned_before(i2, k2, i + 1, 0)
                        && #[trigger] edge_at(invs, reg, i2, k2, j2, a2, b2) {
                        let (i2, k2, j2) = choose|i2: int, k2: int, j2: int| scanned_before(i2, k2, i + 1, 0)
                            && #[trigger] edge_at(invs, reg, i2, k2, j2, a2, b2);
                        assert(scanned_before(i2, k2, i as int, k as int));
                    }
                }
            }
            i = i + 1;
        }
        proof {
            let g1 = crate::graph::adj_view(g@);
            assert forall|a2: usize, b2: usize| #[trigger] has_edge(g1, a2, b2)
                <==> dep_edge(self.invocations(), self.registry(), a2, b2) by {
                if dep_edge(invs, reg, a2, b2) {
                    let (i2, k2, j2) = choose|i2: int, k2: int, j2: int| #[trigger] edge_at(invs, reg, i2, k2, j2, a2, b2);
                    assert(scanned_before(i2, k2, invs.len() as int, 0));
                }
            }
        }
        g
    }

    /// Reports every acquisition that closes a cycle of lock classes.
    fn emit_cycle_errors(&mut self)
        requires
            old(self).consistent(),
            old(self).children_recorded(),
        ensures
            final(self).consistent(),
            final(self).invocations() == old(self).invocations(),
            final(self).registry() == old(self).registry(),
            final(self).lock_class_ty_map == old(self).lock_class_ty_map,
            final(self).target() == old(self).target(),
            final(self).return_locations() == old(self).return_locations(),
            forall|e: DeadlockError| #[trigger] final(self).errors().contains(e) ==> old(self).errors().contains(e)
                || is_finding(final(self).invocations(), final(self).registry(), e),
            forall|i: int, k: int, j: int, a: usize, b: usize| #[trigger] closes_cycle(final(self).invocations(), final(self).registry(), i, k, j, a, b)
                ==> crate::errors::has_child_span(final(self).errors(), final(self).invocations()[j].span),
    {
        let ghost invs = self.invocations@;
        let ghost reg = self.lock_class_ty_map;
        let ghost errs0 = self.errors@;
        let dependant_map = self.get_dependant_map();
        proof {
            assert(crate::graph::edges(crate::graph::adj_view(dependant_map@)) =~= dep_relation(invs, reg)) by {
                assert forall|a: usize, b: usize| #[trigger] crate::graph::edges(crate::graph::adj_view(dependant_map@))(a, b)
                    == dep_relation(invs, reg)(a, b) by {
                    assert(has_edge(crate::graph::adj_view(dependant_map@), a, b) <==> dep_edge(invs, reg, a, b));
                }
            }
        }
        let mut i: usize = 0;
        while i < self.invocations.len()
            invariant
                self.consistent(),
                invs == self.invocations@,
                reg == self.lock_class_ty_map,
                self.target() == old(self).target(),
                self.return_locations() == old(self).return_locations(),
                dependant_map@.len() == reg.len(),
                crate::graph::edges(crate::graph::adj_view(dependant_map@)) == dep_relation(invs, reg),
                i <= invs.len(),
                forall|e: DeadlockError| #[trigger] self.errors@.contains(e) ==> errs0.contains(e) || is_finding(invs, reg, e),
                forall|i2: int, k2: int, j2: int, a: usize, b: usize| #[trigger] closes_cycle(invs, reg, i2, k2, j2, a, b)
                    && scanned_before(i2, k2, i as int, 0)
                    ==> crate::errors::has_child_span(self.errors@, invs[j2].span),
            decreases invs.len() - i,
        {
            let pos_a = self.lock_class_ty_map.index_of(self.invocations[i].class);
            let mut k: usize = 0;
            while k < self.invocations[i].child_invocations.len()
                invariant
                    self.consistent(),
                    invs == self.invocations@,
                    reg == self.lock_class_ty_map,
                    self.target() == old(self).target(),
                    self.return_locations() == old(self).return_locations(),
                    dependant_map@.len() == reg.len(),
                    crate::graph::edges(crate::graph::adj_view(dependant_map@)) == dep_relation(invs, reg),
                    i < invs.len(),
                    pos_a is None ==> forall|x: int| 0 <= x < reg.len() ==> reg.class_at(x) != invs[i as int].class,
                    pos_a is Some ==> pos_a->0 < reg.len() && reg.class_at(pos_a->0 as int) == invs[i as int].class,
                    k <= invs[i as int].child_invocations@.len(),
                    forall|e: DeadlockError| #[trigger] self.errors@.contains(e) ==> errs0.contains(e) || is_finding(invs, reg, e),
                    forall|i2: int, k2: int, j2: int, a: usize, b: usize| #[trigger] closes_cycle(invs, reg, i2, k2, j2, a, b)
                        && scanned_before(i2, k2, i as int, k as int)
                        ==> crate::errors::has_child_span(self.errors@, invs[j2].span),
                decreases invs[i as int].child_invocations@.len() - k,
            {
                let child = self.invocations[i].child_invocations[k];
                let found = match pos_a {
                    Some(a) => match find_invocation(&self.invocations, child) {
                        Some(j) => match self.lock_class_ty_map.index_of(self.invocations[j].class) {
                            Some(b) => Some((a, j, b)),
                            None => None,
                        },
                        None => None,
                    },
                    None => None,
                };
                let ghost errs1 = self.errors@;
                match found {
                    Some((a, j, b)) => {
                        if dependancies_contain(a, b, &dependant_map) {
                            let parent_ty = self.lock_class_ty_map.ty_of_position(a);
                            let child_ty = self.lock_class_ty_map.ty_of_position(b);
                            self.errors.emit_deadlock_error(
                                InvocationErrorInfo { span: self.invocations[i].span, ty: parent_ty },
                                InvocationErrorInfo { span: self.invocations[j].span, ty: child_ty },
                            );
                            proof {
                                assert(closes_cycle(invs, reg, i as int, k as int, j as int, a, b));
                                let e = finding(invs, reg, i as int, j as int, a, b);
                                assert(is_finding(invs, reg, e));
                                if !crate::errors::has_child_span(errs1, invs[j as int].span) {
                                    assert(self.errors@.contains(e));
                                    let x = choose|x: int| 0 <= x < self.errors@.len() && self.errors@[x] == e;
                                    assert(self.errors@[x].child_invocation.span == invs[j as int].span);
                                }
                            }
                        }
                        proof {
                            assert(edge_at(invs, reg, i as int, k as int, j as int, a, b));
                            assert forall|i2: int, k2: int, j2: int, a2: usize, b2: usize| #[trigger] closes_cycle(invs, reg, i2, k2, j2, a2, b2)
                                && scanned_before(i2, k2, i as int, k + 1)
                                implies crate::errors::has_child_span(self.errors@, invs[j2].span) by {
                                if i2 == i && k2 == k {
                                    reg.lemma_class_position_unique(a2 as int, a as int);
                                    reg.lemma_class_position_unique(b2 as int, b as int);
                                    if j2 != j {
                                        assert(invs[j2].bbid == invs[j as int].bbid);
                                    }
                                } else {
                                    assert(scanned_before(i2, k2, i as int, k as int));
                                    assert(crate::errors::has_child_span(errs1, invs[j2].span));
                                    let x = choose|x: int| 0 <= x < errs1.len() && (#[trigger] errs1[x]).child_invocation.span == invs[j2].span;
                                    assert(errs1.contains(errs1[x]));
                                    assert(self.errors@.contains(errs1[x]));
                                    let y = choose|y: int| 0 <= y < self.errors@.len() && self.errors@[y] == errs1[x];
                                    assert(self.errors@[y].child_invocation.span == invs[j2].span);
                                }
                            }
                        }
                    },
                    None => {
                        proof {
                            assert forall|i2: int, k2: int, j2: int, a2: usize, b2: usize| #[trigger] closes_cycle(invs, reg, i2, k2, j2, a2, b2)
                                && scanned_before(i2, k2, i as int, k + 1)
                                implies crate::errors::has_child_span(self.errors@, invs[j2].span) by {
                                if i2 == i && k2 == k {
                                    assert(invs[j2].bbid == child);
                                    assert(is_invocation(invs, child));
                                    assert(false);
                                } else {
                                    assert(scanned_before(i2, k2, i as int, k as int));
                                }
                            }
                        }
                    },
                }
                k = k + 1;
            }
            proof {
                assert forall|i2: int, k2: int, j2: int, a: usize, b: usize| #[trigger] closes_cycle(invs, reg, i2, k2, j2, a, b)
                    && scanned_before(i2, k2, i + 1, 0)
                    implies crate::errors::has_child_span(self.errors@, invs[j2].span) by {
                    assert(scanned_before(i2, k2, i as int, k as int));
                }
            }
            i = i + 1;
        }
        proof {
            assert forall|i2: int, k2: int, j2: int, a: usize, b: usize| #[trigger] closes_cycle(invs, reg, i2, k2, j2, a, b)
                implies crate::errors::has_child_span(self.errors@, invs[j2].span) by {
                assert(scanned_before(i2, k2, invs.len() as int, 0));
            }
        }
    }

    /// Everything a successful run of the pass over `p` establishes.
    pub open spec fn pass_complete(&self, p: Program) -> bool {
        &&& self.sites_upto(p, p.fns@.len() as int, 0)
        &&& self.returns_upto(p, p.fns@.len() as int, 0)
        &&& forall|h: usize, loc: ReturnLocation| h < p.fns@.len() ==>
            (#[trigger] self.return_locations()[h as int].contains(loc) <==> is_return_edge(p, self.target(), h, loc))
        &&& self.children_recorded()
        &&& self.children_cover(p)
        &&& crate::errors::sorted_by_child_span(self.errors())
        &&& forall|e: DeadlockError| #[trigger] self.errors().contains(e) ==> is_finding(self.invocations(), self.registry(), e)
        &&& forall|i: int, k: int, j: int, a: usize, b: usize|
            #[trigger] closes_cycle(self.invocations(), self.registry(), i, k, j, a, b)
            ==> crate::errors::has_child_span(self.errors(), self.invocations()[j].span)
    }

    /// Runs the whole pass: records acquisitions and return edges, walks
    /// each guard, builds the class dependencies and reports every
    /// acquisition that closes a cycle, in source order.
    pub fn run_pass(&mut self, program: &Program, counter: &mut ClassCounter) -> (r: Result<ErrorStatus, AnalysisError>)
        requires
            old(self).wf(old(counter).next),
        ensures
            final(self).wf(final(counter).next),
            final(counter).next >= old(counter).next,
            final(counter).next == old(counter).next + (final(self).registry().len() - old(self).registry().len()),
            final(self).target() == old(self).target(),
            r is Ok ==> final(self).sites_upto(*program, program.fns@.len() as int, 0),
            r is Ok ==> final(self).returns_upto(*program, program.fns@.len() as int, 0),
            r is Ok ==> final(self).children_recorded(),
            r is Ok ==> final(self).children_cover(*program),
            crate::errors::sorted_by_child_span(final(self).errors()),
            r is Ok ==> forall|e: DeadlockError| #[trigger] final(self).errors().contains(e)
                ==> is_finding(final(self).invocations(), final(self).registry(), e),
            r is Ok ==> forall|i: int, k: int, j: int, a: usize, b: usize|
                #[trigger] closes_cycle(final(self).invocations(), final(self).registry(), i, k, j, a, b)
                ==> crate::errors::has_child_span(final(self).errors(), final(self).invocations()[j].span),
            r is Ok ==> r->Ok_0 == (if final(self).errors().len() > 0 {
                ErrorStatus::DeadlockDetected
            } else {
                ErrorStatus::NoDeadlock
            }),
            r is Ok ==> final(self).pass_complete(*program),
            r is Err ==> r->Err_0 == AnalysisError::ClassIdsExhausted || old(self).bad_lock_site(*program, r->Err_0)
                || crate::error::is_walk_error(r->Err_0),
            r is Err ==> pass_fails(*program, old(self).target(), r->Err_0, final(counter).next),
            forall|e: AnalysisError| old(self).bad_lock_site(*program, e) ==> r is Err,
    {
        self.errors = Errors::new();
        match self.collect_invocations(program, counter) {
            Ok(()) => {},
            Err(e) => {
                return Err(e);
            },
        }
        let ghost invs0 = self.invocations@;
        let ghost rm0 = self.return_locations();
        proof {
            assert(map_rets(rm0) =~= program_rets(*program, self.target())) by {
                assert forall|h: usize, loc: ReturnLocation| #[trigger] map_rets(rm0)(h, loc) == program_rets(*program, self.target())(h, loc) by {
                    if h < program.fns@.len() {
                        if is_return_edge(*program, self.target(), h, loc) {
                            let (f2, b2) = choose|f2: int, b2: usize| #[trigger] return_edge_at(*program, self.target(), f2, b2, h, loc);
                            assert(scanned_before(f2, b2 as int, program.fns@.len() as int, 0));
                        }
                        assert(self.return_locations()[h as int].contains(loc) <==> exists|f2: int, b2: usize|
                            scanned_before(f2, b2 as int, program.fns@.len() as int, 0)
                            && #[trigger] return_edge_at(*program, self.target(), f2, b2, h, loc));
                    }
                }
            }
        }
        match self.collect_dependant_lock_classes(program) {
            Ok(()) => {},
            Err(e) => {
                proof {
                    let i = choose|i: int| 0 <= i < invs0.len() && match lock_continuation(*program, (#[trigger] invs0[i]).bbid) {
                        None => e == AnalysisError::LockCallDiverges,
                        Some(c) => walk_fails(*program, map_rets(rm0), c, e),
                    };
                    assert(records_site(*program, self.target(), self.classes(), invs0[i]));
                    assert(is_lock_site(*program, self.target(), invs0[i].bbid));
                    assert(site_fails(*program, self.target(), e));
                }
                return Err(e);
            },
        }
        proof {
            let invs = self.invocations@;
            assert forall|i: int| 0 <= i < invs.len()
                implies records_site(*program, self.target(), self.classes(), #[trigger] invs[i]) by {
                assert(records_site(*program, self.target(), self.classes(), invs0[i]));
            }
            assert forall|i: int| 0 <= i < invs.len()
                implies scanned_before((#[trigger] invs[i]).bbid.func as int, invs[i].bbid.block as int, program.fns@.len() as int, 0) by {
                assert(scanned_before(invs0[i].bbid.func as int, invs0[i].bbid.block as int, program.fns@.len() as int, 0));
            }
            assert forall|x: Bbid| is_lock_site(*program, self.target(), x) && scanned_before(x.func as int, x.block as int, program.fns@.len() as int, 0)
                implies #[trigger] is_invocation(invs, x) by {
                assert(is_invocation(invs0, x));
                let k = choose|k: int| 0 <= k < invs0.len() && (#[trigger] invs0[k]).bbid == x;
                assert(invs[k].bbid == x);
            }
        }
        self.emit_cycle_errors();
        proof {
            assert forall|h: usize, loc: ReturnLocation| h < program.fns@.len() implies
                (#[trigger] self.return_locations()[h as int].contains(loc) <==> is_return_edge(*program, self.target(), h, loc)) by {
                if is_return_edge(*program, self.target(), h, loc) {
                    let (f2, b2) = choose|f2: int, b2: usize| #[trigger] return_edge_at(*program, self.target(), f2, b2, h, loc);
                    assert(scanned_before(f2, b2 as int, program.fns@.len() as int, 0));
                }
            }
        }
        Ok(self.errors.emit_all_errors())
    }

    /// The recorded acquisitions, with their children.
    pub fn invocation_list(&self) -> (r: &Vec<LockInvocation>)
        ensures
            r@ == self.invocations(),
    {
        &self.invocations
    }

    /// The findings, in ascending order of the second acquisition's span.
    pub fn diagnostics(&self) -> (r: &Vec<DeadlockError>)
        ensures
            r@ == self.errors(),
    {
        self.errors.diagnostics()
    }
}

/// Number of lock classes the passes made.
pub open spec fn classes_made(passes: Seq<AnalysisPass>) -> int
    decreases passes.len(),
{
    if passes.len() == 0 {
        0
    } else {
        classes_made(passes.drop_last()) + passes.last().registry().len()
    }
}

/// Runs one pass per target over the program, in order, drawing lock class
/// identifiers from one counter, and stops at the first pass that fails.
/// Returns the status and every pass that ran, the failing one included. The
/// status is a deadlock exactly when some pass found one.
pub fn run_passes(targets: &Vec<AnalysisPassTarget>, program: &Program, counter: &mut ClassCounter) -> (r: (Result<ErrorStatus, AnalysisError>, Vec<AnalysisPass>))
    ensures
        final(counter).next == old(counter).next + classes_made(r.1@),
        r.1@.len() <= targets@.len(),
        forall|i: int| 0 <= i < r.1@.len() ==> (#[trigger] r.1@[i]).target() == targets@[i],
        r.0 is Ok ==> r.1@.len() == targets@.len(),
        r.0 is Ok ==> forall|i: int| 0 <= i < targets@.len() ==> (#[trigger] r.1@[i]).pass_complete(*program),
        r.0 is Ok ==> (r.0->Ok_0 == ErrorStatus::DeadlockDetected <==> exists|i: int|
            0 <= i < targets@.len() && (#[trigger] r.1@[i]).errors().len() > 0),
        r.0 is Err ==> r.1@.len() >= 1 && (forall|i: int| 0 <= i < r.1@.len() - 1 ==> (#[trigger] r.1@[i]).pass_complete(*program))
            && pass_fails(*program, targets@[r.1@.len() - 1], r.0->Err_0, final(counter).next),
{
    let mut status = ErrorStatus::NoDeadlock;
    let mut passes: Vec<AnalysisPass> = Vec::new();
    let mut i: usize = 0;
    while i < targets.len()
        invariant
            i <= targets@.len(),
            counter.next == old(counter).next + classes_made(passes@),
            passes@.len() == i,
            forall|j: int| 0 <= j < i ==> (#[trigger] passes@[j]).target() == targets@[j]
                && passes@[j].pass_complete(*program),
            status == ErrorStatus::DeadlockDetected <==> exists|j: int|
                0 <= j < i && (#[trigger] passes@[j]).errors().len() > 0,
        decreases targets@.len() - i,
    {
        let mut pass = AnalysisPass::new(targets[i]);
        let outcome = pass.run_pass(program, counter);
        let ghost before = passes@;
        passes.push(pass);
        proof {
            assert(passes@[i as int] == pass);
            assert(passes@.drop_last() =~= before);
            assert forall|j: int| 0 <= j < i + 1 implies (#[trigger] passes@[j]).target() == targets@[j] by {
                if j < i {
                    assert(passes@[j] == before[j]);
                }
            }
            assert forall|j: int| 0 <= j < i implies (#[trigger] passes@[j]).pass_complete(*program) by {
                assert(passes@[j] == before[j]);
            }
        }
        let found = match outcome {
            Ok(st) => st,
            Err(e) => {
                return (Err(e), passes);
            },
        };
        status = status.join(found);
        proof {
            if exists|j: int| 0 <= j < i + 1 && (#[trigger] passes@[j]).errors().len() > 0 {
                let j = choose|j: int| 0 <= j < i + 1 && (#[trigger] passes@[j]).errors().len() > 0;
                if j < i {
                    assert(passes@[j] == before[j]);
                }
            }
            if exists|j: int| 0 <= j < i && (#[trigger] before[j]).errors().len() > 0 {
                let j = choose|j: int| 0 <= j < i && (#[trigger] before[j]).errors().len() > 0;
                assert(passes@[j] == before[j]);
            }
        }
        i = i + 1;
    }
    (Ok(status), passes)
}

} // verus!
