//! The guard-flow walk: which lock acquisitions may run while a guard is live.
use vstd::prelude::*;
use vstd::arithmetic::div_mod::lemma_fundamental_div_mod_converse;
use vstd::set_lib::{lemma_int_range, lemma_len_subset, set_int_range};
use crate::error::{is_walk_error, AnalysisError};
use crate::invocation::{find_invocation, is_invocation, FunctionReturnMap, LockInvocation, ReturnLocation};
use crate::ir::{Bbid, Body, Local, Program, Terminator, RETURN_PLACE, START_BLOCK};
use crate::transfer::{guard_arg_from, guard_arg_local, local_after_block_statements, local_after_statements};

verus! {

/// What happened to a guard handed to a function.
#[derive(Debug, Clone, Copy, PartialEq, Eq, Structural)]
pub enum GuardState {
    Returned,
    Dropped,
    Undetermined,
}

/// Join of branch outcomes: `Returned` over `Dropped` over `Undetermined`.
pub open spec fn combine_spec(a: GuardState, b: GuardState) -> GuardState {
    if a == GuardState::Returned || b == GuardState::Returned {
        GuardState::Returned
    } else if a == GuardState::Dropped || b == GuardState::Dropped {
        GuardState::Dropped
    } else {
        GuardState::Undetermined
    }
}

impl GuardState {
    pub fn combine(self, other: GuardState) -> (r: GuardState)
        ensures
            r == combine_spec(self, other),
    {
        match (self, other) {
            (GuardState::Returned, _) | (_, GuardState::Returned) => GuardState::Returned,
            (GuardState::Dropped, _) | (_, GuardState::Dropped) => GuardState::Dropped,
            _ => GuardState::Undetermined,
        }
    }
}

/// A block together with the local that holds the guard on entry to it.
#[derive(Debug, Clone, Copy, PartialEq, Eq, Structural)]
pub struct LocalBlockPair {
    pub block: Bbid,
    pub local: Local,
}

/// The most blocks of any function body.
pub open spec fn max_blocks(fns: Seq<crate::ir::Function>) -> nat
    decreases fns.len(),
{
    if fns.len() == 0 {
        0
    } else {
        let rest = max_blocks(fns.drop_last());
        let here: nat = match fns.last().body {
            Some(b) => b.blocks@.len(),
            None => 0,
        };
        if here > rest {
            here
        } else {
            rest
        }
    }
}

/// The most locals of any function body.
pub open spec fn max_locals(fns: Seq<crate::ir::Function>) -> nat
    decreases fns.len(),
{
    if fns.len() == 0 {
        0
    } else {
        let rest = max_locals(fns.drop_last());
        let here: nat = match fns.last().body {
            Some(b) => b.num_locals as nat,
            None => 0,
        };
        if here > rest {
            here
        } else {
            rest
        }
    }
}

proof fn lemma_max_bounds(fns: Seq<crate::ir::Function>, f: int)
    requires
        0 <= f < fns.len(),
        fns[f].body is Some,
    ensures
        fns[f].body->0.blocks@.len() <= max_blocks(fns),
        fns[f].body->0.num_locals <= max_locals(fns),
    decreases fns.len(),
{
    if f < fns.len() - 1 {
        assert(fns.drop_last()[f] == fns[f]);
        lemma_max_bounds(fns.drop_last(), f);
    }
}

/// The walk's state space: a block of a function with a body, and a local of it.
pub open spec fn in_domain(p: Program, x: LocalBlockPair) -> bool {
    &&& x.block.func < p.fns@.len()
    &&& p.fns@[x.block.func as int].body is Some
    &&& x.block.block < p.fns@[x.block.func as int].body->0.blocks@.len()
    &&& x.local < p.fns@[x.block.func as int].body->0.num_locals
}

/// An upper bound on the number of states in the walk's state space.
pub open spec fn state_bound(p: Program) -> int {
    (p.fns@.len() * max_blocks(p.fns@) * max_locals(p.fns@)) as int
}

proof fn lemma_split_unique(a: int, l: int, a2: int, l2: int, n: int)
    requires
        n > 0,
        0 <= l < n,
        0 <= l2 < n,
        a * n + l == a2 * n + l2,
    ensures
        a == a2,
        l == l2,
{
    let x = a * n + l;
    lemma_fundamental_div_mod_converse(x, n, a, l);
    lemma_fundamental_div_mod_converse(x, n, a2, l2);
}

spec fn state_key(x: LocalBlockPair, nb: int, nl: int) -> int {
    (x.block.func * nb + x.block.block) * nl + x.local
}

proof fn lemma_key_range(f: int, b: int, l: int, nf: int, nb: int, nl: int)
    requires
        0 <= f < nf,
        0 <= b < nb,
        0 <= l < nl,
    ensures
        0 <= (f * nb + b) * nl + l < nf * nb * nl,
{
    assert(0 <= f * nb) by (nonlinear_arith)
        requires 0 <= f, 0 <= nb;
    assert(f * nb + b < nf * nb) by (nonlinear_arith)
        requires 0 <= f < nf, 0 <= b < nb;
    let a = f * nb + b;
    assert(0 <= a * nl) by (nonlinear_arith)
        requires 0 <= a, 0 <= nl;
    assert(a * nl + l < (nf * nb) * nl) by (nonlinear_arith)
        requires 0 <= a < nf * nb, 0 <= l < nl;
}

/// Distinct states of the walk are no more than the state bound.
proof fn lemma_states_bounded(p: Program, s: Seq<LocalBlockPair>)
    requires
        s.no_duplicates(),
        forall|i: int| 0 <= i < s.len() ==> in_domain(p, #[trigger] s[i]),
    ensures
        s.len() <= state_bound(p),
{
    let nf = p.fns@.len() as int;
    let nb = max_blocks(p.fns@) as int;
    let nl = max_locals(p.fns@) as int;
    if s.len() == 0 {
        assert(0 <= nf * nb * nl) by (nonlinear_arith)
            requires 0 <= nf, 0 <= nb, 0 <= nl;
        return;
    }
    let keys = s.map_values(|x: LocalBlockPair| state_key(x, nb, nl));
    assert forall|i: int| 0 <= i < s.len() implies 0 <= #[trigger] keys[i] < nf * nb * nl by {
        let x = s[i];
        assert(keys[i] == state_key(x, nb, nl));
        lemma_max_bounds(p.fns@, x.block.func as int);
        lemma_key_range(x.block.func as int, x.block.block as int, x.local as int, nf, nb, nl);
    }
    assert(keys.no_duplicates()) by {
        assert forall|i: int, j: int| 0 <= i < keys.len() && 0 <= j < keys.len() && i != j implies keys[i] != keys[j] by {
            let x = s[i];
            let y = s[j];
            assert(keys[i] == state_key(x, nb, nl));
            assert(keys[j] == state_key(y, nb, nl));
            lemma_max_bounds(p.fns@, x.block.func as int);
            lemma_max_bounds(p.fns@, y.block.func as int);
            if keys[i] == keys[j] {
                lemma_split_unique(x.block.func * nb + x.block.block, x.local as int, y.block.func * nb + y.block.block, y.local as int, nl);
                lemma_split_unique(x.block.func as int, x.block.block as int, y.block.func as int, y.block.block as int, nb);
                assert(x == y);
            }
        }
    }
    keys.unique_seq_to_set();
    lemma_int_range(0, nf * nb * nl);
    assert forall|k: int| #[trigger] keys.to_set().contains(k) implies set_int_range(0, nf * nb * nl).contains(k) by {
        assert(keys.contains(k));
        let i = choose|i: int| 0 <= i < keys.len() && keys[i] == k;
    }
    assert(keys.to_set().subset_of(set_int_range(0, nf * nb * nl)));
    lemma_len_subset(keys.to_set(), set_int_range(0, nf * nb * nl));
}

/// Distinct function indices below `n` are at most `n`.
proof fn lemma_fns_bounded(s: Seq<usize>, n: int)
    requires
        0 <= n,
        s.no_duplicates(),
        forall|i: int| 0 <= i < s.len() ==> #[trigger] s[i] < n,
    ensures
        s.len() <= n,
{
    let keys = s.map_values(|x: usize| x as int);
    assert(keys.no_duplicates()) by {
        assert forall|i: int, j: int| 0 <= i < keys.len() && 0 <= j < keys.len() && i != j implies keys[i] != keys[j] by {
            assert(keys[i] == s[i] as int && keys[j] == s[j] as int);
        }
    }
    keys.unique_seq_to_set();
    if n >= 0 {
        lemma_int_range(0, n);
        assert forall|k: int| #[trigger] keys.to_set().contains(k) implies set_int_range(0, n).contains(k) by {
            assert(keys.contains(k));
            let i = choose|i: int| 0 <= i < keys.len() && keys[i] == k;
            assert(keys[i] == s[i] as int);
        }
        assert(keys.to_set().subset_of(set_int_range(0, n)));
        lemma_len_subset(keys.to_set(), set_int_range(0, n));
    }
}

/// The state `(f, t, l)` has been walked, or lies outside the state space.
/// `skip` names one state that is taken as walked.
pub open spec fn seen(p: Program, v: Seq<LocalBlockPair>, f: usize, t: usize, l: Local, skip: Option<(usize, Local)>) -> bool {
    let y = LocalBlockPair { block: Bbid { func: f, block: t }, local: l };
    skip == Some((t, l)) || !in_domain(p, y) || v.contains(y)
}

/// The walk has been carried on from state `x`: each state the guard's slot
/// moves to after `x` within the function has been walked, a callee that
/// receives the guard has been entered, and a callee that does not has been
/// swept. Where `o` records that the callee returned the guard, the call's
/// continuation has been walked with the guard in the call's destination;
/// where `o` records that the walk follows a returned guard out of `x`,
/// every return location in `rets` has been walked.
pub open spec fn flow_closed_except(
    p: Program,
    rets: spec_fn(usize, ReturnLocation) -> bool,
    v: Seq<LocalBlockPair>,
    s: Seq<usize>,
    o: Map<LocalBlockPair, GuardState>,
    x: LocalBlockPair,
    skip: Option<(usize, Local)>,
) -> bool {
    let f = x.block.func;
    let data = p.fns@[f as int].body->0.blocks@[x.block.block as int];
    match local_after_statements(data.statements@, x.local) {
        Err(_) => true,
        Ok(l) => match data.terminator {
            Terminator::Goto { target } => seen(p, v, f, target, l, skip),
            Terminator::SwitchInt { targets, otherwise } => seen(p, v, f, otherwise, l, skip)
                && forall|i: int| 0 <= i < targets@.len() ==> seen(p, v, f, #[trigger] targets@[i], l, None),
            Terminator::Drop { place, target, .. } => place == l || seen(p, v, f, target, l, skip),
            Terminator::Call { callee, args, destination, target, .. } => destination == l
                || match guard_arg_from(args@, l, 0) {
                Err(_) => true,
                Ok(None) => (match callee {
                    Some(h) => h < p.fns@.len() ==> s.contains(h),
                    None => true,
                }) && (match target {
                    Some(t) => seen(p, v, f, t, l, skip),
                    None => true,
                }),
                Ok(Some(k)) => match callee {
                    Some(h) => seen(p, v, h, START_BLOCK, k as usize, None) && (o.contains_key(x)
                        && o[x] == GuardState::Returned ==> match target {
                        Some(t) => seen(p, v, f, t, destination, skip),
                        None => true,
                    }),
                    None => true,
                },
            },
            Terminator::Return => l == RETURN_PLACE && o.contains_key(x) && o[x] == GuardState::Returned
                ==> forall|loc: ReturnLocation| #[trigger] rets(f, loc) ==> seen(p, v, loc.return_bbid.func,
                loc.return_bbid.block, loc.return_local, None),
            Terminator::Assert { target, .. } => seen(p, v, f, target, l, skip),
            Terminator::FalseEdge { real_target, .. } => seen(p, v, f, real_target, l, skip),
            Terminator::FalseUnwind { real_target, .. } => seen(p, v, f, real_target, l, skip),
            Terminator::InlineAsm { destination, .. } => match destination {
                Some(d) => seen(p, v, f, d, l, skip),
                None => true,
            },
            _ => true,
        },
    }
}

/// The walk has been carried on from state `x` (see [`flow_closed_except`]).
pub open spec fn flow_closed(p: Program, rets: spec_fn(usize, ReturnLocation) -> bool, v: Seq<LocalBlockPair>, s: Seq<usize>, o: Map<LocalBlockPair, GuardState>, x: LocalBlockPair) -> bool {
    flow_closed_except(p, rets, v, s, o, x, None)
}

/// Carrying on stays true as more states are walked and more functions swept.
proof fn lemma_flow_closed_mono(
    p: Program,
    rets: spec_fn(usize, ReturnLocation) -> bool,
    v1: Seq<LocalBlockPair>,
    s1: Seq<usize>,
    v2: Seq<LocalBlockPair>,
    s2: Seq<usize>,
    o1: Map<LocalBlockPair, GuardState>,
    o2: Map<LocalBlockPair, GuardState>,
    x: LocalBlockPair,
    skip: Option<(usize, Local)>,
)
    requires
        flow_closed_except(p, rets, v1, s1, o1, x, skip),
        forall|y: LocalBlockPair| v1.contains(y) ==> #[trigger] v2.contains(y),
        forall|h: usize| s1.contains(h) ==> #[trigger] s2.contains(h),
        o1.contains_key(x) == o2.contains_key(x),
        o1.contains_key(x) ==> o2[x] == o1[x],
    ensures
        flow_closed_except(p, rets, v2, s2, o2, x, skip),
{
    let f = x.block.func;
    let data = p.fns@[f as int].body->0.blocks@[x.block.block as int];
    match local_after_statements(data.statements@, x.local) {
        Err(_) => {},
        Ok(l) => match data.terminator {
            Terminator::SwitchInt { targets, otherwise } => {
                assert forall|i: int| 0 <= i < targets@.len() implies seen(p, v2, f, #[trigger] targets@[i], l, None) by {
                    assert(seen(p, v1, f, targets@[i], l, None));
                }
            },
            _ => {},
        },
    }
}

/// Once the skipped state has been walked, nothing is skipped.
proof fn lemma_flow_closed_unskip(p: Program, rets: spec_fn(usize, ReturnLocation) -> bool, v: Seq<LocalBlockPair>, s: Seq<usize>, o: Map<LocalBlockPair, GuardState>, x: LocalBlockPair, t: usize, l: Local)
    requires
        flow_closed_except(p, rets, v, s, o, x, Some((t, l))),
        seen(p, v, x.block.func, t, l, None),
    ensures
        flow_closed(p, rets, v, s, o, x),
{
}

/// States `lo..` of `v1` are carried on, but for a pending one; this stays
/// true as the walk goes on.
proof fn lemma_closed_range_mono(
    p: Program,
    rets: spec_fn(usize, ReturnLocation) -> bool,
    v1: Seq<LocalBlockPair>,
    s1: Seq<usize>,
    v2: Seq<LocalBlockPair>,
    s2: Seq<usize>,
    o1: Map<LocalBlockPair, GuardState>,
    o2: Map<LocalBlockPair, GuardState>,
    lo: int,
    pidx: int,
    skip: Option<(usize, Local)>,
    pending: bool,
)
    requires
        0 <= lo,
        v1.len() <= v2.len(),
        forall|i: int| 0 <= i < v1.len() ==> #[trigger] v2[i] == v1[i],
        forall|h: usize| s1.contains(h) ==> #[trigger] s2.contains(h),
        forall|y: LocalBlockPair| #[trigger] o1.contains_key(y) ==> o2.contains_key(y) && o2[y] == o1[y],
        forall|y: LocalBlockPair| #[trigger] o2.contains_key(y) && !o1.contains_key(y) ==> !v1.contains(y),
        forall|i: int| lo <= i < v1.len() && i != pidx ==> flow_closed(p, rets, v1, s1, o1, #[trigger] v1[i]),
        pending && lo <= pidx < v1.len() ==> flow_closed_except(p, rets, v1, s1, o1, v1[pidx], skip),
    ensures
        forall|i: int| lo <= i < v1.len() && i != pidx ==> flow_closed(p, rets, v2, s2, o2, #[trigger] v2[i]),
        pending && lo <= pidx < v1.len() ==> flow_closed_except(p, rets, v2, s2, o2, v2[pidx], skip),
{
    assert forall|y: LocalBlockPair| v1.contains(y) implies #[trigger] v2.contains(y) by {
        let k = choose|k: int| 0 <= k < v1.len() && v1[k] == y;
        assert(v2[k] == y);
    }
    assert forall|i: int| lo <= i < v1.len() && i != pidx implies flow_closed(p, rets, v2, s2, o2, #[trigger] v2[i]) by {
        assert(v2[i] == v1[i]);
        assert(v1.contains(v1[i]));
        lemma_flow_closed_mono(p, rets, v1, s1, v2, s2, o1, o2, v1[i], None);
    }
    if pending && lo <= pidx < v1.len() {
        assert(v2[pidx] == v1[pidx]);
        assert(v1.contains(v1[pidx]));
        lemma_flow_closed_mono(p, rets, v1, s1, v2, s2, o1, o2, v1[pidx], skip);
    }
}

/// The function called at block `b` of `f`, if known, has been swept.
pub open spec fn calls_swept(p: Program, s: Seq<usize>, f: usize, b: usize) -> bool {
    match p.fns@[f as int].body->0.blocks@[b as int].terminator {
        Terminator::Call { callee: Some(h), .. } => h < p.fns@.len() ==> s.contains(h),
        _ => true,
    }
}

/// `children` holds every acquisition met on some set of walk states that
/// contains `start` (when it is a state at all) and is carried on from each
/// of its states, and every reachable acquisition of the functions swept on
/// the way, which are closed under the calls they make. It holds nothing
/// else: each walked state is reached from `start` by flow steps, each swept
/// function is called from a walked state or an earlier swept function, and
/// each child is an acquisition at a walked state or in a swept function.
/// No walked state raises an error.
pub open spec fn walk_covers(p: Program, rets: spec_fn(usize, ReturnLocation) -> bool, invs: Seq<LockInvocation>, start: LocalBlockPair, children: Seq<Bbid>) -> bool {
    exists|v: Seq<LocalBlockPair>, s: Seq<usize>, o: Map<LocalBlockPair, GuardState>| #[trigger] walk_witness(p, rets, invs, start, children, v, s, o)
}

/// The walk states `v`, with the functions `s` swept and the callee
/// outcomes `o` recorded, witness [`walk_covers`].
pub open spec fn walk_witness(
    p: Program,
    rets: spec_fn(usize, ReturnLocation) -> bool,
    invs: Seq<LockInvocation>,
    start: LocalBlockPair,
    children: Seq<Bbid>,
    v: Seq<LocalBlockPair>,
    s: Seq<usize>,
    o: Map<LocalBlockPair, GuardState>,
) -> bool {
    &&& in_domain(p, start) ==> v.contains(start)
    &&& forall|i: int| 0 <= i < v.len() ==> in_domain(p, #[trigger] v[i]) && flow_closed(p, rets, v, s, o, v[i])
    &&& forall|i: int| 0 <= i < v.len() && is_invocation(invs, (#[trigger] v[i]).block)
        ==> children.contains(v[i].block)
    &&& forall|i: int| 0 <= i < s.len() ==> swept_closed(p, invs, children, s, #[trigger] s[i])
    &&& forall|i: int| 0 <= i < v.len() ==> reached(p, rets, o, start, #[trigger] v[i])
    &&& forall|i: int| 0 <= i < v.len() ==> quiet(p, #[trigger] v[i])
    &&& forall|j: int| 0 <= j < s.len() ==> #[trigger] swept_for(p, v, 0, s, 0, j)
    &&& forall|k: int| 0 <= k < children.len() ==> is_invocation(invs, #[trigger] children[k])
        && found_in(p, v, 0, s, 0, children[k])
}

/// Block `b` of function `g`, if reachable, has been swept: an acquisition
/// there is recorded in `deps`, and a function it calls has been swept.
pub open spec fn block_swept(p: Program, invs: Seq<LockInvocation>, deps: Seq<Bbid>, s: Seq<usize>, g: usize, b: usize) -> bool {
    g < p.fns@.len() && p.fns@[g as int].body is Some && b < p.fns@[g as int].body->0.blocks@.len()
        && crate::graph::reachable(crate::graph::edges(crate::ir::cfg(p.fns@[g as int].body->0)), START_BLOCK, b)
        ==> (is_invocation(invs, Bbid { func: g, block: b }) ==> deps.contains(Bbid { func: g, block: b }))
        && (!is_invocation(invs, Bbid { func: g, block: b }) ==> calls_swept(p, s, g, b))
}

/// Every reachable block of function `g` has been swept.
pub open spec fn swept_closed(p: Program, invs: Seq<LockInvocation>, deps: Seq<Bbid>, s: Seq<usize>, g: usize) -> bool {
    forall|b: usize| #[trigger] block_swept(p, invs, deps, s, g, b)
}

proof fn lemma_swept_range_mono(
    p: Program,
    invs: Seq<LockInvocation>,
    d1: Seq<Bbid>,
    s1: Seq<usize>,
    d2: Seq<Bbid>,
    s2: Seq<usize>,
    lo: int,
)
    requires
        0 <= lo,
        s1.len() <= s2.len(),
        forall|i: int| 0 <= i < s1.len() ==> #[trigger] s2[i] == s1[i],
        forall|b: Bbid| d1.contains(b) ==> #[trigger] d2.contains(b),
        forall|i: int| lo <= i < s1.len() ==> swept_closed(p, invs, d1, s1, #[trigger] s1[i]),
    ensures
        forall|i: int| lo <= i < s1.len() ==> swept_closed(p, invs, d2, s2, #[trigger] s2[i]),
{
    assert forall|h: usize| s1.contains(h) implies #[trigger] s2.contains(h) by {
        let k = choose|k: int| 0 <= k < s1.len() && s1[k] == h;
        assert(s2[k] == h);
    }
    assert forall|i: int| lo <= i < s1.len() implies swept_closed(p, invs, d2, s2, #[trigger] s2[i]) by {
        let g = s1[i];
        assert(s2[i] == g);
        assert forall|b: usize| #[trigger] block_swept(p, invs, d2, s2, g, b) by {
            assert(block_swept(p, invs, d1, s1, g, b));
        }
    }
}

/// The state `(f, b, l)`.
pub open spec fn state(f: usize, b: usize, l: Local) -> LocalBlockPair {
    LocalBlockPair { block: Bbid { func: f, block: b }, local: l }
}

/// Return edges given as one list of return locations per function.
pub open spec fn map_rets(m: Seq<Seq<ReturnLocation>>) -> spec_fn(usize, ReturnLocation) -> bool {
    |h: usize, loc: ReturnLocation| h < m.len() && m[h as int].contains(loc)
}

/// One step of the guard's flow from state `x` to state `y`: within the
/// function, into a callee that receives the guard, on to the call's
/// continuation with the guard in its destination, and from a return of the
/// guard to every return location of the function in `rets`.
pub open spec fn flow_step(p: Program, rets: spec_fn(usize, ReturnLocation) -> bool, x: LocalBlockPair, y: LocalBlockPair) -> bool {
    let f = x.block.func;
    let data = p.fns@[f as int].body->0.blocks@[x.block.block as int];
    in_domain(p, x) && match local_after_statements(data.statements@, x.local) {
        Err(_) => false,
        Ok(l) => match data.terminator {
            Terminator::Goto { target } => y == state(f, target, l),
            Terminator::SwitchInt { targets, otherwise } => y == state(f, otherwise, l)
                || (y.block.func == f && y.local == l && targets@.contains(y.block.block)),
            Terminator::Return => l == RETURN_PLACE && rets(f, ReturnLocation { return_bbid: y.block, return_local: y.local }),
            Terminator::Drop { place, target, .. } => place != l && y == state(f, target, l),
            Terminator::Call { callee, args, destination, target, .. } => destination != l
                && match guard_arg_from(args@, l, 0) {
                Err(_) => false,
                Ok(None) => target == Some(y.block.block) && y.block.func == f && y.local == l,
                Ok(Some(k)) => match callee {
                    Some(h) => y == state(h, START_BLOCK, k as usize) || (target == Some(y.block.block)
                        && y.block.func == f && y.local == destination),
                    None => false,
                },
            },
            Terminator::Assert { target, .. } => y == state(f, target, l),
            Terminator::FalseEdge { real_target, .. } => y == state(f, real_target, l),
            Terminator::FalseUnwind { real_target, .. } => y == state(f, real_target, l),
            Terminator::InlineAsm { destination, .. } => destination == Some(y.block.block) && y.block.func == f
                && y.local == l,
            _ => false,
        },
    }
}

/// `y` can be reached from `x` in at most `n` flow steps.
pub open spec fn flow_reach(p: Program, rets: spec_fn(usize, ReturnLocation) -> bool, n: nat, x: LocalBlockPair, y: LocalBlockPair) -> bool
    decreases n,
{
    if n == 0 {
        x == y
    } else {
        flow_reach(p, rets, (n - 1) as nat, x, y) || exists|m: LocalBlockPair|
            flow_reach(p, rets, (n - 1) as nat, x, m) && #[trigger] flow_step(p, rets, m, y)
    }
}

/// State `x` raises `e`: its statements, or its terminator with the guard
/// where the statements leave it, are outside the walk's model.
pub open spec fn raises(p: Program, x: LocalBlockPair, e: AnalysisError) -> bool {
    let data = p.fns@[x.block.func as int].body->0.blocks@[x.block.block as int];
    in_domain(p, x) && match local_after_statements(data.statements@, x.local) {
        Err(e2) => e2 == e,
        Ok(l) => match data.terminator {
            Terminator::Return => l != RETURN_PLACE && e == AnalysisError::ReturnWithoutDrop,
            Terminator::Call { args, destination, .. } => (destination == l && e == AnalysisError::GuardOverwritten)
                || (destination != l && guard_arg_from(args@, l, 0) == Err::<Option<int>, AnalysisError>(e)),
            Terminator::Yield { .. } => e == AnalysisError::UnsupportedTerminator,
            Terminator::GeneratorDrop => e == AnalysisError::UnsupportedTerminator,
            _ => false,
        },
    }
}

/// State `x` raises no error.
pub open spec fn quiet(p: Program, x: LocalBlockPair) -> bool {
    forall|e: AnalysisError| !#[trigger] raises(p, x, e)
}

/// Following the guard from `start` reaches a state that raises `e`.
pub open spec fn walk_fails(p: Program, rets: spec_fn(usize, ReturnLocation) -> bool, start: LocalBlockPair, e: AnalysisError) -> bool {
    exists|n: nat, x: LocalBlockPair| #[trigger] flow_reach(p, rets, n, start, x) && raises(p, x, e)
}

proof fn lemma_flow_reach_step(p: Program, rets: spec_fn(usize, ReturnLocation) -> bool, n: nat, x: LocalBlockPair, m: LocalBlockPair, y: LocalBlockPair)
    requires
        flow_reach(p, rets, n, x, m),
        flow_step(p, rets, m, y),
    ensures
        flow_reach(p, rets, n + 1, x, y),
{
    let n1 = (n + 1) as nat;
    assert((n1 - 1) as nat == n);
}

proof fn lemma_flow_reach_trans(p: Program, rets: spec_fn(usize, ReturnLocation) -> bool, n1: nat, x: LocalBlockPair, m: LocalBlockPair, n2: nat, y: LocalBlockPair)
    requires
        flow_reach(p, rets, n1, x, m),
        flow_reach(p, rets, n2, m, y),
    ensures
        flow_reach(p, rets, n1 + n2, x, y),
    decreases n2,
{
    if n2 == 0 {
        lemma_flow_reach_mono(p, rets, n1, n1 + n2, x, y);
    } else if flow_reach(p, rets, (n2 - 1) as nat, m, y) {
        lemma_flow_reach_trans(p, rets, n1, x, m, (n2 - 1) as nat, y);
        lemma_flow_reach_mono(p, rets, (n1 + n2 - 1) as nat, n1 + n2, x, y);
    } else {
        let z = choose|z: LocalBlockPair| flow_reach(p, rets, (n2 - 1) as nat, m, z) && #[trigger] flow_step(p, rets, z, y);
        lemma_flow_reach_trans(p, rets, n1, x, m, (n2 - 1) as nat, z);
        lemma_flow_reach_step(p, rets, (n1 + n2 - 1) as nat, x, z, y);
    }
}

proof fn lemma_flow_reach_mono(p: Program, rets: spec_fn(usize, ReturnLocation) -> bool, n: nat, n2: nat, x: LocalBlockPair, y: LocalBlockPair)
    requires
        flow_reach(p, rets, n, x, y),
        n <= n2,
    ensures
        flow_reach(p, rets, n2, x, y),
    decreases n2,
{
    if n < n2 {
        lemma_flow_reach_mono(p, rets, n, (n2 - 1) as nat, x, y);
    }
}

/// A failure from a state one step on is a failure from `x`'s walk.
proof fn lemma_walk_fails_back(p: Program, rets: spec_fn(usize, ReturnLocation) -> bool, n: nat, start: LocalBlockPair, here: LocalBlockPair, next: LocalBlockPair, e: AnalysisError)
    requires
        flow_reach(p, rets, n, start, here),
        flow_step(p, rets, here, next),
        walk_fails(p, rets, next, e),
    ensures
        walk_fails(p, rets, start, e),
{
    let (n2, x) = choose|n2: nat, x: LocalBlockPair| #[trigger] flow_reach(p, rets, n2, next, x) && raises(p, x, e);
    lemma_flow_reach_step(p, rets, n, start, here, next);
    lemma_flow_reach_trans(p, rets, n + 1, start, next, n2, x);
}

/// Block `b` of function `g` is reachable from the function's entry.
pub open spec fn fn_live(p: Program, g: usize, b: usize) -> bool {
    &&& g < p.fns@.len()
    &&& p.fns@[g as int].body is Some
    &&& b < p.fns@[g as int].body->0.blocks@.len()
    &&& crate::graph::reachable(crate::graph::edges(crate::ir::cfg(p.fns@[g as int].body->0)), START_BLOCK, b)
}

/// The terminator of block `x` calls function `h`.
pub open spec fn calls_at(p: Program, x: Bbid, h: usize) -> bool {
    &&& x.func < p.fns@.len()
    &&& p.fns@[x.func as int].body is Some
    &&& x.block < p.fns@[x.func as int].body->0.blocks@.len()
    &&& match p.fns@[x.func as int].body->0.blocks@[x.block as int].terminator {
        Terminator::Call { callee: Some(c), .. } => c == h,
        _ => false,
    }
}

/// `d` is the block of a state of `v` from `lo` on, or a reachable block of
/// a function of `s` from `slo` on.
pub open spec fn found_in(p: Program, v: Seq<LocalBlockPair>, lo: int, s: Seq<usize>, slo: int, d: Bbid) -> bool {
    (exists|i: int| lo <= i < v.len() && (#[trigger] v[i]).block == d)
    || (exists|j: int, b: usize| slo <= j < s.len() && d == (Bbid { func: s[j], block: b }) && #[trigger] fn_live(p, s[j], b))
}

/// Function `s[j]` is called at a state of `v` from `lo` on, or at a
/// reachable block of a function swept before it, from `slo` on.
pub open spec fn swept_for(p: Program, v: Seq<LocalBlockPair>, lo: int, s: Seq<usize>, slo: int, j: int) -> bool {
    (exists|i: int| lo <= i < v.len() && #[trigger] calls_at(p, v[i].block, s[j]))
    || (exists|j2: int, b: usize| slo <= j2 < j && fn_live(p, s[j2], b) && #[trigger] calls_at(p, Bbid { func: s[j2], block: b }, s[j]))
}

/// The callee entry that state `x` hands the guard to, if its terminator
/// moves the guard into a known function.
pub open spec fn guard_call_entry(p: Program, x: LocalBlockPair) -> Option<LocalBlockPair> {
    let data = p.fns@[x.block.func as int].body->0.blocks@[x.block.block as int];
    if in_domain(p, x) {
        match local_after_statements(data.statements@, x.local) {
            Ok(l) => match data.terminator {
                Terminator::Call { callee: Some(h), args, destination, .. } => if destination != l {
                    match guard_arg_from(args@, l, 0) {
                        Ok(Some(k)) => Some(state(h, START_BLOCK, k as usize)),
                        _ => None,
                    }
                } else {
                    None
                },
                _ => None,
            },
            Err(_) => None,
        }
    } else {
        None
    }
}

/// At state `x` the guard leaves the function by its return slot.
pub open spec fn returns_guard(p: Program, x: LocalBlockPair) -> bool {
    let data = p.fns@[x.block.func as int].body->0.blocks@[x.block.block as int];
    in_domain(p, x) && data.terminator is Return
        && local_after_statements(data.statements@, x.local) == Ok::<Local, AnalysisError>(RETURN_PLACE)
}

/// At state `x` the guard is released: dropped, handed to a function that
/// cannot be followed, or handed to a callee recorded in `o` as dropping it.
pub open spec fn drops_guard(p: Program, o: Map<LocalBlockPair, GuardState>, x: LocalBlockPair) -> bool {
    let data = p.fns@[x.block.func as int].body->0.blocks@[x.block.block as int];
    in_domain(p, x) && match local_after_statements(data.statements@, x.local) {
        Ok(l) => match data.terminator {
            Terminator::Drop { place, .. } => place == l,
            Terminator::Call { callee, args, destination, .. } => destination != l && match guard_arg_from(args@, l, 0) {
                Ok(Some(_)) => callee is None || (o.contains_key(x) && o[x] == GuardState::Dropped),
                _ => false,
            },
            _ => false,
        },
        Err(_) => false,
    }
}

/// `g` is backed by a walked state of `v` from `lo` on: a return of the
/// guard for `Returned`, a release of it for `Dropped`.
pub open spec fn outcome_witnessed(p: Program, v: Seq<LocalBlockPair>, o: Map<LocalBlockPair, GuardState>, lo: int, g: GuardState) -> bool {
    &&& g == GuardState::Returned ==> exists|k: int| lo <= k < v.len() && returns_guard(p, #[trigger] v[k])
    &&& g == GuardState::Dropped ==> exists|k: int| lo <= k < v.len() && drops_guard(p, o, #[trigger] v[k])
}

proof fn lemma_witness_grow(p: Program, v1: Seq<LocalBlockPair>, o1: Map<LocalBlockPair, GuardState>,
    v2: Seq<LocalBlockPair>, o2: Map<LocalBlockPair, GuardState>, lo: int, g: GuardState)
    requires
        0 <= lo,
        is_prefix(v1, v2),
        submap_eq(o1, o2),
        outcome_witnessed(p, v1, o1, lo, g),
    ensures
        outcome_witnessed(p, v2, o2, lo, g),
{
    if g == GuardState::Returned {
        let k = choose|k: int| lo <= k < v1.len() && returns_guard(p, #[trigger] v1[k]);
        assert(v2[k] == v1[k]);
    }
    if g == GuardState::Dropped {
        let k = choose|k: int| lo <= k < v1.len() && drops_guard(p, o1, #[trigger] v1[k]);
        assert(v2[k] == v1[k]);
        if o1.contains_key(v1[k]) {
            assert(o2.contains_key(v1[k]) && o2[v1[k]] == o1[v1[k]]);
        }
        assert(drops_guard(p, o2, v2[k]));
    }
}

proof fn lemma_witness_combine(p: Program, v: Seq<LocalBlockPair>, o: Map<LocalBlockPair, GuardState>, lo: int, mid: int, g: GuardState, b: GuardState)
    requires
        0 <= lo <= mid,
        outcome_witnessed(p, v, o, lo, g),
        outcome_witnessed(p, v, o, mid, b),
    ensures
        outcome_witnessed(p, v, o, lo, combine_spec(g, b)),
{
    if b == GuardState::Returned {
        let k = choose|k: int| mid <= k < v.len() && returns_guard(p, #[trigger] v[k]);
    }
    if b == GuardState::Dropped {
        let k = choose|k: int| mid <= k < v.len() && drops_guard(p, o, #[trigger] v[k]);
    }
}

/// State `x` ends in a return.
pub open spec fn is_return_state(p: Program, x: LocalBlockPair) -> bool {
    in_domain(p, x) && p.fns@[x.block.func as int].body->0.blocks@[x.block.block as int].terminator is Return
}

/// A flow step the walk takes given the recorded outcomes `o`: past a call
/// that hands the guard on, only where the callee returned it; out of a
/// return, only where the walk follows the guard to the callers.
pub open spec fn rec_step(p: Program, rets: spec_fn(usize, ReturnLocation) -> bool, o: Map<LocalBlockPair, GuardState>, x: LocalBlockPair, y: LocalBlockPair) -> bool {
    &&& flow_step(p, rets, x, y)
    &&& is_return_state(p, x) ==> o.contains_key(x) && o[x] == GuardState::Returned
    &&& guard_call_entry(p, x) is Some && y != guard_call_entry(p, x)->0
        ==> o.contains_key(x) && o[x] == GuardState::Returned
}

/// `y` can be reached from `x` in at most `n` recorded steps.
pub open spec fn rec_reach(p: Program, rets: spec_fn(usize, ReturnLocation) -> bool, o: Map<LocalBlockPair, GuardState>, n: nat, x: LocalBlockPair, y: LocalBlockPair) -> bool
    decreases n,
{
    if n == 0 {
        x == y
    } else {
        rec_reach(p, rets, o, (n - 1) as nat, x, y) || exists|m: LocalBlockPair|
            rec_reach(p, rets, o, (n - 1) as nat, x, m) && #[trigger] rec_step(p, rets, o, m, y)
    }
}

/// `x` can be reached from `start` by the steps the walk takes.
pub open spec fn reached(p: Program, rets: spec_fn(usize, ReturnLocation) -> bool, o: Map<LocalBlockPair, GuardState>, start: LocalBlockPair, x: LocalBlockPair) -> bool {
    exists|n: nat| #[trigger] rec_reach(p, rets, o, n, start, x)
}

pub open spec fn submap_eq(o1: Map<LocalBlockPair, GuardState>, o2: Map<LocalBlockPair, GuardState>) -> bool {
    forall|y: LocalBlockPair| #[trigger] o1.contains_key(y) ==> o2.contains_key(y) && o2[y] == o1[y]
}

proof fn lemma_rec_reach_step(p: Program, rets: spec_fn(usize, ReturnLocation) -> bool, o: Map<LocalBlockPair, GuardState>, n: nat, x: LocalBlockPair, m: LocalBlockPair, y: LocalBlockPair)
    requires
        rec_reach(p, rets, o, n, x, m),
        rec_step(p, rets, o, m, y),
    ensures
        rec_reach(p, rets, o, n + 1, x, y),
{
    let n1 = (n + 1) as nat;
    assert((n1 - 1) as nat == n);
}

proof fn lemma_rec_reach_mono_n(p: Program, rets: spec_fn(usize, ReturnLocation) -> bool, o: Map<LocalBlockPair, GuardState>, n: nat, n2: nat, x: LocalBlockPair, y: LocalBlockPair)
    requires
        rec_reach(p, rets, o, n, x, y),
        n <= n2,
    ensures
        rec_reach(p, rets, o, n2, x, y),
    decreases n2,
{
    if n < n2 {
        lemma_rec_reach_mono_n(p, rets, o, n, (n2 - 1) as nat, x, y);
    }
}

proof fn lemma_rec_reach_trans(p: Program, rets: spec_fn(usize, ReturnLocation) -> bool, o: Map<LocalBlockPair, GuardState>, n1: nat, x: LocalBlockPair, m: LocalBlockPair, n2: nat, y: LocalBlockPair)
    requires
        rec_reach(p, rets, o, n1, x, m),
        rec_reach(p, rets, o, n2, m, y),
    ensures
        rec_reach(p, rets, o, n1 + n2, x, y),
    decreases n2,
{
    if n2 == 0 {
        lemma_rec_reach_mono_n(p, rets, o, n1, n1 + n2, x, y);
    } else if rec_reach(p, rets, o, (n2 - 1) as nat, m, y) {
        lemma_rec_reach_trans(p, rets, o, n1, x, m, (n2 - 1) as nat, y);
        lemma_rec_reach_mono_n(p, rets, o, (n1 + n2 - 1) as nat, n1 + n2, x, y);
    } else {
        let z = choose|z: LocalBlockPair| rec_reach(p, rets, o, (n2 - 1) as nat, m, z) && #[trigger] rec_step(p, rets, o, z, y);
        lemma_rec_reach_trans(p, rets, o, n1, x, m, (n2 - 1) as nat, z);
        lemma_rec_reach_step(p, rets, o, (n1 + n2 - 1) as nat, x, z, y);
    }
}

/// Recorded steps are flow steps.
proof fn lemma_rec_to_flow(p: Program, rets: spec_fn(usize, ReturnLocation) -> bool, o: Map<LocalBlockPair, GuardState>, n: nat, x: LocalBlockPair, y: LocalBlockPair)
    requires
        rec_reach(p, rets, o, n, x, y),
    ensures
        flow_reach(p, rets, n, x, y),
    decreases n,
{
    if n > 0 {
        if rec_reach(p, rets, o, (n - 1) as nat, x, y) {
            lemma_rec_to_flow(p, rets, o, (n - 1) as nat, x, y);
            lemma_flow_reach_mono(p, rets, (n - 1) as nat, n, x, y);
        } else {
            let z = choose|z: LocalBlockPair| rec_reach(p, rets, o, (n - 1) as nat, x, z) && #[trigger] rec_step(p, rets, o, z, y);
            lemma_rec_to_flow(p, rets, o, (n - 1) as nat, x, z);
            lemma_flow_reach_step(p, rets, (n - 1) as nat, x, z, y);
        }
    }
}

/// Recording more outcomes keeps every path.
proof fn lemma_rec_reach_grow(p: Program, rets: spec_fn(usize, ReturnLocation) -> bool, o1: Map<LocalBlockPair, GuardState>, o2: Map<LocalBlockPair, GuardState>, n: nat, x: LocalBlockPair, y: LocalBlockPair)
    requires
        rec_reach(p, rets, o1, n, x, y),
        submap_eq(o1, o2),
    ensures
        rec_reach(p, rets, o2, n, x, y),
    decreases n,
{
    if n > 0 {
        if rec_reach(p, rets, o1, (n - 1) as nat, x, y) {
            lemma_rec_reach_grow(p, rets, o1, o2, (n - 1) as nat, x, y);
        } else {
            let z = choose|z: LocalBlockPair| rec_reach(p, rets, o1, (n - 1) as nat, x, z) && #[trigger] rec_step(p, rets, o1, z, y);
            lemma_rec_reach_grow(p, rets, o1, o2, (n - 1) as nat, x, z);
            if o1.contains_key(z) {
                assert(o2.contains_key(z) && o2[z] == o1[z]);
            }
            lemma_rec_reach_step(p, rets, o2, (n - 1) as nat, x, z, y);
        }
    }
}

proof fn lemma_reached_range_grow(p: Program, rets: spec_fn(usize, ReturnLocation) -> bool, o1: Map<LocalBlockPair, GuardState>, o2: Map<LocalBlockPair, GuardState>, start: LocalBlockPair, v: Seq<LocalBlockPair>, lo: int)
    requires
        submap_eq(o1, o2),
        forall|i: int| lo <= i < v.len() ==> reached(p, rets, o1, start, #[trigger] v[i]),
    ensures
        forall|i: int| lo <= i < v.len() ==> reached(p, rets, o2, start, #[trigger] v[i]),
{
    assert forall|i: int| lo <= i < v.len() implies reached(p, rets, o2, start, #[trigger] v[i]) by {
        let n = choose|n: nat| #[trigger] rec_reach(p, rets, o1, n, start, v[i]);
        lemma_rec_reach_grow(p, rets, o1, o2, n, start, v[i]);
    }
}

pub open spec fn is_prefix<A>(a: Seq<A>, b: Seq<A>) -> bool {
    a.len() <= b.len() && forall|i: int| 0 <= i < a.len() ==> #[trigger] b[i] == a[i]
}

proof fn lemma_found_grow(p: Program, v1: Seq<LocalBlockPair>, s1: Seq<usize>, v2: Seq<LocalBlockPair>, s2: Seq<usize>,
    lo: int, slo: int, lo2: int, slo2: int, d: Bbid)
    requires
        is_prefix(v1, v2),
        is_prefix(s1, s2),
        lo <= lo2,
        slo <= slo2,
        0 <= lo,
        0 <= slo,
        found_in(p, v1, lo, s1, slo, d) || found_in(p, v2, lo2, s2, slo2, d),
    ensures
        found_in(p, v2, lo, s2, slo, d),
{
    if found_in(p, v1, lo, s1, slo, d) {
        if exists|i: int| lo <= i < v1.len() && (#[trigger] v1[i]).block == d {
            let i = choose|i: int| lo <= i < v1.len() && (#[trigger] v1[i]).block == d;
            assert(v2[i] == v1[i]);
        } else {
            let (j, b) = choose|j: int, b: usize| slo <= j < s1.len() && d == (Bbid { func: s1[j], block: b }) && #[trigger] fn_live(p, s1[j], b);
            assert(s2[j] == s1[j]);
        }
    } else {
        if exists|i: int| lo2 <= i < v2.len() && (#[trigger] v2[i]).block == d {
            let i = choose|i: int| lo2 <= i < v2.len() && (#[trigger] v2[i]).block == d;
        } else {
            let (j, b) = choose|j: int, b: usize| slo2 <= j < s2.len() && d == (Bbid { func: s2[j], block: b }) && #[trigger] fn_live(p, s2[j], b);
        }
    }
}

proof fn lemma_swept_for_grow(p: Program, v1: Seq<LocalBlockPair>, s1: Seq<usize>, v2: Seq<LocalBlockPair>, s2: Seq<usize>,
    lo: int, slo: int, lo2: int, slo2: int, j: int)
    requires
        is_prefix(v1, v2),
        is_prefix(s1, s2),
        lo <= lo2,
        slo <= slo2,
        0 <= lo,
        0 <= slo,
        0 <= j < s2.len(),
        (j < s1.len() && swept_for(p, v1, lo, s1, slo, j)) || swept_for(p, v2, lo2, s2, slo2, j),
    ensures
        swept_for(p, v2, lo, s2, slo, j),
{
    if j < s1.len() && swept_for(p, v1, lo, s1, slo, j) {
        assert(s2[j] == s1[j]);
        if exists|i: int| lo <= i < v1.len() && #[trigger] calls_at(p, v1[i].block, s1[j]) {
            let i = choose|i: int| lo <= i < v1.len() && #[trigger] calls_at(p, v1[i].block, s1[j]);
            assert(v2[i] == v1[i]);
        } else {
            let (j2, b) = choose|j2: int, b: usize| slo <= j2 < j && fn_live(p, s1[j2], b) && #[trigger] calls_at(p, Bbid { func: s1[j2], block: b }, s1[j]);
            assert(s2[j2] == s1[j2]);
            assert(calls_at(p, Bbid { func: s2[j2], block: b }, s2[j]));
        }
    } else {
        if exists|i: int| lo2 <= i < v2.len() && #[trigger] calls_at(p, v2[i].block, s2[j]) {
            let i = choose|i: int| lo2 <= i < v2.len() && #[trigger] calls_at(p, v2[i].block, s2[j]);
        } else {
            let (j2, b) = choose|j2: int, b: usize| slo2 <= j2 < j && fn_live(p, s2[j2], b) && #[trigger] calls_at(p, Bbid { func: s2[j2], block: b }, s2[j]);
            assert(calls_at(p, Bbid { func: s2[j2], block: b }, s2[j]));
        }
    }
}

/// The bounds of a walk from `start` still hold after a nested walk from
/// `start2`, one flow step after the walked state `here`.
proof fn lemma_bounds_after_walk(
    p: Program,
    rets: spec_fn(usize, ReturnLocation) -> bool,
    start: LocalBlockPair,
    lo: int,
    slo: int,
    d0: Seq<Bbid>,
    v1: Seq<LocalBlockPair>,
    s1: Seq<usize>,
    d1: Seq<Bbid>,
    v2: Seq<LocalBlockPair>,
    s2: Seq<usize>,
    d2: Seq<Bbid>,
    hn: nat,
    here: LocalBlockPair,
    start2: LocalBlockPair,
    o1: Map<LocalBlockPair, GuardState>,
    o2: Map<LocalBlockPair, GuardState>,
)
    requires
        0 <= lo <= v1.len(),
        0 <= slo <= s1.len(),
        is_prefix(v1, v2),
        is_prefix(s1, s2),
        forall|d: Bbid| #[trigger] d1.contains(d) ==> d0.contains(d) || found_in(p, v1, lo, s1, slo, d),
        forall|j: int| slo <= j < s1.len() ==> #[trigger] swept_for(p, v1, lo, s1, slo, j),
        forall|i: int| lo <= i < v1.len() ==> reached(p, rets, o1, start, #[trigger] v1[i]),
        submap_eq(o1, o2),
        rec_reach(p, rets, o1, hn, start, here),
        rec_step(p, rets, o2, here, start2),
        forall|d: Bbid| #[trigger] d2.contains(d) ==> d1.contains(d) || found_in(p, v2, v1.len() as int, s2, s1.len() as int, d),
        forall|j: int| s1.len() <= j < s2.len() ==> #[trigger] swept_for(p, v2, v1.len() as int, s2, s1.len() as int, j),
        forall|i: int| v1.len() <= i < v2.len() ==> reached(p, rets, o2, start2, #[trigger] v2[i]),
    ensures
        forall|d: Bbid| #[trigger] d2.contains(d) ==> d0.contains(d) || found_in(p, v2, lo, s2, slo, d),
        forall|j: int| slo <= j < s2.len() ==> #[trigger] swept_for(p, v2, lo, s2, slo, j),
        forall|i: int| lo <= i < v2.len() ==> reached(p, rets, o2, start, #[trigger] v2[i]),
{
    assert forall|d: Bbid| #[trigger] d2.contains(d) implies d0.contains(d) || found_in(p, v2, lo, s2, slo, d) by {
        if d1.contains(d) {
            if !d0.contains(d) {
                lemma_found_grow(p, v1, s1, v2, s2, lo, slo, v1.len() as int, s1.len() as int, d);
            }
        } else {
            lemma_found_grow(p, v1, s1, v2, s2, lo, slo, v1.len() as int, s1.len() as int, d);
        }
    }
    assert forall|j: int| slo <= j < s2.len() implies #[trigger] swept_for(p, v2, lo, s2, slo, j) by {
        lemma_swept_for_grow(p, v1, s1, v2, s2, lo, slo, v1.len() as int, s1.len() as int, j);
    }
    lemma_reached_range_grow(p, rets, o1, o2, start, v1, lo);
    lemma_rec_reach_grow(p, rets, o1, o2, hn, start, here);
    lemma_rec_reach_step(p, rets, o2, hn, start, here, start2);
    assert forall|i: int| lo <= i < v2.len() implies reached(p, rets, o2, start, #[trigger] v2[i]) by {
        if i < v1.len() {
            assert(v2[i] == v1[i]);
        } else {
            let n2 = choose|n2: nat| #[trigger] rec_reach(p, rets, o2, n2, start2, v2[i]);
            lemma_rec_reach_trans(p, rets, o2, hn + 1, start, start2, n2, v2[i]);
        }
    }
}

/// The bounds of a walk still hold after sweeping function `h`, called at
/// the walked state `v[hidx]`.
proof fn lemma_bounds_after_sweep(
    p: Program,
    lo: int,
    slo: int,
    d0: Seq<Bbid>,
    v: Seq<LocalBlockPair>,
    s1: Seq<usize>,
    d1: Seq<Bbid>,
    s2: Seq<usize>,
    d2: Seq<Bbid>,
    hidx: int,
    h: usize,
)
    requires
        0 <= lo <= hidx < v.len(),
        0 <= slo <= s1.len(),
        is_prefix(s1, s2),
        calls_at(p, v[hidx].block, h),
        forall|d: Bbid| #[trigger] d1.contains(d) ==> d0.contains(d) || found_in(p, v, lo, s1, slo, d),
        forall|j: int| slo <= j < s1.len() ==> #[trigger] swept_for(p, v, lo, s1, slo, j),
        forall|d: Bbid| #[trigger] d2.contains(d) ==> d1.contains(d) || found_in(p, v, v.len() as int, s2, s1.len() as int, d),
        forall|j: int| s1.len() < j < s2.len() ==> #[trigger] swept_for(p, v, v.len() as int, s2, s1.len() as int, j),
        s2.len() > s1.len() ==> s2[s1.len() as int] == h,
    ensures
        forall|d: Bbid| #[trigger] d2.contains(d) ==> d0.contains(d) || found_in(p, v, lo, s2, slo, d),
        forall|j: int| slo <= j < s2.len() ==> #[trigger] swept_for(p, v, lo, s2, slo, j),
{
    assert(is_prefix(v, v));
    assert forall|d: Bbid| #[trigger] d2.contains(d) implies d0.contains(d) || found_in(p, v, lo, s2, slo, d) by {
        if d1.contains(d) {
            if !d0.contains(d) {
                lemma_found_grow(p, v, s1, v, s2, lo, slo, v.len() as int, s1.len() as int, d);
            }
        } else {
            lemma_found_grow(p, v, s1, v, s2, lo, slo, v.len() as int, s1.len() as int, d);
        }
    }
    assert forall|j: int| slo <= j < s2.len() implies #[trigger] swept_for(p, v, lo, s2, slo, j) by {
        if j == s1.len() {
            assert(calls_at(p, v[hidx].block, s2[j]));
        } else {
            lemma_swept_for_grow(p, v, s1, v, s2, lo, slo, v.len() as int, s1.len() as int, j);
        }
    }
}

/// What the walk gives at once for state `x`, when its first block decides
/// it: the guard dropped there or handed to an unknown function (`Dropped`),
/// returned there inside a callee (`Returned`), or the path ending in an
/// unwind, an unreachable point or a call that does not return
/// (`Undetermined`).
pub open spec fn guard_outcome_at(p: Program, x: LocalBlockPair, examine_returns: bool) -> Option<GuardState> {
    let data = p.fns@[x.block.func as int].body->0.blocks@[x.block.block as int];
    if in_domain(p, x) {
        match local_after_statements(data.statements@, x.local) {
            Ok(l) => match data.terminator {
                Terminator::Drop { place, .. } => if place == l {
                    Some(GuardState::Dropped)
                } else {
                    None
                },
                Terminator::Return => if l == RETURN_PLACE && !examine_returns {
                    Some(GuardState::Returned)
                } else {
                    None
                },
                Terminator::UnwindResume => Some(GuardState::Undetermined),
                Terminator::UnwindTerminate => Some(GuardState::Undetermined),
                Terminator::Unreachable => Some(GuardState::Undetermined),
                Terminator::InlineAsm { destination: None, .. } => Some(GuardState::Undetermined),
                Terminator::Call { callee, args, destination, target, .. } => if destination == l {
                    None
                } else {
                    match (guard_arg_from(args@, l, 0), callee) {
                        (Ok(Some(_)), None) => Some(GuardState::Dropped),
                        (Ok(None), _) => if target is None {
                            Some(GuardState::Undetermined)
                        } else {
                            None
                        },
                        _ => None,
                    }
                },
                _ => None,
            },
            Err(_) => None,
        }
    } else {
        None
    }
}

/// Collects, for one acquisition, the acquisitions reachable while its guard lives.
pub struct DependantClassCollector<'a> {
    program: &'a Program,
    invocation_map: &'a Vec<LockInvocation>,
    return_map: &'a FunctionReturnMap,
    dependant_classes: Vec<Bbid>,
    visited_blocks: Vec<LocalBlockPair>,
    /// Functions swept whole, without following a particular guard.
    visited_functions: Vec<usize>,
    /// For each walked call that hands the guard to a followed callee, what
    /// the callee did with it; `Returned` also marks each walked return from
    /// which the guard is followed to the callers.
    outcomes: Ghost<Map<LocalBlockPair, GuardState>>,
}

impl<'a> DependantClassCollector<'a> {
    pub closed spec fn program(&self) -> Program {
        *self.program
    }

    pub closed spec fn invocations(&self) -> Seq<LockInvocation> {
        self.invocation_map@
    }

    /// The acquisitions found so far.
    pub closed spec fn dependants(&self) -> Seq<Bbid> {
        self.dependant_classes@
    }

    /// The recorded return locations the walk follows.
    pub closed spec fn return_locations(&self) -> Seq<Seq<ReturnLocation>> {
        self.return_map@
    }

    /// The recorded callee outcomes.
    pub closed spec fn outcomes(&self) -> Map<LocalBlockPair, GuardState> {
        self.outcomes@
    }

    /// The states walked so far.
    pub closed spec fn visited_blocks(&self) -> Seq<LocalBlockPair> {
        self.visited_blocks@
    }

    /// The functions swept so far.
    pub closed spec fn visited_functions(&self) -> Seq<usize> {
        self.visited_functions@
    }

    pub closed spec fn inv(&self) -> bool {
        &&& self.return_map@.len() == self.program.fns@.len()
        &&& self.dependant_classes@.no_duplicates()
        &&& forall|i: int| 0 <= i < self.dependant_classes@.len()
            ==> is_invocation(self.invocation_map@, #[trigger] self.dependant_classes@[i])
        &&& self.visited_blocks@.no_duplicates()
        &&& forall|i: int| 0 <= i < self.visited_blocks@.len()
            ==> in_domain(*self.program, #[trigger] self.visited_blocks@[i])
        &&& forall|i: int| 0 <= i < self.visited_blocks@.len()
            && is_invocation(self.invocation_map@, (#[trigger] self.visited_blocks@[i]).block)
            ==> self.dependant_classes@.contains(self.visited_blocks@[i].block)
        &&& self.visited_functions@.no_duplicates()
        &&& forall|i: int| 0 <= i < self.visited_functions@.len()
            ==> #[trigger] self.visited_functions@[i] < self.program.fns@.len()
        &&& forall|y: LocalBlockPair| #[trigger] self.outcomes@.contains_key(y) ==> self.visited_blocks@.contains(y)
        &&& self.visited_blocks@.len() <= state_bound(*self.program)
        &&& self.visited_functions@.len() <= self.program.fns@.len()
    }

    /// `self` is a later state of the same collector than `before`: nothing is forgotten.
    pub open spec fn grows_from(&self, before: &Self) -> bool {
        &&& self.program() == before.program()
        &&& self.invocations() == before.invocations()
        &&& self.return_locations() == before.return_locations()
        &&& forall|y: LocalBlockPair| #[trigger] before.outcomes().contains_key(y)
            ==> self.outcomes().contains_key(y) && self.outcomes()[y] == before.outcomes()[y]
        &&& forall|b: Bbid| before.dependants().contains(b) ==> #[trigger] self.dependants().contains(b)
        &&& forall|x: LocalBlockPair| before.visited_blocks().contains(x)
            ==> #[trigger] self.visited_blocks().contains(x)
        &&& forall|i: int| 0 <= i < before.visited_blocks().len()
            ==> #[trigger] self.visited_blocks()[i] == before.visited_blocks()[i]
        &&& forall|i: int| 0 <= i < before.visited_functions().len()
            ==> #[trigger] self.visited_functions()[i] == before.visited_functions()[i]
        &&& forall|f: usize| before.visited_functions().contains(f)
            ==> #[trigger] self.visited_functions().contains(f)
        &&& self.visited_blocks().len() >= before.visited_blocks().len()
        &&& self.visited_functions().len() >= before.visited_functions().len()
    }

    pub fn new(program: &'a Program, invocation_map: &'a Vec<LockInvocation>, return_map: &'a FunctionReturnMap) -> (r: Self)
        requires
            return_map@.len() == program.fns@.len(),
        ensures
            r.inv(),
            r.program() == *program,
            r.invocations() == invocation_map@,
            r.return_locations() == return_map@,
            r.dependants().len() == 0,
            r.visited_blocks().len() == 0,
            r.visited_functions().len() == 0,
    {
        let r = DependantClassCollector {
            program,
            invocation_map,
            return_map,
            dependant_classes: Vec::new(),
            visited_blocks: Vec::new(),
            visited_functions: Vec::new(),
            outcomes: Ghost(Map::empty()),
        };
        proof {
            lemma_states_bounded(*program, r.visited_blocks@);
        }
        r
    }

    fn add_dependant(&mut self, b: Bbid)
        requires
            old(self).inv(),
            is_invocation(old(self).invocation_map@, b),
        ensures
            final(self).inv(),
            final(self).grows_from(old(self)),
            final(self).dependant_classes@.contains(b),
            final(self).outcomes() == old(self).outcomes(),
            final(self).visited_blocks@ == old(self).visited_blocks@,
            final(self).visited_functions@ == old(self).visited_functions@,
            forall|x: Bbid| #[trigger] final(self).dependant_classes@.contains(x)
                ==> old(self).dependant_classes@.contains(x) || x == b,
    {
        let mut i: usize = 0;
        while i < self.dependant_classes.len()
            invariant
                *self == *old(self),
                self.inv(),
                i <= self.dependant_classes@.len(),
                forall|k: int| 0 <= k < i ==> self.dependant_classes@[k] != b,
            decreases self.dependant_classes@.len() - i,
        {
            if self.dependant_classes[i] == b {
                return;
            }
            i = i + 1;
        }
        let ghost before = self.dependant_classes@;
        self.dependant_classes.push(b);
        proof {
            assert(self.dependant_classes@[before.len() as int] == b);
            assert forall|x: Bbid| before.contains(x) implies #[trigger] self.dependant_classes@.contains(x) by {
                let k = choose|k: int| 0 <= k < before.len() && before[k] == x;
                assert(self.dependant_classes@[k] == x);
            }
            assert forall|x: Bbid| #[trigger] self.dependant_classes@.contains(x) implies before.contains(x) || x == b by {
                let k = choose|k: int| 0 <= k < self.dependant_classes@.len() && self.dependant_classes@[k] == x;
                if k < before.len() {
                    assert(before[k] == x);
                }
            }
        }
    }

    fn contains_visited(&self, x: LocalBlockPair) -> (r: bool)
        ensures
            r == self.visited_blocks@.contains(x),
    {
        let mut i: usize = 0;
        while i < self.visited_blocks.len()
            invariant
                i <= self.visited_blocks@.len(),
                forall|k: int| 0 <= k < i ==> self.visited_blocks@[k] != x,
            decreases self.visited_blocks@.len() - i,
        {
            if self.visited_blocks[i] == x {
                return true;
            }
            i = i + 1;
        }
        false
    }

    fn contains_function(&self, f: usize) -> (r: bool)
        ensures
            r == self.visited_functions@.contains(f),
    {
        let mut i: usize = 0;
        while i < self.visited_functions.len()
            invariant
                i <= self.visited_functions@.len(),
                forall|k: int| 0 <= k < i ==> self.visited_functions@[k] != f,
            decreases self.visited_functions@.len() - i,
        {
            if self.visited_functions[i] == f {
                return true;
            }
            i = i + 1;
        }
        false
    }

    /// Records a state the walk has not seen; an acquisition there is a dependant.
    fn visit(&mut self, x: LocalBlockPair)
        requires
            old(self).inv(),
            in_domain(old(self).program(), x),
            !old(self).visited_blocks@.contains(x),
        ensures
            final(self).inv(),
            final(self).grows_from(old(self)),
            final(self).visited_blocks@ == old(self).visited_blocks@.push(x),
            final(self).visited_functions@ == old(self).visited_functions@,
            final(self).outcomes() == old(self).outcomes(),
            forall|d: Bbid| #[trigger] final(self).dependant_classes@.contains(d)
                ==> old(self).dependant_classes@.contains(d) || d == x.block,
    {
        if find_invocation(self.invocation_map, x.block).is_some() {
            self.add_dependant(x.block);
        }
        let ghost d0 = self.dependant_classes@;
        let ghost v0 = self.visited_blocks@;
        assert forall|b: Bbid| old(self).dependants().contains(b) implies #[trigger] d0.contains(b) by {
            assert(self.dependants().contains(b));
        }
        self.visited_blocks.push(x);
        proof {
            assert(self.visited_blocks@[v0.len() as int] == x);
            assert forall|y: LocalBlockPair| v0.contains(y) implies #[trigger] self.visited_blocks@.contains(y) by {
                let k = choose|k: int| 0 <= k < v0.len() && v0[k] == y;
                assert(self.visited_blocks@[k] == y);
            }
            assert(self.visited_blocks@.no_duplicates()) by {
                assert forall|i: int, j: int| 0 <= i < self.visited_blocks@.len() && 0 <= j < self.visited_blocks@.len() && i != j
                    implies self.visited_blocks@[i] != self.visited_blocks@[j] by {
                    if i < v0.len() && j < v0.len() {
                        assert(v0[i] == self.visited_blocks@[i] && v0[j] == self.visited_blocks@[j]);
                    } else if i < v0.len() {
                        assert(v0[i] == self.visited_blocks@[i]);
                    } else if j < v0.len() {
                        assert(v0[j] == self.visited_blocks@[j]);
                    }
                }
            }
            assert forall|i: int| 0 <= i < self.visited_blocks@.len() implies in_domain(*self.program, #[trigger] self.visited_blocks@[i]) by {
                if i < v0.len() {
                    assert(v0[i] == self.visited_blocks@[i]);
                }
            }
            lemma_states_bounded(*self.program, self.visited_blocks@);
        }
        proof {
            assert forall|i: int| 0 <= i < self.visited_blocks@.len()
                && is_invocation(self.invocation_map@, (#[trigger] self.visited_blocks@[i]).block)
                implies self.dependant_classes@.contains(self.visited_blocks@[i].block) by {
                if i < v0.len() {
                    assert(v0[i] == self.visited_blocks@[i]);
                    assert(d0.contains(v0[i].block));
                }
            }
            assert(self.dependant_classes@ == d0);
            assert forall|b: Bbid| old(self).dependants().contains(b) implies #[trigger] self.dependants().contains(b) by {
                assert(d0.contains(b));
            }
        }
    }

    /// Adds every acquisition in function `fn_def_id`, and in the functions it
    /// calls, to the dependants. Each function is swept at most once.
    fn collect_all_invocations(&mut self, fn_def_id: usize)
        requires
            old(self).inv(),
        ensures
            final(self).inv(),
            final(self).grows_from(old(self)),
            final(self).visited_blocks@ == old(self).visited_blocks@,
            final(self).outcomes() == old(self).outcomes(),
            fn_def_id < old(self).program().fns@.len() ==> final(self).visited_functions@.contains(fn_def_id),
            fn_def_id >= old(self).program().fns@.len() || old(self).visited_functions@.contains(fn_def_id)
                ==> *final(self) == *old(self),
            fn_def_id < old(self).program().fns@.len() && !old(self).visited_functions@.contains(fn_def_id)
                && old(self).program().fns@[fn_def_id as int].body is Some ==> forall|b: usize|
                b < old(self).program().fns@[fn_def_id as int].body->0.blocks@.len()
                && crate::graph::reachable(crate::graph::edges(crate::ir::cfg(old(self).program().fns@[fn_def_id as int].body->0)), START_BLOCK, b)
                && is_invocation(old(self).invocations(), Bbid { func: fn_def_id, block: b })
                ==> #[trigger] final(self).dependants().contains(Bbid { func: fn_def_id, block: b }),
            fn_def_id < old(self).program().fns@.len() && !old(self).visited_functions@.contains(fn_def_id)
                && old(self).program().fns@[fn_def_id as int].body is Some ==> forall|b: usize|
                b < old(self).program().fns@[fn_def_id as int].body->0.blocks@.len()
                && crate::graph::reachable(crate::graph::edges(crate::ir::cfg(old(self).program().fns@[fn_def_id as int].body->0)), START_BLOCK, b)
                && !is_invocation(old(self).invocations(), Bbid { func: fn_def_id, block: b })
                ==> #[trigger] calls_swept(old(self).program(), final(self).visited_functions@, fn_def_id, b),
            forall|i: int| old(self).visited_functions@.len() <= i < final(self).visited_functions@.len()
                ==> swept_closed(final(self).program(), final(self).invocations(), final(self).dependants(),
                final(self).visited_functions@, #[trigger] final(self).visited_functions@[i]),
            forall|d: Bbid| #[trigger] final(self).dependant_classes@.contains(d) ==> old(self).dependant_classes@.contains(d)
                || found_in(final(self).program(), final(self).visited_blocks@, final(self).visited_blocks@.len() as int,
                final(self).visited_functions@, old(self).visited_functions@.len() as int, d),
            forall|j: int| old(self).visited_functions@.len() < j < final(self).visited_functions@.len()
                ==> #[trigger] swept_for(final(self).program(), final(self).visited_blocks@, final(self).visited_blocks@.len() as int,
                final(self).visited_functions@, old(self).visited_functions@.len() as int, j),
            final(self).visited_functions@.len() > old(self).visited_functions@.len()
                ==> final(self).visited_functions@[old(self).visited_functions@.len() as int] == fn_def_id,
        decreases old(self).program.fns@.len() - old(self).visited_functions@.len(),
    {
        if fn_def_id >= self.program.fns.len() {
            return;
        }
        if self.contains_function(fn_def_id) {
            // already swept
            return;
        }
        let ghost v0 = self.visited_functions@;
        self.visited_functions.push(fn_def_id);
        proof {
            assert(self.visited_functions@[v0.len() as int] == fn_def_id);
            assert forall|y: usize| v0.contains(y) implies #[trigger] self.visited_functions@.contains(y) by {
                let k = choose|k: int| 0 <= k < v0.len() && v0[k] == y;
                assert(self.visited_functions@[k] == y);
            }
            assert(self.visited_functions@.no_duplicates()) by {
                assert forall|i: int, j: int| 0 <= i < self.visited_functions@.len() && 0 <= j < self.visited_functions@.len() && i != j
                    implies self.visited_functions@[i] != self.visited_functions@[j] by {
                    if i < v0.len() {
                        assert(v0[i] == self.visited_functions@[i]);
                    }
                    if j < v0.len() {
                        assert(v0[j] == self.visited_functions@[j]);
                    }
                }
            }
            assert forall|i: int| 0 <= i < self.visited_functions@.len() implies #[trigger] self.visited_functions@[i] < self.program.fns@.len() by {
                if i < v0.len() {
                    assert(v0[i] == self.visited_functions@[i]);
                }
            }
            lemma_fns_bounded(self.visited_functions@, self.program.fns@.len() as int);
        }
        let program = self.program;
        let ghost lo = v0.len() as int;
        let body = match &program.fns[fn_def_id].body {
            Some(b) => b,
            None => {
                proof {
                    assert forall|i: int| lo <= i < self.visited_functions@.len()
                        implies swept_closed(self.program(), self.invocations(), self.dependants(),
                        self.visited_functions@, #[trigger] self.visited_functions@[i]) by {
                        assert(i == lo);
                        assert forall|b: usize| #[trigger] block_swept(self.program(), self.invocations(), self.dependants(),
                            self.visited_functions@, fn_def_id, b) by {}
                    }
                }
                return;
            },
        };
        let reach = body.reachable_blocks();
        let mut b: usize = 0;
        while b < body.blocks.len()
            invariant
                self.inv(),
                self.grows_from(old(self)),
                self.visited_blocks@ == old(self).visited_blocks@,
                self.visited_functions@.contains(fn_def_id),
                self.visited_functions@.len() > old(self).visited_functions@.len(),
                *program == self.program(),
                fn_def_id < program.fns@.len(),
                program.fns@[fn_def_id as int].body == Some(*body),
                reach@.len() == body.blocks@.len(),
                forall|i: usize| i < body.blocks@.len() ==>
                    (reach@[i as int] <==> crate::graph::reachable(crate::graph::edges(crate::ir::cfg(*body)), START_BLOCK, i)),
                b <= body.blocks@.len(),
                forall|k: usize| k < b && crate::graph::reachable(crate::graph::edges(crate::ir::cfg(*body)), START_BLOCK, k)
                    && is_invocation(self.invocations(), Bbid { func: fn_def_id, block: k })
                    ==> #[trigger] self.dependants().contains(Bbid { func: fn_def_id, block: k }),
                forall|k: usize| k < b && crate::graph::reachable(crate::graph::edges(crate::ir::cfg(*body)), START_BLOCK, k)
                    && !is_invocation(self.invocations(), Bbid { func: fn_def_id, block: k })
                    ==> #[trigger] calls_swept(*program, self.visited_functions@, fn_def_id, k),
                lo == old(self).visited_functions@.len(),
                lo < self.visited_functions@.len(),
                self.visited_blocks@ == old(self).visited_blocks@,
                self.outcomes() == old(self).outcomes(),
                forall|d: Bbid| #[trigger] self.dependant_classes@.contains(d) ==> old(self).dependant_classes@.contains(d)
                    || found_in(*program, self.visited_blocks@, self.visited_blocks@.len() as int, self.visited_functions@, lo, d),
                forall|j: int| lo < j < self.visited_functions@.len()
                    ==> #[trigger] swept_for(*program, self.visited_blocks@, self.visited_blocks@.len() as int, self.visited_functions@, lo, j),
                self.visited_functions@[lo] == fn_def_id,
                forall|i: int| lo + 1 <= i < self.visited_functions@.len()
                    ==> swept_closed(*program, self.invocations(), self.dependants(),
                    self.visited_functions@, #[trigger] self.visited_functions@[i]),
            decreases body.blocks@.len() - b,
        {
            let ghost sb = self.visited_functions@;
            let ghost db = self.dependant_classes@;
            if reach[b] {
                let bbid = Bbid { func: fn_def_id, block: b };
                assert(fn_live(*program, self.visited_functions@[lo], b));
                if find_invocation(self.invocation_map, bbid).is_some() {
                    self.add_dependant(bbid);
                    proof {
                        assert forall|d: Bbid| #[trigger] self.dependant_classes@.contains(d) implies old(self).dependant_classes@.contains(d)
                            || found_in(*program, self.visited_blocks@, self.visited_blocks@.len() as int, self.visited_functions@, lo, d) by {
                            if d == bbid {
                                assert(fn_live(*program, self.visited_functions@[lo], b));
                            } else {
                                assert(db.contains(d));
                            }
                        }
                    }
                } else if let Terminator::Call { callee: Some(h), .. } = &body.blocks[b].terminator {
                    let ghost pre = self.visited_functions@.len() as int;
                    self.collect_all_invocations(*h);
                    proof {
                        let vv = self.visited_blocks@;
                        assert(is_prefix(sb, self.visited_functions@));
                        assert(is_prefix(vv, vv));
                        assert forall|d: Bbid| #[trigger] self.dependant_classes@.contains(d) implies old(self).dependant_classes@.contains(d)
                            || found_in(*program, vv, vv.len() as int, self.visited_functions@, lo, d) by {
                            if !old(self).dependant_classes@.contains(d) {
                                if db.contains(d) {
                                    lemma_found_grow(*program, vv, sb, vv, self.visited_functions@, vv.len() as int, lo, vv.len() as int, pre, d);
                                } else {
                                    lemma_found_grow(*program, vv, sb, vv, self.visited_functions@, vv.len() as int, lo, vv.len() as int, pre, d);
                                }
                            }
                        }
                        assert forall|j: int| lo < j < self.visited_functions@.len()
                            implies #[trigger] swept_for(*program, vv, vv.len() as int, self.visited_functions@, lo, j) by {
                            if j < pre {
                                lemma_swept_for_grow(*program, vv, sb, vv, self.visited_functions@, vv.len() as int, lo, vv.len() as int, pre, j);
                            } else if j == pre {
                                assert(calls_at(*program, Bbid { func: self.visited_functions@[lo], block: b }, self.visited_functions@[j]));
                            } else {
                                lemma_swept_for_grow(*program, vv, sb, vv, self.visited_functions@, vv.len() as int, lo, vv.len() as int, pre, j);
                            }
                        }
                    }
                }
            }
            proof {
                assert forall|x: Bbid| db.contains(x) implies #[trigger] self.dependant_classes@.contains(x) by {
                    assert(self.dependants().contains(x));
                }
                lemma_swept_range_mono(*program, self.invocations(), db, sb, self.dependant_classes@, self.visited_functions@, lo + 1);
                assert(self.visited_functions@[lo] == sb[lo]);
            }
            proof {
                assert forall|k: usize| k < b + 1 && crate::graph::reachable(crate::graph::edges(crate::ir::cfg(*body)), START_BLOCK, k)
                    && !is_invocation(self.invocations(), Bbid { func: fn_def_id, block: k })
                    implies #[trigger] calls_swept(*program, self.visited_functions@, fn_def_id, k) by {
                    assert forall|h: usize| sb.contains(h) implies self.visited_functions@.contains(h) by {
                        assert(self.visited_functions().contains(h));
                    }
                    if k < b {
                        assert(calls_swept(*program, sb, fn_def_id, k));
                    } else {
                        assert(reach@[b as int]);
                        assert(program.fns@[fn_def_id as int].body->0.blocks@[b as int] == body.blocks@[b as int]);
                    }
                }
            }
            b = b + 1;
        }
        proof {
            assert forall|i: int| lo <= i < self.visited_functions@.len()
                implies swept_closed(self.program(), self.invocations(), self.dependants(),
                self.visited_functions@, #[trigger] self.visited_functions@[i]) by {
                if i == lo {
                    assert forall|k: usize| #[trigger] block_swept(self.program(), self.invocations(), self.dependants(),
                        self.visited_functions@, fn_def_id, k) by {
                    }
                }
            }
        }
    }

    /// Follows the guard held in `current_local` from the start of
    /// `basic_block_id`. With `examine_returns`, a return of the guard is
    /// followed into every recorded caller; without it, the walk is inside a
    /// callee and reports the guard as returned.
    ///
    /// Each state is walked at most once per collector; on success, every
    /// state this call walked has been carried on (see [`flow_closed`]).
    #[verifier::rlimit(100)]
    #[verifier::spinoff_prover]
    fn collect_inner(&mut self, basic_block_id: Bbid, current_local: Local, examine_returns: bool) -> (r: Result<GuardState, AnalysisError>)
        requires
            old(self).inv(),
        ensures
            final(self).inv(),
            final(self).grows_from(old(self)),
            examine_returns && r is Ok ==> r->Ok_0 != GuardState::Returned,
            r is Ok ==> outcome_witnessed(final(self).program(), final(self).visited_blocks@, final(self).outcomes(),
                old(self).visited_blocks@.len() as int, r->Ok_0),
            old(self).visited_blocks@.contains(LocalBlockPair { block: basic_block_id, local: current_local })
                ==> r == Ok::<GuardState, AnalysisError>(GuardState::Undetermined)
                && final(self).visited_blocks@ == old(self).visited_blocks@
                && final(self).dependants() == old(self).dependants()
                && final(self).visited_functions@ == old(self).visited_functions@,
            guard_outcome_at(old(self).program(), LocalBlockPair { block: basic_block_id, local: current_local }, examine_returns) is Some
                && !old(self).visited_blocks@.contains(LocalBlockPair { block: basic_block_id, local: current_local })
                ==> r == Ok::<GuardState, AnalysisError>(guard_outcome_at(old(self).program(),
                LocalBlockPair { block: basic_block_id, local: current_local }, examine_returns)->0),
            basic_block_id.func >= old(self).program().fns@.len()
                || old(self).program().fns@[basic_block_id.func as int].body is None
                ==> r == Ok::<GuardState, AnalysisError>(GuardState::Undetermined) && *final(self) == *old(self),
            in_domain(old(self).program(), LocalBlockPair { block: basic_block_id, local: current_local }) && r is Ok
                ==> final(self).visited_blocks@.contains(LocalBlockPair { block: basic_block_id, local: current_local }),
            r is Ok ==> forall|i: int| old(self).visited_blocks@.len() <= i < final(self).visited_blocks@.len()
                ==> flow_closed(final(self).program(), map_rets(old(self).return_locations()), final(self).visited_blocks(), final(self).visited_functions(), final(self).outcomes(),
                #[trigger] final(self).visited_blocks()[i]),
            r is Ok ==> forall|i: int| old(self).visited_functions@.len() <= i < final(self).visited_functions@.len()
                ==> swept_closed(final(self).program(), final(self).invocations(), final(self).dependants(),
                final(self).visited_functions@, #[trigger] final(self).visited_functions@[i]),
            r is Err ==> is_walk_error(r->Err_0),
            r is Err ==> walk_fails(old(self).program(), map_rets(old(self).return_locations()),
                LocalBlockPair { block: basic_block_id, local: current_local }, r->Err_0),
            forall|y: LocalBlockPair| #[trigger] final(self).outcomes().contains_key(y) && !old(self).outcomes().contains_key(y)
                ==> !old(self).visited_blocks@.contains(y),
            r is Ok ==> forall|i: int| old(self).visited_blocks@.len() <= i < final(self).visited_blocks@.len()
                ==> quiet(final(self).program(), #[trigger] final(self).visited_blocks@[i]),
            r is Ok ==> forall|d: Bbid| #[trigger] final(self).dependant_classes@.contains(d) ==> old(self).dependant_classes@.contains(d)
                || found_in(final(self).program(), final(self).visited_blocks@, old(self).visited_blocks@.len() as int,
                final(self).visited_functions@, old(self).visited_functions@.len() as int, d),
            r is Ok ==> forall|j: int| old(self).visited_functions@.len() <= j < final(self).visited_functions@.len()
                ==> #[trigger] swept_for(final(self).program(), final(self).visited_blocks@, old(self).visited_blocks@.len() as int,
                final(self).visited_functions@, old(self).visited_functions@.len() as int, j),
            r is Ok ==> forall|i: int| old(self).visited_blocks@.len() <= i < final(self).visited_blocks@.len()
                ==> reached(final(self).program(), map_rets(old(self).return_locations()), final(self).outcomes(),
                LocalBlockPair { block: basic_block_id, local: current_local }, #[trigger] final(self).visited_blocks@[i]),
        decreases state_bound(*old(self).program) - old(self).visited_blocks@.len(),
    {
        let start = LocalBlockPair { block: basic_block_id, local: current_local };
        let f = basic_block_id.func;
        let program = self.program;
        let return_map = self.return_map;
        if f >= program.fns.len() {
            return Ok(GuardState::Undetermined);
        }
        // a function without a body cannot be followed
        let body = match &program.fns[f].body {
            Some(b) => b,
            None => return Ok(GuardState::Undetermined),
        };
        let mut basic_block = basic_block_id.block;
        let mut cur_local = current_local;
        let mut guard_state = GuardState::Undetermined;
        let ghost mut first = true;
        let ghost lo = old(self).visited_blocks@.len() as int;
        // index of a walked state whose successor at (basic_block, cur_local) is pending
        let ghost mut pidx: int = -1;
        let ghost slo = old(self).visited_functions@.len() as int;
        let ghost rets = map_rets(return_map@);
        let ghost mut rn: nat = 0;
        loop
            invariant
                rets == map_rets(return_map@),
                return_map@ == old(self).return_locations(),
                rec_reach(*program, rets, self.outcomes(), rn, start, state(f, basic_block, cur_local)),
                outcome_witnessed(*program, self.visited_blocks@, self.outcomes(), lo, guard_state),
                forall|i: int| lo <= i < self.visited_blocks@.len() ==> quiet(*program, #[trigger] self.visited_blocks@[i]),
                forall|y: LocalBlockPair| #[trigger] self.outcomes().contains_key(y) && !old(self).outcomes().contains_key(y)
                    ==> !old(self).visited_blocks@.contains(y),
                forall|d: Bbid| #[trigger] self.dependant_classes@.contains(d) ==> old(self).dependant_classes@.contains(d)
                    || found_in(*program, self.visited_blocks@, lo, self.visited_functions@, slo, d),
                forall|j: int| slo <= j < self.visited_functions@.len()
                    ==> #[trigger] swept_for(*program, self.visited_blocks@, lo, self.visited_functions@, slo, j),
                forall|i: int| lo <= i < self.visited_blocks@.len() ==> reached(*program, rets, self.outcomes(), start, #[trigger] self.visited_blocks@[i]),
                forall|k: int| slo <= k < self.visited_functions@.len()
                    ==> swept_closed(*program, self.invocations(), self.dependants(),
                    self.visited_functions@, #[trigger] self.visited_functions@[k]),
                slo == old(self).visited_functions@.len(),
                self.inv(),
                self.grows_from(old(self)),
                *program == self.program(),
                return_map@.len() == program.fns@.len(),
                f < program.fns@.len(),
                f == basic_block_id.func,
                program.fns@[f as int].body == Some(*body),
                examine_returns ==> guard_state != GuardState::Returned,
                first ==> *self == *old(self) && basic_block == basic_block_id.block
                    && cur_local == start.local && pidx == -1 && guard_state == GuardState::Undetermined,
                !first ==> self.visited_blocks@.len() > old(self).visited_blocks@.len(),
                !first ==> !old(self).visited_blocks@.contains(start),
                !first ==> guard_outcome_at(*program, start, examine_returns) is None,
                start == (LocalBlockPair { block: basic_block_id, local: current_local }),
                in_domain(old(self).program(), start) && !first ==> self.visited_blocks@.contains(start),
                lo == old(self).visited_blocks@.len(),
                pidx < self.visited_blocks@.len(),
                pidx >= lo || pidx == -1,
                forall|i: int| lo <= i < self.visited_blocks@.len() && i != pidx
                    ==> flow_closed(*program, rets, self.visited_blocks@, self.visited_functions@, self.outcomes(), #[trigger] self.visited_blocks@[i]),
                pidx >= lo ==> self.visited_blocks@[pidx].block.func == f
                    && flow_closed_except(*program, rets, self.visited_blocks@, self.visited_functions@, self.outcomes(),
                    self.visited_blocks@[pidx], Some((basic_block, cur_local))),
            decreases state_bound(*program) - self.visited_blocks@.len(),
        {
            if basic_block >= body.blocks.len() || cur_local >= body.num_locals {
                // slots and blocks outside the body are not tracked
                proof {
                    if pidx >= lo {
                        lemma_flow_closed_unskip(*program, rets, self.visited_blocks@, self.visited_functions@, self.outcomes(),
                            self.visited_blocks@[pidx], basic_block, cur_local);
                    }
                }
                return Ok(guard_state.combine(GuardState::Undetermined));
            }
            let here = LocalBlockPair { block: Bbid { func: f, block: basic_block }, local: cur_local };
            assert(first ==> here == start);
            // a state already walked adds nothing new
            if self.contains_visited(here) {
                proof {
                    if pidx >= lo {
                        lemma_flow_closed_unskip(*program, rets, self.visited_blocks@, self.visited_functions@, self.outcomes(),
                            self.visited_blocks@[pidx], basic_block, cur_local);
                    }
                }
                return Ok(GuardState::Undetermined);
            }
            proof {
                {
                    let s = self.visited_blocks@.push(here);
                    assert forall|i: int, j: int| 0 <= i < s.len() && 0 <= j < s.len() && i != j implies s[i] != s[j] by {
                        if i < s.len() - 1 && j < s.len() - 1 {
                            assert(s[i] == self.visited_blocks@[i] && s[j] == self.visited_blocks@[j]);
                        } else if i < s.len() - 1 {
                            assert(s[i] == self.visited_blocks@[i]);
                        } else if j < s.len() - 1 {
                            assert(s[j] == self.visited_blocks@[j]);
                        }
                    }
                    assert forall|i: int| 0 <= i < s.len() implies in_domain(*program, #[trigger] s[i]) by {
                        if i < s.len() - 1 {
                            assert(s[i] == self.visited_blocks@[i]);
                        }
                    }
                    lemma_states_bounded(*program, s);
                }
            }
            let ghost head_len = self.visited_blocks@.len();
            let ghost v0 = self.visited_blocks@;
            let ghost s0 = self.visited_functions@;
            let ghost d0 = self.dependant_classes@;
            let ghost o0 = self.outcomes();
            proof {
                assert(!o0.contains_key(here));
            }
            self.visit(here);
            proof {
                assert forall|x: Bbid| d0.contains(x) implies #[trigger] self.dependant_classes@.contains(x) by {
                    assert(self.dependants().contains(x));
                }
                lemma_swept_range_mono(*program, self.invocations(), d0, s0, self.dependant_classes@, self.visited_functions@, slo);
                assert(self.visited_blocks@[self.visited_blocks@.len() - 1] == here);
                {
                    let vv = self.visited_blocks@;
                    let ss = self.visited_functions@;
                    assert(is_prefix(v0, vv));
                    assert(is_prefix(ss, ss));
                    assert forall|d: Bbid| #[trigger] self.dependant_classes@.contains(d) implies old(self).dependant_classes@.contains(d)
                        || found_in(*program, vv, lo, ss, slo, d) by {
                        if d0.contains(d) {
                            if !old(self).dependant_classes@.contains(d) {
                                lemma_found_grow(*program, v0, ss, vv, ss, lo, slo, lo, slo, d);
                            }
                        } else {
                            assert(d == here.block);
                            assert(vv[vv.len() - 1].block == d);
                        }
                    }
                    assert forall|j: int| slo <= j < ss.len() implies #[trigger] swept_for(*program, vv, lo, ss, slo, j) by {
                        lemma_swept_for_grow(*program, v0, ss, vv, ss, lo, slo, lo, slo, j);
                    }
                    assert forall|i: int| lo <= i < vv.len() implies reached(*program, rets, self.outcomes(), start, #[trigger] vv[i]) by {
                        if i < v0.len() {
                            assert(vv[i] == v0[i]);
                        } else {
                            assert(vv[i] == here);
                            assert(rec_reach(*program, rets, self.outcomes(), rn, start, here));
                        }
                    }
                }
                first = false;
                lemma_closed_range_mono(*program, rets, v0, s0, self.visited_blocks@, self.visited_functions@, o0, self.outcomes(), lo, pidx,
                    Some((basic_block, cur_local)), true);
                lemma_witness_grow(*program, v0, o0, self.visited_blocks@, self.outcomes(), lo, guard_state);
                if pidx >= lo {
                    assert(self.visited_blocks@.contains(here));
                    lemma_flow_closed_unskip(*program, rets, self.visited_blocks@, self.visited_functions@, self.outcomes(),
                        self.visited_blocks@[pidx], basic_block, cur_local);
                }
                pidx = head_len as int;
            }
            let ghost hidx = head_len as int;
            let data = &body.blocks[basic_block];
            let ghost hn = rn;
            assert(program.fns@[f as int].body->0.blocks@[basic_block as int] == *data);
            assert(in_domain(*program, here));
            assert(here == state(f, basic_block, cur_local));
            cur_local = match local_after_block_statements(&data.statements, cur_local) {
                Ok(l) => l,
                Err(e) => {
                    proof {
                        assert(raises(*program, here, e));
                        lemma_rec_to_flow(*program, rets, self.outcomes(), hn, start, here);
                    }
                    return Err(e);
                },
            };
            assert(local_after_statements(data.statements@, here.local) == Ok::<Local, AnalysisError>(cur_local));
            proof {
                lemma_rec_to_flow(*program, rets, self.outcomes(), hn, start, here);
            }
            // the terminator's own checks on the guard's slot
            let call_guard: Option<Local> = match &data.terminator {
                Terminator::Return => {
                    if cur_local != RETURN_PLACE {
                        proof {
                            assert(raises(*program, here, AnalysisError::ReturnWithoutDrop));
                        }
                        return Err(AnalysisError::ReturnWithoutDrop);
                    }
                    None
                },
                Terminator::Call { args, destination, .. } => {
                    if *destination == cur_local {
                        proof {
                            assert(raises(*program, here, AnalysisError::GuardOverwritten));
                        }
                        return Err(AnalysisError::GuardOverwritten);
                    }
                    match guard_arg_local(args, cur_local) {
                        Ok(a) => a,
                        Err(e) => {
                            proof {
                                assert(raises(*program, here, e));
                            }
                            return Err(e);
                        },
                    }
                },
                Terminator::Yield { .. } | Terminator::GeneratorDrop => {
                    proof {
                        assert(raises(*program, here, AnalysisError::UnsupportedTerminator));
                    }
                    return Err(AnalysisError::UnsupportedTerminator);
                },
                _ => None,
            };
            proof {
                assert(quiet(*program, here));
                assert forall|i: int| lo <= i < self.visited_blocks@.len() implies quiet(*program, #[trigger] self.visited_blocks@[i]) by {
                    if i < self.visited_blocks@.len() - 1 {
                        assert(self.visited_blocks@[i] == v0[i]);
                    }
                }
            }
            match &data.terminator {
                Terminator::Goto { target } => {
                    basic_block = *target;
                    proof {
                        lemma_rec_reach_step(*program, rets, self.outcomes(), hn, start, here, state(f, basic_block, cur_local));
                        rn = hn + 1;
                    }
                },
                Terminator::SwitchInt { targets, otherwise } => {
                    let mut i: usize = 0;
                    while i < targets.len()
                        invariant
                            self.inv(),
                            self.grows_from(old(self)),
                            *program == self.program(),
                            self.visited_blocks@.len() > old(self).visited_blocks@.len(),
                            self.visited_blocks@.len() > head_len,
                            in_domain(old(self).program(), start) ==> self.visited_blocks@.contains(start),
                            !old(self).visited_blocks@.contains(start),
                            guard_outcome_at(*program, start, examine_returns) is None,
                            start == (LocalBlockPair { block: basic_block_id, local: current_local }),
                            examine_returns ==> guard_state != GuardState::Returned,
                            i <= targets@.len(),
                            lo == old(self).visited_blocks@.len(),
                            forall|k: int| slo <= k < self.visited_functions@.len()
                                ==> swept_closed(*program, self.invocations(), self.dependants(),
                                self.visited_functions@, #[trigger] self.visited_functions@[k]),
                            slo == old(self).visited_functions@.len(),
                            rets == map_rets(return_map@),
                            return_map@ == old(self).return_locations(),
                            return_map@.len() == program.fns@.len(),
                            f == basic_block_id.func,
                            f < program.fns@.len(),
                            program.fns@[f as int].body is Some,
                            rec_reach(*program, rets, self.outcomes(), hn, start, here),
                            outcome_witnessed(*program, self.visited_blocks@, self.outcomes(), lo, guard_state),
                            forall|k: int| lo <= k < self.visited_blocks@.len() ==> quiet(*program, #[trigger] self.visited_blocks@[k]),
                            forall|y: LocalBlockPair| #[trigger] self.outcomes().contains_key(y) && !old(self).outcomes().contains_key(y)
                                ==> !old(self).visited_blocks@.contains(y),
                            forall|d: Bbid| #[trigger] self.dependant_classes@.contains(d) ==> old(self).dependant_classes@.contains(d)
                                || found_in(*program, self.visited_blocks@, lo, self.visited_functions@, slo, d),
                            forall|j: int| slo <= j < self.visited_functions@.len()
                                ==> #[trigger] swept_for(*program, self.visited_blocks@, lo, self.visited_functions@, slo, j),
                            forall|i: int| lo <= i < self.visited_blocks@.len() ==> reached(*program, rets, self.outcomes(), start, #[trigger] self.visited_blocks@[i]),
                            in_domain(*program, here),
                            here == state(f, here.block.block, here.local),
                            program.fns@[f as int].body->0.blocks@[here.block.block as int] == *data,
                            local_after_statements(data.statements@, here.local) == Ok::<Local, AnalysisError>(cur_local),
                            pidx == hidx,
                            lo <= hidx < self.visited_blocks@.len(),
                            self.visited_blocks@[hidx] == here,
                            forall|k: int| lo <= k < self.visited_blocks@.len() && k != pidx
                                ==> flow_closed(*program, rets, self.visited_blocks@, self.visited_functions@, self.outcomes(), #[trigger] self.visited_blocks@[k]),
                            forall|k: int| 0 <= k < i ==> seen(*program, self.visited_blocks@, f, #[trigger] targets@[k], cur_local, None),
                            data.terminator == (Terminator::SwitchInt { targets: *targets, otherwise: *otherwise }),
                        decreases targets@.len() - i,
                    {
                        let ghost v1 = self.visited_blocks@;
                        let ghost s1 = self.visited_functions@;
                        let ghost o1 = self.outcomes();
                        let ghost d1 = self.dependant_classes@;
                        let ghost nextsw = state(f, targets@[i as int], cur_local);
                        proof {
                            assert(targets@.contains(targets@[i as int]));
                            assert(flow_step(*program, rets, here, nextsw));
                        }
                        let branch = match self.collect_inner(Bbid { func: f, block: targets[i] }, cur_local, examine_returns) {
                            Ok(g) => g,
                            Err(e) => {
                                proof {
                                    let next = state(f, targets@[i as int], cur_local);
                                    assert(targets@.contains(targets@[i as int]));
                                    assert(flow_step(*program, rets, here, next));
                                    lemma_rec_to_flow(*program, rets, o1, hn, start, here);
                                    lemma_walk_fails_back(*program, rets, hn, start, here, next, e);
                                }
                                return Err(e);
                            },
                        };
                        proof {
                            lemma_closed_range_mono(*program, rets, v1, s1, self.visited_blocks@, self.visited_functions@, o1, self.outcomes(), lo, pidx, None, false);
                            assert forall|x: Bbid| d1.contains(x) implies #[trigger] self.dependant_classes@.contains(x) by {
                                assert(self.dependants().contains(x));
                            }
                            lemma_swept_range_mono(*program, self.invocations(), d1, s1, self.dependant_classes@, self.visited_functions@, slo);
                            lemma_bounds_after_walk(*program, rets, start, lo, slo, old(self).dependant_classes@, v1, s1, d1,
                                self.visited_blocks@, self.visited_functions@, self.dependant_classes@, hn, here, nextsw, o1, self.outcomes());
                            lemma_rec_reach_grow(*program, rets, o1, self.outcomes(), hn, start, here);
                            lemma_witness_grow(*program, v1, o1, self.visited_blocks@, self.outcomes(), lo, guard_state);
                            lemma_witness_combine(*program, self.visited_blocks@, self.outcomes(), lo, v1.len() as int, guard_state, branch);
                            assert forall|k: int| 0 <= k < i + 1 implies seen(*program, self.visited_blocks@, f, #[trigger] targets@[k], cur_local, None) by {
                                if k < i {
                                    assert(seen(*program, v1, f, targets@[k], cur_local, None));
                                    let y = LocalBlockPair { block: Bbid { func: f, block: targets@[k] }, local: cur_local };
                                    if v1.contains(y) {
                                        assert(self.visited_blocks@.contains(y));
                                    }
                                }
                            }
                        }
                        guard_state = guard_state.combine(branch);
                        i = i + 1;
                    }
                    basic_block = *otherwise;
                    proof {
                        lemma_rec_reach_step(*program, rets, self.outcomes(), hn, start, here, state(f, basic_block, cur_local));
                        rn = hn + 1;
                    }
                },
                Terminator::UnwindResume | Terminator::UnwindTerminate | Terminator::Unreachable => {
                    // unwind paths are not followed
                    return Ok(guard_state.combine(GuardState::Undetermined));
                },
                Terminator::Return => {
                    if !examine_returns {
                        return Ok(guard_state.combine(GuardState::Returned));
                    }
                    // every recorded caller continues with the guard in its destination
                    let ghost o2 = self.outcomes();
                    let ghost pre_deps = self.dependants();
                    let ghost pre_v = self.visited_blocks();
                    let ghost pre_s = self.visited_functions();
                    proof {
                        assert(self.visited_blocks@[hidx] == here);
                        assert(!o2.contains_key(here));
                        assert(self.grows_from(old(self)));
                    }
                    self.outcomes = Ghost(self.outcomes@.insert(here, GuardState::Returned));
                    proof {
                        assert forall|y: LocalBlockPair| #[trigger] old(self).outcomes().contains_key(y)
                            implies self.outcomes().contains_key(y) && self.outcomes()[y] == old(self).outcomes()[y] by {
                            assert(o2.contains_key(y));
                        }
                        assert(self.dependants() == pre_deps && self.visited_blocks() == pre_v && self.visited_functions() == pre_s);
                        assert(self.grows_from(old(self)));
                        assert(submap_eq(o2, self.outcomes()));
                        lemma_reached_range_grow(*program, rets, o2, self.outcomes(), start, self.visited_blocks@, lo);
                        lemma_rec_reach_grow(*program, rets, o2, self.outcomes(), hn, start, here);
                        lemma_witness_grow(*program, self.visited_blocks@, o2, self.visited_blocks@, self.outcomes(), lo, guard_state);
                        assert forall|i: int| lo <= i < self.visited_blocks@.len() && i != pidx
                            implies flow_closed(*program, rets, self.visited_blocks@, self.visited_functions@, self.outcomes(), #[trigger] self.visited_blocks@[i]) by {
                            assert(self.visited_blocks@.no_duplicates());
                            assert(self.visited_blocks@[i] != here);
                            lemma_flow_closed_mono(*program, rets, self.visited_blocks@, self.visited_functions@, self.visited_blocks@,
                                self.visited_functions@, o2, self.outcomes(), self.visited_blocks@[i], None);
                        }
                    }
                    let locations = return_map.iter_return_locations(f);
                    let mut i: usize = 0;
                    while i < locations.len()
                        invariant
                            self.inv(),
                            self.grows_from(old(self)),
                            *program == self.program(),
                            self.visited_blocks@.len() > old(self).visited_blocks@.len(),
                            self.visited_blocks@.len() > head_len,
                            in_domain(old(self).program(), start) ==> self.visited_blocks@.contains(start),
                            !old(self).visited_blocks@.contains(start),
                            guard_outcome_at(*program, start, examine_returns) is None,
                            start == (LocalBlockPair { block: basic_block_id, local: current_local }),
                            examine_returns,
                            guard_state != GuardState::Returned,
                            i <= locations@.len(),
                            locations@ == return_map@[f as int],
                            cur_local == RETURN_PLACE,
                            data.terminator is Return,
                            lo == old(self).visited_blocks@.len(),
                            forall|k: int| slo <= k < self.visited_functions@.len()
                                ==> swept_closed(*program, self.invocations(), self.dependants(),
                                self.visited_functions@, #[trigger] self.visited_functions@[k]),
                            slo == old(self).visited_functions@.len(),
                            rets == map_rets(return_map@),
                            return_map@ == old(self).return_locations(),
                            return_map@.len() == program.fns@.len(),
                            f == basic_block_id.func,
                            f < program.fns@.len(),
                            program.fns@[f as int].body is Some,
                            rec_reach(*program, rets, self.outcomes(), hn, start, here),
                            outcome_witnessed(*program, self.visited_blocks@, self.outcomes(), lo, guard_state),
                            forall|k: int| lo <= k < self.visited_blocks@.len() ==> quiet(*program, #[trigger] self.visited_blocks@[k]),
                            forall|y: LocalBlockPair| #[trigger] self.outcomes().contains_key(y) && !old(self).outcomes().contains_key(y)
                                ==> !old(self).visited_blocks@.contains(y),
                            forall|d: Bbid| #[trigger] self.dependant_classes@.contains(d) ==> old(self).dependant_classes@.contains(d)
                                || found_in(*program, self.visited_blocks@, lo, self.visited_functions@, slo, d),
                            forall|j: int| slo <= j < self.visited_functions@.len()
                                ==> #[trigger] swept_for(*program, self.visited_blocks@, lo, self.visited_functions@, slo, j),
                            forall|i: int| lo <= i < self.visited_blocks@.len() ==> reached(*program, rets, self.outcomes(), start, #[trigger] self.visited_blocks@[i]),
                            in_domain(*program, here),
                            here == state(f, here.block.block, here.local),
                            program.fns@[f as int].body->0.blocks@[here.block.block as int] == *data,
                            local_after_statements(data.statements@, here.local) == Ok::<Local, AnalysisError>(cur_local),
                            pidx == hidx,
                            lo <= hidx < self.visited_blocks@.len(),
                            self.visited_blocks@[hidx] == here,
                            self.outcomes().contains_key(here) && self.outcomes()[here] == GuardState::Returned,
                            forall|k: int| lo <= k < self.visited_blocks@.len() && k != pidx
                                ==> flow_closed(*program, rets, self.visited_blocks@, self.visited_functions@, self.outcomes(), #[trigger] self.visited_blocks@[k]),
                            forall|k: int| 0 <= k < i ==> seen(*program, self.visited_blocks@, (#[trigger] locations@[k]).return_bbid.func,
                                locations@[k].return_bbid.block, locations@[k].return_local, None),
                        decreases locations@.len() - i,
                    {
                        let loc = locations[i];
                        let ghost v1 = self.visited_blocks@;
                        let ghost s1 = self.visited_functions@;
                        let ghost o1 = self.outcomes();
                        let ghost d1 = self.dependant_classes@;
                        let ghost nextret = LocalBlockPair { block: loc.return_bbid, local: loc.return_local };
                        proof {
                            assert(return_map@[f as int].contains(loc)) by {
                                assert(locations@[i as int] == loc);
                            }
                            assert(rets(f, loc));
                            assert((ReturnLocation { return_bbid: nextret.block, return_local: nextret.local }) == loc);
                            assert(flow_step(*program, rets, here, nextret));
                        }
                        let branch = match self.collect_inner(loc.return_bbid, loc.return_local, true) {
                            Ok(g) => g,
                            Err(e) => {
                                proof {
                                    let next = LocalBlockPair { block: loc.return_bbid, local: loc.return_local };
                                    assert(return_map@[f as int].contains(loc)) by {
                                        assert(locations@[i as int] == loc);
                                    }
                                    assert(rets(f, loc));
                                    assert((ReturnLocation { return_bbid: next.block, return_local: next.local }) == loc);
                                    assert(local_after_statements(data.statements@, here.local) == Ok::<Local, AnalysisError>(RETURN_PLACE));
                                    assert(program.fns@[here.block.func as int].body->0.blocks@[here.block.block as int].terminator is Return);
                                    assert(flow_step(*program, rets, here, next));
                                    lemma_rec_to_flow(*program, rets, o1, hn, start, here);
                                    lemma_walk_fails_back(*program, rets, hn, start, here, next, e);
                                }
                                return Err(e);
                            },
                        };
                        proof {
                            lemma_closed_range_mono(*program, rets, v1, s1, self.visited_blocks@, self.visited_functions@, o1, self.outcomes(), lo, pidx, None, false);
                            assert forall|x: Bbid| d1.contains(x) implies #[trigger] self.dependant_classes@.contains(x) by {
                                assert(self.dependants().contains(x));
                            }
                            lemma_swept_range_mono(*program, self.invocations(), d1, s1, self.dependant_classes@, self.visited_functions@, slo);
                            lemma_bounds_after_walk(*program, rets, start, lo, slo, old(self).dependant_classes@, v1, s1, d1,
                                self.visited_blocks@, self.visited_functions@, self.dependant_classes@, hn, here, nextret, o1, self.outcomes());
                            lemma_rec_reach_grow(*program, rets, o1, self.outcomes(), hn, start, here);
                            lemma_witness_grow(*program, v1, o1, self.visited_blocks@, self.outcomes(), lo, guard_state);
                            lemma_witness_combine(*program, self.visited_blocks@, self.outcomes(), lo, v1.len() as int, guard_state, branch);
                            assert forall|k: int| 0 <= k < i + 1 implies seen(*program, self.visited_blocks@, (#[trigger] locations@[k]).return_bbid.func,
                                locations@[k].return_bbid.block, locations@[k].return_local, None) by {
                                if k < i {
                                    let y = state(locations@[k].return_bbid.func, locations@[k].return_bbid.block, locations@[k].return_local);
                                    assert(seen(*program, v1, locations@[k].return_bbid.func, locations@[k].return_bbid.block, locations@[k].return_local, None));
                                    if v1.contains(y) {
                                        assert(self.visited_blocks@.contains(y));
                                    }
                                } else {
                                    assert(locations@[k] == loc);
                                }
                            }
                        }
                        guard_state = guard_state.combine(branch);
                        i = i + 1;
                    }
                    proof {
                        assert forall|loc: ReturnLocation| #[trigger] rets(f, loc) implies seen(*program, self.visited_blocks@, loc.return_bbid.func,
                            loc.return_bbid.block, loc.return_local, None) by {
                            assert(locations@.contains(loc));
                            let k = choose|k: int| 0 <= k < locations@.len() && locations@[k] == loc;
                            assert(seen(*program, self.visited_blocks@, locations@[k].return_bbid.func,
                                locations@[k].return_bbid.block, locations@[k].return_local, None));
                        }
                        assert(flow_closed(*program, rets, self.visited_blocks@, self.visited_functions@, self.outcomes(), here));
                    }
                    return Ok(guard_state);
                },
                Terminator::Drop { place, target, .. } => {
                    if *place == cur_local {
                        return Ok(guard_state.combine(GuardState::Dropped));
                    }
                    basic_block = *target;
                    proof {
                        lemma_rec_reach_step(*program, rets, self.outcomes(), hn, start, here, state(f, basic_block, cur_local));
                        rn = hn + 1;
                    }
                },
                Terminator::Call { callee, args, destination, target, .. } => {
                    let guard_arg = call_guard;
                    let ghost v1 = self.visited_blocks@;
                    let ghost s1 = self.visited_functions@;
                        let ghost o1 = self.outcomes();
                    let ghost d1 = self.dependant_classes@;
                    match (guard_arg, callee) {
                        (Some(_), None) => {
                            // the guard goes to a function that cannot be followed
                            return Ok(guard_state.combine(GuardState::Dropped));
                        },
                        (Some(arg), Some(h)) => {
                            let outcome = match self.collect_inner(Bbid::fn_start(*h), arg, false) {
                                Ok(g) => g,
                                Err(e) => {
                                    proof {
                                        let next = state(*h, START_BLOCK, arg);
                                        assert(*destination != cur_local);
                                        assert(guard_arg_from(args@, cur_local, 0) == Ok::<Option<int>, AnalysisError>(Some(arg as int)));
                                        assert(flow_step(*program, rets, here, next));
                                        lemma_rec_to_flow(*program, rets, o1, hn, start, here);
                                    lemma_walk_fails_back(*program, rets, hn, start, here, next, e);
                                    }
                                    return Err(e);
                                },
                            };
                            proof {
                                lemma_closed_range_mono(*program, rets, v1, s1, self.visited_blocks@, self.visited_functions@, o1, self.outcomes(), lo, pidx, None, false);
                                assert forall|x: Bbid| d1.contains(x) implies #[trigger] self.dependant_classes@.contains(x) by {
                                    assert(self.dependants().contains(x));
                                }
                                lemma_swept_range_mono(*program, self.invocations(), d1, s1, self.dependant_classes@, self.visited_functions@, slo);
                                assert(guard_arg_from(args@, cur_local, 0) == Ok::<Option<int>, AnalysisError>(Some(arg as int)));
                                assert(flow_step(*program, rets, here, state(*h, START_BLOCK, arg)));
                                lemma_bounds_after_walk(*program, rets, start, lo, slo, old(self).dependant_classes@, v1, s1, d1,
                                    self.visited_blocks@, self.visited_functions@, self.dependant_classes@, hn, here, state(*h, START_BLOCK, arg), o1, self.outcomes());
                                lemma_rec_reach_grow(*program, rets, o1, self.outcomes(), hn, start, here);
                                lemma_witness_grow(*program, v1, o1, self.visited_blocks@, self.outcomes(), lo, guard_state);
                                assert(v1.contains(here)) by {
                                    assert(v1[hidx] == here);
                                }
                                assert(!self.outcomes().contains_key(here));
                            }
                            let ghost o2 = self.outcomes();
                            let ghost pre_deps = self.dependants();
                            let ghost pre_v = self.visited_blocks();
                            let ghost pre_s = self.visited_functions();
                            assert(self.grows_from(old(self)));
                            self.outcomes = Ghost(self.outcomes@.insert(here, outcome));
                            proof {
                                assert forall|y: LocalBlockPair| #[trigger] old(self).outcomes().contains_key(y)
                                    implies self.outcomes().contains_key(y) && self.outcomes()[y] == old(self).outcomes()[y] by {
                                    assert(o2.contains_key(y));
                                }
                                assert(self.dependants() == pre_deps && self.visited_blocks() == pre_v && self.visited_functions() == pre_s);
                                assert(submap_eq(o2, self.outcomes()));
                                lemma_reached_range_grow(*program, rets, o2, self.outcomes(), start, self.visited_blocks@, lo);
                                lemma_rec_reach_grow(*program, rets, o2, self.outcomes(), hn, start, here);
                                lemma_witness_grow(*program, self.visited_blocks@, o2, self.visited_blocks@, self.outcomes(), lo, guard_state);
                                assert(self.grows_from(old(self)));
                                assert(self.visited_blocks@[hidx] == here) by {
                                    assert(v1[hidx] == here);
                                }
                                assert forall|i: int| lo <= i < self.visited_blocks@.len() && i != pidx
                                    implies flow_closed(*program, rets, self.visited_blocks@, self.visited_functions@, self.outcomes(), #[trigger] self.visited_blocks@[i]) by {
                                    assert(self.visited_blocks@.no_duplicates());
                                    assert(self.visited_blocks@[i] != here);
                                    lemma_flow_closed_mono(*program, rets, self.visited_blocks@, self.visited_functions@, self.visited_blocks@,
                                        self.visited_functions@, o2, self.outcomes(), self.visited_blocks@[i], None);
                                }
                            }
                            match outcome {
                                GuardState::Returned => cur_local = *destination,
                                GuardState::Dropped => {
                                    proof {
                                        assert(flow_closed(*program, rets, self.visited_blocks@, self.visited_functions@, self.outcomes(), here));
                                    }
                                    return Ok(guard_state.combine(GuardState::Dropped));
                                },
                                GuardState::Undetermined => {
                                    proof {
                                        assert(flow_closed(*program, rets, self.visited_blocks@, self.visited_functions@, self.outcomes(), here));
                                    }
                                    return Ok(guard_state.combine(GuardState::Undetermined));
                                },
                            }
                        },
                        (None, Some(h)) => {
                            self.collect_all_invocations(*h);
                            proof {
                                assert(self.visited_blocks@[hidx] == here);
                                assert(calls_at(*program, here.block, *h));
                                lemma_bounds_after_sweep(*program, lo, slo, old(self).dependant_classes@, self.visited_blocks@, s1, d1,
                                    self.visited_functions@, self.dependant_classes@, hidx, *h);
                                lemma_closed_range_mono(*program, rets, v1, s1, self.visited_blocks@, self.visited_functions@, o1, self.outcomes(), lo, pidx, None, false);
                                assert forall|x: Bbid| d1.contains(x) implies #[trigger] self.dependant_classes@.contains(x) by {
                                    assert(self.dependants().contains(x));
                                }
                                lemma_swept_range_mono(*program, self.invocations(), d1, s1, self.dependant_classes@, self.visited_functions@, slo);
                            }
                        },
                        (None, None) => {},
                    }
                    match target {
                        Some(t) => {
                            basic_block = *t;
                            proof {
                                assert(flow_step(*program, rets, here, state(f, basic_block, cur_local)));
                                lemma_rec_reach_step(*program, rets, self.outcomes(), hn, start, here, state(f, basic_block, cur_local));
                                rn = hn + 1;
                            }
                        },
                        None => {
                            proof {
                                pidx = -1;
                            }
                            return Ok(guard_state.combine(GuardState::Undetermined));
                        },
                    }
                },
                Terminator::Assert { target, .. } => {
                    basic_block = *target;
                    proof {
                        lemma_rec_reach_step(*program, rets, self.outcomes(), hn, start, here, state(f, basic_block, cur_local));
                        rn = hn + 1;
                    }
                },
                Terminator::Yield { .. } | Terminator::GeneratorDrop => {
                    // refused by the checks above
                    return Err(AnalysisError::UnsupportedTerminator);
                },
                Terminator::FalseEdge { real_target, .. } => {
                    basic_block = *real_target;
                    proof {
                        lemma_rec_reach_step(*program, rets, self.outcomes(), hn, start, here, state(f, basic_block, cur_local));
                        rn = hn + 1;
                    }
                },
                Terminator::FalseUnwind { real_target, .. } => {
                    basic_block = *real_target;
                    proof {
                        lemma_rec_reach_step(*program, rets, self.outcomes(), hn, start, here, state(f, basic_block, cur_local));
                        rn = hn + 1;
                    }
                },
                Terminator::InlineAsm { destination, .. } => match destination {
                    Some(d) => {
                        basic_block = *d;
                        proof {
                        lemma_rec_reach_step(*program, rets, self.outcomes(), hn, start, here, state(f, basic_block, cur_local));
                        rn = hn + 1;
                    }
                    },
                    None => return Ok(guard_state.combine(GuardState::Undetermined)),
                },
            }
        }
    }

    /// Consumes the collector, returning what the walk from `basic_block_id`
    /// found, with the guard in `lock_local`.
    pub fn collect(self, basic_block_id: Bbid, lock_local: Local) -> (r: Result<Vec<Bbid>, AnalysisError>)
        requires
            self.inv(),
            self.visited_blocks().len() == 0,
            self.visited_functions().len() == 0,
            self.dependants().len() == 0,
        ensures
            r is Err ==> is_walk_error(r->Err_0),
            r is Err ==> walk_fails(self.program(), map_rets(self.return_locations()),
                LocalBlockPair { block: basic_block_id, local: lock_local }, r->Err_0),
            r is Ok ==> walk_covers(self.program(), map_rets(self.return_locations()), self.invocations(),
                LocalBlockPair { block: basic_block_id, local: lock_local }, r->Ok_0@),
            r is Ok ==> (forall|i: int| 0 <= i < r->Ok_0@.len() ==> is_invocation(self.invocations(), #[trigger] r->Ok_0@[i])),
            r is Ok ==> r->Ok_0@.no_duplicates(),
    {
        let mut collector = self;
        collector.collect_inner(basic_block_id, lock_local, true)?;
        proof {
            let v = collector.visited_blocks@;
            let s = collector.visited_functions@;
            assert forall|i: int| 0 <= i < v.len() && is_invocation(collector.invocation_map@, (#[trigger] v[i]).block)
                implies collector.dependant_classes@.contains(v[i].block) by {
            }
            assert forall|k: int| 0 <= k < collector.dependant_classes@.len() implies is_invocation(collector.invocation_map@, #[trigger] collector.dependant_classes@[k])
                && found_in(*collector.program, v, 0, s, 0, collector.dependant_classes@[k]) by {
                assert(collector.dependant_classes@.contains(collector.dependant_classes@[k]));
                assert(!self.dependant_classes@.contains(collector.dependant_classes@[k]));
            }
            assert(walk_witness(*collector.program, map_rets(collector.return_map@), collector.invocation_map@,
                LocalBlockPair { block: basic_block_id, local: lock_local }, collector.dependant_classes@, v, s, collector.outcomes@));
        }
        Ok(collector.dependant_classes)
    }
}

} // verus!
