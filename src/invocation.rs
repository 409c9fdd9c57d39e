//! Recorded lock acquisitions and the return edges of direct calls.
use vstd::prelude::*;
use crate::ir::{Bbid, Local, Span};
use crate::registry::LockClass;

verus! {

/// One call site that acquires a lock.
#[derive(Debug)]
pub struct LockInvocation {
    /// The block whose terminator is the lock call.
    pub bbid: Bbid,
    pub class: LockClass,
    pub span: Span,
    /// Acquisitions that may run while this one's guard is live.
    pub child_invocations: Vec<Bbid>,
}

impl LockInvocation {
    pub fn new(bbid: Bbid, class: LockClass, span: Span) -> (r: LockInvocation)
        ensures
            r.bbid == bbid,
            r.class == class,
            r.span == span,
            r.child_invocations@.len() == 0,
    {
        LockInvocation { bbid, class, span, child_invocations: Vec::new() }
    }
}

/// `b` is the block of a recorded acquisition.
pub open spec fn is_invocation(invs: Seq<LockInvocation>, b: Bbid) -> bool {
    exists|i: int| 0 <= i < invs.len() && (#[trigger] invs[i]).bbid == b
}

/// Recorded acquisitions have distinct blocks.
pub open spec fn keys_unique(invs: Seq<LockInvocation>) -> bool {
    forall|i: int, j: int| 0 <= i < j < invs.len() ==> invs[i].bbid != invs[j].bbid
}

/// Position of the acquisition recorded at `b`.
pub fn find_invocation(invs: &Vec<LockInvocation>, b: Bbid) -> (r: Option<usize>)
    ensures
        r is None ==> !is_invocation(invs@, b),
        r is Some ==> r->0 < invs@.len() && invs@[r->0 as int].bbid == b,
{
    let mut i: usize = 0;
    while i < invs.len()
        invariant
            i <= invs@.len(),
            forall|k: int| 0 <= k < i ==> invs@[k].bbid != b,
        decreases invs@.len() - i,
    {
        if invs[i].bbid == b {
            return Some(i);
        }
        i = i + 1;
    }
    None
}

/// Where a call returns to: the caller's continuation block and the local
/// that receives the result.
#[derive(Debug, Clone, Copy, PartialEq, Eq, Structural)]
pub struct ReturnLocation {
    pub return_bbid: Bbid,
    pub return_local: Local,
}

/// For each function, the places its direct calls return to.
#[derive(Debug)]
pub struct FunctionReturnMap {
    locations: Vec<Vec<ReturnLocation>>,
}

impl FunctionReturnMap {
    /// The return locations recorded for function `f`.
    pub closed spec fn view(&self) -> Seq<Seq<ReturnLocation>> {
        Seq::new(self.locations@.len(), |i: int| self.locations@[i]@)
    }

    /// Number of functions the map covers.
    pub fn len(&self) -> (r: usize)
        ensures
            r == self@.len(),
    {
        self.locations.len()
    }

    /// An empty map for a program of `n` functions.
    pub fn new(n: usize) -> (r: FunctionReturnMap)
        ensures
            r@.len() == n,
            forall|f: int| 0 <= f < n ==> (#[trigger] r@[f]).len() == 0,
    {
        let mut locations: Vec<Vec<ReturnLocation>> = Vec::new();
        let mut i: usize = 0;
        while i < n
            invariant
                i <= n,
                locations@.len() == i,
                forall|f: int| 0 <= f < i ==> (#[trigger] locations@[f])@.len() == 0,
            decreases n - i,
        {
            locations.push(Vec::new());
            i = i + 1;
        }
        FunctionReturnMap { locations }
    }

    /// Records that a call of `f` returns to `loc`; each location is kept once.
    pub fn insert_return_location(&mut self, f: usize, loc: ReturnLocation)
        requires
            f < old(self)@.len(),
        ensures
            final(self)@.len() == old(self)@.len(),
            forall|g: int| 0 <= g < old(self)@.len() && g != f ==> (#[trigger] final(self)@[g]) == old(self)@[g],
            forall|x: ReturnLocation| (#[trigger] final(self)@[f as int].contains(x)) <==> (old(self)@[f as int].contains(x) || x == loc),
            old(self)@[f as int].no_duplicates() ==> final(self)@[f as int].no_duplicates(),
    {
        let ghost before = self.locations@[f as int]@;
        let mut i: usize = 0;
        while i < self.locations[f].len()
            invariant
                f < self.locations@.len(),
                self.locations@ == old(self).locations@,
                i <= self.locations@[f as int]@.len(),
                forall|k: int| 0 <= k < i ==> self.locations@[f as int]@[k] != loc,
            decreases self.locations@[f as int]@.len() - i,
        {
            if self.locations[f][i] == loc {
                assert(self@ =~= old(self)@);
                return;
            }
            i = i + 1;
        }
        self.locations[f].push(loc);
        proof {
            assert(self.locations@[f as int]@ == before.push(loc));
            assert forall|x: ReturnLocation| (#[trigger] self@[f as int].contains(x)) <==> (before.contains(x) || x == loc) by {
                if before.contains(x) {
                    let k = before.index_of(x);
                    before.index_of_first(x);
                    assert(self@[f as int][k] == x);
                }
                if x == loc {
                    assert(self@[f as int][before.len() as int] == x);
                }
                if self@[f as int].contains(x) && x != loc {
                    let k = choose|k: int| 0 <= k < self@[f as int].len() && self@[f as int][k] == x;
                    assert(before[k] == x);
                }
            }
        }
    }

    /// The return locations recorded for `f`.
    pub fn iter_return_locations(&self, f: usize) -> (r: &Vec<ReturnLocation>)
        requires
            f < self@.len(),
        ensures
            r@ == self@[f as int],
    {
        &self.locations[f]
    }
}

} // verus!
