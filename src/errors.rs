//! Deadlock findings, kept in source order of the second acquisition.
use vstd::prelude::*;
use crate::ir::{span_lt, Span, TyId};
use crate::status::ErrorStatus;

verus! {

/// Where an acquisition happens and the type of the data it locks.
#[derive(Debug, Clone, Copy, PartialEq, Eq, Structural)]
pub struct InvocationErrorInfo {
    pub span: Span,
    pub ty: TyId,
}

/// A potential deadlock: `child_invocation` may run while the guard of
/// `parent_invocation` is live, and the two classes lie on a cycle.
#[derive(Debug, Clone, Copy, PartialEq, Eq, Structural)]
pub struct DeadlockError {
    pub parent_invocation: InvocationErrorInfo,
    pub child_invocation: InvocationErrorInfo,
}

/// Strictly ascending by the span of the second acquisition, hence without
/// two findings at one span.
pub open spec fn sorted_by_child_span(s: Seq<DeadlockError>) -> bool {
    forall|i: int, j: int| 0 <= i < j < s.len()
        ==> span_lt(s[i].child_invocation.span, s[j].child_invocation.span)
}

/// Some finding in `s` is at span `sp`.
pub open spec fn has_child_span(s: Seq<DeadlockError>, sp: Span) -> bool {
    exists|i: int| 0 <= i < s.len() && (#[trigger] s[i]).child_invocation.span == sp
}

/// The findings of one pass, in the order they are reported.
#[derive(Debug)]
pub struct Errors {
    errors: Vec<DeadlockError>,
}

impl Errors {
    pub closed spec fn view(&self) -> Seq<DeadlockError> {
        self.errors@
    }

    pub fn new() -> (r: Errors)
        ensures
            r@.len() == 0,
    {
        Errors { errors: Vec::new() }
    }

    /// Records a finding; one at the same child span is kept instead.
    pub fn emit_deadlock_error(&mut self, parent_invocation: InvocationErrorInfo, child_invocation: InvocationErrorInfo)
        requires
            sorted_by_child_span(old(self)@),
        ensures
            sorted_by_child_span(final(self)@),
            has_child_span(old(self)@, child_invocation.span) ==> final(self)@ == old(self)@,
            forall|e: DeadlockError| #[trigger] final(self)@.contains(e) <==> (old(self)@.contains(e) || (e == (
                DeadlockError { parent_invocation, child_invocation }) && !has_child_span(old(self)@, child_invocation.span))),
            !has_child_span(old(self)@, child_invocation.span) ==> final(self)@.len() == old(self)@.len() + 1
                && final(self)@.to_multiset() == old(self)@.to_multiset().insert(
                DeadlockError { parent_invocation, child_invocation },
            ),
    {
        let error = DeadlockError { parent_invocation, child_invocation };
        let sp = child_invocation.span;
        let mut i: usize = 0;
        while i < self.errors.len() && self.errors[i].child_invocation.span.lt(&sp)
            invariant
                i <= self.errors@.len(),
                self.errors@ == old(self).errors@,
                forall|k: int| 0 <= k < i ==> span_lt(self.errors@[k].child_invocation.span, sp),
            decreases self.errors@.len() - i,
        {
            i = i + 1;
        }
        if i < self.errors.len() && self.errors[i].child_invocation.span == sp {
            return;
        }
        proof {
            assert forall|k: int| 0 <= k < self.errors@.len() implies self.errors@[k].child_invocation.span != sp by {
                if k > i {
                    assert(span_lt(self.errors@[i as int].child_invocation.span, self.errors@[k].child_invocation.span));
                }
            }
        }
        let ghost before = self.errors@;
        self.errors.insert(i, error);
        proof {
            before.to_multiset_ensures();
            self.errors@.to_multiset_ensures();
            vstd::seq_lib::lemma_seq_union_to_multiset_commutative(before.subrange(0, i as int), before.subrange(i as int, before.len() as int));
            assert(before =~= before.subrange(0, i as int) + before.subrange(i as int, before.len() as int));
            assert(self.errors@ =~= before.subrange(0, i as int).push(error) + before.subrange(i as int, before.len() as int));
            vstd::seq_lib::lemma_multiset_commutative(before.subrange(0, i as int).push(error), before.subrange(i as int, before.len() as int));
            vstd::seq_lib::lemma_multiset_commutative(before.subrange(0, i as int), before.subrange(i as int, before.len() as int));
            before.subrange(0, i as int).to_multiset_ensures();
            assert(self.errors@.to_multiset() =~= before.to_multiset().insert(error));
            assert forall|e: DeadlockError| #[trigger] self.errors@.contains(e) <==> (before.contains(e) || e == error) by {
                assert(self.errors@.to_multiset().count(e) == before.to_multiset().insert(error).count(e));
            }
            assert forall|k: int| i <= k < before.len() implies span_lt(sp, before[k].child_invocation.span) by {
                assert(!span_lt(before[i as int].child_invocation.span, sp));
                assert(before[i as int].child_invocation.span != sp);
                if k > i {
                    assert(span_lt(before[i as int].child_invocation.span, before[k].child_invocation.span));
                }
            }
            let s = self.errors@;
            assert forall|a: int, b: int| 0 <= a < b < s.len() implies span_lt(s[a].child_invocation.span, s[b].child_invocation.span) by {
                if b < i {
                    assert(s[a] == before[a] && s[b] == before[b]);
                } else if b == i {
                    assert(s[a] == before[a]);
                } else if a < i {
                    assert(s[a] == before[a] && s[b] == before[b - 1]);
                    assert(span_lt(before[a].child_invocation.span, sp));
                } else if a == i {
                    assert(s[b] == before[b - 1]);
                } else {
                    assert(s[a] == before[a - 1] && s[b] == before[b - 1]);
                }
            }
        }
    }

    /// Whether any finding was recorded.
    pub fn emit_all_errors(&self) -> (r: ErrorStatus)
        ensures
            r == (if self@.len() > 0 {
                ErrorStatus::DeadlockDetected
            } else {
                ErrorStatus::NoDeadlock
            }),
    {
        if self.errors.len() > 0 {
            ErrorStatus::DeadlockDetected
        } else {
            ErrorStatus::NoDeadlock
        }
    }

    /// The findings, in ascending order of child span.
    pub fn diagnostics(&self) -> (r: &Vec<DeadlockError>)
        ensures
            r@ == self@,
    {
        &self.errors
    }
}

} // verus!
