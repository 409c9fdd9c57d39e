//! Interning of locked data types to lock classes.
use vstd::prelude::*;
use crate::error::AnalysisError;
use crate::ir::TyId;

verus! {

/// Identifier of a lock class: all locks that protect data of one type.
#[derive(Debug, Clone, Copy, PartialEq, Eq, Structural)]
pub struct LockClass(pub u64);

/// Source of fresh lock class identifiers, shared by all passes.
#[derive(Debug)]
pub struct ClassCounter {
    pub next: u64,
}

impl ClassCounter {
    pub fn new() -> (r: ClassCounter)
        ensures
            r.next == 0,
    {
        ClassCounter { next: 0 }
    }
}

impl LockClass {
    /// Hands out the next identifier; identifiers are never reused.
    pub fn new(counter: &mut ClassCounter) -> (r: Result<LockClass, AnalysisError>)
        ensures
            old(counter).next < u64::MAX ==> r == Ok::<LockClass, AnalysisError>(
                LockClass(old(counter).next),
            ) && final(counter).next == old(counter).next + 1,
            old(counter).next == u64::MAX ==> r == Err::<LockClass, AnalysisError>(
                AnalysisError::ClassIdsExhausted,
            ) && final(counter).next == old(counter).next,
    {
        if counter.next == u64::MAX {
            return Err(AnalysisError::ClassIdsExhausted);
        }
        let class = LockClass(counter.next);
        counter.next = counter.next + 1;
        Ok(class)
    }
}

/// One step of interning: the class of `ty` in `m`, or a new class numbered
/// `next` when `ty` has none yet.
pub open spec fn intern_step(m: Map<TyId, LockClass>, next: u64, ty: TyId) -> (Map<TyId, LockClass>, LockClass) {
    if m.contains_key(ty) {
        (m, m[ty])
    } else {
        (m.insert(ty, LockClass(next)), LockClass(next))
    }
}

/// Interning is a function of the type: asking again for a type gives the
/// class it got the first time, and interning any type keeps every class
/// already handed out.
pub proof fn lemma_interning_is_function(m: Map<TyId, LockClass>, n1: u64, n2: u64, ty: TyId, other: TyId)
    ensures
        intern_step(intern_step(m, n1, ty).0, n2, ty) == (intern_step(m, n1, ty).0, intern_step(m, n1, ty).1),
        m.contains_key(ty) ==> intern_step(m, n2, other).0.contains_key(ty)
            && intern_step(m, n2, other).0[ty] == m[ty],
{
}

/// Bidirectional map between lock classes and the data types they stand for.
#[derive(Debug)]
pub struct LockClassTyMap {
    classes: Vec<LockClass>,
    tys: Vec<TyId>,
}

impl LockClassTyMap {
    /// Well-formed, with every class numbered below `next`.
    pub closed spec fn wf(&self, next: u64) -> bool {
        &&& self.inv()
        &&& forall|i: int| 0 <= i < self.classes@.len() ==> #[trigger] self.classes@[i].0 < next
    }

    /// The two columns have equal length, and neither repeats an entry.
    pub closed spec fn inv(&self) -> bool {
        &&& self.classes@.len() == self.tys@.len()
        &&& forall|i: int, j: int| 0 <= i < j < self.tys@.len() ==> self.tys@[i] != self.tys@[j]
        &&& forall|i: int, j: int|
            0 <= i < j < self.classes@.len() ==> self.classes@[i] != self.classes@[j]
    }

    /// A class occurs at one position only.
    pub proof fn lemma_class_position_unique(&self, i: int, j: int)
        requires
            self.inv(),
            0 <= i < self.len(),
            0 <= j < self.len(),
            self.class_at(i) == self.class_at(j),
        ensures
            i == j,
    {
    }

    /// The type at position `i`.
    pub fn ty_of_position(&self, i: usize) -> (r: TyId)
        requires
            self.inv(),
            i < self.len(),
        ensures
            r == self.ty_at(i as int),
    {
        self.tys[i]
    }

    /// Number of interned classes.
    pub fn num_classes(&self) -> (r: usize)
        ensures
            r == self.len(),
    {
        self.classes.len()
    }

    /// The class of each interned type.
    pub closed spec fn view(&self) -> Map<TyId, LockClass> {
        Map::new(
            |t: TyId| self.tys@.contains(t),
            |t: TyId| self.classes@[self.tys@.index_of(t)],
        )
    }

    /// Number of interned classes.
    pub closed spec fn len(&self) -> nat {
        self.classes@.len()
    }

    /// The class at position `i`, in order of interning.
    pub closed spec fn class_at(&self, i: int) -> LockClass {
        self.classes@[i]
    }

    /// The type at position `i`, in order of interning.
    pub closed spec fn ty_at(&self, i: int) -> TyId {
        self.tys@[i]
    }

    pub fn new() -> (r: LockClassTyMap)
        ensures
            forall|next: u64| r.wf(next),
            r.inv(),
            r@ == Map::<TyId, LockClass>::empty(),
            r.len() == 0,
    {
        let r = LockClassTyMap { classes: Vec::new(), tys: Vec::new() };
        assert(r@ =~= Map::<TyId, LockClass>::empty());
        r
    }

    /// Position of `ty`, if it has been interned.
    fn find_ty(&self, ty: TyId) -> (r: Option<usize>)
        requires
            self.classes@.len() == self.tys@.len(),
        ensures
            r is None ==> !self.tys@.contains(ty),
            r is Some ==> r->0 < self.tys@.len() && self.tys@[r->0 as int] == ty,
    {
        let mut i: usize = 0;
        while i < self.tys.len()
            invariant
                i <= self.tys@.len(),
                forall|k: int| 0 <= k < i ==> self.tys@[k] != ty,
            decreases self.tys@.len() - i,
        {
            if self.tys[i] == ty {
                return Some(i);
            }
            i = i + 1;
        }
        None
    }

    /// Position of `class`, if it has been interned.
    pub fn index_of(&self, class: LockClass) -> (r: Option<usize>)
        ensures
            r is None ==> forall|i: int| 0 <= i < self.len() ==> self.class_at(i) != class,
            r is Some ==> r->0 < self.len() && self.class_at(r->0 as int) == class,
    {
        let mut i: usize = 0;
        while i < self.classes.len()
            invariant
                i <= self.classes@.len(),
                forall|k: int| 0 <= k < i ==> self.classes@[k] != class,
            decreases self.classes@.len() - i,
        {
            if self.classes[i] == class {
                return Some(i);
            }
            i = i + 1;
        }
        None
    }

    /// The class of `ty`, interning it under a fresh class if it is new.
    pub fn get_lock_class(&mut self, ty: TyId, counter: &mut ClassCounter) -> (r: Result<LockClass, AnalysisError>)
        requires
            old(self).wf(old(counter).next),
        ensures
            final(self).wf(final(counter).next),
            final(self).inv(),
            final(counter).next >= old(counter).next,
            final(self).len() >= old(self).len(),
            final(counter).next == old(counter).next + (final(self).len() - old(self).len()),
            forall|i: int| 0 <= i < old(self).len() ==> final(self).class_at(i) == old(self).class_at(i)
                && final(self).ty_at(i) == old(self).ty_at(i),
            match r {
                Ok(c) => (final(self)@, c) == intern_step(old(self)@, old(counter).next, ty),
                Err(e) => e == AnalysisError::ClassIdsExhausted && !old(self)@.contains_key(ty)
                    && old(counter).next == u64::MAX && final(self)@ == old(self)@,
            },
            old(self)@.contains_key(ty) ==> r is Ok,
            old(counter).next < u64::MAX ==> r is Ok,
            r is Err ==> final(counter).next == u64::MAX,
            r is Ok && !old(self)@.contains_key(ty) ==> forall|i: int| 0 <= i < old(self).len()
                ==> #[trigger] old(self).class_at(i) != r->Ok_0,
            r is Ok && !old(self)@.contains_key(ty) ==> forall|t: TyId| #[trigger] old(self)@.contains_key(t)
                ==> old(self)@[t] != r->Ok_0,
    {
        match self.find_ty(ty) {
            Some(i) => {
                proof {
                    assert(self.tys@.index_of(ty) == i as int) by {
                        self.tys@.index_of_first(ty);
                    }
                }
                Ok(self.classes[i])
            },
            None => {
                let ghost before = self@;
                let class = LockClass::new(counter)?;
                proof {
                    assert forall|t: TyId| #[trigger] before.contains_key(t) implies before[t] != class by {
                        self.tys@.index_of_first(t);
                        assert(self.classes@[self.tys@.index_of(t)].0 < class.0);
                    }
                    assert forall|i: int| 0 <= i < self.classes@.len() implies #[trigger] self.classes@[i] != class by {
                        assert(self.classes@[i].0 < class.0);
                    }
                }
                let ghost old_tys = self.tys@;
                let ghost old_classes = self.classes@;
                self.classes.push(class);
                self.tys.push(ty);
                proof {
                    assert forall|t: TyId| #[trigger] self.tys@.contains(t) implies
                        (t == ty || old_tys.contains(t)) by {
                        let k = self.tys@.index_of(t);
                        self.tys@.index_of_first(t);
                        if k < old_tys.len() {
                            assert(old_tys[k] == t);
                        }
                    }
                    assert forall|t: TyId| old_tys.contains(t) implies #[trigger] self.tys@.contains(t)
                        && self.tys@.index_of(t) == old_tys.index_of(t) by {
                        old_tys.index_of_first(t);
                        let k = old_tys.index_of(t);
                        assert(self.tys@[k] == t);
                        self.tys@.index_of_first(t);
                    }
                    assert(self.tys@[old_tys.len() as int] == ty);
                    self.tys@.index_of_first(ty);
                    assert(self.tys@.index_of(ty) == old_tys.len());
                    assert(self@ =~= before.insert(ty, class));
                    assert(!old_tys.contains(ty));
                    assert forall|i: int| 0 <= i < self.classes@.len() implies #[trigger] self.classes@[i].0 < counter.next by {
                        if i < old_classes.len() {
                            assert(old_classes[i] == self.classes@[i]);
                        }
                    }
                    assert forall|i: int, j: int| 0 <= i < j < self.classes@.len() implies self.classes@[i] != self.classes@[j] by {
                        assert(old_classes[i] == self.classes@[i]);
                        if j < old_classes.len() {
                            assert(old_classes[j] == self.classes@[j]);
                        } else {
                            assert(old_classes[i].0 < class.0);
                        }
                    }
                    assert forall|i: int, j: int| 0 <= i < j < self.tys@.len() implies self.tys@[i] != self.tys@[j] by {
                        if j == old_tys.len() {
                            assert(old_tys[i] == self.tys@[i]);
                        }
                    }
                }
                Ok(class)
            },
        }
    }

    /// The map view and the positions describe the same pairs.
    pub proof fn lemma_view_positions(&self)
        requires
            self.inv(),
        ensures
            forall|i: int| 0 <= i < self.len() ==> #[trigger] self@.contains_key(self.ty_at(i))
                && self@[self.ty_at(i)] == self.class_at(i),
            forall|t: TyId| #[trigger] self@.contains_key(t) ==> exists|i: int| 0 <= i < self.len()
                && self.ty_at(i) == t && self.class_at(i) == self@[t],
    {
        assert forall|i: int| 0 <= i < self.len() implies #[trigger] self@.contains_key(self.ty_at(i))
            && self@[self.ty_at(i)] == self.class_at(i) by {
            let t = self.tys@[i];
            assert(self.tys@.contains(t));
            self.tys@.index_of_first(t);
        }
        assert forall|t: TyId| #[trigger] self@.contains_key(t) implies exists|i: int| 0 <= i < self.len()
            && self.ty_at(i) == t && self.class_at(i) == self@[t] by {
            self.tys@.index_of_first(t);
            let i = self.tys@.index_of(t);
            assert(self.ty_at(i) == t);
        }
    }

    /// The type that `class` stands for.
    pub fn get_ty(&self, class: LockClass) -> (r: Option<TyId>)
        requires
            self.inv(),
        ensures
            forall|t: TyId| #[trigger] self@.contains_key(t) && self@[t] == class ==> r == Some(t),
            r is Some ==> self@.contains_key(r->0) && self@[r->0] == class,
            r is None ==> forall|i: int| 0 <= i < self.len() ==> self.class_at(i) != class,
            r is Some ==> exists|i: int| 0 <= i < self.len() && self.class_at(i) == class
                && r->0 == self.ty_at(i),
            (exists|i: int| 0 <= i < self.len() && self.class_at(i) == class) ==> r is Some,
    {
        proof {
            self.lemma_view_positions();
        }
        match self.index_of(class) {
            Some(i) => if i < self.tys.len() {
                Some(self.tys[i])
            } else {
                None
            },
            None => None,
        }
    }
}

} // verus!
