//! A plain-value model of the typed control-flow graph that the compiler
//! front-end hands to the analysis.
//!
//! Functions are numbered by their position in [`Program::fns`]; a basic
//! block is named by its function and its index in that function's body.
use vstd::prelude::*;

verus! {

/// Identifier of a definition (a type or a function) in the compiled program.
pub type DefId = u64;

/// Identifier of an interned type: equal types have equal identifiers.
pub type TyId = u64;

/// Index of a local slot in a function body; slot 0 is the return place.
pub type Local = usize;

/// The local slot that holds a function's return value.
pub const RETURN_PLACE: usize = 0;

/// The entry block of every function body.
pub const START_BLOCK: usize = 0;

/// A source location, ordered by its start and then by its end.
#[derive(Debug, Clone, Copy, PartialEq, Eq, Structural)]
pub struct Span {
    pub lo: u64,
    pub hi: u64,
}

/// Source order on spans.
pub open spec fn span_lt(a: Span, b: Span) -> bool {
    a.lo < b.lo || (a.lo == b.lo && a.hi < b.hi)
}

impl Span {
    /// Whether `self` comes strictly before `other` in source order.
    pub fn lt(&self, other: &Span) -> (r: bool)
        ensures
            r == span_lt(*self, *other),
    {
        self.lo < other.lo || (self.lo == other.lo && self.hi < other.hi)
    }
}

/// Basic block identifier: uniquely names a basic block in the whole program.
#[derive(Debug, Clone, Copy, PartialEq, Eq, Structural)]
pub struct Bbid {
    pub func: usize,
    pub block: usize,
}

impl Bbid {
    /// The entry block of the given function.
    pub fn fn_start(func: usize) -> (r: Bbid)
        ensures
            r == (Bbid { func, block: START_BLOCK }),
    {
        Bbid { func, block: START_BLOCK }
    }

    /// Another block of the same function.
    pub fn with_basic_block(&self, block: usize) -> (r: Bbid)
        ensures
            r == (Bbid { func: self.func, block }),
    {
        Bbid { func: self.func, block }
    }
}

/// An operand: a local that is copied or moved, or a constant.
#[derive(Debug, Clone, Copy, PartialEq, Eq, Structural)]
pub enum Operand {
    Copy(Local),
    Move(Local),
    Constant,
}

/// The right-hand side of an assignment, as far as the analysis reads it.
#[derive(Debug)]
pub enum Rvalue {
    Use(Operand),
    /// Construction of a tuple, struct or enum value from its fields.
    Aggregate(Vec<Operand>),
    Other,
}

/// A statement inside a basic block.
#[derive(Debug)]
pub enum Statement {
    /// `dest = value`; `dest` is the local of the assigned place.
    Assign { dest: Local, value: Rvalue },
    Deinit(Local),
    StorageLive(Local),
    StorageDead(Local),
    Other,
}

/// A generic argument of a type.
#[derive(Debug, Clone, Copy, PartialEq, Eq, Structural)]
pub enum GenericArg {
    Type(TyId),
    Lifetime,
    Const,
}

/// The shape of a type, as far as lock detection reads it.
#[derive(Debug)]
pub enum Ty {
    Ref(Box<Ty>),
    Adt { def: DefId, args: Vec<GenericArg> },
    Other,
}

/// An argument of a call, with its type.
#[derive(Debug)]
pub struct CallArg {
    pub operand: Operand,
    pub ty: Ty,
}

/// The terminator of a basic block. `unwind` fields name cleanup blocks.
#[derive(Debug)]
pub enum Terminator {
    Goto { target: usize },
    /// Branches to `targets`, or to `otherwise` when no value matches.
    SwitchInt { targets: Vec<usize>, otherwise: usize },
    UnwindResume,
    UnwindTerminate,
    Return,
    Unreachable,
    Drop { place: Local, target: usize, unwind: Option<usize> },
    /// A call; `callee` is the function's index when it is statically known.
    Call {
        callee: Option<usize>,
        args: Vec<CallArg>,
        destination: Local,
        target: Option<usize>,
        unwind: Option<usize>,
        span: Span,
    },
    Assert { target: usize, unwind: Option<usize> },
    Yield { resume: usize, drop: Option<usize> },
    GeneratorDrop,
    FalseEdge { real_target: usize, imaginary_target: usize },
    FalseUnwind { real_target: usize, unwind: Option<usize> },
    InlineAsm { destination: Option<usize>, unwind: Option<usize> },
}

/// A basic block: straight-line statements and one terminator.
#[derive(Debug)]
pub struct BasicBlockData {
    pub statements: Vec<Statement>,
    pub terminator: Terminator,
}

/// The control-flow graph of one function.
#[derive(Debug)]
pub struct Body {
    pub blocks: Vec<BasicBlockData>,
    /// Number of local slots; every slot the walk tracks lies below it.
    pub num_locals: usize,
}

/// A function known to the compiler, with its body when one is available.
#[derive(Debug)]
pub struct Function {
    pub def_id: DefId,
    pub name: String,
    /// A free `fn` item of the crate (not a method, closure or foreign item).
    pub is_fn_item: bool,
    pub body: Option<Body>,
}

/// The whole program under analysis.
#[derive(Debug)]
pub struct Program {
    pub fns: Vec<Function>,
}

pub open spec fn opt_seq(o: Option<usize>) -> Seq<usize> {
    match o {
        Some(b) => seq![b],
        None => Seq::empty(),
    }
}

/// Every block that control may pass to after `t`, unwind edges included.
pub open spec fn successors(t: Terminator) -> Seq<usize> {
    match t {
        Terminator::Goto { target } => seq![target],
        Terminator::SwitchInt { targets, otherwise } => targets@.push(otherwise),
        Terminator::UnwindResume => Seq::empty(),
        Terminator::UnwindTerminate => Seq::empty(),
        Terminator::Return => Seq::empty(),
        Terminator::Unreachable => Seq::empty(),
        Terminator::Drop { target, unwind, .. } => seq![target] + opt_seq(unwind),
        Terminator::Call { target, unwind, .. } => opt_seq(target) + opt_seq(unwind),
        Terminator::Assert { target, unwind } => seq![target] + opt_seq(unwind),
        Terminator::Yield { resume, drop } => seq![resume] + opt_seq(drop),
        Terminator::GeneratorDrop => Seq::empty(),
        Terminator::FalseEdge { real_target, imaginary_target } => seq![real_target, imaginary_target],
        Terminator::FalseUnwind { real_target, unwind } => seq![real_target] + opt_seq(unwind),
        Terminator::InlineAsm { destination, unwind } => opt_seq(destination) + opt_seq(unwind),
    }
}

fn push_opt(v: &mut Vec<usize>, o: Option<usize>)
    ensures
        final(v)@ == old(v)@ + opt_seq(o),
{
    match o {
        Some(b) => {
            v.push(b);
            assert(final(v)@ =~= old(v)@ + opt_seq(o));
        },
        None => {
            assert(old(v)@ + opt_seq(o) =~= old(v)@);
        },
    }
}

impl Terminator {
    /// Every block that control may pass to after this terminator.
    pub fn successors(&self) -> (r: Vec<usize>)
        ensures
            r@ == successors(*self),
    {
        let mut r: Vec<usize> = Vec::new();
        match self {
            Terminator::Goto { target } => r.push(*target),
            Terminator::SwitchInt { targets, otherwise } => {
                r = targets.clone();
                r.push(*otherwise);
            },
            Terminator::Drop { target, unwind, .. } => {
                r.push(*target);
                push_opt(&mut r, *unwind);
            },
            Terminator::Call { target, unwind, .. } => {
                push_opt(&mut r, *target);
                push_opt(&mut r, *unwind);
            },
            Terminator::Assert { target, unwind } => {
                r.push(*target);
                push_opt(&mut r, *unwind);
            },
            Terminator::Yield { resume, drop } => {
                r.push(*resume);
                push_opt(&mut r, *drop);
            },
            Terminator::FalseEdge { real_target, imaginary_target } => {
                r.push(*real_target);
                r.push(*imaginary_target);
            },
            Terminator::FalseUnwind { real_target, unwind } => {
                r.push(*real_target);
                push_opt(&mut r, *unwind);
            },
            Terminator::InlineAsm { destination, unwind } => {
                push_opt(&mut r, *destination);
                push_opt(&mut r, *unwind);
            },
            _ => {},
        }
        assert(r@ =~= successors(*self));
        r
    }
}

/// The successor lists of every block of a body, as a graph over block indices.
pub open spec fn cfg(b: Body) -> Seq<Seq<usize>> {
    Seq::new(b.blocks@.len(), |i: int| successors(b.blocks@[i].terminator))
}

impl Body {
    /// The successor lists of every block.
    pub fn cfg(&self) -> (r: Vec<Vec<usize>>)
        ensures
            crate::graph::adj_view(r@) == cfg(*self),
    {
        let mut r: Vec<Vec<usize>> = Vec::new();
        let mut i: usize = 0;
        while i < self.blocks.len()
            invariant
                i <= self.blocks@.len(),
                r@.len() == i,
                forall|k: int| 0 <= k < i ==> r@[k]@ == successors(self.blocks@[k].terminator),
            decreases self.blocks@.len() - i,
        {
            r.push(self.blocks[i].terminator.successors());
            i = i + 1;
        }
        assert(crate::graph::adj_view(r@) =~= cfg(*self));
        r
    }

    /// Marks the blocks reachable from the entry block.
    pub fn reachable_blocks(&self) -> (r: Vec<bool>)
        ensures
            r@.len() == self.blocks@.len(),
            forall|i: usize| i < self.blocks@.len() ==>
                (r@[i as int] <==> crate::graph::reachable(crate::graph::edges(cfg(*self)), START_BLOCK, i)),
    {
        let g = self.cfg();
        assert(crate::graph::adj_view(g@).len() == g@.len());
        if g.len() == 0 {
            return Vec::new();
        }
        crate::graph::reach_from(&g, START_BLOCK)
    }
}

} // verus!
