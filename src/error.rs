use vstd::prelude::*;

verus! {

/// A program shape outside the analysis model, or a misconfiguration.
///
/// These abort the analysis of the current program.
#[derive(Debug, Clone, Copy, PartialEq, Eq, Structural)]
pub enum AnalysisError {
    /// The configured lock type does not take exactly one generic argument.
    LockArity,
    /// The generic argument of the lock type is not a type.
    LockArgNotType,
    /// A live guard is copied.
    GuardCopied,
    /// A call writes its result over the local that holds a live guard.
    GuardOverwritten,
    /// The local that holds a live guard is de-initialised.
    InvalidDeinit,
    /// `StorageLive` on the local that holds a live guard.
    InvalidStorageLive,
    /// `StorageDead` on the local that holds a live guard.
    InvalidStorageDead,
    /// A function returns while the guard is neither dropped nor returned.
    ReturnWithoutDrop,
    /// A generator terminator was reached while a guard is live.
    UnsupportedTerminator,
    /// A recorded lock acquisition is not a call that returns.
    LockCallDiverges,
    /// Every lock class identifier has been handed out.
    ClassIdsExhausted,
    /// The name-resolution function does not have the expected shape.
    InvalidShim,
}

/// An error of the guard-flow walk: the program leaves the shape that the
/// walk models.
pub open spec fn is_walk_error(e: AnalysisError) -> bool {
    ||| e == AnalysisError::GuardCopied
    ||| e == AnalysisError::GuardOverwritten
    ||| e == AnalysisError::InvalidDeinit
    ||| e == AnalysisError::InvalidStorageLive
    ||| e == AnalysisError::InvalidStorageDead
    ||| e == AnalysisError::ReturnWithoutDrop
    ||| e == AnalysisError::UnsupportedTerminator
    ||| e == AnalysisError::LockCallDiverges
}

} // verus!
