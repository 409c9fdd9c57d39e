//! The configured lock targets and the function that makes the compiler
//! resolve their names.
use vstd::prelude::*;

verus! {

/// Identifies a lock type which will be checked, by fully qualified paths.
#[derive(Debug, Clone)]
pub struct LockCheckTarget {
    pub lock: String,
    pub guard: String,
    /// Path to the function that builds a lock from its data.
    pub constructor: String,
    /// Path to the method that locks and returns a guard, possibly wrapped.
    pub lock_method: String,
}

/// The analysis configuration: one entry per lock type to check.
#[derive(Debug, Clone)]
pub struct Config {
    pub locks: Vec<LockCheckTarget>,
}

/// Name of the generated function that resolves the configured paths.
pub const LOCK_FILLER_FN_NAME: &'static str = "__lock_check_resolve";

/// The three statements generated for one lock target.
pub open spec fn filler_statements(l: LockCheckTarget) -> Seq<char> {
    "\n    let lock: "@ + l.lock@ + "<u8> = "@ + l.constructor@ + "(0);\n    let guard_result = "@
        + l.lock_method@ + "(&lock);\n    let _guard: "@ + l.guard@ + "<u8> = guard_result.unwrap();\n"@
}

/// The statements generated for every lock target, in order.
pub open spec fn filler_body(locks: Seq<LockCheckTarget>) -> Seq<char>
    decreases locks.len(),
{
    if locks.len() == 0 {
        Seq::empty()
    } else {
        filler_body(locks.drop_last()) + filler_statements(locks.last())
    }
}

/// The text of the whole generated function.
pub open spec fn lock_filler_text(locks: Seq<LockCheckTarget>) -> Seq<char> {
    "\n#[allow(dead_code)]\nfn "@ + LOCK_FILLER_FN_NAME@ + "() {"@ + filler_body(locks) + "}\n"@
}

/// Generates source text for a function that builds each configured lock,
/// locks it and unwraps the guard.
///
/// Appended to the crate under analysis, it makes the compiler resolve the
/// configured paths; the analysis reads the resolved definitions back from it.
pub fn generate_lock_filler(config: &Config) -> (r: String)
    ensures
        r@ == lock_filler_text(config.locks@),
{
    let mut body = String::new();
    let mut i: usize = 0;
    while i < config.locks.len()
        invariant
            i <= config.locks@.len(),
            body@ == filler_body(config.locks@.subrange(0, i as int)),
        decreases config.locks@.len() - i,
    {
        let lock = &config.locks[i];
        body.append("\n    let lock: ");
        body.append(lock.lock.as_str());
        body.append("<u8> = ");
        body.append(lock.constructor.as_str());
        body.append("(0);\n    let guard_result = ");
        body.append(lock.lock_method.as_str());
        body.append("(&lock);\n    let _guard: ");
        body.append(lock.guard.as_str());
        body.append("<u8> = guard_result.unwrap();\n");
        proof {
            let prefix = config.locks@.subrange(0, i + 1);
            assert(prefix.drop_last() =~= config.locks@.subrange(0, i as int));
            assert(prefix.last() == *lock);
        }
        i = i + 1;
    }
    assert(config.locks@.subrange(0, config.locks@.len() as int) =~= config.locks@);
    let mut r = String::new();
    r.append("\n#[allow(dead_code)]\nfn ");
    r.append(LOCK_FILLER_FN_NAME);
    r.append("() {");
    r.append(body.as_str());
    r.append("}\n");
    r
}

} // verus!
