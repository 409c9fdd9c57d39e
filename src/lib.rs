//! Static lock-order analysis over a typed control-flow graph.
//!
//! For a configured lock type, the analysis finds every call that acquires a
//! lock, follows the guard it returns through moves, calls and returns until
//! it is dropped, records which acquisitions may run while it is held, and
//! reports each acquisition that closes a cycle between lock classes.
pub mod collector;
pub mod config;
pub mod error;
pub mod errors;
pub mod graph;
pub mod invocation;
pub mod ir;
pub mod pass;
pub mod registry;
pub mod shim;
pub mod status;
pub mod transfer;
