//! Hook management for a dynamic-binary-instrumentation layer of a JIT
//! execution engine.
//!
//! The crate keeps the registry of instrumentation hooks, the pending queue
//! used for cross-thread registration, the set of already-instrumented guest
//! addresses, and the two invalidation work-lists that drive eviction of stale
//! compiled blocks.  Every decision the engine needs — which hooks a block
//! must dispatch to, which cached blocks to invalidate, whether a cached block
//! must be retranslated, where to splice instrumentation calls — is computed
//! here over plain values and proved against the contracts in each module.
//! The engine itself (code generation, cache memory, callback invocation,
//! threads and locks) is a collaborator that supplies those plain values and
//! performs the returned actions.

pub mod api;
pub mod hook;
pub mod hook_manager;
pub mod laws;
pub mod registry;
pub mod tb;
