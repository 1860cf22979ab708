//! Lifecycle bookkeeping for game objects ("inits") driven by a scene node.
//!
//! Inits are registered under a parent id, forming a forest; registration and
//! removal are queued and take effect at the next `process_pending`, and
//! freeing an init removes every init below it.
pub mod data;
pub mod interfaces;
pub mod lifecycle;
pub mod naming;
