//! A layered key-value lookup structure: an ordered stack of independent
//! hash-map contexts queried as a single logical mapping, where the front
//! (most recently pushed) context takes precedence over deeper ones for
//! shared keys.
//!
//! Reads scan from the front toward the back; writes always target the front
//! context only, so shadowing is non-destructive. The stack can be collapsed
//! into a single flat map honoring precedence, or forked into an independent
//! deep copy of a front-aligned prefix.

pub mod laws;
pub mod manager;
pub mod model;

pub use manager::ContextManager;
pub use model::first_from;
pub use model::stack_get;
pub use model::stack_get_from;
pub use model::stack_get_local;
