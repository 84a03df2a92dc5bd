//! A persisted, dynamically updatable filesystem access scope: a set of path
//! patterns the host application may read, and a set it is forbidden to
//! read, surviving process restarts.
//!
//! The crate is the persistence and reconciliation engine only. The
//! [`record`] module holds the persisted unit, the [`codec`] module its
//! on-disk JSON form, the [`store`] module the load and save semantics
//! (missing and corrupt files degrade to the empty scope), the [`authority`]
//! module the live permission state the host enforces with, and the
//! [`reconciler`] module the two-phase machine that applies the saved scope
//! at startup and re-serializes the authority's state on every mutation.
//! The host performs the actual file reads and writes and delivers mutation
//! events; paths are opaque UTF-8 byte strings whose structure the engine
//! never interprets.

pub mod authority;
pub mod codec;
pub mod paths;
pub mod reconciler;
pub mod record;
pub mod store;
