//! Arena-style memory primitives: chunked bump vectors whose elements never
//! move, a heterogeneous vector that packs objects of differing sizes into one
//! byte buffer, typed and untyped arenas, and zones with bounded write cursors.
//!
//! Addresses are modelled as [`chain::Slot`] values: the chunk that holds an
//! element and its position inside that chunk. A chunk is never resized or
//! relocated once it is part of a vector, so a slot keeps denoting the same
//! storage for as long as the vector lives. Every access goes through the
//! arena that gave the slot out.
//!
//! - [`chain`]: the growth engine with backward traversal and shrink-back.
//! - [`monovec`]: its forward-only face, which never gives capacity back.
//! - [`fence`]: fenceposts and the arithmetic of alignment.
//! - [`hetvec`]: the heterogeneous vector.
//! - [`arena`]: arenas of single values.
//! - [`zone`]: zones and quotas.
//! - [`text`]: bytes as text.

pub mod arena;
pub mod chain;
pub mod fence;
pub mod hetvec;
pub mod monovec;
pub mod text;
pub mod zone;
