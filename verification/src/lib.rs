//! Canonical enumeration of assignments of weighted, time-scoped reservations
//! to capacity-bounded units.
//!
//! The engine walks the space of assignments like a mixed-radix odometer: one
//! bounded cursor per reservation, advanced with carry, pruned by a conflict
//! rule (overlapping reservations never share a unit) and a symmetry rule
//! (interchangeable reservations keep a fixed canonical order), with a
//! shortcut table that skips runs of interchangeable units in one move.

pub mod inputs;
pub mod robin;
pub mod solver;
