//! Cost-basis accounting for a single fungible position.
//!
//! A [`holding::Holding`] keeps the still-open inventory lots of one position
//! in first-in-first-out order.  Inventory changes are fed to it one at a
//! time, in date order; a change in the same direction as the holding is
//! appended as a new open lot, while an opposing change is matched against
//! the oldest open lots, splitting a lot or the change itself when sizes do
//! not align, and each pairing is reported as a [`realized::Realized`] gain
//! or loss.
//!
//! Quantities and basis amounts are signed integers in caller-chosen units:
//! a positive quantity adds to a long position, a negative one to a short
//! position, and basis is the signed total cost (negative) or proceeds
//! (positive) of the change, never a per-unit price.
//!
//! - [`unrealized::URealized`] - one still-open slice of inventory
//! - [`realized::Realized`] - one matched open/close pair with its gain
//! - [`transaction::Transaction`] - a ready-made inventory-change record;
//!   any type implementing [`inventory::Inventory`] and
//!   [`inventory::VolumeSplit`] can be fed to a holding instead
//!
//! Inventory is always matched first-in-first-out.

use vstd::prelude::*;

pub mod date;
pub mod holding;
pub mod inventory;
pub mod realized;
pub mod transaction;
pub mod unrealized;

verus! {

/// Errors reported by the matching engine and the splitting operations.
#[derive(Clone, Copy, Debug, PartialEq, Eq, Structural)]
pub enum InventoryError {
    /// An argument was outside the documented domain, such as an inventory
    /// change whose quantity is zero, or a split point that does not fall
    /// strictly inside the record being split.
    InvalidArgument,
    /// Splitting a record whose quantity is zero would divide by zero when
    /// prorating the basis.
    DivisionByZero,
}

} // verus!
