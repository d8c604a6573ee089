use vstd::prelude::*;

use crate::date::Date;
use crate::inventory::{
    abs_i, dir_of, lemma_prorate_bounds, split_part, split_rest, ChangeData, Inventory,
    InventoryType, VolumeSplit,
};
use crate::InventoryError;

verus! {

/// One still-open slice of inventory: its acquisition date, signed quantity
/// and signed basis.
///
/// The quantity sign encodes the position: positive for long, negative for
/// short.  The basis carries the opposite convention: the cost paid for a
/// long open lot is a negative basis.
#[derive(Clone, Copy, Debug, PartialEq, Eq, Structural)]
pub struct URealized {
    pub date: Date,
    pub quantity: i64,
    pub basis: i64,
}

impl URealized {
    /// Builds an open lot from its three fields.
    pub fn new(date: Date, quantity: i64, basis: i64) -> (r: URealized)
        ensures
            r == (URealized { date, quantity, basis }),
    {
        URealized { date, quantity, basis }
    }

    /// Wraps any inventory change as an open lot carrying the same date,
    /// quantity and basis.
    pub fn from_inventory<T: Inventory>(inv: &T) -> (r: URealized)
        requires
            inv.inv_wf(),
        ensures
            r.date == inv.chg().date,
            r.quantity as int == inv.chg().quantity,
            r.basis as int == inv.chg().basis,
    {
        URealized { date: inv.date(), quantity: inv.quantity(), basis: inv.basis() }
    }
}

impl Inventory for URealized {
    open spec fn chg(&self) -> ChangeData {
        ChangeData {
            date: self.date,
            itype: dir_of(self.quantity as int),
            quantity: self.quantity as int,
            basis: self.basis as int,
        }
    }

    open spec fn inv_wf(&self) -> bool {
        true
    }

    proof fn lemma_chg_bounds(&self) {
    }

    fn basis(&self) -> i64 {
        self.basis
    }

    fn quantity(&self) -> i64 {
        self.quantity
    }

    fn date(&self) -> Date {
        self.date
    }

    fn itype(&self) -> InventoryType {
        self.direction_type()
    }

    fn direction_type(&self) -> InventoryType {
        if self.quantity > 0 {
            InventoryType::Long
        } else {
            InventoryType::Short
        }
    }
}

impl VolumeSplit for URealized {
    fn split(&self, at: i64) -> Result<(Self, Self), InventoryError> {
        if self.quantity == 0 {
            return Err(InventoryError::DivisionByZero);
        }
        let q_wide: i128 = self.quantity as i128;
        let q_abs: i128 = if q_wide < 0 {
            -q_wide
        } else {
            q_wide
        };
        if !(0 < at && (at as i128) < q_abs) {
            return Err(InventoryError::InvalidArgument);
        }
        let part_q: i64 = if self.quantity < 0 {
            -at
        } else {
            at
        };
        let b_wide: i128 = self.basis as i128;
        let b_abs: i128 = if b_wide < 0 {
            -b_wide
        } else {
            b_wide
        };
        proof {
            assert((b_abs as u128) * (at as u128) <= u128::MAX) by (nonlinear_arith)
                requires
                    0 <= b_abs <= 0x8000_0000_0000_0000,
                    0 <= at <= 0x8000_0000_0000_0000,
            ;
        }
        let m_u: u128 = ((b_abs as u128) * (at as u128)) / (q_abs as u128);
        proof {
            lemma_prorate_bounds(self.basis as int, at as int, q_abs as int);
        }
        let m: i64 = m_u as i64;
        let part_b: i64 = if self.basis < 0 {
            -m
        } else {
            m
        };
        let part = URealized { date: self.date, quantity: part_q, basis: part_b };
        let rest = URealized {
            date: self.date,
            quantity: self.quantity - part_q,
            basis: self.basis - part_b,
        };
        Ok((part, rest))
    }
}

} // verus!
