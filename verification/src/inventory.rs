use vstd::prelude::*;

use crate::date::Date;
use crate::InventoryError;

verus! {

/// The semantic category of an inventory change.
///
/// `Long` and `Short` are trading changes; `Add` and `Remove` are
/// non-trading transfers of inventory in or out of the position.
#[derive(Clone, Copy, Debug, PartialEq, Eq, Structural)]
pub enum InventoryType {
    Long,
    Short,
    Add,
    Remove,
}

/// The mathematical content of one inventory change: its date, category,
/// signed quantity and signed basis, with the two amounts as unbounded
/// integers.
pub ghost struct ChangeData {
    pub date: Date,
    pub itype: InventoryType,
    pub quantity: int,
    pub basis: int,
}

/// The absolute value of an integer.
pub open spec fn abs_i(x: int) -> int {
    if x < 0 {
        -x
    } else {
        x
    }
}

/// The direction a quantity drives a position in: positive quantities are
/// long, everything else is short.
pub open spec fn dir_of(q: int) -> InventoryType {
    if q > 0 {
        InventoryType::Long
    } else {
        InventoryType::Short
    }
}

/// The basis apportioned to a slice of `at` units taken from a record of
/// `q` units (both magnitudes) and total basis `b`: the magnitude of `b` is
/// scaled by `at / q`, rounding the quotient toward zero, and the sign of
/// `b` is kept.  Meaningful for `q > 0` and `0 <= at <= q`.
pub open spec fn prorate(b: int, at: int, q: int) -> int {
    let m = (abs_i(b) * at) / q;
    if b < 0 {
        -m
    } else {
        m
    }
}

/// The part of `c` that a split at `at` units peels off: `at` units carrying
/// the sign of `c`'s quantity, with the prorated share of `c`'s basis.
pub open spec fn split_part(c: ChangeData, at: int) -> ChangeData {
    ChangeData {
        date: c.date,
        itype: c.itype,
        quantity: if c.quantity < 0 { -at } else { at },
        basis: prorate(c.basis, at, abs_i(c.quantity)),
    }
}

/// The remainder a split at `at` units leaves behind: whatever quantity and
/// basis the part did not take, so that part and remainder always sum to the
/// original exactly.
pub open spec fn split_rest(c: ChangeData, at: int) -> ChangeData {
    ChangeData {
        date: c.date,
        itype: c.itype,
        quantity: c.quantity - split_part(c, at).quantity,
        basis: c.basis - split_part(c, at).basis,
    }
}

/// Where the prorated share of a basis lands: it keeps the sign of the
/// basis, stays strictly inside it, and together with what is left makes
/// the whole magnitude.
pub proof fn lemma_prorate_bounds(b: int, at: int, q: int)
    requires
        q > 0,
        0 < at < q,
    ensures
        b > 0 ==> 0 <= prorate(b, at, q) < b,
        b < 0 ==> b < prorate(b, at, q) <= 0,
        b == 0 ==> prorate(b, at, q) == 0,
        abs_i(prorate(b, at, q)) <= abs_i(b),
        abs_i(prorate(b, at, q)) + abs_i(b - prorate(b, at, q)) == abs_i(b),
{
    let ba = abs_i(b);
    if b == 0 {
        assert((0int * at) / q == 0) by (nonlinear_arith)
            requires
                q > 0,
        ;
    } else {
        assert(0 <= (ba * at) / q < ba) by (nonlinear_arith)
            requires
                ba > 0,
                0 < at < q,
        ;
    }
}

/// The capability a record needs to participate in matching: a date, a
/// category, and signed quantity and basis amounts.
///
/// `chg` is the record's mathematical content and `inv_wf` its
/// well-formedness; every implementation must keep the content of a
/// well-formed record within machine range, which `lemma_chg_bounds`
/// obliges it to prove.
pub trait Inventory: Sized {
    /// The mathematical content of this record.
    spec fn chg(&self) -> ChangeData;

    /// Whether this record is well formed.
    spec fn inv_wf(&self) -> bool;

    /// A well-formed record's quantity and basis fit in `i64`.
    proof fn lemma_chg_bounds(&self)
        requires
            self.inv_wf(),
        ensures
            i64::MIN as int <= self.chg().quantity <= i64::MAX as int,
            i64::MIN as int <= self.chg().basis <= i64::MAX as int,
    ;

    /// The signed total cost (negative) or proceeds (positive) of the change.
    fn basis(&self) -> (r: i64)
        requires
            self.inv_wf(),
        ensures
            r as int == self.chg().basis,
    ;

    /// The signed count of units the change adds or removes.
    fn quantity(&self) -> (r: i64)
        requires
            self.inv_wf(),
        ensures
            r as int == self.chg().quantity,
    ;

    /// The date of the change.
    fn date(&self) -> (r: Date)
        requires
            self.inv_wf(),
        ensures
            r == self.chg().date,
    ;

    /// The semantic category of the change.
    fn itype(&self) -> (r: InventoryType)
        requires
            self.inv_wf(),
        ensures
            r == self.chg().itype,
    ;

    /// The direction the change drives a position in, derived from the sign
    /// of its quantity; this is not the same as the category.
    fn direction_type(&self) -> (r: InventoryType)
        requires
            self.inv_wf(),
        ensures
            r == dir_of(self.chg().quantity),
    ;
}

/// The capability of dividing one record into two of the same type whose
/// quantities and basis amounts sum exactly to the original's.
pub trait VolumeSplit: Inventory {
    /// Splits this record at `at` units (a positive magnitude).  The first
    /// record returned holds `at` units with the prorated share of the
    /// basis; the second holds the rest.  Splitting fails on a record with
    /// zero quantity, whose basis cannot be prorated, and at a split point
    /// that does not fall strictly inside the record.
    fn split(&self, at: i64) -> (r: Result<(Self, Self), InventoryError>)
        requires
            self.inv_wf(),
        ensures
            r is Ok <==> self.chg().quantity != 0 && 0 < at < abs_i(self.chg().quantity),
            self.chg().quantity == 0 ==> (r matches Err(e) && e == InventoryError::DivisionByZero),
            self.chg().quantity != 0 && !(0 < at < abs_i(self.chg().quantity)) ==> (r matches Err(
                e,
            ) && e == InventoryError::InvalidArgument),
            r matches Ok((p, q)) ==> {
                &&& p.inv_wf()
                &&& q.inv_wf()
                &&& p.chg() == split_part(self.chg(), at as int)
                &&& q.chg() == split_rest(self.chg(), at as int)
                &&& p.chg().quantity + q.chg().quantity == self.chg().quantity
                &&& p.chg().basis + q.chg().basis == self.chg().basis
            },
    ;
}

} // verus!
