use vstd::prelude::*;

use crate::date::Date;
use crate::inventory::{
    abs_i, prorate, split_part, split_rest, ChangeData, Inventory, InventoryType, VolumeSplit,
};
use crate::InventoryError;

verus! {

/// The sign a category gives to its quantity: additions to inventory count
/// positive, removals negative.
pub open spec fn quant_mult(t: InventoryType) -> int {
    match t {
        InventoryType::Long | InventoryType::Add => 1,
        InventoryType::Short | InventoryType::Remove => -1,
    }
}

/// A ready-made inventory-change record: a date, a category, an unsigned
/// quantity and an unsigned per-unit price.
///
/// The signed quantity handed to matching is `quantity` with the sign of the
/// category, and the signed basis is `-(quantity * price)` with that sign:
/// a purchase costs money (negative basis) and a sale brings proceeds
/// (positive basis).  Callers may feed a holding any type of their own that
/// implements [`Inventory`] and [`VolumeSplit`] instead.
#[derive(Clone, Copy, Debug, PartialEq, Eq, Structural)]
pub struct Transaction {
    pub date: Date,
    pub itype: InventoryType,
    pub quantity: i64,
    pub price: i64,
}

impl Transaction {
    /// Builds a transaction record.  The quantity is a positive magnitude,
    /// the price a non-negative per-unit amount, and their product, the
    /// total value, must fit in the basis field.
    pub fn new(date: Date, itype: InventoryType, quantity: i64, price: i64) -> (r: Transaction)
        requires
            quantity > 0,
            price >= 0,
            quantity * price <= i64::MAX as int,
        ensures
            r == (Transaction { date, itype, quantity, price }),
            r.inv_wf(),
    {
        Transaction { date, itype, quantity, price }
    }

    /// The sign this transaction's category gives to its quantity.
    pub fn quant_multiplier(&self) -> (r: i64)
        ensures
            r as int == quant_mult(self.itype),
    {
        match self.itype {
            InventoryType::Long | InventoryType::Add => 1,
            InventoryType::Short | InventoryType::Remove => -1,
        }
    }
}

impl Inventory for Transaction {
    open spec fn chg(&self) -> ChangeData {
        ChangeData {
            date: self.date,
            itype: self.itype,
            quantity: self.quantity * quant_mult(self.itype),
            basis: -(self.quantity * self.price) * quant_mult(self.itype),
        }
    }

    open spec fn inv_wf(&self) -> bool {
        &&& self.quantity > 0
        &&& self.price >= 0
        &&& self.quantity * self.price <= i64::MAX as int
    }

    proof fn lemma_chg_bounds(&self) {
        lemma_value_nonneg(self.quantity as int, self.price as int);
    }

    fn basis(&self) -> i64 {
        proof {
            lemma_value_nonneg(self.quantity as int, self.price as int);
        }
        let value: i64 = self.quantity * self.price;
        match self.itype {
            InventoryType::Long | InventoryType::Add => -value,
            InventoryType::Short | InventoryType::Remove => value,
        }
    }

    fn quantity(&self) -> i64 {
        match self.itype {
            InventoryType::Long | InventoryType::Add => self.quantity,
            InventoryType::Short | InventoryType::Remove => -self.quantity,
        }
    }

    fn date(&self) -> Date {
        self.date
    }

    fn itype(&self) -> InventoryType {
        self.itype
    }

    fn direction_type(&self) -> InventoryType {
        if self.quantity() > 0 {
            InventoryType::Long
        } else {
            InventoryType::Short
        }
    }
}

impl VolumeSplit for Transaction {
    fn split(&self, at: i64) -> Result<(Self, Self), InventoryError> {
        proof {
            lemma_value_nonneg(self.quantity as int, self.price as int);
        }
        if !(0 < at && at < self.quantity) {
            return Err(InventoryError::InvalidArgument);
        }
        let part = Transaction {
            date: self.date,
            itype: self.itype,
            quantity: at,
            price: self.price,
        };
        let rest = Transaction {
            date: self.date,
            itype: self.itype,
            quantity: self.quantity - at,
            price: self.price,
        };
        proof {
            lemma_transaction_split_parts(*self, part, rest, at as int);
        }
        Ok((part, rest))
    }
}

/// The product of a positive quantity and a non-negative price is
/// non-negative, and at least the price.
proof fn lemma_value_nonneg(q: int, p: int)
    requires
        q > 0,
        p >= 0,
    ensures
        q * p >= 0,
        q * p >= p,
{
    assert(q * p >= 0 && q * p >= p) by (nonlinear_arith)
        requires
            q > 0 && p >= 0,
    ;
}

/// Multiplying by a sign keeps or flips a value.
proof fn lemma_mul_sign_unit(x: int, m: int)
    requires
        m == 1 || m == -1,
    ensures
        m == 1 ==> x * m == x,
        m == -1 ==> x * m == -x,
{
    assert((m == 1 ==> x * m == x) && (m == -1 ==> x * m == -x)) by (nonlinear_arith)
        requires
            m == 1 || m == -1,
    ;
}

/// Splitting a transaction by copying its price prorates its basis exactly
/// as the mathematical split does: the sub-quantity times the price is the
/// truncated prorated share of the whole value.
proof fn lemma_transaction_split_parts(t: Transaction, part: Transaction, rest: Transaction, at: int)
    requires
        t.inv_wf(),
        0 < at < t.quantity,
        part == (Transaction { quantity: at as i64, ..t }),
        rest == (Transaction { quantity: (t.quantity - at) as i64, ..t }),
    ensures
        part.inv_wf(),
        rest.inv_wf(),
        part.chg() == split_part(t.chg(), at),
        rest.chg() == split_rest(t.chg(), at),
        part.chg().quantity + rest.chg().quantity == t.chg().quantity,
        part.chg().basis + rest.chg().basis == t.chg().basis,
{
    let q = t.quantity as int;
    let p = t.price as int;
    let m = quant_mult(t.itype);
    lemma_value_nonneg(q, p);
    lemma_value_nonneg(at, p);
    lemma_value_nonneg(q - at, p);
    lemma_mul_sign_unit(q, m);
    lemma_mul_sign_unit(at, m);
    lemma_mul_sign_unit(q - at, m);
    lemma_mul_sign_unit(-(q * p), m);
    lemma_mul_sign_unit(-(at * p), m);
    lemma_mul_sign_unit(-((q - at) * p), m);
    assert(at * p <= q * p && (q - at) * p <= q * p) by (nonlinear_arith)
        requires
            0 < at < q && p >= 0,
    ;
    // The prorated share of the whole value is exact: ((q * p) * at) / q == at * p.
    vstd::arithmetic::mul::lemma_mul_is_commutative(q, p);
    vstd::arithmetic::mul::lemma_mul_is_associative(q, p, at);
    vstd::arithmetic::mul::lemma_mul_is_commutative(p, at);
    vstd::arithmetic::div_mod::lemma_div_multiples_vanish(p * at, q);
    assert(((q * p) * at) / q == at * p);
    assert(q * p == 0 ==> p == 0) by (nonlinear_arith)
        requires
            q > 0,
    ;
    assert((q - at) * p == q * p - at * p) by (nonlinear_arith);
    match t.itype {
        InventoryType::Long | InventoryType::Add => {
            assert(t.chg().quantity == q);
            assert(t.chg().basis == -(q * p));
            assert(abs_i(t.chg().basis) == q * p);
            if q * p > 0 {
                assert(prorate(t.chg().basis, at, q) == -((q * p) * at / q));
            } else {
                assert(p == 0);
                assert(prorate(t.chg().basis, at, q) == ((0int * at) / q));
                assert((0int * at) / q == 0) by (nonlinear_arith)
                    requires
                        q > 0,
                ;
            }
            assert(part.chg() == split_part(t.chg(), at));
            assert(rest.chg() == split_rest(t.chg(), at));
        },
        InventoryType::Short | InventoryType::Remove => {
            assert(t.chg().quantity == -q);
            assert(t.chg().basis == q * p);
            assert(abs_i(t.chg().quantity) == q);
            if q * p > 0 {
                assert(prorate(t.chg().basis, at, q) == (q * p) * at / q);
            } else {
                assert(p == 0);
                assert(prorate(t.chg().basis, at, q) == ((0int * at) / q));
                assert((0int * at) / q == 0) by (nonlinear_arith)
                    requires
                        q > 0,
                ;
            }
            assert(part.chg() == split_part(t.chg(), at));
            assert(rest.chg() == split_rest(t.chg(), at));
        },
    }
}

} // verus!
