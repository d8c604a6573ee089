use costbasis::date::Date;
use costbasis::inventory::{Inventory, InventoryType, VolumeSplit};
use costbasis::realized::{
    group_by_index, realized_to_compact, total_realized, Realized, RealizedCompact,
};
use costbasis::transaction::Transaction;
use costbasis::unrealized::URealized;
use costbasis::InventoryError;

fn d(year: i32, month: u32, day: u32) -> Date {
    Date::new(year, month, day)
}

fn ur(year: i32, month: u32, day: u32, quantity: i64, basis: i64) -> URealized {
    URealized::new(d(year, month, day), quantity, basis)
}

fn tx(year: i32, month: u32, day: u32, itype: InventoryType, quantity: i64, price: i64) -> Transaction {
    Transaction::new(d(year, month, day), itype, quantity, price)
}

fn rz(
    cy: i32,
    cm: u32,
    cd: u32,
    quantity: i64,
    c_basis: i64,
    oy: i32,
    om: u32,
    od: u32,
    o_basis: i64,
) -> Realized {
    Realized::new(d(cy, cm, cd), quantity, c_basis, d(oy, om, od), o_basis)
}

fn set_realized() -> [Realized; 5] {
    [
        rz(2020, 4, 1, -100, 3500, 2020, 1, 1, -2500),
        rz(2020, 4, 1, -100, 3500, 2020, 2, 1, -2500),
        rz(2020, 6, 1, -100, 3500, 2020, 5, 1, -2500),
        rz(2020, 7, 1, -100, 3500, 2020, 5, 1, -2500),
        rz(2020, 7, 1, -100, 3500, 2020, 5, 15, -2500),
    ]
}

#[test]
fn given_array_of_realized_group_by_close_date() {
    let result = [
        RealizedCompact::new(d(2020, 4, 1), 200, 7000, String::new(), -5000),
        RealizedCompact::new(d(2020, 6, 1), 100, 3500, String::new(), -2500),
        RealizedCompact::new(d(2020, 7, 1), 200, 7000, String::new(), -5000),
    ];
    assert_eq!(realized_to_compact(&set_realized()), result);
}

#[test]
fn given_array_of_realized_calculate_total_gain() {
    assert_eq!(total_realized(&set_realized()), 5000);
}

#[test]
fn group_by_index_pairs_first_occurrences() {
    let dates = [d(2020, 4, 1), d(2020, 4, 1), d(2020, 6, 1), d(2020, 7, 1), d(2020, 7, 1)];
    assert_eq!(group_by_index(&dates), vec![(0, 2), (2, 3), (3, 5)]);
    let empty: [Date; 0] = [];
    assert_eq!(group_by_index(&empty), vec![]);
}

#[test]
fn group_by_index_non_contiguous_dates_stay_with_first_run() {
    // A date repeated non-contiguously is not re-merged: the run starting
    // at its first occurrence swallows whatever lies in between.
    let dates = [d(2020, 1, 1), d(2020, 2, 1), d(2020, 1, 1)];
    assert_eq!(group_by_index(&dates), vec![(0, 1), (1, 3)]);
}

#[test]
fn test_split_for_transaction_long() {
    let trans = tx(2020, 1, 1, InventoryType::Long, 100, 25);
    let (trans1, trans2) = trans.split(25).unwrap();

    let result1 = tx(2020, 1, 1, InventoryType::Long, 25, 25);
    let result2 = tx(2020, 1, 1, InventoryType::Long, 75, 25);

    assert_eq!(trans1, result1);
    assert_eq!(trans2, result2);
}

#[test]
fn test_split_for_transaction_short() {
    let trans = tx(2020, 1, 1, InventoryType::Short, 100, 25);
    let (trans1, trans2) = trans.split(25).unwrap();

    let result1 = tx(2020, 1, 1, InventoryType::Short, 25, 25);
    let result2 = tx(2020, 1, 1, InventoryType::Short, 75, 25);

    assert_eq!(trans1, result1);
    assert_eq!(trans2, result2);
}

#[test]
fn test_transaction_long() {
    let trans = tx(2020, 1, 1, InventoryType::Long, 100, 25);
    assert_eq!(trans.quant_multiplier(), 1);
    assert!(trans.quantity() > 0);
    assert_eq!(trans.basis(), -2500);
    assert_eq!(trans.date(), d(2020, 1, 1));
    assert_eq!(trans.itype(), InventoryType::Long);
}

#[test]
fn test_transaction_short() {
    let trans = tx(2020, 2, 1, InventoryType::Short, 200, 10);
    assert_eq!(trans.quant_multiplier(), -1);
    assert!(trans.quantity() < 0);
    assert_eq!(trans.basis(), 2000);
    assert_eq!(trans.date(), d(2020, 2, 1));
    assert_eq!(trans.itype(), InventoryType::Short);
}

#[test]
fn split_gain_unrealized_into_two_long() {
    let start_ur = ur(2020, 1, 1, 200, -5000);
    let result_close = ur(2020, 1, 1, 50, -1250);
    let result_inv_remaining = ur(2020, 1, 1, 150, -3750);
    let (split1, split2) = start_ur.split(50).unwrap();
    assert_eq!(split1, result_close);
    assert_eq!(split2, result_inv_remaining);
}

#[test]
fn split_gain_unrealized_into_two_short() {
    let start_ur = ur(2020, 1, 1, -200, 5000);
    let result_close = ur(2020, 1, 1, -50, 1250);
    let result_inv_remaining = ur(2020, 1, 1, -150, 3750);
    let (split1, split2) = start_ur.split(50).unwrap();
    assert_eq!(split1, result_close);
    assert_eq!(split2, result_inv_remaining);
}

#[test]
fn split_conserves_quantity_and_basis_when_division_is_inexact() {
    // 100 * 1 / 3 truncates to 33; the remainder keeps the other 67 so
    // that part and remainder still sum exactly to the original.
    let lot = ur(2020, 1, 1, 3, -100);
    let (part, rest) = lot.split(1).unwrap();
    assert_eq!(part, ur(2020, 1, 1, 1, -33));
    assert_eq!(rest, ur(2020, 1, 1, 2, -67));
    assert_eq!(part.quantity + rest.quantity, lot.quantity);
    assert_eq!(part.basis + rest.basis, lot.basis);
}

#[test]
fn split_rejects_zero_quantity_record() {
    let lot = ur(2020, 1, 1, 0, -100);
    assert_eq!(lot.split(1), Err(InventoryError::DivisionByZero));
}

#[test]
fn split_rejects_out_of_range_point() {
    let lot = ur(2020, 1, 1, 100, -2500);
    assert_eq!(lot.split(0), Err(InventoryError::InvalidArgument));
    assert_eq!(lot.split(100), Err(InventoryError::InvalidArgument));
    assert_eq!(lot.split(150), Err(InventoryError::InvalidArgument));
    assert_eq!(lot.split(-5), Err(InventoryError::InvalidArgument));
}

#[test]
fn realized_getters_and_policies() {
    let mut r = rz(2020, 2, 1, -100, 3500, 2020, 1, 1, -2500);
    assert_eq!(r.close_date(), d(2020, 2, 1));
    assert_eq!(r.quantity(), -100);
    assert_eq!(r.close_basis(), 3500);
    assert_eq!(r.open_date(), d(2020, 1, 1));
    assert_eq!(r.open_basis(), -2500);
    assert_eq!(r.realized(), 1000);

    r.zero_profit();
    assert_eq!(r.close_basis(), 2500);
    assert_eq!(r.realized(), 0);

    r.zero_value();
    assert_eq!(r.close_basis(), 0);
    assert_eq!(r.realized(), -2500);
}

#[test]
fn match_close_pairs_change_and_lot() {
    let change = ur(2020, 2, 1, -100, 3500);
    let lot = ur(2020, 1, 1, 100, -2500);
    let r = Realized::match_close(&change, &lot);
    assert_eq!(r, rz(2020, 2, 1, -100, 3500, 2020, 1, 1, -2500));
    assert_eq!(r.realized(), 1000);
}

#[test]
fn urealized_direction_follows_quantity_sign() {
    assert_eq!(ur(2020, 1, 1, 100, -2500).direction_type(), InventoryType::Long);
    assert_eq!(ur(2020, 1, 1, 100, -2500).itype(), InventoryType::Long);
    assert_eq!(ur(2020, 1, 1, -100, 2500).direction_type(), InventoryType::Short);
    assert_eq!(ur(2020, 1, 1, -100, 2500).itype(), InventoryType::Short);
}
