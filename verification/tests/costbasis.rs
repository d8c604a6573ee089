use costbasis::date::Date;
use costbasis::holding::{Holding, RemovalPolicy};
use costbasis::inventory::InventoryType;
use costbasis::realized::Realized;
use costbasis::transaction::Transaction;
use costbasis::unrealized::URealized;

fn d(year: i32, month: u32, day: u32) -> Date {
    Date::new(year, month, day)
}

fn ur(year: i32, month: u32, day: u32, quantity: i64, basis: i64) -> URealized {
    URealized::new(d(year, month, day), quantity, basis)
}

fn tx(year: i32, month: u32, day: u32, itype: InventoryType, quantity: i64, price: i64) -> Transaction {
    Transaction::new(d(year, month, day), itype, quantity, price)
}

fn rz(
    cy: i32,
    cm: u32,
    cd: u32,
    quantity: i64,
    c_basis: i64,
    oy: i32,
    om: u32,
    od: u32,
    o_basis: i64,
) -> Realized {
    Realized::new(d(cy, cm, cd), quantity, c_basis, d(oy, om, od), o_basis)
}

#[test]
fn buy_only_initiate_unrealized() {
    let transaction = tx(2020, 1, 1, InventoryType::Long, 100, 25);
    let results_ur = [ur(2020, 1, 1, 100, -2500)];
    let mut holding = Holding::default();
    let gains_r = holding.add_transaction(&transaction).unwrap();
    assert_eq!(gains_r, vec![]);
    assert_eq!(holding.inventory(), results_ur);

    let holding = Holding::new(&transaction);
    assert_eq!(holding.inventory(), results_ur);
}

#[test]
fn multiple_buy_unrealized() {
    let transactions = [
        tx(2020, 1, 1, InventoryType::Long, 100, 25),
        tx(2020, 2, 1, InventoryType::Long, 100, 35),
        tx(2020, 3, 1, InventoryType::Long, 100, 30),
    ];
    let results_ur = [
        ur(2020, 1, 1, 100, -2500),
        ur(2020, 2, 1, 100, -3500),
        ur(2020, 3, 1, 100, -3000),
    ];
    let mut holding = Holding::default();
    let gains_r = holding.extend_transactions(&transactions).unwrap();
    assert_eq!(gains_r, vec![]);
    assert_eq!(holding.inventory(), results_ur);

    // one by one
    let mut holding = Holding::new(&transactions[0]);
    let gains2_r = holding.extend_transactions(&transactions[1..]).unwrap();
    assert_eq!(gains2_r, vec![]);
    assert_eq!(holding.inventory(), results_ur);
}

#[test]
fn buy_sell_only_realized() {
    let transactions = [
        tx(2020, 1, 1, InventoryType::Long, 100, 25),
        tx(2020, 2, 1, InventoryType::Short, 100, 35),
    ];
    let results_r = [rz(2020, 2, 1, -100, 3500, 2020, 1, 1, -2500)];
    let mut holding = Holding::new(&transactions[0]);
    let gains_r = holding.add_transaction(&transactions[1]).unwrap();
    assert_eq!(gains_r, results_r);
    assert_eq!(holding.inventory(), vec![]);
}

#[test]
fn buy_sell_realized_and_unrealized_left() {
    let transactions = [
        tx(2020, 1, 1, InventoryType::Long, 200, 25),
        tx(2020, 2, 1, InventoryType::Short, 100, 35),
    ];
    let results_ur = vec![ur(2020, 1, 1, 100, -2500)];
    let results_r = [rz(2020, 2, 1, -100, 3500, 2020, 1, 1, -2500)];
    let mut holding = Holding::new(&transactions[0]);
    let gains_r = holding.add_transaction(&transactions[1]).unwrap();
    assert_eq!(gains_r, results_r);
    assert_eq!(holding.inventory(), results_ur);
}

#[test]
fn buy_sell_realized_and_unrealized() {
    let transactions = [
        tx(2020, 1, 1, InventoryType::Long, 100, 25),
        tx(2020, 2, 1, InventoryType::Short, 200, 35),
    ];
    let results_ur = vec![ur(2020, 2, 1, -100, 3500)];
    let results_r = [rz(2020, 2, 1, -100, 3500, 2020, 1, 1, -2500)];
    let mut holding = Holding::new(&transactions[0]);
    let gains_r = holding.add_transaction(&transactions[1]).unwrap();
    assert_eq!(gains_r, results_r);
    assert_eq!(holding.inventory(), results_ur);
    assert_eq!(holding.direction(), Some(InventoryType::Short));
}

#[test]
fn buy_sell_realized_and_unrealized_starting_with_multiple_unrealized() {
    let starting_ur = [
        ur(2020, 1, 1, 100, -2500),
        ur(2020, 2, 1, 100, -2500),
        ur(2020, 3, 1, 100, -2500),
    ];
    let mut holding = Holding::from_lots(&starting_ur);

    let transaction = tx(2020, 4, 1, InventoryType::Short, 250, 35);
    let results_ur = [ur(2020, 3, 1, 50, -1250)];
    let results_r = [
        rz(2020, 4, 1, -100, 3500, 2020, 1, 1, -2500),
        rz(2020, 4, 1, -100, 3500, 2020, 2, 1, -2500),
        rz(2020, 4, 1, -50, 1750, 2020, 3, 1, -1250),
    ];

    let gains_r = holding.add_transaction(&transaction).unwrap();
    assert_eq!(gains_r, results_r);
    assert_eq!(holding.inventory(), results_ur);
}

#[test]
fn open_close_more_than_once_zero_balance_twice() {
    let starting_ur = [ur(2020, 1, 1, 100, -2500), ur(2020, 2, 1, 100, -2500)];
    let mut holding = Holding::from_lots(&starting_ur);
    let transactions = [
        tx(2020, 4, 1, InventoryType::Short, 200, 35),
        tx(2020, 5, 1, InventoryType::Long, 100, 25),
        tx(2020, 6, 1, InventoryType::Short, 100, 35),
    ];
    let results_r = [
        rz(2020, 4, 1, -100, 3500, 2020, 1, 1, -2500),
        rz(2020, 4, 1, -100, 3500, 2020, 2, 1, -2500),
        rz(2020, 6, 1, -100, 3500, 2020, 5, 1, -2500),
    ];

    let gains_r = holding.extend_transactions(&transactions).unwrap();
    assert_eq!(gains_r, results_r);
    assert!(holding.inventory().is_empty());
    assert_eq!(holding.direction(), None);
}

#[test]
fn transactions_that_include_add_transfers() {
    let mut holding = Holding::default();
    let transactions = [
        tx(2020, 4, 1, InventoryType::Add, 100, 25),
        tx(2020, 5, 1, InventoryType::Long, 100, 25),
        tx(2020, 6, 1, InventoryType::Add, 100, 25),
        tx(2020, 7, 1, InventoryType::Short, 300, 35),
    ];
    let results_r = [
        rz(2020, 7, 1, -100, 3500, 2020, 4, 1, -2500),
        rz(2020, 7, 1, -100, 3500, 2020, 5, 1, -2500),
        rz(2020, 7, 1, -100, 3500, 2020, 6, 1, -2500),
    ];
    let gains_r = holding.extend_transactions(&transactions).unwrap();
    assert_eq!(gains_r, results_r);
    assert!(holding.inventory().is_empty());
    assert_eq!(holding.direction(), None);
}

#[test]
fn transactions_that_include_remove_transfers_with_zero_gain() {
    let mut holding = Holding::default();
    let transactions = [
        tx(2020, 4, 1, InventoryType::Add, 100, 25),
        tx(2020, 5, 1, InventoryType::Long, 100, 25),
        tx(2020, 6, 1, InventoryType::Remove, 50, 0),
        tx(2020, 7, 1, InventoryType::Short, 150, 35),
    ];
    let results_r = [
        rz(2020, 7, 1, -50, 1750, 2020, 4, 1, -1250),
        rz(2020, 7, 1, -100, 3500, 2020, 5, 1, -2500),
    ];
    let gains_r = holding.extend_transactions(&transactions).unwrap();
    assert_eq!(gains_r, results_r);
    assert!(holding.inventory().is_empty());
    assert_eq!(holding.direction(), None);
}

#[test]
fn remove_inventory_with_zerogain_show_output() {
    let mut holding = Holding::default();
    holding.add_config(RemovalPolicy::AtCost);
    let transactions = [
        tx(2020, 3, 1, InventoryType::Long, 100, 20),
        tx(2020, 4, 1, InventoryType::Add, 100, 25),
        tx(2020, 5, 1, InventoryType::Long, 100, 30),
        tx(2020, 6, 1, InventoryType::Remove, 50, 35),
        tx(2020, 7, 1, InventoryType::Remove, 100, 35),
        tx(2020, 8, 1, InventoryType::Remove, 50, 35),
    ];
    let results_ur = [ur(2020, 5, 1, 100, -3000)];

    let gains_r = holding.extend_transactions(&transactions[0..=2]).unwrap();
    assert!(gains_r.is_empty());

    // partial send
    let gains_r = holding.add_transaction(&transactions[3]).unwrap();
    assert_eq!(gains_r, vec![rz(2020, 6, 1, -50, 1000, 2020, 3, 1, -1000)]);

    // larger send
    let gains_r = holding.add_transaction(&transactions[4]).unwrap();
    assert_eq!(
        gains_r,
        vec![
            rz(2020, 7, 1, -50, 1000, 2020, 3, 1, -1000),
            rz(2020, 7, 1, -50, 1250, 2020, 4, 1, -1250),
        ]
    );

    // equal send
    let gains_r = holding.add_transaction(&transactions[5]).unwrap();
    assert_eq!(gains_r, vec![rz(2020, 8, 1, -50, 1250, 2020, 4, 1, -1250)]);

    assert_eq!(holding.inventory(), results_ur);
}

#[test]
fn remove_inventory_with_gain_at_market() {
    let mut holding = Holding::default();
    holding.add_config(RemovalPolicy::AtMarket);
    let transactions = [
        tx(2020, 3, 1, InventoryType::Long, 100, 20),
        tx(2020, 4, 1, InventoryType::Add, 100, 25),
        tx(2020, 5, 1, InventoryType::Long, 100, 30),
        tx(2020, 6, 1, InventoryType::Remove, 50, 35),
        tx(2020, 7, 1, InventoryType::Remove, 100, 35),
        tx(2020, 8, 1, InventoryType::Remove, 50, 35),
    ];
    let results_ur = [ur(2020, 5, 1, 100, -3000)];

    let gains_r = holding.extend_transactions(&transactions[0..=2]).unwrap();
    assert!(gains_r.is_empty());

    // partial send
    let gains_r = holding.add_transaction(&transactions[3]).unwrap();
    assert_eq!(gains_r, vec![rz(2020, 6, 1, -50, 1750, 2020, 3, 1, -1000)]);

    // larger send
    let gains_r = holding.add_transaction(&transactions[4]).unwrap();
    assert_eq!(
        gains_r,
        vec![
            rz(2020, 7, 1, -50, 1750, 2020, 3, 1, -1000),
            rz(2020, 7, 1, -50, 1750, 2020, 4, 1, -1250),
        ]
    );

    // equal send
    let gains_r = holding.add_transaction(&transactions[5]).unwrap();
    assert_eq!(gains_r, vec![rz(2020, 8, 1, -50, 1750, 2020, 4, 1, -1250)]);

    assert_eq!(holding.inventory(), results_ur);
}

#[test]
fn remove_inventory_with_gain_at_zero_value() {
    let mut holding = Holding::default();
    holding.add_config(RemovalPolicy::AtZero);
    let transactions = [
        tx(2020, 3, 1, InventoryType::Long, 100, 20),
        tx(2020, 4, 1, InventoryType::Add, 100, 25),
        tx(2020, 5, 1, InventoryType::Long, 100, 30),
        tx(2020, 6, 1, InventoryType::Remove, 50, 35),
        tx(2020, 7, 1, InventoryType::Remove, 100, 35),
        tx(2020, 8, 1, InventoryType::Remove, 50, 35),
    ];
    let results_ur = [ur(2020, 5, 1, 100, -3000)];

    let gains_r = holding.extend_transactions(&transactions[0..=2]).unwrap();
    assert!(gains_r.is_empty());

    // partial send
    let gains_r = holding.add_transaction(&transactions[3]).unwrap();
    assert_eq!(gains_r, vec![rz(2020, 6, 1, -50, 0, 2020, 3, 1, -1000)]);

    // larger send
    let gains_r = holding.add_transaction(&transactions[4]).unwrap();
    assert_eq!(
        gains_r,
        vec![
            rz(2020, 7, 1, -50, 0, 2020, 3, 1, -1000),
            rz(2020, 7, 1, -50, 0, 2020, 4, 1, -1250),
        ]
    );

    // equal send
    let gains_r = holding.add_transaction(&transactions[5]).unwrap();
    assert_eq!(gains_r, vec![rz(2020, 8, 1, -50, 0, 2020, 4, 1, -1250)]);

    assert_eq!(holding.inventory(), results_ur);
}
