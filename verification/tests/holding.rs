use costbasis::date::Date;
use costbasis::holding::Holding;
use costbasis::inventory::InventoryType;
use costbasis::unrealized::URealized;
use costbasis::InventoryError;

fn d(year: i32, month: u32, day: u32) -> Date {
    Date::new(year, month, day)
}

fn ur(year: i32, month: u32, day: u32, quantity: i64, basis: i64) -> URealized {
    URealized::new(d(year, month, day), quantity, basis)
}

#[test]
fn create_new_gains_from_unrealized_slice() {
    let results_ur = [
        ur(2020, 1, 1, 100, -2500),
        ur(2020, 2, 1, 100, -2500),
        ur(2020, 3, 1, 100, -2500),
    ];
    let holding = Holding::from_lots(&results_ur);
    assert_eq!(holding.inventory(), results_ur);
    assert_eq!(holding.direction(), Some(InventoryType::Long));
}

#[test]
fn modify_inventory_with_transfer_of_basis() {
    let starting_ur = [ur(2020, 1, 1, 100, -2500), ur(2020, 2, 1, 100, -2500)];
    let mut holding = Holding::from_lots(&starting_ur);
    let results_ur = [
        ur(2020, 1, 1, 100, -2500),
        ur(2020, 2, 1, 100, -2500),
        ur(2020, 2, 1, 100, -3000),
        ur(2020, 3, 1, 100, -2500),
    ];

    // add inventory
    holding.add_inventory(ur(2020, 2, 1, 100, -3000));
    holding.add_inventory(ur(2020, 3, 1, 100, -2500));

    assert_eq!(holding.inventory(), results_ur);
}

#[test]
fn position_summary() {
    let starting_ur = [
        ur(2020, 1, 1, 100, -2500),
        ur(2020, 2, 1, 200, -6000),
        ur(2020, 3, 1, 300, -9000),
    ];
    let holding = Holding::from_lots(&starting_ur);

    // quantity 600, price 29.1667 in ten-thousandths, basis -17500
    assert_eq!(holding.position(), (600, 291667, -17500));
}

#[test]
fn if_holding_is_empty_position_returns_zeros() {
    let holding = Holding::default();
    assert_eq!(holding.position(), (0, 0, 0));
}

#[test]
fn split_match_first_with_variety_of_changes() {
    let starting_ur = [
        ur(2020, 1, 1, 100, -2500),
        ur(2020, 2, 1, 200, -5000),
        ur(2020, 3, 1, 300, -7500),
    ];

    // tests equal inv_change
    let mut holding = Holding::from_lots(&starting_ur);
    let matches = holding.split_matching_first(ur(2020, 4, 1, -100, 3000));
    assert_eq!(matches.len(), 1);
    assert_eq!(matches[0], ur(2020, 4, 1, -100, 3000));
    assert_eq!(holding.inventory(), starting_ur);

    // tests smaller inv_change
    let mut holding = Holding::from_lots(&starting_ur);
    let matches = holding.split_matching_first(ur(2020, 4, 1, -50, 1500));
    assert_eq!(matches.len(), 1);
    assert_eq!(matches[0], ur(2020, 4, 1, -50, 1500));
    let inventory = holding.inventory();
    assert_eq!(inventory[0], ur(2020, 1, 1, 50, -1250));
    assert_eq!(inventory[1], ur(2020, 1, 1, 50, -1250));
    assert_eq!(inventory[2..3], starting_ur[1..2]);

    // tests larger inv_change
    let mut holding = Holding::from_lots(&starting_ur);
    let matches = holding.split_matching_first(ur(2020, 4, 1, -350, 10500));
    assert_eq!(matches.len(), 2);
    assert_eq!(matches[0], ur(2020, 4, 1, -100, 3000));
    assert_eq!(matches[1], ur(2020, 4, 1, -250, 7500));
    let inventory = holding.inventory();
    assert_eq!(inventory[0], ur(2020, 1, 1, 100, -2500));
    assert_eq!(inventory[1], ur(2020, 2, 1, 200, -5000));
    assert_eq!(inventory[2], ur(2020, 3, 1, 300, -7500));
}

#[test]
fn fifo_closes_oldest_two_of_three_lots() {
    // Three equal lots dated strictly increasing; a close worth two lots
    // must consume the first two dates and never the third.
    let starting_ur = [
        ur(2020, 1, 1, 100, -2500),
        ur(2020, 2, 1, 100, -2500),
        ur(2020, 3, 1, 100, -2500),
    ];
    let mut holding = Holding::from_lots(&starting_ur);
    let gains_r = holding.add_transaction(&ur(2020, 4, 1, -200, 7000)).unwrap();
    assert_eq!(gains_r.len(), 2);
    assert_eq!(gains_r[0].open_date(), d(2020, 1, 1));
    assert_eq!(gains_r[1].open_date(), d(2020, 2, 1));
    assert_eq!(holding.inventory(), [ur(2020, 3, 1, 100, -2500)]);
}

#[test]
fn same_direction_add_grows_inventory_by_one() {
    let mut holding = Holding::default();
    let mut expected_len = 0;
    for m in 1..=4u32 {
        let gains_r = holding.add_transaction(&ur(2020, m, 1, 100, -2500)).unwrap();
        expected_len += 1;
        assert!(gains_r.is_empty());
        assert_eq!(holding.inventory().len(), expected_len);
    }
}

#[test]
fn zero_quantity_change_is_rejected() {
    let mut holding = Holding::from_lots(&[ur(2020, 1, 1, 100, -2500)]);
    let res = holding.add_transaction(&ur(2020, 2, 1, 0, 0));
    assert_eq!(res, Err(InventoryError::InvalidArgument));
    assert_eq!(holding.inventory(), [ur(2020, 1, 1, 100, -2500)]);
    assert_eq!(holding.direction(), Some(InventoryType::Long));
}

#[test]
fn batch_with_zero_quantity_change_is_rejected_untouched() {
    let mut holding = Holding::default();
    let changes = [
        ur(2020, 1, 1, 100, -2500),
        ur(2020, 2, 1, 0, 0),
        ur(2020, 3, 1, 100, -2500),
    ];
    let res = holding.extend_transactions(&changes);
    assert_eq!(res, Err(InventoryError::InvalidArgument));
    assert!(holding.inventory().is_empty());
    assert_eq!(holding.direction(), None);
}

#[test]
fn average_price_rounds_half_away_from_zero() {
    // 100 / 3 = 33.33333...: rounded at the fourth decimal to 33.3333
    let holding = Holding::from_lots(&[ur(2020, 1, 1, 3, -100)]);
    assert_eq!(holding.position(), (3, 333333, -100));
    // 1 / 32 = 0.03125: the exactly half-way fourth decimal rounds away
    // from zero, to 0.0313
    let holding = Holding::from_lots(&[ur(2020, 1, 1, 32, -1)]);
    assert_eq!(holding.position(), (32, 313, -1));
    // 1 / 16000 = 0.0000625: rounds up to 0.0001
    let holding = Holding::from_lots(&[ur(2020, 1, 1, 16000, -1)]);
    assert_eq!(holding.position(), (16000, 1, -1));
}

#[test]
fn average_price_of_short_position_is_positive() {
    // A short position holds proceeds: basis positive, quantity negative,
    // average price still the positive price per unit.
    let holding = Holding::from_lots(&[ur(2020, 1, 1, -100, 3500)]);
    assert_eq!(holding.position(), (-100, 350000, 3500));
    assert_eq!(holding.direction(), Some(InventoryType::Short));
}

#[test]
fn oversized_close_flips_the_direction() {
    // Closing more than the holding carries flips the remainder into a new
    // position in the change's own direction.
    let mut holding = Holding::from_lots(&[ur(2020, 1, 1, 100, -2500)]);
    let gains_r = holding.add_transaction(&ur(2020, 2, 1, -250, 8750)).unwrap();
    assert_eq!(gains_r.len(), 1);
    assert_eq!(gains_r[0].quantity(), -100);
    assert_eq!(gains_r[0].realized(), 1000);
    assert_eq!(holding.inventory(), [ur(2020, 2, 1, -150, 5250)]);
    assert_eq!(holding.direction(), Some(InventoryType::Short));
}
