use predictomatic::ranking::descending_order;

#[test]
fn rows_come_by_descending_key() {
    let keys = vec![(1, 0, 0), (3, 0, 0), (2, 0, 0)];
    assert_eq!(descending_order(&keys), vec![1, 2, 0]);
}

#[test]
fn equal_keys_keep_their_order() {
    let keys = vec![(1, 0, 0), (3, 0, 0), (1, 0, 0), (2, 0, 0), (3, 0, 0)];
    assert_eq!(descending_order(&keys), vec![1, 4, 3, 0, 2]);
}

#[test]
fn the_second_component_breaks_ties() {
    // Profit first, then the value of the shares.
    let keys = vec![(-5, 10, 0), (0, 3, 0), (-5, 20, 0), (0, 7, 0)];
    assert_eq!(descending_order(&keys), vec![3, 1, 2, 0]);
}

#[test]
fn no_rows_give_no_order() {
    assert!(descending_order(&Vec::new()).is_empty());
}

#[test]
fn negative_net_worths_come_last() {
    // The system's points account goes negative by every sign-on bonus.
    let keys = vec![(-300_000_000, 0, 0), (120_000_000, 0, 0), (80_000_000, 0, 0)];
    assert_eq!(descending_order(&keys), vec![1, 2, 0]);
}

#[test]
fn trades_come_by_day_then_market_then_newest() {
    // (day, minus the market id, event id)
    let keys = vec![(20260102, -2, 7), (20260102, -1, 8), (20260103, -2, 9), (20260102, -1, 10)];
    assert_eq!(descending_order(&keys), vec![2, 3, 1, 0]);
}
