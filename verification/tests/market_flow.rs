use predictomatic::config::{AppConfig, Date, Datetime, MarketConfig, MarketKind, Offset, Time};
use predictomatic::ledger::{Ledger, LedgerError};
use predictomatic::model::{
    create_deposit, create_market, create_resolution, create_trade, ensure_account, ensure_markets,
    ensure_points_account, get_account_balance, get_market_by_slug, get_markets, place_trade, settle_trade,
    AccountConstraint, Amount, AssetId, MarketId, OutcomeId,
};

const ALICE: &str = "alice@example.com";
const BOB: &str = "bob@example.com";

fn app_config() -> AppConfig {
    AppConfig {
        admin_email: "admin@example.com".to_string(),
        email_suffix: "@example.com".to_string(),
        opening_balance_micros: 100_000_000,
    }
}

fn eth_market() -> MarketConfig {
    MarketConfig {
        slug: "eth".to_string(),
        title: "Will ETH be above $4000?".to_string(),
        description: "Resolves on 2026-01-01.".to_string(),
        kind: MarketKind::Binary,
        outcomes: vec!["Yes".to_string(), "No".to_string()],
        fund_micros: 50_000_000,
        opens_at: None,
        closes_at: None,
    }
}

fn points_sum(tx: &Ledger) -> i64 {
    let mut sum = 0;
    for (row, balance) in tx.accounts.iter().zip(tx.balances.iter()) {
        if row.asset_id == 0 {
            sum += balance;
        }
    }
    sum
}

#[test]
fn new_ledger_holds_only_the_system_account() {
    let tx = Ledger::new();
    assert_eq!(tx.accounts.len(), 1);
    assert_eq!(tx.accounts[0].owner, "SYSTEM");
    assert_eq!(tx.balances, vec![0]);
    assert!(get_markets(&tx).is_empty());
}

#[test]
fn new_user_gets_the_opening_balance_once() {
    let mut tx = Ledger::new();
    let app = app_config();
    let account = ensure_points_account(&mut tx, &app, ALICE).unwrap();
    assert_eq!(get_account_balance(&tx, account).unwrap().0, 100_000_000);
    assert_eq!(tx.balance_of_key(0, 0, "SYSTEM"), -100_000_000);
    assert_eq!(tx.events.len(), 1);
    assert_eq!(tx.events[0].description, "Sign-on bonus");

    // A second call finds the account and changes nothing.
    let again = ensure_points_account(&mut tx, &app, ALICE).unwrap();
    assert_eq!(again.0, account.0);
    assert_eq!(tx.events.len(), 1);
    assert_eq!(get_account_balance(&tx, again).unwrap().0, 100_000_000);
    assert_eq!(points_sum(&tx), 0);
}

#[test]
fn ensure_account_keeps_existing_bounds() {
    let mut tx = Ledger::new();
    let a = ensure_account(&mut tx, MarketId(0), AssetId(0), BOB, AccountConstraint::Negative).unwrap();
    let b = ensure_account(&mut tx, MarketId(0), AssetId(0), BOB, AccountConstraint::Positive).unwrap();
    assert_eq!(a.0, b.0);
    assert_eq!(tx.accounts[a.0 as usize].max_balance, Some(0));
    assert_eq!(tx.accounts[a.0 as usize].min_balance, None);
    assert_eq!(AccountConstraint::Positive.min_max_balance(), (Some(0), None));
    assert_eq!(AccountConstraint::Any.min_max_balance(), (None, None));
    assert_eq!(AccountConstraint::Negative.min_max_balance(), (None, Some(0)));
}

#[test]
fn creating_a_market_funds_its_pool() {
    let mut tx = Ledger::new();
    let id = create_market(&mut tx, &eth_market()).unwrap();
    assert_eq!(id, MarketId(1));
    let market = get_market_by_slug(&tx, "eth").unwrap().unwrap();
    assert_eq!(market.outcomes.len(), 2);
    assert_eq!(market.outcomes[0].value, "Yes");
    assert_eq!(market.outcomes[1].id.0, 2);
    assert!(market.is_open());
    // The system minted a full basket for every point it deposited.
    let pool = market.pool_position().unwrap();
    assert_eq!(market.balances[pool].0, "SYSTEM");
    assert_eq!(market.balances[pool].1.points.0, 50_000_000);
    assert_eq!(market.balances[pool].1.outcomes[0].0, 50_000_000);
    assert_eq!(market.balances[pool].1.outcomes[1].0, 50_000_000);
    assert_eq!(market.total_deposited().0, 50_000_000);
    assert_eq!(market.total_deposited_excluding_system().0, 0);
    assert_eq!(points_sum(&tx), 0);
    assert!(get_market_by_slug(&tx, "btc").unwrap().is_none());
}

#[test]
fn ensure_markets_skips_existing_slugs() {
    let mut tx = Ledger::new();
    let markets = vec![eth_market(), eth_market()];
    ensure_markets(&mut tx, &markets).unwrap();
    assert_eq!(tx.markets.len(), 1);
    ensure_markets(&mut tx, &markets).unwrap();
    assert_eq!(tx.markets.len(), 1);
    assert_eq!(get_markets(&tx).len(), 1);
}

#[test]
fn deposit_mints_a_share_of_every_outcome_per_point() {
    let mut tx = Ledger::new();
    let app = app_config();
    create_market(&mut tx, &eth_market()).unwrap();
    ensure_points_account(&mut tx, &app, ALICE).unwrap();
    let market = get_market_by_slug(&tx, "eth").unwrap().unwrap();
    create_deposit(&mut tx, &market, Amount(10_000_000, AssetId::POINTS()), ALICE).unwrap();

    assert_eq!(tx.balance_of_key(0, 0, ALICE), 90_000_000);
    assert_eq!(tx.balance_of_key(1, 0, ALICE), 10_000_000);
    assert_eq!(tx.balance_of_key(1, 1, ALICE), 10_000_000);
    assert_eq!(tx.balance_of_key(1, 2, ALICE), 10_000_000);
    assert_eq!(points_sum(&tx), 0);

    let market = get_market_by_slug(&tx, "eth").unwrap().unwrap();
    assert_eq!(market.total_deposited().0, 60_000_000);
    assert_eq!(market.total_deposited_excluding_system().0, 10_000_000);
}

#[test]
fn deposit_beyond_the_liquid_balance_is_refused() {
    let mut tx = Ledger::new();
    let app = app_config();
    create_market(&mut tx, &eth_market()).unwrap();
    ensure_points_account(&mut tx, &app, ALICE).unwrap();
    let market = get_market_by_slug(&tx, "eth").unwrap().unwrap();
    let r = create_deposit(&mut tx, &market, Amount(100_000_001, AssetId::POINTS()), ALICE);
    assert_eq!(r, Err(LedgerError::BalanceOutOfBounds));
}

#[test]
fn trade_swaps_shares_with_the_pool() {
    let mut tx = Ledger::new();
    let app = app_config();
    create_market(&mut tx, &eth_market()).unwrap();
    ensure_points_account(&mut tx, &app, ALICE).unwrap();
    let market = get_market_by_slug(&tx, "eth").unwrap().unwrap();
    create_deposit(&mut tx, &market, Amount(10_000_000, AssetId::POINTS()), ALICE).unwrap();

    // Sell 5 No for 4 Yes.
    create_trade(&mut tx, &market, Amount(5_000_000, AssetId(2)), Amount(4_000_000, AssetId(1)), ALICE).unwrap();
    // Trading changes no global points account.
    assert_eq!(tx.balance_of_key(0, 0, ALICE), 90_000_000);
    assert_eq!(tx.balance_of_key(1, 0, ALICE), 10_000_000);
    assert_eq!(tx.balance_of_key(1, 1, ALICE), 14_000_000);
    assert_eq!(tx.balance_of_key(1, 2, ALICE), 5_000_000);
    assert_eq!(tx.balance_of_key(1, 1, "SYSTEM"), 46_000_000);
    assert_eq!(tx.balance_of_key(1, 2, "SYSTEM"), 55_000_000);
    assert_eq!(tx.events.last().unwrap().description, "Trade");

    // Selling more than one holds is refused.
    let r = create_trade(&mut tx, &market, Amount(6_000_000, AssetId(2)), Amount(1, AssetId(1)), ALICE);
    assert_eq!(r, Err(LedgerError::BalanceOutOfBounds));
}

#[test]
fn pool_quotes_and_settles_trades() {
    let mut tx = Ledger::new();
    create_market(&mut tx, &eth_market()).unwrap();
    let market = get_market_by_slug(&tx, "eth").unwrap().unwrap();
    let (q_i, q_j) = market
        .trade_pool_balances(Amount(5_000_000, AssetId(2)), Amount(1_000_000, AssetId(1)))
        .unwrap();
    assert_eq!(q_i, Amount(55_000_000, AssetId(2)));
    assert_eq!(q_j.0, 50_000_000);
    assert!(market.trade_pool_balances(Amount(1, AssetId(7)), Amount(1, AssetId(1))).is_none());

    assert_eq!(settle_trade(q_j, 45_000_000, Amount(4_000_000, AssetId(1))), Some(Amount(5_000_000, AssetId(1))));
    // Slippage beyond the tolerance, or a pool that cannot pay, fails the order.
    assert_eq!(settle_trade(q_j, 47_000_000, Amount(4_000_000, AssetId(1))), None);
    assert_eq!(settle_trade(q_j, -1, Amount(1, AssetId(1))), None);
}

#[test]
fn resolution_pays_the_winning_shares_and_closes_the_market() {
    let mut tx = Ledger::new();
    let app = app_config();
    create_market(&mut tx, &eth_market()).unwrap();
    ensure_points_account(&mut tx, &app, ALICE).unwrap();
    ensure_points_account(&mut tx, &app, BOB).unwrap();
    let market = get_market_by_slug(&tx, "eth").unwrap().unwrap();
    create_deposit(&mut tx, &market, Amount(10_000_000, AssetId::POINTS()), ALICE).unwrap();
    create_deposit(&mut tx, &market, Amount(20_000_000, AssetId::POINTS()), BOB).unwrap();
    create_trade(&mut tx, &market, Amount(5_000_000, AssetId(2)), Amount(4_000_000, AssetId(1)), ALICE).unwrap();

    let market = get_market_by_slug(&tx, "eth").unwrap().unwrap();
    create_resolution(&mut tx, &market, OutcomeId(1, MarketId(1))).unwrap();

    // Alice holds 14 Yes, Bob 20 Yes, the pool 46 Yes: one share per point deposited.
    assert_eq!(tx.balance_of_key(0, 0, ALICE), 90_000_000 + 14_000_000);
    assert_eq!(tx.balance_of_key(0, 0, BOB), 80_000_000 + 20_000_000);
    // The deposits pay the winning shares, so the market's points account
    // ends empty.
    assert_eq!(tx.balance_of_key(1, 0, "SYSTEM"), 0);
    assert_eq!(points_sum(&tx), 0);

    let market = get_market_by_slug(&tx, "eth").unwrap().unwrap();
    assert!(!market.is_open());
    assert_eq!(market.profits.len(), 3);
    let alice = market.profits.iter().find(|p| p.owner == ALICE).unwrap();
    assert_eq!(alice.amount_in.0, 10_000_000);
    assert_eq!(alice.amount_out.0, 14_000_000);
}

#[test]
fn a_neutral_position_pays_the_same_either_way() {
    let mut tx = Ledger::new();
    let app = app_config();
    create_market(&mut tx, &eth_market()).unwrap();
    ensure_points_account(&mut tx, &app, ALICE).unwrap();
    let market = get_market_by_slug(&tx, "eth").unwrap().unwrap();
    create_deposit(&mut tx, &market, Amount(10_000_000, AssetId::POINTS()), ALICE).unwrap();
    let market = get_market_by_slug(&tx, "eth").unwrap().unwrap();

    let mut yes = tx.clone();
    create_resolution(&mut yes, &market, OutcomeId(1, MarketId(1))).unwrap();
    let mut no = tx.clone();
    create_resolution(&mut no, &market, OutcomeId(2, MarketId(1))).unwrap();

    // Ten shares of every outcome are worth ten points whatever happens.
    assert_eq!(yes.balance_of_key(0, 0, ALICE), 100_000_000);
    assert_eq!(no.balance_of_key(0, 0, ALICE), 100_000_000);
    assert_eq!(points_sum(&yes), 0);
    assert_eq!(points_sum(&no), 0);
}

#[test]
fn every_asset_sums_to_zero() {
    let mut tx = Ledger::new();
    let app = app_config();
    create_market(&mut tx, &eth_market()).unwrap();
    ensure_points_account(&mut tx, &app, ALICE).unwrap();
    let market = get_market_by_slug(&tx, "eth").unwrap().unwrap();
    create_deposit(&mut tx, &market, Amount(10_000_000, AssetId::POINTS()), ALICE).unwrap();
    create_trade(&mut tx, &market, Amount(5_000_000, AssetId(2)), Amount(4_000_000, AssetId(1)), ALICE).unwrap();
    for asset in 0..3 {
        let mut sum = 0;
        for (row, balance) in tx.accounts.iter().zip(tx.balances.iter()) {
            if row.asset_id == asset {
                sum += balance;
            }
        }
        assert_eq!(sum, 0, "asset {asset}");
    }
}

#[test]
fn opening_balances_that_overflow_are_refused() {
    let mut tx = Ledger::new();
    let app = AppConfig {
        admin_email: "admin@example.com".to_string(),
        email_suffix: "@example.com".to_string(),
        opening_balance_micros: i64::MAX,
    };
    ensure_points_account(&mut tx, &app, ALICE).unwrap();
    assert_eq!(tx.balance_of_key(0, 0, "SYSTEM"), -i64::MAX);
    match ensure_points_account(&mut tx, &app, BOB) {
        Err(LedgerError::Overflow) => {}
        other => panic!("expected an overflow, got {:?}", other),
    }
}

/// The row counts and balances of a ledger.
fn shape(tx: &Ledger) -> (usize, usize, usize, usize, usize, usize, Vec<i64>) {
    (
        tx.markets.len(),
        tx.outcomes.len(),
        tx.accounts.len(),
        tx.events.len(),
        tx.transfers.len(),
        tx.profits.len(),
        tx.balances.clone(),
    )
}

#[test]
fn a_refused_deposit_stops_at_the_refused_transfer() {
    let mut tx = Ledger::new();
    let app = app_config();
    create_market(&mut tx, &eth_market()).unwrap();
    ensure_points_account(&mut tx, &app, ALICE).unwrap();
    let market = get_market_by_slug(&tx, "eth").unwrap().unwrap();
    let (markets, outcomes, accounts, events, transfers, profits, balances) = shape(&tx);
    let r = create_deposit(&mut tx, &market, Amount(100_000_001, AssetId::POINTS()), ALICE);
    assert_eq!(r, Err(LedgerError::BalanceOutOfBounds));
    // The event and the market's points account are there; no points moved.
    assert_eq!(tx.events.len(), events + 1);
    assert_eq!(tx.accounts.len(), accounts + 1);
    assert_eq!(tx.transfers.len(), transfers);
    assert_eq!(&tx.balances[..balances.len()], &balances[..]);
    assert_eq!((tx.markets.len(), tx.outcomes.len(), tx.profits.len()), (markets, outcomes, profits));
}

#[test]
fn a_trade_refused_on_the_owners_side_moves_nothing() {
    let mut tx = Ledger::new();
    let app = app_config();
    create_market(&mut tx, &eth_market()).unwrap();
    ensure_points_account(&mut tx, &app, ALICE).unwrap();
    let market = get_market_by_slug(&tx, "eth").unwrap().unwrap();
    create_deposit(&mut tx, &market, Amount(10_000_000, AssetId::POINTS()), ALICE).unwrap();
    let (_, _, _, events, transfers, _, balances) = shape(&tx);
    let r = create_trade(&mut tx, &market, Amount(11_000_000, AssetId(2)), Amount(1, AssetId(1)), ALICE);
    assert_eq!(r, Err(LedgerError::BalanceOutOfBounds));
    assert_eq!(tx.events.len(), events + 1);
    assert_eq!(tx.events.last().unwrap().description, "Trade");
    assert_eq!(tx.transfers.len(), transfers);
    assert_eq!(tx.balances, balances);
}

#[test]
fn a_trade_refused_on_the_pools_side_keeps_the_owners_side() {
    let mut tx = Ledger::new();
    let app = app_config();
    create_market(&mut tx, &eth_market()).unwrap();
    ensure_points_account(&mut tx, &app, ALICE).unwrap();
    let market = get_market_by_slug(&tx, "eth").unwrap().unwrap();
    create_deposit(&mut tx, &market, Amount(10_000_000, AssetId::POINTS()), ALICE).unwrap();
    let transfers = tx.transfers.len();
    // The pool holds 50 Yes: it cannot pay out 100.
    let r = create_trade(&mut tx, &market, Amount(1_000_000, AssetId(2)), Amount(100_000_000, AssetId(1)), ALICE);
    assert_eq!(r, Err(LedgerError::BalanceOutOfBounds));
    assert_eq!(tx.transfers.len(), transfers + 1);
    assert_eq!(tx.balance_of_key(1, 2, ALICE), 9_000_000);
    assert_eq!(tx.balance_of_key(1, 2, "SYSTEM"), 51_000_000);
    assert_eq!(tx.balance_of_key(1, 1, ALICE), 10_000_000);
}

#[test]
fn a_refused_sign_on_stops_before_the_transfer() {
    let mut tx = Ledger::new();
    let app = AppConfig {
        admin_email: "admin@example.com".to_string(),
        email_suffix: "@example.com".to_string(),
        opening_balance_micros: i64::MAX,
    };
    ensure_points_account(&mut tx, &app, ALICE).unwrap();
    let (_, _, _, _, transfers, _, _) = shape(&tx);
    match ensure_points_account(&mut tx, &app, BOB) {
        Err(LedgerError::Overflow) => {}
        other => panic!("expected an overflow, got {:?}", other),
    }
    assert_eq!(tx.transfers.len(), transfers);
    assert_eq!(tx.balance_of_key(0, 0, BOB), 0);
    assert_eq!(tx.balance_of_key(0, 0, "SYSTEM"), -i64::MAX);
}

#[test]
fn markets_before_the_one_the_system_cannot_fund_stay() {
    let mut tx = Ledger::new();
    let mut first = eth_market();
    first.fund_micros = i64::MAX;
    let mut second = eth_market();
    second.slug = "btc".to_string();
    second.fund_micros = 2;
    assert_eq!(ensure_markets(&mut tx, &[first.clone(), second]), Err(LedgerError::Overflow));
    assert!(get_market_by_slug(&tx, "eth").unwrap().is_some());
    assert!(get_market_by_slug(&tx, "btc").unwrap().is_some());
    assert_eq!(tx.balances[0], -i64::MAX);
}

fn at(year: u16, month: u8, day: u8, hour: u8) -> Datetime {
    Datetime {
        date: Some(Date { year, month, day }),
        time: Some(Time { hour, minute: 0, second: Some(0), nanosecond: None }),
        offset: Some(Offset::Z),
    }
}

#[test]
fn a_trade_deposits_what_the_owner_lacks() {
    let mut tx = Ledger::new();
    let app = app_config();
    create_market(&mut tx, &eth_market()).unwrap();
    ensure_points_account(&mut tx, &app, ALICE).unwrap();
    let market = get_market_by_slug(&tx, "eth").unwrap().unwrap();
    let now = at(2026, 1, 1, 12);
    // Alice never took part: selling 5 No first deposits 5 points.
    place_trade(&mut tx, &market, Amount(5_000_000, AssetId(2)), Amount(4_000_000, AssetId(1)), ALICE, &now).unwrap();
    assert_eq!(tx.balance_of_key(0, 0, ALICE), 95_000_000);
    assert_eq!(tx.balance_of_key(1, 0, ALICE), 5_000_000);
    assert_eq!(tx.balance_of_key(1, 1, ALICE), 9_000_000);
    assert_eq!(tx.balance_of_key(1, 2, ALICE), 0);
    let n = tx.events.len();
    assert_eq!(tx.events[n - 2].description, "Deposit");
    assert_eq!(tx.events[n - 1].description, "Trade");
    // Holding enough, she trades without a deposit.
    let market = get_market_by_slug(&tx, "eth").unwrap().unwrap();
    place_trade(&mut tx, &market, Amount(2_000_000, AssetId(1)), Amount(1_000_000, AssetId(2)), ALICE, &now).unwrap();
    assert_eq!(tx.balance_of_key(0, 0, ALICE), 95_000_000);
    assert_eq!(tx.events.len(), n + 1);
    // More than she has, in shares and points together, is refused: the
    // deposit it needs is refused, and no points leave her account.
    let r = place_trade(&mut tx, &market, Amount(200_000_000, AssetId(2)), Amount(1, AssetId(1)), ALICE, &now);
    assert_eq!(r, Err(LedgerError::BalanceOutOfBounds));
    assert_eq!(tx.balance_of_key(0, 0, ALICE), 95_000_000);
}

#[test]
fn markets_take_trades_only_while_open() {
    let mut tx = Ledger::new();
    let app = app_config();
    let mut config = eth_market();
    config.opens_at = Some(at(2026, 1, 1, 0));
    config.closes_at = Some(at(2026, 2, 1, 0));
    create_market(&mut tx, &config).unwrap();
    ensure_points_account(&mut tx, &app, ALICE).unwrap();
    let market = get_market_by_slug(&tx, "eth").unwrap().unwrap();
    assert_eq!(market.closes_at.unwrap().date.unwrap().month, 2);
    let before = shape(&tx);
    let order_in = Amount(1_000_000, AssetId(2));
    let order_out = Amount(500_000, AssetId(1));
    for now in [at(2025, 12, 31, 23), at(2026, 2, 1, 0), at(2027, 1, 1, 0)] {
        assert_eq!(place_trade(&mut tx, &market, order_in, order_out, ALICE, &now), Err(LedgerError::Closed));
        assert_eq!(shape(&tx), before);
    }
    assert_eq!(place_trade(&mut tx, &market, order_in, order_out, ALICE, &at(2026, 1, 1, 0)), Ok(()));
}

#[test]
fn owners_without_winning_shares_are_paid_nothing() {
    let mut tx = Ledger::new();
    let app = app_config();
    create_market(&mut tx, &eth_market()).unwrap();
    ensure_points_account(&mut tx, &app, ALICE).unwrap();
    let market = get_market_by_slug(&tx, "eth").unwrap().unwrap();
    let now = at(2026, 1, 1, 12);
    // Alice sells all her No shares: she holds no shares of No.
    place_trade(&mut tx, &market, Amount(5_000_000, AssetId(2)), Amount(4_000_000, AssetId(1)), ALICE, &now).unwrap();
    let market = get_market_by_slug(&tx, "eth").unwrap().unwrap();
    create_resolution(&mut tx, &market, OutcomeId(2, MarketId(1))).unwrap();
    assert_eq!(tx.balance_of_key(0, 0, ALICE), 95_000_000);
    let market = get_market_by_slug(&tx, "eth").unwrap().unwrap();
    let alice = market.profits.iter().find(|p| p.owner == ALICE).unwrap();
    assert_eq!(alice.amount_out.0, 0);
    assert_eq!(points_sum(&tx), 0);
}

#[test]
fn consistency_can_be_checked() {
    let mut tx = Ledger::new();
    assert!(tx.is_wf());
    create_market(&mut tx, &eth_market()).unwrap();
    ensure_points_account(&mut tx, &app_config(), ALICE).unwrap();
    assert!(tx.is_wf());
    let mut broken = tx.clone();
    broken.balances[0] += 1;
    assert!(!broken.is_wf());
    let mut twice = tx.clone();
    twice.markets.push(twice.markets[0].clone());
    assert!(!twice.is_wf());
    let mut same_key = tx.clone();
    same_key.accounts.push(same_key.accounts[1].clone());
    same_key.balances.push(0);
    assert!(!same_key.is_wf());
}

#[test]
fn amounts_compare_within_one_asset() {
    let a = Amount(5, AssetId(1));
    assert_eq!(a.compare(&Amount(7, AssetId(1))), std::cmp::Ordering::Less);
    assert_eq!(a.compare(&Amount(5, AssetId(1))), std::cmp::Ordering::Equal);
    assert_eq!(a.compare(&Amount(-1, AssetId(1))), std::cmp::Ordering::Greater);
    assert_ne!(a, Amount(5, AssetId(2)));
    assert_eq!(a, Amount(5, AssetId(1)));
}
