use predictomatic::config::{AppConfig, MarketConfig, MarketKind, ServerConfig};
use predictomatic::ledger::{system_owner_string, Ledger};
use predictomatic::model::{
    create_deposit, create_market, ensure_points_account, get_market_by_slug, Amount, AssetId, MarketId, OutcomeId,
};
use predictomatic::routes::{
    activity_cursor, amount_from_form, handle_deposit, parse_form_amount, parse_trade_order, resolution_payable,
    resolve_request, route_get, route_post, Action, Context, Error, Page,
};
use predictomatic::server::{request_email, request_path, response_commits, User};

const ALICE: &str = "alice@example.com";
const ADMIN: &str = "admin@example.com";

fn app_config() -> AppConfig {
    AppConfig {
        admin_email: ADMIN.to_string(),
        email_suffix: "@example.com".to_string(),
        opening_balance_micros: 100_000_000,
    }
}

fn server_config() -> ServerConfig {
    ServerConfig {
        listen: "127.0.0.1:5591".to_string(),
        prefix: "/predict".to_string(),
        unsafe_user_email: None,
    }
}

fn ledger_with_market() -> Ledger {
    let mut tx = Ledger::new();
    let config = MarketConfig {
        slug: "eth".to_string(),
        title: "Will ETH be above $4000?".to_string(),
        description: "Resolves on 2026-01-01.".to_string(),
        kind: MarketKind::Binary,
        outcomes: vec!["Yes".to_string(), "No".to_string()],
        fund_micros: 50_000_000,
        opens_at: None,
        closes_at: None,
    };
    create_market(&mut tx, &config).unwrap();
    tx
}

fn context(tx: &mut Ledger, email: &str) -> Context {
    Context::new(&app_config(), &server_config(), email, tx).unwrap()
}

fn reason<T: std::fmt::Debug>(r: Result<T, Error>) -> (u16, String) {
    match r {
        Err(Error::Response(status, reason)) => (status, reason),
        other => panic!("expected an error page, got {:?}", other),
    }
}

#[test]
fn context_knows_the_user() {
    let mut tx = Ledger::new();
    let ctx = context(&mut tx, ALICE);
    assert_eq!(ctx.user_email, ALICE);
    assert!(!ctx.is_admin);
    assert_eq!(ctx.user_points.0, 100_000_000);
    assert_eq!(ctx.view_email(ALICE), "alice");
    assert_eq!(ctx.view_email("carol@elsewhere.org"), "carol@elsewhere.org");
    assert_eq!(ctx.root_url(), "/predict");
    assert_eq!(reason(ctx.ensure_admin()), (403, "This page is only accessible to admins.".to_string()));

    let admin = context(&mut tx, ADMIN);
    assert!(admin.is_admin);
    assert!(admin.ensure_admin().is_ok());
}

#[test]
fn root_url_without_prefix_is_slash() {
    let mut tx = Ledger::new();
    let server = ServerConfig { listen: "0.0.0.0:80".to_string(), prefix: String::new(), unsafe_user_email: None };
    let ctx = Context::new(&app_config(), &server, ALICE, &mut tx).unwrap();
    assert_eq!(ctx.root_url(), "/");
}

#[test]
fn market_url_joins_prefix_slug_and_suffix() {
    let mut tx = ledger_with_market();
    let ctx = context(&mut tx, ALICE);
    let market = get_market_by_slug(&tx, "eth").unwrap().unwrap();
    assert_eq!(ctx.market_url(&market, ""), "/predict/market/eth");
    assert_eq!(ctx.market_url(&market, "/trade"), "/predict/market/eth/trade");
}

#[test]
fn form_amount_is_decoded_and_dollar_is_optional() {
    let mut tx = Ledger::new();
    let ctx = context(&mut tx, ALICE);
    // `%24` is a percent-encoded dollar sign.
    assert_eq!(parse_form_amount(&ctx, "amount=%241.5").unwrap(), Amount(1_500_000, AssetId(0)));
    assert_eq!(parse_form_amount(&ctx, "amount=2").unwrap(), Amount(2_000_000, AssetId(0)));
    assert_eq!(parse_form_amount(&ctx, "amount=1&amount=3.25").unwrap(), Amount(3_250_000, AssetId(0)));
    // A `+` decodes to a space, which is not part of an amount.
    assert_eq!(reason(parse_form_amount(&ctx, "amount=+1")), (400, "Failed to parse amount.".to_string()));
    assert_eq!(reason(parse_form_amount(&ctx, "amount=1&x=2")), (400, "Unexpected form data.".to_string()));
    assert_eq!(
        reason(parse_form_amount(&ctx, "amount=0")),
        (400, "Amount must be greater than 0, but got 0.000000.".to_string())
    );
    assert_eq!(
        reason(parse_form_amount(&ctx, "amount=-1.5")),
        (400, "Amount must be greater than 0, but got -1.500000.".to_string())
    );
    assert_eq!(
        reason(parse_form_amount(&ctx, "")),
        (400, "Amount must be greater than 0, but got 0.000000.".to_string())
    );
    assert_eq!(
        reason(parse_form_amount(&ctx, "amount=99999999999999")),
        (400, "Amount is out of range.".to_string())
    );
}

#[test]
fn amount_from_decoded_pairs() {
    let mut tx = Ledger::new();
    let ctx = context(&mut tx, ALICE);
    let pairs = vec![("amount".to_string(), "$$7".to_string())];
    assert_eq!(amount_from_form(&ctx, &pairs).unwrap(), Amount(7_000_000, AssetId(0)));
}

#[test]
fn deposit_handler_moves_points_and_redirects() {
    let mut tx = ledger_with_market();
    let ctx = context(&mut tx, ALICE);
    let location = handle_deposit(&mut tx, &ctx, "eth", "amount=%2410").unwrap();
    assert_eq!(location, "/predict/market/eth");
    assert_eq!(tx.balance_of_key(0, 0, ALICE), 90_000_000);
    assert_eq!(tx.balance_of_key(1, 2, ALICE), 10_000_000);

    assert_eq!(reason(handle_deposit(&mut tx, &ctx, "btc", "amount=1")), (404, "No such market exists.".to_string()));
    assert_eq!(reason(handle_deposit(&mut tx, &ctx, "eth", "amount=x")), (400, "Failed to parse amount.".to_string()));
    match handle_deposit(&mut tx, &ctx, "eth", "amount=1000") {
        Err(Error::Database(_)) => {}
        other => panic!("expected the ledger to refuse, got {:?}", other),
    }
}

#[test]
fn trade_form_gives_the_order() {
    let mut tx = ledger_with_market();
    let ctx = context(&mut tx, ALICE);
    let market = get_market_by_slug(&tx, "eth").unwrap().unwrap();
    let (amount_in, min_out) =
        parse_trade_order(&ctx, &market, "amount_in=2.5&min_out=1&asset_in=2&asset_out=1").unwrap();
    assert_eq!((amount_in.0, amount_in.1), (2_500_000, AssetId(2)));
    assert_eq!((min_out.0, min_out.1), (1_000_000, AssetId(1)));

    assert_eq!(
        reason(parse_trade_order(&ctx, &market, "amount_in=1&min_out=1&asset_in=x&asset_out=1")),
        (400, "Invalid asset id for asset_in.".to_string())
    );
    assert_eq!(
        reason(parse_trade_order(&ctx, &market, "amount_in=1&min_out=1&asset_in=2&asset_out=y")),
        (400, "Invalid asset id for asset_out.".to_string())
    );
    assert_eq!(
        reason(parse_trade_order(&ctx, &market, "amount_in=1&min_out=1&asset_out=1")),
        (400, "Missing amount_in, asset id, or invalid asset id.".to_string())
    );
    assert_eq!(
        reason(parse_trade_order(&ctx, &market, "amount_in=1.1234567&min_out=1&asset_in=2&asset_out=1")),
        (400, "Invalid amount_in amount or in asset id absent.".to_string())
    );
    assert_eq!(
        reason(parse_trade_order(&ctx, &market, "amount_in=1&min_out=z&asset_in=2&asset_out=1")),
        (400, "Invalid min_out amount or in asset id absent.".to_string())
    );
    assert_eq!(
        reason(parse_trade_order(&ctx, &market, "amount_in=1&asset_in=2&asset_out=1")),
        (400, "Missing min_out amount, asset id, or invalid asset id.".to_string())
    );
    assert_eq!(
        reason(parse_trade_order(&ctx, &market, "amount_in=0&min_out=1&asset_in=2&asset_out=1")),
        (400, "Amount amount_in and min_out must be greater than zero, but got 0.000000 and 1.000000.".to_string())
    );
    assert_eq!(
        reason(parse_trade_order(&ctx, &market, "amount_in=1&min_out=1&asset_in=2&asset_out=1&color=red")),
        (400, "Unexpected form data.".to_string())
    );
}

#[test]
fn trade_amount_is_limited_to_what_can_be_spent() {
    let mut tx = ledger_with_market();
    let ctx = context(&mut tx, ALICE);
    let market = get_market_by_slug(&tx, "eth").unwrap().unwrap();
    create_deposit(&mut tx, &market, Amount(3_000_000, AssetId::POINTS()), ALICE).unwrap();
    let market = get_market_by_slug(&tx, "eth").unwrap().unwrap();
    // The 3 shares held, and the 100 liquid points the page was shown.
    let (amount_in, _) =
        parse_trade_order(&ctx, &market, "amount_in=103.000001&min_out=1&asset_in=2&asset_out=1").unwrap();
    assert_eq!(amount_in.0, 103_000_000);
    let (amount_in, _) =
        parse_trade_order(&ctx, &market, "amount_in=50&min_out=1&asset_in=2&asset_out=1").unwrap();
    assert_eq!(amount_in.0, 50_000_000);
    let (amount_in, _) =
        parse_trade_order(&ctx, &market, "amount_in=2&min_out=1&asset_in=2&asset_out=1").unwrap();
    assert_eq!(amount_in.0, 2_000_000);
}

#[test]
fn resolve_request_checks_admin_and_outcome() {
    let mut tx = ledger_with_market();
    let alice = context(&mut tx, ALICE);
    let admin = context(&mut tx, ADMIN);
    assert_eq!(reason(resolve_request(&tx, &admin, "btc", "1")), (404, "No such market exists.".to_string()));
    assert_eq!(
        reason(resolve_request(&tx, &alice, "eth", "1")),
        (403, "Only admins are allowed to resolve markets.".to_string())
    );
    assert_eq!(reason(resolve_request(&tx, &admin, "eth", "one")), (400, "Invalid outcome id.".to_string()));
    assert_eq!(
        reason(resolve_request(&tx, &admin, "eth", "3")),
        (400, "That outcome does not exist in this market.".to_string())
    );
    let (market, outcome) = resolve_request(&tx, &admin, "eth", "2").unwrap();
    assert_eq!(outcome.0, 2);
    assert_eq!(outcome.1, MarketId(1));
    assert_eq!(market.slug, "eth");
}

#[test]
fn resolution_needs_positive_transfers() {
    let mut tx = ledger_with_market();
    let app = app_config();
    ensure_points_account(&mut tx, &app, ALICE).unwrap();
    let market = get_market_by_slug(&tx, "eth").unwrap().unwrap();
    assert!(resolution_payable(&market, OutcomeId(1, MarketId(1))));
    assert!(!resolution_payable(&market, OutcomeId(5, MarketId(1))));
    assert!(!resolution_payable(&market, OutcomeId(1, MarketId(2))));
    create_deposit(&mut tx, &market, Amount(1_000_000, AssetId::POINTS()), ALICE).unwrap();
    let market = get_market_by_slug(&tx, "eth").unwrap().unwrap();
    assert!(resolution_payable(&market, OutcomeId(2, MarketId(1))));
}

#[test]
fn activity_cursor_reads_an_event_id() {
    let mut tx = Ledger::new();
    let ctx = context(&mut tx, ALICE);
    assert_eq!(activity_cursor(&ctx, None).unwrap(), None);
    assert_eq!(activity_cursor(&ctx, Some("42")).unwrap(), Some(42));
    assert_eq!(
        reason(activity_cursor(&ctx, Some("4x2"))),
        (400, "Invalid event id for activity overview.".to_string())
    );
}

fn path(segments: &[&str]) -> Vec<String> {
    segments.iter().map(|s| s.to_string()).collect()
}

#[test]
fn get_paths_name_pages() {
    assert!(matches!(route_get(&path(&[""])), Page::Index));
    assert!(matches!(route_get(&path(&[])), Page::Index));
    assert!(matches!(route_get(&path(&["assets"])), Page::Assets));
    assert!(matches!(route_get(&path(&["activity"])), Page::Activity(None)));
    match route_get(&path(&["activity", "17"])) {
        Page::Activity(Some(id)) => assert_eq!(id, "17"),
        other => panic!("unexpected {:?}", other),
    }
    assert!(matches!(route_get(&path(&["bonus"])), Page::Bonus));
    assert!(matches!(route_get(&path(&["help"])), Page::Help));
    assert!(matches!(route_get(&path(&["icon.svg"])), Page::Icon));
    assert!(matches!(route_get(&path(&["leaderboard"])), Page::Leaderboard));
    assert!(matches!(route_get(&path(&["ledger"])), Page::Ledger));
    match route_get(&path(&["market", "eth"])) {
        Page::Market(slug) => assert_eq!(slug, "eth"),
        other => panic!("unexpected {:?}", other),
    }
    assert!(matches!(route_get(&path(&["market"])), Page::NotFound));
    assert!(matches!(route_get(&path(&["market", "eth", "x"])), Page::NotFound));
}

#[test]
fn post_paths_name_actions() {
    match route_post(&path(&["market", "eth", "trade"])) {
        Action::Trade(slug) => assert_eq!(slug, "eth"),
        other => panic!("unexpected {:?}", other),
    }
    match route_post(&path(&["market", "eth", "resolve", "2"])) {
        Action::Resolve(slug, outcome) => {
            assert_eq!(slug, "eth");
            assert_eq!(outcome, "2");
        }
        other => panic!("unexpected {:?}", other),
    }
    assert!(matches!(route_post(&path(&["bonus", "create"])), Action::BonusCreate));
    assert!(matches!(route_post(&path(&["market", "eth", "deposit"])), Action::NotFound));
}

#[test]
fn request_path_strips_prefix_and_splits() {
    assert_eq!(request_path("/predict/market/eth", "/predict").unwrap(), path(&["market", "eth"]));
    assert_eq!(request_path("/predict", "/predict").unwrap(), path(&[""]));
    assert_eq!(request_path("/predict//help", "/predict").unwrap(), path(&["help"]));
    assert_eq!(request_path("/predict/market/eth/", "/predict").unwrap(), path(&["market", "eth", ""]));
    assert_eq!(request_path("/other", "/predict"), None);
    assert_eq!(request_path("/", "").unwrap(), path(&[""]));
}

#[test]
fn request_email_prefers_the_last_header() {
    let headers = vec!["a@example.com".to_string(), "b@example.com".to_string()];
    assert_eq!(request_email(&headers, &None), Some("b@example.com".to_string()));
    assert_eq!(request_email(&vec![], &Some("dev@example.com".to_string())), Some("dev@example.com".to_string()));
    assert_eq!(request_email(&vec![], &None), None);
}

#[test]
fn users_and_commits() {
    let app = app_config();
    let admin = User::new(&app, ADMIN.to_string());
    assert!(admin.is_admin);
    let alice = User::new(&app, ALICE.to_string());
    assert!(!alice.is_admin);
    assert_eq!(alice.email, ALICE);
    assert_eq!(system_owner_string(), "SYSTEM");
    assert!(response_commits(200));
    assert!(response_commits(303));
    assert!(!response_commits(400));
    assert!(!response_commits(503));
}
