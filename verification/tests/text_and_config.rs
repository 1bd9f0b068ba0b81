use predictomatic::config::{
    as_iso8601, AppConfig, Config, DatabaseConfig, Date, Datetime, MarketConfig, MarketKind, Offset, ServerConfig, Time,
};
use predictomatic::endpoints::{validate_string, view_email};
use predictomatic::finance;
use predictomatic::help::{help_sections, lines_of, replace_all};
use predictomatic::ledger::Ledger;
use predictomatic::market;
use predictomatic::model::{Amount, AssetId, OutcomeId, MarketId};

fn config(suffix: &str) -> Config {
    Config {
        app: AppConfig {
            admin_email: "admin@example.com".to_string(),
            email_suffix: suffix.to_string(),
            opening_balance_micros: 1,
        },
        database: DatabaseConfig { path: "predictomatic.sqlite3".to_string() },
        server: ServerConfig { listen: "127.0.0.1:5591".to_string(), prefix: String::new(), unsafe_user_email: None },
        demo_servers: Vec::new(),
        markets: Vec::new(),
    }
}

fn datetime(second: Option<u8>, nanosecond: Option<u32>) -> Datetime {
    Datetime {
        date: Some(Date { year: 2026, month: 2, day: 19 }),
        time: Some(Time { hour: 14, minute: 12, second, nanosecond }),
        offset: Some(Offset::Z),
    }
}

#[test]
fn validate_string_accepts_names() {
    assert_eq!(validate_string("Name", 40, "Tomás"), Ok(()));
    assert_eq!(validate_string("Name", 40, "Mikołaj"), Ok(()));
    assert_eq!(validate_string("Name", 40, "Αθηνά — “quoted”"), Ok(()));
}

#[test]
fn validate_string_refusals() {
    assert_eq!(validate_string("Name", 40, ""), Err("Name must not be empty.".to_string()));
    assert_eq!(
        validate_string("Title", 5, "Tomás!"),
        Err("Title may not be longer than 5 bytes.".to_string())
    );
    // The limit counts bytes: "Tomás" is five characters but six bytes.
    assert_eq!(validate_string("Title", 6, "Tomás"), Ok(()));
    assert_eq!(
        validate_string("Title", 5, "Tomás"),
        Err("Title may not be longer than 5 bytes.".to_string())
    );
    assert_eq!(
        validate_string("Bio", 100, "line\nbreak"),
        Err("Bio may not contain control characters (including newlines).".to_string())
    );
    assert_eq!(
        validate_string("Bio", 100, "smile 😀"),
        Err("Bio contains an invalid character: ‘😀’ (U+1F600) is not allowed.".to_string())
    );
    assert_eq!(
        validate_string("Bio", 100, "ab\u{0780}"),
        Err("Bio contains an invalid character: ‘\u{0780}’ (U+0780) is not allowed.".to_string())
    );
    // The first offending character decides.
    assert_eq!(
        validate_string("Bio", 100, "\u{3000}\t"),
        Err("Bio contains an invalid character: ‘\u{3000}’ (U+3000) is not allowed.".to_string())
    );
}

#[test]
fn emails_are_shown_without_the_suffix() {
    assert_eq!(view_email(&config("@example.com"), "alice@example.com"), "alice");
    assert_eq!(view_email(&config("@example.com"), "bob@example.org"), "bob@example.org");
    assert_eq!(view_email(&config(""), "carol@example.com"), "carol@example.com");
    assert_eq!(view_email(&config("@example.com"), "@example.com"), "");
}

#[test]
fn datetimes_are_written_as_iso8601() {
    assert_eq!(as_iso8601(&datetime(Some(0), None)), "2026-02-19T14:12:00Z");
    assert_eq!(as_iso8601(&datetime(Some(5), Some(500_000_000))), "2026-02-19T14:12:05.5Z");
    assert_eq!(as_iso8601(&datetime(None, Some(123))), "2026-02-19T14:12:00.000000123Z");
    assert_eq!(as_iso8601(&datetime(None, None)), "2026-02-19T14:12Z");

    let mut market = MarketConfig {
        slug: "eth".to_string(),
        title: "ETH".to_string(),
        description: String::new(),
        kind: MarketKind::Date,
        outcomes: vec!["Yes".to_string(), "No".to_string()],
        fund_micros: 1,
        opens_at: Some(datetime(Some(0), None)),
        closes_at: None,
    };
    assert_eq!(market.opens_at_iso8601(), Some("2026-02-19T14:12:00Z".to_string()));
    assert_eq!(market.closes_at_iso8601(), None);
    market.closes_at = Some(datetime(Some(30), None));
    assert_eq!(market.closes_at_iso8601(), Some("2026-02-19T14:12:30Z".to_string()));
}

#[test]
fn market_kinds_have_names() {
    assert_eq!(MarketKind::Binary.to_string(), "binary");
    assert_eq!(MarketKind::Date.to_string(), "date");
}

#[test]
fn outcome_ids_are_asset_ids() {
    assert_eq!(AssetId::from(OutcomeId(7, MarketId(3))), AssetId(7));
    assert_eq!(finance::AssetId::from(market::OutcomeId(7, finance::MarketId(3))), finance::AssetId(7));
    assert_eq!(Amount(5, AssetId(1)).cast(AssetId(2)).1, AssetId(2));
    assert_eq!(AssetId(4).micros(9), Amount(9, AssetId(4)));
    assert_eq!(AssetId(4).zero().0, 0);
}

#[test]
fn displayed_amounts_read_back() {
    for micros in [0i64, 1, 999_999, 1_000_000, 123_456_789, -1_000_000, -123_000_789, -500_000, i64::MAX, i64::MIN] {
        let text = Amount(micros, AssetId::POINTS()).to_string();
        assert_eq!(AssetId::POINTS().parse_amount(&text).map(|a| a.0), Some(micros));
    }
    // Between -1 and 0 the text keeps its sign.
    let text = Amount(-79_965, AssetId::POINTS()).to_string();
    assert_eq!(text, "-0.079965");
    assert_eq!(AssetId::POINTS().parse_amount(&text).map(|a| a.0), Some(-79_965));
}

#[test]
fn amounts_round_to_whole_points_without_a_point() {
    assert_eq!(Amount(12_600_000, AssetId::POINTS()).fmt_precision(0), "13");
    assert_eq!(Amount(12_400_000, AssetId::POINTS()).fmt_precision(0), "12");
    assert_eq!(Amount(-12_600_000, AssetId::POINTS()).fmt_precision(0), "-13");
    assert_eq!(Amount(-400_000, AssetId::POINTS()).fmt_precision(0), "-0");
    assert_eq!(Amount(1_999_999, AssetId::POINTS()).fmt_precision(2), "2.00");
}

fn market_config(slug: &str) -> MarketConfig {
    MarketConfig {
        slug: slug.to_string(),
        title: "Will it rain?".to_string(),
        description: "Tomorrow, in Lisbon.".to_string(),
        kind: MarketKind::Binary,
        outcomes: vec!["Yes".to_string(), "No".to_string(), "Maybe".to_string()],
        fund_micros: 1,
        opens_at: None,
        closes_at: None,
    }
}

#[test]
fn plain_markets_are_created_with_their_outcomes() {
    let mut tx = Ledger::new();
    let id = market::create_market(&mut tx, &market_config("rain")).unwrap();
    assert_eq!(id.0, 1);
    assert_eq!(tx.accounts.len(), 1);
    let m = market::get_market_by_slug(&tx, "rain").unwrap().unwrap();
    assert_eq!(m.title, "Will it rain?");
    assert_eq!(m.kind, MarketKind::Binary);
    let values: Vec<&str> = m.outcomes.iter().map(|o| o.value.as_str()).collect();
    assert_eq!(values, vec!["Yes", "No", "Maybe"]);
    assert_eq!(m.outcomes[2].id.0, 3);
    assert!(market::get_market_by_slug(&tx, "snow").unwrap().is_none());

    market::ensure_markets(&mut tx, &[market_config("rain"), market_config("snow")]).unwrap();
    assert_eq!(tx.markets.len(), 2);
    let snow = market::get_market_by_slug(&tx, "snow").unwrap().unwrap();
    assert_eq!(snow.id.0, 2);
    assert_eq!(snow.outcomes[0].id.0, 4);
}

#[test]
fn old_amounts_round_the_whole_amount() {
    let x = finance::Amount(1_999_999, finance::AssetId::POINTS());
    assert_eq!(x.to_string(), "1.999999");
    assert_eq!(x.fmt_precision(2), "2.00");
    assert_eq!(finance::Amount(-79_965, finance::AssetId::POINTS()).to_string(), "-0.079965");
    let p = finance::AssetId::POINTS();
    assert_eq!(p.parse_amount("0.46"), Some(finance::Amount(460_000, p)));
    assert_eq!(p.parse_amount("0.079965"), Some(finance::Amount(79_965, p)));
    assert_eq!(p.parse_amount("-0.079965"), Some(finance::Amount(-79_965, p)));
    assert_eq!(finance::AssetId::POINTS().zero(), finance::Amount(0, finance::AssetId(0)));
    assert_eq!(finance::AssetId::POINTS().parse_amount("1.2.3"), None);
    assert_eq!(finance::AssetId::POINTS().parse_amount("x"), None);
}

#[test]
fn help_text_is_cut_into_sections() {
    let raw = "# Help\r\n\r\nIntro line one.\nline two.\n\n## Making a Profit\nYou have $POINTS now,\nreally $POINTS.\n\nSecond.\n## Bet Sizing\n";
    let sections = help_sections(raw, "12.50");
    // The paragraphs before the first heading are left out.
    assert_eq!(sections.len(), 2);
    assert_eq!(sections[0].title, "Making a Profit");
    assert_eq!(sections[0].anchor, "making-a-profit");
    assert_eq!(
        sections[0].body,
        vec!["\nYou have 12.50 now,\nreally 12.50.".to_string(), "\nSecond.".to_string()]
    );
    assert_eq!(sections[1].title, "Bet Sizing");
    assert_eq!(sections[1].anchor, "bet-sizing");
    assert!(sections[1].body.is_empty());
    assert!(help_sections("Only an introduction.\n", "1.00").is_empty());
}

#[test]
fn replace_and_lines_follow_std() {
    assert_eq!(replace_all("aaa", "aa", "b"), "ba");
    assert_eq!(replace_all("x$Py$P", "$P", "!"), "x!y!");
    assert_eq!(lines_of("a\r\nb\n\nc\r"), vec!["a", "b", "", "c\r"]);
    assert_eq!(lines_of("a\n"), vec!["a"]);
    assert!(lines_of("").is_empty());
}
