use predictomatic::finance;
use predictomatic::model::{Amount, AssetId};

#[test]
fn finance_amount_display_works() {
    let x = finance::Amount(123_456_789, finance::AssetId::POINTS());
    assert_eq!(x.to_string(), "123.456789");
    assert_eq!(x.fmt_precision(3), "123.457");
    assert_eq!(x.fmt_precision(1), "123.5");

    let x = finance::Amount(123_000_789, finance::AssetId::POINTS());
    assert_eq!(x.to_string(), "123.000789");
    assert_eq!(x.fmt_precision(3), "123.001");
    assert_eq!(x.fmt_precision(1), "123.0");

    let x = finance::Amount(-123_456_789, finance::AssetId::POINTS());
    assert_eq!(x.to_string(), "-123.456789");
    assert_eq!(x.fmt_precision(3), "-123.457");
    assert_eq!(x.fmt_precision(1), "-123.5");

    let x = finance::Amount(-123_000_789, finance::AssetId::POINTS());
    assert_eq!(x.to_string(), "-123.000789");
    assert_eq!(x.fmt_precision(3), "-123.001");
    assert_eq!(x.fmt_precision(1), "-123.0");
}

#[test]
fn finance_asset_id_parse_amount_works() {
    assert_eq!(
        finance::AssetId::POINTS().parse_amount("1"),
        Some(finance::Amount(1_000_000, finance::AssetId::POINTS()))
    );
    assert_eq!(
        finance::AssetId::POINTS().parse_amount("1.0"),
        Some(finance::Amount(1_000_000, finance::AssetId::POINTS()))
    );
    assert_eq!(
        finance::AssetId::POINTS().parse_amount("1.2"),
        Some(finance::Amount(1_200_000, finance::AssetId::POINTS()))
    );
    assert_eq!(
        finance::AssetId::POINTS().parse_amount("1.02"),
        Some(finance::Amount(1_020_000, finance::AssetId::POINTS()))
    );
    assert_eq!(
        finance::AssetId::POINTS().parse_amount("1.000123"),
        Some(finance::Amount(1_000_123, finance::AssetId::POINTS()))
    );
    assert_eq!(
        finance::AssetId::POINTS().parse_amount("-1.2"),
        Some(finance::Amount(-1_200_000, finance::AssetId::POINTS()))
    );
    assert_eq!(
        finance::AssetId::POINTS().parse_amount("-1.02"),
        Some(finance::Amount(-1_020_000, finance::AssetId::POINTS()))
    );
    assert_eq!(
        finance::AssetId::POINTS().parse_amount("-1.000123"),
        Some(finance::Amount(-1_000_123, finance::AssetId::POINTS()))
    );

    // Too many decimals, should refuse.
    assert_eq!(finance::AssetId::POINTS().parse_amount("1.0001234"), None);
}

#[test]
fn model_amount_display_works() {
    let x = Amount(123_456_789, AssetId::POINTS());
    assert_eq!(x.to_string(), "123.456789");
    assert_eq!(x.fmt_precision(3), "123.457");
    assert_eq!(x.fmt_precision(1), "123.5");

    let x = Amount(123_000_789, AssetId::POINTS());
    assert_eq!(x.to_string(), "123.000789");
    assert_eq!(x.fmt_precision(3), "123.001");
    assert_eq!(x.fmt_precision(1), "123.0");

    let x = Amount(-123_456_789, AssetId::POINTS());
    assert_eq!(x.to_string(), "-123.456789");
    assert_eq!(x.fmt_precision(3), "-123.457");
    assert_eq!(x.fmt_precision(1), "-123.5");

    let x = Amount(-123_000_789, AssetId::POINTS());
    assert_eq!(x.to_string(), "-123.000789");
    assert_eq!(x.fmt_precision(3), "-123.001");
    assert_eq!(x.fmt_precision(1), "-123.0");

    let x = Amount(1_999_999, AssetId::POINTS());
    assert_eq!(x.to_string(), "1.999999");
    assert_eq!(x.fmt_precision(2), "2.00");
}

#[test]
fn model_asset_id_parse_amount_works() {
    assert_eq!(
        AssetId::POINTS().parse_amount("1"),
        Some(Amount(1_000_000, AssetId::POINTS()))
    );
    assert_eq!(
        AssetId::POINTS().parse_amount("1.0"),
        Some(Amount(1_000_000, AssetId::POINTS()))
    );
    assert_eq!(
        AssetId::POINTS().parse_amount("1.2"),
        Some(Amount(1_200_000, AssetId::POINTS()))
    );
    assert_eq!(
        AssetId::POINTS().parse_amount("1.02"),
        Some(Amount(1_020_000, AssetId::POINTS()))
    );
    assert_eq!(
        AssetId::POINTS().parse_amount("1.000123"),
        Some(Amount(1_000_123, AssetId::POINTS()))
    );
    assert_eq!(
        AssetId::POINTS().parse_amount("-1.2"),
        Some(Amount(-1_200_000, AssetId::POINTS()))
    );
    assert_eq!(
        AssetId::POINTS().parse_amount("-1.02"),
        Some(Amount(-1_020_000, AssetId::POINTS()))
    );
    assert_eq!(
        AssetId::POINTS().parse_amount("-1.000123"),
        Some(Amount(-1_000_123, AssetId::POINTS()))
    );

    // Regression test.
    assert_eq!(
        AssetId::POINTS().parse_amount("0.46"),
        Some(Amount(460_000, AssetId::POINTS()))
    );
    assert_eq!(
        AssetId::POINTS().parse_amount("0.079965"),
        Some(Amount(79965, AssetId::POINTS()))
    );
    assert_eq!(
        AssetId::POINTS().parse_amount("-0.079965"),
        Some(Amount(-79965, AssetId::POINTS()))
    );

    // Too many decimals, should refuse.
    assert_eq!(AssetId::POINTS().parse_amount("1.0001234"), None);
}
