use activity_ledger::activity::{Activity, NonTradeActivity, NonTradeKind, ReconciledActivity, Side, TradeActivity};
use activity_ledger::date::Date;
use activity_ledger::decimal::Decimal;
use activity_ledger::error::Error;
use activity_ledger::fees::{associate_fees_with_trades, classify_fee, find_taf};
use activity_ledger::merge::merge_partial_fills;
use activity_ledger::text::parse_digits;

fn dec(m: i128, e: u32) -> Decimal {
    Decimal::new(m, e).unwrap()
}

fn day(y: u32, mo: u32, d: u32) -> Date {
    Date::new(y, mo, d).unwrap()
}

#[allow(clippy::too_many_arguments)]
fn fill(
    id: &str,
    order_id: &str,
    symbol: &str,
    side: Side,
    price: Decimal,
    qty: Decimal,
    cum: Decimal,
    unfilled: Decimal,
    date: Date,
) -> Activity {
    Activity::Trade(TradeActivity {
        id: id.to_owned(),
        order_id: order_id.to_owned(),
        symbol: symbol.to_owned(),
        side,
        price,
        quantity: qty,
        cumulative_quantity: cum,
        unfilled_quantity: unfilled,
        date,
    })
}

fn fee(id: &str, date: Date, net: Decimal, desc: Option<&str>) -> Activity {
    Activity::NonTrade(NonTradeActivity {
        id: id.to_owned(),
        kind: NonTradeKind::Fee,
        date,
        net_amount: net,
        symbol: None,
        description: desc.map(|d| d.to_owned()),
        price: None,
        quantity: None,
    })
}

/// Test associating regulatory fees with the corresponding trades.
#[test]
fn associate_fees_and_trades() {
    let d = day(2021, 6, 15);
    let order = "12345678-9012-3456-7890-123456789012";
    let activities = vec![
        fill(
            "11111111111111111::22222222-3333-4444-5555-666666666666",
            order,
            "XYZ",
            Side::Sell,
            dec(933, 2),
            dec(1, 0),
            dec(1, 0),
            dec(55, 0),
            d,
        ),
        fill(
            "777777777777777777::88888888-9999-1111-2222-333333333333",
            order,
            "XYZ",
            Side::Sell,
            dec(933, 2),
            dec(1, 0),
            dec(2, 0),
            dec(54, 0),
            d,
        ),
        fill(
            "44444444444444444::55555555-6666-7777-8888-999999999999",
            order,
            "XYZ",
            Side::Sell,
            dec(933, 2),
            dec(54, 0),
            dec(56, 0),
            dec(0, 0),
            d,
        ),
        fee(
            "11111111111111111::22222222-3333-4444-5555-666666666666",
            d,
            dec(-1, 2),
            Some("TAF fee for proceed of 56 shares (3 trades) on 2021-06-15 by 999999999"),
        ),
        fee(
            "77777777777777777::88888888-9999-1111-2222-333333333333",
            d,
            dec(-1, 2),
            Some("REG fee for proceed of $522.48 on 2021-06-15 by 999999999"),
        ),
    ];
    let activities = merge_partial_fills(activities).unwrap();
    let activities = associate_fees_with_trades(activities).unwrap();

    assert_eq!(activities.len(), 1);
    match &activities[0] {
        ReconciledActivity::Trade(_, fees) => {
            assert_eq!(fees.len(), 2);
            assert_eq!(
                fees[0].description.as_ref().map(String::as_ref),
                Some("TAF fee for proceed of 56 shares (3 trades) on 2021-06-15 by 999999999")
            );
            assert_eq!(
                fees[1].description.as_ref().map(String::as_ref),
                Some("REG fee for proceed of $522.48 on 2021-06-15 by 999999999")
            );
        },
        _ => panic!("encountered unexpected account activity"),
    }
}

/// A depositary-receipt fee is never attached to a trade.
#[test]
fn adr_fee_stays_standalone() {
    let d = day(2021, 6, 15);
    let activities = vec![
        fill(
            "t1",
            "12345678-9012-3456-7890-123456789012",
            "XYZ",
            Side::Sell,
            dec(933, 2),
            dec(56, 0),
            dec(56, 0),
            dec(0, 0),
            d,
        ),
        fee("f1", d, dec(-150, 2), Some("ADR Fees collected by depositary")),
    ];
    let out = associate_fees_with_trades(activities).unwrap();
    assert_eq!(out.len(), 2);
    match &out[0] {
        ReconciledActivity::Trade(_, fees) => assert_eq!(fees.len(), 0),
        _ => panic!("encountered unexpected account activity"),
    }
    assert!(matches!(&out[1], ReconciledActivity::NonTrade(n) if n.id == "f1"));
}

/// A fee with no description is rejected.
#[test]
fn fee_without_description_is_rejected() {
    let d = day(2021, 6, 15);
    let activities = vec![fee("f1", d, dec(-1, 2), None)];
    let err = associate_fees_with_trades(activities).unwrap_err();
    assert!(matches!(err, Error::FeeWithoutDescription));
    assert_eq!(err.message(), "fee activity does not have a description");
}

/// A fee whose description fits no pattern is rejected, naming the
/// description.
#[test]
fn unclassifiable_fee_is_rejected() {
    let d = day(2021, 6, 15);
    let activities = vec![fee("f1", d, dec(-1, 2), Some("mystery charge"))];
    let err = associate_fees_with_trades(activities).unwrap_err();
    match err {
        Error::UnclassifiableFee(desc) => assert_eq!(desc, "mystery charge"),
        _ => panic!("expected an unclassifiable fee"),
    }
}

/// A classified fee that names no trade of the batch is rejected.
#[test]
fn unmatched_fee_is_rejected() {
    let d = day(2021, 6, 15);
    let activities = vec![
        fill(
            "t1",
            "12345678-9012-3456-7890-123456789012",
            "XYZ",
            Side::Sell,
            dec(933, 2),
            dec(7, 0),
            dec(7, 0),
            dec(0, 0),
            d,
        ),
        fee("f1", d, dec(-1, 2), Some("TAF fee for proceed of 56 shares")),
    ];
    let err = associate_fees_with_trades(activities).unwrap_err();
    assert!(matches!(err, Error::UnassociatedFee(_)));
}

/// Share counts are read back exactly from a generated description.
#[test]
fn taf_extraction_round_trip() {
    let desc = "TAF fee for proceed of 560321 shares (3 trades) on 2021-06-15";
    let (j, k) = find_taf(desc).unwrap();
    let shares = parse_digits(desc, j, k).unwrap();
    assert_eq!(shares, 560321);

    assert!(find_taf("TAF fee for proceed of shares").is_none());
    assert!(find_taf("REG fee for proceed of $1.00").is_none());
}

/// The leftmost share-count match wins.
#[test]
fn taf_extraction_is_leftmost() {
    let desc = "TAF fee for proceed of 12 shares and TAF fee for proceed of 99 shares";
    let (j, k) = find_taf(desc).unwrap();
    let shares = parse_digits(desc, j, k).unwrap();
    assert_eq!(shares, 12);
}

/// Classification picks the account for each documented pattern.
#[test]
fn classify_fee_by_pattern() {
    let d = day(2021, 6, 15);
    let mk = |desc: &str| NonTradeActivity {
        id: "f".to_owned(),
        kind: NonTradeKind::Fee,
        date: d,
        net_amount: dec(-1, 2),
        symbol: None,
        description: Some(desc.to_owned()),
        price: None,
        quantity: None,
    };
    let taf = mk("TAF fee for proceed of 56 shares");
    let (acct, desc) = classify_fee(&taf, "broker", "sec", "finra").unwrap();
    assert_eq!(acct, "finra");
    assert_eq!(desc, "TAF fee for proceed of 56 shares");

    let reg = mk("REG fee for proceed of $522.48");
    let (acct, _) = classify_fee(&reg, "broker", "sec", "finra").unwrap();
    assert_eq!(acct, "sec");

    let adr = mk("ADR Fees for holdings");
    let (acct, _) = classify_fee(&adr, "broker", "sec", "finra").unwrap();
    assert_eq!(acct, "broker");

    let other = mk("something else");
    assert!(classify_fee(&other, "broker", "sec", "finra").is_err());
}
