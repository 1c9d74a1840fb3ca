use activity_ledger::activity::{Activity, NonTradeActivity, NonTradeKind, Side, TradeActivity};
use activity_ledger::date::Date;
use activity_ledger::decimal::Decimal;
use activity_ledger::merge::merge_partial_fills;

fn dec(m: i128, e: u32) -> Decimal {
    Decimal::new(m, e).unwrap()
}

fn day(y: u32, mo: u32, d: u32) -> Date {
    Date::new(y, mo, d).unwrap()
}

#[allow(clippy::too_many_arguments)]
fn fill(
    id: &str,
    order_id: &str,
    symbol: &str,
    side: Side,
    price: Decimal,
    qty: Decimal,
    cum: Decimal,
    unfilled: Decimal,
    date: Date,
) -> Activity {
    Activity::Trade(TradeActivity {
        id: id.to_owned(),
        order_id: order_id.to_owned(),
        symbol: symbol.to_owned(),
        side,
        price,
        quantity: qty,
        cumulative_quantity: cum,
        unfilled_quantity: unfilled,
        date,
    })
}

fn dividend(id: &str, date: Date, net: Decimal, symbol: &str, qty: Decimal, desc: &str) -> Activity {
    Activity::NonTrade(NonTradeActivity {
        id: id.to_owned(),
        kind: NonTradeKind::Dividend,
        date,
        net_amount: net,
        symbol: Some(symbol.to_owned()),
        description: Some(desc.to_owned()),
        price: None,
        quantity: Some(qty),
    })
}

/// Test merging of partial fills.
#[test]
fn merge_activities_simple() {
    let d = day(2021, 6, 15);
    let order = "12345678-9012-3456-7890-123456789012";
    let activities = vec![
        fill(
            "11111111111111111::22222222-3333-4444-5555-666666666666",
            order,
            "XYZ",
            Side::Sell,
            dec(933, 2),
            dec(1, 0),
            dec(1, 0),
            dec(55, 0),
            d,
        ),
        fill(
            "777777777777777777::88888888-9999-1111-2222-333333333333",
            order,
            "XYZ",
            Side::Sell,
            dec(933, 2),
            dec(1, 0),
            dec(2, 0),
            dec(54, 0),
            d,
        ),
        fill(
            "44444444444444444::55555555-6666-7777-8888-999999999999",
            order,
            "XYZ",
            Side::Sell,
            dec(933, 2),
            dec(54, 0),
            dec(56, 0),
            dec(0, 0),
            d,
        ),
    ];
    let activities = merge_partial_fills(activities).unwrap();

    assert_eq!(activities.len(), 1);
    match &activities[0] {
        Activity::Trade(trade) => {
            assert!(trade.quantity.eq_value(&Decimal::from_int(56).unwrap()));
            assert!(trade.cumulative_quantity.eq_value(&Decimal::from_int(56).unwrap()));
            assert!(trade.unfilled_quantity.is_zero());
        },
        _ => panic!("encountered unexpected account activity"),
    }
}

/// Test merging of partial fills with intermixed unrelated activity.
#[test]
fn merge_activities_complex() {
    let order0 = "00000000-0000-0000-0000-000000000000";
    let order1 = "12345678-9123-4567-8912-345678912345";
    let activities = vec![
        fill(
            "11111111111111111::11111111-1111-1111-1111-111111111111",
            order0,
            "BCD",
            Side::Sell,
            dec(933, 2),
            dec(54, 0),
            dec(56, 0),
            dec(0, 0),
            day(2021, 6, 15),
        ),
        dividend(
            "22222222222222222::22222222-2222-2222-2222-222222222222",
            day(2021, 6, 16),
            dec(187, 2),
            "EFG",
            dec(11, 0),
            "Cash DIV @ 0.17, Pos QTY: 11.0, Rec Date: 2021-05-20",
        ),
        fill(
            "33333333333333333::33333333-3333-3333-3333-333333333333",
            order1,
            "XYZ",
            Side::Buy,
            dec(4225, 1),
            dec(100, 0),
            dec(100, 0),
            dec(75, 0),
            day(2021, 6, 17),
        ),
        fill(
            "44444444444444444::44444444-4444-4444-4444-444444444444",
            order1,
            "XYZ",
            Side::Buy,
            dec(4225, 1),
            dec(27, 0),
            dec(127, 0),
            dec(48, 0),
            day(2021, 6, 17),
        ),
        fill(
            "55555555555555555::55555555-5555-5555-5555-555555555555",
            order1,
            "XYZ",
            Side::Buy,
            dec(4225, 1),
            dec(27, 0),
            dec(154, 0),
            dec(21, 0),
            day(2021, 6, 17),
        ),
        fill(
            "66666666666666666::66666666-6666-6666-6666-666666666666",
            order1,
            "XYZ",
            Side::Buy,
            dec(4225, 1),
            dec(21, 0),
            dec(175, 0),
            dec(0, 0),
            day(2021, 6, 17),
        ),
        dividend(
            "77777777777777777::77777777-7777-7777-7777-777777777777",
            day(2021, 6, 18),
            dec(822, 2),
            "ABC",
            dec(411, 0),
            "Cash DIV @ 0.02",
        ),
    ];
    let activities = merge_partial_fills(activities).unwrap();

    assert_eq!(activities.len(), 4);
    match &activities[2] {
        Activity::Trade(trade) => {
            assert!(trade.quantity.eq_value(&Decimal::from_int(175).unwrap()));
            assert!(trade.cumulative_quantity.eq_value(&Decimal::from_int(175).unwrap()));
            assert!(trade.unfilled_quantity.is_zero());
        },
        _ => panic!("encountered unexpected account activity"),
    }
}

/// Running the merge a second time changes nothing.
#[test]
fn merge_is_idempotent_on_merged_batch() {
    let d = day(2021, 6, 15);
    let order = "12345678-9012-3456-7890-123456789012";
    let activities = vec![
        fill("a", order, "XYZ", Side::Sell, dec(933, 2), dec(1, 0), dec(1, 0), dec(55, 0), d),
        fill("b", order, "XYZ", Side::Sell, dec(933, 2), dec(55, 0), dec(56, 0), dec(0, 0), d),
    ];
    let once = merge_partial_fills(activities).unwrap();
    assert_eq!(once.len(), 1);
    let again = merge_partial_fills(once).unwrap();
    assert_eq!(again.len(), 1);
    match &again[0] {
        Activity::Trade(trade) => {
            assert!(trade.quantity.eq_value(&Decimal::from_int(56).unwrap()));
        },
        _ => panic!("encountered unexpected account activity"),
    }
}

/// A partial fill whose terminal fill lies in another batch stays as it
/// is, and unrelated records keep their order.
#[test]
fn merge_keeps_orphan_partials_and_order() {
    let d = day(2021, 6, 15);
    let activities = vec![
        dividend("d1", d, dec(187, 2), "EFG", dec(11, 0), "Cash DIV @ 0.17"),
        fill(
            "a",
            "11111111-0000-0000-0000-000000000000",
            "XYZ",
            Side::Sell,
            dec(933, 2),
            dec(1, 0),
            dec(1, 0),
            dec(55, 0),
            d,
        ),
        dividend("d2", d, dec(822, 2), "ABC", dec(411, 0), "Cash DIV @ 0.02"),
    ];
    let merged = merge_partial_fills(activities).unwrap();
    assert_eq!(merged.len(), 3);
    assert!(matches!(&merged[0], Activity::NonTrade(n) if n.id == "d1"));
    assert!(matches!(&merged[1], Activity::Trade(t) if t.id == "a"));
    assert!(matches!(&merged[2], Activity::NonTrade(n) if n.id == "d2"));
}
