use activity_ledger::activity::{Activity, NonTradeActivity, NonTradeKind, Side, TradeActivity};
use activity_ledger::batch::{absorb_page, day_batch_ready, split_first_day};
use activity_ledger::date::Date;
use activity_ledger::decimal::Decimal;

fn dec(m: i128, e: u32) -> Decimal {
    Decimal::new(m, e).unwrap()
}

fn day(y: u32, mo: u32, d: u32) -> Date {
    Date::new(y, mo, d).unwrap()
}

fn trade_on(id: &str, date: Date) -> Activity {
    Activity::Trade(TradeActivity {
        id: id.to_owned(),
        order_id: "o".to_owned(),
        symbol: "XYZ".to_owned(),
        side: Side::Buy,
        price: dec(10, 0),
        quantity: dec(1, 0),
        cumulative_quantity: dec(1, 0),
        unfilled_quantity: dec(0, 0),
        date,
    })
}

fn dividend_on(id: &str, date: Date) -> Activity {
    Activity::NonTrade(NonTradeActivity {
        id: id.to_owned(),
        kind: NonTradeKind::Dividend,
        date,
        net_amount: dec(1, 0),
        symbol: Some("XYZ".to_owned()),
        description: None,
        price: None,
        quantity: None,
    })
}

/// A buffer spanning a day boundary is ready; one inside a single day is
/// not.
#[test]
fn readiness_needs_a_day_boundary() {
    let d1 = day(2021, 6, 15);
    let d2 = day(2021, 6, 16);
    assert!(!day_batch_ready(&Vec::new()));
    assert!(!day_batch_ready(&vec![trade_on("a", d1)]));
    assert!(!day_batch_ready(&vec![trade_on("a", d1), trade_on("b", d1)]));
    assert!(day_batch_ready(&vec![trade_on("a", d1), trade_on("b", d2)]));
}

/// The ready set holds exactly the oldest day's records in feed order; the
/// overflow holds the rest, and no record of a buffered day is left
/// behind.
#[test]
fn split_keeps_whole_days_together() {
    let d1 = day(2021, 6, 15);
    let d2 = day(2021, 6, 16);
    let buffer = vec![
        trade_on("a", d1),
        dividend_on("b", d1),
        trade_on("c", d2),
        dividend_on("d", d1),
        trade_on("e", d2),
    ];
    let (ready, overflow) = split_first_day(buffer);
    let ready_ids: Vec<&str> = ready.iter().map(|a| a.id().as_str()).collect();
    let overflow_ids: Vec<&str> = overflow.iter().map(|a| a.id().as_str()).collect();
    assert_eq!(ready_ids, ["a", "b", "d"]);
    assert_eq!(overflow_ids, ["c", "e"]);
    for a in &ready {
        assert!(a.date() == d1);
    }
    for a in &overflow {
        assert!(a.date() == d2);
    }
}

/// A non-empty page advances the cursor to its last record's identifier;
/// an empty page signals the end of the stream.
#[test]
fn absorbing_pages_advances_the_cursor() {
    let d1 = day(2021, 6, 15);
    let mut buffer = Vec::new();
    let token = absorb_page(&mut buffer, vec![trade_on("a", d1), trade_on("b", d1)]);
    assert_eq!(token.as_deref(), Some("b"));
    assert_eq!(buffer.len(), 2);

    let token = absorb_page(&mut buffer, vec![trade_on("c", d1)]);
    assert_eq!(token.as_deref(), Some("c"));
    assert_eq!(buffer.len(), 3);

    let token = absorb_page(&mut buffer, Vec::new());
    assert!(token.is_none());
    assert_eq!(buffer.len(), 3);
}
