use activity_ledger::activity::{Activity, NonTradeActivity, NonTradeKind, Side, TradeActivity};
use activity_ledger::date::Date;
use activity_ledger::decimal::Decimal;
use activity_ledger::error::Error;
use activity_ledger::pipeline::process_day;
use activity_ledger::render::{
    append_plain_amount, extract_acquisition_share_price, format_price, render_non_trade,
    render_trade, Registry,
};

const INVESTMENT: &str = "Assets:Investments:Alpaca:Stock";
const BROKERAGE: &str = "Assets:Alpaca Brokerage";
const BROKERAGE_FEE: &str = "Expenses:Broker:Fee";
const DIVIDEND: &str = "Income:Dividend";
const SEC_FEE: &str = "Expenses:Broker:SEC Fee";
const FINRA_TAF: &str = "Expenses:Broker:FINRA TAF";

fn dec(m: i128, e: u32) -> Decimal {
    Decimal::new(m, e).unwrap()
}

fn day(y: u32, mo: u32, d: u32) -> Date {
    Date::new(y, mo, d).unwrap()
}

fn plain(d: &Decimal) -> String {
    let mut out = String::new();
    append_plain_amount(d, &mut out);
    out
}

fn non_trade(kind: NonTradeKind, date: Date, net: Decimal) -> NonTradeActivity {
    NonTradeActivity {
        id: "n".to_owned(),
        kind,
        date,
        net_amount: net,
        symbol: None,
        description: None,
        price: None,
        quantity: None,
    }
}

fn registry_with(entries: &[(&str, &str)]) -> Registry {
    let mut registry = Registry::new();
    for (sym, name) in entries {
        registry.insert((*sym).to_owned(), (*name).to_owned());
    }
    registry
}

#[test]
fn prices_show_at_least_two_fraction_digits() {
    assert_eq!(format_price(&dec(933, 2), "USD"), "9.33 USD");
    assert_eq!(format_price(&dec(4225, 1), "USD"), "422.50 USD");
    assert_eq!(format_price(&dec(56, 0), "USD"), "56.00 USD");
    assert_eq!(format_price(&dec(-1, 2), "USD"), "-0.01 USD");
    assert_eq!(format_price(&dec(123456789, 8), "USD"), "1.23456789 USD");
    assert_eq!(format_price(&dec(0, 0), "USD"), "0.00 USD");
}

#[test]
fn quantities_show_their_exact_value() {
    assert_eq!(plain(&dec(56, 0)), "56");
    assert_eq!(plain(&dec(-56, 0)), "-56");
    assert_eq!(plain(&dec(4225, 1)), "422.5");
    assert_eq!(plain(&dec(45, 3)), "0.045");
    assert_eq!(plain(&dec(0, 0)), "0");
}

#[test]
fn dates_render_zero_padded() {
    assert_eq!(day(2021, 6, 15).format(), "2021-06-15");
    assert_eq!(day(987, 1, 2).format(), "0987-01-02");
}

#[test]
fn registry_lookup_finds_first_entry() {
    let registry = registry_with(&[("XYZ", "Xyz Corp"), ("ABC", "Abc Inc")]);
    assert_eq!(registry.get("XYZ").map(String::as_str), Some("Xyz Corp"));
    assert_eq!(registry.get("ABC").map(String::as_str), Some("Abc Inc"));
    assert!(registry.get("ZZZ").is_none());
}

#[test]
fn trade_block_matches_fixed_columns() {
    let trade = TradeActivity {
        id: "t1".to_owned(),
        order_id: "o1".to_owned(),
        symbol: "XYZ".to_owned(),
        side: Side::Sell,
        price: dec(933, 2),
        quantity: dec(56, 0),
        cumulative_quantity: dec(56, 0),
        unfilled_quantity: dec(0, 0),
        date: day(2021, 6, 15),
    };
    let taf_desc = "TAF fee for proceed of 56 shares (3 trades) on 2021-06-15 by 999999999";
    let reg_desc = "REG fee for proceed of $522.48 on 2021-06-15 by 999999999";
    let fees = vec![
        NonTradeActivity {
            description: Some(taf_desc.to_owned()),
            net_amount: dec(-1, 2),
            ..non_trade(NonTradeKind::Fee, day(2021, 6, 15), dec(-1, 2))
        },
        NonTradeActivity {
            description: Some(reg_desc.to_owned()),
            net_amount: dec(-1, 2),
            ..non_trade(NonTradeKind::Fee, day(2021, 6, 15), dec(-1, 2))
        },
    ];
    let registry = registry_with(&[("XYZ", "Xyz Corp")]);
    let block = render_trade(
        &trade,
        &fees,
        INVESTMENT,
        BROKERAGE,
        BROKERAGE_FEE,
        SEC_FEE,
        FINRA_TAF,
        &registry,
        "USD",
    )
    .unwrap();
    let expected = format!(
        "2021-06-15 * Xyz Corp\n  {INVESTMENT:<51}  {:>13} XYZ @ 9.33 USD\n  ; {taf_desc}\n  {FINRA_TAF:<51}    {:>15}\n  ; {reg_desc}\n  {SEC_FEE:<51}    {:>15}\n  {BROKERAGE:<51}    {:>15}\n\n",
        "-56", "0.01 USD", "0.01 USD", "522.46 USD",
    );
    assert_eq!(block, expected);
}

#[test]
fn unknown_symbol_is_fatal() {
    let trade = TradeActivity {
        id: "t1".to_owned(),
        order_id: "o1".to_owned(),
        symbol: "XYZ".to_owned(),
        side: Side::Buy,
        price: dec(933, 2),
        quantity: dec(56, 0),
        cumulative_quantity: dec(56, 0),
        unfilled_quantity: dec(0, 0),
        date: day(2021, 6, 15),
    };
    let registry = Registry::new();
    let err = render_trade(
        &trade,
        &Vec::new(),
        INVESTMENT,
        BROKERAGE,
        BROKERAGE_FEE,
        SEC_FEE,
        FINRA_TAF,
        &registry,
        "USD",
    )
    .unwrap_err();
    assert_eq!(err.message(), "symbol XYZ not present in registry");
    match err {
        Error::UnknownSymbol(sym) => assert_eq!(sym, "XYZ"),
        _ => panic!("expected a missing registry entry"),
    }
}

#[test]
fn zero_amount_acquisition_renders_nothing() {
    let n = NonTradeActivity {
        symbol: Some("ACME".to_owned()),
        description: Some("Cash Merger $10.00".to_owned()),
        ..non_trade(NonTradeKind::Acquisition, day(2021, 6, 15), dec(0, 0))
    };
    let registry = registry_with(&[("ACME", "Acme Inc")]);
    let out = render_non_trade(
        &n,
        INVESTMENT,
        BROKERAGE,
        BROKERAGE_FEE,
        DIVIDEND,
        SEC_FEE,
        FINRA_TAF,
        &registry,
        "USD",
    )
    .unwrap();
    assert!(out.is_none());
}

#[test]
fn acquisition_renders_synthetic_trade() {
    let n = NonTradeActivity {
        symbol: Some("ACME".to_owned()),
        description: Some("Cash Merger $10.00 per share".to_owned()),
        ..non_trade(NonTradeKind::Acquisition, day(2021, 6, 15), dec(560, 0))
    };
    let registry = registry_with(&[("ACME", "Acme Inc")]);
    let block = render_non_trade(
        &n,
        INVESTMENT,
        BROKERAGE,
        BROKERAGE_FEE,
        DIVIDEND,
        SEC_FEE,
        FINRA_TAF,
        &registry,
        "USD",
    )
    .unwrap()
    .unwrap();
    let expected = format!(
        "; Acme Inc got acquired\n2021-06-15 * Acme Inc\n  {INVESTMENT:<51}  {:>13} ACME @ 10.00 USD = 0 ACME\n  {BROKERAGE:<51}    {:>15}\n\n",
        "56", "560.00 USD",
    );
    assert_eq!(block, expected);
}

#[test]
fn acquisition_share_price_is_extracted() {
    let n = NonTradeActivity {
        description: Some("Cash Merger $12.34 per share".to_owned()),
        ..non_trade(NonTradeKind::Acquisition, day(2021, 6, 15), dec(560, 0))
    };
    let price = extract_acquisition_share_price(&n).unwrap();
    assert!(price.eq_value(&dec(1234, 2)));

    let bad = NonTradeActivity {
        description: Some("no price here".to_owned()),
        ..non_trade(NonTradeKind::Acquisition, day(2021, 6, 15), dec(560, 0))
    };
    assert!(matches!(
        extract_acquisition_share_price(&bad),
        Err(Error::AcquisitionUnparsable(_))
    ));

    let none = non_trade(NonTradeKind::Acquisition, day(2021, 6, 15), dec(560, 0));
    assert!(matches!(
        extract_acquisition_share_price(&none),
        Err(Error::AcquisitionWithoutDescription)
    ));
}

#[test]
fn dividend_block_debits_income() {
    let n = NonTradeActivity {
        symbol: Some("EFG".to_owned()),
        ..non_trade(NonTradeKind::Dividend, day(2021, 6, 16), dec(187, 2))
    };
    let registry = registry_with(&[("EFG", "Efg Corp")]);
    let block = render_non_trade(
        &n,
        INVESTMENT,
        BROKERAGE,
        BROKERAGE_FEE,
        DIVIDEND,
        SEC_FEE,
        FINRA_TAF,
        &registry,
        "USD",
    )
    .unwrap()
    .unwrap();
    let expected = format!(
        "2021-06-16 * Efg Corp\n  {DIVIDEND}\n  {BROKERAGE:<51}    {:>15}\n\n",
        "1.87 USD",
    );
    assert_eq!(block, expected);
}

#[test]
fn stock_split_renders_share_movement() {
    let n = NonTradeActivity {
        symbol: Some("XYZ".to_owned()),
        price: Some(dec(105, 1)),
        quantity: Some(dec(4, 0)),
        ..non_trade(NonTradeKind::StockSplit, day(2021, 6, 17), dec(0, 0))
    };
    let registry = registry_with(&[("XYZ", "Xyz Corp")]);
    let block = render_non_trade(
        &n,
        INVESTMENT,
        BROKERAGE,
        BROKERAGE_FEE,
        DIVIDEND,
        SEC_FEE,
        FINRA_TAF,
        &registry,
        "USD",
    )
    .unwrap()
    .unwrap();
    let expected = format!(
        "2021-06-17 * Xyz Corp\n  ; Stock split\n  {INVESTMENT:<51}  {:>13} XYZ @ 10.50 USD\n  {BROKERAGE:<51}    {:>15}\n\n",
        "4", "42.00 USD",
    );
    assert_eq!(block, expected);
}

#[test]
fn unknown_kinds_are_ignored() {
    let n = non_trade(NonTradeKind::Other, day(2021, 6, 15), dec(5, 0));
    let registry = Registry::new();
    let out = render_non_trade(
        &n,
        INVESTMENT,
        BROKERAGE,
        BROKERAGE_FEE,
        DIVIDEND,
        SEC_FEE,
        FINRA_TAF,
        &registry,
        "USD",
    )
    .unwrap();
    assert!(out.is_none());
}

/// End to end: three fills and two regulatory fees become one block; an
/// ADR fee becomes its own block against the broker's fee account.
#[test]
fn process_day_renders_reconciled_batch() {
    let d = day(2021, 6, 15);
    let order = "12345678-9012-3456-7890-123456789012";
    let mk_fill = |id: &str, qty: i128, cum: i128, unfilled: i128| {
        Activity::Trade(TradeActivity {
            id: id.to_owned(),
            order_id: order.to_owned(),
            symbol: "XYZ".to_owned(),
            side: Side::Sell,
            price: dec(933, 2),
            quantity: dec(qty, 0),
            cumulative_quantity: dec(cum, 0),
            unfilled_quantity: dec(unfilled, 0),
            date: d,
        })
    };
    let taf_desc = "TAF fee for proceed of 56 shares (3 trades) on 2021-06-15 by 999999999";
    let reg_desc = "REG fee for proceed of $522.48 on 2021-06-15 by 999999999";
    let adr_desc = "ADR Fees collected by depositary";
    let mk_fee = |id: &str, net: Decimal, desc: &str| {
        Activity::NonTrade(NonTradeActivity {
            id: id.to_owned(),
            kind: NonTradeKind::Fee,
            date: d,
            net_amount: net,
            symbol: None,
            description: Some(desc.to_owned()),
            price: None,
            quantity: None,
        })
    };
    let activities = vec![
        mk_fill("a", 1, 1, 55),
        mk_fill("b", 1, 2, 54),
        mk_fill("c", 54, 56, 0),
        mk_fee("f1", dec(-1, 2), taf_desc),
        mk_fee("f2", dec(-1, 2), reg_desc),
        mk_fee("f3", dec(-150, 2), adr_desc),
    ];
    let registry = registry_with(&[("XYZ", "Xyz Corp")]);
    let (blocks, err) = process_day(
        activities,
        false,
        INVESTMENT,
        BROKERAGE,
        BROKERAGE_FEE,
        DIVIDEND,
        SEC_FEE,
        FINRA_TAF,
        &registry,
        "USD",
    );
    assert!(err.is_none());
    assert_eq!(blocks.len(), 2);
    let expected_trade = format!(
        "2021-06-15 * Xyz Corp\n  {INVESTMENT:<51}  {:>13} XYZ @ 9.33 USD\n  ; {taf_desc}\n  {FINRA_TAF:<51}    {:>15}\n  ; {reg_desc}\n  {SEC_FEE:<51}    {:>15}\n  {BROKERAGE:<51}    {:>15}\n\n",
        "-56", "0.01 USD", "0.01 USD", "522.46 USD",
    );
    assert_eq!(blocks[0], expected_trade);
    let expected_adr = format!(
        "2021-06-15 * Alpaca Securities LLC\n  ; {adr_desc}\n  {BROKERAGE_FEE:<51}    {:>15}\n  {BROKERAGE}\n\n",
        "1.50 USD",
    );
    assert_eq!(blocks[1], expected_adr);
}

/// Forcing fees separate bypasses association: every fee renders on its
/// own and the trade carries none.
#[test]
fn process_day_force_separate_fees() {
    let d = day(2021, 6, 15);
    let trade = Activity::Trade(TradeActivity {
        id: "t".to_owned(),
        order_id: "o".to_owned(),
        symbol: "XYZ".to_owned(),
        side: Side::Buy,
        price: dec(10, 0),
        quantity: dec(2, 0),
        cumulative_quantity: dec(2, 0),
        unfilled_quantity: dec(0, 0),
        date: d,
    });
    let fee = Activity::NonTrade(NonTradeActivity {
        id: "f".to_owned(),
        kind: NonTradeKind::Fee,
        date: d,
        net_amount: dec(-1, 2),
        symbol: None,
        description: Some("TAF fee for proceed of 2 shares".to_owned()),
        price: None,
        quantity: None,
    });
    let registry = registry_with(&[("XYZ", "Xyz Corp")]);
    let (blocks, err) = process_day(
        vec![trade, fee],
        true,
        INVESTMENT,
        BROKERAGE,
        BROKERAGE_FEE,
        DIVIDEND,
        SEC_FEE,
        FINRA_TAF,
        &registry,
        "USD",
    );
    assert!(err.is_none());
    assert_eq!(blocks.len(), 2);
    let expected_trade = format!(
        "2021-06-15 * Xyz Corp\n  {INVESTMENT:<51}  {:>13} XYZ @ 10.00 USD\n  {BROKERAGE:<51}    {:>15}\n\n",
        "2", "-20.00 USD",
    );
    assert_eq!(blocks[0], expected_trade);
    assert!(blocks[1].contains(FINRA_TAF));
}
