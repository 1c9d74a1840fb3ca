use activity_ledger::decimal::Decimal;
use activity_ledger::error::Error;

fn dec(m: i128, e: u32) -> Decimal {
    Decimal::new(m, e).unwrap()
}

/// One amount, one representation: trailing zeros and scale do not matter.
#[test]
fn equal_amounts_compare_equal() {
    assert!(dec(933, 2).eq_value(&dec(9330, 3)));
    assert!(dec(56, 0).eq_value(&dec(560000, 4)));
    assert!(!dec(56, 0).eq_value(&dec(561, 1)));
    assert!(dec(0, 0).eq_value(&dec(0, 5)));
    assert!(dec(0, 0).is_zero());
    assert!(!dec(1, 9).is_zero());
}

/// Sums, differences and negation are exact.
#[test]
fn addition_is_exact() {
    assert!(dec(1, 0).add(&dec(1, 0)).unwrap().eq_value(&dec(2, 0)));
    assert!(dec(933, 2).add(&dec(67, 2)).unwrap().eq_value(&dec(10, 0)));
    assert!(dec(1, 1).add(&dec(2, 1)).unwrap().eq_value(&dec(3, 1)));
    assert!(dec(52248, 2).sub(&dec(2, 2)).unwrap().eq_value(&dec(52246, 2)));
    assert!(dec(-1, 2).neg().eq_value(&dec(1, 2)));
    assert!(dec(1, 0).sub(&dec(1, 0)).unwrap().is_zero());
}

/// Products are exact: the scenario value 56 shares at 9.33 gives 522.48.
#[test]
fn multiplication_is_exact() {
    let prod = dec(933, 2).mul(&dec(56, 0)).unwrap();
    assert!(prod.eq_value(&dec(52248, 2)));
    assert!(dec(933, 2).mul_eq(&dec(56, 0), &dec(52248, 2)));
    assert!(!dec(933, 2).mul_eq(&dec(56, 0), &dec(52247, 2)));
    assert!(dec(105, 1).mul(&dec(4, 0)).unwrap().eq_value(&dec(42, 0)));
}

/// Division is exact or refused: no rounded quantities.
#[test]
fn division_is_exact_or_refused() {
    assert!(dec(560, 0).div(&dec(10, 0)).unwrap().eq_value(&dec(56, 0)));
    assert!(dec(52248, 2).div(&dec(933, 2)).unwrap().eq_value(&dec(56, 0)));
    assert!(dec(1, 0).div(&dec(3, 0)).is_none());
    assert!(dec(1, 0).div(&dec(0, 0)).is_none());
}

/// Amounts hold at most nine fraction digits and mantissas below 10^14.
#[test]
fn representable_range_is_enforced() {
    assert!(Decimal::new(1, 9).is_some());
    assert!(Decimal::new(1, 10).is_none());
    assert!(Decimal::new(10, 10).is_some());
    assert!(Decimal::new(99_999_999_999_999, 0).is_some());
    assert!(Decimal::new(100_000_000_000_000, 0).is_none());
    assert!(Decimal::from_int(99_999_999_999_999).is_some());
    assert!(Decimal::from_int(100_000_000_000_000).is_none());
    assert!(Decimal::from_int(-99_999_999_999_999).is_some());
}

/// Each error renders its documented message.
#[test]
fn error_messages_name_their_cause() {
    assert_eq!(
        Error::FeeWithoutDescription.message(),
        "fee activity does not have a description"
    );
    assert_eq!(
        Error::UnclassifiableFee("x".to_owned()).message(),
        "failed to classify fee account activity with description: x"
    );
    assert_eq!(
        Error::UnassociatedFee("x".to_owned()).message(),
        "failed to associate fee with any trade: x"
    );
    assert_eq!(
        Error::DividendWithoutSymbol.message(),
        "dividend entry does not have an associated symbol"
    );
    assert_eq!(
        Error::AmountOutOfRange.message(),
        "amount out of exactly representable range"
    );
}
