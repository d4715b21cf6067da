use h5i_db_backtest::types::{notional, Money, Price, Qty, Side, Stamps, UnixNanos, SCALE};

fn px(value: f64) -> Price {
    Price::from_raw((value * SCALE as f64).round() as i64)
}

fn cash(value: f64) -> Money {
    Money::from_raw((value * SCALE as f64).round() as i64)
}

#[test]
fn display_trims_trailing_zeros_but_keeps_precision() {
    assert_eq!(px(0.5).to_text(), "0.5");
    assert_eq!(Price::from_units(3).unwrap().to_text(), "3");
    assert_eq!(Price::from_raw(-1).to_text(), "-0.000000001");
    assert_eq!(px(0.0001).to_text(), "0.0001");
}

#[test]
fn notional_is_exact_for_representable_values() {
    let price = px(0.37);
    let qty = Qty::from_units(100).unwrap();
    assert_eq!(
        notional(price, qty).unwrap(),
        cash(37.0)
    );
}

#[test]
fn notional_does_not_overflow_i64_intermediates() {
    // Both factors are large enough that price.raw * qty.raw exceeds i64.
    let price = Price::from_units(1_000_000).unwrap();
    let qty = Qty::from_units(1_000).unwrap();
    assert_eq!(
        notional(price, qty).unwrap(),
        Money::from_units(1_000_000_000).unwrap()
    );
}

#[test]
fn notional_rounds_symmetrically() {
    // 0.5 raw units of product, positive and negative.
    let half = Price::from_raw(1);
    let qty = Qty::from_raw(SCALE / 2);
    assert_eq!(notional(half, qty).unwrap().raw(), 1);
    assert_eq!(notional(Price::from_raw(-half.raw()), qty).unwrap().raw(), -1);
}

#[test]
fn probability_complement_is_exact() {
    let yes = px(0.37);
    let no = yes.complement().unwrap();
    assert_eq!(no, px(0.63));
    assert_eq!(no.complement().unwrap(), yes);
}

#[test]
fn stamps_reject_learning_before_the_event() {
    let event = UnixNanos::new(1_000);
    assert!(Stamps::new(event, UnixNanos::new(999)).is_err());
    assert!(Stamps::new(event, event).is_ok());
    assert_eq!(
        Stamps::new(event, UnixNanos::new(1_500))
            .unwrap()
            .delay_nanos(),
        500
    );
}

#[test]
fn side_parses_the_names_vendors_actually_use() {
    assert_eq!(Side::parse("BID").unwrap(), Side::Buy);
    assert_eq!(Side::parse("ask").unwrap(), Side::Sell);
    assert_eq!(Side::parse("Sell").unwrap(), Side::Sell);
    assert!(Side::parse("maybe").is_err());
    assert_eq!(Side::Buy.opposite(), Side::Sell);
}

#[test]
fn checked_arithmetic_reports_overflow() {
    assert!(
        Money::from_raw(i64::MAX)
            .checked_add(Money::from_raw(1))
            .is_err()
    );
    assert!(Money::from_units(i64::MAX).is_err());
}
