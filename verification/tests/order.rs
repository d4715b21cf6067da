use h5i_db_backtest::instrument::{InstrumentId, OutcomeId};
use h5i_db_backtest::order::{Order, OrderId, OrderStatus, TimeInForce};
use h5i_db_backtest::types::{Price, Qty, Side, UnixNanos, SCALE};

fn px(value: f64) -> Price {
    Price::from_raw((value * SCALE as f64).round() as i64)
}

fn qy(value: f64) -> Qty {
    Qty::from_raw((value * SCALE as f64).round() as i64)
}

fn ids() -> (InstrumentId, OutcomeId) {
    (InstrumentId::new("m").unwrap(), OutcomeId::first())
}

#[test]
fn quantity_must_be_positive_because_side_carries_direction() {
    let (instrument, outcome) = ids();
    assert!(
        Order::market(
            OrderId(1),
            instrument.clone(),
            outcome,
            Side::Buy,
            Qty::zero(),
            UnixNanos::new(0)
        )
        .is_err()
    );
    assert!(
        Order::market(
            OrderId(1),
            instrument,
            outcome,
            Side::Sell,
            Qty::from_raw(-1),
            UnixNanos::new(0)
        )
        .is_err()
    );
}

#[test]
fn fills_accumulate_and_close_the_order() {
    let (instrument, outcome) = ids();
    let mut order = Order::market(
        OrderId(1),
        instrument,
        outcome,
        Side::Buy,
        qy(10.0),
        UnixNanos::new(0),
    )
    .unwrap();
    order.record_fill(qy(4.0)).unwrap();
    assert_eq!(order.status, OrderStatus::PartiallyFilled);
    assert_eq!(order.remaining(), qy(6.0));
    assert!(order.is_open());

    order.record_fill(qy(6.0)).unwrap();
    assert_eq!(order.status, OrderStatus::Filled);
    assert_eq!(order.remaining(), Qty::zero());
    assert!(!order.is_open());
}

#[test]
fn overfilling_is_an_error_not_a_silent_clamp() {
    let (instrument, outcome) = ids();
    let mut order = Order::market(
        OrderId(1),
        instrument,
        outcome,
        Side::Buy,
        qy(5.0),
        UnixNanos::new(0),
    )
    .unwrap();
    assert!(order.record_fill(qy(6.0)).is_err());
}

#[test]
fn market_orders_have_no_limit_and_default_to_ioc() {
    let (instrument, outcome) = ids();
    let order = Order::market(
        OrderId(1),
        instrument,
        outcome,
        Side::Buy,
        qy(1.0),
        UnixNanos::new(0),
    )
    .unwrap();
    assert_eq!(order.limit_price(), None);
    assert_eq!(order.time_in_force, TimeInForce::ImmediateOrCancel);
}

#[test]
fn limit_orders_carry_their_cap_and_rest_by_default() {
    let (instrument, outcome) = ids();
    let order = Order::limit(
        OrderId(2),
        instrument,
        outcome,
        Side::Sell,
        px(0.6),
        qy(3.0),
        UnixNanos::new(0),
    )
    .unwrap()
    .with_tag("exit")
    .reduce_only();
    assert_eq!(order.limit_price(), Some(px(0.6)));
    assert_eq!(order.time_in_force, TimeInForce::GoodTilCancel);
    assert_eq!(order.tag.as_deref(), Some("exit"));
    assert!(order.reduce_only);
}
