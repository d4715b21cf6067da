use h5i_db_backtest::instrument::{InstrumentId, OutcomeId};
use h5i_db_backtest::order::{Fill, OrderId};
use h5i_db_backtest::position::{Portfolio, Position};
use h5i_db_backtest::types::{Money, Price, Qty, Side, UnixNanos, SCALE};

fn px(value: f64) -> Price {
    Price::from_raw((value * SCALE as f64).round() as i64)
}

fn qy(value: f64) -> Qty {
    Qty::from_raw((value * SCALE as f64).round() as i64)
}

fn cash(value: f64) -> Money {
    Money::from_raw((value * SCALE as f64).round() as i64)
}

fn fill(side: Side, price: f64, quantity: f64, commission: f64) -> Fill {
    Fill {
        order_id: OrderId(1),
        instrument: InstrumentId::new("m").unwrap(),
        outcome: OutcomeId::first(),
        side,
        price: px(price),
        quantity: qy(quantity),
        commission: cash(commission),
        is_taker: true,
        ts: UnixNanos::new(0),
        tag: None,
    }
}

fn position() -> Position {
    Position::new(InstrumentId::new("m").unwrap(), OutcomeId::first())
}

fn money(value: f64) -> Money {
    cash(value)
}

#[test]
fn opening_sets_the_average_to_the_fill_price() {
    let mut p = position();
    p.apply(&fill(Side::Buy, 0.40, 100.0, 0.0)).unwrap();
    assert!(p.is_long());
    assert_eq!(p.average_price, px(0.40));
    assert_eq!(p.realized_pnl, Money::zero());
}

#[test]
fn adding_weights_the_average() {
    let mut p = position();
    p.apply(&fill(Side::Buy, 0.40, 100.0, 0.0)).unwrap();
    p.apply(&fill(Side::Buy, 0.50, 100.0, 0.0)).unwrap();
    assert_eq!(p.quantity, qy(200.0));
    assert_eq!(p.average_price, px(0.45));
    assert_eq!(p.realized_pnl, Money::zero(), "adding realizes nothing");
}

#[test]
fn reducing_a_long_realizes_the_difference() {
    let mut p = position();
    p.apply(&fill(Side::Buy, 0.40, 100.0, 0.0)).unwrap();
    p.apply(&fill(Side::Sell, 0.50, 40.0, 0.0)).unwrap();
    assert_eq!(p.quantity, qy(60.0));
    // 40 contracts * 0.10 gain
    assert_eq!(p.realized_pnl, money(4.0));
    assert_eq!(
        p.average_price,
        px(0.40),
        "reducing does not move the average"
    );
}

#[test]
fn reducing_a_short_realizes_the_opposite_sign() {
    let mut p = position();
    p.apply(&fill(Side::Sell, 0.60, 100.0, 0.0)).unwrap();
    assert!(p.is_short());
    p.apply(&fill(Side::Buy, 0.50, 100.0, 0.0)).unwrap();
    assert!(p.is_flat());
    // Sold at 0.60, bought back at 0.50: a gain for a short.
    assert_eq!(p.realized_pnl, money(10.0));
    assert_eq!(
        p.average_price,
        Price::zero(),
        "a flat position has no average"
    );
}

#[test]
fn reversing_through_zero_reprices_the_remainder() {
    // The case that is easy to get wrong: the new position must be priced at the fill, not at the old average.
    let mut p = position();
    p.apply(&fill(Side::Buy, 0.40, 100.0, 0.0)).unwrap();
    p.apply(&fill(Side::Sell, 0.50, 150.0, 0.0)).unwrap();
    assert!(p.is_short());
    assert_eq!(p.quantity, qy(-50.0));
    // Closed 100 at +0.10, and the remaining short opened at 0.50.
    assert_eq!(p.realized_pnl, money(10.0));
    assert_eq!(p.average_price, px(0.50));
}

#[test]
fn commissions_reduce_realized_pnl_and_are_tracked_separately() {
    let mut p = position();
    p.apply(&fill(Side::Buy, 0.40, 100.0, 0.5)).unwrap();
    p.apply(&fill(Side::Sell, 0.50, 100.0, 0.5)).unwrap();
    assert_eq!(p.commissions, money(1.0));
    assert_eq!(p.realized_pnl, money(9.0), "10 gross less 1 of commission");
}

#[test]
fn a_round_trip_at_the_same_price_realizes_nothing() {
    let mut p = position();
    p.apply(&fill(Side::Buy, 0.37, 250.0, 0.0)).unwrap();
    p.apply(&fill(Side::Sell, 0.37, 250.0, 0.0)).unwrap();
    assert!(p.is_flat());
    assert_eq!(p.realized_pnl, Money::zero());
}

#[test]
fn unrealized_pnl_needs_an_open_position() {
    let mut p = position();
    assert_eq!(
        p.unrealized_pnl(px(0.9)).unwrap(),
        Money::zero()
    );
    p.apply(&fill(Side::Buy, 0.40, 100.0, 0.0)).unwrap();
    assert_eq!(
        p.unrealized_pnl(px(0.55)).unwrap(),
        money(15.0)
    );
    p.apply(&fill(Side::Sell, 0.40, 200.0, 0.0)).unwrap();
    assert_eq!(
        p.unrealized_pnl(px(0.30)).unwrap(),
        money(10.0),
        "a short gains as the mark falls"
    );
}

#[test]
fn a_portfolio_is_a_fold_over_fills() {
    let fills = vec![
        fill(Side::Buy, 0.40, 100.0, 0.1),
        fill(Side::Sell, 0.50, 40.0, 0.1),
        fill(Side::Buy, 0.45, 10.0, 0.1),
    ];
    let replayed = Portfolio::replay(&fills).unwrap();

    let mut incremental = Portfolio::new();
    for f in &fills {
        incremental.apply(f).unwrap();
    }
    // Rebuilding from the fill log must equal applying them live: this
    // is what makes a stored run auditable.
    assert_eq!(
        replayed.realized_pnl().unwrap(),
        incremental.realized_pnl().unwrap()
    );
    assert_eq!(
        replayed.position(&InstrumentId::new("m").unwrap(), OutcomeId::first()),
        incremental.position(&InstrumentId::new("m").unwrap(), OutcomeId::first())
    );
}

#[test]
fn unmarked_positions_are_reported_not_valued_at_entry() {
    let mut portfolio = Portfolio::new();
    portfolio.apply(&fill(Side::Buy, 0.40, 100.0, 0.0)).unwrap();
    assert_eq!(portfolio.unrealized_pnl().unwrap(), Money::zero());
    assert_eq!(portfolio.unmarked().len(), 1);

    portfolio.mark(
        &InstrumentId::new("m").unwrap(),
        OutcomeId::first(),
        px(0.5),
    );
    assert_eq!(portfolio.unrealized_pnl().unwrap(), money(10.0));
    assert!(portfolio.unmarked().is_empty());
    assert_eq!(portfolio.gross_exposure().unwrap(), money(50.0));
}

#[test]
fn positions_are_keyed_by_outcome_not_just_instrument() {
    let mut portfolio = Portfolio::new();
    let mut yes = fill(Side::Buy, 0.40, 10.0, 0.0);
    let mut no = fill(Side::Buy, 0.60, 10.0, 0.0);
    no.outcome = OutcomeId(1);
    yes.outcome = OutcomeId(0);
    portfolio.apply(&yes).unwrap();
    portfolio.apply(&no).unwrap();
    assert_eq!(portfolio.open_positions().len(), 2);
    assert_eq!(
        portfolio
            .position(&InstrumentId::new("m").unwrap(), OutcomeId(1))
            .unwrap()
            .average_price,
        px(0.60)
    );
}
