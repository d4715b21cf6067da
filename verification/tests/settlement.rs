use h5i_db_backtest::instrument::{Instrument, InstrumentId, InstrumentSet, OutcomeId};
use h5i_db_backtest::order::{Fill, OrderId};
use h5i_db_backtest::ordered::SortedMap;
use h5i_db_backtest::position::Portfolio;
use h5i_db_backtest::settlement::{settle, settlement_proceeds, validate_resolutions, Payout, Resolution};
use h5i_db_backtest::types::{Money, Price, Qty, Side, UnixNanos, SCALE};

fn px(value: f64) -> Price {
    Price::from_raw((value * SCALE as f64).round() as i64)
}

fn qy(value: f64) -> Qty {
    Qty::from_raw((value * SCALE as f64).round() as i64)
}

fn cash(value: f64) -> Money {
    Money::from_raw((value * SCALE as f64).round() as i64)
}

fn instrument() -> InstrumentId {
    InstrumentId::new("market").unwrap()
}

fn fill(outcome: OutcomeId, side: Side, price: f64, quantity: f64) -> Fill {
    Fill {
        order_id: OrderId(1),
        instrument: instrument(),
        outcome,
        side,
        price: px(price),
        quantity: qy(quantity),
        commission: Money::zero(),
        is_taker: true,
        ts: UnixNanos::new(0),
        tag: None,
    }
}

fn ts(value: i64) -> UnixNanos {
    UnixNanos::new(value)
}

fn money(value: f64) -> Money {
    cash(value)
}

/// Long 100 YES at 0.40.
fn open_long() -> Portfolio {
    Portfolio::replay(&[fill(OutcomeId::first(), Side::Buy, 0.40, 100.0)]).unwrap()
}

#[test]
fn a_winning_position_settles_at_one() {
    let portfolio = open_long();
    let resolution = Resolution::new(instrument(), OutcomeId::first(), ts(1_000));
    let report = settle(&portfolio, &[resolution], Some(ts(2_000)), &SortedMap::new()).unwrap();
    assert!(report.was_applied());
    assert_eq!(report.settled.len(), 1);
    // 100 contracts bought at 0.40, worth 1.00 each: +60.
    assert_eq!(report.settled[0].settled_pnl, money(60.0));
    assert!(report.unsettled.is_empty());
}

#[test]
fn a_losing_position_settles_at_zero() {
    let portfolio = open_long();
    // Outcome 1 won; the position is in outcome 0.
    let resolution = Resolution::new(instrument(), OutcomeId(1), ts(1_000));
    let report = settle(&portfolio, &[resolution], Some(ts(2_000)), &SortedMap::new()).unwrap();
    assert_eq!(report.settled[0].settled_pnl, money(-40.0));
}

#[test]
fn settlement_is_refused_when_the_run_stopped_before_resolution() {
    // The headline guarantee: a short replay of a long market must not
    // book resolution profit.
    let portfolio = open_long();
    let resolution = Resolution::new(instrument(), OutcomeId::first(), ts(10_000));
    let report = settle(&portfolio, &[resolution], Some(ts(2_000)), &SortedMap::new()).unwrap();
    assert!(!report.was_applied());
    assert_eq!(report.total_adjustment, Money::zero());
    assert_eq!(report.unsettled.len(), 1);
    assert!(report.unsettled[0].2.contains("resolved at 10000"));
    assert!(!report.warnings().is_empty());
}

#[test]
fn settlement_at_exactly_the_observable_instant_counts() {
    let portfolio = open_long();
    let resolution = Resolution::new(instrument(), OutcomeId::first(), ts(5_000));
    let report = settle(&portfolio, &[resolution], Some(ts(5_000)), &SortedMap::new()).unwrap();
    assert!(report.was_applied());
}

#[test]
fn a_run_that_does_not_know_how_far_it_got_settles_nothing() {
    let portfolio = open_long();
    let resolution = Resolution::new(instrument(), OutcomeId::first(), ts(1));
    let report = settle(&portfolio, &[resolution], None, &SortedMap::new()).unwrap();
    assert!(!report.was_applied());
    assert!(report.unsettled[0].2.contains("how far it simulated"));
}

#[test]
fn the_adjustment_against_the_last_mark_is_explicit() {
    let portfolio = open_long();
    let mut marks = SortedMap::new();
    // Last seen at 0.90: the position was already showing +50.
    marks.insert(
        (instrument(), OutcomeId::first()),
        px(0.90),
    );
    let resolution = Resolution::new(instrument(), OutcomeId::first(), ts(1_000));
    let report = settle(&portfolio, &[resolution], Some(ts(2_000)), &marks).unwrap();
    let settled = &report.settled[0];
    assert_eq!(settled.market_exit_pnl, Some(money(50.0)));
    assert_eq!(settled.settled_pnl, money(60.0));
    assert_eq!(
        settled.adjustment,
        money(10.0),
        "only the last leg is attributed to settlement"
    );
    assert_eq!(report.total_adjustment, money(10.0));
}

#[test]
fn a_market_with_no_resolution_is_left_open_and_named() {
    let portfolio = open_long();
    let report = settle(&portfolio, &[], Some(ts(9_999)), &SortedMap::new()).unwrap();
    assert!(!report.was_applied());
    assert!(report.unsettled[0].2.contains("no resolution"));
}

#[test]
fn flat_positions_are_not_settled() {
    let portfolio = Portfolio::replay(&[
        fill(OutcomeId::first(), Side::Buy, 0.40, 100.0),
        fill(OutcomeId::first(), Side::Sell, 0.60, 100.0),
    ])
    .unwrap();
    let resolution = Resolution::new(instrument(), OutcomeId::first(), ts(1));
    let report = settle(&portfolio, &[resolution], Some(ts(2)), &SortedMap::new()).unwrap();
    assert!(report.settled.is_empty());
    assert!(report.unsettled.is_empty());
}

#[test]
fn a_short_settles_the_other_way() {
    let portfolio =
        Portfolio::replay(&[fill(OutcomeId::first(), Side::Sell, 0.40, 100.0)]).unwrap();
    let resolution = Resolution::new(instrument(), OutcomeId::first(), ts(1));
    let report = settle(&portfolio, &[resolution], Some(ts(2)), &SortedMap::new()).unwrap();
    // Sold at 0.40 what settled at 1.00: a 60 loss.
    assert_eq!(report.settled[0].settled_pnl, money(-60.0));
}

#[test]
fn every_outcome_of_a_categorical_market_settles_together() {
    let portfolio = Portfolio::replay(&[
        fill(OutcomeId(0), Side::Buy, 0.50, 10.0),
        fill(OutcomeId(1), Side::Buy, 0.30, 10.0),
        fill(OutcomeId(2), Side::Buy, 0.20, 10.0),
    ])
    .unwrap();
    let resolution = Resolution::new(instrument(), OutcomeId(1), ts(1));
    let report = settle(&portfolio, &[resolution], Some(ts(2)), &SortedMap::new()).unwrap();
    assert_eq!(report.settled.len(), 3);
    let total: i64 = report.settled.iter().map(|s| s.settled_pnl.raw()).sum();
    // Paid 0.50 + 0.30 + 0.20 = 1.00 per set, received 1.00: flat.
    assert_eq!(Money::from_raw(total), Money::zero());
}

#[test]
fn duplicate_resolutions_are_refused() {
    let portfolio = open_long();
    let resolutions = vec![
        Resolution::new(instrument(), OutcomeId::first(), ts(1)),
        Resolution::new(instrument(), OutcomeId(1), ts(1)),
    ];
    assert!(settle(&portfolio, &resolutions, Some(ts(2)), &SortedMap::new()).is_err());
}

#[test]
fn a_voided_binary_refunds_a_complete_set_at_cost() {
    // The case a winner-only model gets wrong by the full notional:
    // 100 YES bought at 0.40, market voided, each side pays 0.50.
    let portfolio = open_long();
    let resolution = Resolution::void(instrument(), 2, ts(1_000)).unwrap();
    let report = settle(&portfolio, &[resolution], Some(ts(2_000)), &SortedMap::new()).unwrap();
    assert_eq!(report.settled[0].settled_pnl, money(10.0));
}

#[test]
fn a_void_conserves_a_complete_set_however_many_outcomes() {
    // Three-way void: 1/3 each, and a set bought for exactly one comes
    // back for exactly one despite a third being inexact in fixed point.
    let portfolio = Portfolio::replay(&[
        fill(OutcomeId(0), Side::Buy, 0.50, 30.0),
        fill(OutcomeId(1), Side::Buy, 0.30, 30.0),
        fill(OutcomeId(2), Side::Buy, 0.20, 30.0),
    ])
    .unwrap();
    let resolution = Resolution::void(instrument(), 3, ts(1)).unwrap();
    let report = settle(&portfolio, &[resolution], Some(ts(2)), &SortedMap::new()).unwrap();
    let total: i64 = report.settled.iter().map(|s| s.settled_pnl.raw()).sum();
    assert_eq!(
        Money::from_raw(total),
        Money::zero(),
        "a refunded set must return exactly what it cost"
    );
}

#[test]
fn a_scalar_market_settles_between_the_bounds() {
    let portfolio = open_long();
    let resolution = Resolution::split(
        instrument(),
        vec![
            px(0.70),
            px(0.30),
        ],
        ts(1),
    )
    .unwrap();
    let report = settle(&portfolio, &[resolution], Some(ts(2)), &SortedMap::new()).unwrap();
    // 100 bought at 0.40, settled at 0.70.
    assert_eq!(report.settled[0].settled_pnl, money(30.0));
}

#[test]
fn a_split_that_does_not_sum_to_one_is_refused() {
    let short = Resolution::split(
        instrument(),
        vec![
            px(0.70),
            px(0.20),
        ],
        ts(1),
    );
    assert!(short.is_err(), "0.9 of a dollar would burn cash");
    let long = Resolution::split(
        instrument(),
        vec![
            px(0.70),
            px(0.40),
        ],
        ts(1),
    );
    assert!(long.is_err(), "1.1 of a dollar would mint cash");
    assert!(Resolution::split(instrument(), vec![Price::from_raw(SCALE)], ts(1)).is_err());
}

#[test]
fn a_one_hot_split_reads_back_as_a_winner() {
    let resolution = Resolution::split(
        instrument(),
        vec![Price::zero(), Price::from_raw(SCALE)],
        ts(1),
    )
    .unwrap();
    assert_eq!(resolution.winner(), Some(OutcomeId(1)));
    assert_eq!(
        Resolution::new(instrument(), OutcomeId(1), ts(1)).winner(),
        Some(OutcomeId(1))
    );
    assert_eq!(
        Resolution::void(instrument(), 2, ts(1)).unwrap().winner(),
        None
    );
    let scalar = Resolution::split(
        instrument(),
        vec![
            px(0.70),
            px(0.30),
        ],
        ts(1),
    )
    .unwrap();
    assert_eq!(scalar.winner(), None, "a scalar settlement has no winner");
}

#[test]
fn a_void_is_not_scored_as_a_forecast() {
    // Every forecast scores the same against a 50-50, so including them flatters or dilutes the
    // sample without measuring anything.
    assert!(!Payout::Void { outcomes: 2 }.is_informative());
    assert!(Payout::Winner(OutcomeId::first()).is_informative());
    assert!(
        !Payout::Split(vec![
            px(0.5),
            px(0.5)
        ])
        .is_informative()
    );
    assert!(
        Payout::Split(vec![
            px(0.7),
            px(0.3)
        ])
        .is_informative()
    );
}

#[test]
fn a_resolution_that_disagrees_with_its_market_is_refused() {
    let market =
        Instrument::prediction_market("market", "v", vec!["A".into(), "B".into(), "C".into()])
            .unwrap();
    let mut set = InstrumentSet::new();
    set.insert(market).unwrap();

    // A winner the market does not have.
    let stray = Resolution::new(instrument(), OutcomeId(7), ts(1));
    assert!(validate_resolutions(&[stray], &set).is_err());

    // A payout vector of the wrong arity.
    let wrong_arity = Resolution::split(
        instrument(),
        vec![px(0.6), px(0.4)],
        ts(1),
    )
    .unwrap();
    assert!(validate_resolutions(&[wrong_arity], &set).is_err());

    let void_arity = Resolution::void(instrument(), 2, ts(1)).unwrap();
    assert!(validate_resolutions(&[void_arity], &set).is_err());

    let good = Resolution::new(instrument(), OutcomeId(2), ts(1));
    assert!(validate_resolutions(&[good], &set).is_ok());

    // A resolution for a market this run never loaded is not an error.
    let elsewhere = Resolution::new(InstrumentId::new("other").unwrap(), OutcomeId(9), ts(1));
    assert!(validate_resolutions(&[elsewhere], &set).is_ok());
}

#[test]
fn proceeds_are_quantity_times_the_settlement_price() {
    assert_eq!(
        settlement_proceeds(qy(100.0), Price::from_raw(SCALE)).unwrap(),
        money(100.0)
    );
    assert_eq!(
        settlement_proceeds(qy(100.0), Price::zero()).unwrap(),
        Money::zero()
    );
}
