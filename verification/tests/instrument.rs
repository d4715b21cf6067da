use h5i_db_backtest::error::BacktestError;
use h5i_db_backtest::instrument::{Instrument, InstrumentId, InstrumentSet, OutcomeId};
use h5i_db_backtest::types::{Price, SCALE};

fn px(value: f64) -> Price {
    Price::from_raw((value * SCALE as f64).round() as i64)
}

#[test]
fn a_prediction_market_needs_at_least_two_outcomes() {
    assert!(Instrument::prediction_market("m", "v", vec!["ONLY".into()]).is_err());
    assert!(Instrument::binary("m", "v").is_ok());
}

#[test]
fn categorical_markets_are_the_general_case() {
    let market = Instrument::prediction_market(
        "election-2028",
        "polymarket",
        vec!["A".into(), "B".into(), "C".into(), "other".into()],
    )
    .unwrap();
    assert_eq!(market.outcome_count(), 4);
    assert_eq!(market.outcome(OutcomeId(2)).unwrap(), "C");
    let err = market.outcome(OutcomeId(9)).unwrap_err();
    assert!(matches!(
        err,
        BacktestError::UnknownOutcome { count: 4, .. }
    ));
}

#[test]
fn binary_is_just_two_outcomes() {
    let market = Instrument::binary("will-it-rain", "kalshi").unwrap();
    assert_eq!(market.outcome_count(), 2);
    assert_eq!(market.outcome(OutcomeId::first()).unwrap(), "YES");
    assert_eq!(market.outcome(OutcomeId(1)).unwrap(), "NO");
}

#[test]
fn probability_prices_are_bounded() {
    let market = Instrument::binary("m", "v").unwrap();
    assert!(market.check_price(px(0.5)).is_ok());
    assert!(market.check_price(px(0.0)).is_ok());
    assert!(market.check_price(px(1.0)).is_ok());
    assert!(market.check_price(px(1.5)).is_err());
    assert!(market.check_price(px(-0.1)).is_err());
}

#[test]
fn off_grid_prices_are_refused() {
    let market = Instrument::binary("m", "v").unwrap();
    // Tick is 0.0001; 0.00005 is half a tick.
    let off_grid = px(0.00005);
    assert!(market.check_price(off_grid).is_err());
    assert_eq!(market.round_to_tick(off_grid), Price::from_raw(0));
    let on_grid = market.round_to_tick(px(0.37129));
    assert!(market.check_price(on_grid).is_ok());
}

#[test]
fn completeness_error_measures_the_deviation_from_one() {
    let market =
        Instrument::prediction_market("m", "v", vec!["A".into(), "B".into(), "C".into()])
            .unwrap();
    let exact = [
        px(0.5),
        px(0.3),
        px(0.2),
    ];
    assert_eq!(market.completeness_error(&exact).unwrap(), Price::zero());

    let rich = [
        px(0.55),
        px(0.3),
        px(0.2),
    ];
    assert_eq!(
        market.completeness_error(&rich).unwrap(),
        px(0.05)
    );
    assert!(market.completeness_error(&exact[..2]).is_err());
}

#[test]
fn instrument_set_refuses_duplicates_and_iterates_deterministically() {
    let mut set = InstrumentSet::new();
    set.insert(Instrument::binary("b", "v").unwrap()).unwrap();
    set.insert(Instrument::binary("a", "v").unwrap()).unwrap();
    assert!(set.insert(Instrument::binary("a", "v").unwrap()).is_err());
    assert_eq!(
        set.ids().iter().map(|i| i.as_str()).collect::<Vec<_>>(),
        vec!["a", "b"]
    );
    assert!(set.get(&InstrumentId::new("missing").unwrap()).is_err());
}
