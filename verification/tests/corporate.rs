use h5i_db_backtest::corporate::{CorporateAction, SymbolRegistry, Universe};
use h5i_db_backtest::instrument::InstrumentId;
use h5i_db_backtest::types::{Money, Price, Qty, UnixNanos, SCALE};
use h5i_db_backtest::window::TimeWindow;

fn px(value: f64) -> Price {
    Price::from_raw((value * SCALE as f64).round() as i64)
}

fn qy(value: f64) -> Qty {
    Qty::from_raw((value * SCALE as f64).round() as i64)
}

fn cash(value: f64) -> Money {
    Money::from_raw((value * SCALE as f64).round() as i64)
}

fn ts(value: i64) -> UnixNanos {
    UnixNanos::new(value)
}

fn id(name: &str) -> InstrumentId {
    InstrumentId::new(name).unwrap()
}

fn price(value: f64) -> Price {
    px(value)
}

fn qty(value: f64) -> Qty {
    qy(value)
}

// -- splits ------------------------------------------------------------

#[test]
fn a_two_for_one_split_doubles_shares_and_halves_the_basis() {
    let (quantity, basis) =
        CorporateAction::split_position(price(2.0), qty(100.0), price(50.0)).unwrap();
    assert_eq!(quantity, qty(200.0));
    assert_eq!(basis, price(25.0));
}

#[test]
fn a_reverse_split_goes_the_other_way() {
    let (quantity, basis) =
        CorporateAction::split_position(price(0.1), qty(1_000.0), price(2.0)).unwrap();
    assert_eq!(quantity, qty(100.0));
    assert_eq!(basis, price(20.0));
}

#[test]
fn a_split_leaves_position_value_unchanged() {
    // The invariant that makes a split a non-event economically.
    for ratio in [0.25, 0.5, 2.0, 3.0, 10.0] {
        let (quantity, basis) =
            CorporateAction::split_position(price(ratio), qty(120.0), price(45.0)).unwrap();
        let before = 120.0 * 45.0;
        let after = (quantity.raw() as f64 / SCALE as f64) * (basis.raw() as f64 / SCALE as f64);
        assert!(
            (before - after).abs() < 1e-6,
            "ratio {ratio}: {before} became {after}"
        );
    }
}

#[test]
fn a_short_position_splits_too() {
    let (quantity, _) =
        CorporateAction::split_position(price(2.0), qty(-50.0), price(50.0)).unwrap();
    assert_eq!(quantity, qty(-100.0));
}

#[test]
fn actions_validate_their_own_shape() {
    assert!(
        CorporateAction::Split { ratio: price(2.0) }
            .validate()
            .is_ok()
    );
    assert!(
        CorporateAction::Split { ratio: Price::zero() }
            .validate()
            .is_err()
    );
    assert!(
        CorporateAction::Dividend {
            per_share: cash(-1.0)
        }
        .validate()
        .is_err(),
        "a negative dividend would quietly drain an account"
    );
    assert!(
        CorporateAction::Delist {
            final_price: Price::zero()
        }
        .validate()
        .is_ok(),
        "a worthless delisting is a real outcome"
    );
}

// -- symbol identity ---------------------------------------------------

#[test]
fn a_ticker_resolves_to_whoever_held_it_at_the_time() {
    let mut registry = SymbolRegistry::new();
    registry.assign("XYZ", id("old-company"), ts(0)).unwrap();
    registry
        .assign("XYZ", id("new-company"), ts(1_000))
        .unwrap();

    assert_eq!(registry.resolve("XYZ", ts(500)).unwrap(), id("old-company"));
    assert_eq!(
        registry.resolve("XYZ", ts(1_500)).unwrap(),
        id("new-company")
    );
    // The handover instant belongs to the new holder: spans are
    // half-open, so there is no instant claimed by both.
    assert_eq!(
        registry.resolve("XYZ", ts(1_000)).unwrap(),
        id("new-company")
    );
    assert_eq!(registry.resolve("XYZ", ts(999)).unwrap(), id("old-company"));
}

#[test]
fn the_timeline_has_no_gaps_between_holders() {
    let mut registry = SymbolRegistry::new();
    registry.assign("T", id("a"), ts(0)).unwrap();
    registry.assign("T", id("b"), ts(100)).unwrap();
    registry.assign("T", id("c"), ts(200)).unwrap();
    // Every instant from 0 onward resolves to exactly one holder.
    for at in [0, 50, 99, 100, 150, 199, 200, 10_000] {
        assert!(registry.resolve("T", ts(at)).is_ok(), "gap at {at}");
    }
}

#[test]
fn an_ambiguous_lookup_without_a_date_is_refused() {
    // The silent alternative attributes one company's returns to
    // another, so this names the candidates instead of picking one.
    let mut registry = SymbolRegistry::new();
    registry.assign("XYZ", id("old-company"), ts(0)).unwrap();
    assert_eq!(registry.resolve_unique("XYZ").unwrap(), id("old-company"));

    registry
        .assign("XYZ", id("new-company"), ts(1_000))
        .unwrap();
    let error = registry.resolve_unique("XYZ").unwrap_err().message();
    assert!(error.contains("old-company"), "{error}");
    assert!(error.contains("new-company"), "{error}");
    assert!(error.contains("resolve it with a date"));
}

#[test]
fn an_unknown_ticker_is_an_error_not_an_empty_answer() {
    let registry = SymbolRegistry::new();
    assert!(registry.resolve("NOPE", ts(1)).is_err());
    assert!(registry.resolve_unique("NOPE").is_err());
}

#[test]
fn assignments_must_move_forward() {
    let mut registry = SymbolRegistry::new();
    registry.assign("T", id("a"), ts(100)).unwrap();
    assert!(
        registry.assign("T", id("b"), ts(50)).is_err(),
        "a ticker cannot be reassigned into the past"
    );
    assert!(registry.assign("T", id("b"), ts(100)).is_err());
}

#[test]
fn a_ticker_before_its_first_registration_resolves_to_nothing() {
    let mut registry = SymbolRegistry::new();
    registry.assign("T", id("a"), ts(1_000)).unwrap();
    let error = registry.resolve("T", ts(500)).unwrap_err().message();
    assert!(error.contains("referred to nothing"), "{error}");
}

// -- universe ----------------------------------------------------------

#[test]
fn universe_membership_is_a_span() {
    let mut universe = Universe::new();
    universe.add(id("a"), TimeWindow::new(ts(0), ts(100)).unwrap());
    universe.add(id("b"), TimeWindow::new(ts(50), ts(200)).unwrap());

    assert!(universe.contains(&id("a"), ts(50)));
    assert!(
        !universe.contains(&id("a"), ts(100)),
        "half-open at the end"
    );
    assert_eq!(universe.members_at(ts(75)), vec![id("a"), id("b")]);
    assert_eq!(universe.members_at(ts(150)), vec![id("b")]);
    assert!(universe.members_at(ts(500)).is_empty());
}

#[test]
fn an_instrument_can_leave_and_rejoin() {
    let mut universe = Universe::new();
    universe.add(id("a"), TimeWindow::new(ts(0), ts(100)).unwrap());
    universe.add(id("a"), TimeWindow::new(ts(300), ts(400)).unwrap());
    assert!(universe.contains(&id("a"), ts(50)));
    assert!(!universe.contains(&id("a"), ts(200)));
    assert!(universe.contains(&id("a"), ts(350)));
}

#[test]
fn a_ticker_one_company_held_all_along_is_unambiguous() {
    let mut registry = SymbolRegistry::new();
    registry.assign("T", id("a"), ts(0)).unwrap();
    registry.assign("T", id("a"), ts(10)).unwrap();
    assert_eq!(registry.resolve_unique("T").unwrap(), id("a"));
    registry.assign("T", id("b"), ts(20)).unwrap();
    registry.assign("T", id("a"), ts(30)).unwrap();
    let error = registry.resolve_unique("T").unwrap_err().message();
    assert!(error.contains("referred to 2 different instruments (a, b)"), "{error}");
}
