use h5i_db_backtest::account::{
    margin_requirement, margin_state, Account, CashMargin, LinearMargin, MarginModel,
    MarginRequirement, MarginState,
};
use h5i_db_backtest::currency::{Currency, FxBook, Haircuts};
use h5i_db_backtest::instrument::{Instrument, InstrumentId, InstrumentSet, OutcomeId};
use h5i_db_backtest::order::{Fill, OrderId};
use h5i_db_backtest::ordered::SortedMap;
use h5i_db_backtest::position::{Portfolio, PositionKey};
use h5i_db_backtest::types::{Money, Price, Qty, Side, UnixNanos, SCALE};

fn px(value: f64) -> Price {
    Price::from_raw((value * SCALE as f64).round() as i64)
}

fn qy(value: f64) -> Qty {
    Qty::from_raw((value * SCALE as f64).round() as i64)
}

fn cash(value: f64) -> Money {
    Money::from_raw((value * SCALE as f64).round() as i64)
}

fn usd() -> Currency {
    Currency::new("USD").unwrap()
}

fn eur() -> Currency {
    Currency::new("EUR").unwrap()
}

fn money(value: f64) -> Money {
    cash(value)
}

fn price(value: f64) -> Price {
    px(value)
}

fn qty(value: f64) -> Qty {
    qy(value)
}

fn perp() -> Instrument {
    Instrument::perpetual("BTC-PERP", "hyperliquid").unwrap()
}

fn fill(side: Side, price_value: f64, quantity: f64) -> Fill {
    Fill {
        order_id: OrderId(1),
        instrument: InstrumentId::new("BTC-PERP").unwrap(),
        outcome: OutcomeId::first(),
        side,
        price: price(price_value),
        quantity: qty(quantity),
        commission: Money::zero(),
        is_taker: true,
        ts: UnixNanos::new(0),
        tag: None,
    }
}

fn marks(value: f64) -> SortedMap<PositionKey, Price> {
    let mut out = SortedMap::new();
    out.insert(
        (InstrumentId::new("BTC-PERP").unwrap(), OutcomeId::first()),
        price(value),
    );
    out
}

/// Equity over the maintenance requirement, where there is one.
fn margin_ratio(state: &MarginState) -> Option<f64> {
    if state.maintenance.raw() == 0 {
        None
    } else {
        Some(state.equity.raw() as f64 / state.maintenance.raw() as f64)
    }
}

fn instruments() -> InstrumentSet {
    let mut set = InstrumentSet::new();
    set.insert(perp()).unwrap();
    set
}

// -- balances ----------------------------------------------------------

#[test]
fn balances_are_kept_per_currency() {
    let mut account = Account::cash(usd(), money(1_000.0));
    account.deposit(eur(), money(500.0));
    assert_eq!(account.balance(&usd()), money(1_000.0));
    assert_eq!(account.balance(&eur()), money(500.0));
    assert_eq!(account.balance(&Currency::new("JPY").unwrap()), Money::zero());
}

#[test]
fn cash_value_converts_what_it_can_and_names_what_it_cannot() {
    let mut account = Account::cash(usd(), money(1_000.0));
    account.deposit(eur(), money(100.0));
    let mut fx = FxBook::new();

    // Without a rate the EUR is excluded and reported, not counted as USD.
    let partial = account.cash_value(&fx).unwrap();
    assert_eq!(partial.total, money(1_000.0));
    assert_eq!(partial.unconvertible, vec![(eur(), money(100.0))]);
    assert!(!partial.is_complete());

    fx.set(eur(), usd(), price(1.10)).unwrap();
    let complete = account.cash_value(&fx).unwrap();
    assert_eq!(complete.total, money(1_110.0));
    assert!(complete.is_complete());
}

#[test]
fn collateral_applies_haircuts_but_debts_count_in_full() {
    let mut haircuts = Haircuts::new();
    haircuts.set(eur(), price(0.9)).unwrap();
    let mut account = Account::new(usd(), CashMargin).with_haircuts(haircuts);
    account.deposit(usd(), money(1_000.0));
    account.deposit(eur(), money(100.0));
    let mut fx = FxBook::new();
    fx.set(eur(), usd(), price(1.0)).unwrap();

    // 1000 USD at full value + 100 EUR haircut to 90.
    assert_eq!(account.collateral(&fx).unwrap().total, money(1_090.0));

    // A negative balance is a debt: no haircut softens it.
    let mut owing = Account::new(usd(), CashMargin);
    owing.deposit(usd(), money(-100.0));
    assert_eq!(owing.collateral(&fx).unwrap().total, money(-100.0));
}

// -- margin models -----------------------------------------------------

#[test]
fn a_cash_account_prepays_and_is_never_liquidatable() {
    let model = CashMargin;
    let instrument = perp();
    assert_eq!(
        model
            .initial_margin(&instrument, qty(2.0), price(100.0))
            .unwrap(),
        money(200.0)
    );
    assert_eq!(
        model
            .maintenance_margin(&instrument, qty(2.0), price(100.0))
            .unwrap(),
        Money::zero()
    );
}

#[test]
fn linear_margin_is_notional_over_leverage() {
    let model = LinearMargin::from_leverage(price(10.0)).unwrap();
    let instrument = perp();
    // 2 BTC at 100 = 200 notional; 10x leverage needs 20.
    assert_eq!(
        model
            .initial_margin(&instrument, qty(2.0), price(100.0))
            .unwrap(),
        money(20.0)
    );
    // Maintenance is half of initial by default.
    assert_eq!(
        model
            .maintenance_margin(&instrument, qty(2.0), price(100.0))
            .unwrap(),
        money(10.0)
    );
}

#[test]
fn a_short_requires_the_same_margin_as_a_long() {
    let model = LinearMargin::from_leverage(price(5.0)).unwrap();
    let instrument = perp();
    let long = model
        .initial_margin(&instrument, qty(3.0), price(50.0))
        .unwrap();
    let short = model
        .initial_margin(&instrument, qty(-3.0), price(50.0))
        .unwrap();
    assert_eq!(long, short);
}

#[test]
fn maintenance_above_initial_is_refused() {
    // A position that can be opened must not be instantly liquidatable.
    assert!(LinearMargin::new(price(0.05), price(0.10)).is_err());
    assert!(LinearMargin::new(price(0.10), price(0.05)).is_ok());
    assert!(LinearMargin::from_leverage(price(0.5)).is_err());
}

// -- requirement and state ---------------------------------------------

#[test]
fn requirement_sums_across_positions_and_names_unmarked_ones() {
    let portfolio = Portfolio::replay(&[fill(Side::Buy, 100.0, 2.0)]).unwrap();
    let model = LinearMargin::from_leverage(price(10.0)).unwrap();

    let with_mark = margin_requirement(
        &model,
        &portfolio.open_positions(),
        &instruments(),
        &marks(100.0),
    )
    .unwrap();
    assert_eq!(with_mark.initial, money(20.0));
    assert!(with_mark.unmarked.is_empty());

    let without = margin_requirement(
        &model,
        &portfolio.open_positions(),
        &instruments(),
        &SortedMap::new(),
    )
    .unwrap();
    assert_eq!(without.initial, Money::zero());
    assert_eq!(without.unmarked.len(), 1, "reported, not silently skipped");
}

#[test]
fn an_account_above_maintenance_is_not_liquidatable() {
    let account = Account::cash(usd(), money(100.0));
    let fx = FxBook::new();
    let requirement = MarginRequirement {
        initial: money(20.0),
        maintenance: money(10.0),
        unmarked: Vec::new(),
    };
    let state =
        margin_state(&account.collateral(&fx).unwrap(), Money::zero(), &requirement).unwrap();
    assert_eq!(state.equity, money(100.0));
    assert!(!state.liquidatable);
    assert_eq!(state.available(), money(80.0));
    assert_eq!(margin_ratio(&state).unwrap(), 10.0);
}

#[test]
fn losses_that_eat_the_maintenance_buffer_trigger_liquidation() {
    let account = Account::cash(usd(), money(20.0));
    let fx = FxBook::new();
    let requirement = MarginRequirement {
        initial: money(20.0),
        maintenance: money(10.0),
        unmarked: Vec::new(),
    };
    // A 15 loss leaves 5 of equity against a 10 requirement.
    let state = margin_state(
        &account.collateral(&fx).unwrap(),
        money(-15.0),
        &requirement,
    )
    .unwrap();
    assert_eq!(state.equity, money(5.0));
    assert!(state.liquidatable);
    assert!(margin_ratio(&state).unwrap() < 1.0);
}

#[test]
fn liquidation_is_never_declared_on_an_incomplete_valuation() {
    // Closing a book on a number known to be partial is worse than
    // waiting for the missing piece.
    let mut account = Account::cash(usd(), money(5.0));
    account.deposit(eur(), money(1_000.0));
    let fx = FxBook::new(); // no EUR rate
    let requirement = MarginRequirement {
        initial: money(20.0),
        maintenance: money(10.0),
        unmarked: Vec::new(),
    };
    let state =
        margin_state(&account.collateral(&fx).unwrap(), Money::zero(), &requirement).unwrap();
    assert!(state.incomplete);
    assert!(
        !state.liquidatable,
        "an unconvertible balance must not become a liquidation"
    );

    // The same is true of an unmarked position.
    let unmarked = MarginRequirement {
        initial: money(20.0),
        maintenance: money(10.0),
        unmarked: vec![(InstrumentId::new("x").unwrap(), OutcomeId::first())],
    };
    let state = margin_state(
        &Account::cash(usd(), money(1.0))
            .collateral(&FxBook::new())
            .unwrap(),
        Money::zero(),
        &unmarked,
    )
    .unwrap();
    assert!(state.incomplete);
    assert!(!state.liquidatable);
}

#[test]
fn a_cash_account_has_no_maintenance_and_so_no_liquidation() {
    let account = Account::cash(usd(), money(0.0));
    let requirement = MarginRequirement::default();
    let state = margin_state(
        &account.collateral(&FxBook::new()).unwrap(),
        money(-1_000.0),
        &requirement,
    )
    .unwrap();
    assert!(!state.liquidatable, "prepaid positions cannot be called");
    assert_eq!(margin_ratio(&state), None);
}
