use h5i_db_backtest::currency::{Currency, FxBook, FxError, Haircuts};
use h5i_db_backtest::types::{Money, Price, SCALE};

fn px(value: f64) -> Price {
    Price::from_raw((value * SCALE as f64).round() as i64)
}

fn cash(value: f64) -> Money {
    Money::from_raw((value * SCALE as f64).round() as i64)
}

fn usd() -> Currency {
    Currency::new("usd").unwrap()
}

fn eur() -> Currency {
    Currency::new("EUR").unwrap()
}

fn money(value: f64) -> Money {
    cash(value)
}

#[test]
fn currency_codes_normalise_and_validate() {
    assert_eq!(usd().as_str(), "USD", "codes upper-case");
    assert_eq!(Currency::new("  eur ").unwrap(), eur(), "and trim");
    assert!(Currency::new("").is_err());
    assert!(Currency::new("with space").is_err());
    assert!(Currency::new("waytoolongacode").is_err());
    // Crypto tickers with dots are real.
    assert!(Currency::new("USDC.e").is_ok());
}

#[test]
fn converting_to_the_same_currency_is_the_identity() {
    let book = FxBook::new();
    assert_eq!(
        book.convert(money(100.0), &usd(), &usd()).unwrap(),
        money(100.0)
    );
}

#[test]
fn a_known_rate_converts_both_ways() {
    let mut book = FxBook::new();
    book.set(eur(), usd(), px(1.10))
        .unwrap();
    assert_eq!(
        book.convert(money(100.0), &eur(), &usd()).unwrap(),
        money(110.0)
    );
    // The inverse is derived, not stored.
    let back = book.convert(money(110.0), &usd(), &eur()).unwrap();
    assert!(
        (back.raw() as f64 / SCALE as f64 - 100.0).abs() < 1e-6,
        "round trip gave {}",
        back.to_text()
    );
}

#[test]
fn an_unknown_rate_is_refused_rather_than_assumed_to_be_one() {
    // The failure this prevents: silently valuing EUR as USD.
    let book = FxBook::new();
    let error = book.convert(money(100.0), &eur(), &usd()).unwrap_err();
    assert_eq!(
        error,
        FxError::NoRate {
            from: eur(),
            to: usd()
        }
    );
    assert!(error.message().contains("must not be assumed equal"));
}

#[test]
fn a_later_rate_replaces_an_earlier_one() {
    let mut book = FxBook::new();
    book.set(eur(), usd(), px(1.10))
        .unwrap();
    book.set(eur(), usd(), px(1.20))
        .unwrap();
    assert_eq!(
        book.convert(money(100.0), &eur(), &usd()).unwrap(),
        money(120.0)
    );
}

#[test]
fn a_non_positive_rate_is_refused() {
    let mut book = FxBook::new();
    assert!(book.set(eur(), usd(), Price::zero()).is_err());
    assert!(
        book.set(eur(), usd(), px(-1.0))
            .is_err()
    );
}

#[test]
fn haircuts_discount_collateral_and_default_to_full_value() {
    let mut haircuts = Haircuts::new();
    haircuts.set(eur(), px(0.9)).unwrap();
    assert_eq!(haircuts.apply(money(100.0), &eur()).unwrap(), money(90.0));
    // An unlisted currency counts in full rather than at zero.
    assert_eq!(haircuts.apply(money(100.0), &usd()).unwrap(), money(100.0));
}

#[test]
fn a_haircut_outside_zero_to_one_is_refused() {
    let mut haircuts = Haircuts::new();
    assert!(haircuts.set(usd(), Price::zero()).is_err());
    assert!(haircuts.set(usd(), px(1.5)).is_err());
    assert!(haircuts.set(usd(), px(1.0)).is_ok());
}
