use h5i_db_backtest::book::OrderBook;
use h5i_db_backtest::instrument::{Instrument, InstrumentId, OutcomeId};
use h5i_db_backtest::models::{
    BookFills, ConstantLatency, FeeContext, FeeModel, FillModel, KalshiFees, LatencyModel, NoFees,
    NoLatency, PredictionMarketFees, ProportionalFees, TickSlippage,
};
use h5i_db_backtest::order::{Order, OrderId};
use h5i_db_backtest::types::{Money, Price, Qty, Side, UnixNanos, SCALE};

fn px(value: f64) -> Price {
    Price::from_raw((value * SCALE as f64).round() as i64)
}

fn qy(value: f64) -> Qty {
    Qty::from_raw((value * SCALE as f64).round() as i64)
}

fn cash(value: f64) -> Money {
    Money::from_raw((value * SCALE as f64).round() as i64)
}

fn market() -> Instrument {
    Instrument::binary("m", "v").unwrap()
}

fn ctx<'a>(instrument: &'a Instrument, price: f64, qty: f64, is_taker: bool) -> FeeContext<'a> {
    FeeContext {
        order_id: OrderId(1),
        instrument,
        side: Side::Buy,
        price: px(price),
        quantity: qy(qty),
        is_taker,
        ts: UnixNanos::new(0),
    }
}

#[test]
fn prediction_market_fees_peak_at_even_odds() {
    let instrument = market();
    let mut fees = PredictionMarketFees::new(px(0.07));
    // 0.07 * 100 * 0.5 * 0.5 = 1.75
    let even = fees
        .commission(ctx(&instrument, 0.50, 100.0, true))
        .unwrap();
    assert_eq!(even, cash(1.75));

    // The same notional far from even odds costs much less.
    let tail = fees
        .commission(ctx(&instrument, 0.05, 100.0, true))
        .unwrap();
    assert_eq!(tail, cash(0.07 * 100.0 * 0.05 * 0.95));
    assert!(tail < even);
}

#[test]
fn prediction_market_fees_are_symmetric_about_a_half() {
    let instrument = market();
    let mut fees = PredictionMarketFees::new(px(0.07));
    let low = fees.commission(ctx(&instrument, 0.30, 10.0, true)).unwrap();
    let high = fees.commission(ctx(&instrument, 0.70, 10.0, true)).unwrap();
    assert_eq!(low, high, "p(1-p) is symmetric");
}

#[test]
fn kalshi_fees_apply_exchange_rounding() {
    let instrument = market();
    let mut fees = KalshiFees::new(px(0.07)).unwrap();

    // The raw fee is $0.0175. Kalshi first rounds it to a centicent, then
    // rounds the cash movement to a cent.
    assert_eq!(
        fees.commission(ctx(&instrument, 0.50, 1.0, true)).unwrap(),
        cash(0.02)
    );
}

#[test]
fn kalshi_fees_rebate_accumulated_partial_fill_rounding() {
    let instrument = market();
    let mut fees = KalshiFees::new(px(0.07)).unwrap();
    let mut total_raw = 0;

    for _ in 0..3 {
        total_raw += fees
            .commission(ctx(&instrument, 0.50, 0.3, true))
            .unwrap()
            .raw();
    }

    // Three independent cash movements would each round to one cent. The
    // per-order accumulator returns the excess once it reaches a cent.
    assert_eq!(Money::from_raw(total_raw), cash(0.02));

    fees.order_closed(OrderId(1));
    assert_eq!(
        fees.commission(ctx(&instrument, 0.50, 0.3, true)).unwrap(),
        cash(0.01)
    );

    let mut other_order = ctx(&instrument, 0.50, 0.3, true);
    other_order.order_id = OrderId(2);
    assert_eq!(
        fees.commission(other_order).unwrap(),
        cash(0.01)
    );
}

#[test]
fn fees_vanish_at_certainty() {
    let instrument = market();
    let mut fees = PredictionMarketFees::new(px(0.07));
    assert_eq!(
        fees.commission(ctx(&instrument, 1.0, 100.0, true)).unwrap(),
        Money::zero()
    );
    assert_eq!(
        fees.commission(ctx(&instrument, 0.0, 100.0, true)).unwrap(),
        Money::zero()
    );
}

#[test]
fn a_maker_rebate_is_a_negative_commission() {
    let instrument = market();
    let mut fees = PredictionMarketFees::new(px(0.07)).with_maker_rebate(px(0.25));
    let maker = fees
        .commission(ctx(&instrument, 0.5, 100.0, false))
        .unwrap();
    assert!(maker.is_negative(), "the venue pays the maker");
    assert_eq!(maker, cash(-0.4375));
    // Without a rebate configured a maker simply pays nothing.
    let mut plain = PredictionMarketFees::new(px(0.07));
    assert_eq!(
        plain
            .commission(ctx(&instrument, 0.5, 100.0, false))
            .unwrap(),
        Money::zero()
    );
}

#[test]
fn proportional_fees_charge_the_notional() {
    let instrument = Instrument::perpetual("p", "v").unwrap();
    let mut fees = ProportionalFees::new(px(0.0002), px(0.0005));
    // 0.0005 * (100 * 10) = 0.5
    assert_eq!(
        fees.commission(ctx(&instrument, 100.0, 10.0, true))
            .unwrap(),
        cash(0.5)
    );
    assert_eq!(
        fees.commission(ctx(&instrument, 100.0, 10.0, false))
            .unwrap(),
        cash(0.2)
    );
}

#[test]
fn no_fees_charges_nothing() {
    let instrument = market();
    assert_eq!(
        NoFees
            .commission(ctx(&instrument, 0.5, 1_000.0, true))
            .unwrap(),
        Money::zero()
    );
}

#[test]
fn slippage_rewrites_the_book_adverse_to_the_taker() {
    let mut book = OrderBook::new();
    book.apply_snapshot(
        &[(px(0.40), qy(10.0))],
        &[(px(0.42), qy(10.0))],
        UnixNanos::new(1),
    )
    .unwrap();
    let model = TickSlippage::new(2, px(0.01));

    let buy = Order::market(
        OrderId(1),
        InstrumentId::new("m").unwrap(),
        OutcomeId::first(),
        Side::Buy,
        qy(1.0),
        UnixNanos::new(1),
    )
    .unwrap();
    let synthetic = model.book_for_fill(&book, &buy).unwrap();
    assert_eq!(
        synthetic.best_ask().unwrap().0,
        px(0.44),
        "a buyer pays up"
    );
    assert_eq!(
        synthetic.best_bid().unwrap().0,
        px(0.40),
        "the side they are not taking is untouched"
    );

    let mut sell = buy.clone();
    sell.side = Side::Sell;
    let synthetic = model.book_for_fill(&book, &sell).unwrap();
    assert_eq!(
        synthetic.best_bid().unwrap().0,
        px(0.38),
        "a seller receives less"
    );
}

#[test]
fn zero_slippage_uses_the_real_book() {
    let book = OrderBook::new();
    let model = TickSlippage::new(0, px(0.01));
    let order = Order::market(
        OrderId(1),
        InstrumentId::new("m").unwrap(),
        OutcomeId::first(),
        Side::Buy,
        qy(1.0),
        UnixNanos::new(1),
    )
    .unwrap();
    assert!(model.book_for_fill(&book, &order).is_none());
}

#[test]
fn latency_models_report_their_delays() {
    assert_eq!(NoLatency.insert_nanos(), 0);
    let latency = ConstantLatency::millis(5, 10);
    assert_eq!(latency.insert_nanos(), 5_000_000);
    assert_eq!(latency.cancel_nanos(), 10_000_000);
}

#[test]
fn the_default_fill_model_does_not_assume_queue_priority() {
    // A print at your price does not prove your order was ahead of it.
    assert!(!BookFills.passive_fills_on_trade_at_price());
}

#[test]
fn kalshi_commissions_exceed_trade_fees_by_less_than_a_cent() {
    let instrument = market();
    let mut fees = KalshiFees::new(px(0.07)).unwrap();
    let mut charged = 0;
    let mut owed = 0;
    for size in [0.3, 1.7, 0.9, 2.2, 0.1] {
        charged += fees.commission(ctx(&instrument, 0.37, size, true)).unwrap().raw();
        // The curve, rounded up to a hundredth of a cent.
        let raw = (0.07 * size * 0.37 * 0.63 * 1e9_f64).round() as i64;
        owed += (raw + 99_999) / 100_000 * 100_000;
        assert!((0..10_000_000).contains(&(charged - owed)), "{charged} {owed}");
    }
}
