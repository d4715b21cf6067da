use h5i_db_backtest::account::{LinearMargin, MarginModel};
use h5i_db_backtest::book::{BookDelta, OrderBook};
use h5i_db_backtest::builder::PlainEngine;
use h5i_db_backtest::clock::TimeEvent;
use h5i_db_backtest::error::BacktestError;
use h5i_db_backtest::event::{MarketEvent, Record};
use h5i_db_backtest::instrument::{
    normalise_to_one, uniform_prices, Instrument, InstrumentId, InstrumentSet, OutcomeId,
};
use h5i_db_backtest::market::{key_for, Market};
use h5i_db_backtest::metrics::{LiquidationPolicy, MarkSource};
use h5i_db_backtest::models::{FeeContext, FeeModel, FeeTier, TieredFees};
use h5i_db_backtest::order::{Fill, Order, OrderId};
use h5i_db_backtest::replay::{priority, ListSource, Replay};
use h5i_db_backtest::request::OrderRequest;
use h5i_db_backtest::strategy::{Context, SignalReplay, Strategy};
use h5i_db_backtest::types::{notional, Money, Price, Qty, Side, Stamps, UnixNanos, SCALE};

fn px(value: f64) -> Price {
    Price::from_raw((value * SCALE as f64).round() as i64)
}

fn qy(value: f64) -> Qty {
    Qty::from_raw((value * SCALE as f64).round() as i64)
}

fn cash(value: f64) -> Money {
    Money::from_raw((value * SCALE as f64).round() as i64)
}

fn ts(value: i64) -> UnixNanos {
    UnixNanos::new(value)
}

fn id(name: &str) -> InstrumentId {
    InstrumentId::new(name).unwrap()
}

#[test]
fn a_notional_is_off_by_at_most_half_a_unit() {
    for (price, quantity) in [(1, SCALE / 2 - 1), (1, SCALE / 2 + 1), (3, SCALE / 2), (-7, 5)] {
        let exact = price as i128 * quantity as i128;
        let rounded = notional(Price(price), Qty(quantity)).unwrap().raw() as i128;
        assert!((rounded * SCALE as i128 - exact).abs() * 2 <= SCALE as i128);
    }
}

#[test]
fn updates_at_different_prices_commute() {
    let a = BookDelta::set(Side::Buy, px(0.41), qy(5.0));
    let b = BookDelta::delete(Side::Buy, px(0.40));
    let book = |first: BookDelta, second: BookDelta| {
        let mut book = OrderBook::new();
        book.apply_snapshot(&[(px(0.40), qy(1.0)), (px(0.39), qy(2.0))], &[], ts(1)).unwrap();
        book.apply_delta("m", first, ts(2)).unwrap();
        book.apply_delta("m", second, ts(3)).unwrap();
        book.levels(Side::Buy)
    };
    assert_eq!(book(a, b), book(b, a));
    assert_eq!(book(a, b), vec![(px(0.41), qy(5.0)), (px(0.39), qy(2.0))]);
}

#[test]
fn shares_always_sum_to_one() {
    let thirds = normalise_to_one(&[Price(1), Price(1), Price(1)]).unwrap();
    assert_eq!(thirds.iter().map(|p| p.raw()).sum::<i64>(), SCALE);
    let even = uniform_prices(7).unwrap();
    assert_eq!(even.len(), 7);
    assert_eq!(even.iter().map(|p| p.raw()).sum::<i64>(), SCALE);
    assert!(uniform_prices(0).is_err());
    assert!(normalise_to_one(&[Price(0), Price(0)]).is_err());
}

#[test]
fn maintenance_never_exceeds_the_initial_requirement() {
    let model = LinearMargin::from_leverage(px(3.0)).unwrap();
    let instrument = Instrument::perpetual("p", "v").unwrap();
    for quantity in [0.000000001, 1.5, 700.0] {
        let initial = model.initial_margin(&instrument, qy(quantity), px(99.9)).unwrap();
        let maintenance = model.maintenance_margin(&instrument, qy(quantity), px(99.9)).unwrap();
        assert!(maintenance <= initial);
    }
}

fn context(instrument: &Instrument, at: i64) -> FeeContext<'_> {
    FeeContext {
        order_id: OrderId(1),
        instrument,
        side: Side::Buy,
        price: px(100.0),
        quantity: qy(10.0),
        is_taker: true,
        ts: ts(at),
    }
}

#[test]
fn a_tier_depends_on_the_volume_of_the_window_alone() {
    let tiers = vec![
        FeeTier { volume_from: cash(0.0), maker: px(0.0), taker: px(0.001) },
        FeeTier { volume_from: cash(1_500.0), maker: px(0.0), taker: px(0.0005) },
    ];
    let instrument = Instrument::perpetual("p", "v").unwrap();
    let mut fees = TieredFees::new(tiers, 100).unwrap();
    let charged: Vec<Money> = [0, 10, 20, 500]
        .iter()
        .map(|at| fees.commission(context(&instrument, *at)).unwrap())
        .collect();
    assert_eq!(charged, vec![cash(1.0), cash(1.0), cash(0.5), cash(1.0)]);
    assert_eq!(fees.tier_for(cash(1_500.0)).taker, px(0.0005));
    assert_eq!(fees.tier_for(cash(1_499.0)).taker, px(0.001));
}

#[test]
fn a_fee_schedule_must_start_at_nothing() {
    let tier = |from: f64| FeeTier { volume_from: cash(from), maker: px(0.0), taker: px(0.001) };
    assert!(TieredFees::new(vec![], 100).is_err());
    assert!(TieredFees::new(vec![tier(0.0)], 0).is_err());
    assert!(TieredFees::new(vec![tier(5.0)], 100).is_err());
    assert!(TieredFees::new(vec![tier(0.0), tier(0.0)], 100).is_err());
}

#[test]
fn an_order_is_never_filled_beyond_its_size() {
    let mut order =
        Order::market(OrderId(1), id("m"), OutcomeId::first(), Side::Buy, qy(5.0), ts(0)).unwrap();
    order.record_fill(qy(3.0)).unwrap();
    assert!(order.record_fill(qy(3.0)).is_err());
    assert_eq!(order.filled, qy(3.0));
    assert_eq!(order.remaining(), qy(2.0));
}

// -- whole runs ------------------------------------------------------------------

fn snapshot_of(name: &str, at: i64, bid: f64, ask: f64) -> Record {
    Record::new(
        Stamps::immediate(ts(at)),
        id(name),
        OutcomeId::first(),
        MarketEvent::BookSnapshot {
            bids: vec![(px(bid), qy(1_000.0))],
            asks: vec![(px(ask), qy(1_000.0))],
        },
    )
}

fn replay(records: Vec<Record>) -> Replay<ListSource> {
    Replay::<ListSource>::builder().stream("book", priority::SNAPSHOT, records).build().unwrap()
}

fn perps() -> InstrumentSet {
    let mut set = InstrumentSet::new();
    for name in ["cross", "alone"] {
        set.insert(Instrument::perpetual(name, "v").unwrap()).unwrap();
    }
    set
}

fn buy(name: &str, quantity: f64) -> OrderRequest {
    OrderRequest::market(id(name), OutcomeId::first(), Side::Buy, qy(quantity))
}

#[test]
fn an_isolated_call_does_not_reach_the_cross_account() {
    let records = vec![
        snapshot_of("cross", 1_000, 100.0, 100.0),
        snapshot_of("alone", 1_000, 100.0, 100.0),
        snapshot_of("alone", 2_000, 100.0, 100.0),
        snapshot_of("alone", 3_000, 80.0, 80.0),
    ];
    let signals =
        SignalReplay::new(vec![(ts(1_500), buy("cross", 1.0)), (ts(1_500), buy("alone", 1.0))])
            .unwrap();
    let mut engine = PlainEngine::builder(perps())
        .starting_cash(cash(1_000.0))
        .margin_model(LinearMargin::from_leverage(px(10.0)).unwrap())
        .isolate(id("alone"))
        .build();
    let mut strategy = signals;
    let result = engine.run(&mut replay(records), &mut strategy).unwrap();
    assert_eq!(result.liquidations.len(), 1);
    assert_eq!(result.liquidations[0].instrument, id("alone"));
    let held = |name: &str| {
        engine.portfolio().position(&id(name), OutcomeId::first()).unwrap().quantity
    };
    assert_eq!(held("alone"), qy(0.0));
    assert_eq!(held("cross"), qy(1.0));
}

#[test]
fn a_partial_call_closes_only_what_it_must() {
    let run = |policy: LiquidationPolicy| {
        let records = vec![
            snapshot_of("cross", 1_000, 100.0, 100.0),
            snapshot_of("cross", 2_000, 100.0, 100.0),
            snapshot_of("cross", 3_000, 93.0, 93.0),
        ];
        let mut engine = PlainEngine::builder(perps())
            .starting_cash(cash(101.0))
            .margin_model(LinearMargin::from_leverage(px(10.0)).unwrap())
            .liquidation_policy(policy)
            .build();
        let mut strategy = SignalReplay::new(vec![(ts(1_500), buy("cross", 10.0))]).unwrap();
        engine.run(&mut replay(records), &mut strategy).unwrap();
        engine.portfolio().position(&id("cross"), OutcomeId::first()).unwrap().quantity
    };
    assert_eq!(run(LiquidationPolicy::CloseAll), qy(0.0));
    let left = run(LiquidationPolicy::Partial);
    assert!(left > qy(0.0) && left < qy(10.0), "{left:?}");
}

/// Offers, then bids into its own offer.
struct Crosser {
    step: usize,
}

impl Strategy for Crosser {
    fn on_event(&mut self, ctx: &mut Context<'_>, _record: &Record) -> Result<(), BacktestError> {
        self.step += 1;
        match self.step {
            1 => ctx.submit(buy("cross", 10.0)),
            2 => ctx.submit(OrderRequest::limit(
                id("cross"),
                OutcomeId::first(),
                Side::Sell,
                px(101.0),
                qy(5.0),
            )),
            3 => ctx.submit(OrderRequest::limit(
                id("cross"),
                OutcomeId::first(),
                Side::Buy,
                px(101.0),
                qy(5.0),
            )),
            _ => {}
        }
        Ok(())
    }

    fn on_start(&mut self, _ctx: &mut Context<'_>) -> Result<(), BacktestError> {
        Ok(())
    }

    fn on_timer(&mut self, _ctx: &mut Context<'_>, _event: &TimeEvent) -> Result<(), BacktestError> {
        Ok(())
    }

    fn on_fill(&mut self, _ctx: &mut Context<'_>, _fill: &Fill) -> Result<(), BacktestError> {
        Ok(())
    }

    fn on_stop(&mut self, _ctx: &mut Context<'_>) -> Result<(), BacktestError> {
        Ok(())
    }
}

#[test]
fn an_account_does_not_trade_with_itself() {
    let records: Vec<Record> =
        (1..6).map(|step| snapshot_of("cross", 1_000 * step, 100.0, 102.0)).collect();
    let mut engine = PlainEngine::builder(perps()).starting_cash(cash(10_000.0)).build();
    let result = engine.run(&mut replay(records), &mut Crosser { step: 0 }).unwrap();
    assert_eq!(result.self_trades_prevented, 1);
    assert_eq!(result.fills.len(), 1);
}

#[test]
fn every_order_a_client_is_sent_is_in_its_log() {
    let records: Vec<Record> =
        (1..4).map(|step| snapshot_of("cross", 1_000 * step, 100.0, 102.0)).collect();
    let mut engine = PlainEngine::builder(perps()).starting_cash(cash(10_000.0)).build();
    let mut strategy = SignalReplay::new(vec![(ts(1_500), buy("cross", 1.0))]).unwrap();
    engine.run(&mut replay(records), &mut strategy).unwrap();
    assert_eq!(engine.execution().log().len(), 1);
    assert_eq!(engine.execution().fingerprint().len(), 1);
}

#[test]
fn fills_come_at_the_times_of_records_and_in_order() {
    let records: Vec<Record> =
        (1..8).map(|step| snapshot_of("cross", 1_000 * step, 100.0, 102.0)).collect();
    let mut engine = PlainEngine::builder(perps()).starting_cash(cash(10_000.0)).build();
    let mut strategy = SignalReplay::new(vec![
        (ts(1_500), buy("cross", 1.0)),
        (ts(2_500), buy("cross", 2.0)),
        (ts(5_500), buy("cross", 3.0)),
    ])
    .unwrap();
    let result = engine.run(&mut replay(records), &mut strategy).unwrap();
    let times: Vec<i64> = result.fills.iter().map(|f| f.ts.get()).collect();
    assert_eq!(times, vec![2_000, 3_000, 6_000]);
}

#[test]
fn a_gap_leaves_the_mark_as_it_was() {
    let key = key_for(&id("m"), OutcomeId(0));
    let mut market = Market::new(MarkSource::VenueMark);
    market.open_book(&key);
    let snapshot = MarketEvent::BookSnapshot {
        bids: vec![(px(0.40), qy(1.0))],
        asks: vec![(px(0.44), qy(1.0))],
    };
    market.take(&key, &snapshot, ts(1)).unwrap();
    market.settle_mark(&key, true);
    assert_eq!(market.mark(&key), Some(px(0.42)));
    market.take(&key, &MarketEvent::Gap, ts(2)).unwrap();
    market.settle_mark(&key, true);
    assert_eq!(market.mark(&key), Some(px(0.42)));
    let reference = MarketEvent::Reference { mark: Some(px(0.50)), oracle: None };
    market.take(&key, &reference, ts(3)).unwrap();
    market.settle_mark(&key, false);
    assert_eq!(market.mark(&key), Some(px(0.50)));
    market.take(&key, &MarketEvent::Gap, ts(4)).unwrap();
    market.settle_mark(&key, true);
    assert_eq!(market.mark(&key), Some(px(0.50)));
}
