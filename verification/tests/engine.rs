use h5i_db_backtest::account::{CashMargin, LinearMargin};
use h5i_db_backtest::book::BookDelta;
use h5i_db_backtest::builder::PlainEngine;
use h5i_db_backtest::clock::TimeEvent;
use h5i_db_backtest::corporate::CorporateAction;
use h5i_db_backtest::error::BacktestError;
use h5i_db_backtest::event::{MarketEvent, Record};
use h5i_db_backtest::instrument::{Instrument, InstrumentId, InstrumentSet, OutcomeId};
use h5i_db_backtest::kernel::RunResult;
use h5i_db_backtest::metrics::RiskLimits;
use h5i_db_backtest::models::{ConstantLatency, ProportionalFees, QueuePositionFills};
use h5i_db_backtest::order::{
    Fill, OrderStatus, TimeInForce, Trigger, TriggerDirection,
};
use h5i_db_backtest::position::Portfolio;
use h5i_db_backtest::replay::{priority, ListSource, Replay};
use h5i_db_backtest::request::{OrderRequest, TwapRequest};
use h5i_db_backtest::strategy::{
    CommandReplay, Context, ReplayCommand, SignalReplay, Strategy,
};
use h5i_db_backtest::types::{Money, Price, Qty, Side, Stamps, UnixNanos, SCALE};

fn px(value: f64) -> Price {
    Price::from_raw((value * SCALE as f64).round() as i64)
}

fn qy(value: f64) -> Qty {
    Qty::from_raw((value * SCALE as f64).round() as i64)
}

fn cash(value: f64) -> Money {
    Money::from_raw((value * SCALE as f64).round() as i64)
}

fn ts(value: i64) -> UnixNanos {
    UnixNanos::new(value)
}

fn id(name: &str) -> InstrumentId {
    InstrumentId::new(name).unwrap()
}

fn yes() -> OutcomeId {
    OutcomeId::first()
}

fn record(at: i64, event: MarketEvent) -> Record {
    Record::new(Stamps::immediate(ts(at)), id("m"), yes(), event)
}

fn snapshot(at: i64, bids: &[(f64, f64)], asks: &[(f64, f64)]) -> Record {
    let side = |levels: &[(f64, f64)]| levels.iter().map(|(p, q)| (px(*p), qy(*q))).collect();
    record(at, MarketEvent::BookSnapshot { bids: side(bids), asks: side(asks) })
}

fn print(at: i64, price: f64, size: f64, aggressor: Side) -> Record {
    record(
        at,
        MarketEvent::Trade { price: px(price), size: qy(size), aggressor: Some(aggressor) },
    )
}

fn replay(records: Vec<Record>) -> Replay<ListSource> {
    Replay::<ListSource>::builder().stream("book", priority::SNAPSHOT, records).build().unwrap()
}

fn market() -> InstrumentSet {
    let mut set = InstrumentSet::new();
    set.insert(Instrument::binary("m", "v").unwrap()).unwrap();
    set
}

fn shares() -> InstrumentSet {
    let mut set = InstrumentSet::new();
    set.insert(Instrument::perpetual("m", "v").unwrap()).unwrap();
    set
}

fn buy(quantity: f64) -> OrderRequest {
    OrderRequest::market(id("m"), yes(), Side::Buy, qy(quantity))
}

fn bid(price: f64, quantity: f64) -> OrderRequest {
    OrderRequest::limit(id("m"), yes(), Side::Buy, px(price), qy(quantity))
}

fn offer(price: f64, quantity: f64) -> OrderRequest {
    OrderRequest::limit(id("m"), yes(), Side::Sell, px(price), qy(quantity))
}

fn signals(list: Vec<(i64, OrderRequest)>) -> SignalReplay {
    SignalReplay::new(list.into_iter().map(|(at, r)| (ts(at), r)).collect()).unwrap()
}

fn quoted() -> Vec<Record> {
    vec![
        snapshot(1_000, &[(0.40, 100.0), (0.39, 200.0)], &[(0.42, 150.0), (0.43, 300.0)]),
        snapshot(2_000, &[(0.40, 100.0), (0.39, 200.0)], &[(0.42, 150.0), (0.43, 300.0)]),
        snapshot(3_000, &[(0.40, 100.0), (0.39, 200.0)], &[(0.42, 150.0), (0.43, 300.0)]),
    ]
}

fn trade(list: Vec<(i64, OrderRequest)>, records: Vec<Record>) -> RunResult {
    let mut engine = PlainEngine::builder(market()).starting_cash(cash(1_000.0)).build();
    engine.run(&mut replay(records), &mut signals(list)).unwrap()
}

#[test]
fn a_market_buy_lifts_the_offer_and_pays_for_it() {
    let result = trade(vec![(1_500, buy(10.0))], quoted());
    assert_eq!(result.fills.len(), 1);
    let fill = &result.fills[0];
    assert_eq!((fill.price, fill.quantity, fill.ts), (px(0.42), qy(10.0), ts(2_000)));
    assert!(fill.is_taker);
    assert_eq!(result.starting_cash, cash(1_000.0));
    assert_eq!(result.final_cash, cash(995.8));
    assert_eq!(result.orders[0].status, OrderStatus::Filled);
    assert_eq!(result.simulated_through, Some(ts(3_000)));
    assert_eq!(result.records_processed, 3);
}

#[test]
fn a_large_order_walks_the_book_level_by_level() {
    let result = trade(vec![(1_500, buy(200.0))], quoted());
    let fills: Vec<(Price, Qty)> = result.fills.iter().map(|f| (f.price, f.quantity)).collect();
    assert_eq!(fills, vec![(px(0.42), qy(150.0)), (px(0.43), qy(50.0))]);
}

#[test]
fn two_runs_of_the_same_inputs_are_identical() {
    let run = || {
        let mut engine = PlainEngine::builder(market())
            .starting_cash(cash(1_000.0))
            .fee_model(ProportionalFees::new(px(0.0002), px(0.0005)))
            .build();
        let mut strategy =
            signals(vec![(1_500, buy(10.0)), (1_500, bid(0.41, 5.0)), (2_500, offer(0.40, 3.0))]);
        let result = engine.run(&mut replay(quoted()), &mut strategy).unwrap();
        (result.fills, result.orders, result.equity, engine.execution().fingerprint())
    };
    let first = run();
    assert!(!first.0.is_empty());
    for _ in 0..3 {
        assert_eq!(run(), first);
    }
}

#[test]
fn the_equity_curve_adds_up_and_ends_where_the_run_ends() {
    let result = trade(vec![(1_500, buy(10.0))], quoted());
    assert!(!result.equity.is_empty());
    for point in &result.equity {
        assert_eq!(point.equity, point.cash.checked_add(point.position_value).unwrap());
    }
    assert_eq!(result.equity.last().unwrap().ts, ts(3_000));
}

#[test]
fn what_is_held_is_what_the_fills_fold_into() {
    let mut engine = PlainEngine::builder(market()).starting_cash(cash(1_000.0)).build();
    let mut strategy = signals(vec![(1_500, buy(10.0)), (2_500, offer(0.40, 4.0))]);
    let result = engine.run(&mut replay(quoted()), &mut strategy).unwrap();
    let folded = Portfolio::replay(&result.fills).unwrap();
    assert_eq!(
        folded.position(&id("m"), yes()).unwrap(),
        engine.portfolio().position(&id("m"), yes()).unwrap()
    );
    assert_eq!(folded.position(&id("m"), yes()).unwrap().quantity, qy(6.0));
}

#[test]
fn an_order_refused_for_cash_does_not_trade() {
    let mut engine = PlainEngine::builder(market())
        .starting_cash(cash(1.0))
        .margin_model(CashMargin)
        .build();
    let result =
        engine.run(&mut replay(quoted()), &mut signals(vec![(1_500, buy(100.0))])).unwrap();
    assert!(result.fills.is_empty());
    assert_eq!(result.rejected_for_margin, 1);
    assert_eq!(result.orders[0].status, OrderStatus::Rejected);
    assert_eq!(result.final_cash, cash(1.0));
}

#[test]
fn a_post_only_order_that_would_cross_is_refused() {
    let result = trade(vec![(1_500, bid(0.42, 10.0).post_only())], quoted());
    assert!(result.fills.is_empty());
    assert_eq!(result.metrics.orders_rejected_post_only, 1);
    assert_eq!(result.orders[0].status, OrderStatus::Rejected);
}

#[test]
fn a_post_only_order_behind_the_market_rests() {
    let result = trade(vec![(1_500, bid(0.41, 10.0).post_only())], quoted());
    assert_eq!(result.metrics.orders_rejected_post_only, 0);
    assert!(!result.orders[0].status.is_terminal());
}

#[test]
fn a_fill_or_kill_order_fills_whole_or_not_at_all() {
    let whole = bid(0.43, 400.0).with_time_in_force(TimeInForce::FillOrKill);
    let thin = bid(0.42, 200.0).with_time_in_force(TimeInForce::FillOrKill);
    let result = trade(vec![(1_500, whole)], quoted());
    assert_eq!(result.orders[0].filled, qy(400.0));
    let result = trade(vec![(1_500, thin)], quoted());
    assert!(result.fills.is_empty());
    assert_eq!(result.orders[0].status, OrderStatus::Cancelled);
}

#[test]
fn an_immediate_order_cancels_what_it_could_not_take() {
    let request = bid(0.42, 200.0).with_time_in_force(TimeInForce::ImmediateOrCancel);
    let result = trade(vec![(1_500, request)], quoted());
    assert_eq!(result.orders[0].filled, qy(150.0));
    assert_eq!(result.orders[0].status, OrderStatus::Cancelled);
}

#[test]
fn an_update_across_a_declared_gap_stops_the_run() {
    let delta = record(
        3_000,
        MarketEvent::BookDelta(BookDelta::set(Side::Buy, px(0.41), qy(1.0))),
    );
    let records =
        vec![snapshot(1_000, &[(0.40, 1.0)], &[(0.42, 1.0)]), record(2_000, MarketEvent::Gap), delta];
    let mut engine = PlainEngine::builder(market()).starting_cash(cash(1.0)).build();
    let error = engine.run(&mut replay(records), &mut signals(vec![])).unwrap_err();
    assert!(matches!(error, BacktestError::BookGap { ts: 3_000, gap_ts: 2_000, .. }), "{error:?}");
}

#[test]
fn a_record_of_an_unknown_instrument_stops_the_run() {
    let stray =
        Record::new(Stamps::immediate(ts(1)), id("elsewhere"), yes(), MarketEvent::Gap);
    let mut engine = PlainEngine::builder(market()).starting_cash(cash(1.0)).build();
    let error = engine.run(&mut replay(vec![stray]), &mut signals(vec![])).unwrap_err();
    assert!(matches!(error, BacktestError::UnknownInstrument(_)), "{error:?}");
}

#[test]
fn latency_makes_an_order_meet_a_later_book() {
    let records = vec![
        snapshot(1_000, &[(0.40, 100.0)], &[(0.42, 150.0)]),
        snapshot(2_000, &[(0.40, 100.0)], &[(0.42, 150.0)]),
        snapshot(20_000_000, &[(0.44, 100.0)], &[(0.46, 150.0)]),
    ];
    let mut engine = PlainEngine::builder(market())
        .starting_cash(cash(1_000.0))
        .latency_model(ConstantLatency::millis(5, 5))
        .build();
    let result =
        engine.run(&mut replay(records), &mut signals(vec![(1_500, buy(10.0))])).unwrap();
    assert_eq!(result.fills[0].price, px(0.46));
    assert_eq!(result.orders[0].submitted_at, ts(2_000));
}

#[test]
fn risk_limits_refuse_what_is_too_large() {
    let limits = RiskLimits {
        max_order_quantity: Some(qy(5.0)),
        max_abs_position: None,
        max_open_orders: None,
    };
    let mut engine = PlainEngine::builder(market())
        .starting_cash(cash(1_000.0))
        .risk_limits(limits)
        .build();
    let result =
        engine.run(&mut replay(quoted()), &mut signals(vec![(1_500, buy(10.0))])).unwrap();
    assert!(result.fills.is_empty());
    assert_eq!(result.metrics.orders_rejected_risk, 1);
}

#[test]
fn a_naked_short_of_an_outcome_is_refused_unless_allowed() {
    let sell = OrderRequest::market(id("m"), yes(), Side::Sell, qy(10.0));
    let result = trade(vec![(1_500, sell)], quoted());
    assert!(result.fills.is_empty());
    assert_eq!(result.metrics.orders_rejected_naked_short, 1);
}

#[test]
fn a_stop_waits_for_its_mark() {
    let stop = buy(10.0).with_trigger(Trigger {
        direction: TriggerDirection::Above,
        price: px(0.50),
    });
    let records = vec![
        snapshot(1_000, &[(0.40, 100.0)], &[(0.42, 150.0)]),
        snapshot(2_000, &[(0.40, 100.0)], &[(0.42, 150.0)]),
        snapshot(3_000, &[(0.50, 100.0)], &[(0.52, 150.0)]),
        snapshot(4_000, &[(0.50, 100.0)], &[(0.52, 150.0)]),
    ];
    let result = trade(vec![(1_500, stop)], records);
    assert_eq!(result.metrics.orders_triggered, 1);
    assert_eq!(result.fills.len(), 1);
    assert_eq!(result.fills[0].price, px(0.52));
    assert!(result.fills[0].ts.get() >= 3_000);
}

#[test]
fn fees_come_out_of_cash_and_of_realized_profit() {
    let mut engine = PlainEngine::builder(market())
        .starting_cash(cash(1_000.0))
        .fee_model(ProportionalFees::new(px(0.0), px(0.01)))
        .build();
    let result =
        engine.run(&mut replay(quoted()), &mut signals(vec![(1_500, buy(100.0))])).unwrap();
    assert_eq!(result.commissions, cash(0.42));
    assert_eq!(result.final_cash, cash(1_000.0 - 42.0 - 0.42));
}

#[test]
fn a_resting_order_fills_when_the_market_comes_to_it() {
    let records = vec![
        snapshot(1_000, &[(0.40, 100.0)], &[(0.42, 150.0)]),
        snapshot(2_000, &[(0.40, 100.0)], &[(0.42, 150.0)]),
        snapshot(3_000, &[(0.38, 100.0)], &[(0.41, 150.0)]),
    ];
    let result = trade(vec![(1_500, bid(0.41, 10.0))], records);
    assert_eq!(result.fills.len(), 1);
    assert_eq!(result.fills[0].price, px(0.41));
    assert_eq!(result.orders[0].status, OrderStatus::Filled);
}

#[test]
fn a_queued_order_waits_for_what_is_ahead_of_it() {
    // 100 stand ahead at 0.40: a print of 100 clears them, the next reaches us.
    let mut engine = PlainEngine::builder(market())
        .starting_cash(cash(1_000.0))
        .fill_model(QueuePositionFills::new())
        .build();
    let records = vec![
        snapshot(1_000, &[(0.40, 100.0)], &[(0.42, 150.0)]),
        snapshot(2_000, &[(0.40, 100.0)], &[(0.42, 150.0)]),
        print(3_000, 0.40, 100.0, Side::Sell),
        print(4_000, 0.40, 6.0, Side::Sell),
    ];
    let result =
        engine.run(&mut replay(records), &mut signals(vec![(1_500, bid(0.40, 10.0))])).unwrap();
    let filled: Vec<(Qty, UnixNanos)> =
        result.fills.iter().map(|f| (f.quantity, f.ts)).collect();
    assert_eq!(filled, vec![(qy(6.0), ts(4_000))]);
    assert!(!result.fills[0].is_taker);
}

#[test]
fn commands_amend_and_cancel_the_order_they_name() {
    let name = || "mine".to_string();
    let commands = vec![
        (ts(1_500), ReplayCommand::Submit { client_order_id: name(), request: bid(0.30, 10.0) }),
        (
            ts(2_500),
            ReplayCommand::Amend {
                client_order_id: name(),
                quantity: Some(qy(4.0)),
                limit: Some(px(0.31)),
            },
        ),
        (ts(3_500), ReplayCommand::Cancel { client_order_id: name() }),
    ];
    let mut records = quoted();
    records.push(snapshot(4_000, &[(0.40, 100.0)], &[(0.42, 150.0)]));
    records.push(snapshot(5_000, &[(0.40, 100.0)], &[(0.42, 150.0)]));
    let mut engine = PlainEngine::builder(market()).starting_cash(cash(1_000.0)).build();
    let result =
        engine.run(&mut replay(records), &mut CommandReplay::new(commands).unwrap()).unwrap();
    let order = &result.orders[0];
    assert_eq!(order.quantity, qy(4.0));
    assert_eq!(order.limit_price(), Some(px(0.31)));
    assert_eq!(order.status, OrderStatus::Cancelled);
    assert_eq!(result.metrics.orders_amended, 1);
}

#[test]
fn an_amendment_that_changes_nothing_is_refused_up_front() {
    let empty = ReplayCommand::Amend {
        client_order_id: "x".to_string(),
        quantity: None,
        limit: None,
    };
    assert!(CommandReplay::new(vec![(ts(1), empty)]).is_err());
}

#[test]
fn signals_out_of_order_are_refused() {
    assert!(SignalReplay::new(vec![(ts(2), buy(1.0)), (ts(1), buy(1.0))]).is_err());
}

#[test]
fn a_dividend_pays_the_holder_and_a_split_keeps_the_value() {
    let records = vec![
        snapshot(1_000, &[(99.0, 100.0)], &[(100.0, 150.0)]),
        snapshot(2_000, &[(99.0, 100.0)], &[(100.0, 150.0)]),
        record(
            3_000,
            MarketEvent::Corporate(CorporateAction::Dividend { per_share: cash(0.5) }),
        ),
        record(4_000, MarketEvent::Corporate(CorporateAction::Split { ratio: px(2.0) })),
    ];
    let mut engine = PlainEngine::builder(shares()).starting_cash(cash(10_000.0)).build();
    let result =
        engine.run(&mut replay(records), &mut signals(vec![(1_500, buy(10.0))])).unwrap();
    assert_eq!(result.dividends_received, cash(5.0));
    let held = engine.portfolio().position(&id("m"), yes()).unwrap();
    assert_eq!((held.quantity, held.average_price), (qy(20.0), px(50.0)));
    assert_eq!(result.metrics.corporate_actions, 2);
}

#[test]
fn funding_moves_between_longs_and_shorts() {
    let records = vec![
        snapshot(1_000, &[(99.0, 100.0)], &[(100.0, 150.0)]),
        snapshot(2_000, &[(99.0, 100.0)], &[(100.0, 150.0)]),
        record(3_000, MarketEvent::Funding { rate: px(0.001) }),
    ];
    let mut engine = PlainEngine::builder(shares()).starting_cash(cash(10_000.0)).build();
    let result =
        engine.run(&mut replay(records), &mut signals(vec![(1_500, buy(10.0))])).unwrap();
    // 10 at a mark of 99.5, one part in a thousand.
    assert_eq!(result.funding_paid, cash(0.995));
}

#[test]
fn an_account_below_maintenance_is_closed_out() {
    let records = vec![
        snapshot(1_000, &[(99.0, 100.0)], &[(100.0, 150.0)]),
        snapshot(2_000, &[(99.0, 100.0)], &[(100.0, 150.0)]),
        snapshot(3_000, &[(90.0, 100.0)], &[(91.0, 150.0)]),
    ];
    let mut engine = PlainEngine::builder(shares())
        .starting_cash(cash(101.0))
        .margin_model(LinearMargin::from_leverage(px(10.0)).unwrap())
        .build();
    let result =
        engine.run(&mut replay(records), &mut signals(vec![(1_500, buy(10.0))])).unwrap();
    assert_eq!(result.liquidations.len(), 1);
    assert_eq!(engine.portfolio().position(&id("m"), yes()).unwrap().quantity, qy(0.0));
}

/// Works one schedule from the start of a run.
struct Scheduled {
    request: Option<TwapRequest>,
}

impl Strategy for Scheduled {
    fn on_event(&mut self, ctx: &mut Context<'_>, _record: &Record) -> Result<(), BacktestError> {
        if let Some(request) = self.request.take() {
            ctx.twap(request);
        }
        Ok(())
    }

    fn on_start(&mut self, _ctx: &mut Context<'_>) -> Result<(), BacktestError> {
        Ok(())
    }

    fn on_timer(&mut self, _ctx: &mut Context<'_>, _event: &TimeEvent) -> Result<(), BacktestError> {
        Ok(())
    }

    fn on_fill(&mut self, _ctx: &mut Context<'_>, _fill: &Fill) -> Result<(), BacktestError> {
        Ok(())
    }

    fn on_stop(&mut self, _ctx: &mut Context<'_>) -> Result<(), BacktestError> {
        Ok(())
    }
}

#[test]
fn a_schedule_hands_over_everything_it_was_given() {
    let mut records = Vec::new();
    for step in 0..12 {
        records.push(snapshot(1_000 * (step + 1), &[(0.40, 100.0)], &[(0.42, 150.0)]));
    }
    let request =
        TwapRequest::new(id("m"), yes(), Side::Buy, qy(10.0), 4_000).interval_nanos(1_000);
    let mut engine = PlainEngine::builder(market()).starting_cash(cash(1_000.0)).build();
    let result =
        engine.run(&mut replay(records), &mut Scheduled { request: Some(request) }).unwrap();
    let total: i64 = result.fills.iter().map(|f| f.quantity.raw()).sum();
    assert_eq!(Qty::from_raw(total), qy(10.0));
    assert!(result.metrics.twap_slices >= 4);
}

/// Mints complete sets once, then redeems some.
struct Minter {
    step: usize,
}

impl Strategy for Minter {
    fn on_event(&mut self, ctx: &mut Context<'_>, _record: &Record) -> Result<(), BacktestError> {
        match self.step {
            0 => ctx.mint(&id("m"), qy(10.0)),
            1 => ctx.redeem(&id("m"), qy(4.0)),
            _ => {}
        }
        self.step += 1;
        Ok(())
    }

    fn on_start(&mut self, _ctx: &mut Context<'_>) -> Result<(), BacktestError> {
        Ok(())
    }

    fn on_timer(&mut self, _ctx: &mut Context<'_>, _event: &TimeEvent) -> Result<(), BacktestError> {
        Ok(())
    }

    fn on_fill(&mut self, _ctx: &mut Context<'_>, _fill: &Fill) -> Result<(), BacktestError> {
        Ok(())
    }

    fn on_stop(&mut self, _ctx: &mut Context<'_>) -> Result<(), BacktestError> {
        Ok(())
    }
}

#[test]
fn minting_and_redeeming_move_whole_sets_for_one_each() {
    let mut engine = PlainEngine::builder(market()).starting_cash(cash(100.0)).build();
    let result = engine.run(&mut replay(quoted()), &mut Minter { step: 0 }).unwrap();
    assert_eq!(result.final_cash, cash(94.0));
    for outcome in [OutcomeId(0), OutcomeId(1)] {
        assert_eq!(
            engine.portfolio().position(&id("m"), outcome).unwrap().quantity,
            qy(6.0)
        );
    }
    assert_eq!(result.set_operations.len(), 2);
}

/// Sets a timer and notes what it is told.
struct Listener {
    heard: Vec<String>,
}

impl Strategy for Listener {
    fn on_start(&mut self, ctx: &mut Context<'_>) -> Result<(), BacktestError> {
        ctx.set_timer("tick", ts(1_500));
        self.heard.push(format!("start {}", ctx.now().get()));
        Ok(())
    }

    fn on_event(&mut self, ctx: &mut Context<'_>, record: &Record) -> Result<(), BacktestError> {
        self.heard.push(format!("{} {}", record.event.kind(), ctx.now().get()));
        if ctx.now() == ts(1_000) {
            ctx.submit(buy(1.0));
        }
        Ok(())
    }

    fn on_timer(&mut self, ctx: &mut Context<'_>, event: &TimeEvent) -> Result<(), BacktestError> {
        self.heard.push(format!("{} {}", event.name, ctx.now().get()));
        Ok(())
    }

    fn on_fill(&mut self, _ctx: &mut Context<'_>, fill: &Fill) -> Result<(), BacktestError> {
        self.heard.push(format!("fill {}", fill.ts.get()));
        Ok(())
    }

    fn on_stop(&mut self, _ctx: &mut Context<'_>) -> Result<(), BacktestError> {
        self.heard.push("stop".to_string());
        Ok(())
    }
}

#[test]
fn a_strategy_is_told_what_happened_in_order() {
    let mut engine = PlainEngine::builder(market()).starting_cash(cash(100.0)).build();
    let mut strategy = Listener { heard: Vec::new() };
    let records = vec![quoted().remove(0), quoted().remove(1)];
    engine.run(&mut replay(records), &mut strategy).unwrap();
    assert_eq!(strategy.heard[0], "start 0");
    assert_eq!(strategy.heard[1], "book_snapshot 1000");
    assert_eq!(strategy.heard[2], "fill 1000");
    assert!(strategy.heard[3].starts_with("tick "), "{:?}", strategy.heard);
    assert_eq!(strategy.heard.last().unwrap(), "stop");
}

/// Fails as soon as it is asked anything.
struct Broken;

impl Strategy for Broken {
    fn on_event(&mut self, _ctx: &mut Context<'_>, _record: &Record) -> Result<(), BacktestError> {
        Err(BacktestError::invalid("no idea"))
    }

    fn on_start(&mut self, _ctx: &mut Context<'_>) -> Result<(), BacktestError> {
        Ok(())
    }

    fn on_timer(&mut self, _ctx: &mut Context<'_>, _event: &TimeEvent) -> Result<(), BacktestError> {
        Ok(())
    }

    fn on_fill(&mut self, _ctx: &mut Context<'_>, _fill: &Fill) -> Result<(), BacktestError> {
        Ok(())
    }

    fn on_stop(&mut self, _ctx: &mut Context<'_>) -> Result<(), BacktestError> {
        Ok(())
    }
}

#[test]
fn a_strategy_that_fails_stops_the_run_with_its_own_error() {
    let mut engine = PlainEngine::builder(market()).starting_cash(cash(100.0)).build();
    let error = engine.run(&mut replay(quoted()), &mut Broken).unwrap_err();
    assert_eq!(error.message(), "no idea");
}

#[test]
fn an_expired_market_takes_no_more_orders() {
    let mut set = InstrumentSet::new();
    set.insert(Instrument::binary("m", "v").unwrap().with_expiration(ts(1_500))).unwrap();
    let mut engine = PlainEngine::builder(set).starting_cash(cash(100.0)).build();
    let result =
        engine.run(&mut replay(quoted()), &mut signals(vec![(1_800, buy(1.0))])).unwrap();
    assert!(result.fills.is_empty());
    assert_eq!(result.metrics.orders_rejected_expired, 1);
    assert_eq!(result.expirations, vec![(id("m"), ts(1_500))]);
}

#[test]
fn a_reduce_only_order_never_flips_a_position() {
    let close = OrderRequest::market(id("m"), yes(), Side::Sell, qy(50.0)).reduce_only();
    let result = trade(vec![(1_500, buy(10.0)), (2_500, close)], quoted());
    let folded = Portfolio::replay(&result.fills).unwrap();
    assert!(folded.position(&id("m"), yes()).unwrap().is_flat());
}

#[test]
fn a_split_scales_what_is_left_of_a_partly_filled_order() {
    let records = vec![
        snapshot(1_000, &[(48.0, 10.0)], &[(50.0, 40.0)]),
        snapshot(2_000, &[(48.0, 10.0)], &[(50.0, 40.0)]),
        snapshot(3_000, &[(48.0, 10.0)], &[(52.0, 10.0)]),
        record(4_000, MarketEvent::Corporate(CorporateAction::Split { ratio: px(2.0) })),
    ];
    let mut engine = PlainEngine::builder(shares()).starting_cash(cash(10_000.0)).build();
    let result = engine
        .run(&mut replay(records), &mut signals(vec![(1_500, bid(50.0, 100.0))]))
        .unwrap();
    let order = &result.orders[0];
    assert_eq!((order.quantity, order.filled), (qy(200.0), qy(80.0)));
    assert_eq!(order.remaining(), qy(120.0));
    assert_eq!(order.limit_price(), Some(px(25.0)));
}

#[test]
fn a_schedule_too_small_to_divide_is_worked_whole_at_its_end() {
    let mut records = Vec::new();
    for step in 0..8 {
        records.push(snapshot(1_000 * (step + 1), &[(0.40, 100.0)], &[(0.42, 150.0)]));
    }
    let request =
        TwapRequest::new(id("m"), yes(), Side::Buy, Qty::from_raw(3), 4_000).interval_nanos(1_000);
    let mut engine = PlainEngine::builder(market()).starting_cash(cash(1_000.0)).build();
    let result =
        engine.run(&mut replay(records), &mut Scheduled { request: Some(request) }).unwrap();
    let total: i64 = result.fills.iter().map(|f| f.quantity.raw()).sum();
    assert_eq!(total, 3);
    assert_eq!(result.fills.len(), 1);
    assert_eq!(result.twaps[0].worked, Qty::from_raw(3));
    assert!(result.twaps[0].is_done());
}

#[test]
fn fills_rebuild_the_positions_through_a_dividend_and_a_delisting() {
    let records = vec![
        snapshot(1_000, &[(99.0, 100.0)], &[(100.0, 150.0)]),
        snapshot(2_000, &[(99.0, 100.0)], &[(100.0, 150.0)]),
        record(
            3_000,
            MarketEvent::Corporate(CorporateAction::Dividend { per_share: cash(0.5) }),
        ),
        record(
            4_000,
            MarketEvent::Corporate(CorporateAction::Delist { final_price: px(90.0) }),
        ),
    ];
    let mut engine = PlainEngine::builder(shares()).starting_cash(cash(10_000.0)).build();
    let result =
        engine.run(&mut replay(records), &mut signals(vec![(1_500, buy(10.0))])).unwrap();
    let rebuilt = Portfolio::replay(&result.fills).unwrap();
    assert_eq!(rebuilt.realized_pnl().unwrap(), result.realized_pnl);
    assert_eq!(rebuilt.commissions().unwrap(), result.commissions);
    let (ours, theirs) =
        (rebuilt.position(&id("m"), yes()), engine.portfolio().position(&id("m"), yes()));
    assert_eq!(ours.unwrap().quantity, theirs.unwrap().quantity);
}
