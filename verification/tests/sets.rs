use h5i_db_backtest::builder::PlainEngine;
use h5i_db_backtest::clock::TimeEvent;
use h5i_db_backtest::error::BacktestError;
use h5i_db_backtest::event::{MarketEvent, Record};
use h5i_db_backtest::instrument::{Instrument, InstrumentId, InstrumentSet, OutcomeId};
use h5i_db_backtest::kernel::RunResult;
use h5i_db_backtest::metrics::SetOperationCosts;
use h5i_db_backtest::models::ConstantLatency;
use h5i_db_backtest::order::{Fill, OrderId, OrderStatus};
use h5i_db_backtest::position::Portfolio;
use h5i_db_backtest::replay::{priority, ListSource, Replay};
use h5i_db_backtest::request::OrderRequest;
use h5i_db_backtest::strategy::{Context, Strategy};
use h5i_db_backtest::types::{Money, Price, Qty, Side, Stamps, UnixNanos, SCALE};

fn id() -> InstrumentId {
    InstrumentId::new("m").unwrap()
}

fn units(n: i64) -> Qty {
    Qty::from_raw(n * SCALE)
}

fn dollars(n: i64) -> Money {
    Money::from_raw(n * SCALE)
}

/// Four outcomes of which exactly one pays.
fn election() -> InstrumentSet {
    let names = ["a", "b", "c", "d"].iter().map(|n| n.to_string()).collect();
    let mut instrument = Instrument::prediction_market("m", "v", names).unwrap();
    instrument.neg_risk = true;
    let mut set = InstrumentSet::new();
    set.insert(instrument).unwrap();
    set
}

fn quote(at: i64) -> Record {
    Record::new(
        Stamps::immediate(UnixNanos::new(at)),
        id(),
        OutcomeId::first(),
        MarketEvent::BookSnapshot {
            bids: vec![(Price::from_raw(SCALE / 5), units(50))],
            asks: vec![(Price::from_raw(SCALE / 4), units(50))],
        },
    )
}

fn replay() -> Replay<ListSource> {
    Replay::<ListSource>::builder()
        .stream("book", priority::SNAPSHOT, (1..=5).map(|i| quote(i * 1_000)).collect())
        .build()
        .unwrap()
}

#[derive(Clone)]
enum Wish {
    Mint(i64),
    Redeem(i64),
    Convert(Vec<u16>, i64),
    Buy(i64),
    Cancel(u64),
    Amend(u64, i64),
    Nothing,
}

/// Asks for one thing at each record.
struct Wisher {
    wishes: Vec<Wish>,
}

impl Strategy for Wisher {
    fn on_start(&mut self, _ctx: &mut Context<'_>) -> Result<(), BacktestError> {
        Ok(())
    }

    fn on_event(&mut self, ctx: &mut Context<'_>, _record: &Record) -> Result<(), BacktestError> {
        if self.wishes.is_empty() {
            return Ok(());
        }
        match self.wishes.remove(0) {
            Wish::Mint(n) => ctx.mint(&id(), units(n)),
            Wish::Redeem(n) => ctx.redeem(&id(), units(n)),
            Wish::Convert(held, n) => {
                ctx.convert(&id(), held.into_iter().map(OutcomeId).collect(), units(n))
            }
            Wish::Buy(n) => {
                ctx.submit(OrderRequest::market(id(), OutcomeId::first(), Side::Buy, units(n)))
            }
            Wish::Cancel(order) => ctx.cancel(OrderId(order)),
            Wish::Amend(order, n) => ctx.amend(OrderId(order), Some(units(n)), None),
            Wish::Nothing => {}
        }
        Ok(())
    }

    fn on_timer(&mut self, _ctx: &mut Context<'_>, _event: &TimeEvent) -> Result<(), BacktestError> {
        Ok(())
    }

    fn on_fill(&mut self, _ctx: &mut Context<'_>, _fill: &Fill) -> Result<(), BacktestError> {
        Ok(())
    }

    fn on_stop(&mut self, _ctx: &mut Context<'_>) -> Result<(), BacktestError> {
        Ok(())
    }
}

fn costs() -> SetOperationCosts {
    SetOperationCosts { mint: dollars(1), redeem: dollars(2), convert: dollars(2) }
}

fn run(wishes: &[Wish]) -> (RunResult, Vec<Qty>) {
    let mut engine = PlainEngine::builder(election())
        .starting_cash(dollars(100))
        .set_operation_costs(costs())
        .build();
    let result =
        engine.run(&mut replay(), &mut Wisher { wishes: wishes.to_vec() }).unwrap();
    let held = (0..4)
        .map(|n| match engine.portfolio().position(&id(), OutcomeId(n)) {
            Some(position) => position.quantity,
            None => Qty::zero(),
        })
        .collect();
    (result, held)
}

#[test]
fn a_conversion_does_what_redeeming_its_sets_does() {
    let (converted, held) = run(&[Wish::Mint(10), Wish::Convert(vec![0, 2, 3], 2)]);
    let (redeemed, kept) = run(&[Wish::Mint(10), Wish::Redeem(4)]);
    assert_eq!(held, vec![units(6); 4]);
    assert_eq!(held, kept);
    assert_eq!(converted.final_cash, redeemed.final_cash);
    assert_eq!(converted.realized_pnl, redeemed.realized_pnl);
    assert_eq!(converted.set_operations[1].sets, units(4));
    assert_eq!(converted.set_operations[1].cash_delta, redeemed.set_operations[1].cash_delta);
}

#[test]
fn a_redemption_undoes_a_mint_but_for_the_costs() {
    let (result, held) = run(&[Wish::Mint(7), Wish::Redeem(7)]);
    assert_eq!(result.final_cash, dollars(97));
    assert_eq!(held, vec![Qty::zero(); 4]);
    assert_eq!(result.set_operations.len(), 2);
    assert!(result.set_operations.iter().all(|op| op.rejected.is_none()));
}

#[test]
fn a_refused_redemption_moves_nothing() {
    let (result, held) = run(&[Wish::Mint(3), Wish::Redeem(4)]);
    assert_eq!(result.final_cash, dollars(96));
    assert_eq!(held, vec![units(3); 4]);
    assert!(result.set_operations[1].rejected.is_some());
    assert_eq!(result.metrics.set_operations_rejected, 1);
}

fn delayed(wishes: &[Wish]) -> RunResult {
    let mut engine = PlainEngine::builder(election())
        .starting_cash(dollars(100))
        .latency_model(ConstantLatency { insert: 2_500, cancel: 0 })
        .build();
    engine.run(&mut replay(), &mut Wisher { wishes: wishes.to_vec() }).unwrap()
}

#[test]
fn an_order_arrives_once_its_latency_has_elapsed() {
    let result = delayed(&[Wish::Buy(2)]);
    assert_eq!(result.fills.len(), 1);
    assert_eq!(result.fills[0].ts, UnixNanos::new(4_000));
}

#[test]
fn an_order_cancelled_on_its_way_never_arrives() {
    let result = delayed(&[Wish::Buy(2), Wish::Cancel(1)]);
    assert!(result.fills.is_empty());
    assert_eq!(result.orders[0].status, OrderStatus::Cancelled);
    assert_eq!(result.metrics.orders_cancelled_unfilled, 1);
}

#[test]
fn an_order_amended_on_its_way_arrives_amended() {
    let result = delayed(&[Wish::Buy(2), Wish::Amend(1, 5)]);
    assert_eq!(result.fills.len(), 1);
    assert_eq!(result.fills[0].quantity, units(5));
    assert_eq!(result.fills[0].ts, UnixNanos::new(4_000));
}

#[test]
fn a_report_counts_how_its_orders_ended() {
    let result = delayed(&[Wish::Buy(2), Wish::Buy(60), Wish::Buy(1), Wish::Cancel(3)]);
    let ended = |status: OrderStatus| {
        result.orders.iter().filter(|order| order.status == status).count() as u64
    };
    assert_eq!(result.metrics.orders_filled, ended(OrderStatus::Filled));
    assert_eq!(result.metrics.orders_cancelled_unfilled, 1);
    assert_eq!(result.equity.last().unwrap().ts, result.simulated_through.unwrap());
}

#[test]
fn fills_rebuild_positions_profit_and_commissions() {
    let wishes = [Wish::Mint(10), Wish::Buy(3), Wish::Nothing, Wish::Redeem(2)];
    let mut engine = PlainEngine::builder(election())
        .starting_cash(dollars(100))
        .set_operation_costs(costs())
        .build();
    let result =
        engine.run(&mut replay(), &mut Wisher { wishes: wishes.to_vec() }).unwrap();
    let rebuilt = Portfolio::replay(&result.fills).unwrap();
    for n in 0..4 {
        assert_eq!(
            rebuilt.position(&id(), OutcomeId(n)),
            engine.portfolio().position(&id(), OutcomeId(n))
        );
    }
    assert_eq!(rebuilt.realized_pnl().unwrap(), result.realized_pnl);
    assert_eq!(rebuilt.commissions().unwrap(), result.commissions);
}
