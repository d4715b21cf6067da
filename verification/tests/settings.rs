use h5i_db_backtest::builder::PlainEngine;
use h5i_db_backtest::currency::Currency;
use h5i_db_backtest::decimal::{
    decimal_cells, decimal_column, read_fixed_value, FixedColumn, FixedEncoding, FloatCell,
};
use h5i_db_backtest::clock::TimeEvent;
use h5i_db_backtest::error::BacktestError;
use h5i_db_backtest::order::Fill;
use h5i_db_backtest::event::{MarketEvent, Record};
use h5i_db_backtest::execution::{ExecutionClient, ExecutionCommand, SimulatedExecution};
use h5i_db_backtest::instrument::{Instrument, InstrumentId, InstrumentSet, OutcomeId};
use h5i_db_backtest::metrics::SetOperationCosts;
use h5i_db_backtest::models::{FillModel, QueuePositionFills};
use h5i_db_backtest::replay::{priority, ListSource, Replay};
use h5i_db_backtest::request::OrderRequest;
use h5i_db_backtest::schema::{commands_table, COMMANDS};
use h5i_db_backtest::strategy::{Context, SignalReplay, Strategy};
use h5i_db_backtest::types::{Money, Price, Qty, Side, Stamps, UnixNanos, SCALE};

fn id() -> InstrumentId {
    InstrumentId::new("m").unwrap()
}

fn market() -> InstrumentSet {
    let mut set = InstrumentSet::new();
    set.insert(Instrument::binary("m", "v").unwrap()).unwrap();
    set
}

fn units(n: i64) -> Qty {
    Qty::from_raw(n * SCALE)
}

fn replay() -> Replay<ListSource> {
    let quote = |at: i64| {
        Record::new(
            Stamps::immediate(UnixNanos::new(at)),
            id(),
            OutcomeId::first(),
            MarketEvent::BookSnapshot {
                bids: vec![(Price::from_raw(400_000_000), units(100))],
                asks: vec![(Price::from_raw(420_000_000), units(100))],
            },
        )
    };
    Replay::<ListSource>::builder()
        .stream("book", priority::SNAPSHOT, vec![quote(1_000), quote(2_000), quote(3_000)])
        .build()
        .unwrap()
}

#[test]
fn an_instrument_takes_the_settings_it_is_given() {
    let eur = Currency::new("EUR").unwrap();
    let instrument = Instrument::binary("m", "v")
        .unwrap()
        .with_lot_size(units(5))
        .with_settlement_currency(eur.clone());
    assert_eq!(instrument.lot_size, units(5));
    assert_eq!(instrument.settlement_currency, eur);
    assert_eq!(instrument.outcome_ids(), vec![OutcomeId(0), OutcomeId(1)]);
}

#[test]
fn probabilities_run_from_nothing_to_one() {
    assert_eq!(Price::probability_min(), Price::from_raw(0));
    assert_eq!(Price::probability_max(), Price::from_raw(SCALE));
    assert_eq!((Side::Buy.signum(), Side::Sell.signum()), (1, -1));
}

#[test]
fn the_permissive_queue_counts_prints_without_a_side() {
    assert!(QueuePositionFills::optimistic().fills_on_unknown_aggressor());
    assert!(QueuePositionFills::optimistic().uses_queue_position());
}

#[test]
fn decimal_cells_come_back_as_they_were_written() {
    let cells = vec![Some(1_500_000_000i128), None, Some(-7)];
    let column = decimal_column(&cells);
    assert_eq!(read_fixed_value(&column, 0, "price").unwrap(), 1_500_000_000);
    assert_eq!(read_fixed_value(&column, 2, "price").unwrap(), -7);
    assert_eq!(
        read_fixed_value(&column, 1, "price").unwrap_err().message(),
        BacktestError::Schema {
            table: "read",
            detail: "column price is null in a row where it must not be".to_string(),
        }
        .message()
    );
    match column {
        FixedColumn::Decimal(inner) => assert_eq!(decimal_cells(&inner), cells),
        _ => panic!("a decimal column"),
    }
}

#[test]
fn the_command_table_is_laid_out_along_its_time() {
    let table = commands_table(FixedEncoding::Decimal);
    assert_eq!(table.name, COMMANDS);
    assert_eq!(table.options.time_column, Some("ts"));
}

struct Minter {
    held: Vec<Qty>,
}

impl Strategy for Minter {
    fn on_event(&mut self, ctx: &mut Context<'_>, _record: &Record) -> Result<(), BacktestError> {
        self.held.push(ctx.position_quantity(&id(), OutcomeId::first()));
        if self.held.len() == 1 {
            ctx.mint(&id(), units(10));
        }
        Ok(())
    }

    fn on_start(&mut self, _ctx: &mut Context<'_>) -> Result<(), BacktestError> {
        Ok(())
    }

    fn on_timer(&mut self, _ctx: &mut Context<'_>, _event: &TimeEvent) -> Result<(), BacktestError> {
        Ok(())
    }

    fn on_fill(&mut self, _ctx: &mut Context<'_>, _fill: &Fill) -> Result<(), BacktestError> {
        Ok(())
    }

    fn on_stop(&mut self, _ctx: &mut Context<'_>) -> Result<(), BacktestError> {
        Ok(())
    }
}

#[test]
fn minting_pays_the_flat_cost_once() {
    let costs = SetOperationCosts {
        mint: Money::from_raw(SCALE),
        redeem: Money::from_raw(0),
        convert: Money::from_raw(0),
    };
    let mut engine = PlainEngine::builder(market())
        .starting_cash(Money::from_raw(100 * SCALE))
        .set_operation_costs(costs)
        .build();
    let mut strategy = Minter { held: Vec::new() };
    let result = engine.run(&mut replay(), &mut strategy).unwrap();
    assert_eq!(result.final_cash, Money::from_raw(89 * SCALE));
    assert_eq!(result.commissions, Money::from_raw(SCALE));
    assert_eq!(strategy.held, vec![units(0), units(10), units(10)]);
}

struct Once {
    request: Option<OrderRequest>,
}

impl Strategy for Once {
    fn on_event(&mut self, ctx: &mut Context<'_>, _record: &Record) -> Result<(), BacktestError> {
        if let Some(request) = self.request.take() {
            ctx.submit(request);
        }
        Ok(())
    }

    fn on_start(&mut self, _ctx: &mut Context<'_>) -> Result<(), BacktestError> {
        Ok(())
    }

    fn on_timer(&mut self, _ctx: &mut Context<'_>, _event: &TimeEvent) -> Result<(), BacktestError> {
        Ok(())
    }

    fn on_fill(&mut self, _ctx: &mut Context<'_>, _fill: &Fill) -> Result<(), BacktestError> {
        Ok(())
    }

    fn on_stop(&mut self, _ctx: &mut Context<'_>) -> Result<(), BacktestError> {
        Ok(())
    }
}

fn one_buy() -> Once {
    Once {
        request: Some(OrderRequest::market(id(), OutcomeId::first(), Side::Buy, units(1))),
    }
}

#[test]
fn what_is_sent_goes_through_the_client() {
    let mut engine = PlainEngine::builder(market())
        .starting_cash(Money::from_raw(100 * SCALE))
        .execution_client(SimulatedExecution::new("paper"))
        .build();
    engine.run(&mut replay(), &mut one_buy()).unwrap();
    assert_eq!(engine.execution().venue(), "paper");
    assert_eq!(engine.execution().sent(), 1);
    assert_eq!(engine.execution().log()[0].0, UnixNanos::new(1_000));
}

struct Unreachable;

impl ExecutionClient for Unreachable {
    fn venue(&self) -> &str {
        "nowhere"
    }

    fn send(&mut self, _command: ExecutionCommand, _ts: UnixNanos) -> Result<(), BacktestError> {
        Err(BacktestError::invalid("no route to the venue"))
    }

    fn sent(&self) -> usize {
        0
    }
}

#[test]
fn a_client_that_refuses_stops_the_run() {
    let mut engine = PlainEngine::builder(market())
        .starting_cash(Money::from_raw(100 * SCALE))
        .execution_client(Unreachable)
        .build();
    let error = engine.run(&mut replay(), &mut one_buy()).unwrap_err();
    assert_eq!(error.message(), BacktestError::invalid("no route to the venue").message());
}

struct Late;

impl Strategy for Late {
    fn on_event(&mut self, ctx: &mut Context<'_>, _record: &Record) -> Result<(), BacktestError> {
        ctx.set_timer("late", UnixNanos::new(500));
        Ok(())
    }

    fn on_start(&mut self, _ctx: &mut Context<'_>) -> Result<(), BacktestError> {
        Ok(())
    }

    fn on_timer(&mut self, _ctx: &mut Context<'_>, _event: &TimeEvent) -> Result<(), BacktestError> {
        Ok(())
    }

    fn on_fill(&mut self, _ctx: &mut Context<'_>, _fill: &Fill) -> Result<(), BacktestError> {
        Ok(())
    }

    fn on_stop(&mut self, _ctx: &mut Context<'_>) -> Result<(), BacktestError> {
        Ok(())
    }
}

#[test]
fn a_timer_in_the_past_stops_the_run() {
    let mut engine = PlainEngine::builder(market()).build();
    let error = engine.run(&mut replay(), &mut Late).unwrap_err();
    assert!(error.message().contains("which is before now (1000)"));
}

#[test]
fn a_float_column_reads_to_the_nearest_unit() {
    let column = FixedColumn::Float(vec![FloatCell::Scaled(250_000_000)]);
    assert_eq!(read_fixed_value(&column, 0, "price").unwrap(), 250_000_000);
}

#[test]
fn a_strategy_with_nothing_to_say_does_not_stop_a_run() {
    let mut engine = PlainEngine::builder(market())
        .starting_cash(Money::from_raw(100 * SCALE))
        .build();
    let mut strategy = SignalReplay::new(Vec::new()).unwrap();
    let result = engine.run(&mut replay(), &mut strategy).unwrap();
    assert_eq!(result.records_processed, 3);
    assert_eq!(result.final_cash, Money::from_raw(100 * SCALE));
}

#[test]
fn a_second_replay_from_the_past_stops_the_run() {
    let mut engine = PlainEngine::builder(market()).build();
    let mut strategy = SignalReplay::new(Vec::new()).unwrap();
    engine.run(&mut replay(), &mut strategy).unwrap();
    let error = engine.run(&mut replay(), &mut strategy).unwrap_err();
    assert!(error.message().contains("clock cannot move backwards: 1000 precedes 3000"));
}
