use h5i_db_backtest::builder::PlainEngine;
use h5i_db_backtest::clock::TimeEvent;
use h5i_db_backtest::error::BacktestError;
use h5i_db_backtest::order::Fill;
use h5i_db_backtest::event::{MarketEvent, Record};
use h5i_db_backtest::instrument::{Instrument, InstrumentId, InstrumentSet, OutcomeId};
use h5i_db_backtest::kernel::RunResult;
use h5i_db_backtest::outputs::{equity_rows, order_rows, position_rows, run_row};
use h5i_db_backtest::request::OrderRequest;
use h5i_db_backtest::run::{
    close_run, line_up, measure, prepare, ReadAt, RunReport, RunSpec,
};
use h5i_db_backtest::settlement::{Resolution, SettlementReport};
use h5i_db_backtest::strategy::{Context, SignalReplay, Strategy};
use h5i_db_backtest::types::{Money, Price, Qty, Side, Stamps, UnixNanos, SCALE};
use h5i_db_backtest::window::TimeWindow;

fn ts(value: i64) -> UnixNanos {
    UnixNanos::new(value)
}

fn id(name: &str) -> InstrumentId {
    InstrumentId::new(name).unwrap()
}

fn spec(name: &str) -> RunSpec {
    RunSpec::new(name, Money::from_raw(100 * SCALE))
}

fn window(start: i64, end: i64) -> TimeWindow {
    TimeWindow::new(ts(start), ts(end)).unwrap()
}

#[test]
fn the_digest_is_the_hash_of_the_bytes_in_hex() {
    let run = spec("a").window(window(5, 9)).execution_fingerprint("fees=0");
    let bytes = run.digest_bytes();
    let digest = run.digest();
    assert_eq!(digest.len(), 64);
    assert_eq!(digest, blake3::hash(&bytes).to_hex().to_string());
}

#[test]
fn the_digest_bytes_are_laid_out_field_by_field() {
    let run = spec("a").equity_interval_nanos(2).window(window(5, 9));
    let mut want = Vec::new();
    want.extend_from_slice(&(100 * SCALE).to_le_bytes());
    want.extend_from_slice(&2i64.to_le_bytes());
    want.push(b'w');
    want.extend_from_slice(&5i64.to_le_bytes());
    want.extend_from_slice(&9i64.to_le_bytes());
    want.extend_from_slice(b"Latest");
    want.push(b'-');
    assert_eq!(run.digest_bytes(), want);
    let pinned = spec("a").read_at(ReadAt::Snapshot("s\"1".to_string()));
    assert!(String::from_utf8_lossy(&pinned.digest_bytes()).contains("Snapshot(\"s\\\"1\")"));
}

#[test]
fn the_digest_covers_the_computation_and_not_its_name() {
    assert_eq!(spec("a").digest(), spec("b").digest());
    assert_ne!(spec("a").digest(), spec("a").window(window(5, 9)).digest());
    assert_ne!(spec("a").digest(), spec("a").execution_fingerprint("x").digest());
    assert_ne!(spec("a").digest(), spec("a").read_at(ReadAt::Version(3)).digest());
    assert_eq!(spec("a").fork_name(), "bt-a");
}

fn instruments() -> InstrumentSet {
    let mut set = InstrumentSet::new();
    set.insert(Instrument::binary("m", "v").unwrap()).unwrap();
    set
}

fn snapshot(at: i64) -> Record {
    let level = |cents: i64| (Price::from_raw(cents * SCALE / 100), Qty::from_raw(100 * SCALE));
    Record::new(
        Stamps::immediate(ts(at)),
        id("m"),
        OutcomeId::first(),
        MarketEvent::BookSnapshot { bids: vec![level(40)], asks: vec![level(42)] },
    )
}

/// Buys once and states what it thinks.
struct Opinion {
    spoken: bool,
}

impl Strategy for Opinion {
    fn on_event(&mut self, ctx: &mut Context<'_>, _record: &Record) -> Result<(), BacktestError> {
        if !self.spoken {
            self.spoken = true;
            ctx.submit(OrderRequest::market(
                id("m"),
                OutcomeId::first(),
                Side::Buy,
                Qty::from_raw(10 * SCALE),
            ));
            ctx.record_forecast(&id("m"), OutcomeId::first(), Price::from_raw(SCALE / 2));
            ctx.record_forecast(&id("m"), OutcomeId(1), Price::from_raw(SCALE / 4));
        }
        Ok(())
    }

    fn on_start(&mut self, _ctx: &mut Context<'_>) -> Result<(), BacktestError> {
        Ok(())
    }

    fn on_timer(&mut self, _ctx: &mut Context<'_>, _event: &TimeEvent) -> Result<(), BacktestError> {
        Ok(())
    }

    fn on_fill(&mut self, _ctx: &mut Context<'_>, _fill: &Fill) -> Result<(), BacktestError> {
        Ok(())
    }

    fn on_stop(&mut self, _ctx: &mut Context<'_>) -> Result<(), BacktestError> {
        Ok(())
    }
}

fn finished() -> RunResult {
    let run = spec("a").window(window(1, 100));
    let mut engine = prepare(&run, instruments()).unwrap().build();
    let mut replay =
        line_up(vec![snapshot(10), snapshot(20)], vec![], vec![], vec![], vec![]).unwrap();
    engine.run(&mut replay, &mut Opinion { spoken: false }).unwrap()
}

#[test]
fn a_run_is_prepared_replayed_and_settled() {
    let result = finished();
    assert_eq!(result.fills.len(), 1);
    assert_eq!(result.starting_cash, Money::from_raw(100 * SCALE));
    let settled = close_run(
        &result,
        &vec![Resolution::new(id("m"), OutcomeId::first(), ts(15))],
        &instruments(),
    )
    .unwrap();
    assert!(settled.was_applied());
    // Ten bought at 0.42, worth one each.
    assert_eq!(settled.settled[0].settled_pnl, Money::from_raw(58 * SCALE / 10));
}

#[test]
fn a_resolution_the_run_did_not_reach_settles_nothing() {
    let settled = close_run(
        &finished(),
        &vec![Resolution::new(id("m"), OutcomeId::first(), ts(21))],
        &instruments(),
    )
    .unwrap();
    assert!(!settled.was_applied());
    assert_eq!(settled.unsettled.len(), 1);
}

#[test]
fn a_streams_order_is_checked_when_it_is_reached() {
    let replay = line_up(vec![snapshot(20), snapshot(10)], vec![], vec![], vec![], vec![]);
    let mut engine = PlainEngine::builder(instruments()).build();
    let mut idle = SignalReplay::new(vec![]).unwrap();
    assert!(matches!(
        engine.run(&mut replay.unwrap(), &mut idle).unwrap_err(),
        BacktestError::OutOfOrder { ts: 10, previous: 20, .. }
    ));
}

#[test]
fn coverage_is_measured_from_the_records_themselves() {
    let coverage = measure(window(0, 100), &vec![snapshot(10), snapshot(59)]);
    assert_eq!(coverage.loaded, Some(window(10, 60)));
    assert_eq!(coverage.missing_nanos, 50);
    assert_eq!(measure(window(0, 100), &vec![]).loaded, None);
}

fn report(resolutions: Vec<Resolution>) -> RunReport {
    RunReport {
        run_id: "a".to_string(),
        fork: "bt-a".to_string(),
        digest: "d".to_string(),
        result: finished(),
        settlement: SettlementReport::default(),
        coverage: None,
        instruments: instruments(),
        resolutions,
    }
}

#[test]
fn forecasts_are_scored_against_what_happened() {
    let scored = report(vec![Resolution::new(id("m"), OutcomeId::first(), ts(15))]);
    let samples = scored.calibration_samples();
    assert_eq!(samples.len(), 2);
    assert_eq!(samples[0].forecast, Price::from_raw(SCALE / 2));
    assert_eq!(samples[0].realized, Price::from_raw(SCALE));
    assert_eq!(samples[1].realized, Price::from_raw(0));
    assert!(scored.unscored_forecasts().is_empty());
}

#[test]
fn a_forecast_that_cannot_be_scored_is_counted_with_its_reason() {
    for unresolved in [
        report(vec![]),
        report(vec![Resolution::void(id("m"), 2, ts(15)).unwrap()]),
    ] {
        assert!(unresolved.calibration_samples().is_empty());
        let left: usize = unresolved.unscored_forecasts().iter().map(|u| u.count).sum();
        assert_eq!(left, 2);
    }
}

#[test]
fn a_run_is_laid_out_as_rows() {
    let result = finished();
    let resolution = Resolution::new(id("m"), OutcomeId::first(), ts(15));
    let settled = close_run(&result, &vec![resolution], &instruments()).unwrap();
    let open = close_run(&result, &vec![], &instruments()).unwrap();
    let row = run_row("a", "d", &result, &settled, ts(1));
    assert_eq!(
        (row.run_id.as_str(), row.records, row.simulated_through, row.settlement_applied),
        ("a", 2, Some(20), true)
    );
    assert_eq!(row.warnings, None);
    let warned = run_row("a", "d", &result, &open, ts(1));
    assert_eq!(warned.warnings, Some(open.warnings().join("; ")));
    let orders = order_rows(&result.orders);
    assert_eq!(
        (orders[0].kind.as_str(), orders[0].time_in_force.as_str(), orders[0].status.as_str()),
        ("market", "ioc", "filled")
    );
    assert_eq!(orders[0].limit_price, None);
    let positions = position_rows(&result, &settled).unwrap();
    assert_eq!(positions.len(), 1);
    assert_eq!(positions[0].ts, 20);
    assert_eq!(positions[0].quantity, 10 * SCALE);
    assert_eq!(positions[0].settlement_pnl, Some(58 * SCALE / 10));
    assert_eq!(position_rows(&result, &open).unwrap()[0].settlement_pnl, None);
    let curve = equity_rows(&result.equity);
    assert_eq!(curve.len(), result.equity.len());
    assert_eq!(curve.last().unwrap().cash, result.final_cash.raw());
}
