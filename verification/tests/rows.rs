use h5i_db_backtest::book::{BookDelta, BookStatus};
use h5i_db_backtest::catalogue::{
    kind_name, parse_kind, read_instruments, read_resolutions, write_instruments,
    write_resolutions, InstrumentRow, ResolutionRow,
};
use h5i_db_backtest::decimal::{ColumnSpec, ColumnType, FixedEncoding};
use h5i_db_backtest::error::BacktestError;
use h5i_db_backtest::event::{MarketEvent, Record};
use h5i_db_backtest::feed::{read_book_events, write_book_events, BookRow};
use h5i_db_backtest::instrument::{
    Instrument, InstrumentId, InstrumentKind, InstrumentSet, OutcomeId, PriceRule,
};
use h5i_db_backtest::intents::{read_commands, read_signals, CommandRow, SignalRow, Wish};
use h5i_db_backtest::order::{Fill, OrderId, OrderKind, TimeInForce};
use h5i_db_backtest::outputs::{
    fill_rows, read_fills, read_ingest_log, write_ingest_log, FillRow, IngestEntry, IngestRow,
};
use h5i_db_backtest::prints::{
    decode_trades, read_funding, read_references, read_trades, write_funding, write_references,
    write_trades, TradeRow,
};
use h5i_db_backtest::schema::{market_data_tables, run_output_tables};
use h5i_db_backtest::settlement::Resolution;
use h5i_db_backtest::store::{
    encoding_in, is_absence, is_backfill, missing_tables, replay_book, scan_bounds, sort_by_time,
    time_bounds, time_column_of,
};
use h5i_db_backtest::strategy::ReplayCommand;
use h5i_db_backtest::types::{Money, Price, Qty, Side, Stamps, UnixNanos, SCALE};
use h5i_db_backtest::window::TimeWindow;

fn ts(value: i64) -> UnixNanos {
    UnixNanos::new(value)
}

fn id(name: &str) -> InstrumentId {
    InstrumentId::new(name).unwrap()
}

fn record(at: i64, event: MarketEvent) -> Record {
    Record::new(Stamps::new(ts(at - 1), ts(at)).unwrap(), id("m"), OutcomeId(1), event)
}

fn snapshot(at: i64, bids: Vec<(Price, Qty)>, asks: Vec<(Price, Qty)>) -> Record {
    record(at, MarketEvent::BookSnapshot { bids, asks })
}

fn level(price: i64, size: i64) -> (Price, Qty) {
    (Price::from_raw(price), Qty::from_raw(size))
}

fn feed() -> Vec<Record> {
    vec![
        snapshot(10, vec![level(40, 1), level(39, 2)], vec![level(42, 3)]),
        record(20, MarketEvent::BookDelta(BookDelta::set(Side::Sell, Price(43), Qty(4)))),
        record(20, MarketEvent::BookDelta(BookDelta::delete(Side::Buy, Price(39)))),
        record(30, MarketEvent::BookDelta(BookDelta::clear(Side::Buy))),
        record(40, MarketEvent::Gap),
        snapshot(50, vec![], vec![]),
        snapshot(60, vec![], vec![level(44, 5)]),
    ]
}

// -- the book's feed -----------------------------------------------------------

#[test]
fn book_events_read_back_what_was_written() {
    let rows = write_book_events(&feed()).unwrap();
    assert_eq!(rows.len(), 3 + 1 + 1 + 1 + 1 + 1 + 1);
    assert!(!rows[0].is_last && !rows[1].is_last && rows[2].is_last);
    assert_eq!(read_book_events(&rows).unwrap(), feed());
}

#[test]
fn events_read_back_in_time_order_and_ties_as_written() {
    let mut shuffled = feed();
    shuffled.swap(0, 6);
    let rows = write_book_events(&shuffled).unwrap();
    let read = read_book_events(&rows).unwrap();
    let times: Vec<i64> = read.iter().map(|r| r.ts().get()).collect();
    assert_eq!(times, vec![10, 20, 20, 30, 40, 50, 60]);
    assert_eq!(read[1], feed().remove(1));
    assert_eq!(read[2], feed().remove(2));
}

#[test]
fn a_snapshot_without_its_last_row_is_refused() {
    let mut rows = write_book_events(&feed()).unwrap();
    rows.truncate(2);
    let error = read_book_events(&rows).unwrap_err().message();
    assert_eq!(
        error,
        "snapshot event 0 is truncated: no row carried is_last, so the book it describes is incomplete"
    );
}

#[test]
fn a_snapshot_that_another_interrupts_is_refused() {
    let mut rows = write_book_events(&feed()).unwrap();
    rows[1].event_index = 7;
    let error = read_book_events(&rows).unwrap_err().message();
    assert_eq!(
        error,
        "snapshot event 0 was not terminated by an is_last row before event 7 began"
    );
}

#[test]
fn a_snapshot_that_mixes_outcomes_is_refused() {
    let mut rows = write_book_events(&feed()).unwrap();
    rows[1].outcome = 0;
    let error = read_book_events(&rows).unwrap_err().message();
    assert_eq!(
        error,
        "snapshot event 0 mixes m/1 with m/0; one event describes one outcome of one instrument"
    );
}

fn update(action: &str, side: Option<&str>, price: Option<i64>, size: Option<i64>) -> BookRow {
    BookRow {
        ts_init: 2,
        ts_event: 1,
        instrument: "m".to_string(),
        outcome: 0,
        action: action.to_string(),
        side: side.map(|s| s.to_string()),
        price: Ok(price),
        size: Ok(size),
        event_index: 0,
        is_last: true,
    }
}

#[test]
fn every_fault_of_a_book_row_is_named() {
    let message = |row: BookRow| read_book_events(&[row]).unwrap_err().message();
    assert_eq!(message(update("set", None, Some(1), None)), "set row has no side");
    assert_eq!(message(update("set", Some("buy"), None, None)), "set row has no price");
    assert_eq!(message(update("delete", Some("buy"), None, None)), "delete row has no price");
    assert!(matches!(
        read_book_events(&[update("move", Some("buy"), None, None)]).unwrap_err(),
        BacktestError::Parse { what: "book action", .. }
    ));
    assert!(matches!(
        read_book_events(&[update("set", Some("up"), Some(1), None)]).unwrap_err(),
        BacktestError::Parse { what: "side", .. }
    ));
    let mut early = update("gap", None, None, None);
    early.ts_event = 3;
    assert!(matches!(
        read_book_events(&[early]).unwrap_err(),
        BacktestError::CausalityViolation { ts_event: 3, ts_init: 2 }
    ));
    let mut nameless = update("gap", None, None, None);
    nameless.instrument = " ".to_string();
    assert_eq!(message(nameless), "instrument id must not be empty");
    let mut broken = update("set", Some("buy"), None, None);
    broken.price = Err(BacktestError::NotFinite { what: "column" });
    assert_eq!(
        read_book_events(&[broken]).unwrap_err(),
        BacktestError::NotFinite { what: "column" }
    );
}

#[test]
fn an_update_with_no_size_is_an_update_to_nothing() {
    let read = read_book_events(&[update("set", Some("ask"), Some(5), None)]).unwrap();
    assert_eq!(
        read[0].event,
        MarketEvent::BookDelta(BookDelta::set(Side::Sell, Price(5), Qty(0)))
    );
}

#[test]
fn only_book_events_go_to_the_book_table() {
    let funding = record(1, MarketEvent::Funding { rate: Price(1) });
    let error = write_book_events(&[funding]).unwrap_err().message();
    assert_eq!(
        error,
        "trades, bars, funding, reference prices and corporate actions belong in their own tables, not book_deltas"
    );
}

// -- prints, funding, references -------------------------------------------------

#[test]
fn trades_read_back_in_time_order() {
    let trade = |at: i64, aggressor: Option<Side>| {
        record(at, MarketEvent::Trade { price: Price(7), size: Qty(8), aggressor })
    };
    let written = vec![trade(30, Some(Side::Buy)), trade(10, None), trade(20, Some(Side::Sell))];
    let rows = write_trades(&written).unwrap();
    assert_eq!(decode_trades(&rows).unwrap(), written);
    let read = read_trades(&rows).unwrap();
    assert_eq!(
        read,
        vec![trade(10, None), trade(20, Some(Side::Sell)), trade(30, Some(Side::Buy))]
    );
    assert_eq!(
        write_trades(&feed()).unwrap_err().message(),
        "write_trades takes trade records only"
    );
}

#[test]
fn a_trade_without_a_price_is_refused() {
    let row = TradeRow {
        ts_init: 2,
        ts_event: 1,
        instrument: "m".to_string(),
        outcome: 0,
        price: Ok(None),
        size: Ok(Some(1)),
        aggressor: None,
    };
    assert_eq!(
        read_trades(&[row]).unwrap_err().message(),
        "schema mismatch for read: column price is null in a row where it must not be"
    );
}

#[test]
fn funding_and_references_read_back() {
    let funding = vec![Record::new(
        Stamps::immediate(ts(5)),
        id("p"),
        OutcomeId::first(),
        MarketEvent::Funding { rate: Price(-3) },
    )];
    assert_eq!(read_funding(&write_funding(&funding).unwrap()).unwrap(), funding);
    assert_eq!(
        write_funding(&feed()).unwrap_err().message(),
        "write_funding takes funding records only"
    );
    let references = vec![
        record(1, MarketEvent::Reference { mark: Some(Price(1)), oracle: None }),
        record(2, MarketEvent::Reference { mark: None, oracle: Some(Price(2)) }),
    ];
    assert_eq!(read_references(&write_references(&references).unwrap()).unwrap(), references);
    assert_eq!(
        write_references(&feed()).unwrap_err().message(),
        "write_references takes reference records only"
    );
}

// -- instruments and resolutions ---------------------------------------------------

#[test]
fn instruments_read_back_what_was_written() {
    let three = Instrument::prediction_market(
        "b",
        "v",
        vec!["X".to_string(), "Y".to_string(), "Z".to_string()],
    )
    .unwrap()
    .with_expiration(ts(9))
    .with_settlement_observable(ts(11))
    .with_neg_risk();
    let perp = Instrument::perpetual("a", "w")
        .unwrap()
        .with_price_rule(PriceRule::SignificantFigures { significant_figures: 5, max_decimals: 2 })
        .unwrap()
        .with_tick_size(Price::from_raw(SCALE));
    let mut rows = write_instruments(&[three.clone(), perp.clone()], ts(3));
    assert_eq!(rows.len(), 4);
    rows.reverse();
    let set = read_instruments(&rows).unwrap();
    assert_eq!(set.len(), 2);
    assert_eq!(set.get(&id("b")).unwrap(), &three);
    assert_eq!(set.get(&id("a")).unwrap(), &perp);
}

#[test]
fn an_instrument_with_a_missing_outcome_is_refused() {
    let market = Instrument::prediction_market(
        "b",
        "v",
        vec!["X".to_string(), "Y".to_string(), "Z".to_string()],
    )
    .unwrap();
    let mut rows = write_instruments(&[market], ts(3));
    rows.remove(1);
    assert_eq!(
        read_instruments(&rows).unwrap_err().message(),
        "instrument b has gaps in its outcome indices: [0, 2]"
    );
}

#[test]
fn kinds_are_read_back_from_their_names() {
    for kind in [InstrumentKind::PredictionMarket, InstrumentKind::Perpetual, InstrumentKind::Spot] {
        assert_eq!(parse_kind(kind_name(&kind)).unwrap(), kind);
    }
    assert!(matches!(
        parse_kind("bond").unwrap_err(),
        BacktestError::Parse { what: "instrument kind", .. }
    ));
}

fn instrument_row() -> InstrumentRow {
    write_instruments(&[Instrument::perpetual("s", "v").unwrap()], ts(1)).remove(0)
}

#[test]
fn a_spot_instrument_and_one_with_too_fine_a_rule() {
    let mut spot = instrument_row();
    spot.kind = "spot".to_string();
    spot.neg_risk = None;
    let set = read_instruments(&[spot]).unwrap();
    assert_eq!(set.get(&id("s")).unwrap().kind, InstrumentKind::Spot);
    let mut fine = instrument_row();
    fine.significant_figures = Some(5);
    fine.max_decimals = Some(10);
    assert_eq!(
        read_instruments(&[fine]).unwrap_err().message(),
        "a price rule cannot allow more than nine decimals"
    );
    let mut blank = instrument_row();
    blank.tick = Ok(None);
    assert!(matches!(
        read_instruments(&[blank]).unwrap_err(),
        BacktestError::Schema { table: "read", .. }
    ));
}

#[test]
fn resolutions_read_back_what_was_written() {
    let winner = Resolution::new(id("w"), OutcomeId(1), ts(1));
    let split = Resolution::split(
        id("s"),
        vec![Price::from_raw(SCALE / 4), Price::from_raw(SCALE - SCALE / 4)],
        ts(2),
    )
    .unwrap();
    let void = Resolution::void(id("v"), 3, ts(3)).unwrap();
    let mut rows = write_resolutions(&[split.clone(), winner.clone(), void.clone()]);
    assert_eq!(rows.len(), 4);
    rows.reverse();
    assert_eq!(read_resolutions(&rows).unwrap(), vec![void, winner, split]);
}

fn resolution_row(kind: &str) -> ResolutionRow {
    ResolutionRow {
        ts: 1,
        instrument: "m".to_string(),
        kind: kind.to_string(),
        outcome: None,
        payout: Ok(None),
        outcome_count: None,
    }
}

#[test]
fn every_fault_of_a_resolution_row_is_named() {
    let message = |row: ResolutionRow| read_resolutions(&[row]).unwrap_err().message();
    assert_eq!(
        message(resolution_row("winner")),
        "resolution for m names a winner but no outcome"
    );
    assert_eq!(
        message(resolution_row("void")),
        "voided resolution for m does not say how many outcomes it refunds across"
    );
    assert_eq!(
        message(resolution_row("split")),
        "split resolution row for m is missing its outcome or payout"
    );
    assert!(matches!(
        read_resolutions(&[resolution_row("draw")]).unwrap_err(),
        BacktestError::Parse { what: "resolution kind", .. }
    ));
    let mut late = resolution_row("split");
    late.outcome = Some(1);
    late.payout = Ok(Some(SCALE));
    assert_eq!(
        message(late),
        "split resolution for m has gaps in its outcome indices: [1]"
    );
}

// -- signals and commands ------------------------------------------------------------

fn wish() -> Wish {
    Wish { time_in_force: None, tag: None, reduce_only: None, post_only: None }
}

fn signal(at: i64, kind: &str, limit: Option<i64>) -> SignalRow {
    SignalRow {
        ts: at,
        instrument: "m".to_string(),
        outcome: 1,
        side: "BUY".to_string(),
        quantity: Ok(Some(5)),
        kind: kind.to_string(),
        limit_price: Ok(limit),
        wish: wish(),
    }
}

#[test]
fn signals_become_orders_in_time_order() {
    let mut late = signal(20, "limit", Some(7));
    late.wish = Wish {
        time_in_force: Some("fok".to_string()),
        tag: Some("exit".to_string()),
        reduce_only: Some(true),
        post_only: Some(false),
    };
    let read = read_signals(&[late, signal(10, "market", None)]).unwrap();
    assert_eq!(read[0].0, ts(10));
    assert_eq!(read[0].1.kind, OrderKind::Market);
    assert_eq!(read[0].1.time_in_force, TimeInForce::ImmediateOrCancel);
    assert_eq!(read[1].1.kind, OrderKind::Limit { limit: Price(7) });
    assert_eq!(read[1].1.time_in_force, TimeInForce::FillOrKill);
    assert_eq!(read[1].1.tag.as_deref(), Some("exit"));
    assert!(read[1].1.reduce_only && !read[1].1.post_only);
}

#[test]
fn every_fault_of_a_signal_is_named() {
    assert_eq!(
        read_signals(&[signal(10, "limit", None)]).unwrap_err().message(),
        "limit signal for m at 10 has no limit_price"
    );
    assert!(matches!(
        read_signals(&[signal(10, "stop", None)]).unwrap_err(),
        BacktestError::Parse { what: "signal kind", .. }
    ));
    let mut odd = signal(10, "market", None);
    odd.wish.time_in_force = Some("day".to_string());
    assert!(matches!(
        read_signals(&[odd]).unwrap_err(),
        BacktestError::Parse { what: "time in force", .. }
    ));
}

fn command(action: &str) -> CommandRow {
    CommandRow {
        ts: 10,
        action: action.to_string(),
        client_order_id: "a\"b".to_string(),
        instrument: Some("m".to_string()),
        outcome: Some(0),
        side: Some("sell".to_string()),
        quantity: Ok(Some(5)),
        kind: Some("limit".to_string()),
        limit_price: Ok(Some(6)),
        wish: wish(),
    }
}

#[test]
fn commands_submit_amend_and_cancel() {
    let read = read_commands(&[command("submit"), command("amend"), command("cancel")]).unwrap();
    assert!(matches!(
        &read[0].1,
        ReplayCommand::Submit { client_order_id, request }
            if client_order_id == "a\"b" && request.side == Side::Sell && request.quantity == Qty(5)
    ));
    assert!(matches!(
        &read[1].1,
        ReplayCommand::Amend { quantity: Some(Qty(5)), limit: Some(Price(6)), .. }
    ));
    assert!(matches!(&read[2].1, ReplayCommand::Cancel { .. }));
}

#[test]
fn every_fault_of_a_command_is_named() {
    let message = |row: CommandRow| read_commands(&[row]).unwrap_err().message();
    let mut idle = command("amend");
    idle.quantity = Ok(None);
    idle.limit_price = Ok(None);
    assert_eq!(
        message(idle),
        "amend command for \"a\\\"b\" at 10 changes neither quantity nor limit_price"
    );
    let mut nowhere = command("submit");
    nowhere.instrument = None;
    assert_eq!(message(nowhere), "submit command for \"a\\\"b\" at 10 is missing instrument_id");
    let mut unsized_ = command("submit");
    unsized_.quantity = Ok(None);
    assert_eq!(message(unsized_), "submit command for \"a\\\"b\" at 10 is missing quantity");
    let mut priceless = command("submit");
    priceless.limit_price = Ok(None);
    assert_eq!(message(priceless), "limit submit for \"a\\\"b\" at 10 has no limit_price");
    let mut odd = command("submit");
    odd.kind = Some("stop".to_string());
    assert!(matches!(
        read_commands(&[odd]).unwrap_err(),
        BacktestError::Parse { what: "command kind", .. }
    ));
    assert!(matches!(
        read_commands(&[command("replace")]).unwrap_err(),
        BacktestError::Parse { what: "command action", .. }
    ));
}

// -- what a run writes ---------------------------------------------------------------

fn fill(at: i64, order: u64) -> Fill {
    Fill {
        order_id: OrderId(order),
        instrument: id("m"),
        outcome: OutcomeId(1),
        side: Side::Sell,
        price: Price(4),
        quantity: Qty(5),
        commission: Money(-6),
        is_taker: false,
        ts: ts(at),
        tag: Some("t".to_string()),
    }
}

#[test]
fn fills_read_back_in_time_order() {
    let rows = fill_rows(&[fill(9, u64::MAX), fill(3, 2)]);
    assert_eq!(rows[0].order_id, -1);
    assert_eq!(read_fills(&rows).unwrap(), vec![fill(3, 2), fill(9, u64::MAX)]);
    let broken = FillRow { commission: Ok(None), ..fill_rows(&[fill(1, 1)]).remove(0) };
    assert_eq!(
        read_fills(&[broken]).unwrap_err().message(),
        "schema mismatch for read: column commission is null in a row where it must not be"
    );
}

#[test]
fn the_ingest_log_keeps_a_window_only_if_it_is_one() {
    let entry = IngestEntry {
        ts: ts(1),
        vendor: "v".to_string(),
        digest: "d".to_string(),
        records: 2,
        window: Some(TimeWindow::new(ts(3), ts(4)).unwrap()),
        instruments: 5,
    };
    let row = write_ingest_log(&entry);
    let inverted = IngestRow { window_start: Some(4), window_end: Some(3), ..write_ingest_log(&entry) };
    let read = read_ingest_log(&[row, inverted]);
    assert_eq!(read[0], entry);
    assert_eq!(read[1].window, None);
}

// -- the seam --------------------------------------------------------------------------

#[test]
fn sorting_by_time_is_stable() {
    assert_eq!(sort_by_time(&[30, 10, 20, 10, 30]), vec![1, 3, 2, 0, 4]);
    assert!(sort_by_time(&[]).is_empty());
}

#[test]
fn bounds_are_half_open_and_need_something_to_bound() {
    assert_eq!(time_bounds(&[5, -2, 9]).unwrap(), (-2, 10));
    assert_eq!(time_bounds(&[]).unwrap_err().message(), "cannot bound an empty batch");
    let window = TimeWindow::new(ts(3), ts(4)).unwrap();
    assert_eq!(scan_bounds(Some(window)), (Some(3), Some(4)));
    assert_eq!(scan_bounds(None), (None, None));
}

#[test]
fn a_table_says_which_column_it_is_indexed_on_and_how_it_is_encoded() {
    assert_eq!(time_column_of("bt_fills"), "ts");
    assert_eq!(time_column_of("signals"), "ts");
    assert_eq!(time_column_of("trades"), "ts_init");
    assert_eq!(time_column_of("bt"), "ts_init");
    for encoding in [FixedEncoding::Float, FixedEncoding::Decimal] {
        for table in market_data_tables(encoding) {
            assert_eq!(encoding_in(&table.columns), encoding, "{}", table.name);
        }
    }
    let plain = ColumnSpec { name: "n", kind: ColumnType::Int64, nullable: false };
    assert_eq!(encoding_in(&[plain]), FixedEncoding::Float);
}

#[test]
fn only_missing_tables_are_created() {
    let all = run_output_tables(FixedEncoding::Float);
    let names: Vec<&str> = all.iter().map(|table| table.name).collect();
    let existing = vec![names[0].to_string(), names[2].to_string()];
    let missing = missing_tables(run_output_tables(FixedEncoding::Float), &existing);
    let left: Vec<&str> = missing.iter().map(|table| table.name).collect();
    let mut want = names.clone();
    want.remove(2);
    want.remove(0);
    assert_eq!(left, want);
}

#[test]
fn only_absence_is_tolerated_and_only_the_past_is_merged() {
    assert!(is_absence("table_not_found") && is_absence("version_not_found"));
    assert!(!is_absence("corrupt_segment"));
    assert!(is_backfill("sort_order_violation") && !is_backfill("table_not_found"));
}

#[test]
fn a_stored_feed_replays_into_a_book() {
    let mut records = feed();
    records.truncate(4);
    let book = replay_book(&records, "m").unwrap();
    assert_eq!(book.status(), Some(BookStatus::Fresh));
    assert_eq!(book.best_bid(), None);
    assert_eq!(book.best_ask(), Some(level(42, 3)));
    let mut across = feed();
    across.truncate(5);
    across.push(record(45, MarketEvent::BookDelta(BookDelta::clear(Side::Buy))));
    assert!(matches!(
        replay_book(&across, "m").unwrap_err(),
        BacktestError::BookGap { ts: 45, gap_ts: 40, .. }
    ));
}

#[test]
fn an_empty_catalogue_reads_as_an_empty_set() {
    let set: InstrumentSet = read_instruments(&[]).unwrap();
    assert!(set.is_empty());
    assert!(read_resolutions(&[]).unwrap().is_empty());
}
