//! Canonical, venue-neutral table schemas.
//!
//! These are the tables a backtest reads and writes. They are venue-neutral
//! on purpose: two loaders for two venues both produce `book_deltas`, and the
//! kernel never learns which vendor a row came from beyond the provenance
//! columns.
//!
//! Every market-data table carries the instant each row became known and is
//! *time-indexed on `ts_init`*, because that is the order replay reads them
//! in, so a time range scan prunes on exactly the column the merge sorts by.

use vstd::prelude::*;

use crate::decimal::{encoded_type, fixed_field, ColumnSpec, ColumnType, FixedEncoding};

verus! {

/// Market data: incremental book updates and full snapshots.
pub const BOOK_DELTAS: &'static str = "book_deltas";

/// Market data: prints.
pub const TRADES: &'static str = "trades";

/// Market data: aggregates.
pub const BARS: &'static str = "bars";

/// Reference data: one row per instrument outcome.
pub const INSTRUMENTS: &'static str = "instruments";

/// How markets resolved. Never read by a strategy.
pub const RESOLUTIONS: &'static str = "resolutions";

/// Order intents for a signal replay.
pub const SIGNALS: &'static str = "signals";

/// Submit, amend, and cancel commands for a lifecycle-aware replay.
pub const COMMANDS: &'static str = "commands";

/// Perpetual funding rates.
pub const FUNDING: &'static str = "funding";

/// Venue-published mark and oracle prices, which are not the book.
pub const REFERENCES: &'static str = "references";

/// What has already been ingested, so a reload is a no-op.
pub const INGEST_LOG: &'static str = "ingest_log";

/// Run output: one row describing the run.
pub const RUN: &'static str = "bt_run";

/// Run output: every order.
pub const ORDERS: &'static str = "bt_orders";

/// Run output: every fill. Positions are rebuildable from this alone.
pub const FILLS: &'static str = "bt_fills";

/// Run output: final positions.
pub const POSITIONS: &'static str = "bt_positions";

/// Run output: the equity curve.
pub const EQUITY: &'static str = "bt_equity";

/// How a table is laid out on disk: the column its time index is on, and
/// what its rows are sorted by.
pub struct TableOptions {
    pub time_column: Option<&'static str>,
    pub sort_key: Vec<&'static str>,
}

/// A table: what it is called, its columns in order, and how it is laid out.
pub struct TableSpec {
    pub name: &'static str,
    pub columns: Vec<ColumnSpec>,
    pub options: TableOptions,
}

/// Whether a table is laid out along one column.
pub open spec fn indexed_on(options: TableOptions, column: &'static str) -> bool {
    options.time_column == Some(column) && options.sort_key@ == seq![column]
}

/// Whether a table is as described.
pub open spec fn table_is(
    table: TableSpec,
    name: &'static str,
    columns: Seq<ColumnSpec>,
    index: &'static str,
) -> bool {
    table.name == name && table.columns@ == columns && indexed_on(table.options, index)
}

pub open spec fn col(name: &'static str, kind: ColumnType, nullable: bool) -> ColumnSpec {
    ColumnSpec { name, kind, nullable }
}

fn ts(name: &'static str) -> (r: ColumnSpec)
    ensures
        r == col(name, ColumnType::Timestamp, false),
{
    ColumnSpec { name, kind: ColumnType::Timestamp, nullable: false }
}

fn text(name: &'static str) -> (r: ColumnSpec)
    ensures
        r == col(name, ColumnType::Utf8, false),
{
    ColumnSpec { name, kind: ColumnType::Utf8, nullable: false }
}

fn opt_text(name: &'static str) -> (r: ColumnSpec)
    ensures
        r == col(name, ColumnType::Utf8, true),
{
    ColumnSpec { name, kind: ColumnType::Utf8, nullable: true }
}

fn int_column(name: &'static str) -> (r: ColumnSpec)
    ensures
        r == col(name, ColumnType::Int64, false),
{
    ColumnSpec { name, kind: ColumnType::Int64, nullable: false }
}

fn opt_int(name: &'static str) -> (r: ColumnSpec)
    ensures
        r == col(name, ColumnType::Int64, true),
{
    ColumnSpec { name, kind: ColumnType::Int64, nullable: true }
}

fn opt_u8(name: &'static str) -> (r: ColumnSpec)
    ensures
        r == col(name, ColumnType::UInt8, true),
{
    ColumnSpec { name, kind: ColumnType::UInt8, nullable: true }
}

fn opt_u16(name: &'static str) -> (r: ColumnSpec)
    ensures
        r == col(name, ColumnType::UInt16, true),
{
    ColumnSpec { name, kind: ColumnType::UInt16, nullable: true }
}

fn flag(name: &'static str, nullable: bool) -> (r: ColumnSpec)
    ensures
        r == col(name, ColumnType::Boolean, nullable),
{
    ColumnSpec { name, kind: ColumnType::Boolean, nullable }
}

fn outcome() -> (r: ColumnSpec)
    ensures
        r == col("outcome", ColumnType::UInt16, false),
{
    ColumnSpec { name: "outcome", kind: ColumnType::UInt16, nullable: false }
}

/// A fixed-point column, in whichever encoding the table was created with.
fn fixed(name: &'static str, encoding: FixedEncoding) -> (r: ColumnSpec)
    ensures
        r == col(name, encoded_type(encoding), false),
{
    fixed_field(name, encoding, false)
}

fn opt_fixed(name: &'static str, encoding: FixedEncoding) -> (r: ColumnSpec)
    ensures
        r == col(name, encoded_type(encoding), true),
{
    fixed_field(name, encoding, true)
}

/// The columns of `book_deltas`.
pub open spec fn book_deltas_columns(encoding: FixedEncoding) -> Seq<ColumnSpec> {
    seq![
        col("ts_init", ColumnType::Timestamp, false),
        col("ts_event", ColumnType::Timestamp, false),
        col("instrument_id", ColumnType::Utf8, false),
        col("outcome", ColumnType::UInt16, false),
        col("action", ColumnType::Utf8, false),
        col("side", ColumnType::Utf8, true),
        col("price", encoded_type(encoding), true),
        col("size", encoded_type(encoding), true),
        col("event_index", ColumnType::Int64, false),
        col("is_last", ColumnType::Boolean, false),
        col("source_vendor", ColumnType::Utf8, true),
    ]
}

/// `book_deltas`: one row per price level change.
///
/// Rows sharing an `event_index` form one atomic book event -- a snapshot's
/// levels, or a burst of updates the venue published together -- and the last
/// of them carries `is_last`. Applying half an event would leave a crossed or
/// hollow book, so the grouping is part of the schema.
pub fn book_deltas(encoding: FixedEncoding) -> (r: Vec<ColumnSpec>)
    ensures
        r@ == book_deltas_columns(encoding),
{
    let r = vec![
        ts("ts_init"),
        ts("ts_event"),
        text("instrument_id"),
        outcome(),
        text("action"),
        opt_text("side"),
        opt_fixed("price", encoding),
        opt_fixed("size", encoding),
        int_column("event_index"),
        flag("is_last", false),
        opt_text("source_vendor"),
    ];
    assert(r@ =~= book_deltas_columns(encoding));
    r
}

/// The columns of `trades`.
pub open spec fn trades_columns(encoding: FixedEncoding) -> Seq<ColumnSpec> {
    seq![
        col("ts_init", ColumnType::Timestamp, false),
        col("ts_event", ColumnType::Timestamp, false),
        col("instrument_id", ColumnType::Utf8, false),
        col("outcome", ColumnType::UInt16, false),
        col("price", encoded_type(encoding), false),
        col("size", encoded_type(encoding), false),
        col("aggressor", ColumnType::Utf8, true),
        col("trade_id", ColumnType::Utf8, true),
        col("source_vendor", ColumnType::Utf8, true),
    ]
}

/// `trades`: prints.
///
/// The aggressor is absent where the vendor does not say, which is common and
/// must not be guessed.
pub fn trades(encoding: FixedEncoding) -> (r: Vec<ColumnSpec>)
    ensures
        r@ == trades_columns(encoding),
{
    let r = vec![
        ts("ts_init"),
        ts("ts_event"),
        text("instrument_id"),
        outcome(),
        fixed("price", encoding),
        fixed("size", encoding),
        opt_text("aggressor"),
        opt_text("trade_id"),
        opt_text("source_vendor"),
    ];
    assert(r@ =~= trades_columns(encoding));
    r
}

/// The columns of `bars`.
pub open spec fn bars_columns(encoding: FixedEncoding) -> Seq<ColumnSpec> {
    seq![
        col("ts_init", ColumnType::Timestamp, false),
        col("ts_event", ColumnType::Timestamp, false),
        col("instrument_id", ColumnType::Utf8, false),
        col("outcome", ColumnType::UInt16, false),
        col("open", encoded_type(encoding), false),
        col("high", encoded_type(encoding), false),
        col("low", encoded_type(encoding), false),
        col("close", encoded_type(encoding), false),
        col("volume", encoded_type(encoding), false),
        col("source_vendor", ColumnType::Utf8, true),
    ]
}

/// `bars`: aggregates.
pub fn bars(encoding: FixedEncoding) -> (r: Vec<ColumnSpec>)
    ensures
        r@ == bars_columns(encoding),
{
    let r = vec![
        ts("ts_init"),
        ts("ts_event"),
        text("instrument_id"),
        outcome(),
        fixed("open", encoding),
        fixed("high", encoding),
        fixed("low", encoding),
        fixed("close", encoding),
        fixed("volume", encoding),
        opt_text("source_vendor"),
    ];
    assert(r@ =~= bars_columns(encoding));
    r
}

/// The columns of `instruments`.
pub open spec fn instruments_columns(encoding: FixedEncoding) -> Seq<ColumnSpec> {
    seq![
        col("ts_init", ColumnType::Timestamp, false),
        col("instrument_id", ColumnType::Utf8, false),
        col("venue", ColumnType::Utf8, false),
        col("kind", ColumnType::Utf8, false),
        col("outcome", ColumnType::UInt16, false),
        col("outcome_label", ColumnType::Utf8, false),
        col("tick_size", encoded_type(encoding), false),
        col("lot_size", encoded_type(encoding), false),
        col("expiration_ns", ColumnType::Int64, true),
        col("settlement_observable_ns", ColumnType::Int64, true),
        col("neg_risk", ColumnType::Boolean, true),
        col("price_significant_figures", ColumnType::UInt8, true),
        col("price_max_decimals", ColumnType::UInt8, true),
    ]
}

/// `instruments`: one row per outcome, so a categorical market is several rows.
///
/// `neg_risk` is nullable because false is the safe reading of its absence: a
/// market that cannot be minted is only a missing capability, whereas a market
/// wrongly believed mintable creates cash.
pub fn instruments(encoding: FixedEncoding) -> (r: Vec<ColumnSpec>)
    ensures
        r@ == instruments_columns(encoding),
{
    let r = vec![
        ts("ts_init"),
        text("instrument_id"),
        text("venue"),
        text("kind"),
        outcome(),
        text("outcome_label"),
        fixed("tick_size", encoding),
        fixed("lot_size", encoding),
        opt_int("expiration_ns"),
        opt_int("settlement_observable_ns"),
        flag("neg_risk", true),
        opt_u8("price_significant_figures"),
        opt_u8("price_max_decimals"),
    ];
    assert(r@ =~= instruments_columns(encoding));
    r
}

/// The columns of `resolutions`.
pub open spec fn resolutions_columns(encoding: FixedEncoding) -> Seq<ColumnSpec> {
    seq![
        col("ts_init", ColumnType::Timestamp, false),
        col("instrument_id", ColumnType::Utf8, false),
        col("kind", ColumnType::Utf8, false),
        col("outcome", ColumnType::UInt16, true),
        col("payout", encoded_type(encoding), true),
        col("outcome_count", ColumnType::UInt16, true),
    ]
}

/// `resolutions`: how a market ended.
///
/// Shaped for the payouts a market can actually produce. A single winner is one
/// row; a scalar or partial settlement is one row per outcome carrying its
/// payout; a void is one row naming how many outcomes it refunds across.
/// `ts_init` is the instant the result became observable.
pub fn resolutions(encoding: FixedEncoding) -> (r: Vec<ColumnSpec>)
    ensures
        r@ == resolutions_columns(encoding),
{
    let r = vec![
        ts("ts_init"),
        text("instrument_id"),
        text("kind"),
        opt_u16("outcome"),
        opt_fixed("payout", encoding),
        opt_u16("outcome_count"),
    ];
    assert(r@ =~= resolutions_columns(encoding));
    r
}

/// The columns of `references`.
pub open spec fn references_columns(encoding: FixedEncoding) -> Seq<ColumnSpec> {
    seq![
        col("ts_init", ColumnType::Timestamp, false),
        col("ts_event", ColumnType::Timestamp, false),
        col("instrument_id", ColumnType::Utf8, false),
        col("outcome", ColumnType::UInt16, false),
        col("mark", encoded_type(encoding), true),
        col("oracle", encoded_type(encoding), true),
        col("source_vendor", ColumnType::Utf8, true),
    ]
}

/// `references`: the mark and oracle prices a venue publishes.
///
/// Either may be absent: a venue can publish one and not the other, and a null
/// must not be read as a zero price.
pub fn references(encoding: FixedEncoding) -> (r: Vec<ColumnSpec>)
    ensures
        r@ == references_columns(encoding),
{
    let r = vec![
        ts("ts_init"),
        ts("ts_event"),
        text("instrument_id"),
        outcome(),
        opt_fixed("mark", encoding),
        opt_fixed("oracle", encoding),
        opt_text("source_vendor"),
    ];
    assert(r@ =~= references_columns(encoding));
    r
}

/// The columns of `funding`.
pub open spec fn funding_columns(encoding: FixedEncoding) -> Seq<ColumnSpec> {
    seq![
        col("ts_init", ColumnType::Timestamp, false),
        col("ts_event", ColumnType::Timestamp, false),
        col("instrument_id", ColumnType::Utf8, false),
        col("rate", encoded_type(encoding), false),
        col("source_vendor", ColumnType::Utf8, true),
    ]
}

/// `funding`: perpetual funding rates as they became due. Per interval, not
/// annualised: positive means longs pay.
pub fn funding(encoding: FixedEncoding) -> (r: Vec<ColumnSpec>)
    ensures
        r@ == funding_columns(encoding),
{
    let r = vec![
        ts("ts_init"),
        ts("ts_event"),
        text("instrument_id"),
        fixed("rate", encoding),
        opt_text("source_vendor"),
    ];
    assert(r@ =~= funding_columns(encoding));
    r
}

/// The columns of `ingest_log`.
pub open spec fn ingest_log_columns() -> Seq<ColumnSpec> {
    seq![
        col("ts", ColumnType::Timestamp, false),
        col("vendor", ColumnType::Utf8, false),
        col("digest", ColumnType::Utf8, false),
        col("records", ColumnType::Int64, false),
        col("window_start_ns", ColumnType::Int64, true),
        col("window_end_ns", ColumnType::Int64, true),
        col("instruments", ColumnType::Int64, false),
    ]
}

/// `ingest_log`: one row per completed load.
///
/// The `digest` is a content hash of everything the load contained, which makes
/// ingestion idempotent. It takes no encoding because it holds no fixed-point
/// column.
pub fn ingest_log() -> (r: Vec<ColumnSpec>)
    ensures
        r@ == ingest_log_columns(),
{
    let r = vec![
        ts("ts"),
        text("vendor"),
        text("digest"),
        int_column("records"),
        opt_int("window_start_ns"),
        opt_int("window_end_ns"),
        int_column("instruments"),
    ];
    assert(r@ =~= ingest_log_columns());
    r
}

/// The columns of `signals`.
pub open spec fn signals_columns(encoding: FixedEncoding) -> Seq<ColumnSpec> {
    seq![
        col("ts", ColumnType::Timestamp, false),
        col("instrument_id", ColumnType::Utf8, false),
        col("outcome", ColumnType::UInt16, false),
        col("side", ColumnType::Utf8, false),
        col("quantity", encoded_type(encoding), false),
        col("kind", ColumnType::Utf8, false),
        col("limit_price", encoded_type(encoding), true),
        col("time_in_force", ColumnType::Utf8, true),
        col("tag", ColumnType::Utf8, true),
        col("reduce_only", ColumnType::Boolean, true),
        col("post_only", ColumnType::Boolean, true),
    ]
}

/// `signals`: what a signal-replay strategy wants to do, as data.
///
/// Timestamped intent that the kernel executes through the full matching, fee
/// and latency path. `post_only` absent reads as false, which is the reading
/// that cannot silently turn a taker into a maker.
pub fn signals(encoding: FixedEncoding) -> (r: Vec<ColumnSpec>)
    ensures
        r@ == signals_columns(encoding),
{
    let r = vec![
        ts("ts"),
        text("instrument_id"),
        outcome(),
        text("side"),
        fixed("quantity", encoding),
        text("kind"),
        opt_fixed("limit_price", encoding),
        opt_text("time_in_force"),
        opt_text("tag"),
        flag("reduce_only", true),
        flag("post_only", true),
    ];
    assert(r@ =~= signals_columns(encoding));
    r
}

/// The columns of `commands`.
pub open spec fn commands_columns(encoding: FixedEncoding) -> Seq<ColumnSpec> {
    seq![
        col("ts", ColumnType::Timestamp, false),
        col("action", ColumnType::Utf8, false),
        col("client_order_id", ColumnType::Utf8, false),
        col("instrument_id", ColumnType::Utf8, true),
        col("outcome", ColumnType::UInt16, true),
        col("side", ColumnType::Utf8, true),
        col("quantity", encoded_type(encoding), true),
        col("kind", ColumnType::Utf8, true),
        col("limit_price", encoded_type(encoding), true),
        col("time_in_force", ColumnType::Utf8, true),
        col("tag", ColumnType::Utf8, true),
        col("reduce_only", ColumnType::Boolean, true),
        col("post_only", ColumnType::Boolean, true),
    ]
}

/// `commands`: a complete declarative order lifecycle.
///
/// Submit rows populate the order fields. Cancel rows only require
/// `client_order_id`; amend rows require at least one of `quantity` or
/// `limit_price`.
pub fn commands(encoding: FixedEncoding) -> (r: Vec<ColumnSpec>)
    ensures
        r@ == commands_columns(encoding),
{
    let r = vec![
        ts("ts"),
        text("action"),
        text("client_order_id"),
        opt_text("instrument_id"),
        opt_u16("outcome"),
        opt_text("side"),
        opt_fixed("quantity", encoding),
        opt_text("kind"),
        opt_fixed("limit_price", encoding),
        opt_text("time_in_force"),
        opt_text("tag"),
        flag("reduce_only", true),
        flag("post_only", true),
    ];
    assert(r@ =~= commands_columns(encoding));
    r
}

/// The columns of `bt_run`.
pub open spec fn run_columns(encoding: FixedEncoding) -> Seq<ColumnSpec> {
    seq![
        col("ts", ColumnType::Timestamp, false),
        col("run_id", ColumnType::Utf8, false),
        col("config_digest", ColumnType::Utf8, false),
        col("starting_cash", encoded_type(encoding), false),
        col("final_cash", encoded_type(encoding), false),
        col("realized_pnl", encoded_type(encoding), false),
        col("commissions", encoded_type(encoding), false),
        col("simulated_through_ns", ColumnType::Int64, true),
        col("records_processed", ColumnType::Int64, false),
        col("settlement_applied", ColumnType::Boolean, false),
        col("warnings", ColumnType::Utf8, true),
    ]
}

/// `bt_run`: the run manifest.
pub fn run(encoding: FixedEncoding) -> (r: Vec<ColumnSpec>)
    ensures
        r@ == run_columns(encoding),
{
    let r = vec![
        ts("ts"),
        text("run_id"),
        text("config_digest"),
        fixed("starting_cash", encoding),
        fixed("final_cash", encoding),
        fixed("realized_pnl", encoding),
        fixed("commissions", encoding),
        opt_int("simulated_through_ns"),
        int_column("records_processed"),
        flag("settlement_applied", false),
        opt_text("warnings"),
    ];
    assert(r@ =~= run_columns(encoding));
    r
}

/// The columns of `bt_orders`.
pub open spec fn orders_columns(encoding: FixedEncoding) -> Seq<ColumnSpec> {
    seq![
        col("ts", ColumnType::Timestamp, false),
        col("order_id", ColumnType::Int64, false),
        col("instrument_id", ColumnType::Utf8, false),
        col("outcome", ColumnType::UInt16, false),
        col("side", ColumnType::Utf8, false),
        col("kind", ColumnType::Utf8, false),
        col("limit_price", encoded_type(encoding), true),
        col("quantity", encoded_type(encoding), false),
        col("filled", encoded_type(encoding), false),
        col("time_in_force", ColumnType::Utf8, false),
        col("status", ColumnType::Utf8, false),
        col("reject_reason", ColumnType::Utf8, true),
        col("tag", ColumnType::Utf8, true),
        col("reduce_only", ColumnType::Boolean, false),
    ]
}

/// `bt_orders`: every order the run produced.
pub fn orders(encoding: FixedEncoding) -> (r: Vec<ColumnSpec>)
    ensures
        r@ == orders_columns(encoding),
{
    let r = vec![
        ts("ts"),
        int_column("order_id"),
        text("instrument_id"),
        outcome(),
        text("side"),
        text("kind"),
        opt_fixed("limit_price", encoding),
        fixed("quantity", encoding),
        fixed("filled", encoding),
        text("time_in_force"),
        text("status"),
        opt_text("reject_reason"),
        opt_text("tag"),
        flag("reduce_only", false),
    ];
    assert(r@ =~= orders_columns(encoding));
    r
}

/// The columns of `bt_fills`.
pub open spec fn fills_columns(encoding: FixedEncoding) -> Seq<ColumnSpec> {
    seq![
        col("ts", ColumnType::Timestamp, false),
        col("order_id", ColumnType::Int64, false),
        col("instrument_id", ColumnType::Utf8, false),
        col("outcome", ColumnType::UInt16, false),
        col("side", ColumnType::Utf8, false),
        col("price", encoded_type(encoding), false),
        col("quantity", encoded_type(encoding), false),
        col("commission", encoded_type(encoding), false),
        col("is_taker", ColumnType::Boolean, false),
        col("tag", ColumnType::Utf8, true),
    ]
}

/// `bt_fills`: every execution. The authoritative record: positions are a fold
/// over this table and nothing else.
pub fn fills(encoding: FixedEncoding) -> (r: Vec<ColumnSpec>)
    ensures
        r@ == fills_columns(encoding),
{
    let r = vec![
        ts("ts"),
        int_column("order_id"),
        text("instrument_id"),
        outcome(),
        text("side"),
        fixed("price", encoding),
        fixed("quantity", encoding),
        fixed("commission", encoding),
        flag("is_taker", false),
        opt_text("tag"),
    ];
    assert(r@ =~= fills_columns(encoding));
    r
}

/// The columns of `bt_positions`.
pub open spec fn positions_columns(encoding: FixedEncoding) -> Seq<ColumnSpec> {
    seq![
        col("ts", ColumnType::Timestamp, false),
        col("instrument_id", ColumnType::Utf8, false),
        col("outcome", ColumnType::UInt16, false),
        col("quantity", encoded_type(encoding), false),
        col("average_price", encoded_type(encoding), false),
        col("realized_pnl", encoded_type(encoding), false),
        col("commissions", encoded_type(encoding), false),
        col("settlement_pnl", encoded_type(encoding), true),
        col("market_exit_pnl", encoded_type(encoding), true),
    ]
}

/// `bt_positions`: where the run finished.
pub fn positions(encoding: FixedEncoding) -> (r: Vec<ColumnSpec>)
    ensures
        r@ == positions_columns(encoding),
{
    let r = vec![
        ts("ts"),
        text("instrument_id"),
        outcome(),
        fixed("quantity", encoding),
        fixed("average_price", encoding),
        fixed("realized_pnl", encoding),
        fixed("commissions", encoding),
        opt_fixed("settlement_pnl", encoding),
        opt_fixed("market_exit_pnl", encoding),
    ];
    assert(r@ =~= positions_columns(encoding));
    r
}

/// The columns of `bt_equity`.
pub open spec fn equity_columns(encoding: FixedEncoding) -> Seq<ColumnSpec> {
    seq![
        col("ts", ColumnType::Timestamp, false),
        col("cash", encoded_type(encoding), false),
        col("position_value", encoded_type(encoding), false),
        col("equity", encoded_type(encoding), false),
        col("realized_pnl", encoded_type(encoding), false),
        col("unrealized_pnl", encoded_type(encoding), false),
    ]
}

/// `bt_equity`: the equity curve, sampled on a fixed interval of simulated time.
pub fn equity(encoding: FixedEncoding) -> (r: Vec<ColumnSpec>)
    ensures
        r@ == equity_columns(encoding),
{
    let r = vec![
        ts("ts"),
        fixed("cash", encoding),
        fixed("position_value", encoding),
        fixed("equity", encoding),
        fixed("realized_pnl", encoding),
        fixed("unrealized_pnl", encoding),
    ];
    assert(r@ =~= equity_columns(encoding));
    r
}

fn indexed(column: &'static str) -> (r: TableOptions)
    ensures
        indexed_on(r, column),
{
    let sort_key = vec![column];
    assert(sort_key@ =~= seq![column]);
    TableOptions { time_column: Some(column), sort_key }
}

/// Table options for a market-data table: time-indexed on `ts_init`.
pub fn market_data_options() -> (r: TableOptions)
    ensures
        indexed_on(r, "ts_init"),
{
    indexed("ts_init")
}

/// Table options for a run-output table: time-indexed on `ts`.
pub fn run_output_options() -> (r: TableOptions)
    ensures
        indexed_on(r, "ts"),
{
    indexed("ts")
}

/// Table options for the signals table.
pub fn signals_options() -> (r: TableOptions)
    ensures
        indexed_on(r, "ts"),
{
    indexed("ts")
}

/// Table options for the commands table.
pub fn commands_options() -> (r: TableOptions)
    ensures
        indexed_on(r, "ts"),
{
    indexed("ts")
}

/// Every market-data table, with the options it wants.
pub fn market_data_tables(encoding: FixedEncoding) -> (r: Vec<TableSpec>)
    ensures
        r@.len() == 7,
        table_is(r@[0], BOOK_DELTAS, book_deltas_columns(encoding), "ts_init"),
        table_is(r@[1], TRADES, trades_columns(encoding), "ts_init"),
        table_is(r@[2], BARS, bars_columns(encoding), "ts_init"),
        table_is(r@[3], INSTRUMENTS, instruments_columns(encoding), "ts_init"),
        table_is(r@[4], RESOLUTIONS, resolutions_columns(encoding), "ts_init"),
        table_is(r@[5], FUNDING, funding_columns(encoding), "ts_init"),
        table_is(r@[6], REFERENCES, references_columns(encoding), "ts_init"),
{
    vec![
        TableSpec { name: BOOK_DELTAS, columns: book_deltas(encoding), options: market_data_options() },
        TableSpec { name: TRADES, columns: trades(encoding), options: market_data_options() },
        TableSpec { name: BARS, columns: bars(encoding), options: market_data_options() },
        TableSpec { name: INSTRUMENTS, columns: instruments(encoding), options: market_data_options() },
        TableSpec { name: RESOLUTIONS, columns: resolutions(encoding), options: market_data_options() },
        TableSpec { name: FUNDING, columns: funding(encoding), options: market_data_options() },
        TableSpec { name: REFERENCES, columns: references(encoding), options: market_data_options() },
    ]
}

/// The ingest log, which is metadata *about* loads rather than market data,
/// and so is indexed on when the load happened.
pub fn ingest_log_table() -> (r: TableSpec)
    ensures
        table_is(r, INGEST_LOG, ingest_log_columns(), "ts"),
{
    TableSpec { name: INGEST_LOG, columns: ingest_log(), options: run_output_options() }
}

/// The signals table, which a caller creates only when driving a replay from
/// stored intent.
pub fn signals_table(encoding: FixedEncoding) -> (r: TableSpec)
    ensures
        table_is(r, SIGNALS, signals_columns(encoding), "ts"),
{
    TableSpec { name: SIGNALS, columns: signals(encoding), options: signals_options() }
}

/// The optional lifecycle-aware strategy command table.
pub fn commands_table(encoding: FixedEncoding) -> (r: TableSpec)
    ensures
        table_is(r, COMMANDS, commands_columns(encoding), "ts"),
{
    TableSpec { name: COMMANDS, columns: commands(encoding), options: commands_options() }
}

/// Every run-output table.
pub fn run_output_tables(encoding: FixedEncoding) -> (r: Vec<TableSpec>)
    ensures
        r@.len() == 5,
        table_is(r@[0], RUN, run_columns(encoding), "ts"),
        table_is(r@[1], ORDERS, orders_columns(encoding), "ts"),
        table_is(r@[2], FILLS, fills_columns(encoding), "ts"),
        table_is(r@[3], POSITIONS, positions_columns(encoding), "ts"),
        table_is(r@[4], EQUITY, equity_columns(encoding), "ts"),
{
    vec![
        TableSpec { name: RUN, columns: run(encoding), options: run_output_options() },
        TableSpec { name: ORDERS, columns: orders(encoding), options: run_output_options() },
        TableSpec { name: FILLS, columns: fills(encoding), options: run_output_options() },
        TableSpec { name: POSITIONS, columns: positions(encoding), options: run_output_options() },
        TableSpec { name: EQUITY, columns: equity(encoding), options: run_output_options() },
    ]
}

/// The columns of every market-data table.
pub open spec fn market_data_columns(encoding: FixedEncoding) -> Seq<Seq<ColumnSpec>> {
    seq![
        book_deltas_columns(encoding),
        trades_columns(encoding),
        bars_columns(encoding),
        instruments_columns(encoding),
        resolutions_columns(encoding),
        funding_columns(encoding),
        references_columns(encoding),
    ]
}

/// Every market-data row says when it became known: each table's first
/// column is the one replay sorts by, and it is never empty.
pub proof fn market_data_says_when_it_was_known(encoding: FixedEncoding, i: int)
    requires
        0 <= i < market_data_columns(encoding).len(),
    ensures
        market_data_columns(encoding)[i][0] == col("ts_init", ColumnType::Timestamp, false),
{
}

} // verus!
