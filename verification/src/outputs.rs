//! Rows of the tables a finished run is written to.
//!
//! The tables of a run are one fact, so they are laid out together and meant
//! to be committed together: a run with its orders written and its fills
//! missing would read as one that submitted orders and filled none.

use vstd::prelude::*;
use vstd::string::*;

use crate::catalogue::{nanos, nanos_of};
use crate::error::{BacktestError, ErrorView};
use crate::feed::{read_side, side_read, sides_read_back};
use crate::instrument::{names_instrument, InstrumentId, OutcomeId};
use crate::kernel::RunResult;
use crate::metrics::EquityPoint;
use crate::intents::lifetime_read;
use crate::order::{
    clone_text, status_text, Fill, FillView, Order, OrderId, OrderKind, OrderStatus, TimeInForce,
};
use crate::ordered::OrderedKey;
use crate::position::{folded, key_of, KeyView, Portfolio, Position, PositionKey};
use crate::settlement::{unsettled_text, PositionSettlement, SettlementReport};
use crate::store::{
    a_fault_stays, all_read, by_time, cell_value, cell_view, each_reads, file, filing_views,
    text_view, value_in, views, Cell, Dated,
};
use crate::text::str_same;
use crate::types::{side_text, Money, Price, Qty, UnixNanos};
use crate::window::TimeWindow;

verus! {

// -- the run itself ----------------------------------------------------------------

/// The row a run is summed up in.
#[derive(PartialEq, Eq, Debug)]
pub struct RunRow {
    pub started_at: i64,
    pub run_id: String,
    pub config_digest: String,
    pub starting_cash: i64,
    pub final_cash: i64,
    pub realized_pnl: i64,
    pub commissions: i64,
    pub simulated_through: Option<i64>,
    pub records: i64,
    pub settlement_applied: bool,
    pub warnings: Option<String>,
}

/// A row with its texts as sequences of characters.
pub struct RunRowView {
    pub started_at: i64,
    pub run_id: Seq<char>,
    pub config_digest: Seq<char>,
    pub starting_cash: i64,
    pub final_cash: i64,
    pub realized_pnl: i64,
    pub commissions: i64,
    pub simulated_through: Option<i64>,
    pub records: i64,
    pub settlement_applied: bool,
    pub warnings: Option<Seq<char>>,
}

impl View for RunRow {
    type V = RunRowView;

    open spec fn view(&self) -> RunRowView {
        RunRowView {
            started_at: self.started_at,
            run_id: self.run_id@,
            config_digest: self.config_digest@,
            starting_cash: self.starting_cash,
            final_cash: self.final_cash,
            realized_pnl: self.realized_pnl,
            commissions: self.commissions,
            simulated_through: self.simulated_through,
            records: self.records,
            settlement_applied: self.settlement_applied,
            warnings: text_view(self.warnings),
        }
    }
}

/// The warnings of positions left open, one after the other.
pub open spec fn warnings_text(unsettled: Seq<(InstrumentId, OutcomeId, String)>) -> Seq<char>
    decreases unsettled.len(),
{
    if unsettled.len() == 0 {
        Seq::empty()
    } else if unsettled.len() == 1 {
        unsettled_text(unsettled[0])
    } else {
        warnings_text(unsettled.drop_last()) + "; "@ + unsettled_text(unsettled.last())
    }
}

/// Sum a run up in a row.
pub fn run_row(
    run_id: &str,
    config_digest: &str,
    result: &RunResult,
    settlement: &SettlementReport,
    started_at: UnixNanos,
) -> (row: RunRow)
    ensures
        row@ == (RunRowView {
            started_at: started_at.0,
            run_id: run_id@,
            config_digest: config_digest@,
            starting_cash: result.starting_cash.0,
            final_cash: result.final_cash.0,
            realized_pnl: result.realized_pnl.0,
            commissions: result.commissions.0,
            simulated_through: nanos_of(result.simulated_through),
            records: result.records_processed as i64,
            settlement_applied: settlement.settled@.len() > 0,
            warnings: if settlement.unsettled@.len() == 0 {
                None
            } else {
                Some(warnings_text(settlement.unsettled@))
            },
        }),
{
    let warnings = settlement.warnings();
    let ghost open = settlement.unsettled@;
    let mut text = String::new();
    let mut i: usize = 0;
    assert(open.take(0) =~= Seq::empty());
    assert(text@ =~= warnings_text(open.take(0)));
    while i < warnings.len()
        invariant
            i <= warnings@.len(),
            warnings@.len() == open.len(),
            forall|k: int|
                0 <= k < warnings@.len() ==> (#[trigger] warnings@[k])@ == unsettled_text(open[k]),
            text@ == warnings_text(open.take(i as int)),
        decreases warnings@.len() - i,
    {
        let ghost before = text@;
        if i > 0 {
            text.append("; ");
        }
        text.append(warnings[i].as_str());
        proof {
            let next = open.take(i + 1);
            assert(next.drop_last() =~= open.take(i as int));
            assert(next.last() == open[i as int]);
            if i == 0 {
                assert(next[0] == open[0]);
                assert(text@ =~= unsettled_text(next[0]));
            }
        }
        i += 1;
    }
    assert(open.take(i as int) =~= open);
    RunRow {
        started_at: started_at.0,
        run_id: run_id.to_owned(),
        config_digest: config_digest.to_owned(),
        starting_cash: result.starting_cash.0,
        final_cash: result.final_cash.0,
        realized_pnl: result.realized_pnl.0,
        commissions: result.commissions.0,
        simulated_through: nanos(result.simulated_through),
        records: #[verifier::truncate] (result.records_processed as i64),
        settlement_applied: settlement.was_applied(),
        warnings: if warnings.len() == 0 {
            None
        } else {
            Some(text)
        },
    }
}

// -- orders --------------------------------------------------------------------------

/// One row of the table of orders.
#[derive(PartialEq, Eq, Debug)]
pub struct OrderRow {
    pub submitted_at: i64,
    pub order_id: i64,
    pub instrument: String,
    pub outcome: u16,
    pub side: String,
    pub kind: String,
    pub limit_price: Option<i64>,
    pub quantity: i64,
    pub filled: i64,
    pub time_in_force: String,
    pub status: String,
    pub reject_reason: Option<String>,
    pub tag: Option<String>,
    pub reduce_only: bool,
}

/// A row with its texts as sequences of characters.
pub struct OrderRowView {
    pub submitted_at: i64,
    pub order_id: i64,
    pub instrument: Seq<char>,
    pub outcome: u16,
    pub side: Seq<char>,
    pub kind: Seq<char>,
    pub limit_price: Option<i64>,
    pub quantity: i64,
    pub filled: i64,
    pub time_in_force: Seq<char>,
    pub status: Seq<char>,
    pub reject_reason: Option<Seq<char>>,
    pub tag: Option<Seq<char>>,
    pub reduce_only: bool,
}

impl View for OrderRow {
    type V = OrderRowView;

    open spec fn view(&self) -> OrderRowView {
        OrderRowView {
            submitted_at: self.submitted_at,
            order_id: self.order_id,
            instrument: self.instrument@,
            outcome: self.outcome,
            side: self.side@,
            kind: self.kind@,
            limit_price: self.limit_price,
            quantity: self.quantity,
            filled: self.filled,
            time_in_force: self.time_in_force@,
            status: self.status@,
            reject_reason: text_view(self.reject_reason),
            tag: text_view(self.tag),
            reduce_only: self.reduce_only,
        }
    }
}

/// The name a lifetime is written under.
pub open spec fn lifetime_text(tif: TimeInForce) -> Seq<char> {
    match tif {
        TimeInForce::GoodTilCancel => "gtc"@,
        TimeInForce::ImmediateOrCancel => "ioc"@,
        TimeInForce::FillOrKill => "fok"@,
    }
}

/// The row of an order.
pub open spec fn order_row(order: Order) -> OrderRowView {
    OrderRowView {
        submitted_at: order.submitted_at.0,
        order_id: order.id.0 as i64,
        instrument: order.instrument@,
        outcome: order.outcome.0,
        side: side_text(order.side),
        kind: match order.kind {
            OrderKind::Market => "market"@,
            OrderKind::Limit { .. } => "limit"@,
        },
        limit_price: match order.kind {
            OrderKind::Market => None,
            OrderKind::Limit { limit } => Some(limit.0),
        },
        quantity: order.quantity.0,
        filled: order.filled.0,
        time_in_force: lifetime_text(order.time_in_force),
        status: status_text(order.status),
        reject_reason: text_view(order.reject_reason),
        tag: text_view(order.tag),
        reduce_only: order.reduce_only,
    }
}

/// Lay the orders of a run out as rows.
pub fn order_rows(orders: &[Order]) -> (rows: Vec<OrderRow>)
    ensures
        rows@.len() == orders@.len(),
        forall|i: int| 0 <= i < rows@.len() ==> (#[trigger] rows@[i])@ == order_row(orders@[i]),
{
    let mut rows: Vec<OrderRow> = Vec::new();
    let mut i: usize = 0;
    while i < orders.len()
        invariant
            i <= orders@.len(),
            rows@.len() == i,
            forall|k: int| 0 <= k < i ==> (#[trigger] rows@[k])@ == order_row(orders@[k]),
        decreases orders@.len() - i,
    {
        let order = &orders[i];
        let (kind, limit_price) = match order.limit_price() {
            Some(price) => ("limit", Some(price.0)),
            None => ("market", None),
        };
        let time_in_force = match order.time_in_force {
            TimeInForce::GoodTilCancel => "gtc",
            TimeInForce::ImmediateOrCancel => "ioc",
            TimeInForce::FillOrKill => "fok",
        };
        let row = OrderRow {
            submitted_at: order.submitted_at.0,
            order_id: #[verifier::truncate] (order.id.0 as i64),
            instrument: order.instrument.as_str().to_owned(),
            outcome: order.outcome.0,
            side: order.side.as_str().to_owned(),
            kind: kind.to_owned(),
            limit_price,
            quantity: order.quantity.0,
            filled: order.filled.0,
            time_in_force: time_in_force.to_owned(),
            status: order.status.as_str().to_owned(),
            reject_reason: clone_text(&order.reject_reason),
            tag: clone_text(&order.tag),
            reduce_only: order.reduce_only,
        };
        assert(row@ == order_row(*order));
        rows.push(row);
        i += 1;
    }
    rows
}

// -- fills ---------------------------------------------------------------------------

/// One row of the table of fills.
#[derive(PartialEq, Eq, Debug)]
pub struct FillRow {
    pub ts: i64,
    pub order_id: i64,
    pub instrument: String,
    pub outcome: u16,
    pub side: String,
    pub price: Cell,
    pub quantity: Cell,
    pub commission: Cell,
    pub is_taker: bool,
    pub tag: Option<String>,
}

/// A row with its texts as sequences of characters.
pub struct FillRowView {
    pub ts: i64,
    pub order_id: i64,
    pub instrument: Seq<char>,
    pub outcome: u16,
    pub side: Seq<char>,
    pub price: Result<Option<i64>, ErrorView>,
    pub quantity: Result<Option<i64>, ErrorView>,
    pub commission: Result<Option<i64>, ErrorView>,
    pub is_taker: bool,
    pub tag: Option<Seq<char>>,
}

impl View for FillRow {
    type V = FillRowView;

    open spec fn view(&self) -> FillRowView {
        FillRowView {
            ts: self.ts,
            order_id: self.order_id,
            instrument: self.instrument@,
            outcome: self.outcome,
            side: self.side@,
            price: cell_view(self.price),
            quantity: cell_view(self.quantity),
            commission: cell_view(self.commission),
            is_taker: self.is_taker,
            tag: text_view(self.tag),
        }
    }
}

/// The row of a fill.
pub open spec fn fill_row(fill: FillView) -> FillRowView {
    FillRowView {
        ts: fill.ts.0,
        order_id: fill.order_id.0 as i64,
        instrument: fill.instrument,
        outcome: fill.outcome.0,
        side: side_text(fill.side),
        price: Ok(Some(fill.price.0)),
        quantity: Ok(Some(fill.quantity.0)),
        commission: Ok(Some(fill.commission.0)),
        is_taker: fill.is_taker,
        tag: fill.tag,
    }
}

/// The fill a row stands for.
pub open spec fn fill_read(row: FillRowView) -> Result<FillView, ErrorView> {
    if !names_instrument(row.instrument) {
        Err(ErrorView::Invalid("instrument id must not be empty"@))
    } else {
        match side_read(row.side) {
            Err(e) => Err(e),
            Ok(side) => match value_in(row.price, "price"@) {
                Err(e) => Err(e),
                Ok(price) => match value_in(row.quantity, "quantity"@) {
                    Err(e) => Err(e),
                    Ok(quantity) => match value_in(row.commission, "commission"@) {
                        Err(e) => Err(e),
                        Ok(commission) => Ok(
                            FillView {
                                order_id: OrderId(row.order_id as u64),
                                instrument: row.instrument,
                                outcome: OutcomeId(row.outcome),
                                side,
                                price: Price(price),
                                quantity: Qty(quantity),
                                commission: Money(commission),
                                is_taker: row.is_taker,
                                ts: UnixNanos(row.ts),
                                tag: row.tag,
                            },
                        ),
                    },
                },
            },
        }
    }
}

/// What reading a fill gives.
pub open spec fn fill_reader() -> spec_fn(FillRowView) -> Result<FillView, ErrorView> {
    |row: FillRowView| fill_read(row)
}

/// When a fill happened.
pub open spec fn fill_moment() -> spec_fn(FillView) -> int {
    |fill: FillView| fill.ts.0 as int
}

/// The fills a table holds, in time order.
pub open spec fn fills_decoded(rows: Seq<FillRowView>) -> Result<Seq<FillView>, ErrorView> {
    match all_read(rows, fill_reader()) {
        Err(e) => Err(e),
        Ok(fills) => Ok(by_time(fills, fill_moment())),
    }
}

impl Dated for Fill {
    open spec fn moment(&self) -> int {
        self.ts.0 as int
    }

    fn known_at(&self) -> (r: i64) {
        self.ts.0
    }
}

/// Lay the fills of a run out as rows.
pub fn fill_rows(fills: &[Fill]) -> (rows: Vec<FillRow>)
    ensures
        views(rows@) == views(fills@).map_values(|fill: FillView| fill_row(fill)),
{
    let mut rows: Vec<FillRow> = Vec::new();
    let mut i: usize = 0;
    while i < fills.len()
        invariant
            i <= fills@.len(),
            rows@.len() == i,
            forall|k: int| 0 <= k < i ==> (#[trigger] rows@[k])@ == fill_row(fills@[k]@),
        decreases fills@.len() - i,
    {
        let fill = &fills[i];
        let row = FillRow {
            ts: fill.ts.0,
            order_id: #[verifier::truncate] (fill.order_id.0 as i64),
            instrument: fill.instrument.as_str().to_owned(),
            outcome: fill.outcome.0,
            side: fill.side.as_str().to_owned(),
            price: Ok(Some(fill.price.0)),
            quantity: Ok(Some(fill.quantity.0)),
            commission: Ok(Some(fill.commission.0)),
            is_taker: fill.is_taker,
            tag: clone_text(&fill.tag),
        };
        assert(row@ == fill_row(fill@));
        rows.push(row);
        i += 1;
    }
    assert(views(rows@) =~= views(fills@).map_values(|fill: FillView| fill_row(fill)));
    rows
}

fn read_fill(row: &FillRow) -> (r: Result<Fill, BacktestError>)
    ensures
        match r {
            Ok(fill) => fill_read(row@) == Ok::<FillView, ErrorView>(fill@),
            Err(e) => fill_read(row@) == Err::<FillView, ErrorView>(e@),
        },
{
    let instrument = InstrumentId::new(row.instrument.as_str())?;
    let side = read_side(row.side.as_str())?;
    let price: i64 = cell_value(&row.price, "price")?;
    let quantity: i64 = cell_value(&row.quantity, "quantity")?;
    let commission: i64 = cell_value(&row.commission, "commission")?;
    Ok(
        Fill {
            order_id: OrderId(#[verifier::truncate] (row.order_id as u64)),
            instrument,
            outcome: OutcomeId(row.outcome),
            side,
            price: Price(price),
            quantity: Qty(quantity),
            commission: Money(commission),
            is_taker: row.is_taker,
            ts: UnixNanos(row.ts),
            tag: clone_text(&row.tag),
        },
    )
}

/// Read a table of fills back, in time order, so that a stored run can be
/// folded into positions again and checked against what it claimed.
pub fn read_fills(rows: &[FillRow]) -> (r: Result<Vec<Fill>, BacktestError>)
    ensures
        match r {
            Ok(fills) => fills_decoded(views(rows@)) == Ok::<Seq<FillView>, ErrorView>(
                views(fills@),
            ),
            Err(e) => fills_decoded(views(rows@)) == Err::<Seq<FillView>, ErrorView>(e@),
        },
{
    let mut out: Vec<Fill> = Vec::new();
    let ghost all = views(rows@);
    let ghost reader = fill_reader();
    let ghost at = fill_moment();
    let ghost mut items: Seq<FillView> = Seq::empty();
    let mut i: usize = 0;
    assert(all.take(0) =~= Seq::empty());
    assert(views(out@) =~= by_time(items, at));
    while i < rows.len()
        invariant
            i <= rows@.len(),
            all == views(rows@),
            reader == fill_reader(),
            at == fill_moment(),
            all_read(all.take(i as int), reader) == Ok::<Seq<FillView>, ErrorView>(items),
            views(out@) == by_time(items, at),
        decreases rows@.len() - i,
    {
        proof {
            assert(all.take(i + 1).drop_last() =~= all.take(i as int));
            assert(all.take(i + 1).last() == rows@[i as int]@);
            if reader(rows@[i as int]@) is Err {
                a_fault_stays(all, reader, i + 1);
            }
        }
        let fill = read_fill(&rows[i])?;
        proof {
            filing_views(out@, fill, at);
            let grown = items.push(fill@);
            assert(grown.drop_last() =~= items);
            items = grown;
        }
        file(&mut out, fill);
        i += 1;
    }
    assert(all.take(i as int) =~= all);
    Ok(out)
}

/// A stored run's fills read back as the fills it had, in time order.
pub proof fn fills_read_back_what_was_written(fills: Seq<FillView>)
    requires
        forall|i: int| 0 <= i < fills.len() ==> names_instrument((#[trigger] fills[i]).instrument),
    ensures
        fills_decoded(fills.map_values(|fill: FillView| fill_row(fill))) == Ok::<
            Seq<FillView>,
            ErrorView,
        >(by_time(fills, fill_moment())),
{
    let rows = fills.map_values(|fill: FillView| fill_row(fill));
    let reader = fill_reader();
    assert forall|i: int| 0 <= i < rows.len() implies reader(#[trigger] rows[i]) == Ok::<
        FillView,
        ErrorView,
    >(fills[i]) by {
        let fill = fills[i];
        let id = fill.order_id.0;
        assert(names_instrument(fill.instrument));
        assert(rows[i] == fill_row(fill));
        sides_read_back(fill.side);
        assert((id as i64) as u64 == id) by (bit_vector);
    }
    each_reads(rows, reader, fills);
}

// -- positions -----------------------------------------------------------------------

/// One row of the table of positions.
#[derive(PartialEq, Eq, Debug)]
pub struct PositionRow {
    pub ts: i64,
    pub instrument: String,
    pub outcome: u16,
    pub quantity: i64,
    pub average_price: i64,
    pub realized_pnl: i64,
    pub commissions: i64,
    pub settlement_pnl: Option<i64>,
    pub market_exit_pnl: Option<i64>,
}

/// A row with its texts as sequences of characters.
pub struct PositionRowView {
    pub ts: i64,
    pub instrument: Seq<char>,
    pub outcome: u16,
    pub quantity: i64,
    pub average_price: i64,
    pub realized_pnl: i64,
    pub commissions: i64,
    pub settlement_pnl: Option<i64>,
    pub market_exit_pnl: Option<i64>,
}

impl View for PositionRow {
    type V = PositionRowView;

    open spec fn view(&self) -> PositionRowView {
        PositionRowView {
            ts: self.ts,
            instrument: self.instrument@,
            outcome: self.outcome,
            quantity: self.quantity,
            average_price: self.average_price,
            realized_pnl: self.realized_pnl,
            commissions: self.commissions,
            settlement_pnl: self.settlement_pnl,
            market_exit_pnl: self.market_exit_pnl,
        }
    }
}

/// How a position settled, if it did; where a report says so twice, the last
/// time counts.
pub open spec fn settlement_for(settled: Seq<PositionSettlement>, key: KeyView) -> Option<
    PositionSettlement,
>
    decreases settled.len(),
{
    if settled.len() == 0 {
        None
    } else if (settled.last().instrument@, settled.last().outcome.0) == key {
        Some(settled.last())
    } else {
        settlement_for(settled.drop_last(), key)
    }
}

/// The row of a position.
pub open spec fn position_row(
    position: Position,
    settled: Seq<PositionSettlement>,
    ts: i64,
) -> PositionRowView {
    let settlement = settlement_for(settled, key_of(position));
    PositionRowView {
        ts,
        instrument: position.instrument@,
        outcome: position.outcome.0,
        quantity: position.quantity.0,
        average_price: position.average_price.0,
        realized_pnl: position.realized_pnl.0,
        commissions: position.commissions.0,
        settlement_pnl: match settlement {
            Some(s) => Some(s.settled_pnl.0),
            None => None,
        },
        market_exit_pnl: match settlement {
            Some(s) => match s.market_exit_pnl {
                Some(pnl) => Some(pnl.0),
                None => None,
            },
            None => None,
        },
    }
}

/// Positions in key order, each once: those held, and no others.
pub open spec fn lists_positions(listed: Seq<Position>, held: Map<KeyView, Position>) -> bool {
    &&& forall|i: int, j: int|
        0 <= i < j < listed.len() ==> <PositionKey as OrderedKey>::before(
            key_of(#[trigger] listed[i]),
            key_of(#[trigger] listed[j]),
        )
    &&& forall|i: int|
        0 <= i < listed.len() ==> held.dom().contains(key_of(#[trigger] listed[i]))
            && held[key_of(listed[i])] == listed[i]
    &&& forall|k: KeyView| #[trigger]
        held.dom().contains(k) ==> exists|i: int|
            0 <= i < listed.len() && key_of(#[trigger] listed[i]) == k
}

/// The rows of a list of positions.
pub open spec fn rows_of_positions(
    listed: Seq<Position>,
    settled: Seq<PositionSettlement>,
    ts: i64,
) -> Seq<PositionRowView> {
    Seq::new(listed.len(), |i: int| position_row(listed[i], settled, ts))
}

/// Rows that are those of the positions held, in key order.
pub open spec fn positions_written(
    rows: Seq<PositionRowView>,
    held: Map<KeyView, Position>,
    settled: Seq<PositionSettlement>,
    ts: i64,
) -> bool {
    exists|listed: Seq<Position>| #[trigger]
        lists_positions(listed, held) && rows == rows_of_positions(listed, settled, ts)
}

/// The instant positions are written at: as far as the run got.
pub open spec fn position_instant(result: RunResult) -> i64 {
    match result.simulated_through {
        Some(at) => at.0,
        None => 0,
    }
}

fn find_settlement<'a>(settled: &'a Vec<PositionSettlement>, position: &Position) -> (r: Option<
    &'a PositionSettlement,
>)
    ensures
        match r {
            Some(s) => settlement_for(settled@, key_of(*position)) == Some(*s),
            None => settlement_for(settled@, key_of(*position)) is None,
        },
{
    let ghost key = key_of(*position);
    let mut n: usize = settled.len();
    assert(settled@.take(n as int) =~= settled@);
    while n > 0
        invariant
            n <= settled@.len(),
            key == key_of(*position),
            settlement_for(settled@, key) == settlement_for(settled@.take(n as int), key),
        decreases n,
    {
        let s = &settled[n - 1];
        assert(settled@.take(n as int).last() == *s);
        assert(settled@.take(n as int).drop_last() =~= settled@.take(n - 1));
        if str_same(s.instrument.as_str(), position.instrument.as_str()) && s.outcome.0
            == position.outcome.0 {
            return Some(s);
        }
        n -= 1;
    }
    None
}

/// Lay the positions of a run out as rows.
///
/// They are folded from the fills once more, so what is written follows from
/// what else is written.
pub fn position_rows(result: &RunResult, settlement: &SettlementReport) -> (r: Result<
    Vec<PositionRow>,
    BacktestError,
>)
    ensures
        match r {
            Ok(rows) => folded(result.fills@) is Ok && positions_written(
                views(rows@),
                folded(result.fills@)->Ok_0,
                settlement.settled@,
                position_instant(*result),
            ),
            Err(e) => folded(result.fills@) == Err::<Map<KeyView, Position>, BacktestError>(e),
        },
{
    let portfolio = Portfolio::replay(result.fills.as_slice())?;
    let ts: i64 = match result.simulated_through {
        Some(at) => at.0,
        None => 0,
    };
    let positions = portfolio.positions();
    let ghost listed = portfolio.listed();
    let mut rows: Vec<PositionRow> = Vec::new();
    let mut i: usize = 0;
    while i < positions.len()
        invariant
            i <= positions@.len(),
            positions@.len() == listed.len(),
            forall|k: int| 0 <= k < positions@.len() ==> *(#[trigger] positions@[k]) == listed[k],
            rows@.len() == i,
            forall|k: int|
                0 <= k < i ==> (#[trigger] rows@[k])@ == position_row(
                    listed[k],
                    settlement.settled@,
                    ts,
                ),
        decreases positions@.len() - i,
    {
        let position = positions[i];
        let (settlement_pnl, market_exit_pnl) = match find_settlement(
            &settlement.settled,
            position,
        ) {
            Some(s) => (
                Some(s.settled_pnl.0),
                match s.market_exit_pnl {
                    Some(pnl) => Some(pnl.0),
                    None => None,
                },
            ),
            None => (None, None),
        };
        let row = PositionRow {
            ts,
            instrument: position.instrument.as_str().to_owned(),
            outcome: position.outcome.0,
            quantity: position.quantity.0,
            average_price: position.average_price.0,
            realized_pnl: position.realized_pnl.0,
            commissions: position.commissions.0,
            settlement_pnl,
            market_exit_pnl,
        };
        assert(row@ == position_row(*position, settlement.settled@, ts));
        rows.push(row);
        i += 1;
    }
    proof {
        portfolio.listed_is_sorted();
        assert(lists_positions(listed, portfolio.held()));
        assert(views(rows@) =~= rows_of_positions(listed, settlement.settled@, ts));
    }
    Ok(rows)
}

// -- the equity curve ------------------------------------------------------------------

/// One row of the table of equity samples.
#[derive(PartialEq, Eq, Debug)]
pub struct EquityRow {
    pub ts: i64,
    pub cash: i64,
    pub position_value: i64,
    pub equity: i64,
    pub realized_pnl: i64,
    pub unrealized_pnl: i64,
}

/// The row of a sample.
pub open spec fn equity_row(point: EquityPoint) -> EquityRow {
    EquityRow {
        ts: point.ts.0,
        cash: point.cash.0,
        position_value: point.position_value.0,
        equity: point.equity.0,
        realized_pnl: point.realized_pnl.0,
        unrealized_pnl: point.unrealized_pnl.0,
    }
}

/// Lay an equity curve out as rows.
pub fn equity_rows(points: &[EquityPoint]) -> (rows: Vec<EquityRow>)
    ensures
        rows@ == points@.map_values(|point: EquityPoint| equity_row(point)),
{
    let mut rows: Vec<EquityRow> = Vec::new();
    let mut i: usize = 0;
    while i < points.len()
        invariant
            i <= points@.len(),
            rows@ == points@.take(i as int).map_values(|point: EquityPoint| equity_row(point)),
        decreases points@.len() - i,
    {
        let point = &points[i];
        let ghost was = rows@;
        rows.push(
            EquityRow {
                ts: point.ts.0,
                cash: point.cash.0,
                position_value: point.position_value.0,
                equity: point.equity.0,
                realized_pnl: point.realized_pnl.0,
                unrealized_pnl: point.unrealized_pnl.0,
            },
        );
        assert(rows@ =~= points@.take(i + 1).map_values(|point: EquityPoint| equity_row(point)));
        i += 1;
    }
    assert(points@.take(i as int) =~= points@);
    rows
}

// -- the ingest log ----------------------------------------------------------------------

/// One completed load, as recorded so that it is not repeated.
#[derive(Clone, PartialEq, Eq, Debug)]
pub struct IngestEntry {
    pub ts: UnixNanos,
    pub vendor: String,
    /// Content hash of everything the load contained.
    pub digest: String,
    pub records: i64,
    pub window: Option<TimeWindow>,
    pub instruments: i64,
}

/// One row of the ingest log.
#[derive(PartialEq, Eq, Debug)]
pub struct IngestRow {
    pub ts: i64,
    pub vendor: String,
    pub digest: String,
    pub records: i64,
    pub window_start: Option<i64>,
    pub window_end: Option<i64>,
    pub instruments: i64,
}

/// An entry and its row say the same: a window is stored as its two ends, and
/// is there again only if both are, the second after the first.
pub open spec fn logs(entry: IngestEntry, row: IngestRow) -> bool {
    &&& entry.ts.0 == row.ts
    &&& entry.vendor@ == row.vendor@
    &&& entry.digest@ == row.digest@
    &&& entry.records == row.records
    &&& entry.instruments == row.instruments
    &&& match entry.window {
        Some(window) => row.window_start == Some(window@.0) && row.window_end == Some(window@.1),
        None => row.window_start is None || row.window_end is None
            || row.window_end->Some_0 <= row.window_start->Some_0,
    }
}

/// Lay a load out as a row.
pub fn write_ingest_log(entry: &IngestEntry) -> (row: IngestRow)
    ensures
        logs(*entry, row),
        entry.window is None ==> row.window_start is None && row.window_end is None,
{
    let (window_start, window_end) = match &entry.window {
        Some(window) => (Some(window.start().0), Some(window.end().0)),
        None => (None, None),
    };
    IngestRow {
        ts: entry.ts.0,
        vendor: entry.vendor.clone(),
        digest: entry.digest.clone(),
        records: entry.records,
        window_start,
        window_end,
        instruments: entry.instruments,
    }
}

/// Read the ingest log back.
pub fn read_ingest_log(rows: &[IngestRow]) -> (out: Vec<IngestEntry>)
    ensures
        out@.len() == rows@.len(),
        forall|i: int| 0 <= i < out@.len() ==> logs(#[trigger] out@[i], rows@[i]),
{
    let mut out: Vec<IngestEntry> = Vec::new();
    let mut i: usize = 0;
    while i < rows.len()
        invariant
            i <= rows@.len(),
            out@.len() == i,
            forall|k: int| 0 <= k < i ==> logs(#[trigger] out@[k], rows@[k]),
        decreases rows@.len() - i,
    {
        let row = &rows[i];
        let window = match (row.window_start, row.window_end) {
            (Some(start), Some(end)) => TimeWindow::new(UnixNanos(start), UnixNanos(end)).ok(),
            _ => None,
        };
        let entry = IngestEntry {
            ts: UnixNanos(row.ts),
            vendor: row.vendor.clone(),
            digest: row.digest.clone(),
            records: row.records,
            window,
            instruments: row.instruments,
        };
        assert(logs(entry, *row));
        out.push(entry);
        i += 1;
    }
    out
}

/// A lifetime is read back as it was written.
pub proof fn lifetimes_read_back(tif: TimeInForce)
    ensures
        lifetime_read(lifetime_text(tif)) == Ok::<TimeInForce, ErrorView>(tif),
{
    lifetimes_differ();
}

proof fn lifetimes_differ()
    ensures
        "gtc"@ != "ioc"@,
        "gtc"@ != "fok"@,
        "ioc"@ != "fok"@,
{
    reveal_strlit("gtc");
    reveal_strlit("ioc");
    reveal_strlit("fok");
    assert("gtc"@[0] == 'g' && "ioc"@[0] == 'i' && "fok"@[0] == 'f');
}

proof fn statuses_differ(a: OrderStatus, b: OrderStatus)
    ensures
        status_text(a) == status_text(b) ==> a == b,
{
    reveal_strlit("in_flight");
    reveal_strlit("untriggered");
    reveal_strlit("accepted");
    reveal_strlit("partially_filled");
    reveal_strlit("filled");
    reveal_strlit("cancelled");
    reveal_strlit("rejected");
    assert("in_flight"@.len() == 9 && "untriggered"@.len() == 11 && "accepted"@.len() == 8);
    assert("partially_filled"@.len() == 16 && "filled"@.len() == 6);
    assert("cancelled"@.len() == 9 && "rejected"@.len() == 8);
    assert("in_flight"@[0] == 'i' && "cancelled"@[0] == 'c');
    assert("accepted"@[0] == 'a' && "rejected"@[0] == 'r');
}

/// The row of an order tells it: orders with the same row were sent at the
/// same time for the same thing, and ended alike.
pub proof fn the_row_of_an_order_tells_it(a: Order, b: Order)
    requires
        order_row(a) == order_row(b),
    ensures
        a.submitted_at == b.submitted_at,
        a.instrument@ == b.instrument@,
        a.outcome == b.outcome,
        a.side == b.side,
        a.kind == b.kind,
        a.quantity == b.quantity,
        a.filled == b.filled,
        a.time_in_force == b.time_in_force,
        a.status == b.status,
        a.reduce_only == b.reduce_only,
        a.id.0 <= i64::MAX && b.id.0 <= i64::MAX ==> a.id == b.id,
{
    sides_read_back(a.side);
    sides_read_back(b.side);
    lifetimes_differ();
    statuses_differ(a.status, b.status);
    reveal_strlit("market");
    reveal_strlit("limit");
    assert("market"@.len() == 6 && "limit"@.len() == 5);
    assert(a.submitted_at.0 == b.submitted_at.0);
    assert(a.quantity.0 == b.quantity.0 && a.filled.0 == b.filled.0);
    assert(a.outcome.0 == b.outcome.0);
}

/// The row of a position holds its figures, and what its settlement came to
/// where a report says so: what it settled for and what leaving at the last
/// mark would have come to, and neither where it did not settle.
pub proof fn the_row_of_a_position_holds_its_figures(
    position: Position,
    settled: Seq<PositionSettlement>,
    ts: i64,
)
    ensures
        ({
            let row = position_row(position, settled, ts);
            &&& row.ts == ts
            &&& row.instrument == position.instrument@
            &&& row.outcome == position.outcome.0
            &&& row.quantity == position.quantity.0
            &&& row.average_price == position.average_price.0
            &&& row.realized_pnl == position.realized_pnl.0
            &&& row.commissions == position.commissions.0
            &&& (forall|i: int|
                0 <= i < settled.len() ==> (#[trigger] settled[i]).instrument@
                    != position.instrument@ || settled[i].outcome != position.outcome)
                ==> row.settlement_pnl is None && row.market_exit_pnl is None
            &&& row.settlement_pnl is Some ==> exists|i: int|
                0 <= i < settled.len() && (#[trigger] settled[i]).instrument@
                    == position.instrument@ && settled[i].outcome == position.outcome
                    && row.settlement_pnl == Some(settled[i].settled_pnl.0) && (
                match settled[i].market_exit_pnl {
                    Some(pnl) => row.market_exit_pnl == Some(pnl.0),
                    None => row.market_exit_pnl is None,
                })
        }),
{
    settlements_are_found(settled, key_of(position));
}

proof fn settlements_are_found(settled: Seq<PositionSettlement>, key: KeyView)
    ensures
        settlement_for(settled, key) matches Some(s) ==> exists|i: int|
            0 <= i < settled.len() && #[trigger] settled[i] == s && (
            settled[i].instrument@,
            settled[i].outcome.0,
            ) == key,
    decreases settled.len(),
{
    if settled.len() > 0 {
        let head = settled.drop_last();
        if (settled.last().instrument@, settled.last().outcome.0) == key {
            assert(settled[settled.len() - 1] == settled.last());
        } else {
            settlements_are_found(head, key);
            if let Some(s) = settlement_for(head, key) {
                let i = choose|i: int|
                    0 <= i < head.len() && #[trigger] head[i] == s && (
                    head[i].instrument@,
                    head[i].outcome.0,
                    ) == key;
                assert(settled[i] == s);
            }
        }
    }
}

/// The row of an equity point holds its figures.
pub proof fn the_row_of_a_point_holds_its_figures(point: EquityPoint)
    ensures
        ({
            let row = equity_row(point);
            &&& row.ts == point.ts.0 && row.cash == point.cash.0
            &&& row.position_value == point.position_value.0 && row.equity == point.equity.0
            &&& row.realized_pnl == point.realized_pnl.0
            &&& row.unrealized_pnl == point.unrealized_pnl.0
        }),
{
}

} // verus!
