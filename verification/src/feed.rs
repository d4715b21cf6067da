//! Rows of the tables that hold a book's feed.
//!
//! A snapshot is one row per level, all sharing an event index, the final one
//! marked as the last. Applying half a snapshot would leave a crossed book,
//! so the grouping is what lets a reader refuse a truncated one instead of
//! reconstructing nonsense from it.

use vstd::prelude::*;
use vstd::string::*;

use crate::book::{BookAction, BookDelta};
use crate::error::{BacktestError, ErrorView};
use crate::event::{EventView, MarketEvent, Record, RecordView};
use crate::instrument::{names_instrument, InstrumentId, OutcomeId};
use crate::store::{
    by_time, cell_view, file, filing_views, read_cell, text_view, views, views_grow, Cell,
};
use crate::text::{int_text, lower_text, push_i64, push_u64, str_same};
use crate::types::{side_named, side_text, Price, Qty, Side, Stamps, UnixNanos};

verus! {

/// One row of the table of book events.
#[derive(PartialEq, Eq, Debug)]
pub struct BookRow {
    pub ts_init: i64,
    pub ts_event: i64,
    pub instrument: String,
    pub outcome: u16,
    pub action: String,
    pub side: Option<String>,
    pub price: Cell,
    pub size: Cell,
    pub event_index: i64,
    pub is_last: bool,
}

/// A row with its texts as sequences of characters.
pub struct BookRowView {
    pub ts_init: i64,
    pub ts_event: i64,
    pub instrument: Seq<char>,
    pub outcome: u16,
    pub action: Seq<char>,
    pub side: Option<Seq<char>>,
    pub price: Result<Option<i64>, ErrorView>,
    pub size: Result<Option<i64>, ErrorView>,
    pub event_index: i64,
    pub is_last: bool,
}

impl View for BookRow {
    type V = BookRowView;

    open spec fn view(&self) -> BookRowView {
        BookRowView {
            ts_init: self.ts_init,
            ts_event: self.ts_event,
            instrument: self.instrument@,
            outcome: self.outcome,
            action: self.action@,
            side: text_view(self.side),
            price: cell_view(self.price),
            size: cell_view(self.size),
            event_index: self.event_index,
            is_last: self.is_last,
        }
    }
}

// -- what every row starts with ------------------------------------------------

/// When a row happened and was known, if its instrument has a name.
pub open spec fn head_read(ts_event: i64, ts_init: i64, instrument: Seq<char>) -> Result<
    Stamps,
    ErrorView,
> {
    if ts_init < ts_event {
        Err(ErrorView::CausalityViolation { ts_event, ts_init })
    } else if !names_instrument(instrument) {
        Err(ErrorView::Invalid("instrument id must not be empty"@))
    } else {
        Ok(Stamps { ts_event: UnixNanos(ts_event), ts_init: UnixNanos(ts_init) })
    }
}

/// Read when a row happened and was known, and what it is about.
pub(crate) fn read_head(ts_event: i64, ts_init: i64, instrument: &str) -> (r: Result<
    (Stamps, InstrumentId),
    BacktestError,
>)
    ensures
        match r {
            Ok((stamps, id)) => head_read(ts_event, ts_init, instrument@) == Ok::<
                Stamps,
                ErrorView,
            >(stamps) && id@ == instrument@,
            Err(e) => head_read(ts_event, ts_init, instrument@) == Err::<Stamps, ErrorView>(e@),
        },
{
    let stamps = Stamps::new(UnixNanos(ts_event), UnixNanos(ts_init))?;
    let id = InstrumentId::new(instrument)?;
    Ok((stamps, id))
}

/// The side a text stands for.
pub open spec fn side_read(text: Seq<char>) -> Result<Side, ErrorView> {
    match side_named(text) {
        Some(side) => Ok(side),
        None => Err(ErrorView::Parse { what: "side"@, value: lower_text(text) }),
    }
}

/// Read a side.
pub(crate) fn read_side(text: &str) -> (r: Result<Side, BacktestError>)
    ensures
        match r {
            Ok(side) => side_read(text@) == Ok::<Side, ErrorView>(side),
            Err(e) => side_read(text@) == Err::<Side, ErrorView>(e@),
        },
{
    Side::parse(text)
}

/// A side is read back from the name it is written under.
pub proof fn sides_read_back(side: Side)
    ensures
        side_read(side_text(side)) == Ok::<Side, ErrorView>(side),
{
    reveal_strlit("buy");
    reveal_strlit("sell");
    reveal_strlit("bid");
    reveal_strlit("b");
    assert(lower_text("buy"@) =~= "buy"@);
    assert(lower_text("sell"@) =~= "sell"@);
    assert("sell"@.len() == 4 && "buy"@.len() == 3 && "bid"@.len() == 3 && "b"@.len() == 1);
}

/// The instant a record was known at.
pub open spec fn record_moment() -> spec_fn(RecordView) -> int {
    |r: RecordView| r.stamps.ts_init.0 as int
}

// -- reading -------------------------------------------------------------------

/// A snapshot whose last row has not been seen yet.
pub struct PendingView {
    pub index: i64,
    pub stamps: Stamps,
    pub instrument: Seq<char>,
    pub outcome: u16,
    pub bids: Seq<(Price, Qty)>,
    pub asks: Seq<(Price, Qty)>,
}

/// What the rows so far have come to.
pub struct Decoded {
    pub records: Seq<RecordView>,
    pub pending: Option<PendingView>,
}

/// Nothing read yet.
pub open spec fn nothing_decoded() -> Decoded {
    Decoded { records: Seq::empty(), pending: None }
}

pub open spec fn unterminated_text(pending: i64, index: i64) -> Seq<char> {
    "snapshot event "@ + int_text(pending as int)
        + " was not terminated by an is_last row before event "@ + int_text(index as int)
        + " began"@
}

pub open spec fn mixed_text(p: PendingView, instrument: Seq<char>, outcome: u16) -> Seq<char> {
    "snapshot event "@ + int_text(p.index as int) + " mixes "@ + p.instrument + "/"@ + int_text(
        p.outcome as int,
    ) + " with "@ + instrument + "/"@ + int_text(outcome as int)
        + "; one event describes one outcome of one instrument"@
}

pub open spec fn truncated_text(index: i64) -> Seq<char> {
    "snapshot event "@ + int_text(index as int)
        + " is truncated: no row carried is_last, so the book it describes is incomplete"@
}

/// The level a snapshot row carries, if it carries one.
pub open spec fn level_read(row: BookRowView) -> Result<Option<(Side, (Price, Qty))>, ErrorView> {
    match (row.price, row.size) {
        (Err(e), _) => Err(e),
        (_, Err(e)) => Err(e),
        (Ok(Some(price)), Ok(Some(size))) => match row.side {
            Some(text) => match side_read(text) {
                Ok(side) => Ok(Some((side, (Price(price), Qty(size))))),
                Err(e) => Err(e),
            },
            None => Ok(None),
        },
        _ => Ok(None),
    }
}

/// A pending snapshot with one more level.
pub open spec fn with_level(p: PendingView, level: Option<(Side, (Price, Qty))>) -> PendingView {
    match level {
        Some((Side::Buy, l)) => PendingView { bids: p.bids.push(l), ..p },
        Some((Side::Sell, l)) => PendingView { asks: p.asks.push(l), ..p },
        None => p,
    }
}

/// The snapshot a row belongs to: the one under way, or one it begins.
pub open spec fn joined(pending: Option<PendingView>, row: BookRowView, stamps: Stamps) -> PendingView {
    match pending {
        Some(p) => p,
        None => PendingView {
            index: row.event_index,
            stamps,
            instrument: row.instrument,
            outcome: row.outcome,
            bids: Seq::empty(),
            asks: Seq::empty(),
        },
    }
}

/// A whole snapshot.
pub open spec fn snapshot_of(p: PendingView) -> RecordView {
    RecordView {
        stamps: p.stamps,
        instrument: p.instrument,
        outcome: OutcomeId(p.outcome),
        event: EventView::BookSnapshot { bids: p.bids, asks: p.asks },
    }
}

/// What the rows come to with one more row of a snapshot.
///
/// The instrument and outcome come from the event's first row, so a row that
/// disagrees would be folded into that book silently: a book whose best ask
/// belongs to the other outcome. One event is one book.
pub open spec fn snapshot_row(d: Decoded, row: BookRowView, stamps: Stamps) -> Result<
    Decoded,
    ErrorView,
> {
    let p = joined(d.pending, row, stamps);
    if p.index != row.event_index {
        Err(ErrorView::Invalid(unterminated_text(p.index, row.event_index)))
    } else if p.instrument != row.instrument || p.outcome != row.outcome {
        Err(ErrorView::Invalid(mixed_text(p, row.instrument, row.outcome)))
    } else {
        match level_read(row) {
            Err(e) => Err(e),
            Ok(level) => {
                let grown = with_level(p, level);
                if row.is_last {
                    Ok(Decoded { records: d.records.push(snapshot_of(grown)), pending: None })
                } else {
                    Ok(Decoded { records: d.records, pending: Some(grown) })
                }
            },
        }
    }
}

/// The incremental update a row carries.
pub open spec fn update_read(row: BookRowView) -> Result<BookDelta, ErrorView> {
    match row.side {
        None => Err(ErrorView::Invalid(row.action + " row has no side"@)),
        Some(text) => match side_read(text) {
            Err(e) => Err(e),
            Ok(side) => if row.action == "set"@ {
                match row.price {
                    Err(e) => Err(e),
                    Ok(None) => Err(ErrorView::Invalid("set row has no price"@)),
                    Ok(Some(price)) => match row.size {
                        Err(e) => Err(e),
                        Ok(size) => Ok(
                            BookDelta {
                                action: BookAction::Put,
                                side,
                                price: Price(price),
                                size: Qty(
                                    match size {
                                        Some(s) => s,
                                        None => 0,
                                    },
                                ),
                            },
                        ),
                    },
                }
            } else if row.action == "delete"@ {
                match row.price {
                    Err(e) => Err(e),
                    Ok(None) => Err(ErrorView::Invalid("delete row has no price"@)),
                    Ok(Some(price)) => Ok(
                        BookDelta {
                            action: BookAction::Delete,
                            side,
                            price: Price(price),
                            size: Qty(0),
                        },
                    ),
                }
            } else if row.action == "clear"@ {
                Ok(BookDelta { action: BookAction::Clear, side, price: Price(0), size: Qty(0) })
            } else {
                Err(ErrorView::Parse { what: "book action"@, value: row.action })
            },
        },
    }
}

/// A record of one row.
pub open spec fn row_record(row: BookRowView, stamps: Stamps, event: EventView) -> RecordView {
    RecordView { stamps, instrument: row.instrument, outcome: OutcomeId(row.outcome), event }
}

/// What the rows come to with one more row.
pub open spec fn row_taken(d: Decoded, row: BookRowView) -> Result<Decoded, ErrorView> {
    match head_read(row.ts_event, row.ts_init, row.instrument) {
        Err(e) => Err(e),
        Ok(stamps) => if row.action == "snapshot"@ {
            snapshot_row(d, row, stamps)
        } else if row.action == "gap"@ {
            Ok(Decoded { records: d.records.push(row_record(row, stamps, EventView::Gap)), ..d })
        } else {
            match update_read(row) {
                Err(e) => Err(e),
                Ok(delta) => Ok(
                    Decoded {
                        records: d.records.push(
                            row_record(row, stamps, EventView::BookDelta(delta)),
                        ),
                        ..d
                    },
                ),
            }
        },
    }
}

/// What rows come to, from where earlier rows left off.
pub open spec fn rows_taken(d: Decoded, rows: Seq<BookRowView>) -> Result<Decoded, ErrorView>
    decreases rows.len(),
{
    if rows.len() == 0 {
        Ok(d)
    } else {
        match rows_taken(d, rows.drop_last()) {
            Err(e) => Err(e),
            Ok(so_far) => row_taken(so_far, rows.last()),
        }
    }
}

/// What a table of book events holds, in time order.
pub open spec fn book_decoded(rows: Seq<BookRowView>) -> Result<Seq<RecordView>, ErrorView> {
    match rows_taken(nothing_decoded(), rows) {
        Err(e) => Err(e),
        Ok(d) => match d.pending {
            Some(p) => Err(ErrorView::Invalid(truncated_text(p.index))),
            None => Ok(by_time(d.records, record_moment())),
        },
    }
}

proof fn a_fault_stays(d: Decoded, rows: Seq<BookRowView>, n: int)
    requires
        0 <= n <= rows.len(),
        rows_taken(d, rows.take(n)) is Err,
    ensures
        rows_taken(d, rows) == rows_taken(d, rows.take(n)),
    decreases rows.len() - n,
{
    if n < rows.len() {
        assert(rows.take(n + 1).drop_last() =~= rows.take(n));
        a_fault_stays(d, rows, n + 1);
    } else {
        assert(rows.take(n) =~= rows);
    }
}

/// A snapshot whose last row has not been seen yet.
struct Pending {
    index: i64,
    stamps: Stamps,
    instrument: InstrumentId,
    outcome: u16,
    bids: Vec<(Price, Qty)>,
    asks: Vec<(Price, Qty)>,
}

spec fn pending_view(p: Pending) -> PendingView {
    PendingView {
        index: p.index,
        stamps: p.stamps,
        instrument: p.instrument@,
        outcome: p.outcome,
        bids: p.bids@,
        asks: p.asks@,
    }
}

spec fn maybe_pending(p: Option<Pending>) -> Option<PendingView> {
    match p {
        Some(p) => Some(pending_view(p)),
        None => None,
    }
}

/// Read the level of a snapshot row, if it carries one.
fn read_level(row: &BookRow) -> (r: Result<Option<(Side, (Price, Qty))>, BacktestError>)
    ensures
        match r {
            Ok(level) => level_read(row@) == Ok::<Option<(Side, (Price, Qty))>, ErrorView>(level),
            Err(e) => level_read(row@) == Err::<Option<(Side, (Price, Qty))>, ErrorView>(e@),
        },
{
    let price = read_cell(&row.price)?;
    let size = read_cell(&row.size)?;
    match (price, size) {
        (Some(price), Some(size)) => match &row.side {
            Some(text) => {
                let side = read_side(text.as_str())?;
                Ok(Some((side, (Price(price), Qty(size)))))
            },
            None => Ok(None),
        },
        _ => Ok(None),
    }
}

/// Take one row of a snapshot, giving the whole snapshot at its last row.
fn take_level(pending: Option<Pending>, row: &BookRow, stamps: Stamps, id: InstrumentId) -> (r:
    Result<(Option<Pending>, Option<Record>), BacktestError>)
    requires
        id@ == row@.instrument,
    ensures
        forall|records: Seq<RecordView>|
            match r {
                Ok((rest, whole)) => #[trigger] snapshot_row(
                    Decoded { records, pending: maybe_pending(pending) },
                    row@,
                    stamps,
                ) == Ok::<Decoded, ErrorView>(
                    Decoded {
                        records: match whole {
                            Some(record) => records.push(record@),
                            None => records,
                        },
                        pending: maybe_pending(rest),
                    },
                ),
                Err(e) => snapshot_row(
                    Decoded { records, pending: maybe_pending(pending) },
                    row@,
                    stamps,
                ) == Err::<Decoded, ErrorView>(e@),
            },
{
    let ghost asked = maybe_pending(pending);
    let ghost here = joined(asked, row@, stamps);
    let mut p = match pending {
        Some(p) => p,
        None => Pending {
            index: row.event_index,
            stamps,
            instrument: id.clone(),
            outcome: row.outcome,
            bids: Vec::new(),
            asks: Vec::new(),
        },
    };
    proof {
        assert(pending_view(p).bids =~= here.bids);
        assert(pending_view(p).asks =~= here.asks);
        assert(pending_view(p) == here);
    }
    if p.index != row.event_index {
        let mut m = "snapshot event ".to_owned();
        push_i64(&mut m, p.index);
        m.append(" was not terminated by an is_last row before event ");
        push_i64(&mut m, row.event_index);
        m.append(" began");
        return Err(BacktestError::invalid(m.as_str()));
    }
    if !str_same(p.instrument.as_str(), row.instrument.as_str()) || p.outcome != row.outcome {
        let mut m = "snapshot event ".to_owned();
        push_i64(&mut m, row.event_index);
        m.append(" mixes ");
        m.append(p.instrument.as_str());
        m.append("/");
        push_u64(&mut m, p.outcome as u64);
        m.append(" with ");
        m.append(row.instrument.as_str());
        m.append("/");
        push_u64(&mut m, row.outcome as u64);
        m.append("; one event describes one outcome of one instrument");
        return Err(BacktestError::invalid(m.as_str()));
    }
    let level = read_level(row)?;
    match level {
        Some((Side::Buy, level)) => {
            p.bids.push(level);
        },
        Some((Side::Sell, level)) => {
            p.asks.push(level);
        },
        None => {},
    }
    let ghost grown = with_level(here, level);
    assert(pending_view(p) == grown);
    if row.is_last {
        let record = Record::new(
            p.stamps,
            p.instrument,
            OutcomeId(p.outcome),
            MarketEvent::BookSnapshot { bids: p.bids, asks: p.asks },
        );
        assert(record@ == snapshot_of(grown));
        Ok((None, Some(record)))
    } else {
        Ok((Some(p), None))
    }
}

/// Read the incremental update a row carries.
fn read_update(row: &BookRow) -> (r: Result<BookDelta, BacktestError>)
    ensures
        match r {
            Ok(delta) => update_read(row@) == Ok::<BookDelta, ErrorView>(delta),
            Err(e) => update_read(row@) == Err::<BookDelta, ErrorView>(e@),
        },
{
    let action = row.action.as_str();
    let text = match &row.side {
        Some(text) => text.as_str(),
        None => {
            let mut m = row.action.clone();
            m.append(" row has no side");
            return Err(BacktestError::invalid(m.as_str()));
        },
    };
    let side = read_side(text)?;
    if str_same(action, "set") {
        match read_cell(&row.price)? {
            Some(price) => {
                let size: i64 = match read_cell(&row.size)? {
                    Some(size) => size,
                    None => 0,
                };
                Ok(BookDelta::set(side, Price(price), Qty(size)))
            },
            None => Err(BacktestError::invalid("set row has no price")),
        }
    } else if str_same(action, "delete") {
        match read_cell(&row.price)? {
            Some(price) => Ok(BookDelta::delete(side, Price(price))),
            None => Err(BacktestError::invalid("delete row has no price")),
        }
    } else if str_same(action, "clear") {
        Ok(BookDelta::clear(side))
    } else {
        Err(BacktestError::Parse { what: "book action", value: row.action.clone() })
    }
}

/// Read a table of book events back, regrouping snapshot levels.
pub fn read_book_events(rows: &[BookRow]) -> (r: Result<Vec<Record>, BacktestError>)
    ensures
        match r {
            Ok(records) => book_decoded(views(rows@)) == Ok::<Seq<RecordView>, ErrorView>(
                views(records@),
            ),
            Err(e) => book_decoded(views(rows@)) == Err::<Seq<RecordView>, ErrorView>(e@),
        },
{
    let mut out: Vec<Record> = Vec::new();
    let mut pending: Option<Pending> = None;
    let ghost at = record_moment();
    let ghost all = views(rows@);
    let ghost mut so_far = nothing_decoded();
    let mut i: usize = 0;
    assert(all.take(0) =~= Seq::empty());
    assert(views(out@) =~= by_time(so_far.records, at));
    while i < rows.len()
        invariant
            i <= rows@.len(),
            all == views(rows@),
            at == record_moment(),
            rows_taken(nothing_decoded(), all.take(i as int)) == Ok::<Decoded, ErrorView>(so_far),
            maybe_pending(pending) == so_far.pending,
            views(out@) == by_time(so_far.records, at),
        decreases rows@.len() - i,
    {
        let row = &rows[i];
        let ghost before = so_far;
        proof {
            assert(all.take(i + 1).drop_last() =~= all.take(i as int));
            assert(all.take(i + 1).last() == row@);
            if row_taken(before, row@) is Err {
                a_fault_stays(nothing_decoded(), all, i + 1);
            } else {
                so_far = row_taken(before, row@)->Ok_0;
            }
        }
        let (stamps, id) = read_head(row.ts_event, row.ts_init, row.instrument.as_str())?;
        let action = row.action.as_str();
        let record = if str_same(action, "snapshot") {
            assert(before == Decoded { records: before.records, pending: before.pending });
            assert(snapshot_row(
                Decoded { records: before.records, pending: maybe_pending(pending) },
                row@,
                stamps,
            ) == row_taken(before, row@));
            let (rest, whole) = take_level(pending, row, stamps, id)?;
            pending = rest;
            whole
        } else if str_same(action, "gap") {
            Some(Record::new(stamps, id, OutcomeId(row.outcome), MarketEvent::Gap))
        } else {
            let delta = read_update(row)?;
            Some(Record::new(stamps, id, OutcomeId(row.outcome), MarketEvent::BookDelta(delta)))
        };
        if let Some(record) = record {
            proof {
                filing_views(out@, record, at);
                assert(so_far.records.drop_last() =~= before.records);
                assert(so_far.records.last() == record@);
            }
            file(&mut out, record);
        }
        i += 1;
    }
    assert(all.take(i as int) =~= all);
    if let Some(p) = pending {
        let mut m = "snapshot event ".to_owned();
        push_i64(&mut m, p.index);
        m.append(" is truncated: no row carried is_last, so the book it describes is incomplete");
        return Err(BacktestError::invalid(m.as_str()));
    }
    Ok(out)
}

// -- writing -------------------------------------------------------------------

/// An event that belongs to a book's own feed.
pub open spec fn is_book_event(event: EventView) -> bool {
    event is BookSnapshot || event is BookDelta || event is Gap
}

/// A row of a record.
pub open spec fn book_row(
    record: RecordView,
    index: i64,
    action: Seq<char>,
    side: Option<Side>,
    price: Option<i64>,
    size: Option<i64>,
    is_last: bool,
) -> BookRowView {
    BookRowView {
        ts_init: record.stamps.ts_init.0,
        ts_event: record.stamps.ts_event.0,
        instrument: record.instrument,
        outcome: record.outcome.0,
        action,
        side: match side {
            Some(side) => Some(side_text(side)),
            None => None,
        },
        price: Ok(price),
        size: Ok(size),
        event_index: index,
        is_last,
    }
}

/// The row of one level of a snapshot.
pub open spec fn level_row(
    record: RecordView,
    index: i64,
    side: Side,
    level: (Price, Qty),
    is_last: bool,
) -> BookRowView {
    book_row(record, index, "snapshot"@, Some(side), Some(level.0.0), Some(level.1.0), is_last)
}

/// The rows of a snapshot: a row per level, bids first, the final one marked.
/// An empty book is a real state, so it gets a row of its own.
pub open spec fn snapshot_rows(
    record: RecordView,
    index: i64,
    bids: Seq<(Price, Qty)>,
    asks: Seq<(Price, Qty)>,
) -> Seq<BookRowView> {
    let total = (bids.len() + asks.len()) as nat;
    if total == 0 {
        seq![book_row(record, index, "snapshot"@, None, None, None, true)]
    } else {
        Seq::new(
            total,
            |i: int|
                if i < bids.len() {
                    level_row(record, index, Side::Buy, bids[i], i == total - 1)
                } else {
                    level_row(record, index, Side::Sell, asks[i - bids.len()], i == total - 1)
                },
        )
    }
}

/// The row of an incremental update.
pub open spec fn update_row(record: RecordView, index: i64, delta: BookDelta) -> BookRowView {
    match delta.action {
        BookAction::Put => book_row(
            record,
            index,
            "set"@,
            Some(delta.side),
            Some(delta.price.0),
            Some(delta.size.0),
            true,
        ),
        BookAction::Delete => book_row(
            record,
            index,
            "delete"@,
            Some(delta.side),
            Some(delta.price.0),
            None,
            true,
        ),
        BookAction::Clear => book_row(record, index, "clear"@, Some(delta.side), None, None, true),
    }
}

/// The rows of a record.
pub open spec fn record_rows(record: RecordView, index: i64) -> Seq<BookRowView> {
    match record.event {
        EventView::BookSnapshot { bids, asks } => snapshot_rows(record, index, bids, asks),
        EventView::BookDelta(delta) => seq![update_row(record, index, delta)],
        _ => seq![book_row(record, index, "gap"@, None, None, None, true)],
    }
}

/// The rows of a list of records, each numbered by its place in the list.
pub open spec fn all_rows(records: Seq<RecordView>) -> Seq<BookRowView>
    decreases records.len(),
{
    if records.len() == 0 {
        Seq::empty()
    } else {
        all_rows(records.drop_last()) + record_rows(records.last(), (records.len() - 1) as i64)
    }
}

pub open spec fn not_a_book_event_text() -> Seq<char> {
    "trades, bars, funding, reference prices and corporate actions belong in their own tables, not book_deltas"@
}

/// Write one row.
fn write_row(
    record: &Record,
    index: i64,
    action: &str,
    side: Option<Side>,
    price: Option<i64>,
    size: Option<i64>,
    is_last: bool,
) -> (row: BookRow)
    ensures
        row@ == book_row(record@, index, action@, side, price, size, is_last),
{
    BookRow {
        ts_init: record.stamps.ts_init.0,
        ts_event: record.stamps.ts_event.0,
        instrument: record.instrument.as_str().to_owned(),
        outcome: record.outcome.0,
        action: action.to_owned(),
        side: match side {
            Some(side) => Some(side.as_str().to_owned()),
            None => None,
        },
        price: Ok(price),
        size: Ok(size),
        event_index: index,
        is_last,
    }
}

/// Write the rows of a snapshot behind `out`.
fn write_snapshot(
    out: &mut Vec<BookRow>,
    record: &Record,
    index: i64,
    bids: &Vec<(Price, Qty)>,
    asks: &Vec<(Price, Qty)>,
)
    ensures
        views(final(out)@) == views(old(out)@) + snapshot_rows(record@, index, bids@, asks@),
{
    let ghost before = views(out@);
    let ghost rows = snapshot_rows(record@, index, bids@, asks@);
    if bids.len() == 0 && asks.len() == 0 {
        let row = write_row(record, index, "snapshot", None, None, None, true);
        let ghost was = out@;
        out.push(row);
        assert(views(out@) =~= views(was).push(row@));
        assert(views(out@) =~= before + rows);
        return;
    }
    let mut i: usize = 0;
    assert(before + rows.take(0) =~= before);
    while i < bids.len()
        invariant
            i <= bids@.len(),
            bids@.len() + asks@.len() > 0,
            rows == snapshot_rows(record@, index, bids@, asks@),
            views(out@) == before + rows.take(i as int),
        decreases bids@.len() - i,
    {
        let last = asks.len() == 0 && i + 1 == bids.len();
        let (price, size) = bids[i];
        let row = write_row(
            record,
            index,
            "snapshot",
            Some(Side::Buy),
            Some(price.0),
            Some(size.0),
            last,
        );
        let ghost was = out@;
        out.push(row);
        proof {
            assert(row@ == rows[i as int]);
            assert(views(out@) =~= views(was).push(row@));
            assert(rows.take(i + 1) =~= rows.take(i as int).push(row@));
            assert(views(out@) =~= before + rows.take(i + 1));
        }
        i += 1;
    }
    let mut k: usize = 0;
    while k < asks.len()
        invariant
            k <= asks@.len(),
            bids@.len() + asks@.len() > 0,
            rows == snapshot_rows(record@, index, bids@, asks@),
            views(out@) == before + rows.take(bids@.len() + k),
        decreases asks@.len() - k,
    {
        let last = k + 1 == asks.len();
        let (price, size) = asks[k];
        let row = write_row(
            record,
            index,
            "snapshot",
            Some(Side::Sell),
            Some(price.0),
            Some(size.0),
            last,
        );
        let ghost was = out@;
        out.push(row);
        proof {
            let n = bids@.len() + k;
            assert(row@ == rows[n]);
            assert(views(out@) =~= views(was).push(row@));
            assert(rows.take(n + 1) =~= rows.take(n).push(row@));
            assert(views(out@) =~= before + rows.take(n + 1));
        }
        k += 1;
    }
    assert(rows.take(bids@.len() + k) =~= rows);
}

/// Lay book records (snapshots, updates, gaps) out as rows.
pub fn write_book_events(records: &[Record]) -> (r: Result<Vec<BookRow>, BacktestError>)
    requires
        records@.len() <= i64::MAX,
    ensures
        match r {
            Ok(rows) => {
                &&& forall|i: int|
                    0 <= i < records@.len() ==> is_book_event((#[trigger] records@[i])@.event)
                &&& views(rows@) == all_rows(views(records@))
            },
            Err(e) => {
                &&& exists|i: int|
                    0 <= i < records@.len() && !is_book_event((#[trigger] records@[i])@.event)
                &&& e@ == ErrorView::Invalid(not_a_book_event_text())
            },
        },
{
    let mut out: Vec<BookRow> = Vec::new();
    let mut i: usize = 0;
    let ghost all = views(records@);
    assert(all.take(0) =~= Seq::empty());
    assert(views(out@) =~= all_rows(all.take(0)));
    while i < records.len()
        invariant
            i <= records@.len() <= i64::MAX,
            all == views(records@),
            views(out@) == all_rows(all.take(i as int)),
            forall|k: int| 0 <= k < i ==> is_book_event((#[trigger] records@[k])@.event),
        decreases records@.len() - i,
    {
        let record = &records[i];
        let index: i64 = i as i64;
        let ghost was = out@;
        proof {
            views_grow(records@, i as int);
            assert(all.take(i + 1) =~= views(records@.take(i + 1)));
            assert(all.take(i as int) =~= views(records@.take(i as int)));
        }
        match &record.event {
            MarketEvent::BookSnapshot { bids, asks } => {
                write_snapshot(&mut out, record, index, bids, asks);
            },
            MarketEvent::BookDelta(delta) => {
                let row = match delta.action {
                    BookAction::Put => write_row(
                        record,
                        index,
                        "set",
                        Some(delta.side),
                        Some(delta.price.0),
                        Some(delta.size.0),
                        true,
                    ),
                    BookAction::Delete => write_row(
                        record,
                        index,
                        "delete",
                        Some(delta.side),
                        Some(delta.price.0),
                        None,
                        true,
                    ),
                    BookAction::Clear => write_row(
                        record,
                        index,
                        "clear",
                        Some(delta.side),
                        None,
                        None,
                        true,
                    ),
                };
                out.push(row);
                assert(views(out@) =~= views(was) + seq![row@]);
            },
            MarketEvent::Gap => {
                let row = write_row(record, index, "gap", None, None, None, true);
                out.push(row);
                assert(views(out@) =~= views(was) + seq![row@]);
            },
            _ => {
                assert(!is_book_event(records@[i as int]@.event));
                return Err(
                    BacktestError::invalid(
                        "trades, bars, funding, reference prices and corporate actions belong in their own tables, not book_deltas",
                    ),
                );
            },
        }
        i += 1;
    }
    assert(all.take(i as int) =~= all);
    Ok(out)
}

// -- what is written is what is read ---------------------------------------------

/// A record that a row can carry whole: an event of a book's feed, known no
/// earlier than it happened, of a named instrument, and, where it is an
/// update, carrying only what its action says.
pub open spec fn storable(record: RecordView) -> bool {
    &&& is_book_event(record.event)
    &&& record.stamps.wf()
    &&& names_instrument(record.instrument)
    &&& record.event matches EventView::BookDelta(delta) ==> match delta.action {
        BookAction::Put => true,
        BookAction::Delete => delta.size == Qty(0),
        BookAction::Clear => delta.price == Price(0) && delta.size == Qty(0),
    }
}

proof fn taken_in_two(d: Decoded, a: Seq<BookRowView>, b: Seq<BookRowView>)
    ensures
        rows_taken(d, a + b) == match rows_taken(d, a) {
            Err(e) => Err(e),
            Ok(mid) => rows_taken(mid, b),
        },
    decreases b.len(),
{
    if b.len() == 0 {
        assert(a + b =~= a);
    } else {
        assert((a + b).drop_last() =~= a + b.drop_last());
        assert((a + b).last() == b.last());
        taken_in_two(d, a, b.drop_last());
    }
}

proof fn actions_differ()
    ensures
        "set"@ != "snapshot"@,
        "set"@ != "gap"@,
        "delete"@ != "snapshot"@,
        "delete"@ != "gap"@,
        "delete"@ != "set"@,
        "clear"@ != "snapshot"@,
        "clear"@ != "gap"@,
        "clear"@ != "set"@,
        "clear"@ != "delete"@,
        "gap"@ != "snapshot"@,
{
    reveal_strlit("set");
    reveal_strlit("gap");
    reveal_strlit("delete");
    reveal_strlit("clear");
    reveal_strlit("snapshot");
    assert("set"@.len() == 3 && "gap"@.len() == 3 && "delete"@.len() == 6);
    assert("clear"@.len() == 5 && "snapshot"@.len() == 8);
    assert("set"@[0] == 's' && "gap"@[0] == 'g');
}

/// A snapshot after its first `n` rows, before its last.
spec fn part_read(record: RecordView, index: i64, bids: Seq<(Price, Qty)>, asks: Seq<(Price, Qty)>, n: int) -> PendingView {
    PendingView {
        index,
        stamps: record.stamps,
        instrument: record.instrument,
        outcome: record.outcome.0,
        bids: bids.take(if n < bids.len() { n } else { bids.len() as int }),
        asks: asks.take(if n < bids.len() { 0 } else { n - bids.len() }),
    }
}

proof fn levels_read_back(
    done: Seq<RecordView>,
    record: RecordView,
    index: i64,
    bids: Seq<(Price, Qty)>,
    asks: Seq<(Price, Qty)>,
    n: int,
)
    requires
        storable(record),
        record.event == (EventView::BookSnapshot { bids, asks }),
        1 <= n < bids.len() + asks.len(),
    ensures
        rows_taken(
            Decoded { records: done, pending: None },
            snapshot_rows(record, index, bids, asks).take(n),
        ) == Ok::<Decoded, ErrorView>(
            Decoded { records: done, pending: Some(part_read(record, index, bids, asks, n)) },
        ),
    decreases n,
{
    let rows = snapshot_rows(record, index, bids, asks);
    let start = Decoded { records: done, pending: None };
    let row = rows[n - 1];
    assert(rows.take(n).drop_last() =~= rows.take(n - 1));
    assert(rows.take(n).last() == row);
    sides_read_back(Side::Buy);
    sides_read_back(Side::Sell);
    let here = part_read(record, index, bids, asks, n);
    if n == 1 {
        assert(rows.take(0) =~= Seq::empty());
        let p = joined(None, row, record.stamps);
        let grown = with_level(p, level_read(row)->Ok_0);
        assert(grown.bids =~= here.bids);
        assert(grown.asks =~= here.asks);
        assert(row_taken(start, row) == Ok::<Decoded, ErrorView>(
            Decoded { records: done, pending: Some(here) },
        ));
    } else {
        levels_read_back(done, record, index, bids, asks, n - 1);
        let p = part_read(record, index, bids, asks, n - 1);
        let grown = with_level(p, level_read(row)->Ok_0);
        assert(grown.bids =~= here.bids);
        assert(grown.asks =~= here.asks);
    }
}

proof fn record_reads_back(done: Seq<RecordView>, record: RecordView, index: i64)
    requires
        storable(record),
    ensures
        rows_taken(Decoded { records: done, pending: None }, record_rows(record, index)) == Ok::<
            Decoded,
            ErrorView,
        >(Decoded { records: done.push(record), pending: None }),
{
    let start = Decoded { records: done, pending: None };
    let rows = record_rows(record, index);
    let row = rows.last();
    actions_differ();
    sides_read_back(Side::Buy);
    sides_read_back(Side::Sell);
    match record.event {
        EventView::BookSnapshot { bids, asks } => {
            let total = bids.len() + asks.len();
            if total <= 1 {
                assert(rows.drop_last() =~= Seq::empty());
                assert(rows_taken(start, rows.drop_last()) == Ok::<Decoded, ErrorView>(start));
                let p = joined(None, row, record.stamps);
                let grown = with_level(p, level_read(row)->Ok_0);
                assert(grown.bids =~= bids);
                assert(grown.asks =~= asks);
            } else {
                levels_read_back(done, record, index, bids, asks, total - 1);
                assert(rows.drop_last() =~= rows.take(total - 1));
                let p = part_read(record, index, bids, asks, total - 1);
                let grown = with_level(p, level_read(row)->Ok_0);
                assert(grown.bids =~= bids);
                assert(grown.asks =~= asks);
            }
        },
        _ => {
            assert(rows.drop_last() =~= Seq::empty());
            assert(rows_taken(start, rows.drop_last()) == Ok::<Decoded, ErrorView>(start));
        },
    }
}

proof fn records_read_back(records: Seq<RecordView>)
    requires
        forall|i: int| 0 <= i < records.len() ==> storable(#[trigger] records[i]),
    ensures
        rows_taken(nothing_decoded(), all_rows(records)) == Ok::<Decoded, ErrorView>(
            Decoded { records, pending: None },
        ),
    decreases records.len(),
{
    if records.len() == 0 {
        assert(records =~= Seq::empty());
    } else {
        let rest = records.drop_last();
        assert forall|i: int| 0 <= i < rest.len() implies storable(#[trigger] rest[i]) by {
            assert(rest[i] == records[i]);
        }
        records_read_back(rest);
        let index = (records.len() - 1) as i64;
        assert(storable(records[records.len() - 1]));
        record_reads_back(rest, records.last(), index);
        taken_in_two(nothing_decoded(), all_rows(rest), record_rows(records.last(), index));
        assert(rest.push(records.last()) =~= records);
    }
}

/// Reading back what was written gives the records written, in time order:
/// every snapshot with its levels as they were listed, empty ones included,
/// every update and every declared gap.
pub proof fn books_read_back_what_was_written(records: Seq<RecordView>)
    requires
        forall|i: int| 0 <= i < records.len() ==> storable(#[trigger] records[i]),
    ensures
        book_decoded(all_rows(records)) == Ok::<Seq<RecordView>, ErrorView>(
            by_time(records, record_moment()),
        ),
{
    records_read_back(records);
}

/// A snapshot that lost its last row is refused rather than reconstructed.
pub proof fn a_truncated_snapshot_is_refused(
    records: Seq<RecordView>,
    cut: RecordView,
    index: i64,
    n: int,
)
    requires
        forall|i: int| 0 <= i < records.len() ==> storable(#[trigger] records[i]),
        storable(cut),
        cut.event is BookSnapshot,
        1 <= n < record_rows(cut, index).len(),
    ensures
        book_decoded(all_rows(records) + record_rows(cut, index).take(n)) == Err::<
            Seq<RecordView>,
            ErrorView,
        >(ErrorView::Invalid(truncated_text(index))),
{
    records_read_back(records);
    let bids = cut.event->bids;
    let asks = cut.event->asks;
    levels_read_back(records, cut, index, bids, asks, n);
    taken_in_two(nothing_decoded(), all_rows(records), record_rows(cut, index).take(n));
}

} // verus!
