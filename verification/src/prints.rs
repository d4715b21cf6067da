//! Rows of the tables that hold prints, funding and reference prices.

use vstd::prelude::*;
use vstd::string::*;

use crate::error::{BacktestError, ErrorView};
use crate::event::{EventView, MarketEvent, Record, RecordView};
use crate::feed::{head_read, read_head, read_side, record_moment, side_read, sides_read_back};
use crate::instrument::{names_instrument, OutcomeId};
use crate::store::{
    a_fault_stays, all_read, by_time, cell_value, cell_view, each_reads, file, filing_views,
    read_cell, text_view, value_in, views, Cell,
};
use crate::types::{side_text, Price, Qty, Side};

verus! {

/// Put records in time order.
pub(crate) fn in_time_order(records: Vec<Record>) -> (out: Vec<Record>)
    ensures
        views(out@) == by_time(views(records@), record_moment()),
{
    let ghost all = records@;
    let ghost at = record_moment();
    let mut queue = records;
    let mut rest: Vec<Record> = Vec::new();
    let mut out: Vec<Record> = Vec::new();
    // Turned round first, so that the earliest written comes off the end.
    while queue.len() > 0
        invariant
            queue@.len() + rest@.len() == all.len(),
            queue@ == all.take(queue@.len() as int),
            forall|k: int| 0 <= k < rest@.len() ==> #[trigger] rest@[k] == all[all.len() - 1 - k],
        decreases queue@.len(),
    {
        let ghost n = queue@.len();
        let item = queue.pop();
        if let Some(record) = item {
            assert(record == all[n - 1]);
            rest.push(record);
            assert(queue@ =~= all.take(n - 1));
        }
    }
    assert(views(all).take(0) =~= Seq::empty());
    assert(views(out@) =~= by_time(views(all).take(0), at));
    while rest.len() > 0
        invariant
            rest@.len() <= all.len(),
            at == record_moment(),
            forall|k: int| 0 <= k < rest@.len() ==> #[trigger] rest@[k] == all[all.len() - 1 - k],
            views(out@) == by_time(views(all).take(all.len() - rest@.len()), at),
        decreases rest@.len(),
    {
        let ghost n = all.len() - rest@.len();
        let item = rest.pop();
        if let Some(record) = item {
            proof {
                assert(record == all[n]);
                assert(views(all).take(n + 1).drop_last() =~= views(all).take(n));
                assert(views(all).take(n + 1).last() == record@);
                filing_views(out@, record, at);
            }
            file(&mut out, record);
        }
    }
    assert(views(all).take(all.len() as int) =~= views(all));
    out
}

// -- trades ----------------------------------------------------------------

/// One row of the table of trades.
#[derive(PartialEq, Eq, Debug)]
pub struct TradeRow {
    pub ts_init: i64,
    pub ts_event: i64,
    pub instrument: String,
    pub outcome: u16,
    pub price: Cell,
    pub size: Cell,
    pub aggressor: Option<String>,
}

/// A row with its texts as sequences of characters.
pub struct TradeRowView {
    pub ts_init: i64,
    pub ts_event: i64,
    pub instrument: Seq<char>,
    pub outcome: u16,
    pub price: Result<Option<i64>, ErrorView>,
    pub size: Result<Option<i64>, ErrorView>,
    pub aggressor: Option<Seq<char>>,
}

impl View for TradeRow {
    type V = TradeRowView;

    open spec fn view(&self) -> TradeRowView {
        TradeRowView {
            ts_init: self.ts_init,
            ts_event: self.ts_event,
            instrument: self.instrument@,
            outcome: self.outcome,
            price: cell_view(self.price),
            size: cell_view(self.size),
            aggressor: text_view(self.aggressor),
        }
    }
}

/// The event a row carries.
pub open spec fn trade_event(row: TradeRowView) -> Result<EventView, ErrorView> {
    match value_in(row.price, "price"@) {
        Err(e) => Err(e),
        Ok(price) => match value_in(row.size, "size"@) {
            Err(e) => Err(e),
            Ok(size) => match row.aggressor {
                None => Ok(
                    EventView::Trade { price: Price(price), size: Qty(size), aggressor: None },
                ),
                Some(text) => match side_read(text) {
                    Err(e) => Err(e),
                    Ok(side) => Ok(
                        EventView::Trade {
                            price: Price(price),
                            size: Qty(size),
                            aggressor: Some(side),
                        },
                    ),
                },
            },
        },
    }
}

/// The record a row stands for.
pub open spec fn trade_record(row: TradeRowView) -> Result<RecordView, ErrorView> {
    match head_read(row.ts_event, row.ts_init, row.instrument) {
        Err(e) => Err(e),
        Ok(stamps) => match trade_event(row) {
            Err(e) => Err(e),
            Ok(event) => Ok(
                RecordView {
                    stamps,
                    instrument: row.instrument,
                    outcome: OutcomeId(row.outcome),
                    event,
                },
            ),
        },
    }
}

/// What reading a row gives.
pub open spec fn trade_reader() -> spec_fn(TradeRowView) -> Result<RecordView, ErrorView> {
    |row: TradeRowView| trade_record(row)
}

fn one_trade(row: &TradeRow) -> (r: Result<Record, BacktestError>)
    ensures
        match r {
            Ok(record) => trade_record(row@) == Ok::<RecordView, ErrorView>(record@),
            Err(e) => trade_record(row@) == Err::<RecordView, ErrorView>(e@),
        },
{
    let (stamps, id) = read_head(row.ts_event, row.ts_init, row.instrument.as_str())?;
    let price: i64 = cell_value(&row.price, "price")?;
    let size: i64 = cell_value(&row.size, "size")?;
    let aggressor = match &row.aggressor {
        Some(text) => Some(read_side(text.as_str())?),
        None => None,
    };
    let event = MarketEvent::Trade { price: Price(price), size: Qty(size), aggressor };
    Ok(Record::new(stamps, id, OutcomeId(row.outcome), event))
}

/// Decode rows of trades in the order they are stored.
pub fn decode_trades(rows: &[TradeRow]) -> (r: Result<Vec<Record>, BacktestError>)
    ensures
        match r {
            Ok(records) => all_read(views(rows@), trade_reader()) == Ok::<
                Seq<RecordView>,
                ErrorView,
            >(views(records@)),
            Err(e) => all_read(views(rows@), trade_reader()) == Err::<
                Seq<RecordView>,
                ErrorView,
            >(e@),
        },
{
    let mut out: Vec<Record> = Vec::new();
    let ghost all = views(rows@);
    let ghost reader = trade_reader();
    let mut i: usize = 0;
    assert(all.take(0) =~= Seq::empty());
    assert(views(out@) =~= Seq::empty());
    while i < rows.len()
        invariant
            i <= rows@.len(),
            all == views(rows@),
            reader == trade_reader(),
            all_read(all.take(i as int), reader) == Ok::<Seq<RecordView>, ErrorView>(views(out@)),
        decreases rows@.len() - i,
    {
        proof {
            assert(all.take(i + 1).drop_last() =~= all.take(i as int));
            assert(all.take(i + 1).last() == rows@[i as int]@);
            if reader(rows@[i as int]@) is Err {
                a_fault_stays(all, reader, i + 1);
            }
        }
        let record = one_trade(&rows[i])?;
        let ghost was = out@;
        out.push(record);
        assert(views(out@) =~= views(was).push(record@));
        i += 1;
    }
    assert(all.take(i as int) =~= all);
    Ok(out)
}

/// What a table of trades holds, in time order.
pub open spec fn trades_decoded(rows: Seq<TradeRowView>) -> Result<Seq<RecordView>, ErrorView> {
    match all_read(rows, trade_reader()) {
        Err(e) => Err(e),
        Ok(records) => Ok(by_time(records, record_moment())),
    }
}

/// Read a table of trades back, in time order.
pub fn read_trades(rows: &[TradeRow]) -> (r: Result<Vec<Record>, BacktestError>)
    ensures
        match r {
            Ok(records) => trades_decoded(views(rows@)) == Ok::<Seq<RecordView>, ErrorView>(
                views(records@),
            ),
            Err(e) => trades_decoded(views(rows@)) == Err::<Seq<RecordView>, ErrorView>(e@),
        },
{
    let records = decode_trades(rows)?;
    Ok(in_time_order(records))
}

/// The row a record is laid out as.
pub open spec fn trade_row(record: RecordView) -> TradeRowView {
    TradeRowView {
        ts_init: record.stamps.ts_init.0,
        ts_event: record.stamps.ts_event.0,
        instrument: record.instrument,
        outcome: record.outcome.0,
        price: Ok(Some((record.event->Trade_price).0)),
        size: Ok(Some((record.event->Trade_size).0)),
        aggressor: match record.event->aggressor {
            Some(side) => Some(side_text(side)),
            None => None,
        },
    }
}

/// Whether a record belongs in the table of trades.
pub open spec fn is_trade(record: RecordView) -> bool {
    record.event is Trade
}

/// Lay records out as rows of the table of trades.
pub fn write_trades(records: &[Record]) -> (r: Result<Vec<TradeRow>, BacktestError>)
    ensures
        match r {
            Ok(rows) => {
                &&& forall|i: int| 0 <= i < records@.len() ==> is_trade((#[trigger] records@[i])@)
                &&& views(rows@) == views(records@).map_values(
                    |record: RecordView| trade_row(record),
                )
            },
            Err(e) => {
                &&& exists|i: int|
                    0 <= i < records@.len() && !is_trade((#[trigger] records@[i])@)
                &&& e@ == ErrorView::Invalid("write_trades takes trade records only"@)
            },
        },
{
    let mut out: Vec<TradeRow> = Vec::new();
    let mut i: usize = 0;
    while i < records.len()
        invariant
            i <= records@.len(),
            out@.len() == i,
            forall|k: int| 0 <= k < i ==> is_trade((#[trigger] records@[k])@),
            forall|k: int| 0 <= k < i ==> (#[trigger] out@[k])@ == trade_row(records@[k]@),
        decreases records@.len() - i,
    {
        let record = &records[i];
        match &record.event {
            MarketEvent::Trade { price, size, aggressor } => {
                let row = TradeRow {
                    ts_init: record.stamps.ts_init.0,
                    ts_event: record.stamps.ts_event.0,
                    instrument: record.instrument.as_str().to_owned(),
                    outcome: record.outcome.0,
                    price: Ok(Some(price.0)),
                    size: Ok(Some(size.0)),
                    aggressor: match aggressor {
                        Some(side) => Some(side.as_str().to_owned()),
                        None => None,
                    },
                };
                assert(row@ == trade_row(record@));
                out.push(row);
            },
            _ => {
                assert(!is_trade(records@[i as int]@));
                return Err(BacktestError::invalid("write_trades takes trade records only"));
            },
        }
        i += 1;
    }
    assert(views(out@) =~= views(records@).map_values(|record: RecordView| trade_row(record)));
    Ok(out)
}

/// A record the table of trades can carry whole.
pub open spec fn trade_storable(record: RecordView) -> bool {
    &&& is_trade(record)
    &&& record.stamps.wf()
    &&& names_instrument(record.instrument)
}

/// Reading trades back gives the records written, in time order.
pub proof fn trades_read_back_what_was_written(records: Seq<RecordView>)
    requires
        forall|i: int| 0 <= i < records.len() ==> trade_storable(#[trigger] records[i]),
    ensures
        trades_decoded(records.map_values(|record: RecordView| trade_row(record))) == Ok::<
            Seq<RecordView>,
            ErrorView,
        >(by_time(records, record_moment())),
{
    let rows = records.map_values(|record: RecordView| trade_row(record));
    let reader = trade_reader();
    assert forall|i: int| 0 <= i < rows.len() implies reader(#[trigger] rows[i]) == Ok::<
        RecordView,
        ErrorView,
    >(records[i]) by {
        assert(trade_storable(records[i]));
        sides_read_back(Side::Buy);
        sides_read_back(Side::Sell);
        assert(rows[i] == trade_row(records[i]));
    }
    each_reads(rows, reader, records);
}

// -- funding ---------------------------------------------------------------

/// One row of the table of funding.
#[derive(PartialEq, Eq, Debug)]
pub struct FundingRow {
    pub ts_init: i64,
    pub ts_event: i64,
    pub instrument: String,
    pub rate: Cell,
}

/// A row with its texts as sequences of characters.
pub struct FundingRowView {
    pub ts_init: i64,
    pub ts_event: i64,
    pub instrument: Seq<char>,
    pub rate: Result<Option<i64>, ErrorView>,
}

impl View for FundingRow {
    type V = FundingRowView;

    open spec fn view(&self) -> FundingRowView {
        FundingRowView {
            ts_init: self.ts_init,
            ts_event: self.ts_event,
            instrument: self.instrument@,
            rate: cell_view(self.rate),
        }
    }
}

/// The event a row carries.
pub open spec fn funding_event(row: FundingRowView) -> Result<EventView, ErrorView> {
    match value_in(row.rate, "rate"@) {
        Err(e) => Err(e),
        Ok(rate) => Ok(EventView::Funding { rate: Price(rate) }),
    }
}

/// The record a row stands for.
pub open spec fn funding_record(row: FundingRowView) -> Result<RecordView, ErrorView> {
    match head_read(row.ts_event, row.ts_init, row.instrument) {
        Err(e) => Err(e),
        Ok(stamps) => match funding_event(row) {
            Err(e) => Err(e),
            Ok(event) => Ok(
                RecordView {
                    stamps,
                    instrument: row.instrument,
                    outcome: OutcomeId(0),
                    event,
                },
            ),
        },
    }
}

/// What reading a row gives.
pub open spec fn funding_reader() -> spec_fn(FundingRowView) -> Result<RecordView, ErrorView> {
    |row: FundingRowView| funding_record(row)
}

fn one_funding(row: &FundingRow) -> (r: Result<Record, BacktestError>)
    ensures
        match r {
            Ok(record) => funding_record(row@) == Ok::<RecordView, ErrorView>(record@),
            Err(e) => funding_record(row@) == Err::<RecordView, ErrorView>(e@),
        },
{
    let (stamps, id) = read_head(row.ts_event, row.ts_init, row.instrument.as_str())?;
    let rate: i64 = cell_value(&row.rate, "rate")?;
    let event = MarketEvent::Funding { rate: Price(rate) };
    Ok(Record::new(stamps, id, OutcomeId::first(), event))
}

/// Decode rows of funding in the order they are stored.
pub fn decode_funding(rows: &[FundingRow]) -> (r: Result<Vec<Record>, BacktestError>)
    ensures
        match r {
            Ok(records) => all_read(views(rows@), funding_reader()) == Ok::<
                Seq<RecordView>,
                ErrorView,
            >(views(records@)),
            Err(e) => all_read(views(rows@), funding_reader()) == Err::<
                Seq<RecordView>,
                ErrorView,
            >(e@),
        },
{
    let mut out: Vec<Record> = Vec::new();
    let ghost all = views(rows@);
    let ghost reader = funding_reader();
    let mut i: usize = 0;
    assert(all.take(0) =~= Seq::empty());
    assert(views(out@) =~= Seq::empty());
    while i < rows.len()
        invariant
            i <= rows@.len(),
            all == views(rows@),
            reader == funding_reader(),
            all_read(all.take(i as int), reader) == Ok::<Seq<RecordView>, ErrorView>(views(out@)),
        decreases rows@.len() - i,
    {
        proof {
            assert(all.take(i + 1).drop_last() =~= all.take(i as int));
            assert(all.take(i + 1).last() == rows@[i as int]@);
            if reader(rows@[i as int]@) is Err {
                a_fault_stays(all, reader, i + 1);
            }
        }
        let record = one_funding(&rows[i])?;
        let ghost was = out@;
        out.push(record);
        assert(views(out@) =~= views(was).push(record@));
        i += 1;
    }
    assert(all.take(i as int) =~= all);
    Ok(out)
}

/// What a table of funding holds, in time order.
pub open spec fn funding_decoded(rows: Seq<FundingRowView>) -> Result<Seq<RecordView>, ErrorView> {
    match all_read(rows, funding_reader()) {
        Err(e) => Err(e),
        Ok(records) => Ok(by_time(records, record_moment())),
    }
}

/// Read a table of funding back, in time order.
pub fn read_funding(rows: &[FundingRow]) -> (r: Result<Vec<Record>, BacktestError>)
    ensures
        match r {
            Ok(records) => funding_decoded(views(rows@)) == Ok::<Seq<RecordView>, ErrorView>(
                views(records@),
            ),
            Err(e) => funding_decoded(views(rows@)) == Err::<Seq<RecordView>, ErrorView>(e@),
        },
{
    let records = decode_funding(rows)?;
    Ok(in_time_order(records))
}

/// The row a record is laid out as.
pub open spec fn funding_row(record: RecordView) -> FundingRowView {
    FundingRowView {
        ts_init: record.stamps.ts_init.0,
        ts_event: record.stamps.ts_event.0,
        instrument: record.instrument,
        rate: Ok(Some((record.event->rate).0)),
    }
}

/// Whether a record belongs in the table of funding.
pub open spec fn is_funding(record: RecordView) -> bool {
    record.event is Funding
}

/// Lay records out as rows of the table of funding.
pub fn write_funding(records: &[Record]) -> (r: Result<Vec<FundingRow>, BacktestError>)
    ensures
        match r {
            Ok(rows) => {
                &&& forall|i: int| 0 <= i < records@.len() ==> is_funding((#[trigger] records@[i])@)
                &&& views(rows@) == views(records@).map_values(
                    |record: RecordView| funding_row(record),
                )
            },
            Err(e) => {
                &&& exists|i: int|
                    0 <= i < records@.len() && !is_funding((#[trigger] records@[i])@)
                &&& e@ == ErrorView::Invalid("write_funding takes funding records only"@)
            },
        },
{
    let mut out: Vec<FundingRow> = Vec::new();
    let mut i: usize = 0;
    while i < records.len()
        invariant
            i <= records@.len(),
            out@.len() == i,
            forall|k: int| 0 <= k < i ==> is_funding((#[trigger] records@[k])@),
            forall|k: int| 0 <= k < i ==> (#[trigger] out@[k])@ == funding_row(records@[k]@),
        decreases records@.len() - i,
    {
        let record = &records[i];
        match &record.event {
            MarketEvent::Funding { rate } => {
                let row = FundingRow {
                    ts_init: record.stamps.ts_init.0,
                    ts_event: record.stamps.ts_event.0,
                    instrument: record.instrument.as_str().to_owned(),
                    rate: Ok(Some(rate.0)),
                };
                assert(row@ == funding_row(record@));
                out.push(row);
            },
            _ => {
                assert(!is_funding(records@[i as int]@));
                return Err(BacktestError::invalid("write_funding takes funding records only"));
            },
        }
        i += 1;
    }
    assert(views(out@) =~= views(records@).map_values(|record: RecordView| funding_row(record)));
    Ok(out)
}

/// A record the table of funding can carry whole.
pub open spec fn funding_storable(record: RecordView) -> bool {
    &&& is_funding(record)
    &&& record.stamps.wf()
    &&& names_instrument(record.instrument)
    &&& record.outcome == OutcomeId(0)
}

/// Reading funding back gives the records written, in time order.
pub proof fn funding_read_back_what_was_written(records: Seq<RecordView>)
    requires
        forall|i: int| 0 <= i < records.len() ==> funding_storable(#[trigger] records[i]),
    ensures
        funding_decoded(records.map_values(|record: RecordView| funding_row(record))) == Ok::<
            Seq<RecordView>,
            ErrorView,
        >(by_time(records, record_moment())),
{
    let rows = records.map_values(|record: RecordView| funding_row(record));
    let reader = funding_reader();
    assert forall|i: int| 0 <= i < rows.len() implies reader(#[trigger] rows[i]) == Ok::<
        RecordView,
        ErrorView,
    >(records[i]) by {
        assert(funding_storable(records[i]));
        assert(rows[i] == funding_row(records[i]));
    }
    each_reads(rows, reader, records);
}

/// An optional price of a cell.
pub open spec fn price_in(raw: Option<i64>) -> Option<Price> {
    match raw {
        Some(raw) => Some(Price(raw)),
        None => None,
    }
}

/// The cell of an optional price.
pub open spec fn raw_in(price: Option<Price>) -> Option<i64> {
    match price {
        Some(price) => Some(price.0),
        None => None,
    }
}

pub(crate) fn opt_price(raw: Option<i64>) -> (r: Option<Price>)
    ensures
        r == price_in(raw),
{
    match raw {
        Some(raw) => Some(Price(raw)),
        None => None,
    }
}

pub(crate) fn opt_raw(price: Option<Price>) -> (r: Option<i64>)
    ensures
        r == raw_in(price),
{
    match price {
        Some(price) => Some(price.0),
        None => None,
    }
}

// -- reference prices ------------------------------------------------------

/// One row of the table of reference prices.
#[derive(PartialEq, Eq, Debug)]
pub struct ReferenceRow {
    pub ts_init: i64,
    pub ts_event: i64,
    pub instrument: String,
    pub outcome: u16,
    pub mark: Cell,
    pub oracle: Cell,
}

/// A row with its texts as sequences of characters.
pub struct ReferenceRowView {
    pub ts_init: i64,
    pub ts_event: i64,
    pub instrument: Seq<char>,
    pub outcome: u16,
    pub mark: Result<Option<i64>, ErrorView>,
    pub oracle: Result<Option<i64>, ErrorView>,
}

impl View for ReferenceRow {
    type V = ReferenceRowView;

    open spec fn view(&self) -> ReferenceRowView {
        ReferenceRowView {
            ts_init: self.ts_init,
            ts_event: self.ts_event,
            instrument: self.instrument@,
            outcome: self.outcome,
            mark: cell_view(self.mark),
            oracle: cell_view(self.oracle),
        }
    }
}

/// The event a row carries.
pub open spec fn reference_event(row: ReferenceRowView) -> Result<EventView, ErrorView> {
    match row.mark {
        Err(e) => Err(e),
        Ok(mark) => match row.oracle {
            Err(e) => Err(e),
            Ok(oracle) => Ok(
                EventView::Reference { mark: price_in(mark), oracle: price_in(oracle) },
            ),
        },
    }
}

/// The record a row stands for.
pub open spec fn reference_record(row: ReferenceRowView) -> Result<RecordView, ErrorView> {
    match head_read(row.ts_event, row.ts_init, row.instrument) {
        Err(e) => Err(e),
        Ok(stamps) => match reference_event(row) {
            Err(e) => Err(e),
            Ok(event) => Ok(
                RecordView {
                    stamps,
                    instrument: row.instrument,
                    outcome: OutcomeId(row.outcome),
                    event,
                },
            ),
        },
    }
}

/// What reading a row gives.
pub open spec fn reference_reader() -> spec_fn(ReferenceRowView) -> Result<RecordView, ErrorView> {
    |row: ReferenceRowView| reference_record(row)
}

fn one_reference(row: &ReferenceRow) -> (r: Result<Record, BacktestError>)
    ensures
        match r {
            Ok(record) => reference_record(row@) == Ok::<RecordView, ErrorView>(record@),
            Err(e) => reference_record(row@) == Err::<RecordView, ErrorView>(e@),
        },
{
    let (stamps, id) = read_head(row.ts_event, row.ts_init, row.instrument.as_str())?;
    let mark = read_cell(&row.mark)?;
    let oracle = read_cell(&row.oracle)?;
    let event = MarketEvent::Reference { mark: opt_price(mark), oracle: opt_price(oracle) };
    Ok(Record::new(stamps, id, OutcomeId(row.outcome), event))
}

/// Decode rows of reference prices in the order they are stored.
pub fn decode_references(rows: &[ReferenceRow]) -> (r: Result<Vec<Record>, BacktestError>)
    ensures
        match r {
            Ok(records) => all_read(views(rows@), reference_reader()) == Ok::<
                Seq<RecordView>,
                ErrorView,
            >(views(records@)),
            Err(e) => all_read(views(rows@), reference_reader()) == Err::<
                Seq<RecordView>,
                ErrorView,
            >(e@),
        },
{
    let mut out: Vec<Record> = Vec::new();
    let ghost all = views(rows@);
    let ghost reader = reference_reader();
    let mut i: usize = 0;
    assert(all.take(0) =~= Seq::empty());
    assert(views(out@) =~= Seq::empty());
    while i < rows.len()
        invariant
            i <= rows@.len(),
            all == views(rows@),
            reader == reference_reader(),
            all_read(all.take(i as int), reader) == Ok::<Seq<RecordView>, ErrorView>(views(out@)),
        decreases rows@.len() - i,
    {
        proof {
            assert(all.take(i + 1).drop_last() =~= all.take(i as int));
            assert(all.take(i + 1).last() == rows@[i as int]@);
            if reader(rows@[i as int]@) is Err {
                a_fault_stays(all, reader, i + 1);
            }
        }
        let record = one_reference(&rows[i])?;
        let ghost was = out@;
        out.push(record);
        assert(views(out@) =~= views(was).push(record@));
        i += 1;
    }
    assert(all.take(i as int) =~= all);
    Ok(out)
}

/// What a table of reference prices holds, in time order.
pub open spec fn references_decoded(rows: Seq<ReferenceRowView>) -> Result<Seq<RecordView>, ErrorView> {
    match all_read(rows, reference_reader()) {
        Err(e) => Err(e),
        Ok(records) => Ok(by_time(records, record_moment())),
    }
}

/// Read a table of reference prices back, in time order.
pub fn read_references(rows: &[ReferenceRow]) -> (r: Result<Vec<Record>, BacktestError>)
    ensures
        match r {
            Ok(records) => references_decoded(views(rows@)) == Ok::<Seq<RecordView>, ErrorView>(
                views(records@),
            ),
            Err(e) => references_decoded(views(rows@)) == Err::<Seq<RecordView>, ErrorView>(e@),
        },
{
    let records = decode_references(rows)?;
    Ok(in_time_order(records))
}

/// The row a record is laid out as.
pub open spec fn reference_row(record: RecordView) -> ReferenceRowView {
    ReferenceRowView {
        ts_init: record.stamps.ts_init.0,
        ts_event: record.stamps.ts_event.0,
        instrument: record.instrument,
        outcome: record.outcome.0,
        mark: Ok(raw_in(record.event->mark)),
        oracle: Ok(raw_in(record.event->oracle)),
    }
}

/// Whether a record belongs in the table of reference prices.
pub open spec fn is_reference(record: RecordView) -> bool {
    record.event is Reference
}

/// Lay records out as rows of the table of reference prices.
pub fn write_references(records: &[Record]) -> (r: Result<Vec<ReferenceRow>, BacktestError>)
    ensures
        match r {
            Ok(rows) => {
                &&& forall|i: int| 0 <= i < records@.len() ==> is_reference((#[trigger] records@[i])@)
                &&& views(rows@) == views(records@).map_values(
                    |record: RecordView| reference_row(record),
                )
            },
            Err(e) => {
                &&& exists|i: int|
                    0 <= i < records@.len() && !is_reference((#[trigger] records@[i])@)
                &&& e@ == ErrorView::Invalid("write_references takes reference records only"@)
            },
        },
{
    let mut out: Vec<ReferenceRow> = Vec::new();
    let mut i: usize = 0;
    while i < records.len()
        invariant
            i <= records@.len(),
            out@.len() == i,
            forall|k: int| 0 <= k < i ==> is_reference((#[trigger] records@[k])@),
            forall|k: int| 0 <= k < i ==> (#[trigger] out@[k])@ == reference_row(records@[k]@),
        decreases records@.len() - i,
    {
        let record = &records[i];
        match &record.event {
            MarketEvent::Reference { mark, oracle } => {
                let row = ReferenceRow {
                    ts_init: record.stamps.ts_init.0,
                    ts_event: record.stamps.ts_event.0,
                    instrument: record.instrument.as_str().to_owned(),
                    outcome: record.outcome.0,
                    mark: Ok(opt_raw(*mark)),
                    oracle: Ok(opt_raw(*oracle)),
                };
                assert(row@ == reference_row(record@));
                out.push(row);
            },
            _ => {
                assert(!is_reference(records@[i as int]@));
                return Err(BacktestError::invalid("write_references takes reference records only"));
            },
        }
        i += 1;
    }
    assert(views(out@) =~= views(records@).map_values(|record: RecordView| reference_row(record)));
    Ok(out)
}

/// A record the table of reference prices can carry whole.
pub open spec fn reference_storable(record: RecordView) -> bool {
    &&& is_reference(record)
    &&& record.stamps.wf()
    &&& names_instrument(record.instrument)
}

/// Reading reference prices back gives the records written, in time order.
pub proof fn references_read_back_what_was_written(records: Seq<RecordView>)
    requires
        forall|i: int| 0 <= i < records.len() ==> reference_storable(#[trigger] records[i]),
    ensures
        references_decoded(records.map_values(|record: RecordView| reference_row(record))) == Ok::<
            Seq<RecordView>,
            ErrorView,
        >(by_time(records, record_moment())),
{
    let rows = records.map_values(|record: RecordView| reference_row(record));
    let reader = reference_reader();
    assert forall|i: int| 0 <= i < rows.len() implies reader(#[trigger] rows[i]) == Ok::<
        RecordView,
        ErrorView,
    >(records[i]) by {
        assert(reference_storable(records[i]));
        assert(rows[i] == reference_row(records[i]));
    }
    each_reads(rows, reader, records);
}

} // verus!
