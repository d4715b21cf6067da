//! Rows of the tables that hold what a strategy wants.
//!
//! A table of signals makes a strategy a query result rather than code:
//! whatever produced it, only intent is seen here, and it is executed through
//! the full matching, fee and latency path. Commands also carry an identifier
//! of the caller's own, so that later rows can amend or cancel the very order
//! an earlier row created.

use vstd::prelude::*;
use vstd::string::*;

use crate::error::{BacktestError, ErrorView};
use crate::feed::{read_side, side_read};
use crate::instrument::{names_instrument, InstrumentId, OutcomeId};
use crate::order::{OrderKind, TimeInForce};
use crate::prints::{opt_price, price_in};
use crate::request::{OrderRequest, RequestView};
use crate::store::{
    a_fault_stays, all_read, by_time, cell_value, cell_view, file, filed, moment_of, read_cell,
    text_view, value_in, views, Cell,
};
use crate::strategy::{CommandView, ReplayCommand};
use crate::text::{debug_of, debug_text, int_text, push_i64, str_same};
use crate::types::{Price, Qty, Side, UnixNanos};

verus! {

// -- what both tables say of an order --------------------------------------------

/// The part of a row that describes an order.
#[derive(PartialEq, Eq, Debug)]
pub struct Wish {
    pub time_in_force: Option<String>,
    pub tag: Option<String>,
    pub reduce_only: Option<bool>,
    pub post_only: Option<bool>,
}

/// The same with its texts as sequences of characters.
pub struct WishView {
    pub time_in_force: Option<Seq<char>>,
    pub tag: Option<Seq<char>>,
    pub reduce_only: Option<bool>,
    pub post_only: Option<bool>,
}

impl View for Wish {
    type V = WishView;

    open spec fn view(&self) -> WishView {
        WishView {
            time_in_force: text_view(self.time_in_force),
            tag: text_view(self.tag),
            reduce_only: self.reduce_only,
            post_only: self.post_only,
        }
    }
}

/// How long an order of this name lives.
pub open spec fn lifetime_read(text: Seq<char>) -> Result<TimeInForce, ErrorView> {
    if text == "gtc"@ {
        Ok(TimeInForce::GoodTilCancel)
    } else if text == "ioc"@ {
        Ok(TimeInForce::ImmediateOrCancel)
    } else if text == "fok"@ {
        Ok(TimeInForce::FillOrKill)
    } else {
        Err(ErrorView::Parse { what: "time in force"@, value: text })
    }
}

/// Read how long an order lives.
fn read_lifetime(text: &str) -> (r: Result<TimeInForce, BacktestError>)
    ensures
        match r {
            Ok(tif) => lifetime_read(text@) == Ok::<TimeInForce, ErrorView>(tif),
            Err(e) => lifetime_read(text@) == Err::<TimeInForce, ErrorView>(e@),
        },
{
    if str_same(text, "gtc") {
        Ok(TimeInForce::GoodTilCancel)
    } else if str_same(text, "ioc") {
        Ok(TimeInForce::ImmediateOrCancel)
    } else if str_same(text, "fok") {
        Ok(TimeInForce::FillOrKill)
    } else {
        Err(BacktestError::Parse { what: "time in force", value: text.to_owned() })
    }
}

/// A plain order: a market order takes what it can at once, a limit order
/// stands until it is cancelled.
pub open spec fn plain_order(
    instrument: Seq<char>,
    outcome: u16,
    side: Side,
    limit: Option<Price>,
    quantity: Qty,
) -> RequestView {
    RequestView {
        instrument,
        outcome: OutcomeId(outcome),
        side,
        kind: match limit {
            Some(limit) => OrderKind::Limit { limit },
            None => OrderKind::Market,
        },
        quantity,
        time_in_force: match limit {
            Some(_) => TimeInForce::GoodTilCancel,
            None => TimeInForce::ImmediateOrCancel,
        },
        tag: None,
        reduce_only: false,
        post_only: false,
        trigger: None,
    }
}

/// An order with everything else a row asks of it. A flag that is not there
/// is not set: the reading that cannot turn a taker into a maker by accident.
pub open spec fn wished(request: RequestView, wish: WishView) -> Result<RequestView, ErrorView> {
    let dressed = RequestView {
        tag: match wish.tag {
            Some(tag) => Some(tag),
            None => request.tag,
        },
        reduce_only: request.reduce_only || wish.reduce_only == Some(true),
        post_only: request.post_only || wish.post_only == Some(true),
        ..request
    };
    match wish.time_in_force {
        None => Ok(dressed),
        Some(text) => match lifetime_read(text) {
            Err(e) => Err(e),
            Ok(time_in_force) => Ok(RequestView { time_in_force, ..dressed }),
        },
    }
}

/// Give an order everything else a row asks of it.
fn dress(request: OrderRequest, wish: &Wish) -> (r: Result<OrderRequest, BacktestError>)
    ensures
        match r {
            Ok(dressed) => wished(request@, wish@) == Ok::<RequestView, ErrorView>(dressed@),
            Err(e) => wished(request@, wish@) == Err::<RequestView, ErrorView>(e@),
        },
{
    let mut order = request;
    if let Some(text) = &wish.time_in_force {
        let tif = read_lifetime(text.as_str())?;
        order = order.with_time_in_force(tif);
    }
    if let Some(text) = &wish.tag {
        order = order.with_tag(text.as_str());
    }
    if let Some(true) = wish.reduce_only {
        order = order.reduce_only();
    }
    if let Some(true) = wish.post_only {
        order = order.post_only();
    }
    Ok(order)
}

// -- time order --------------------------------------------------------------------

/// When a dated item is due.
pub open spec fn due<A>() -> spec_fn((UnixNanos, A)) -> int {
    |item: (UnixNanos, A)| (item.0).0 as int
}

/// Dated items with their views.
pub open spec fn dated_views<T: View>(items: Seq<(UnixNanos, T)>) -> Seq<(UnixNanos, T::V)> {
    items.map_values(|item: (UnixNanos, T)| (item.0, item.1@))
}

proof fn filing_dated<T: View>(list: Seq<(UnixNanos, T)>, item: (UnixNanos, T))
    ensures
        dated_views(filed(list, item, moment_of::<(UnixNanos, T)>())) == filed(
            dated_views(list),
            (item.0, item.1@),
            due::<T::V>(),
        ),
    decreases list.len(),
{
    let key = moment_of::<(UnixNanos, T)>();
    if list.len() > 0 {
        assert(dated_views(list).drop_last() =~= dated_views(list.drop_last()));
        assert(dated_views(list).last() == (list.last().0, list.last().1@));
        if key(list.last()) > key(item) {
            filing_dated(list.drop_last(), item);
            assert(dated_views(filed(list.drop_last(), item, key).push(list.last()))
                =~= dated_views(filed(list.drop_last(), item, key)).push(
                (list.last().0, list.last().1@),
            ));
        } else {
            assert(dated_views(list.push(item)) =~= dated_views(list).push((item.0, item.1@)));
        }
    } else {
        assert(dated_views(list.push(item)) =~= dated_views(list).push((item.0, item.1@)));
    }
}

// -- signals -----------------------------------------------------------------------

/// One row of a table of signals.
#[derive(PartialEq, Eq, Debug)]
pub struct SignalRow {
    pub ts: i64,
    pub instrument: String,
    pub outcome: u16,
    pub side: String,
    pub quantity: Cell,
    pub kind: String,
    pub limit_price: Cell,
    pub wish: Wish,
}

/// A row with its texts as sequences of characters.
pub struct SignalRowView {
    pub ts: i64,
    pub instrument: Seq<char>,
    pub outcome: u16,
    pub side: Seq<char>,
    pub quantity: Result<Option<i64>, ErrorView>,
    pub kind: Seq<char>,
    pub limit_price: Result<Option<i64>, ErrorView>,
    pub wish: WishView,
}

impl View for SignalRow {
    type V = SignalRowView;

    open spec fn view(&self) -> SignalRowView {
        SignalRowView {
            ts: self.ts,
            instrument: self.instrument@,
            outcome: self.outcome,
            side: self.side@,
            quantity: cell_view(self.quantity),
            kind: self.kind@,
            limit_price: cell_view(self.limit_price),
            wish: self.wish@,
        }
    }
}

/// The limit a signal names: none for a market order. A limit order without a
/// price is a data error, not a market order: guessing which one the author
/// meant is how a backtest quietly trades at the wrong price.
pub open spec fn signal_limit(row: SignalRowView) -> Result<Option<Price>, ErrorView> {
    if row.kind == "market"@ {
        Ok(None)
    } else if row.kind == "limit"@ {
        match row.limit_price {
            Err(e) => Err(e),
            Ok(Some(raw)) => Ok(Some(Price(raw))),
            Ok(None) => Err(
                ErrorView::Invalid(
                    "limit signal for "@ + row.instrument + " at "@ + int_text(row.ts as int)
                        + " has no limit_price"@,
                ),
            ),
        }
    } else {
        Err(ErrorView::Parse { what: "signal kind"@, value: row.kind })
    }
}

/// The order a signal asks for, and when.
pub open spec fn signal_read(row: SignalRowView) -> Result<(UnixNanos, RequestView), ErrorView> {
    if !names_instrument(row.instrument) {
        Err(ErrorView::Invalid("instrument id must not be empty"@))
    } else {
        match side_read(row.side) {
            Err(e) => Err(e),
            Ok(side) => match value_in(row.quantity, "quantity"@) {
                Err(e) => Err(e),
                Ok(quantity) => match signal_limit(row) {
                    Err(e) => Err(e),
                    Ok(limit) => match wished(
                        plain_order(row.instrument, row.outcome, side, limit, Qty(quantity)),
                        row.wish,
                    ) {
                        Err(e) => Err(e),
                        Ok(request) => Ok((UnixNanos(row.ts), request)),
                    },
                },
            },
        }
    }
}

/// What reading a signal gives.
pub open spec fn signal_reader() -> spec_fn(SignalRowView) -> Result<
    (UnixNanos, RequestView),
    ErrorView,
> {
    |row: SignalRowView| signal_read(row)
}

/// The orders a table of signals asks for, in time order.
pub open spec fn signals_decoded(rows: Seq<SignalRowView>) -> Result<
    Seq<(UnixNanos, RequestView)>,
    ErrorView,
> {
    match all_read(rows, signal_reader()) {
        Err(e) => Err(e),
        Ok(items) => Ok(by_time(items, due::<RequestView>())),
    }
}

fn read_signal(row: &SignalRow) -> (r: Result<(UnixNanos, OrderRequest), BacktestError>)
    ensures
        match r {
            Ok(item) => signal_read(row@) == Ok::<(UnixNanos, RequestView), ErrorView>(
                (item.0, item.1@),
            ),
            Err(e) => signal_read(row@) == Err::<(UnixNanos, RequestView), ErrorView>(e@),
        },
{
    let id = InstrumentId::new(row.instrument.as_str())?;
    let side = read_side(row.side.as_str())?;
    let quantity: i64 = cell_value(&row.quantity, "quantity")?;
    let kind = row.kind.as_str();
    let request = if str_same(kind, "market") {
        OrderRequest::market(id, OutcomeId(row.outcome), side, Qty(quantity))
    } else if str_same(kind, "limit") {
        match read_cell(&row.limit_price)? {
            Some(raw) => OrderRequest::limit(
                id,
                OutcomeId(row.outcome),
                side,
                Price(raw),
                Qty(quantity),
            ),
            None => {
                let mut m = "limit signal for ".to_owned();
                m.append(row.instrument.as_str());
                m.append(" at ");
                push_i64(&mut m, row.ts);
                m.append(" has no limit_price");
                return Err(BacktestError::invalid(m.as_str()));
            },
        }
    } else {
        return Err(BacktestError::Parse { what: "signal kind", value: row.kind.clone() });
    };
    let order = dress(request, &row.wish)?;
    Ok((UnixNanos(row.ts), order))
}

/// Read a table of signals as timestamped orders.
///
/// Replaying signals requires time order, and a table has none by nature.
pub fn read_signals(rows: &[SignalRow]) -> (r: Result<Vec<(UnixNanos, OrderRequest)>, BacktestError>)
    ensures
        match r {
            Ok(signals) => signals_decoded(views(rows@)) == Ok::<
                Seq<(UnixNanos, RequestView)>,
                ErrorView,
            >(dated_views(signals@)),
            Err(e) => signals_decoded(views(rows@)) == Err::<
                Seq<(UnixNanos, RequestView)>,
                ErrorView,
            >(e@),
        },
{
    let mut out: Vec<(UnixNanos, OrderRequest)> = Vec::new();
    let ghost all = views(rows@);
    let ghost reader = signal_reader();
    let ghost at = due::<RequestView>();
    let ghost mut items: Seq<(UnixNanos, RequestView)> = Seq::empty();
    let mut i: usize = 0;
    assert(all.take(0) =~= Seq::empty());
    assert(dated_views(out@) =~= by_time(items, at));
    while i < rows.len()
        invariant
            i <= rows@.len(),
            all == views(rows@),
            reader == signal_reader(),
            at == due::<RequestView>(),
            all_read(all.take(i as int), reader) == Ok::<
                Seq<(UnixNanos, RequestView)>,
                ErrorView,
            >(items),
            dated_views(out@) == by_time(items, at),
        decreases rows@.len() - i,
    {
        proof {
            assert(all.take(i + 1).drop_last() =~= all.take(i as int));
            assert(all.take(i + 1).last() == rows@[i as int]@);
            if reader(rows@[i as int]@) is Err {
                a_fault_stays(all, reader, i + 1);
            }
        }
        let item = read_signal(&rows[i])?;
        proof {
            filing_dated(out@, item);
            let grown = items.push((item.0, item.1@));
            assert(grown.drop_last() =~= items);
            items = grown;
        }
        file(&mut out, item);
        i += 1;
    }
    assert(all.take(i as int) =~= all);
    Ok(out)
}

// -- commands ----------------------------------------------------------------------

/// One row of a table of commands.
#[derive(PartialEq, Eq, Debug)]
pub struct CommandRow {
    pub ts: i64,
    pub action: String,
    pub client_order_id: String,
    pub instrument: Option<String>,
    pub outcome: Option<u16>,
    pub side: Option<String>,
    pub quantity: Cell,
    pub kind: Option<String>,
    pub limit_price: Cell,
    pub wish: Wish,
}

/// A row with its texts as sequences of characters.
pub struct CommandRowView {
    pub ts: i64,
    pub action: Seq<char>,
    pub client_order_id: Seq<char>,
    pub instrument: Option<Seq<char>>,
    pub outcome: Option<u16>,
    pub side: Option<Seq<char>>,
    pub quantity: Result<Option<i64>, ErrorView>,
    pub kind: Option<Seq<char>>,
    pub limit_price: Result<Option<i64>, ErrorView>,
    pub wish: WishView,
}

impl View for CommandRow {
    type V = CommandRowView;

    open spec fn view(&self) -> CommandRowView {
        CommandRowView {
            ts: self.ts,
            action: self.action@,
            client_order_id: self.client_order_id@,
            instrument: text_view(self.instrument),
            outcome: self.outcome,
            side: text_view(self.side),
            quantity: cell_view(self.quantity),
            kind: text_view(self.kind),
            limit_price: cell_view(self.limit_price),
            wish: self.wish@,
        }
    }
}

/// What is said of a command: whose it is, and when.
pub open spec fn named_at(row: CommandRowView) -> Seq<char> {
    debug_text(row.client_order_id) + " at "@ + int_text(row.ts as int)
}

/// The first thing a submission leaves out, if it leaves anything out.
pub open spec fn left_out(row: CommandRowView) -> Option<Seq<char>> {
    if row.instrument is None {
        Some("instrument_id"@)
    } else if row.outcome is None {
        Some("outcome"@)
    } else if row.side is None {
        Some("side"@)
    } else if row.quantity == Ok::<Option<i64>, ErrorView>(None) {
        Some("quantity"@)
    } else if row.kind is None {
        Some("kind"@)
    } else {
        None
    }
}

/// The limit a submission names: none for a market order.
pub open spec fn submit_limit(row: CommandRowView, kind: Seq<char>) -> Result<
    Option<Price>,
    ErrorView,
> {
    if kind == "market"@ {
        Ok(None)
    } else if kind == "limit"@ {
        match row.limit_price {
            Err(e) => Err(e),
            Ok(Some(raw)) => Ok(Some(Price(raw))),
            Ok(None) => Err(
                ErrorView::Invalid(
                    "limit submit for "@ + named_at(row) + " has no limit_price"@,
                ),
            ),
        }
    } else {
        Err(ErrorView::Parse { what: "command kind"@, value: kind })
    }
}

/// The order a submission asks for.
pub open spec fn submission_read(row: CommandRowView) -> Result<RequestView, ErrorView> {
    match left_out(row) {
        Some(field) => Err(
            ErrorView::Invalid("submit command for "@ + named_at(row) + " is missing "@ + field),
        ),
        None => {
            let instrument = row.instrument->Some_0;
            if !names_instrument(instrument) {
                Err(ErrorView::Invalid("instrument id must not be empty"@))
            } else {
                match side_read(row.side->Some_0) {
                    Err(e) => Err(e),
                    Ok(side) => match value_in(row.quantity, "quantity"@) {
                        Err(e) => Err(e),
                        Ok(quantity) => match submit_limit(row, row.kind->Some_0) {
                            Err(e) => Err(e),
                            Ok(limit) => wished(
                                plain_order(
                                    instrument,
                                    row.outcome->Some_0,
                                    side,
                                    limit,
                                    Qty(quantity),
                                ),
                                row.wish,
                            ),
                        },
                    },
                }
            }
        },
    }
}

/// What an amendment changes.
pub open spec fn amendment_read(row: CommandRowView) -> Result<
    (Option<Qty>, Option<Price>),
    ErrorView,
> {
    match row.quantity {
        Err(e) => Err(e),
        Ok(quantity) => match row.limit_price {
            Err(e) => Err(e),
            Ok(limit) => if quantity is None && limit is None {
                Err(
                    ErrorView::Invalid(
                        "amend command for "@ + named_at(row)
                            + " changes neither quantity nor limit_price"@,
                    ),
                )
            } else {
                Ok((quantity_in(quantity), price_in(limit)))
            },
        },
    }
}

/// An optional quantity of a cell.
pub open spec fn quantity_in(raw: Option<i64>) -> Option<Qty> {
    match raw {
        Some(raw) => Some(Qty(raw)),
        None => None,
    }
}

/// The command a row stands for, and when it is due.
pub open spec fn command_read(row: CommandRowView) -> Result<(UnixNanos, CommandView), ErrorView> {
    let client_order_id = row.client_order_id;
    if row.action == "cancel"@ {
        Ok((UnixNanos(row.ts), CommandView::Cancel { client_order_id }))
    } else if row.action == "amend"@ {
        match amendment_read(row) {
            Err(e) => Err(e),
            Ok((quantity, limit)) => Ok(
                (UnixNanos(row.ts), CommandView::Amend { client_order_id, quantity, limit }),
            ),
        }
    } else if row.action == "submit"@ {
        match submission_read(row) {
            Err(e) => Err(e),
            Ok(request) => Ok(
                (UnixNanos(row.ts), CommandView::Submit { client_order_id, request }),
            ),
        }
    } else {
        Err(ErrorView::Parse { what: "command action"@, value: row.action })
    }
}

/// What reading a command gives.
pub open spec fn command_reader() -> spec_fn(CommandRowView) -> Result<
    (UnixNanos, CommandView),
    ErrorView,
> {
    |row: CommandRowView| command_read(row)
}

/// The commands a table holds, in time order.
pub open spec fn commands_decoded(rows: Seq<CommandRowView>) -> Result<
    Seq<(UnixNanos, CommandView)>,
    ErrorView,
> {
    match all_read(rows, command_reader()) {
        Err(e) => Err(e),
        Ok(items) => Ok(by_time(items, due::<CommandView>())),
    }
}

/// Write whose command it is, and when.
fn push_named_at(out: &mut String, row: &CommandRow)
    ensures
        final(out)@ == old(out)@ + named_at(row@),
{
    let ghost before = out@;
    out.append(debug_of(row.client_order_id.as_str()).as_str());
    out.append(" at ");
    push_i64(out, row.ts);
    assert(out@ =~= before + named_at(row@));
}

fn missing(row: &CommandRow, field: &str) -> (e: BacktestError)
    ensures
        e@ == ErrorView::Invalid(
            "submit command for "@ + named_at(row@) + " is missing "@ + field@,
        ),
{
    let mut m = "submit command for ".to_owned();
    push_named_at(&mut m, row);
    m.append(" is missing ");
    m.append(field);
    BacktestError::invalid(m.as_str())
}

fn read_submission(row: &CommandRow) -> (r: Result<OrderRequest, BacktestError>)
    ensures
        match r {
            Ok(request) => submission_read(row@) == Ok::<RequestView, ErrorView>(request@),
            Err(e) => submission_read(row@) == Err::<RequestView, ErrorView>(e@),
        },
{
    let instrument = match &row.instrument {
        Some(text) => text.as_str(),
        None => {
            return Err(missing(row, "instrument_id"));
        },
    };
    let outcome: u16 = match row.outcome {
        Some(outcome) => outcome,
        None => {
            return Err(missing(row, "outcome"));
        },
    };
    let side_name = match &row.side {
        Some(text) => text.as_str(),
        None => {
            return Err(missing(row, "side"));
        },
    };
    if let Ok(None) = &row.quantity {
        return Err(missing(row, "quantity"));
    }
    let kind = match &row.kind {
        Some(text) => text.as_str(),
        None => {
            return Err(missing(row, "kind"));
        },
    };
    let id = InstrumentId::new(instrument)?;
    let side = read_side(side_name)?;
    let quantity: i64 = cell_value(&row.quantity, "quantity")?;
    let request = if str_same(kind, "market") {
        OrderRequest::market(id, OutcomeId(outcome), side, Qty(quantity))
    } else if str_same(kind, "limit") {
        match read_cell(&row.limit_price)? {
            Some(raw) => OrderRequest::limit(
                id,
                OutcomeId(outcome),
                side,
                Price(raw),
                Qty(quantity),
            ),
            None => {
                let mut m = "limit submit for ".to_owned();
                push_named_at(&mut m, row);
                m.append(" has no limit_price");
                return Err(BacktestError::invalid(m.as_str()));
            },
        }
    } else {
        return Err(BacktestError::Parse { what: "command kind", value: kind.to_owned() });
    };
    dress(request, &row.wish)
}

fn read_command(row: &CommandRow) -> (r: Result<(UnixNanos, ReplayCommand), BacktestError>)
    ensures
        match r {
            Ok(item) => command_read(row@) == Ok::<(UnixNanos, CommandView), ErrorView>(
                (item.0, item.1@),
            ),
            Err(e) => command_read(row@) == Err::<(UnixNanos, CommandView), ErrorView>(e@),
        },
{
    let client_order_id = row.client_order_id.clone();
    let action = row.action.as_str();
    let command = if str_same(action, "cancel") {
        ReplayCommand::Cancel { client_order_id }
    } else if str_same(action, "amend") {
        let quantity = read_cell(&row.quantity)?;
        let limit = read_cell(&row.limit_price)?;
        if quantity.is_none() && limit.is_none() {
            let mut m = "amend command for ".to_owned();
            push_named_at(&mut m, row);
            m.append(" changes neither quantity nor limit_price");
            return Err(BacktestError::invalid(m.as_str()));
        }
        let quantity = match quantity {
            Some(raw) => Some(Qty(raw)),
            None => None,
        };
        ReplayCommand::Amend { client_order_id, quantity, limit: opt_price(limit) }
    } else if str_same(action, "submit") {
        let request = read_submission(row)?;
        ReplayCommand::Submit { client_order_id, request }
    } else {
        return Err(BacktestError::Parse { what: "command action", value: row.action.clone() });
    };
    Ok((UnixNanos(row.ts), command))
}

/// Read a table of commands, in time order.
pub fn read_commands(rows: &[CommandRow]) -> (r: Result<
    Vec<(UnixNanos, ReplayCommand)>,
    BacktestError,
>)
    ensures
        match r {
            Ok(commands) => commands_decoded(views(rows@)) == Ok::<
                Seq<(UnixNanos, CommandView)>,
                ErrorView,
            >(dated_views(commands@)),
            Err(e) => commands_decoded(views(rows@)) == Err::<
                Seq<(UnixNanos, CommandView)>,
                ErrorView,
            >(e@),
        },
{
    let mut out: Vec<(UnixNanos, ReplayCommand)> = Vec::new();
    let ghost all = views(rows@);
    let ghost reader = command_reader();
    let ghost at = due::<CommandView>();
    let ghost mut items: Seq<(UnixNanos, CommandView)> = Seq::empty();
    let mut i: usize = 0;
    assert(all.take(0) =~= Seq::empty());
    assert(dated_views(out@) =~= by_time(items, at));
    while i < rows.len()
        invariant
            i <= rows@.len(),
            all == views(rows@),
            reader == command_reader(),
            at == due::<CommandView>(),
            all_read(all.take(i as int), reader) == Ok::<
                Seq<(UnixNanos, CommandView)>,
                ErrorView,
            >(items),
            dated_views(out@) == by_time(items, at),
        decreases rows@.len() - i,
    {
        proof {
            assert(all.take(i + 1).drop_last() =~= all.take(i as int));
            assert(all.take(i + 1).last() == rows@[i as int]@);
            if reader(rows@[i as int]@) is Err {
                a_fault_stays(all, reader, i + 1);
            }
        }
        let item = read_command(&rows[i])?;
        proof {
            filing_dated(out@, item);
            let grown = items.push((item.0, item.1@));
            assert(grown.drop_last() =~= items);
            items = grown;
        }
        file(&mut out, item);
        i += 1;
    }
    assert(all.take(i as int) =~= all);
    Ok(out)
}

/// A plain order is at the market and takes what it can at once, or has a
/// limit and stands until it is cancelled.
pub proof fn a_plain_order_stands_where_it_has_a_price(
    instrument: Seq<char>,
    outcome: u16,
    side: Side,
    limit: Option<Price>,
    quantity: Qty,
)
    ensures
        ({
            let order = plain_order(instrument, outcome, side, limit, quantity);
            &&& order.instrument == instrument && order.outcome.0 == outcome
            &&& order.side == side && order.quantity == quantity
            &&& limit is None ==> order.kind is Market && order.time_in_force is ImmediateOrCancel
            &&& limit matches Some(price) ==> order.kind == (OrderKind::Limit { limit: price })
                && order.time_in_force is GoodTilCancel
            &&& !order.reduce_only && !order.post_only
            &&& order.tag is None && order.trigger is None
        }),
{
}

/// What a signal asks for is what its row says: the instrument, outcome, side
/// and quantity it names, at its limit where it is a limit order, for as long
/// as it says, at its own time.
pub proof fn a_signal_asks_for_what_its_row_says(row: SignalRowView)
    ensures
        signal_read(row) matches Ok((ts, order)) ==> {
            &&& ts.0 == row.ts
            &&& order.instrument == row.instrument
            &&& order.outcome.0 == row.outcome
            &&& side_read(row.side) == Ok::<Side, ErrorView>(order.side)
            &&& row.quantity == Ok::<Option<i64>, ErrorView>(Some(order.quantity.0))
            &&& order.kind is Market <==> row.kind == "market"@
            &&& order.kind matches OrderKind::Limit { limit } ==> row.kind == "limit"@
                && row.limit_price == Ok::<Option<i64>, ErrorView>(Some(limit.0))
            &&& order.reduce_only <==> row.wish.reduce_only == Some(true)
            &&& order.post_only <==> row.wish.post_only == Some(true)
            &&& order.tag == row.wish.tag
            &&& row.wish.time_in_force matches Some(text) ==> lifetime_read(text) == Ok::<
                TimeInForce,
                ErrorView,
            >(order.time_in_force)
            &&& row.wish.time_in_force is None ==> (order.time_in_force is ImmediateOrCancel
                <==> order.kind is Market)
        },
{
}

/// A submission leaves nothing out and asks for what its row says, as a
/// signal does.
pub proof fn a_submission_asks_for_what_its_row_says(row: CommandRowView)
    ensures
        submission_read(row) matches Ok(order) ==> {
            &&& row.instrument == Some(order.instrument)
            &&& row.outcome == Some(order.outcome.0)
            &&& row.side is Some && side_read(row.side->Some_0) == Ok::<Side, ErrorView>(order.side)
            &&& row.quantity == Ok::<Option<i64>, ErrorView>(Some(order.quantity.0))
            &&& order.kind is Market <==> row.kind == Some("market"@)
            &&& order.kind matches OrderKind::Limit { limit } ==> row.limit_price == Ok::<
                Option<i64>,
                ErrorView,
            >(Some(limit.0))
            &&& order.reduce_only <==> row.wish.reduce_only == Some(true)
            &&& order.post_only <==> row.wish.post_only == Some(true)
            &&& order.tag == row.wish.tag
        },
{
}

/// A command is for the order it names and at its own time: a cancellation, an
/// amendment of what its row gives and of nothing it does not, or a
/// submission. An amendment of nothing is refused.
pub proof fn a_command_is_what_its_row_says(row: CommandRowView)
    ensures
        command_read(row) matches Ok((ts, command)) ==> {
            &&& ts.0 == row.ts
            &&& command matches CommandView::Cancel { client_order_id } ==> row.action
                == "cancel"@ && client_order_id == row.client_order_id
            &&& command matches CommandView::Amend { client_order_id, quantity, limit } ==> {
                &&& row.action == "amend"@ && client_order_id == row.client_order_id
                &&& quantity is Some || limit is Some
                &&& match quantity {
                    Some(q) => row.quantity == Ok::<Option<i64>, ErrorView>(Some(q.0)),
                    None => row.quantity == Ok::<Option<i64>, ErrorView>(None),
                }
                &&& match limit {
                    Some(p) => row.limit_price == Ok::<Option<i64>, ErrorView>(Some(p.0)),
                    None => row.limit_price == Ok::<Option<i64>, ErrorView>(None),
                }
            }
            &&& command matches CommandView::Submit { client_order_id, request } ==> row.action
                == "submit"@ && client_order_id == row.client_order_id && submission_read(row)
                == Ok::<RequestView, ErrorView>(request)
        },
{
    reveal_strlit("cancel");
    reveal_strlit("amend");
    reveal_strlit("submit");
    assert("cancel"@.len() == 6 && "amend"@.len() == 5 && "submit"@.len() == 6);
    assert("cancel"@[0] == 'c' && "submit"@[0] == 's');
}

} // verus!
