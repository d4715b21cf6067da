//! A command, a call of the strategy, a fill and the matching of an order have
//! one outcome each.
//!
//! Everything is compared by what it holds: two states look the same where
//! everything a run reads of them is the same.
use vstd::prelude::*;

use crate::account::MarginModel;
use crate::book::{quantity_sum, walk_levels, OrderBook};
use crate::checks::{halted, market_of, open_count, pending_in, text_of, Orders};
use crate::clock::after_setting;
use crate::desk::{open_among, open_in, still_open, Desk};
use crate::engine::{amended, numbered, ordered, submits, Board, Command, Engine, Journal};
use crate::execution::ExecutionClient;
use crate::ledger::{a_fill_has_one_outcome, quantity_in, same_account};
use crate::market::shown_by;
use crate::matching::{effective_book, fill_of, wanted_of, FillOrigin, FillTerms};
use crate::metrics::RunMetrics;
use crate::models::{
    BookFills, FeeContext, FeeModel, FillModel, KalshiFees, LatencyModel, ProportionalFees,
    QueuePositionFills, TickSlippage, TieredFees,
};
use crate::order::{Order, OrderId, OrderStatus};
use crate::position::KeyView;
use crate::request::{MarkPoint, OrderRequest, SetOperation};
use crate::strategy::{Exchange, Outbox, Told};
use crate::types::{Price, Qty, Side, UnixNanos};

verus! {

/// Two orders that say the same. Only the words in which one was turned away
/// or called off are compared as texts.
pub open spec fn same_terms(a: Order, b: Order) -> bool {
    &&& b == (Order { reject_reason: b.reject_reason, ..a })
    &&& text_of(b.reject_reason) == text_of(a.reject_reason)
}

/// Two collections of the same orders.
pub open spec fn same_orders(a: Orders, b: Orders) -> bool {
    &&& a.dom() == b.dom()
    &&& forall|k: u64| #[trigger] a.dom().contains(k) ==> same_terms(a[k], b[k])
}

/// Two reports of a set operation that say the same.
pub open spec fn same_report(a: SetOperation, b: SetOperation) -> bool {
    &&& b == (SetOperation { kind: b.kind, rejected: b.rejected, ..a })
    &&& b.kind@ == a.kind@
    &&& text_of(b.rejected) == text_of(a.rejected)
}

/// Two lists of reports of set operations that say the same.
pub open spec fn same_reports(a: Seq<SetOperation>, b: Seq<SetOperation>) -> bool {
    a.len() == b.len() && forall|i: int| 0 <= i < a.len() ==> same_report(a[i], #[trigger] b[i])
}

/// Two marks noted that say the same.
pub open spec fn same_point(a: MarkPoint, b: MarkPoint) -> bool {
    &&& b == (MarkPoint { instrument: b.instrument, ..a })
    &&& b.instrument@ == a.instrument@
}

/// Two lists of marks noted that say the same.
pub open spec fn same_points(a: Seq<MarkPoint>, b: Seq<MarkPoint>) -> bool {
    a.len() == b.len() && forall|i: int| 0 <= i < a.len() ==> same_point(a[i], #[trigger] b[i])
}

/// Counters that say the same.
pub open spec fn same_metrics(a: RunMetrics, b: RunMetrics) -> bool {
    &&& b == (RunMetrics { records_by_kind: b.records_by_kind, ..a })
    &&& b.records_by_kind@ == a.records_by_kind@
}

/// Records of a run so far that say the same.
pub open spec fn same_journal(a: Journal, b: Journal) -> bool {
    &&& same_metrics(a.metrics, b.metrics)
    &&& a.records == b.records
    &&& a.simulated_through == b.simulated_through
    &&& a.next_equity_sample == b.next_equity_sample
    &&& a.equity@ == b.equity@
    &&& same_points(a.mark_curve@, b.mark_curve@)
    &&& a.liquidations@ == b.liquidations@
    &&& same_reports(a.set_operations@, b.set_operations@)
    &&& a.forecasts@ == b.forecasts@
    &&& a.rejected_for_margin == b.rejected_for_margin
    &&& a.self_trades_prevented == b.self_trades_prevented
}

/// Boards that say the same.
pub open spec fn same_board(a: Board, b: Board) -> bool {
    &&& a.expired@ == b.expired@
    &&& a.expiries@ == b.expiries@
    &&& a.next_expiry == b.next_expiry
    &&& a.expirations@ == b.expirations@
    &&& a.delisted@ == b.delisted@
}

/// Whether fee models that are alike charge the same and stay alike.
pub open spec fn charge_alike<F: FeeModel>(fees: spec_fn(F, F) -> bool) -> bool {
    &&& forall|m: F, n: F, fill: FeeContext, m2: F, n2: F|
        #![trigger fees(m, n), m.charged(fill, &m2), n.charged(fill, &n2)]
        fees(m, n) && m.charged(fill, &m2) && n.charged(fill, &n2) ==> m.quote(fill) == n.quote(
            fill,
        ) && fees(m2, n2)
    &&& forall|m: F, n: F, id: OrderId, m2: F, n2: F|
        #![trigger fees(m, n), m.released(id, &m2), n.released(id, &n2)]
        fees(m, n) && m.released(id, &m2) && n.released(id, &n2) ==> fees(m2, n2)
}

/// Kalshi schedules with the same rates that carry the same.
pub open spec fn same_kalshi() -> spec_fn(KalshiFees, KalshiFees) -> bool {
    |m: KalshiFees, n: KalshiFees| m.rates() == n.rates() && m.carried() == n.carried()
}

/// Kalshi schedules that carry the same charge the same.
pub proof fn kalshi_fees_charge_alike()
    ensures
        charge_alike(same_kalshi()),
{
}

/// Tiered schedules with the same tiers, window and history.
pub open spec fn same_tiers() -> spec_fn(TieredFees, TieredFees) -> bool {
    |m: TieredFees, n: TieredFees|
        m.schedule() == n.schedule() && m.window() == n.window() && m.history() == n.history()
}

/// Tiered schedules with the same history charge the same.
pub proof fn tiered_fees_charge_alike()
    ensures
        charge_alike(same_tiers()),
{
}

/// Schedules that keep nothing from one fill to the next.
pub open spec fn same_proportion() -> spec_fn(ProportionalFees, ProportionalFees) -> bool {
    |m: ProportionalFees, n: ProportionalFees| m == n
}

/// Proportional schedules with the same rates charge the same.
pub proof fn proportional_fees_charge_alike()
    ensures
        charge_alike(same_proportion()),
{
}

/// Whether a fill model puts one book in the place of another, and not now
/// this and now that: of books that show the same it makes, for an order on
/// the same terms, books that rank the same.
pub open spec fn reshapes_one_way<L: FillModel>(model: L) -> bool {
    forall|
        book: OrderBook,
        other: OrderBook,
        order: Order,
        peer: Order,
        x: Option<OrderBook>,
        y: Option<OrderBook>,
    |
        #![trigger model.reshapes(book, order, x), model.reshapes(other, peer, y)]
        book.wf() && other.wf() && shown_by(book) == shown_by(other) && same_terms(order, peer)
            && model.reshapes(book, order, x) && model.reshapes(other, peer, y) ==> {
            let (p, q) = (effective_book(x, book), effective_book(y, other));
            p.ranked(Side::Buy) == q.ranked(Side::Buy) && p.ranked(Side::Sell) == q.ranked(
                Side::Sell,
            )
        }
}

/// Taking a book as recorded puts nothing in its place.
pub proof fn recorded_books_are_not_reshaped(model: BookFills, queued: QueuePositionFills)
    ensures
        reshapes_one_way(model),
        reshapes_one_way(queued),
{
    assert forall|
        book: OrderBook,
        other: OrderBook,
        order: Order,
        peer: Order,
        x: Option<OrderBook>,
        y: Option<OrderBook>,
    |
        #![trigger model.reshapes(book, order, x), model.reshapes(other, peer, y)]
        book.wf() && other.wf() && shown_by(book) == shown_by(other) && same_terms(order, peer)
            && model.reshapes(book, order, x) && model.reshapes(other, peer, y) implies {
        let (p, q) = (effective_book(x, book), effective_book(y, other));
        p.ranked(Side::Buy) == q.ranked(Side::Buy) && p.ranked(Side::Sell) == q.ranked(Side::Sell)
    } by {
        book.same_sides_rank_alike(&other, Side::Buy);
        book.same_sides_rank_alike(&other, Side::Sell);
    }
    assert forall|
        book: OrderBook,
        other: OrderBook,
        order: Order,
        peer: Order,
        x: Option<OrderBook>,
        y: Option<OrderBook>,
    |
        #![trigger queued.reshapes(book, order, x), queued.reshapes(other, peer, y)]
        book.wf() && other.wf() && shown_by(book) == shown_by(other) && same_terms(order, peer)
            && queued.reshapes(book, order, x) && queued.reshapes(other, peer, y) implies {
        let (p, q) = (effective_book(x, book), effective_book(y, other));
        p.ranked(Side::Buy) == q.ranked(Side::Buy) && p.ranked(Side::Sell) == q.ranked(Side::Sell)
    } by {
        book.same_sides_rank_alike(&other, Side::Buy);
        book.same_sides_rank_alike(&other, Side::Sell);
    }
}

/// Slippage moves a book by its ticks and no other way.
pub proof fn slippage_reshapes_one_way(model: TickSlippage)
    ensures
        reshapes_one_way(model),
{
    assert forall|
        book: OrderBook,
        other: OrderBook,
        order: Order,
        peer: Order,
        x: Option<OrderBook>,
        y: Option<OrderBook>,
    |
        #![trigger model.reshapes(book, order, x), model.reshapes(other, peer, y)]
        book.wf() && other.wf() && shown_by(book) == shown_by(other) && same_terms(order, peer)
            && model.reshapes(book, order, x) && model.reshapes(other, peer, y) implies {
        let (p, q) = (effective_book(x, book), effective_book(y, other));
        p.ranked(Side::Buy) == q.ranked(Side::Buy) && p.ranked(Side::Sell) == q.ranked(Side::Sell)
    } by {
        book.same_sides_rank_alike(&other, Side::Buy);
        book.same_sides_rank_alike(&other, Side::Sell);
        book.same_sides_list_alike(&other, Side::Buy);
        book.same_sides_list_alike(&other, Side::Sell);
        if x is Some && y is Some {
            (x->Some_0).same_sides_rank_alike(&(y->Some_0), Side::Buy);
            (x->Some_0).same_sides_rank_alike(&(y->Some_0), Side::Sell);
        }
    }
}

/// Whether two conversations agree from one call on: as long as what was told
/// and shown is the same, so is what was asked for.
pub open spec fn answers_agree(x: Seq<Exchange>, y: Seq<Exchange>, from: int) -> bool {
    forall|i: int|
        from <= i < x.len() && i < y.len() && (#[trigger] x[i]).call == y[i].call && x.take(i)
            == y.take(i) ==> x[i].asked == y[i].asked
}

proof fn agreed_so_far(
    x: Seq<Exchange>,
    x2: Seq<Exchange>,
    y: Seq<Exchange>,
    y2: Seq<Exchange>,
    from: int,
)
    requires
        0 <= from,
        x2.len() == x.len() + 1,
        x2.drop_last() == x,
        y2.len() == y.len() + 1,
        y2.drop_last() == y,
        answers_agree(x2, y2, from),
    ensures
        answers_agree(x, y, from),
        from <= x.len() ==> answers_agree(x2, y2, x.len() as int),
{
    assert forall|i: int|
        from <= i < x.len() && i < y.len() && (#[trigger] x[i]).call == y[i].call && x.take(i)
            == y.take(i) implies x[i].asked == y[i].asked by {
        assert(x[i] == x2[i] && y[i] == y2[i]);
        assert(x2.take(i) =~= x.take(i));
        assert(y2.take(i) =~= y.take(i));
    }
}

pub(crate) proof fn still_open_alike(ids: Seq<OrderId>, a: Orders, b: Orders)
    requires
        same_orders(a, b),
    ensures
        still_open(ids, a) == still_open(ids, b),
{
    assert forall|id: OrderId| #[trigger] open_among(a)(id) == open_among(b)(id) by {
        assert(a.dom().contains(id.0) == b.dom().contains(id.0));
    }
    assert(open_among(a) =~= open_among(b));
}

proof fn pending_alike(
    a: Orders,
    b: Orders,
    live: Seq<OrderId>,
    market: KeyView,
    side: Side,
    opening_only: bool,
)
    requires
        same_orders(a, b),
    ensures
        pending_in(a, live, market, side, opening_only) == pending_in(
            b,
            live,
            market,
            side,
            opening_only,
        ),
    decreases live.len(),
{
    if live.len() > 0 {
        pending_alike(a, b, live.drop_last(), market, side, opening_only);
        let id = live.last().0;
        assert(a.dom().contains(id) == b.dom().contains(id));
    }
}

proof fn counted_alike(a: Orders, b: Orders, live: Seq<OrderId>)
    requires
        same_orders(a, b),
    ensures
        open_count(a, live) == open_count(b, live),
    decreases live.len(),
{
    if live.len() > 0 {
        counted_alike(a, b, live.drop_last());
        let id = live.last().0;
        assert(a.dom().contains(id) == b.dom().contains(id));
    }
}

impl<F: FeeModel, L: FillModel, T: LatencyModel, M: MarginModel, X: ExecutionClient> Engine<
    F,
    L,
    T,
    M,
    X,
> {
    /// Two states in order of which everything a run reads is the same: the
    /// settings, the clock, the market, the account, every order and where it
    /// is, and the record so far. What a fee model and an execution client
    /// keep for themselves is left out.
    pub closed spec fn looks_like(self, other: Self) -> bool {
        self.same_state(other)
    }

    /// What [`Engine::looks_like`] compares.
    pub(crate) open spec fn same_state(self, other: Self) -> bool {
        &&& self.grounded()
        &&& other.grounded()
        &&& other == (Engine {
            fee_model: other.fee_model,
            execution: other.execution,
            clock: other.clock,
            market: other.market,
            ledger: other.ledger,
            desk: other.desk,
            board: other.board,
            journal: other.journal,
            ..self
        })
        &&& self.market@ == other.market@
        &&& same_board(self.board, other.board)
        &&& same_journal(self.journal, other.journal)
        &&& self.clock.time() == other.clock.time()
        &&& self.clock.timers() == other.clock.timers()
        &&& self.clock.last_sequence() == other.clock.last_sequence()
        &&& same_account(self.ledger, other.ledger)
        &&& other.desk == (Desk {
            orders: other.desk.orders,
            resting: other.desk.resting,
            resting_index: other.desk.resting_index,
            queue_ahead: other.desk.queue_ahead,
            live_orders: other.desk.live_orders,
            untriggered: other.desk.untriggered,
            inflight: other.desk.inflight,
            twaps: other.desk.twaps,
            ..self.desk
        })
        &&& same_orders(self.desk.orders@, other.desk.orders@)
        &&& self.desk.resting@ == other.desk.resting@
        &&& self.desk.queue_ahead@ == other.desk.queue_ahead@
        &&& self.desk.live_orders@ == other.desk.live_orders@
        &&& self.desk.untriggered@ == other.desk.untriggered@
        &&& self.desk.inflight@ == other.desk.inflight@
        &&& self.desk.twaps@ == other.desk.twaps@
    }

    /// Whether the account and the market are as they must be.
    pub(crate) open spec fn grounded(self) -> bool {
        self.ledger.wf() && self.market.wf()
    }

    /// A fill taken into the books.
    pub closed spec fn takes_fill(
        self,
        after: Self,
        id: OrderId,
        terms: FillTerms,
        ts: UnixNanos,
    ) -> bool {
        self.records(after, id, terms, ts)
    }

    /// What a fill, a call and a command come to, under the names the laws
    /// speak of them by.
    pub(crate) proof fn what_is_done_has_names()
        ensures
            forall|a: Self, b: Self, id: OrderId, terms: FillTerms, ts: UnixNanos| #[trigger]
                a.takes_fill(b, id, terms, ts) == a.records(b, id, terms, ts),
            forall|a: Self, b: Self, id: OrderId, terms: FillTerms, ts: UnixNanos| #[trigger]
                a.fills_once(b, id, terms, ts) == a.books_fill(b, id, terms, ts),
            forall|a: Self, b: Self, commands: Seq<Command>| #[trigger]
                a.obeys_all(b, commands) == a.carries_out(b, commands),
            forall|a: Self, b: Self, outbox: Outbox| #[trigger]
                a.heeds(b, outbox) == a.takes_over(b, outbox),
            forall|a: Self, b: Self, told: Told| #[trigger]
                a.tells(b, told) == a.listens(b, told),
            forall|a: Self, b: Self, id: OrderId, ts: UnixNanos| #[trigger]
                a.is_tried(b, id, ts) == a.tries(b, id, ts),
    {
    }

    proof fn judged_alike(a: Self, b: Self, id: OrderId, request: OrderRequest)
        requires
            a.looks_like(b),
        ensures
            a.judges(id, request) == b.judges(id, request),
            still_open(a.desk.live_orders@, a.desk.orders@) == still_open(
                b.desk.live_orders@,
                b.desk.orders@,
            ),
    {
        let (x, y) = (a.desk.orders@, b.desk.orders@);
        still_open_alike(a.desk.live_orders@, x, y);
        let live = still_open(a.desk.live_orders@, x);
        let order = ordered(id, request, UnixNanos(a.clock.time()));
        let market = market_of(order);
        pending_alike(x, y, live, market, Side::Sell, true);
        pending_alike(x, y, live, market, Side::Sell, false);
        pending_alike(x, y, live, market, Side::Buy, false);
        counted_alike(x, y, live);
    }

    #[verifier::rlimit(40)]
    proof fn accepting_alike(
        a: Self,
        a2: Self,
        b: Self,
        b2: Self,
        id: OrderId,
        request: OrderRequest,
    )
        requires
            a.looks_like(b),
            a.accepts(a2, id, request),
            b.accepts(b2, id, request),
        ensures
            a2.looks_like(b2),
    {
        Self::judged_alike(a, b, id, request);
        let (x, y) = (a2.desk.orders@, b2.desk.orders@);
        let v = a.judges(id, request);
        assert(v == b.judges(id, request));
        assert(x.dom() =~= y.dom());
        assert(same_orders(x, y));
        assert(same_metrics(a2.journal.metrics, b2.journal.metrics));
        assert(same_journal(a2.journal, b2.journal));
        assert(a2.desk.live_orders@ == b2.desk.live_orders@);
        assert(a2.desk.sequence == b2.desk.sequence);
        assert(a2.desk.inflight@ == b2.desk.inflight@);
        assert(a2.market == a.market && b2.market == b.market);
        assert(a2.ledger == a.ledger && b2.ledger == b.ledger);
        assert(a2.board == a.board && b2.board == b.board);
        assert(a2.clock == a.clock && b2.clock == b.clock);
        assert(a2.talk == b2.talk && a2.split == b2.split);
        assert(a2.desk.next_order_id == b2.desk.next_order_id);
    }

    /// A command has one outcome: states that look the same before it look
    /// the same after it.
    pub proof fn a_command_has_one_outcome(
        a: Self,
        a2: Self,
        b: Self,
        b2: Self,
        command: Command,
    )
        requires
            a.looks_like(b),
            a.obeys(a2, command),
            b.obeys(b2, command),
        ensures
            a2.looks_like(b2),
    {
        a.obeying_is_performing(a2, command);
        b.obeying_is_performing(b2, command);
        let (x, y) = (a2.desk.orders@, b2.desk.orders@);
        match command {
            Command::Submit(id, request) => {
                Self::accepting_alike(a, a2, b, b2, id, request);
            },
            Command::Cancel(id) => {
                assert(open_in(a.desk.orders@, id.0) == open_in(b.desk.orders@, id.0));
                assert(x.dom() =~= y.dom());
            },
            Command::Amend { id, quantity, limit } => {
                assert(open_in(a.desk.orders@, id.0) == open_in(b.desk.orders@, id.0));
                assert(x.dom() =~= y.dom());
                if open_in(a.desk.orders@, id.0) {
                    let order = a.desk.orders@[id.0];
                    assert(same_terms(order, b.desk.orders@[id.0]));
                    Self::markets_alike(a, b, market_of(order));
                    Self::markets_alike(a, b, market_of(amended(order, quantity, limit)));
                    assert(same_orders(x, y));
                }
            },
            Command::Operate(request) => {},
            Command::Twap(request) => {
                assert(x.dom() =~= y.dom());
            },
        }
    }

    /// Commands carried out one after another.
    pub closed spec fn obeys_all(self, after: Self, commands: Seq<Command>) -> bool {
        self.carries_out(after, commands)
    }

    /// So has any number of commands, one after another.
    pub proof fn commands_have_one_outcome(
        a: Self,
        a2: Self,
        b: Self,
        b2: Self,
        commands: Seq<Command>,
    )
        requires
            a.looks_like(b),
            a.obeys_all(a2, commands),
            b.obeys_all(b2, commands),
        ensures
            a2.looks_like(b2),
        decreases commands.len(),
    {
        if commands.len() > 0 {
            let rest = commands.drop_last();
            let x = choose|x: Self|
                a.carries_out(x, rest) && #[trigger] x.performs(a2, commands.last());
            let y = choose|y: Self|
                b.carries_out(y, rest) && #[trigger] y.performs(b2, commands.last());
            Self::commands_have_one_outcome(a, x, b, y, rest);
            x.obeying_is_performing(a2, commands.last());
            y.obeying_is_performing(b2, commands.last());
            Self::a_command_has_one_outcome(x, a2, y, b2, commands.last());
        }
    }

    /// What a strategy asked for taken over: its timers set, its forecasts
    /// noted, and its commands carried out.
    pub closed spec fn heeds(self, after: Self, outbox: Outbox) -> bool {
        self.takes_over(after, outbox)
    }

    /// What a strategy asks for has one outcome: states that look the same
    /// before it look the same after it.
    pub proof fn what_is_asked_has_one_outcome(
        a: Self,
        a2: Self,
        b: Self,
        b2: Self,
        ours: Outbox,
        theirs: Outbox,
    )
        requires
            a.looks_like(b),
            ours@ == theirs@,
            a.heeds(a2, ours),
            b.heeds(b2, theirs),
        ensures
            a2.looks_like(b2),
    {
        let asked = ours@;
        let commands = numbered(asked.intents, a.desk.next_order_id as int);
        assert(theirs.intents@ == asked.intents && theirs.timers@ == asked.timers
            && theirs.forecasts@ == asked.forecasts);
        let x = choose|x: Self| #[trigger]
            x.carries_out(a2, commands) && x == (Engine {
                clock: x.clock,
                journal: Journal { forecasts: x.journal.forecasts, ..a.journal },
                desk: Desk {
                    next_order_id: (a.desk.next_order_id + submits(asked.intents)) as u64,
                    ..a.desk
                },
                ..a
            }) && after_setting(a.clock, x.clock, asked.timers, Ok(())) && x.journal.forecasts@
                == a.journal.forecasts@ + asked.forecasts;
        let y = choose|y: Self| #[trigger]
            y.carries_out(b2, commands) && y == (Engine {
                clock: y.clock,
                journal: Journal { forecasts: y.journal.forecasts, ..b.journal },
                desk: Desk {
                    next_order_id: (b.desk.next_order_id + submits(asked.intents)) as u64,
                    ..b.desk
                },
                ..b
            }) && after_setting(b.clock, y.clock, asked.timers, Ok(())) && y.journal.forecasts@
                == b.journal.forecasts@ + asked.forecasts;
        assert(x.looks_like(y));
        Self::commands_have_one_outcome(x, a2, y, b2, commands);
    }

    /// A strategy told something, and what it asked for then taken over and
    /// put on record.
    pub closed spec fn tells(self, after: Self, told: Told) -> bool {
        self.listens(after, told)
    }

    /// Telling a strategy something has one outcome: states that look the
    /// same before it show it the same, and where it asks for the same they
    /// look the same after it.
    pub proof fn telling_has_one_outcome(a: Self, a2: Self, b: Self, b2: Self, told: Told)
        requires
            a.looks_like(b),
            a.tells(a2, told),
            b.tells(b2, told),
        ensures
            a2.conversation().len() == a.conversation().len() + 1,
            b2.conversation().len() == a.conversation().len() + 1,
            a2.conversation().last().call == b2.conversation().last().call,
            a2.conversation().last().asked == b2.conversation().last().asked ==> a2.looks_like(b2),
    {
        let (x, ours) = choose|x: Self, ours: Outbox| #[trigger]
            a.takes_over(x, ours) && x.notes(a2, Exchange { call: a.calls(told), asked: ours@ });
        let (y, theirs) = choose|y: Self, theirs: Outbox| #[trigger]
            b.takes_over(y, theirs) && y.notes(
                b2,
                Exchange { call: b.calls(told), asked: theirs@ },
            );
        a2.conversation_is_talk();
        b2.conversation_is_talk();
        a.conversation_is_talk();
        Self::taking_over_keeps_the_books(a, x, ours);
        Self::taking_over_keeps_the_books(b, y, theirs);
        if ours@ == theirs@ {
            Self::what_is_asked_has_one_outcome(a, x, b, y, ours, theirs);
        }
    }

    proof fn taking_over_keeps_the_books(a: Self, a2: Self, outbox: Outbox)
        requires
            a.takes_over(a2, outbox),
        ensures
            a2.talk == a.talk,
            a2.ledger == a.ledger,
            a2.fee_model == a.fee_model,
    {
        let commands = numbered(outbox.intents@, a.desk.next_order_id as int);
        let x = choose|x: Self| #[trigger]
            x.carries_out(a2, commands) && x == (Engine {
                clock: x.clock,
                journal: Journal { forecasts: x.journal.forecasts, ..a.journal },
                desk: Desk {
                    next_order_id: (a.desk.next_order_id + submits(outbox.intents@)) as u64,
                    ..a.desk
                },
                ..a
            }) && after_setting(a.clock, x.clock, outbox.timers@, Ok(()))
                && x.journal.forecasts@ == a.journal.forecasts@ + outbox.forecasts@;
        Self::carrying_out_keeps_the_books(x, a2, commands);
    }

    proof fn carrying_out_keeps_the_books(a: Self, a2: Self, commands: Seq<Command>)
        requires
            a.carries_out(a2, commands),
        ensures
            a2.talk == a.talk,
            a2.ledger == a.ledger,
            a2.fee_model == a.fee_model,
        decreases commands.len(),
    {
        if commands.len() > 0 {
            let x = choose|x: Self|
                a.carries_out(x, commands.drop_last()) && #[trigger] x.performs(
                    a2,
                    commands.last(),
                );
            Self::carrying_out_keeps_the_books(a, x, commands.drop_last());
        }
    }

    /// What a fill does to the books has one outcome: states that look the
    /// same before it look the same after it.
    pub proof fn a_fill_is_taken_one_way(
        a: Self,
        a2: Self,
        b: Self,
        b2: Self,
        id: OrderId,
        terms: FillTerms,
        ts: UnixNanos,
    )
        requires
            a.looks_like(b),
            a.order_now(id) is Some,
            a.takes_fill(a2, id, terms, ts),
            b.takes_fill(b2, id, terms, ts),
        ensures
            a2.looks_like(b2),
    {
        a.order_now_is_on_file(id);
        let order = a.desk.orders@[id.0];
        assert(same_terms(order, b.desk.orders@[id.0]));
        let fill = fill_of(order, terms, ts);
        assert(fill_of(b.desk.orders@[id.0], terms, ts) == fill);
        a_fill_has_one_outcome(
            a.ledger,
            a2.ledger,
            b.ledger,
            b2.ledger,
            fill,
            a.setup.instruments@[order.instrument@],
            a.isolating(order.instrument@),
        );
        let (x, y) = (a2.desk.orders@, b2.desk.orders@);
        assert(x.dom() =~= y.dom());
    }

    /// A fill taken into the books and the strategy told of it.
    pub closed spec fn fills_once(
        self,
        after: Self,
        id: OrderId,
        terms: FillTerms,
        ts: UnixNanos,
    ) -> bool {
        self.books_fill(after, id, terms, ts)
    }

    /// A fill has one outcome, the call of the strategy that it brings
    /// included: states that look the same before it show the strategy the
    /// same, and where it asks for the same they look the same after it.
    pub proof fn a_fill_and_its_call_have_one_outcome(
        a: Self,
        a2: Self,
        b: Self,
        b2: Self,
        id: OrderId,
        terms: FillTerms,
        ts: UnixNanos,
    )
        requires
            a.looks_like(b),
            a.order_now(id) is Some,
            a.fills_once(a2, id, terms, ts),
            b.fills_once(b2, id, terms, ts),
        ensures
            a2.conversation().len() == a.conversation().len() + 1,
            b2.conversation().len() == a.conversation().len() + 1,
            a2.conversation().last().call == b2.conversation().last().call,
            a2.conversation().last().asked == b2.conversation().last().asked ==> a2.looks_like(b2),
    {
        a.order_now_is_on_file(id);
        let order = a.desk.orders@[id.0];
        assert(same_terms(order, b.desk.orders@[id.0]));
        let fill = fill_of(order, terms, ts);
        assert(fill_of(b.desk.orders@[id.0], terms, ts) == fill);
        let x = choose|x: Self| #[trigger]
            x.listens(a2, Told::Fill(fill)) && a.records(x, id, terms, ts);
        let y = choose|y: Self| #[trigger]
            y.listens(b2, Told::Fill(fill)) && b.records(y, id, terms, ts);
        Self::listening_keeps_the_books(x, a2, Told::Fill(fill));
        Self::listening_keeps_the_books(y, b2, Told::Fill(fill));
        Self::a_fill_is_taken_one_way(a, x, b, y, id, terms, ts);
        Self::telling_has_one_outcome(x, a2, y, b2, Told::Fill(fill));
        a.conversation_is_talk();
        x.conversation_is_talk();
    }

    proof fn listening_keeps_the_books(a: Self, a2: Self, told: Told)
        requires
            a.listens(a2, told),
        ensures
            a2.ledger == a.ledger,
            a2.fee_model == a.fee_model,
    {
        let (x, ours) = choose|x: Self, ours: Outbox| #[trigger]
            a.takes_over(x, ours) && x.notes(a2, Exchange { call: a.calls(told), asked: ours@ });
        Self::taking_over_keeps_the_books(a, x, ours);
    }

    /// Two states that look the same and whose fee models are alike.
    pub open spec fn alike(self, other: Self, fees: spec_fn(F, F) -> bool) -> bool {
        self.looks_like(other) && fees(self.fee_model_now(), other.fee_model_now())
    }

    /// The fee model as it stands.
    pub closed spec fn fee_model_now(self) -> F {
        self.fee_model
    }

    proof fn executing_alike(
        fees: spec_fn(F, F) -> bool,
        a: Self,
        a2: Self,
        b: Self,
        b2: Self,
        id: OrderId,
        price: Price,
        quantity: Qty,
        is_taker: bool,
        ts: UnixNanos,
    )
        requires
            charge_alike(fees),
            a.alike(b, fees),
            a.executes(a2, id, price, quantity, is_taker, ts),
            b.executes(b2, id, price, quantity, is_taker, ts),
            a.desk.orders@.dom().contains(id.0),
            answers_agree(a2.talk@, b2.talk@, a.talk@.len() as int),
        ensures
            a2.alike(b2, fees),
            a2.talk@.len() == a.talk@.len() + 1,
            a2.talk@.take(a.talk@.len() as int) == a.talk@,
            a2.desk.orders@.dom().contains(id.0),
    {
        let order = a.desk.orders@[id.0];
        assert(same_terms(order, b.desk.orders@[id.0]));
        let ours = FillTerms {
            price,
            quantity,
            origin: FillOrigin::Trade { is_taker },
            commission: a.charges(id, price, quantity, is_taker, ts)->Ok_0,
        };
        let theirs = FillTerms {
            commission: b.charges(id, price, quantity, is_taker, ts)->Ok_0,
            ..ours
        };
        let p = choose|p: Self| #[trigger]
            a.pays(p, id, price, quantity, is_taker, ts) && p.books_fill(a2, id, ours, ts);
        let q = choose|q: Self| #[trigger]
            b.pays(q, id, price, quantity, is_taker, ts) && q.books_fill(b2, id, theirs, ts);
        assert(ours == theirs);
        assert(p.alike(q, fees));
        p.order_now_is_on_file(id);
        let fill = fill_of(order, ours, ts);
        let x = choose|x: Self| #[trigger]
            x.listens(a2, Told::Fill(fill)) && p.records(x, id, ours, ts);
        let y = choose|y: Self| #[trigger]
            y.listens(b2, Told::Fill(fill)) && q.records(y, id, ours, ts);
        Self::listening_keeps_the_books(x, a2, Told::Fill(fill));
        Self::listening_keeps_the_books(y, b2, Told::Fill(fill));
        assert(fees(x.fee_model, y.fee_model));
        Self::a_fill_and_its_call_have_one_outcome(p, a2, q, b2, id, ours, ts);
        Self::listening_extends_the_talk(x, a2, Told::Fill(fill));
        Self::listening_extends_the_talk(y, b2, Told::Fill(fill));
        a2.conversation_is_talk();
        b2.conversation_is_talk();
        let n = a.talk@.len() as int;
        assert(a2.talk@.take(n) =~= a.talk@);
        assert(b2.talk@.take(n) =~= a.talk@);
        assert(a2.talk@[n].call == b2.talk@[n].call);
        assert(a2.talk@[n].asked == b2.talk@[n].asked);
    }

    proof fn listening_extends_the_talk(a: Self, a2: Self, told: Told)
        requires
            a.listens(a2, told),
        ensures
            a2.talk@.len() == a.talk@.len() + 1,
            a2.talk@.drop_last() == a.talk@,
    {
        let (x, ours) = choose|x: Self, ours: Outbox| #[trigger]
            a.takes_over(x, ours) && x.notes(a2, Exchange { call: a.calls(told), asked: ours@ });
        Self::taking_over_keeps_the_books(a, x, ours);
        assert(a2.talk@.drop_last() =~= a.talk@);
    }

    #[verifier::rlimit(60)]
    proof fn filling_alike(
        fees: spec_fn(F, F) -> bool,
        a: Self,
        a2: Self,
        b: Self,
        b2: Self,
        id: OrderId,
        levels: Seq<(Price, Qty)>,
        is_taker: bool,
        ts: UnixNanos,
    )
        requires
            charge_alike(fees),
            a.alike(b, fees),
            a.fills_all(a2, id, levels, is_taker, ts),
            b.fills_all(b2, id, levels, is_taker, ts),
            a.desk.orders@.dom().contains(id.0),
            answers_agree(a2.talk@, b2.talk@, a.talk@.len() as int),
        ensures
            a2.alike(b2, fees),
            a2.talk@.len() >= a.talk@.len(),
            a2.talk@.take(a.talk@.len() as int) == a.talk@,
            a2.desk.orders@.dom().contains(id.0),
        decreases levels.len(),
    {
        let n = a.talk@.len() as int;
        if levels.len() == 0 {
            assert(a.talk@.take(n) =~= a.talk@);
        } else {
            let rest = levels.drop_last();
            let (price, size) = levels.last();
            let x = choose|x: Self|
                a.fills_all(x, id, rest, is_taker, ts) && #[trigger] x.executes(
                    a2,
                    id,
                    price,
                    size,
                    is_taker,
                    ts,
                );
            let y = choose|y: Self|
                b.fills_all(y, id, rest, is_taker, ts) && #[trigger] y.executes(
                    b2,
                    id,
                    price,
                    size,
                    is_taker,
                    ts,
                );
            Self::executing_extends_the_talk(x, a2, id, price, size, is_taker, ts);
            Self::executing_extends_the_talk(y, b2, id, price, size, is_taker, ts);
            agreed_so_far(x.talk@, a2.talk@, y.talk@, b2.talk@, n);
            Self::filling_alike(fees, a, x, b, y, id, rest, is_taker, ts);
            Self::executing_alike(fees, x, a2, y, b2, id, price, size, is_taker, ts);
            assert(a2.talk@.take(n) =~= x.talk@.take(n));
        }
    }

    proof fn executing_extends_the_talk(
        a: Self,
        a2: Self,
        id: OrderId,
        price: Price,
        quantity: Qty,
        is_taker: bool,
        ts: UnixNanos,
    )
        requires
            a.executes(a2, id, price, quantity, is_taker, ts),
        ensures
            a2.talk@.len() == a.talk@.len() + 1,
            a2.talk@.drop_last() == a.talk@,
    {
        let terms = FillTerms {
            price,
            quantity,
            origin: FillOrigin::Trade { is_taker },
            commission: a.charges(id, price, quantity, is_taker, ts)->Ok_0,
        };
        let p = choose|p: Self| #[trigger]
            a.pays(p, id, price, quantity, is_taker, ts) && p.books_fill(a2, id, terms, ts);
        let fill = fill_of(p.desk.orders@[id.0], terms, ts);
        let x = choose|x: Self| #[trigger]
            x.listens(a2, Told::Fill(fill)) && p.records(x, id, terms, ts);
        Self::listening_extends_the_talk(x, a2, Told::Fill(fill));
    }

    proof fn closing_alike(
        fees: spec_fn(F, F) -> bool,
        a: Self,
        a2: Self,
        b: Self,
        b2: Self,
        id: OrderId,
        status: OrderStatus,
    )
        requires
            charge_alike(fees),
            a.alike(b, fees),
            a.closes(a2, id, status),
            b.closes(b2, id, status),
        ensures
            a2.alike(b2, fees),
            a2.talk == a.talk,
    {
        assert(open_in(a.desk.orders@, id.0) == open_in(b.desk.orders@, id.0));
        assert(a2.desk.orders@.dom() =~= b2.desk.orders@.dom());
    }

    proof fn leaving_alike(
        fees: spec_fn(F, F) -> bool,
        a: Self,
        a2: Self,
        b: Self,
        b2: Self,
        id: OrderId,
    )
        requires
            charge_alike(fees),
            a.alike(b, fees),
            a.desk.orders@.dom().contains(id.0),
            a.leaves(a2, id),
            b.leaves(b2, id),
        ensures
            a2.alike(b2, fees),
            a2.talk == a.talk,
    {
        assert(same_terms(a.desk.orders@[id.0], b.desk.orders@[id.0]));
        let order = a.desk.orders@[id.0];
        Self::markets_alike(a, b, market_of(order));
        if !(order.time_in_force is GoodTilCancel) {
            Self::closing_alike(fees, a, a2, b, b2, id, OrderStatus::Cancelled);
        }
    }

    /// An order tried against the market.
    pub closed spec fn is_tried(self, after: Self, id: OrderId, ts: UnixNanos) -> bool {
        self.tries(after, id, ts)
    }

    /// Matching has one outcome. Where two states look the same, fee models
    /// that are alike charge the same, the fill model reshapes a book one
    /// way, and the strategy asks for the same of the same calls, trying an
    /// order against the market leaves them looking the same: the same fills
    /// at the same prices and costs, and the same order left over.
    pub proof fn matching_has_one_outcome(
        fees: spec_fn(F, F) -> bool,
        a: Self,
        a2: Self,
        b: Self,
        b2: Self,
        id: OrderId,
        ts: UnixNanos,
    )
        requires
            charge_alike(fees),
            reshapes_one_way(a.fill_model_now()),
            a.alike(b, fees),
            a.is_tried(a2, id, ts),
            b.is_tried(b2, id, ts),
            answers_agree(
                a2.conversation(),
                b2.conversation(),
                a.conversation().len() as int,
            ),
        ensures
            a2.alike(b2, fees),
    {
        a.conversation_is_talk();
        a2.conversation_is_talk();
        b2.conversation_is_talk();
        let order = a.desk.orders@[id.0];
        assert(open_in(a.desk.orders@, id.0) == open_in(b.desk.orders@, id.0));
        if open_in(a.desk.orders@, id.0) && !(order.status is InFlight) {
            assert(same_terms(order, b.desk.orders@[id.0]));
            let stopped = halted(
                a.setup.instruments@,
                a.board.delisted@,
                order.instrument@,
                ts,
            );
            if stopped is Some {
                assert(a2.desk.orders@.dom() =~= b2.desk.orders@.dom());
            } else {
                Self::markets_alike(a, b, market_of(order));
                match a.market.book_in(market_of(order)) {
                    None => {
                        Self::leaving_alike(fees, a, a2, b, b2, id);
                    },
                    Some(book) => {
                        let other = b.market.book_in(market_of(order))->Some_0;
                        let peer = b.desk.orders@[id.0];
                        let x = choose|x: Option<OrderBook>| #[trigger]
                            a.fill_model.reshapes(book, order, x) && a.matches_book(
                                a2,
                                id,
                                ts,
                                effective_book(x, book),
                            );
                        let y = choose|y: Option<OrderBook>| #[trigger]
                            b.fill_model.reshapes(other, peer, y) && b.matches_book(
                                b2,
                                id,
                                ts,
                                effective_book(y, other),
                            );
                        Self::matched_alike(
                            fees,
                            a,
                            a2,
                            b,
                            b2,
                            id,
                            ts,
                            effective_book(x, book),
                            effective_book(y, other),
                        );
                    },
                }
            }
        }
    }

    /// The fill model as it stands.
    pub closed spec fn fill_model_now(self) -> L {
        self.fill_model
    }

    proof fn matched_alike(
        fees: spec_fn(F, F) -> bool,
        a: Self,
        a2: Self,
        b: Self,
        b2: Self,
        id: OrderId,
        ts: UnixNanos,
        ours: OrderBook,
        theirs: OrderBook,
    )
        requires
            charge_alike(fees),
            a.alike(b, fees),
            open_in(a.desk.orders@, id.0),
            ours.ranked(Side::Buy) == theirs.ranked(Side::Buy),
            ours.ranked(Side::Sell) == theirs.ranked(Side::Sell),
            a.matches_book(a2, id, ts, ours),
            b.matches_book(b2, id, ts, theirs),
            answers_agree(a2.talk@, b2.talk@, a.talk@.len() as int),
        ensures
            a2.alike(b2, fees),
    {
        let order = a.desk.orders@[id.0];
        assert(same_terms(order, b.desk.orders@[id.0]));
        let wanted = wanted_of(order, quantity_in(a.ledger.portfolio.held(), market_of(order)));
        let walk = walk_levels(
            ours.ranked(order.side.opposite()),
            order.side,
            wanted,
            order.cap(),
        );
        assert(ours.ranked(order.side.opposite()) == theirs.ranked(order.side.opposite()));
        if order.reduce_only && wanted <= 0 || order.time_in_force is FillOrKill && quantity_sum(
            walk.0,
        ) != wanted {
            Self::closing_alike(fees, a, a2, b, b2, id, OrderStatus::Cancelled);
        } else {
            let x = choose|x: Self|
                a.fills_all(x, id, walk.0, !order.post_only, ts) && #[trigger] x.settles_down(
                    a2,
                    id,
                );
            let y = choose|y: Self|
                b.fills_all(y, id, walk.0, !order.post_only, ts) && #[trigger] y.settles_down(
                    b2,
                    id,
                );
            assert(x.talk == a2.talk && y.talk == b2.talk);
            Self::filling_alike(fees, a, x, b, y, id, walk.0, !order.post_only, ts);
            assert(open_in(x.desk.orders@, id.0) == open_in(y.desk.orders@, id.0));
            if open_in(x.desk.orders@, id.0) {
                Self::leaving_alike(fees, x, a2, y, b2, id);
            }
        }
    }

    /// Two states that look the same and whose fee models are alike, with
    /// what is compared in the open.
    pub(crate) open spec fn kin(self, other: Self, fees: spec_fn(F, F) -> bool) -> bool {
        self.same_state(other) && fees(self.fee_model, other.fee_model)
    }

    pub(crate) proof fn looks_compare_states(a: Self, b: Self)
        ensures
            a.looks_like(b) == a.same_state(b),
            a.fee_model_now() == a.fee_model,
            b.fee_model_now() == b.fee_model,
            a.fill_model_now() == a.fill_model,
    {
    }

    pub(crate) proof fn kin_are_alike(a: Self, b: Self, fees: spec_fn(F, F) -> bool)
        ensures
            a.kin(b, fees) == a.alike(b, fees),
            a.fill_model_now() == a.fill_model,
    {
    }

    pub(crate) proof fn trying_alike(
        fees: spec_fn(F, F) -> bool,
        a: Self,
        a2: Self,
        b: Self,
        b2: Self,
        id: OrderId,
        ts: UnixNanos,
    )
        requires
            Self::paired(fees, a, a2, b, b2),
            a.tries(a2, id, ts),
            b.tries(b2, id, ts),
        ensures
            a2.kin(b2, fees),
    {
        a.conversation_is_talk();
        a2.conversation_is_talk();
        b2.conversation_is_talk();
        Self::matching_has_one_outcome(fees, a, a2, b, b2, id, ts);
    }

    /// Filling one order at one level does the same from states that look the
    /// same.
    pub(crate) proof fn executing_once_alike(
        fees: spec_fn(F, F) -> bool,
        a: Self,
        a2: Self,
        b: Self,
        b2: Self,
        id: OrderId,
        price: Price,
        quantity: Qty,
        ts: UnixNanos,
    )
        requires
            Self::paired(fees, a, a2, b, b2),
            a.desk.orders@.dom().contains(id.0),
            a.executes(a2, id, price, quantity, false, ts),
            b.executes(b2, id, price, quantity, false, ts),
        ensures
            a2.kin(b2, fees),
    {
        Self::executing_alike(fees, a, a2, b, b2, id, price, quantity, false, ts);
    }

    pub(crate) proof fn booking_alike(
        fees: spec_fn(F, F) -> bool,
        a: Self,
        a2: Self,
        b: Self,
        b2: Self,
        id: OrderId,
        terms: FillTerms,
        ts: UnixNanos,
    )
        requires
            Self::paired(fees, a, a2, b, b2),
            a.books_fill(a2, id, terms, ts),
            b.books_fill(b2, id, terms, ts),
        ensures
            a2.kin(b2, fees),
    {
        a.order_now_is_on_file(id);
        let order = a.desk.orders@[id.0];
        let fill = fill_of(order, terms, ts);
        let x = choose|x: Self| #[trigger]
            x.listens(a2, Told::Fill(fill)) && a.records(x, id, terms, ts);
        assert(same_terms(order, b.desk.orders@[id.0]));
        assert(fill_of(b.desk.orders@[id.0], terms, ts) == fill);
        let y = choose|y: Self| #[trigger]
            y.listens(b2, Told::Fill(fill)) && b.records(y, id, terms, ts);
        Self::a_fill_is_taken_one_way(a, x, b, y, id, terms, ts);
        assert(fees(x.fee_model, y.fee_model));
        assert(x.talk == a.talk);
        Self::listening_alike(fees, x, a2, y, b2, Told::Fill(fill));
    }

    pub(crate) proof fn listening_alike(
        fees: spec_fn(F, F) -> bool,
        a: Self,
        a2: Self,
        b: Self,
        b2: Self,
        told: Told,
    )
        requires
            a.kin(b, fees),
            answers_agree(a2.talk@, b2.talk@, a.talk@.len() as int),
            a.listens(a2, told),
            b.listens(b2, told),
        ensures
            a2.kin(b2, fees),
    {
        Self::listening_keeps_the_books(a, a2, told);
        Self::listening_keeps_the_books(b, b2, told);
        Self::telling_has_one_outcome(a, a2, b, b2, told);
        Self::listening_extends_the_talk(a, a2, told);
        Self::listening_extends_the_talk(b, b2, told);
        a.conversation_is_talk();
        a2.conversation_is_talk();
        b2.conversation_is_talk();
        let n = a.talk@.len() as int;
        assert(a2.talk@.take(n) =~= a.talk@);
        assert(b2.talk@.take(n) =~= a.talk@);
        assert(a2.talk@[n].call == b2.talk@[n].call);
    }

    pub(crate) proof fn taking_alike(
        fees: spec_fn(F, F) -> bool,
        a: Self,
        a2: Self,
        b: Self,
        b2: Self,
        id: OrderId,
        terms: FillTerms,
        ts: UnixNanos,
    )
        requires
            charge_alike(fees),
            a.kin(b, fees),
            a.records(a2, id, terms, ts),
            b.records(b2, id, terms, ts),
        ensures
            a2.kin(b2, fees),
    {
        a.order_now_is_on_file(id);
        Self::a_fill_is_taken_one_way(a, a2, b, b2, id, terms, ts);
        assert(same_terms(a.desk.orders@[id.0], b.desk.orders@[id.0]));
    }
}

} // verus!
