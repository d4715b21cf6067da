//! When things happen: nothing a step does bears any time but its own.

use vstd::prelude::*;
use vstd::string::*;

use crate::account::{MarginModel, MarginState};
use crate::actions::open_in_instrument;
use crate::arrivals::{leg_terms, triggered, SetTerms};
use crate::book::{walk_levels, OrderBook};
use crate::calls::{all_closes, CloseOut};
use crate::checks::market_of;
use crate::clock::TimerKey;
use crate::corporate::CorporateAction;
use crate::desk::InFlightAction;
use crate::engine::{extends, numbered, Command, Engine};
use crate::event::{MarketEvent, Record};
use crate::execution::ExecutionClient;
use crate::instrument::{InstrumentId, OutcomeId};
use crate::kernel::Trail;
use crate::ledger::quantity_in;
use crate::margin::{calls_over, labelled, names_in, Doomed};
use crate::matching::{effective_book, fill_of, wanted_of, FillOrigin, FillTerms};
use crate::models::{FeeModel, FillModel, LatencyModel};
use crate::order::{Fill, Order, OrderId};
use crate::request::{SetOperationRequest, TwapProgress};
use crate::schedule::{released, slices_at};
use crate::sets::{basis_of, set_terms};
use crate::strategy::{Exchange, Outbox, Told};
use crate::types::{saturated, Price, Qty, Side, UnixNanos};

verus! {

/// Fills added at one instant.
pub open spec fn stamped(before: Seq<Fill>, after: Seq<Fill>, ts: UnixNanos) -> bool {
    &&& extends(before, after)
    &&& forall|i: int| before.len() <= i < after.len() ==> (#[trigger] after[i]).ts == ts
}

/// Fills in the order of their times, none later than an instant.
pub open spec fn in_time(fills: Seq<Fill>, until: int) -> bool {
    &&& forall|i: int, j: int|
        #![trigger fills[i], fills[j]]
        0 <= i < j < fills.len() ==> fills[i].ts.0 <= fills[j].ts.0
    &&& forall|i: int| 0 <= i < fills.len() ==> (#[trigger] fills[i]).ts.0 <= until
}

/// Records in the order of the times they became known, none later than an
/// instant.
pub open spec fn arrive_in_time(records: Seq<Record>, until: int) -> bool {
    &&& forall|i: int, j: int|
        #![trigger records[i], records[j]]
        0 <= i < j < records.len() ==> records[i].stamps.ts_init.0 <= records[j].stamps.ts_init.0
    &&& forall|i: int| 0 <= i < records.len() ==> (#[trigger] records[i]).stamps.ts_init.0 <= until
}

/// Whether a record became known at an instant.
pub open spec fn has_instant(records: Seq<Record>, ts: UnixNanos) -> bool {
    exists|k: int| 0 <= k < records.len() && (#[trigger] records[k]).stamps.ts_init == ts
}

proof fn stamped_again(a: Seq<Fill>, b: Seq<Fill>, c: Seq<Fill>, ts: UnixNanos)
    requires
        stamped(a, b, ts),
        stamped(b, c, ts),
    ensures
        stamped(a, c, ts),
{
    assert(c.take(a.len() as int) =~= b.take(a.len() as int));
    assert forall|i: int| a.len() <= i < c.len() implies (#[trigger] c[i]).ts == ts by {
        if i < b.len() {
            assert(c.take(b.len() as int)[i] == c[i]);
        }
    }
}

/// What goes on from what goes on goes on.
pub(crate) proof fn extends_again<A>(a: Seq<A>, b: Seq<A>, c: Seq<A>)
    requires
        extends(a, b),
        extends(b, c),
    ensures
        extends(a, c),
{
    assert(c.take(a.len() as int) =~= b.take(a.len() as int));
}

proof fn stamped_itself(a: Seq<Fill>, ts: UnixNanos)
    ensures
        stamped(a, a, ts),
{
    assert(a.take(a.len() as int) =~= a);
}

/// Fills added at an instant no earlier than any before it keep the order.
proof fn stamping_keeps_time(a: Seq<Fill>, b: Seq<Fill>, ts: UnixNanos, until: int)
    requires
        in_time(a, until),
        until <= ts.0,
        stamped(a, b, ts),
    ensures
        in_time(b, ts.0 as int),
{
    assert forall|i: int| 0 <= i < b.len() implies (#[trigger] b[i]).ts.0 <= ts.0 && (i < a.len()
        ==> b[i] == a[i]) by {
        if i < a.len() {
            assert(b.take(a.len() as int)[i] == b[i]);
        }
    }
    assert forall|i: int, j: int|
        #![trigger b[i], b[j]]
        0 <= i < j < b.len() implies b[i].ts.0 <= b[j].ts.0 by {
        if j < a.len() {
            assert(a[i].ts.0 <= a[j].ts.0);
        }
    }
}

impl<F: FeeModel, L: FillModel, T: LatencyModel, M: MarginModel, X: ExecutionClient> Engine<
    F,
    L,
    T,
    M,
    X,
> {
    /// What is on its way was sent under numbers given out.
    pub(crate) open spec fn sent_in_turn(self) -> bool {
        forall|k: (i64, u64)| #[trigger]
            self.desk.inflight@.dom().contains(k) ==> k.1 <= self.desk.sequence
    }

    /// What is on its way stays on its way.
    pub(crate) open spec fn keeps_sent(self, after: Self) -> bool {
        self.sent_in_turn() ==> {
            &&& after.sent_in_turn()
            &&& self.desk.sequence <= after.desk.sequence
            &&& forall|k: (i64, u64)| #[trigger]
                self.desk.inflight@.dom().contains(k) ==> after.desk.inflight@.dom().contains(k)
                    && after.desk.inflight@[k] == self.desk.inflight@[k]
        }
    }

    /// The clock stands still, what is filled is filled now, the conversation
    /// goes on from where it was, and nothing comes off the wire.
    pub(crate) open spec fn within(self, after: Self, ts: UnixNanos) -> bool {
        self.moves_on(after, ts) && self.keeps_sent(after)
    }

    /// The clock stands still, what is filled is filled now, and the
    /// conversation goes on from where it was.
    pub(crate) open spec fn moves_on(self, after: Self, ts: UnixNanos) -> bool {
        &&& after.clock.time() == self.clock.time()
        &&& after.fill_model == self.fill_model
        &&& extends(self.talk@, after.talk@)
        &&& stamped(self.ledger.fills@, after.ledger.fills@, ts)
    }

    pub(crate) proof fn within_again(a: Self, b: Self, c: Self, ts: UnixNanos)
        requires
            a.within(b, ts),
            b.within(c, ts),
        ensures
            a.within(c, ts),
    {
        Self::moving_on_again(a, b, c, ts);
    }

    /// Where the wire is untouched on either side of a stretch, what is on its
    /// way over the stretch is so over the whole.
    proof fn sent_between(a: Self, x: Self, y: Self, b: Self)
        requires
            x.desk.inflight == a.desk.inflight,
            x.desk.sequence == a.desk.sequence,
            x.keeps_sent(y),
            b.desk.inflight == y.desk.inflight,
            b.desk.sequence == y.desk.sequence,
        ensures
            a.keeps_sent(b),
    {
        if a.sent_in_turn() {
            assert(x.sent_in_turn());
            assert(b.sent_in_turn());
        }
    }

    proof fn performing(a: Self, b: Self, command: Command)
        requires
            a.performs(b, command),
        ensures
            a.keeps_sent(b),
    {
        let key = (
            saturated(a.clock.time() + a.latency_model.insert_delay()) as i64,
            b.desk.sequence,
        );
        let (p, q) = (a.desk.inflight@, b.desk.inflight@);
        if a.sent_in_turn() {
            if b.desk.sequence == a.desk.sequence + 1 {
                assert(p.dom().contains(key) ==> key.1 <= a.desk.sequence);
            }
            assert forall|k: (i64, u64)| #[trigger] q.dom().contains(k) implies k.1
                <= b.desk.sequence by {
                assert(p.dom().contains(k) || k == key);
            }
        }
    }

    pub(crate) proof fn moving_on_again(a: Self, b: Self, c: Self, ts: UnixNanos)
        requires
            a.moves_on(b, ts),
            b.moves_on(c, ts),
        ensures
            a.moves_on(c, ts),
    {
        stamped_again(a.ledger.fills@, b.ledger.fills@, c.ledger.fills@, ts);
        extends_again(a.talk@, b.talk@, c.talk@);
    }

    pub(crate) proof fn within_itself(self, ts: UnixNanos)
        ensures
            self.within(self, ts),
    {
        stamped_itself(self.ledger.fills@, ts);
        assert(self.talk@.take(self.talk@.len() as int) =~= self.talk@);
    }

    proof fn carrying_out(a: Self, b: Self, commands: Seq<Command>)
        requires
            a.carries_out(b, commands),
        ensures
            b.clock == a.clock,
            b.ledger == a.ledger,
            b.talk == a.talk,
            b.fill_model == a.fill_model,
            a.keeps_sent(b),
        decreases commands.len(),
    {
        if commands.len() > 0 {
            let m = choose|m: Self|
                a.carries_out(m, commands.drop_last()) && #[trigger] m.performs(
                    b,
                    commands.last(),
                );
            Self::carrying_out(a, m, commands.drop_last());
            Self::performing(m, b, commands.last());
        }
    }

    pub(crate) proof fn listening(a: Self, b: Self, told: Told, ts: UnixNanos)
        requires
            a.listens(b, told),
        ensures
            a.within(b, ts),
            b.ledger == a.ledger,
    {
        let (heeded, outbox) = choose|heeded: Self, outbox: Outbox| #[trigger]
            a.takes_over(heeded, outbox) && heeded.notes(
                b,
                Exchange { call: a.calls(told), asked: outbox@ },
            );
        let commands = numbered(outbox.intents@, a.desk.next_order_id as int);
        let ready = choose|ready: Self| #[trigger]
            ready.carries_out(heeded, commands) && ready.ledger == a.ledger && ready.clock.time()
                == a.clock.time() && ready.talk == a.talk
                && ready.fill_model == a.fill_model && ready.desk.inflight == a.desk.inflight
                && ready.desk.sequence == a.desk.sequence;
        Self::carrying_out(ready, heeded, commands);
        stamped_itself(a.ledger.fills@, ts);
        assert(b.talk@.take(a.talk@.len() as int) =~= a.talk@);
    }

    pub(crate) proof fn filling(
        a: Self,
        b: Self,
        id: OrderId,
        levels: Seq<(Price, Qty)>,
        is_taker: bool,
        ts: UnixNanos,
    )
        requires
            a.fills_all(b, id, levels, is_taker, ts),
        ensures
            a.within(b, ts),
        decreases levels.len(),
    {
        a.within_itself(ts);
        if levels.len() > 0 {
            let (price, size) = levels.last();
            let m = choose|m: Self|
                a.fills_all(m, id, levels.drop_last(), is_taker, ts) && #[trigger] m.executes(
                    b,
                    id,
                    price,
                    size,
                    is_taker,
                    ts,
                );
            Self::filling(a, m, id, levels.drop_last(), is_taker, ts);
            Self::executing(m, b, id, price, size, is_taker, ts);
            Self::within_again(a, m, b, ts);
        }
    }

    pub(crate) proof fn trying(a: Self, b: Self, id: OrderId, ts: UnixNanos)
        requires
            a.tries(b, id, ts),
        ensures
            a.within(b, ts),
    {
        a.within_itself(ts);
        assert forall|i: int|
            a.ledger.fills@.len() <= i < b.ledger.fills@.len() implies (
        #[trigger] b.ledger.fills@[i]).ts == ts by {
            let base = a.ledger.fills@.len();
            assert(b.ledger.fills@[base + (i - base)] == b.ledger.fills@[i]);
        }
        if extends(a.talk@, b.talk@) && a.keeps_sent(b) {
        } else {
            let order = a.desk.orders@[id.0];
            let book = a.market.book_in(market_of(order))->Some_0;
            let x = choose|x: Option<OrderBook>| #[trigger]
                a.fill_model.reshapes(book, order, x) && a.matches_book(
                    b,
                    id,
                    ts,
                    effective_book(x, book),
                );
            let wanted = wanted_of(order, quantity_in(a.ledger.portfolio.held(), market_of(order)));
            let walk = walk_levels(
                effective_book(x, book).ranked(order.side.opposite()),
                order.side,
                wanted,
                order.cap(),
            );
            let m = choose|m: Self|
                a.fills_all(m, id, walk.0, !order.post_only, ts) && #[trigger] m.settles_down(
                    b,
                    id,
                );
            Self::filling(a, m, id, walk.0, !order.post_only, ts);
            Self::sent_between(a, a, m, b);
        }
    }

    pub(crate) proof fn trying_all(a: Self, b: Self, ids: Seq<OrderId>, ts: UnixNanos)
        requires
            a.tries_all(b, ids, ts),
        ensures
            a.within(b, ts),
        decreases ids.len(),
    {
        a.within_itself(ts);
        if ids.len() > 0 {
            let m = choose|m: Self|
                a.tries_all(m, ids.drop_last(), ts) && #[trigger] m.tries(b, ids.last(), ts);
            Self::trying_all(a, m, ids.drop_last(), ts);
            Self::trying(m, b, ids.last(), ts);
            Self::within_again(a, m, b, ts);
        }
    }

    pub(crate) proof fn executing(
        a: Self,
        b: Self,
        id: OrderId,
        price: Price,
        quantity: Qty,
        is_taker: bool,
        ts: UnixNanos,
    )
        requires
            a.executes(b, id, price, quantity, is_taker, ts),
        ensures
            a.within(b, ts),
    {
        let last = a.ledger.fills@.len() as int;
        assert(b.ledger.fills@.len() == last + 1);
        assert(b.ledger.fills@[last].ts == ts);
        let terms = FillTerms {
            price,
            quantity,
            origin: FillOrigin::Trade { is_taker },
            commission: a.charges(id, price, quantity, is_taker, ts)->Ok_0,
        };
        let p = choose|p: Self| #[trigger]
            a.pays(p, id, price, quantity, is_taker, ts) && p.books_fill(b, id, terms, ts);
        Self::booking(p, b, id, terms, ts);
    }

    proof fn booking(a: Self, b: Self, id: OrderId, terms: FillTerms, ts: UnixNanos)
        requires
            a.books_fill(b, id, terms, ts),
        ensures
            extends(a.talk@, b.talk@),
            b.fill_model == a.fill_model,
            a.keeps_sent(b),
    {
        let fill = fill_of(a.desk.orders@[id.0], terms, ts);
        let x = choose|x: Self| #[trigger]
            x.listens(b, Told::Fill(fill)) && a.records(x, id, terms, ts);
        Self::listening(x, b, Told::Fill(fill), ts);
    }

    pub(crate) proof fn working(
        a: Self,
        b: Self,
        eligible: Seq<(Price, OrderId)>,
        size: int,
        left: int,
        ts: UnixNanos,
    )
        requires
            a.works_queue(b, eligible, size, left, ts),
        ensures
            a.within(b, ts),
        decreases eligible.len(),
    {
        a.within_itself(ts);
        if eligible.len() > 0 {
            let entry = eligible.last();
            let (m, noted, filled, before) = choose|m: Self, noted: Self, filled: Self, before: int|
                a.works_queue(m, eligible.drop_last(), size, before, ts) && #[trigger] m.works_one(
                    noted,
                    filled,
                    b,
                    entry,
                    before,
                    left,
                    ts,
                );
            Self::working(a, m, eligible.drop_last(), size, before, ts);
            Self::working_once(m, noted, filled, b, entry, before, left, ts);
            Self::within_again(a, m, b, ts);
        }
    }

    pub(crate) proof fn working_once(
        a: Self,
        noted: Self,
        filled: Self,
        b: Self,
        entry: (Price, OrderId),
        before: int,
        left: int,
        ts: UnixNanos,
    )
        requires
            a.works_one(noted, filled, b, entry, before, left, ts),
        ensures
            a.within(b, ts),
    {
        a.within_itself(ts);
        if before > 0 {
            let share = a.share_at(entry.1, before);
            if share.fill > 0 {
                Self::executing(
                    noted,
                    filled,
                    entry.1,
                    entry.0,
                    Qty(share.fill as i64),
                    false,
                    ts,
                );
            }
        }
    }

    pub(crate) proof fn working_side(
        a: Self,
        b: Self,
        record: Record,
        price: Price,
        size: Qty,
        passive: Side,
    )
        requires
            a.works_side(b, record, price, size, passive),
        ensures
            a.within(b, record.stamps.ts_init),
    {
        let market = (record.instrument@, record.outcome.0);
        let ts = record.stamps.ts_init;
        let (eligible, worked, left) = choose|
            eligible: Seq<(Price, OrderId)>,
            worked: Self,
            left: int,
        | #[trigger]
            a.works_print(b, eligible, worked, left, passive, market, price, size, ts);
        Self::working(a, worked, eligible, size.0 as int, left, ts);
    }

    pub(crate) proof fn working_trade(
        a: Self,
        b: Self,
        record: Record,
        price: Price,
        size: Qty,
        aggressor: Option<Side>,
    )
        requires
            a.works_trade(b, record, price, size, aggressor),
        ensures
            a.within(b, record.stamps.ts_init),
    {
        let ts = record.stamps.ts_init;
        a.within_itself(ts);
        if a.fill_model.tracks_queue() {
            match aggressor {
                Some(side) => {
                    Self::working_side(a, b, record, price, size, side.opposite());
                },
                None => {
                    if a.fill_model.counts_unknown_aggressor() {
                        let m = choose|m: Self| #[trigger]
                            a.works_side(m, record, price, size, Side::Buy) && m.works_side(
                                b,
                                record,
                                price,
                                size,
                                Side::Sell,
                            );
                        Self::working_side(a, m, record, price, size, Side::Buy);
                        Self::working_side(m, b, record, price, size, Side::Sell);
                        Self::within_again(a, m, b, ts);
                    }
                },
            }
        }
    }

    pub(crate) proof fn forcing(a: Self, b: Self, c: CloseOut, tag: String, ts: UnixNanos)
        requires
            a.forces(b, c, tag, ts),
        ensures
            a.within(b, ts),
    {
        let (filed, tried, order) = choose|
            filed: Self,
            tried: Self,
            order: Order,
        | #[trigger]
            a.liquidates(b, filed, tried, order, c, tag, ts);
        Self::trying(filed, tried, order.id, ts);
        Self::sent_between(a, filed, tried, b);
    }

    pub(crate) proof fn forcing_all(a: Self, b: Self, closes: Seq<CloseOut>, tag: String, ts: UnixNanos)
        requires
            a.forces_all(b, closes, tag, ts),
        ensures
            a.within(b, ts),
        decreases closes.len(),
    {
        a.within_itself(ts);
        if closes.len() > 0 {
            let m = choose|m: Self|
                a.forces_all(m, closes.drop_last(), tag, ts) && #[trigger] m.forces(
                    b,
                    closes.last(),
                    tag,
                    ts,
                );
            Self::forcing_all(a, m, closes.drop_last(), tag, ts);
            Self::forcing(m, b, closes.last(), tag, ts);
            Self::within_again(a, m, b, ts);
        }
    }

    pub(crate) proof fn answering_isolated(a: Self, b: Self, ts: UnixNanos)
        requires
            a.answers_isolated(b, ts),
        ensures
            a.within(b, ts),
    {
        a.within_itself(ts);
        if let Some(model) = a.setup.margin {
            let calls = calls_over(
                model,
                a.setup.instruments@,
                a.market.marks@,
                a.ledger.isolated_collateral@,
                a.ledger.portfolio.listed(),
                names_in(a.setup.isolated),
            );
            Self::forcing_all(a, b, all_closes(calls->Ok_0), a.setup.labels.isolated, ts);
        }
    }

    pub(crate) proof fn sweeping_one(a: Self, b: Self, model: M, d: Doomed, call: MarginState, ts: UnixNanos)
        requires
            a.sweeps_one(b, model, d, call, ts),
        ensures
            a.within(b, ts),
    {
        a.within_itself(ts);
        let mark = a.market.marks@[(d.instrument@, d.outcome.0)];
        let now = a.stands(model);
        let size = a.called_size(model, d, mark, now->Ok_0);
        let left = a.setup.liquidation is Partial && !(now->Ok_0).liquidatable;
        if !left && size != 0 {
            Self::forcing(
                a,
                b,
                CloseOut {
                    instrument: d.instrument,
                    outcome: d.outcome,
                    quantity: Qty(size as i64),
                    mark,
                    equity: call.equity,
                    maintenance: call.maintenance,
                },
                a.setup.labels.liquidation,
                ts,
            );
        }
    }

    pub(crate) proof fn sweeping(
        a: Self,
        b: Self,
        model: M,
        doomed: Seq<Doomed>,
        call: MarginState,
        ts: UnixNanos,
    )
        requires
            a.sweeps(b, model, doomed, call, ts),
        ensures
            a.within(b, ts),
        decreases doomed.len(),
    {
        a.within_itself(ts);
        if doomed.len() > 0 {
            let m = choose|m: Self|
                a.sweeps(m, model, doomed.drop_last(), call, ts) && #[trigger] m.sweeps_one(
                    b,
                    model,
                    doomed.last(),
                    call,
                    ts,
                );
            Self::sweeping(a, m, model, doomed.drop_last(), call, ts);
            Self::sweeping_one(m, b, model, doomed.last(), call, ts);
            Self::within_again(a, m, b, ts);
        }
    }

    pub(crate) proof fn answering(a: Self, b: Self, ts: UnixNanos)
        requires
            a.answers(b, ts),
        ensures
            a.within(b, ts),
    {
        a.within_itself(ts);
        if let Some(model) = a.setup.margin {
            let state = a.stands(model)->Ok_0;
            if state.liquidatable {
                let doomed = choose|doomed: Seq<Doomed>| #[trigger]
                    a.answers_call(b, model, doomed, state, ts);
                Self::sweeping(a, b, model, doomed, state, ts);
            }
        }
    }

    pub(crate) proof fn firing(a: Self, b: Self, ids: Seq<OrderId>, ts: UnixNanos)
        requires
            a.fires_all(b, ids, ts),
        ensures
            a.within(b, ts),
        decreases ids.len(),
    {
        a.within_itself(ts);
        if ids.len() > 0 {
            let m = choose|m: Self|
                a.fires_all(m, ids.drop_last(), ts) && #[trigger] m.fires(b, ids.last(), ts);
            Self::firing(a, m, ids.drop_last(), ts);
            Self::firing_one(m, b, ids.last(), ts);
            Self::within_again(a, m, b, ts);
        }
    }

    pub(crate) proof fn firing_one(a: Self, b: Self, id: OrderId, ts: UnixNanos)
        requires
            a.fires(b, id, ts),
        ensures
            a.within(b, ts),
    {
        let armed = choose|armed: Self| #[trigger] a.arms(armed, id, ts) && armed.tries(b, id, ts);
        Self::trying(armed, b, id, ts);
        Self::sent_between(a, armed, b, b);
    }

    pub(crate) proof fn releasing(a: Self, b: Self, ts: UnixNanos)
        requires
            a.releases_stops(b, ts),
        ensures
            a.within(b, ts),
    {
        let ids = a.desk.untriggered@.filter(released(a.desk.orders@, a.market.marks@));
        let sorted = choose|sorted: Self| #[trigger]
            a.sorts_stops(sorted) && sorted.fires_all(b, ids, ts);
        Self::firing(sorted, b, ids, ts);
        Self::sent_between(a, sorted, b, b);
    }

    pub(crate) proof fn slicing(a: Self, b: Self, twaps: Seq<TwapProgress>, ts: UnixNanos, n: nat)
        requires
            a.works_slices(b, twaps, ts, n),
        ensures
            a.within(b, ts),
        decreases n,
    {
        a.within_itself(ts);
        if n > 0 {
            let twap = twaps[n - 1];
            let slice = slices_at(twaps, ts)[n - 1];
            let m = choose|m: Self|
                a.works_slices(m, twaps, ts, (n - 1) as nat) && #[trigger] m.works_slice(
                    b,
                    twaps[n - 1],
                    slices_at(twaps, ts)[n - 1],
                    ts,
                );
            Self::slicing(a, m, twaps, ts, (n - 1) as nat);
            Self::slicing_one(m, b, twap, slice, ts);
            Self::within_again(a, m, b, ts);
        }
    }

    pub(crate) proof fn slicing_one(
        a: Self,
        b: Self,
        twap: TwapProgress,
        slice: Option<Qty>,
        ts: UnixNanos,
    )
        requires
            a.works_slice(b, twap, slice, ts),
        ensures
            a.within(b, ts),
    {
        a.within_itself(ts);
        if let Some(size) = slice {
            let (filed, order) = choose|filed: Self, order: Order| #[trigger]
                a.sends(filed, order, twap, size, ts) && filed.tries(b, order.id, ts);
            Self::trying(filed, b, order.id, ts);
            Self::sent_between(a, filed, b, b);
        }
    }

    pub(crate) proof fn scheduling(a: Self, b: Self, ts: UnixNanos)
        requires
            a.works_schedules(b, ts),
        ensures
            a.within(b, ts),
    {
        let n = a.desk.twaps@.len();
        let moved = choose|moved: Self| #[trigger]
            a.moves_schedules(moved, ts) && moved.works_slices(b, a.desk.twaps@, ts, n);
        Self::slicing(moved, b, a.desk.twaps@, ts, n);
        Self::sent_between(a, moved, b, b);
    }

    pub(crate) proof fn landing(a: Self, b: Self, id: OrderId, ts: UnixNanos)
        requires
            a.lands(b, id, ts),
        ensures
            a.within(b, ts),
    {
        a.within_itself(ts);
        let order = a.desk.orders@[id.0];
        let fired = Order { trigger: None, ..order };
        let counted = triggered(a.journal.metrics, order);
        if a.enters(b, fired, counted, ts) {
            let admitted = choose|admitted: Self| #[trigger]
                a.admits(admitted, fired, counted, ts) && admitted.tries(b, fired.id, ts);
            Self::trying(admitted, b, fired.id, ts);
            Self::sent_between(a, admitted, b, b);
        }
    }

    pub(crate) proof fn adding_legs(
        a: Self,
        b: Self,
        terms: SetTerms,
        basis: Seq<Price>,
        ts: UnixNanos,
    )
        requires
            a.adds_legs(b, terms, basis, ts),
        ensures
            a.within(b, ts),
        decreases basis.len(),
    {
        a.within_itself(ts);
        if basis.len() > 0 {
            let m = choose|m: Self|
                a.adds_legs(m, terms, basis.drop_last(), ts) && #[trigger] m.adds_leg(
                    b,
                    terms,
                    basis.len() - 1,
                    basis.last(),
                    ts,
                );
            Self::adding_legs(a, m, terms, basis.drop_last(), ts);
            Self::adding_leg(m, b, terms, basis.len() - 1, basis.last(), ts);
            Self::within_again(a, m, b, ts);
        }
    }

    pub(crate) proof fn adding_leg(
        a: Self,
        b: Self,
        terms: SetTerms,
        outcome: int,
        price: Price,
        ts: UnixNanos,
    )
        requires
            a.adds_leg(b, terms, outcome, price, ts),
        ensures
            a.within(b, ts),
    {
        let last = a.ledger.fills@.len() as int;
        assert(b.ledger.fills@.len() == last + 1);
        assert(b.ledger.fills@[last].ts == ts);
        let (filed, order) = choose|filed: Self, order: Order| #[trigger]
            a.books_leg(b, filed, order, terms, outcome, price, ts);
        Self::booking(filed, b, order.id, leg_terms(terms, outcome, price), ts);
    }

    pub(crate) proof fn operating(a: Self, b: Self, request: SetOperationRequest, ts: UnixNanos)
        requires
            a.operates(b, request, ts),
        ensures
            a.within(b, ts),
    {
        a.within_itself(ts);
        let (booked, answer) = choose|booked: Self, answer: Option<Seq<char>>| #[trigger]
            a.operates_on(b, booked, request, answer, ts);
        if answer is None {
            let instrument = a.setup.instruments@[request.instrument@];
            let (count, side) = set_terms(request.kind@, request.quantity);
            let terms = SetTerms {
                instrument: instrument.id,
                side,
                sets: Qty(count as i64),
                cost: a.setup.set_costs.cost_of(request.kind@),
                tag: labelled(request.tag, a.setup.labels.of_set(request.kind@)),
            };
            Self::adding_legs(a, booked, terms, basis_of(instrument, a.market.marks@), ts);
        }
    }

    pub(crate) proof fn receiving(a: Self, b: Self, actions: Seq<InFlightAction>, ts: UnixNanos)
        requires
            a.receives_all(b, actions, ts),
        ensures
            a.within(b, ts),
        decreases actions.len(),
    {
        a.within_itself(ts);
        if actions.len() > 0 {
            let m = choose|m: Self|
                a.receives_all(m, actions.drop_last(), ts) && #[trigger] m.receives(
                    b,
                    actions.last(),
                    ts,
                );
            Self::receiving(a, m, actions.drop_last(), ts);
            match actions.last() {
                InFlightAction::Order(id) => {
                    Self::landing(m, b, id, ts);
                },
                InFlightAction::Operation(request) => {
                    Self::operating(m, b, request, ts);
                },
            }
            Self::within_again(a, m, b, ts);
        }
    }

    pub(crate) proof fn delivering(a: Self, b: Self, ts: UnixNanos)
        requires
            a.delivers(b, ts),
        ensures
            a.moves_on(b, ts),
    {
        let (collected, actions) = choose|collected: Self, actions: Seq<InFlightAction>| #[trigger]
            a.collects(collected, actions, ts) && collected.receives_all(b, actions, ts);
        Self::receiving(collected, b, actions, ts);
    }

    proof fn paying_out(
        a: Self,
        b: Self,
        instrument: InstrumentId,
        held: Seq<(OutcomeId, Qty)>,
        price: Price,
        ts: UnixNanos,
    )
        requires
            a.pays_out_all(b, instrument, held, price, ts),
        ensures
            a.within(b, ts),
        decreases held.len(),
    {
        a.within_itself(ts);
        if held.len() > 0 {
            let m = choose|m: Self|
                a.pays_out_all(m, instrument, held.drop_last(), price, ts) && #[trigger] m.pays_out(
                    b,
                    instrument,
                    held.last(),
                    price,
                    ts,
                );
            Self::paying_out(a, m, instrument, held.drop_last(), price, ts);
            let last = m.ledger.fills@.len() as int;
            assert(b.ledger.fills@.len() == last + 1);
            assert(b.ledger.fills@[last].ts == ts);
            assert(b.ledger.fills@.take(last) =~= m.ledger.fills@);
            m.within_itself(ts);
            assert(b.talk == m.talk);
            Self::within_again(a, m, b, ts);
        }
    }

    pub(crate) proof fn applying(a: Self, b: Self, record: Record)
        requires
            a.applies(b, record),
        ensures
            a.within(b, record.stamps.ts_init),
    {
        let ts = record.stamps.ts_init;
        a.within_itself(ts);
        let (opened, met) = choose|opened: Self, met: Self| #[trigger]
            a.takes_in(b, record, opened, met);
        if let MarketEvent::Corporate(action) = record.event {
            if let CorporateAction::Delist { final_price } = action {
                let held = open_in_instrument(
                    opened.ledger.portfolio.listed(),
                    record.instrument@,
                );
                let paid = choose|paid: Self| #[trigger]
                    paid.takes_off(met, record.instrument) && opened.pays_out_all(
                        paid,
                        record.instrument,
                        held,
                        final_price,
                        ts,
                    );
                Self::paying_out(opened, paid, record.instrument, held, final_price, ts);
            }
        }
    }

    pub(crate) proof fn hearing(a: Self, b: Self, events: Seq<TimerKey>, ts: UnixNanos)
        requires
            a.hears(b, events),
        ensures
            a.within(b, ts),
            b.ledger == a.ledger,
        decreases events.len(),
    {
        a.within_itself(ts);
        if events.len() > 0 {
            let m = choose|m: Self|
                a.hears(m, events.drop_last()) && #[trigger] m.listens(
                    b,
                    Told::Timer(events.last()),
                );
            Self::hearing(a, m, events.drop_last(), ts);
            Self::listening(m, b, Told::Timer(events.last()), ts);
            Self::within_again(a, m, b, ts);
        }
    }

    pub(crate) proof fn expiring(a: Self, b: Self, n: nat)
        requires
            a.expires_some(b, n),
        ensures
            b.clock == a.clock,
            b.ledger == a.ledger,
            b.talk == a.talk,
            b.fill_model == a.fill_model,
        decreases n,
    {
        if n > 0 {
            let m = choose|m: Self|
                a.expires_some(m, (n - 1) as nat) && #[trigger] m.expires_next(b);
            Self::expiring(a, m, (n - 1) as nat);
        }
    }

    /// A step moves the clock forward to its record, and every fill it makes
    /// bears the record's time.
    #[verifier::rlimit(60)]
    pub(crate) proof fn stepping(a: Self, b: Self, record: Record)
        requires
            a.steps(b, record),
        ensures
            a.clock.time() <= record.stamps.ts_init.0,
            b.clock.time() == record.stamps.ts_init.0,
            stamped(a.ledger.fills@, b.ledger.fills@, record.stamps.ts_init),
            extends(a.talk@, b.talk@),
            b.fill_model == a.fill_model,
    {
        reveal(Engine::steps);
        reveal(Engine::got_timed);
        reveal(Engine::got_applied);
        reveal(Engine::got_printed);
        reveal(Engine::got_matched);
        reveal(Engine::got_called);
        reveal(Engine::got_isolated);
        reveal(Engine::got_armed);
        reveal(Engine::got_worked);
        reveal(Engine::got_told);
        reveal(Engine::got_counted);
        let ts = record.stamps.ts_init;
        let t = choose|t: Trail<Self>| #[trigger] a.passes(b, record, t);
        let moved = choose|moved: Self| #[trigger]
            a.moves_clock(moved, ts) && moved.hears(t.timed, a.due_by(ts));
        Self::hearing(moved, t.timed, a.due_by(ts), ts);
        let due = (t.expired.board.next_expiry - t.timed.board.next_expiry) as nat;
        Self::expiring(t.timed, t.expired, due);
        Self::applying(t.expired, t.applied, record);
        t.applied.within_itself(ts);
        if let MarketEvent::Trade { price, size, aggressor } = record.event {
            Self::working_trade(t.applied, t.printed, record, price, size, aggressor);
        }
        let market = (record.instrument@, record.outcome.0);
        let (ids, tried) = choose|ids: Seq<OrderId>, tried: Self| #[trigger]
            t.printed.rematches(t.matched, record, market, ids, tried);
        Self::trying_all(t.printed, tried, ids, ts);
        Self::within_again(t.expired, t.applied, t.printed, ts);
        Self::within_again(t.expired, t.printed, t.matched, ts);
        Self::answering(t.matched, t.called, ts);
        Self::within_again(t.expired, t.matched, t.called, ts);
        Self::answering_isolated(t.called, t.isolated, ts);
        Self::within_again(t.expired, t.called, t.isolated, ts);
        Self::releasing(t.isolated, t.armed, ts);
        Self::within_again(t.expired, t.isolated, t.armed, ts);
        Self::scheduling(t.armed, t.worked, ts);
        Self::within_again(t.expired, t.armed, t.worked, ts);
        Self::listening(t.worked, t.told, Told::Event(record), ts);
        Self::within_again(t.expired, t.worked, t.told, ts);
        Self::delivering(t.told, t.delivered, ts);
        Self::moving_on_again(t.expired, t.told, t.delivered, ts);
        assert(b.ledger == t.delivered.ledger);
        assert(b.clock == t.delivered.clock);
        assert(b.talk == t.delivered.talk);
        extends_again(a.talk@, t.expired.talk@, t.delivered.talk@);
    }

    /// Playing records through only adds to the conversation.
    pub(crate) proof fn playing_goes_on(a: Self, b: Self, records: Seq<Record>)
        requires
            a.plays(b, records),
        ensures
            extends(a.talk@, b.talk@),
            b.fill_model == a.fill_model,
        decreases records.len(),
    {
        assert(a.talk@.take(a.talk@.len() as int) =~= a.talk@);
        if records.len() > 0 {
            let m = choose|m: Self|
                a.plays(m, records.drop_last()) && #[trigger] m.steps(b, records.last());
            Self::playing_goes_on(a, m, records.drop_last());
            Self::stepping(m, b, records.last());
            extends_again(a.talk@, m.talk@, b.talk@);
        }
    }

    /// Playing records through: they come in time order, the fills come in
    /// time order, and each new fill bears the time of one of the records.
    pub(crate) proof fn playing(a: Self, b: Self, records: Seq<Record>)
        requires
            a.plays(b, records),
            in_time(a.ledger.fills@, a.clock.time() as int),
        ensures
            a.clock.time() <= b.clock.time(),
            in_time(b.ledger.fills@, b.clock.time() as int),
            arrive_in_time(records, b.clock.time() as int),
            extends(a.ledger.fills@, b.ledger.fills@),
            forall|i: int|
                a.ledger.fills@.len() <= i < b.ledger.fills@.len() ==> has_instant(
                    records,
                    (#[trigger] b.ledger.fills@[i]).ts,
                ),
        decreases records.len(),
    {
        stamped_itself(a.ledger.fills@, UnixNanos(0));
        if records.len() > 0 {
            let m = choose|m: Self|
                a.plays(m, records.drop_last()) && #[trigger] m.steps(b, records.last());
            let ts = records.last().stamps.ts_init;
            let earlier = m.ledger.fills@;
            let fills = b.ledger.fills@;
            Self::playing(a, m, records.drop_last());
            Self::stepping(m, b, records.last());
            stamping_keeps_time(earlier, fills, ts, m.clock.time() as int);
            assert(fills.take(a.ledger.fills@.len() as int) =~= earlier.take(
                a.ledger.fills@.len() as int,
            ));
            assert forall|i: int| a.ledger.fills@.len() <= i < fills.len() implies has_instant(
                records,
                (#[trigger] fills[i]).ts,
            ) by {
                if i < earlier.len() {
                    assert(fills.take(earlier.len() as int)[i] == fills[i]);
                    let k = choose|k: int|
                        0 <= k < records.len() - 1 && (#[trigger] records.drop_last()[k]).stamps.ts_init
                            == earlier[i].ts;
                    assert(records[k].stamps.ts_init == fills[i].ts);
                } else {
                    assert(records[records.len() - 1].stamps.ts_init == fills[i].ts);
                }
            }
            assert forall|i: int| 0 <= i < records.len() implies (
            #[trigger] records[i]).stamps.ts_init.0 <= ts.0 by {
                if i < records.len() - 1 {
                    assert(records.drop_last()[i] == records[i]);
                }
            }
            assert forall|i: int, j: int|
                #![trigger records[i], records[j]]
                0 <= i < j < records.len() implies records[i].stamps.ts_init.0
                <= records[j].stamps.ts_init.0 by {
                assert(records.drop_last()[i] == records[i]);
                if j < records.len() - 1 {
                    assert(records.drop_last()[j] == records[j]);
                }
            }
        }
    }

    /// A whole run played through: what [`Engine::playing`] says, from start
    /// to finish.
    pub(crate) proof fn running(
        a: Self,
        b: Self,
        records: Seq<Record>,
        started: Self,
        played: Self,
        stopped: Self,
    )
        requires
            a.runs_by(b, records, started, played, stopped),
            a.ledger.fills@.len() == 0,
        ensures
            in_time(b.ledger.fills@, b.clock.time() as int),
            arrive_in_time(records, b.clock.time() as int),
            forall|i: int|
                0 <= i < b.ledger.fills@.len() ==> has_instant(
                    records,
                    (#[trigger] b.ledger.fills@[i]).ts,
                ),
    {
        Self::listening(a, started, Told::Start, UnixNanos(0));
        Self::playing(started, played, records);
        Self::listening(played, stopped, Told::Stop, UnixNanos(0));
        stopped.finishing_keeps_the_books(b);
    }
}

} // verus!
