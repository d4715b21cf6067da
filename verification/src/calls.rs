//! Margin calls: closing what the account can no longer support.

use vstd::prelude::*;
use vstd::string::*;

use crate::account::{Liquidation, MarginModel, MarginState};
use crate::desk::Desk;
use crate::engine::{same_order, Engine, Journal};
use crate::error::{BacktestError, ErrorView};
use crate::execution::ExecutionClient;
use crate::instrument::{InstrumentId, OutcomeId};
use crate::margin::{
    call_views, calls_over, closed_before, closing_size, cross_among, cross_standing, is_listed,
    names_in, stands_for, CallView, Doomed,
};
use crate::market::key_for;
use crate::metrics::{bumped, one_more, LiquidationPolicy, RunMetrics};
use crate::models::{FeeModel, FillModel, LatencyModel};
use crate::order::{submitted, Order, OrderId, OrderKind, OrderStatus, TimeInForce};
use crate::position::key_of;
use crate::strategy::{talked, talked_again, talked_not, Strategy};
use crate::types::{magnitude, saturated, Money, Price, Qty, Side, UnixNanos};

verus! {

/// One forced close, as it is reported.
pub struct CloseOut {
    pub instrument: InstrumentId,
    pub outcome: OutcomeId,
    pub quantity: Qty,
    pub mark: Price,
    pub equity: Money,
    pub maintenance: Money,
}

/// What a report of a forced close says.
pub open spec fn close_out(l: Liquidation) -> CloseOut {
    CloseOut {
        instrument: l.instrument,
        outcome: l.outcome,
        quantity: l.quantity,
        mark: l.mark,
        equity: l.equity,
        maintenance: l.maintenance,
    }
}

/// The side that closes a position.
pub open spec fn closing_side(quantity: Qty) -> Side {
    if quantity.0 > 0 {
        Side::Sell
    } else {
        Side::Buy
    }
}

/// What reports of forced closes say.
pub open spec fn close_outs(liquidations: Seq<Liquidation>) -> Seq<CloseOut> {
    liquidations.map_values(|l: Liquidation| close_out(l))
}

/// The closes one isolated call asks for.
pub open spec fn call_closes(call: CallView, n: nat) -> Seq<CloseOut>
    decreases n,
{
    if n == 0 {
        Seq::empty()
    } else {
        let (outcome, quantity, mark) = call.open[n - 1];
        call_closes(call, (n - 1) as nat).push(
            CloseOut {
                instrument: call.instrument,
                outcome,
                quantity,
                mark,
                equity: call.equity,
                maintenance: call.maintenance,
            },
        )
    }
}

/// The closes a list of isolated calls asks for.
pub open spec fn all_closes(calls: Seq<CallView>) -> Seq<CloseOut>
    decreases calls.len(),
{
    if calls.len() == 0 {
        Seq::empty()
    } else {
        all_closes(calls.drop_last()) + call_closes(calls.last(), calls.last().open.len())
    }
}

/// Where one close of one call stands among the closes of all of them.
proof fn closes_in_order(calls: Seq<CallView>, i: int, j: int)
    requires
        0 <= i < calls.len(),
        0 <= j < calls[i].open.len(),
    ensures
        ({
            let before = all_closes(calls.take(i));
            let all = all_closes(calls);
            let k = before.len() + j;
            &&& k < all.len()
            &&& all.take(k) == before + call_closes(calls[i], j as nat)
            &&& all[k] == call_closes(calls[i], (j + 1) as nat).last()
        }),
    decreases calls.len(),
{
    let before = all_closes(calls.take(i));
    let all = all_closes(calls);
    let k = before.len() + j;
    let rest = all_closes(calls.drop_last());
    if i == calls.len() - 1 {
        assert(calls.take(i) =~= calls.drop_last());
        closes_are_prefixes(calls[i], j as nat, calls[i].open.len());
        closes_are_prefixes(calls[i], (j + 1) as nat, calls[i].open.len());
        assert(all.take(k) =~= before + call_closes(calls[i], j as nat));
    } else {
        closes_in_order(calls.drop_last(), i, j);
        assert(calls.drop_last().take(i) =~= calls.take(i));
        assert(all.take(k) =~= rest.take(k));
    }
}

/// The closes of one call only grow.
proof fn closes_are_prefixes(call: CallView, m: nat, n: nat)
    requires
        m <= n,
    ensures
        call_closes(call, n).len() == n,
        call_closes(call, m).len() == m,
        call_closes(call, n).take(m as int) == call_closes(call, m),
    decreases n,
{
    if m < n {
        closes_are_prefixes(call, m, (n - 1) as nat);
        let shorter = call_closes(call, (n - 1) as nat);
        assert(call_closes(call, n).take(m as int) =~= shorter.take(m as int));
    } else {
        if n > 0 {
            closes_are_prefixes(call, (n - 1) as nat, (n - 1) as nat);
        }
        assert(call_closes(call, n).take(m as int) =~= call_closes(call, m));
    }
}

/// An order the venue itself works: accepted on the spot, at the market,
/// and cancelled where it does not fill.
pub open spec fn venue_order(
    id: OrderId,
    instrument: InstrumentId,
    outcome: OutcomeId,
    side: Side,
    quantity: Qty,
    ts: UnixNanos,
    tag: String,
    reduce_only: bool,
) -> Order {
    Order {
        status: OrderStatus::Accepted,
        accepted_at: Some(ts),
        tag: Some(tag),
        reduce_only,
        ..submitted(
            id,
            instrument,
            outcome,
            side,
            OrderKind::Market,
            quantity,
            TimeInForce::ImmediateOrCancel,
            ts,
        )
    }
}

impl<F: FeeModel, L: FillModel, T: LatencyModel, M: MarginModel, X: ExecutionClient> Engine<
    F,
    L,
    T,
    M,
    X,
> {
    /// One order more on file, under the next id.
    pub(crate) open spec fn issues(self, after: Self, order: Order) -> bool {
        &&& self.desk.next_order_id < u64::MAX
        &&& order.id.0 == self.desk.next_order_id + 1
        &&& after == (Engine { desk: after.desk, ..self })
        &&& after.desk == (Desk {
            orders: after.desk.orders,
            next_order_id: order.id.0,
            ..self.desk
        })
        &&& after.desk.orders@ == self.desk.orders@.insert(order.id.0, order)
    }

    pub(crate) proof fn issuing_advances(a: Self, b: Self, order: Order)
        requires
            a.sound(),
            a.issues(b, order),
        ensures
            a.advanced(b),
    {
        a.advances_itself();
        assert forall|k: u64| #[trigger]
            a.desk.orders@.dom().contains(k) implies b.desk.orders@.dom().contains(k) && same_order(
            a.desk.orders@[k],
            b.desk.orders@[k],
        ) by {
            assert(k <= a.desk.next_order_id);
        }
    }

    /// File an order of the venue's own.
    pub(crate) fn issue(
        &mut self,
        instrument: &InstrumentId,
        outcome: OutcomeId,
        side: Side,
        quantity: Qty,
        ts: UnixNanos,
        tag: String,
        reduce_only: bool,
    ) -> (r: Result<OrderId, BacktestError>)
        requires
            old(self).sound(),
        ensures
            final(self).sound(),
            match r {
                Ok(id) => {
                    &&& quantity.0 > 0
                    &&& old(self).issues(
                        *final(self),
                        venue_order(id, *instrument, outcome, side, quantity, ts, tag, reduce_only),
                    )
                    &&& old(self).advanced(*final(self))
                },
                Err(_) => quantity.0 <= 0 || old(self).desk.next_order_id == u64::MAX,
            },
    {
        let ghost start = *self;
        let id = self.desk.issue()?;
        let order = Order::new(
            id,
            instrument.clone(),
            outcome,
            side,
            OrderKind::Market,
            quantity,
            TimeInForce::ImmediateOrCancel,
            ts,
        )?;
        proof {
            if self.desk.resting@.contains(id) {
                assert(self.desk.orders@.dom().contains(id.0));
            }
        }
        let ghost made = Order {
            status: OrderStatus::Accepted,
            accepted_at: Some(ts),
            tag: Some(tag),
            reduce_only,
            ..order
        };
        self.desk.file(
            Order {
                status: OrderStatus::Accepted,
                accepted_at: Some(ts),
                tag: Some(tag),
                reduce_only,
                ..order
            },
        );
        proof {
            assert(start.issues(*self, made));
            Self::issuing_advances(start, *self, made);
        }
        Ok(id)
    }

    /// One forced close: an order of the venue's own for it, tried against
    /// the book, and the close reported.
    pub(crate) open spec fn liquidates(
        self,
        after: Self,
        filed: Self,
        tried: Self,
        order: Order,
        c: CloseOut,
        tag: String,
        ts: UnixNanos,
    ) -> bool {
        &&& self.orders_close(filed, order, c, tag, ts)
        &&& filed.tries(tried, order.id, ts)
        &&& tried.reports_close(after, c)
    }

    /// A forced close reported.
    pub(crate) open spec fn reports_close(self, after: Self, c: CloseOut) -> bool {
        &&& after == (Engine { journal: after.journal, ..self })
        &&& after.journal == (Journal {
            metrics: after.journal.metrics,
            liquidations: after.journal.liquidations,
            ..self.journal
        })
        &&& after.journal.metrics == (RunMetrics {
            liquidations: bumped(self.journal.metrics.liquidations),
            ..self.journal.metrics
        })
        &&& after.journal.liquidations@.len() == self.journal.liquidations@.len() + 1
        &&& after.journal.liquidations@.drop_last() == self.journal.liquidations@
        &&& close_out(after.journal.liquidations@.last()) == c
    }

    /// The venue's own order for a forced close.
    pub(crate) open spec fn orders_close(
        self,
        filed: Self,
        order: Order,
        c: CloseOut,
        tag: String,
        ts: UnixNanos,
    ) -> bool {
        &&& self.issues(filed, order)
        &&& order == venue_order(
            order.id,
            c.instrument,
            c.outcome,
            closing_side(c.quantity),
            Qty(magnitude(c.quantity.0 as int) as i64),
            ts,
            tag,
            false,
        )
    }

    /// A forced close that cannot be ordered, or that trades.
    pub(crate) open spec fn close_trades(
        self,
        c: CloseOut,
        tag: String,
        ts: UnixNanos,
        quiet: bool,
    ) -> bool {
        ||| c.quantity.0 == 0
        ||| c.quantity.0 == i64::MIN
        ||| self.desk.next_order_id == u64::MAX
        ||| exists|filed: Self, order: Order| #[trigger]
            self.orders_close(filed, order, c, tag, ts) && filed.finds_levels(order.id, ts, quiet)
    }

    /// Forced closes come to one that cannot be ordered, or that trades.
    pub(crate) open spec fn closes_trade(
        self,
        closes: Seq<CloseOut>,
        tag: String,
        ts: UnixNanos,
        quiet: bool,
    ) -> bool {
        exists|k: int, between: Self|
            0 <= k < closes.len() && #[trigger] self.forces_all(between, closes.take(k), tag, ts)
                && #[trigger] between.close_trades(closes[k], tag, ts, quiet)
    }

    /// A forced close, however it was filled.
    pub(crate) open spec fn forces(
        self,
        after: Self,
        c: CloseOut,
        tag: String,
        ts: UnixNanos,
    ) -> bool {
        exists|filed: Self, tried: Self, order: Order| #[trigger]
            self.liquidates(after, filed, tried, order, c, tag, ts)
    }

    /// Close a position by crossing the book in the opposite direction, and
    /// report it.
    fn force_close<S: Strategy>(
        &mut self,
        report: Liquidation,
        tag: &String,
        ts: UnixNanos,
        strategy: &mut S,
    ) -> (r: Result<(), BacktestError>)
        requires
            old(self).sound(),
            old(strategy).ready(),
        ensures
            final(self).sound(),
            final(strategy).ready(),
            old(strategy).willing() ==> final(strategy).willing(),
            r is Ok ==> talked(*old(strategy), *final(strategy), old(self).talk@, final(self).talk@),
            r is Ok ==> old(self).forces(*final(self), close_out(report), *tag, ts),
            r is Ok ==> old(self).advanced(*final(self)),
            r is Ok ==> close_outs(final(self).journal.liquidations@) == close_outs(
                old(self).journal.liquidations@,
            ).push(close_out(report)),
            report.quantity.0 == 0 || report.quantity.0 == i64::MIN ==> r is Err,
            r is Err ==> old(self).close_trades(
                close_out(report),
                *tag,
                ts,
                old(self).unhindered(*final(self), *old(strategy), *final(strategy)),
            ),
    {
        proof {
            talked_not(*strategy, self.talk@);
        }
        let ghost start = *self;
        if report.quantity.0 == i64::MIN {
            return Err(BacktestError::Overflow { what: "Qty::abs" });
        }
        let size: i64 = if report.quantity.0 < 0 {
            -report.quantity.0
        } else {
            report.quantity.0
        };
        let side = if report.quantity.0 > 0 {
            Side::Sell
        } else {
            Side::Buy
        };
        let id = self.issue(
            &report.instrument,
            report.outcome,
            side,
            Qty(size),
            ts,
            tag.clone(),
            false,
        )?;
        let ghost filed = *self;
        let ghost order = self.desk.orders@[id.0];
        assert(start.orders_close(filed, order, close_out(report), *tag, ts));
        self.try_fill(id, ts, strategy)?;
        let ghost tried = *self;
        self.journal.metrics.liquidations = one_more(self.journal.metrics.liquidations);
        self.journal.liquidations.push(report);
        proof {
            Self::advanced_again(start, filed, tried);
            let before = tried.journal.liquidations@;
            let after = self.journal.liquidations@;
            assert(after.drop_last() =~= before);
            assert(after.take(start.journal.liquidations@.len() as int) =~= before.take(
                start.journal.liquidations@.len() as int,
            ));
            assert(start.liquidates(
                *self,
                filed,
                tried,
                order,
                close_out(report),
                *tag,
                ts,
            ));
            Self::trying_only_trades(filed, tried, id, ts);
            assert(close_outs(after) =~= close_outs(start.journal.liquidations@).push(
                close_out(report),
            ));
        }
        Ok(())
    }

    /// Every isolated call answered: each open position of an instrument
    /// whose own collateral is exhausted is closed, in order, and reported.
    pub(crate) open spec fn answers_isolated(self, after: Self, ts: UnixNanos) -> bool {
        match self.setup.margin {
            None => after == self,
            Some(model) => {
                let calls = calls_over(
                    model,
                    self.setup.instruments@,
                    self.market.marks@,
                    self.ledger.isolated_collateral@,
                    self.ledger.portfolio.listed(),
                    names_in(self.setup.isolated),
                );
                &&& calls is Ok
                &&& close_outs(after.journal.liquidations@) == close_outs(
                    self.journal.liquidations@,
                ) + all_closes(calls->Ok_0)
                &&& self.forces_all(
                    after,
                    all_closes(calls->Ok_0),
                    self.setup.labels.isolated,
                    ts,
                )
            },
        }
    }

    /// Answering the isolated calls comes to a figure that cannot be worked
    /// out, or to a close that cannot be ordered or trades.
    pub(crate) open spec fn isolated_stops(
        self,
        error: BacktestError,
        ts: UnixNanos,
        quiet: bool,
    ) -> bool {
        self.setup.margin matches Some(model) && match calls_over(
            model,
            self.setup.instruments@,
            self.market.marks@,
            self.ledger.isolated_collateral@,
            self.ledger.portfolio.listed(),
            names_in(self.setup.isolated),
        ) {
            Err(e) => e == error@,
            Ok(calls) => self.closes_trade(all_closes(calls), self.setup.labels.isolated, ts, quiet),
        }
    }

    /// Close any isolated instrument whose own collateral is exhausted.
    ///
    /// Checked per instrument against its own bucket. Closing is total:
    /// there is no other collateral to preserve the position with, which is
    /// the whole bargain of isolating it.
    pub(crate) fn check_isolated_liquidation<S: Strategy>(
        &mut self,
        ts: UnixNanos,
        strategy: &mut S,
    ) -> (r: Result<(), BacktestError>)
        requires
            old(self).sound(),
            old(strategy).ready(),
        ensures
            final(self).sound(),
            final(strategy).ready(),
            old(strategy).willing() ==> final(strategy).willing(),
            r is Ok ==> talked(*old(strategy), *final(strategy), old(self).talk@, final(self).talk@),
            r is Ok ==> old(self).advanced(*final(self)),
            match r {
                Ok(_) => old(self).answers_isolated(*final(self), ts),
                Err(e) => old(self).isolated_stops(e, ts, old(self).unhindered(*final(self), *old(strategy), *final(strategy))),
            },
    {
        proof {
            talked_not(*strategy, self.talk@);
        }
        let ghost start = *self;
        proof {
            start.advances_itself();
        }
        let calls = match &self.setup.margin {
            Some(model) => self.setup.isolated_calls(model, &self.ledger, &self.market)?,
            None => {
                return Ok(());
            },
        };
        let tag = self.setup.labels.isolated.clone();
        let ghost said = call_views(calls@);
        let mut i: usize = 0;
        assert(said.take(0) =~= Seq::<CallView>::empty());
        assert(close_outs(start.journal.liquidations@) + all_closes(said.take(0)) =~= close_outs(
            start.journal.liquidations@,
        ));
        while i < calls.len()
            invariant
                i <= calls@.len(),
                start == *old(self),
                tag == start.setup.labels.isolated,
                said == call_views(calls@),
                start.setup.margin is Some,
                calls_over(
                    start.setup.margin->Some_0,
                    start.setup.instruments@,
                    start.market.marks@,
                    start.ledger.isolated_collateral@,
                    start.ledger.portfolio.listed(),
                    names_in(start.setup.isolated),
                ) == Ok::<Seq<CallView>, ErrorView>(said),
                self.sound(),
                strategy.ready(),
                old(strategy).willing() ==> strategy.willing(),
                talked(*old(strategy), *strategy, old(self).talk@, self.talk@),
                start.advanced(*self),
                close_outs(self.journal.liquidations@) == close_outs(start.journal.liquidations@)
                    + all_closes(said.take(i as int)),
                start.forces_all(
                    *self,
                    all_closes(said.take(i as int)),
                    tag,
                    ts,
                ),
            decreases calls@.len() - i,
        {
            let call = &calls[i];
            let ghost before = *self;
            let ghost reported = all_closes(said.take(i as int));
            let mut j: usize = 0;
            assert(close_outs(before.journal.liquidations@) + call_closes(call@, 0) =~= close_outs(
                before.journal.liquidations@,
            ));
            assert(reported + call_closes(call@, 0) =~= reported);
            while j < call.open.len()
                invariant
                    j <= call.open@.len(),
                    i < said.len(),
                    call@ == said[i as int],
                    start == *old(self),
                    tag == start.setup.labels.isolated,
                    reported == all_closes(said.take(i as int)),
                    start.setup.margin is Some,
                    calls_over(
                        start.setup.margin->Some_0,
                        start.setup.instruments@,
                        start.market.marks@,
                        start.ledger.isolated_collateral@,
                        start.ledger.portfolio.listed(),
                        names_in(start.setup.isolated),
                    ) == Ok::<Seq<CallView>, ErrorView>(said),
                    self.sound(),
                    strategy.ready(),
                    old(strategy).willing() ==> strategy.willing(),
                    talked(*old(strategy), *strategy, old(self).talk@, self.talk@),
                    start.advanced(*self),
                    close_outs(self.journal.liquidations@) == close_outs(
                        before.journal.liquidations@,
                    ) + call_closes(call@, j as nat),
                    start.forces_all(
                        *self,
                        reported + call_closes(call@, j as nat),
                        tag,
                        ts,
                    ),
                decreases call.open@.len() - j,
            {
                let (outcome, quantity, mark) = call.open[j];
                let ghost now = *self;
                let report = Liquidation {
                    instrument: call.instrument.clone(),
                    outcome,
                    quantity,
                    mark,
                    equity: call.equity,
                    maintenance: call.maintenance,
                };
                let ghost said_now = close_out(report);
                let ghost asked = *strategy;
                let closing = self.force_close(report, &tag, ts, strategy);
                proof {
                    Self::free_all_along(
                        old(self).talk@,
                        now.talk@,
                        *self,
                        *old(strategy),
                        asked,
                        *strategy,
                    );
                    if closing is Err {
                        let all = all_closes(said);
                        let k = reported.len() + j;
                        closes_in_order(said, i as int, j as int);
                        assert(start.forces_all(now, all.take(k), tag, ts));
                        let quiet = old(self).unhindered(*self, *old(strategy), *strategy);
                        assert(now.close_trades(all[k], tag, ts, quiet));
                        assert(start.closes_trade(all, tag, ts, quiet));
                    }
                }
                closing?;
                proof {
                    talked_again(
                        *old(strategy),
                        asked,
                        *strategy,
                        old(self).talk@,
                        now.talk@,
                        self.talk@,
                    );
                    Self::advanced_again(start, now, *self);
                    let longer = call_closes(call@, (j + 1) as nat);
                    assert(longer == call_closes(call@, j as nat).push(said_now));
                    assert(close_outs(before.journal.liquidations@) + longer =~= (close_outs(
                        before.journal.liquidations@,
                    ) + call_closes(call@, j as nat)).push(said_now));
                    let list = reported + longer;
                    assert(list.drop_last() =~= reported + call_closes(call@, j as nat));
                    assert(list.last() == said_now);
                    assert(now.forces(*self, list.last(), tag, ts));
                    assert(start.forces_all(*self, list, tag, ts));
                }
                j += 1;
            }
            proof {
                assert(said.take(i + 1).drop_last() =~= said.take(i as int));
                assert(said.take(i + 1).last() == call@);
                assert(close_outs(start.journal.liquidations@) + (reported + call_closes(
                    call@,
                    call.open@.len(),
                )) =~= (close_outs(start.journal.liquidations@) + reported) + call_closes(
                    call@,
                    call.open@.len(),
                ));
            }
            i += 1;
        }
        assert(said.take(i as int) =~= said);
        Ok(())
    }

    /// Forced closes one after another.
    pub(crate) open spec fn forces_all(
        self,
        after: Self,
        closes: Seq<CloseOut>,
        tag: String,
        ts: UnixNanos,
    ) -> bool
        decreases closes.len(),
    {
        if closes.len() == 0 {
            after == self
        } else {
            exists|between: Self|
                self.forces_all(between, closes.drop_last(), tag, ts) && #[trigger] between.forces(
                    after,
                    closes.last(),
                    tag,
                    ts,
                )
        }
    }

    /// The account's margin position right now, or `None` when no margin
    /// model is in force: a cash account cannot be called.
    pub fn margin_state(&self) -> (r: Result<Option<MarginState>, BacktestError>)
        requires
            self.wf(),
        ensures
            self.standing_is(r),
    {
        proof {
            self.wf_is_sound();
        }
        self.setup.margin_state(&self.ledger, &self.market)
    }

    /// Whether a result says how the account stands: nothing without a
    /// margin model, and otherwise the cash and unrealised profit of the
    /// shared pool against what its positions require.
    pub closed spec fn standing_is(&self, r: Result<Option<MarginState>, BacktestError>) -> bool {
        match self.setup.margin {
            None => r == Ok::<Option<MarginState>, BacktestError>(None),
            Some(model) => match r {
                Ok(state) => state is Some && self.stands(model) == Ok::<MarginState, ErrorView>(
                    state->Some_0,
                ),
                Err(e) => self.stands(model) == Err::<MarginState, ErrorView>(e@),
            },
        }
    }

    /// How the shared pool stands.
    pub(crate) open spec fn stands(self, model: M) -> Result<MarginState, ErrorView> {
        cross_standing(
            model,
            self.setup,
            self.ledger.cash,
            self.ledger.portfolio.listed(),
            self.market.marks@,
        )
    }

    /// How much of a position a call closes: all of it, or as much as
    /// restores the ratio.
    pub(crate) open spec fn called_size(
        self,
        model: M,
        d: Doomed,
        mark: Price,
        now: MarginState,
    ) -> int {
        let full = model.maintenance_of(self.setup.instruments@[d.instrument@], d.quantity, mark);
        let need = saturated(now.maintenance.0 - now.equity.0);
        match self.setup.liquidation {
            LiquidationPolicy::CloseAll => d.quantity.0 as int,
            LiquidationPolicy::Partial => {
                let size = closing_size(
                    d.quantity,
                    full->Ok_0,
                    need,
                    self.setup.instruments@[d.instrument@].lot_size.0 as int,
                );
                if need <= 0 || (full->Ok_0).0 <= 0 {
                    0
                } else if d.quantity.0 >= 0 {
                    size
                } else {
                    -size
                }
            },
        }
    }

    /// One position of a cross call: left alone where a partial call has
    /// already restored the account, closed otherwise.
    pub(crate) open spec fn sweeps_one(
        self,
        after: Self,
        model: M,
        d: Doomed,
        call: MarginState,
        ts: UnixNanos,
    ) -> bool {
        let mark = self.market.marks@[(d.instrument@, d.outcome.0)];
        let now = self.stands(model);
        let size = self.called_size(model, d, mark, now->Ok_0);
        if self.setup.liquidation is Partial && !(now->Ok_0).liquidatable {
            after == self
        } else if size == 0 {
            after == self
        } else {
            self.forces(
                after,
                CloseOut {
                    instrument: d.instrument,
                    outcome: d.outcome,
                    quantity: Qty(size as i64),
                    mark,
                    equity: call.equity,
                    maintenance: call.maintenance,
                },
                self.setup.labels.liquidation,
                ts,
            )
        }
    }

    /// The positions of a cross call, one after another.
    pub(crate) open spec fn sweeps(
        self,
        after: Self,
        model: M,
        doomed: Seq<Doomed>,
        call: MarginState,
        ts: UnixNanos,
    ) -> bool
        decreases doomed.len(),
    {
        if doomed.len() == 0 {
            after == self
        } else {
            exists|between: Self|
                self.sweeps(between, model, doomed.drop_last(), call, ts)
                    && #[trigger] between.sweeps_one(after, model, doomed.last(), call, ts)
        }
    }

    /// Whether a list holds the positions a cross call closes, in the order
    /// it closes them.
    pub(crate) open spec fn calls_for(self, model: M, doomed: Seq<Doomed>) -> bool {
        let cross = cross_among(self.ledger.portfolio.listed(), self.setup.isolated@);
        &&& forall|i: int, j: int|
            #![trigger doomed[i], doomed[j]]
            0 <= i < j < doomed.len() ==> closed_before(doomed[i], doomed[j])
        &&& forall|i: int|
            0 <= i < doomed.len() ==> stands_for(
                model,
                self.setup.instruments@,
                self.market.marks@,
                cross,
                #[trigger] doomed[i],
            )
        &&& forall|k: int|
            0 <= k < cross.len() && self.market.marks@.dom().contains(key_of(#[trigger] cross[k]))
                ==> is_listed(model, self.setup.instruments@, self.market.marks@, cross[k], doomed)
    }

    /// A cross call carried out.
    pub(crate) open spec fn answers_call(
        self,
        after: Self,
        model: M,
        doomed: Seq<Doomed>,
        call: MarginState,
        ts: UnixNanos,
    ) -> bool {
        self.calls_for(model, doomed) && self.sweeps(after, model, doomed, call, ts)
    }

    /// The account's call answered, where there is one; a healthy account is
    /// left alone.
    pub(crate) open spec fn answers(self, after: Self, ts: UnixNanos) -> bool {
        match self.setup.margin {
            None => after == self,
            Some(model) => self.stands(model) matches Ok(state) && if state.liquidatable {
                exists|doomed: Seq<Doomed>| #[trigger]
                    self.answers_call(after, model, doomed, state, ts)
            } else {
                after == self
            },
        }
    }

    /// Answering the account's call comes to a figure that cannot be worked
    /// out, or to a close that cannot be ordered or trades.
    pub(crate) open spec fn call_stops(self, ts: UnixNanos, quiet: bool) -> bool {
        self.setup.margin matches Some(model) && match self.stands(model) {
            Err(_) => true,
            Ok(state) => state.liquidatable && (self.undoomed(model) || self.sweep_halts(
                model,
                state,
                ts,
                quiet,
            )),
        }
    }

    /// Closing the positions of a cross call comes to one that cannot be.
    pub(crate) open spec fn sweep_halts(
        self,
        model: M,
        call: MarginState,
        ts: UnixNanos,
        quiet: bool,
    ) -> bool {
        exists|doomed: Seq<Doomed>, k: int, between: Self|
            0 <= k < doomed.len() && #[trigger] self.calls_for(model, doomed)
                && #[trigger] self.sweeps(between, model, doomed.take(k), call, ts)
                && #[trigger] between.sweep_stops(model, doomed[k], call, ts, quiet)
    }

    /// A position whose requirement cannot be worked out.
    pub(crate) open spec fn undoomed(self, model: M) -> bool {
        let cross = cross_among(self.ledger.portfolio.listed(), self.setup.isolated@);
        exists|k: int|
            0 <= k < cross.len() && self.market.marks@.dom().contains(
                key_of(#[trigger] cross[k]),
            ) && (!self.setup.instruments@.dom().contains(cross[k].instrument@)
                || model.maintenance_of(
                self.setup.instruments@[cross[k].instrument@],
                cross[k].quantity,
                self.market.marks@[key_of(cross[k])],
            ) is Err)
    }

    /// Closing one position of a cross call comes to a figure that cannot be
    /// worked out, or to a close that cannot be ordered or trades.
    pub(crate) open spec fn sweep_stops(
        self,
        model: M,
        d: Doomed,
        call: MarginState,
        ts: UnixNanos,
        quiet: bool,
    ) -> bool {
        let key = (d.instrument@, d.outcome.0);
        let mark = self.market.marks@[key];
        let now = self.stands(model);
        let full = model.maintenance_of(self.setup.instruments@[d.instrument@], d.quantity, mark);
        let size = self.called_size(model, d, mark, now->Ok_0);
        let partial = self.setup.liquidation is Partial;
        ||| !self.market.marks@.dom().contains(key)
        ||| partial && now is Err
        ||| partial && (now->Ok_0).liquidatable && (
        !self.setup.instruments@.dom().contains(d.instrument@) || full is Err || d.quantity.0
            == i64::MIN)
        ||| (partial ==> (now->Ok_0).liquidatable) && size != 0 && self.close_trades(
            CloseOut {
                instrument: d.instrument,
                outcome: d.outcome,
                quantity: Qty(size as i64),
                mark,
                equity: call.equity,
                maintenance: call.maintenance,
            },
            self.setup.labels.liquidation,
            ts,
            quiet,
        )
    }

    /// Close what the account can no longer support.
    ///
    /// This is the **cross** margin call, and it closes only cross
    /// positions, the largest requirement first. How much is closed is a
    /// policy: everything, or only enough to restore the ratio.
    pub(crate) fn check_liquidation<S: Strategy>(&mut self, ts: UnixNanos, strategy: &mut S) -> (r:
        Result<(), BacktestError>)
        requires
            old(self).sound(),
            old(strategy).ready(),
        ensures
            final(self).sound(),
            final(strategy).ready(),
            old(strategy).willing() ==> final(strategy).willing(),
            r is Ok ==> talked(*old(strategy), *final(strategy), old(self).talk@, final(self).talk@),
            r is Ok ==> old(self).advanced(*final(self)),
            match r {
                Ok(_) => old(self).answers(*final(self), ts),
                Err(_) => old(self).call_stops(ts, old(self).unhindered(*final(self), *old(strategy), *final(strategy))),
            },
    {
        proof {
            talked_not(*strategy, self.talk@);
        }
        let ghost start = *self;
        proof {
            start.advances_itself();
        }
        let state = match self.setup.margin_state(&self.ledger, &self.market)? {
            Some(state) => state,
            None => {
                return Ok(());
            },
        };
        if !state.liquidatable {
            return Ok(());
        }
        let doomed = match &self.setup.margin {
            Some(model) => self.setup.doomed(model, &self.ledger, &self.market)?,
            None => {
                return Ok(());
            },
        };
        let ghost model = start.setup.margin->Some_0;
        assert(start.calls_for(model, doomed@));
        let mut i: usize = 0;
        while i < doomed.len()
            invariant
                i <= doomed@.len(),
                start == *old(self),
                start.setup.margin == Some(model),
                start.stands(model) == Ok::<MarginState, ErrorView>(state),
                state.liquidatable,
                start.calls_for(model, doomed@),
                self.sound(),
                strategy.ready(),
                old(strategy).willing() ==> strategy.willing(),
                talked(*old(strategy), *strategy, old(self).talk@, self.talk@),
                start.advanced(*self),
                start.sweeps(*self, model, doomed@.take(i as int), state, ts),
            decreases doomed@.len() - i,
        {
            let ghost before = *self;
            let d = &doomed[i];
            proof {
                assert(doomed@.take(i + 1).drop_last() =~= doomed@.take(i as int));
                assert(doomed@.take(i + 1).last() == *d);
            }
            let ghost asked = *strategy;
            let swept = self.sweep_one(d, &state, ts, strategy);
            proof {
                Self::free_all_along(
                    old(self).talk@,
                    before.talk@,
                    *self,
                    *old(strategy),
                    asked,
                    *strategy,
                );
                if swept is Err {
                    assert(start.sweeps(before, model, doomed@.take(i as int), state, ts));
                    let quiet = old(self).unhindered(*self, *old(strategy), *strategy);
                    assert(before.sweep_stops(model, doomed@[i as int], state, ts, quiet));
                    assert(start.calls_for(model, doomed@));
                    assert(start.sweep_halts(model, state, ts, quiet));
                    assert(start.call_stops(ts, quiet));
                }
            }
            swept?;
            proof {
                talked_again(
                    *old(strategy),
                    asked,
                    *strategy,
                    old(self).talk@,
                    before.talk@,
                    self.talk@,
                );
                Self::advanced_again(start, before, *self);
                assert(before.sweeps_one(*self, model, doomed@.take(i + 1).last(), state, ts));
            }
            i += 1;
        }
        proof {
            assert(doomed@.take(i as int) =~= doomed@);
            assert(start.answers_call(*self, model, doomed@, state, ts));
        }
        Ok(())
    }

    /// Deal with one position of a cross call.
    fn sweep_one<S: Strategy>(
        &mut self,
        d: &Doomed,
        call: &MarginState,
        ts: UnixNanos,
        strategy: &mut S,
    ) -> (r: Result<(), BacktestError>)
        requires
            old(self).sound(),
            old(strategy).ready(),
            old(self).setup.margin is Some,
        ensures
            final(self).sound(),
            final(strategy).ready(),
            old(strategy).willing() ==> final(strategy).willing(),
            r is Ok ==> talked(*old(strategy), *final(strategy), old(self).talk@, final(self).talk@),
            r is Ok ==> old(self).advanced(*final(self)),
            ({
                let model = old(self).setup.margin->Some_0;
                match r {
                    Ok(_) => old(self).sweeps_one(*final(self), model, *d, *call, ts),
                    Err(_) => old(self).sweep_stops(
                        model,
                        *d,
                        *call,
                        ts,
                        old(self).unhindered(*final(self), *old(strategy), *final(strategy)),
                    ),
                }
            }),
    {
        proof {
            talked_not(*strategy, self.talk@);
        }
        proof {
            old(self).advances_itself();
        }
        let key = key_for(&d.instrument, d.outcome);
        let mark = match self.market.mark(&key) {
            Some(mark) => mark,
            None => {
                return Err(BacktestError::Overflow { what: "closing size" });
            },
        };
        let closing = match self.setup.liquidation {
            LiquidationPolicy::CloseAll => d.quantity,
            LiquidationPolicy::Partial => {
                let now = match self.setup.margin_state(&self.ledger, &self.market)? {
                    Some(now) => now,
                    None => {
                        return Ok(());
                    },
                };
                if !now.liquidatable {
                    return Ok(());
                }
                let found = self.setup.instruments.get(&d.instrument)?;
                let full = match &self.setup.margin {
                    Some(model) => model.maintenance_margin(found, d.quantity, mark)?,
                    None => Money(0),
                };
                self.setup.partial_close_quantity(&now, found, full, d.quantity)?
            },
        };
        if closing.is_zero() {
            return Ok(());
        }
        let report = Liquidation {
            instrument: d.instrument.clone(),
            outcome: d.outcome,
            quantity: closing,
            mark,
            equity: call.equity,
            maintenance: call.maintenance,
        };
        let tag = self.setup.labels.liquidation.clone();
        self.force_close(report, &tag, ts, strategy)
    }
}

/// Closing a position goes the other way: a long is sold, a short bought back.
pub proof fn closing_goes_the_other_way(quantity: Qty)
    ensures
        quantity.0 > 0 ==> closing_side(quantity) is Sell,
        quantity.0 < 0 ==> closing_side(quantity) is Buy,
{
}

/// A call on an isolated instrument closes every position it is about, each
/// whole, in the order they are listed.
pub proof fn an_isolated_call_closes_everything(call: CallView, n: nat)
    requires
        n <= call.open.len(),
    ensures
        call_closes(call, n).len() == n,
        forall|i: int|
            0 <= i < n ==> {
                let close = #[trigger] call_closes(call, n)[i];
                &&& close.instrument == call.instrument
                &&& close.outcome == call.open[i].0
                &&& close.quantity == call.open[i].1
                &&& close.mark == call.open[i].2
                &&& close.equity == call.equity
                &&& close.maintenance == call.maintenance
            },
    decreases n,
{
    if n > 0 {
        an_isolated_call_closes_everything(call, (n - 1) as nat);
    }
}

/// An order of the venue's own is at the market and at once: accepted when it
/// is made, good for what it can get, with nothing to rest at or wait for.
pub proof fn the_venue_trades_at_once(
    id: OrderId,
    instrument: InstrumentId,
    outcome: OutcomeId,
    side: Side,
    quantity: Qty,
    ts: UnixNanos,
    tag: String,
    reduce_only: bool,
)
    ensures
        ({
            let order = venue_order(id, instrument, outcome, side, quantity, ts, tag, reduce_only);
            &&& order.id == id && order.instrument == instrument && order.outcome == outcome
            &&& order.side == side && order.quantity == quantity && order.filled.0 == 0
            &&& order.kind is Market && order.time_in_force is ImmediateOrCancel
            &&& order.status is Accepted && order.accepted_at == Some(ts)
            &&& order.submitted_at == ts && order.tag == Some(tag)
            &&& order.reduce_only == reduce_only && !order.post_only && order.trigger is None
        }),
{
}

} // verus!
