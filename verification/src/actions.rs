//! Data reaching the venue: books and marks, funding, corporate actions, and
//! the equity curve.

use vstd::prelude::*;
use vstd::string::*;

use crate::account::MarginModel;
use crate::book::BookStatus;
use crate::calls::{closing_side, venue_order};
use crate::checks::Orders;
use crate::corporate::{
    a_split_multiplies_shares_and_divides_prices, applicable, split_price, split_quantity,
    CorporateAction,
};
use crate::desk::Desk;
use crate::engine::{orders_known, same_order, Board, Engine, Journal};
use crate::error::BacktestError;
use crate::event::{MarketEvent, Record};
use crate::execution::ExecutionClient;
use crate::instrument::{Instrument, InstrumentId, OutcomeId};
use crate::ledger::{equity_tally, funding_total, money_less, money_plus, Ledger};
use crate::market::{effective_mark, price_in, touches_book, Market};
use crate::matching::{FillOrigin, FillTerms};
use crate::metrics::{bumped, one_more, EquityPoint, RunMetrics};
use crate::models::{FeeModel, FillModel, LatencyModel};
use crate::order::{Order, OrderId, OrderKind};
use crate::position::{
    dividend_items, money_total, realized_items, refuses_split, split_applied, KeyView, Portfolio,
    Position, PositionKey,
};
use crate::request::MarkPoint;
use crate::types::{
    div_trunc, fits, magnitude, saturated, saturating_sum, Money, Price, Qty, Side, UnixNanos,
    SCALE,
};

verus! {

/// An order after a split: the limit scales down, and the size, what is
/// filled of it and what is left scale up.
pub open spec fn order_split(order: Order, ratio: Price) -> Order {
    match order.cap() {
        Some(limit) => Order {
            quantity: Qty(split_quantity(ratio.0 as int, order.quantity.0 as int) as i64),
            filled: Qty(split_quantity(ratio.0 as int, order.filled.0 as int) as i64),
            kind: OrderKind::Limit {
                limit: Price(split_price(ratio.0 as int, limit.0 as int) as i64),
            },
            ..order
        },
        None => order,
    }
}

/// A split multiplies what is left of a resting order by the ratio, as it
/// does its size and what is filled of it, wherever the two come out even.
pub proof fn a_split_scales_what_is_left(order: Order, ratio: Price)
    requires
        order.cap() is Some,
        splits_cleanly(order, ratio),
        order.quantity.0 * ratio.0 % SCALE as int == 0,
        order.filled.0 * ratio.0 % SCALE as int == 0,
    ensures
        ({
            let split = order_split(order, ratio);
            &&& split.quantity.0 * SCALE == order.quantity.0 * ratio.0
            &&& split.filled.0 * SCALE == order.filled.0 * ratio.0
            &&& (split.quantity.0 - split.filled.0) * SCALE == (order.quantity.0 - order.filled.0)
                * ratio.0
        }),
{
    let (q, f, r) = (order.quantity.0 as int, order.filled.0 as int, ratio.0 as int);
    divides_evenly(q * r);
    divides_evenly(f * r);
    let split = order_split(order, ratio);
    let (sq, sf) = (split.quantity.0 as int, split.filled.0 as int);
    assert((sq - sf) * SCALE == sq * SCALE - sf * SCALE) by (nonlinear_arith);
    assert((q - f) * r == q * r - f * r) by (nonlinear_arith);
}

proof fn divides_evenly(amount: int)
    requires
        amount % SCALE as int == 0,
    ensures
        div_trunc(amount, SCALE as int) * SCALE == amount,
{
    if amount < 0 {
        assert((-amount) % SCALE as int == 0);
    }
}

/// Orders with the listed ones of one instrument split.
pub open spec fn orders_split(
    orders: Orders,
    ids: Seq<OrderId>,
    instrument: Seq<char>,
    ratio: Price,
) -> Orders
    decreases ids.len(),
{
    if ids.len() == 0 {
        orders
    } else {
        let rest = orders_split(orders, ids.drop_last(), instrument, ratio);
        let id = ids.last().0;
        if rest.dom().contains(id) && rest[id].instrument@ == instrument {
            rest.insert(id, order_split(rest[id], ratio))
        } else {
            rest
        }
    }
}

/// Whether a record is a split.
pub open spec fn is_split(record: Record) -> bool {
    record.event matches MarketEvent::Corporate(action) && action is Split
}

/// Whether an order's figures still fit once it is split.
pub open spec fn splits_cleanly(order: Order, ratio: Price) -> bool {
    order.cap() matches Some(limit) ==> fits(
        split_quantity(ratio.0 as int, order.quantity.0 as int),
    ) && fits(split_quantity(ratio.0 as int, order.filled.0 as int)) && fits(
        split_price(ratio.0 as int, limit.0 as int),
    )
}

/// Splitting orders in turn comes to one whose figures no longer fit.
pub open spec fn unsplittable_at(
    orders: Orders,
    ids: Seq<OrderId>,
    instrument: Seq<char>,
    ratio: Price,
    k: int,
) -> bool {
    let so_far = orders_split(orders, ids.take(k), instrument, ratio);
    &&& 0 <= k < ids.len()
    &&& so_far.dom().contains(ids[k].0)
    &&& so_far[ids[k].0].instrument@ == instrument
    &&& !splits_cleanly(so_far[ids[k].0], ratio)
}

/// The terms on which a holding of a delisted instrument is closed.
pub open spec fn closing_terms(price: Price, size: Qty, commission: Money) -> FillTerms {
    FillTerms { price, quantity: size, origin: FillOrigin::Trade { is_taker: false }, commission }
}

/// Holdings after a split of one instrument.
pub open spec fn holdings_split(
    before: Portfolio,
    after: Portfolio,
    instrument: Seq<char>,
    ratio: Price,
) -> bool {
    &&& after.marked() == before.marked()
    &&& after.listed().len() == before.listed().len()
    &&& forall|i: int|
        0 <= i < before.listed().len() ==> !refuses_split(
            #[trigger] before.listed()[i],
            instrument,
            ratio,
        )
    &&& forall|i: int|
        0 <= i < after.listed().len() ==> #[trigger] after.listed()[i] == (if before.listed()[i].instrument@
            == instrument {
            split_applied(before.listed()[i], ratio)->Ok_0
        } else {
            before.listed()[i]
        })
}

/// The open positions of one instrument, by outcome and size.
pub open spec fn open_in_instrument(positions: Seq<Position>, instrument: Seq<char>) -> Seq<
    (OutcomeId, Qty),
>
    decreases positions.len(),
{
    if positions.len() == 0 {
        Seq::empty()
    } else {
        let rest = open_in_instrument(positions.drop_last(), instrument);
        let p = positions.last();
        if p.quantity.0 != 0 && p.instrument@ == instrument {
            rest.push((p.outcome, p.quantity))
        } else {
            rest
        }
    }
}

fn find_open(portfolio: &Portfolio, instrument: &InstrumentId) -> (out: Vec<(OutcomeId, Qty)>)
    ensures
        out@ == open_in_instrument(portfolio.listed(), instrument@),
        forall|j: int| 0 <= j < out@.len() ==> (#[trigger] out@[j]).1.0 != 0,
{
    let ghost listed = portfolio.listed();
    let mut out: Vec<(OutcomeId, Qty)> = Vec::new();
    let n: usize = portfolio.len();
    let mut i: usize = 0;
    assert(listed.take(0) =~= Seq::<Position>::empty());
    while i < n
        invariant
            n == listed.len(),
            i <= n,
            listed == portfolio.listed(),
            out@ == open_in_instrument(listed.take(i as int), instrument@),
            forall|j: int| 0 <= j < out@.len() ==> (#[trigger] out@[j]).1.0 != 0,
        decreases n - i,
    {
        let p = portfolio.at(i);
        proof {
            assert(listed.take(i + 1).drop_last() =~= listed.take(i as int));
            assert(listed.take(i + 1).last() == *p);
        }
        if p.quantity.0 != 0 && p.instrument == *instrument {
            out.push((p.outcome, p.quantity));
        }
        i += 1;
    }
    assert(listed.take(i as int) =~= listed);
    out
}

/// What the probability books thought at one instant, in key order.
pub open spec fn mark_points(
    marks: Seq<(PositionKey, Price)>,
    instruments: Map<Seq<char>, Instrument>,
    ts: UnixNanos,
) -> Seq<MarkPoint>
    decreases marks.len(),
{
    if marks.len() == 0 {
        Seq::empty()
    } else {
        let rest = mark_points(marks.drop_last(), instruments, ts);
        let (key, price) = marks.last();
        if instruments.dom().contains(key.0@) && instruments[key.0@].kind.probability() {
            rest.push(MarkPoint { ts, instrument: key.0, outcome: key.1, price })
        } else {
            rest
        }
    }
}

/// Funding paid and received across the holders of one instrument.
pub open spec fn funds(
    before: Ledger,
    after: Ledger,
    instrument: Seq<char>,
    market: Market,
    rate: Price,
) -> bool {
    let total = funding_total(
        before.portfolio.listed(),
        instrument,
        market.oracles@,
        market.marks@,
        rate,
    );
    &&& total is Ok
    &&& after == (Ledger { cash: after.cash, funding_paid: after.funding_paid, ..before })
    &&& after.cash.0 == before.cash.0 + (total->Ok_0).0
    &&& after.funding_paid.0 == before.funding_paid.0 - (total->Ok_0).0
}

/// Funding that cannot be worked out, or does not fit the books.
pub open spec fn cannot_fund(
    ledger: Ledger,
    instrument: Seq<char>,
    market: Market,
    rate: Price,
) -> bool {
    match funding_total(
        ledger.portfolio.listed(),
        instrument,
        market.oracles@,
        market.marks@,
        rate,
    ) {
        Err(_) => true,
        Ok(total) => money_plus(ledger.cash, total) is Err || money_less(
            ledger.funding_paid,
            total,
        ) is Err,
    }
}

impl<F: FeeModel, L: FillModel, T: LatencyModel, M: MarginModel, X: ExecutionClient> Engine<
    F,
    L,
    T,
    M,
    X,
> {
    /// The journal with one more corporate action counted.
    pub(crate) open spec fn acted(self) -> Journal {
        Journal {
            metrics: RunMetrics {
                corporate_actions: bumped(self.journal.metrics.corporate_actions),
                ..self.journal.metrics
            },
            ..self.journal
        }
    }

    /// A split: positions, resting orders, the book and every price move at
    /// once.
    pub(crate) open spec fn splits(
        self,
        after: Self,
        instrument: InstrumentId,
        ratio: Price,
        ts: UnixNanos,
    ) -> bool {
        &&& after == (Engine {
            ledger: after.ledger,
            desk: after.desk,
            market: after.market,
            journal: self.acted(),
            split: Ghost(true),
            ..self
        })
        &&& after.ledger == (Ledger { portfolio: after.ledger.portfolio, ..self.ledger })
        &&& after.ledger.wf()
        &&& holdings_split(self.ledger.portfolio, after.ledger.portfolio, instrument@, ratio)
        &&& after.desk == (Desk {
            orders: after.desk.orders,
            resting_index: after.desk.resting_index,
            ..self.desk
        })
        &&& after.desk.orders@ == orders_split(
            self.desk.orders@,
            self.desk.resting@,
            instrument@,
            ratio,
        )
        &&& self.setup.instruments@.dom().contains(instrument@)
        &&& self.market.splits(
            after.market,
            instrument@,
            self.setup.instruments@[instrument@].count() as int,
            ratio,
            ts,
        )
    }

    /// A dividend: paid in cash on what is held, and nothing else moves.
    pub(crate) open spec fn pays_dividend(
        self,
        after: Self,
        instrument: InstrumentId,
        per_share: Money,
    ) -> bool {
        let due = money_total(
            dividend_items(self.ledger.portfolio.listed(), instrument@, per_share),
        );
        &&& due is Ok
        &&& after == (Engine { ledger: after.ledger, journal: self.acted(), ..self })
        &&& after.ledger == (Ledger {
            cash: after.ledger.cash,
            dividends_received: after.ledger.dividends_received,
            ..self.ledger
        })
        &&& after.ledger.cash.0 == self.ledger.cash.0 + (due->Ok_0).0
        &&& after.ledger.dividends_received.0 == self.ledger.dividends_received.0 + (due->Ok_0).0
    }

    /// One position cashed out at a stated price, whatever the book says.
    pub(crate) open spec fn cashes_out(
        self,
        after: Self,
        filed: Self,
        order: Order,
        instrument: InstrumentId,
        held: (OutcomeId, Qty),
        price: Price,
        ts: UnixNanos,
    ) -> bool {
        let size = Qty(magnitude(held.1.0 as int) as i64);
        let charged = filed.charges(order.id, price, size, false, ts);
        &&& self.winds_up(filed, order, instrument, held, ts)
        &&& charged is Ok
        &&& exists|paid: Self| #[trigger]
            filed.pays(paid, order.id, price, size, false, ts) && paid.records(
                after,
                order.id,
                closing_terms(price, size, charged->Ok_0),
                ts,
            )
    }

    /// The order that closes what is held of a delisted instrument.
    pub(crate) open spec fn winds_up(
        self,
        filed: Self,
        order: Order,
        instrument: InstrumentId,
        held: (OutcomeId, Qty),
        ts: UnixNanos,
    ) -> bool {
        let size = Qty(magnitude(held.1.0 as int) as i64);
        &&& self.issues(filed, order)
        &&& order == venue_order(
            order.id,
            instrument,
            held.0,
            closing_side(held.1),
            size,
            ts,
            self.setup.labels.delisting,
            false,
        )
    }

    /// A holding that cannot be paid out.
    pub(crate) open spec fn cannot_pay_out(
        self,
        instrument: InstrumentId,
        held: (OutcomeId, Qty),
        price: Price,
        ts: UnixNanos,
    ) -> bool {
        let size = Qty(magnitude(held.1.0 as int) as i64);
        ||| held.1.0 == i64::MIN
        ||| self.desk.next_order_id == u64::MAX
        ||| exists|filed: Self, order: Order| #[trigger]
            self.winds_up(filed, order, instrument, held, ts) && filed.cannot_close(
                order,
                price,
                size,
                ts,
            )
    }

    /// A closing fill that cannot be charged for or booked.
    pub(crate) open spec fn cannot_close(
        self,
        order: Order,
        price: Price,
        size: Qty,
        ts: UnixNanos,
    ) -> bool {
        let charged = self.charges(order.id, price, size, false, ts);
        ||| !self.setup.instruments@.dom().contains(order.instrument@)
        ||| charged is Err
        ||| self.cannot_record(order.id, closing_terms(price, size, charged->Ok_0), ts)
    }

    /// Paying out comes to a holding that cannot be paid out.
    pub(crate) open spec fn pay_out_stops(
        self,
        instrument: InstrumentId,
        held: Seq<(OutcomeId, Qty)>,
        price: Price,
        ts: UnixNanos,
    ) -> bool {
        exists|k: int, between: Self|
            0 <= k < held.len() && #[trigger] self.pays_out_all(
                between,
                instrument,
                held.take(k),
                price,
                ts,
            ) && #[trigger] between.cannot_pay_out(instrument, held[k], price, ts)
    }

    /// One position cashed out, under whatever id it was given.
    pub(crate) open spec fn pays_out(
        self,
        after: Self,
        instrument: InstrumentId,
        held: (OutcomeId, Qty),
        price: Price,
        ts: UnixNanos,
    ) -> bool {
        exists|filed: Self, order: Order| #[trigger]
            self.cashes_out(after, filed, order, instrument, held, price, ts)
    }

    /// Positions cashed out one after another.
    pub(crate) open spec fn pays_out_all(
        self,
        after: Self,
        instrument: InstrumentId,
        held: Seq<(OutcomeId, Qty)>,
        price: Price,
        ts: UnixNanos,
    ) -> bool
        decreases held.len(),
    {
        if held.len() == 0 {
            after == self
        } else {
            exists|between: Self|
                self.pays_out_all(between, instrument, held.drop_last(), price, ts)
                    && #[trigger] between.pays_out(after, instrument, held.last(), price, ts)
        }
    }

    /// A delisting once everything held is cashed out.
    pub(crate) open spec fn takes_off(self, after: Self, instrument: InstrumentId) -> bool {
        &&& after == (Engine { board: after.board, journal: self.acted(), ..self })
        &&& after.board == (Board { delisted: after.board.delisted, ..self.board })
        &&& after.board.delisted@ == self.board.delisted@.insert(instrument@, ())
    }

    /// A delisting: what is open is cashed out at the stated price, and the
    /// instrument is off the board for the rest of the run.
    pub(crate) open spec fn delists(
        self,
        after: Self,
        instrument: InstrumentId,
        price: Price,
        ts: UnixNanos,
    ) -> bool {
        exists|paid: Self| #[trigger]
            paid.takes_off(after, instrument) && self.pays_out_all(
                paid,
                instrument,
                open_in_instrument(self.ledger.portfolio.listed(), instrument@),
                price,
                ts,
            )
    }

    /// A corporate action applied.
    pub(crate) open spec fn acts(
        self,
        after: Self,
        instrument: InstrumentId,
        action: CorporateAction,
        ts: UnixNanos,
    ) -> bool {
        &&& applicable(action)
        &&& match action {
            CorporateAction::Split { ratio } => self.splits(after, instrument, ratio, ts),
            CorporateAction::Dividend { per_share } => self.pays_dividend(
                after,
                instrument,
                per_share,
            ),
            CorporateAction::Delist { final_price } => self.delists(
                after,
                instrument,
                final_price,
                ts,
            ),
        }
    }

    /// A resting order whose size or limit no longer fits once it is split.
    pub(crate) open spec fn order_unsplittable(self, instrument: Seq<char>, ratio: Price) -> bool {
        exists|k: int| #[trigger]
            unsplittable_at(self.desk.orders@, self.desk.resting@, instrument, ratio, k)
    }

    /// Split the resting orders of one instrument.
    fn split_resting(&mut self, instrument: &InstrumentId, ratio: Price) -> (r: Result<
        (),
        BacktestError,
    >)
        requires
            old(self).sound(),
            ratio.0 > 0,
        ensures
            final(self).sound(),
            r is Ok ==> final(self).talk == old(self).talk,
            *final(self) == (Engine { desk: final(self).desk, ..*old(self) }),
            final(self).desk == (Desk {
                orders: final(self).desk.orders,
                resting_index: final(self).desk.resting_index,
                ..old(self).desk
            }),
            orders_known(old(self).desk.orders@, final(self).desk.orders@),
            match r {
                Ok(_) => final(self).desk.orders@ == orders_split(
                    old(self).desk.orders@,
                    old(self).desk.resting@,
                    instrument@,
                    ratio,
                ),
                Err(_) => old(self).order_unsplittable(instrument@, ratio),
            },
    {
        let ghost first = self.desk.orders@;
        let ghost ids = self.desk.resting@;
        let mut i: usize = 0;
        assert(ids.take(0) =~= Seq::<OrderId>::empty());
        while i < self.desk.resting.len()
            invariant
                i <= ids.len(),
                ratio.0 > 0,
                self.sound(),
                ids == old(self).desk.resting@,
                first == old(self).desk.orders@,
                self.desk.resting@ == ids,
                *self == (Engine { desk: self.desk, ..*old(self) }),
                self.desk == (Desk {
                    orders: self.desk.orders,
                    resting_index: self.desk.resting_index,
                    ..old(self).desk
                }),
                orders_known(first, self.desk.orders@),
                self.desk.orders@ == orders_split(first, ids.take(i as int), instrument@, ratio),
            decreases ids.len() - i,
        {
            let id = self.desk.resting[i];
            let ghost before = self.desk.orders@;
            proof {
                assert(ids.take(i + 1).drop_last() =~= ids.take(i as int));
                assert(ids.take(i + 1).last() == id);
            }
            if let Some(found) = self.desk.order(id) {
                let mut order = found;
                let ghost was = order;
                if order.instrument == *instrument {
                    if let Some(limit) = order.limit_price() {
                        proof {
                            if !splits_cleanly(was, ratio) {
                                let at = i as int;
                                assert(unsplittable_at(first, ids, instrument@, ratio, at));
                            }
                        }
                        let (quantity, price) = CorporateAction::split_position(
                            ratio,
                            order.quantity,
                            limit,
                        )?;
                        let (filled, _) = CorporateAction::split_position(
                            ratio,
                            order.filled,
                            limit,
                        )?;
                        order.quantity = quantity;
                        order.filled = filled;
                        order.kind = OrderKind::Limit { limit: price };
                        proof {
                            assert(order == order_split(was, ratio));
                            split_keeps_sign(ratio.0 as int, was.quantity.0 as int);
                            split_keeps_sign(ratio.0 as int, was.filled.0 as int);
                        }
                        self.desk.replace(order);
                    } else {
                        assert(before.insert(id.0, was) =~= before);
                    }
                }
            }
            proof {
                assert forall|k: u64| #[trigger] first.dom().contains(
                    k,
                ) implies self.desk.orders@.dom().contains(k) && same_order(
                    first[k],
                    self.desk.orders@[k],
                ) by {
                    assert(before.dom().contains(k));
                }
            }
            i += 1;
        }
        assert(ids.take(i as int) =~= ids);
        Ok(())
    }

    /// Close one holding of a delisted instrument at its final price.
    fn pay_out(
        &mut self,
        instrument: &InstrumentId,
        outcome: OutcomeId,
        quantity: Qty,
        price: Price,
        ts: UnixNanos,
    ) -> (r: Result<(), BacktestError>)
        requires
            old(self).sound(),
            quantity.0 != 0,
        ensures
            final(self).sound(),
            r is Ok ==> final(self).talk == old(self).talk,
            r is Ok ==> old(self).advanced(*final(self)),
            match r {
                Ok(_) => old(self).pays_out(
                    *final(self),
                    *instrument,
                    (outcome, quantity),
                    price,
                    ts,
                ),
                Err(_) => old(self).cannot_pay_out(*instrument, (outcome, quantity), price, ts),
            },
    {
        let ghost start = *self;
        if quantity.0 == i64::MIN {
            return Err(BacktestError::Overflow { what: "Qty::abs" });
        }
        let size: i64 = if quantity.0 < 0 {
            -quantity.0
        } else {
            quantity.0
        };
        let side = if quantity.0 > 0 {
            Side::Sell
        } else {
            Side::Buy
        };
        let tag = self.setup.labels.delisting.clone();
        let id = self.issue(
            instrument,
            outcome,
            side,
            Qty(size),
            ts,
            tag,
            false,
        )?;
        let ghost filed = *self;
        let ghost order = self.desk.orders@[id.0];
        let ghost held = (outcome, quantity);
        assert(start.winds_up(filed, order, *instrument, held, ts));
        let charging = self.charge(id, price, Qty(size), false, ts);
        proof {
            if charging is Err {
                assert(filed.cannot_close(order, price, Qty(size), ts));
            }
        }
        let commission = charging?;
        let ghost charged = *self;
        let taking = self.take_fill(
            id,
            FillTerms {
                price,
                quantity: Qty(size),
                origin: FillOrigin::Trade { is_taker: false },
                commission,
            },
            ts,
        );
        proof {
            let terms = closing_terms(price, Qty(size), commission);
            if taking is Err {
                assert(filed.cannot_record(id, terms, ts));
                assert(filed.cannot_close(order, price, Qty(size), ts));
            } else {
                assert(charged.records(*self, id, terms, ts));
                assert(filed.pays(charged, id, price, Qty(size), false, ts));
                assert(filed.advanced(*self) == charged.advanced(*self));
                Self::advanced_again(start, filed, *self);
                assert(start.cashes_out(*self, filed, order, *instrument, held, price, ts));
            }
        }
        taking?;
        Ok(())
    }

    /// Cash out every open position of one instrument.
    fn cash_out(&mut self, instrument: &InstrumentId, price: Price, ts: UnixNanos) -> (r: Result<
        (),
        BacktestError,
    >)
        requires
            old(self).sound(),
        ensures
            final(self).sound(),
            r is Ok ==> final(self).talk == old(self).talk,
            r is Ok ==> old(self).advanced(*final(self)),
            ({
                let held = open_in_instrument(old(self).ledger.portfolio.listed(), instrument@);
                match r {
                    Ok(_) => old(self).pays_out_all(*final(self), *instrument, held, price, ts),
                    Err(_) => old(self).pay_out_stops(*instrument, held, price, ts),
                }
            }),
    {
        let ghost start = *self;
        let open = find_open(&self.ledger.portfolio, instrument);
        proof {
            start.advances_itself();
            assert(open@.take(0) =~= Seq::<(OutcomeId, Qty)>::empty());
        }
        let mut i: usize = 0;
        while i < open.len()
            invariant
                i <= open@.len(),
                start == *old(self),
                open@ == open_in_instrument(start.ledger.portfolio.listed(), instrument@),
                forall|j: int| 0 <= j < open@.len() ==> (#[trigger] open@[j]).1.0 != 0,
                self.sound(),
                self.talk == start.talk,
                start.advanced(*self),
                start.pays_out_all(*self, *instrument, open@.take(i as int), price, ts),
            decreases open@.len() - i,
        {
            let ghost before = *self;
            let ghost long = open@.take(i + 1);
            proof {
                assert(long.drop_last() =~= open@.take(i as int));
                assert(long.last() == open@[i as int]);
            }
            let (outcome, quantity) = open[i];
            let paid = self.pay_out(instrument, outcome, quantity, price, ts);
            proof {
                if paid is Err {
                    assert(start.pays_out_all(before, *instrument, open@.take(i as int), price, ts));
                    assert(before.cannot_pay_out(*instrument, open@[i as int], price, ts));
                } else {
                    assert(before.pays_out(*self, *instrument, long.last(), price, ts));
                }
            }
            paid?;
            proof {
                Self::advanced_again(start, before, *self);
            }
            i += 1;
        }
        assert(open@.take(i as int) =~= open@);
        Ok(())
    }

    /// A corporate action that cannot be applied: it makes no sense, or a
    /// figure it changes no longer fits.
    pub(crate) open spec fn cannot_act(
        self,
        instrument: InstrumentId,
        action: CorporateAction,
        ts: UnixNanos,
    ) -> bool {
        ||| !applicable(action)
        ||| match action {
            CorporateAction::Split { ratio } => {
                ||| exists|i: int| #[trigger]
                    self.ledger.portfolio.first_refusal(instrument@, ratio, i)
                ||| self.order_unsplittable(instrument@, ratio)
                ||| !self.setup.instruments@.dom().contains(instrument@)
                ||| !self.market.splittable(
                    instrument@,
                    self.setup.instruments@[instrument@].count() as int,
                    ratio,
                )
            },
            CorporateAction::Dividend { per_share } => {
                let due = money_total(
                    dividend_items(self.ledger.portfolio.listed(), instrument@, per_share),
                );
                ||| due is Err
                ||| money_plus(self.ledger.cash, due->Ok_0) is Err
                ||| money_plus(self.ledger.dividends_received, due->Ok_0) is Err
            },
            CorporateAction::Delist { final_price } => self.pay_out_stops(
                instrument,
                open_in_instrument(self.ledger.portfolio.listed(), instrument@),
                final_price,
                ts,
            ),
        }
    }

    /// Apply a corporate action to positions, resting orders and cash.
    ///
    /// Forward only: nothing already replayed is rewritten. Everything a
    /// split renames moves at once, which is the whole of the rule:
    /// repricing the orders while leaving the book in old terms would leave
    /// two sides of one market that disagree by the ratio.
    pub(crate) fn apply_corporate_action(
        &mut self,
        instrument: &InstrumentId,
        action: CorporateAction,
        ts: UnixNanos,
    ) -> (r: Result<(), BacktestError>)
        requires
            old(self).sound(),
        ensures
            final(self).sound(),
            r is Ok ==> final(self).talk == old(self).talk,
            r is Ok ==> old(self).acts(*final(self), *instrument, action, ts),
            r is Ok ==> old(self).carried(*final(self)),
            r is Ok && !(action is Split) ==> final(self).split == old(self).split,
            !applicable(action) ==> r is Err && *final(self) == *old(self),
            r is Err ==> old(self).cannot_act(*instrument, action, ts),
    {
        let ghost start = *self;
        proof {
            start.advances_itself();
        }
        action.validate()?;
        match action {
            CorporateAction::Split { ratio } => {
                self.ledger.portfolio.apply_split(instrument, ratio)?;
                self.split_resting(instrument, ratio)?;
                let count: u16 = self.setup.instruments.get(instrument)?.outcome_count();
                let ghost quoted = self.market;
                self.market.split_quotes(instrument, count, ratio, ts)?;
                proof {
                    if quoted.marks_agree() {
                        quoted.a_split_keeps_marks_in_agreement(
                            self.market,
                            instrument@,
                            count as int,
                            ratio,
                            ts,
                        );
                    }
                }
                self.split = Ghost(true);
                self.journal.metrics.corporate_actions = one_more(
                    self.journal.metrics.corporate_actions,
                );
                assert(start.splits(*self, *instrument, ratio, ts));
            },
            CorporateAction::Dividend { per_share } => {
                self.ledger.apply_dividend(instrument, per_share)?;
                self.journal.metrics.corporate_actions = one_more(
                    self.journal.metrics.corporate_actions,
                );
            },
            CorporateAction::Delist { final_price } => {
                self.cash_out(instrument, final_price, ts)?;
                let ghost paid = *self;
                self.board.delisted.insert(instrument.clone(), ());
                self.journal.metrics.corporate_actions = one_more(
                    self.journal.metrics.corporate_actions,
                );
                assert(paid.takes_off(*self, *instrument));
            },
        }
        Ok(())
    }

    /// A record's own effect, once its book stands.
    pub(crate) open spec fn meets(self, after: Self, record: Record) -> bool {
        let ts = record.stamps.ts_init;
        match record.event {
            MarketEvent::Funding { rate } => {
                &&& after == (Engine { ledger: after.ledger, ..self })
                &&& funds(self.ledger, after.ledger, record.instrument@, self.market, rate)
            },
            MarketEvent::Corporate(action) => self.acts(after, record.instrument, action, ts),
            _ => {
                &&& after == (Engine { market: after.market, journal: after.journal, ..self })
                &&& self.market.takes(
                    after.market,
                    (record.instrument@, record.outcome.0),
                    record.event,
                    ts,
                )
                &&& after.journal == (if record.event is Gap {
                    Journal {
                        metrics: RunMetrics {
                            book_gaps: bumped(self.journal.metrics.book_gaps),
                            ..self.journal.metrics
                        },
                        ..self.journal
                    }
                } else {
                    self.journal
                })
            },
        }
    }

    /// A book opened for a market, where there was none.
    pub(crate) open spec fn opens_for(self, opened: Self, key: KeyView) -> bool {
        &&& opened == (Engine { market: opened.market, ..self })
        &&& self.market.opens(opened.market, key)
    }

    /// A record taken in: its book opened, its effect applied, its mark
    /// brought up to date.
    pub(crate) open spec fn takes_in(
        self,
        after: Self,
        record: Record,
        opened: Self,
        met: Self,
    ) -> bool {
        let key: KeyView = (record.instrument@, record.outcome.0);
        &&& self.is_carried(record)
        &&& opened.market.wf()
        &&& met.market.wf()
        &&& after.market.wf()
        &&& self.opens_for(opened, key)
        &&& opened.meets(met, record)
        &&& after == (Engine { market: after.market, ..met })
        &&& met.market.settles(after.market, key, touches_book(record.event))
    }

    /// Whether a run carries the market a record is about.
    pub(crate) open spec fn is_carried(self, record: Record) -> bool {
        &&& self.setup.instruments@.dom().contains(record.instrument@)
        &&& record.outcome.0 < self.setup.instruments@[record.instrument@].outcomes@.len()
    }

    /// A record taken in.
    pub(crate) open spec fn applies(self, after: Self, record: Record) -> bool {
        exists|opened: Self, met: Self| #[trigger] self.takes_in(after, record, opened, met)
    }

    /// Whether a record cannot be taken in: it is about a market the run does
    /// not carry, changes a book that cannot be trusted, or its funding or
    /// corporate action cannot be applied.
    pub(crate) open spec fn may_fail(self, record: Record) -> bool {
        let key: KeyView = (record.instrument@, record.outcome.0);
        ||| !self.is_carried(record)
        ||| match record.event {
            MarketEvent::BookDelta(_) => match self.market.book_in(key) {
                Some(book) => book.state() != Some(BookStatus::Fresh),
                None => true,
            },
            MarketEvent::Funding { rate } => cannot_fund(
                self.ledger,
                record.instrument@,
                self.market,
                rate,
            ),
            MarketEvent::Corporate(action) => exists|opened: Self| #[trigger]
                self.opens_for(opened, key) && opened.cannot_act(
                    record.instrument,
                    action,
                    record.stamps.ts_init,
                ),
            _ => false,
        }
    }

    /// The venue sees the data.
    pub(crate) fn apply_to_books(&mut self, record: &Record, key: &PositionKey) -> (r: Result<
        (),
        BacktestError,
    >)
        requires
            old(self).sound(),
            key@ == (record.instrument@, record.outcome.0),
        ensures
            final(self).sound(),
            r is Ok ==> final(self).talk == old(self).talk,
            r is Ok ==> old(self).applies(*final(self), *record),
            r is Ok ==> old(self).carried(*final(self)),
            r is Ok && !is_split(*record) ==> final(self).split == old(self).split,
            r is Err ==> old(self).may_fail(*record),
    {
        let ghost start = *self;
        proof {
            start.advances_itself();
        }
        let instrument = self.setup.instruments.get(&record.instrument)?;
        instrument.check_outcome(record.outcome)?;
        let ts = record.stamps.ts_init;
        self.market.open_book(key);
        let ghost opened = *self;
        assert(start.opens_for(opened, key@));
        match &record.event {
            MarketEvent::Funding { rate } => {
                self.ledger.apply_funding(&record.instrument, *rate, &self.market)?;
            },
            MarketEvent::Corporate(action) => {
                self.apply_corporate_action(&record.instrument, *action, ts)?;
            },
            MarketEvent::Gap => {
                self.market.take(key, &record.event, ts)?;
                self.journal.metrics.book_gaps = one_more(self.journal.metrics.book_gaps);
            },
            _ => {
                self.market.take(key, &record.event, ts)?;
            },
        }
        let ghost met = *self;
        assert(opened.meets(met, *record));
        let touched = matches!(
            &record.event,
            MarketEvent::BookSnapshot { .. } | MarketEvent::BookDelta(_) | MarketEvent::Gap
                | MarketEvent::Corporate(_)
        );
        self.market.settle_mark(key, touched);
        proof {
            assert(start.takes_in(*self, *record, opened, met));
            if start.market.marks_agree() {
                assert(opened.market.marks_agree()) by {
                    assert(opened.market.marks@ == start.market.marks@);
                    assert forall|k: KeyView| #[trigger]
                        price_in(opened.market.marks@, k) == effective_mark(
                            opened.market.mark_source,
                            price_in(opened.market.venue_marks@, k),
                            price_in(opened.market.book_marks@, k),
                        ) by {
                        assert(price_in(start.market.marks@, k) == price_in(
                            opened.market.marks@,
                            k,
                        ));
                    }
                }
                match record.event {
                    MarketEvent::Funding { .. } => {
                        met.market.settling_keeps_marks_in_agreement(self.market, key@, false);
                    },
                    MarketEvent::Corporate(_) => {
                        met.market.settling_keeps_marks_in_agreement(self.market, key@, true);
                    },
                    _ => {
                        opened.market.data_keeps_marks_in_agreement(
                            met.market,
                            self.market,
                            key@,
                            record.event,
                            ts,
                        );
                    },
                }
            }
            opened.advances_itself();
            met.advances_itself();
        }
        Ok(())
    }

    /// One point on the equity curve, and what the probability books
    /// thought at that instant.
    pub(crate) open spec fn pushes_equity(self, after: Self, ts: UnixNanos) -> bool {
        let tally = equity_tally(
            self.ledger.portfolio.listed(),
            self.market.marks@,
            self.setup.instruments@,
        );
        let realized = money_total(realized_items(self.ledger.portfolio.listed()));
        &&& tally is Ok
        &&& realized is Ok
        &&& fits(self.ledger.cash.0 + (tally->Ok_0).0.0)
        &&& after == (Engine { journal: after.journal, ..self })
        &&& after.journal == (Journal {
            equity: after.journal.equity,
            mark_curve: after.journal.mark_curve,
            ..self.journal
        })
        &&& after.journal.equity@ == self.journal.equity@.push(
            EquityPoint {
                ts,
                cash: self.ledger.cash,
                position_value: (tally->Ok_0).0,
                equity: Money((self.ledger.cash.0 + (tally->Ok_0).0.0) as i64),
                realized_pnl: realized->Ok_0,
                unrealized_pnl: (tally->Ok_0).1,
            },
        )
        &&& after.journal.mark_curve@ == (if self.setup.record_mark_curve {
            self.journal.mark_curve@ + mark_points(
                self.market.marks.seq(),
                self.setup.instruments@,
                ts,
            )
        } else {
            self.journal.mark_curve@
        })
    }

    /// Whether an equity point cannot be worked out.
    pub(crate) open spec fn cannot_value(self) -> bool {
        match equity_tally(
            self.ledger.portfolio.listed(),
            self.market.marks@,
            self.setup.instruments@,
        ) {
            Err(_) => true,
            Ok(tally) => !fits(self.ledger.cash.0 + tally.0.0) || money_total(
                realized_items(self.ledger.portfolio.listed()),
            ) is Err,
        }
    }

    pub(crate) fn push_equity(&mut self, ts: UnixNanos) -> (r: Result<(), BacktestError>)
        requires
            old(self).sound(),
        ensures
            final(self).sound(),
            match r {
                Ok(_) => old(self).pushes_equity(*final(self), ts),
                Err(_) => *final(self) == *old(self) && old(self).cannot_value(),
            },
    {
        let (position_value, unrealized_pnl) = self.ledger.valued(
            &self.market,
            &self.setup.instruments,
        )?;
        let equity = self.ledger.cash.checked_add(position_value)?;
        let realized_pnl = self.ledger.portfolio.realized_pnl()?;
        self.journal.equity.push(
            EquityPoint {
                ts,
                cash: self.ledger.cash,
                position_value,
                equity,
                realized_pnl,
                unrealized_pnl,
            },
        );
        self.sample_marks(ts);
        Ok(())
    }

    /// Record what every probability book thought, on the equity clock.
    ///
    /// Only probability instruments, because this series exists to be
    /// scored: a market price on a prediction market *is* a forecast. A
    /// perpetual's mark is a price, not a probability.
    fn sample_marks(&mut self, ts: UnixNanos)
        requires
            old(self).sound(),
        ensures
            final(self).sound(),
            *final(self) == (Engine { journal: final(self).journal, ..*old(self) }),
            final(self).journal == (Journal {
                mark_curve: final(self).journal.mark_curve,
                ..old(self).journal
            }),
            final(self).journal.mark_curve@ == (if old(self).setup.record_mark_curve {
                old(self).journal.mark_curve@ + mark_points(
                    old(self).market.marks.seq(),
                    old(self).setup.instruments@,
                    ts,
                )
            } else {
                old(self).journal.mark_curve@
            }),
    {
        if !self.setup.record_mark_curve {
            return;
        }
        let ghost start = *self;
        let ghost marks = self.market.marks.seq();
        let n: usize = self.market.marks.len();
        let mut i: usize = 0;
        proof {
            assert(marks.take(0) =~= Seq::<(PositionKey, Price)>::empty());
            assert(self.journal.mark_curve@ =~= start.journal.mark_curve@ + mark_points(
                marks.take(0),
                start.setup.instruments@,
                ts,
            ));
        }
        while i < n
            invariant
                i <= n,
                n == marks.len(),
                start == *old(self),
                marks == start.market.marks.seq(),
                self.sound(),
                *self == (Engine { journal: self.journal, ..start }),
                self.journal == (Journal { mark_curve: self.journal.mark_curve, ..start.journal }),
                self.journal.mark_curve@ == start.journal.mark_curve@ + mark_points(
                    marks.take(i as int),
                    start.setup.instruments@,
                    ts,
                ),
            decreases n - i,
        {
            proof {
                assert(marks.take(i + 1).drop_last() =~= marks.take(i as int));
                assert(marks.take(i + 1).last() == marks[i as int]);
            }
            let ghost so_far = mark_points(marks.take(i as int), start.setup.instruments@, ts);
            let key = self.market.marks.key_at(i);
            let price = *self.market.marks.value_at(i);
            let probability = match self.setup.instruments.get(&key.0) {
                Ok(found) => found.kind.is_probability(),
                Err(_) => false,
            };
            if probability {
                let point = MarkPoint {
                    ts,
                    instrument: key.0.clone(),
                    outcome: key.1,
                    price,
                };
                self.journal.mark_curve.push(point);
                proof {
                    assert(self.journal.mark_curve@ =~= start.journal.mark_curve@ + so_far.push(
                        point,
                    ));
                }
            }
            i += 1;
        }
        assert(marks.take(i as int) =~= marks);
    }

    /// Whether the next equity point is due.
    pub(crate) open spec fn sample_due(self, ts: UnixNanos) -> bool {
        match self.journal.next_equity_sample {
            None => true,
            Some(next) => ts.0 >= next,
        }
    }

    /// The equity clock after a point was taken.
    pub(crate) open spec fn rearms(self, after: Self, ts: UnixNanos) -> bool {
        after == (Engine {
            journal: Journal {
                next_equity_sample: Some(
                    saturated(ts.0 + self.setup.equity_interval) as i64,
                ),
                ..self.journal
            },
            ..self
        })
    }

    /// An equity point taken where one is due.
    pub(crate) open spec fn samples(self, after: Self, ts: UnixNanos) -> bool {
        if self.sample_due(ts) {
            exists|pushed: Self| #[trigger]
                self.pushes_equity(pushed, ts) && pushed.rearms(after, ts)
        } else {
            after == self
        }
    }

    /// Record an equity point when the sampling interval has elapsed.
    ///
    /// The first record always produces one, so a curve never starts after
    /// the strategy has already traded.
    pub(crate) fn sample_equity(&mut self, ts: UnixNanos) -> (r: Result<(), BacktestError>)
        requires
            old(self).sound(),
        ensures
            final(self).sound(),
            match r {
                Ok(_) => old(self).samples(*final(self), ts),
                Err(_) => *final(self) == *old(self) && old(self).sample_due(ts) && old(
                    self,
                ).cannot_value(),
            },
    {
        let due = match self.journal.next_equity_sample {
            None => true,
            Some(next) => ts.0 >= next,
        };
        if !due {
            return Ok(());
        }
        self.push_equity(ts)?;
        let ghost pushed = *self;
        self.journal.next_equity_sample = Some(saturating_sum(ts.0, self.setup.equity_interval));
        assert(pushed.rearms(*self, ts));
        Ok(())
    }
}

/// A split never turns a size negative.
proof fn split_keeps_sign(ratio: int, quantity: int)
    requires
        ratio > 0,
        quantity >= 0,
    ensures
        split_quantity(ratio, quantity) >= 0,
{
    assert(quantity * ratio >= 0) by (nonlinear_arith)
        requires
            ratio > 0,
            quantity >= 0,
    ;
}

/// A split multiplies the size of a resting order and what is filled of it,
/// and divides its limit, each rounded towards zero, and leaves everything
/// else of it alone.
pub proof fn a_split_rescales_an_order(order: Order, ratio: Price, limit: Price)
    requires
        ratio.0 > 0,
        order.quantity.0 >= 0,
        order.filled.0 >= 0,
        order.kind == (OrderKind::Limit { limit }),
        limit.0 >= 0,
        splits_cleanly(order, ratio),
    ensures
        ({
            let split = order_split(order, ratio);
            let r = ratio.0 as int;
            &&& split == (Order {
                quantity: split.quantity,
                filled: split.filled,
                kind: split.kind,
                ..order
            })
            &&& split.quantity.0 * SCALE <= order.quantity.0 * r < split.quantity.0 * SCALE + SCALE
            &&& split.filled.0 * SCALE <= order.filled.0 * r < split.filled.0 * SCALE + SCALE
            &&& split.kind matches OrderKind::Limit { limit: price } && price.0 * r <= limit.0
                * SCALE < price.0 * r + r
        }),
{
    a_split_multiplies_shares_and_divides_prices(
        ratio.0 as int,
        order.quantity.0 as int,
        limit.0 as int,
    );
    a_split_multiplies_shares_and_divides_prices(
        ratio.0 as int,
        order.filled.0 as int,
        limit.0 as int,
    );
}

/// Funding takes from cash what it adds to what was paid: the two together
/// hold what they held, and nothing else of the account moves.
pub proof fn funding_moves_cash_alone(
    before: Ledger,
    after: Ledger,
    instrument: Seq<char>,
    market: Market,
    rate: Price,
)
    requires
        funds(before, after, instrument, market, rate),
    ensures
        after.cash.0 + after.funding_paid.0 == before.cash.0 + before.funding_paid.0,
        funding_total(
            before.portfolio.listed(),
            instrument,
            market.oracles@,
            market.marks@,
            rate,
        ) matches Ok(total) && after.cash.0 - before.cash.0 == total.0,
        after.portfolio == before.portfolio,
        after.fills == before.fills,
        after.dividends_received == before.dividends_received,
{
}

/// What is open in an instrument is what is held of it, whole and in order:
/// each position of the instrument that is not flat, and no other.
pub proof fn what_is_open_in_an_instrument(positions: Seq<Position>, instrument: Seq<char>)
    ensures
        open_in_instrument(positions, instrument) == positions.filter(
            |p: Position| p.quantity.0 != 0 && p.instrument@ == instrument,
        ).map_values(|p: Position| (p.outcome, p.quantity)),
    decreases positions.len(),
{
    reveal(Seq::filter);
    let keep = |p: Position| p.quantity.0 != 0 && p.instrument@ == instrument;
    let pick = |p: Position| (p.outcome, p.quantity);
    if positions.len() > 0 {
        let head = positions.drop_last();
        what_is_open_in_an_instrument(head, instrument);
        let p = positions.last();
        if keep(p) {
            assert(head.filter(keep).push(p).map_values(pick) =~= head.filter(keep).map_values(
                pick,
            ).push(pick(p)));
        }
    } else {
        assert(positions.filter(keep).map_values(pick) =~= Seq::<(OutcomeId, Qty)>::empty());
    }
}

/// A split restates the positions of its instrument and no others, and moves
/// no mark on its own.
pub proof fn a_split_leaves_other_instruments(
    before: Portfolio,
    after: Portfolio,
    instrument: Seq<char>,
    ratio: Price,
    i: int,
)
    requires
        holdings_split(before, after, instrument, ratio),
        0 <= i < before.listed().len(),
    ensures
        ({
            let (p, q) = (before.listed()[i], after.listed()[i]);
            &&& p.instrument@ != instrument || p.quantity.0 == 0 ==> q == p
            &&& q.realized_pnl == p.realized_pnl
            &&& q.commissions == p.commissions
            &&& q.fill_count == p.fill_count
            &&& q.instrument == p.instrument
            &&& q.outcome == p.outcome
        }),
        after.marked() == before.marked(),
        after.listed().len() == before.listed().len(),
{
    assert(!refuses_split(before.listed()[i], instrument, ratio));
    assert(after.listed()[i] == (if before.listed()[i].instrument@ == instrument {
        split_applied(before.listed()[i], ratio)->Ok_0
    } else {
        before.listed()[i]
    }));
}

} // verus!
