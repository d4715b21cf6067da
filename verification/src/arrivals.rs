//! What reaches the venue once its latency has run out: orders, and
//! operations on complete sets.

use vstd::prelude::*;
use vstd::string::*;

use crate::account::MarginModel;
use crate::calls::venue_order;
use crate::checks::{
    crossed_price, crossing_price, halted, market_of, meets_own, stopped_trading, text_of,
    would_self_trade,
};
use crate::desk::{arrived, Desk, InFlightAction};
use crate::engine::{rejected_as, same_order, Engine, Journal};
use crate::error::BacktestError;
use crate::execution::ExecutionClient;
use crate::instrument::{Instrument, InstrumentId, OutcomeId};
use crate::margin::{label_of, labelled, Labels};
use crate::market::{key_for, price_in};
use crate::matching::{FillOrigin, FillTerms};
use crate::metrics::{bumped, one_more, RunMetrics};
use crate::models::{FeeModel, FillModel, LatencyModel};
use crate::order::{order_id_text, push_order_id, Order, OrderId, OrderStatus};
use crate::request::{SetKindView, SetOperation, SetOperationRequest};
use crate::schedule::reached;
use crate::sets::{
    basis_of, denies, legs_total, minting_needs, set_basis, set_operation_refusal, set_plan,
    set_possible, set_terms,
};
use crate::strategy::{talked, talked_again, talked_not, Strategy};
use crate::types::{fixed_text, notional, push_fixed, Money, Price, Qty, Side, UnixNanos};

verus! {

/// What every leg of one set operation shares.
pub struct SetTerms {
    pub instrument: InstrumentId,
    pub side: Side,
    pub sets: Qty,
    pub cost: Money,
    pub tag: String,
}

/// What a report of a set operation says.
pub open spec fn reports_set(
    op: SetOperation,
    ts: UnixNanos,
    instrument: InstrumentId,
    kind: SetKindView,
    sets: Qty,
    cash_delta: Money,
    cost: Money,
    rejected: Option<Seq<char>>,
) -> bool {
    &&& op.ts == ts
    &&& op.instrument == instrument
    &&& op.kind@ == kind
    &&& op.sets == sets
    &&& op.cash_delta == cash_delta
    &&& op.cost == cost
    &&& text_of(op.rejected) == rejected
}

/// Why a passive order that would have traded is turned away.
pub open spec fn post_only_text(limit: Option<Price>, top: Price) -> Seq<char> {
    "a post-only order at "@ + (match limit {
        Some(price) => fixed_text(price.0 as int),
        None => ""@,
    }) + " would have crossed the book at "@ + fixed_text(top.0 as int)
        + "; the venue refuses it rather than filling it as a taker"@
}

fn post_only_refusal(limit: Option<Price>, top: Price) -> (r: String)
    ensures
        r@ == post_only_text(limit, top),
{
    let mut m = "a post-only order at ".to_owned();
    match limit {
        Some(price) => push_fixed(&mut m, price.0),
        None => m.append(""),
    }
    m.append(" would have crossed the book at ");
    push_fixed(&mut m, top.0);
    m.append("; the venue refuses it rather than filling it as a taker");
    m
}

/// The counters once an order has arrived: one that was held on a trigger
/// has been released.
pub open spec fn triggered(m: RunMetrics, order: Order) -> RunMetrics {
    RunMetrics {
        orders_triggered: if order.trigger is Some {
            bumped(m.orders_triggered)
        } else {
            m.orders_triggered
        },
        ..m
    }
}

/// The terms of one leg of a set operation. The flat cost rides on the
/// first.
pub open spec fn leg_terms(terms: SetTerms, outcome: int, price: Price) -> FillTerms {
    FillTerms {
        price,
        quantity: terms.sets,
        origin: FillOrigin::CompleteSet,
        commission: if outcome == 0 {
            terms.cost
        } else {
            Money(0)
        },
    }
}

/// What the legs of a set operation share, as a request asks for it.
pub open spec fn asked_terms(
    instrument: Instrument,
    request: SetOperationRequest,
    cost: Money,
    labels: Labels,
) -> SetTerms {
    let (count, side) = set_terms(request.kind@, request.quantity);
    SetTerms {
        instrument: instrument.id,
        side,
        sets: Qty(count as i64),
        cost,
        tag: labelled(request.tag, labels.of_set(request.kind@)),
    }
}

impl<F: FeeModel, L: FillModel, T: LatencyModel, M: MarginModel, X: ExecutionClient> Engine<
    F,
    L,
    T,
    M,
    X,
> {
    /// One leg of a set operation booked.
    pub(crate) open spec fn books_leg(
        self,
        after: Self,
        filed: Self,
        order: Order,
        terms: SetTerms,
        outcome: int,
        price: Price,
        ts: UnixNanos,
    ) -> bool {
        &&& self.orders_leg(filed, order, terms, outcome, ts)
        &&& filed.books_fill(after, order.id, leg_terms(terms, outcome, price), ts)
    }

    /// The venue's own order for one leg of a set operation.
    pub(crate) open spec fn orders_leg(
        self,
        filed: Self,
        order: Order,
        terms: SetTerms,
        outcome: int,
        ts: UnixNanos,
    ) -> bool {
        &&& self.issues(filed, order)
        &&& order == venue_order(
            order.id,
            terms.instrument,
            OutcomeId(outcome as u16),
            terms.side,
            terms.sets,
            ts,
            terms.tag,
            false,
        )
    }

    /// A leg that cannot be ordered, added up or booked.
    pub(crate) open spec fn cannot_add_leg(
        self,
        terms: SetTerms,
        basis: Seq<Price>,
        outcome: int,
        ts: UnixNanos,
    ) -> bool {
        ||| terms.sets.0 <= 0
        ||| self.desk.next_order_id == u64::MAX
        ||| legs_total(basis.take(outcome + 1), terms.side, terms.sets) is Err
        ||| exists|filed: Self, order: Order| #[trigger]
            self.orders_leg(filed, order, terms, outcome, ts) && filed.cannot_record(
                order.id,
                leg_terms(terms, outcome, basis[outcome]),
                ts,
            )
    }

    /// Booking the legs comes to one that cannot be added.
    pub(crate) open spec fn legs_stop(
        self,
        terms: SetTerms,
        basis: Seq<Price>,
        ts: UnixNanos,
    ) -> bool {
        exists|k: int, between: Self|
            0 <= k < basis.len() && #[trigger] self.adds_legs(between, terms, basis.take(k), ts)
                && #[trigger] between.cannot_add_leg(terms, basis, k, ts)
    }

    /// One leg of a set operation, under whatever id it was given.
    pub(crate) open spec fn adds_leg(
        self,
        after: Self,
        terms: SetTerms,
        outcome: int,
        price: Price,
        ts: UnixNanos,
    ) -> bool {
        exists|filed: Self, order: Order| #[trigger]
            self.books_leg(after, filed, order, terms, outcome, price, ts)
    }

    /// The legs of a set operation, one per outcome, in order. The flat cost
    /// rides on the first.
    pub(crate) open spec fn adds_legs(
        self,
        after: Self,
        terms: SetTerms,
        basis: Seq<Price>,
        ts: UnixNanos,
    ) -> bool
        decreases basis.len(),
    {
        if basis.len() == 0 {
            after == self
        } else {
            exists|between: Self|
                self.adds_legs(between, terms, basis.drop_last(), ts) && #[trigger] between.adds_leg(
                    after,
                    terms,
                    basis.len() - 1,
                    basis.last(),
                    ts,
                )
        }
    }

    /// A set operation carried out over the legs, or refused and recorded.
    pub(crate) open spec fn operates_on(
        self,
        after: Self,
        booked: Self,
        request: SetOperationRequest,
        answer: Option<Seq<char>>,
        ts: UnixNanos,
    ) -> bool {
        let instrument = self.setup.instruments@[request.instrument@];
        let (count, side) = set_terms(request.kind@, request.quantity);
        let sets = Qty(count as i64);
        let cost = self.setup.set_costs.cost_of(request.kind@);
        let basis = basis_of(instrument, self.market.marks@);
        let terms = asked_terms(instrument, request, cost, self.setup.labels);
        let ops = after.journal.set_operations@;
        &&& self.setup.instruments@.dom().contains(request.instrument@)
        &&& set_possible(instrument, request.kind@, request.quantity)
        &&& denies(
            self.ledger.cash,
            self.ledger.portfolio.held(),
            instrument,
            side,
            sets,
            cost,
            answer,
        )
        &&& after == (Engine { journal: after.journal, ..booked })
        &&& after.journal == (Journal {
            metrics: after.journal.metrics,
            set_operations: after.journal.set_operations,
            ..booked.journal
        })
        &&& ops.len() == booked.journal.set_operations@.len() + 1
        &&& ops.drop_last() == booked.journal.set_operations@
        &&& match answer {
            Some(_) => {
                &&& booked == self
                &&& reports_set(
                    ops.last(),
                    ts,
                    instrument.id,
                    request.kind@,
                    Qty(0),
                    Money(0),
                    Money(0),
                    answer,
                )
                &&& after.journal.metrics == (RunMetrics {
                    set_operations_rejected: bumped(
                        self.journal.metrics.set_operations_rejected,
                    ),
                    ..self.journal.metrics
                })
            },
            None => {
                &&& 0 < basis.len() == instrument.count()
                &&& self.adds_legs(booked, terms, basis, ts)
                &&& legs_total(basis, side, sets) is Ok
                &&& reports_set(
                    ops.last(),
                    ts,
                    instrument.id,
                    request.kind@,
                    sets,
                    legs_total(basis, side, sets)->Ok_0,
                    cost,
                    None,
                )
                &&& after.journal.metrics == (RunMetrics {
                    set_operations: bumped(booked.journal.metrics.set_operations),
                    ..booked.journal.metrics
                })
            },
        }
    }

    /// A set operation dealt with.
    pub(crate) open spec fn operates(
        self,
        after: Self,
        request: SetOperationRequest,
        ts: UnixNanos,
    ) -> bool {
        exists|booked: Self, answer: Option<Seq<char>>| #[trigger]
            self.operates_on(after, booked, request, answer, ts)
    }

    /// Whether a set operation is one the venue knows and turns down.
    pub(crate) open spec fn turns_down(self, request: SetOperationRequest) -> bool {
        let instrument = self.setup.instruments@[request.instrument@];
        let (count, side) = set_terms(request.kind@, request.quantity);
        &&& self.setup.instruments@.dom().contains(request.instrument@)
        &&& set_possible(instrument, request.kind@, request.quantity)
        &&& exists|text: Seq<char>| #[trigger]
            denies(
                self.ledger.cash,
                self.ledger.portfolio.held(),
                instrument,
                side,
                Qty(count as i64),
                self.setup.set_costs.cost_of(request.kind@),
                Some(text),
            )
    }

    /// A set operation asked for in terms that make none: of an instrument
    /// the run does not carry, of sets that do not exist, or at a cost that
    /// cannot be worked out.
    pub(crate) open spec fn misframed(self, request: SetOperationRequest) -> bool {
        let instrument = self.setup.instruments@[request.instrument@];
        let cost = self.setup.set_costs.cost_of(request.kind@);
        let (count, side) = set_terms(request.kind@, request.quantity);
        ||| !self.setup.instruments@.dom().contains(request.instrument@)
        ||| !set_possible(instrument, request.kind@, request.quantity)
        ||| side is Buy && minting_needs(Qty(count as i64), cost) is Err
    }

    /// A set operation that cannot be carried out: the venue knows no such
    /// operation, a figure does not fit, or a leg cannot be added.
    pub(crate) open spec fn operation_stops(
        self,
        request: SetOperationRequest,
        ts: UnixNanos,
    ) -> bool {
        let instrument = self.setup.instruments@[request.instrument@];
        let cost = self.setup.set_costs.cost_of(request.kind@);
        let terms = asked_terms(instrument, request, cost, self.setup.labels);
        ||| self.misframed(request)
        ||| instrument.count() == 0
        ||| self.legs_stop(terms, basis_of(instrument, self.market.marks@), ts)
    }

    /// Perform a complete-set operation against the venue's set contract.
    ///
    /// The whole operation is expressed as one fill per outcome, priced so
    /// that the legs sum to exactly one unit of cash per set: positions are
    /// rebuilt from fills alone, so a set must move through the same path as
    /// every other trade.
    pub(crate) fn run_set_operation<S: Strategy>(
        &mut self,
        request: &SetOperationRequest,
        ts: UnixNanos,
        strategy: &mut S,
    ) -> (r: Result<(), BacktestError>)
        requires
            old(self).sound(),
            old(strategy).ready(),
        ensures
            final(self).sound(),
            final(strategy).ready(),
            old(strategy).willing() ==> final(strategy).willing(),
            r is Ok ==> talked(*old(strategy), *final(strategy), old(self).talk@, final(self).talk@),
            r is Ok ==> old(self).operates(*final(self), *request, ts),
            r is Ok ==> old(self).deals_with(*final(self), *request, ts),
            old(self).misframed(*request) ==> r is Err && *final(self) == *old(self)
                && *final(strategy) == *old(strategy),
            r is Ok ==> old(self).advanced(*final(self)),
            r is Err ==> !old(self).turns_down(*request),
            old(self).unhindered(*final(self), *old(strategy), *final(strategy)) && r is Err ==> old(self).operation_stops(*request, ts),
    {
        proof {
            Self::dealing_is_operating();
            talked_not(*strategy, self.talk@);
        }
        let ghost start = *self;
        proof {
            start.advances_itself();
        }
        let instrument = self.setup.instruments.get(&request.instrument)?;
        let ghost found = *instrument;
        let (sets, side) = set_plan(instrument, &request.kind, request.quantity)?;
        let cost = self.setup.set_costs.for_kind(&request.kind);
        let id = instrument.id.clone();
        let answer = set_operation_refusal(&self.ledger, instrument, side, sets, cost)?;
        let ghost said = text_of(answer);
        if let Some(reason) = answer {
            self.journal.set_operations.push(
                SetOperation {
                    ts,
                    instrument: id,
                    kind: request.kind.clone(),
                    sets: Qty(0),
                    cash_delta: Money(0),
                    cost: Money(0),
                    rejected: Some(reason),
                },
            );
            self.journal.metrics.set_operations_rejected = one_more(
                self.journal.metrics.set_operations_rejected,
            );
            proof {
                assert(self.journal.set_operations@.drop_last()
                    =~= start.journal.set_operations@);
                assert(start.operates_on(*self, start, *request, said, ts));
            }
            return Ok(());
        }
        let basis = set_basis(&self.market, instrument)?;
        let tag = label_of(&request.tag, self.setup.labels.for_set(&request.kind));
        let ghost terms = SetTerms { instrument: id, side, sets, cost, tag };
        let cash_delta = self.book_legs(&id, side, sets, cost, &tag, &basis, ts, strategy)?;
        let ghost booked = *self;
        self.journal.set_operations.push(
            SetOperation {
                ts,
                instrument: id,
                kind: request.kind.clone(),
                sets,
                cash_delta,
                cost,
                rejected: None,
            },
        );
        self.journal.metrics.set_operations = one_more(self.journal.metrics.set_operations);
        proof {
            assert(self.journal.set_operations@.drop_last() =~= booked.journal.set_operations@);
            assert(start.operates_on(*self, booked, *request, said, ts));
            booked.advances_itself();
            assert(booked.advanced(*self));
            Self::advanced_again(start, booked, *self);
        }
        Ok(())
    }

    /// Book one leg per outcome, and say what they moved in cash.
    fn book_legs<S: Strategy>(
        &mut self,
        instrument: &InstrumentId,
        side: Side,
        sets: Qty,
        cost: Money,
        tag: &String,
        basis: &Vec<Price>,
        ts: UnixNanos,
        strategy: &mut S,
    ) -> (r: Result<Money, BacktestError>)
        requires
            old(self).sound(),
            old(strategy).ready(),
            basis@.len() <= u16::MAX,
        ensures
            final(self).sound(),
            final(strategy).ready(),
            old(strategy).willing() ==> final(strategy).willing(),
            r is Ok ==> talked(*old(strategy), *final(strategy), old(self).talk@, final(self).talk@),
            r matches Ok(cash_delta) ==> {
                &&& legs_total(basis@, side, sets) == Ok::<Money, BacktestError>(cash_delta)
                &&& old(self).adds_legs(
                    *final(self),
                    (SetTerms { instrument: *instrument, side, sets, cost, tag: *tag }),
                    basis@,
                    ts,
                )
                &&& old(self).advanced(*final(self))
            },
            basis@.len() == 0 ==> r is Ok && *final(self) == *old(self),
            old(self).unhindered(*final(self), *old(strategy), *final(strategy)) && r is Err ==> old(self).legs_stop(
                (SetTerms { instrument: *instrument, side, sets, cost, tag: *tag }),
                basis@,
                ts,
            ),
    {
        proof {
            talked_not(*strategy, self.talk@);
        }
        let ghost start = *self;
        let ghost terms = SetTerms { instrument: *instrument, side, sets, cost, tag: *tag };
        let mut cash_delta = Money(0);
        let mut i: usize = 0;
        proof {
            start.advances_itself();
            assert(basis@.take(0) =~= Seq::<Price>::empty());
        }
        while i < basis.len()
            invariant
                i <= basis@.len(),
                i == 0 ==> *self == start,
                start == *old(self),
                basis@.len() <= u16::MAX,
                self.sound(),
                strategy.ready(),
                old(strategy).willing() ==> strategy.willing(),
                talked(*old(strategy), *strategy, old(self).talk@, self.talk@),
                terms == (SetTerms { instrument: *instrument, side, sets, cost, tag: *tag }),
                start.advanced(*self),
                start.adds_legs(*self, terms, basis@.take(i as int), ts),
                legs_total(basis@.take(i as int), side, sets) == Ok::<Money, BacktestError>(
                    cash_delta,
                ),
            decreases basis@.len() - i,
        {
            let ghost before = *self;
            let ghost long = basis@.take(i + 1);
            proof {
                assert(start.adds_legs(before, terms, basis@.take(i as int), ts));
                assert(long.drop_last() =~= basis@.take(i as int));
                assert(long.last() == basis@[i as int]);
            }
            let price = basis[i];
            let issuing = self.issue(
                instrument,
                OutcomeId(i as u16),
                side,
                sets,
                ts,
                tag.clone(),
                false,
            );
            proof {
                if issuing is Err {
                    assert(before.cannot_add_leg(terms, basis@, i as int, ts));
                }
            }
            let id = issuing?;
            let ghost filed = *self;
            let ghost order = self.desk.orders@[id.0];
            let commission = if i == 0 {
                cost
            } else {
                Money(0)
            };
            proof {
                assert(before.orders_leg(filed, order, terms, i as int, ts));
                if legs_total(long, side, sets) is Err {
                    assert(before.cannot_add_leg(terms, basis@, i as int, ts));
                }
            }
            let leg = notional(price, sets)?;
            cash_delta = match side {
                Side::Buy => cash_delta.checked_add(leg)?,
                Side::Sell => cash_delta.checked_sub(leg)?,
            };
            let ghost asked = *strategy;
            let booking = self.book_fill(
                id,
                FillTerms { price, quantity: sets, origin: FillOrigin::CompleteSet, commission },
                ts,
                strategy,
            );
            proof {
                Self::free_all_along(
                    old(self).talk@,
                    filed.talk@,
                    *self,
                    *old(strategy),
                    asked,
                    *strategy,
                );
                if booking is Err && old(self).unhindered(*self, *old(strategy), *strategy) {
                    assert(filed.cannot_record(
                        order.id,
                        leg_terms(terms, i as int, basis@[i as int]),
                        ts,
                    ));
                    assert(before.cannot_add_leg(terms, basis@, i as int, ts));
                }
            }
            booking?;
            proof {
                talked_again(
                    *old(strategy),
                    asked,
                    *strategy,
                    old(self).talk@,
                    filed.talk@,
                    self.talk@,
                );
                assert(before.books_leg(*self, filed, order, terms, i as int, price, ts));
                assert(before.adds_leg(*self, terms, long.len() - 1, long.last(), ts));
                Self::advanced_again(before, filed, *self);
                Self::advanced_again(start, before, *self);
            }
            i += 1;
        }
        assert(basis@.take(i as int) =~= basis@);
        Ok(cash_delta)
    }

    /// Whether the account can carry an order: with no margin model it
    /// always can, and where the position cannot be valued it is given the
    /// benefit of the doubt.
    pub(crate) open spec fn funded(self, order: Order) -> bool {
        match self.setup.margin {
            None => true,
            Some(model) => {
                let state = self.stands(model)->Ok_0;
                let mark = price_in(self.market.marks@, market_of(order));
                let needed = model.initial_of(
                    self.setup.instruments@[order.instrument@],
                    Qty((order.quantity.0 - order.filled.0) as i64),
                    mark->Some_0,
                );
                ||| state.incomplete
                ||| mark is None
                ||| (needed is Ok && state.equity.0 - state.initial.0 >= (needed->Ok_0).0)
            },
        }
    }

    /// Whether a resting order is the first of the account's own that an
    /// order would meet.
    pub(crate) open spec fn first_own(self, order: Order, other: OrderId, i: int) -> bool {
        &&& 0 <= i < self.desk.resting@.len()
        &&& self.desk.resting@[i] == other
        &&& meets_own(self.market, self.desk.orders@, other, order)
        &&& forall|j: int|
            0 <= j < i ==> !meets_own(
                self.market,
                self.desk.orders@,
                #[trigger] self.desk.resting@[j],
                order,
            )
    }

    /// Whether an order would meet none of the account's own.
    pub(crate) open spec fn meets_none(self, order: Order) -> bool {
        forall|j: int|
            0 <= j < self.desk.resting@.len() ==> !meets_own(
                self.market,
                self.desk.orders@,
                #[trigger] self.desk.resting@[j],
                order,
            )
    }

    /// An order turned away on arrival.
    pub(crate) open spec fn turns_away(
        self,
        after: Self,
        order: Order,
        text: Seq<char>,
        journal: Journal,
    ) -> bool {
        let done = after.desk.orders@[order.id.0];
        &&& after == (Engine { desk: after.desk, journal, ..self })
        &&& after.desk == (Desk { orders: after.desk.orders, ..self.desk })
        &&& after.desk.orders@ == self.desk.orders@.insert(order.id.0, done)
        &&& rejected_as(order, done, text)
    }

    /// A stop held by the venue until the mark reaches it.
    pub(crate) open spec fn parks(self, after: Self, order: Order, ts: UnixNanos) -> bool {
        &&& after == (Engine { desk: after.desk, ..self })
        &&& after.desk == (Desk {
            orders: after.desk.orders,
            untriggered: after.desk.untriggered,
            ..self.desk
        })
        &&& after.desk.untriggered@ == self.desk.untriggered@.push(order.id)
        &&& after.desk.orders@ == self.desk.orders@.insert(
            order.id.0,
            (Order { status: OrderStatus::Untriggered, accepted_at: Some(ts), ..order }),
        )
    }

    /// An order the venue takes.
    pub(crate) open spec fn admits(
        self,
        admitted: Self,
        order: Order,
        metrics: RunMetrics,
        ts: UnixNanos,
    ) -> bool {
        &&& admitted == (Engine {
            desk: admitted.desk,
            journal: Journal { metrics, ..self.journal },
            ..self
        })
        &&& admitted.desk == (Desk { orders: admitted.desk.orders, ..self.desk })
        &&& admitted.desk.orders@ == self.desk.orders@.insert(
            order.id.0,
            (Order { status: OrderStatus::Accepted, accepted_at: Some(ts), ..order }),
        )
    }

    /// An order taken and tried.
    pub(crate) open spec fn enters(
        self,
        after: Self,
        order: Order,
        metrics: RunMetrics,
        ts: UnixNanos,
    ) -> bool {
        exists|admitted: Self| #[trigger]
            self.admits(admitted, order, metrics, ts) && admitted.tries(after, order.id, ts)
    }

    /// An order turned away for meeting one of the account's own.
    pub(crate) open spec fn keeps_apart(self, after: Self, order: Order, journal: Journal) -> bool {
        exists|other: OrderId, i: int| #[trigger]
            self.first_own(order, other, i) && self.turns_away(
                after,
                order,
                "would trade against this account's own resting order "@ + order_id_text(other),
                journal,
            )
    }

    /// What becomes of an order on arrival.
    ///
    /// One that was cancelled on the way never reaches the venue. One that
    /// comes too late, would cross as post-only, would meet the account's own
    /// or cannot be carried is turned away; a stop the mark has not reached
    /// is parked; anything else is taken and tried.
    pub(crate) open spec fn lands(self, after: Self, id: OrderId, ts: UnixNanos) -> bool {
        let order = self.desk.orders@[id.0];
        let stopped = halted(
            self.setup.instruments@,
            self.board.delisted@,
            order.instrument@,
            ts,
        );
        let crossed = crossed_price(self.market.book_in(market_of(order)), order);
        let m = self.journal.metrics;
        let fired = Order { trigger: None, ..order };
        let counted = triggered(m, order);
        if !self.desk.orders@.dom().contains(id.0) || !(order.status is InFlight) {
            after == self
        } else if stopped is Some {
            self.turns_away(
                after,
                order,
                stopped->Some_0 + ", before this order arrived"@,
                Journal {
                    metrics: RunMetrics {
                        orders_rejected_expired: bumped(m.orders_rejected_expired),
                        ..m
                    },
                    ..self.journal
                },
            )
        } else if order.post_only && crossed is Some {
            self.turns_away(
                after,
                order,
                post_only_text(order.cap(), crossed->Some_0),
                Journal {
                    metrics: RunMetrics {
                        orders_rejected_post_only: bumped(m.orders_rejected_post_only),
                        ..m
                    },
                    ..self.journal
                },
            )
        } else if order.trigger is Some && !reached(self.market.marks@, order) {
            self.parks(after, order, ts)
        } else if !self.meets_none(fired) {
            self.keeps_apart(
                after,
                fired,
                Journal {
                    metrics: RunMetrics {
                        orders_rejected_self_trade: bumped(m.orders_rejected_self_trade),
                        ..counted
                    },
                    self_trades_prevented: bumped(self.journal.self_trades_prevented),
                    ..self.journal
                },
            )
        } else if !self.funded(fired) {
            self.turns_away(
                after,
                fired,
                "insufficient margin for this order"@,
                Journal {
                    metrics: RunMetrics {
                        orders_rejected_margin: bumped(m.orders_rejected_margin),
                        ..counted
                    },
                    rejected_for_margin: bumped(self.journal.rejected_for_margin),
                    ..self.journal
                },
            )
        } else {
            self.enters(after, fired, counted, ts)
        }
    }

    /// Whether an order that arrives cannot be weighed, or trades.
    pub(crate) open spec fn landing_trades(self, id: OrderId, ts: UnixNanos, quiet: bool) -> bool {
        let order = self.desk.orders@[id.0];
        let crossed = crossed_price(self.market.book_in(market_of(order)), order);
        let fired = Order { trigger: None, ..order };
        let counted = triggered(self.journal.metrics, order);
        &&& self.desk.orders@.dom().contains(id.0)
        &&& order.status is InFlight
        &&& halted(
            self.setup.instruments@,
            self.board.delisted@,
            order.instrument@,
            ts,
        ) is None
        &&& !(order.post_only && crossed is Some)
        &&& order.trigger is Some ==> reached(self.market.marks@, order)
        &&& self.meets_none(fired)
        &&& self.cannot_weigh(fired) || self.funded(fired) && exists|admitted: Self| #[trigger]
            self.admits(admitted, fired, counted, ts) && admitted.finds_levels(id, ts, quiet)
    }

    /// Whether the margin an order needs cannot be worked out.
    pub(crate) open spec fn cannot_weigh(self, order: Order) -> bool {
        self.setup.margin matches Some(model) && match self.stands(model) {
            Err(_) => true,
            Ok(state) => {
                let mark = price_in(self.market.marks@, market_of(order));
                &&& !state.incomplete
                &&& mark is Some
                &&& !self.setup.instruments@.dom().contains(order.instrument@)
                    || model.initial_of(
                    self.setup.instruments@[order.instrument@],
                    Qty((order.quantity.0 - order.filled.0) as i64),
                    mark->Some_0,
                ) is Err
            },
        }
    }

    /// Filing an order again under its own id changes nothing else.
    proof fn refiling_advances(a: Self, b: Self, order: Order)
        requires
            a.sound(),
            a.desk.orders@.dom().contains(order.id.0),
            same_order(a.desk.orders@[order.id.0], order),
            b == (Engine { desk: b.desk, journal: b.journal, ..a }),
            b.desk.orders@ == a.desk.orders@.insert(order.id.0, order),
            b.desk.next_order_id == a.desk.next_order_id,
            b.journal == (Journal {
                metrics: b.journal.metrics,
                self_trades_prevented: b.journal.self_trades_prevented,
                rejected_for_margin: b.journal.rejected_for_margin,
                ..a.journal
            }),
            b.journal.metrics.corporate_actions == a.journal.metrics.corporate_actions,
        ensures
            a.advanced(b),
    {
        a.advances_itself();
    }

    /// Deal with one order on arrival.
    fn land<S: Strategy>(&mut self, id: OrderId, ts: UnixNanos, strategy: &mut S) -> (r: Result<
        (),
        BacktestError,
    >)
        requires
            old(self).sound(),
            old(strategy).ready(),
        ensures
            final(self).sound(),
            final(strategy).ready(),
            old(strategy).willing() ==> final(strategy).willing(),
            r is Ok ==> talked(*old(strategy), *final(strategy), old(self).talk@, final(self).talk@),
            r is Ok ==> old(self).lands(*final(self), id, ts),
            r is Ok ==> old(self).advanced(*final(self)),
            r is Err ==> old(self).landing_trades(id, ts, old(self).unhindered(*final(self), *old(strategy), *final(strategy))),
    {
        proof {
            talked_not(*strategy, self.talk@);
        }
        let ghost start = *self;
        proof {
            start.advances_itself();
        }
        let mut order = match self.desk.order(id) {
            Some(order) => order,
            None => {
                return Ok(());
            },
        };
        if !matches!(order.status, OrderStatus::InFlight) {
            return Ok(());
        }
        let ghost sent = order;
        if let Some(reason) = stopped_trading(
            &self.setup.instruments,
            &self.board.delisted,
            &order.instrument,
            ts,
        ) {
            let mut text = reason;
            text.append(", before this order arrived");
            self.desk.refuse(id, OrderStatus::Rejected, text);
            self.journal.metrics.orders_rejected_expired = one_more(
                self.journal.metrics.orders_rejected_expired,
            );
            proof {
                Self::refiling_advances(start, *self, self.desk.orders@[id.0]);
            }
            return Ok(());
        }
        if order.post_only {
            if let Some(top) = crossing_price(&self.market, &order) {
                let text = post_only_refusal(order.limit_price(), top);
                self.desk.refuse(id, OrderStatus::Rejected, text);
                self.journal.metrics.orders_rejected_post_only = one_more(
                    self.journal.metrics.orders_rejected_post_only,
                );
                proof {
                    Self::refiling_advances(start, *self, self.desk.orders@[id.0]);
                }
                return Ok(());
            }
        }
        if let Some(trigger) = order.trigger {
            let fires = match self.market.mark(&key_for(&order.instrument, order.outcome)) {
                Some(price) => trigger.fires_at(price),
                None => false,
            };
            if !fires {
                order.status = OrderStatus::Untriggered;
                order.accepted_at = Some(ts);
                self.desk.untriggered.push(id);
                self.desk.file(order);
                proof {
                    Self::refiling_advances(start, *self, self.desk.orders@[id.0]);
                }
                return Ok(());
            }
            self.journal.metrics.orders_triggered = one_more(
                self.journal.metrics.orders_triggered,
            );
        }
        order.trigger = None;
        let ghost fired = order;
        assert(fired == (Order { trigger: None, ..sent }));
        if let Some(other) = would_self_trade(
            &self.market,
            &self.desk.orders,
            &self.desk.resting,
            &order,
        ) {
            proof {
                let i = choose|i: int|
                    0 <= i < start.desk.resting@.len() && (#[trigger] start.desk.resting@[i])
                        == other && meets_own(start.market, start.desk.orders@, other, fired)
                        && forall|j: int|
                        0 <= j < i ==> !meets_own(
                            start.market,
                            start.desk.orders@,
                            #[trigger] start.desk.resting@[j],
                            fired,
                        );
                assert(start.first_own(fired, other, i));
            }
            let mut text = "would trade against this account's own resting order ".to_owned();
            push_order_id(&mut text, other);
            order.status = OrderStatus::Rejected;
            order.reject_reason = Some(text);
            self.desk.file(order);
            self.journal.self_trades_prevented = one_more(self.journal.self_trades_prevented);
            self.journal.metrics.orders_rejected_self_trade = one_more(
                self.journal.metrics.orders_rejected_self_trade,
            );
            proof {
                Self::refiling_advances(start, *self, self.desk.orders@[id.0]);
            }
            return Ok(());
        }
        let carried = self.setup.can_fund(&self.ledger, &self.market, &order)?;
        assert(carried == start.funded(fired));
        if !carried {
            order.status = OrderStatus::Rejected;
            order.reject_reason = Some("insufficient margin for this order".to_owned());
            self.desk.file(order);
            self.journal.rejected_for_margin = one_more(self.journal.rejected_for_margin);
            self.journal.metrics.orders_rejected_margin = one_more(
                self.journal.metrics.orders_rejected_margin,
            );
            proof {
                Self::refiling_advances(start, *self, self.desk.orders@[id.0]);
            }
            return Ok(());
        }
        order.status = OrderStatus::Accepted;
        order.accepted_at = Some(ts);
        self.desk.file(order);
        let ghost admitted = *self;
        proof {
            Self::refiling_advances(start, admitted, admitted.desk.orders@[id.0]);
            assert(start.admits(admitted, fired, admitted.journal.metrics, ts));
        }
        let tried = self.try_fill(id, ts, strategy);
        proof {
            if tried is Err {
                let counted = triggered(start.journal.metrics, sent);
                assert(start.admits(admitted, fired, counted, ts));
                assert(admitted.finds_levels(id, ts, old(self).unhindered(*self, *old(strategy), *strategy)));
                assert(start.landing_trades(id, ts, old(self).unhindered(*self, *old(strategy), *strategy)));
            } else {
                Self::advanced_again(start, admitted, *self);
            }
        }
        tried
    }

    /// One arrival dealt with.
    pub(crate) open spec fn receives(
        self,
        after: Self,
        action: InFlightAction,
        ts: UnixNanos,
    ) -> bool {
        match action {
            InFlightAction::Order(id) => self.lands(after, id, ts),
            InFlightAction::Operation(request) => self.operates(after, request, ts),
        }
    }

    /// Arrivals one after another.
    pub(crate) open spec fn receives_all(
        self,
        after: Self,
        actions: Seq<InFlightAction>,
        ts: UnixNanos,
    ) -> bool
        decreases actions.len(),
    {
        if actions.len() == 0 {
            after == self
        } else {
            exists|between: Self|
                self.receives_all(between, actions.drop_last(), ts)
                    && #[trigger] between.receives(after, actions.last(), ts)
        }
    }

    /// What is due taken off the wire, in the order it was due.
    pub(crate) open spec fn collects(
        self,
        collected: Self,
        actions: Seq<InFlightAction>,
        ts: UnixNanos,
    ) -> bool {
        let sent = self.desk.inflight.seq();
        let n = arrived(sent, ts.0 as int);
        &&& collected == (Engine { desk: collected.desk, ..self })
        &&& collected.desk == (Desk { inflight: collected.desk.inflight, ..self.desk })
        &&& collected.desk.inflight.seq() == sent.skip(n as int)
        &&& n <= sent.len()
        &&& actions.len() == n
        &&& forall|i: int| 0 <= i < n ==> #[trigger] actions[i] == sent[i].1
    }

    /// Everything whose latency has elapsed dealt with.
    pub(crate) open spec fn delivers(self, after: Self, ts: UnixNanos) -> bool {
        exists|collected: Self, actions: Seq<InFlightAction>| #[trigger]
            self.collects(collected, actions, ts) && collected.receives_all(after, actions, ts)
    }

    /// Whether an arrival cannot be dealt with, or trades.
    pub(crate) open spec fn arrival_stops(
        self,
        action: InFlightAction,
        ts: UnixNanos,
        quiet: bool,
    ) -> bool {
        match action {
            InFlightAction::Order(id) => self.landing_trades(id, ts, quiet),
            InFlightAction::Operation(request) => !self.turns_down(request) && (quiet
                ==> self.operation_stops(request, ts)),
        }
    }

    /// Dealing with what is due comes to an arrival that cannot be dealt
    /// with, or that trades.
    pub(crate) open spec fn delivery_stops(self, ts: UnixNanos, quiet: bool) -> bool {
        exists|collected: Self, actions: Seq<InFlightAction>, k: int, between: Self|
            0 <= k < actions.len() && #[trigger] self.collects(collected, actions, ts)
                && #[trigger] collected.receives_all(between, actions.take(k), ts)
                && #[trigger] between.arrival_stops(actions[k], ts, quiet)
    }

    /// Orders whose latency has elapsed reach the venue.
    ///
    /// What reaches it is the order as it stands now: anything the strategy
    /// did to it on the way counts.
    pub(crate) fn release_inflight<S: Strategy>(&mut self, ts: UnixNanos, strategy: &mut S) -> (r:
        Result<(), BacktestError>)
        requires
            old(self).sound(),
            old(strategy).ready(),
        ensures
            final(self).sound(),
            final(strategy).ready(),
            old(strategy).willing() ==> final(strategy).willing(),
            r is Ok ==> talked(*old(strategy), *final(strategy), old(self).talk@, final(self).talk@),
            r is Ok ==> old(self).delivers(*final(self), ts),
            r is Ok ==> old(self).lets_through(*final(self), ts),
            r is Ok ==> old(self).advanced(*final(self)),
            r is Err ==> old(self).delivery_stops(ts, old(self).unhindered(*final(self), *old(strategy), *final(strategy))),
    {
        proof {
            Self::letting_through_is_delivering();
            talked_not(*strategy, self.talk@);
        }
        let ghost start = *self;
        let actions = self.desk.arrivals(ts);
        let ghost collected = *self;
        proof {
            assert(start.collects(collected, actions@, ts));
            start.advances_itself();
            assert(start.advanced(collected));
            assert(actions@.take(0) =~= Seq::<InFlightAction>::empty());
        }
        let mut i: usize = 0;
        while i < actions.len()
            invariant
                i <= actions@.len(),
                start == *old(self),
                start.collects(collected, actions@, ts),
                self.sound(),
                strategy.ready(),
                old(strategy).willing() ==> strategy.willing(),
                talked(*old(strategy), *strategy, old(self).talk@, self.talk@),
                start.advanced(*self),
                collected.receives_all(*self, actions@.take(i as int), ts),
            decreases actions@.len() - i,
        {
            let ghost before = *self;
            let ghost long = actions@.take(i + 1);
            proof {
                assert(long.drop_last() =~= actions@.take(i as int));
                assert(long.last() == actions@[i as int]);
            }
            let ghost asked = *strategy;
            let done = match &actions[i] {
                InFlightAction::Order(id) => self.land(*id, ts, strategy),
                InFlightAction::Operation(request) => self.run_set_operation(
                    request,
                    ts,
                    strategy,
                ),
            };
            proof {
                Self::free_all_along(
                    old(self).talk@,
                    before.talk@,
                    *self,
                    *old(strategy),
                    asked,
                    *strategy,
                );
                if done is Err {
                    assert(collected.receives_all(before, actions@.take(i as int), ts));
                    assert(before.arrival_stops(actions@[i as int], ts, old(self).unhindered(*self, *old(strategy), *strategy)));
                    assert(start.delivery_stops(ts, old(self).unhindered(*self, *old(strategy), *strategy)));
                }
            }
            done?;
            proof {
                talked_again(
                    *old(strategy),
                    asked,
                    *strategy,
                    old(self).talk@,
                    before.talk@,
                    self.talk@,
                );
                assert(before.receives(*self, long.last(), ts));
                Self::advanced_again(start, before, *self);
            }
            i += 1;
        }
        assert(actions@.take(i as int) =~= actions@);
        Ok(())
    }
}

/// What a set operation costs is charged once, on its first leg.
pub proof fn a_set_operation_is_charged_once(terms: SetTerms, outcome: int, price: Price)
    ensures
        ({
            let leg = leg_terms(terms, outcome, price);
            &&& leg.price == price
            &&& leg.quantity == terms.sets
            &&& leg.origin is CompleteSet
            &&& outcome == 0 ==> leg.commission == terms.cost
            &&& outcome != 0 ==> leg.commission.0 == 0
        }),
{
}

} // verus!
