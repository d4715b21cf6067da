//! Orders and fills.

use vstd::prelude::*;
use vstd::string::*;

use crate::error::{says, BacktestError};
use crate::instrument::{InstrumentId, OutcomeId};
use crate::text::{int_text, push_u64};
use crate::types::{fits, fixed_text, push_fixed, Money, Price, Qty, Side, UnixNanos};

verus! {

/// A monotonic identifier, assigned by the engine in submission order.
#[derive(Clone, Copy, PartialEq, Eq, PartialOrd, Ord, Hash, Debug, Structural)]
pub struct OrderId(pub u64);

/// An order id as text.
pub open spec fn order_id_text(id: OrderId) -> Seq<char> {
    "O"@ + int_text(id.0 as int)
}

/// Append an order id.
pub fn push_order_id(out: &mut String, id: OrderId)
    ensures
        final(out)@ == old(out)@ + order_id_text(id),
{
    out.append("O");
    push_u64(out, id.0);
    assert(out@ =~= old(out)@ + order_id_text(id));
}

impl OrderId {
    pub fn to_text(self) -> (out: String)
        ensures
            out@ == order_id_text(self),
    {
        let mut out = String::new();
        push_order_id(&mut out, self);
        assert(out@ =~= order_id_text(self));
        out
    }
}

#[derive(Clone, Copy, PartialEq, Eq, Debug, Structural)]
pub enum OrderKind {
    /// Take whatever the book offers.
    Market,
    /// Trade at `limit` or better.
    Limit { limit: Price },
}

/// How long an order lives.
#[derive(Clone, Copy, PartialEq, Eq, Debug, Structural)]
pub enum TimeInForce {
    /// Rest on the book until cancelled.
    GoodTilCancel,
    /// Fill what is available now, cancel the rest.
    ImmediateOrCancel,
    /// Fill entirely now or not at all.
    FillOrKill,
}

impl Default for TimeInForce {
    fn default() -> (r: Self)
        ensures
            r == TimeInForce::GoodTilCancel,
    {
        TimeInForce::GoodTilCancel
    }
}

/// Which way the mark has to move for a trigger to fire.
#[derive(Clone, Copy, PartialEq, Eq, Debug, Structural)]
pub enum TriggerDirection {
    /// Up to the trigger price or beyond.
    Above,
    /// Down to the trigger price or beyond.
    Below,
}

/// A stop or take-profit condition on the mark.
#[derive(Clone, Copy, PartialEq, Eq, Debug, Structural)]
pub struct Trigger {
    pub direction: TriggerDirection,
    pub price: Price,
}

impl Trigger {
    pub open spec fn fires(self, mark: Price) -> bool {
        match self.direction {
            TriggerDirection::Above => mark.0 >= self.price.0,
            TriggerDirection::Below => mark.0 <= self.price.0,
        }
    }

    /// Whether the mark has reached the trigger.
    pub fn fires_at(self, mark: Price) -> (r: bool)
        ensures
            r == self.fires(mark),
    {
        match self.direction {
            TriggerDirection::Above => mark.0 >= self.price.0,
            TriggerDirection::Below => mark.0 <= self.price.0,
        }
    }
}

#[derive(Clone, Copy, PartialEq, Eq, Debug, Structural)]
pub enum OrderStatus {
    /// Submitted, not yet seen by the venue (in the latency queue).
    InFlight,
    /// Held by the venue until its trigger fires.
    Untriggered,
    /// Live at the venue.
    Accepted,
    PartiallyFilled,
    Filled,
    Cancelled,
    /// The venue refused it, with a reason.
    Rejected,
}

/// The name a status is written under.
pub open spec fn status_text(status: OrderStatus) -> Seq<char> {
    match status {
        OrderStatus::InFlight => "in_flight"@,
        OrderStatus::Untriggered => "untriggered"@,
        OrderStatus::Accepted => "accepted"@,
        OrderStatus::PartiallyFilled => "partially_filled"@,
        OrderStatus::Filled => "filled"@,
        OrderStatus::Cancelled => "cancelled"@,
        OrderStatus::Rejected => "rejected"@,
    }
}

impl OrderStatus {
    pub open spec fn terminal(self) -> bool {
        self is Filled || self is Cancelled || self is Rejected
    }

    pub fn is_terminal(self) -> (r: bool)
        ensures
            r == self.terminal(),
    {
        matches!(self, OrderStatus::Filled | OrderStatus::Cancelled | OrderStatus::Rejected)
    }

    pub fn as_str(self) -> (r: &'static str)
        ensures
            r@ == status_text(self),
    {
        match self {
            OrderStatus::InFlight => "in_flight",
            OrderStatus::Untriggered => "untriggered",
            OrderStatus::Accepted => "accepted",
            OrderStatus::PartiallyFilled => "partially_filled",
            OrderStatus::Filled => "filled",
            OrderStatus::Cancelled => "cancelled",
            OrderStatus::Rejected => "rejected",
        }
    }
}

/// An order as the engine tracks it.
#[derive(PartialEq, Eq, Debug)]
pub struct Order {
    pub id: OrderId,
    pub instrument: InstrumentId,
    pub outcome: OutcomeId,
    pub side: Side,
    pub kind: OrderKind,
    pub quantity: Qty,
    pub filled: Qty,
    pub time_in_force: TimeInForce,
    pub status: OrderStatus,
    /// When the strategy submitted it.
    pub submitted_at: UnixNanos,
    /// When the venue saw it (submission plus latency).
    pub accepted_at: Option<UnixNanos>,
    /// Set when the venue refuses it.
    pub reject_reason: Option<String>,
    /// Free-form label the strategy attaches; carried onto fills so a run
    /// report can attribute them to intent (entry, exit, hedge).
    pub tag: Option<String>,
    /// Only reduces an existing position; never opens or flips one.
    pub reduce_only: bool,
    /// Add liquidity only: the venue refuses it rather than let it cross.
    pub post_only: bool,
    /// The condition the venue holds it on, if any.
    pub trigger: Option<Trigger>,
}

/// A copy of an optional text.
pub fn clone_text(text: &Option<String>) -> (r: Option<String>)
    ensures
        r == *text,
{
    match text {
        Some(t) => Some(t.clone()),
        None => None,
    }
}

impl Clone for Order {
    fn clone(&self) -> (r: Self)
        ensures
            r == *self,
    {
        Order {
            id: self.id,
            instrument: self.instrument.clone(),
            outcome: self.outcome,
            side: self.side,
            kind: self.kind,
            quantity: self.quantity,
            filled: self.filled,
            time_in_force: self.time_in_force,
            status: self.status,
            submitted_at: self.submitted_at,
            accepted_at: self.accepted_at,
            reject_reason: clone_text(&self.reject_reason),
            tag: clone_text(&self.tag),
            reduce_only: self.reduce_only,
            post_only: self.post_only,
            trigger: self.trigger,
        }
    }
}

/// An order as it is submitted: in flight, nothing filled, nothing optional
/// set.
pub open spec fn submitted(
    id: OrderId,
    instrument: InstrumentId,
    outcome: OutcomeId,
    side: Side,
    kind: OrderKind,
    quantity: Qty,
    time_in_force: TimeInForce,
    submitted_at: UnixNanos,
) -> Order {
    Order {
        id,
        instrument,
        outcome,
        side,
        kind,
        quantity,
        filled: Qty(0),
        time_in_force,
        status: OrderStatus::InFlight,
        submitted_at,
        accepted_at: None,
        reject_reason: None,
        tag: None,
        reduce_only: false,
        post_only: false,
        trigger: None,
    }
}

/// The quantity a fill brings an order to.
pub open spec fn filled_after(order: Order, quantity: Qty) -> int {
    order.filled.0 + quantity.0
}

/// Whether an order can take a fill of this size.
pub open spec fn can_record(order: Order, quantity: Qty) -> bool {
    fits(filled_after(order, quantity)) && filled_after(order, quantity) <= order.quantity.0
}

/// An order after a fill it can take.
pub open spec fn recorded(order: Order, quantity: Qty) -> Order {
    Order {
        filled: Qty(filled_after(order, quantity) as i64),
        status: if filled_after(order, quantity) == order.quantity.0 {
            OrderStatus::Filled
        } else {
            OrderStatus::PartiallyFilled
        },
        ..order
    }
}

impl Order {
    /// A live order's fills lie between nothing and all of it.
    pub open spec fn wf(self) -> bool {
        0 <= self.filled.0 <= self.quantity.0
    }

    pub fn market(
        id: OrderId,
        instrument: InstrumentId,
        outcome: OutcomeId,
        side: Side,
        quantity: Qty,
        submitted_at: UnixNanos,
    ) -> (r: Result<Self, BacktestError>)
        ensures
            match r {
                Ok(order) => quantity.0 > 0 && order.wf() && order == submitted(
                    id,
                    instrument,
                    outcome,
                    side,
                    OrderKind::Market,
                    quantity,
                    TimeInForce::ImmediateOrCancel,
                    submitted_at,
                ),
                Err(e) => quantity.0 <= 0 && says(
                    e,
                    "order quantity must be positive; direction is the side, not the sign"@,
                ),
            },
    {
        Self::new(
            id,
            instrument,
            outcome,
            side,
            OrderKind::Market,
            quantity,
            TimeInForce::ImmediateOrCancel,
            submitted_at,
        )
    }

    pub fn limit(
        id: OrderId,
        instrument: InstrumentId,
        outcome: OutcomeId,
        side: Side,
        limit: Price,
        quantity: Qty,
        submitted_at: UnixNanos,
    ) -> (r: Result<Self, BacktestError>)
        ensures
            match r {
                Ok(order) => quantity.0 > 0 && order.wf() && order == submitted(
                    id,
                    instrument,
                    outcome,
                    side,
                    OrderKind::Limit { limit },
                    quantity,
                    TimeInForce::GoodTilCancel,
                    submitted_at,
                ),
                Err(e) => quantity.0 <= 0 && says(
                    e,
                    "order quantity must be positive; direction is the side, not the sign"@,
                ),
            },
    {
        Self::new(
            id,
            instrument,
            outcome,
            side,
            OrderKind::Limit { limit },
            quantity,
            TimeInForce::GoodTilCancel,
            submitted_at,
        )
    }

    pub fn new(
        id: OrderId,
        instrument: InstrumentId,
        outcome: OutcomeId,
        side: Side,
        kind: OrderKind,
        quantity: Qty,
        time_in_force: TimeInForce,
        submitted_at: UnixNanos,
    ) -> (r: Result<Self, BacktestError>)
        ensures
            match r {
                Ok(order) => quantity.0 > 0 && order.wf() && order == submitted(
                    id,
                    instrument,
                    outcome,
                    side,
                    kind,
                    quantity,
                    time_in_force,
                    submitted_at,
                ),
                Err(e) => quantity.0 <= 0 && says(
                    e,
                    "order quantity must be positive; direction is the side, not the sign"@,
                ),
            },
    {
        if !quantity.is_positive() {
            return Err(
                BacktestError::invalid(
                    "order quantity must be positive; direction is the side, not the sign",
                ),
            );
        }
        Ok(
            Order {
                id,
                instrument,
                outcome,
                side,
                kind,
                quantity,
                filled: Qty(0),
                time_in_force,
                status: OrderStatus::InFlight,
                submitted_at,
                accepted_at: None,
                reject_reason: None,
                tag: None,
                reduce_only: false,
                post_only: false,
                trigger: None,
            },
        )
    }

    pub fn with_time_in_force(self, tif: TimeInForce) -> (r: Self)
        ensures
            r == (Order { time_in_force: tif, ..self }),
    {
        Order { time_in_force: tif, ..self }
    }

    pub fn with_tag(self, tag: &str) -> (r: Self)
        ensures
            r == (Order { tag: r.tag, ..self }),
            r.tag matches Some(t) && t@ == tag@,
    {
        Order { tag: Some(tag.to_owned()), ..self }
    }

    pub fn reduce_only(self) -> (r: Self)
        ensures
            r == (Order { reduce_only: true, ..self }),
    {
        Order { reduce_only: true, ..self }
    }

    pub fn post_only(self) -> (r: Self)
        ensures
            r == (Order { post_only: true, ..self }),
    {
        Order { post_only: true, ..self }
    }

    /// Quantity not yet filled.
    pub fn remaining(&self) -> (r: Qty)
        requires
            fits(self.quantity.0 - self.filled.0),
        ensures
            r.0 == self.quantity.0 - self.filled.0,
    {
        Qty(self.quantity.0 - self.filled.0)
    }

    pub fn is_open(&self) -> (r: bool)
        ensures
            r == !self.status.terminal(),
    {
        !self.status.is_terminal()
    }

    pub open spec fn cap(self) -> Option<Price> {
        match self.kind {
            OrderKind::Market => None,
            OrderKind::Limit { limit } => Some(limit),
        }
    }

    /// The price cap this order will accept, if any.
    pub fn limit_price(&self) -> (r: Option<Price>)
        ensures
            r == self.cap(),
    {
        match self.kind {
            OrderKind::Market => None,
            OrderKind::Limit { limit } => Some(limit),
        }
    }

    /// Record an execution. Filling more than the order asked for is an
    /// error, not a silent clamp, and leaves the order as it was.
    pub fn record_fill(&mut self, quantity: Qty) -> (r: Result<(), BacktestError>)
        ensures
            match r {
                Ok(_) => can_record(*old(self), quantity) && *final(self) == recorded(
                    *old(self),
                    quantity,
                ),
                Err(e) => {
                    &&& *final(self) == *old(self)
                    &&& if !fits(filled_after(*old(self), quantity)) {
                        e == (BacktestError::Overflow { what: "Qty::add" })
                    } else {
                        filled_after(*old(self), quantity) > old(self).quantity.0 && says(
                            e,
                            "order "@ + order_id_text(old(self).id) + " would fill "@ + fixed_text(
                                filled_after(*old(self), quantity),
                            ) + " of "@ + fixed_text(old(self).quantity.0 as int),
                        )
                    }
                },
            },
    {
        let filled = self.filled.checked_add(quantity)?;
        if filled.0 > self.quantity.0 {
            let mut m = "order ".to_owned();
            push_order_id(&mut m, self.id);
            m.append(" would fill ");
            push_fixed(&mut m, filled.0);
            m.append(" of ");
            push_fixed(&mut m, self.quantity.0);
            return Err(BacktestError::Invalid(m));
        }
        self.filled = filled;
        self.status = if self.filled.0 == self.quantity.0 {
            OrderStatus::Filled
        } else {
            OrderStatus::PartiallyFilled
        };
        Ok(())
    }
}

/// Whatever is recorded of a live order, it never holds more than it asked
/// for, and it is filled exactly when it holds all of it.
pub proof fn recording_keeps_orders_within_bounds(order: Order, quantity: Qty)
    requires
        order.wf(),
        quantity.0 >= 0,
        can_record(order, quantity),
    ensures
        recorded(order, quantity).wf(),
        recorded(order, quantity).status is Filled <==> recorded(order, quantity).filled
            == order.quantity,
        recorded(order, quantity).filled.0 >= order.filled.0,
{
}

/// One execution.
#[derive(PartialEq, Eq, Debug)]
pub struct Fill {
    pub order_id: OrderId,
    pub instrument: InstrumentId,
    pub outcome: OutcomeId,
    pub side: Side,
    pub price: Price,
    pub quantity: Qty,
    pub commission: Money,
    /// True when this fill took liquidity.
    pub is_taker: bool,
    pub ts: UnixNanos,
    pub tag: Option<String>,
}

/// An execution with its texts as sequences of characters.
pub struct FillView {
    pub order_id: OrderId,
    pub instrument: Seq<char>,
    pub outcome: OutcomeId,
    pub side: Side,
    pub price: Price,
    pub quantity: Qty,
    pub commission: Money,
    pub is_taker: bool,
    pub ts: UnixNanos,
    pub tag: Option<Seq<char>>,
}

impl View for Fill {
    type V = FillView;

    open spec fn view(&self) -> FillView {
        FillView {
            order_id: self.order_id,
            instrument: self.instrument@,
            outcome: self.outcome,
            side: self.side,
            price: self.price,
            quantity: self.quantity,
            commission: self.commission,
            is_taker: self.is_taker,
            ts: self.ts,
            tag: match self.tag {
                Some(tag) => Some(tag@),
                None => None,
            },
        }
    }
}

impl Clone for Fill {
    fn clone(&self) -> (r: Self)
        ensures
            r == *self,
    {
        Fill {
            order_id: self.order_id,
            instrument: self.instrument.clone(),
            outcome: self.outcome,
            side: self.side,
            price: self.price,
            quantity: self.quantity,
            commission: self.commission,
            is_taker: self.is_taker,
            ts: self.ts,
            tag: clone_text(&self.tag),
        }
    }
}

/// A trigger fires once the mark is at its price or beyond it, in the
/// direction it watches, and from there on stays fired.
pub proof fn a_trigger_fires_at_its_price(trigger: Trigger, mark: Price, further: Price)
    ensures
        trigger.fires(trigger.price),
        trigger.direction is Above ==> (trigger.fires(mark) <==> mark.0 >= trigger.price.0),
        trigger.direction is Below ==> (trigger.fires(mark) <==> mark.0 <= trigger.price.0),
        trigger.direction is Above && trigger.fires(mark) && further.0 >= mark.0 ==> trigger.fires(
            further,
        ),
        trigger.direction is Below && trigger.fires(mark) && further.0 <= mark.0 ==> trigger.fires(
            further,
        ),
{
}

/// A fill that an order records is added to what it holds, and touches
/// nothing else of it but whether it is done. No order records more than it
/// asked for.
pub proof fn a_recorded_fill_is_added(order: Order, quantity: Qty)
    requires
        can_record(order, quantity),
    ensures
        ({
            let after = recorded(order, quantity);
            &&& after.filled.0 == order.filled.0 + quantity.0
            &&& after.filled.0 <= order.quantity.0
            &&& after.filled.0 < order.quantity.0 ==> after.status is PartiallyFilled
            &&& after.filled.0 == order.quantity.0 ==> after.status is Filled
            &&& after == (Order { filled: after.filled, status: after.status, ..order })
        }),
{
}

/// An order is over once it is filled, cancelled or rejected, and not while it
/// can still trade.
pub proof fn what_can_still_trade_is_not_over(status: OrderStatus)
    ensures
        status is InFlight || status is Untriggered || status is Accepted
            || status is PartiallyFilled <==> !status.terminal(),
{
}

} // verus!
