//! Whether, and why not, the venue takes what a strategy asks for.
//!
//! A fault in one order is the venue's answer to that order: it is recorded,
//! counted and explained, and the run carries on. What is decided here reads
//! the state and changes none of it.

use vstd::prelude::*;
use vstd::string::*;

use crate::book::{walk_levels, walking_is_sound, OrderBook};
use crate::instrument::{Instrument, InstrumentId, InstrumentSet, OutcomeId};
use crate::ledger::{quantity_in, Ledger};
use crate::market::{key_for, Market};
use crate::metrics::RiskLimits;
use crate::order::{Order, OrderId, OrderKind};
use crate::ordered::SortedMap;
use crate::position::{KeyView, Position};
use crate::request::OrderRequest;
use crate::text::{int_text, push_i64, push_u64};
use crate::types::{
    fixed_text, magnitude, push_fixed, saturated, saturating_difference, saturating_sum, Price,
    Qty, Side, UnixNanos,
};

verus! {

/// Orders by id.
pub type Orders = Map<u64, Order>;

/// What stands under an optional text.
pub open spec fn text_of(text: Option<String>) -> Option<Seq<char>> {
    match text {
        Some(t) => Some(t@),
        None => None,
    }
}

/// The market an order is for.
pub open spec fn market_of(order: Order) -> KeyView {
    (order.instrument@, order.outcome.0)
}

/// Quantities and fills of every order are at least nothing.
pub open spec fn orders_sound(orders: Orders) -> bool {
    forall|k: u64| #[trigger]
        orders.dom().contains(k) ==> orders[k].id.0 == k && orders[k].quantity.0 >= 0
            && orders[k].filled.0 >= 0
}

/// What is wrong with an outcome, if anything.
pub open spec fn outcome_fault(instrument: Instrument, outcome: OutcomeId) -> Option<Seq<char>> {
    if outcome.0 < instrument.outcomes@.len() {
        None
    } else {
        Some(
            "outcome "@ + int_text(outcome.0 as int) + " is out of range for "@ + instrument.id@
                + ", which has "@ + int_text(instrument.count() as int) + " outcomes"@,
        )
    }
}

/// What is wrong with a price, if anything.
pub open spec fn price_fault(instrument: Instrument, price: Price) -> Option<Seq<char>> {
    if instrument.out_of_bounds(price) {
        Some(
            "price "@ + fixed_text(price.0 as int)
                + " is outside [0, 1] for probability instrument "@ + instrument.id@,
        )
    } else if instrument.off_grid(price) {
        Some(
            "price "@ + fixed_text(price.0 as int) + " is not a multiple of "@ + instrument.id@
                + "'s tick size "@ + fixed_text(instrument.tick_size.0 as int),
        )
    } else {
        None
    }
}

/// Why a request is refused on its shape alone: no book, no position and no
/// clock are asked.
pub open spec fn refusal(
    instruments: Map<Seq<char>, Instrument>,
    request: OrderRequest,
) -> Option<Seq<char>> {
    if !instruments.dom().contains(request.instrument@) {
        Some(request.instrument@ + " is not an instrument this run carries"@)
    } else {
        let instrument = instruments[request.instrument@];
        match outcome_fault(instrument, request.outcome) {
            Some(fault) => Some(fault),
            None => {
                let fault = match request.kind {
                    OrderKind::Limit { limit } => price_fault(instrument, limit),
                    OrderKind::Market => None,
                };
                match fault {
                    Some(fault) => Some(fault),
                    None => if request.post_only && request.kind is Market {
                        Some(
                            "a post-only order must carry a limit price; a market order has nothing to rest at"@,
                        )
                    } else {
                        None
                    },
                }
            },
        }
    }
}

/// The text for an instrument the run does not carry.
pub fn not_carried(instrument: &InstrumentId) -> (r: String)
    ensures
        r@ == instrument@ + " is not an instrument this run carries"@,
{
    let mut m = instrument.as_str().to_owned();
    m.append(" is not an instrument this run carries");
    m
}

/// Why the venue would refuse this request outright, if it would.
pub fn order_refusal(instruments: &InstrumentSet, request: &OrderRequest) -> (r: Option<String>)
    requires
        instruments.wf(),
    ensures
        text_of(r) == refusal(instruments@, *request),
{
    let instrument = match instruments.get(&request.instrument) {
        Ok(found) => found,
        Err(_) => {
            return Some(not_carried(&request.instrument));
        },
    };
    match instrument.check_outcome(request.outcome) {
        Ok(_) => {},
        Err(e) => {
            return Some(e.message());
        },
    }
    if let OrderKind::Limit { limit } = request.kind {
        match instrument.check_price(limit) {
            Ok(_) => {},
            Err(e) => {
                return Some(e.message());
            },
        }
    }
    if request.post_only && matches!(request.kind, OrderKind::Market) {
        return Some(
            "a post-only order must carry a limit price; a market order has nothing to rest at".to_owned(),
        );
    }
    None
}

/// The set of instruments taken off the board.
pub type Delisted = Map<Seq<char>, ()>;

/// Why an instrument cannot be traded at an instant, if it cannot: its
/// expiry has passed, or it was delisted.
pub open spec fn halted(
    instruments: Map<Seq<char>, Instrument>,
    delisted: Delisted,
    instrument: Seq<char>,
    ts: UnixNanos,
) -> Option<Seq<char>> {
    let expiry = if instruments.dom().contains(instrument) {
        instruments[instrument].expiration
    } else {
        None
    };
    match expiry {
        Some(at) if ts.0 >= at.0 => Some(
            instrument + " stopped trading at "@ + int_text(at.0 as int),
        ),
        _ => if delisted.dom().contains(instrument) {
            Some(instrument + " was delisted and stopped trading"@)
        } else {
            None
        },
    }
}

/// Whether this instrument has expired as of `ts`, and when it did.
pub fn has_expired(instruments: &InstrumentSet, instrument: &InstrumentId, ts: UnixNanos) -> (r:
    Option<UnixNanos>)
    requires
        instruments.wf(),
    ensures
        r == (if instruments@.dom().contains(instrument@) {
            match instruments@[instrument@].expiration {
                Some(at) if ts.0 >= at.0 => Some(at),
                _ => None,
            }
        } else {
            None
        }),
{
    match instruments.get(instrument) {
        Ok(found) => match found.expiration {
            Some(at) => if ts.0 >= at.0 {
                Some(at)
            } else {
                None
            },
            None => None,
        },
        Err(_) => None,
    }
}

/// The text for an instrument whose expiry has passed.
pub fn expired_text(instrument: &InstrumentId, at: UnixNanos) -> (r: String)
    ensures
        r@ == instrument@ + " stopped trading at "@ + int_text(at.0 as int),
{
    let mut m = instrument.as_str().to_owned();
    m.append(" stopped trading at ");
    push_i64(&mut m, at.0);
    m
}

/// Why this instrument cannot be traded at `ts`, if it cannot.
///
/// The text is the venue's answer, built once here, so every place that
/// refuses an order says the same thing about the same fact.
pub fn stopped_trading(
    instruments: &InstrumentSet,
    delisted: &SortedMap<InstrumentId, ()>,
    instrument: &InstrumentId,
    ts: UnixNanos,
) -> (r: Option<String>)
    requires
        instruments.wf(),
        delisted.wf(),
    ensures
        text_of(r) == halted(instruments@, delisted@, instrument@, ts),
{
    if let Some(at) = has_expired(instruments, instrument, ts) {
        return Some(expired_text(instrument, at));
    }
    if delisted.contains_key(instrument) {
        let mut m = instrument.as_str().to_owned();
        m.append(" was delisted and stopped trading");
        return Some(m);
    }
    None
}

/// Whether a live order counts towards what is pending in a market.
pub open spec fn pends(
    orders: Orders,
    id: u64,
    market: KeyView,
    side: Side,
    opening_only: bool,
) -> bool {
    &&& orders.dom().contains(id)
    &&& !orders[id].status.terminal()
    &&& opening_only ==> !orders[id].reduce_only
    &&& orders[id].side == side
    &&& market_of(orders[id]) == market
}

/// Quantity still to be filled on one side of a market, over live orders.
pub open spec fn pending_in(
    orders: Orders,
    live: Seq<OrderId>,
    market: KeyView,
    side: Side,
    opening_only: bool,
) -> int
    decreases live.len(),
{
    if live.len() == 0 {
        0
    } else {
        let rest = pending_in(orders, live.drop_last(), market, side, opening_only);
        let id = live.last().0;
        if pends(orders, id, market, side, opening_only) {
            saturated(rest + (orders[id].quantity.0 - orders[id].filled.0))
        } else {
            rest
        }
    }
}

/// Add up what is pending on one side of a market.
fn pending(
    orders: &SortedMap<u64, Order>,
    live: &Vec<OrderId>,
    instrument: &InstrumentId,
    outcome: OutcomeId,
    side: Side,
    opening_only: bool,
) -> (r: i64)
    requires
        orders.wf(),
        orders_sound(orders@),
    ensures
        r == pending_in(orders@, live@, (instrument@, outcome.0), side, opening_only),
{
    let mut total: i64 = 0;
    let mut i: usize = 0;
    while i < live.len()
        invariant
            i <= live@.len(),
            orders.wf(),
            orders_sound(orders@),
            total == pending_in(
                orders@,
                live@.take(i as int),
                (instrument@, outcome.0),
                side,
                opening_only,
            ),
        decreases live@.len() - i,
    {
        proof {
            assert(live@.take(i + 1).drop_last() =~= live@.take(i as int));
            assert(live@.take(i + 1).last() == live@[i as int]);
        }
        if let Some(order) = orders.get(&live[i].0) {
            assert(orders@.dom().contains(live@[i as int].0));
            if order.is_open() && !(opening_only && order.reduce_only) && order.side == side
                && order.instrument == *instrument && order.outcome == outcome {
                total = saturating_sum(total, order.remaining().0);
            }
        }
        i += 1;
    }
    assert(live@.take(i as int) =~= live@);
    total
}

/// The outcome a short in another one would be expressed through.
pub open spec fn complement_text(instrument: Instrument, outcome: OutcomeId) -> Seq<char> {
    let other: int = if outcome.0 == 0 {
        1
    } else {
        0
    };
    if other < instrument.count() {
        instrument.outcomes@[other]@ + " (outcome "@ + int_text(other) + ")"@
    } else {
        "the other outcome"@
    }
}

/// What would be held of an outcome if every live sell filled first.
pub open spec fn covered_quantity(held: Qty, pending: int, quantity: Qty) -> int {
    saturated(saturated(held.0 - pending) - quantity.0)
}

/// Why a sell would open a short nobody can cover, if it would.
pub open spec fn naked_short(
    allowed: bool,
    instruments: Map<Seq<char>, Instrument>,
    held: Map<KeyView, Position>,
    orders: Orders,
    live: Seq<OrderId>,
    order: Order,
) -> Option<Seq<char>> {
    let market = market_of(order);
    let left = covered_quantity(
        quantity_in(held, market),
        pending_in(orders, live, market, Side::Sell, true),
        order.quantity,
    );
    if allowed || order.side is Buy || order.reduce_only || !instruments.dom().contains(
        order.instrument@,
    ) || !instruments[order.instrument@].kind.probability() || left >= 0 {
        None
    } else {
        Some(
            "selling "@ + fixed_text(order.quantity.0 as int) + " of "@ + order.instrument@
                + " outcome "@ + int_text(order.outcome.0 as int) + " would leave a short of "@
                + fixed_text(saturated(-left))
                + ", and a prediction-market contract cannot be borrowed; buy "@ + complement_text(
                instruments[order.instrument@],
                order.outcome,
            ) + " instead, which has the same payoff at a cost of one minus the price"@,
        )
    }
}

/// Would this sell open short exposure in an outcome nobody can borrow?
///
/// The test is on the worst case across live orders: opposing orders may
/// fill in any order, so a sell is only safe if it is covered even when
/// every other live sell fills first. Sells that only reduce are exempt.
pub fn naked_short_rejection(
    allowed: bool,
    instruments: &InstrumentSet,
    ledger: &Ledger,
    orders: &SortedMap<u64, Order>,
    live: &Vec<OrderId>,
    order: &Order,
) -> (r: Option<String>)
    requires
        instruments.wf(),
        ledger.wf(),
        orders.wf(),
        orders_sound(orders@),
    ensures
        text_of(r) == naked_short(
            allowed,
            instruments@,
            ledger.portfolio.held(),
            orders@,
            live@,
            *order,
        ),
{
    if allowed || matches!(order.side, Side::Buy) || order.reduce_only {
        return None;
    }
    let instrument = match instruments.get(&order.instrument) {
        Ok(found) => found,
        Err(_) => {
            return None;
        },
    };
    if !instrument.kind.is_probability() {
        return None;
    }
    let held = ledger.quantity(&order.instrument, order.outcome);
    let sells = pending(orders, live, &order.instrument, order.outcome, Side::Sell, true);
    let left = saturating_difference(saturating_difference(held.0, sells), order.quantity.0);
    if left >= 0 {
        return None;
    }
    let short = saturating_difference(0, left);
    let mut m = "selling ".to_owned();
    push_fixed(&mut m, order.quantity.0);
    m.append(" of ");
    m.append(order.instrument.as_str());
    m.append(" outcome ");
    push_u64(&mut m, order.outcome.0 as u64);
    m.append(" would leave a short of ");
    push_fixed(&mut m, short);
    m.append(", and a prediction-market contract cannot be borrowed; buy ");
    m.append(complement(instrument, order.outcome).as_str());
    m.append(" instead, which has the same payoff at a cost of one minus the price");
    Some(m)
}

fn complement(instrument: &Instrument, outcome: OutcomeId) -> (r: String)
    ensures
        r@ == complement_text(*instrument, outcome),
{
    let other: u16 = if outcome.0 == 0 {
        1
    } else {
        0
    };
    if other < instrument.outcome_count() {
        assert(other < instrument.outcomes@.len());
        let mut m = instrument.outcomes[other as usize].clone();
        m.append(" (outcome ");
        push_u64(&mut m, other as u64);
        m.append(")");
        m
    } else {
        "the other outcome".to_owned()
    }
}

/// How many live orders are still open.
pub open spec fn open_count(orders: Orders, live: Seq<OrderId>) -> nat
    decreases live.len(),
{
    if live.len() == 0 {
        0
    } else {
        let rest = open_count(orders, live.drop_last());
        let id = live.last().0;
        if orders.dom().contains(id) && !orders[id].status.terminal() {
            rest + 1
        } else {
            rest
        }
    }
}

fn count_open(orders: &SortedMap<u64, Order>, live: &Vec<OrderId>) -> (n: usize)
    requires
        orders.wf(),
    ensures
        n == open_count(orders@, live@),
{
    let mut n: usize = 0;
    let mut i: usize = 0;
    while i < live.len()
        invariant
            i <= live@.len(),
            n <= i,
            orders.wf(),
            n == open_count(orders@, live@.take(i as int)),
        decreases live@.len() - i,
    {
        proof {
            assert(live@.take(i + 1).drop_last() =~= live@.take(i as int));
            assert(live@.take(i + 1).last() == live@[i as int]);
        }
        if let Some(order) = orders.get(&live[i].0) {
            if order.is_open() {
                n += 1;
            }
        }
        i += 1;
    }
    assert(live@.take(i as int) =~= live@);
    n
}

/// The larger of the two positions live orders could lead to: all buys
/// filling and no sell, or all sells filling and no buy. Opposing orders are
/// not assumed to offset.
pub open spec fn worst_position(current: Qty, buys: int, sells: int) -> int {
    let long = magnitude(saturated(current.0 + buys));
    let short = magnitude(saturated(current.0 - sells));
    if long >= short {
        long
    } else {
        short
    }
}

/// Why an order breaks the configured limits, if it does.
pub open spec fn over_limit(
    limits: RiskLimits,
    held: Map<KeyView, Position>,
    orders: Orders,
    live: Seq<OrderId>,
    order: Order,
) -> Option<Seq<char>> {
    let market = market_of(order);
    let pending_buys = pending_in(orders, live, market, Side::Buy, false);
    let pending_sells = pending_in(orders, live, market, Side::Sell, false);
    let worst = worst_position(
        quantity_in(held, market),
        if order.side is Buy {
            saturated(pending_buys + order.quantity.0)
        } else {
            pending_buys
        },
        if order.side is Sell {
            saturated(pending_sells + order.quantity.0)
        } else {
            pending_sells
        },
    );
    match limits.max_order_quantity {
        Some(maximum) if order.quantity.0 > maximum.0 => Some(
            "quantity "@ + fixed_text(order.quantity.0 as int) + " exceeds max_order_quantity "@
                + fixed_text(maximum.0 as int),
        ),
        _ => match limits.max_open_orders {
            Some(maximum) if open_count(orders, live) >= maximum => Some(
                "open order count "@ + int_text(open_count(orders, live) as int)
                    + " reached max_open_orders "@ + int_text(maximum as int),
            ),
            _ => match limits.max_abs_position {
                Some(maximum) if 0 <= maximum.0 < worst => Some(
                    "worst-case absolute position "@ + fixed_text(saturated(worst))
                        + " across live orders exceeds max_abs_position "@ + fixed_text(
                        maximum.0 as int,
                    ),
                ),
                _ => None,
            },
        },
    }
}

/// Does this order break the configured limits?
pub fn risk_rejection(
    limits: &RiskLimits,
    ledger: &Ledger,
    orders: &SortedMap<u64, Order>,
    live: &Vec<OrderId>,
    order: &Order,
) -> (r: Option<String>)
    requires
        ledger.wf(),
        orders.wf(),
        orders_sound(orders@),
    ensures
        text_of(r) == over_limit(*limits, ledger.portfolio.held(), orders@, live@, *order),
{
    if let Some(maximum) = limits.max_order_quantity {
        if order.quantity.0 > maximum.0 {
            let mut m = "quantity ".to_owned();
            push_fixed(&mut m, order.quantity.0);
            m.append(" exceeds max_order_quantity ");
            push_fixed(&mut m, maximum.0);
            return Some(m);
        }
    }
    if let Some(maximum) = limits.max_open_orders {
        let open = count_open(orders, live);
        if open >= maximum {
            let mut m = "open order count ".to_owned();
            push_u64(&mut m, open as u64);
            m.append(" reached max_open_orders ");
            push_u64(&mut m, maximum as u64);
            return Some(m);
        }
    }
    if let Some(maximum) = limits.max_abs_position {
        let current = ledger.quantity(&order.instrument, order.outcome);
        let mut buys: i64 = pending(
            orders,
            live,
            &order.instrument,
            order.outcome,
            Side::Buy,
            false,
        );
        let mut sells: i64 = pending(
            orders,
            live,
            &order.instrument,
            order.outcome,
            Side::Sell,
            false,
        );
        match order.side {
            Side::Buy => {
                buys = saturating_sum(buys, order.quantity.0);
            },
            Side::Sell => {
                sells = saturating_sum(sells, order.quantity.0);
            },
        }
        let long: i128 = size_of_position(saturating_sum(current.0, buys));
        let short: i128 = size_of_position(saturating_difference(current.0, sells));
        let worst: i128 = if long >= short {
            long
        } else {
            short
        };
        if maximum.0 >= 0 && worst > maximum.0 as i128 {
            let shown: i64 = if worst > i64::MAX as i128 {
                i64::MAX
            } else {
                worst as i64
            };
            let mut m = "worst-case absolute position ".to_owned();
            push_fixed(&mut m, shown);
            m.append(" across live orders exceeds max_abs_position ");
            push_fixed(&mut m, maximum.0);
            return Some(m);
        }
    }
    None
}

fn size_of_position(quantity: i64) -> (r: i128)
    ensures
        r == magnitude(quantity as int),
{
    let wide = quantity as i128;
    if wide < 0 {
        -wide
    } else {
        wide
    }
}

/// Whether a resting order stands in front of everything displayed on its
/// side, so that an incoming market order would reach it first.
pub open spec fn at_front(book: Option<OrderBook>, side: Side, price: Price) -> bool {
    match book {
        None => true,
        Some(b) => match b.best(side) {
            None => true,
            Some((best, _)) => match side {
                Side::Buy => price.0 >= best.0,
                Side::Sell => price.0 <= best.0,
            },
        },
    }
}

/// Is this resting order the first thing an incoming order on the other side
/// would reach?
pub fn rests_at_front(market: &Market, resting: &Order, price: Price) -> (r: bool)
    requires
        market.wf(),
    ensures
        r == at_front(market.book_in(market_of(*resting)), resting.side, price),
{
    let key = key_for(&resting.instrument, resting.outcome);
    match market.book(&key) {
        None => true,
        Some(book) => match resting.side {
            Side::Buy => match book.best_bid() {
                None => true,
                Some((bid, _)) => price.0 >= bid.0,
            },
            Side::Sell => match book.best_ask() {
                None => true,
                Some((ask, _)) => price.0 <= ask.0,
            },
        },
    }
}

/// Whether an order would trade against one of the account's own.
pub open spec fn meets_own(market: Market, orders: Orders, id: OrderId, order: Order) -> bool {
    &&& orders.dom().contains(id.0)
    &&& market_of(orders[id.0]) == market_of(order)
    &&& orders[id.0].side != order.side
    &&& !orders[id.0].status.terminal()
    &&& match orders[id.0].cap() {
        None => false,
        Some(price) => match order.cap() {
            None => at_front(market.book_in(market_of(order)), orders[id.0].side, price),
            Some(limit) => match order.side {
                Side::Buy => price.0 <= limit.0,
                Side::Sell => price.0 >= limit.0,
            },
        },
    }
}

/// Would this order trade against the account's own resting book? The first
/// resting order it would meet, if there is one.
pub fn would_self_trade(
    market: &Market,
    orders: &SortedMap<u64, Order>,
    resting: &Vec<OrderId>,
    order: &Order,
) -> (r: Option<OrderId>)
    requires
        market.wf(),
        orders.wf(),
    ensures
        match r {
            Some(id) => exists|i: int|
                0 <= i < resting@.len() && (#[trigger] resting@[i]) == id && meets_own(
                    *market,
                    orders@,
                    id,
                    *order,
                ) && forall|j: int|
                    0 <= j < i ==> !meets_own(*market, orders@, #[trigger] resting@[j], *order),
            None => forall|i: int|
                0 <= i < resting@.len() ==> !meets_own(
                    *market,
                    orders@,
                    #[trigger] resting@[i],
                    *order,
                ),
        },
{
    let mut i: usize = 0;
    while i < resting.len()
        invariant
            i <= resting@.len(),
            market.wf(),
            orders.wf(),
            forall|j: int|
                0 <= j < i ==> !meets_own(*market, orders@, #[trigger] resting@[j], *order),
        decreases resting@.len() - i,
    {
        let id = resting[i];
        if let Some(other) = orders.get(&id.0) {
            if other.instrument == order.instrument && other.outcome == order.outcome
                && opposed(other.side, order.side) && other.is_open() {
                if let Some(price) = other.limit_price() {
                    let meets = match order.limit_price() {
                        None => rests_at_front(market, other, price),
                        Some(limit) => match order.side {
                            Side::Buy => price.0 <= limit.0,
                            Side::Sell => price.0 >= limit.0,
                        },
                    };
                    if meets {
                        assert(resting@[i as int] == id);
                        return Some(id);
                    }
                }
            }
        }
        i += 1;
    }
    None
}

fn opposed(a: Side, b: Side) -> (r: bool)
    ensures
        r == (a != b),
{
    match (a, b) {
        (Side::Buy, Side::Sell) => true,
        (Side::Sell, Side::Buy) => true,
        _ => false,
    }
}

/// The price on top of the book that an order would trade against at once.
pub open spec fn crossed_price(book: Option<OrderBook>, order: Order) -> Option<Price> {
    match (order.cap(), book) {
        (Some(limit), Some(b)) => match b.best(order.side.opposite()) {
            Some((best, _)) if (match order.side {
                Side::Buy => best.0 <= limit.0,
                Side::Sell => best.0 >= limit.0,
            }) => Some(best),
            _ => None,
        },
        _ => None,
    }
}

/// The top-of-book price this order would immediately trade against: `None`
/// when it would rest.
pub fn crossing_price(market: &Market, order: &Order) -> (r: Option<Price>)
    requires
        market.wf(),
    ensures
        r == crossed_price(market.book_in(market_of(*order)), *order),
{
    let limit = match order.limit_price() {
        Some(limit) => limit,
        None => {
            return None;
        },
    };
    let key = key_for(&order.instrument, order.outcome);
    let book = match market.book(&key) {
        Some(book) => book,
        None => {
            return None;
        },
    };
    match order.side {
        Side::Buy => match book.best_ask() {
            Some((ask, _)) => if ask.0 <= limit.0 {
                Some(ask)
            } else {
                None
            },
            None => None,
        },
        Side::Sell => match book.best_bid() {
            Some((bid, _)) => if bid.0 >= limit.0 {
                Some(bid)
            } else {
                None
            },
            None => None,
        },
    }
}

/// A request is refused on its shape exactly where it names no instrument or
/// outcome of the run, asks for a price the instrument does not take, or
/// would rest without a price to rest at.
pub proof fn what_is_refused_on_its_shape(
    instruments: Map<Seq<char>, Instrument>,
    request: OrderRequest,
)
    ensures
        refusal(instruments, request) is None <==> {
            let instrument = instruments[request.instrument@];
            &&& instruments.dom().contains(request.instrument@)
            &&& request.outcome.0 < instrument.outcomes@.len()
            &&& request.kind matches OrderKind::Limit { limit } ==> {
                &&& instrument.kind is PredictionMarket ==> 0 <= limit.0 <= 1_000_000_000
                &&& instrument.tick_size.0 > 0 ==> limit.0 as int % instrument.tick_size.0 as int
                    == 0
            }
            &&& request.kind is Market ==> !request.post_only
        },
{
}

/// An instrument trades up to its expiry and not from that instant on, and
/// not once it is delisted.
pub proof fn an_instrument_trades_until_it_expires(
    instruments: Map<Seq<char>, Instrument>,
    delisted: Delisted,
    instrument: Seq<char>,
    ts: UnixNanos,
)
    ensures
        halted(instruments, delisted, instrument, ts) is Some <==> delisted.dom().contains(
            instrument,
        ) || (instruments.dom().contains(instrument) && (
        instruments[instrument].expiration matches Some(at) && at.0 <= ts.0)),
{
}

/// What is pending is added up over the live orders of one side of one
/// market: each adds what is left of it, up to what can be counted, and an
/// order that is over, on the other side or elsewhere adds nothing.
pub proof fn pending_orders_add_up(
    orders: Orders,
    live: Seq<OrderId>,
    market: KeyView,
    side: Side,
    opening_only: bool,
)
    ensures
        live.len() == 0 ==> pending_in(orders, live, market, side, opening_only) == 0,
        live.len() > 0 ==> {
            let before = pending_in(orders, live.drop_last(), market, side, opening_only);
            let after = pending_in(orders, live, market, side, opening_only);
            let order = orders[live.last().0];
            let counts = orders.dom().contains(live.last().0) && !(order.status is Filled
                || order.status is Cancelled || order.status is Rejected) && order.side == side && (
            order.instrument@, order.outcome.0) == market && !(opening_only && order.reduce_only);
            let sum = before + order.quantity.0 - order.filled.0;
            &&& !counts ==> after == before
            &&& counts && i64::MIN <= sum <= i64::MAX ==> after == sum
            &&& counts && sum > i64::MAX ==> after == i64::MAX
        },
{
}

/// A sale is turned away as a naked short exactly where it would sell more of
/// a prediction market's outcome than is held once every pending sale has
/// filled, and neither the venue lends nor the order only reduces. A purchase
/// never is.
pub proof fn nobody_sells_more_than_is_held(
    allowed: bool,
    instruments: Map<Seq<char>, Instrument>,
    held: Map<KeyView, Position>,
    orders: Orders,
    live: Seq<OrderId>,
    order: Order,
)
    requires
        ({
            let market = (order.instrument@, order.outcome.0);
            let own = quantity_in(held, market).0;
            let pending = pending_in(orders, live, market, Side::Sell, true);
            &&& i64::MIN <= own - pending <= i64::MAX
            &&& i64::MIN <= own - pending - order.quantity.0 <= i64::MAX
        }),
    ensures
        naked_short(allowed, instruments, held, orders, live, order) is Some <==> {
            let market = (order.instrument@, order.outcome.0);
            &&& !allowed
            &&& order.side is Sell
            &&& !order.reduce_only
            &&& instruments.dom().contains(order.instrument@)
            &&& instruments[order.instrument@].kind is PredictionMarket
            &&& pending_in(orders, live, market, Side::Sell, true) + order.quantity.0
                > quantity_in(held, market).0
        },
{
}

/// The worst position counts against an order: whichever part of the pending
/// purchases and sales fills, the position ends no larger either way, and
/// one of the two extremes is that large.
pub proof fn no_fill_ends_beyond_the_worst_position(
    current: Qty,
    buys: int,
    sells: int,
    bought: int,
    sold: int,
)
    requires
        0 <= bought <= buys,
        0 <= sold <= sells,
        current.0 + buys <= i64::MAX,
        current.0 - sells >= i64::MIN,
    ensures
        -worst_position(current, buys, sells) <= current.0 + bought - sold <= worst_position(
            current,
            buys,
            sells,
        ),
        worst_position(current, buys, sells) == current.0 + buys || worst_position(
            current,
            buys,
            sells,
        ) == sells - current.0 || worst_position(current, buys, sells) == -(current.0 + buys)
            || worst_position(current, buys, sells) == current.0 - sells,
{
}

/// An order within the limits is let through, and one beyond any of them is
/// not: it asks for no more than an order may, it is not one more than may be
/// open, and no fill of it and of what is pending leads beyond the largest
/// position.
pub proof fn limits_are_kept(
    limits: RiskLimits,
    held: Map<KeyView, Position>,
    orders: Orders,
    live: Seq<OrderId>,
    order: Order,
)
    requires
        ({
            let market = (order.instrument@, order.outcome.0);
            &&& pending_in(orders, live, market, Side::Buy, false) + order.quantity.0 <= i64::MAX
            &&& pending_in(orders, live, market, Side::Sell, false) + order.quantity.0 <= i64::MAX
            &&& pending_in(orders, live, market, Side::Buy, false) >= 0
            &&& pending_in(orders, live, market, Side::Sell, false) >= 0
            &&& order.quantity.0 >= 0
        }),
    ensures
        over_limit(limits, held, orders, live, order) is None <==> {
            let market = (order.instrument@, order.outcome.0);
            let buys = pending_in(orders, live, market, Side::Buy, false) + (if order.side is Buy {
                order.quantity.0 as int
            } else {
                0
            });
            let sells = pending_in(orders, live, market, Side::Sell, false) + (if order.side is Sell {
                order.quantity.0 as int
            } else {
                0
            });
            &&& limits.max_order_quantity matches Some(most) ==> order.quantity.0 <= most.0
            &&& limits.max_open_orders matches Some(most) ==> open_count(orders, live) < most
            &&& limits.max_abs_position matches Some(most) ==> most.0 < 0 || worst_position(
                quantity_in(held, market),
                buys,
                sells,
            ) <= most.0
        },
{
}

/// Live orders are counted one by one: each that is not over counts once.
pub proof fn open_orders_are_counted(orders: Orders, live: Seq<OrderId>)
    ensures
        live.len() == 0 ==> open_count(orders, live) == 0,
        live.len() > 0 ==> {
            let order = orders[live.last().0];
            let counts = orders.dom().contains(live.last().0) && !(order.status is Filled
                || order.status is Cancelled || order.status is Rejected);
            open_count(orders, live) - open_count(orders, live.drop_last()) == if counts {
                1int
            } else {
                0int
            }
        },
        open_count(orders, live) <= live.len(),
    decreases live.len(),
{
    if live.len() > 0 {
        open_orders_are_counted(orders, live.drop_last());
    }
}

/// A limit order crosses exactly where it would trade at once: where walking
/// the other side of the book up to its limit takes something, and then what
/// it crosses is the price it would trade at first.
pub proof fn crossing_is_trading_at_once(book: OrderBook, order: Order, limit: Price, qty: int)
    requires
        book.wf(),
        order.cap() == Some(limit),
        0 < qty <= i64::MAX,
    ensures
        ({
            let fills = walk_levels(
                book.ranked(order.side.opposite()),
                order.side,
                qty,
                Some(limit),
            ).0;
            &&& crossed_price(Some(book), order) is Some <==> fills.len() > 0
            &&& fills.len() > 0 ==> crossed_price(Some(book), order) == Some(fills[0].0)
        }),
        crossed_price(None, order) is None,
{
    book.ranked_is_best_first(order.side.opposite());
    let levels = book.ranked(order.side.opposite());
    walking_is_sound(levels, order.side, qty, Some(limit));
}

/// Two orders of the account meet only across the book: in one market, on
/// opposite sides, the other still alive and priced within reach of this
/// one's limit.
pub proof fn own_orders_meet_across_the_book(
    market: Market,
    orders: Orders,
    id: OrderId,
    order: Order,
    limit: Price,
)
    requires
        orders.dom().contains(id.0),
        order.cap() == Some(limit),
    ensures
        meets_own(market, orders, id, order) <==> {
            let own = orders[id.0];
            &&& (own.instrument@, own.outcome.0) == (order.instrument@, order.outcome.0)
            &&& !(own.status is Filled || own.status is Cancelled || own.status is Rejected)
            &&& own.side is Buy <==> order.side is Sell
            &&& own.kind matches OrderKind::Limit { limit: price } && if order.side is Buy {
                price.0 <= limit.0
            } else {
                price.0 >= limit.0
            }
        },
{
}

/// An order at the market meets what stands in front of the book: an order of
/// the account's own that is no worse than the best price shown on its side,
/// or any where nothing is shown.
pub proof fn what_stands_in_front_of_the_book(book: OrderBook, side: Side, price: Price)
    ensures
        at_front(None, side, price),
        book.best(side) is None ==> at_front(Some(book), side, price),
        book.best(side) matches Some((best, _)) ==> {
            &&& side is Buy ==> (at_front(Some(book), side, price) <==> price.0 >= best.0)
            &&& side is Sell ==> (at_front(Some(book), side, price) <==> price.0 <= best.0)
        },
{
}

} // verus!
