//! Orders and where they are: in flight, resting, parked on a trigger, or
//! being worked in slices.

use vstd::prelude::*;
use vstd::string::*;

use crate::book::OrderBook;
use crate::checks::{market_of, orders_sound, Orders};
use crate::error::BacktestError;
use crate::instrument::InstrumentId;
use crate::market::{key_for, Market};
use crate::order::{Order, OrderId, OrderKind, OrderStatus};
use crate::ordered::{entries_map_contains, OrderedKey, SortedMap};
use crate::request::{SetOperationRequest, TwapProgress};
use crate::resting::{RestingEntry, RestingIndex};
use crate::types::{Price, Side, UnixNanos};

verus! {

/// Something on its way to the venue.
#[derive(PartialEq, Eq, Debug)]
pub enum InFlightAction {
    Order(OrderId),
    Operation(SetOperationRequest),
}

/// Every order of the run, and the lists that say where each one is.
pub struct Desk {
    pub orders: SortedMap<u64, Order>,
    /// Orders resting at the venue, in the order they came to rest.
    pub resting: Vec<OrderId>,
    pub resting_index: RestingIndex,
    /// Size displayed ahead of each resting order at its own price.
    pub queue_ahead: SortedMap<u64, i64>,
    /// Orders sent to the venue that may still be open.
    pub live_orders: Vec<OrderId>,
    /// Orders the venue holds on a trigger.
    pub untriggered: Vec<OrderId>,
    /// What is on its way, by when it arrives and then by when it was sent.
    pub inflight: SortedMap<(i64, u64), InFlightAction>,
    pub twaps: Vec<TwapProgress>,
    pub next_order_id: u64,
    pub sequence: u64,
}

/// Where an order is found among resting ones.
pub open spec fn entry_of(order: Order) -> Option<RestingEntry> {
    match order.cap() {
        Some(limit) => Some((order.side, market_of(order), limit.0, order.id.0)),
        None => None,
    }
}

/// Whether an order is in a set of orders and not finished.
pub open spec fn open_in(orders: Orders, id: u64) -> bool {
    orders.dom().contains(id) && !orders[id].status.terminal()
}

/// The index holds exactly the resting orders that have a price, each at
/// the price it has.
pub open spec fn mirrored(orders: Orders, resting: Seq<OrderId>, entries: Set<RestingEntry>) -> bool {
    &&& forall|e: RestingEntry| #[trigger]
        entries.contains(e) ==> resting.contains(OrderId(e.3)) && orders.dom().contains(e.3)
            && entry_of(orders[e.3]) == Some(e)
    &&& forall|id: OrderId| #[trigger]
        resting.contains(id) ==> orders.dom().contains(id.0) && (entry_of(
            orders[id.0],
        ) matches Some(e) ==> entries.contains(e))
}

/// A list without one id.
pub open spec fn without(ids: Seq<OrderId>, id: OrderId) -> Seq<OrderId> {
    ids.filter(other_than(id))
}

/// Every id but one.
pub open spec fn other_than(id: OrderId) -> spec_fn(OrderId) -> bool {
    |other: OrderId| other != id
}

/// The ids of a list that are still open.
pub open spec fn still_open(ids: Seq<OrderId>, orders: Orders) -> Seq<OrderId> {
    ids.filter(open_among(orders))
}

/// The ids of orders that are open.
pub open spec fn open_among(orders: Orders) -> spec_fn(OrderId) -> bool {
    |id: OrderId| open_in(orders, id.0)
}

/// The ids that are open, or not among those looked at.
spec fn spared(orders: Orders, seen: Seq<OrderId>) -> spec_fn(OrderId) -> bool {
    |id: OrderId| open_in(orders, id.0) || !seen.contains(id)
}

/// The ids among a list that have finished.
pub open spec fn finished(ids: Seq<OrderId>, orders: Orders) -> Set<u64> {
    Set::new(|k: u64| ids.contains(OrderId(k)) && !open_in(orders, k))
}

/// Everything but the ids in a list.
pub open spec fn not_among(ids: Seq<OrderId>) -> spec_fn(OrderId) -> bool {
    |id: OrderId| !ids.contains(id)
}

/// The numbers of a list of ids.
pub open spec fn numbers_of(ids: Seq<OrderId>) -> Set<u64> {
    Set::new(|k: u64| ids.contains(OrderId(k)))
}

/// Orders on file for one instrument.
pub open spec fn on_instrument(orders: Orders, instrument: Seq<char>) -> spec_fn(OrderId) -> bool {
    |id: OrderId| orders.dom().contains(id.0) && orders[id.0].instrument@ == instrument
}

/// Orders with the open ones of a list called off.
pub open spec fn called_off(orders: Orders, ids: Seq<OrderId>, reason: String) -> Orders {
    Map::new(
        |k: u64| orders.dom().contains(k),
        |k: u64|
            if ids.contains(OrderId(k)) && open_in(orders, k) {
                Order {
                    status: OrderStatus::Cancelled,
                    reject_reason: Some(reason),
                    ..orders[k]
                }
            } else {
                orders[k]
            },
    )
}

proof fn grown(list: Seq<OrderId>, i: int)
    requires
        0 <= i < list.len(),
    ensures
        forall|x: OrderId| #[trigger]
            list.take(i + 1).contains(x) <==> list.take(i).contains(x) || x == list[i],
{
    let short = list.take(i);
    let long = list.take(i + 1);
    assert forall|x: OrderId| #[trigger] long.contains(x) <==> short.contains(x) || x == list[i] by {
        if long.contains(x) {
            let k = choose|k: int| 0 <= k < long.len() && long[k] == x;
            if k < i {
                assert(short[k] == x);
            }
        }
        if short.contains(x) {
            let k = choose|k: int| 0 <= k < short.len() && short[k] == x;
            assert(long[k] == x);
        }
        assert(long[i] == list[i]);
    }
}

pub(crate) proof fn filter_contains(s: Seq<OrderId>, pred: spec_fn(OrderId) -> bool)
    ensures
        forall|x: OrderId| #[trigger] s.filter(pred).contains(x) <==> s.contains(x) && pred(x),
    decreases s.len(),
{
    reveal(Seq::filter);
    if s.len() > 0 {
        filter_contains(s.drop_last(), pred);
        let rest = s.drop_last().filter(pred);
        assert forall|x: OrderId| #[trigger] s.filter(pred).contains(x) <==> s.contains(x) && pred(
            x,
        ) by {
            if s.filter(pred).contains(x) {
                let i = choose|i: int| 0 <= i < s.filter(pred).len() && s.filter(pred)[i] == x;
                if i < rest.len() {
                    assert(rest[i] == x);
                    assert(rest.contains(x));
                    let j = choose|j: int| 0 <= j < s.drop_last().len() && s.drop_last()[j] == x;
                    assert(s[j] == x);
                } else {
                    assert(s.last() == x);
                    assert(s[s.len() - 1] == x);
                }
            }
            if s.contains(x) && pred(x) {
                let j = choose|j: int| 0 <= j < s.len() && s[j] == x;
                if j < s.len() - 1 {
                    assert(s.drop_last()[j] == x);
                    assert(rest.contains(x));
                    let i = choose|i: int| 0 <= i < rest.len() && rest[i] == x;
                    assert(s.filter(pred)[i] == x);
                } else {
                    assert(s.filter(pred).last() == x);
                    assert(s.filter(pred)[s.filter(pred).len() - 1] == x);
                }
            }
        }
    }
}

/// Filters that agree on a list give the same result.
proof fn filters_agree(
    s: Seq<OrderId>,
    p: spec_fn(OrderId) -> bool,
    q: spec_fn(OrderId) -> bool,
)
    requires
        forall|i: int| 0 <= i < s.len() ==> p(#[trigger] s[i]) == q(s[i]),
    ensures
        s.filter(p) == s.filter(q),
    decreases s.len(),
{
    reveal(Seq::filter);
    if s.len() > 0 {
        assert forall|i: int| 0 <= i < s.drop_last().len() implies p(#[trigger] s.drop_last()[i])
            == q(s.drop_last()[i]) by {
            assert(s.drop_last()[i] == s[i]);
        }
        filters_agree(s.drop_last(), p, q);
        assert(s.last() == s[s.len() - 1]);
    }
}

/// A list without one id.
fn drop_id(ids: &Vec<OrderId>, id: OrderId) -> (out: Vec<OrderId>)
    ensures
        out@ == without(ids@, id),
{
    let mut out: Vec<OrderId> = Vec::new();
    let mut i: usize = 0;
    proof {
        reveal(Seq::filter);
    }
    assert(out@ =~= without(ids@.take(0), id));
    while i < ids.len()
        invariant
            i <= ids@.len(),
            out@ == without(ids@.take(i as int), id),
        decreases ids@.len() - i,
    {
        proof {
            reveal(Seq::filter);
            assert(ids@.take(i + 1).drop_last() =~= ids@.take(i as int));
            assert(ids@.take(i + 1).last() == ids@[i as int]);
        }
        if ids[i].0 != id.0 {
            out.push(ids[i]);
        }
        i += 1;
    }
    assert(ids@.take(i as int) =~= ids@);
    out
}

/// The ids of a list that are still open.
fn keep_open(ids: &Vec<OrderId>, orders: &SortedMap<u64, Order>) -> (out: Vec<OrderId>)
    requires
        orders.wf(),
    ensures
        out@ == still_open(ids@, orders@),
{
    let mut out: Vec<OrderId> = Vec::new();
    let mut i: usize = 0;
    proof {
        reveal(Seq::filter);
    }
    assert(out@ =~= still_open(ids@.take(0), orders@));
    while i < ids.len()
        invariant
            i <= ids@.len(),
            orders.wf(),
            out@ == still_open(ids@.take(i as int), orders@),
        decreases ids@.len() - i,
    {
        proof {
            reveal(Seq::filter);
            assert(ids@.take(i + 1).drop_last() =~= ids@.take(i as int));
            assert(ids@.take(i + 1).last() == ids@[i as int]);
        }
        if is_open(orders, ids[i]) {
            out.push(ids[i]);
        }
        i += 1;
    }
    assert(ids@.take(i as int) =~= ids@);
    out
}

/// Whether an order is there and not finished.
pub fn is_open(orders: &SortedMap<u64, Order>, id: OrderId) -> (r: bool)
    requires
        orders.wf(),
    ensures
        r == open_in(orders@, id.0),
{
    match orders.get(&id.0) {
        Some(order) => order.is_open(),
        None => false,
    }
}

/// Whether a list holds an id.
pub fn holds_id(ids: &Vec<OrderId>, id: OrderId) -> (r: bool)
    ensures
        r == ids@.contains(id),
{
    let mut i: usize = 0;
    while i < ids.len()
        invariant
            i <= ids@.len(),
            forall|j: int| 0 <= j < i ==> #[trigger] ids@[j] != id,
        decreases ids@.len() - i,
    {
        if ids[i].0 == id.0 {
            assert(ids@[i as int] == id);
            return true;
        }
        i += 1;
    }
    false
}

/// How much size is displayed at an order's own price.
pub open spec fn displayed_at(book: Option<OrderBook>, side: Side, price: Price) -> i64 {
    match book {
        Some(b) => if b.side(side).dom().contains(price.0) {
            b.side(side)[price.0].0
        } else {
            0
        },
        None => 0,
    }
}

/// The queue with an order's place in it, where it takes one.
pub open spec fn queued(
    queue: Map<u64, i64>,
    order: Order,
    book: Option<OrderBook>,
    tracks: bool,
) -> Map<u64, i64> {
    match order.cap() {
        Some(limit) if tracks && !queue.dom().contains(order.id.0) => queue.insert(
            order.id.0,
            displayed_at(book, order.side, limit),
        ),
        _ => queue,
    }
}

/// How many of the first actions in flight have arrived.
pub open spec fn arrived(keys: Seq<((i64, u64), InFlightAction)>, ts: int) -> nat
    decreases keys.len(),
{
    if keys.len() == 0 || keys[0].0.0 > ts {
        0
    } else {
        1 + arrived(keys.drop_first(), ts)
    }
}

impl Desk {
    pub open spec fn wf(&self) -> bool {
        &&& self.orders.wf()
        &&& self.resting_index.wf()
        &&& self.queue_ahead.wf()
        &&& self.inflight.wf()
        &&& orders_sound(self.orders@)
        &&& forall|k: u64| #[trigger]
            self.orders@.dom().contains(k) ==> k <= self.next_order_id
        &&& mirrored(self.orders@, self.resting@, self.resting_index.entries())
        &&& forall|k: (i64, u64)| #[trigger]
            self.inflight@.dom().contains(k) ==> k.1 <= self.sequence
        &&& forall|i: int| 0 <= i < self.twaps@.len() ==> (#[trigger] self.twaps@[i]).wf()
    }

    pub fn new() -> (d: Self)
        ensures
            d.wf(),
            d.orders@ == Orders::empty(),
            d.resting@ == Seq::<OrderId>::empty(),
            d.live_orders@ == Seq::<OrderId>::empty(),
            d.untriggered@ == Seq::<OrderId>::empty(),
            d.twaps@ == Seq::<TwapProgress>::empty(),
            d.inflight@ == Map::<(i64, u64), InFlightAction>::empty(),
            d.queue_ahead@ == Map::<u64, i64>::empty(),
            d.next_order_id == 0,
            d.sequence == 0,
    {
        Desk {
            orders: SortedMap::new(),
            resting: Vec::new(),
            resting_index: RestingIndex::new(),
            queue_ahead: SortedMap::new(),
            live_orders: Vec::new(),
            untriggered: Vec::new(),
            inflight: SortedMap::new(),
            twaps: Vec::new(),
            next_order_id: 0,
            sequence: 0,
        }
    }

    /// A copy of an order.
    pub fn order(&self, id: OrderId) -> (r: Option<Order>)
        requires
            self.wf(),
        ensures
            r == (if self.orders@.dom().contains(id.0) {
                Some(self.orders@[id.0])
            } else {
                None
            }),
    {
        match self.orders.get(&id.0) {
            Some(order) => Some(order.clone()),
            None => None,
        }
    }

    /// The next order id, if there is one left.
    pub fn issue(&mut self) -> (r: Result<OrderId, BacktestError>)
        requires
            old(self).wf(),
        ensures
            final(self).wf(),
            match r {
                Ok(id) => {
                    &&& old(self).next_order_id < u64::MAX
                    &&& id.0 == old(self).next_order_id + 1
                    &&& *final(self) == (Desk { next_order_id: id.0, ..*old(self) })
                    &&& !old(self).orders@.dom().contains(id.0)
                },
                Err(e) => {
                    &&& old(self).next_order_id == u64::MAX
                    &&& *final(self) == *old(self)
                    &&& e == (BacktestError::Overflow { what: "order id" })
                },
            },
    {
        if self.next_order_id == u64::MAX {
            return Err(BacktestError::Overflow { what: "order id" });
        }
        self.next_order_id = self.next_order_id + 1;
        Ok(OrderId(self.next_order_id))
    }

    /// Whether an order can be put on file without losing track of where it
    /// rests: it does not rest, or it rests where it did.
    pub open spec fn can_file(&self, order: Order) -> bool {
        &&& order.id.0 <= self.next_order_id
        &&& order.quantity.0 >= 0
        &&& order.filled.0 >= 0
        &&& self.resting@.contains(order.id) ==> entry_of(order) == entry_of(
            self.orders@[order.id.0],
        )
    }

    /// Put an order on file, in place of what was there.
    pub fn file(&mut self, order: Order)
        requires
            old(self).wf(),
            old(self).can_file(order),
        ensures
            final(self).wf(),
            *final(self) == (Desk { orders: final(self).orders, ..*old(self) }),
            final(self).orders@ == old(self).orders@.insert(order.id.0, order),
    {
        let id: u64 = order.id.0;
        self.orders.insert(id, order);
        proof {
            assert(OrderId(id) == order.id);
            assert forall|e: RestingEntry| #[trigger]
                self.resting_index.entries().contains(e) implies self.resting@.contains(
                OrderId(e.3),
            ) && self.orders@.dom().contains(e.3) && entry_of(self.orders@[e.3]) == Some(e) by {
                assert(old(self).resting_index.entries().contains(e));
            }
            assert forall|other: OrderId| #[trigger]
                self.resting@.contains(other) implies self.orders@.dom().contains(other.0) && (
            entry_of(self.orders@[other.0]) matches Some(e)
                ==> self.resting_index.entries().contains(e)) by {
                assert(old(self).resting@.contains(other));
                if other.0 == id {
                    assert(other == order.id);
                }
            }
        }
    }

    /// Put an order on file in place of what was there, and let it rest at
    /// its new price if it rested at its old one.
    pub fn replace(&mut self, order: Order)
        requires
            old(self).wf(),
            old(self).orders@.dom().contains(order.id.0),
            order.quantity.0 >= 0,
            order.filled.0 >= 0,
        ensures
            final(self).wf(),
            *final(self) == (Desk {
                orders: final(self).orders,
                resting_index: final(self).resting_index,
                ..*old(self)
            }),
            final(self).orders@ == old(self).orders@.insert(order.id.0, order),
    {
        let id = order.id;
        let rests = holds_id(&self.resting, id);
        if rests {
            if let Some(before) = self.order(id) {
                let key = key_for(&before.instrument, before.outcome);
                self.resting_index.remove(&before, key);
            }
            let key = key_for(&order.instrument, order.outcome);
            self.resting_index.insert(&order, key);
        }
        self.orders.insert(id.0, order);
        proof {
            let was = old(self).orders@[id.0];
            assert(was.id == id);
            assert forall|e: RestingEntry| #[trigger]
                self.resting_index.entries().contains(e) implies self.resting@.contains(
                OrderId(e.3),
            ) && self.orders@.dom().contains(e.3) && entry_of(self.orders@[e.3]) == Some(e) by {
                if entry_of(order) == Some(e) && rests {
                } else {
                    assert(old(self).resting_index.entries().contains(e));
                    if e.3 == id.0 {
                        assert(entry_of(was) == Some(e));
                        assert(OrderId(e.3) == id);
                        assert(old(self).resting@.contains(id));
                    }
                }
            }
            assert forall|other: OrderId| #[trigger]
                self.resting@.contains(other) implies self.orders@.dom().contains(other.0) && (
            entry_of(self.orders@[other.0]) matches Some(e)
                ==> self.resting_index.entries().contains(e)) by {
                assert(old(self).resting@.contains(other));
                if other.0 == id.0 {
                    assert(other == id);
                } else {
                    if entry_of(self.orders@[other.0]) is Some {
                        let e = entry_of(self.orders@[other.0])->Some_0;
                        assert(old(self).resting_index.entries().contains(e));
                        assert(old(self).orders@[other.0].id.0 == other.0);
                        assert(e.3 == other.0);
                    }
                }
            }
        }
    }

    /// Send an order to the back of the queue at its price.
    pub fn requeue(&mut self, order: &Order, market: &Market, tracks: bool) -> (joined: bool)
        requires
            old(self).wf(),
            market.wf(),
        ensures
            final(self).wf(),
            *final(self) == (Desk { queue_ahead: final(self).queue_ahead, ..*old(self) }),
            final(self).queue_ahead@ == queued(
                old(self).queue_ahead@.remove(order.id.0),
                *order,
                market.book_in(market_of(*order)),
                tracks,
            ),
            joined == (tracks && order.cap() is Some),
    {
        self.queue_ahead.remove(&order.id.0);
        self.join_queue(order, market, tracks)
    }

    /// Record how much size is already displayed at an order's price.
    ///
    /// The order joins the back of that queue. An aggregated feed cannot say
    /// where in a level an order sits, so the pessimistic reading is the
    /// only one it supports.
    pub fn join_queue(&mut self, order: &Order, market: &Market, tracks: bool) -> (joined: bool)
        requires
            old(self).wf(),
            market.wf(),
        ensures
            final(self).wf(),
            *final(self) == (Desk { queue_ahead: final(self).queue_ahead, ..*old(self) }),
            final(self).queue_ahead@ == queued(
                old(self).queue_ahead@,
                *order,
                market.book_in(market_of(*order)),
                tracks,
            ),
            joined == (tracks && order.cap() is Some && !old(self).queue_ahead@.dom().contains(
                order.id.0,
            )),
    {
        if !tracks || self.queue_ahead.contains_key(&order.id.0) {
            return false;
        }
        let limit = match order.limit_price() {
            Some(limit) => limit,
            None => {
                return false;
            },
        };
        let key = key_for(&order.instrument, order.outcome);
        let ahead: i64 = match market.book(&key) {
            Some(book) => match book.quantity_at(order.side, limit) {
                Some(size) => size.0,
                None => 0,
            },
            None => 0,
        };
        self.queue_ahead.insert(order.id.0, ahead);
        true
    }

    /// Let an order rest, at the back of the queue at its price.
    pub fn add_resting(&mut self, id: OrderId, market: &Market, tracks: bool) -> (joined: bool)
        requires
            old(self).wf(),
            market.wf(),
            old(self).orders@.dom().contains(id.0),
        ensures
            final(self).wf(),
            ({
                let order = old(self).orders@[id.0];
                let rested = old(self).resting@.contains(id);
                &&& *final(self) == (Desk {
                    resting: final(self).resting,
                    resting_index: final(self).resting_index,
                    queue_ahead: final(self).queue_ahead,
                    ..*old(self)
                })
                &&& final(self).resting@ == (if rested {
                    old(self).resting@
                } else {
                    old(self).resting@.push(id)
                })
                &&& final(self).queue_ahead@ == (if rested {
                    old(self).queue_ahead@
                } else {
                    queued(
                        old(self).queue_ahead@,
                        order,
                        market.book_in(market_of(order)),
                        tracks,
                    )
                })
                &&& joined == (!rested && tracks && order.cap() is Some && !old(
                    self,
                ).queue_ahead@.dom().contains(id.0))
            }),
    {
        if holds_id(&self.resting, id) {
            return false;
        }
        let order = match self.order(id) {
            Some(order) => order,
            None => {
                return false;
            },
        };
        let joined = self.join_queue(&order, market, tracks);
        let key = key_for(&order.instrument, order.outcome);
        self.resting_index.insert(&order, key);
        self.resting.push(id);
        proof {
            let before = old(self).resting@;
            let after = self.resting@;
            assert forall|x: OrderId| #[trigger] after.contains(x) <==> before.contains(x) || x == id by {
                if before.contains(x) {
                    let i = choose|i: int| 0 <= i < before.len() && before[i] == x;
                    assert(after[i] == x);
                }
                if x == id {
                    assert(after[before.len() as int] == id);
                }
            }
            assert forall|e: RestingEntry| #[trigger]
                self.resting_index.entries().contains(e) implies after.contains(OrderId(e.3))
                && self.orders@.dom().contains(e.3) && entry_of(self.orders@[e.3]) == Some(e) by {
                if !old(self).resting_index.entries().contains(e) {
                    assert(entry_of(order) == Some(e));
                }
            }
        }
        joined
    }

    /// Take an order off the resting lists.
    pub fn remove_resting(&mut self, id: OrderId)
        requires
            old(self).wf(),
        ensures
            final(self).wf(),
            *final(self) == (Desk {
                resting: final(self).resting,
                resting_index: final(self).resting_index,
                queue_ahead: final(self).queue_ahead,
                ..*old(self)
            }),
            final(self).resting@ == without(old(self).resting@, id),
            final(self).queue_ahead@ == old(self).queue_ahead@.remove(id.0),
    {
        if let Some(order) = self.order(id) {
            let key = key_for(&order.instrument, order.outcome);
            self.resting_index.remove(&order, key);
        }
        self.resting = drop_id(&self.resting, id);
        self.queue_ahead.remove(&id.0);
        proof {
            let before = old(self).resting@;
            let after = self.resting@;
            filter_contains(before, other_than(id));
            assert forall|e: RestingEntry| #[trigger]
                self.resting_index.entries().contains(e) implies after.contains(OrderId(e.3))
                && self.orders@.dom().contains(e.3) && entry_of(self.orders@[e.3]) == Some(e) by {
                assert(old(self).resting_index.entries().contains(e));
                if e.3 == id.0 {
                    assert(before.contains(OrderId(e.3)));
                    assert(entry_of(self.orders@[id.0]) == Some(e));
                }
                assert(OrderId(e.3) != id);
            }
            assert forall|x: OrderId| #[trigger]
                after.contains(x) implies self.orders@.dom().contains(x.0) && (entry_of(
                self.orders@[x.0],
            ) matches Some(e) ==> self.resting_index.entries().contains(e)) by {
                assert(before.contains(x) && x != id);
                assert(x.0 != id.0) by {
                    if x.0 == id.0 {
                        assert(x == id);
                    }
                }
            }
        }
    }

    /// Take every finished order off the resting lists.
    pub fn prune_resting(&mut self)
        requires
            old(self).wf(),
        ensures
            final(self).wf(),
            *final(self) == (Desk {
                resting: final(self).resting,
                resting_index: final(self).resting_index,
                queue_ahead: final(self).queue_ahead,
                ..*old(self)
            }),
            final(self).resting@ == still_open(old(self).resting@, old(self).orders@),
            final(self).queue_ahead@ == old(self).queue_ahead@.remove_keys(
                finished(old(self).resting@, old(self).orders@),
            ),
    {
        let ghost first = self.resting@;
        let ghost orders = self.orders@;
        let listed = copy_ids(&self.resting);
        let mut i: usize = 0;
        proof {
            keeps_all(first);
            filters_agree(first, |id: OrderId| true, spared(orders, first.take(0)));
            assert(self.queue_ahead@ =~= self.queue_ahead@.remove_keys(
                finished(first.take(0), orders),
            ));
        }
        while i < listed.len()
            invariant
                i <= listed@.len(),
                listed@ == first,
                first == old(self).resting@,
                orders == old(self).orders@,
                self.wf(),
                *self == (Desk {
                    resting: self.resting,
                    resting_index: self.resting_index,
                    queue_ahead: self.queue_ahead,
                    ..*old(self)
                }),
                self.resting@ == first.filter(spared(orders, first.take(i as int))),
                self.queue_ahead@ == old(self).queue_ahead@.remove_keys(
                    finished(first.take(i as int), orders),
                ),
            decreases listed@.len() - i,
        {
            let id = listed[i];
            let ghost short = first.take(i as int);
            let ghost long = first.take(i + 1);
            proof {
                assert(long =~= short.push(id));
                assert forall|x: OrderId| #[trigger] long.contains(x) <==> short.contains(x) || x
                    == id by {
                    if long.contains(x) {
                        let k = choose|k: int| 0 <= k < long.len() && long[k] == x;
                        if k < i {
                            assert(short[k] == x);
                        }
                    }
                    if short.contains(x) {
                        let k = choose|k: int| 0 <= k < short.len() && short[k] == x;
                        assert(long[k] == x);
                    }
                    assert(long[i as int] == id);
                }
            }
            if !is_open(&self.orders, id) {
                let ghost queue = self.queue_ahead@;
                self.remove_resting(id);
                proof {
                    filter_twice(first, spared(orders, short), other_than(id));
                    filters_agree(
                        first,
                        both(spared(orders, short), other_than(id)),
                        spared(orders, long),
                    );
                    assert forall|k: u64| #[trigger]
                        finished(long, orders).contains(k) <==> finished(short, orders).contains(k)
                            || k == id.0 by {
                        assert(long.contains(OrderId(k)) <==> short.contains(OrderId(k)) || OrderId(
                            k,
                        ) == id);
                    }
                    assert(self.queue_ahead@ =~= old(self).queue_ahead@.remove_keys(
                        finished(long, orders),
                    ));
                }
            } else {
                proof {
                    filters_agree(first, spared(orders, short), spared(orders, long));
                    assert forall|k: u64| #[trigger]
                        finished(long, orders).contains(k) <==> finished(short, orders).contains(
                            k,
                        ) by {
                        assert(long.contains(OrderId(k)) <==> short.contains(OrderId(k)) || OrderId(
                            k,
                        ) == id);
                    }
                    assert(finished(long, orders) =~= finished(short, orders));
                }
            }
            i += 1;
        }
        proof {
            assert(first.take(i as int) =~= first);
            assert forall|j: int| 0 <= j < first.len() implies spared(orders, first)(
                #[trigger] first[j],
            ) == open_among(orders)(first[j]) by {
                assert(first.contains(first[j]));
            }
            filters_agree(first, spared(orders, first), open_among(orders));
        }
    }

    /// Finish an order that is still open, and take it off the lists.
    pub fn close(&mut self, id: OrderId, status: OrderStatus)
        requires
            old(self).wf(),
        ensures
            final(self).wf(),
            *final(self) == (Desk {
                orders: final(self).orders,
                resting: final(self).resting,
                resting_index: final(self).resting_index,
                queue_ahead: final(self).queue_ahead,
                ..*old(self)
            }),
            final(self).orders@ == (if open_in(old(self).orders@, id.0) {
                old(self).orders@.insert(
                    id.0,
                    (Order { status, ..old(self).orders@[id.0] }),
                )
            } else {
                old(self).orders@
            }),
            final(self).resting@ == without(old(self).resting@, id),
            final(self).queue_ahead@ == old(self).queue_ahead@.remove(id.0),
    {
        if let Some(order) = self.order(id) {
            if order.is_open() {
                self.file(Order { status, ..order });
            }
        }
        self.remove_resting(id);
    }

    /// Finish an order for a stated reason.
    pub fn refuse(&mut self, id: OrderId, status: OrderStatus, reason: String)
        requires
            old(self).wf(),
            old(self).orders@.dom().contains(id.0),
        ensures
            final(self).wf(),
            *final(self) == (Desk { orders: final(self).orders, ..*old(self) }),
            final(self).orders@ == old(self).orders@.insert(
                id.0,
                (Order { status, reject_reason: Some(reason), ..old(self).orders@[id.0] }),
            ),
    {
        if let Some(order) = self.order(id) {
            self.file(Order { status, reject_reason: Some(reason), ..order });
        }
    }

    /// The resting orders of one instrument, in the order they rest.
    pub fn resting_in(&self, instrument: &InstrumentId) -> (out: Vec<OrderId>)
        requires
            self.wf(),
        ensures
            out@ == self.resting@.filter(on_instrument(self.orders@, instrument@)),
    {
        let ghost pred = on_instrument(self.orders@, instrument@);
        let mut out: Vec<OrderId> = Vec::new();
        let mut i: usize = 0;
        assert(self.resting@.take(0) =~= Seq::<OrderId>::empty());
        reveal(Seq::filter);
        while i < self.resting.len()
            invariant
                i <= self.resting@.len(),
                self.wf(),
                pred == on_instrument(self.orders@, instrument@),
                out@ == self.resting@.take(i as int).filter(pred),
            decreases self.resting@.len() - i,
        {
            let id = self.resting[i];
            proof {
                reveal(Seq::filter);
                assert(self.resting@.take(i + 1).drop_last() =~= self.resting@.take(i as int));
            }
            if let Some(order) = self.orders.get(&id.0) {
                if order.instrument == *instrument {
                    out.push(id);
                }
            }
            i += 1;
        }
        assert(self.resting@.take(i as int) =~= self.resting@);
        out
    }

    /// Take every order of a list off the resting list.
    pub fn drop_all(&mut self, ids: &Vec<OrderId>)
        requires
            old(self).wf(),
        ensures
            final(self).wf(),
            *final(self) == (Desk {
                resting: final(self).resting,
                resting_index: final(self).resting_index,
                queue_ahead: final(self).queue_ahead,
                ..*old(self)
            }),
            final(self).resting@ == old(self).resting@.filter(not_among(ids@)),
            final(self).queue_ahead@ == old(self).queue_ahead@.remove_keys(numbers_of(ids@)),
    {
        let ghost first = self.resting@;
        let mut i: usize = 0;
        proof {
            keeps_all(first);
            filters_agree(first, |id: OrderId| true, not_among(ids@.take(0)));
            assert(self.queue_ahead@ =~= self.queue_ahead@.remove_keys(numbers_of(ids@.take(0))));
        }
        while i < ids.len()
            invariant
                i <= ids@.len(),
                first == old(self).resting@,
                self.wf(),
                *self == (Desk {
                    resting: self.resting,
                    resting_index: self.resting_index,
                    queue_ahead: self.queue_ahead,
                    ..*old(self)
                }),
                self.resting@ == first.filter(not_among(ids@.take(i as int))),
                self.queue_ahead@ == old(self).queue_ahead@.remove_keys(
                    numbers_of(ids@.take(i as int)),
                ),
            decreases ids@.len() - i,
        {
            let id = ids[i];
            let ghost short = ids@.take(i as int);
            let ghost long = ids@.take(i + 1);
            self.remove_resting(id);
            proof {
                grown(ids@, i as int);
                filter_twice(first, not_among(short), other_than(id));
                filters_agree(first, both(not_among(short), other_than(id)), not_among(long));
                assert forall|k: u64| #[trigger] numbers_of(long).contains(k) <==> numbers_of(
                    short,
                ).contains(k) || k == id.0 by {
                    assert(long.contains(OrderId(k)) <==> short.contains(OrderId(k)) || OrderId(k)
                        == id);
                }
                assert(self.queue_ahead@ =~= old(self).queue_ahead@.remove_keys(numbers_of(long)));
            }
            i += 1;
        }
        assert(ids@.take(i as int) =~= ids@);
    }

    /// Call off every order of a list, for one reason.
    pub fn call_off(&mut self, ids: &Vec<OrderId>, reason: &String)
        requires
            old(self).wf(),
        ensures
            final(self).wf(),
            *final(self) == (Desk {
                orders: final(self).orders,
                resting: final(self).resting,
                resting_index: final(self).resting_index,
                queue_ahead: final(self).queue_ahead,
                ..*old(self)
            }),
            final(self).orders@ == called_off(old(self).orders@, ids@, *reason),
            final(self).resting@ == old(self).resting@.filter(not_among(ids@)),
            final(self).queue_ahead@ == old(self).queue_ahead@.remove_keys(numbers_of(ids@)),
    {
        let ghost first = self.orders@;
        let mut i: usize = 0;
        assert(self.orders@ =~= called_off(first, ids@.take(0), *reason));
        while i < ids.len()
            invariant
                i <= ids@.len(),
                first == old(self).orders@,
                self.wf(),
                *self == (Desk { orders: self.orders, ..*old(self) }),
                self.orders@ == called_off(first, ids@.take(i as int), *reason),
            decreases ids@.len() - i,
        {
            let id = ids[i];
            let ghost short = ids@.take(i as int);
            let ghost long = ids@.take(i + 1);
            let open = is_open(&self.orders, id);
            if open {
                self.refuse(id, OrderStatus::Cancelled, reason.clone());
            }
            proof {
                grown(ids@, i as int);
                assert forall|k: u64| #[trigger] first.dom().contains(k) implies self.orders@[k]
                    == called_off(first, long, *reason)[k] by {
                    assert(long.contains(OrderId(k)) <==> short.contains(OrderId(k)) || OrderId(k)
                        == id);
                }
                assert(self.orders@ =~= called_off(first, long, *reason));
            }
            i += 1;
        }
        assert(ids@.take(i as int) =~= ids@);
        self.drop_all(ids);
    }

    /// Forget live orders that have finished.
    pub fn purge_live(&mut self)
        requires
            old(self).wf(),
        ensures
            final(self).wf(),
            *final(self) == (Desk { live_orders: final(self).live_orders, ..*old(self) }),
            final(self).live_orders@ == still_open(old(self).live_orders@, old(self).orders@),
    {
        self.live_orders = keep_open(&self.live_orders, &self.orders);
    }

    /// Send something to the venue, to arrive at `at`.
    pub fn send_later(&mut self, at: i64, action: InFlightAction) -> (r: Result<(), BacktestError>)
        requires
            old(self).wf(),
        ensures
            final(self).wf(),
            match r {
                Ok(_) => {
                    &&& old(self).sequence < u64::MAX
                    &&& *final(self) == (Desk {
                        inflight: final(self).inflight,
                        sequence: (old(self).sequence + 1) as u64,
                        ..*old(self)
                    })
                    &&& !old(self).inflight@.dom().contains((at, final(self).sequence))
                    &&& final(self).inflight@ == old(self).inflight@.insert(
                        (at, final(self).sequence),
                        action,
                    )
                },
                Err(e) => {
                    &&& old(self).sequence == u64::MAX
                    &&& *final(self) == *old(self)
                    &&& e == (BacktestError::Overflow { what: "send sequence" })
                },
            },
    {
        if self.sequence == u64::MAX {
            return Err(BacktestError::Overflow { what: "send sequence" });
        }
        self.sequence = self.sequence + 1;
        self.inflight.insert((at, self.sequence), action);
        Ok(())
    }

    /// Everything that has arrived by `ts`, in the order it arrives.
    pub fn arrivals(&mut self, ts: UnixNanos) -> (out: Vec<InFlightAction>)
        requires
            old(self).wf(),
        ensures
            final(self).wf(),
            *final(self) == (Desk { inflight: final(self).inflight, ..*old(self) }),
            ({
                let sent = old(self).inflight.seq();
                let n = arrived(sent, ts.0 as int);
                &&& n <= sent.len()
                &&& out@.len() == n
                &&& forall|i: int| 0 <= i < n ==> #[trigger] out@[i] == sent[i].1
                &&& final(self).inflight.seq() == sent.skip(n as int)
                &&& forall|k: (i64, u64)| #[trigger]
                    final(self).inflight@.dom().contains(k) ==> k.0 > ts.0 && old(
                        self,
                    ).inflight@.dom().contains(k)
            }),
    {
        let mut out: Vec<InFlightAction> = Vec::new();
        let ghost sent = self.inflight.seq();
        assert(sent.skip(0) =~= sent);
        while self.inflight.len() > 0 && self.inflight.key_at(0).0 <= ts.0
            invariant
                self.wf(),
                *self == (Desk { inflight: self.inflight, ..*old(self) }),
                sent == old(self).inflight.seq(),
                out@.len() <= sent.len(),
                self.inflight.seq() == sent.skip(out@.len() as int),
                forall|i: int| 0 <= i < out@.len() ==> #[trigger] out@[i] == sent[i].1,
                arrived(sent, ts.0 as int) == out@.len() + arrived(
                    sent.skip(out@.len() as int),
                    ts.0 as int,
                ),
                forall|k: (i64, u64)| #[trigger]
                    self.inflight@.dom().contains(k) ==> old(self).inflight@.dom().contains(k),
            decreases self.inflight.seq().len(),
        {
            let ghost n = out@.len() as int;
            proof {
                assert(sent.skip(n)[0] == sent[n]);
                assert(sent.skip(n).drop_first() =~= sent.skip(n + 1));
            }
            let (_, action) = self.inflight.remove_at(0);
            assert(self.inflight.seq() =~= sent.skip(n + 1));
            out.push(action);
        }
        proof {
            entries_map_contains(self.inflight.seq());
            assert forall|k: (i64, u64)| #[trigger]
                self.inflight@.dom().contains(k) implies k.0 > ts.0 by {
                let rest = self.inflight.seq();
                let i = choose|i: int| 0 <= i < rest.len() && (#[trigger] rest[i]).0@ == k;
                if i > 0 {
                    assert(<(i64, u64) as OrderedKey>::before(rest[0].0@, rest[i].0@));
                }
            }
        }
        out
    }
}

fn copy_ids(ids: &Vec<OrderId>) -> (out: Vec<OrderId>)
    ensures
        out@ == ids@,
{
    let out = ids.clone();
    assert(out@ =~= ids@);
    out
}

proof fn keeps_all(s: Seq<OrderId>)
    ensures
        s.filter(|id: OrderId| true) == s,
    decreases s.len(),
{
    reveal(Seq::filter);
    if s.len() > 0 {
        keeps_all(s.drop_last());
        assert(s.filter(|id: OrderId| true) =~= s);
    }
}

spec fn both(p: spec_fn(OrderId) -> bool, q: spec_fn(OrderId) -> bool) -> spec_fn(OrderId) -> bool {
    |x: OrderId| p(x) && q(x)
}

proof fn filter_twice(
    s: Seq<OrderId>,
    p: spec_fn(OrderId) -> bool,
    q: spec_fn(OrderId) -> bool,
)
    ensures
        s.filter(p).filter(q) == s.filter(both(p, q)),
    decreases s.len(),
{
    reveal(Seq::filter);
    if s.len() > 0 {
        filter_twice(s.drop_last(), p, q);
        let rest = s.drop_last().filter(p);
        if p(s.last()) {
            assert(s.filter(p).drop_last() =~= rest);
        }
    }
}

/// An order joins the queue behind what is displayed at its own price when it
/// gets there, keeps the place it has, and takes none where places are not
/// tracked or it has no price.
pub proof fn an_order_joins_behind_what_is_displayed(
    queue: Map<u64, i64>,
    order: Order,
    book: OrderBook,
    tracks: bool,
    other: u64,
)
    ensures
        ({
            let after = queued(queue, order, Some(book), tracks);
            &&& other != order.id.0 ==> after.dom().contains(other) == queue.dom().contains(other)
                && (queue.dom().contains(other) ==> after[other] == queue[other])
            &&& queue.dom().contains(order.id.0) ==> after == queue
            &&& !tracks || order.kind is Market ==> after == queue
            &&& tracks && !queue.dom().contains(order.id.0) ==> (
            order.kind matches OrderKind::Limit { limit } ==> {
                &&& after.dom().contains(order.id.0)
                &&& book.side(order.side).dom().contains(limit.0) ==> after[order.id.0]
                    == book.side(order.side)[limit.0].0
                &&& !book.side(order.side).dom().contains(limit.0) ==> after[order.id.0] == 0
            })
        }),
{
}

/// Calling orders off cancels those named that are still open, for the reason
/// given, and touches no other.
pub proof fn calling_off_cancels_what_is_open(
    orders: Orders,
    ids: Seq<OrderId>,
    reason: String,
    id: u64,
)
    requires
        orders.dom().contains(id),
    ensures
        ({
            let (before, after) = (orders[id], called_off(orders, ids, reason)[id]);
            let over = before.status is Filled || before.status is Cancelled
                || before.status is Rejected;
            &&& called_off(orders, ids, reason).dom().contains(id)
            &&& !ids.contains(OrderId(id)) || over ==> after == before
            &&& ids.contains(OrderId(id)) && !over ==> {
                &&& after.status is Cancelled
                &&& after.reject_reason == Some(reason)
                &&& after == (Order {
                    status: after.status,
                    reject_reason: after.reject_reason,
                    ..before
                })
            }
        }),
{
}

/// What has arrived by an instant is everything up to the first action that
/// is due later.
pub proof fn what_has_arrived_is_not_due_later(
    keys: Seq<((i64, u64), InFlightAction)>,
    ts: int,
)
    ensures
        arrived(keys, ts) <= keys.len(),
        forall|i: int| 0 <= i < arrived(keys, ts) ==> (#[trigger] keys[i]).0.0 <= ts,
        arrived(keys, ts) < keys.len() ==> keys[arrived(keys, ts) as int].0.0 > ts,
    decreases keys.len(),
{
    if keys.len() > 0 && keys[0].0.0 <= ts {
        let rest = keys.drop_first();
        what_has_arrived_is_not_due_later(rest, ts);
        assert forall|i: int| 0 <= i < arrived(keys, ts) implies (#[trigger] keys[i]).0.0
            <= ts by {
            if i > 0 {
                assert(rest[i - 1] == keys[i]);
            }
        }
        if arrived(keys, ts) < keys.len() {
            assert(rest[arrived(rest, ts) as int] == keys[arrived(keys, ts) as int]);
        }
    }
}

} // verus!
