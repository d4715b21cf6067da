//! Order-by-order books, and exact queue position.
//!
//! A book of price levels says how much size sits at a price. An
//! order-by-order feed says *which orders*, in what order they arrived. That
//! is the whole difference in maker-fill modelling: with levels alone the
//! only honest assumption is that you are last in the queue, while here how
//! much is ahead is a fact.

use vstd::prelude::*;
use vstd::string::*;

use crate::error::{says, BacktestError};
use crate::ordered::{entries_map, entries_map_contains, entries_map_counts, SortedMap};
use crate::text::{int_text, push_u64};
use crate::types::{fits, fixed_text, push_fixed, Price, Qty, Side};

verus! {

/// A venue-assigned order identifier.
pub type VenueOrderId = u64;

/// One message from an order-by-order feed.
#[derive(Clone, Copy, PartialEq, Eq, Debug, Structural)]
pub enum MboMessage {
    /// A new order joins the back of its price level.
    Add { order_id: VenueOrderId, side: Side, price: Price, size: Qty },
    /// An order leaves the book.
    Cancel { order_id: VenueOrderId },
    /// An order trades, in whole or in part.
    Execute { order_id: VenueOrderId, size: Qty },
    /// An order's size is reduced in place.
    ///
    /// Reductions keep queue priority; increases do not, and a venue that
    /// allows them republishes as a cancel and an add.
    Reduce { order_id: VenueOrderId, new_size: Qty },
}

pub open spec fn message_id(message: MboMessage) -> VenueOrderId {
    match message {
        MboMessage::Add { order_id, .. } => order_id,
        MboMessage::Cancel { order_id } => order_id,
        MboMessage::Execute { order_id, .. } => order_id,
        MboMessage::Reduce { order_id, .. } => order_id,
    }
}

pub open spec fn message_kind(message: MboMessage) -> Seq<char> {
    match message {
        MboMessage::Add { .. } => "add"@,
        MboMessage::Cancel { .. } => "cancel"@,
        MboMessage::Execute { .. } => "execute"@,
        MboMessage::Reduce { .. } => "reduce"@,
    }
}

impl MboMessage {
    pub fn order_id(&self) -> (r: VenueOrderId)
        ensures
            r == message_id(*self),
    {
        match self {
            MboMessage::Add { order_id, .. } => *order_id,
            MboMessage::Cancel { order_id } => *order_id,
            MboMessage::Execute { order_id, .. } => *order_id,
            MboMessage::Reduce { order_id, .. } => *order_id,
        }
    }

    pub fn kind(&self) -> (r: &'static str)
        ensures
            r@ == message_kind(*self),
    {
        match self {
            MboMessage::Add { .. } => "add",
            MboMessage::Cancel { .. } => "cancel",
            MboMessage::Execute { .. } => "execute",
            MboMessage::Reduce { .. } => "reduce",
        }
    }
}

/// An order on the book.
#[derive(Clone, Copy, PartialEq, Eq, Debug, Structural)]
pub struct Resting {
    pub side: Side,
    pub price: Price,
    pub size: Qty,
}

/// The orders on a book, by id.
pub type RestingOrders = Map<u64, Resting>;

/// The size of a list of orders together.
pub open spec fn size_sum(orders: RestingOrders, ids: Seq<u64>) -> int
    decreases ids.len(),
{
    if ids.len() == 0 {
        0
    } else {
        size_sum(orders, ids.drop_last()) + orders[ids.last()].size.0
    }
}

/// The queue at a price, front first. A price nobody rests at has none.
pub open spec fn queue_in(levels: Map<i64, Vec<u64>>, price: i64) -> Seq<u64> {
    if levels.dom().contains(price) {
        levels[price]@
    } else {
        Seq::empty()
    }
}

/// Queues that agree with the orders they hold.
pub open spec fn levels_sound(levels: Map<i64, Vec<u64>>, side: Side, orders: RestingOrders) -> bool {
    &&& forall|p: i64| #[trigger]
        levels.dom().contains(p) ==> levels[p]@.len() > 0 && levels[p]@.no_duplicates()
    &&& forall|p: i64, i: int|
        levels.dom().contains(p) && 0 <= i < levels[p]@.len() ==> {
            let id = #[trigger] levels[p]@[i];
            &&& orders.dom().contains(id)
            &&& orders[id].side == side
            &&& orders[id].price.0 == p
        }
    &&& forall|id: u64| #[trigger]
        orders.dom().contains(id) && orders[id].side == side ==> queue_in(
            levels,
            orders[id].price.0,
        ).contains(id)
}

/// Sizes that can be read: everything at a price adds up to a quantity.
pub open spec fn size_fits(orders: RestingOrders, ids: Seq<u64>) -> bool {
    fits(size_sum(orders, ids))
}

/// What rests ahead of an order in its queue.
pub open spec fn ahead_in(orders: RestingOrders, queue: Seq<u64>, id: u64) -> int {
    size_sum(orders, queue.take(queue.index_of(id)))
}

/// A sum is over its list alone.
proof fn sums_agree(a: RestingOrders, b: RestingOrders, ids: Seq<u64>)
    requires
        forall|i: int| 0 <= i < ids.len() ==> a[#[trigger] ids[i]] == b[ids[i]],
    ensures
        size_sum(a, ids) == size_sum(b, ids),
    decreases ids.len(),
{
    if ids.len() > 0 {
        assert forall|i: int| 0 <= i < ids.drop_last().len() implies a[#[trigger] ids.drop_last()[i]]
            == b[ids.drop_last()[i]] by {
            assert(ids.drop_last()[i] == ids[i]);
        }
        assert(a[ids[ids.len() - 1]] == b[ids[ids.len() - 1]]);
        sums_agree(a, b, ids.drop_last());
    }
}

proof fn sum_without(orders: RestingOrders, ids: Seq<u64>, i: int)
    requires
        0 <= i < ids.len(),
    ensures
        size_sum(orders, ids.remove(i)) == size_sum(orders, ids) - orders[ids[i]].size.0,
    decreases ids.len(),
{
    let last = ids.len() - 1;
    if i == last {
        assert(ids.remove(i) =~= ids.drop_last());
    } else {
        assert(ids.remove(i).drop_last() =~= ids.drop_last().remove(i));
        assert(ids.remove(i).last() == ids.last());
        assert(ids.drop_last()[i] == ids[i]);
        sum_without(orders, ids.drop_last(), i);
    }
}

proof fn sum_bounds(orders: RestingOrders, ids: Seq<u64>, n: int)
    requires
        0 <= n <= ids.len(),
        forall|i: int| 0 <= i < ids.len() ==> orders[#[trigger] ids[i]].size.0 > 0,
    ensures
        0 <= size_sum(orders, ids.take(n)) <= size_sum(orders, ids),
        n < ids.len() ==> size_sum(orders, ids.take(n)) + orders[ids[n]].size.0 <= size_sum(
            orders,
            ids,
        ),
        ids.len() > 0 ==> size_sum(orders, ids) > 0,
    decreases ids.len(),
{
    if ids.len() > 0 {
        let head = ids.drop_last();
        assert forall|i: int| 0 <= i < head.len() implies orders[#[trigger] head[i]].size.0 > 0 by {
            assert(head[i] == ids[i]);
        }
        assert(orders[ids[ids.len() - 1]].size.0 > 0);
        if n == ids.len() {
            assert(ids.take(n) =~= ids);
            sum_bounds(orders, head, 0);
            assert(head.take(0) =~= Seq::<u64>::empty());
        } else {
            sum_bounds(orders, head, n);
            assert(head.take(n) =~= ids.take(n));
            if n < head.len() {
                assert(head[n] == ids[n]);
            } else {
                assert(ids.take(n) =~= head);
            }
        }
    } else {
        assert(ids.take(n) =~= ids);
    }
}

/// What is ahead of an order, and the order itself, are part of what rests
/// at its price.
pub proof fn ahead_is_part_of_the_level(orders: RestingOrders, queue: Seq<u64>, id: u64)
    requires
        queue.contains(id),
        forall|i: int| 0 <= i < queue.len() ==> orders[#[trigger] queue[i]].size.0 > 0,
    ensures
        0 <= ahead_in(orders, queue, id),
        ahead_in(orders, queue, id) + orders[id].size.0 <= size_sum(orders, queue),
{
    let i = queue.index_of(id);
    sum_bounds(orders, queue, i);
}

/// Cancelling an order ahead of another brings the other forward by exactly
/// the size that left.
pub proof fn cancelling_ahead_advances(
    orders: RestingOrders,
    queue: Seq<u64>,
    gone: u64,
    id: u64,
)
    requires
        queue.no_duplicates(),
        queue.contains(gone),
        queue.contains(id),
        queue.index_of(gone) < queue.index_of(id),
    ensures
        ahead_in(orders.remove(gone), queue.remove(queue.index_of(gone)), id) == ahead_in(
            orders,
            queue,
            id,
        ) - orders[gone].size.0,
{
    let i = queue.index_of(gone);
    let j = queue.index_of(id);
    let left = queue.remove(i);
    assert(left[j - 1] == id);
    assert(left.no_duplicates());
    assert(left.index_of(id) == j - 1);
    let front = left.take(j - 1);
    assert(front =~= queue.take(j).remove(i));
    assert(queue.take(j)[i] == gone);
    sum_without(orders, queue.take(j), i);
    assert forall|k: int| 0 <= k < front.len() implies orders.remove(gone)[#[trigger] front[k]]
        == orders[front[k]] by {
        assert(front[k] == left[k]);
        if k < i {
            assert(left[k] == queue[k]);
        } else {
            assert(left[k] == queue[k + 1]);
        }
    }
    sums_agree(orders.remove(gone), orders, front);
}

/// Whatever happens behind an order, and whoever joins after it, it keeps
/// what is ahead of it: leaving the back of the queue costs it nothing.
pub proof fn cancelling_behind_changes_nothing(
    orders: RestingOrders,
    queue: Seq<u64>,
    gone: u64,
    id: u64,
)
    requires
        queue.no_duplicates(),
        queue.contains(gone),
        queue.contains(id),
        queue.index_of(id) < queue.index_of(gone),
    ensures
        ahead_in(orders.remove(gone), queue.remove(queue.index_of(gone)), id) == ahead_in(
            orders,
            queue,
            id,
        ),
{
    let i = queue.index_of(gone);
    let j = queue.index_of(id);
    let left = queue.remove(i);
    assert(left[j] == id);
    assert(left.no_duplicates());
    assert(left.index_of(id) == j);
    let front = left.take(j);
    assert(front =~= queue.take(j));
    assert forall|k: int| 0 <= k < front.len() implies orders.remove(gone)[#[trigger] front[k]]
        == orders[front[k]] by {
        assert(front[k] == queue[k]);
    }
    sums_agree(orders.remove(gone), orders, front);
}

/// A newcomer joins behind everyone: what is ahead of the others stays, and
/// all of it is ahead of the newcomer.
pub proof fn newcomers_join_behind(
    orders: RestingOrders,
    queue: Seq<u64>,
    newcomer: u64,
    resting: Resting,
    id: u64,
)
    requires
        !queue.contains(newcomer),
        queue.no_duplicates(),
    ensures
        queue.contains(id) ==> ahead_in(
            orders.insert(newcomer, resting),
            queue.push(newcomer),
            id,
        ) == ahead_in(orders, queue, id),
        ahead_in(orders.insert(newcomer, resting), queue.push(newcomer), newcomer) == size_sum(
            orders,
            queue,
        ),
{
    let longer = queue.push(newcomer);
    let after = orders.insert(newcomer, resting);
    assert(longer[queue.len() as int] == newcomer);
    let at = longer.index_of(newcomer);
    if at < queue.len() {
        assert(queue[at] == newcomer);
    }
    assert(longer.take(queue.len() as int) =~= queue);
    assert forall|k: int| 0 <= k < queue.len() implies after[#[trigger] queue[k]]
        == orders[queue[k]] by {
        assert(queue.contains(queue[k]));
    }
    sums_agree(after, orders, queue);
    if queue.contains(id) {
        let j = queue.index_of(id);
        assert(longer[j] == id);
        let k = longer.index_of(id);
        if k < queue.len() {
            assert(queue[k] == id);
        }
        assert(k == j);
        let front = queue.take(j);
        assert(longer.take(j) =~= front);
        assert forall|m: int| 0 <= m < front.len() implies after[#[trigger] front[m]]
            == orders[front[m]] by {
            assert(front[m] == queue[m]);
        }
        sums_agree(after, orders, front);
    }
}

/// An order that shrinks in place keeps its place: what is ahead of it stays,
/// and what stands behind it comes closer by exactly what it gave up.
pub proof fn shrinking_keeps_the_place(
    orders: RestingOrders,
    queue: Seq<u64>,
    id: u64,
    size: Qty,
    other: u64,
)
    requires
        queue.no_duplicates(),
        queue.contains(id),
        queue.contains(other),
    ensures
        ({
            let after = orders.insert(id, Resting { size, ..orders[id] });
            &&& ahead_in(after, queue, id) == ahead_in(orders, queue, id)
            &&& ahead_in(after, queue, other) == ahead_in(orders, queue, other) - (if queue.index_of(
                id,
            ) < queue.index_of(other) {
                orders[id].size.0 - size.0
            } else {
                0
            })
        }),
{
    let after = orders.insert(id, Resting { size, ..orders[id] });
    let i = queue.index_of(id);
    let j = queue.index_of(other);
    resized_sum(orders, queue, i, size, i);
    resized_sum(orders, queue, i, size, j);
}

/// What resizing one order does to the size of the first `n` of a queue.
proof fn resized_sum(orders: RestingOrders, queue: Seq<u64>, i: int, size: Qty, n: int)
    requires
        queue.no_duplicates(),
        0 <= i < queue.len(),
        0 <= n <= queue.len(),
    ensures
        size_sum(
            orders.insert(queue[i], Resting { size, ..orders[queue[i]] }),
            queue.take(n),
        ) == size_sum(orders, queue.take(n)) + (if i < n {
            size.0 - orders[queue[i]].size.0
        } else {
            0
        }),
    decreases n,
{
    if n > 0 {
        resized_sum(orders, queue, i, size, n - 1);
        assert(queue.take(n).drop_last() =~= queue.take(n - 1));
        assert(queue.take(n).last() == queue[n - 1]);
        assert(queue[n - 1] == queue[i] ==> n - 1 == i);
    }
}

/// An order-by-order book.
///
/// Each price level is a queue of venue order ids, first come first served,
/// which is what makes "how much is ahead of me" answerable exactly rather
/// than by assumption.
pub struct L3Book {
    orders: SortedMap<u64, Resting>,
    bids: SortedMap<i64, Vec<u64>>,
    asks: SortedMap<i64, Vec<u64>>,
}

fn join_level(levels: &mut SortedMap<i64, Vec<u64>>, price: i64, id: u64)
    requires
        old(levels).wf(),
    ensures
        final(levels).wf(),
        final(levels)@.dom() == old(levels)@.dom().insert(price),
        queue_in(final(levels)@, price) == queue_in(old(levels)@, price).push(id),
        forall|p: i64|
            p != price && old(levels)@.dom().contains(p) ==> #[trigger] final(levels)@[p] == old(
                levels,
            )@[p],
{
    match levels.find(&price) {
        Some(i) => {
            let queue = levels.value_mut(i);
            queue.push(id);
            assert(levels@.dom() =~= old(levels)@.dom().insert(price));
        },
        None => {
            let mut queue: Vec<u64> = Vec::new();
            queue.push(id);
            levels.insert(price, queue);
        },
    }
}

fn leave_level(levels: &mut SortedMap<i64, Vec<u64>>, price: i64, id: u64)
    requires
        old(levels).wf(),
        queue_in(old(levels)@, price).contains(id),
        queue_in(old(levels)@, price).no_duplicates(),
    ensures
        final(levels).wf(),
        ({
            let before = queue_in(old(levels)@, price);
            let after = before.remove(before.index_of(id));
            &&& queue_in(final(levels)@, price) == after
            &&& final(levels)@.dom() == (if after.len() == 0 {
                old(levels)@.dom().remove(price)
            } else {
                old(levels)@.dom()
            })
        }),
        forall|p: i64|
            p != price && old(levels)@.dom().contains(p) ==> #[trigger] final(levels)@[p] == old(
                levels,
            )@[p],
{
    let ghost before = queue_in(levels@, price);
    match levels.find(&price) {
        Some(i) => {
            let queue = levels.value_mut(i);
            let mut k: usize = 0;
            let n: usize = queue.len();
            while k < n && queue[k] != id
                invariant
                    k <= n,
                    n == queue@.len(),
                    queue@ == before,
                    forall|m: int| 0 <= m < k ==> #[trigger] before[m] != id,
                decreases n - k,
            {
                k += 1;
            }
            if k < n {
                queue.remove(k);
                assert(k == before.index_of(id));
            }
            let empty = queue.len() == 0;
            assert(levels@.dom() =~= old(levels)@.dom());
            if empty {
                levels.remove_at(i);
                assert(levels@.dom() =~= old(levels)@.dom().remove(price));
                assert(queue_in(levels@, price) =~= before.remove(before.index_of(id)));
            }
        },
        None => {},
    }
}

impl L3Book {
    /// The orders on the book.
    pub closed spec fn resting(&self) -> RestingOrders {
        self.orders@
    }

    /// The queue at a price, front first.
    pub closed spec fn queue(&self, side: Side, price: Price) -> Seq<u64> {
        match side {
            Side::Buy => queue_in(self.bids@, price.0),
            Side::Sell => queue_in(self.asks@, price.0),
        }
    }

    /// Every order stands in one queue, the one of its side and price, and
    /// has a size.
    pub closed spec fn wf(&self) -> bool {
        &&& self.orders.wf()
        &&& self.bids.wf()
        &&& self.asks.wf()
        &&& levels_sound(self.bids@, Side::Buy, self.orders@)
        &&& levels_sound(self.asks@, Side::Sell, self.orders@)
        &&& forall|id: u64| #[trigger]
            self.orders@.dom().contains(id) ==> self.orders@[id].size.0 > 0
    }

    /// What a sound book's queues hold.
    pub proof fn queues_hold_the_orders(&self)
        requires
            self.wf(),
        ensures
            forall|side: Side, price: Price| (#[trigger] self.queue(side, price)).no_duplicates(),
            forall|side: Side, price: Price, i: int|
                #![trigger self.queue(side, price)[i]]
                0 <= i < self.queue(side, price).len() ==> self.resting().dom().contains(
                    self.queue(side, price)[i],
                ) && self.resting()[self.queue(side, price)[i]].side == side
                    && self.resting()[self.queue(side, price)[i]].price == price
                    && self.resting()[self.queue(side, price)[i]].size.0 > 0,
            forall|id: u64| #[trigger]
                self.resting().dom().contains(id) ==> self.resting()[id].size.0 > 0 && self.queue(
                    self.resting()[id].side,
                    self.resting()[id].price,
                ).contains(id),
    {
        assert forall|side: Side, price: Price, i: int|
            #![trigger self.queue(side, price)[i]]
            0 <= i < self.queue(side, price).len() implies self.resting().dom().contains(
            self.queue(side, price)[i],
        ) && self.resting()[self.queue(side, price)[i]].side == side
            && self.resting()[self.queue(side, price)[i]].price == price && self.resting()[self.queue(
            side,
            price,
        )[i]].size.0 > 0 by {
            let id = self.queue(side, price)[i];
            match side {
                Side::Buy => {
                    assert(self.bids@[price.0]@[i] == id);
                },
                Side::Sell => {
                    assert(self.asks@[price.0]@[i] == id);
                },
            }
        }
        assert forall|side: Side, price: Price| (#[trigger] self.queue(
            side,
            price,
        )).no_duplicates() by {
            match side {
                Side::Buy => {
                    if self.bids@.dom().contains(price.0) {
                    }
                },
                Side::Sell => {
                    if self.asks@.dom().contains(price.0) {
                    }
                },
            }
        }
    }

    pub fn new() -> (b: Self)
        ensures
            b.wf(),
            b.resting() == RestingOrders::empty(),
            forall|side: Side, price: Price| (#[trigger] b.queue(side, price)).len() == 0,
    {
        L3Book { orders: SortedMap::new(), bids: SortedMap::new(), asks: SortedMap::new() }
    }

    /// A book with one order more, at the back of its queue.
    pub open spec fn joined(
        &self,
        after: &L3Book,
        order_id: u64,
        side: Side,
        price: Price,
        size: Qty,
    ) -> bool {
        &&& after.resting() == self.resting().insert(order_id, Resting { side, price, size })
        &&& after.queue(side, price) == self.queue(side, price).push(order_id)
        &&& forall|s: Side, p: Price|
            (s, p) != (side, price) ==> #[trigger] after.queue(s, p) == self.queue(s, p)
    }

    /// A book with one order less.
    pub open spec fn left_by(&self, after: &L3Book, order_id: u64) -> bool {
        let gone = self.resting()[order_id];
        let queue = self.queue(gone.side, gone.price);
        &&& after.resting() == self.resting().remove(order_id)
        &&& after.queue(gone.side, gone.price) == queue.remove(queue.index_of(order_id))
        &&& forall|s: Side, p: Price|
            (s, p) != (gone.side, gone.price) ==> #[trigger] after.queue(s, p) == self.queue(s, p)
    }

    /// A book on which one order changed size and nothing moved.
    pub open spec fn resized(&self, after: &L3Book, order_id: u64, size: Qty) -> bool {
        &&& after.resting() == self.resting().insert(
            order_id,
            Resting { size, ..self.resting()[order_id] },
        )
        &&& forall|s: Side, p: Price| #[trigger] after.queue(s, p) == self.queue(s, p)
    }

    /// How much of an order a trade takes.
    pub open spec fn executable(&self, order_id: u64, size: Qty) -> int {
        if !self.resting().dom().contains(order_id) {
            0
        } else if size.0 <= self.resting()[order_id].size.0 {
            size.0 as int
        } else {
            self.resting()[order_id].size.0 as int
        }
    }

    /// A book after a trade against one order.
    pub open spec fn executed(&self, after: &L3Book, order_id: u64, size: Qty) -> bool {
        let left = self.resting()[order_id].size.0 - self.executable(order_id, size);
        if !self.resting().dom().contains(order_id) {
            *after == *self
        } else if left <= 0 {
            self.left_by(after, order_id)
        } else {
            self.resized(after, order_id, Qty(left as i64))
        }
    }

    /// Why an order cannot grow in place.
    pub open spec fn growth_text(&self, order_id: u64, new_size: Qty) -> Seq<char> {
        "order "@ + int_text(order_id as int) + " cannot grow from "@ + fixed_text(
            self.resting()[order_id].size.0 as int,
        ) + " to "@ + fixed_text(new_size.0 as int)
            + " in place; a venue republishes an increase as a cancel and an add, and treating it as a modify would hand it free queue priority"@
    }

    /// Whether a message is one the book will not take.
    pub open spec fn refuses(&self, message: MboMessage) -> bool {
        match message {
            MboMessage::Add { order_id, size, .. } => size.0 <= 0
                || self.resting().dom().contains(order_id),
            MboMessage::Reduce { order_id, new_size } => self.resting().dom().contains(order_id)
                && new_size.0 > self.resting()[order_id].size.0,
            _ => false,
        }
    }

    /// A book after one message. One that is refused, or about an order not
    /// on the book, changes nothing.
    pub open spec fn takes(&self, message: MboMessage, after: &L3Book) -> bool {
        if self.refuses(message) {
            *after == *self
        } else {
            match message {
                MboMessage::Add { order_id, side, price, size } => self.joined(
                    after,
                    order_id,
                    side,
                    price,
                    size,
                ),
                MboMessage::Cancel { order_id } => if self.resting().dom().contains(order_id) {
                    self.left_by(after, order_id)
                } else {
                    *after == *self
                },
                MboMessage::Execute { order_id, size } => self.executed(after, order_id, size),
                MboMessage::Reduce { order_id, new_size } => if !self.resting().dom().contains(
                    order_id,
                ) {
                    *after == *self
                } else if new_size.0 <= 0 {
                    self.left_by(after, order_id)
                } else {
                    self.resized(after, order_id, new_size)
                },
            }
        }
    }

    /// Apply one feed message.
    pub fn apply(&mut self, message: MboMessage) -> (r: Result<(), BacktestError>)
        requires
            old(self).wf(),
            message matches MboMessage::Execute { order_id, size } ==> old(
                self,
            ).resting().dom().contains(order_id) ==> fits(
                old(self).resting()[order_id].size.0 - old(self).executable(order_id, size),
            ),
        ensures
            final(self).wf(),
            old(self).takes(message, final(self)),
            r is Err <==> old(self).refuses(message),
    {
        match message {
            MboMessage::Add { order_id, side, price, size } => self.add(
                order_id,
                side,
                price,
                size,
            ),
            MboMessage::Cancel { order_id } => {
                self.cancel(order_id)?;
                Ok(())
            },
            MboMessage::Execute { order_id, size } => {
                self.execute(order_id, size)?;
                Ok(())
            },
            MboMessage::Reduce { order_id, new_size } => self.reduce(order_id, new_size),
        }
    }

    /// Add an order to the back of its level.
    pub fn add(&mut self, order_id: VenueOrderId, side: Side, price: Price, size: Qty) -> (r: Result<
        (),
        BacktestError,
    >)
        requires
            old(self).wf(),
        ensures
            final(self).wf(),
            match r {
                Ok(_) => {
                    &&& size.0 > 0
                    &&& !old(self).resting().dom().contains(order_id)
                    &&& old(self).joined(final(self), order_id, side, price, size)
                },
                Err(e) => {
                    &&& *final(self) == *old(self)
                    &&& if size.0 <= 0 {
                        says(e, "an order joining the book must have positive size"@)
                    } else {
                        old(self).resting().dom().contains(order_id) && says(
                            e,
                            "venue order "@ + int_text(order_id as int)
                                + " is already on the book"@,
                        )
                    }
                },
            },
    {
        if size.0 <= 0 {
            return Err(
                BacktestError::invalid("an order joining the book must have positive size"),
            );
        }
        if self.orders.contains_key(&order_id) {
            let mut m = "venue order ".to_owned();
            push_u64(&mut m, order_id);
            m.append(" is already on the book");
            return Err(BacktestError::invalid(m.as_str()));
        }
        let ghost start = *self;
        proof {
            start.queues_hold_the_orders();
            if start.queue(side, price).contains(order_id) {
                let k = choose|k: int|
                    0 <= k < start.queue(side, price).len() && start.queue(side, price)[k]
                        == order_id;
                assert(start.resting().dom().contains(start.queue(side, price)[k]));
            }
        }
        self.orders.insert(order_id, Resting { side, price, size });
        match side {
            Side::Buy => {
                join_level(&mut self.bids, price.0, order_id);
            },
            Side::Sell => {
                join_level(&mut self.asks, price.0, order_id);
            },
        }
        proof {
            let was = start.orders@;
            let now = self.orders@;
            match side {
                Side::Buy => {
                    grown_level_is_sound(start.bids@, self.bids@, side, was, now, price.0, order_id);
                    other_side_is_sound(start.asks@, Side::Sell, was, now, order_id);
                },
                Side::Sell => {
                    grown_level_is_sound(start.asks@, self.asks@, side, was, now, price.0, order_id);
                    other_side_is_sound(start.bids@, Side::Buy, was, now, order_id);
                },
            }
        }
        Ok(())
    }

    /// Remove an order. Returns the size that left the book.
    ///
    /// A cancel for an unknown order is *not* an error: feeds routinely
    /// reference orders that predate the snapshot a replay started from, and
    /// treating those as corruption would make every mid-day start fail.
    pub fn cancel(&mut self, order_id: VenueOrderId) -> (r: Result<Qty, BacktestError>)
        requires
            old(self).wf(),
        ensures
            final(self).wf(),
            if old(self).resting().dom().contains(order_id) {
                r == Ok::<Qty, BacktestError>(old(self).resting()[order_id].size) && old(
                    self,
                ).left_by(final(self), order_id)
            } else {
                r == Ok::<Qty, BacktestError>(Qty(0)) && *final(self) == *old(self)
            },
    {
        let ghost start = *self;
        let resting = match self.orders.get(&order_id) {
            Some(resting) => *resting,
            None => {
                return Ok(Qty(0));
            },
        };
        proof {
            start.queues_hold_the_orders();
        }
        self.orders.remove(&order_id);
        match resting.side {
            Side::Buy => {
                leave_level(&mut self.bids, resting.price.0, order_id);
            },
            Side::Sell => {
                leave_level(&mut self.asks, resting.price.0, order_id);
            },
        }
        proof {
            let was = start.orders@;
            let now = self.orders@;
            let p = resting.price.0;
            match resting.side {
                Side::Buy => {
                    shrunk_level_is_sound(start.bids@, self.bids@, Side::Buy, was, now, p, order_id);
                    left_side_is_sound(start.asks@, Side::Sell, was, now, order_id);
                },
                Side::Sell => {
                    shrunk_level_is_sound(
                        start.asks@,
                        self.asks@,
                        Side::Sell,
                        was,
                        now,
                        p,
                        order_id,
                    );
                    left_side_is_sound(start.bids@, Side::Buy, was, now, order_id);
                },
            }
        }
        Ok(resting.size)
    }

    /// Trade against an order. Returns how much actually executed.
    pub fn execute(&mut self, order_id: VenueOrderId, size: Qty) -> (r: Result<Qty, BacktestError>)
        requires
            old(self).wf(),
            old(self).resting().dom().contains(order_id) ==> fits(
                old(self).resting()[order_id].size.0 - old(self).executable(order_id, size),
            ),
        ensures
            final(self).wf(),
            r == Ok::<Qty, BacktestError>(Qty(old(self).executable(order_id, size) as i64)),
            old(self).executed(final(self), order_id, size),
    {
        let resting = match self.orders.get(&order_id) {
            Some(resting) => *resting,
            None => {
                return Ok(Qty(0));
            },
        };
        let taken: i64 = if size.0 <= resting.size.0 {
            size.0
        } else {
            resting.size.0
        };
        let left: i64 = resting.size.0 - taken;
        if left <= 0 {
            self.cancel(order_id)?;
        } else {
            self.resize(order_id, Qty(left));
        }
        Ok(Qty(taken))
    }

    /// Change an order's size without moving it.
    fn resize(&mut self, order_id: VenueOrderId, size: Qty)
        requires
            old(self).wf(),
            old(self).resting().dom().contains(order_id),
            size.0 > 0,
        ensures
            final(self).wf(),
            old(self).resized(final(self), order_id, size),
    {
        let ghost start = *self;
        if let Some(found) = self.orders.get(&order_id) {
            let resting = *found;
            self.orders.insert(order_id, Resting { size, ..resting });
        }
        proof {
            same_levels_are_sound(start.bids@, Side::Buy, start.orders@, self.orders@, order_id);
            same_levels_are_sound(start.asks@, Side::Sell, start.orders@, self.orders@, order_id);
        }
    }

    /// Reduce an order in place, keeping its queue position.
    pub fn reduce(&mut self, order_id: VenueOrderId, new_size: Qty) -> (r: Result<
        (),
        BacktestError,
    >)
        requires
            old(self).wf(),
        ensures
            final(self).wf(),
            match r {
                Ok(_) => if !old(self).resting().dom().contains(order_id) {
                    *final(self) == *old(self)
                } else if new_size.0 <= 0 {
                    old(self).left_by(final(self), order_id)
                } else {
                    new_size.0 <= old(self).resting()[order_id].size.0 && old(self).resized(
                        final(self),
                        order_id,
                        new_size,
                    )
                },
                Err(e) => {
                    &&& *final(self) == *old(self)
                    &&& old(self).resting().dom().contains(order_id)
                    &&& new_size.0 > old(self).resting()[order_id].size.0
                    &&& says(e, old(self).growth_text(order_id, new_size))
                },
            },
    {
        let resting = match self.orders.get(&order_id) {
            Some(resting) => *resting,
            None => {
                return Ok(());
            },
        };
        if new_size.0 > resting.size.0 {
            let mut m = "order ".to_owned();
            push_u64(&mut m, order_id);
            m.append(" cannot grow from ");
            push_fixed(&mut m, resting.size.0);
            m.append(" to ");
            push_fixed(&mut m, new_size.0);
            m.append(
                " in place; a venue republishes an increase as a cancel and an add, and treating it as a modify would hand it free queue priority",
            );
            return Err(BacktestError::invalid(m.as_str()));
        }
        if new_size.0 <= 0 {
            self.cancel(order_id)?;
            return Ok(());
        }
        self.resize(order_id, new_size);
        Ok(())
    }

    /// Total size queued ahead of an order at its own level.
    ///
    /// The number a book of levels cannot produce. `None` when the order is
    /// not on the book.
    pub fn size_ahead_of(&self, order_id: VenueOrderId) -> (r: Option<Qty>)
        requires
            self.wf(),
            self.resting().dom().contains(order_id) ==> size_fits(
                self.resting(),
                self.queue(
                    self.resting()[order_id].side,
                    self.resting()[order_id].price,
                ),
            ),
        ensures
            match r {
                None => !self.resting().dom().contains(order_id),
                Some(ahead) => {
                    &&& self.resting().dom().contains(order_id)
                    &&& ahead.0 == ahead_in(
                        self.resting(),
                        self.queue(
                            self.resting()[order_id].side,
                            self.resting()[order_id].price,
                        ),
                        order_id,
                    )
                },
            },
    {
        let resting = match self.orders.get(&order_id) {
            Some(resting) => *resting,
            None => {
                return None;
            },
        };
        proof {
            self.queues_hold_the_orders();
        }
        let ghost ids = self.queue(resting.side, resting.price);
        let found = match resting.side {
            Side::Buy => self.bids.get(&resting.price.0),
            Side::Sell => self.asks.get(&resting.price.0),
        };
        let queue = match found {
            Some(queue) => queue,
            None => {
                return None;
            },
        };
        let mut ahead: i64 = 0;
        let mut i: usize = 0;
        assert(ids.take(0) =~= Seq::<u64>::empty());
        while i < queue.len()
            invariant
                i <= queue@.len(),
                self.wf(),
                queue@ == ids,
                ids == self.queue(resting.side, resting.price),
                self.resting().dom().contains(order_id),
                resting == self.resting()[order_id],
                ids.no_duplicates(),
                size_fits(self.resting(), ids),
                ids.contains(order_id),
                forall|k: int| 0 <= k < i ==> #[trigger] ids[k] != order_id,
                ahead == size_sum(self.resting(), ids.take(i as int)),
                forall|k: int|
                    0 <= k < ids.len() ==> self.resting().dom().contains(#[trigger] ids[k])
                        && self.resting()[ids[k]].size.0 > 0,
            decreases queue@.len() - i,
        {
            let id: u64 = queue[i];
            if id == order_id {
                assert(ids.index_of(order_id) == i);
                return Some(Qty(ahead));
            }
            proof {
                sum_bounds(self.resting(), ids, i + 1);
                assert(ids.take(i + 1).drop_last() =~= ids.take(i as int));
                assert(ids.take(i + 1).last() == id);
                sum_bounds(self.resting(), ids, i as int);
            }
            if let Some(order) = self.orders.get(&id) {
                ahead = ahead + order.size.0;
            }
            i += 1;
        }
        proof {
            let k = choose|k: int| 0 <= k < ids.len() && ids[k] == order_id;
            assert(ids[k] != order_id);
        }
        None
    }

    /// Total size resting at a price on a side.
    pub fn size_at(&self, side: Side, price: Price) -> (r: Qty)
        requires
            self.wf(),
            size_fits(self.resting(), self.queue(side, price)),
        ensures
            r.0 == size_sum(self.resting(), self.queue(side, price)),
    {
        proof {
            self.queues_hold_the_orders();
        }
        let ghost ids = self.queue(side, price);
        let found = match side {
            Side::Buy => self.bids.get(&price.0),
            Side::Sell => self.asks.get(&price.0),
        };
        let queue = match found {
            Some(queue) => queue,
            None => {
                return Qty(0);
            },
        };
        let mut total: i64 = 0;
        let mut i: usize = 0;
        assert(ids.take(0) =~= Seq::<u64>::empty());
        while i < queue.len()
            invariant
                i <= queue@.len(),
                self.wf(),
                queue@ == ids,
                size_fits(self.resting(), ids),
                total == size_sum(self.resting(), ids.take(i as int)),
                forall|k: int|
                    0 <= k < ids.len() ==> self.resting().dom().contains(#[trigger] ids[k])
                        && self.resting()[ids[k]].size.0 > 0,
            decreases queue@.len() - i,
        {
            let id: u64 = queue[i];
            proof {
                sum_bounds(self.resting(), ids, i + 1);
                sum_bounds(self.resting(), ids, i as int);
                assert(ids.take(i + 1).drop_last() =~= ids.take(i as int));
                assert(ids.take(i + 1).last() == id);
            }
            if let Some(order) = self.orders.get(&id) {
                total = total + order.size.0;
            }
            i += 1;
        }
        assert(ids.take(i as int) =~= ids);
        Qty(total)
    }

    /// Best bid: the highest price with resting size.
    pub fn best_bid(&self) -> (r: Option<Price>)
        requires
            self.wf(),
        ensures
            match r {
                Some(best) => {
                    &&& self.queue(Side::Buy, best).len() > 0
                    &&& forall|p: Price|
                        (#[trigger] self.queue(Side::Buy, p)).len() > 0 ==> p.0 <= best.0
                },
                None => forall|p: Price| (#[trigger] self.queue(Side::Buy, p)).len() == 0,
            },
    {
        let n: usize = self.bids.len();
        proof {
            entries_map_contains(self.bids.seq());
        }
        if n == 0 {
            return None;
        }
        let best: i64 = *self.bids.key_at(n - 1);
        proof {
            assert forall|p: Price| (#[trigger] self.queue(Side::Buy, p)).len() > 0 implies p.0
                <= best by {
                assert(self.bids@.dom().contains(p.0));
            }
        }
        Some(Price(best))
    }

    /// Best ask: the lowest price with resting size.
    pub fn best_ask(&self) -> (r: Option<Price>)
        requires
            self.wf(),
        ensures
            match r {
                Some(best) => {
                    &&& self.queue(Side::Sell, best).len() > 0
                    &&& forall|p: Price|
                        (#[trigger] self.queue(Side::Sell, p)).len() > 0 ==> best.0 <= p.0
                },
                None => forall|p: Price| (#[trigger] self.queue(Side::Sell, p)).len() == 0,
            },
    {
        let n: usize = self.asks.len();
        proof {
            entries_map_contains(self.asks.seq());
        }
        if n == 0 {
            return None;
        }
        let best: i64 = *self.asks.key_at(0);
        proof {
            assert forall|p: Price| (#[trigger] self.queue(Side::Sell, p)).len() > 0 implies best
                <= p.0 by {
                assert(self.asks@.dom().contains(p.0));
            }
        }
        Some(Price(best))
    }

    /// A list of levels as a side shows them: best first, each with
    /// everything that rests there, and none left out.
    pub open spec fn shown(&self, side: Side, out: Seq<(Price, Qty)>) -> bool {
        &&& forall|i: int|
            0 <= i < out.len() ==> {
                &&& self.queue(side, (#[trigger] out[i]).0).len() > 0
                &&& out[i].1.0 == size_sum(self.resting(), self.queue(side, out[i].0))
                &&& out[i].1.0 > 0
            }
        &&& forall|i: int, j: int|
            #![trigger out[i], out[j]]
            0 <= i < j < out.len() ==> match side {
                Side::Buy => out[i].0.0 > out[j].0.0,
                Side::Sell => out[i].0.0 < out[j].0.0,
            }
        &&& forall|p: Price|
            (#[trigger] self.queue(side, p)).len() > 0 ==> exists|i: int|
                0 <= i < out.len() && (#[trigger] out[i]).0 == p
    }

    /// Collapse to price levels, best first, as a book of levels would show.
    pub fn levels(&self, side: Side) -> (out: Vec<(Price, Qty)>)
        requires
            self.wf(),
            forall|p: Price| size_fits(self.resting(), #[trigger] self.queue(side, p)),
        ensures
            self.shown(side, out@),
    {
        let levels = match side {
            Side::Buy => &self.bids,
            Side::Sell => &self.asks,
        };
        let ghost entries = levels.seq();
        proof {
            entries_map_contains(entries);
            self.queues_hold_the_orders();
        }
        let n: usize = levels.len();
        let mut out: Vec<(Price, Qty)> = Vec::new();
        let mut i: usize = 0;
        while i < n
            invariant
                i <= n,
                n == entries.len(),
                self.wf(),
                forall|p: Price| size_fits(self.resting(), #[trigger] self.queue(side, p)),
                entries == levels.seq(),
                levels.wf(),
                *levels == (match side {
                    Side::Buy => self.bids,
                    Side::Sell => self.asks,
                }),
                out@.len() == i,
                forall|k: int|
                    0 <= k < i ==> {
                        let at = match side {
                            Side::Buy => n - 1 - k,
                            Side::Sell => k,
                        };
                        &&& (#[trigger] out@[k]).0.0 == entries[at].0
                        &&& out@[k].1.0 == size_sum(self.resting(), self.queue(side, out@[k].0))
                    },
            decreases n - i,
        {
            let at: usize = match side {
                Side::Buy => n - 1 - i,
                Side::Sell => i,
            };
            let price = Price(*levels.key_at(at));
            let size = self.size_at(side, price);
            out.push((price, size));
            i += 1;
        }
        proof {
            assert forall|k: int| 0 <= k < out@.len() implies {
                &&& self.queue(side, (#[trigger] out@[k]).0).len() > 0
                &&& out@[k].1.0 == size_sum(self.resting(), self.queue(side, out@[k].0))
                &&& out@[k].1.0 > 0
            } by {
                let at = match side {
                    Side::Buy => n - 1 - k,
                    Side::Sell => k,
                };
                assert(entries_map(entries).dom().contains(entries[at].0@));
                let queue = self.queue(side, out@[k].0);
                assert(queue.len() > 0);
                assert forall|m: int| 0 <= m < queue.len() implies self.resting()[#[trigger] queue[m]].size.0
                    > 0 by {
                    assert(self.resting().dom().contains(self.queue(side, out@[k].0)[m]));
                }
                sum_bounds(self.resting(), queue, 0);
            }
            assert forall|p: Price| (#[trigger] self.queue(side, p)).len() > 0 implies exists|
                k: int,
            |
                0 <= k < out@.len() && (#[trigger] out@[k]).0 == p by {
                assert(entries_map(entries).dom().contains(p.0));
                let at = choose|at: int|
                    0 <= at < entries.len() && (#[trigger] entries[at]).0@ == p.0;
                let k = match side {
                    Side::Buy => n - 1 - at,
                    Side::Sell => at,
                };
                assert(out@[k].0 == p);
            }
        }
        out
    }

    pub fn order_count(&self) -> (n: usize)
        requires
            self.wf(),
        ensures
            n == self.resting().dom().len(),
    {
        proof {
            entries_map_counts(self.orders.seq());
        }
        self.orders.len()
    }

    pub fn is_empty(&self) -> (r: bool)
        requires
            self.wf(),
        ensures
            r == (self.resting() == RestingOrders::empty()),
    {
        proof {
            entries_map_counts(self.orders.seq());
            if self.orders.seq().len() == 0 {
                assert(self.orders@ =~= RestingOrders::empty());
            }
        }
        self.orders.is_empty()
    }
}

/// What an order is left with by a message: a new one starts with its size, a
/// trade takes from it, a reduction restates it. `None` is no order at all.
pub open spec fn told(standing: Option<Resting>, message: MboMessage) -> Option<Resting> {
    match (standing, message) {
        (None, MboMessage::Add { side, price, size, .. }) => if size.0 > 0 {
            Some(Resting { side, price, size })
        } else {
            None
        },
        (Some(_), MboMessage::Cancel { .. }) => None,
        (Some(order), MboMessage::Execute { size, .. }) => if size.0 >= order.size.0 {
            None
        } else {
            Some(Resting { size: Qty((order.size.0 - size.0) as i64), ..order })
        },
        (Some(order), MboMessage::Reduce { new_size, .. }) => if new_size.0 > order.size.0 {
            Some(order)
        } else if new_size.0 <= 0 {
            None
        } else {
            Some(Resting { size: new_size, ..order })
        },
        _ => standing,
    }
}

/// What a run of messages leaves of one order.
pub open spec fn standing_after(messages: Seq<MboMessage>, id: u64) -> Option<Resting>
    decreases messages.len(),
{
    if messages.len() == 0 {
        None
    } else {
        let before = standing_after(messages.drop_last(), id);
        if message_id(messages.last()) == id {
            told(before, messages.last())
        } else {
            before
        }
    }
}

/// The orders a run of messages leaves, in the order they joined.
pub open spec fn joined_after(messages: Seq<MboMessage>) -> Seq<u64>
    decreases messages.len(),
{
    if messages.len() == 0 {
        Seq::empty()
    } else {
        let before = joined_after(messages.drop_last());
        let id = message_id(messages.last());
        let was = standing_after(messages.drop_last(), id);
        let is = standing_after(messages, id);
        if was is None && is is Some {
            before.push(id)
        } else if was is Some && is is None {
            before.remove(before.index_of(id))
        } else {
            before
        }
    }
}

/// Whether an order stands at a side and price.
pub open spec fn stands_at(messages: Seq<MboMessage>, side: Side, price: Price) -> spec_fn(
    u64,
) -> bool {
    |id: u64|
        standing_after(messages, id) matches Some(order) && order.side == side && order.price
            == price
}

proof fn filters_agree(ids: Seq<u64>, p: spec_fn(u64) -> bool, q: spec_fn(u64) -> bool)
    requires
        forall|i: int| 0 <= i < ids.len() ==> p(#[trigger] ids[i]) == q(ids[i]),
    ensures
        ids.filter(p) == ids.filter(q),
    decreases ids.len(),
{
    reveal(Seq::filter);
    if ids.len() > 0 {
        let head = ids.drop_last();
        assert forall|i: int| 0 <= i < head.len() implies p(#[trigger] head[i]) == q(head[i]) by {
            assert(head[i] == ids[i]);
        }
        filters_agree(head, p, q);
        assert(ids.last() == ids[ids.len() - 1]);
    }
}

proof fn filter_of_pushed(ids: Seq<u64>, id: u64, p: spec_fn(u64) -> bool)
    ensures
        ids.push(id).filter(p) == (if p(id) {
            ids.filter(p).push(id)
        } else {
            ids.filter(p)
        }),
{
    reveal(Seq::filter);
    assert(ids.push(id).drop_last() =~= ids);
}

proof fn filter_holds_only(ids: Seq<u64>, id: u64, p: spec_fn(u64) -> bool)
    ensures
        ids.filter(p).contains(id) <==> ids.contains(id) && p(id),
    decreases ids.len(),
{
    reveal(Seq::filter);
    if ids.len() > 0 {
        let head = ids.drop_last();
        let last = ids.last();
        filter_holds_only(head, id, p);
        let kept = ids.filter(p);
        let rest = head.filter(p);
        if ids.contains(id) && id != last {
            let i = choose|i: int| 0 <= i < ids.len() && ids[i] == id;
            assert(head[i] == id);
        }
        if head.contains(id) {
            let i = choose|i: int| 0 <= i < head.len() && head[i] == id;
            assert(ids[i] == id);
        }
        if p(last) {
            assert(kept == rest.push(last));
            assert(kept[rest.len() as int] == last);
            if rest.contains(id) {
                let i = choose|i: int| 0 <= i < rest.len() && rest[i] == id;
                assert(kept[i] == id);
            }
            if kept.contains(id) && id != last {
                let i = choose|i: int| 0 <= i < kept.len() && kept[i] == id;
                assert(rest[i] == id);
            }
        }
        if id == last {
            assert(ids[ids.len() - 1] == id);
        }
    }
}

proof fn filter_of_removed(ids: Seq<u64>, id: u64, p: spec_fn(u64) -> bool)
    requires
        ids.no_duplicates(),
        ids.contains(id),
    ensures
        ({
            let kept = ids.filter(p);
            ids.remove(ids.index_of(id)).filter(p) == (if p(id) {
                kept.remove(kept.index_of(id))
            } else {
                kept
            })
        }),
    decreases ids.len(),
{
    let n = ids.len() - 1;
    let head = ids.drop_last();
    let last = ids[n];
    let kept = ids.filter(p);
    let rest = head.filter(p);
    assert(head.push(last) =~= ids);
    assert(head.no_duplicates()) by {
        assert forall|i: int, j: int|
            0 <= i < head.len() && 0 <= j < head.len() && i != j implies head[i] != head[j] by {
            assert(ids[i] != ids[j]);
        }
    }
    filter_of_pushed(head, last, p);
    let k = ids.index_of(id);
    assert(ids[k] == id);
    if last == id {
        assert(k == n);
        assert(ids.remove(k) =~= head);
        assert(!head.contains(id)) by {
            if head.contains(id) {
                let i = choose|i: int| 0 <= i < head.len() && head[i] == id;
                assert(ids[i] == ids[n]);
            }
        }
        filter_holds_only(head, id, p);
        if p(id) {
            assert(kept == rest.push(id));
            assert(kept[rest.len() as int] == id);
            let i = kept.index_of(id);
            if i < rest.len() {
                assert(rest[i] == id);
            }
            assert(kept.remove(i) =~= rest);
        }
    } else {
        assert(head[k] == id);
        filter_of_removed(head, id, p);
        let h = head.index_of(id);
        assert(ids[h] == ids[k]);
        assert(h == k);
        assert(ids.remove(k) =~= head.remove(k).push(last));
        filter_of_pushed(head.remove(k), last, p);
        if p(id) {
            filter_holds_only(head, id, p);
            let i = rest.index_of(id);
            assert(rest[i] == id);
            filter_keeps_distinct(ids, p);
            if p(last) {
                assert(kept == rest.push(last));
                assert(kept[i] == id);
                let j = kept.index_of(id);
                assert(kept[j] == kept[i]);
                assert(i == j);
                assert(kept.remove(i) =~= rest.remove(i).push(last));
            }
        }
    }
}

proof fn filter_keeps_distinct(ids: Seq<u64>, p: spec_fn(u64) -> bool)
    requires
        ids.no_duplicates(),
    ensures
        ids.filter(p).no_duplicates(),
    decreases ids.len(),
{
    reveal(Seq::filter);
    if ids.len() > 0 {
        let head = ids.drop_last();
        let last = ids.last();
        assert forall|i: int, j: int|
            0 <= i < head.len() && 0 <= j < head.len() && i != j implies head[i] != head[j] by {
            assert(ids[i] != ids[j]);
        }
        filter_keeps_distinct(head, p);
        filter_holds_only(head, last, p);
        if head.contains(last) {
            let i = choose|i: int| 0 <= i < head.len() && head[i] == last;
            assert(ids[i] == ids[ids.len() - 1]);
        }
    }
}

proof fn joined_are_standing(messages: Seq<MboMessage>)
    ensures
        joined_after(messages).no_duplicates(),
        forall|id: u64|
            joined_after(messages).contains(id) <==> #[trigger] standing_after(
                messages,
                id,
            ) is Some,
    decreases messages.len(),
{
    let all = joined_after(messages);
    if messages.len() > 0 {
        let earlier = messages.drop_last();
        joined_are_standing(earlier);
        let before = joined_after(earlier);
        let own = message_id(messages.last());
        let was = standing_after(earlier, own);
        let is = standing_after(messages, own);
        assert(before.contains(own) <==> was is Some);
        assert forall|id: u64|
            all.contains(id) <==> #[trigger] standing_after(messages, id) is Some by {
            assert(before.contains(id) <==> standing_after(earlier, id) is Some);
            if was is None && is is Some {
                assert(all[before.len() as int] == own);
                if before.contains(id) {
                    let i = choose|i: int| 0 <= i < before.len() && before[i] == id;
                    assert(all[i] == id);
                }
            } else if was is Some && is is None {
                let k = before.index_of(own);
                assert(before[k] == own);
                if before.contains(id) && id != own {
                    let i = choose|i: int| 0 <= i < before.len() && before[i] == id;
                    if i < k {
                        assert(all[i] == id);
                    } else {
                        assert(all[i - 1] == id);
                    }
                }
                if all.contains(id) {
                    let i = choose|i: int| 0 <= i < all.len() && all[i] == id;
                    if i < k {
                        assert(before[i] == id);
                    } else {
                        assert(before[i + 1] == id);
                    }
                }
            }
        }
    }
}

/// Whether one of a run of books comes of the one before by its message.
pub open spec fn hears(books: Seq<L3Book>, messages: Seq<MboMessage>, i: int) -> bool {
    books[i].wf() && books[i].takes(messages[i], &books[i + 1])
}

/// A book that has heard a run of messages from the start holds exactly the
/// orders they leave, at what they leave them with, and at every price those
/// orders queue in the order they joined.
pub proof fn a_book_is_what_it_has_heard(books: Seq<L3Book>, messages: Seq<MboMessage>)
    requires
        books.len() == messages.len() + 1,
        books[0].resting() == RestingOrders::empty(),
        forall|side: Side, price: Price| (#[trigger] books[0].queue(side, price)).len() == 0,
        forall|i: int| 0 <= i < messages.len() ==> #[trigger] hears(books, messages, i),
    ensures
        forall|id: u64| #[trigger]
            standing_after(messages, id) == (if books.last().resting().dom().contains(id) {
                Some(books.last().resting()[id])
            } else {
                None
            }),
        forall|side: Side, price: Price| #[trigger]
            books.last().queue(side, price) == joined_after(messages).filter(
                stands_at(messages, side, price),
            ),
    decreases messages.len(),
{
    if messages.len() == 0 {
        reveal(Seq::filter);
    } else {
        let n = messages.len() - 1;
        let earlier = messages.drop_last();
        let before = books.drop_last();
        assert forall|i: int| 0 <= i < earlier.len() implies #[trigger] hears(
            before,
            earlier,
            i,
        ) by {
            assert(hears(books, messages, i));
        }
        assert(before[0] == books[0]);
        a_book_is_what_it_has_heard(before, earlier);
        joined_are_standing(earlier);
        let book = books[n];
        let after = books[n + 1];
        let message = messages[n];
        let own = message_id(message);
        assert(before.last() == book);
        assert(hears(books, messages, n));
        book.queues_hold_the_orders();
        let was = standing_after(earlier, own);
        let is = standing_after(messages, own);
        let ids = joined_after(earlier);
        assert(book.resting().dom().contains(own) <==> was is Some);
        assert forall|id: u64| #[trigger]
            standing_after(messages, id) == (if after.resting().dom().contains(id) {
                Some(after.resting()[id])
            } else {
                None
            }) by {
            assert(standing_after(earlier, id) == (if book.resting().dom().contains(id) {
                Some(book.resting()[id])
            } else {
                None
            }));
        }
        assert forall|side: Side, price: Price| #[trigger]
            after.queue(side, price) == joined_after(messages).filter(
                stands_at(messages, side, price),
            ) by {
            let p = stands_at(earlier, side, price);
            let q = stands_at(messages, side, price);
            assert(book.queue(side, price) == ids.filter(p));
            assert(ids.contains(own) <==> was is Some);
            if was is None && is is Some {
                filter_of_pushed(ids, own, q);
                assert forall|i: int| 0 <= i < ids.len() implies p(#[trigger] ids[i]) == q(
                    ids[i],
                ) by {
                    assert(ids.contains(ids[i]));
                }
                filters_agree(ids, p, q);
            } else if was is Some && is is None {
                filter_of_removed(ids, own, p);
                let rest = ids.remove(ids.index_of(own));
                assert forall|i: int| 0 <= i < rest.len() implies p(#[trigger] rest[i]) == q(
                    rest[i],
                ) by {
                    let k = ids.index_of(own);
                    assert(ids[k] == own);
                    if i < k {
                        assert(rest[i] == ids[i]);
                    } else {
                        assert(rest[i] == ids[i + 1]);
                    }
                }
                filters_agree(rest, p, q);
            } else {
                filters_agree(ids, p, q);
            }
        }
    }
}

proof fn grown_level_is_sound(
    before: Map<i64, Vec<u64>>,
    after: Map<i64, Vec<u64>>,
    side: Side,
    was: RestingOrders,
    now: RestingOrders,
    price: i64,
    id: u64,
)
    requires
        levels_sound(before, side, was),
        !was.dom().contains(id),
        now == was.insert(id, now[id]),
        now[id].side == side,
        now[id].price.0 == price,
        after.dom() == before.dom().insert(price),
        queue_in(after, price) == queue_in(before, price).push(id),
        forall|p: i64| p != price && before.dom().contains(p) ==> #[trigger] after[p] == before[p],
    ensures
        levels_sound(after, side, now),
{
    let old_queue = queue_in(before, price);
    assert(!old_queue.contains(id)) by {
        if old_queue.contains(id) {
            let k = choose|k: int| 0 <= k < old_queue.len() && old_queue[k] == id;
            assert(before[price]@[k] == id);
        }
    }
    assert forall|p: i64| #[trigger] after.dom().contains(p) implies after[p]@.len() > 0
        && after[p]@.no_duplicates() by {
        if p == price {
            assert(after[p]@ == old_queue.push(id));
            assert(old_queue.no_duplicates());
            assert forall|i: int, j: int|
                0 <= i < after[p]@.len() && 0 <= j < after[p]@.len() && i != j implies after[p]@[i]
                != after[p]@[j] by {
                if i == old_queue.len() {
                    assert(old_queue.contains(old_queue[j]));
                }
                if j == old_queue.len() {
                    assert(old_queue.contains(old_queue[i]));
                }
            }
        } else {
            assert(after[p] == before[p]);
        }
    }
    assert forall|p: i64, i: int|
        after.dom().contains(p) && 0 <= i < after[p]@.len() implies {
        let x = #[trigger] after[p]@[i];
        &&& now.dom().contains(x)
        &&& now[x].side == side
        &&& now[x].price.0 == p
    } by {
        let x = after[p]@[i];
        if p == price {
            assert(after[p]@ == old_queue.push(id));
            if i < old_queue.len() {
                assert(before[p]@[i] == x);
            }
        } else {
            assert(after[p] == before[p]);
            assert(before[p]@[i] == x);
        }
    }
    assert forall|x: u64| #[trigger] now.dom().contains(x) && now[x].side == side implies queue_in(
        after,
        now[x].price.0,
    ).contains(x) by {
        if x == id {
            assert(queue_in(after, price)[old_queue.len() as int] == id);
        } else {
            assert(was.dom().contains(x));
            let p = now[x].price.0;
            let k = choose|k: int|
                0 <= k < queue_in(before, p).len() && queue_in(before, p)[k] == x;
            if p == price {
                assert(queue_in(after, p)[k] == x);
            } else {
                assert(after[p] == before[p]);
                assert(queue_in(after, p)[k] == x);
            }
        }
    }
}

proof fn other_side_is_sound(
    levels: Map<i64, Vec<u64>>,
    side: Side,
    was: RestingOrders,
    now: RestingOrders,
    id: u64,
)
    requires
        levels_sound(levels, side, was),
        !was.dom().contains(id),
        now == was.insert(id, now[id]),
        now[id].side != side,
    ensures
        levels_sound(levels, side, now),
{
}

proof fn left_side_is_sound(
    levels: Map<i64, Vec<u64>>,
    side: Side,
    was: RestingOrders,
    now: RestingOrders,
    id: u64,
)
    requires
        levels_sound(levels, side, was),
        was.dom().contains(id),
        was[id].side != side,
        now == was.remove(id),
    ensures
        levels_sound(levels, side, now),
{
}

proof fn same_levels_are_sound(
    levels: Map<i64, Vec<u64>>,
    side: Side,
    was: RestingOrders,
    now: RestingOrders,
    id: u64,
)
    requires
        levels_sound(levels, side, was),
        was.dom().contains(id),
        now == was.insert(id, now[id]),
        now[id].side == was[id].side,
        now[id].price == was[id].price,
    ensures
        levels_sound(levels, side, now),
{
}

proof fn shrunk_level_is_sound(
    before: Map<i64, Vec<u64>>,
    after: Map<i64, Vec<u64>>,
    side: Side,
    was: RestingOrders,
    now: RestingOrders,
    price: i64,
    id: u64,
)
    requires
        levels_sound(before, side, was),
        was.dom().contains(id),
        was[id].side == side,
        was[id].price.0 == price,
        now == was.remove(id),
        ({
            let queue = queue_in(before, price);
            let left = queue.remove(queue.index_of(id));
            &&& queue_in(after, price) == left
            &&& after.dom() == (if left.len() == 0 {
                before.dom().remove(price)
            } else {
                before.dom()
            })
        }),
        forall|p: i64| p != price && before.dom().contains(p) ==> #[trigger] after[p] == before[p],
    ensures
        levels_sound(after, side, now),
{
    let queue = queue_in(before, price);
    let at = queue.index_of(id);
    let left = queue.remove(at);
    assert(queue.contains(id));
    assert(before.dom().contains(price));
    assert(queue.no_duplicates());
    assert forall|p: i64| #[trigger] after.dom().contains(p) implies after[p]@.len() > 0
        && after[p]@.no_duplicates() by {
        if p == price {
            assert(after[p]@ == left);
        } else {
            assert(before.dom().contains(p));
            assert(after[p] == before[p]);
        }
    }
    assert forall|p: i64, i: int|
        after.dom().contains(p) && 0 <= i < after[p]@.len() implies {
        let x = #[trigger] after[p]@[i];
        &&& now.dom().contains(x)
        &&& now[x].side == side
        &&& now[x].price.0 == p
    } by {
        let x = after[p]@[i];
        if p == price {
            assert(after[p]@ == left);
            let k = if i < at {
                i
            } else {
                i + 1
            };
            assert(queue[k] == x);
            assert(before[p]@[k] == x);
        } else {
            assert(after[p] == before[p]);
            assert(before[p]@[i] == x);
        }
    }
    assert forall|x: u64| #[trigger] now.dom().contains(x) && now[x].side == side implies queue_in(
        after,
        now[x].price.0,
    ).contains(x) by {
        assert(was.dom().contains(x));
        let p = now[x].price.0;
        let k = choose|k: int| 0 <= k < queue_in(before, p).len() && queue_in(before, p)[k] == x;
        if p == price {
            let m = if k < at {
                k
            } else {
                k - 1
            };
            assert(left[m] == x);
        } else {
            assert(before.dom().contains(p));
            assert(after.dom().contains(p));
            assert(after[p] == before[p]);
            assert(queue_in(after, p)[k] == x);
        }
    }
}

/// A message concerns one order. A new order stands as it came; a cancelled
/// one is gone; a trade takes its size from what is left and a reduction
/// leaves what it says, neither moving the order, and an order with nothing
/// left is gone. What is refused changes nothing.
pub proof fn a_message_concerns_one_order(
    before: L3Book,
    after: L3Book,
    message: MboMessage,
    other: u64,
)
    requires
        before.wf(),
        before.takes(message, &after),
    ensures
        ({
            let (was, now) = (before.resting(), after.resting());
            let untouched = was.dom().contains(other) == now.dom().contains(other) && (
            was.dom().contains(other) ==> now[other] == was[other]);
            match message {
                MboMessage::Add { order_id, side, price, size } => {
                    &&& other != order_id ==> untouched
                    &&& !was.dom().contains(order_id) && size.0 > 0 ==> now.dom().contains(order_id)
                        && now[order_id].side == side && now[order_id].price == price
                        && now[order_id].size == size
                    &&& was.dom().contains(order_id) || size.0 <= 0 ==> after == before
                },
                MboMessage::Cancel { order_id } => {
                    &&& other != order_id ==> untouched
                    &&& !now.dom().contains(order_id)
                },
                MboMessage::Execute { order_id, size } => {
                    &&& other != order_id ==> untouched
                    &&& !was.dom().contains(order_id) ==> after == before
                    &&& was.dom().contains(order_id) && 0 <= size.0 ==> {
                        let left = was[order_id].size.0 - size.0;
                        &&& now.dom().contains(order_id) <==> left > 0
                        &&& left > 0 ==> now[order_id].size.0 == left && now[order_id].side
                            == was[order_id].side && now[order_id].price == was[order_id].price
                    }
                },
                MboMessage::Reduce { order_id, new_size } => {
                    &&& other != order_id ==> untouched
                    &&& !was.dom().contains(order_id) ==> after == before
                    &&& was.dom().contains(order_id) && new_size.0 > was[order_id].size.0
                        ==> after == before
                    &&& was.dom().contains(order_id) && new_size.0 <= was[order_id].size.0 ==> {
                        &&& now.dom().contains(order_id) <==> new_size.0 > 0
                        &&& new_size.0 > 0 ==> now[order_id].size == new_size && now[order_id].side
                            == was[order_id].side && now[order_id].price == was[order_id].price
                    }
                },
            }
        }),
{
}

/// What rests at a price changes by what a message moves there: it grows by a
/// newcomer, shrinks by all of an order that is cancelled and by what a trade
/// takes, and by no more than the order had.
pub proof fn a_level_changes_by_what_moves(before: L3Book, after: L3Book, message: MboMessage)
    requires
        before.wf(),
        before.takes(message, &after),
    ensures
        ({
            let (was, now) = (before.resting(), after.resting());
            match message {
                MboMessage::Add { order_id, side, price, size } => !was.dom().contains(order_id)
                    && size.0 > 0 ==> size_sum(now, after.queue(side, price)) == size_sum(
                    was,
                    before.queue(side, price),
                ) + size.0,
                MboMessage::Cancel { order_id } => was.dom().contains(order_id) ==> {
                    let (side, price) = (was[order_id].side, was[order_id].price);
                    size_sum(now, after.queue(side, price)) == size_sum(
                        was,
                        before.queue(side, price),
                    ) - was[order_id].size.0
                },
                MboMessage::Execute { order_id, size } => was.dom().contains(order_id) && 0
                    <= size.0 ==> {
                    let (side, price) = (was[order_id].side, was[order_id].price);
                    size_sum(now, after.queue(side, price)) == size_sum(
                        was,
                        before.queue(side, price),
                    ) - (if size.0 < was[order_id].size.0 {
                        size.0
                    } else {
                        was[order_id].size.0
                    })
                },
                MboMessage::Reduce { order_id, new_size } => was.dom().contains(order_id) && 0
                    < new_size.0 <= was[order_id].size.0 ==> {
                    let (side, price) = (was[order_id].side, was[order_id].price);
                    size_sum(now, after.queue(side, price)) == size_sum(
                        was,
                        before.queue(side, price),
                    ) - (was[order_id].size.0 - new_size.0)
                },
            }
        }),
{
    before.queues_hold_the_orders();
    let (was, now) = (before.resting(), after.resting());
    let id = match message {
        MboMessage::Add { order_id, .. } => order_id,
        MboMessage::Cancel { order_id } => order_id,
        MboMessage::Execute { order_id, .. } => order_id,
        MboMessage::Reduce { order_id, .. } => order_id,
    };
    if was.dom().contains(id) {
        let (side, price) = (was[id].side, was[id].price);
        let queue = before.queue(side, price);
        let at = queue.index_of(id);
        assert(queue.contains(id));
        assert(queue.take(queue.len() as int) =~= queue);
        if before.left_by(&after, id) {
            let left = queue.remove(at);
            sum_without(was, queue, at);
            assert forall|k: int| 0 <= k < left.len() implies now[#[trigger] left[k]]
                == was[left[k]] by {
                if k < at {
                    assert(left[k] == queue[k]);
                } else {
                    assert(left[k] == queue[k + 1]);
                }
            }
            sums_agree(now, was, left);
        } else if let MboMessage::Execute { size, .. } = message {
            let rest = Qty((was[id].size.0 - before.executable(id, size)) as i64);
            resized_sum(was, queue, at, rest, queue.len() as int);
        } else if let MboMessage::Reduce { new_size, .. } = message {
            resized_sum(was, queue, at, new_size, queue.len() as int);
        }
    } else if let MboMessage::Add { side, price, .. } = message {
        let queue = before.queue(side, price);
        assert(queue.push(id).drop_last() =~= queue);
        assert forall|k: int| 0 <= k < queue.len() implies now[#[trigger] queue[k]]
            == was[queue[k]] by {
            assert(was.dom().contains(queue[k]));
        }
        sums_agree(now, was, queue);
    }
}

/// Nothing is ahead of the front of a queue, and each order behind it has one
/// order more ahead than the one before it.
pub proof fn the_front_is_served_first(orders: RestingOrders, queue: Seq<u64>, i: int)
    requires
        queue.no_duplicates(),
        0 <= i < queue.len(),
    ensures
        ahead_in(orders, queue, queue[0]) == 0,
        i + 1 < queue.len() ==> ahead_in(orders, queue, queue[i + 1]) == ahead_in(
            orders,
            queue,
            queue[i],
        ) + orders[queue[i]].size.0,
{
    assert(queue.contains(queue[0]));
    assert(queue.contains(queue[i]));
    assert(queue.index_of(queue[0]) == 0);
    assert(queue.index_of(queue[i]) == i);
    assert(queue.take(0) =~= Seq::<u64>::empty());
    if i + 1 < queue.len() {
        assert(queue.contains(queue[i + 1]));
        assert(queue.index_of(queue[i + 1]) == i + 1);
        assert(queue.take(i + 1).drop_last() =~= queue.take(i));
    }
}

} // verus!
