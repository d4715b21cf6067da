//! What is on its way to the venue, and what is left of it on arrival.
use vstd::prelude::*;

use crate::account::MarginModel;
use crate::checks::{crossed_price, market_of};
use crate::desk::{arrived, open_in, InFlightAction};
use crate::engine::{amended, Command, Engine};
use crate::execution::ExecutionClient;
use crate::models::{FeeModel, FillModel, LatencyModel};
use crate::order::{Order, OrderId};
use crate::ordered::{entries_map, entries_map_contains, keys_sorted, OrderedKey};
use crate::request::OrderRequest;
use crate::types::{saturated, Price, Qty, UnixNanos};

verus! {

/// Among entries in key order, those that have arrived are those due by
/// then.
proof fn arrived_are_due(sent: Seq<((i64, u64), InFlightAction)>, ts: int)
    requires
        keys_sorted(sent),
    ensures
        arrived(sent, ts) <= sent.len(),
        forall|i: int|
            0 <= i < sent.len() ==> (i < arrived(sent, ts) <==> (#[trigger] sent[i]).0.0 <= ts),
    decreases sent.len(),
{
    if sent.len() > 0 {
        if sent[0].0.0 > ts {
            assert forall|i: int| 0 <= i < sent.len() implies (#[trigger] sent[i]).0.0 > ts by {
                if i > 0 {
                    assert(<(i64, u64)>::before(sent[0].0@, sent[i].0@));
                }
            }
        } else {
            let rest = sent.drop_first();
            assert(keys_sorted(rest)) by {
                assert forall|i: int, j: int|
                    #![trigger rest[i], rest[j]]
                    0 <= i < j < rest.len() implies <(i64, u64)>::before(
                    rest[i].0@,
                    rest[j].0@,
                ) by {
                    assert(rest[i] == sent[i + 1] && rest[j] == sent[j + 1]);
                }
            }
            arrived_are_due(rest, ts);
            assert forall|i: int| 0 <= i < sent.len() implies (i < arrived(sent, ts) <==> (
            #[trigger] sent[i]).0.0 <= ts) by {
                if i > 0 {
                    assert(rest[i - 1] == sent[i]);
                }
            }
        }
    }
}

impl<F: FeeModel, L: FillModel, T: LatencyModel, M: MarginModel, X: ExecutionClient> Engine<
    F,
    L,
    T,
    M,
    X,
> {
    /// What is on its way, by when it arrives and then by when it was sent.
    pub closed spec fn on_the_way(self) -> Map<(i64, u64), InFlightAction> {
        self.desk.inflight@
    }

    /// An order as it stands.
    pub closed spec fn order_now(self, id: OrderId) -> Option<Order> {
        if self.desk.orders@.dom().contains(id.0) {
            Some(self.desk.orders@[id.0])
        } else {
            None
        }
    }

    /// When what is sent now arrives.
    pub closed spec fn arrival(self) -> int {
        saturated(self.clock.time() + self.latency_model.insert_delay())
    }

    /// The number under which the last thing was sent.
    pub closed spec fn last_sent(self) -> u64 {
        self.desk.sequence
    }

    /// What is due by an instant taken off the wire.
    pub closed spec fn takes_due(
        self,
        collected: Self,
        actions: Seq<InFlightAction>,
        ts: UnixNanos,
    ) -> bool {
        self.collects(collected, actions, ts)
    }

    /// One arrival dealt with.
    pub closed spec fn deals_with_arrival(
        self,
        after: Self,
        action: InFlightAction,
        ts: UnixNanos,
    ) -> bool {
        self.receives(after, action, ts)
    }

    /// One command of a strategy carried out.
    pub closed spec fn obeys(self, after: Self, command: Command) -> bool {
        self.performs(after, command)
    }

    pub(crate) proof fn order_now_is_on_file(self, id: OrderId)
        ensures
            self.order_now(id) == (if self.desk.orders@.dom().contains(id.0) {
                Some(self.desk.orders@[id.0])
            } else {
                None
            }),
    {
    }

    pub(crate) proof fn arriving_is_receiving(
        before: Self,
        after: Self,
        action: InFlightAction,
        ts: UnixNanos,
    )
        ensures
            before.deals_with_arrival(after, action, ts) == before.receives(after, action, ts),
    {
    }

    pub(crate) proof fn obeying_is_performing(self, after: Self, command: Command)
        ensures
            self.obeys(after, command) == self.performs(after, command),
    {
    }

    /// What comes off the wire is exactly what is due by then, in the order
    /// it was due and, where that ties, the order it was sent; what is due
    /// later stays on its way.
    pub proof fn what_is_due_comes_off_in_order(
        self,
        collected: Self,
        actions: Seq<InFlightAction>,
        ts: UnixNanos,
    ) -> (keys: Seq<(i64, u64)>)
        requires
            self.wf(),
            self.takes_due(collected, actions, ts),
        ensures
            keys.len() == actions.len(),
            forall|i: int, j: int|
                0 <= i < j < keys.len() ==> {
                    let (a, b) = (#[trigger] keys[i], #[trigger] keys[j]);
                    a.0 < b.0 || a.0 == b.0 && a.1 < b.1
                },
            forall|i: int|
                0 <= i < keys.len() ==> (#[trigger] keys[i]).0 <= ts.0
                    && self.on_the_way().dom().contains(keys[i]) && self.on_the_way()[keys[i]]
                    == actions[i],
            forall|k: (i64, u64)| #[trigger]
                self.on_the_way().dom().contains(k) && k.0 <= ts.0 ==> keys.contains(k),
            collected.on_the_way() == self.on_the_way().restrict(
                Set::new(|k: (i64, u64)| k.0 > ts.0),
            ),
    {
        self.wf_is_sound();
        let sent = self.desk.inflight.seq();
        let left = collected.desk.inflight.seq();
        let n = arrived(sent, ts.0 as int) as int;
        arrived_are_due(sent, ts.0 as int);
        entries_map_contains(sent);
        entries_map_contains(left);
        let keys = Seq::new(actions.len(), |i: int| sent[i].0);
        assert forall|i: int, j: int| 0 <= i < j < keys.len() implies {
            let (a, b) = (#[trigger] keys[i], #[trigger] keys[j]);
            a.0 < b.0 || a.0 == b.0 && a.1 < b.1
        } by {
            assert(<(i64, u64)>::before(sent[i].0@, sent[j].0@));
        }
        assert forall|i: int| 0 <= i < keys.len() implies (#[trigger] keys[i]).0 <= ts.0
            && self.on_the_way().dom().contains(keys[i]) && self.on_the_way()[keys[i]]
            == actions[i] by {
            assert(entries_map(sent).dom().contains(sent[i].0@));
            assert(actions[i] == sent[i].1);
        }
        assert forall|k: (i64, u64)| #[trigger]
            self.on_the_way().dom().contains(k) && k.0 <= ts.0 implies keys.contains(k) by {
            let i = choose|i: int| 0 <= i < sent.len() && (#[trigger] sent[i]).0@ == k;
            assert(i < n);
            assert(keys[i] == k);
        }
        let later = Set::new(|k: (i64, u64)| k.0 > ts.0);
        assert(collected.on_the_way() =~= self.on_the_way().restrict(later)) by {
            assert forall|k: (i64, u64)|
                collected.on_the_way().dom().contains(k) <==> #[trigger] self.on_the_way().restrict(
                    later,
                ).dom().contains(k) by {
                if collected.on_the_way().dom().contains(k) {
                    let i = choose|i: int| 0 <= i < left.len() && (#[trigger] left[i]).0@ == k;
                    assert(left[i] == sent[n + i]);
                }
                if self.on_the_way().dom().contains(k) && k.0 > ts.0 {
                    let i = choose|i: int| 0 <= i < sent.len() && (#[trigger] sent[i]).0@ == k;
                    assert(left[i - n] == sent[i]);
                }
            }
            assert forall|k: (i64, u64)| #[trigger]
                collected.on_the_way().dom().contains(k) implies collected.on_the_way()[k]
                == self.on_the_way()[k] by {
                let i = choose|i: int| 0 <= i < left.len() && (#[trigger] left[i]).0@ == k;
                assert(left[i] == sent[n + i]);
            }
        }
        keys
    }

    /// Arrivals dealt with one after another.
    pub closed spec fn deals_with_arrivals(
        self,
        after: Self,
        actions: Seq<InFlightAction>,
        ts: UnixNanos,
    ) -> bool {
        self.receives_all(after, actions, ts)
    }

    /// Everything whose latency has elapsed let through to the venue.
    pub closed spec fn lets_through(self, after: Self, ts: UnixNanos) -> bool {
        self.delivers(after, ts)
    }

    pub(crate) proof fn letting_through_is_delivering()
        ensures
            forall|a: Self, b: Self, ts: UnixNanos| #[trigger]
                a.lets_through(b, ts) == a.delivers(b, ts),
    {
    }

    /// Letting through what is due takes exactly that off the wire, changes
    /// no order in doing so, and then deals with it in the order it was due.
    pub proof fn what_is_let_through(self, after: Self, ts: UnixNanos) -> (r: (
        Self,
        Seq<InFlightAction>,
        Seq<(i64, u64)>,
    ))
        requires
            self.wf(),
            self.lets_through(after, ts),
        ensures
            self.takes_due(r.0, r.1, ts),
            r.0.deals_with_arrivals(after, r.1, ts),
            forall|id: OrderId| #[trigger] r.0.order_now(id) == self.order_now(id),
            r.2.len() == r.1.len(),
            forall|i: int|
                0 <= i < r.2.len() ==> (#[trigger] r.2[i]).0 <= ts.0
                    && self.on_the_way().contains_pair(r.2[i], r.1[i]),
            forall|k: (i64, u64)| #[trigger]
                self.on_the_way().dom().contains(k) && k.0 <= ts.0 ==> r.2.contains(k),
    {
        let (collected, actions) = choose|collected: Self, actions: Seq<InFlightAction>| #[trigger]
            self.collects(collected, actions, ts) && collected.receives_all(after, actions, ts);
        let keys = self.what_is_due_comes_off_in_order(collected, actions, ts);
        (collected, actions, keys)
    }

    /// What is not due yet stays on its way, whatever is let through and
    /// whatever the strategy asks for meanwhile.
    pub proof fn what_is_not_due_stays_on_its_way(self, after: Self, ts: UnixNanos)
        requires
            self.wf(),
            self.lets_through(after, ts),
        ensures
            forall|k: (i64, u64)| #[trigger]
                self.on_the_way().dom().contains(k) && k.0 > ts.0
                    ==> after.on_the_way().contains_pair(k, self.on_the_way()[k]),
    {
        self.wf_is_sound();
        let (collected, actions) = choose|collected: Self, actions: Seq<InFlightAction>| #[trigger]
            self.collects(collected, actions, ts) && collected.receives_all(after, actions, ts);
        let keys = self.what_is_due_comes_off_in_order(collected, actions, ts);
        Self::receiving(collected, after, actions, ts);
        let later = Set::new(|k: (i64, u64)| k.0 > ts.0);
        assert forall|k: (i64, u64)| #[trigger]
            self.on_the_way().dom().contains(k) && k.0 > ts.0 implies after.on_the_way().contains_pair(
            k,
            self.on_the_way()[k],
        ) by {
            assert(self.on_the_way().restrict(later).dom().contains(k));
            assert(collected.desk.inflight@.dom().contains(k));
        }
    }

    /// An order the checks let through comes off the wire at the first
    /// instant its latency has elapsed by, and is on its way until then.
    pub proof fn an_order_sent_waits_out_its_latency(
        self,
        sent: Self,
        collected: Self,
        actions: Seq<InFlightAction>,
        id: OrderId,
        request: OrderRequest,
        ts: UnixNanos,
    )
        requires
            sent.wf(),
            self.obeys(sent, Command::Submit(id, request)),
            sent.order_now(id) matches Some(order) && order.status is InFlight,
            sent.takes_due(collected, actions, ts),
        ensures
            self.arrival() <= ts.0 ==> actions.contains(InFlightAction::Order(id)),
            self.arrival() > ts.0 ==> collected.on_the_way().contains_pair(
                (self.arrival() as i64, sent.last_sent()),
                InFlightAction::Order(id),
            ),
            collected.order_now(id) == sent.order_now(id),
    {
        let key = (self.arrival() as i64, sent.last_sent());
        let keys = sent.what_is_due_comes_off_in_order(collected, actions, ts);
        assert(sent.on_the_way().contains_pair(key, InFlightAction::Order(id)));
        if self.arrival() <= ts.0 {
            assert(sent.on_the_way().dom().contains(key) && key.0 <= ts.0);
            let i = choose|i: int| 0 <= i < keys.len() && keys[i] == key;
            assert(actions[i] == InFlightAction::Order(id));
        }
    }

    /// An order that is not in flight any more when it would arrive is left
    /// as it is, and so is everything else.
    pub proof fn only_an_order_in_flight_lands(self, after: Self, id: OrderId, ts: UnixNanos)
        requires
            self.deals_with_arrival(after, InFlightAction::Order(id), ts),
            !(self.order_now(id) matches Some(order) && order.status is InFlight),
        ensures
            after == self,
    {
    }

    /// Cancelling an order that is on its way leaves it on the wire, and
    /// what arrives then does nothing.
    pub proof fn an_order_cancelled_on_the_way_never_lands(
        self,
        cancelled: Self,
        after: Self,
        id: OrderId,
        ts: UnixNanos,
    )
        requires
            self.order_now(id) matches Some(order) && order.status is InFlight,
            self.obeys(cancelled, Command::Cancel(id)),
            cancelled.deals_with_arrival(after, InFlightAction::Order(id), ts),
        ensures
            cancelled.on_the_way() == self.on_the_way(),
            cancelled.order_now(id) matches Some(order) && order.status is Cancelled,
            after == cancelled,
    {
        assert(open_in(self.desk.orders@, id.0));
    }

    /// Whether an order would trade at once against the book as it stands.
    pub closed spec fn would_cross(self, id: OrderId) -> bool {
        let order = self.desk.orders@[id.0];
        &&& self.desk.orders@.dom().contains(id.0)
        &&& crossed_price(self.market.book_in(market_of(order)), order) is Some
    }

    /// A post-only order that would cross when it arrives is turned away, and
    /// nothing of it is filled.
    pub proof fn a_post_only_order_never_takes(self, after: Self, id: OrderId, ts: UnixNanos)
        requires
            self.wf(),
            self.order_now(id) matches Some(order) && order.status is InFlight && order.post_only,
            self.would_cross(id),
            self.deals_with_arrival(after, InFlightAction::Order(id), ts),
        ensures
            after.order_now(id) matches Some(order) && order.status is Rejected && order.filled
                == (self.order_now(id)->Some_0).filled,
            after.booked() == self.booked(),
            after.on_the_way() == self.on_the_way(),
    {
        self.wf_is_sound();
        self.opening_figures();
        after.opening_figures();
    }

    /// Amending an order that is on its way changes its terms and not when
    /// it arrives: it is what stands amended that comes to the venue.
    pub proof fn an_order_amended_on_the_way_keeps_its_time(
        self,
        changed: Self,
        id: OrderId,
        quantity: Option<Qty>,
        limit: Option<Price>,
    )
        requires
            self.order_now(id) matches Some(order) && order.status is InFlight,
            self.obeys(changed, Command::Amend { id, quantity, limit }),
        ensures
            changed.on_the_way() == self.on_the_way(),
            changed.order_now(id) == Some(amended(self.order_now(id)->Some_0, quantity, limit)),
    {
        assert(open_in(self.desk.orders@, id.0));
    }
}

} // verus!
