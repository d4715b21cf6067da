//! Where resting orders are found again.
//!
//! A print reaches the orders at the best price first and, within a price,
//! those that were submitted first. Orders are therefore kept by market,
//! then by how good their price is, then by id.

use vstd::prelude::*;

use crate::order::{Order, OrderId};
use crate::ordered::{entries_map, entries_map_contains, OrderedKey, SortedMap};
use crate::position::{KeyView, PositionKey};
use crate::types::{Price, Side};

verus! {

/// A resting order's place: its market, its rank among prices, its id.
type Place = (PositionKey, (i64, u64));

/// How good a price is for its side: lower ranks come first.
pub open spec fn rank_of(side: Side, price: int) -> int {
    match side {
        Side::Buy => -1 - price,
        Side::Sell => price,
    }
}

fn rank(side: Side, price: i64) -> (r: i64)
    ensures
        r == rank_of(side, price as int),
{
    match side {
        Side::Buy => -1 - price,
        Side::Sell => price,
    }
}

/// One resting order: its side, market, price and id.
pub type RestingEntry = (Side, KeyView, i64, u64);

/// Resting orders by price and time.
pub struct RestingIndex {
    buys: SortedMap<Place, ()>,
    sells: SortedMap<Place, ()>,
}

/// Whether `a` is served before `b`: at a better price, or earlier at the
/// same one.
pub open spec fn served_before(side: Side, a: (Price, OrderId), b: (Price, OrderId)) -> bool {
    rank_of(side, a.0.0 as int) < rank_of(side, b.0.0 as int) || (a.0 == b.0 && a.1.0 < b.1.0)
}

/// Whether a resting order at `price` is reached by a trade at `at`.
pub open spec fn reaches(side: Side, price: int, at: int) -> bool {
    match side {
        Side::Buy => price >= at,
        Side::Sell => price <= at,
    }
}

/// Ids in strictly increasing order.
pub open spec fn ascending(ids: Seq<OrderId>) -> bool {
    forall|i: int, j: int|
        #![trigger ids[i], ids[j]]
        0 <= i < j < ids.len() ==> ids[i].0 < ids[j].0
}

spec fn dom_of(places: SortedMap<Place, ()>) -> Set<(KeyView, (i64, u64))> {
    places@.dom()
}

fn same_market(a: &PositionKey, b: &PositionKey) -> (r: bool)
    ensures
        r == (a@ == b@),
{
    a.0 == b.0 && a.1.0 == b.1.0
}

/// The places of a market down to a rank, in order.
fn scan(places: &SortedMap<Place, ()>, market: &PositionKey, worst: i64) -> (out: Vec<(i64, u64)>)
    requires
        places.wf(),
    ensures
        forall|i: int|
            0 <= i < out@.len() ==> dom_of(*places).contains((market@, #[trigger] out@[i]))
                && out@[i].0 <= worst,
        forall|i: int, j: int|
            #![trigger out@[i], out@[j]]
            0 <= i < j < out@.len() ==> out@[i].0 < out@[j].0 || (out@[i].0 == out@[j].0
                && out@[i].1 < out@[j].1),
        forall|r: i64, id: u64|
            dom_of(*places).contains((market@, (r, id))) && r <= worst ==> #[trigger] out@.contains(
                (r, id),
            ),
{
    let mut out: Vec<(i64, u64)> = Vec::new();
    let mut i: usize = 0;
    proof {
        entries_map_contains(places.seq());
    }
    while i < places.len()
        invariant
            places.wf(),
            i <= places.seq().len(),
            forall|j: int|
                0 <= j < places.seq().len() ==> dom_of(*places).contains(
                    (#[trigger] places.seq()[j]).0@,
                ),
            forall|j: int|
                0 <= j < out@.len() ==> dom_of(*places).contains((market@, #[trigger] out@[j]))
                    && out@[j].0 <= worst,
            forall|j: int|
                #![trigger out@[j]]
                0 <= j < out@.len() ==> exists|k: int|
                    0 <= k < i && (#[trigger] places.seq()[k]).0@ == (market@, out@[j]),
            forall|a: int, b: int|
                #![trigger out@[a], out@[b]]
                0 <= a < b < out@.len() ==> out@[a].0 < out@[b].0 || (out@[a].0 == out@[b].0
                    && out@[a].1 < out@[b].1),
            forall|k: int|
                #![trigger places.seq()[k]]
                0 <= k < i && places.seq()[k].0@.0 == market@ && places.seq()[k].0@.1.0 <= worst
                    ==> out@.contains(places.seq()[k].0@.1),
        decreases places.seq().len() - i,
    {
        let place = places.key_at(i);
        let ghost before = out@;
        if same_market(&place.0, market) && place.1.0 <= worst {
            out.push(place.1);
            proof {
                let here = places.seq()[i as int].0@;
                assert(here == (market@, place.1));
                <PositionKey as OrderedKey>::before_irreflexive(market@);
                assert forall|a: int, b: int|
                    #![trigger out@[a], out@[b]]
                    0 <= a < b < out@.len() implies out@[a].0 < out@[b].0 || (out@[a].0
                    == out@[b].0 && out@[a].1 < out@[b].1) by {
                    if b == before.len() {
                        let k = choose|k: int|
                            0 <= k < i && (#[trigger] places.seq()[k]).0@ == (market@, before[a]);
                        assert(Place::before(places.seq()[k].0@, places.seq()[i as int].0@));
                    } else {
                        assert(out@[a] == before[a] && out@[b] == before[b]);
                    }
                }
                assert forall|j: int|
                    #![trigger out@[j]]
                    0 <= j < out@.len() implies exists|k: int|
                    0 <= k < i + 1 && (#[trigger] places.seq()[k]).0@ == (market@, out@[j]) by {
                    if j < before.len() {
                        let k = choose|k: int|
                            0 <= k < i && (#[trigger] places.seq()[k]).0@ == (market@, before[j]);
                        assert(places.seq()[k].0@ == (market@, out@[j]));
                    } else {
                        assert(places.seq()[i as int].0@ == (market@, out@[j]));
                    }
                }
                assert(out@.last() == place.1);
                assert forall|k: int|
                    #![trigger places.seq()[k]]
                    0 <= k < i + 1 && places.seq()[k].0@.0 == market@ && places.seq()[k].0@.1.0
                        <= worst implies out@.contains(places.seq()[k].0@.1) by {
                    if k < i {
                        let at = choose|at: int|
                            0 <= at < before.len() && before[at] == places.seq()[k].0@.1;
                        assert(out@[at] == places.seq()[k].0@.1);
                    } else {
                        assert(out@[before.len() as int] == places.seq()[k].0@.1);
                    }
                }
            }
        }
        i += 1;
    }
    proof {
        assert forall|r: i64, id: u64|
            dom_of(*places).contains((market@, (r, id))) && r <= worst implies #[trigger] out@.contains(
            (r, id),
        ) by {
            entries_map_contains(places.seq());
            let key = (market@, (r, id));
            assert(entries_map(places.seq()).dom().contains(key));
            let k = choose|k: int|
                0 <= k < places.seq().len() && (#[trigger] places.seq()[k]).0@ == key;
            assert(places.seq()[k].0@ == key);
        }
    }
    out
}

impl RestingIndex {
    pub closed spec fn wf(&self) -> bool {
        self.buys.wf() && self.sells.wf()
    }

    /// Whether an order rests on a side of a market at a price.
    pub closed spec fn rests(&self, side: Side, market: KeyView, price: i64, id: u64) -> bool {
        match side {
            Side::Buy => dom_of(self.buys).contains(
                (market, (rank_of(side, price as int) as i64, id)),
            ),
            Side::Sell => dom_of(self.sells).contains(
                (market, (rank_of(side, price as int) as i64, id)),
            ),
        }
    }

    /// Everything that rests.
    pub open spec fn entries(&self) -> Set<RestingEntry> {
        Set::new(|e: RestingEntry| self.rests(e.0, e.1, e.2, e.3))
    }

    pub fn new() -> (r: Self)
        ensures
            r.wf(),
            r.entries() == Set::<RestingEntry>::empty(),
    {
        let r = RestingIndex { buys: SortedMap::new(), sells: SortedMap::new() };
        assert(r.entries() =~= Set::<RestingEntry>::empty());
        r
    }

    /// Put an order in its place. A market order has none.
    pub fn insert(&mut self, order: &Order, market: PositionKey)
        requires
            old(self).wf(),
        ensures
            final(self).wf(),
            final(self).entries() == (match order.cap() {
                Some(limit) => old(self).entries().insert(
                    (order.side, market@, limit.0, order.id.0),
                ),
                None => old(self).entries(),
            }),
    {
        let limit = match order.limit_price() {
            Some(limit) => limit,
            None => {
                return;
            },
        };
        let place: Place = (market, (rank(order.side, limit.0), order.id.0));
        match order.side {
            Side::Buy => {
                self.buys.insert(place, ());
            },
            Side::Sell => {
                self.sells.insert(place, ());
            },
        }
        assert(self.entries() =~= old(self).entries().insert(
            (order.side, market@, limit.0, order.id.0),
        ));
    }

    /// Take an order out of its place.
    pub fn remove(&mut self, order: &Order, market: PositionKey)
        requires
            old(self).wf(),
        ensures
            final(self).wf(),
            final(self).entries() == (match order.cap() {
                Some(limit) => old(self).entries().remove(
                    (order.side, market@, limit.0, order.id.0),
                ),
                None => old(self).entries(),
            }),
    {
        let limit = match order.limit_price() {
            Some(limit) => limit,
            None => {
                return;
            },
        };
        let place: Place = (market, (rank(order.side, limit.0), order.id.0));
        match order.side {
            Side::Buy => {
                self.buys.remove(&place);
            },
            Side::Sell => {
                self.sells.remove(&place);
            },
        }
        assert(self.entries() =~= old(self).entries().remove(
            (order.side, market@, limit.0, order.id.0),
        ));
    }

    /// The orders a print on the other side reaches: best price first, and
    /// within a price in the order they were submitted.
    pub fn reached_by_trade(
        &self,
        market: &PositionKey,
        passive: Side,
        trade_price: Price,
    ) -> (out: Vec<(Price, OrderId)>)
        requires
            self.wf(),
        ensures
            forall|i: int|
                0 <= i < out@.len() ==> reaches(
                    passive,
                    (#[trigger] out@[i]).0.0 as int,
                    trade_price.0 as int,
                ) && self.rests(passive, market@, out@[i].0.0, out@[i].1.0),
            forall|price: i64, id: u64| #[trigger]
                self.rests(passive, market@, price, id) && reaches(
                    passive,
                    price as int,
                    trade_price.0 as int,
                ) ==> out@.contains((Price(price), OrderId(id))),
            forall|i: int, j: int|
                #![trigger out@[i], out@[j]]
                0 <= i < j < out@.len() ==> served_before(passive, out@[i], out@[j]),
    {
        let places = match passive {
            Side::Buy => scan(&self.buys, market, rank(passive, trade_price.0)),
            Side::Sell => scan(&self.sells, market, rank(passive, trade_price.0)),
        };
        let mut out: Vec<(Price, OrderId)> = Vec::new();
        let mut i: usize = 0;
        while i < places.len()
            invariant
                i <= places@.len(),
                out@.len() == i,
                forall|j: int|
                    0 <= j < i ==> rank_of(passive, (#[trigger] out@[j]).0.0 as int)
                        == places@[j].0 && out@[j].1.0 == places@[j].1,
            decreases places@.len() - i,
        {
            let (r, id) = places[i];
            out.push((Price(rank(passive, r)), OrderId(id)));
            i += 1;
        }
        proof {
            assert forall|i: int, j: int|
                #![trigger out@[i], out@[j]]
                0 <= i < j < out@.len() implies served_before(passive, out@[i], out@[j]) by {
                assert(places@[i].0 <= places@[j].0);
            }
            assert forall|price: i64, id: u64| #[trigger]
                self.rests(passive, market@, price, id) && reaches(
                    passive,
                    price as int,
                    trade_price.0 as int,
                ) implies out@.contains((Price(price), OrderId(id))) by {
                let r = rank_of(passive, price as int) as i64;
                assert(places@.contains((r, id)));
                let k = choose|k: int| 0 <= k < places@.len() && places@[k] == (r, id);
                assert(out@[k] == (Price(price), OrderId(id)));
            }
        }
        out
    }

    /// Whether an order crosses the top of the book it rests against.
    pub open spec fn crosses(
        &self,
        market: KeyView,
        best_bid: Option<Price>,
        best_ask: Option<Price>,
        id: u64,
    ) -> bool {
        ||| best_ask matches Some(ask) && exists|price: i64| #[trigger]
            self.rests(Side::Buy, market, price, id) && price >= ask.0
        ||| best_bid matches Some(bid) && exists|price: i64| #[trigger]
            self.rests(Side::Sell, market, price, id) && price <= bid.0
    }

    /// The orders the top of the book now reaches, in submission order.
    pub fn crossing_top(
        &self,
        market: &PositionKey,
        best_bid: Option<Price>,
        best_ask: Option<Price>,
    ) -> (out: Vec<OrderId>)
        requires
            self.wf(),
        ensures
            ascending(out@),
            forall|id: u64|
                out@.contains(OrderId(id)) <==> #[trigger] self.crosses(
                    market@,
                    best_bid,
                    best_ask,
                    id,
                ),
    {
        let mut ids: SortedMap<u64, ()> = SortedMap::new();
        if let Some(ask) = best_ask {
            let places = scan(&self.buys, market, rank(Side::Buy, ask.0));
            gather(&mut ids, &places);
            proof {
                assert forall|id: u64| #[trigger] ids@.dom().contains(id) <==> (exists|
                    price: i64,
                | #[trigger]
                    self.rests(Side::Buy, market@, price, id) && price >= ask.0) by {
                    if ids@.dom().contains(id) {
                        let k = choose|k: int| 0 <= k < places@.len() && (#[trigger] places@[k]).1 == id;
                        let price = rank_of(Side::Buy, places@[k].0 as int) as i64;
                        assert(places@[k] == (places@[k].0, id));
                        assert(self.rests(Side::Buy, market@, price, id));
                    }
                    if exists|price: i64| #[trigger]
                        self.rests(Side::Buy, market@, price, id) && price >= ask.0 {
                        let price = choose|price: i64| #[trigger]
                            self.rests(Side::Buy, market@, price, id) && price >= ask.0;
                        let r = rank_of(Side::Buy, price as int) as i64;
                        assert(places@.contains((r, id)));
                        let k = choose|k: int| 0 <= k < places@.len() && places@[k] == (r, id);
                        assert(places@[k].1 == id);
                    }
                }
            }
        }
        let ghost bought = ids@;
        if let Some(bid) = best_bid {
            let places = scan(&self.sells, market, rank(Side::Sell, bid.0));
            gather(&mut ids, &places);
            proof {
                assert forall|id: u64| #[trigger] ids@.dom().contains(id) <==> bought.dom().contains(
                    id,
                ) || (exists|price: i64| #[trigger]
                    self.rests(Side::Sell, market@, price, id) && price <= bid.0) by {
                    if ids@.dom().contains(id) && !bought.dom().contains(id) {
                        let k = choose|k: int| 0 <= k < places@.len() && (#[trigger] places@[k]).1 == id;
                        let price = rank_of(Side::Sell, places@[k].0 as int) as i64;
                        assert(places@[k] == (places@[k].0, id));
                        assert(self.rests(Side::Sell, market@, price, id));
                    }
                    if exists|price: i64| #[trigger]
                        self.rests(Side::Sell, market@, price, id) && price <= bid.0 {
                        let price = choose|price: i64| #[trigger]
                            self.rests(Side::Sell, market@, price, id) && price <= bid.0;
                        assert(places@.contains((price, id)));
                        let k = choose|k: int| 0 <= k < places@.len() && places@[k] == (price, id);
                        assert(places@[k].1 == id);
                    }
                }
            }
        }
        listed(&ids)
    }

    /// Every order resting in a market, in submission order.
    pub fn all_for_market(&self, market: &PositionKey) -> (out: Vec<OrderId>)
        requires
            self.wf(),
        ensures
            ascending(out@),
            forall|id: u64|
                #![trigger out@.contains(OrderId(id))]
                out@.contains(OrderId(id)) <==> exists|side: Side, price: i64| #[trigger]
                    self.rests(side, market@, price, id),
    {
        let mut ids: SortedMap<u64, ()> = SortedMap::new();
        let buys = scan(&self.buys, market, i64::MAX);
        gather(&mut ids, &buys);
        let sells = scan(&self.sells, market, i64::MAX);
        gather(&mut ids, &sells);
        proof {
            assert forall|id: u64| #[trigger] ids@.dom().contains(id) <==> (exists|
                side: Side,
                price: i64,
            | #[trigger]
                self.rests(side, market@, price, id)) by {
                if exists|k: int| 0 <= k < buys@.len() && (#[trigger] buys@[k]).1 == id {
                    let k = choose|k: int| 0 <= k < buys@.len() && (#[trigger] buys@[k]).1 == id;
                    assert(buys@[k] == (buys@[k].0, id));
                    let price = rank_of(Side::Buy, buys@[k].0 as int) as i64;
                    assert(self.rests(Side::Buy, market@, price, id));
                } else if exists|k: int| 0 <= k < sells@.len() && (#[trigger] sells@[k]).1 == id {
                    let k = choose|k: int| 0 <= k < sells@.len() && (#[trigger] sells@[k]).1 == id;
                    assert(sells@[k] == (sells@[k].0, id));
                    assert(self.rests(Side::Sell, market@, sells@[k].0, id));
                }
                if exists|side: Side, price: i64| #[trigger]
                    self.rests(side, market@, price, id) {
                    let (side, price) = choose|side: Side, price: i64| #[trigger]
                        self.rests(side, market@, price, id);
                    let r = rank_of(side, price as int) as i64;
                    match side {
                        Side::Buy => {
                            assert(buys@.contains((r, id)));
                            let k = choose|k: int| 0 <= k < buys@.len() && buys@[k] == (r, id);
                            assert(buys@[k].1 == id);
                        },
                        Side::Sell => {
                            assert(sells@.contains((r, id)));
                            let k = choose|k: int| 0 <= k < sells@.len() && sells@[k] == (r, id);
                            assert(sells@[k].1 == id);
                        },
                    }
                }
            }
        }
        listed(&ids)
    }
}

/// Add the ids of a scan to a set of ids.
fn gather(ids: &mut SortedMap<u64, ()>, places: &Vec<(i64, u64)>)
    requires
        old(ids).wf(),
    ensures
        final(ids).wf(),
        forall|id: u64| #[trigger]
            final(ids)@.dom().contains(id) <==> old(ids)@.dom().contains(id) || exists|k: int|
                0 <= k < places@.len() && (#[trigger] places@[k]).1 == id,
{
    let mut i: usize = 0;
    while i < places.len()
        invariant
            i <= places@.len(),
            ids.wf(),
            forall|id: u64| #[trigger]
                ids@.dom().contains(id) <==> old(ids)@.dom().contains(id) || exists|k: int|
                    0 <= k < i && (#[trigger] places@[k]).1 == id,
        decreases places@.len() - i,
    {
        let ghost before = ids@;
        ids.insert(places[i].1, ());
        proof {
            assert forall|id: u64| #[trigger] ids@.dom().contains(id) <==> old(
                ids,
            )@.dom().contains(id) || (exists|k: int| 0 <= k < i + 1 && (#[trigger] places@[k]).1 == id) by {
                if before.dom().contains(id) && !old(ids)@.dom().contains(id) {
                    let k = choose|k: int| 0 <= k < i && (#[trigger] places@[k]).1 == id;
                    assert(places@[k].1 == id);
                }
                if id == places@[i as int].1 {
                    assert(places@[i as int].1 == id);
                }
            }
        }
        i += 1;
    }
}

/// A set of ids as a list in increasing order.
fn listed(ids: &SortedMap<u64, ()>) -> (out: Vec<OrderId>)
    requires
        ids.wf(),
    ensures
        ascending(out@),
        forall|id: u64|
            #![trigger out@.contains(OrderId(id))]
            #![trigger ids@.dom().contains(id)]
            out@.contains(OrderId(id)) <==> ids@.dom().contains(id),
{
    let mut out: Vec<OrderId> = Vec::new();
    let mut i: usize = 0;
    while i < ids.len()
        invariant
            ids.wf(),
            i <= ids.seq().len(),
            out@.len() == i,
            forall|j: int| 0 <= j < i ==> (#[trigger] out@[j]).0 == ids.seq()[j].0,
        decreases ids.seq().len() - i,
    {
        out.push(OrderId(*ids.key_at(i)));
        i += 1;
    }
    proof {
        entries_map_contains(ids.seq());
        assert forall|i: int, j: int|
            #![trigger out@[i], out@[j]]
            0 <= i < j < out@.len() implies out@[i].0 < out@[j].0 by {
            assert(u64::before(ids.seq()[i].0@, ids.seq()[j].0@));
        }
        assert forall|id: u64|
            #![trigger out@.contains(OrderId(id))]
            #![trigger ids@.dom().contains(id)]
            out@.contains(OrderId(id)) <==> ids@.dom().contains(id) by {
            if out@.contains(OrderId(id)) {
                let k = choose|k: int| 0 <= k < out@.len() && out@[k] == OrderId(id);
                assert(ids@.dom().contains(ids.seq()[k].0@));
            }
            if ids@.dom().contains(id) {
                let k = choose|k: int| 0 <= k < ids.seq().len() && (#[trigger] ids.seq()[k]).0@ == id;
                assert(out@[k] == OrderId(id));
            }
        }
    }
    out
}

/// Resting orders are served by price and then by age: the dearest buyer or
/// the cheapest seller first, and at one price the order that was sent first.
pub proof fn resting_orders_are_served_by_price_and_age(
    side: Side,
    a: (Price, OrderId),
    b: (Price, OrderId),
)
    ensures
        side is Buy && a.0.0 > b.0.0 ==> served_before(side, a, b) && !served_before(side, b, a),
        side is Sell && a.0.0 < b.0.0 ==> served_before(side, a, b) && !served_before(side, b, a),
        a.0 == b.0 && a.1.0 < b.1.0 ==> served_before(side, a, b) && !served_before(side, b, a),
        !served_before(side, a, a),
{
}

/// A print reaches a resting order that would have traded at its price: a
/// buyer who bid as much or more, a seller who asked as much or less.
pub proof fn a_print_reaches_what_would_have_traded(price: int, at: int)
    ensures
        reaches(Side::Buy, price, at) <==> at <= price,
        reaches(Side::Sell, price, at) <==> price <= at,
        reaches(Side::Buy, price, price) && reaches(Side::Sell, price, price),
{
}

} // verus!
