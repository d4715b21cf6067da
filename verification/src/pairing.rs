//! Matching, a print and the queue, taken from states that look the same.
//!
//! Two runs are compared stage by stage: from states that look the same, each
//! stage leads to states that look the same.

use vstd::prelude::*;

use crate::account::MarginModel;
use crate::checks::Orders;
use crate::desk::{entry_of, finished, open_in};
use crate::engine::Engine;
use crate::event::Record;
use crate::execution::ExecutionClient;
use crate::market::shown_by;
use crate::models::{FeeModel, FillModel, LatencyModel};
use crate::order::OrderId;
use crate::outcome::{
    answers_agree, charge_alike, reshapes_one_way, same_orders, same_terms, still_open_alike,
};
use crate::position::KeyView;
use crate::queue::{best_price, open_for};
use crate::resting::{reaches, served_before, RestingEntry};
use crate::types::{Price, Qty, Side, UnixNanos};

verus! {

/// Lists in strict order that hold the same are the same.
pub(crate) proof fn in_order_one_way<A>(x: Seq<A>, y: Seq<A>, before: spec_fn(A, A) -> bool)
    requires
        forall|p: A, q: A| #[trigger] before(p, q) ==> !before(q, p),
        forall|i: int, j: int|
            #![trigger x[i], x[j]]
            0 <= i < j < x.len() ==> before(x[i], x[j]),
        forall|i: int, j: int|
            #![trigger y[i], y[j]]
            0 <= i < j < y.len() ==> before(y[i], y[j]),
        forall|e: A| x.contains(e) == #[trigger] y.contains(e),
    ensures
        x == y,
    decreases x.len(),
{
    if x.len() == 0 {
        if y.len() > 0 {
            assert(y.contains(y[0]));
        }
        assert(x =~= y);
    } else {
        assert(x.contains(x[0]));
        assert(y.contains(x[0]));
        assert(y.len() > 0);
        let (m, n) = (x.len() - 1, y.len() - 1);
        assert(x.contains(x[m]) && y.contains(x[m]));
        assert(y[n] == y[n] && y.contains(y[n]));
        assert(x.contains(y[n]));
        let i = choose|i: int| 0 <= i < y.len() && y[i] == x[m];
        let j = choose|j: int| 0 <= j < x.len() && x[j] == y[n];
        if i < n && j < m {
            assert(before(y[i], y[n]) && before(x[j], x[m]));
        }
        assert(x[m] == y[n]);
        let (p, q) = (x.drop_last(), y.drop_last());
        assert forall|e: A| p.contains(e) == #[trigger] q.contains(e) by {
            if p.contains(e) {
                let k = choose|k: int| 0 <= k < p.len() && p[k] == e;
                assert(x[k] == e && x.contains(e) && y.contains(e));
                let l = choose|l: int| 0 <= l < y.len() && y[l] == e;
                assert(before(x[k], x[m]));
                assert(l != n);
                assert(q[l] == e);
            }
            if q.contains(e) {
                let k = choose|k: int| 0 <= k < q.len() && q[k] == e;
                assert(y[k] == e && y.contains(e) && x.contains(e));
                let l = choose|l: int| 0 <= l < x.len() && x[l] == e;
                assert(before(y[k], y[n]));
                assert(l != m);
                assert(p[l] == e);
            }
        }
        assert forall|i: int, j: int|
            #![trigger p[i], p[j]]
            0 <= i < j < p.len() implies before(p[i], p[j]) by {
            assert(p[i] == x[i] && p[j] == x[j]);
        }
        assert forall|i: int, j: int|
            #![trigger q[i], q[j]]
            0 <= i < j < q.len() implies before(q[i], q[j]) by {
            assert(q[i] == y[i] && q[j] == y[j]);
        }
        in_order_one_way(p, q, before);
        assert(x =~= p.push(x[m]));
        assert(y =~= q.push(y[n]));
    }
}

pub(crate) proof fn finished_alike(ids: Seq<OrderId>, a: Orders, b: Orders)
    requires
        same_orders(a, b),
    ensures
        finished(ids, a) == finished(ids, b),
{
    assert forall|k: u64| #[trigger] finished(ids, a).contains(k) == finished(ids, b).contains(
        k,
    ) by {
        assert(a.dom().contains(k) == b.dom().contains(k));
    }
    assert(finished(ids, a) =~= finished(ids, b));
}

impl<F: FeeModel, L: FillModel, T: LatencyModel, M: MarginModel, X: ExecutionClient> Engine<
    F,
    L,
    T,
    M,
    X,
> {
    /// What states that look the same read alike of one market.
    pub(crate) proof fn markets_alike(a: Self, b: Self, key: KeyView)
        requires
            a.same_state(b),
        ensures
            a.market.marks@ == b.market.marks@,
            a.market.book_in(key) is Some == b.market.book_in(key) is Some,
            a.market.book_in(key) matches Some(book) ==> {
                let other = b.market.book_in(key)->Some_0;
                &&& book.wf()
                &&& other.wf()
                &&& shown_by(book) == shown_by(other)
                &&& forall|side: Side| #[trigger] book.ranked(side) == other.ranked(side)
                &&& forall|side: Side| #[trigger] book.side(side) == other.side(side)
                &&& forall|side: Side| #[trigger] book.best(side) == other.best(side)
                &&& book.midpoint() == other.midpoint()
            },
    {
        let (x, y) = (a.market@.books, b.market@.books);
        assert(x.dom().contains(key) == y.dom().contains(key));
        if let Some(book) = a.market.book_in(key) {
            let other = b.market.book_in(key)->Some_0;
            assert(x[key] == y[key]);
            assert(shown_by(book) == shown_by(other));
            assert forall|side: Side| #[trigger] book.side(side) == other.side(side) by {
                match side {
                    Side::Buy => {},
                    Side::Sell => {},
                }
            }
            assert forall|side: Side| #[trigger] book.ranked(side) == other.ranked(side) by {
                book.same_sides_rank_alike(&other, side);
            }
        }
    }

    /// What states that look the same list alike.
    pub(crate) proof fn listed_alike(a: Self, b: Self)
        requires
            a.same_state(b),
        ensures
            a.ledger.portfolio.listed() == b.ledger.portfolio.listed(),
    {
        a.ledger.portfolio.same_positions_list_alike(&b.ledger.portfolio);
    }

    /// What two states have in common, and what holds between each and the
    /// state it comes to, before anything is said of how it comes to it.
    pub(crate) open spec fn paired(
        fees: spec_fn(F, F) -> bool,
        a: Self,
        a2: Self,
        b: Self,
        b2: Self,
    ) -> bool {
        &&& charge_alike(fees)
        &&& reshapes_one_way(a.fill_model)
        &&& a.kin(b, fees)
        &&& answers_agree(a2.talk@, b2.talk@, a.talk@.len() as int)
    }

    /// Where two ways from states that look the same are taken in two parts,
    /// the first parts can be compared, and then the second ones.
    pub(crate) proof fn paired_midway(
        fees: spec_fn(F, F) -> bool,
        a: Self,
        x: Self,
        a2: Self,
        b: Self,
        y: Self,
        b2: Self,
        ts: UnixNanos,
    )
        requires
            Self::paired(fees, a, a2, b, b2),
            a.within(x, ts),
            x.within(a2, ts),
            b.within(y, ts),
            y.within(b2, ts),
        ensures
            Self::paired(fees, a, x, b, y),
            x.kin(y, fees) ==> Self::paired(fees, x, a2, y, b2),
    {
        let n = a.talk@.len() as int;
        let (p, q) = (x.talk@, y.talk@);
        assert forall|i: int|
            n <= i < p.len() && i < q.len() && (#[trigger] p[i]).call == q[i].call && p.take(i)
                == q.take(i) implies p[i].asked == q[i].asked by {
            assert(a2.talk@.take(p.len() as int)[i] == a2.talk@[i]);
            assert(b2.talk@.take(q.len() as int)[i] == b2.talk@[i]);
            assert(a2.talk@.take(i) =~= p.take(i));
            assert(b2.talk@.take(i) =~= q.take(i));
        }
    }

    pub(crate) proof fn trying_all_alike(
        fees: spec_fn(F, F) -> bool,
        a: Self,
        a2: Self,
        b: Self,
        b2: Self,
        ids: Seq<OrderId>,
        ts: UnixNanos,
    )
        requires
            Self::paired(fees, a, a2, b, b2),
            a.tries_all(a2, ids, ts),
            b.tries_all(b2, ids, ts),
        ensures
            a2.kin(b2, fees),
        decreases ids.len(),
    {
        if ids.len() > 0 {
            let rest = ids.drop_last();
            let x = choose|x: Self|
                a.tries_all(x, rest, ts) && #[trigger] x.tries(a2, ids.last(), ts);
            let y = choose|y: Self|
                b.tries_all(y, rest, ts) && #[trigger] y.tries(b2, ids.last(), ts);
            Self::trying_all(a, x, rest, ts);
            Self::trying_all(b, y, rest, ts);
            Self::trying(x, a2, ids.last(), ts);
            Self::trying(y, b2, ids.last(), ts);
            Self::paired_midway(fees, a, x, a2, b, y, b2, ts);
            Self::trying_all_alike(fees, a, x, b, y, rest, ts);
            Self::trying_alike(fees, x, a2, y, b2, ids.last(), ts);
        }
    }

    /// States that look the same index the same resting orders.
    pub(crate) proof fn resting_alike(a: Self, b: Self)
        requires
            a.same_state(b),
            a.sound(),
            b.sound(),
        ensures
            forall|side: Side, market: KeyView, price: i64, id: u64| #[trigger]
                a.desk.resting_index.rests(side, market, price, id)
                    == b.desk.resting_index.rests(side, market, price, id),
    {
        Self::rests_there_too(a, b);
        Self::rests_there_too(b, a);
    }

    pub(crate) proof fn rests_there_too(a: Self, b: Self)
        requires
            a.desk.wf(),
            b.desk.wf(),
            a.desk.resting@ == b.desk.resting@,
            a.desk.orders@.dom() == b.desk.orders@.dom(),
            forall|k: u64| #[trigger]
                a.desk.orders@.dom().contains(k) ==> entry_of(a.desk.orders@[k]) == entry_of(
                    b.desk.orders@[k],
                ),
        ensures
            forall|side: Side, market: KeyView, price: i64, id: u64| #[trigger]
                a.desk.resting_index.rests(side, market, price, id)
                    ==> b.desk.resting_index.rests(side, market, price, id),
    {
        assert forall|side: Side, market: KeyView, price: i64, id: u64| #[trigger]
            a.desk.resting_index.rests(side, market, price, id) implies b.desk.resting_index.rests(
            side,
            market,
            price,
            id,
        ) by {
            let e: RestingEntry = (side, market, price, id);
            assert(a.desk.resting_index.entries().contains(e));
            assert(b.desk.resting@.contains(OrderId(id)));
            assert(b.desk.resting_index.entries().contains(e));
        }
    }

    /// What the top of the book reaches, or rests in a market at all, does so
    /// there too.
    pub(crate) proof fn offered_there_too(
        a: Self,
        b: Self,
        market: KeyView,
        bid: Option<Price>,
        ask: Option<Price>,
        id: u64,
    )
        requires
            forall|side: Side, market: KeyView, price: i64, id: u64| #[trigger]
                a.desk.resting_index.rests(side, market, price, id)
                    == b.desk.resting_index.rests(side, market, price, id),
        ensures
            a.desk.resting_index.crosses(market, bid, ask, id)
                ==> b.desk.resting_index.crosses(market, bid, ask, id),
            (exists|side: Side, price: i64| #[trigger]
                a.desk.resting_index.rests(side, market, price, id)) ==> (exists|
                side: Side,
                price: i64,
            | #[trigger]
                b.desk.resting_index.rests(side, market, price, id)),
    {
        let (p, q) = (a.desk.resting_index, b.desk.resting_index);
        if p.crosses(market, bid, ask, id) {
            if ask is Some && exists|price: i64| #[trigger]
                p.rests(Side::Buy, market, price, id) && price >= (ask->Some_0).0 {
                let price = choose|price: i64| #[trigger]
                    p.rests(Side::Buy, market, price, id) && price >= (ask->Some_0).0;
                assert(q.rests(Side::Buy, market, price, id));
            } else {
                let price = choose|price: i64| #[trigger]
                    p.rests(Side::Sell, market, price, id) && price <= (bid->Some_0).0;
                assert(q.rests(Side::Sell, market, price, id));
            }
        }
        if exists|side: Side, price: i64| #[trigger] p.rests(side, market, price, id) {
            let (side, price) = choose|side: Side, price: i64| #[trigger]
                p.rests(side, market, price, id);
            assert(q.rests(side, market, price, id));
        }
    }

    pub(crate) proof fn offered_alike(
        a: Self,
        b: Self,
        record: Record,
        market: KeyView,
        ours: Seq<OrderId>,
        theirs: Seq<OrderId>,
    )
        requires
            a.same_state(b),
            a.sound(),
            b.sound(),
            a.offers(record, market, ours),
            b.offers(record, market, theirs),
        ensures
            ours == theirs,
    {
        Self::markets_alike(a, b, market);
        Self::resting_alike(a, b);
        if a.market.book_in(market) is Some {
            if record.event is Corporate {
                let (p, q) = (
                    open_for(a.desk.orders@, record.instrument@),
                    open_for(b.desk.orders@, record.instrument@),
                );
                assert forall|id: OrderId| #[trigger] p(id) == q(id) by {
                    assert(a.desk.orders@.dom().contains(id.0) == b.desk.orders@.dom().contains(
                        id.0,
                    ));
                }
                assert(p =~= q);
            } else {
                let book = a.market.book_in(market)->Some_0;
                let bid = best_price(book, Side::Buy);
                let ask = best_price(book, Side::Sell);
                assert forall|id: OrderId| ours.contains(id) == #[trigger] theirs.contains(id) by {
                    assert(id == OrderId(id.0));
                    Self::offered_there_too(a, b, market, bid, ask, id.0);
                    Self::offered_there_too(b, a, market, bid, ask, id.0);
                    assert(ours.contains(OrderId(id.0)) == theirs.contains(OrderId(id.0)));
                }
                let before = |p: OrderId, q: OrderId| p.0 < q.0;
                in_order_one_way(ours, theirs, before);
            }
        }
    }

    pub(crate) proof fn reacting_alike(
        fees: spec_fn(F, F) -> bool,
        a: Self,
        a2: Self,
        b: Self,
        b2: Self,
        record: Record,
        market: KeyView,
    )
        requires
            Self::paired(fees, a, a2, b, b2),
            a.sound(),
            b.sound(),
            a.reacts(a2, record, market),
            b.reacts(b2, record, market),
        ensures
            a2.kin(b2, fees),
    {
        let ts = record.stamps.ts_init;
        let (ids, x) = choose|ids: Seq<OrderId>, x: Self| #[trigger]
            a.rematches(a2, record, market, ids, x);
        let (theirs, y) = choose|theirs: Seq<OrderId>, y: Self| #[trigger]
            b.rematches(b2, record, market, theirs, y);
        Self::offered_alike(a, b, record, market, ids, theirs);
        assert(x.talk == a2.talk && y.talk == b2.talk);
        Self::trying_all_alike(fees, a, x, b, y, ids, ts);
        still_open_alike(x.desk.resting@, x.desk.orders@, y.desk.orders@);
        finished_alike(x.desk.resting@, x.desk.orders@, y.desk.orders@);
    }

    #[verifier::rlimit(40)]
    pub(crate) proof fn working_one_alike(
        fees: spec_fn(F, F) -> bool,
        a: Self,
        a2: Self,
        b: Self,
        b2: Self,
        ours: (Self, Self),
        theirs: (Self, Self),
        entry: (Price, OrderId),
        before: int,
        left: int,
        other: int,
        ts: UnixNanos,
    )
        requires
            Self::paired(fees, a, a2, b, b2),
            a.works_one(ours.0, ours.1, a2, entry, before, left, ts),
            b.works_one(theirs.0, theirs.1, b2, entry, before, other, ts),
        ensures
            a2.kin(b2, fees),
            left == other,
    {
        let id = entry.1;
        let share = a.share_at(id, before);
        if before > 0 {
            assert(same_terms(a.desk.orders@[id.0], b.desk.orders@[id.0]));
            assert(share == b.share_at(id, before));
            assert(ours.0.kin(theirs.0, fees));
            assert(ours.1.talk == a2.talk && theirs.1.talk == b2.talk);
            if share.fill > 0 {
                let size = Qty(share.fill as i64);
                Self::executing_once_alike(
                    fees,
                    ours.0,
                    ours.1,
                    theirs.0,
                    theirs.1,
                    id,
                    entry.0,
                    size,
                    ts,
                );
            }
            assert(ours.1.kin(theirs.1, fees));
            assert(open_in(ours.1.desk.orders@, id.0) == open_in(theirs.1.desk.orders@, id.0)) by {
                assert(ours.1.desk.orders@.dom().contains(id.0)
                    == theirs.1.desk.orders@.dom().contains(id.0));
            }
        }
    }

    pub(crate) proof fn working_queue_alike(
        fees: spec_fn(F, F) -> bool,
        a: Self,
        a2: Self,
        b: Self,
        b2: Self,
        eligible: Seq<(Price, OrderId)>,
        size: int,
        left: int,
        other: int,
        ts: UnixNanos,
    )
        requires
            Self::paired(fees, a, a2, b, b2),
            a.works_queue(a2, eligible, size, left, ts),
            b.works_queue(b2, eligible, size, other, ts),
        ensures
            a2.kin(b2, fees),
            left == other,
        decreases eligible.len(),
    {
        if eligible.len() > 0 {
            let rest = eligible.drop_last();
            let (x, p, q, m) = choose|x: Self, p: Self, q: Self, m: int|
                a.works_queue(x, rest, size, m, ts) && #[trigger] x.works_one(
                    p,
                    q,
                    a2,
                    eligible.last(),
                    m,
                    left,
                    ts,
                );
            let (y, r, s, n) = choose|y: Self, r: Self, s: Self, n: int|
                b.works_queue(y, rest, size, n, ts) && #[trigger] y.works_one(
                    r,
                    s,
                    b2,
                    eligible.last(),
                    n,
                    other,
                    ts,
                );
            Self::working(a, x, rest, size, m, ts);
            Self::working(b, y, rest, size, n, ts);
            Self::working_once(x, p, q, a2, eligible.last(), m, left, ts);
            Self::working_once(y, r, s, b2, eligible.last(), n, other, ts);
            Self::paired_midway(fees, a, x, a2, b, y, b2, ts);
            Self::working_queue_alike(fees, a, x, b, y, rest, size, m, n, ts);
            Self::working_one_alike(
                fees,
                x,
                a2,
                y,
                b2,
                (p, q),
                (r, s),
                eligible.last(),
                m,
                left,
                other,
                ts,
            );
        }
    }

    pub(crate) proof fn reached_alike(
        a: Self,
        b: Self,
        ours: Seq<(Price, OrderId)>,
        theirs: Seq<(Price, OrderId)>,
        passive: Side,
        market: KeyView,
        at: Price,
    )
        requires
            a.same_state(b),
            a.sound(),
            b.sound(),
            a.reached(ours, passive, market, at),
            b.reached(theirs, passive, market, at),
        ensures
            ours == theirs,
    {
        Self::resting_alike(a, b);
        assert forall|e: (Price, OrderId)| ours.contains(e) == #[trigger] theirs.contains(e) by {
            let (p, q) = (a.desk.resting_index, b.desk.resting_index);
            assert(p.rests(passive, market, e.0.0, e.1.0) == q.rests(
                passive,
                market,
                e.0.0,
                e.1.0,
            ));
            assert(e == (Price(e.0.0), OrderId(e.1.0)));
            if ours.contains(e) {
                let i = choose|i: int| 0 <= i < ours.len() && ours[i] == e;
                assert(reaches(passive, ours[i].0.0 as int, at.0 as int));
            }
            if theirs.contains(e) {
                let i = choose|i: int| 0 <= i < theirs.len() && theirs[i] == e;
                assert(reaches(passive, theirs[i].0.0 as int, at.0 as int));
            }
        }
        let before = |p: (Price, OrderId), q: (Price, OrderId)| served_before(passive, p, q);
        in_order_one_way(ours, theirs, before);
    }

    pub(crate) proof fn working_side_alike(
        fees: spec_fn(F, F) -> bool,
        a: Self,
        a2: Self,
        b: Self,
        b2: Self,
        record: Record,
        price: Price,
        size: Qty,
        passive: Side,
    )
        requires
            Self::paired(fees, a, a2, b, b2),
            a.sound(),
            b.sound(),
            a.works_side(a2, record, price, size, passive),
            b.works_side(b2, record, price, size, passive),
        ensures
            a2.kin(b2, fees),
    {
        let market: KeyView = (record.instrument@, record.outcome.0);
        let ts = record.stamps.ts_init;
        let (ours, x, m) = choose|ours: Seq<(Price, OrderId)>, x: Self, m: int| #[trigger]
            a.works_print(a2, ours, x, m, passive, market, price, size, ts);
        let (theirs, y, n) = choose|theirs: Seq<(Price, OrderId)>, y: Self, n: int| #[trigger]
            b.works_print(b2, theirs, y, n, passive, market, price, size, ts);
        Self::reached_alike(a, b, ours, theirs, passive, market, price);
        assert(x.talk == a2.talk && y.talk == b2.talk);
        Self::working_queue_alike(fees, a, x, b, y, ours, size.0 as int, m, n, ts);
        still_open_alike(x.desk.resting@, x.desk.orders@, y.desk.orders@);
        finished_alike(x.desk.resting@, x.desk.orders@, y.desk.orders@);
    }

    pub(crate) proof fn working_trade_alike(
        fees: spec_fn(F, F) -> bool,
        a: Self,
        a2: Self,
        b: Self,
        b2: Self,
        record: Record,
        price: Price,
        size: Qty,
        aggressor: Option<Side>,
    )
        requires
            Self::paired(fees, a, a2, b, b2),
            a.sound(),
            b.sound(),
            a.works_trade(a2, record, price, size, aggressor),
            b.works_trade(b2, record, price, size, aggressor),
        ensures
            a2.kin(b2, fees),
    {
        let ts = record.stamps.ts_init;
        if a.fill_model.tracks_queue() {
            match aggressor {
                Some(side) => {
                    Self::working_side_alike(
                        fees,
                        a,
                        a2,
                        b,
                        b2,
                        record,
                        price,
                        size,
                        side.opposite(),
                    );
                },
                None => {
                    if a.fill_model.counts_unknown_aggressor() {
                        let x = choose|x: Self| #[trigger]
                            a.works_side(x, record, price, size, Side::Buy) && x.sound()
                                && x.works_side(a2, record, price, size, Side::Sell);
                        let y = choose|y: Self| #[trigger]
                            b.works_side(y, record, price, size, Side::Buy) && y.sound()
                                && y.works_side(b2, record, price, size, Side::Sell);
                        Self::working_side(a, x, record, price, size, Side::Buy);
                        Self::working_side(b, y, record, price, size, Side::Buy);
                        Self::working_side(x, a2, record, price, size, Side::Sell);
                        Self::working_side(y, b2, record, price, size, Side::Sell);
                        Self::paired_midway(fees, a, x, a2, b, y, b2, ts);
                        Self::working_side_alike(fees, a, x, b, y, record, price, size, Side::Buy);
                        Self::working_side_alike(
                            fees,
                            x,
                            a2,
                            y,
                            b2,
                            record,
                            price,
                            size,
                            Side::Sell,
                        );
                    }
                },
            }
        }
    }
}

} // verus!
