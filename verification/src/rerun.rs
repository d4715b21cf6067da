//! Data and time, taken from states that look the same.

use vstd::prelude::*;
use vstd::string::*;

use crate::account::MarginModel;
use crate::actions::{closing_terms, mark_points, open_in_instrument, orders_split};
use crate::builder::EngineBuilder;
use crate::checks::Orders;
use crate::clock::TimerKey;
use crate::corporate::CorporateAction;
use crate::desk::{called_off, on_instrument};
use crate::engine::{extends, Engine};
use crate::event::{MarketEvent, Record};
use crate::execution::ExecutionClient;
use crate::instrument::{Instrument, InstrumentId, OutcomeId};
use crate::kernel::{ended, same_operation, same_operations, Ending, RunResult, Trail};
use crate::market::touches_book;
use crate::models::{FeeModel, FillModel, LatencyModel};
use crate::order::{Order, OrderId};
use crate::ordered::{entries_map_contains, sorted_one_way, OrderedKey, SortedMap};
use crate::outcome::{
    answers_agree, charge_alike, reshapes_one_way, same_metrics, same_orders, same_point,
    same_points, same_report, same_reports, same_terms,
};
use crate::pairing::in_order_one_way;
use crate::position::{KeyView, PositionKey};
use crate::request::SetOperation;
use crate::strategy::{
    answered, asks_alike, same_calls_same_answers, talked, Exchange, Strategy, Told,
};
use crate::text::int_text;
use crate::timeline::extends_again;
use crate::types::{magnitude, Price, Qty, UnixNanos};

verus! {

pub(crate) proof fn split_orders_alike(
    a: Orders,
    b: Orders,
    ids: Seq<OrderId>,
    instrument: Seq<char>,
    ratio: Price,
)
    requires
        same_orders(a, b),
    ensures
        same_orders(
            orders_split(a, ids, instrument, ratio),
            orders_split(b, ids, instrument, ratio),
        ),
    decreases ids.len(),
{
    if ids.len() > 0 {
        let rest = ids.drop_last();
        split_orders_alike(a, b, rest, instrument, ratio);
        let (p, q) = (
            orders_split(a, rest, instrument, ratio),
            orders_split(b, rest, instrument, ratio),
        );
        let id = ids.last().0;
        assert(p.dom().contains(id) == q.dom().contains(id));
        let (x, y) = (
            orders_split(a, ids, instrument, ratio),
            orders_split(b, ids, instrument, ratio),
        );
        assert(x.dom() =~= y.dom());
        assert forall|k: u64| #[trigger] x.dom().contains(k) implies same_terms(x[k], y[k]) by {
            assert(p.dom().contains(k));
            assert(same_terms(p[k], q[k]));
        }
    }
}

pub(crate) proof fn points_alike(
    p: Seq<(PositionKey, Price)>,
    q: Seq<(PositionKey, Price)>,
    instruments: Map<Seq<char>, Instrument>,
    ts: UnixNanos,
)
    requires
        p.len() == q.len(),
        forall|i: int| 0 <= i < p.len() ==> (#[trigger] p[i]).0@ == q[i].0@ && p[i].1 == q[i].1,
    ensures
        same_points(mark_points(p, instruments, ts), mark_points(q, instruments, ts)),
    decreases p.len(),
{
    if p.len() > 0 {
        let (r, s) = (p.drop_last(), q.drop_last());
        assert forall|i: int| 0 <= i < r.len() implies (#[trigger] r[i]).0@ == s[i].0@ && r[i].1
            == s[i].1 by {
            assert(r[i] == p[i] && s[i] == q[i]);
        }
        points_alike(r, s, instruments, ts);
        let n = p.len() - 1;
        assert(p[n].0@ == q[n].0@ && p[n].1 == q[n].1);
        assert(p[n].0@ == (p[n].0.0@, p[n].0.1.0));
        assert(q[n].0@ == (q[n].0.0@, q[n].0.1.0));
    }
}

/// Two lists of orders on the same terms.
pub open spec fn same_order_list(a: Seq<Order>, b: Seq<Order>) -> bool {
    a.len() == b.len() && forall|i: int| 0 <= i < a.len() ==> same_terms(a[i], #[trigger] b[i])
}

proof fn answered_so_far<S: Strategy>(before: S, after: S, said: Seq<Exchange>, k: int)
    requires
        answered(before, after, said),
        0 <= k <= said.len(),
    ensures
        exists|between: S| #[trigger] answered(before, between, said.take(k)),
    decreases said.len(),
{
    if k == said.len() {
        assert(said.take(k) =~= said);
    } else {
        let rest = said.drop_last();
        let between = choose|between: S|
            answered(before, between, rest) && #[trigger] between.hears(
                said.last().call,
                &after,
                said.last().asked,
            );
        answered_so_far(before, between, rest, k);
        assert(rest.take(k) =~= said.take(k));
    }
}

/// Strategies that are alike and ask alike agree, whatever they are told and
/// shown: as long as that is the same, so is what they ask for.
pub proof fn like_strategies_agree<S: Strategy>(
    alike: spec_fn(S, S) -> bool,
    a: S,
    a2: S,
    b: S,
    b2: S,
    said: Seq<Exchange>,
    x: Seq<Exchange>,
    y: Seq<Exchange>,
)
    requires
        asks_alike(alike),
        alike(a, b),
        talked(a, a2, said, x),
        talked(b, b2, said, y),
    ensures
        answers_agree(x, y, said.len() as int),
{
    let n = said.len() as int;
    let (p, q) = (x.skip(n), y.skip(n));
    assert forall|i: int|
        n <= i < x.len() && i < y.len() && (#[trigger] x[i]).call == y[i].call && x.take(i)
            == y.take(i) implies x[i].asked == y[i].asked by {
        let k = i - n + 1;
        answered_so_far(a, a2, p, k);
        answered_so_far(b, b2, q, k);
        let am = choose|am: S| #[trigger] answered(a, am, p.take(k));
        let bm = choose|bm: S| #[trigger] answered(b, bm, q.take(k));
        let (r, s) = (p.take(k), q.take(k));
        assert forall|j: int| 0 <= j < r.len() implies (#[trigger] r[j]).call == s[j].call by {
            assert(r[j] == x[n + j] && s[j] == y[n + j]);
            if n + j < i {
                assert(x.take(i)[n + j] == y.take(i)[n + j]);
            }
        }
        same_calls_same_answers(alike, a, am, b, bm, r, s);
        assert(r[i - n] == x[i] && s[i - n] == y[i]);
    }
}

/// Orders on the same terms are listed alike.
proof fn orders_listed_alike(x: SortedMap<u64, Order>, y: SortedMap<u64, Order>)
    requires
        x.wf(),
        y.wf(),
        same_orders(x@, y@),
    ensures
        x.seq().len() == y.seq().len(),
        forall|i: int|
            0 <= i < x.seq().len() ==> same_terms(x.seq()[i].1, #[trigger] y.seq()[i].1),
{
    let (p, q) = (x.seq(), y.seq());
    entries_map_contains(p);
    entries_map_contains(q);
    let (m, n) = (Seq::new(p.len(), |i: int| p[i].0), Seq::new(q.len(), |i: int| q[i].0));
    let before = |k: u64, l: u64| k < l;
    assert forall|i: int, j: int|
        #![trigger m[i], m[j]]
        0 <= i < j < m.len() implies before(m[i], m[j]) by {
        assert(<u64 as OrderedKey>::before(p[i].0@, p[j].0@));
    }
    assert forall|i: int, j: int|
        #![trigger n[i], n[j]]
        0 <= i < j < n.len() implies before(n[i], n[j]) by {
        assert(<u64 as OrderedKey>::before(q[i].0@, q[j].0@));
    }
    assert forall|k: u64| m.contains(k) == #[trigger] n.contains(k) by {
        if m.contains(k) {
            let i = choose|i: int| 0 <= i < m.len() && m[i] == k;
            assert(p[i].0@ == k);
            assert(x@.dom().contains(k) && y@.dom().contains(k));
            let j = choose|j: int| 0 <= j < q.len() && (#[trigger] q[j]).0@ == k;
            assert(n[j] == k);
        }
        if n.contains(k) {
            let i = choose|i: int| 0 <= i < n.len() && n[i] == k;
            assert(q[i].0@ == k);
            assert(y@.dom().contains(k) && x@.dom().contains(k));
            let j = choose|j: int| 0 <= j < p.len() && (#[trigger] p[j]).0@ == k;
            assert(m[j] == k);
        }
    }
    in_order_one_way(m, n, before);
    assert forall|i: int| 0 <= i < p.len() implies same_terms(p[i].1, #[trigger] q[i].1) by {
        assert(m[i] == n[i]);
        assert(p[i].0 == q[i].0);
        assert(x@.dom().contains(p[i].0@));
        assert(x@[p[i].0@] == p[i].1);
        assert(y@[q[i].0@] == q[i].1);
    }
}

proof fn endings_alike(p: Seq<(u64, Order)>, q: Seq<(u64, Order)>, how: Ending)
    requires
        p.len() == q.len(),
        forall|i: int| 0 <= i < p.len() ==> same_terms(p[i].1, #[trigger] q[i].1),
    ensures
        ended(p, how) == ended(q, how),
    decreases p.len(),
{
    if p.len() > 0 {
        let (r, s) = (p.drop_last(), q.drop_last());
        assert forall|i: int| 0 <= i < r.len() implies same_terms(r[i].1, #[trigger] s[i].1) by {
            assert(r[i] == p[i] && s[i] == q[i]);
        }
        endings_alike(r, s, how);
        let n = p.len() - 1;
        assert(same_terms(p[n].1, q[n].1));
    }
}

proof fn reports_carried_alike(
    p: Seq<SetOperation>,
    q: Seq<SetOperation>,
    x: Seq<SetOperation>,
    y: Seq<SetOperation>,
)
    requires
        same_reports(p, q),
        same_operations(p, x),
        same_operations(q, y),
    ensures
        same_reports(x, y),
{
    assert forall|i: int| 0 <= i < x.len() implies same_report(x[i], #[trigger] y[i]) by {
        assert(same_operation(q[i], y[i]));
        assert(same_operation(p[i], x[i]));
        assert(same_report(p[i], q[i]));
    }
}

impl<F: FeeModel, L: FillModel, T: LatencyModel, M: MarginModel, X: ExecutionClient> Engine<
    F,
    L,
    T,
    M,
    X,
> {
    /// One holding paid out from states that look the same.
    pub(crate) proof fn paying_out_alike(
        fees: spec_fn(F, F) -> bool,
        a: Self,
        a2: Self,
        b: Self,
        b2: Self,
        instrument: InstrumentId,
        held: Seq<(OutcomeId, Qty)>,
        price: Price,
        ts: UnixNanos,
    )
        requires
            charge_alike(fees),
            a.kin(b, fees),
            a.pays_out_all(a2, instrument, held, price, ts),
            b.pays_out_all(b2, instrument, held, price, ts),
        ensures
            a2.kin(b2, fees),
        decreases held.len(),
    {
        if held.len() > 0 {
            let rest = held.drop_last();
            let x = choose|x: Self|
                a.pays_out_all(x, instrument, rest, price, ts) && #[trigger] x.pays_out(
                    a2,
                    instrument,
                    held.last(),
                    price,
                    ts,
                );
            let y = choose|y: Self|
                b.pays_out_all(y, instrument, rest, price, ts) && #[trigger] y.pays_out(
                    b2,
                    instrument,
                    held.last(),
                    price,
                    ts,
                );
            Self::paying_out_alike(fees, a, x, b, y, instrument, rest, price, ts);
            let (p, order) = choose|p: Self, order: Order| #[trigger]
                x.cashes_out(a2, p, order, instrument, held.last(), price, ts);
            let (q, other) = choose|q: Self, other: Order| #[trigger]
                y.cashes_out(b2, q, other, instrument, held.last(), price, ts);
            assert(order == other);
            Self::issuing_alike(fees, x, p, y, q, order);
            let size = Qty(magnitude(held.last().1.0 as int) as i64);
            let terms = closing_terms(
                price,
                size,
                p.charges(order.id, price, size, false, ts)->Ok_0,
            );
            let other_terms = closing_terms(
                price,
                size,
                q.charges(order.id, price, size, false, ts)->Ok_0,
            );
            let r = choose|r: Self| #[trigger]
                p.pays(r, order.id, price, size, false, ts) && r.records(
                    a2,
                    order.id,
                    terms,
                    ts,
                );
            let s = choose|s: Self| #[trigger]
                q.pays(s, order.id, price, size, false, ts) && s.records(
                    b2,
                    order.id,
                    other_terms,
                    ts,
                );
            assert(same_terms(p.desk.orders@[order.id.0], q.desk.orders@[order.id.0]));
            assert(terms == other_terms);
            assert(r.kin(s, fees));
            Self::taking_alike(fees, r, a2, s, b2, order.id, terms, ts);
        }
    }

    pub(crate) proof fn acting_alike(
        fees: spec_fn(F, F) -> bool,
        a: Self,
        a2: Self,
        b: Self,
        b2: Self,
        instrument: InstrumentId,
        action: CorporateAction,
        ts: UnixNanos,
    )
        requires
            charge_alike(fees),
            a.kin(b, fees),
            a2.market.wf(),
            b2.market.wf(),
            a.acts(a2, instrument, action, ts),
            b.acts(b2, instrument, action, ts),
        ensures
            a2.kin(b2, fees),
    {
        Self::listed_alike(a, b);
        match action {
            CorporateAction::Split { ratio } => {
                let count = a.setup.instruments@[instrument@].count() as int;
                a.market.splits_one_way(a2.market, b.market, b2.market, instrument@, count, ratio, ts);
                assert(a2.ledger.portfolio.listed() =~= b2.ledger.portfolio.listed());
                a2.ledger.portfolio.same_lists_hold_alike(&b2.ledger.portfolio);
                split_orders_alike(
                    a.desk.orders@,
                    b.desk.orders@,
                    a.desk.resting@,
                    instrument@,
                    ratio,
                );
            },
            CorporateAction::Dividend { per_share } => {},
            CorporateAction::Delist { final_price } => {
                let held = open_in_instrument(a.ledger.portfolio.listed(), instrument@);
                let x = choose|x: Self| #[trigger]
                    x.takes_off(a2, instrument) && a.pays_out_all(
                        x,
                        instrument,
                        held,
                        final_price,
                        ts,
                    );
                let y = choose|y: Self| #[trigger]
                    y.takes_off(b2, instrument) && b.pays_out_all(
                        y,
                        instrument,
                        held,
                        final_price,
                        ts,
                    );
                Self::paying_out_alike(fees, a, x, b, y, instrument, held, final_price, ts);
            },
        }
    }

    pub(crate) proof fn applying_alike(
        fees: spec_fn(F, F) -> bool,
        a: Self,
        a2: Self,
        b: Self,
        b2: Self,
        record: Record,
    )
        requires
            charge_alike(fees),
            a.kin(b, fees),
            a.applies(a2, record),
            b.applies(b2, record),
        ensures
            a2.kin(b2, fees),
    {
        let ts = record.stamps.ts_init;
        let key: KeyView = (record.instrument@, record.outcome.0);
        let (p, x) = choose|p: Self, x: Self| #[trigger] a.takes_in(a2, record, p, x);
        let (q, y) = choose|q: Self, y: Self| #[trigger] b.takes_in(b2, record, q, y);
        a.market.opens_one_way(p.market, b.market, q.market, key);
        assert(p.kin(q, fees));
        Self::meeting_data_alike(fees, p, x, q, y, record);
        x.market.settles_one_way(a2.market, y.market, b2.market, key, touches_book(record.event));
    }

    pub(crate) proof fn meeting_data_alike(
        fees: spec_fn(F, F) -> bool,
        a: Self,
        a2: Self,
        b: Self,
        b2: Self,
        record: Record,
    )
        requires
            charge_alike(fees),
            a.kin(b, fees),
            a2.market.wf(),
            b2.market.wf(),
            a.market.books@.dom().contains((record.instrument@, record.outcome.0)),
            a.meets(a2, record),
            b.meets(b2, record),
        ensures
            a2.kin(b2, fees),
    {
        let ts = record.stamps.ts_init;
        let key: KeyView = (record.instrument@, record.outcome.0);
        Self::marks_alike(a, b);
        Self::listed_alike(a, b);
        match record.event {
            MarketEvent::Funding { rate } => {},
            MarketEvent::Corporate(action) => {
                Self::acting_alike(fees, a, a2, b, b2, record.instrument, action, ts);
            },
            _ => {
                a.market.takes_one_way(a2.market, b.market, b2.market, key, record.event, ts);
            },
        }
    }

    pub(crate) proof fn expiring_next_alike(fees: spec_fn(F, F) -> bool, a: Self, a2: Self, b: Self, b2: Self)
        requires
            a.kin(b, fees),
            a.expires_next(a2),
            b.expires_next(b2),
        ensures
            a2.kin(b2, fees),
    {
        let (at, instrument) = a.board.expiries@[a.board.next_expiry as int];
        if !a.board.expired@.dom().contains(instrument@) {
            let (o, r) = (a.desk.orders@, b.desk.orders@);
            let (p, q) = (on_instrument(o, instrument@), on_instrument(r, instrument@));
            assert forall|id: OrderId| #[trigger] p(id) == q(id) by {
                assert(o.dom().contains(id.0) == r.dom().contains(id.0));
            }
            assert(p =~= q);
            let ids = a.desk.resting@.filter(p);
            let text = instrument@ + " stopped trading at "@ + int_text(at as int);
            let ours = choose|reason: String|
                reason@ == text && a2.desk.orders@ == #[trigger] called_off(o, ids, reason);
            let theirs = choose|reason: String|
                reason@ == text && b2.desk.orders@ == #[trigger] called_off(r, ids, reason);
            let (x, y) = (called_off(o, ids, ours), called_off(r, ids, theirs));
            assert(x.dom() =~= y.dom());
            assert forall|k: u64| #[trigger] x.dom().contains(k) implies same_terms(x[k], y[k]) by {
                assert(same_terms(o[k], r[k]));
            }
            assert(same_orders(x, y));
        }
    }

    pub(crate) proof fn expiring_alike(
        fees: spec_fn(F, F) -> bool,
        a: Self,
        a2: Self,
        b: Self,
        b2: Self,
        n: nat,
    )
        requires
            a.kin(b, fees),
            a.expires_some(a2, n),
            b.expires_some(b2, n),
        ensures
            a2.kin(b2, fees),
        decreases n,
    {
        if n > 0 {
            let less = (n - 1) as nat;
            let x = choose|x: Self| a.expires_some(x, less) && #[trigger] x.expires_next(a2);
            let y = choose|y: Self| b.expires_some(y, less) && #[trigger] y.expires_next(b2);
            Self::expiring_alike(fees, a, x, b, y, less);
            Self::expiring_next_alike(fees, x, a2, y, b2);
        }
    }

    /// How many expiries are due is told by the board and the clock alone.
    pub(crate) proof fn expiring_by_alike(
        fees: spec_fn(F, F) -> bool,
        a: Self,
        a2: Self,
        b: Self,
        b2: Self,
        ts: UnixNanos,
    )
        requires
            a.kin(b, fees),
            a.expires_by(a2, ts),
            b.expires_by(b2, ts),
        ensures
            a2.kin(b2, fees),
    {
        let from = a.board.next_expiry;
        let (m, n) = (a2.board.next_expiry, b2.board.next_expiry);
        let expiries = a.board.expiries@;
        if m < n {
            assert(expiries[m as int].0 <= ts.0);
        }
        if n < m {
            assert(expiries[n as int].0 <= ts.0);
        }
        Self::expiring_alike(fees, a, a2, b, b2, (m - from) as nat);
    }

    pub(crate) proof fn hearing_alike(
        fees: spec_fn(F, F) -> bool,
        a: Self,
        a2: Self,
        b: Self,
        b2: Self,
        events: Seq<TimerKey>,
        ts: UnixNanos,
    )
        requires
            Self::paired(fees, a, a2, b, b2),
            a.hears(a2, events),
            b.hears(b2, events),
        ensures
            a2.kin(b2, fees),
        decreases events.len(),
    {
        if events.len() > 0 {
            let rest = events.drop_last();
            let told = Told::Timer(events.last());
            let x = choose|x: Self|
                a.hears(x, rest) && #[trigger] x.listens(a2, Told::Timer(events.last()));
            let y = choose|y: Self|
                b.hears(y, rest) && #[trigger] y.listens(b2, Told::Timer(events.last()));
            Self::hearing(a, x, rest, ts);
            Self::hearing(b, y, rest, ts);
            Self::listening(x, a2, told, ts);
            Self::listening(y, b2, told, ts);
            Self::paired_midway(fees, a, x, a2, b, y, b2, ts);
            Self::hearing_alike(fees, a, x, b, y, rest, ts);
            Self::listening_alike(fees, x, a2, y, b2, told);
        }
    }

    pub(crate) proof fn waking_alike(
        fees: spec_fn(F, F) -> bool,
        a: Self,
        a2: Self,
        b: Self,
        b2: Self,
        ts: UnixNanos,
    )
        requires
            Self::paired(fees, a, a2, b, b2),
            a.wakes(a2, ts),
            b.wakes(b2, ts),
        ensures
            a2.kin(b2, fees),
    {
        let keys = a.due_by(ts);
        let x = choose|x: Self| #[trigger] a.moves_clock(x, ts) && x.hears(a2, a.due_by(ts));
        let y = choose|y: Self| #[trigger] b.moves_clock(y, ts) && y.hears(b2, b.due_by(ts));
        assert(x.kin(y, fees));
        Self::hearing_alike(fees, x, a2, y, b2, keys, ts);
    }

    pub(crate) proof fn pushing_alike(
        fees: spec_fn(F, F) -> bool,
        a: Self,
        a2: Self,
        b: Self,
        b2: Self,
        ts: UnixNanos,
    )
        requires
            a.kin(b, fees),
            a.pushes_equity(a2, ts),
            b.pushes_equity(b2, ts),
        ensures
            a2.kin(b2, fees),
    {
        Self::listed_alike(a, b);
        Self::marks_alike(a, b);
        let (p, q) = (a.market.marks.seq(), b.market.marks.seq());
        sorted_one_way(p, q);
        points_alike(p, q, a.setup.instruments@, ts);
        let (x, y) = (
            mark_points(p, a.setup.instruments@, ts),
            mark_points(q, a.setup.instruments@, ts),
        );
        let (m, n) = (a.journal.mark_curve@, b.journal.mark_curve@);
        assert(same_points(m + x, n + y)) by {
            assert forall|i: int| 0 <= i < (m + x).len() implies same_point(
                (m + x)[i],
                #[trigger] (n + y)[i],
            ) by {
                if i < m.len() {
                    assert(same_point(m[i], n[i]));
                } else {
                    assert(same_point(x[i - m.len()], y[i - m.len()]));
                }
            }
        }
    }

    pub(crate) proof fn sampling_alike(
        fees: spec_fn(F, F) -> bool,
        a: Self,
        a2: Self,
        b: Self,
        b2: Self,
        ts: UnixNanos,
    )
        requires
            a.kin(b, fees),
            a.samples(a2, ts),
            b.samples(b2, ts),
        ensures
            a2.kin(b2, fees),
    {
        if a.sample_due(ts) {
            let x = choose|x: Self| #[trigger] a.pushes_equity(x, ts) && x.rearms(a2, ts);
            let y = choose|y: Self| #[trigger] b.pushes_equity(y, ts) && y.rearms(b2, ts);
            Self::pushing_alike(fees, a, x, b, y, ts);
        }
    }

    /// A record played through from states that look the same leads to states
    /// that look the same.
    pub(crate) proof fn stepping_alike(
        fees: spec_fn(F, F) -> bool,
        a: Self,
        a2: Self,
        b: Self,
        b2: Self,
        record: Record,
    )
        requires
            Self::paired(fees, a, a2, b, b2),
            a.steps(a2, record),
            b.steps(b2, record),
        ensures
            a2.kin(b2, fees),
    {
        reveal(Engine::steps);
        let t = choose|t: Trail<Self>| #[trigger] a.passes(a2, record, t);
        let u = choose|u: Trail<Self>| #[trigger] b.passes(b2, record, u);
        Self::passing(a, a2, record, t);
        Self::passing(b, b2, record, u);
        Self::first_half_alike(fees, a, a2, b, b2, record, t, u);
        Self::second_half_alike(fees, a, a2, b, b2, record, t, u);
        Self::counting_alike(fees, a, b, record, t, u);
        Self::sampling_alike(fees, t.counted, a2, u.counted, b2, record.stamps.ts_init);
    }

    /// A state on the way of a step: the conversation goes by it, and the fill
    /// model is still the same.
    pub(crate) open spec fn goes_by(self, on_the_way: Self, after: Self) -> bool {
        &&& extends(self.talk@, on_the_way.talk@)
        &&& extends(on_the_way.talk@, after.talk@)
        &&& on_the_way.fill_model == self.fill_model
    }

    /// The conversation along the stages of a step.
    #[verifier::rlimit(40)]
    proof fn passing(a: Self, b: Self, record: Record, t: Trail<Self>)
        requires
            a.passes(b, record, t),
        ensures
            a.goes_by(t.timed, b),
            a.goes_by(t.expired, b),
            a.goes_by(t.applied, b),
            a.goes_by(t.printed, b),
            a.goes_by(t.matched, b),
            a.goes_by(t.called, b),
            a.goes_by(t.isolated, b),
            a.goes_by(t.armed, b),
            a.goes_by(t.worked, b),
            a.goes_by(t.told, b),
            a.goes_by(t.delivered, b),
    {
        reveal(Engine::got_timed);
        reveal(Engine::got_applied);
        reveal(Engine::got_printed);
        reveal(Engine::got_matched);
        reveal(Engine::got_called);
        reveal(Engine::got_isolated);
        reveal(Engine::got_armed);
        reveal(Engine::got_worked);
        reveal(Engine::got_told);
        reveal(Engine::got_counted);
        let ts = record.stamps.ts_init;
        let moved = choose|moved: Self| #[trigger]
            a.moves_clock(moved, ts) && moved.hears(t.timed, a.due_by(ts));
        Self::hearing(moved, t.timed, a.due_by(ts), ts);
        let due = (t.expired.board.next_expiry - t.timed.board.next_expiry) as nat;
        Self::expiring(t.timed, t.expired, due);
        Self::applying(t.expired, t.applied, record);
        t.applied.within_itself(ts);
        if let MarketEvent::Trade { price, size, aggressor } = record.event {
            Self::working_trade(t.applied, t.printed, record, price, size, aggressor);
        }
        let market = (record.instrument@, record.outcome.0);
        let (ids, tried) = choose|ids: Seq<OrderId>, tried: Self| #[trigger]
            t.printed.rematches(t.matched, record, market, ids, tried);
        Self::trying_all(t.printed, tried, ids, ts);
        Self::answering(t.matched, t.called, ts);
        Self::answering_isolated(t.called, t.isolated, ts);
        Self::releasing(t.isolated, t.armed, ts);
        Self::scheduling(t.armed, t.worked, ts);
        Self::listening(t.worked, t.told, Told::Event(record), ts);
        Self::delivering(t.told, t.delivered, ts);
        t.timed.within_itself(ts);
        assert(t.expired.talk == t.timed.talk && b.talk == t.delivered.talk);
        assert(t.matched.talk == tried.talk);
        extends_again(a.talk@, t.timed.talk@, t.expired.talk@);
        extends_again(a.talk@, t.expired.talk@, t.applied.talk@);
        extends_again(a.talk@, t.applied.talk@, t.printed.talk@);
        extends_again(a.talk@, t.printed.talk@, t.matched.talk@);
        extends_again(a.talk@, t.matched.talk@, t.called.talk@);
        extends_again(a.talk@, t.called.talk@, t.isolated.talk@);
        extends_again(a.talk@, t.isolated.talk@, t.armed.talk@);
        extends_again(a.talk@, t.armed.talk@, t.worked.talk@);
        extends_again(a.talk@, t.worked.talk@, t.told.talk@);
        extends_again(a.talk@, t.told.talk@, t.delivered.talk@);
        assert(b.talk@.take(b.talk@.len() as int) =~= b.talk@);
        extends_again(t.told.talk@, t.delivered.talk@, b.talk@);
        extends_again(t.worked.talk@, t.told.talk@, b.talk@);
        extends_again(t.armed.talk@, t.worked.talk@, b.talk@);
        extends_again(t.isolated.talk@, t.armed.talk@, b.talk@);
        extends_again(t.called.talk@, t.isolated.talk@, b.talk@);
        extends_again(t.matched.talk@, t.called.talk@, b.talk@);
        extends_again(t.printed.talk@, t.matched.talk@, b.talk@);
        extends_again(t.applied.talk@, t.printed.talk@, b.talk@);
        extends_again(t.expired.talk@, t.applied.talk@, b.talk@);
        extends_again(t.timed.talk@, t.expired.talk@, b.talk@);
    }

    /// Up to the matching of resting orders.
    proof fn first_half_alike(
        fees: spec_fn(F, F) -> bool,
        a: Self,
        a2: Self,
        b: Self,
        b2: Self,
        record: Record,
        t: Trail<Self>,
        u: Trail<Self>,
    )
        requires
            Self::paired(fees, a, a2, b, b2),
            a.got_counted(record, t),
            b.got_counted(record, u),
            a.goes_by(t.timed, a2),
            b.goes_by(u.timed, b2),
            a.goes_by(t.expired, a2),
            b.goes_by(u.expired, b2),
            a.goes_by(t.applied, a2),
            b.goes_by(u.applied, b2),
            a.goes_by(t.printed, a2),
            b.goes_by(u.printed, b2),
            a.goes_by(t.matched, a2),
            b.goes_by(u.matched, b2),
            a.goes_by(t.called, a2),
            b.goes_by(u.called, b2),
            a.goes_by(t.isolated, a2),
            b.goes_by(u.isolated, b2),
            a.goes_by(t.armed, a2),
            b.goes_by(u.armed, b2),
            a.goes_by(t.worked, a2),
            b.goes_by(u.worked, b2),
            a.goes_by(t.told, a2),
            b.goes_by(u.told, b2),
            a.goes_by(t.delivered, a2),
            b.goes_by(u.delivered, b2),
        ensures
            t.matched.kin(u.matched, fees),
    {
        reveal(Engine::got_timed);
        reveal(Engine::got_applied);
        reveal(Engine::got_printed);
        reveal(Engine::got_matched);
        reveal(Engine::got_called);
        reveal(Engine::got_isolated);
        reveal(Engine::got_armed);
        reveal(Engine::got_worked);
        reveal(Engine::got_told);
        reveal(Engine::got_counted);
        let ts = record.stamps.ts_init;
        Self::from_the_start(fees, a, a2, b, b2, t.timed, u.timed);
        Self::waking_alike(fees, a, t.timed, b, u.timed, ts);
        Self::expiring_by_alike(fees, t.timed, t.expired, u.timed, u.expired, ts);
        Self::applying_alike(fees, t.expired, t.applied, u.expired, u.applied, record);
        Self::paired_there(fees, a, a2, b, b2, t.applied, t.printed, u.applied, u.printed);
        if let MarketEvent::Trade { price, size, aggressor } = record.event {
            Self::working_trade_alike(
                fees,
                t.applied,
                t.printed,
                u.applied,
                u.printed,
                record,
                price,
                size,
                aggressor,
            );
        }
        Self::paired_there(fees, a, a2, b, b2, t.printed, t.matched, u.printed, u.matched);
        let market: KeyView = (record.instrument@, record.outcome.0);
        Self::reacting_alike(fees, t.printed, t.matched, u.printed, u.matched, record, market);
    }

    /// From the matching of resting orders on.
    proof fn second_half_alike(
        fees: spec_fn(F, F) -> bool,
        a: Self,
        a2: Self,
        b: Self,
        b2: Self,
        record: Record,
        t: Trail<Self>,
        u: Trail<Self>,
    )
        requires
            Self::paired(fees, a, a2, b, b2),
            a.got_counted(record, t),
            b.got_counted(record, u),
            t.matched.kin(u.matched, fees),
            a.goes_by(t.timed, a2),
            b.goes_by(u.timed, b2),
            a.goes_by(t.expired, a2),
            b.goes_by(u.expired, b2),
            a.goes_by(t.applied, a2),
            b.goes_by(u.applied, b2),
            a.goes_by(t.printed, a2),
            b.goes_by(u.printed, b2),
            a.goes_by(t.matched, a2),
            b.goes_by(u.matched, b2),
            a.goes_by(t.called, a2),
            b.goes_by(u.called, b2),
            a.goes_by(t.isolated, a2),
            b.goes_by(u.isolated, b2),
            a.goes_by(t.armed, a2),
            b.goes_by(u.armed, b2),
            a.goes_by(t.worked, a2),
            b.goes_by(u.worked, b2),
            a.goes_by(t.told, a2),
            b.goes_by(u.told, b2),
            a.goes_by(t.delivered, a2),
            b.goes_by(u.delivered, b2),
        ensures
            t.delivered.kin(u.delivered, fees),
    {
        reveal(Engine::got_timed);
        reveal(Engine::got_applied);
        reveal(Engine::got_printed);
        reveal(Engine::got_matched);
        reveal(Engine::got_called);
        reveal(Engine::got_isolated);
        reveal(Engine::got_armed);
        reveal(Engine::got_worked);
        reveal(Engine::got_told);
        reveal(Engine::got_counted);
        let ts = record.stamps.ts_init;
        Self::paired_there(fees, a, a2, b, b2, t.matched, t.called, u.matched, u.called);
        Self::answering_alike(fees, t.matched, t.called, u.matched, u.called, ts);
        Self::paired_there(fees, a, a2, b, b2, t.called, t.isolated, u.called, u.isolated);
        Self::answering_isolated_alike(fees, t.called, t.isolated, u.called, u.isolated, ts);
        Self::paired_there(fees, a, a2, b, b2, t.isolated, t.armed, u.isolated, u.armed);
        Self::releasing_alike(fees, t.isolated, t.armed, u.isolated, u.armed, ts);
        Self::paired_there(fees, a, a2, b, b2, t.armed, t.worked, u.armed, u.worked);
        Self::scheduling_alike(fees, t.armed, t.worked, u.armed, u.worked, ts);
        Self::paired_there(fees, a, a2, b, b2, t.worked, t.told, u.worked, u.told);
        Self::listening_alike(fees, t.worked, t.told, u.worked, u.told, Told::Event(record));
        Self::paired_there(fees, a, a2, b, b2, t.told, t.delivered, u.told, u.delivered);
        Self::delivering_alike(fees, t.told, t.delivered, u.told, u.delivered, ts);
    }

    proof fn counting_alike(
        fees: spec_fn(F, F) -> bool,
        a: Self,
        b: Self,
        record: Record,
        t: Trail<Self>,
        u: Trail<Self>,
    )
        requires
            t.delivered.kin(u.delivered, fees),
            a.got_counted(record, t),
            b.got_counted(record, u),
        ensures
            t.counted.kin(u.counted, fees),
    {
        reveal(Engine::got_counted);
        assert(t.delivered.counts(t.counted, record));
        assert(u.delivered.counts(u.counted, record));
    }

    /// A stage of a step, compared with the same stage of another.
    proof fn paired_there(
        fees: spec_fn(F, F) -> bool,
        a: Self,
        a2: Self,
        b: Self,
        b2: Self,
        s: Self,
        s2: Self,
        u: Self,
        u2: Self,
    )
        requires
            Self::paired(fees, a, a2, b, b2),
            a.goes_by(s, a2),
            a.goes_by(s2, a2),
            b.goes_by(u, b2),
            b.goes_by(u2, b2),
            s.kin(u, fees),
        ensures
            Self::paired(fees, s, s2, u, u2),
    {
        let (p, q) = (s2.talk@, u2.talk@);
        assert forall|i: int|
            s.talk@.len() <= i < p.len() && i < q.len() && (#[trigger] p[i]).call == q[i].call
                && p.take(i) == q.take(i) implies p[i].asked == q[i].asked by {
            assert(a2.talk@.take(p.len() as int)[i] == a2.talk@[i]);
            assert(b2.talk@.take(q.len() as int)[i] == b2.talk@[i]);
            assert(a2.talk@.take(i) =~= p.take(i));
            assert(b2.talk@.take(i) =~= q.take(i));
        }
    }

    proof fn from_the_start(
        fees: spec_fn(F, F) -> bool,
        a: Self,
        a2: Self,
        b: Self,
        b2: Self,
        s: Self,
        u: Self,
    )
        requires
            Self::paired(fees, a, a2, b, b2),
            a.goes_by(s, a2),
            b.goes_by(u, b2),
        ensures
            Self::paired(fees, a, s, b, u),
    {
        assert(a.talk@.take(a.talk@.len() as int) =~= a.talk@);
        assert(b.talk@.take(b.talk@.len() as int) =~= b.talk@);
        extends_again(a.talk@, s.talk@, a2.talk@);
        extends_again(b.talk@, u.talk@, b2.talk@);
        Self::paired_there(fees, a, a2, b, b2, a, s, b, u);
    }

    /// Records played through from states that look the same lead to states
    /// that look the same.
    pub(crate) proof fn playing_alike(
        fees: spec_fn(F, F) -> bool,
        a: Self,
        a2: Self,
        b: Self,
        b2: Self,
        records: Seq<Record>,
    )
        requires
            Self::paired(fees, a, a2, b, b2),
            a.plays(a2, records),
            b.plays(b2, records),
        ensures
            a2.kin(b2, fees),
        decreases records.len(),
    {
        if records.len() > 0 {
            let rest = records.drop_last();
            let x = choose|x: Self| a.plays(x, rest) && #[trigger] x.steps(a2, records.last());
            let y = choose|y: Self| b.plays(y, rest) && #[trigger] y.steps(b2, records.last());
            Self::playing_goes_on(a, x, rest);
            Self::playing_goes_on(b, y, rest);
            Self::stepping(x, a2, records.last());
            Self::stepping(y, b2, records.last());
            assert(a2.talk@.take(a2.talk@.len() as int) =~= a2.talk@);
            assert(b2.talk@.take(b2.talk@.len() as int) =~= b2.talk@);
            extends_again(a.talk@, x.talk@, a2.talk@);
            extends_again(b.talk@, y.talk@, b2.talk@);
            Self::from_the_start(fees, a, a2, b, b2, x, y);
            Self::playing_alike(fees, a, x, b, y, rest);
            Self::paired_there(fees, a, a2, b, b2, x, a2, y, b2);
            Self::stepping_alike(fees, x, a2, y, b2, records.last());
        }
    }

    proof fn finishing_alike(fees: spec_fn(F, F) -> bool, a: Self, a2: Self, b: Self, b2: Self)
        requires
            a.kin(b, fees),
            a.sound(),
            b.sound(),
            a.finishes(a2),
            b.finishes(b2),
        ensures
            a2.kin(b2, fees),
            a2.desk == a.desk,
            b2.desk == b.desk,
    {
        a.finishing_keeps_the_books(a2);
        b.finishing_keeps_the_books(b2);
        let x = choose|x: Self| #[trigger] a.tallies(x) && x.closes_curve(a2);
        let y = choose|y: Self| #[trigger] b.tallies(y) && y.closes_curve(b2);
        let (p, q) = (a.desk.orders.seq(), b.desk.orders.seq());
        orders_listed_alike(a.desk.orders, b.desk.orders);
        endings_alike(p, q, Ending::Filled);
        endings_alike(p, q, Ending::Partial);
        endings_alike(p, q, Ending::CancelledUnfilled);
        assert(x.kin(y, fees));
        if x.curve_open() {
            Self::pushing_alike(fees, x, a2, y, b2, x.journal.simulated_through->Some_0);
        }
    }

    /// A run has one outcome. Two engines that look the same, with fee models
    /// that are alike and a fill model that reshapes a book one way, run over
    /// the same records by strategies that ask for the same of the same calls:
    /// they look the same at the end, and their reports say the same.
    pub proof fn a_run_has_one_outcome(
        fees: spec_fn(F, F) -> bool,
        a: Self,
        a2: Self,
        b: Self,
        b2: Self,
        records: Seq<Record>,
        first: RunResult,
        second: RunResult,
    )
        requires
            charge_alike(fees),
            reshapes_one_way(a.fill_model_now()),
            a.wf(),
            b.wf(),
            a.alike(b, fees),
            a.runs(&a2, records),
            b.runs(&b2, records),
            answers_agree(a2.conversation(), b2.conversation(), a.conversation().len() as int),
            a2.reports(first),
            b2.reports(second),
        ensures
            a2.alike(b2, fees),
            first.fills@ == second.fills@,
            same_order_list(first.orders@, second.orders@),
            first.final_cash == second.final_cash,
            first.starting_cash == second.starting_cash,
            first.realized_pnl == second.realized_pnl,
            first.commissions == second.commissions,
            first.simulated_through == second.simulated_through,
            first.records_processed == second.records_processed,
            first.marks@ == second.marks@,
            first.equity@ == second.equity@,
            first.funding_paid == second.funding_paid,
            first.dividends_received == second.dividends_received,
            first.liquidations@ == second.liquidations@,
            first.rejected_for_margin == second.rejected_for_margin,
            first.self_trades_prevented == second.self_trades_prevented,
            same_reports(first.set_operations@, second.set_operations@),
            first.forecasts@ == second.forecasts@,
            same_points(first.mark_curve@, second.mark_curve@),
            first.expirations@ == second.expirations@,
            first.twaps@ == second.twaps@,
            same_metrics(first.metrics, second.metrics),
    {
        Self::kin_are_alike(a, b, fees);
        Self::kin_are_alike(a2, b2, fees);
        a.conversation_is_talk();
        a2.conversation_is_talk();
        b2.conversation_is_talk();
        a.a_run_and_its_report(a2, records, first);
        b.a_run_and_its_report(b2, records, second);
        let (p, x, s) = choose|p: Self, x: Self, s: Self| #[trigger]
            a.runs_by(a2, records, p, x, s);
        let (q, y, u) = choose|q: Self, y: Self, u: Self| #[trigger]
            b.runs_by(b2, records, q, y, u);
        Self::running_alike(fees, a, a2, b, b2, records, p, x, s, q, y, u);
        Self::finishing_alike(fees, s, a2, u, b2);
        Self::listed_alike(a2, b2);
        orders_listed_alike(a2.desk.orders, b2.desk.orders);
        reports_carried_alike(
            a2.journal.set_operations@,
            b2.journal.set_operations@,
            first.set_operations@,
            second.set_operations@,
        );
    }

    /// A backtest has one outcome. Engines built from the same settings and
    /// run over the same records by strategies that are alike and ask alike
    /// report the same fills, orders, figures and curves.
    pub proof fn a_backtest_has_one_outcome<S: Strategy>(
        fees: spec_fn(F, F) -> bool,
        alike: spec_fn(S, S) -> bool,
        settings: EngineBuilder<F, L, T, M, X>,
        a: Self,
        a2: Self,
        b: Self,
        b2: Self,
        ours: (S, S),
        theirs: (S, S),
        records: Seq<Record>,
        first: RunResult,
        second: RunResult,
    )
        requires
            charge_alike(fees),
            fees(settings.fee_model, settings.fee_model),
            reshapes_one_way(settings.fill_model),
            asks_alike(alike),
            alike(ours.0, theirs.0),
            a.wf(),
            b.wf(),
            a.built_from(settings),
            b.built_from(settings),
            a.runs(&a2, records),
            b.runs(&b2, records),
            talked(ours.0, ours.1, a.conversation(), a2.conversation()),
            talked(theirs.0, theirs.1, b.conversation(), b2.conversation()),
            a2.reports(first),
            b2.reports(second),
        ensures
            a2.alike(b2, fees),
            first.fills@ == second.fills@,
            same_order_list(first.orders@, second.orders@),
            first.final_cash == second.final_cash,
            first.realized_pnl == second.realized_pnl,
            first.commissions == second.commissions,
            first.marks@ == second.marks@,
            first.equity@ == second.equity@,
            first.liquidations@ == second.liquidations@,
            same_metrics(first.metrics, second.metrics),
    {
        Self::building_has_one_outcome(a, b, settings);
        like_strategies_agree(
            alike,
            ours.0,
            ours.1,
            theirs.0,
            theirs.1,
            a.conversation(),
            a2.conversation(),
            b2.conversation(),
        );
        Self::a_run_has_one_outcome(fees, a, a2, b, b2, records, first, second);
    }

    proof fn running_alike(
        fees: spec_fn(F, F) -> bool,
        a: Self,
        a2: Self,
        b: Self,
        b2: Self,
        records: Seq<Record>,
        p: Self,
        x: Self,
        s: Self,
        q: Self,
        y: Self,
        u: Self,
    )
        requires
            charge_alike(fees),
            reshapes_one_way(a.fill_model),
            a.kin(b, fees),
            answers_agree(a2.talk@, b2.talk@, a.talk@.len() as int),
            a.runs_by(a2, records, p, x, s),
            b.runs_by(b2, records, q, y, u),
        ensures
            s.kin(u, fees),
    {
        let now = UnixNanos(0);
        s.finishing_keeps_the_books(a2);
        u.finishing_keeps_the_books(b2);
        Self::listening(a, p, Told::Start, now);
        Self::listening(b, q, Told::Start, now);
        Self::playing_goes_on(p, x, records);
        Self::playing_goes_on(q, y, records);
        Self::listening(x, s, Told::Stop, now);
        Self::listening(y, u, Told::Stop, now);
        extends_again(p.talk@, x.talk@, s.talk@);
        extends_again(q.talk@, y.talk@, u.talk@);
        extends_again(a.talk@, p.talk@, x.talk@);
        extends_again(b.talk@, q.talk@, y.talk@);
        extends_again(a.talk@, x.talk@, s.talk@);
        extends_again(b.talk@, y.talk@, u.talk@);
        assert(s.talk@.take(s.talk@.len() as int) =~= s.talk@);
        assert(u.talk@.take(u.talk@.len() as int) =~= u.talk@);
        Self::from_the_start(fees, a, s, b, u, p, q);
        Self::listening_alike(fees, a, p, b, q, Told::Start);
        Self::paired_there(fees, a, s, b, u, p, x, q, y);
        Self::playing_alike(fees, p, x, q, y, records);
        Self::paired_there(fees, a, s, b, u, x, s, y, u);
        Self::listening_alike(fees, x, s, y, u, Told::Stop);
    }
}

} // verus!
