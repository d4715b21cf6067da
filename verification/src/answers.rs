//! Margin calls, stops and schedules, taken from states that look the same.

use vstd::prelude::*;

use crate::account::{MarginModel, MarginState};
use crate::calls::{all_closes, CloseOut};
use crate::engine::Engine;
use crate::execution::ExecutionClient;
use crate::margin::{
    calls_over, closed_before, cross_among, dooms, is_listed, names_in, stands_for, Doomed,
};
use crate::models::{FeeModel, FillModel, LatencyModel};
use crate::order::{Order, OrderId};
use crate::ordered::OrderedKey;
use crate::outcome::same_terms;
use crate::pairing::in_order_one_way;
use crate::position::{KeyView, PositionKey};
use crate::request::TwapProgress;
use crate::schedule::{released, slices_at, withheld};
use crate::types::{Qty, UnixNanos};

verus! {

pub(crate) proof fn closing_order_is_strict(p: Doomed, q: Doomed)
    requires
        closed_before(p, q),
    ensures
        !closed_before(q, p),
{
    let (k, l): (KeyView, KeyView) = ((p.instrument@, p.outcome.0), (q.instrument@, q.outcome.0));
    if <PositionKey as OrderedKey>::before(k, l) && <PositionKey as OrderedKey>::before(l, k) {
        <PositionKey as OrderedKey>::before_transitive(k, l, k);
        <PositionKey as OrderedKey>::before_irreflexive(k);
    }
}

impl<F: FeeModel, L: FillModel, T: LatencyModel, M: MarginModel, X: ExecutionClient> Engine<
    F,
    L,
    T,
    M,
    X,
> {
    /// An order of the venue's own on file, and the same on file elsewhere.
    pub(crate) proof fn issuing_alike(
        fees: spec_fn(F, F) -> bool,
        a: Self,
        a2: Self,
        b: Self,
        b2: Self,
        order: Order,
    )
        requires
            a.kin(b, fees),
            a.issues(a2, order),
            b.issues(b2, order),
        ensures
            a2.kin(b2, fees),
    {
        assert(a2.desk.orders@.dom() =~= b2.desk.orders@.dom());
    }

    pub(crate) proof fn forcing_alike(
        fees: spec_fn(F, F) -> bool,
        a: Self,
        a2: Self,
        b: Self,
        b2: Self,
        c: CloseOut,
        tag: String,
        ts: UnixNanos,
    )
        requires
            Self::paired(fees, a, a2, b, b2),
            a.forces(a2, c, tag, ts),
            b.forces(b2, c, tag, ts),
        ensures
            a2.kin(b2, fees),
    {
        let (p, x, order) = choose|p: Self, x: Self, order: Order| #[trigger]
            a.liquidates(a2, p, x, order, c, tag, ts);
        let (q, y, other) = choose|q: Self, y: Self, other: Order| #[trigger]
            b.liquidates(b2, q, y, other, c, tag, ts);
        assert(order == other);
        Self::issuing_alike(fees, a, p, b, q, order);
        assert(p.talk == a.talk && x.talk == a2.talk && y.talk == b2.talk);
        Self::trying_alike(fees, p, x, q, y, order.id, ts);
        Self::reporting_alike(fees, x, a2, y, b2, c);
    }

    pub(crate) proof fn reporting_alike(
        fees: spec_fn(F, F) -> bool,
        a: Self,
        a2: Self,
        b: Self,
        b2: Self,
        c: CloseOut,
    )
        requires
            a.kin(b, fees),
            a.reports_close(a2, c),
            b.reports_close(b2, c),
        ensures
            a2.kin(b2, fees),
    {
        let (l, m) = (a2.journal.liquidations@, b2.journal.liquidations@);
        assert(l.last() == m.last());
        assert(l =~= l.drop_last().push(l.last()));
        assert(m =~= m.drop_last().push(m.last()));
    }

    pub(crate) proof fn forcing_all_alike(
        fees: spec_fn(F, F) -> bool,
        a: Self,
        a2: Self,
        b: Self,
        b2: Self,
        closes: Seq<CloseOut>,
        tag: String,
        ts: UnixNanos,
    )
        requires
            Self::paired(fees, a, a2, b, b2),
            a.forces_all(a2, closes, tag, ts),
            b.forces_all(b2, closes, tag, ts),
        ensures
            a2.kin(b2, fees),
        decreases closes.len(),
    {
        if closes.len() > 0 {
            let rest = closes.drop_last();
            let c = closes.last();
            let x = choose|x: Self|
                a.forces_all(x, rest, tag, ts) && #[trigger] x.forces(a2, closes.last(), tag, ts);
            let y = choose|y: Self|
                b.forces_all(y, rest, tag, ts) && #[trigger] y.forces(b2, closes.last(), tag, ts);
            Self::forcing_all(a, x, rest, tag, ts);
            Self::forcing_all(b, y, rest, tag, ts);
            Self::forcing(x, a2, c, tag, ts);
            Self::forcing(y, b2, c, tag, ts);
            Self::paired_midway(fees, a, x, a2, b, y, b2, ts);
            Self::forcing_all_alike(fees, a, x, b, y, rest, tag, ts);
            Self::forcing_alike(fees, x, a2, y, b2, c, tag, ts);
        }
    }

    pub(crate) proof fn answering_isolated_alike(
        fees: spec_fn(F, F) -> bool,
        a: Self,
        a2: Self,
        b: Self,
        b2: Self,
        ts: UnixNanos,
    )
        requires
            Self::paired(fees, a, a2, b, b2),
            a.answers_isolated(a2, ts),
            b.answers_isolated(b2, ts),
        ensures
            a2.kin(b2, fees),
    {
        Self::listed_alike(a, b);
        Self::marks_alike(a, b);
        if let Some(model) = a.setup.margin {
            let calls = calls_over(
                model,
                a.setup.instruments@,
                a.market.marks@,
                a.ledger.isolated_collateral@,
                a.ledger.portfolio.listed(),
                names_in(a.setup.isolated),
            );
            let closes = all_closes(calls->Ok_0);
            Self::forcing_all_alike(
                fees,
                a,
                a2,
                b,
                b2,
                closes,
                a.setup.labels.isolated,
                ts,
            );
        }
    }

    /// States that look the same have the same prices.
    pub(crate) proof fn marks_alike(a: Self, b: Self)
        requires
            a.same_state(b),
        ensures
            a.market.marks@ == b.market.marks@,
            a.market.book_marks@ == b.market.book_marks@,
            a.market.venue_marks@ == b.market.venue_marks@,
            a.market.oracles@ == b.market.oracles@,
            a.market.mark_source == b.market.mark_source,
    {
        let (x, y) = (a.market@, b.market@);
        assert(x == y);
    }

    pub(crate) proof fn sweeping_one_alike(
        fees: spec_fn(F, F) -> bool,
        a: Self,
        a2: Self,
        b: Self,
        b2: Self,
        model: M,
        d: Doomed,
        call: MarginState,
        ts: UnixNanos,
    )
        requires
            Self::paired(fees, a, a2, b, b2),
            a.sweeps_one(a2, model, d, call, ts),
            b.sweeps_one(b2, model, d, call, ts),
        ensures
            a2.kin(b2, fees),
    {
        Self::listed_alike(a, b);
        Self::marks_alike(a, b);
        let mark = a.market.marks@[(d.instrument@, d.outcome.0)];
        let now = a.stands(model);
        assert(now == b.stands(model));
        let size = a.called_size(model, d, mark, now->Ok_0);
        let left = a.setup.liquidation is Partial && !(now->Ok_0).liquidatable;
        if !left && size != 0 {
            Self::forcing_alike(
                fees,
                a,
                a2,
                b,
                b2,
                CloseOut {
                    instrument: d.instrument,
                    outcome: d.outcome,
                    quantity: Qty(size as i64),
                    mark,
                    equity: call.equity,
                    maintenance: call.maintenance,
                },
                a.setup.labels.liquidation,
                ts,
            );
        }
    }

    pub(crate) proof fn sweeping_alike(
        fees: spec_fn(F, F) -> bool,
        a: Self,
        a2: Self,
        b: Self,
        b2: Self,
        model: M,
        doomed: Seq<Doomed>,
        call: MarginState,
        ts: UnixNanos,
    )
        requires
            Self::paired(fees, a, a2, b, b2),
            a.sweeps(a2, model, doomed, call, ts),
            b.sweeps(b2, model, doomed, call, ts),
        ensures
            a2.kin(b2, fees),
        decreases doomed.len(),
    {
        if doomed.len() > 0 {
            let rest = doomed.drop_last();
            let d = doomed.last();
            let x = choose|x: Self|
                a.sweeps(x, model, rest, call, ts) && #[trigger] x.sweeps_one(
                    a2,
                    model,
                    doomed.last(),
                    call,
                    ts,
                );
            let y = choose|y: Self|
                b.sweeps(y, model, rest, call, ts) && #[trigger] y.sweeps_one(
                    b2,
                    model,
                    doomed.last(),
                    call,
                    ts,
                );
            Self::sweeping(a, x, model, rest, call, ts);
            Self::sweeping(b, y, model, rest, call, ts);
            Self::sweeping_one(x, a2, model, d, call, ts);
            Self::sweeping_one(y, b2, model, d, call, ts);
            Self::paired_midway(fees, a, x, a2, b, y, b2, ts);
            Self::sweeping_alike(fees, a, x, b, y, model, rest, call, ts);
            Self::sweeping_one_alike(fees, x, a2, y, b2, model, d, call, ts);
        }
    }

    /// What a call closes is listed there too.
    pub(crate) proof fn doomed_there_too(a: Self, b: Self, model: M, ours: Seq<Doomed>, theirs: Seq<Doomed>)
        requires
            a.ledger.portfolio.listed() == b.ledger.portfolio.listed(),
            a.market.marks@ == b.market.marks@,
            a.setup == b.setup,
            a.calls_for(model, ours),
            b.calls_for(model, theirs),
        ensures
            forall|d: Doomed| #[trigger] ours.contains(d) ==> theirs.contains(d),
    {
        let cross = cross_among(a.ledger.portfolio.listed(), a.setup.isolated@);
        assert forall|d: Doomed| #[trigger] ours.contains(d) implies theirs.contains(d) by {
            let i = choose|i: int| 0 <= i < ours.len() && ours[i] == d;
            assert(stands_for(model, a.setup.instruments@, a.market.marks@, cross, ours[i]));
            let k = choose|k: int|
                0 <= k < cross.len() && dooms(
                    model,
                    a.setup.instruments@,
                    a.market.marks@,
                    #[trigger] cross[k],
                    d,
                );
            assert(is_listed(model, b.setup.instruments@, b.market.marks@, cross[k], theirs));
            let j = choose|j: int|
                0 <= j < theirs.len() && dooms(
                    model,
                    b.setup.instruments@,
                    b.market.marks@,
                    cross[k],
                    #[trigger] theirs[j],
                );
            assert(theirs[j] == d);
        }
    }

    pub(crate) proof fn answering_alike(
        fees: spec_fn(F, F) -> bool,
        a: Self,
        a2: Self,
        b: Self,
        b2: Self,
        ts: UnixNanos,
    )
        requires
            Self::paired(fees, a, a2, b, b2),
            a.answers(a2, ts),
            b.answers(b2, ts),
        ensures
            a2.kin(b2, fees),
    {
        Self::listed_alike(a, b);
        Self::marks_alike(a, b);
        if let Some(model) = a.setup.margin {
            let state = a.stands(model)->Ok_0;
            assert(a.stands(model) == b.stands(model));
            if state.liquidatable {
                let ours = choose|ours: Seq<Doomed>| #[trigger]
                    a.answers_call(a2, model, ours, state, ts);
                let theirs = choose|theirs: Seq<Doomed>| #[trigger]
                    b.answers_call(b2, model, theirs, state, ts);
                Self::doomed_there_too(a, b, model, ours, theirs);
                Self::doomed_there_too(b, a, model, theirs, ours);
                assert forall|d: Doomed| ours.contains(d) == #[trigger] theirs.contains(d) by {}
                let before = |p: Doomed, q: Doomed| closed_before(p, q);
                assert forall|p: Doomed, q: Doomed| #[trigger] before(p, q) implies !before(
                    q,
                    p,
                ) by {
                    closing_order_is_strict(p, q);
                }
                in_order_one_way(ours, theirs, before);
                Self::sweeping_alike(fees, a, a2, b, b2, model, ours, state, ts);
            }
        }
    }

    pub(crate) proof fn firing_alike(
        fees: spec_fn(F, F) -> bool,
        a: Self,
        a2: Self,
        b: Self,
        b2: Self,
        ids: Seq<OrderId>,
        ts: UnixNanos,
    )
        requires
            Self::paired(fees, a, a2, b, b2),
            a.fires_all(a2, ids, ts),
            b.fires_all(b2, ids, ts),
        ensures
            a2.kin(b2, fees),
        decreases ids.len(),
    {
        if ids.len() > 0 {
            let rest = ids.drop_last();
            let id = ids.last();
            let x = choose|x: Self|
                a.fires_all(x, rest, ts) && #[trigger] x.fires(a2, ids.last(), ts);
            let y = choose|y: Self|
                b.fires_all(y, rest, ts) && #[trigger] y.fires(b2, ids.last(), ts);
            Self::firing(a, x, rest, ts);
            Self::firing(b, y, rest, ts);
            Self::firing_one(x, a2, id, ts);
            Self::firing_one(y, b2, id, ts);
            Self::paired_midway(fees, a, x, a2, b, y, b2, ts);
            Self::firing_alike(fees, a, x, b, y, rest, ts);
            Self::firing_one_alike(fees, x, a2, y, b2, id, ts);
        }
    }

    pub(crate) proof fn firing_one_alike(
        fees: spec_fn(F, F) -> bool,
        a: Self,
        a2: Self,
        b: Self,
        b2: Self,
        id: OrderId,
        ts: UnixNanos,
    )
        requires
            Self::paired(fees, a, a2, b, b2),
            a.fires(a2, id, ts),
            b.fires(b2, id, ts),
        ensures
            a2.kin(b2, fees),
    {
        let p = choose|p: Self| #[trigger] a.arms(p, id, ts) && p.tries(a2, id, ts);
        let q = choose|q: Self| #[trigger] b.arms(q, id, ts) && q.tries(b2, id, ts);
        Self::arming_alike(fees, a, p, b, q, id, ts);
        assert(p.talk == a.talk && p.fill_model == a.fill_model);
        Self::trying_alike(fees, p, a2, q, b2, id, ts);
    }

    pub(crate) proof fn arming_alike(
        fees: spec_fn(F, F) -> bool,
        a: Self,
        a2: Self,
        b: Self,
        b2: Self,
        id: OrderId,
        ts: UnixNanos,
    )
        requires
            a.kin(b, fees),
            a.arms(a2, id, ts),
            b.arms(b2, id, ts),
        ensures
            a2.kin(b2, fees),
    {
        assert(same_terms(a.desk.orders@[id.0], b.desk.orders@[id.0]));
        assert(a2.desk.orders@.dom() =~= b2.desk.orders@.dom());
    }

    pub(crate) proof fn releasing_alike(
        fees: spec_fn(F, F) -> bool,
        a: Self,
        a2: Self,
        b: Self,
        b2: Self,
        ts: UnixNanos,
    )
        requires
            Self::paired(fees, a, a2, b, b2),
            a.releases_stops(a2, ts),
            b.releases_stops(b2, ts),
        ensures
            a2.kin(b2, fees),
    {
        Self::marks_alike(a, b);
        let (m, n) = (a.market.marks@, b.market.marks@);
        let (o, r) = (a.desk.orders@, b.desk.orders@);
        assert forall|id: OrderId| #[trigger] released(o, m)(id) == released(r, n)(id) by {
            assert(o.dom().contains(id.0) == r.dom().contains(id.0));
        }
        assert forall|id: OrderId| #[trigger] withheld(o, m)(id) == withheld(r, n)(id) by {
            assert(o.dom().contains(id.0) == r.dom().contains(id.0));
        }
        assert(released(o, m) =~= released(r, n));
        assert(withheld(o, m) =~= withheld(r, n));
        let ids = a.desk.untriggered@.filter(released(o, m));
        let x = choose|x: Self| #[trigger] a.sorts_stops(x) && x.fires_all(a2, ids, ts);
        let y = choose|y: Self| #[trigger] b.sorts_stops(y) && y.fires_all(b2, ids, ts);
        assert(x.kin(y, fees));
        Self::firing_alike(fees, x, a2, y, b2, ids, ts);
    }

    pub(crate) proof fn slicing_alike(
        fees: spec_fn(F, F) -> bool,
        a: Self,
        a2: Self,
        b: Self,
        b2: Self,
        twaps: Seq<TwapProgress>,
        ts: UnixNanos,
        n: nat,
    )
        requires
            Self::paired(fees, a, a2, b, b2),
            a.works_slices(a2, twaps, ts, n),
            b.works_slices(b2, twaps, ts, n),
        ensures
            a2.kin(b2, fees),
        decreases n,
    {
        if n > 0 {
            let less = (n - 1) as nat;
            let twap = twaps[n - 1];
            let slice = slices_at(twaps, ts)[n - 1];
            let x = choose|x: Self|
                a.works_slices(x, twaps, ts, less) && #[trigger] x.works_slice(
                    a2,
                    twaps[n - 1],
                    slices_at(twaps, ts)[n - 1],
                    ts,
                );
            let y = choose|y: Self|
                b.works_slices(y, twaps, ts, less) && #[trigger] y.works_slice(
                    b2,
                    twaps[n - 1],
                    slices_at(twaps, ts)[n - 1],
                    ts,
                );
            Self::slicing(a, x, twaps, ts, less);
            Self::slicing(b, y, twaps, ts, less);
            Self::slicing_one(x, a2, twap, slice, ts);
            Self::slicing_one(y, b2, twap, slice, ts);
            Self::paired_midway(fees, a, x, a2, b, y, b2, ts);
            Self::slicing_alike(fees, a, x, b, y, twaps, ts, less);
            Self::slicing_one_alike(fees, x, a2, y, b2, twap, slice, ts);
        }
    }

    pub(crate) proof fn slicing_one_alike(
        fees: spec_fn(F, F) -> bool,
        a: Self,
        a2: Self,
        b: Self,
        b2: Self,
        twap: TwapProgress,
        slice: Option<Qty>,
        ts: UnixNanos,
    )
        requires
            Self::paired(fees, a, a2, b, b2),
            a.works_slice(a2, twap, slice, ts),
            b.works_slice(b2, twap, slice, ts),
        ensures
            a2.kin(b2, fees),
    {
        if let Some(size) = slice {
            let (p, order) = choose|p: Self, order: Order| #[trigger]
                a.sends(p, order, twap, size, ts) && p.tries(a2, order.id, ts);
            let (q, other) = choose|q: Self, other: Order| #[trigger]
                b.sends(q, other, twap, size, ts) && q.tries(b2, other.id, ts);
            Self::sending_alike(fees, a, p, b, q, order, other, twap, size, ts);
            assert(p.talk == a.talk && p.fill_model == a.fill_model);
            Self::trying_alike(fees, p, a2, q, b2, order.id, ts);
        }
    }

    pub(crate) proof fn sending_alike(
        fees: spec_fn(F, F) -> bool,
        a: Self,
        a2: Self,
        b: Self,
        b2: Self,
        order: Order,
        other: Order,
        twap: TwapProgress,
        size: Qty,
        ts: UnixNanos,
    )
        requires
            a.kin(b, fees),
            a.sends(a2, order, twap, size, ts),
            b.sends(b2, other, twap, size, ts),
        ensures
            a2.kin(b2, fees),
            order == other,
    {
        assert(a2.desk.orders@.dom() =~= b2.desk.orders@.dom());
    }

    pub(crate) proof fn scheduling_alike(
        fees: spec_fn(F, F) -> bool,
        a: Self,
        a2: Self,
        b: Self,
        b2: Self,
        ts: UnixNanos,
    )
        requires
            Self::paired(fees, a, a2, b, b2),
            a.works_schedules(a2, ts),
            b.works_schedules(b2, ts),
        ensures
            a2.kin(b2, fees),
    {
        let n = a.desk.twaps@.len();
        let x = choose|x: Self| #[trigger]
            a.moves_schedules(x, ts) && x.works_slices(a2, a.desk.twaps@, ts, n);
        let y = choose|y: Self| #[trigger]
            b.moves_schedules(y, ts) && y.works_slices(b2, b.desk.twaps@, ts, n);
        assert(x.kin(y, fees));
        Self::slicing_alike(fees, x, a2, y, b2, a.desk.twaps@, ts, n);
    }
}

} // verus!
