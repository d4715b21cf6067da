//! What arrives at the venue, taken from states that look the same.

use vstd::prelude::*;
use vstd::string::*;

use crate::account::MarginModel;
use crate::arrivals::{asked_terms, leg_terms, post_only_text, triggered, SetTerms};
use crate::checks::{crossed_price, halted, market_of, meets_own};
use crate::desk::InFlightAction;
use crate::engine::{Engine, Journal};
use crate::execution::ExecutionClient;
use crate::instrument::Instrument;
use crate::models::{FeeModel, FillModel, LatencyModel};
use crate::order::{order_id_text, Order, OrderId};
use crate::ordered::sorted_one_way;
use crate::outcome::{same_journal, same_metrics, same_orders, same_report, same_terms};
use crate::position::{KeyView, Position};
use crate::request::SetOperationRequest;
use crate::schedule::reached;
use crate::sets::{basis_of, denies, first_short, held_of, set_terms};
use crate::text::int_text;
use crate::types::{fixed_text, Money, Price, Qty, Side, UnixNanos};

verus! {

/// What the venue says of the first outcome of which too little is held.
spec fn short_text(
    instrument: Instrument,
    held: Map<KeyView, Position>,
    sets: Qty,
    outcome: int,
) -> Seq<char> {
    "redeeming "@ + fixed_text(sets.0 as int) + " sets of "@ + instrument.id@ + " needs "@
        + fixed_text(sets.0 as int) + " of outcome "@ + int_text(outcome) + " but only "@
        + fixed_text(held_of(held, instrument, outcome) as int) + " are held"@
}

/// The venue answers a set operation one way.
pub(crate) proof fn denied_one_way(
    cash: Money,
    held: Map<KeyView, Position>,
    instrument: Instrument,
    side: Side,
    sets: Qty,
    cost: Money,
    ours: Option<Seq<char>>,
    theirs: Option<Seq<char>>,
)
    requires
        denies(cash, held, instrument, side, sets, cost, ours),
        denies(cash, held, instrument, side, sets, cost, theirs),
    ensures
        ours == theirs,
{
    if side is Sell {
        if ours is Some {
            let i = choose|i: int| #[trigger] first_short(instrument, held, sets, i) && ours->Some_0
                == short_text(instrument, held, sets, i);
            assert(held_of(held, instrument, i) < sets.0);
            if theirs is Some {
                let j = choose|j: int| #[trigger]
                    first_short(instrument, held, sets, j) && theirs->Some_0 == short_text(
                        instrument,
                        held,
                        sets,
                        j,
                    );
                assert(held_of(held, instrument, j) < sets.0);
                assert(i == j);
            }
        } else if theirs is Some {
            let j = choose|j: int| #[trigger] first_short(instrument, held, sets, j) && theirs->Some_0
                == short_text(instrument, held, sets, j);
            assert(held_of(held, instrument, j) < sets.0);
        }
    }
}

impl<F: FeeModel, L: FillModel, T: LatencyModel, M: MarginModel, X: ExecutionClient> Engine<
    F,
    L,
    T,
    M,
    X,
> {
    /// States that look the same let an order meet the same of the account's
    /// own.
    pub(crate) proof fn meeting_alike(a: Self, b: Self, order: Order, peer: Order)
        requires
            a.same_state(b),
            same_terms(order, peer),
        ensures
            a.meets_none(order) == b.meets_none(peer),
            forall|id: OrderId| #[trigger]
                meets_own(a.market, a.desk.orders@, id, order) == meets_own(
                    b.market,
                    b.desk.orders@,
                    id,
                    peer,
                ),
    {
        Self::markets_alike(a, b, market_of(order));
        assert forall|id: OrderId| #[trigger]
            meets_own(a.market, a.desk.orders@, id, order) == meets_own(
                b.market,
                b.desk.orders@,
                id,
                peer,
            ) by {
            assert(a.desk.orders@.dom().contains(id.0) == b.desk.orders@.dom().contains(id.0));
        }
        assert forall|j: int| 0 <= j < a.desk.resting@.len() implies meets_own(
            a.market,
            a.desk.orders@,
            #[trigger] a.desk.resting@[j],
            order,
        ) == meets_own(b.market, b.desk.orders@, b.desk.resting@[j], peer) by {}
        if a.meets_none(order) {
            assert forall|j: int| 0 <= j < b.desk.resting@.len() implies !meets_own(
                b.market,
                b.desk.orders@,
                #[trigger] b.desk.resting@[j],
                peer,
            ) by {
                assert(a.desk.resting@[j] == b.desk.resting@[j]);
            }
        }
        if b.meets_none(peer) {
            assert forall|j: int| 0 <= j < a.desk.resting@.len() implies !meets_own(
                a.market,
                a.desk.orders@,
                #[trigger] a.desk.resting@[j],
                order,
            ) by {
                assert(a.desk.resting@[j] == b.desk.resting@[j]);
            }
        }
    }

    pub(crate) proof fn turning_away_alike(
        fees: spec_fn(F, F) -> bool,
        a: Self,
        a2: Self,
        b: Self,
        b2: Self,
        order: Order,
        peer: Order,
        text: Seq<char>,
        ours: Journal,
        theirs: Journal,
    )
        requires
            a.kin(b, fees),
            same_terms(order, peer),
            same_journal(ours, theirs),
            a.turns_away(a2, order, text, ours),
            b.turns_away(b2, peer, text, theirs),
        ensures
            a2.kin(b2, fees),
    {
        assert(a2.desk.orders@.dom() =~= b2.desk.orders@.dom());
        assert(same_orders(a2.desk.orders@, b2.desk.orders@));
    }

    #[verifier::rlimit(60)]
    pub(crate) proof fn landing_alike(
        fees: spec_fn(F, F) -> bool,
        a: Self,
        a2: Self,
        b: Self,
        b2: Self,
        id: OrderId,
        ts: UnixNanos,
    )
        requires
            Self::paired(fees, a, a2, b, b2),
            a.lands(a2, id, ts),
            b.lands(b2, id, ts),
        ensures
            a2.kin(b2, fees),
    {
        let order = a.desk.orders@[id.0];
        let peer = b.desk.orders@[id.0];
        assert(a.desk.orders@.dom().contains(id.0) == b.desk.orders@.dom().contains(id.0));
        if a.desk.orders@.dom().contains(id.0) && order.status is InFlight {
            assert(same_terms(order, peer));
            Self::markets_alike(a, b, market_of(order));
            Self::marks_alike(a, b);
            Self::listed_alike(a, b);
            let stopped = halted(
                a.setup.instruments@,
                a.board.delisted@,
                order.instrument@,
                ts,
            );
            let crossed = crossed_price(a.market.book_in(market_of(order)), order);
            assert(crossed == crossed_price(b.market.book_in(market_of(peer)), peer));
            let (m, n) = (a.journal.metrics, b.journal.metrics);
            let fired = Order { trigger: None, ..order };
            let other = Order { trigger: None, ..peer };
            assert(same_terms(fired, other));
            let (counted, recounted) = (triggered(m, order), triggered(n, peer));
            assert(same_metrics(counted, recounted));
            Self::meeting_alike(a, b, fired, other);
            assert(a.funded(fired) == b.funded(other)) by {
                if let Some(model) = a.setup.margin {
                    assert(a.stands(model) == b.stands(model));
                }
            }
            if stopped is Some {
                Self::turning_away_alike(
                    fees,
                    a,
                    a2,
                    b,
                    b2,
                    order,
                    peer,
                    stopped->Some_0 + ", before this order arrived"@,
                    a2.journal,
                    b2.journal,
                );
            } else if order.post_only && crossed is Some {
                Self::turning_away_alike(
                    fees,
                    a,
                    a2,
                    b,
                    b2,
                    order,
                    peer,
                    post_only_text(order.cap(), crossed->Some_0),
                    a2.journal,
                    b2.journal,
                );
            } else if order.trigger is Some && !reached(a.market.marks@, order) {
                assert(a2.desk.orders@.dom() =~= b2.desk.orders@.dom());
                assert(same_orders(a2.desk.orders@, b2.desk.orders@));
            } else if !a.meets_none(fired) {
                Self::keeping_apart_alike(
                    fees,
                    a,
                    a2,
                    b,
                    b2,
                    fired,
                    other,
                    a2.journal,
                    b2.journal,
                );
            } else if !a.funded(fired) {
                Self::turning_away_alike(
                    fees,
                    a,
                    a2,
                    b,
                    b2,
                    fired,
                    other,
                    "insufficient margin for this order"@,
                    a2.journal,
                    b2.journal,
                );
            } else {
                let x = choose|x: Self| #[trigger]
                    a.admits(x, fired, counted, ts) && x.tries(a2, fired.id, ts);
                let y = choose|y: Self| #[trigger]
                    b.admits(y, other, recounted, ts) && y.tries(b2, other.id, ts);
                assert(x.desk.orders@.dom() =~= y.desk.orders@.dom());
                assert(same_orders(x.desk.orders@, y.desk.orders@));
                assert(x.kin(y, fees));
                Self::trying_alike(fees, x, a2, y, b2, fired.id, ts);
            }
        }
    }

    pub(crate) proof fn keeping_apart_alike(
        fees: spec_fn(F, F) -> bool,
        a: Self,
        a2: Self,
        b: Self,
        b2: Self,
        order: Order,
        peer: Order,
        ours: Journal,
        theirs: Journal,
    )
        requires
            a.kin(b, fees),
            same_terms(order, peer),
            same_journal(ours, theirs),
            a.keeps_apart(a2, order, ours),
            b.keeps_apart(b2, peer, theirs),
        ensures
            a2.kin(b2, fees),
    {
        Self::meeting_alike(a, b, order, peer);
        let (met, i) = choose|met: OrderId, i: int| #[trigger]
            a.first_own(order, met, i) && a.turns_away(
                a2,
                order,
                "would trade against this account's own resting order "@ + order_id_text(met),
                ours,
            );
        let (own, j) = choose|own: OrderId, j: int| #[trigger]
            b.first_own(peer, own, j) && b.turns_away(
                b2,
                peer,
                "would trade against this account's own resting order "@ + order_id_text(own),
                theirs,
            );
        if i < j {
            assert(b.desk.resting@[i] == met);
        }
        if j < i {
            assert(a.desk.resting@[j] == own);
        }
        assert(met == own);
        Self::turning_away_alike(
            fees,
            a,
            a2,
            b,
            b2,
            order,
            peer,
            "would trade against this account's own resting order "@ + order_id_text(met),
            ours,
            theirs,
        );
    }

    pub(crate) proof fn adding_legs_alike(
        fees: spec_fn(F, F) -> bool,
        a: Self,
        a2: Self,
        b: Self,
        b2: Self,
        terms: SetTerms,
        basis: Seq<Price>,
        ts: UnixNanos,
    )
        requires
            Self::paired(fees, a, a2, b, b2),
            a.adds_legs(a2, terms, basis, ts),
            b.adds_legs(b2, terms, basis, ts),
        ensures
            a2.kin(b2, fees),
        decreases basis.len(),
    {
        if basis.len() > 0 {
            let rest = basis.drop_last();
            let outcome = basis.len() - 1;
            let x = choose|x: Self|
                a.adds_legs(x, terms, rest, ts) && #[trigger] x.adds_leg(
                    a2,
                    terms,
                    basis.len() - 1,
                    basis.last(),
                    ts,
                );
            let y = choose|y: Self|
                b.adds_legs(y, terms, rest, ts) && #[trigger] y.adds_leg(
                    b2,
                    terms,
                    basis.len() - 1,
                    basis.last(),
                    ts,
                );
            Self::adding_legs(a, x, terms, rest, ts);
            Self::adding_legs(b, y, terms, rest, ts);
            Self::adding_leg(x, a2, terms, outcome, basis.last(), ts);
            Self::adding_leg(y, b2, terms, outcome, basis.last(), ts);
            Self::paired_midway(fees, a, x, a2, b, y, b2, ts);
            Self::adding_legs_alike(fees, a, x, b, y, terms, rest, ts);
            let (p, order) = choose|p: Self, order: Order| #[trigger]
                x.books_leg(a2, p, order, terms, outcome, basis.last(), ts);
            let (q, other) = choose|q: Self, other: Order| #[trigger]
                y.books_leg(b2, q, other, terms, outcome, basis.last(), ts);
            assert(order == other);
            Self::issuing_alike(fees, x, p, y, q, order);
            Self::booking_alike(
                fees,
                p,
                a2,
                q,
                b2,
                order.id,
                leg_terms(terms, outcome, basis.last()),
                ts,
            );
        }
    }

    #[verifier::rlimit(40)]
    pub(crate) proof fn operating_alike(
        fees: spec_fn(F, F) -> bool,
        a: Self,
        a2: Self,
        b: Self,
        b2: Self,
        request: SetOperationRequest,
        ts: UnixNanos,
    )
        requires
            Self::paired(fees, a, a2, b, b2),
            a.operates(a2, request, ts),
            b.operates(b2, request, ts),
        ensures
            a2.kin(b2, fees),
    {
        Self::marks_alike(a, b);
        let (x, ours) = choose|x: Self, ours: Option<Seq<char>>| #[trigger]
            a.operates_on(a2, x, request, ours, ts);
        let (y, theirs) = choose|y: Self, theirs: Option<Seq<char>>| #[trigger]
            b.operates_on(b2, y, request, theirs, ts);
        let instrument = a.setup.instruments@[request.instrument@];
        let (count, side) = set_terms(request.kind@, request.quantity);
        let cost = a.setup.set_costs.cost_of(request.kind@);
        let held = a.ledger.portfolio.held();
        denied_one_way(a.ledger.cash, held, instrument, side, Qty(count as i64), cost, ours, theirs);
        let terms = asked_terms(instrument, request, cost, a.setup.labels);
        if ours is None {
            let basis = basis_of(instrument, a.market.marks@);
            assert(x.talk == a2.talk && y.talk == b2.talk);
            Self::adding_legs_alike(fees, a, x, b, y, terms, basis, ts);
        }
        let (p, q) = (a2.journal.set_operations@, b2.journal.set_operations@);
        assert(same_report(p.last(), q.last()));
        assert forall|i: int| 0 <= i < p.len() implies same_report(p[i], #[trigger] q[i]) by {
            if i < p.len() - 1 {
                assert(p[i] == p.drop_last()[i] && q[i] == q.drop_last()[i]);
            }
        }
        assert(same_metrics(a2.journal.metrics, b2.journal.metrics));
    }

    pub(crate) proof fn receiving_alike(
        fees: spec_fn(F, F) -> bool,
        a: Self,
        a2: Self,
        b: Self,
        b2: Self,
        actions: Seq<InFlightAction>,
        ts: UnixNanos,
    )
        requires
            Self::paired(fees, a, a2, b, b2),
            a.receives_all(a2, actions, ts),
            b.receives_all(b2, actions, ts),
        ensures
            a2.kin(b2, fees),
        decreases actions.len(),
    {
        if actions.len() > 0 {
            let rest = actions.drop_last();
            let x = choose|x: Self|
                a.receives_all(x, rest, ts) && #[trigger] x.receives(a2, actions.last(), ts);
            let y = choose|y: Self|
                b.receives_all(y, rest, ts) && #[trigger] y.receives(b2, actions.last(), ts);
            Self::receiving(a, x, rest, ts);
            Self::receiving(b, y, rest, ts);
            match actions.last() {
                InFlightAction::Order(id) => {
                    Self::landing(x, a2, id, ts);
                    Self::landing(y, b2, id, ts);
                },
                InFlightAction::Operation(request) => {
                    Self::operating(x, a2, request, ts);
                    Self::operating(y, b2, request, ts);
                },
            }
            Self::paired_midway(fees, a, x, a2, b, y, b2, ts);
            Self::receiving_alike(fees, a, x, b, y, rest, ts);
            match actions.last() {
                InFlightAction::Order(id) => {
                    Self::landing_alike(fees, x, a2, y, b2, id, ts);
                },
                InFlightAction::Operation(request) => {
                    Self::operating_alike(fees, x, a2, y, b2, request, ts);
                },
            }
        }
    }

    pub(crate) proof fn delivering_alike(
        fees: spec_fn(F, F) -> bool,
        a: Self,
        a2: Self,
        b: Self,
        b2: Self,
        ts: UnixNanos,
    )
        requires
            Self::paired(fees, a, a2, b, b2),
            a.sound(),
            b.sound(),
            a.delivers(a2, ts),
            b.delivers(b2, ts),
        ensures
            a2.kin(b2, fees),
    {
        let (x, ours) = choose|x: Self, ours: Seq<InFlightAction>| #[trigger]
            a.collects(x, ours, ts) && x.receives_all(a2, ours, ts);
        let (y, theirs) = choose|y: Self, theirs: Seq<InFlightAction>| #[trigger]
            b.collects(y, theirs, ts) && y.receives_all(b2, theirs, ts);
        let (p, q) = (a.desk.inflight.seq(), b.desk.inflight.seq());
        sorted_one_way(p, q);
        assert(p =~= q);
        assert(ours =~= theirs);
        assert(x.kin(y, fees));
        Self::receiving_alike(fees, x, a2, y, b2, ours, ts);
    }
}

} // verus!
