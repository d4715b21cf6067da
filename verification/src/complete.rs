//! What complete-set operations do to an account, taken together.
use vstd::prelude::*;

use crate::account::MarginModel;
use crate::arrivals::{asked_terms, leg_terms, SetTerms};
use crate::engine::{Engine, Journal};
use crate::execution::ExecutionClient;
use crate::ledger::{funded_cash, posted_in, quantity_in, settled};
use crate::matching::fill_of;
use crate::models::{FeeModel, FillModel, LatencyModel};
use crate::order::Order;
use crate::position::{booked, KeyView};
use crate::request::{SetKindView, SetOperation, SetOperationRequest};
use crate::sets::{basis_of, first_short, set_possible, set_terms};
use crate::types::{notional_of, Money, Price, Qty, Side, UnixNanos};

verus! {

/// What one of every outcome comes to, for so many sets, at the prices a
/// set's single unit of cash is divided by.
pub open spec fn legs_worth(basis: Seq<Price>, sets: Qty) -> int
    decreases basis.len(),
{
    if basis.len() == 0 {
        0
    } else {
        legs_worth(basis.drop_last(), sets) + notional_of(basis.last().0 as int, sets.0 as int)
    }
}

/// An amount added when buying and taken off when selling.
pub open spec fn signed(side: Side, amount: int) -> int {
    match side {
        Side::Buy => amount,
        Side::Sell => -amount,
    }
}

impl<F: FeeModel, L: FillModel, T: LatencyModel, M: MarginModel, X: ExecutionClient> Engine<
    F,
    L,
    T,
    M,
    X,
> {
    /// Cash, and what of it is posted for an instrument.
    pub closed spec fn funds_for(self, instrument: Seq<char>) -> int {
        self.ledger.cash.0 + posted_in(self.ledger.isolated_collateral@, instrument).0
    }

    /// What is held of one outcome.
    pub closed spec fn quantity_of(self, key: KeyView) -> int {
        quantity_in(self.ledger.portfolio.held(), key).0 as int
    }

    /// The flat cost of a set operation.
    pub closed spec fn set_cost(self, kind: SetKindView) -> Money {
        self.setup.set_costs.cost_of(kind)
    }

    /// The outcomes of an instrument.
    pub closed spec fn outcomes_of(self, instrument: Seq<char>) -> int {
        self.setup.instruments@[instrument].count() as int
    }

    /// What so many sets of an instrument come to at the current marks.
    pub closed spec fn sets_worth(self, instrument: Seq<char>, sets: int) -> int {
        legs_worth(
            basis_of(self.setup.instruments@[instrument], self.market.marks@),
            Qty(sets as i64),
        )
    }

    /// Whether a set operation is one the venue knows.
    pub closed spec fn knows(self, request: SetOperationRequest) -> bool {
        &&& self.setup.instruments@.dom().contains(request.instrument@)
        &&& set_possible(
            self.setup.instruments@[request.instrument@],
            request.kind@,
            request.quantity,
        )
    }

    /// A set operation dealt with: carried out, or refused and recorded.
    pub closed spec fn deals_with(
        self,
        after: Self,
        request: SetOperationRequest,
        ts: UnixNanos,
    ) -> bool {
        self.operates(after, request, ts)
    }

    pub(crate) proof fn dealing_is_operating()
        ensures
            forall|a: Self, b: Self, request: SetOperationRequest, ts: UnixNanos| #[trigger]
                a.deals_with(b, request, ts) == a.operates(b, request, ts),
    {
    }

    /// A set operation carried out.
    pub closed spec fn goes_through(
        self,
        after: Self,
        request: SetOperationRequest,
        ts: UnixNanos,
    ) -> bool {
        exists|booked: Self| #[trigger] self.operates_on(after, booked, request, None, ts)
    }

    /// A set operation refused.
    pub closed spec fn is_turned_down(
        self,
        after: Self,
        request: SetOperationRequest,
        ts: UnixNanos,
    ) -> bool {
        exists|text: Seq<char>| #[trigger]
            self.operates_on(after, self, request, Some(text), ts)
    }

    /// A set operation dealt with is carried out or refused, and one that is
    /// refused moves nothing.
    pub proof fn a_set_operation_goes_through_or_moves_nothing(
        self,
        after: Self,
        request: SetOperationRequest,
        ts: UnixNanos,
    )
        requires
            self.deals_with(after, request, ts),
        ensures
            self.goes_through(after, request, ts) || self.is_turned_down(after, request, ts),
            self.is_turned_down(after, request, ts) ==> {
                &&& forall|instrument: Seq<char>| #[trigger]
                    after.funds_for(instrument) == self.funds_for(instrument)
                &&& forall|key: KeyView| #[trigger]
                    after.quantity_of(key) == self.quantity_of(key)
                &&& after.booked() == self.booked()
            },
    {
        self.opening_figures();
        after.opening_figures();
        let (booked, answer) = choose|booked: Self, answer: Option<Seq<char>>| #[trigger]
            self.operates_on(after, booked, request, answer, ts);
        if let Some(text) = answer {
            assert(booked == self);
            assert(self.operates_on(after, self, request, Some(text), ts));
        } else {
            assert(self.operates_on(after, booked, request, None, ts));
        }
    }

    /// Two states that differ only in what kind the last set operation is
    /// recorded as.
    pub closed spec fn differs_in_kind(
        self,
        other: Self,
        ours: SetKindView,
        theirs: SetKindView,
    ) -> bool {
        let ops = self.journal.set_operations@;
        let others = other.journal.set_operations@;
        &&& other == (Engine {
            journal: Journal {
                set_operations: other.journal.set_operations,
                ..self.journal
            },
            ..self
        })
        &&& 0 < ops.len() == others.len()
        &&& ops.drop_last() == others.drop_last()
        &&& others.last() == (SetOperation { kind: others.last().kind, ..ops.last() })
        &&& ops.last().kind@ == ours
        &&& others.last().kind@ == theirs
    }

    /// A conversion is a redemption of the sets it hands back: whatever one
    /// does to the account, the orders and the record, refusals too, the
    /// other does, under the same tag and at the same cost, but for the kind
    /// it is recorded as.
    pub proof fn a_conversion_is_a_redemption(
        self,
        converted: Self,
        redeemed: Self,
        conversion: SetOperationRequest,
        redemption: SetOperationRequest,
        ts: UnixNanos,
    )
        requires
            self.knows(conversion),
            conversion.kind@ is Convert,
            redemption.kind@ is Redeem,
            redemption.instrument@ == conversion.instrument@,
            redemption.quantity.0 == set_terms(conversion.kind@, conversion.quantity).0,
            conversion.tag is Some,
            redemption.tag == conversion.tag,
            self.set_cost(redemption.kind@) == self.set_cost(conversion.kind@),
            converted.differs_in_kind(redeemed, conversion.kind@, redemption.kind@),
        ensures
            self.deals_with(converted, conversion, ts) <==> self.deals_with(
                redeemed,
                redemption,
                ts,
            ),
    {
        let instrument = self.setup.instruments@[conversion.instrument@];
        let cost = self.set_cost(conversion.kind@);
        assert(asked_terms(instrument, conversion, cost, self.setup.labels) == asked_terms(
            instrument,
            redemption,
            cost,
            self.setup.labels,
        ));
        assert(set_possible(instrument, redemption.kind@, redemption.quantity)) by {
            let held = conversion.kind@->Convert_0;
            assert(conversion.quantity.0 * (held.len() - 1) > 0) by (nonlinear_arith)
                requires
                    conversion.quantity.0 > 0,
                    held.len() >= 2,
            ;
        }
        if self.deals_with(converted, conversion, ts) {
            let (booked, answer) = choose|booked: Self, answer: Option<Seq<char>>| #[trigger]
                self.operates_on(converted, booked, conversion, answer, ts);
            assert(self.operates_on(redeemed, booked, redemption, answer, ts));
        }
        if self.deals_with(redeemed, redemption, ts) {
            let (booked, answer) = choose|booked: Self, answer: Option<Seq<char>>| #[trigger]
                self.operates_on(redeemed, booked, redemption, answer, ts);
            assert(self.operates_on(converted, booked, conversion, answer, ts));
        }
    }

    /// A conversion is of some outcomes and not of all: at least two, and
    /// fewer than there are. It hands back one set fewer than it names
    /// outcomes, for every one asked.
    pub proof fn a_conversion_is_of_some_and_not_all(self, conversion: SetOperationRequest)
        requires
            conversion.kind@ is Convert,
            self.knows(conversion),
        ensures
            2 <= conversion.kind@->Convert_0.len() < self.outcomes_of(conversion.instrument@),
            set_terms(conversion.kind@, conversion.quantity) == (
                (conversion.kind@->Convert_0.len() - 1) * conversion.quantity.0,
                Side::Sell,
            ),
    {
        let n = conversion.kind@->Convert_0.len() - 1;
        let q = conversion.quantity.0 as int;
        assert(n * q == q * n) by (nonlinear_arith);
    }

    proof fn leg_moves(
        self,
        after: Self,
        terms: SetTerms,
        outcome: int,
        price: Price,
        ts: UnixNanos,
    )
        requires
            self.adds_leg(after, terms, outcome, price, ts),
            0 <= outcome <= u16::MAX,
            self.setup.instruments@[terms.instrument@].kind.funded(),
            self.setup.instruments@[terms.instrument@].id@ == terms.instrument@,
        ensures
            after.setup == self.setup,
            after.market == self.market,
            after.funds_for(terms.instrument@) == self.funds_for(terms.instrument@) - signed(
                terms.side,
                notional_of(price.0 as int, terms.sets.0 as int),
            ) - leg_terms(terms, outcome, price).commission.0,
            forall|key: KeyView| #[trigger]
                after.quantity_of(key) == self.quantity_of(key) + if key == (
                    terms.instrument@,
                    outcome as u16,
                ) {
                    signed(terms.side, terms.sets.0 as int)
                } else {
                    0
                },
    {
        let (filed, order) = choose|filed: Self, order: Order| #[trigger]
            self.books_leg(after, filed, order, terms, outcome, price, ts);
        let fill = fill_of(order, leg_terms(terms, outcome, price), ts);
        let key: KeyView = (terms.instrument@, outcome as u16);
        assert(filed.desk.orders@[order.id.0] == order);
        assert((fill.instrument@, fill.outcome.0) == key);
        assert(settled(
            filed.ledger,
            after.ledger,
            fill,
            self.setup.instruments@[terms.instrument@],
            filed.isolating(order.instrument@),
        ));
        let before = self.ledger.portfolio.held();
        assert(booked(before, fill) is Ok);
        assert(funded_cash(self.ledger.cash, fill) is Ok);
    }

    proof fn legs_move(self, after: Self, terms: SetTerms, basis: Seq<Price>, ts: UnixNanos)
        requires
            self.adds_legs(after, terms, basis, ts),
            basis.len() <= u16::MAX,
            self.setup.instruments@[terms.instrument@].kind.funded(),
            self.setup.instruments@[terms.instrument@].id@ == terms.instrument@,
        ensures
            after.setup == self.setup,
            after.market == self.market,
            after.funds_for(terms.instrument@) == self.funds_for(terms.instrument@) - signed(
                terms.side,
                legs_worth(basis, terms.sets),
            ) - (if basis.len() > 0 {
                terms.cost.0 as int
            } else {
                0
            }),
            forall|key: KeyView| #[trigger]
                after.quantity_of(key) == self.quantity_of(key) + if key.0 == terms.instrument@
                    && key.1 < basis.len() {
                    signed(terms.side, terms.sets.0 as int)
                } else {
                    0
                },
        decreases basis.len(),
    {
        if basis.len() > 0 {
            let between = choose|between: Self|
                self.adds_legs(between, terms, basis.drop_last(), ts) && #[trigger] between.adds_leg(
                    after,
                    terms,
                    basis.len() - 1,
                    basis.last(),
                    ts,
                );
            self.legs_move(between, terms, basis.drop_last(), ts);
            between.leg_moves(after, terms, basis.len() - 1, basis.last(), ts);
            assert forall|key: KeyView| #[trigger]
                after.quantity_of(key) == self.quantity_of(key) + if key.0 == terms.instrument@
                    && key.1 < basis.len() {
                    signed(terms.side, terms.sets.0 as int)
                } else {
                    0
                } by {
                assert(between.quantity_of(key) == self.quantity_of(key) + if key.0
                    == terms.instrument@ && key.1 < basis.len() - 1 {
                    signed(terms.side, terms.sets.0 as int)
                } else {
                    0
                });
            }
        }
    }

    /// A set operation carried out moves the same quantity of every outcome
    /// and of nothing else, pays what the sets come to when minting and
    /// receives it when redeeming, and costs its flat cost once.
    pub proof fn a_set_operation_moves_every_outcome(
        self,
        after: Self,
        request: SetOperationRequest,
        ts: UnixNanos,
    )
        requires
            self.wf(),
            self.goes_through(after, request, ts),
        ensures
            ({
                let (sets, side) = set_terms(request.kind@, request.quantity);
                let instrument = request.instrument@;
                &&& after.funds_for(instrument) == self.funds_for(instrument) - signed(
                    side,
                    self.sets_worth(instrument, sets),
                ) - self.set_cost(request.kind@).0
                &&& forall|key: KeyView| #[trigger]
                    after.quantity_of(key) == self.quantity_of(key) + if key.0 == instrument
                        && key.1 < self.outcomes_of(instrument) {
                        signed(side, sets)
                    } else {
                        0
                    }
            }),
            forall|instrument: Seq<char>, sets: int| #[trigger]
                after.sets_worth(instrument, sets) == self.sets_worth(instrument, sets),
            forall|instrument: Seq<char>| #[trigger]
                after.outcomes_of(instrument) == self.outcomes_of(instrument),
            forall|kind: SetKindView| #[trigger] after.set_cost(kind) == self.set_cost(kind),
    {
        self.wf_is_sound();
        let booked = choose|booked: Self| #[trigger]
            self.operates_on(after, booked, request, None, ts);
        let instrument = self.setup.instruments@[request.instrument@];
        self.setup.instruments.listed_is_sorted();
        let terms = asked_terms(
            instrument,
            request,
            self.set_cost(request.kind@),
            self.setup.labels,
        );
        let basis = basis_of(instrument, self.market.marks@);
        self.legs_move(booked, terms, basis, ts);
        assert forall|key: KeyView| #[trigger]
            after.quantity_of(key) == booked.quantity_of(key) by {}
    }

    /// What was just minted can be redeemed: as long as no outcome was held
    /// short before, the venue does not refuse it, so that a redemption dealt
    /// with is one carried out.
    pub proof fn what_was_minted_can_be_redeemed(
        self,
        minted: Self,
        after: Self,
        mint: SetOperationRequest,
        redemption: SetOperationRequest,
        ts: UnixNanos,
        later: UnixNanos,
    )
        requires
            self.wf(),
            minted.wf(),
            mint.kind@ is Mint,
            redemption.kind@ is Redeem,
            redemption.instrument@ == mint.instrument@,
            redemption.quantity == mint.quantity,
            forall|outcome: u16|
                outcome < self.outcomes_of(mint.instrument@) ==> #[trigger] self.quantity_of(
                    (mint.instrument@, outcome),
                ) >= 0,
            self.goes_through(minted, mint, ts),
            minted.deals_with(after, redemption, later),
        ensures
            minted.goes_through(after, redemption, later),
    {
        self.a_set_operation_moves_every_outcome(minted, mint, ts);
        let (booked, answer) = choose|booked: Self, answer: Option<Seq<char>>| #[trigger]
            minted.operates_on(after, booked, redemption, answer, later);
        if answer is Some {
            let instrument = minted.setup.instruments@[redemption.instrument@];
            minted.wf_is_sound();
            minted.setup.instruments.listed_is_sorted();
            let (sets, side) = set_terms(redemption.kind@, redemption.quantity);
            let held = minted.ledger.portfolio.held();
            let outcome = choose|outcome: int| #[trigger]
                first_short(instrument, held, Qty(sets as i64), outcome);
            let key: KeyView = (mint.instrument@, outcome as u16);
            assert(minted.outcomes_of(mint.instrument@) == self.outcomes_of(mint.instrument@));
            assert(minted.quantity_of(key) == self.quantity_of(key) + mint.quantity.0);
            assert(false);
        }
        assert(minted.operates_on(after, booked, redemption, None, later));
    }

    /// Redeeming what was just minted gives every position its quantity back
    /// and the account its funds, less the two flat costs.
    pub proof fn a_redemption_undoes_a_mint(
        self,
        minted: Self,
        after: Self,
        mint: SetOperationRequest,
        redemption: SetOperationRequest,
        ts: UnixNanos,
        later: UnixNanos,
    )
        requires
            self.wf(),
            minted.wf(),
            mint.kind@ is Mint,
            redemption.kind@ is Redeem,
            redemption.instrument@ == mint.instrument@,
            redemption.quantity == mint.quantity,
            self.goes_through(minted, mint, ts),
            minted.goes_through(after, redemption, later),
        ensures
            after.funds_for(mint.instrument@) == self.funds_for(mint.instrument@) - self.set_cost(
                mint.kind@,
            ).0 - self.set_cost(redemption.kind@).0,
            forall|key: KeyView| #[trigger] after.quantity_of(key) == self.quantity_of(key),
    {
        self.a_set_operation_moves_every_outcome(minted, mint, ts);
        minted.a_set_operation_moves_every_outcome(after, redemption, later);
        let instrument = mint.instrument@;
        let sets = mint.quantity.0 as int;
        assert(minted.sets_worth(instrument, sets) == self.sets_worth(instrument, sets));
        assert(minted.set_cost(redemption.kind@) == self.set_cost(redemption.kind@));
        assert(minted.outcomes_of(instrument) == self.outcomes_of(instrument));
        assert forall|key: KeyView| #[trigger]
            after.quantity_of(key) == self.quantity_of(key) by {
            assert(minted.quantity_of(key) == self.quantity_of(key) + if key.0 == instrument
                && key.1 < self.outcomes_of(instrument) {
                signed(Side::Buy, sets)
            } else {
                0
            });
        }
    }
}

} // verus!
