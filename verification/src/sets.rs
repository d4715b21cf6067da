//! Complete sets: what an operation on them comes to.
//!
//! One contract on every outcome of a market pays exactly one unit of cash
//! whatever happens, so it is created and destroyed for exactly that.

use vstd::prelude::*;
use vstd::string::*;

use crate::checks::text_of;
use crate::error::{says, BacktestError};
use crate::instrument::{
    even_shares, even_shares_are_even, normalise_to_one, shares_are_proportional, shares_of_one,
    uniform_prices, unknown_outcome, Instrument, OutcomeId,
};
use crate::ledger::{money_less, money_plus, quantity_in, Ledger};
use crate::market::{key_for, price_in, Market, Prices};
use crate::position::{a_value_is_the_nearest, value_of, KeyView, Position};
use crate::request::{set_kind_text, SetKindView, SetOperationKind};
use crate::text::{int_text, push_u64};
use crate::types::{fits, fixed_text, notional, push_fixed, Money, Price, Qty, Side, SCALE};

verus! {

/// Every outcome is named at most once.
pub open spec fn distinct(held: Seq<OutcomeId>) -> bool {
    forall|i: int, j: int|
        #![trigger held[i], held[j]]
        0 <= i < j < held.len() ==> held[i] != held[j]
}

/// Whether every named outcome is one the instrument has.
pub open spec fn in_range(instrument: Instrument, held: Seq<OutcomeId>) -> bool {
    forall|i: int| 0 <= i < held.len() ==> (#[trigger] held[i]).0 < instrument.outcomes@.len()
}

/// Whether an outcome is the lowest of those that are out of range.
pub open spec fn lowest_outside(instrument: Instrument, held: Seq<OutcomeId>, outcome: OutcomeId) -> bool {
    &&& held.contains(outcome)
    &&& outcome.0 >= instrument.outcomes@.len()
    &&& forall|i: int|
        0 <= i < held.len() && (#[trigger] held[i]).0 >= instrument.outcomes@.len() ==> outcome.0
            <= held[i].0
}

/// What a set operation comes to: how many sets, and whether they are
/// bought from the venue or sold back to it. Converting the NO side of `k`
/// outcomes hands back `k - 1` sets.
pub open spec fn set_terms(kind: SetKindView, quantity: Qty) -> (int, Side) {
    match kind {
        SetKindView::Mint => (quantity.0 as int, Side::Buy),
        SetKindView::Redeem => (quantity.0 as int, Side::Sell),
        SetKindView::Convert(held) => (quantity.0 * (held.len() - 1), Side::Sell),
    }
}

/// Whether a conversion names its outcomes as it must.
pub open spec fn convertible(instrument: Instrument, held: Seq<OutcomeId>) -> bool {
    &&& instrument.neg_risk
    &&& distinct(held)
    &&& in_range(instrument, held)
    &&& 2 <= held.len() < instrument.count()
}

/// Whether a set operation makes sense for an instrument, whatever the
/// account holds.
pub open spec fn set_possible(instrument: Instrument, kind: SetKindView, quantity: Qty) -> bool {
    &&& instrument.complete_set()
    &&& quantity.0 > 0
    &&& kind matches SetKindView::Convert(held) ==> convertible(instrument, held) && fits(
        set_terms(kind, quantity).0,
    )
}

fn all_distinct(held: &Vec<OutcomeId>) -> (r: bool)
    ensures
        r == distinct(held@),
{
    let mut i: usize = 0;
    while i < held.len()
        invariant
            i <= held@.len(),
            forall|a: int, b: int|
                #![trigger held@[a], held@[b]]
                0 <= a < b < held@.len() && a < i ==> held@[a] != held@[b],
        decreases held@.len() - i,
    {
        let mut j: usize = i + 1;
        while j < held.len()
            invariant
                i < j <= held@.len(),
                forall|b: int| i < b < j ==> held@[i as int] != #[trigger] held@[b],
            decreases held@.len() - j,
        {
            if held[i].0 == held[j].0 {
                assert(held@[i as int] == held@[j as int]);
                return false;
            }
            j += 1;
        }
        i += 1;
    }
    true
}

fn first_outside(instrument: &Instrument, held: &Vec<OutcomeId>) -> (r: Option<OutcomeId>)
    ensures
        match r {
            Some(outcome) => lowest_outside(*instrument, held@, outcome),
            None => in_range(*instrument, held@),
        },
{
    let mut lowest: Option<OutcomeId> = None;
    let mut i: usize = 0;
    while i < held.len()
        invariant
            i <= held@.len(),
            match lowest {
                Some(outcome) => {
                    &&& outcome.0 >= instrument.outcomes@.len()
                    &&& exists|k: int| 0 <= k < i && (#[trigger] held@[k]) == outcome
                    &&& forall|k: int|
                        0 <= k < i && (#[trigger] held@[k]).0 >= instrument.outcomes@.len()
                            ==> outcome.0 <= held@[k].0
                },
                None => forall|k: int|
                    0 <= k < i ==> (#[trigger] held@[k]).0 < instrument.outcomes@.len(),
            },
        decreases held@.len() - i,
    {
        let outcome = held[i];
        if outcome.0 as usize >= instrument.outcomes.len() {
            let better = match lowest {
                Some(found) => outcome.0 < found.0,
                None => true,
            };
            if better {
                lowest = Some(outcome);
                assert(held@[i as int] == outcome);
            }
        }
        i += 1;
    }
    lowest
}

/// What a set operation comes to, or what is wrong with it.
///
/// A conversion is a redemption in disguise. Holding the NO side of `k`
/// outcomes is `k - 1` complete sets plus one contract on each outcome left
/// out, so handing back `k - 1` in cash and keeping the rest is exactly what
/// redeeming `k - 1` sets does.
pub fn set_plan(instrument: &Instrument, kind: &SetOperationKind, quantity: Qty) -> (r: Result<
    (Qty, Side),
    BacktestError,
>)
    ensures
        match r {
            Ok((sets, side)) => set_possible(*instrument, kind@, quantity) && (
                sets.0 as int,
                side,
            ) == set_terms(kind@, quantity) && sets.0 > 0,
            Err(e) => {
                if !instrument.complete_set() {
                    says(
                        e,
                        instrument.id@
                            + " does not trade as a complete set, so it cannot be minted or redeemed; a group of independent conditions is several instruments, not one with many outcomes"@,
                    )
                } else if quantity.0 <= 0 {
                    says(e, "a "@ + set_kind_text(*kind) + " needs a positive quantity"@)
                } else {
                    kind@ matches SetKindView::Convert(held) && if !instrument.neg_risk {
                        says(
                            e,
                            instrument.id@
                                + " is not a negative-risk market, so its outcomes cannot be converted"@,
                        )
                    } else if !distinct(held) {
                        says(e, "a conversion must name each outcome at most once"@)
                    } else if !in_range(*instrument, held) {
                        exists|outcome: OutcomeId| #[trigger]
                            lowest_outside(*instrument, held, outcome) && unknown_outcome(
                                e,
                                instrument.id@,
                                outcome,
                                instrument.count(),
                            )
                    } else if !(2 <= held.len() < instrument.count()) {
                        says(
                            e,
                            "a conversion on "@ + instrument.id@ + " must name between 2 and "@
                                + int_text(
                                if instrument.count() == 0 {
                                    0
                                } else {
                                    instrument.count() - 1
                                },
                            )
                                + " outcomes: fewer converts nothing, and naming every outcome leaves no residual to be paid in"@,
                        )
                    } else {
                        !fits(set_terms(kind@, quantity).0) && e == (BacktestError::Overflow {
                            what: "conversion set count",
                        })
                    }
                }
            },
        },
{
    if !instrument.supports_complete_set() {
        let mut m = instrument.id.as_str().to_owned();
        m.append(
            " does not trade as a complete set, so it cannot be minted or redeemed; a group of independent conditions is several instruments, not one with many outcomes",
        );
        return Err(BacktestError::Invalid(m));
    }
    if !quantity.is_positive() {
        let mut m = "a ".to_owned();
        m.append(kind.as_str());
        m.append(" needs a positive quantity");
        return Err(BacktestError::Invalid(m));
    }
    match kind {
        SetOperationKind::Mint => Ok((quantity, Side::Buy)),
        SetOperationKind::Redeem => Ok((quantity, Side::Sell)),
        SetOperationKind::Convert { held } => {
            if !instrument.neg_risk {
                let mut m = instrument.id.as_str().to_owned();
                m.append(" is not a negative-risk market, so its outcomes cannot be converted");
                return Err(BacktestError::Invalid(m));
            }
            if !all_distinct(held) {
                return Err(
                    BacktestError::invalid("a conversion must name each outcome at most once"),
                );
            }
            if let Some(outcome) = first_outside(instrument, held) {
                let r = instrument.check_outcome(outcome);
                assert(lowest_outside(*instrument, held@, outcome));
                match r {
                    Err(e) => {
                        return Err(e);
                    },
                    Ok(_) => {},
                }
            }
            let count: u16 = instrument.outcome_count();
            let named: usize = held.len();
            if named < 2 || named >= count as usize {
                let most: u16 = if count == 0 {
                    0
                } else {
                    count - 1
                };
                let mut m = "a conversion on ".to_owned();
                m.append(instrument.id.as_str());
                m.append(" must name between 2 and ");
                push_u64(&mut m, most as u64);
                m.append(
                    " outcomes: fewer converts nothing, and naming every outcome leaves no residual to be paid in",
                );
                return Err(BacktestError::Invalid(m));
            }
            let times: i64 = (named - 1) as i64;
            assert(quantity.0 * times >= quantity.0) by (nonlinear_arith)
                requires
                    times >= 1,
                    quantity.0 > 0,
            ;
            match quantity.0.checked_mul(times) {
                Some(sets) => Ok((Qty(sets), Side::Sell)),
                None => Err(BacktestError::Overflow { what: "conversion set count" }),
            }
        },
    }
}

/// What minting sets takes: one unit of cash each, and the cost of doing it.
pub open spec fn minting_needs(sets: Qty, cost: Money) -> Result<Money, BacktestError> {
    match value_of(SCALE as int, sets.0 as int) {
        Err(e) => Err(e),
        Ok(value) => money_plus(value, cost),
    }
}

/// Whether an outcome is the first of which too little is held.
pub open spec fn first_short(
    instrument: Instrument,
    held: Map<KeyView, Position>,
    sets: Qty,
    outcome: int,
) -> bool {
    &&& 0 <= outcome < instrument.count()
    &&& held_of(held, instrument, outcome) < sets.0
    &&& forall|n: int| 0 <= n < outcome ==> #[trigger] held_of(held, instrument, n) >= sets.0
}

/// What is held of the outcome numbered `n`.
pub open spec fn held_of(held: Map<KeyView, Position>, instrument: Instrument, n: int) -> i64 {
    quantity_in(held, (instrument.id@, n as u16)).0
}

/// Whether a complete set is held as often as asked.
pub open spec fn whole_set_held(instrument: Instrument, held: Map<KeyView, Position>, sets: Qty) -> bool {
    forall|n: int|
        0 <= n < instrument.count() ==> #[trigger] held_of(held, instrument, n) >= sets.0
}

/// What the venue answers a set operation: a mint needs the cash, and a
/// redemption the whole set in hand.
pub open spec fn denies(
    cash: Money,
    held: Map<KeyView, Position>,
    instrument: Instrument,
    side: Side,
    sets: Qty,
    cost: Money,
    answer: Option<Seq<char>>,
) -> bool {
    match side {
        Side::Buy => minting_needs(sets, cost) matches Ok(needed) && answer == (if cash.0
            < needed.0 {
            Some(
                "minting "@ + fixed_text(sets.0 as int) + " sets of "@ + instrument.id@ + " costs "@
                    + fixed_text(needed.0 as int) + " but the account holds "@ + fixed_text(
                    cash.0 as int,
                ),
            )
        } else {
            None
        }),
        Side::Sell => match answer {
            None => whole_set_held(instrument, held, sets),
            Some(text) => exists|outcome: int| #[trigger]
                first_short(instrument, held, sets, outcome) && text == "redeeming "@ + fixed_text(
                    sets.0 as int,
                ) + " sets of "@ + instrument.id@ + " needs "@ + fixed_text(sets.0 as int)
                    + " of outcome "@ + int_text(outcome) + " but only "@ + fixed_text(
                    held_of(held, instrument, outcome) as int,
                ) + " are held"@,
        },
    }
}

/// Why the venue would refuse this set operation, if it would.
///
/// Minting needs the cash in hand. Redeeming needs the whole set in hand:
/// otherwise it would manufacture shorts in the outcomes that were missing,
/// and pay cash for them.
pub fn set_operation_refusal(
    ledger: &Ledger,
    instrument: &Instrument,
    side: Side,
    sets: Qty,
    cost: Money,
) -> (r: Result<Option<String>, BacktestError>)
    requires
        ledger.wf(),
    ensures
        match r {
            Ok(reason) => denies(
                ledger.cash,
                ledger.portfolio.held(),
                *instrument,
                side,
                sets,
                cost,
                text_of(reason),
            ),
            Err(e) => side is Buy && minting_needs(sets, cost) == Err::<Money, BacktestError>(e),
        },
{
    match side {
        Side::Buy => {
            let needed = notional(Price(SCALE), sets)?.checked_add(cost)?;
            if ledger.cash.0 < needed.0 {
                let mut m = "minting ".to_owned();
                push_fixed(&mut m, sets.0);
                m.append(" sets of ");
                m.append(instrument.id.as_str());
                m.append(" costs ");
                push_fixed(&mut m, needed.0);
                m.append(" but the account holds ");
                push_fixed(&mut m, ledger.cash.0);
                return Ok(Some(m));
            }
            Ok(None)
        },
        Side::Sell => {
            let count: u16 = instrument.outcome_count();
            let mut n: u16 = 0;
            while n < count
                invariant
                    n <= count,
                    side is Sell,
                    count == instrument.count(),
                    ledger.wf(),
                    forall|k: int|
                        0 <= k < n ==> #[trigger] held_of(
                            ledger.portfolio.held(),
                            *instrument,
                            k,
                        ) >= sets.0,
                decreases count - n,
            {
                let held = ledger.quantity(&instrument.id, OutcomeId(n));
                if held.0 < sets.0 {
                    let mut m = "redeeming ".to_owned();
                    push_fixed(&mut m, sets.0);
                    m.append(" sets of ");
                    m.append(instrument.id.as_str());
                    m.append(" needs ");
                    push_fixed(&mut m, sets.0);
                    m.append(" of outcome ");
                    push_u64(&mut m, n as u64);
                    m.append(" but only ");
                    push_fixed(&mut m, held.0);
                    m.append(" are held");
                    assert(first_short(*instrument, ledger.portfolio.held(), sets, n as int));
                    return Ok(Some(m));
                }
                n += 1;
            }
            Ok(None)
        },
    }
}

/// The mark of every outcome, in order.
pub open spec fn outcome_marks(instrument: Instrument, marks: Prices) -> Seq<Price> {
    Seq::new(instrument.count() as nat, |i: int| marks[(instrument.id@, i as u16)])
}

/// Whether every outcome is quoted at a positive mark.
pub open spec fn all_quoted(instrument: Instrument, marks: Prices, n: int) -> bool {
    forall|i: int| 0 <= i < n ==> #[trigger] quoted_at(instrument, marks, i)
}

/// Whether an outcome is quoted at a positive mark.
pub open spec fn quoted_at(instrument: Instrument, marks: Prices, i: int) -> bool {
    price_in(marks, (instrument.id@, i as u16)) matches Some(p) && p.0 > 0
}

/// How a set's single unit of cash is divided over its outcomes: in the
/// proportions the market quotes, or evenly where it does not quote all of
/// them.
pub open spec fn basis_of(instrument: Instrument, marks: Prices) -> Seq<Price> {
    if all_quoted(instrument, marks, instrument.count() as int) {
        shares_of_one(outcome_marks(instrument, marks))
    } else {
        even_shares(instrument.count())
    }
}

/// How a set's single unit of cash is divided across its outcomes.
pub fn set_basis(market: &Market, instrument: &Instrument) -> (r: Result<Vec<Price>, BacktestError>)
    requires
        market.wf(),
    ensures
        match r {
            Ok(basis) => instrument.count() > 0 && basis@ == basis_of(*instrument, market.marks@)
                && basis@.len() == instrument.count(),
            Err(e) => instrument.count() == 0 && says(
                e,
                "prices without a positive sum cannot be normalised"@,
            ),
        },
{
    let count: u16 = instrument.outcome_count();
    let mut quoted: Vec<Price> = Vec::new();
    let mut n: u16 = 0;
    while n < count
        invariant
            n <= count,
            count == instrument.count(),
            market.wf(),
            quoted@.len() == n,
            quoted@ =~= outcome_marks(*instrument, market.marks@).take(n as int),
            all_quoted(*instrument, market.marks@, n as int),
            forall|i: int| 0 <= i < n ==> (#[trigger] quoted@[i]).0 > 0,
        decreases count - n,
    {
        let key = key_for(&instrument.id, OutcomeId(n));
        let price = match market.mark(&key) {
            Some(price) if price.is_positive() => price,
            _ => {
                proof {
                    assert(!quoted_at(*instrument, market.marks@, n as int));
                }
                return uniform_prices(count);
            },
        };
        quoted.push(price);
        proof {
            assert(quoted_at(*instrument, market.marks@, n as int));
            assert(quoted@ =~= outcome_marks(*instrument, market.marks@).take(n + 1));
        }
        n += 1;
    }
    proof {
        assert(quoted@ =~= outcome_marks(*instrument, market.marks@));
        if count > 0 {
            positive_prices_have_a_sum(quoted@);
        }
    }
    normalise_to_one(quoted.as_slice())
}

proof fn positive_prices_have_a_sum(prices: Seq<Price>)
    requires
        forall|i: int| 0 <= i < prices.len() ==> (#[trigger] prices[i]).0 > 0,
    ensures
        crate::instrument::price_sum(prices) >= prices.len(),
    decreases prices.len(),
{
    if prices.len() > 0 {
        positive_prices_have_a_sum(prices.drop_last());
    }
}

/// Cash the legs of a set operation move: what is paid when minting, less
/// what is received when redeeming.
pub open spec fn legs_total(basis: Seq<Price>, side: Side, sets: Qty) -> Result<Money, BacktestError>
    decreases basis.len(),
{
    if basis.len() == 0 {
        Ok(Money(0))
    } else {
        match legs_total(basis.drop_last(), side, sets) {
            Err(e) => Err(e),
            Ok(total) => match value_of(basis.last().0 as int, sets.0 as int) {
                Err(e) => Err(e),
                Ok(leg) => match side {
                    Side::Buy => money_plus(total, leg),
                    Side::Sell => money_less(total, leg),
                },
            },
        }
    }
}

/// The legs of a set operation on whole sets move exactly one unit of cash
/// per set, however the unit is divided.
pub proof fn whole_sets_cost_their_number(basis: Seq<Price>, side: Side, sets: Qty, units: int)
    requires
        sets.0 == units * SCALE,
        crate::instrument::price_sum(basis) == SCALE,
        legs_total(basis, side, sets) is Ok,
    ensures
        (legs_total(basis, side, sets)->Ok_0).0 == (match side {
            Side::Buy => units * SCALE,
            Side::Sell => -(units * SCALE),
        }),
{
    legs_follow_prices(basis, side, sets, units);
    assert(SCALE * units == units * SCALE) by (nonlinear_arith);
}

proof fn legs_follow_prices(basis: Seq<Price>, side: Side, sets: Qty, units: int)
    requires
        sets.0 == units * SCALE,
        legs_total(basis, side, sets) is Ok,
    ensures
        (legs_total(basis, side, sets)->Ok_0).0 == (match side {
            Side::Buy => crate::instrument::price_sum(basis) * units,
            Side::Sell => -(crate::instrument::price_sum(basis) * units),
        }),
    decreases basis.len(),
{
    let sum = crate::instrument::price_sum(basis);
    if basis.len() > 0 {
        legs_follow_prices(basis.drop_last(), side, sets, units);
        crate::types::notional_of_whole_units(basis.last().0 as int, units);
        let rest = crate::instrument::price_sum(basis.drop_last());
        let last = basis.last().0 as int;
        assert((rest + last) * units == rest * units + last * units) by (nonlinear_arith);
    } else {
        assert(sum * units == 0) by (nonlinear_arith)
            requires
                sum == 0,
        ;
    }
}

/// Minting takes one unit of cash per set and what the operation costs, and
/// can be priced wherever that fits.
pub proof fn minting_takes_one_per_set(sets: Qty, cost: Money)
    ensures
        minting_needs(sets, cost) is Ok <==> i64::MIN <= sets.0 + cost.0 <= i64::MAX,
        minting_needs(sets, cost) matches Ok(needed) ==> needed.0 == sets.0 + cost.0,
{
}

/// A mint buys as many sets as it asks for and a redemption sells as many. A
/// conversion sells, for each unit of the outcomes it names, one set fewer
/// than it names outcomes.
pub proof fn what_a_set_operation_comes_to(quantity: Qty, held: Seq<OutcomeId>)
    ensures
        set_terms(SetKindView::Mint, quantity) == (quantity.0 as int, Side::Buy),
        set_terms(SetKindView::Redeem, quantity) == (quantity.0 as int, Side::Sell),
        set_terms(SetKindView::Convert(held), quantity).1 == Side::Sell,
        set_terms(SetKindView::Convert(held), quantity).0 + quantity.0 == quantity.0 * held.len(),
{
    let (q, n) = (quantity.0 as int, held.len() as int);
    assert(q * (n - 1) + q == q * n) by (nonlinear_arith);
}

/// The legs of a set operation are built up over the outcomes: each moves its
/// part of the unit times the number of sets, to within half a raw unit, paid
/// when minting and received otherwise.
pub proof fn legs_add_up(basis: Seq<Price>, side: Side, sets: Qty)
    ensures
        basis.len() == 0 ==> legs_total(basis, side, sets) == Ok::<Money, BacktestError>(Money(0)),
        basis.len() > 0 ==> {
            let before = legs_total(basis.drop_last(), side, sets);
            let after = legs_total(basis, side, sets);
            let leg = basis.last().0 * sets.0;
            &&& before is Err ==> after == before
            &&& after is Ok && side is Buy ==> -SCALE <= 2 * ((after->Ok_0.0 - before->Ok_0.0)
                * SCALE - leg) <= SCALE
            &&& after is Ok && side is Sell ==> -SCALE <= 2 * ((before->Ok_0.0 - after->Ok_0.0)
                * SCALE - leg) <= SCALE
        },
{
    if basis.len() > 0 {
        a_value_is_the_nearest(basis.last().0 as int, sets.0 as int);
    }
}

/// A set's unit is divided in proportion to the marks where every outcome has
/// a positive one, to within a raw unit each, and evenly otherwise.
pub proof fn a_unit_is_divided_by_the_marks(instrument: Instrument, marks: Prices, i: int)
    requires
        0 <= i < instrument.count(),
    ensures
        ({
            let basis = basis_of(instrument, marks);
            let quoted = forall|k: int|
                0 <= k < instrument.count() ==> #[trigger] quoted_at(instrument, marks, k);
            let prices = Seq::new(
                instrument.count() as nat,
                |k: int| marks[(instrument.id@, k as u16)],
            );
            &&& basis.len() == instrument.count()
            &&& quoted ==> {
                let total = crate::instrument::price_sum(prices);
                prices[i].0 * SCALE - total < basis[i].0 * total <= prices[i].0 * SCALE + total
            }
            &&& !quoted ==> SCALE - instrument.count() < basis[i].0 * instrument.count() < SCALE
                + instrument.count()
        }),
{
    let n = instrument.count();
    even_shares_are_even(n, i, i);
    let prices = outcome_marks(instrument, marks);
    if all_quoted(instrument, marks, n as int) {
        assert forall|k: int| 0 <= k < prices.len() implies (#[trigger] prices[k]).0 > 0 by {
            assert(quoted_at(instrument, marks, k));
        }
        quoted_prices_sum_up(prices);
        shares_are_proportional(prices, i);
    }
}

proof fn quoted_prices_sum_up(prices: Seq<Price>)
    requires
        forall|k: int| 0 <= k < prices.len() ==> (#[trigger] prices[k]).0 > 0,
    ensures
        crate::instrument::price_sum(prices) >= prices.len(),
    decreases prices.len(),
{
    if prices.len() > 0 {
        assert(prices[prices.len() - 1].0 > 0);
        assert forall|k: int| 0 <= k < prices.drop_last().len() implies (
        #[trigger] prices.drop_last()[k]).0 > 0 by {
            assert(prices.drop_last()[k] == prices[k]);
        }
        quoted_prices_sum_up(prices.drop_last());
    }
}

/// A mint is turned down exactly where the account holds less cash than the
/// sets and the operation cost, and a redemption exactly where some outcome
/// is held less often than asked.
pub proof fn a_set_operation_needs_what_it_uses(
    cash: Money,
    held: Map<KeyView, Position>,
    instrument: Instrument,
    side: Side,
    sets: Qty,
    cost: Money,
    answer: Option<Seq<char>>,
)
    requires
        denies(cash, held, instrument, side, sets, cost, answer),
    ensures
        side is Buy ==> (answer is Some <==> cash.0 < sets.0 + cost.0),
        side is Sell ==> (answer is Some <==> exists|n: int|
            0 <= n < instrument.count() && #[trigger] held_of(held, instrument, n) < sets.0),
{
    minting_takes_one_per_set(sets, cost);
    if side is Sell && answer is Some {
        let outcome = choose|outcome: int| #[trigger]
            first_short(instrument, held, sets, outcome);
        assert(held_of(held, instrument, outcome) < sets.0);
    }
}

/// Which instruments come in sets: prediction markets with two outcomes, and
/// larger ones whose outcomes the venue converts. A conversion names at least
/// two of them and leaves one out.
pub proof fn which_instruments_come_in_sets(
    instrument: Instrument,
    kind: SetKindView,
    quantity: Qty,
)
    ensures
        set_possible(instrument, kind, quantity) ==> {
            &&& instrument.kind is PredictionMarket
            &&& instrument.outcomes@.len() == 2 || instrument.neg_risk
            &&& quantity.0 > 0
            &&& kind matches SetKindView::Convert(held) ==> {
                &&& instrument.neg_risk
                &&& 2 <= held.len() < instrument.count()
                &&& held.no_duplicates()
            }
        },
        instrument.kind is PredictionMarket && (instrument.outcomes@.len() == 2
            || instrument.neg_risk) && quantity.0 > 0 && !(kind is Convert) ==> set_possible(
            instrument,
            kind,
            quantity,
        ),
{
    if let SetKindView::Convert(held) = kind {
        if distinct(held) {
            assert forall|i: int, j: int|
                0 <= i < held.len() && 0 <= j < held.len() && i != j implies held[i] != held[j] by {
                if j < i {
                    assert(held[j] != held[i]);
                }
            }
        }
    }
}

} // verus!
