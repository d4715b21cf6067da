//! Multi-currency balances, margin, and liquidation.
//!
//! **Balances are per currency.** A run holding USDC and EUR has two
//! balances, and reporting one number for both needs a rate at that
//! instant. Where no rate is known the equity is not reported as a
//! plausible wrong number; it is reported as unconvertible.
//!
//! **Leverage is finite.** Without a margin model a perpetual strategy can
//! hold any size at any price, so a position that would have been
//! liquidated instead shows a profit.

use vstd::prelude::*;
use vstd::string::*;

use crate::currency::{converted, factor_of, Currency, FxBook, FxError, Haircuts, Rates};
use crate::error::{says, BacktestError, ErrorView};
use crate::instrument::{Instrument, InstrumentId, InstrumentSet, OutcomeId};
use crate::ordered::{entries_map_contains, OrderedKey, SortedMap};
use crate::position::{
    a_value_is_the_nearest, absolute, key_of, value_of, KeyView, Position, PositionKey,
};
use crate::text::{
    text_before, text_before_irreflexive, text_before_total, text_before_transitive,
};
use crate::types::{
    a_share_is_near, div_trunc, divide_trunc, fits, magnitude, narrow, notional, notional_of,
    wide_product, Money, Price, Qty, SCALE,
};

verus! {

/// How much collateral a position requires.
///
/// Two levels, as every leveraged venue has: `initial` gates opening, and
/// `maintenance` (always the smaller) gates survival. Collapsing them into
/// one number makes a position that can be opened immediately liquidatable,
/// which no real venue does.
pub trait MarginModel {
    /// What opening a position requires.
    spec fn initial_of(&self, instrument: Instrument, quantity: Qty, mark: Price) -> Result<
        Money,
        BacktestError,
    >;

    /// What keeping a position requires.
    spec fn maintenance_of(&self, instrument: Instrument, quantity: Qty, mark: Price) -> Result<
        Money,
        BacktestError,
    >;

    fn initial_margin(&self, instrument: &Instrument, quantity: Qty, mark: Price) -> (r: Result<
        Money,
        BacktestError,
    >)
        ensures
            r == self.initial_of(*instrument, quantity, mark),
    ;

    fn maintenance_margin(&self, instrument: &Instrument, quantity: Qty, mark: Price) -> (r: Result<
        Money,
        BacktestError,
    >)
        ensures
            r == self.maintenance_of(*instrument, quantity, mark),
    ;
}

/// The size of a notional.
pub fn gross_notional(mark: Price, quantity: Qty) -> (r: Result<Money, BacktestError>)
    ensures
        r == absolute(value_of(mark.0 as int, quantity.0 as int)),
{
    let value = notional(mark, quantity)?;
    if value.0 == i64::MIN {
        return Err(BacktestError::Overflow { what: "Money::abs" });
    }
    Ok(value.abs())
}

/// Fully funded: a position costs its whole notional and is never
/// liquidated. The right model for spot and for prediction markets, where a
/// contract is prepaid and the worst case is already on deposit.
#[derive(Clone, Copy, Debug, PartialEq, Eq, Structural)]
pub struct CashMargin;

impl MarginModel for CashMargin {
    open spec fn initial_of(&self, instrument: Instrument, quantity: Qty, mark: Price) -> Result<
        Money,
        BacktestError,
    > {
        absolute(value_of(mark.0 as int, quantity.0 as int))
    }

    open spec fn maintenance_of(
        &self,
        instrument: Instrument,
        quantity: Qty,
        mark: Price,
    ) -> Result<Money, BacktestError> {
        Ok(Money(0))
    }

    fn initial_margin(&self, instrument: &Instrument, quantity: Qty, mark: Price) -> (r: Result<
        Money,
        BacktestError,
    >) {
        gross_notional(mark, quantity)
    }

    fn maintenance_margin(&self, instrument: &Instrument, quantity: Qty, mark: Price) -> (r: Result<
        Money,
        BacktestError,
    >) {
        // A prepaid position cannot be margin-called: the money is already
        // gone, and the worst outcome is that it is worth nothing.
        Ok(Money(0))
    }
}

/// A fixed fraction of notional, the usual perpetual shape.
///
/// `initial = notional / leverage`, with maintenance a smaller fraction.
#[derive(Clone, Copy, Debug, PartialEq, Eq, Structural)]
pub struct LinearMargin {
    pub initial_rate: Price,
    pub maintenance_rate: Price,
}

/// A fraction of the size of a notional.
pub open spec fn fraction_of_gross(rate: Price, quantity: Qty, mark: Price) -> Result<
    Money,
    BacktestError,
> {
    match absolute(value_of(mark.0 as int, quantity.0 as int)) {
        Ok(gross) => value_of(rate.0 as int, gross.0 as int),
        Err(e) => Err(e),
    }
}

/// One divided by a leverage, rounded half away from zero.
pub open spec fn rate_of_leverage(leverage: Price) -> int {
    (1_000_000_000_000_000_000 + leverage.0 as int / 2) / leverage.0 as int
}

impl LinearMargin {
    /// From a maximum leverage, with maintenance at half the initial rate.
    pub fn from_leverage(leverage: Price) -> (r: Result<Self, BacktestError>)
        ensures
            match r {
                Ok(m) => leverage.0 >= SCALE && m.initial_rate.0 == rate_of_leverage(leverage)
                    && m.maintenance_rate.0 == rate_of_leverage(leverage) / 2,
                Err(e) => leverage.0 < SCALE && says(e, "leverage must be finite and at least 1"@),
            },
    {
        if leverage.0 < SCALE {
            return Err(BacktestError::invalid("leverage must be finite and at least 1"));
        }
        let one: i128 = 1_000_000_000_000_000_000;
        let l: i128 = leverage.0 as i128;
        let rate: i128 = (one + l / 2) / l;
        assert(0 <= rate <= one) by (nonlinear_arith)
            requires
                one == 1_000_000_000_000_000_000,
                l >= 1_000_000_000,
                rate == (one + (l as int) / 2) / (l as int),
        ;
        Ok(
            LinearMargin {
                initial_rate: Price(rate as i64),
                maintenance_rate: Price((rate as i64) / 2),
            },
        )
    }

    pub fn new(initial_rate: Price, maintenance_rate: Price) -> (r: Result<Self, BacktestError>)
        ensures
            match r {
                Ok(m) => maintenance_rate.0 <= initial_rate.0 && m == (LinearMargin {
                    initial_rate,
                    maintenance_rate,
                }),
                Err(e) => maintenance_rate.0 > initial_rate.0 && says(
                    e,
                    "maintenance margin must not exceed initial margin: a position that can be opened must not be immediately liquidatable"@,
                ),
            },
    {
        if maintenance_rate.0 > initial_rate.0 {
            return Err(
                BacktestError::invalid(
                    "maintenance margin must not exceed initial margin: a position that can be opened must not be immediately liquidatable",
                ),
            );
        }
        Ok(LinearMargin { initial_rate, maintenance_rate })
    }

    fn requirement(&self, rate: Price, quantity: Qty, mark: Price) -> (r: Result<
        Money,
        BacktestError,
    >)
        ensures
            r == fraction_of_gross(rate, quantity, mark),
    {
        let gross = gross_notional(mark, quantity)?;
        notional(rate, Qty(gross.0))
    }
}

impl MarginModel for LinearMargin {
    open spec fn initial_of(&self, instrument: Instrument, quantity: Qty, mark: Price) -> Result<
        Money,
        BacktestError,
    > {
        fraction_of_gross(self.initial_rate, quantity, mark)
    }

    open spec fn maintenance_of(
        &self,
        instrument: Instrument,
        quantity: Qty,
        mark: Price,
    ) -> Result<Money, BacktestError> {
        fraction_of_gross(self.maintenance_rate, quantity, mark)
    }

    fn initial_margin(&self, instrument: &Instrument, quantity: Qty, mark: Price) -> (r: Result<
        Money,
        BacktestError,
    >) {
        self.requirement(self.initial_rate, quantity, mark)
    }

    fn maintenance_margin(&self, instrument: &Instrument, quantity: Qty, mark: Price) -> (r: Result<
        Money,
        BacktestError,
    >) {
        self.requirement(self.maintenance_rate, quantity, mark)
    }
}

/// A margin requirement is a share of the size of the position at its mark,
/// long or short, to within half a raw unit in each of the two products: the
/// initial rate to open and the maintenance rate to keep. A prepaid position
/// takes its whole size to open and nothing to keep.
pub proof fn margin_is_a_share_of_the_size(
    model: LinearMargin,
    instrument: Instrument,
    quantity: Qty,
    mark: Price,
)
    ensures
        ({
            let value = mark.0 * quantity.0;
            let size = if value < 0 {
                -value
            } else {
                value
            };
            let (i, m) = (model.initial_rate.0 as int, model.maintenance_rate.0 as int);
            &&& i >= 0 ==> (model.initial_of(instrument, quantity, mark) matches Ok(asked)
                ==> -1_000_000_000 * (i + 1_000_000_000) <= 2 * (asked.0
                * 1_000_000_000_000_000_000 - i * size) <= 1_000_000_000 * (i + 1_000_000_000))
            &&& m >= 0 ==> (model.maintenance_of(instrument, quantity, mark) matches Ok(asked)
                ==> -1_000_000_000 * (m + 1_000_000_000) <= 2 * (asked.0
                * 1_000_000_000_000_000_000 - m * size) <= 1_000_000_000 * (m + 1_000_000_000))
            &&& CashMargin.initial_of(instrument, quantity, mark) matches Ok(asked)
                ==> -1_000_000_000 <= 2 * (asked.0 * 1_000_000_000 - size) <= 1_000_000_000
            &&& CashMargin.maintenance_of(instrument, quantity, mark) == Ok::<
                Money,
                BacktestError,
            >(Money(0))
            &&& size <= 0x4000_0000_0000_0000 * 1_000_000_000 ==> {
                &&& CashMargin.initial_of(instrument, quantity, mark) is Ok
                &&& 0 <= i <= 1_000_000_000 ==> model.initial_of(instrument, quantity, mark) is Ok
                &&& 0 <= m <= 1_000_000_000 ==> model.maintenance_of(
                    instrument,
                    quantity,
                    mark,
                ) is Ok
            }
        }),
{
    let value = mark.0 * quantity.0;
    let size = magnitude(value);
    a_value_is_the_nearest(mark.0 as int, quantity.0 as int);
    let gross = magnitude(notional_of(mark.0 as int, quantity.0 as int));
    share_of_a_size(model.initial_rate.0 as int, gross, size);
    share_of_a_size(model.maintenance_rate.0 as int, gross, size);
}

proof fn share_of_a_size(rate: int, gross: int, size: int)
    requires
        -SCALE <= 2 * (gross * SCALE - size) <= SCALE,
        gross >= 0,
    ensures
        rate >= 0 ==> (value_of(rate, gross) matches Ok(asked) ==> -1_000_000_000 * (rate
            + 1_000_000_000) <= 2 * (asked.0 * 1_000_000_000_000_000_000 - rate * size)
            <= 1_000_000_000 * (rate + 1_000_000_000)),
        0 <= rate <= 1_000_000_000 && size <= 0x4000_0000_0000_0000 * 1_000_000_000 ==> value_of(
            rate,
            gross,
        ) is Ok,
{
    a_value_is_the_nearest(rate, gross);
    if value_of(rate, gross) is Ok {
        a_share_is_near(rate, gross, size, value_of(rate, gross)->Ok_0.0 as int);
    }
    if 0 <= rate <= 1_000_000_000 && size <= 0x4000_0000_0000_0000 * 1_000_000_000 {
        assert(0 <= rate * gross <= 0x4000_0000_0000_0001 * 1_000_000_000) by (nonlinear_arith)
            requires
                0 <= rate <= 1_000_000_000,
                0 <= gross <= 0x4000_0000_0000_0001,
        ;
    }
}

/// Leverage and the rate it opens at are each other's inverse, to within
/// half a step of the rate.
pub proof fn leverage_is_the_inverse_of_its_rate(leverage: Price)
    requires
        leverage.0 >= SCALE,
    ensures
        -leverage.0 <= 2 * (rate_of_leverage(leverage) * leverage.0 - 1_000_000_000_000_000_000)
            <= leverage.0,
        0 <= rate_of_leverage(leverage) <= SCALE,
{
    let l = leverage.0 as int;
    let x = 1_000_000_000_000_000_000 + l / 2;
    vstd::arithmetic::div_mod::lemma_fundamental_div_mod(x, l);
    let (q, r) = (x / l, x % l);
    assert(q * l == l * q) by (nonlinear_arith);
    assert(0 <= q <= 1_000_000_000) by (nonlinear_arith)
        requires
            l >= 1_000_000_000,
            x == l * q + r,
            0 <= r < l,
            0 <= x <= 1_000_000_000_000_000_000 + l / 2,
    ;
}

/// A short requires the same margin as a long of the same size, wherever the
/// position's value has a magnitude to speak of.
pub proof fn margin_ignores_direction(rate: Price, quantity: Qty, mark: Price)
    requires
        quantity.0 != i64::MIN,
        magnitude(notional_of(mark.0 as int, quantity.0 as int)) != -(i64::MIN as int),
    ensures
        fraction_of_gross(rate, Qty((-quantity.0) as i64), mark) == fraction_of_gross(
            rate,
            quantity,
            mark,
        ),
{
    crate::types::notional_is_odd(mark.0 as int, quantity.0 as int);
}

/// Maintenance never exceeds the initial requirement, so a position that can
/// be opened is not immediately liquidatable.
pub proof fn maintenance_is_the_smaller(
    model: LinearMargin,
    instrument: Instrument,
    quantity: Qty,
    mark: Price,
)
    requires
        0 <= model.maintenance_rate.0 <= model.initial_rate.0,
        model.initial_of(instrument, quantity, mark) is Ok,
    ensures
        model.maintenance_of(instrument, quantity, mark) is Ok,
        0 <= (model.maintenance_of(instrument, quantity, mark)->Ok_0).0 <= (model.initial_of(
            instrument,
            quantity,
            mark,
        )->Ok_0).0,
{
    let gross = (absolute(value_of(mark.0 as int, quantity.0 as int))->Ok_0).0 as int;
    let m = model.maintenance_rate.0 as int;
    let i = model.initial_rate.0 as int;
    assert(0 <= m * gross <= i * gross) by (nonlinear_arith)
        requires
            0 <= m <= i,
            gross >= 0,
    ;
}

/// What an equity calculation could and could not value.
#[derive(PartialEq, Eq, Debug)]
pub struct Valuation {
    /// Total in the reporting currency, over everything convertible.
    pub total: Money,
    pub currency: Currency,
    /// Balances that had no rate to the reporting currency, and so are
    /// **not** in `total`. Present so a partial valuation cannot be read as
    /// a complete one.
    pub unconvertible: Vec<(Currency, Money)>,
}

/// Amounts by currency code, in order.
pub open spec fn coded(amounts: Seq<(Currency, Money)>) -> Seq<(Seq<char>, Money)> {
    amounts.map_values(|a: (Currency, Money)| (a.0@, a.1))
}

impl Valuation {
    pub fn is_complete(&self) -> (r: bool)
        ensures
            r == (self.unconvertible@.len() == 0),
    {
        self.unconvertible.len() == 0
    }
}

/// A sum over balances: the total so far, and what could not be converted.
pub type Tally = (Money, Seq<(Seq<char>, Money)>);

/// A tally with one more balance in it: what the balance counts as is added
/// to the total if it can be converted; otherwise the balance is set aside.
pub open spec fn tallied(
    tally: Tally,
    currency: Seq<char>,
    amount: Money,
    counts_as: Money,
    rates: Rates,
    reporting: Seq<char>,
) -> Result<Tally, BacktestError> {
    match converted(rates, counts_as, currency, reporting) {
        Some(value) => if fits(tally.0.0 + value.0) {
            Ok((Money((tally.0.0 + value.0) as i64), tally.1))
        } else {
            Err(BacktestError::Overflow { what: "Money::add" })
        },
        None => Ok((tally.0, tally.1.push((currency, amount)))),
    }
}

/// The cash in a list of balances. Empty balances are passed over.
pub open spec fn cash_tally(
    balances: Seq<(Currency, Money)>,
    rates: Rates,
    reporting: Seq<char>,
) -> Result<Tally, BacktestError>
    decreases balances.len(),
{
    if balances.len() == 0 {
        Ok((Money(0), Seq::empty()))
    } else {
        match cash_tally(balances.drop_last(), rates, reporting) {
            Err(e) => Err(e),
            Ok(tally) => {
                let (currency, amount) = balances.last();
                if amount.0 == 0 {
                    Ok(tally)
                } else {
                    tallied(tally, currency@, amount, amount, rates, reporting)
                }
            },
        }
    }
}

/// The collateral in a list of balances: what is positive counts after its
/// haircut, debts count in full.
pub open spec fn collateral_tally(
    balances: Seq<(Currency, Money)>,
    factors: Map<Seq<char>, Price>,
    rates: Rates,
    reporting: Seq<char>,
) -> Result<Tally, BacktestError>
    decreases balances.len(),
{
    if balances.len() == 0 {
        Ok((Money(0), Seq::empty()))
    } else {
        match collateral_tally(balances.drop_last(), factors, rates, reporting) {
            Err(e) => Err(e),
            Ok(tally) => {
                let (currency, amount) = balances.last();
                if amount.0 <= 0 {
                    tallied(tally, currency@, amount, amount, rates, reporting)
                } else {
                    match value_of(factor_of(factors, currency@).0 as int, amount.0 as int) {
                        Ok(counted) => tallied(
                            tally,
                            currency@,
                            amount,
                            counted,
                            rates,
                            reporting,
                        ),
                        Err(e) => Err(e),
                    }
                }
            },
        }
    }
}

proof fn cash_tally_stops(
    balances: Seq<(Currency, Money)>,
    rates: Rates,
    reporting: Seq<char>,
    n: int,
)
    requires
        0 <= n <= balances.len(),
        cash_tally(balances.take(n), rates, reporting) is Err,
    ensures
        cash_tally(balances, rates, reporting) == cash_tally(balances.take(n), rates, reporting),
    decreases balances.len() - n,
{
    if n < balances.len() {
        assert(balances.take(n + 1).drop_last() =~= balances.take(n));
        cash_tally_stops(balances, rates, reporting, n + 1);
    } else {
        assert(balances.take(n) =~= balances);
    }
}

proof fn collateral_tally_stops(
    balances: Seq<(Currency, Money)>,
    factors: Map<Seq<char>, Price>,
    rates: Rates,
    reporting: Seq<char>,
    n: int,
)
    requires
        0 <= n <= balances.len(),
        collateral_tally(balances.take(n), factors, rates, reporting) is Err,
    ensures
        collateral_tally(balances, factors, rates, reporting) == collateral_tally(
            balances.take(n),
            factors,
            rates,
            reporting,
        ),
    decreases balances.len() - n,
{
    if n < balances.len() {
        assert(balances.take(n + 1).drop_last() =~= balances.take(n));
        collateral_tally_stops(balances, factors, rates, reporting, n + 1);
    } else {
        assert(balances.take(n) =~= balances);
    }
}

/// Cash balances in one or more currencies, plus the margin rules.
pub struct Account<M> {
    balances: SortedMap<Currency, Money>,
    reporting: Currency,
    haircuts: Haircuts,
    margin: M,
}

/// The balance of a currency: nothing where none is held.
pub open spec fn balance_in(balances: Map<Seq<char>, Money>, currency: Seq<char>) -> Money {
    if balances.dom().contains(currency) {
        balances[currency]
    } else {
        Money(0)
    }
}

/// A list of balances holds each currency once, in currency order, with the
/// balance it has.
pub open spec fn lists_balances(
    listed: Seq<(Currency, Money)>,
    held: Map<Seq<char>, Money>,
) -> bool {
    &&& forall|i: int, j: int|
        #![trigger listed[i], listed[j]]
        0 <= i < j < listed.len() ==> text_before(listed[i].0@, listed[j].0@)
    &&& forall|i: int|
        0 <= i < listed.len() ==> held.dom().contains((#[trigger] listed[i]).0@)
            && held[listed[i].0@] == listed[i].1
    &&& forall|c: Seq<char>| #[trigger]
        held.dom().contains(c) ==> exists|i: int|
            0 <= i < listed.len() && (#[trigger] listed[i]).0@ == c
}

/// Two lists of the same balances name the same currencies and amounts in the
/// same places.
pub proof fn balances_list_one_way(
    a: Seq<(Currency, Money)>,
    b: Seq<(Currency, Money)>,
    held: Map<Seq<char>, Money>,
)
    requires
        lists_balances(a, held),
        lists_balances(b, held),
    ensures
        a.len() == b.len(),
        forall|i: int| 0 <= i < a.len() ==> (#[trigger] a[i]).0@ == b[i].0@ && a[i].1 == b[i].1,
    decreases a.len(),
{
    if a.len() == 0 {
        if b.len() > 0 {
            assert(held.dom().contains(b[0].0@));
        }
    } else {
        assert(held.dom().contains(a[0].0@));
        let (x, y) = (a.last().0@, if b.len() > 0 { b.last().0@ } else { a.last().0@ });
        assert(a[a.len() - 1] == a.last());
        assert(held.dom().contains(x));
        let k = choose|k: int| 0 <= k < b.len() && (#[trigger] b[k]).0@ == x;
        assert(held.dom().contains(b[b.len() - 1].0@));
        let l = choose|l: int| 0 <= l < a.len() && (#[trigger] a[l]).0@ == y;
        assert(x == y) by {
            text_before_total(x, y);
            if k < b.len() - 1 {
                assert(text_before(b[k].0@, b[b.len() - 1].0@));
            }
            if l < a.len() - 1 {
                assert(text_before(a[l].0@, a[a.len() - 1].0@));
            }
            if text_before(x, y) && text_before(y, x) {
                text_before_transitive(x, y, x);
                text_before_irreflexive(x);
            }
            text_before_irreflexive(x);
        }
        let rest = held.remove(x);
        let (p, q) = (a.drop_last(), b.drop_last());
        assert(lists_balances(p, rest)) by {
            drops_the_last(a, held);
        }
        assert(lists_balances(q, rest)) by {
            drops_the_last(b, held);
        }
        balances_list_one_way(p, q, rest);
        assert forall|i: int| 0 <= i < a.len() implies (#[trigger] a[i]).0@ == b[i].0@ && a[i].1
            == b[i].1 by {
            if i < p.len() {
                assert(p[i] == a[i] && q[i] == b[i]);
            }
        }
    }
}

proof fn drops_the_last(a: Seq<(Currency, Money)>, held: Map<Seq<char>, Money>)
    requires
        a.len() > 0,
        lists_balances(a, held),
    ensures
        lists_balances(a.drop_last(), held.remove(a.last().0@)),
{
    let p = a.drop_last();
    let x = a.last().0@;
    let rest = held.remove(x);
    assert forall|i: int| 0 <= i < p.len() implies rest.dom().contains((#[trigger] p[i]).0@)
        && rest[p[i].0@] == p[i].1 by {
        assert(p[i] == a[i]);
        assert(text_before(a[i].0@, a[a.len() - 1].0@));
        text_before_irreflexive(x);
    }
    assert forall|c: Seq<char>| #[trigger] rest.dom().contains(c) implies exists|i: int|
        0 <= i < p.len() && (#[trigger] p[i]).0@ == c by {
        assert(held.dom().contains(c));
        let i = choose|i: int| 0 <= i < a.len() && (#[trigger] a[i]).0@ == c;
        assert(p[i] == a[i]);
    }
    assert forall|i: int, j: int|
        #![trigger p[i], p[j]]
        0 <= i < j < p.len() implies text_before(p[i].0@, p[j].0@) by {
        assert(p[i] == a[i] && p[j] == a[j]);
    }
}

impl Account<CashMargin> {
    /// A single-currency cash account, the common case.
    pub fn cash(reporting: Currency, starting: Money) -> (a: Self)
        ensures
            a.wf(),
            a.held() == Map::<Seq<char>, Money>::empty().insert(reporting@, starting),
            a.reports_in() == reporting@,
            a.factors() == Map::<Seq<char>, Price>::empty(),
    {
        let mut account = Account::new(reporting.clone(), CashMargin);
        account.deposit(reporting, starting);
        account
    }
}

impl<M: MarginModel> Account<M> {
    pub closed spec fn wf(&self) -> bool {
        self.balances.wf() && self.haircuts.wf()
    }

    /// The balances by currency.
    pub closed spec fn held(&self) -> Map<Seq<char>, Money> {
        self.balances@
    }

    /// The balances in currency order.
    pub closed spec fn listed(&self) -> Seq<(Currency, Money)> {
        self.balances.seq()
    }

    pub closed spec fn reports_in(&self) -> Seq<char> {
        self.reporting@
    }

    pub closed spec fn factors(&self) -> Map<Seq<char>, Price> {
        self.haircuts@
    }

    pub closed spec fn model(&self) -> M {
        self.margin
    }

    pub fn new(reporting: Currency, margin: M) -> (a: Self)
        ensures
            a.wf(),
            a.held() == Map::<Seq<char>, Money>::empty(),
            a.listed() == Seq::<(Currency, Money)>::empty(),
            a.reports_in() == reporting@,
            a.factors() == Map::<Seq<char>, Price>::empty(),
            a.model() == margin,
    {
        Account { balances: SortedMap::new(), reporting, haircuts: Haircuts::new(), margin }
    }

    pub fn with_haircuts(self, haircuts: Haircuts) -> (r: Self)
        requires
            self.wf(),
            haircuts.wf(),
        ensures
            r.wf(),
            r.held() == self.held(),
            r.listed() == self.listed(),
            r.reports_in() == self.reports_in(),
            r.factors() == haircuts@,
            r.model() == self.model(),
    {
        Account {
            balances: self.balances,
            reporting: self.reporting,
            haircuts,
            margin: self.margin,
        }
    }

    pub fn reporting_currency(&self) -> (r: &Currency)
        ensures
            r@ == self.reports_in(),
    {
        &self.reporting
    }

    pub fn deposit(&mut self, currency: Currency, amount: Money)
        requires
            old(self).wf(),
            fits(balance_in(old(self).held(), currency@).0 + amount.0),
        ensures
            final(self).wf(),
            final(self).held() == old(self).held().insert(
                currency@,
                Money((balance_in(old(self).held(), currency@).0 + amount.0) as i64),
            ),
            final(self).reports_in() == old(self).reports_in(),
            final(self).factors() == old(self).factors(),
            final(self).model() == old(self).model(),
    {
        let balance = self.balance(&currency);
        self.balances.insert(currency, Money(balance.0 + amount.0));
    }

    pub fn balance(&self, currency: &Currency) -> (r: Money)
        requires
            self.wf(),
        ensures
            r == balance_in(self.held(), currency@),
    {
        match self.balances.get(currency) {
            Some(amount) => *amount,
            None => Money(0),
        }
    }

    /// Balances in deterministic order.
    pub fn balances(&self) -> (out: Vec<(Currency, Money)>)
        ensures
            out@ == self.listed(),
    {
        let mut out: Vec<(Currency, Money)> = Vec::new();
        let n: usize = self.balances.len();
        let mut i: usize = 0;
        while i < n
            invariant
                n == self.listed().len(),
                i <= n,
                out@ == self.listed().take(i as int),
            decreases n - i,
        {
            out.push((self.balances.key_at(i).clone(), *self.balances.value_at(i)));
            assert(out@ =~= self.listed().take(i + 1));
            i += 1;
        }
        assert(self.listed().take(n as int) =~= self.listed());
        out
    }

    /// What is listed is what is held: each currency once, with its balance,
    /// in currency order.
    pub proof fn listed_is_held(&self)
        requires
            self.wf(),
        ensures
            lists_balances(self.listed(), self.held()),
    {
        let s = self.balances.seq();
        entries_map_contains(s);
        assert forall|i: int, j: int|
            #![trigger s[i], s[j]]
            0 <= i < j < s.len() implies text_before(s[i].0@, s[j].0@) by {
            assert(<Currency as OrderedKey>::before(s[i].0@, s[j].0@));
        }
    }

    /// Move cash, in whatever currency the leg settles in.
    pub fn apply(&mut self, currency: &Currency, delta: Money) -> (r: Result<(), BacktestError>)
        requires
            old(self).wf(),
        ensures
            final(self).wf(),
            final(self).reports_in() == old(self).reports_in(),
            final(self).factors() == old(self).factors(),
            final(self).model() == old(self).model(),
            ({
                let sum = balance_in(old(self).held(), currency@).0 + delta.0;
                match r {
                    Ok(_) => fits(sum) && final(self).held() == old(self).held().insert(
                        currency@,
                        Money(sum as i64),
                    ),
                    Err(e) => !fits(sum) && *final(self) == *old(self) && e == (
                    BacktestError::Overflow { what: "Money::add" }),
                }
            }),
    {
        let sum = self.balance(currency).checked_add(delta)?;
        self.balances.insert(currency.clone(), sum);
        Ok(())
    }

    /// Total cash in the reporting currency, naming what could not convert.
    pub fn cash_value(&self, fx: &FxBook) -> (r: Result<Valuation, BacktestError>)
        requires
            self.wf(),
            fx.wf(),
        ensures
            match r {
                Ok(v) => v.currency@ == self.reports_in() && cash_tally(
                    self.listed(),
                    fx@,
                    self.reports_in(),
                ) == Ok::<Tally, BacktestError>((v.total, coded(v.unconvertible@))),
                Err(e) => cash_tally(self.listed(), fx@, self.reports_in()) == Err::<
                    Tally,
                    BacktestError,
                >(e),
            },
    {
        let mut total = Money(0);
        let mut unconvertible: Vec<(Currency, Money)> = Vec::new();
        let ghost all = self.listed();
        let n: usize = self.balances.len();
        let mut i: usize = 0;
        assert(all.take(0) =~= Seq::<(Currency, Money)>::empty());
        assert(coded(unconvertible@) =~= Seq::<(Seq<char>, Money)>::empty());
        while i < n
            invariant
                self.wf(),
                fx.wf(),
                all == self.listed(),
                n == all.len(),
                i <= n,
                cash_tally(all.take(i as int), fx@, self.reports_in()) == Ok::<
                    Tally,
                    BacktestError,
                >((total, coded(unconvertible@))),
            decreases n - i,
        {
            let currency = self.balances.key_at(i);
            let amount = *self.balances.value_at(i);
            assert(all.take(i + 1).drop_last() =~= all.take(i as int));
            assert(all.take(i + 1).last() == (*currency, amount));
            if !amount.is_zero() {
                match fx.convert(amount, currency, &self.reporting) {
                    Ok(value) => match total.checked_add(value) {
                        Ok(sum) => {
                            total = sum;
                        },
                        Err(e) => {
                            proof {
                                cash_tally_stops(all, fx@, self.reports_in(), i + 1);
                            }
                            return Err(e);
                        },
                    },
                    Err(FxError::NoRate { .. }) => {
                        let ghost before = unconvertible@;
                        unconvertible.push((currency.clone(), amount));
                        assert(coded(unconvertible@) =~= coded(before).push((currency@, amount)));
                    },
                }
            }
            i += 1;
        }
        assert(all.take(n as int) =~= all);
        Ok(Valuation { total, currency: self.reporting.clone(), unconvertible })
    }

    /// Cash usable as margin, after haircuts.
    pub fn collateral(&self, fx: &FxBook) -> (r: Result<Valuation, BacktestError>)
        requires
            self.wf(),
            fx.wf(),
        ensures
            match r {
                Ok(v) => v.currency@ == self.reports_in() && collateral_tally(
                    self.listed(),
                    self.factors(),
                    fx@,
                    self.reports_in(),
                ) == Ok::<Tally, BacktestError>((v.total, coded(v.unconvertible@))),
                Err(e) => collateral_tally(
                    self.listed(),
                    self.factors(),
                    fx@,
                    self.reports_in(),
                ) == Err::<Tally, BacktestError>(e),
            },
    {
        let mut total = Money(0);
        let mut unconvertible: Vec<(Currency, Money)> = Vec::new();
        let ghost all = self.listed();
        let n: usize = self.balances.len();
        let mut i: usize = 0;
        assert(all.take(0) =~= Seq::<(Currency, Money)>::empty());
        assert(coded(unconvertible@) =~= Seq::<(Seq<char>, Money)>::empty());
        while i < n
            invariant
                self.wf(),
                fx.wf(),
                all == self.listed(),
                n == all.len(),
                i <= n,
                collateral_tally(all.take(i as int), self.factors(), fx@, self.reports_in()) == Ok::<
                    Tally,
                    BacktestError,
                >((total, coded(unconvertible@))),
            decreases n - i,
        {
            let currency = self.balances.key_at(i);
            let amount = *self.balances.value_at(i);
            assert(all.take(i + 1).drop_last() =~= all.take(i as int));
            assert(all.take(i + 1).last() == (*currency, amount));
            // A negative balance is a debt, not collateral, and it counts
            // against you in full regardless of haircut.
            let counts_as = if amount.is_positive() {
                match self.haircuts.apply(amount, currency) {
                    Ok(counted) => counted,
                    Err(e) => {
                        proof {
                            collateral_tally_stops(
                                all,
                                self.factors(),
                                fx@,
                                self.reports_in(),
                                i + 1,
                            );
                        }
                        return Err(e);
                    },
                }
            } else {
                amount
            };
            match fx.convert(counts_as, currency, &self.reporting) {
                Ok(value) => match total.checked_add(value) {
                    Ok(sum) => {
                        total = sum;
                    },
                    Err(e) => {
                        proof {
                            collateral_tally_stops(
                                all,
                                self.factors(),
                                fx@,
                                self.reports_in(),
                                i + 1,
                            );
                        }
                        return Err(e);
                    },
                },
                Err(FxError::NoRate { .. }) => {
                    let ghost before = unconvertible@;
                    unconvertible.push((currency.clone(), amount));
                    assert(coded(unconvertible@) =~= coded(before).push((currency@, amount)));
                },
            }
            i += 1;
        }
        assert(all.take(n as int) =~= all);
        Ok(Valuation { total, currency: self.reporting.clone(), unconvertible })
    }

    pub fn margin_model(&self) -> (r: &M)
        ensures
            *r == self.model(),
    {
        &self.margin
    }
}

/// What margin the open book requires right now.
#[derive(PartialEq, Eq, Debug)]
pub struct MarginRequirement {
    pub initial: Money,
    pub maintenance: Money,
    /// Positions with no mark, whose requirement could not be computed and
    /// is therefore **not** included above.
    pub unmarked: Vec<(InstrumentId, OutcomeId)>,
}

impl Default for MarginRequirement {
    fn default() -> (r: Self)
        ensures
            r.initial == Money(0),
            r.maintenance == Money(0),
            r.unmarked@.len() == 0,
    {
        MarginRequirement { initial: Money(0), maintenance: Money(0), unmarked: Vec::new() }
    }
}

/// A requirement with its positions by key.
pub struct RequirementView {
    pub initial: Money,
    pub maintenance: Money,
    pub unmarked: Seq<KeyView>,
}

/// Position keys as text and number.
pub open spec fn key_views(keys: Seq<PositionKey>) -> Seq<KeyView> {
    keys.map_values(|k: PositionKey| (k.0@, k.1.0))
}

impl View for MarginRequirement {
    type V = RequirementView;

    open spec fn view(&self) -> RequirementView {
        RequirementView {
            initial: self.initial,
            maintenance: self.maintenance,
            unmarked: key_views(self.unmarked@),
        }
    }
}

/// `total + amount`, or the error in either.
pub open spec fn plus(total: Money, amount: Result<Money, BacktestError>) -> Result<
    Money,
    ErrorView,
> {
    match amount {
        Err(e) => Err(e@),
        Ok(m) => if fits(total.0 + m.0) {
            Ok(Money((total.0 + m.0) as i64))
        } else {
            Err(ErrorView::Overflow { what: "Money::add"@ })
        },
    }
}

/// A requirement with one more position in it. A flat position requires
/// nothing; one without a mark is named; any other adds what the model asks
/// for it.
pub open spec fn with_position<M: MarginModel>(
    model: M,
    req: RequirementView,
    p: Position,
    instruments: Map<Seq<char>, Instrument>,
    marks: Map<KeyView, Price>,
) -> Result<RequirementView, ErrorView> {
    if p.quantity.0 == 0 {
        Ok(req)
    } else if !marks.dom().contains(key_of(p)) {
        Ok(RequirementView { unmarked: req.unmarked.push(key_of(p)), ..req })
    } else if !instruments.dom().contains(p.instrument@) {
        Err(ErrorView::UnknownInstrument(p.instrument@))
    } else {
        let instrument = instruments[p.instrument@];
        let mark = marks[key_of(p)];
        match plus(req.initial, model.initial_of(instrument, p.quantity, mark)) {
            Err(e) => Err(e),
            Ok(initial) => match plus(
                req.maintenance,
                model.maintenance_of(instrument, p.quantity, mark),
            ) {
                Err(e) => Err(e),
                Ok(maintenance) => Ok(RequirementView { initial, maintenance, ..req }),
            },
        }
    }
}

/// The margin required across a list of positions.
pub open spec fn requirement_of<M: MarginModel>(
    model: M,
    positions: Seq<Position>,
    instruments: Map<Seq<char>, Instrument>,
    marks: Map<KeyView, Price>,
) -> Result<RequirementView, ErrorView>
    decreases positions.len(),
{
    if positions.len() == 0 {
        Ok(
            RequirementView {
                initial: Money(0),
                maintenance: Money(0),
                unmarked: Seq::empty(),
            },
        )
    } else {
        match requirement_of(model, positions.drop_last(), instruments, marks) {
            Err(e) => Err(e),
            Ok(req) => with_position(model, req, positions.last(), instruments, marks),
        }
    }
}

proof fn requirement_stops<M: MarginModel>(
    model: M,
    positions: Seq<Position>,
    instruments: Map<Seq<char>, Instrument>,
    marks: Map<KeyView, Price>,
    n: int,
)
    requires
        0 <= n <= positions.len(),
        requirement_of(model, positions.take(n), instruments, marks) is Err,
    ensures
        requirement_of(model, positions, instruments, marks) == requirement_of(
            model,
            positions.take(n),
            instruments,
            marks,
        ),
    decreases positions.len() - n,
{
    if n < positions.len() {
        assert(positions.take(n + 1).drop_last() =~= positions.take(n));
        requirement_stops(model, positions, instruments, marks, n + 1);
    } else {
        assert(positions.take(n) =~= positions);
    }
}

/// The positions a list of references points to.
pub open spec fn pointed_to(refs: Seq<&Position>) -> Seq<Position> {
    refs.map_values(|p: &Position| *p)
}

/// Add one position to a requirement.
fn add_position<M: MarginModel>(
    model: &M,
    out: &mut MarginRequirement,
    position: &Position,
    instruments: &InstrumentSet,
    marks: &SortedMap<PositionKey, Price>,
) -> (r: Result<(), BacktestError>)
    requires
        instruments.wf(),
        marks.wf(),
    ensures
        match r {
            Ok(_) => with_position(*model, old(out)@, *position, instruments@, marks@) == Ok::<
                RequirementView,
                ErrorView,
            >(final(out)@),
            Err(e) => with_position(*model, old(out)@, *position, instruments@, marks@) == Err::<
                RequirementView,
                ErrorView,
            >(e@),
        },
{
    if position.is_flat() {
        return Ok(());
    }
    let key: PositionKey = (position.instrument.clone(), position.outcome);
    assert(key@ == key_of(*position));
    let mark = match marks.get(&key) {
        Some(mark) => *mark,
        None => {
            let ghost before = out.unmarked@;
            out.unmarked.push(key);
            assert(key_views(out.unmarked@) =~= key_views(before).push(key_of(*position)));
            return Ok(());
        },
    };
    let instrument = instruments.get(&position.instrument)?;
    let initial = model.initial_margin(instrument, position.quantity, mark)?;
    let total_initial = out.initial.checked_add(initial)?;
    let maintenance = model.maintenance_margin(instrument, position.quantity, mark)?;
    let total_maintenance = out.maintenance.checked_add(maintenance)?;
    out.initial = total_initial;
    out.maintenance = total_maintenance;
    Ok(())
}

/// Total margin required across a set of positions.
pub fn margin_requirement<M: MarginModel>(
    model: &M,
    positions: &Vec<&Position>,
    instruments: &InstrumentSet,
    marks: &SortedMap<PositionKey, Price>,
) -> (r: Result<MarginRequirement, BacktestError>)
    requires
        instruments.wf(),
        marks.wf(),
    ensures
        match r {
            Ok(req) => requirement_of(*model, pointed_to(positions@), instruments@, marks@) == Ok::<
                RequirementView,
                ErrorView,
            >(req@),
            Err(e) => requirement_of(*model, pointed_to(positions@), instruments@, marks@) == Err::<
                RequirementView,
                ErrorView,
            >(e@),
        },
{
    let ghost all = pointed_to(positions@);
    let mut out = MarginRequirement::default();
    let n: usize = positions.len();
    let mut i: usize = 0;
    assert(all.take(0) =~= Seq::<Position>::empty());
    assert(key_views(out.unmarked@) =~= Seq::<KeyView>::empty());
    while i < n
        invariant
            instruments.wf(),
            marks.wf(),
            all == pointed_to(positions@),
            n == positions@.len(),
            i <= n,
            requirement_of(*model, all.take(i as int), instruments@, marks@) == Ok::<
                RequirementView,
                ErrorView,
            >(out@),
        decreases n - i,
    {
        assert(all.take(i + 1).drop_last() =~= all.take(i as int));
        assert(all.take(i + 1).last() == *positions@[i as int]);
        match add_position(model, &mut out, positions[i], instruments, marks) {
            Ok(_) => {},
            Err(e) => {
                proof {
                    requirement_stops(*model, all, instruments@, marks@, i + 1);
                }
                return Err(e);
            },
        }
        i += 1;
    }
    assert(all.take(n as int) =~= all);
    Ok(out)
}

/// Whether an account is above water, and by how much.
#[derive(Clone, Copy, PartialEq, Eq, Debug, Structural)]
pub struct MarginState {
    /// Collateral plus unrealized profit, in the reporting currency.
    pub equity: Money,
    pub initial: Money,
    pub maintenance: Money,
    /// True when equity has fallen below the maintenance requirement.
    pub liquidatable: bool,
    /// Set when something could not be valued, which makes the rest of
    /// this a partial answer rather than a verdict.
    pub incomplete: bool,
}

impl MarginState {
    /// Free collateral available to open more.
    pub fn available(&self) -> (r: Money)
        requires
            fits(self.equity.0 - self.initial.0),
        ensures
            r.0 == self.equity.0 - self.initial.0,
    {
        Money(self.equity.0 - self.initial.0)
    }
}

/// Where an account with this equity stands against a requirement. It is
/// liquidatable only on a complete valuation, against a requirement that is
/// not zero and that its equity falls short of.
pub open spec fn standing(equity: Money, complete: bool, req: RequirementView) -> MarginState {
    let incomplete = !complete || req.unmarked.len() > 0;
    MarginState {
        equity,
        initial: req.initial,
        maintenance: req.maintenance,
        liquidatable: !incomplete && req.maintenance.0 != 0 && equity.0 < req.maintenance.0,
        incomplete,
    }
}

/// Evaluate an account against its open positions.
///
/// `unrealized` is the marked profit already computed by the portfolio, in
/// the reporting currency. Liquidation is *not* declared when anything was
/// unconvertible or unmarked: closing someone's book on the strength of a
/// number known to be incomplete is worse than continuing.
pub fn margin_state(
    collateral: &Valuation,
    unrealized: Money,
    requirement: &MarginRequirement,
) -> (r: Result<MarginState, BacktestError>)
    ensures
        r == (if fits(collateral.total.0 + unrealized.0) {
            Ok(
                standing(
                    Money((collateral.total.0 + unrealized.0) as i64),
                    collateral.unconvertible@.len() == 0,
                    requirement@,
                ),
            )
        } else {
            Err(BacktestError::Overflow { what: "Money::add" })
        }),
{
    let equity = collateral.total.checked_add(unrealized)?;
    let incomplete = !collateral.is_complete() || requirement.unmarked.len() > 0;
    Ok(
        MarginState {
            equity,
            initial: requirement.initial,
            maintenance: requirement.maintenance,
            liquidatable: !incomplete && !requirement.maintenance.is_zero() && equity.0
                < requirement.maintenance.0,
            incomplete,
        },
    )
}

/// A requirement is built up over the positions: an open one that is marked
/// adds what the model asks to open it and what it asks to keep it, each to
/// its own sum, one without a mark is named and adds nothing, and a flat one
/// is passed over.
pub proof fn requirements_add_up<M: MarginModel>(
    model: M,
    positions: Seq<Position>,
    instruments: Map<Seq<char>, Instrument>,
    marks: Map<KeyView, Price>,
)
    ensures
        positions.len() == 0 ==> (requirement_of(model, positions, instruments, marks) matches Ok(r)
            && r.initial.0 == 0 && r.maintenance.0 == 0 && r.unmarked.len() == 0),
        positions.len() > 0 ==> {
            let p = positions.last();
            let before = requirement_of(model, positions.drop_last(), instruments, marks);
            let after = requirement_of(model, positions, instruments, marks);
            if before is Err || p.quantity.0 == 0 {
                after == before
            } else if !marks.dom().contains((p.instrument@, p.outcome.0)) {
                &&& after is Ok
                &&& after->Ok_0.initial == before->Ok_0.initial
                &&& after->Ok_0.maintenance == before->Ok_0.maintenance
                &&& after->Ok_0.unmarked == before->Ok_0.unmarked.push(
                    (p.instrument@, p.outcome.0),
                )
            } else {
                after is Ok ==> {
                    let mark = marks[(p.instrument@, p.outcome.0)];
                    let instrument = instruments[p.instrument@];
                    let opens = model.initial_of(instrument, p.quantity, mark);
                    let keeps = model.maintenance_of(instrument, p.quantity, mark);
                    &&& instruments.dom().contains(p.instrument@)
                    &&& opens is Ok && after->Ok_0.initial.0 - before->Ok_0.initial.0
                        == opens->Ok_0.0
                    &&& keeps is Ok && after->Ok_0.maintenance.0 - before->Ok_0.maintenance.0
                        == keeps->Ok_0.0
                    &&& after->Ok_0.unmarked == before->Ok_0.unmarked
                }
            }
        },
{
}

/// An account is liquidated exactly where everything it holds is valued,
/// something has to be maintained, and its equity has fallen below that: an
/// account that holds just what is asked is left alone.
pub proof fn liquidation_starts_below_maintenance(
    equity: Money,
    complete: bool,
    req: RequirementView,
)
    ensures
        ({
            let state = standing(equity, complete, req);
            &&& state.equity == equity
            &&& state.initial == req.initial
            &&& state.maintenance == req.maintenance
            &&& state.incomplete <==> !complete || req.unmarked.len() > 0
            &&& equity.0 >= req.maintenance.0 ==> !state.liquidatable
            &&& complete && req.unmarked.len() == 0 && equity.0 < req.maintenance.0
                && req.maintenance.0 > 0 ==> state.liquidatable
        }),
{
}

/// Cash is built up over the balances: an empty one is passed over, one that
/// converts adds what it is worth in the reporting currency, and one that
/// does not is listed as it stands and adds nothing.
pub proof fn cash_adds_up(balances: Seq<(Currency, Money)>, rates: Rates, reporting: Seq<char>)
    ensures
        balances.len() == 0 ==> (cash_tally(balances, rates, reporting) matches Ok(t) && t.0.0 == 0
            && t.1.len() == 0),
        balances.len() > 0 ==> {
            let before = cash_tally(balances.drop_last(), rates, reporting);
            let after = cash_tally(balances, rates, reporting);
            let (currency, amount) = balances.last();
            if before is Err || amount.0 == 0 {
                after == before
            } else {
                match converted(rates, amount, currency@, reporting) {
                    Some(value) => match after {
                        Ok(t) => t.0.0 - before->Ok_0.0.0 == value.0 && t.1 == before->Ok_0.1,
                        Err(_) => !(i64::MIN <= before->Ok_0.0.0 + value.0 <= i64::MAX),
                    },
                    None => after matches Ok(t) && t.0 == before->Ok_0.0 && t.1
                        == before->Ok_0.1.push((currency@, amount)),
                }
            }
        },
{
}

/// Collateral is built up over the balances, a debt in full and a holding
/// after its haircut, so that neither a haircut nor a missing rate ever makes
/// an account look better: a holding whose factor is at most the whole counts
/// for no more than itself.
pub proof fn collateral_adds_up(
    balances: Seq<(Currency, Money)>,
    factors: Map<Seq<char>, Price>,
    rates: Rates,
    reporting: Seq<char>,
)
    ensures
        balances.len() == 0 ==> (collateral_tally(balances, factors, rates, reporting) matches Ok(t)
            && t.0.0 == 0 && t.1.len() == 0),
        balances.len() > 0 ==> {
            let before = collateral_tally(balances.drop_last(), factors, rates, reporting);
            let after = collateral_tally(balances, factors, rates, reporting);
            let (currency, amount) = balances.last();
            let factor = if factors.dom().contains(currency@) {
                factors[currency@].0 as int
            } else {
                1_000_000_000
            };
            if before is Err {
                after == before
            } else {
                after is Ok ==> exists|counted: Money|
                    {
                        &&& amount.0 <= 0 ==> counted == amount
                        &&& amount.0 > 0 ==> -1_000_000_000 <= 2 * (counted.0 * 1_000_000_000
                            - factor * amount.0) <= 1_000_000_000
                        &&& amount.0 > 0 && 0 <= factor <= 1_000_000_000 ==> 0 <= counted.0
                            <= amount.0
                        &&& match #[trigger] converted(rates, counted, currency@, reporting) {
                            Some(value) => after->Ok_0.0.0 - before->Ok_0.0.0 == value.0
                                && after->Ok_0.1 == before->Ok_0.1,
                            None => after->Ok_0.0 == before->Ok_0.0 && after->Ok_0.1
                                == before->Ok_0.1.push((currency@, amount)),
                        }
                    }
            }
        },
{
    if balances.len() > 0 {
        let after = collateral_tally(balances, factors, rates, reporting);
        let (currency, amount) = balances.last();
        let factor = factor_of(factors, currency@).0 as int;
        a_value_is_the_nearest(factor, amount.0 as int);
        if after is Ok {
            let counted = if amount.0 <= 0 {
                amount
            } else {
                value_of(factor, amount.0 as int)->Ok_0
            };
            if amount.0 > 0 && 0 <= factor <= 1_000_000_000 {
                assert(0 <= factor * amount.0 <= 1_000_000_000 * amount.0) by (nonlinear_arith)
                    requires
                        0 <= factor <= 1_000_000_000,
                        amount.0 > 0,
                ;
            }
            let value = converted(rates, counted, currency@, reporting);
        }
    }
}

/// Liquidation is never declared on an incomplete valuation, nor where
/// nothing has to be maintained.
pub proof fn no_liquidation_on_partial_figures(
    equity: Money,
    complete: bool,
    req: RequirementView,
)
    ensures
        !complete ==> !standing(equity, complete, req).liquidatable,
        req.unmarked.len() > 0 ==> !standing(equity, complete, req).liquidatable,
        req.maintenance.0 == 0 ==> !standing(equity, complete, req).liquidatable,
        standing(equity, complete, req).incomplete ==> !standing(
            equity,
            complete,
            req,
        ).liquidatable,
{
}

/// A position closed by the venue rather than by the strategy.
#[derive(PartialEq, Eq, Debug)]
pub struct Liquidation {
    pub instrument: InstrumentId,
    pub outcome: OutcomeId,
    pub quantity: Qty,
    pub mark: Price,
    pub equity: Money,
    pub maintenance: Money,
}

/// Scale a price by a fraction, rounding towards zero.
pub fn scaled(price: Price, fraction: Price) -> (r: Result<Price, BacktestError>)
    ensures
        r == (if fits(div_trunc(price.0 * fraction.0, SCALE as int)) {
            Ok(Price(div_trunc(price.0 * fraction.0, SCALE as int) as i64))
        } else {
            Err(BacktestError::Overflow { what: "scaled" })
        }),
{
    let product: i128 = divide_trunc(wide_product(price.0, fraction.0), SCALE as i128);
    match narrow(product, "scaled") {
        Ok(raw) => Ok(Price(raw)),
        Err(e) => Err(e),
    }
}

impl Clone for Liquidation {
    fn clone(&self) -> (r: Self)
        ensures
            r == *self,
    {
        Liquidation {
            instrument: self.instrument.clone(),
            outcome: self.outcome,
            quantity: self.quantity,
            mark: self.mark,
            equity: self.equity,
            maintenance: self.maintenance,
        }
    }
}

} // verus!
