//! Currencies, exchange rates, and the refusal to guess one.
//!
//! A single-currency backtest is a special case, not the world. A perp
//! margined in USDC, a prediction market settling in USDC, and a European
//! equity quoted in EUR cannot be added together without a rate, and the
//! rate is *market data*: it moves, and using today's rate to value last
//! year's position is the same class of error as using tomorrow's price.
//!
//! When no rate is known, the answer is not zero and not the identity -- it
//! is [`FxError::NoRate`], because a portfolio that silently values EUR as
//! USD is wrong in a way that looks plausible for a long time.

use vstd::prelude::*;
use vstd::string::*;

use crate::error::{says, BacktestError};
use crate::ordered::{entries_map_contains, OrderedKey, SortedMap};
use crate::text::{
    debug_of, debug_text, str_before, text_before, text_before_irreflexive, text_before_total,
    text_before_transitive, to_upper, trim, trimmed, upper_text,
};
use crate::types::{fits, fixed_text, notional, notional_of, push_fixed, Money, Price, Qty, SCALE};

verus! {

/// An ISO-style currency code.
///
/// Compared and ordered as text, so anything iterating currencies is
/// deterministic rather than hash-ordered.
#[derive(Debug, Eq, Hash)]
pub struct Currency {
    code: String,
}

impl View for Currency {
    type V = Seq<char>;

    closed spec fn view(&self) -> Seq<char> {
        self.code@
    }
}

impl PartialEq for Currency {
    fn eq(&self, other: &Currency) -> (r: bool) {
        self.code == other.code
    }
}

impl vstd::std_specs::cmp::PartialEqSpecImpl for Currency {
    open spec fn obeys_eq_spec() -> bool {
        true
    }

    open spec fn eq_spec(&self, other: &Currency) -> bool {
        self@ == other@
    }
}

impl Clone for Currency {
    fn clone(&self) -> (r: Self)
        ensures
            r == *self,
    {
        Currency { code: self.code.clone() }
    }
}

impl OrderedKey for Currency {
    open spec fn before(a: Seq<char>, b: Seq<char>) -> bool {
        text_before(a, b)
    }

    proof fn before_irreflexive(a: Seq<char>) {
        text_before_irreflexive(a);
    }

    proof fn before_transitive(a: Seq<char>, b: Seq<char>, c: Seq<char>) {
        text_before_transitive(a, b, c);
    }

    proof fn before_total(a: Seq<char>, b: Seq<char>) {
        text_before_total(a, b);
    }

    fn precedes(&self, other: &Currency) -> (r: bool) {
        str_before(self.code.as_str(), other.code.as_str())
    }
}

/// Whether a character may stand in a currency code.
pub open spec fn code_char(c: char) -> bool {
    ('a' <= c && c <= 'z') || ('A' <= c && c <= 'Z') || ('0' <= c && c <= '9') || c == '.'
}

/// Whether a trimmed code is the right length: one to twelve bytes.
pub open spec fn code_length_ok(code: Seq<char>) -> bool {
    0 < code.len() && vstd::utf8::encode_utf8(code).len() as usize <= 12
}

/// Whether every character may stand in a currency code.
pub open spec fn code_chars_ok(code: Seq<char>) -> bool {
    forall|i: int| 0 <= i < code.len() ==> code_char(#[trigger] code[i])
}

impl Currency {
    /// A currency from its code, trimmed and in upper case.
    pub fn new(code: &str) -> (r: Result<Self, BacktestError>)
        ensures
            match r {
                Ok(c) => code_length_ok(trimmed(code@)) && code_chars_ok(trimmed(code@)) && c@
                    == upper_text(trimmed(code@)),
                Err(e) => {
                    if !code_length_ok(trimmed(code@)) {
                        says(
                            e,
                            "currency code "@ + debug_text(code@)
                                + " must be 1 to 12 characters"@,
                        )
                    } else {
                        !code_chars_ok(trimmed(code@)) && says(
                            e,
                            "currency code "@ + debug_text(code@) + " must be alphanumeric"@,
                        )
                    }
                },
            },
    {
        let name = trim(code);
        if name.is_empty() || name.len() > 12 {
            let mut m = "currency code ".to_owned();
            m.append(debug_of(code).as_str());
            m.append(" must be 1 to 12 characters");
            return Err(BacktestError::Invalid(m));
        }
        let n: usize = name.unicode_len();
        let mut i: usize = 0;
        while i < n
            invariant
                n == name@.len(),
                i <= n,
                name@ == trimmed(code@),
                code_length_ok(name@),
                forall|j: int| 0 <= j < i ==> code_char(#[trigger] name@[j]),
            decreases n - i,
        {
            let c = name.get_char(i);
            if !(('a' <= c && c <= 'z') || ('A' <= c && c <= 'Z') || ('0' <= c && c <= '9') || c
                == '.') {
                let mut m = "currency code ".to_owned();
                m.append(debug_of(code).as_str());
                m.append(" must be alphanumeric");
                assert(!code_char(name@[i as int]));
                return Err(BacktestError::Invalid(m));
            }
            i += 1;
        }
        Ok(Currency { code: to_upper(name) })
    }

    /// The dollar stable coin most venues settle in.
    pub fn usdc() -> (c: Self)
        ensures
            c@ == "USDC"@,
    {
        Currency { code: "USDC".to_owned() }
    }

    pub fn as_str(&self) -> (r: &str)
        ensures
            r@ == self@,
    {
        self.code.as_str()
    }
}

/// Why a conversion could not be done.
#[derive(Debug, PartialEq, Eq)]
pub enum FxError {
    /// No rate is known between these two currencies.
    NoRate { from: Currency, to: Currency },
}

impl FxError {
    /// The error as a sentence.
    pub fn message(&self) -> (out: String)
        ensures
            self matches FxError::NoRate { from, to } && out@ == "no exchange rate is known from "@
                + from@ + " to "@ + to@
                + "; the value cannot be converted and must not be assumed equal"@,
    {
        match self {
            FxError::NoRate { from, to } => {
                let mut out = "no exchange rate is known from ".to_owned();
                out.append(from.as_str());
                out.append(" to ");
                out.append(to.as_str());
                out.append("; the value cannot be converted and must not be assumed equal");
                out
            },
        }
    }
}

/// That no rate is known from `from` to `to`.
pub open spec fn no_rate(e: FxError, from: Seq<char>, to: Seq<char>) -> bool {
    e matches FxError::NoRate { from: f, to: t } && f@ == from && t@ == to
}

/// The rates known, by (base, quote).
pub type Rates = Map<(Seq<char>, Seq<char>), Price>;

/// The rate to multiply a `from` amount by to get `to`: one for the same
/// currency, else the rate recorded, else the inverse of the one recorded
/// the other way round.
pub open spec fn known_rate(rates: Rates, from: Seq<char>, to: Seq<char>) -> Option<Price> {
    if from == to {
        Some(Price(SCALE))
    } else if rates.dom().contains((from, to)) {
        Some(rates[(from, to)])
    } else if rates.dom().contains((to, from)) {
        Some(Price((1_000_000_000_000_000_000int / rates[(to, from)].0 as int) as i64))
    } else {
        None
    }
}

/// What an amount is worth in another currency, if that can be said.
pub open spec fn converted(rates: Rates, amount: Money, from: Seq<char>, to: Seq<char>) -> Option<
    Money,
> {
    if from == to {
        Some(amount)
    } else {
        match known_rate(rates, from, to) {
            Some(rate) => {
                let value = notional_of(rate.0 as int, amount.0 as int);
                if fits(value) {
                    Some(Money(value as i64))
                } else {
                    None
                }
            },
            None => None,
        }
    }
}

/// The exchange rates known right now.
///
/// Rates are *replaced* as new ones arrive, so the book always holds the
/// latest known rate and never a blend. Inverses are derived rather than
/// stored, so a feed publishing only `EUR/USD` still answers `USD/EUR`
/// without a second row that could drift out of step with the first.
pub struct FxBook {
    rates: SortedMap<(Currency, Currency), Price>,
}

impl View for FxBook {
    type V = Rates;

    closed spec fn view(&self) -> Rates {
        self.rates@
    }
}

impl FxBook {
    /// Every rate is positive.
    pub closed spec fn wf(&self) -> bool {
        &&& self.rates.wf()
        &&& forall|i: int| 0 <= i < self.rates.seq().len() ==> (#[trigger] self.rates.seq()[i]).1.0 > 0
    }

    /// The pairs recorded, in order.
    pub closed spec fn pair_seq(&self) -> Seq<(Seq<char>, Seq<char>)> {
        self.rates.seq().map_values(|e: ((Currency, Currency), Price)| (e.0.0@, e.0.1@))
    }

    pub fn new() -> (b: Self)
        ensures
            b.wf(),
            b@ == Rates::empty(),
    {
        FxBook { rates: SortedMap::new() }
    }

    /// Record `1 base = rate quote`.
    pub fn set(&mut self, base: Currency, quote: Currency, rate: Price) -> (r: Result<
        (),
        BacktestError,
    >)
        requires
            old(self).wf(),
        ensures
            final(self).wf(),
            match r {
                Ok(_) => rate.0 > 0 && final(self)@ == old(self)@.insert((base@, quote@), rate),
                Err(e) => rate.0 <= 0 && *final(self) == *old(self) && says(
                    e,
                    "exchange rate "@ + base@ + "/"@ + quote@ + " must be positive, got "@
                        + fixed_text(rate.0 as int),
                ),
            },
    {
        if !rate.is_positive() {
            let mut m = "exchange rate ".to_owned();
            m.append(base.as_str());
            m.append("/");
            m.append(quote.as_str());
            m.append(" must be positive, got ");
            push_fixed(&mut m, rate.0);
            return Err(BacktestError::Invalid(m));
        }
        let ghost before = self.rates.seq();
        let at = self.rates.insert((base, quote), rate);
        proof {
            let after = self.rates.seq();
            assert forall|i: int| 0 <= i < after.len() implies (#[trigger] after[i]).1.0 > 0 by {
                if old(self)@.dom().contains((base@, quote@)) {
                    if i != at {
                        assert(after[i] == before[i]);
                    }
                } else if i < at {
                    assert(after[i] == before[i]);
                } else if i > at {
                    assert(after[i] == before[i - 1]);
                }
            }
        }
        Ok(())
    }

    /// The rate to multiply a `from` amount by to get `to`.
    pub fn rate(&self, from: &Currency, to: &Currency) -> (r: Result<Price, FxError>)
        requires
            self.wf(),
        ensures
            match r {
                Ok(rate) => known_rate(self@, from@, to@) == Some(rate) && rate.0 >= 0,
                Err(e) => known_rate(self@, from@, to@) is None && no_rate(e, from@, to@),
            },
    {
        if *from == *to {
            return Ok(Price(SCALE));
        }
        proof {
            entries_map_contains(self.rates.seq());
        }
        let forward = (from.clone(), to.clone());
        assert(forward@ == (from@, to@));
        if let Some(rate) = self.rates.get(&forward) {
            return Ok(*rate);
        }
        let backward = (to.clone(), from.clone());
        assert(backward@ == (to@, from@));
        if let Some(rate) = self.rates.get(&backward) {
            let inverse: i64 = 1_000_000_000_000_000_000 / rate.0;
            return Ok(Price(inverse));
        }
        Err(FxError::NoRate { from: from.clone(), to: to.clone() })
    }

    /// Convert an amount, or say why it could not be.
    pub fn convert(&self, amount: Money, from: &Currency, to: &Currency) -> (r: Result<
        Money,
        FxError,
    >)
        requires
            self.wf(),
        ensures
            match r {
                Ok(value) => converted(self@, amount, from@, to@) == Some(value),
                Err(e) => converted(self@, amount, from@, to@) is None && no_rate(e, from@, to@),
            },
    {
        if *from == *to {
            return Ok(amount);
        }
        match self.rate(from, to) {
            Ok(rate) => match notional(rate, Qty(amount.0)) {
                Ok(value) => Ok(value),
                Err(_) => Err(FxError::NoRate { from: from.clone(), to: to.clone() }),
            },
            Err(e) => Err(e),
        }
    }

    pub fn is_empty(&self) -> (r: bool)
        ensures
            r == (self.pair_seq().len() == 0),
    {
        self.rates.is_empty()
    }

    /// Currency pairs currently known, in deterministic order.
    pub fn pairs(&self) -> (out: Vec<(Currency, Currency)>)
        ensures
            out@.len() == self.pair_seq().len(),
            forall|i: int|
                0 <= i < out@.len() ==> ((#[trigger] out@[i]).0@, out@[i].1@) == self.pair_seq()[i],
    {
        let mut out: Vec<(Currency, Currency)> = Vec::new();
        let n: usize = self.rates.len();
        let mut i: usize = 0;
        while i < n
            invariant
                n == self.rates.seq().len(),
                i <= n,
                out@.len() == i,
                forall|j: int|
                    0 <= j < i ==> ((#[trigger] out@[j]).0@, out@[j].1@) == self.pair_seq()[j],
            decreases n - i,
        {
            let key = self.rates.key_at(i);
            out.push((key.0.clone(), key.1.clone()));
            i += 1;
        }
        out
    }

    /// The pairs stand in order, each once, and are exactly those with a
    /// rate.
    pub proof fn pairs_are_the_known_ones(&self)
        requires
            self.wf(),
        ensures
            forall|i: int, j: int|
                0 <= i < j < self.pair_seq().len() ==> <(Currency, Currency) as OrderedKey>::before(
                    #[trigger] self.pair_seq()[i],
                    #[trigger] self.pair_seq()[j],
                ),
            forall|p: (Seq<char>, Seq<char>)| #[trigger]
                self@.dom().contains(p) <==> self.pair_seq().contains(p),
    {
        let s = self.rates.seq();
        entries_map_contains(s);
        let pairs = self.pair_seq();
        assert forall|i: int, j: int| 0 <= i < j < pairs.len() implies <(
            Currency,
            Currency,
        ) as OrderedKey>::before(#[trigger] pairs[i], #[trigger] pairs[j]) by {
            assert(<(Currency, Currency) as OrderedKey>::before(s[i].0@, s[j].0@));
        }
        assert forall|p: (Seq<char>, Seq<char>)| #[trigger]
            self@.dom().contains(p) <==> pairs.contains(p) by {
            if self@.dom().contains(p) {
                let i = choose|i: int| 0 <= i < s.len() && (#[trigger] s[i]).0@ == p;
                assert(pairs[i] == p);
            }
            if pairs.contains(p) {
                let i = choose|i: int| 0 <= i < pairs.len() && pairs[i] == p;
                assert(s[i].0@ == p);
            }
        }
    }
}

/// An amount in its own currency is worth itself, whatever rates are known.
pub proof fn same_currency_is_the_identity(rates: Rates, amount: Money, currency: Seq<char>)
    ensures
        converted(rates, amount, currency, currency) == Some(amount),
{
}

/// A conversion multiplies by the rate that is known, to within half a raw
/// unit. Where only the rate the other way is known, it multiplies by that
/// one's inverse, which is rounded down. It fails only where the result does
/// not fit.
pub proof fn a_conversion_multiplies_by_the_rate(
    rates: Rates,
    amount: Money,
    from: Seq<char>,
    to: Seq<char>,
)
    requires
        from != to,
        forall|pair: (Seq<char>, Seq<char>)| #[trigger]
            rates.dom().contains(pair) ==> rates[pair].0 > 0,
    ensures
        rates.dom().contains((from, to)) ==> {
            let exact = rates[(from, to)].0 * amount.0;
            &&& converted(rates, amount, from, to) is Some <==> (2 * i64::MIN - 1) * SCALE < 2
                * exact < (2 * i64::MAX + 1) * SCALE
            &&& converted(rates, amount, from, to) matches Some(value) ==> -SCALE <= 2 * (value.0
                * SCALE - exact) <= SCALE
        },
        !rates.dom().contains((from, to)) && rates.dom().contains((to, from)) ==> {
            let back = rates[(to, from)].0 as int;
            &&& known_rate(rates, from, to) matches Some(rate) && rate.0 * back
                <= 1_000_000_000_000_000_000 < (rate.0 + 1) * back
            &&& converted(rates, amount, from, to) matches Some(value) ==> -SCALE <= 2 * (value.0
                * SCALE - known_rate(rates, from, to)->Some_0.0 * amount.0) <= SCALE
        },
{
    if !rates.dom().contains((from, to)) && rates.dom().contains((to, from)) {
        let back = rates[(to, from)].0 as int;
        let x = 1_000_000_000_000_000_000int;
        let q = x / back;
        vstd::arithmetic::div_mod::lemma_fundamental_div_mod(x, back);
        assert(0 <= q <= x && q * back <= x < (q + 1) * back) by (nonlinear_arith)
            requires
                back >= 1,
                x == 1_000_000_000_000_000_000,
                x == back * q + x % back,
                0 <= x % back < back,
        ;
    }
}

/// Without a rate either way, nothing is assumed.
pub proof fn unknown_rate_is_refused(rates: Rates, amount: Money, from: Seq<char>, to: Seq<char>)
    requires
        from != to,
        !rates.dom().contains((from, to)),
        !rates.dom().contains((to, from)),
    ensures
        converted(rates, amount, from, to) is None,
{
}

/// A later rate replaces an earlier one: the book answers with the latest,
/// and no other pair is touched.
pub proof fn later_rate_replaces_earlier(
    rates: Rates,
    base: Seq<char>,
    quote: Seq<char>,
    earlier: Price,
    later: Price,
)
    requires
        base != quote,
    ensures
        known_rate(rates.insert((base, quote), earlier).insert((base, quote), later), base, quote)
            == Some(later),
        rates.insert((base, quote), earlier).insert((base, quote), later) == rates.insert(
            (base, quote),
            later,
        ),
{
    assert(rates.insert((base, quote), earlier).insert((base, quote), later) =~= rates.insert(
        (base, quote),
        later,
    ));
}

/// How much of a balance counts as collateral.
///
/// A haircut is the discount a venue applies to non-settlement collateral:
/// 0.9 means a unit of that currency supports 0.9 units of margin. Held
/// separately from the rate because it is a *credit* decision, not a market
/// one.
pub struct Haircuts {
    factors: SortedMap<Currency, Price>,
}

impl View for Haircuts {
    type V = Map<Seq<char>, Price>;

    closed spec fn view(&self) -> Map<Seq<char>, Price> {
        self.factors@
    }
}

/// The factor for a currency; anything unlisted counts in full.
pub open spec fn factor_of(factors: Map<Seq<char>, Price>, currency: Seq<char>) -> Price {
    if factors.dom().contains(currency) {
        factors[currency]
    } else {
        Price(SCALE)
    }
}

impl Haircuts {
    pub closed spec fn wf(&self) -> bool {
        self.factors.wf()
    }

    pub fn new() -> (h: Self)
        ensures
            h.wf(),
            h@ == Map::<Seq<char>, Price>::empty(),
    {
        Haircuts { factors: SortedMap::new() }
    }

    /// `factor` in `(0, 1]`: the fraction of value that counts.
    pub fn set(&mut self, currency: Currency, factor: Price) -> (r: Result<(), BacktestError>)
        requires
            old(self).wf(),
        ensures
            final(self).wf(),
            match r {
                Ok(_) => 0 < factor.0 <= SCALE && final(self)@ == old(self)@.insert(
                    currency@,
                    factor,
                ),
                Err(e) => !(0 < factor.0 <= SCALE) && *final(self) == *old(self) && says(
                    e,
                    "haircut factor for "@ + currency@ + " must be in (0, 1], got "@ + fixed_text(
                        factor.0 as int,
                    ),
                ),
            },
    {
        if !factor.is_positive() || factor.0 > SCALE {
            let mut m = "haircut factor for ".to_owned();
            m.append(currency.as_str());
            m.append(" must be in (0, 1], got ");
            push_fixed(&mut m, factor.0);
            return Err(BacktestError::Invalid(m));
        }
        self.factors.insert(currency, factor);
        Ok(())
    }

    /// The factor for a currency; anything unlisted counts in full.
    pub fn factor(&self, currency: &Currency) -> (r: Price)
        requires
            self.wf(),
        ensures
            r == factor_of(self@, currency@),
    {
        match self.factors.get(currency) {
            Some(factor) => *factor,
            None => Price(SCALE),
        }
    }

    /// Apply the haircut to an amount.
    pub fn apply(&self, amount: Money, currency: &Currency) -> (r: Result<Money, BacktestError>)
        requires
            self.wf(),
        ensures
            r == (if fits(notional_of(factor_of(self@, currency@).0 as int, amount.0 as int)) {
                Ok(
                    Money(
                        notional_of(factor_of(self@, currency@).0 as int, amount.0 as int) as i64,
                    ),
                )
            } else {
                Err(BacktestError::Overflow { what: "notional" })
            }),
    {
        notional(self.factor(currency), Qty(amount.0))
    }
}

/// A currency without a haircut counts in full.
pub proof fn unlisted_currency_counts_in_full(
    factors: Map<Seq<char>, Price>,
    currency: Seq<char>,
    amount: int,
)
    requires
        !factors.dom().contains(currency),
    ensures
        notional_of(factor_of(factors, currency).0 as int, amount) == amount,
{
    crate::types::notional_of_whole_units(amount, 1);
    assert(1_000_000_000 * amount == amount * 1_000_000_000) by (nonlinear_arith);
}

} // verus!
