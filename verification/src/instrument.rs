//! Instruments, with N-outcome markets as the general case.
//!
//! A prediction market is one instrument with *N outcomes*, not N
//! instruments that happen to be related. Binary is the two-outcome case.
//! The invariant that defines these markets -- the outcome prices sum to
//! one -- needs a single object that owns all the outcomes, so outcomes are
//! a dimension here from the start.

use vstd::prelude::*;
use vstd::string::*;

use crate::currency::Currency;
use crate::error::{says, BacktestError};
use crate::ordered::{entries_map_contains, OrderedKey, SortedMap};
use crate::text::{
    int_text, push_u64, str_before, text_before, text_before_irreflexive, text_before_total,
    text_before_transitive, trim, trimmed,
};
use crate::types::{
    div_trunc, fits, fixed_text, magnitude, push_fixed, Price, Qty, UnixNanos, SCALE,
};

verus! {

/// A venue-qualified instrument identifier.
#[derive(Debug, Eq, Hash)]
pub struct InstrumentId {
    name: String,
}

impl View for InstrumentId {
    type V = Seq<char>;

    closed spec fn view(&self) -> Seq<char> {
        self.name@
    }
}

impl PartialEq for InstrumentId {
    fn eq(&self, other: &InstrumentId) -> (r: bool) {
        self.name == other.name
    }
}

impl vstd::std_specs::cmp::PartialEqSpecImpl for InstrumentId {
    open spec fn obeys_eq_spec() -> bool {
        true
    }

    open spec fn eq_spec(&self, other: &InstrumentId) -> bool {
        self@ == other@
    }
}

impl Clone for InstrumentId {
    fn clone(&self) -> (r: Self)
        ensures
            r == *self,
    {
        InstrumentId { name: self.name.clone() }
    }
}

impl OrderedKey for InstrumentId {
    open spec fn before(a: Seq<char>, b: Seq<char>) -> bool {
        text_before(a, b)
    }

    proof fn before_irreflexive(a: Seq<char>) {
        text_before_irreflexive(a);
    }

    proof fn before_transitive(a: Seq<char>, b: Seq<char>, c: Seq<char>) {
        text_before_transitive(a, b, c);
    }

    proof fn before_total(a: Seq<char>, b: Seq<char>) {
        text_before_total(a, b);
    }

    fn precedes(&self, other: &InstrumentId) -> (r: bool) {
        str_before(self.name.as_str(), other.name.as_str())
    }
}

/// Whether a text can name an instrument: it is not blank.
pub open spec fn names_instrument(id: Seq<char>) -> bool {
    trimmed(id).len() > 0
}

impl InstrumentId {
    pub fn new(id: &str) -> (r: Result<Self, BacktestError>)
        ensures
            match r {
                Ok(i) => names_instrument(id@) && i@ == id@,
                Err(e) => !names_instrument(id@) && says(e, "instrument id must not be empty"@),
            },
    {
        if trim(id).is_empty() {
            return Err(BacktestError::invalid("instrument id must not be empty"));
        }
        Ok(InstrumentId { name: id.to_owned() })
    }

    pub fn as_str(&self) -> (r: &str)
        ensures
            r@ == self@,
    {
        self.name.as_str()
    }
}

/// Which outcome of a multi-outcome instrument. Always 0 for single-outcome
/// instruments such as a perpetual future.
#[derive(Clone, Copy, PartialEq, Eq, Hash, PartialOrd, Ord, Debug, Structural)]
pub struct OutcomeId(pub u16);

impl View for OutcomeId {
    type V = u16;

    open spec fn view(&self) -> u16 {
        self.0
    }
}

impl OrderedKey for OutcomeId {
    open spec fn before(a: u16, b: u16) -> bool {
        a < b
    }

    proof fn before_irreflexive(a: u16) {
    }

    proof fn before_transitive(a: u16, b: u16, c: u16) {
    }

    proof fn before_total(a: u16, b: u16) {
    }

    fn precedes(&self, other: &OutcomeId) -> (r: bool) {
        self.0 < other.0
    }
}

impl OutcomeId {
    /// The first outcome, and the only one of a single-outcome instrument.
    pub fn first() -> (r: Self)
        ensures
            r == OutcomeId(0),
    {
        OutcomeId(0)
    }

    pub fn index(self) -> (r: usize)
        ensures
            r == self.0,
    {
        self.0 as usize
    }
}

impl Default for OutcomeId {
    fn default() -> (r: Self)
        ensures
            r == OutcomeId(0),
    {
        OutcomeId(0)
    }
}

/// What kind of thing is being traded, and the mechanics that follow from it.
#[derive(Clone, Copy, PartialEq, Eq, Debug, Structural)]
pub enum InstrumentKind {
    /// Outcomes that resolve to exactly one winner, priced as probabilities
    /// in `[0, 1]` that sum to one across the set.
    PredictionMarket,
    /// A perpetual swap: no expiry, periodic funding.
    Perpetual,
    /// Plain spot.
    Spot,
}

impl InstrumentKind {
    pub open spec fn probability(self) -> bool {
        self is PredictionMarket
    }

    pub open spec fn funded(self) -> bool {
        self is PredictionMarket || self is Spot
    }

    /// Whether prices are probabilities bounded to `[0, 1]`.
    pub fn is_probability(&self) -> (r: bool)
        ensures
            r == self.probability(),
    {
        matches!(self, InstrumentKind::PredictionMarket)
    }

    /// Whether opening a position *buys* something or merely *collateralises*
    /// it.
    ///
    /// A prediction-market contract and a spot asset are paid for: cash
    /// leaves the account for the full notional and the asset arrives. A
    /// perpetual is not bought at all -- margin is posted, and cash moves
    /// only as profit is realised.
    pub fn is_funded(&self) -> (r: bool)
        ensures
            r == self.funded(),
    {
        matches!(self, InstrumentKind::PredictionMarket | InstrumentKind::Spot)
    }
}

/// Which prices a venue quotes.
#[derive(Clone, Copy, PartialEq, Eq, Debug, Structural)]
pub enum PriceRule {
    /// Multiples of the tick size.
    Tick,
    /// So many significant figures, and at most so many decimals.
    SignificantFigures { significant_figures: u8, max_decimals: u8 },
}

/// Ten to the power `n`.
pub open spec fn ten_to(n: nat) -> nat
    decreases n,
{
    if n == 0 {
        1
    } else {
        10 * ten_to((n - 1) as nat)
    }
}

/// One tradable instrument.
#[derive(Clone, PartialEq, Eq, Debug)]
pub struct Instrument {
    pub id: InstrumentId,
    pub venue: String,
    pub kind: InstrumentKind,
    /// Human labels, one per outcome. Length is the outcome count and is
    /// at least one.
    pub outcomes: Vec<String>,
    pub tick_size: Price,
    pub lot_size: Qty,
    /// What cash this instrument settles in.
    pub settlement_currency: Currency,
    /// When trading stops, if it ever does.
    pub expiration: Option<UnixNanos>,
    /// The first instant at which this market's resolution could have been
    /// *observed*. Settlement is only applied to a run that reached it.
    pub settlement_observable: Option<UnixNanos>,
    /// Whether the venue converts between the outcomes of this market.
    pub neg_risk: bool,
    /// Which prices the venue quotes.
    pub price_rule: PriceRule,
}

/// An instrument with its texts as sequences of characters.
pub struct InstrumentView {
    pub id: Seq<char>,
    pub venue: Seq<char>,
    pub kind: InstrumentKind,
    pub outcomes: Seq<Seq<char>>,
    pub tick_size: Price,
    pub lot_size: Qty,
    pub settlement_currency: Seq<char>,
    pub expiration: Option<UnixNanos>,
    pub settlement_observable: Option<UnixNanos>,
    pub neg_risk: bool,
    pub price_rule: PriceRule,
}

impl View for Instrument {
    type V = InstrumentView;

    open spec fn view(&self) -> InstrumentView {
        InstrumentView {
            id: self.id@,
            venue: self.venue@,
            kind: self.kind,
            outcomes: self.outcomes@.map_values(|label: String| label@),
            tick_size: self.tick_size,
            lot_size: self.lot_size,
            settlement_currency: self.settlement_currency@,
            expiration: self.expiration,
            settlement_observable: self.settlement_observable,
            neg_risk: self.neg_risk,
            price_rule: self.price_rule,
        }
    }
}

/// The sum of a list of prices, in raw units.
pub open spec fn price_sum(prices: Seq<Price>) -> int
    decreases prices.len(),
{
    if prices.len() == 0 {
        0
    } else {
        price_sum(prices.drop_last()) + prices.last().0
    }
}

/// An instrument as it leaves a constructor: nothing optional set.
pub open spec fn fresh(i: Instrument) -> bool {
    &&& i.settlement_currency@ == "USDC"@
    &&& i.expiration is None
    &&& i.settlement_observable is None
    &&& !i.neg_risk
    &&& i.price_rule is Tick
}

impl Instrument {
    pub fn prediction_market(id: &str, venue: &str, outcomes: Vec<String>) -> (r: Result<
        Self,
        BacktestError,
    >)
        ensures
            match r {
                Ok(i) => {
                    &&& outcomes@.len() >= 2
                    &&& names_instrument(id@)
                    &&& i.id@ == id@
                    &&& i.venue@ == venue@
                    &&& i.kind is PredictionMarket
                    &&& i.outcomes == outcomes
                    &&& i.tick_size == Price(100_000)
                    &&& i.lot_size == Qty(SCALE)
                    &&& fresh(i)
                },
                Err(e) => {
                    if outcomes@.len() < 2 {
                        says(
                            e,
                            "a prediction market needs at least two outcomes; a market with one possible result is not a market"@,
                        )
                    } else {
                        !names_instrument(id@) && says(e, "instrument id must not be empty"@)
                    }
                },
            },
    {
        if outcomes.len() < 2 {
            return Err(
                BacktestError::invalid(
                    "a prediction market needs at least two outcomes; a market with one possible result is not a market",
                ),
            );
        }
        let id = InstrumentId::new(id)?;
        Ok(
            Instrument {
                id,
                venue: venue.to_owned(),
                kind: InstrumentKind::PredictionMarket,
                outcomes,
                tick_size: Price(100_000),
                lot_size: Qty(SCALE),
                settlement_currency: Currency::usdc(),
                expiration: None,
                settlement_observable: None,
                neg_risk: false,
                price_rule: PriceRule::Tick,
            },
        )
    }

    /// The two-outcome case, spelled for the common path.
    pub fn binary(id: &str, venue: &str) -> (r: Result<Self, BacktestError>)
        ensures
            match r {
                Ok(i) => {
                    &&& names_instrument(id@)
                    &&& i.id@ == id@
                    &&& i.venue@ == venue@
                    &&& i.kind is PredictionMarket
                    &&& i.outcomes@.len() == 2
                    &&& i.outcomes@[0]@ == "YES"@
                    &&& i.outcomes@[1]@ == "NO"@
                    &&& i.tick_size == Price(100_000)
                    &&& i.lot_size == Qty(SCALE)
                    &&& fresh(i)
                },
                Err(e) => !names_instrument(id@) && says(e, "instrument id must not be empty"@),
            },
    {
        let mut outcomes: Vec<String> = Vec::new();
        outcomes.push("YES".to_owned());
        outcomes.push("NO".to_owned());
        Self::prediction_market(id, venue, outcomes)
    }

    pub fn perpetual(id: &str, venue: &str) -> (r: Result<Self, BacktestError>)
        ensures
            match r {
                Ok(i) => {
                    &&& names_instrument(id@)
                    &&& i.id@ == id@
                    &&& i.venue@ == venue@
                    &&& i.kind is Perpetual
                    &&& i.outcomes@.len() == 1
                    &&& i.outcomes@[0]@ == "-"@
                    &&& i.tick_size == Price(10_000_000)
                    &&& i.lot_size == Qty(1_000_000)
                    &&& fresh(i)
                },
                Err(e) => !names_instrument(id@) && says(e, "instrument id must not be empty"@),
            },
    {
        let id = InstrumentId::new(id)?;
        let mut outcomes: Vec<String> = Vec::new();
        outcomes.push("-".to_owned());
        Ok(
            Instrument {
                id,
                venue: venue.to_owned(),
                kind: InstrumentKind::Perpetual,
                outcomes,
                tick_size: Price(10_000_000),
                lot_size: Qty(1_000_000),
                settlement_currency: Currency::usdc(),
                expiration: None,
                settlement_observable: None,
                neg_risk: false,
                price_rule: PriceRule::Tick,
            },
        )
    }

    pub fn with_tick_size(self, tick: Price) -> (r: Self)
        ensures
            r == (Instrument { tick_size: tick, ..self }),
    {
        Instrument { tick_size: tick, ..self }
    }

    pub fn with_lot_size(self, lot: Qty) -> (r: Self)
        ensures
            r == (Instrument { lot_size: lot, ..self }),
    {
        Instrument { lot_size: lot, ..self }
    }

    pub fn with_settlement_currency(self, currency: Currency) -> (r: Self)
        ensures
            r == (Instrument { settlement_currency: currency, ..self }),
    {
        Instrument { settlement_currency: currency, ..self }
    }

    pub fn with_expiration(self, at: UnixNanos) -> (r: Self)
        ensures
            r == (Instrument { expiration: Some(at), ..self }),
    {
        Instrument { expiration: Some(at), ..self }
    }

    pub fn with_settlement_observable(self, at: UnixNanos) -> (r: Self)
        ensures
            r == (Instrument { settlement_observable: Some(at), ..self }),
    {
        Instrument { settlement_observable: Some(at), ..self }
    }

    /// Mark the market as one whose outcomes the venue converts.
    pub fn with_neg_risk(self) -> (r: Self)
        ensures
            r == (Instrument { neg_risk: true, ..self }),
    {
        Instrument { neg_risk: true, ..self }
    }

    /// Set the venue's price rule. A rule in decimals fixes the tick at the
    /// finest increment it allows.
    pub fn with_price_rule(self, rule: PriceRule) -> (r: Result<Self, BacktestError>)
        ensures
            match rule {
                PriceRule::Tick => r == Ok::<Instrument, BacktestError>(
                    (Instrument { price_rule: rule, ..self }),
                ),
                PriceRule::SignificantFigures { significant_figures, max_decimals } => {
                    if max_decimals > 9 {
                        r matches Err(e) && says(
                            e,
                            "a price rule cannot allow more than nine decimals"@,
                        )
                    } else {
                        r == Ok::<Instrument, BacktestError>(
                            (Instrument {
                                price_rule: rule,
                                tick_size: Price(ten_to((9 - max_decimals) as nat) as i64),
                                ..self
                            }),
                        )
                    }
                },
            },
    {
        match rule {
            PriceRule::Tick => Ok(Instrument { price_rule: rule, ..self }),
            PriceRule::SignificantFigures { max_decimals, .. } => {
                if max_decimals > 9 {
                    return Err(
                        BacktestError::invalid("a price rule cannot allow more than nine decimals"),
                    );
                }
                let mut tick: i64 = 1;
                let mut i: u8 = 0;
                while i < 9 - max_decimals
                    invariant
                        max_decimals <= 9,
                        i <= 9 - max_decimals,
                        tick == ten_to(i as nat),
                        i == 0 ==> tick == 1,
                        i == 1 ==> tick == 10,
                        i == 2 ==> tick == 100,
                        i == 3 ==> tick == 1_000,
                        i == 4 ==> tick == 10_000,
                        i == 5 ==> tick == 100_000,
                        i == 6 ==> tick == 1_000_000,
                        i == 7 ==> tick == 10_000_000,
                        i == 8 ==> tick == 100_000_000,
                        i == 9 ==> tick == 1_000_000_000,
                    decreases 9 - max_decimals - i,
                {
                    tick = tick * 10;
                    i += 1;
                }
                Ok(Instrument { price_rule: rule, tick_size: Price(tick), ..self })
            },
        }
    }

    pub open spec fn count(&self) -> u16 {
        self.outcomes@.len() as u16
    }

    pub fn outcome_count(&self) -> (r: u16)
        ensures
            r == self.count(),
    {
        self.outcomes.len() as u16
    }

    /// The ids of this instrument's outcomes, in order.
    pub fn outcome_ids(&self) -> (ids: Vec<OutcomeId>)
        ensures
            ids@.len() == self.count(),
            forall|i: int| 0 <= i < ids@.len() ==> #[trigger] ids@[i] == OutcomeId(i as u16),
    {
        let mut ids: Vec<OutcomeId> = Vec::new();
        let n: u16 = self.outcome_count();
        let mut i: u16 = 0;
        while i < n
            invariant
                i <= n,
                ids@.len() == i,
                forall|j: int| 0 <= j < i ==> #[trigger] ids@[j] == OutcomeId(j as u16),
            decreases n - i,
        {
            ids.push(OutcomeId(i));
            i += 1;
        }
        ids
    }

    pub open spec fn complete_set(&self) -> bool {
        self.kind.probability() && (self.outcomes@.len() == 2 || self.neg_risk)
    }

    /// Whether the venue mints and redeems one of every outcome as a set.
    pub fn supports_complete_set(&self) -> (r: bool)
        ensures
            r == self.complete_set(),
    {
        self.kind.is_probability() && (self.outcomes.len() == 2 || self.neg_risk)
    }

    pub fn outcome(&self, id: OutcomeId) -> (r: Result<&str, BacktestError>)
        ensures
            match r {
                Ok(label) => id.0 < self.outcomes@.len() && label@ == self.outcomes@[id.0 as int]@,
                Err(e) => id.0 >= self.outcomes@.len() && unknown_outcome(
                    e,
                    self.id@,
                    id,
                    self.count(),
                ),
            },
    {
        if id.index() < self.outcomes.len() {
            Ok(self.outcomes[id.index()].as_str())
        } else {
            Err(
                BacktestError::UnknownOutcome {
                    instrument: self.id.as_str().to_owned(),
                    outcome: id.0,
                    count: self.outcome_count(),
                },
            )
        }
    }

    pub fn check_outcome(&self, id: OutcomeId) -> (r: Result<(), BacktestError>)
        ensures
            match r {
                Ok(_) => id.0 < self.outcomes@.len(),
                Err(e) => id.0 >= self.outcomes@.len() && unknown_outcome(
                    e,
                    self.id@,
                    id,
                    self.count(),
                ),
            },
    {
        match self.outcome(id) {
            Ok(_) => Ok(()),
            Err(e) => Err(e),
        }
    }

    /// Whether a probability price is out of its bounds.
    pub open spec fn out_of_bounds(&self, price: Price) -> bool {
        self.kind.probability() && !(0 <= price.0 <= SCALE)
    }

    /// Whether a price is off the tick grid.
    pub open spec fn off_grid(&self, price: Price) -> bool {
        self.tick_size.0 > 0 && price.0 as int % self.tick_size.0 as int != 0
    }

    /// Validate a price for this instrument.
    ///
    /// Probability instruments are bounded to `[0, 1]`; everything is
    /// checked against the tick grid, because a price off the grid is a
    /// unit or scaling mistake, and letting it through produces fills at
    /// prices the venue could never have quoted.
    pub fn check_price(&self, price: Price) -> (r: Result<(), BacktestError>)
        ensures
            match r {
                Ok(_) => !self.out_of_bounds(price) && !self.off_grid(price),
                Err(e) => {
                    if self.out_of_bounds(price) {
                        says(
                            e,
                            "price "@ + fixed_text(price.0 as int)
                                + " is outside [0, 1] for probability instrument "@ + self.id@,
                        )
                    } else {
                        self.off_grid(price) && says(
                            e,
                            "price "@ + fixed_text(price.0 as int) + " is not a multiple of "@
                                + self.id@ + "'s tick size "@ + fixed_text(self.tick_size.0 as int),
                        )
                    }
                },
            },
    {
        if self.kind.is_probability() && (price.0 < 0 || price.0 > SCALE) {
            let mut m = "price ".to_owned();
            push_fixed(&mut m, price.0);
            m.append(" is outside [0, 1] for probability instrument ");
            m.append(self.id.as_str());
            return Err(BacktestError::Invalid(m));
        }
        if self.tick_size.0 > 0 && !on_grid(price.0, self.tick_size.0) {
            let mut m = "price ".to_owned();
            push_fixed(&mut m, price.0);
            m.append(" is not a multiple of ");
            m.append(self.id.as_str());
            m.append("'s tick size ");
            push_fixed(&mut m, self.tick_size.0);
            return Err(BacktestError::Invalid(m));
        }
        Ok(())
    }

    /// Round a price to the tick grid, towards zero.
    pub fn round_to_tick(&self, price: Price) -> (r: Price)
        ensures
            r.0 == (if self.tick_size.0 <= 0 {
                price.0 as int
            } else {
                div_trunc(price.0 as int, self.tick_size.0 as int) * self.tick_size.0
            }),
            !self.off_grid(r),
            magnitude(r.0 as int) <= magnitude(price.0 as int),
    {
        let tick: i64 = self.tick_size.0;
        if tick <= 0 {
            return price;
        }
        Price(towards_zero(price.0, tick))
    }

    /// How far a set of outcome prices is from summing to one.
    ///
    /// Zero on a perfectly consistent set. Real books never are, and the
    /// deviation is a tradable signal in itself, so this reports rather
    /// than enforces.
    pub fn completeness_error(&self, prices: &[Price]) -> (r: Result<Price, BacktestError>)
        requires
            prices@.len() == self.outcomes@.len() ==> {
                &&& forall|i: int| 0 <= i <= prices@.len() ==> fits(price_sum(#[trigger] prices@.take(i)))
                &&& fits(price_sum(prices@) - SCALE)
            },
        ensures
            match r {
                Ok(p) => prices@.len() == self.outcomes@.len() && p.0 == price_sum(prices@) - SCALE,
                Err(e) => prices@.len() != self.outcomes@.len() && says(
                    e,
                    self.id@ + " has "@ + int_text(self.outcomes@.len() as int)
                        + " outcomes but "@ + int_text(prices@.len() as int)
                        + " prices were supplied"@,
                ),
            },
    {
        if prices.len() != self.outcomes.len() {
            let mut m = self.id.as_str().to_owned();
            m.append(" has ");
            push_u64(&mut m, self.outcomes.len() as u64);
            m.append(" outcomes but ");
            push_u64(&mut m, prices.len() as u64);
            m.append(" prices were supplied");
            return Err(BacktestError::Invalid(m));
        }
        let n: usize = prices.len();
        let mut sum: i64 = 0;
        let mut i: usize = 0;
        while i < n
            invariant
                n == prices@.len(),
                i <= n,
                sum == price_sum(prices@.take(i as int)),
                forall|j: int|
                    0 <= j <= prices@.len() ==> fits(price_sum(#[trigger] prices@.take(j))),
            decreases n - i,
        {
            assert(prices@.take(i + 1).drop_last() =~= prices@.take(i as int));
            assert(fits(price_sum(prices@.take(i + 1))));
            sum = sum + prices[i].0;
            i += 1;
        }
        assert(prices@.take(n as int) =~= prices@);
        Ok(Price(sum - SCALE))
    }
}

/// That an outcome is out of range for an instrument.
pub open spec fn unknown_outcome(
    e: BacktestError,
    instrument: Seq<char>,
    outcome: OutcomeId,
    count: u16,
) -> bool {
    e matches BacktestError::UnknownOutcome { instrument: i, outcome: o, count: c } && i@
        == instrument && o == outcome.0 && c == count
}

/// The negation of a multiple is a multiple.
proof fn negated_multiple(x: int, step: int)
    requires
        step > 0,
    ensures
        x % step == 0 ==> (-x) % step == 0,
{
    if x % step == 0 {
        let q = x / step;
        vstd::arithmetic::div_mod::lemma_fundamental_div_mod(x, step);
        vstd::arithmetic::div_mod::lemma_mod_multiples_basic(-q, step);
        assert(-x == (-q) * step) by (nonlinear_arith)
            requires
                x == step * q,
        ;
    }
}

/// Whether `x` is a multiple of `step`.
fn on_grid(x: i64, step: i64) -> (r: bool)
    requires
        step > 0,
    ensures
        r == (x as int % step as int == 0),
{
    let wide: i128 = if x < 0 {
        -(x as i128)
    } else {
        x as i128
    };
    let r: i128 = wide % (step as i128);
    proof {
        if x < 0 {
            negated_multiple(x as int, step as int);
            negated_multiple(-(x as int), step as int);
        }
    }
    r == 0
}

/// `x` rounded to a multiple of `step`, towards zero.
fn towards_zero(x: i64, step: i64) -> (r: i64)
    requires
        step > 0,
    ensures
        r == div_trunc(x as int, step as int) * step,
        r as int % step as int == 0,
        magnitude(r as int) <= magnitude(x as int),
{
    let q: i128 = crate::types::divide_trunc(x as i128, step as i128);
    proof {
        let xi = x as int;
        let s = step as int;
        let m = if xi < 0 { -xi } else { xi };
        assert(0 <= (m / s) * s <= m) by (nonlinear_arith)
            requires
                m >= 0,
                s > 0,
        ;
        vstd::arithmetic::div_mod::lemma_mod_multiples_basic(m / s, s);
        vstd::arithmetic::div_mod::lemma_mod_multiples_basic(-(m / s), s);
        assert((-(m / s)) * s == -((m / s) * s)) by (nonlinear_arith);
    }
    (q * (step as i128)) as i64
}

/// What each price is of the total, in raw units of one, rounded down.
pub open spec fn share_floor(prices: Seq<Price>, i: int) -> int {
    prices[i].0 * SCALE / price_sum(prices)
}

/// The sum of the first `n` rounded-down shares.
pub open spec fn floor_sum(prices: Seq<Price>, n: nat) -> int
    decreases n,
{
    if n == 0 {
        0
    } else {
        floor_sum(prices, (n - 1) as nat) + share_floor(prices, n - 1)
    }
}

/// What each price is of the total, such that the shares sum to exactly one:
/// rounded down, with the raw units that rounding lost handed to the first
/// of them, one each.
pub open spec fn shares_of_one(prices: Seq<Price>) -> Seq<Price> {
    let lost = SCALE - floor_sum(prices, prices.len());
    Seq::new(
        prices.len(),
        |i: int| Price((share_floor(prices, i) + if i < lost { 1int } else { 0int }) as i64),
    )
}

/// Whether prices can be scaled to sum to one: none is negative, and not all
/// are zero.
pub open spec fn scalable(prices: Seq<Price>) -> bool {
    &&& forall|i: int| 0 <= i < prices.len() ==> (#[trigger] prices[i]).0 >= 0
    &&& price_sum(prices) > 0
}

proof fn price_sum_bounds(prices: Seq<Price>, n: int)
    requires
        forall|i: int| 0 <= i < prices.len() ==> (#[trigger] prices[i]).0 >= 0,
        0 <= n <= prices.len(),
    ensures
        0 <= price_sum(prices.take(n)) <= price_sum(prices),
        price_sum(prices.take(n)) <= n * 0x7fff_ffff_ffff_ffff,
    decreases prices.len() - n, n,
{
    price_sum_bounds_prefix(prices, n);
    if n < prices.len() {
        price_sum_bounds(prices, n + 1);
        price_sum_bounds_prefix(prices, n + 1);
        assert(prices.take(n + 1).drop_last() =~= prices.take(n));
        assert(prices.take(n + 1).last() == prices[n]);
    } else {
        assert(prices.take(n) =~= prices);
    }
}

proof fn price_sum_bounds_prefix(prices: Seq<Price>, n: int)
    requires
        forall|i: int| 0 <= i < prices.len() ==> (#[trigger] prices[i]).0 >= 0,
        0 <= n <= prices.len(),
    ensures
        0 <= price_sum(prices.take(n)) <= n * 0x7fff_ffff_ffff_ffff,
    decreases n,
{
    if n > 0 {
        price_sum_bounds_prefix(prices, n - 1);
        assert(prices.take(n).drop_last() =~= prices.take(n - 1));
        assert(prices.take(n).last() == prices[n - 1]);
    }
}

/// Rounding loses less than one raw unit per price.
proof fn floor_sum_is_close(prices: Seq<Price>, n: nat)
    requires
        scalable(prices),
        n <= prices.len(),
    ensures
        price_sum(prices) * floor_sum(prices, n) <= price_sum(prices.take(n as int)) * SCALE,
        n > 0 ==> price_sum(prices.take(n as int)) * SCALE < price_sum(prices) * (floor_sum(
            prices,
            n,
        ) + n),
        n == 0 ==> floor_sum(prices, n) == 0 && price_sum(prices.take(n as int)) == 0,
        floor_sum(prices, n) >= 0,
    decreases n,
{
    let total = price_sum(prices);
    if n > 0 {
        floor_sum_is_close(prices, (n - 1) as nat);
        let before = prices.take(n - 1);
        assert(prices.take(n as int).drop_last() =~= before);
        assert(prices.take(n as int).last() == prices[n - 1]);
        let w = prices[n - 1].0 as int;
        let f = share_floor(prices, n - 1);
        let sum = floor_sum(prices, (n - 1) as nat);
        let b = price_sum(before);
        assert(f >= 0 && total * f <= w * SCALE && w * SCALE < total * (f + 1)) by (nonlinear_arith)
            requires
                f == w * SCALE / total,
                total > 0,
                w >= 0,
                SCALE == 1_000_000_000,
        ;
        assert(total * (sum + f) == total * sum + total * f) by (nonlinear_arith);
        assert((b + w) * SCALE == b * SCALE + w * SCALE) by (nonlinear_arith);
        assert(total * ((sum + f) + n) == total * (sum + (n - 1)) + total * (f + 1))
            by (nonlinear_arith);
        if n == 1 {
            assert(total * (sum + (n - 1)) == 0) by (nonlinear_arith)
                requires
                    sum == 0,
                    n == 1,
            ;
        }
    } else {
        assert(prices.take(0) =~= Seq::<Price>::empty());
    }
}

/// Shares of one sum to exactly one, and none is negative or above one.
pub proof fn shares_sum_to_one(prices: Seq<Price>)
    requires
        scalable(prices),
    ensures
        price_sum(shares_of_one(prices)) == SCALE,
        0 <= SCALE - floor_sum(prices, prices.len()) < prices.len(),
        forall|i: int| 0 <= i < prices.len() ==> 0 <= (#[trigger] shares_of_one(prices)[i]).0 <= SCALE,
{
    let n = prices.len();
    let total = price_sum(prices);
    let shares = shares_of_one(prices);
    floor_sum_is_close(prices, n);
    assert(prices.take(n as int) =~= prices);
    if n == 0 {
        assert(false);
    }
    let f = floor_sum(prices, n);
    assert(f <= SCALE) by (nonlinear_arith)
        requires
            total * f <= total * SCALE,
            total > 0,
    ;
    assert(SCALE < f + n) by (nonlinear_arith)
        requires
            total * SCALE < total * (f + n),
            total > 0,
    ;
    let lost = SCALE - f;
    assert forall|i: int| 0 <= i < n implies 0 <= (#[trigger] shares_of_one(prices)[i]).0 <= SCALE by {
        single_share(prices, i);
        floor_sum_splits(prices, i);
    }
    shares_prefix_sum(prices, n as int);
    assert(shares.take(n as int) =~= shares);
}

proof fn single_share(prices: Seq<Price>, i: int)
    requires
        scalable(prices),
        0 <= i < prices.len(),
    ensures
        0 <= share_floor(prices, i) <= SCALE,
{
    let total = price_sum(prices);
    let w = prices[i].0 as int;
    price_sum_bounds(prices, i);
    price_sum_bounds(prices, i + 1);
    assert(prices.take(i + 1).drop_last() =~= prices.take(i));
    assert(prices.take(i + 1).last() == prices[i]);
    assert(0 <= w * SCALE / total <= SCALE) by (nonlinear_arith)
        requires
            0 <= w <= total,
            total > 0,
            SCALE == 1_000_000_000,
    ;
}

/// A share that is rounded up does not exceed one: where rounding lost
/// something, there is another share it was lost from.
proof fn floor_sum_splits(prices: Seq<Price>, i: int)
    requires
        scalable(prices),
        0 <= i < prices.len(),
    ensures
        share_floor(prices, i) <= floor_sum(prices, prices.len()),
{
    floor_sum_monotone(prices, i + 1, prices.len() as int);
    floor_sum_is_close(prices, i as nat);
}

proof fn floor_sum_monotone(prices: Seq<Price>, a: int, b: int)
    requires
        scalable(prices),
        0 <= a <= b <= prices.len(),
    ensures
        floor_sum(prices, a as nat) <= floor_sum(prices, b as nat),
    decreases b - a,
{
    if a < b {
        single_share(prices, b - 1);
        floor_sum_monotone(prices, a, b - 1);
    }
}

proof fn shares_prefix_sum(prices: Seq<Price>, n: int)
    requires
        scalable(prices),
        0 <= n <= prices.len(),
        0 <= SCALE - floor_sum(prices, prices.len()) < prices.len(),
    ensures
        price_sum(shares_of_one(prices).take(n)) == floor_sum(prices, n as nat) + (if n < SCALE
            - floor_sum(prices, prices.len()) {
            n
        } else {
            SCALE - floor_sum(prices, prices.len())
        }),
    decreases n,
{
    let shares = shares_of_one(prices);
    if n > 0 {
        shares_prefix_sum(prices, n - 1);
        assert(shares.take(n).drop_last() =~= shares.take(n - 1));
        assert(shares.take(n).last() == shares[n - 1]);
        single_share(prices, n - 1);
    } else {
        assert(shares.take(0) =~= Seq::<Price>::empty());
    }
}

/// Scale prices so that they sum to exactly one.
pub fn normalise_to_one(prices: &[Price]) -> (r: Result<Vec<Price>, BacktestError>)
    ensures
        match r {
            Ok(shares) => scalable(prices@) && shares@ == shares_of_one(prices@),
            Err(e) => !scalable(prices@) && says(
                e,
                "prices without a positive sum cannot be normalised"@,
            ),
        },
{
    let n: usize = prices.len();
    let mut total: i128 = 0;
    let mut i: usize = 0;
    while i < n
        invariant
            n == prices@.len(),
            i <= n,
            total == price_sum(prices@.take(i as int)),
            0 <= total <= i * 0x7fff_ffff_ffff_ffff,
            forall|j: int| 0 <= j < i ==> (#[trigger] prices@[j]).0 >= 0,
        decreases n - i,
    {
        let p: i64 = prices[i].0;
        if p < 0 {
            assert(prices@[i as int].0 < 0);
            return Err(
                BacktestError::invalid("prices without a positive sum cannot be normalised"),
            );
        }
        assert(prices@.take(i + 1).drop_last() =~= prices@.take(i as int));
        assert(i * 0x7fff_ffff_ffff_ffff <= 0xffff_ffff_ffff_fffe * 0x7fff_ffff_ffff_ffff)
            by (nonlinear_arith)
            requires
                i < 0xffff_ffff_ffff_ffff,
        ;
        total = total + p as i128;
        i += 1;
    }
    assert(prices@.take(n as int) =~= prices@);
    if total == 0 {
        return Err(BacktestError::invalid("prices without a positive sum cannot be normalised"));
    }
    proof {
        shares_sum_to_one(prices@);
        floor_sum_is_close(prices@, n as nat);
    }
    let mut floors: Vec<i64> = Vec::new();
    let mut sum: i128 = 0;
    i = 0;
    while i < n
        invariant
            n == prices@.len(),
            i <= n,
            scalable(prices@),
            total == price_sum(prices@),
            floors@.len() == i,
            sum == floor_sum(prices@, i as nat),
            0 <= floor_sum(prices@, n as nat) <= SCALE,
            forall|j: int| 0 <= j < i ==> #[trigger] floors@[j] == share_floor(prices@, j),
        decreases n - i,
    {
        proof {
            single_share(prices@, i as int);
            floor_sum_monotone(prices@, i + 1, n as int);
            floor_sum_is_close(prices@, i as nat);
        }
        let scaled: i128 = (prices[i].0 as i128) * (SCALE as i128);
        let share: i128 = scaled / total;
        floors.push(share as i64);
        sum = sum + share;
        i += 1;
    }
    let lost: i128 = SCALE as i128 - sum;
    let mut out: Vec<Price> = Vec::new();
    i = 0;
    while i < n
        invariant
            n == prices@.len(),
            i <= n,
            scalable(prices@),
            floors@.len() == n,
            out@.len() == i,
            lost == SCALE - floor_sum(prices@, prices@.len()),
            forall|j: int| 0 <= j < n ==> #[trigger] floors@[j] == share_floor(prices@, j),
            forall|j: int| 0 <= j < i ==> #[trigger] out@[j] == shares_of_one(prices@)[j],
        decreases n - i,
    {
        proof {
            single_share(prices@, i as int);
        }
        let extra: i64 = if (i as i128) < lost {
            1
        } else {
            0
        };
        out.push(Price(floors[i] + extra));
        i += 1;
    }
    assert(out@ =~= shares_of_one(prices@));
    Ok(out)
}

/// One divided evenly over `count` outcomes: `1 / count` rounded down, with
/// the raw units that rounding lost handed to the first of them, one each.
pub open spec fn even_shares(count: u16) -> Seq<Price> {
    Seq::new(
        count as nat,
        |i: int|
            Price((SCALE as int / count as int + if i < SCALE as int % count as int { 1int } else { 0int }) as i64),
    )
}

/// Even shares of one sum to exactly one.
pub proof fn even_shares_sum_to_one(count: u16)
    requires
        count > 0,
    ensures
        price_sum(even_shares(count)) == SCALE,
{
    even_shares_prefix(count, count as int);
    assert(even_shares(count).take(count as int) =~= even_shares(count));
    vstd::arithmetic::div_mod::lemma_fundamental_div_mod(SCALE as int, count as int);
    let q = SCALE as int / count as int;
    assert(q * count == count * q) by (nonlinear_arith);
}

proof fn even_shares_prefix(count: u16, n: int)
    requires
        count > 0,
        0 <= n <= count,
    ensures
        price_sum(even_shares(count).take(n)) == (SCALE as int / count as int) * n + (if n
            < SCALE as int % count as int {
            n
        } else {
            SCALE as int % count as int
        }),
    decreases n,
{
    let shares = even_shares(count);
    let q = SCALE as int / count as int;
    if n > 0 {
        even_shares_prefix(count, n - 1);
        assert(shares.take(n).drop_last() =~= shares.take(n - 1));
        assert(shares.take(n).last() == shares[n - 1]);
        assert(q * n == q * (n - 1) + q) by (nonlinear_arith);
        assert(0 <= q <= SCALE) by (nonlinear_arith)
            requires
                q == SCALE as int / count as int,
                count > 0,
                SCALE == 1_000_000_000,
        ;
    } else {
        assert(shares.take(0) =~= Seq::<Price>::empty());
    }
}

/// One divided evenly over `count` outcomes.
pub fn uniform_prices(count: u16) -> (r: Result<Vec<Price>, BacktestError>)
    ensures
        match r {
            Ok(prices) => count > 0 && prices@ == even_shares(count),
            Err(e) => count == 0 && says(e, "one cannot be divided over no outcomes"@),
        },
{
    if count == 0 {
        return Err(BacktestError::invalid("one cannot be divided over no outcomes"));
    }
    let share: i64 = SCALE / (count as i64);
    let lost: i64 = SCALE % (count as i64);
    let mut out: Vec<Price> = Vec::new();
    let mut i: u16 = 0;
    while i < count
        invariant
            0 < count,
            i <= count,
            out@.len() == i,
            share == SCALE as int / count as int,
            lost == SCALE as int % count as int,
            0 <= share <= SCALE,
            forall|j: int| 0 <= j < i ==> #[trigger] out@[j] == even_shares(count)[j],
        decreases count - i,
    {
        let extra: i64 = if (i as i64) < lost {
            1
        } else {
            0
        };
        out.push(Price(share + extra));
        i += 1;
    }
    assert(out@ =~= even_shares(count));
    Ok(out)
}

/// The instruments a run knows about, by id.
#[derive(Debug)]
pub struct InstrumentSet {
    by_id: SortedMap<InstrumentId, Instrument>,
}

impl View for InstrumentSet {
    type V = Map<Seq<char>, Instrument>;

    closed spec fn view(&self) -> Map<Seq<char>, Instrument> {
        self.by_id@
    }
}

impl InstrumentSet {
    /// Each instrument stands under its own id.
    pub closed spec fn wf(&self) -> bool {
        &&& self.by_id.wf()
        &&& forall|i: int|
            0 <= i < self.by_id.seq().len() ==> (#[trigger] self.by_id.seq()[i]).0@
                == self.by_id.seq()[i].1.id@
    }

    /// The instruments in id order.
    pub closed spec fn listed(&self) -> Seq<Instrument> {
        self.by_id.seq().map_values(|e: (InstrumentId, Instrument)| e.1)
    }

    /// What is listed is what is held: each instrument once, under its id,
    /// in strictly increasing id order.
    pub proof fn listed_is_sorted(&self)
        requires
            self.wf(),
        ensures
            forall|i: int, j: int|
                0 <= i < j < self.listed().len() ==> text_before(
                    (#[trigger] self.listed()[i]).id@,
                    (#[trigger] self.listed()[j]).id@,
                ),
            forall|i: int|
                0 <= i < self.listed().len() ==> self@.dom().contains(
                    (#[trigger] self.listed()[i]).id@,
                ) && self@[self.listed()[i].id@] == self.listed()[i],
            forall|id: Seq<char>| #[trigger]
                self@.dom().contains(id) ==> self@[id].id@ == id && exists|i: int|
                    0 <= i < self.listed().len() && (#[trigger] self.listed()[i]).id@ == id,
    {
        let s = self.by_id.seq();
        let l = self.listed();
        entries_map_contains(s);
        assert forall|i: int, j: int| 0 <= i < j < l.len() implies text_before(
            (#[trigger] l[i]).id@,
            (#[trigger] l[j]).id@,
        ) by {
            assert(InstrumentId::before(s[i].0@, s[j].0@));
        }
        assert forall|i: int| 0 <= i < l.len() implies self@.dom().contains((#[trigger] l[i]).id@)
            && self@[l[i].id@] == l[i] by {
            assert(s[i].0@ == s[i].1.id@);
        }
        assert forall|id: Seq<char>| #[trigger] self@.dom().contains(id) implies self@[id].id@ == id
            && exists|i: int| 0 <= i < l.len() && (#[trigger] l[i]).id@ == id by {
            let i = choose|i: int| 0 <= i < s.len() && (#[trigger] s[i]).0@ == id;
            assert(l[i].id@ == id);
        }
    }

    pub fn new() -> (s: Self)
        ensures
            s.wf(),
            s@ == Map::<Seq<char>, Instrument>::empty(),
            s.listed() == Seq::<Instrument>::empty(),
    {
        let s = InstrumentSet { by_id: SortedMap::new() };
        assert(s.listed() =~= Seq::<Instrument>::empty());
        s
    }

    /// Register an instrument. An id is registered once.
    pub fn insert(&mut self, instrument: Instrument) -> (r: Result<(), BacktestError>)
        requires
            old(self).wf(),
        ensures
            final(self).wf(),
            match r {
                Ok(_) => !old(self)@.dom().contains(instrument.id@) && final(self)@ == old(
                    self,
                )@.insert(instrument.id@, instrument),
                Err(e) => old(self)@.dom().contains(instrument.id@) && *final(self) == *old(self)
                    && says(e, "instrument "@ + instrument.id@ + " is already registered"@),
            },
    {
        if self.by_id.contains_key(&instrument.id) {
            let mut m = "instrument ".to_owned();
            m.append(instrument.id.as_str());
            m.append(" is already registered");
            return Err(BacktestError::Invalid(m));
        }
        let ghost before = self.by_id.seq();
        let at = self.by_id.insert(instrument.id.clone(), instrument);
        proof {
            let after = self.by_id.seq();
            assert forall|i: int| 0 <= i < after.len() implies (#[trigger] after[i]).0@
                == after[i].1.id@ by {
                if i < at {
                    assert(after[i] == before[i]);
                } else if i > at {
                    assert(after[i] == before[i - 1]);
                }
            }
        }
        Ok(())
    }

    pub fn get(&self, id: &InstrumentId) -> (r: Result<&Instrument, BacktestError>)
        requires
            self.wf(),
        ensures
            match r {
                Ok(i) => self@.dom().contains(id@) && *i == self@[id@] && i.id@ == id@,
                Err(e) => !self@.dom().contains(id@) && (e matches BacktestError::UnknownInstrument(
                    name,
                ) && name@ == id@),
            },
    {
        proof {
            self.listed_is_sorted();
        }
        match self.by_id.get(id) {
            Some(i) => Ok(i),
            None => Err(BacktestError::UnknownInstrument(id.as_str().to_owned())),
        }
    }

    pub fn contains(&self, id: &InstrumentId) -> (r: bool)
        requires
            self.wf(),
        ensures
            r == self@.dom().contains(id@),
    {
        self.by_id.contains_key(id)
    }

    pub fn len(&self) -> (n: usize)
        ensures
            n == self.listed().len(),
    {
        self.by_id.len()
    }

    pub fn is_empty(&self) -> (r: bool)
        ensures
            r == (self.listed().len() == 0),
    {
        self.by_id.is_empty()
    }

    /// The instrument at position `i` in id order.
    pub fn at(&self, i: usize) -> (r: &Instrument)
        requires
            i < self.listed().len(),
        ensures
            *r == self.listed()[i as int],
    {
        self.by_id.value_at(i)
    }

    /// Ids in sorted order, so anything iterating instruments is
    /// deterministic.
    pub fn ids(&self) -> (out: Vec<InstrumentId>)
        requires
            self.wf(),
        ensures
            out@.len() == self.listed().len(),
            forall|i: int| 0 <= i < out@.len() ==> (#[trigger] out@[i])@ == self.listed()[i].id@,
    {
        let mut out: Vec<InstrumentId> = Vec::new();
        let n: usize = self.by_id.len();
        let mut i: usize = 0;
        while i < n
            invariant
                self.wf(),
                n == self.by_id.seq().len(),
                i <= n,
                out@.len() == i,
                forall|j: int| 0 <= j < i ==> (#[trigger] out@[j])@ == self.listed()[j].id@,
            decreases n - i,
        {
            assert(self.by_id.seq()[i as int].0@ == self.by_id.seq()[i as int].1.id@);
            out.push(self.by_id.key_at(i).clone());
            i += 1;
        }
        out
    }
}

/// Prices scaled to sum to one keep their proportions: each is its share of
/// the total, to within a raw unit.
pub proof fn shares_are_proportional(prices: Seq<Price>, i: int)
    requires
        scalable(prices),
        0 <= i < prices.len(),
    ensures
        ({
            let total = price_sum(prices);
            let share = shares_of_one(prices)[i].0;
            prices[i].0 * SCALE - total < share * total <= prices[i].0 * SCALE + total
        }),
{
    let total = price_sum(prices);
    let x = prices[i].0 * SCALE;
    let f = share_floor(prices, i);
    shares_sum_to_one(prices);
    single_share(prices, i);
    vstd::arithmetic::div_mod::lemma_fundamental_div_mod(x, total);
    assert(f * total == total * f) by (nonlinear_arith);
    assert((f + 1) * total == f * total + total) by (nonlinear_arith);
}

/// Even shares are even: each is one over their number to within a raw unit,
/// and no later one is larger.
pub proof fn even_shares_are_even(count: u16, i: int, j: int)
    requires
        0 <= i <= j < count,
    ensures
        SCALE - count < even_shares(count)[i].0 * count < SCALE + count,
        even_shares(count)[j].0 <= even_shares(count)[i].0 <= even_shares(count)[j].0 + 1,
        0 <= even_shares(count)[i].0 <= SCALE,
{
    let n = count as int;
    let q = SCALE as int / n;
    let r = SCALE as int % n;
    vstd::arithmetic::div_mod::lemma_fundamental_div_mod(SCALE as int, n);
    assert(q * n == n * q) by (nonlinear_arith);
    assert((q + 1) * n == q * n + n) by (nonlinear_arith);
    assert(0 <= q <= SCALE) by (nonlinear_arith)
        requires
            n > 0,
            SCALE == n * q + r,
            0 <= r < n,
            SCALE == 1_000_000_000,
    ;
    if n == 1 {
        assert(r == 0);
    } else {
        assert(q + 1 <= SCALE) by (nonlinear_arith)
            requires
                n >= 2,
                SCALE == n * q + r,
                0 <= r < n,
                SCALE == 1_000_000_000,
                n <= 0xffff,
        ;
    }
}

/// Which prices an instrument takes: where it trades probabilities, nothing
/// below nothing or above one, and with a tick, its multiples alone.
pub proof fn an_instrument_takes_prices_on_its_grid(instrument: Instrument, price: Price)
    ensures
        instrument.out_of_bounds(price) <==> instrument.kind is PredictionMarket && (price.0 < 0
            || price.0 > 1_000_000_000),
        instrument.tick_size.0 > 0 && !instrument.off_grid(price) ==> price.0 == (price.0 as int
            / instrument.tick_size.0 as int) * instrument.tick_size.0,
        forall|k: int|
            instrument.tick_size.0 > 0 && price.0 == #[trigger] (k * instrument.tick_size.0)
                ==> !instrument.off_grid(price),
        instrument.tick_size.0 <= 0 ==> !instrument.off_grid(price),
{
    let t = instrument.tick_size.0 as int;
    let p = price.0 as int;
    if t > 0 {
        vstd::arithmetic::div_mod::lemma_fundamental_div_mod(p, t);
        assert(t * (p / t) == (p / t) * t) by (nonlinear_arith);
        assert forall|k: int| p == #[trigger] (k * t) implies !instrument.off_grid(price) by {
            vstd::arithmetic::div_mod::lemma_mod_multiples_basic(k, t);
        }
    }
}

/// The tick of a rule with so many decimals is one in the last of them: as
/// many ticks as ten to that power make one.
pub proof fn a_tick_is_one_in_the_last_decimal(decimals: nat)
    requires
        decimals <= 9,
    ensures
        ten_to((9 - decimals) as nat) * ten_to(decimals) == SCALE,
        decimals > 0 ==> ten_to(decimals) == 10 * ten_to((decimals - 1) as nat),
        ten_to(0) == 1,
    decreases decimals,
{
    if decimals == 0 {
        assert(ten_to(9) == SCALE) by {
            reveal_with_fuel(ten_to, 11);
        }
        assert(ten_to(9) * 1 == ten_to(9));
    } else {
        let (a, b) = (ten_to((9 - decimals) as nat), ten_to((decimals - 1) as nat));
        a_tick_is_one_in_the_last_decimal((decimals - 1) as nat);
        assert(ten_to((9 - (decimals - 1)) as nat) == 10 * a);
        assert(ten_to(decimals) == 10 * b);
        assert(a * (10 * b) == (10 * a) * b) by (nonlinear_arith);
    }
}

} // verus!
