//! Corporate actions, and knowing which company a ticker meant.
//!
//! Nothing here rewrites history. An action arrives as an event at the
//! instant it takes effect, and the engine applies it to *positions and
//! resting orders* -- doubling the shares, halving the basis -- exactly as
//! the venue does. Replayed prices stay as they were quoted.
//!
//! Tickers are reused. [`SymbolRegistry`] maps a ticker to an instrument
//! *over a span*, so resolving one needs a date, and a lookup with no date
//! that could mean two companies is an error rather than a guess.

use vstd::prelude::*;
use vstd::string::*;

use crate::error::{says, BacktestError};
use crate::instrument::InstrumentId;
use crate::ordered::{entries_map_contains, keys_sorted, OrderedKey, SortedMap};
use crate::text::{int_text, push_i64, push_u64, text_before};
use crate::types::{
    a_quotient_is_near, div_trunc, divide_trunc, fits, fixed_text, narrow, push_fixed,
    wide_product, Money, Price, Qty, UnixNanos, SCALE,
};
use crate::window::{inside, TimeWindow};

verus! {

/// Something a company did to its own shares.
#[derive(Clone, Copy, PartialEq, Eq, Debug, Structural)]
pub enum CorporateAction {
    /// A share split. `ratio` is new shares per old share: a 2-for-1 is
    /// `2.0`, a 1-for-10 reverse split is `0.1`.
    Split { ratio: Price },
    /// A cash dividend, per share held.
    Dividend { per_share: Money },
    /// Trading ends and open positions are cashed out at `final_price`.
    Delist { final_price: Price },
}

/// The name an action is written under.
pub open spec fn action_kind(action: CorporateAction) -> Seq<char> {
    match action {
        CorporateAction::Split { .. } => "split"@,
        CorporateAction::Dividend { .. } => "dividend"@,
        CorporateAction::Delist { .. } => "delist"@,
    }
}

/// A quantity after a split, rounded towards zero.
pub open spec fn split_quantity(ratio: int, quantity: int) -> int {
    div_trunc(quantity * ratio, SCALE as int)
}

/// A price after a split, rounded towards zero.
pub open spec fn split_price(ratio: int, price: int) -> int {
    div_trunc(price * SCALE, ratio)
}

/// Whether an action can be applied.
pub open spec fn applicable(action: CorporateAction) -> bool {
    match action {
        CorporateAction::Split { ratio } => ratio.0 > 0,
        CorporateAction::Dividend { per_share } => per_share.0 >= 0,
        CorporateAction::Delist { final_price } => final_price.0 >= 0,
    }
}

impl CorporateAction {
    pub fn kind(&self) -> (r: &'static str)
        ensures
            r@ == action_kind(*self),
    {
        match self {
            CorporateAction::Split { .. } => "split",
            CorporateAction::Dividend { .. } => "dividend",
            CorporateAction::Delist { .. } => "delist",
        }
    }

    /// Reject an action that cannot be applied.
    pub fn validate(&self) -> (r: Result<(), BacktestError>)
        ensures
            match r {
                Ok(_) => applicable(*self),
                Err(e) => !applicable(*self) && match *self {
                    CorporateAction::Split { ratio } => says(
                        e,
                        "a split ratio must be positive, got "@ + fixed_text(ratio.0 as int),
                    ),
                    CorporateAction::Dividend { .. } => says(e, "a dividend must not be negative"@),
                    CorporateAction::Delist { .. } => says(
                        e,
                        "a delisting price must not be negative"@,
                    ),
                },
            },
    {
        match self {
            CorporateAction::Split { ratio } => {
                if !ratio.is_positive() {
                    let mut m = "a split ratio must be positive, got ".to_owned();
                    push_fixed(&mut m, ratio.0);
                    return Err(BacktestError::Invalid(m));
                }
                Ok(())
            },
            // A negative dividend is a capital call, which is a different
            // instrument's problem; refusing it here keeps a sign error
            // from quietly draining an account.
            CorporateAction::Dividend { per_share } => {
                if per_share.is_negative() {
                    return Err(BacktestError::invalid("a dividend must not be negative"));
                }
                Ok(())
            },
            CorporateAction::Delist { final_price } => {
                if final_price.is_negative() {
                    return Err(BacktestError::invalid("a delisting price must not be negative"));
                }
                Ok(())
            },
        }
    }

    /// Quantity and price after a split, leaving position value unchanged up
    /// to rounding.
    pub fn split_position(ratio: Price, quantity: Qty, price: Price) -> (r: Result<
        (Qty, Price),
        BacktestError,
    >)
        ensures
            match r {
                Ok((q, p)) => ratio.0 > 0 && q.0 == split_quantity(
                    ratio.0 as int,
                    quantity.0 as int,
                ) && p.0 == split_price(ratio.0 as int, price.0 as int),
                Err(e) => {
                    if ratio.0 <= 0 {
                        says(e, "split ratio must be positive"@)
                    } else if !fits(split_quantity(ratio.0 as int, quantity.0 as int)) {
                        e == (BacktestError::Overflow { what: "split_position quantity" })
                    } else {
                        !fits(split_price(ratio.0 as int, price.0 as int)) && e == (
                        BacktestError::Overflow { what: "split_position price" })
                    }
                },
            },
    {
        if !ratio.is_positive() {
            return Err(BacktestError::invalid("split ratio must be positive"));
        }
        let new_quantity: i128 = divide_trunc(wide_product(quantity.0, ratio.0), SCALE as i128);
        let new_price: i128 = divide_trunc(wide_product(price.0, SCALE), ratio.0 as i128);
        let q: i64 = narrow(new_quantity, "split_position quantity")?;
        let p: i64 = narrow(new_price, "split_position price")?;
        Ok((Qty(q), Price(p)))
    }
}

/// Where nothing has to be rounded, a split leaves the value of a position
/// unchanged.
pub proof fn split_conserves_value(ratio: int, quantity: int, price: int)
    requires
        ratio > 0,
        (quantity * ratio) % (SCALE as int) == 0,
        (price * SCALE) % ratio == 0,
    ensures
        split_quantity(ratio, quantity) * split_price(ratio, price) == quantity * price,
{
    let q = split_quantity(ratio, quantity);
    let p = split_price(ratio, price);
    exact_division(quantity * ratio, SCALE as int);
    exact_division(price * SCALE, ratio);
    assert((q * p) * (SCALE * ratio) == (quantity * price) * (SCALE * ratio)) by (nonlinear_arith)
        requires
            q * SCALE == quantity * ratio,
            p * ratio == price * SCALE,
    ;
    assert(q * p == quantity * price) by (nonlinear_arith)
        requires
            (q * p) * (SCALE * ratio) == (quantity * price) * (SCALE * ratio),
            SCALE == 1_000_000_000,
            ratio > 0,
    ;
}

/// A split of so many for one multiplies the quantity and divides the price
/// by the ratio, each rounded towards zero: neither changes sign, and neither
/// is off by as much as a raw unit of what it is divided by.
pub proof fn a_split_multiplies_shares_and_divides_prices(ratio: int, quantity: int, price: int)
    requires
        ratio > 0,
    ensures
        ({
            let (q, p) = (split_quantity(ratio, quantity), split_price(ratio, price));
            &&& quantity >= 0 ==> 0 <= q * SCALE <= quantity * ratio < q * SCALE + SCALE
            &&& quantity <= 0 ==> q * SCALE - SCALE < quantity * ratio <= q * SCALE <= 0
            &&& price >= 0 ==> 0 <= p * ratio <= price * SCALE < p * ratio + ratio
            &&& price <= 0 ==> p * ratio - ratio < price * SCALE <= p * ratio <= 0
        }),
{
    a_quotient_is_near(quantity * ratio, SCALE as int);
    a_quotient_is_near(price * SCALE, ratio);
    assert(quantity >= 0 ==> quantity * ratio >= 0) by (nonlinear_arith)
        requires
            ratio > 0,
    ;
    assert(quantity <= 0 ==> quantity * ratio <= 0) by (nonlinear_arith)
        requires
            ratio > 0,
    ;
}

proof fn exact_division(x: int, d: int)
    requires
        d > 0,
        x % d == 0,
    ensures
        div_trunc(x, d) * d == x,
{
    vstd::arithmetic::div_mod::lemma_fundamental_div_mod(x, d);
    let q = x / d;
    assert(x == d * q);
    if x < 0 {
        let m = -x;
        assert(m == d * (-q)) by (nonlinear_arith)
            requires
                x == d * q,
                m == -x,
        ;
        vstd::arithmetic::div_mod::lemma_div_multiples_vanish(-q, d);
        assert(m / d == -q);
        assert((-(-q)) * d == x) by (nonlinear_arith)
            requires
                x == d * q,
        ;
    } else {
        assert(q * d == d * q) by (nonlinear_arith);
    }
}

/// One instrument's claim on a ticker, over a half-open span.
#[derive(PartialEq, Eq, Debug)]
pub struct SymbolSpan {
    pub ticker: String,
    pub instrument: InstrumentId,
    pub span: TimeWindow,
}

impl Clone for SymbolSpan {
    fn clone(&self) -> (r: Self)
        ensures
            r == *self,
    {
        SymbolSpan {
            ticker: self.ticker.clone(),
            instrument: self.instrument.clone(),
            span: self.span,
        }
    }
}

/// The spans of one ticker: at least one, each starting where the one before
/// ended, the last one open-ended.
pub open spec fn gapless(spans: Seq<SymbolSpan>) -> bool {
    &&& spans.len() > 0
    &&& spans.last().span@.1 == i64::MAX
    &&& forall|i: int| 0 <= i < spans.len() ==> (#[trigger] spans[i]).span@.0 < spans[i].span@.1
    &&& forall|i: int, j: int|
        #![trigger spans[i], spans[j]]
        0 <= i && j == i + 1 && j < spans.len() ==> spans[i].span@.1 == spans[j].span@.0
}

/// The position of the first span from `from` on that holds an instant, or
/// the number of spans if none does.
pub open spec fn first_holding(spans: Seq<SymbolSpan>, at: int, from: int) -> int
    decreases spans.len() - from,
{
    if from >= spans.len() || inside(spans[from].span@, at) {
        from
    } else {
        first_holding(spans, at, from + 1)
    }
}

/// The instruments that have held a ticker, each once, in the order they
/// first did.
pub open spec fn holders(spans: Seq<SymbolSpan>) -> Seq<Seq<char>>
    decreases spans.len(),
{
    if spans.len() == 0 {
        Seq::empty()
    } else {
        let earlier = holders(spans.drop_last());
        if earlier.contains(spans.last().instrument@) {
            earlier
        } else {
            earlier.push(spans.last().instrument@)
        }
    }
}

/// Names separated by commas.
pub open spec fn listed_names(names: Seq<Seq<char>>) -> Seq<char>
    decreases names.len(),
{
    if names.len() == 0 {
        Seq::empty()
    } else if names.len() == 1 {
        names[0]
    } else {
        listed_names(names.drop_last()) + ", "@ + names.last()
    }
}

/// Whether one instrument held a ticker all along.
pub open spec fn held_by_one(spans: Seq<SymbolSpan>) -> bool {
    forall|i: int| 0 <= i < spans.len() ==> (#[trigger] spans[i]).instrument@ == spans[0].instrument@
}

/// A ticker one instrument held all along has one holder, and every holder of
/// a ticker is among its holders.
pub proof fn holders_are_those_of_the_spans(spans: Seq<SymbolSpan>)
    ensures
        spans.len() > 0 ==> holders(spans).len() > 0 && holders(spans)[0] == spans[0].instrument@,
        forall|i: int|
            0 <= i < spans.len() ==> holders(spans).contains((#[trigger] spans[i]).instrument@),
        spans.len() > 0 ==> (held_by_one(spans) <==> holders(spans).len() == 1),
        holders(spans).no_duplicates(),
    decreases spans.len(),
{
    if spans.len() > 0 {
        let rest = spans.drop_last();
        let earlier = holders(rest);
        let all = holders(spans);
        let last = spans.last().instrument@;
        holders_are_those_of_the_spans(rest);
        assert forall|i: int| 0 <= i < spans.len() implies all.contains(
            (#[trigger] spans[i]).instrument@,
        ) by {
            if i < rest.len() {
                assert(rest[i] == spans[i]);
                let k = choose|k: int| 0 <= k < earlier.len() && earlier[k] == spans[i].instrument@;
                assert(all[k] == earlier[k]);
            } else if !earlier.contains(last) {
                assert(all[earlier.len() as int] == last);
            }
        }
        if rest.len() > 0 {
            assert(rest[0] == spans[0]);
            if held_by_one(spans) {
                assert forall|i: int| 0 <= i < rest.len() implies (#[trigger] rest[i]).instrument@
                    == rest[0].instrument@ by {
                    assert(rest[i] == spans[i]);
                }
                assert(spans[rest.len() as int].instrument@ == spans[0].instrument@);
                assert(earlier[0] == last);
                assert(earlier.contains(last));
            }
            if all.len() == 1 {
                assert(earlier.contains(last));
                let k = choose|k: int| 0 <= k < earlier.len() && earlier[k] == last;
                assert(earlier.len() == 1 && k == 0);
                assert forall|i: int| 0 <= i < spans.len() implies (#[trigger] spans[i]).instrument@
                    == spans[0].instrument@ by {
                    if i < rest.len() {
                        assert(rest[i] == spans[i]);
                    }
                }
            }
        } else {
            assert(earlier.len() == 0);
            assert(!earlier.contains(last));
        }
    }
}

/// That `after` is `before` with the last span closed at `from` and a new
/// one, of `instrument`, open from there.
pub open spec fn handed_over(
    before: Seq<SymbolSpan>,
    after: Seq<SymbolSpan>,
    ticker: Seq<char>,
    instrument: InstrumentId,
    from: i64,
) -> bool {
    &&& after.len() == before.len() + 1
    &&& after.last().ticker@ == ticker
    &&& after.last().instrument == instrument
    &&& after.last().span@ == (from, i64::MAX)
    &&& before.len() > 0 ==> {
        &&& after[before.len() - 1] == (SymbolSpan {
            span: after[before.len() - 1].span,
            ..before.last()
        })
        &&& after[before.len() - 1].span@ == (before.last().span@.0, from)
    }
    &&& forall|i: int| 0 <= i < before.len() - 1 ==> #[trigger] after[i] == before[i]
}

/// The lists of all tickers, one after the other.
pub open spec fn all_spans(entries: Seq<(String, Vec<SymbolSpan>)>) -> Seq<SymbolSpan>
    decreases entries.len(),
{
    if entries.len() == 0 {
        Seq::empty()
    } else {
        all_spans(entries.drop_last()) + entries.last().1@
    }
}

/// The timelines of some tickers, one after another.
pub open spec fn timelines(
    spans: Map<Seq<char>, Seq<SymbolSpan>>,
    tickers: Seq<Seq<char>>,
) -> Seq<SymbolSpan>
    decreases tickers.len(),
{
    if tickers.len() == 0 {
        Seq::empty()
    } else {
        timelines(spans, tickers.drop_last()) + spans[tickers.last()]
    }
}

/// The holders of a ticker, each once.
fn find_holders(spans: &Vec<SymbolSpan>) -> (held: Vec<InstrumentId>)
    ensures
        held@.len() == holders(spans@).len(),
        forall|j: int| 0 <= j < held@.len() ==> (#[trigger] held@[j])@ == holders(spans@)[j],
{
    let mut held: Vec<InstrumentId> = Vec::new();
    let n: usize = spans.len();
    let mut i: usize = 0;
    assert(spans@.take(0) =~= Seq::<SymbolSpan>::empty());
    while i < n
        invariant
            n == spans@.len(),
            i <= n,
            held@.len() == holders(spans@.take(i as int)).len(),
            forall|j: int|
                0 <= j < held@.len() ==> (#[trigger] held@[j])@ == holders(
                    spans@.take(i as int),
                )[j],
        decreases n - i,
    {
        let ghost earlier = holders(spans@.take(i as int));
        let ghost name = spans@[i as int].instrument@;
        let k: usize = held.len();
        let mut known = false;
        let mut j: usize = 0;
        while j < k
            invariant
                k == held@.len(),
                k == earlier.len(),
                j <= k,
                i < spans@.len(),
                name == spans@[i as int].instrument@,
                forall|l: int| 0 <= l < k ==> (#[trigger] held@[l])@ == earlier[l],
                known == exists|l: int| 0 <= l < j && (#[trigger] held@[l])@ == name,
            decreases k - j,
        {
            if held[j] == spans[i].instrument {
                known = true;
                assert(held@[j as int]@ == name);
            }
            j += 1;
        }
        proof {
            assert(spans@.take(i + 1).drop_last() =~= spans@.take(i as int));
            assert(spans@.take(i + 1).last() == spans@[i as int]);
            if known {
                let l = choose|l: int| 0 <= l < k && (#[trigger] held@[l])@ == name;
                assert(earlier[l] == name);
            }
            if earlier.contains(name) {
                let l = choose|l: int| 0 <= l < earlier.len() && earlier[l] == name;
                assert(held@[l]@ == name);
            }
        }
        if !known {
            held.push(spans[i].instrument.clone());
        }
        i += 1;
    }
    assert(spans@.take(n as int) =~= spans@);
    held
}

/// Which instrument a ticker referred to, and when.
///
/// Spans are half-open and, within one ticker, contiguous: each period's
/// end is recomputed as its successor's start, so resolution is *total* --
/// there is no instant at which a reused ticker resolves to nothing merely
/// because two registrations left a gap between them.
pub struct SymbolRegistry {
    by_ticker: SortedMap<String, Vec<SymbolSpan>>,
}

impl View for SymbolRegistry {
    type V = Map<Seq<char>, Seq<SymbolSpan>>;

    closed spec fn view(&self) -> Map<Seq<char>, Seq<SymbolSpan>> {
        self.by_ticker@.map_values(|v: Vec<SymbolSpan>| v@)
    }
}

impl SymbolRegistry {
    /// Every ticker's timeline is gapless.
    pub closed spec fn wf(&self) -> bool {
        &&& self.by_ticker.wf()
        &&& forall|k: Seq<char>| #[trigger]
            self.by_ticker@.dom().contains(k) ==> gapless(self.by_ticker@[k]@)
    }

    /// Every span, in ticker then time order.
    pub closed spec fn listed(&self) -> Seq<SymbolSpan> {
        all_spans(self.by_ticker.seq())
    }

    pub fn new() -> (s: Self)
        ensures
            s.wf(),
            s@ == Map::<Seq<char>, Seq<SymbolSpan>>::empty(),
            s.listed() == Seq::<SymbolSpan>::empty(),
    {
        let s = SymbolRegistry { by_ticker: SortedMap::new() };
        assert(s@ =~= Map::<Seq<char>, Seq<SymbolSpan>>::empty());
        s
    }

    /// Register a ticker as belonging to an instrument from `from` onward.
    ///
    /// The previous holder's span is closed at this instant, which is what
    /// makes the timeline gapless.
    pub fn assign(&mut self, ticker: &str, instrument: InstrumentId, from: UnixNanos) -> (r: Result<
        (),
        BacktestError,
    >)
        requires
            old(self).wf(),
        ensures
            final(self).wf(),
            ({
                let held = if old(self)@.dom().contains(ticker@) {
                    old(self)@[ticker@]
                } else {
                    Seq::<SymbolSpan>::empty()
                };
                match r {
                    Ok(_) => {
                        &&& from.0 < i64::MAX
                        &&& held.len() > 0 ==> from.0 > held.last().span@.0
                        &&& final(self)@.dom().contains(ticker@)
                        &&& handed_over(held, final(self)@[ticker@], ticker@, instrument, from.0)
                        &&& final(self)@ == old(self)@.insert(ticker@, final(self)@[ticker@])
                    },
                    Err(e) => {
                        &&& *final(self) == *old(self)
                        &&& if held.len() > 0 && from.0 <= held.last().span@.0 {
                            says(
                                e,
                                "ticker "@ + ticker@ + " is already held from "@ + int_text(
                                    held.last().span@.0 as int,
                                ) + " onward; a later assignment must start after it"@,
                            )
                        } else {
                            from.0 == i64::MAX && e == (BacktestError::EmptyWindow {
                                start: from.0,
                                end: i64::MAX,
                            })
                        }
                    },
                }
            }),
    {
        let key: String = ticker.to_owned();
        let found = self.by_ticker.find(&key);
        if let Some(i) = found {
            let spans = self.by_ticker.value_at(i);
            assert(gapless(spans@));
            let previous: &SymbolSpan = &spans[spans.len() - 1];
            let start: i64 = previous.span.start().0;
            if from.0 <= start {
                let mut m = "ticker ".to_owned();
                m.append(ticker);
                m.append(" is already held from ");
                push_i64(&mut m, start);
                m.append(" onward; a later assignment must start after it");
                return Err(BacktestError::Invalid(m));
            }
        }
        let span = TimeWindow::new(from, UnixNanos(i64::MAX))?;
        let ghost before = self.by_ticker@;
        let mut spans: Vec<SymbolSpan> = match found {
            Some(i) => {
                let (_, spans) = self.by_ticker.remove_at(i);
                spans
            },
            None => Vec::new(),
        };
        let ghost held = spans@;
        let n: usize = spans.len();
        if n > 0 {
            let start = spans[n - 1].span.start();
            let closed = TimeWindow::new(start, from)?;
            let last = spans.pop().unwrap();
            spans.push(SymbolSpan { ticker: last.ticker, instrument: last.instrument, span: closed });
        }
        let ghost closed_spans = spans@;
        spans.push(SymbolSpan { ticker: key.clone(), instrument, span });
        self.by_ticker.insert(key, spans);
        proof {
            assert(handed_over(held, spans@, ticker@, instrument, from.0));
            assert(gapless(spans@)) by {
                assert forall|i: int| 0 <= i < spans@.len() implies (#[trigger] spans@[i]).span@.0
                    < spans@[i].span@.1 by {
                    if i < held.len() - 1 {
                        assert(spans@[i] == held[i]);
                    }
                }
                assert forall|i: int, j: int|
                    #![trigger spans@[i], spans@[j]]
                    0 <= i && j == i + 1 && j < spans@.len() implies spans@[i].span@.1
                    == spans@[j].span@.0 by {
                    if j < held.len() {
                        assert(held[i].span@.1 == held[j].span@.0);
                    }
                }
            }
            assert(self.by_ticker@ =~= before.insert(ticker@, spans));
            assert(self@ =~= old(self)@.insert(ticker@, spans@));
            assert forall|k: Seq<char>| #[trigger]
                self.by_ticker@.dom().contains(k) implies gapless(self.by_ticker@[k]@) by {
                if k != ticker@ {
                    assert(before.dom().contains(k));
                }
            }
        }
        Ok(())
    }

    /// Which instrument this ticker meant at `at`.
    pub fn resolve(&self, ticker: &str, at: UnixNanos) -> (r: Result<InstrumentId, BacktestError>)
        requires
            self.wf(),
        ensures
            if !self@.dom().contains(ticker@) {
                r matches Err(BacktestError::UnknownInstrument(name)) && name@ == ticker@
            } else {
                let spans = self@[ticker@];
                let i = first_holding(spans, at.0 as int, 0);
                if i < spans.len() {
                    r matches Ok(id) && id == spans[i].instrument
                } else {
                    r matches Err(e) && says(
                        e,
                        "ticker "@ + ticker@ + " referred to nothing at "@ + int_text(at.0 as int)
                            + "; its earliest registration begins at "@ + int_text(
                            spans[0].span@.0 as int,
                        ),
                    )
                }
            },
    {
        let key: String = ticker.to_owned();
        let spans = match self.by_ticker.get(&key) {
            Some(spans) => spans,
            None => {
                return Err(BacktestError::UnknownInstrument(key));
            },
        };
        assert(gapless(spans@));
        assert(self@[ticker@] == spans@);
        let n: usize = spans.len();
        let mut i: usize = 0;
        while i < n
            invariant
                n == spans@.len(),
                i <= n,
                self@.dom().contains(ticker@),
                self@[ticker@] == spans@,
                first_holding(spans@, at.0 as int, 0) == first_holding(
                    spans@,
                    at.0 as int,
                    i as int,
                ),
            decreases n - i,
        {
            if spans[i].span.contains(at) {
                return Ok(spans[i].instrument.clone());
            }
            i += 1;
        }
        let mut m = "ticker ".to_owned();
        m.append(ticker);
        m.append(" referred to nothing at ");
        push_i64(&mut m, at.0);
        m.append("; its earliest registration begins at ");
        push_i64(&mut m, spans[0].span.start().0);
        Err(BacktestError::Invalid(m))
    }

    /// Which instrument this ticker means, when that is unambiguous.
    ///
    /// A ticker held by two instruments over time has no single answer, and
    /// this refuses to invent one. Naming the candidates matters: the
    /// caller almost always has a date available and simply did not pass
    /// it.
    pub fn resolve_unique(&self, ticker: &str) -> (r: Result<InstrumentId, BacktestError>)
        requires
            self.wf(),
        ensures
            if !self@.dom().contains(ticker@) {
                r matches Err(BacktestError::UnknownInstrument(name)) && name@ == ticker@
            } else {
                let spans = self@[ticker@];
                if held_by_one(spans) {
                    r matches Ok(id) && id == spans[0].instrument
                } else {
                    r matches Err(e) && says(
                        e,
                        "ticker "@ + ticker@ + " referred to "@ + int_text(
                            holders(spans).len() as int,
                        ) + " different instruments ("@ + listed_names(holders(spans))
                            + "); resolve it with a date"@,
                    )
                }
            },
    {
        let key: String = ticker.to_owned();
        let spans = match self.by_ticker.get(&key) {
            Some(spans) => spans,
            None => {
                return Err(BacktestError::UnknownInstrument(key));
            },
        };
        assert(gapless(spans@));
        assert(self@[ticker@] == spans@);
        let held = find_holders(spans);
        proof {
            holders_are_those_of_the_spans(spans@);
        }
        let n: usize = held.len();
        if n == 1 {
            return Ok(spans[0].instrument.clone());
        }
        let ghost found = holders(spans@);
        let mut m = "ticker ".to_owned();
        m.append(ticker);
        m.append(" referred to ");
        push_u64(&mut m, n as u64);
        m.append(" different instruments (");
        let mut names: String = held[0].as_str().to_owned();
        let mut i: usize = 1;
        assert(found.take(1).len() == 1);
        while i < n
            invariant
                n == held@.len(),
                n == found.len(),
                forall|j: int| 0 <= j < n ==> (#[trigger] held@[j])@ == found[j],
                1 <= i <= n,
                names@ == listed_names(found.take(i as int)),
            decreases n - i,
        {
            names.append(", ");
            names.append(held[i].as_str());
            assert(found.take(i + 1).drop_last() =~= found.take(i as int));
            i += 1;
        }
        assert(found.take(n as int) =~= found);
        m.append(names.as_str());
        m.append("); resolve it with a date");
        Err(BacktestError::Invalid(m))
    }

    /// The tickers registered, in order.
    pub closed spec fn tickers(&self) -> Seq<Seq<char>> {
        Seq::new(self.by_ticker.seq().len(), |i: int| self.by_ticker.seq()[i].0@)
    }

    /// Every span listed is a span of a registered ticker, and the other way
    /// round: the list is the timelines of the tickers, one after another in
    /// ticker order.
    pub proof fn listed_are_registered(&self)
        requires
            self.wf(),
        ensures
            self.listed() == timelines(self@, self.tickers()),
            forall|i: int, j: int|
                #![trigger self.tickers()[i], self.tickers()[j]]
                0 <= i < j < self.tickers().len() ==> text_before(
                    self.tickers()[i],
                    self.tickers()[j],
                ),
            forall|t: Seq<char>|
                self.tickers().contains(t) <==> #[trigger] self@.dom().contains(t),
    {
        let s = self.by_ticker.seq();
        entries_map_contains(s);
        self.spans_are_timelines(s.len() as int);
        assert(s.take(s.len() as int) =~= s);
        assert(self.tickers().take(s.len() as int) =~= self.tickers());
        assert forall|t: Seq<char>| #[trigger] self@.dom().contains(t) implies self.tickers().contains(
            t,
        ) by {
            let i = choose|i: int| 0 <= i < s.len() && (#[trigger] s[i]).0@ == t;
            assert(self.tickers()[i] == t);
        }
        assert forall|t: Seq<char>| self.tickers().contains(t) implies #[trigger] self@.dom().contains(
            t,
        ) by {
            let i = choose|i: int| 0 <= i < self.tickers().len() && self.tickers()[i] == t;
            assert(s[i].0@ == t);
        }
        assert forall|i: int, j: int|
            #![trigger self.tickers()[i], self.tickers()[j]]
            0 <= i < j < self.tickers().len() implies text_before(
            self.tickers()[i],
            self.tickers()[j],
        ) by {
            assert(<String as OrderedKey>::before(s[i].0@, s[j].0@));
        }
    }

    proof fn spans_are_timelines(&self, n: int)
        requires
            self.wf(),
            0 <= n <= self.by_ticker.seq().len(),
        ensures
            all_spans(self.by_ticker.seq().take(n)) == timelines(self@, self.tickers().take(n)),
        decreases n,
    {
        let s = self.by_ticker.seq();
        if n > 0 {
            entries_map_contains(s);
            self.spans_are_timelines(n - 1);
            assert(s.take(n).drop_last() =~= s.take(n - 1));
            assert(self.tickers().take(n).drop_last() =~= self.tickers().take(n - 1));
            assert(s.take(n).last() == s[n - 1]);
            assert(self.tickers().take(n).last() == s[n - 1].0@);
            assert(self.by_ticker@[s[n - 1].0@] == s[n - 1].1);
        }
    }

    /// Every span, in ticker then time order.
    pub fn spans(&self) -> (out: Vec<SymbolSpan>)
        ensures
            out@ == self.listed(),
    {
        let mut out: Vec<SymbolSpan> = Vec::new();
        let n: usize = self.by_ticker.len();
        let mut i: usize = 0;
        while i < n
            invariant
                n == self.by_ticker.seq().len(),
                i <= n,
                out@ == all_spans(self.by_ticker.seq().take(i as int)),
            decreases n - i,
        {
            let spans = self.by_ticker.value_at(i);
            let k: usize = spans.len();
            let ghost start = out@;
            let mut j: usize = 0;
            while j < k
                invariant
                    k == spans@.len(),
                    j <= k,
                    out@ == start + spans@.take(j as int),
                decreases k - j,
            {
                out.push(spans[j].clone());
                assert(spans@.take(j + 1) =~= spans@.take(j as int).push(spans@[j as int]));
                j += 1;
            }
            assert(spans@.take(k as int) =~= spans@);
            assert(self.by_ticker.seq().take(i + 1).drop_last() =~= self.by_ticker.seq().take(
                i as int,
            ));
            i += 1;
        }
        assert(self.by_ticker.seq().take(n as int) =~= self.by_ticker.seq());
        out
    }

    pub fn is_empty(&self) -> (r: bool)
        requires
            self.wf(),
        ensures
            r == (self@ == Map::<Seq<char>, Seq<SymbolSpan>>::empty()),
    {
        proof {
            entries_map_contains(self.by_ticker.seq());
            if self.by_ticker.seq().len() == 0 {
                assert(self@ =~= Map::<Seq<char>, Seq<SymbolSpan>>::empty());
            } else {
                let k = self.by_ticker.seq()[0].0@;
                assert(self.by_ticker@.dom().contains(k));
                assert(self@.dom().contains(k));
            }
        }
        self.by_ticker.is_empty()
    }
}

/// A ticker's timeline has no gap: from its first registration on, every
/// instant but the very last there is belongs to exactly one holder, and
/// that is the one found.
pub proof fn timeline_is_total(spans: Seq<SymbolSpan>, at: int)
    requires
        gapless(spans),
        spans[0].span@.0 <= at < i64::MAX,
    ensures
        ({
            let i = first_holding(spans, at, 0);
            &&& 0 <= i < spans.len()
            &&& inside(spans[i].span@, at)
            &&& forall|j: int|
                0 <= j < spans.len() && inside((#[trigger] spans[j]).span@, at) ==> j == i
        }),
{
    let i = find_holder(spans, at, 0);
    assert forall|j: int| 0 <= j < spans.len() && j != i implies !inside(
        (#[trigger] spans[j]).span@,
        at,
    ) by {
        if j < i {
            spans_in_order(spans, j, i);
        } else {
            spans_in_order(spans, i, j);
        }
    }
}

/// Whether a timeline is what a list of assignments made it: who was given
/// the ticker, and from when.
pub open spec fn made_by(spans: Seq<SymbolSpan>, made: Seq<(InstrumentId, i64)>) -> bool {
    &&& spans.len() == made.len()
    &&& forall|i: int|
        0 <= i < spans.len() ==> (#[trigger] spans[i]).instrument == made[i].0 && spans[i].span@.0
            == made[i].1
}

/// One assignment more makes a timeline one entry longer.
pub proof fn assigning_extends_the_timeline(
    before: Seq<SymbolSpan>,
    after: Seq<SymbolSpan>,
    made: Seq<(InstrumentId, i64)>,
    ticker: Seq<char>,
    instrument: InstrumentId,
    from: i64,
)
    requires
        made_by(before, made),
        handed_over(before, after, ticker, instrument, from),
    ensures
        made_by(after, made.push((instrument, from))),
{
    let longer = made.push((instrument, from));
    assert forall|i: int| 0 <= i < after.len() implies (#[trigger] after[i]).instrument
        == longer[i].0 && after[i].span@.0 == longer[i].1 by {
        if i < before.len() - 1 {
            assert(after[i] == before[i]);
        } else if i == before.len() - 1 {
            assert(before[i].instrument == made[i].0);
        }
    }
}

/// A ticker means, at any instant, whoever it was last assigned to by then.
pub proof fn the_latest_assignment_answers(
    spans: Seq<SymbolSpan>,
    made: Seq<(InstrumentId, i64)>,
    k: int,
    at: int,
)
    requires
        gapless(spans),
        made_by(spans, made),
        0 <= k < made.len(),
        made[k].1 <= at < i64::MAX,
        k + 1 < made.len() ==> at < made[k + 1].1,
    ensures
        first_holding(spans, at, 0) == k,
        spans[k].instrument == made[k].0,
{
    if k > 0 {
        spans_in_order(spans, 0, k);
        assert(spans[0].span@.0 < spans[0].span@.1);
    }
    timeline_is_total(spans, at);
    if k + 1 < made.len() {
        assert(spans[k].span@.1 == spans[k + 1].span@.0);
    } else {
        assert(spans.last() == spans[k]);
    }
    assert(inside(spans[k].span@, at));
}

proof fn spans_in_order(spans: Seq<SymbolSpan>, i: int, j: int)
    requires
        gapless(spans),
        0 <= i < j < spans.len(),
    ensures
        spans[i].span@.1 <= spans[j].span@.0,
    decreases j - i,
{
    assert(spans[i].span@.1 == spans[i + 1].span@.0);
    if i + 1 < j {
        spans_in_order(spans, i + 1, j);
        assert(spans[i + 1].span@.0 < spans[i + 1].span@.1);
    }
}

proof fn find_holder(spans: Seq<SymbolSpan>, at: int, from: int) -> (i: int)
    requires
        gapless(spans),
        0 <= from < spans.len(),
        spans[from].span@.0 <= at < i64::MAX,
    ensures
        i == first_holding(spans, at, from),
        from <= i < spans.len(),
        inside(spans[i].span@, at),
    decreases spans.len() - from,
{
    if inside(spans[from].span@, at) {
        from
    } else {
        assert(from < spans.len() - 1) by {
            assert(spans.last() == spans[spans.len() - 1]);
        }
        assert(spans[from].span@.1 == spans[from + 1].span@.0);
        find_holder(spans, at, from + 1)
    }
}

/// Whether one of a list of windows holds an instant.
pub open spec fn any_holds(windows: Seq<TimeWindow>, at: int) -> bool {
    exists|i: int| 0 <= i < windows.len() && inside((#[trigger] windows[i])@, at)
}

fn any_contains(windows: &Vec<TimeWindow>, at: UnixNanos) -> (r: bool)
    ensures
        r == any_holds(windows@, at.0 as int),
{
    let n: usize = windows.len();
    let mut i: usize = 0;
    while i < n
        invariant
            n == windows@.len(),
            i <= n,
            forall|j: int| 0 <= j < i ==> !inside((#[trigger] windows@[j])@, at.0 as int),
        decreases n - i,
    {
        if windows[i].contains(at) {
            assert(inside(windows@[i as int]@, at.0 as int));
            return true;
        }
        i += 1;
    }
    false
}

/// The ids among the first `n` members whose windows hold an instant.
pub open spec fn members_among(
    entries: Seq<(InstrumentId, Vec<TimeWindow>)>,
    at: int,
    n: int,
) -> Seq<Seq<char>>
    decreases n,
{
    if n <= 0 {
        Seq::empty()
    } else if any_holds(entries[n - 1].1@, at) {
        members_among(entries, at, n - 1).push(entries[n - 1].0@)
    } else {
        members_among(entries, at, n - 1)
    }
}

/// Whether an instrument is a member of a universe at an instant.
///
/// Membership is a span, and a rolling calculation is *not* truncated at
/// the membership start: filtering before a window computation silently
/// shortens every lookback that crosses an index entry.
pub struct Universe {
    members: SortedMap<InstrumentId, Vec<TimeWindow>>,
}

impl View for Universe {
    type V = Map<Seq<char>, Seq<TimeWindow>>;

    closed spec fn view(&self) -> Map<Seq<char>, Seq<TimeWindow>> {
        self.members@.map_values(|v: Vec<TimeWindow>| v@)
    }
}

impl Universe {
    pub closed spec fn wf(&self) -> bool {
        self.members.wf()
    }

    /// The ids of the members at an instant, in id order.
    pub closed spec fn ids_at(&self, at: int) -> Seq<Seq<char>> {
        members_among(self.members.seq(), at, self.members.seq().len() as int)
    }

    /// Whether an instrument is a member at an instant.
    pub open spec fn holds(&self, instrument: Seq<char>, at: int) -> bool {
        self@.dom().contains(instrument) && any_holds(self@[instrument], at)
    }

    pub fn new() -> (u: Self)
        ensures
            u.wf(),
            u@ == Map::<Seq<char>, Seq<TimeWindow>>::empty(),
    {
        let u = Universe { members: SortedMap::new() };
        assert(u@ =~= Map::<Seq<char>, Seq<TimeWindow>>::empty());
        u
    }

    /// Add a span of membership.
    pub fn add(&mut self, instrument: InstrumentId, span: TimeWindow)
        requires
            old(self).wf(),
        ensures
            final(self).wf(),
            final(self)@ == old(self)@.insert(
                instrument@,
                (if old(self)@.dom().contains(instrument@) {
                    old(self)@[instrument@]
                } else {
                    Seq::<TimeWindow>::empty()
                }).push(span),
            ),
    {
        let ghost before = self.members@;
        let mut spans: Vec<TimeWindow> = match self.members.remove(&instrument) {
            Some(spans) => spans,
            None => Vec::new(),
        };
        let ghost held = spans@;
        spans.push(span);
        let ghost id = instrument@;
        self.members.insert(instrument, spans);
        proof {
            assert(self.members@ =~= before.insert(id, spans));
            assert(self@ =~= old(self)@.insert(id, held.push(span)));
        }
    }

    pub fn contains(&self, instrument: &InstrumentId, at: UnixNanos) -> (r: bool)
        requires
            self.wf(),
        ensures
            r == self.holds(instrument@, at.0 as int),
    {
        match self.members.get(instrument) {
            Some(spans) => any_contains(spans, at),
            None => false,
        }
    }

    /// Members at an instant, in deterministic order.
    pub fn members_at(&self, at: UnixNanos) -> (out: Vec<InstrumentId>)
        ensures
            out@.len() == self.ids_at(at.0 as int).len(),
            forall|i: int|
                0 <= i < out@.len() ==> (#[trigger] out@[i])@ == self.ids_at(at.0 as int)[i],
    {
        let mut out: Vec<InstrumentId> = Vec::new();
        let n: usize = self.members.len();
        let mut i: usize = 0;
        while i < n
            invariant
                n == self.members.seq().len(),
                i <= n,
                out@.len() == members_among(self.members.seq(), at.0 as int, i as int).len(),
                forall|j: int|
                    0 <= j < out@.len() ==> (#[trigger] out@[j])@ == members_among(
                        self.members.seq(),
                        at.0 as int,
                        i as int,
                    )[j],
            decreases n - i,
        {
            if any_contains(self.members.value_at(i), at) {
                out.push(self.members.key_at(i).clone());
            }
            i += 1;
        }
        out
    }

    /// Who is listed at an instant is who is a member then.
    pub proof fn listed_are_members(&self, at: int)
        requires
            self.wf(),
        ensures
            forall|id: Seq<char>| self.ids_at(at).contains(id) <==> #[trigger] self.holds(id, at),
    {
        let s = self.members.seq();
        entries_map_contains(s);
        assert forall|id: Seq<char>| self.ids_at(at).contains(id) <==> #[trigger] self.holds(
            id,
            at,
        ) by {
            members_among_iff(s, at, s.len() as int, id);
            if self.holds(id, at) {
                let i = choose|i: int| 0 <= i < s.len() && (#[trigger] s[i]).0@ == id;
                assert(any_holds(s[i].1@, at));
            }
            if self.ids_at(at).contains(id) {
                let i = choose|i: int|
                    0 <= i < s.len() && (#[trigger] s[i]).0@ == id && any_holds(s[i].1@, at);
                assert(self@[id] == s[i].1@);
            }
        }
    }

    /// Who is listed is listed once, in id order.
    pub proof fn listed_in_order(&self, at: int)
        requires
            self.wf(),
        ensures
            forall|i: int, j: int|
                #![trigger self.ids_at(at)[i], self.ids_at(at)[j]]
                0 <= i < j < self.ids_at(at).len() ==> text_before(
                    self.ids_at(at)[i],
                    self.ids_at(at)[j],
                ),
    {
        members_in_order(self.members.seq(), at, self.members.seq().len() as int);
    }
}

proof fn members_in_order(entries: Seq<(InstrumentId, Vec<TimeWindow>)>, at: int, n: int)
    requires
        keys_sorted(entries),
        0 <= n <= entries.len(),
    ensures
        ({
            let ids = members_among(entries, at, n);
            &&& forall|i: int, j: int|
                #![trigger ids[i], ids[j]]
                0 <= i < j < ids.len() ==> text_before(ids[i], ids[j])
            &&& forall|i: int, m: int|
                #![trigger ids[i], entries[m]]
                0 <= i < ids.len() && n <= m < entries.len() ==> text_before(
                    ids[i],
                    entries[m].0@,
                )
        }),
    decreases n,
{
    if n > 0 {
        members_in_order(entries, at, n - 1);
        let rest = members_among(entries, at, n - 1);
        let ids = members_among(entries, at, n);
        assert forall|i: int, m: int|
            #![trigger ids[i], entries[m]]
            0 <= i < ids.len() && n <= m < entries.len() implies text_before(
            ids[i],
            entries[m].0@,
        ) by {
            assert(<InstrumentId as OrderedKey>::before(entries[n - 1].0@, entries[m].0@));
            if i < rest.len() {
                assert(ids[i] == rest[i]);
            }
        }
        assert forall|i: int, j: int|
            #![trigger ids[i], ids[j]]
            0 <= i < j < ids.len() implies text_before(ids[i], ids[j]) by {
            assert(ids[i] == rest[i]);
            if j < rest.len() {
                assert(ids[j] == rest[j]);
            } else {
                assert(ids[j] == entries[n - 1].0@);
            }
        }
    }
}

proof fn members_among_iff(
    entries: Seq<(InstrumentId, Vec<TimeWindow>)>,
    at: int,
    n: int,
    id: Seq<char>,
)
    requires
        0 <= n <= entries.len(),
    ensures
        members_among(entries, at, n).contains(id) <==> exists|i: int|
            0 <= i < n && (#[trigger] entries[i]).0@ == id && any_holds(entries[i].1@, at),
    decreases n,
{
    if n > 0 {
        members_among_iff(entries, at, n - 1, id);
        let rest = members_among(entries, at, n - 1);
        if any_holds(entries[n - 1].1@, at) {
            let all = rest.push(entries[n - 1].0@);
            assert(all.last() == entries[n - 1].0@);
            if rest.contains(id) {
                let k = choose|k: int| 0 <= k < rest.len() && rest[k] == id;
                assert(all[k] == id);
            }
            if all.contains(id) {
                let k = choose|k: int| 0 <= k < all.len() && all[k] == id;
                if k < rest.len() {
                    assert(rest[k] == id);
                }
            }
            if entries[n - 1].0@ == id {
                assert(all[rest.len() as int] == id);
            }
        }
    }
}

/// A corporate action makes sense where it splits into something, pays no
/// less than nothing, or ends at no less than nothing.
pub proof fn which_actions_make_sense(action: CorporateAction)
    ensures
        action matches CorporateAction::Split { ratio } ==> (applicable(action) <==> ratio.0 > 0),
        action matches CorporateAction::Dividend { per_share } ==> (applicable(action)
            <==> per_share.0 >= 0),
        action matches CorporateAction::Delist { final_price } ==> (applicable(action)
            <==> final_price.0 >= 0),
{
}

} // verus!
