//! Settlement, applied after the run and only when it was observable.
//!
//! Settlement is **not** an event in the replay stream. It is a policy
//! applied to the result once the run has finished, and it is gated on one
//! question: did the run actually reach the point where the resolution
//! could have been seen? A three-day replay of a six-month market ends with
//! an open position; marking it to the eventual winner books a profit that
//! nobody trading those three days could have collected.
//!
//! Both numbers survive: what the position was worth at the last mark, and
//! what it became at resolution. The difference is reported as an explicit
//! adjustment rather than folded in silently.

use vstd::prelude::*;
use vstd::string::*;

use crate::error::{says, BacktestError};
use crate::instrument::{
    even_shares, even_shares_are_even, even_shares_sum_to_one, price_sum, uniform_prices,
    unknown_outcome, Instrument, InstrumentId, InstrumentSet, OutcomeId,
};
use crate::ledger::{money_less, money_plus};
use crate::market::{key_for, price_at, price_in, Prices};
use crate::ordered::SortedMap;
use crate::position::{
    key_of, open_among, open_profit_follows_the_mark, unrealized_of, value_of, Portfolio, Position,
    PositionKey,
};
use crate::text::{int_text, push_i64, push_u64};
use crate::types::{fixed_text, notional, push_fixed, saturated, Money, Price, Qty, UnixNanos, SCALE};

verus! {

/// What each outcome of a resolved market pays per contract.
///
/// One winner is the common case. A market can also be **voided**: the
/// question turned out to be unanswerable, the venue refunds a complete set
/// at cost, and every outcome pays the same. It can be **split**: a scalar or
/// range market settles between the bounds. Forcing those into a winner is
/// not a rounding error, it is a sign error.
#[derive(PartialEq, Eq, Debug)]
pub enum Payout {
    /// Exactly one outcome pays one; every other pays nothing.
    Winner(OutcomeId),
    /// An explicit payout per outcome, in outcome order, summing to one.
    Split(Vec<Price>),
    /// The market was voided and a complete set refunded at cost, so every
    /// outcome pays the same fraction of one.
    Void { outcomes: u16 },
}

/// A payout as numbers.
pub enum PayoutView {
    Winner(OutcomeId),
    Split(Seq<Price>),
    Void(u16),
}

impl View for Payout {
    type V = PayoutView;

    open spec fn view(&self) -> PayoutView {
        match *self {
            Payout::Winner(outcome) => PayoutView::Winner(outcome),
            Payout::Split(prices) => PayoutView::Split(prices@),
            Payout::Void { outcomes } => PayoutView::Void(outcomes),
        }
    }
}

/// What one contract on an outcome pays. An outcome the payout does not
/// cover pays nothing.
pub open spec fn pays(payout: PayoutView, outcome: OutcomeId) -> Price {
    match payout {
        PayoutView::Winner(winner) => if outcome == winner {
            Price(SCALE)
        } else {
            Price(0)
        },
        PayoutView::Split(prices) => if outcome.0 < prices.len() {
            prices[outcome.0 as int]
        } else {
            Price(0)
        },
        PayoutView::Void(outcomes) => if outcome.0 < outcomes {
            even_shares(outcomes)[outcome.0 as int]
        } else {
            Price(0)
        },
    }
}

/// Whether an outcome pays something else than the first.
pub open spec fn differs_at(prices: Seq<Price>, i: int) -> bool {
    0 <= i < prices.len() && prices[i].0 != prices[0].0
}

/// Whether some outcome pays something else than the first.
pub open spec fn uneven(prices: Seq<Price>) -> bool {
    exists|i: int| #[trigger] differs_at(prices, i)
}

/// Whether a payout tells outcomes apart at all.
pub open spec fn tells_apart(payout: PayoutView) -> bool {
    match payout {
        PayoutView::Winner(_) => true,
        PayoutView::Void(_) => false,
        PayoutView::Split(prices) => uneven(prices),
    }
}

/// The last outcome that pays exactly one.
pub open spec fn last_whole(prices: Seq<Price>) -> Option<OutcomeId>
    decreases prices.len(),
{
    if prices.len() == 0 {
        None
    } else if prices.last().0 == SCALE {
        Some(OutcomeId((prices.len() - 1) as u16))
    } else {
        last_whole(prices.drop_last())
    }
}

/// Whether every payout is all or nothing.
pub open spec fn all_or_nothing(prices: Seq<Price>) -> bool {
    forall|i: int| 0 <= i < prices.len() ==> (#[trigger] prices[i]).0 == SCALE || prices[i].0 == 0
}

/// The outcome that took the whole dollar, when exactly one did.
pub open spec fn sole_winner(payout: PayoutView) -> Option<OutcomeId> {
    match payout {
        PayoutView::Winner(outcome) => Some(outcome),
        PayoutView::Void(_) => None,
        PayoutView::Split(prices) => if all_or_nothing(prices) {
            last_whole(prices)
        } else {
            None
        },
    }
}

/// Whether every payout lies between nothing and one.
pub open spec fn within_one(prices: Seq<Price>) -> bool {
    forall|i: int| 0 <= i < prices.len() ==> 0 <= (#[trigger] prices[i]).0 <= SCALE
}

/// Whether a payout fits a market with a number of outcomes: it covers them
/// all, and pays one on a complete set.
pub open spec fn settles_a_set(payout: PayoutView, outcomes: u16) -> bool {
    match payout {
        PayoutView::Winner(outcome) => outcome.0 < outcomes,
        PayoutView::Split(prices) => prices.len() == outcomes && price_sum(prices) == SCALE,
        PayoutView::Void(n) => n == outcomes && n > 0,
    }
}

/// What each outcome of a market pays, in order.
pub open spec fn set_pays(payout: PayoutView, outcomes: u16) -> Seq<Price> {
    Seq::new(outcomes as nat, |i: int| pays(payout, OutcomeId(i as u16)))
}

/// A complete set settles for exactly one, however the market resolved:
/// settlement neither mints nor burns cash.
pub proof fn a_complete_set_settles_for_one(payout: PayoutView, outcomes: u16)
    requires
        settles_a_set(payout, outcomes),
    ensures
        price_sum(set_pays(payout, outcomes)) == SCALE,
{
    match payout {
        PayoutView::Winner(winner) => {
            winner_takes_all(winner, outcomes, outcomes as int);
            assert(set_pays(payout, outcomes).take(outcomes as int) =~= set_pays(payout, outcomes));
        },
        PayoutView::Split(prices) => {
            assert(set_pays(payout, outcomes) =~= prices);
        },
        PayoutView::Void(n) => {
            assert(set_pays(payout, outcomes) =~= even_shares(n));
            even_shares_sum_to_one(n);
        },
    }
}

proof fn winner_takes_all(winner: OutcomeId, outcomes: u16, n: int)
    requires
        0 <= n <= outcomes,
    ensures
        price_sum(set_pays(PayoutView::Winner(winner), outcomes).take(n)) == (if winner.0 < n {
            SCALE as int
        } else {
            0
        }),
    decreases n,
{
    let all = set_pays(PayoutView::Winner(winner), outcomes);
    if n > 0 {
        winner_takes_all(winner, outcomes, n - 1);
        assert(all.take(n).drop_last() =~= all.take(n - 1));
        assert(all.take(n).last() == pays(PayoutView::Winner(winner), OutcomeId((n - 1) as u16)));
    }
}

fn copy_payouts(prices: &Vec<Price>) -> (r: Vec<Price>)
    ensures
        r@ == prices@,
{
    let mut r: Vec<Price> = Vec::new();
    let mut i: usize = 0;
    while i < prices.len()
        invariant
            i <= prices@.len(),
            r@ == prices@.take(i as int),
        decreases prices@.len() - i,
    {
        r.push(prices[i]);
        assert(prices@.take(i + 1) =~= prices@.take(i as int).push(prices@[i as int]));
        i += 1;
    }
    assert(prices@.take(i as int) =~= prices@);
    r
}

impl Payout {
    /// The payouts as a list, when the payout itself says how many outcomes
    /// there are. `Winner` alone does not.
    fn as_prices(&self) -> (r: Option<Vec<Price>>)
        ensures
            match (self@, r) {
                (PayoutView::Winner(_), _) => r is None,
                (PayoutView::Split(prices), Some(list)) => list@ == prices,
                (PayoutView::Void(n), Some(list)) => n > 0 && list@ == even_shares(n),
                (PayoutView::Void(n), None) => n == 0,
                _ => false,
            },
    {
        match self {
            Payout::Winner(_) => None,
            Payout::Split(prices) => Some(copy_payouts(prices)),
            Payout::Void { outcomes } => match uniform_prices(*outcomes) {
                Ok(prices) => Some(prices),
                Err(_) => None,
            },
        }
    }

    /// Whether this payout distinguishes between outcomes at all.
    ///
    /// A void pays every outcome the same, so a forecast of any probability
    /// scores identically against it: feeding those into a score does not
    /// measure a forecaster, it dilutes whatever the rest measured.
    pub fn is_informative(&self) -> (r: bool)
        ensures
            r == tells_apart(self@),
    {
        match self {
            Payout::Winner(_) => true,
            Payout::Void { .. } => false,
            Payout::Split(prices) => {
                let mut i: usize = 0;
                while i < prices.len()
                    invariant
                        i <= prices@.len(),
                        self@ == PayoutView::Split(prices@),
                        forall|k: int| 0 <= k < i ==> #[trigger] prices@[k] == prices@[0],
                    decreases prices@.len() - i,
                {
                    if prices[i].0 != prices[0].0 {
                        assert(differs_at(prices@, i as int));
                        assert(uneven(prices@));
                        return true;
                    }
                    i += 1;
                }
                false
            },
        }
    }
}

impl Clone for Payout {
    fn clone(&self) -> (r: Self)
        ensures
            r@ == self@,
    {
        match self {
            Payout::Winner(outcome) => Payout::Winner(*outcome),
            Payout::Split(prices) => Payout::Split(copy_payouts(prices)),
            Payout::Void { outcomes } => Payout::Void { outcomes: *outcomes },
        }
    }
}

/// How a market resolved.
#[derive(PartialEq, Eq, Debug)]
pub struct Resolution {
    pub instrument: InstrumentId,
    /// What each outcome pays per contract.
    pub payout: Payout,
    /// The first instant this result could have been observed. Usually the
    /// venue's resolution timestamp, not the event's own date.
    pub observable_at: UnixNanos,
}

/// A resolution with its instrument as characters.
pub struct ResolutionView {
    pub instrument: Seq<char>,
    pub payout: PayoutView,
    pub observable_at: UnixNanos,
}

impl View for Resolution {
    type V = ResolutionView;

    open spec fn view(&self) -> ResolutionView {
        ResolutionView {
            instrument: self.instrument@,
            payout: self.payout@,
            observable_at: self.observable_at,
        }
    }
}

impl Clone for Resolution {
    fn clone(&self) -> (r: Self)
        ensures
            r == (Resolution { payout: r.payout, ..*self }),
            r.payout@ == self.payout@,
    {
        Resolution {
            instrument: self.instrument.clone(),
            payout: self.payout.clone(),
            observable_at: self.observable_at,
        }
    }
}

impl Resolution {
    /// The single-winner case, which is what most markets do.
    pub fn new(instrument: InstrumentId, winner: OutcomeId, observable_at: UnixNanos) -> (r: Self)
        ensures
            r == (Resolution { instrument, payout: Payout::Winner(winner), observable_at }),
    {
        Resolution { instrument, payout: Payout::Winner(winner), observable_at }
    }

    /// An explicit payout per outcome, in outcome order.
    ///
    /// The payouts must sum to exactly one: a set that pays more than a
    /// dollar mints money at settlement and one that pays less burns it.
    pub fn split(instrument: InstrumentId, payouts: Vec<Price>, observable_at: UnixNanos) -> (r:
        Result<Self, BacktestError>)
        ensures
            match r {
                Ok(resolution) => {
                    &&& payouts@.len() >= 2
                    &&& within_one(payouts@)
                    &&& price_sum(payouts@) == SCALE
                    &&& resolution == (Resolution {
                        instrument,
                        payout: Payout::Split(payouts),
                        observable_at,
                    })
                },
                Err(e) => if payouts@.len() < 2 {
                    says(e, "a split resolution needs a payout for every outcome"@)
                } else if !within_one(payouts@) {
                    says(
                        e,
                        "every payout for "@ + instrument@ + " must lie in [0, 1]"@,
                    )
                } else {
                    price_sum(payouts@) != SCALE && says(
                        e,
                        "the payouts for "@ + instrument@ + " sum to "@ + fixed_text(
                            saturated(price_sum(payouts@)),
                        )
                            + " rather than 1; a settlement that does not conserve a complete set mints or burns cash"@,
                    )
                },
            },
    {
        if payouts.len() < 2 {
            return Err(
                BacktestError::invalid("a split resolution needs a payout for every outcome"),
            );
        }
        let mut total: i128 = 0;
        let mut i: usize = 0;
        assert(payouts@.take(0) =~= Seq::<Price>::empty());
        while i < payouts.len()
            invariant
                2 <= payouts@.len(),
                i <= payouts@.len(),
                total == price_sum(payouts@.take(i as int)),
                0 <= total <= i * SCALE,
                forall|k: int|
                    0 <= k < i ==> 0 <= (#[trigger] payouts@[k]).0 <= SCALE,
            decreases payouts@.len() - i,
        {
            let price = payouts[i];
            if price.0 < 0 || price.0 > SCALE {
                assert(!within_one(payouts@)) by {
                    assert(payouts@[i as int] == price);
                }
                let mut m = "every payout for ".to_owned();
                m.append(instrument.as_str());
                m.append(" must lie in [0, 1]");
                return Err(BacktestError::invalid(m.as_str()));
            }
            proof {
                assert(payouts@.take(i + 1).drop_last() =~= payouts@.take(i as int));
                assert((i + 1) * SCALE == i * SCALE + SCALE) by (nonlinear_arith);
                assert(i * SCALE <= usize::MAX * SCALE) by (nonlinear_arith)
                    requires
                        i <= usize::MAX,
                ;
            }
            total = total + price.0 as i128;
            i += 1;
        }
        assert(payouts@.take(i as int) =~= payouts@);
        if total != SCALE as i128 {
            let shown: i64 = if total > i64::MAX as i128 {
                i64::MAX
            } else {
                total as i64
            };
            let mut m = "the payouts for ".to_owned();
            m.append(instrument.as_str());
            m.append(" sum to ");
            push_fixed(&mut m, shown);
            m.append(
                " rather than 1; a settlement that does not conserve a complete set mints or burns cash",
            );
            return Err(BacktestError::invalid(m.as_str()));
        }
        Ok(Resolution { instrument, payout: Payout::Split(payouts), observable_at })
    }

    /// A voided market: a complete set refunds at cost, split evenly.
    pub fn void(instrument: InstrumentId, outcomes: u16, observable_at: UnixNanos) -> (r: Result<
        Self,
        BacktestError,
    >)
        ensures
            match r {
                Ok(resolution) => outcomes >= 2 && resolution == (Resolution {
                    instrument,
                    payout: Payout::Void { outcomes },
                    observable_at,
                }),
                Err(e) => outcomes < 2 && says(e, "a voided market needs at least two outcomes"@),
            },
    {
        if outcomes < 2 {
            return Err(BacktestError::invalid("a voided market needs at least two outcomes"));
        }
        Ok(Resolution { instrument, payout: Payout::Void { outcomes }, observable_at })
    }

    /// The outcome that took the whole dollar, when exactly one did.
    pub fn winner(&self) -> (r: Option<OutcomeId>)
        ensures
            r == sole_winner(self.payout@),
    {
        match &self.payout {
            Payout::Winner(outcome) => Some(*outcome),
            Payout::Void { .. } => None,
            Payout::Split(prices) => {
                let mut winner: Option<OutcomeId> = None;
                let mut i: usize = 0;
                assert(prices@.take(0) =~= Seq::<Price>::empty());
                while i < prices.len()
                    invariant
                        i <= prices@.len(),
                        self.payout@ == PayoutView::Split(prices@),
                        forall|k: int|
                            0 <= k < i ==> (#[trigger] prices@[k]).0 == SCALE || prices@[k].0 == 0,
                        winner == last_whole(prices@.take(i as int)),
                    decreases prices@.len() - i,
                {
                    proof {
                        assert(prices@.take(i + 1).drop_last() =~= prices@.take(i as int));
                        assert(prices@.take(i + 1).last() == prices@[i as int]);
                    }
                    if prices[i].0 == SCALE {
                        winner = Some(OutcomeId(i as u16));
                    } else if prices[i].0 != 0 {
                        assert(!all_or_nothing(prices@)) by {
                            assert(prices@[i as int].0 != 0);
                        }
                        return None;
                    }
                    i += 1;
                }
                assert(prices@.take(i as int) =~= prices@);
                winner
            },
        }
    }

    /// What one contract on `outcome` pays.
    ///
    /// An outcome outside the resolved set pays nothing rather than
    /// erroring, so a position in an outcome the resolution never mentions
    /// settles worthless rather than stalling the whole report.
    pub fn settlement_price(&self, outcome: OutcomeId) -> (r: Price)
        ensures
            r == pays(self.payout@, outcome),
    {
        match &self.payout {
            Payout::Winner(winner) => {
                if outcome == *winner {
                    Price(SCALE)
                } else {
                    Price(0)
                }
            },
            Payout::Split(prices) => {
                let i: usize = outcome.0 as usize;
                if i < prices.len() {
                    prices[i]
                } else {
                    Price(0)
                }
            },
            Payout::Void { outcomes } => match uniform_prices(*outcomes) {
                Ok(prices) => {
                    let i: usize = outcome.0 as usize;
                    if i < prices.len() {
                        prices[i]
                    } else {
                        Price(0)
                    }
                },
                Err(_) => Price(0),
            },
        }
    }

    /// Whether a resolution agrees with a market on how many outcomes there
    /// are.
    pub open spec fn fits_market(&self, instrument: Instrument) -> bool {
        match self.payout@ {
            PayoutView::Winner(winner) => winner.0 < instrument.outcomes@.len(),
            PayoutView::Split(prices) => prices.len() == instrument.count(),
            PayoutView::Void(n) => n == instrument.count(),
        }
    }

    /// What is said of a resolution that does not agree with its market.
    pub open spec fn misfit(&self, instrument: Instrument, e: BacktestError) -> bool {
        match self.payout@ {
            PayoutView::Winner(winner) => unknown_outcome(
                e,
                instrument.id@,
                winner,
                instrument.count(),
            ),
            PayoutView::Split(prices) => says(
                e,
                instrument.id@ + " has "@ + int_text(instrument.count() as int)
                    + " outcomes but its resolution supplies "@ + int_text(prices.len() as int)
                    + " payouts"@,
            ),
            PayoutView::Void(n) => says(
                e,
                instrument.id@ + " has "@ + int_text(instrument.count() as int)
                    + " outcomes but its void resolution names "@ + int_text(n as int),
            ),
        }
    }

    /// Check this resolution against the market it claims to resolve.
    ///
    /// A payout list of the wrong length, or a winner that is not an outcome
    /// of the market, is a mapping mistake. Settling on it would silently pay
    /// the wrong leg, so it is refused where the instrument is known.
    pub fn validate(&self, instrument: &Instrument) -> (r: Result<(), BacktestError>)
        ensures
            match r {
                Ok(_) => self.fits_market(*instrument),
                Err(e) => !self.fits_market(*instrument) && self.misfit(*instrument, e),
            },
    {
        let expected: u16 = instrument.outcome_count();
        match &self.payout {
            Payout::Winner(winner) => instrument.check_outcome(*winner),
            Payout::Split(prices) => {
                if prices.len() != expected as usize {
                    let mut m = instrument.id.as_str().to_owned();
                    m.append(" has ");
                    push_u64(&mut m, expected as u64);
                    m.append(" outcomes but its resolution supplies ");
                    push_u64(&mut m, prices.len() as u64);
                    m.append(" payouts");
                    return Err(BacktestError::invalid(m.as_str()));
                }
                Ok(())
            },
            Payout::Void { outcomes } => {
                if *outcomes != expected {
                    let mut m = instrument.id.as_str().to_owned();
                    m.append(" has ");
                    push_u64(&mut m, expected as u64);
                    m.append(" outcomes but its void resolution names ");
                    push_u64(&mut m, *outcomes as u64);
                    return Err(BacktestError::invalid(m.as_str()));
                }
                Ok(())
            },
        }
    }

    /// Payouts as a list when the resolution knows how many outcomes there
    /// are.
    pub fn payouts(&self) -> (r: Option<Vec<Price>>)
        ensures
            match (self.payout@, r) {
                (PayoutView::Winner(_), _) => r is None,
                (PayoutView::Split(prices), Some(list)) => list@ == prices,
                (PayoutView::Void(n), Some(list)) => n > 0 && list@ == even_shares(n),
                (PayoutView::Void(n), None) => n == 0,
                _ => false,
            },
    {
        self.payout.as_prices()
    }
}

/// What settlement did to one position.
#[derive(PartialEq, Eq, Debug)]
pub struct PositionSettlement {
    pub instrument: InstrumentId,
    pub outcome: OutcomeId,
    pub quantity: Qty,
    /// Value of the open position at the last mark, if there was one.
    pub market_exit_pnl: Option<Money>,
    /// Value at the resolution price.
    pub settled_pnl: Money,
    /// `settled_pnl - market_exit_pnl`, the explicit delta.
    pub adjustment: Money,
}

/// The result of applying settlement to a finished run.
#[derive(PartialEq, Eq, Debug)]
pub struct SettlementReport {
    pub settled: Vec<PositionSettlement>,
    /// Positions left open because settlement was not observable, each with
    /// the reason.
    pub unsettled: Vec<(InstrumentId, OutcomeId, String)>,
    /// Total cash adjustment settlement introduced.
    pub total_adjustment: Money,
}

/// What became of one open position.
pub enum Fate {
    Settled(PositionSettlement),
    Open(Seq<char>),
}

/// A report as it stands: what settled, what stayed open and why, and the
/// total adjustment.
pub struct ReportView {
    pub settled: Seq<PositionSettlement>,
    pub unsettled: Seq<(InstrumentId, OutcomeId, Seq<char>)>,
    pub total: Money,
}

impl View for SettlementReport {
    type V = ReportView;

    open spec fn view(&self) -> ReportView {
        ReportView {
            settled: self.settled@,
            unsettled: self.unsettled@.map_values(
                |u: (InstrumentId, OutcomeId, String)| (u.0, u.1, u.2@),
            ),
            total: self.total_adjustment,
        }
    }
}

/// What a warning says of a position left open.
pub open spec fn unsettled_text(u: (InstrumentId, OutcomeId, String)) -> Seq<char> {
    u.0@ + " outcome "@ + int_text(u.1.0 as int) + " left unsettled: "@ + u.2@
}

impl Default for SettlementReport {
    fn default() -> (r: Self)
        ensures
            r@ == empty_report(),
    {
        let r = SettlementReport {
            settled: Vec::new(),
            unsettled: Vec::new(),
            total_adjustment: Money(0),
        };
        assert(r@.unsettled =~= Seq::<(InstrumentId, OutcomeId, Seq<char>)>::empty());
        r
    }
}

impl SettlementReport {
    pub fn was_applied(&self) -> (r: bool)
        ensures
            r == (self.settled@.len() > 0),
    {
        self.settled.len() > 0
    }

    /// Warnings a report must carry, so a run whose settlement was skipped
    /// cannot be read as one where nothing was open.
    pub fn warnings(&self) -> (out: Vec<String>)
        ensures
            out@.len() == self.unsettled@.len(),
            forall|i: int|
                0 <= i < out@.len() ==> (#[trigger] out@[i])@ == unsettled_text(self.unsettled@[i]),
    {
        let mut out: Vec<String> = Vec::new();
        let mut i: usize = 0;
        while i < self.unsettled.len()
            invariant
                i <= self.unsettled@.len(),
                out@.len() == i,
                forall|k: int|
                    0 <= k < i ==> (#[trigger] out@[k])@ == unsettled_text(self.unsettled@[k]),
            decreases self.unsettled@.len() - i,
        {
            let mut m = self.unsettled[i].0.as_str().to_owned();
            m.append(" outcome ");
            push_u64(&mut m, self.unsettled[i].1.0 as u64);
            m.append(" left unsettled: ");
            m.append(self.unsettled[i].2.as_str());
            out.push(m);
            i += 1;
        }
        out
    }
}

/// The place of the resolution of one market in a list.
pub open spec fn resolution_for(resolutions: Seq<Resolution>, instrument: Seq<char>) -> Option<int>
    decreases resolutions.len(),
{
    if resolutions.len() == 0 {
        None
    } else {
        match resolution_for(resolutions.drop_last(), instrument) {
            Some(i) => Some(i),
            None => if resolutions.last().instrument@ == instrument {
                Some(resolutions.len() - 1)
            } else {
                None
            },
        }
    }
}

proof fn resolution_found(resolutions: Seq<Resolution>, instrument: Seq<char>)
    ensures
        match resolution_for(resolutions, instrument) {
            Some(i) => 0 <= i < resolutions.len() && resolutions[i].instrument@ == instrument
                && forall|k: int|
                0 <= k < i ==> (#[trigger] resolutions[k]).instrument@ != instrument,
            None => forall|k: int|
                0 <= k < resolutions.len() ==> (#[trigger] resolutions[k]).instrument@
                    != instrument,
        },
    decreases resolutions.len(),
{
    if resolutions.len() > 0 {
        let head = resolutions.drop_last();
        resolution_found(head, instrument);
        match resolution_for(head, instrument) {
            Some(i) => {
                assert(head[i] == resolutions[i]);
                assert forall|k: int| 0 <= k < i implies (#[trigger] resolutions[k]).instrument@
                    != instrument by {
                    assert(head[k] == resolutions[k]);
                }
            },
            None => {
                assert forall|k: int| 0 <= k < head.len() implies (
                #[trigger] resolutions[k]).instrument@ != instrument by {
                    assert(head[k] == resolutions[k]);
                }
            },
        }
    }
}

/// Whether a market is resolved twice, for the first time, at a place in a
/// list.
pub open spec fn repeats_at(resolutions: Seq<Resolution>, j: int) -> bool {
    &&& 0 <= j < resolutions.len()
    &&& resolution_for(resolutions.take(j), resolutions[j].instrument@) is Some
    &&& forall|k: int|
        0 <= k < j ==> resolution_for(
            resolutions.take(k),
            (#[trigger] resolutions[k]).instrument@,
        ) is None
}

/// Whether no market is resolved twice.
pub open spec fn resolved_once(resolutions: Seq<Resolution>) -> bool {
    forall|k: int|
        0 <= k < resolutions.len() ==> resolution_for(
            resolutions.take(k),
            (#[trigger] resolutions[k]).instrument@,
        ) is None
}

/// Why a resolution the run did not reach is not booked.
pub open spec fn too_early_text(through: UnixNanos, observable_at: UnixNanos) -> Seq<char> {
    "the run simulated through "@ + int_text(through.0 as int) + " but this market resolved at "@
        + int_text(observable_at.0 as int)
        + "; booking it would be profit nobody trading this window could have collected"@
}

/// What settling a position books.
pub open spec fn settled_at(p: Position, price: Price, mark: Option<Price>) -> Result<
    PositionSettlement,
    BacktestError,
> {
    match unrealized_of(p, price) {
        Err(e) => Err(e),
        Ok(settled_pnl) => match mark {
            None => Ok(
                PositionSettlement {
                    instrument: p.instrument,
                    outcome: p.outcome,
                    quantity: p.quantity,
                    market_exit_pnl: None,
                    settled_pnl,
                    adjustment: settled_pnl,
                },
            ),
            Some(mark) => match unrealized_of(p, mark) {
                Err(e) => Err(e),
                Ok(exit) => match money_less(settled_pnl, exit) {
                    Err(e) => Err(e),
                    Ok(adjustment) => Ok(
                        PositionSettlement {
                            instrument: p.instrument,
                            outcome: p.outcome,
                            quantity: p.quantity,
                            market_exit_pnl: Some(exit),
                            settled_pnl,
                            adjustment,
                        },
                    ),
                },
            },
        },
    }
}

/// What becomes of an open position at the end of a run.
pub open spec fn fate_of(
    p: Position,
    resolutions: Seq<Resolution>,
    through: Option<UnixNanos>,
    marks: Prices,
) -> Result<Fate, BacktestError> {
    match resolution_for(resolutions, p.instrument@) {
        None => Ok(Fate::Open("no resolution is known for this market"@)),
        Some(i) => match through {
            None => Ok(Fate::Open("the run did not record how far it simulated"@)),
            Some(reached) => if reached.0 < resolutions[i].observable_at.0 {
                Ok(Fate::Open(too_early_text(reached, resolutions[i].observable_at)))
            } else {
                match settled_at(
                    p,
                    pays(resolutions[i].payout@, p.outcome),
                    price_in(marks, key_of(p)),
                ) {
                    Err(e) => Err(e),
                    Ok(s) => Ok(Fate::Settled(s)),
                }
            },
        },
    }
}

pub open spec fn empty_report() -> ReportView {
    ReportView { settled: Seq::empty(), unsettled: Seq::empty(), total: Money(0) }
}

/// A report with one more position dealt with.
pub open spec fn reported(report: ReportView, p: Position, fate: Fate) -> Result<
    ReportView,
    BacktestError,
> {
    match fate {
        Fate::Open(reason) => Ok(
            ReportView {
                unsettled: report.unsettled.push((p.instrument, p.outcome, reason)),
                ..report
            },
        ),
        Fate::Settled(s) => match money_plus(report.total, s.adjustment) {
            Err(e) => Err(e),
            Ok(total) => Ok(ReportView { settled: report.settled.push(s), total, ..report }),
        },
    }
}

/// What settling a list of open positions comes to.
pub open spec fn settlement_of(
    positions: Seq<Position>,
    resolutions: Seq<Resolution>,
    through: Option<UnixNanos>,
    marks: Prices,
) -> Result<ReportView, BacktestError>
    decreases positions.len(),
{
    if positions.len() == 0 {
        Ok(empty_report())
    } else {
        match settlement_of(positions.drop_last(), resolutions, through, marks) {
            Err(e) => Err(e),
            Ok(report) => match fate_of(positions.last(), resolutions, through, marks) {
                Err(e) => Err(e),
                Ok(fate) => reported(report, positions.last(), fate),
            },
        }
    }
}

proof fn settlement_stops(
    positions: Seq<Position>,
    n: int,
    resolutions: Seq<Resolution>,
    through: Option<UnixNanos>,
    marks: Prices,
)
    requires
        0 <= n <= positions.len(),
        settlement_of(positions.take(n), resolutions, through, marks) is Err,
    ensures
        settlement_of(positions, resolutions, through, marks) == settlement_of(
            positions.take(n),
            resolutions,
            through,
            marks,
        ),
    decreases positions.len() - n,
{
    if n < positions.len() {
        assert(positions.take(n + 1).drop_last() =~= positions.take(n));
        settlement_stops(positions, n + 1, resolutions, through, marks);
    } else {
        assert(positions.take(n) =~= positions);
    }
}

/// Nothing settles that the run did not live to see: a position settles only
/// where its market is resolved and the run reached the instant that could
/// be observed.
pub proof fn only_the_observable_settles(
    p: Position,
    resolutions: Seq<Resolution>,
    through: Option<UnixNanos>,
    marks: Prices,
)
    ensures
        fate_of(p, resolutions, through, marks) matches Ok(Fate::Settled(s)) ==> {
            &&& resolution_for(resolutions, p.instrument@) matches Some(i) && 0 <= i
                < resolutions.len() && resolutions[i].instrument@ == p.instrument@ && (
            through matches Some(reached) && resolutions[i].observable_at.0 <= reached.0)
        },
{
    resolution_found(resolutions, p.instrument@);
}

/// The adjustments of a list of settlements, together.
pub open spec fn adjustment_sum(settled: Seq<PositionSettlement>) -> int
    decreases settled.len(),
{
    if settled.len() == 0 {
        0
    } else {
        adjustment_sum(settled.drop_last()) + settled.last().adjustment.0
    }
}

/// Every adjustment is the settled value less what the last mark showed, and
/// the total is their sum: nothing settlement did to the result is folded in
/// silently. And every open position is accounted for once.
pub proof fn adjustments_are_explicit(
    positions: Seq<Position>,
    resolutions: Seq<Resolution>,
    through: Option<UnixNanos>,
    marks: Prices,
)
    ensures
        settlement_of(positions, resolutions, through, marks) matches Ok(report) ==> {
            &&& report.total.0 == adjustment_sum(report.settled)
            &&& report.settled.len() + report.unsettled.len() == positions.len()
            &&& forall|i: int|
                0 <= i < report.settled.len() ==> (#[trigger] report.settled[i]).adjustment.0
                    == report.settled[i].settled_pnl.0 - (match report.settled[i].market_exit_pnl {
                    Some(exit) => exit.0 as int,
                    None => 0,
                })
        },
    decreases positions.len(),
{
    if positions.len() > 0 {
        adjustments_are_explicit(positions.drop_last(), resolutions, through, marks);
        if let Ok(report) = settlement_of(positions, resolutions, through, marks) {
            let before = settlement_of(positions.drop_last(), resolutions, through, marks)->Ok_0;
            match fate_of(positions.last(), resolutions, through, marks)->Ok_0 {
                Fate::Open(_) => {},
                Fate::Settled(s) => {
                    assert(report.settled.drop_last() =~= before.settled);
                    assert forall|i: int| 0 <= i < report.settled.len() implies (
                    #[trigger] report.settled[i]).adjustment.0 == report.settled[i].settled_pnl.0
                        - (match report.settled[i].market_exit_pnl {
                        Some(exit) => exit.0 as int,
                        None => 0,
                    }) by {
                        if i < before.settled.len() {
                            assert(report.settled[i] == before.settled[i]);
                        }
                    }
                },
            }
        }
    }
}

fn find_resolution(resolutions: &[Resolution], instrument: &InstrumentId, n: usize) -> (r: Option<
    usize,
>)
    requires
        n <= resolutions@.len(),
    ensures
        match r {
            Some(i) => i < n && resolution_for(resolutions@.take(n as int), instrument@) == Some(
                i as int,
            ),
            None => resolution_for(resolutions@.take(n as int), instrument@) is None,
        },
{
    let mut i: usize = 0;
    assert(resolutions@.take(0) =~= Seq::<Resolution>::empty());
    while i < n
        invariant
            i <= n,
            n <= resolutions@.len(),
            resolution_for(resolutions@.take(i as int), instrument@) is None,
        decreases n - i,
    {
        proof {
            assert(resolutions@.take(i + 1).drop_last() =~= resolutions@.take(i as int));
            assert(resolutions@.take(i + 1).last() == resolutions@[i as int]);
        }
        if resolutions[i].instrument == *instrument {
            proof {
                found_early(resolutions@.take(n as int), i + 1, instrument@);
                assert(resolutions@.take(n as int).take(i + 1) =~= resolutions@.take(i + 1));
            }
            return Some(i);
        }
        i += 1;
    }
    None
}

proof fn found_early(resolutions: Seq<Resolution>, n: int, instrument: Seq<char>)
    requires
        0 <= n <= resolutions.len(),
    ensures
        resolution_for(resolutions.take(n), instrument) matches Some(i) ==> resolution_for(
            resolutions,
            instrument,
        ) == Some(i),
    decreases resolutions.len() - n,
{
    if n < resolutions.len() {
        assert(resolutions.take(n + 1).drop_last() =~= resolutions.take(n));
        found_early(resolutions, n + 1, instrument);
    } else {
        assert(resolutions.take(n) =~= resolutions);
    }
}

/// Apply settlement to the open positions of a finished run.
///
/// `simulated_through` is the last instant the run actually replayed, not
/// the window that was requested. A run that stopped early because its data
/// ran out settles nothing that happened after it stopped.
pub fn settle(
    portfolio: &Portfolio,
    resolutions: &[Resolution],
    simulated_through: Option<UnixNanos>,
    marks: &SortedMap<PositionKey, Price>,
) -> (r: Result<SettlementReport, BacktestError>)
    requires
        marks.wf(),
    ensures
        match r {
            Ok(report) => {
                &&& resolved_once(resolutions@)
                &&& settlement_of(
                    open_among(portfolio.listed()),
                    resolutions@,
                    simulated_through,
                    marks@,
                ) == Ok::<ReportView, BacktestError>(report@)
            },
            Err(e) => if resolved_once(resolutions@) {
                settlement_of(
                    open_among(portfolio.listed()),
                    resolutions@,
                    simulated_through,
                    marks@,
                ) == Err::<ReportView, BacktestError>(e)
            } else {
                exists|j: int| #[trigger]
                    repeats_at(resolutions@, j) && says(
                        e,
                        "two resolutions supplied for "@ + resolutions@[j].instrument@,
                    )
            },
        },
{
    let mut k: usize = 0;
    while k < resolutions.len()
        invariant
            k <= resolutions@.len(),
            forall|m: int|
                0 <= m < k ==> resolution_for(
                    resolutions@.take(m),
                    (#[trigger] resolutions@[m]).instrument@,
                ) is None,
        decreases resolutions@.len() - k,
    {
        if let Some(_) = find_resolution(resolutions, &resolutions[k].instrument, k) {
            assert(repeats_at(resolutions@, k as int));
            assert(!resolved_once(resolutions@)) by {
                assert(resolution_for(
                    resolutions@.take(k as int),
                    resolutions@[k as int].instrument@,
                ) is Some);
            }
            let mut m = "two resolutions supplied for ".to_owned();
            m.append(resolutions[k].instrument.as_str());
            return Err(BacktestError::invalid(m.as_str()));
        }
        k += 1;
    }
    let open = portfolio.open_positions();
    let ghost positions = open_among(portfolio.listed());
    let mut report = SettlementReport::default();
    let mut i: usize = 0;
    assert(positions.take(0) =~= Seq::<Position>::empty());
    while i < open.len()
        invariant
            i <= open@.len(),
            marks.wf(),
            resolved_once(resolutions@),
            positions == open_among(portfolio.listed()),
            open@.len() == positions.len(),
            forall|m: int| 0 <= m < open@.len() ==> *(#[trigger] open@[m]) == positions[m],
            settlement_of(positions.take(i as int), resolutions@, simulated_through, marks@)
                == Ok::<ReportView, BacktestError>(report@),
        decreases open@.len() - i,
    {
        let position = open[i];
        let ghost before = report@;
        proof {
            assert(positions.take(i + 1).drop_last() =~= positions.take(i as int));
            assert(positions.take(i + 1).last() == *position);
            assert(resolutions@.take(resolutions@.len() as int) =~= resolutions@);
        }
        let fate = position_fate(position, resolutions, simulated_through, marks);
        match fate {
            Err(e) => {
                proof {
                    settlement_stops(positions, i + 1, resolutions@, simulated_through, marks@);
                }
                return Err(e);
            },
            Ok(Ok(settled)) => {
                match report.total_adjustment.checked_add(settled.adjustment) {
                    Err(e) => {
                        proof {
                            settlement_stops(
                                positions,
                                i + 1,
                                resolutions@,
                                simulated_through,
                                marks@,
                            );
                        }
                        return Err(e);
                    },
                    Ok(total) => {
                        report.total_adjustment = total;
                        report.settled.push(settled);
                    },
                }
            },
            Ok(Err(reason)) => {
                let ghost said = reason@;
                report.unsettled.push((position.instrument.clone(), position.outcome, reason));
                proof {
                    assert(report@.unsettled =~= before.unsettled.push(
                        (position.instrument, position.outcome, said),
                    ));
                }
            },
        }
        i += 1;
    }
    assert(positions.take(i as int) =~= positions);
    Ok(report)
}

/// What becomes of one open position: what settling it books, or why it
/// stays open.
fn position_fate(
    position: &Position,
    resolutions: &[Resolution],
    simulated_through: Option<UnixNanos>,
    marks: &SortedMap<PositionKey, Price>,
) -> (r: Result<Result<PositionSettlement, String>, BacktestError>)
    requires
        marks.wf(),
    ensures
        match r {
            Err(e) => fate_of(*position, resolutions@, simulated_through, marks@) == Err::<
                Fate,
                BacktestError,
            >(e),
            Ok(Ok(s)) => fate_of(*position, resolutions@, simulated_through, marks@) == Ok::<
                Fate,
                BacktestError,
            >(Fate::Settled(s)),
            Ok(Err(reason)) => fate_of(*position, resolutions@, simulated_through, marks@) == Ok::<
                Fate,
                BacktestError,
            >(Fate::Open(reason@)),
        },
{
    assert(resolutions@.take(resolutions@.len() as int) =~= resolutions@);
    let found = match find_resolution(resolutions, &position.instrument, resolutions.len()) {
        Some(i) => i,
        None => {
            return Ok(Err("no resolution is known for this market".to_owned()));
        },
    };
    let resolution = &resolutions[found];
    let through = match simulated_through {
        Some(through) => through,
        None => {
            return Ok(Err("the run did not record how far it simulated".to_owned()));
        },
    };
    if through.0 < resolution.observable_at.0 {
        let mut m = "the run simulated through ".to_owned();
        push_i64(&mut m, through.0);
        m.append(" but this market resolved at ");
        push_i64(&mut m, resolution.observable_at.0);
        m.append("; booking it would be profit nobody trading this window could have collected");
        return Ok(Err(m));
    }
    let price = resolution.settlement_price(position.outcome);
    let settled_pnl = position.unrealized_pnl(price)?;
    let mark = price_at(marks, &key_for(&position.instrument, position.outcome));
    let (market_exit_pnl, adjustment) = match mark {
        Some(mark) => {
            let exit = position.unrealized_pnl(mark)?;
            let adjustment = settled_pnl.checked_sub(exit)?;
            (Some(exit), adjustment)
        },
        None => (None, settled_pnl),
    };
    Ok(
        Ok(
            PositionSettlement {
                instrument: position.instrument.clone(),
                outcome: position.outcome,
                quantity: position.quantity,
                market_exit_pnl,
                settled_pnl,
                adjustment,
            },
        ),
    )
}

/// Cash a settled position pays out: `quantity * settlement price`.
pub fn settlement_proceeds(quantity: Qty, settlement_price: Price) -> (r: Result<
    Money,
    BacktestError,
>)
    ensures
        r == value_of(settlement_price.0 as int, quantity.0 as int),
{
    notional(settlement_price, quantity)
}

/// Whether a resolution disagrees with a market it names.
pub open spec fn disagrees(instruments: Map<Seq<char>, Instrument>, resolution: Resolution) -> bool {
    instruments.dom().contains(resolution.instrument@) && !resolution.fits_market(
        instruments[resolution.instrument@],
    )
}

/// Whether the first disagreement in a list is at a place.
pub open spec fn first_disagreement(
    instruments: Map<Seq<char>, Instrument>,
    resolutions: Seq<Resolution>,
    j: int,
) -> bool {
    &&& 0 <= j < resolutions.len()
    &&& disagrees(instruments, resolutions[j])
    &&& forall|k: int| 0 <= k < j ==> !disagrees(instruments, #[trigger] resolutions[k])
}

/// Check every resolution against the market it resolves.
///
/// Run before settlement, where the instruments are known. A resolution for
/// a market this run never loaded is not an error, but one that disagrees
/// with a market it *does* name is, because settling on it pays the wrong
/// leg.
pub fn validate_resolutions(resolutions: &[Resolution], instruments: &InstrumentSet) -> (r: Result<
    (),
    BacktestError,
>)
    requires
        instruments.wf(),
    ensures
        match r {
            Ok(_) => forall|k: int|
                0 <= k < resolutions@.len() ==> !disagrees(
                    instruments@,
                    #[trigger] resolutions@[k],
                ),
            Err(e) => exists|j: int| #[trigger]
                first_disagreement(instruments@, resolutions@, j) && resolutions@[j].misfit(
                    instruments@[resolutions@[j].instrument@],
                    e,
                ),
        },
{
    let mut i: usize = 0;
    while i < resolutions.len()
        invariant
            i <= resolutions@.len(),
            instruments.wf(),
            forall|k: int|
                0 <= k < i ==> !disagrees(instruments@, #[trigger] resolutions@[k]),
        decreases resolutions@.len() - i,
    {
        if let Ok(instrument) = instruments.get(&resolutions[i].instrument) {
            if let Err(e) = resolutions[i].validate(instrument) {
                assert(first_disagreement(instruments@, resolutions@, i as int));
                return Err(e);
            }
        }
        i += 1;
    }
    Ok(())
}

/// What a payout pays: a winner takes the whole unit and no other outcome
/// anything, a split pays each outcome what it says, and a void one divides
/// the unit evenly, to within a raw unit. An outcome the payout does not know
/// is paid nothing.
pub proof fn what_a_payout_pays(payout: PayoutView, outcome: OutcomeId)
    ensures
        payout matches PayoutView::Winner(winner) ==> {
            &&& outcome == winner ==> pays(payout, outcome).0 == 1_000_000_000
            &&& outcome != winner ==> pays(payout, outcome).0 == 0
        },
        payout matches PayoutView::Split(prices) ==> {
            &&& outcome.0 < prices.len() ==> pays(payout, outcome) == prices[outcome.0 as int]
            &&& outcome.0 >= prices.len() ==> pays(payout, outcome).0 == 0
        },
        payout matches PayoutView::Void(n) ==> {
            &&& outcome.0 < n ==> 1_000_000_000 - n < pays(payout, outcome).0 * n < 1_000_000_000
                + n
            &&& outcome.0 >= n ==> pays(payout, outcome).0 == 0
        },
{
    if let PayoutView::Void(n) = payout {
        if outcome.0 < n {
            even_shares_are_even(n, outcome.0 as int, outcome.0 as int);
        }
    }
}

/// Settling books what the held quantity gains from its average price to the
/// payout, and shows beside it what it would have gained to the last mark,
/// each to within half a raw unit.
pub proof fn settling_books_the_payout(p: Position, price: Price, mark: Option<Price>)
    ensures
        settled_at(p, price, mark) matches Ok(s) ==> {
            &&& s.instrument == p.instrument
            &&& s.outcome == p.outcome
            &&& s.quantity == p.quantity
            &&& -SCALE <= 2 * (s.settled_pnl.0 * SCALE - (price.0 - p.average_price.0)
                * p.quantity.0) <= SCALE
            &&& s.market_exit_pnl is Some <==> mark is Some
            &&& mark matches Some(m) ==> -SCALE <= 2 * (s.market_exit_pnl->Some_0.0 * SCALE - (m.0
                - p.average_price.0) * p.quantity.0) <= SCALE
        },
{
    open_profit_follows_the_mark(p, price);
    if let Some(m) = mark {
        open_profit_follows_the_mark(p, m);
    }
}

/// The resolution of a market is the first in a list that names it, and there
/// is one wherever any does.
pub proof fn the_first_resolution_counts(resolutions: Seq<Resolution>, instrument: Seq<char>)
    ensures
        resolution_for(resolutions, instrument) matches Some(i) ==> {
            &&& 0 <= i < resolutions.len()
            &&& resolutions[i].instrument@ == instrument
            &&& forall|k: int| 0 <= k < i ==> (#[trigger] resolutions[k]).instrument@ != instrument
        },
        resolution_for(resolutions, instrument) is None ==> forall|k: int|
            0 <= k < resolutions.len() ==> (#[trigger] resolutions[k]).instrument@ != instrument,
    decreases resolutions.len(),
{
    if resolutions.len() > 0 {
        let head = resolutions.drop_last();
        the_first_resolution_counts(head, instrument);
        match resolution_for(head, instrument) {
            Some(i) => {
                assert(head[i] == resolutions[i]);
                assert forall|k: int| 0 <= k < i implies (#[trigger] resolutions[k]).instrument@
                    != instrument by {
                    assert(head[k] == resolutions[k]);
                }
            },
            None => {
                assert forall|k: int| 0 <= k < head.len() implies (
                #[trigger] resolutions[k]).instrument@ != instrument by {
                    assert(head[k] == resolutions[k]);
                }
            },
        }
    }
}

/// Whatever the run lived to see settles: a position whose market has a
/// resolution that could be observed by then is never left open, and any
/// other is.
pub proof fn everything_observable_settles(
    p: Position,
    resolutions: Seq<Resolution>,
    reached: UnixNanos,
    marks: Prices,
    i: int,
)
    requires
        0 <= i < resolutions.len(),
        resolutions[i].instrument@ == p.instrument@,
        forall|k: int| 0 <= k < i ==> (#[trigger] resolutions[k]).instrument@ != p.instrument@,
    ensures
        resolutions[i].observable_at.0 <= reached.0 ==> !(fate_of(
            p,
            resolutions,
            Some(reached),
            marks,
        ) matches Ok(Fate::Open(_))),
        resolutions[i].observable_at.0 > reached.0 ==> fate_of(
            p,
            resolutions,
            Some(reached),
            marks,
        ) matches Ok(Fate::Open(_)),
        fate_of(p, resolutions, None, marks) matches Ok(Fate::Open(_)),
        fate_of(p, resolutions, Some(reached), marks) matches Ok(Fate::Settled(s)) ==> -SCALE <= 2
            * (s.settled_pnl.0 * SCALE - (pays(resolutions[i].payout@, p.outcome).0
            - p.average_price.0) * p.quantity.0) <= SCALE,
{
    the_first_resolution_counts(resolutions, p.instrument@);
    let j = resolution_for(resolutions, p.instrument@)->Some_0;
    if j < i {
        assert(resolutions[j].instrument@ != p.instrument@);
    } else if i < j {
        assert(resolutions[i].instrument@ != p.instrument@);
    }
    settling_books_the_payout(
        p,
        pays(resolutions[i].payout@, p.outcome),
        price_in(marks, key_of(p)),
    );
}

/// A split has a sole winner exactly where one outcome takes the whole unit
/// and every other nothing, and then that is the one. A void payout has none.
pub proof fn the_sole_winner_takes_the_whole(prices: Seq<Price>, outcome: OutcomeId)
    requires
        prices.len() <= 0xffff,
        price_sum(prices) == SCALE,
    ensures
        sole_winner(PayoutView::Split(prices)) == Some(outcome) <==> outcome.0 < prices.len()
            && prices[outcome.0 as int].0 == SCALE && forall|k: int|
            0 <= k < prices.len() && k != outcome.0 ==> (#[trigger] prices[k]).0 == 0,
        forall|n: u16| (#[trigger] sole_winner(PayoutView::Void(n))) is None,
        forall|o: OutcomeId| #[trigger] sole_winner(PayoutView::Winner(o)) == Some(o),
{
    last_whole_is_the_last(prices);
    if all_or_nothing(prices) {
        whole_units_sum(prices);
        if let Some(o) = last_whole(prices) {
            assert(forall|k: int|
                0 <= k < prices.len() && k != o.0 ==> (#[trigger] prices[k]).0 == 0);
        }
    }
    if outcome.0 < prices.len() && prices[outcome.0 as int].0 == SCALE && (forall|k: int|
        0 <= k < prices.len() && k != outcome.0 ==> (#[trigger] prices[k]).0 == 0) {
        assert(all_or_nothing(prices));
    }
}

proof fn last_whole_is_the_last(prices: Seq<Price>)
    requires
        prices.len() <= 0xffff,
    ensures
        match last_whole(prices) {
            Some(o) => o.0 < prices.len() && prices[o.0 as int].0 == SCALE,
            None => forall|k: int| 0 <= k < prices.len() ==> (#[trigger] prices[k]).0 != SCALE,
        },
    decreases prices.len(),
{
    if prices.len() > 0 && prices.last().0 != SCALE {
        last_whole_is_the_last(prices.drop_last());
        assert forall|k: int| last_whole(prices) is None && 0 <= k < prices.len() implies (
        #[trigger] prices[k]).0 != SCALE by {
            if k < prices.len() - 1 {
                assert(prices.drop_last()[k] == prices[k]);
            }
        }
    }
}

proof fn whole_units_sum(prices: Seq<Price>)
    requires
        all_or_nothing(prices),
    ensures
        price_sum(prices) >= 0,
        price_sum(prices) == 0 ==> forall|k: int|
            0 <= k < prices.len() ==> (#[trigger] prices[k]).0 == 0,
        price_sum(prices) == SCALE ==> forall|j: int, k: int|
            #![trigger prices[j], prices[k]]
            0 <= j < prices.len() && 0 <= k < prices.len() && j != k && prices[j].0 == SCALE
                ==> prices[k].0 == 0,
    decreases prices.len(),
{
    if prices.len() > 0 {
        let head = prices.drop_last();
        assert forall|k: int| 0 <= k < head.len() implies (#[trigger] head[k]).0 == SCALE
            || head[k].0 == 0 by {
            assert(head[k] == prices[k]);
        }
        whole_units_sum(head);
        let last = prices.len() - 1;
        assert(prices[last].0 == SCALE || prices[last].0 == 0);
        if price_sum(prices) == 0 {
            assert forall|k: int| 0 <= k < prices.len() implies (#[trigger] prices[k]).0 == 0 by {
                if k < last {
                    assert(head[k] == prices[k]);
                }
            }
        }
        if price_sum(prices) == SCALE {
            assert forall|j: int, k: int|
                #![trigger prices[j], prices[k]]
                0 <= j < prices.len() && 0 <= k < prices.len() && j != k && prices[j].0
                    == SCALE implies prices[k].0 == 0 by {
                if j < last {
                    assert(head[j] == prices[j]);
                }
                if k < last {
                    assert(head[k] == prices[k]);
                }
            }
        }
    }
}

/// A payout tells outcomes apart where two of them are paid differently.
pub proof fn an_informative_payout_pays_differently(prices: Seq<Price>)
    ensures
        tells_apart(PayoutView::Split(prices)) <==> exists|i: int, j: int|
            0 <= i < prices.len() && 0 <= j < prices.len() && (#[trigger] prices[i]).0 != (
            #[trigger] prices[j]).0,
{
    if exists|i: int, j: int|
        0 <= i < prices.len() && 0 <= j < prices.len() && (#[trigger] prices[i]).0 != (
        #[trigger] prices[j]).0 {
        let (i, j) = choose|i: int, j: int|
            0 <= i < prices.len() && 0 <= j < prices.len() && (#[trigger] prices[i]).0 != (
            #[trigger] prices[j]).0;
        assert(differs_at(prices, i) || differs_at(prices, j));
    }
    if uneven(prices) {
        let i = choose|i: int| #[trigger] differs_at(prices, i);
        assert(prices[i].0 != prices[0].0);
    }
}

} // verus!
