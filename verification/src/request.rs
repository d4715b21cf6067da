//! What a strategy asks for, and what the run records of it.

use vstd::prelude::*;
use vstd::string::*;

use crate::error::{says, BacktestError};
use crate::instrument::{InstrumentId, OutcomeId};
use crate::order::{clone_text, OrderKind, TimeInForce, Trigger};
use crate::types::{fits, saturated, saturating_sum, Money, Price, Qty, Side, UnixNanos};

verus! {

/// A request to trade, as a strategy states it.
#[derive(PartialEq, Eq, Debug)]
pub struct OrderRequest {
    pub instrument: InstrumentId,
    pub outcome: OutcomeId,
    pub side: Side,
    pub kind: OrderKind,
    pub quantity: Qty,
    pub time_in_force: TimeInForce,
    pub tag: Option<String>,
    /// Only reduces an existing position; never opens or flips one.
    pub reduce_only: bool,
    /// Add liquidity only.
    pub post_only: bool,
    /// Held by the venue until the mark reaches this.
    pub trigger: Option<Trigger>,
}

impl Clone for OrderRequest {
    fn clone(&self) -> (r: Self)
        ensures
            r == *self,
    {
        OrderRequest {
            instrument: self.instrument.clone(),
            outcome: self.outcome,
            side: self.side,
            kind: self.kind,
            quantity: self.quantity,
            time_in_force: self.time_in_force,
            tag: clone_text(&self.tag),
            reduce_only: self.reduce_only,
            post_only: self.post_only,
            trigger: self.trigger,
        }
    }
}

/// A request with its texts as sequences of characters.
pub struct RequestView {
    pub instrument: Seq<char>,
    pub outcome: OutcomeId,
    pub side: Side,
    pub kind: OrderKind,
    pub quantity: Qty,
    pub time_in_force: TimeInForce,
    pub tag: Option<Seq<char>>,
    pub reduce_only: bool,
    pub post_only: bool,
    pub trigger: Option<Trigger>,
}

impl View for OrderRequest {
    type V = RequestView;

    open spec fn view(&self) -> RequestView {
        RequestView {
            instrument: self.instrument@,
            outcome: self.outcome,
            side: self.side,
            kind: self.kind,
            quantity: self.quantity,
            time_in_force: self.time_in_force,
            tag: match self.tag {
                Some(tag) => Some(tag@),
                None => None,
            },
            reduce_only: self.reduce_only,
            post_only: self.post_only,
            trigger: self.trigger,
        }
    }
}

impl OrderRequest {
    pub fn market(
        instrument: InstrumentId,
        outcome: OutcomeId,
        side: Side,
        quantity: Qty,
    ) -> (r: Self)
        ensures
            r == (OrderRequest {
                instrument,
                outcome,
                side,
                kind: OrderKind::Market,
                quantity,
                time_in_force: TimeInForce::ImmediateOrCancel,
                tag: None,
                reduce_only: false,
                post_only: false,
                trigger: None,
            }),
    {
        OrderRequest {
            instrument,
            outcome,
            side,
            kind: OrderKind::Market,
            quantity,
            time_in_force: TimeInForce::ImmediateOrCancel,
            tag: None,
            reduce_only: false,
            post_only: false,
            trigger: None,
        }
    }

    pub fn limit(
        instrument: InstrumentId,
        outcome: OutcomeId,
        side: Side,
        limit: Price,
        quantity: Qty,
    ) -> (r: Self)
        ensures
            r == (OrderRequest {
                instrument,
                outcome,
                side,
                kind: OrderKind::Limit { limit },
                quantity,
                time_in_force: TimeInForce::GoodTilCancel,
                tag: None,
                reduce_only: false,
                post_only: false,
                trigger: None,
            }),
    {
        OrderRequest {
            instrument,
            outcome,
            side,
            kind: OrderKind::Limit { limit },
            quantity,
            time_in_force: TimeInForce::GoodTilCancel,
            tag: None,
            reduce_only: false,
            post_only: false,
            trigger: None,
        }
    }

    pub fn with_tag(self, tag: &str) -> (r: Self)
        ensures
            r == (OrderRequest { tag: r.tag, ..self }),
            r.tag matches Some(t) && t@ == tag@,
    {
        OrderRequest { tag: Some(tag.to_owned()), ..self }
    }

    pub fn with_time_in_force(self, tif: TimeInForce) -> (r: Self)
        ensures
            r == (OrderRequest { time_in_force: tif, ..self }),
    {
        OrderRequest { time_in_force: tif, ..self }
    }

    pub fn reduce_only(self) -> (r: Self)
        ensures
            r == (OrderRequest { reduce_only: true, ..self }),
    {
        OrderRequest { reduce_only: true, ..self }
    }

    /// Add liquidity or be refused.
    pub fn post_only(self) -> (r: Self)
        ensures
            r == (OrderRequest { post_only: true, ..self }),
    {
        OrderRequest { post_only: true, ..self }
    }

    pub fn with_trigger(self, trigger: Trigger) -> (r: Self)
        ensures
            r == (OrderRequest { trigger: Some(trigger), ..self }),
    {
        OrderRequest { trigger: Some(trigger), ..self }
    }
}

/// What to do with a complete set of outcomes.
#[derive(PartialEq, Eq, Debug)]
pub enum SetOperationKind {
    /// Pay one unit of cash per set for one contract on every outcome.
    Mint,
    /// Hand back one contract on every outcome for one unit of cash per set.
    Redeem,
    /// Convert the NO side of the named outcomes of a negative-risk market.
    Convert { held: Vec<OutcomeId> },
}

/// A kind of set operation, by what it names.
pub enum SetKindView {
    Mint,
    Redeem,
    Convert(Seq<OutcomeId>),
}

impl View for SetOperationKind {
    type V = SetKindView;

    open spec fn view(&self) -> SetKindView {
        match *self {
            SetOperationKind::Mint => SetKindView::Mint,
            SetOperationKind::Redeem => SetKindView::Redeem,
            SetOperationKind::Convert { held } => SetKindView::Convert(held@),
        }
    }
}

/// The name an operation is written under.
pub open spec fn set_kind_text(kind: SetOperationKind) -> Seq<char> {
    match kind {
        SetOperationKind::Mint => "mint"@,
        SetOperationKind::Redeem => "redeem"@,
        SetOperationKind::Convert { .. } => "convert"@,
    }
}

fn copy_outcomes(held: &Vec<OutcomeId>) -> (r: Vec<OutcomeId>)
    ensures
        r@ == held@,
{
    let r = held.clone();
    assert(r@ =~= held@);
    r
}

impl Clone for SetOperationKind {
    fn clone(&self) -> (r: Self)
        ensures
            r@ == self@,
            set_kind_text(r) == set_kind_text(*self),
    {
        match self {
            SetOperationKind::Mint => SetOperationKind::Mint,
            SetOperationKind::Redeem => SetOperationKind::Redeem,
            SetOperationKind::Convert { held } => SetOperationKind::Convert {
                held: copy_outcomes(held),
            },
        }
    }
}

impl SetOperationKind {
    pub fn as_str(&self) -> (r: &'static str)
        ensures
            r@ == set_kind_text(*self),
    {
        match self {
            SetOperationKind::Mint => "mint",
            SetOperationKind::Redeem => "redeem",
            SetOperationKind::Convert { .. } => "convert",
        }
    }
}

/// A request to mint, redeem or convert complete sets.
#[derive(PartialEq, Eq, Debug)]
pub struct SetOperationRequest {
    pub instrument: InstrumentId,
    pub kind: SetOperationKind,
    pub quantity: Qty,
    pub tag: Option<String>,
}

impl SetOperationRequest {
    pub fn mint(instrument: InstrumentId, quantity: Qty) -> (r: Self)
        ensures
            r == (SetOperationRequest {
                instrument,
                kind: SetOperationKind::Mint,
                quantity,
                tag: None,
            }),
    {
        SetOperationRequest { instrument, kind: SetOperationKind::Mint, quantity, tag: None }
    }

    pub fn redeem(instrument: InstrumentId, quantity: Qty) -> (r: Self)
        ensures
            r == (SetOperationRequest {
                instrument,
                kind: SetOperationKind::Redeem,
                quantity,
                tag: None,
            }),
    {
        SetOperationRequest { instrument, kind: SetOperationKind::Redeem, quantity, tag: None }
    }

    pub fn convert(instrument: InstrumentId, held: Vec<OutcomeId>, quantity: Qty) -> (r: Self)
        ensures
            r == (SetOperationRequest {
                instrument,
                kind: SetOperationKind::Convert { held },
                quantity,
                tag: None,
            }),
    {
        SetOperationRequest {
            instrument,
            kind: SetOperationKind::Convert { held },
            quantity,
            tag: None,
        }
    }

    pub fn with_tag(self, tag: &str) -> (r: Self)
        ensures
            r == (SetOperationRequest { tag: r.tag, ..self }),
            r.tag matches Some(t) && t@ == tag@,
    {
        SetOperationRequest { tag: Some(tag.to_owned()), ..self }
    }
}

/// A set operation as the run recorded it.
#[derive(PartialEq, Eq, Debug)]
pub struct SetOperation {
    pub ts: UnixNanos,
    pub instrument: InstrumentId,
    pub kind: SetOperationKind,
    /// Complete sets created or destroyed.
    pub sets: Qty,
    /// Cash the legs moved, before the flat cost: positive when minting.
    pub cash_delta: Money,
    pub cost: Money,
    /// Why the venue refused it, if it did.
    pub rejected: Option<String>,
}

impl Clone for SetOperation {
    fn clone(&self) -> (r: Self)
        ensures
            r == (SetOperation { kind: r.kind, ..*self }),
            r.kind@ == self.kind@,
    {
        SetOperation {
            ts: self.ts,
            instrument: self.instrument.clone(),
            kind: self.kind.clone(),
            sets: self.sets,
            cash_delta: self.cash_delta,
            cost: self.cost,
            rejected: clone_text(&self.rejected),
        }
    }
}

/// A probability a strategy committed to, and what the market thought then.
#[derive(PartialEq, Eq, Debug)]
pub struct Forecast {
    pub ts: UnixNanos,
    pub instrument: InstrumentId,
    pub outcome: OutcomeId,
    pub probability: Price,
    /// The mark at the same instant, if there was one.
    pub market: Option<Price>,
    pub tag: Option<String>,
}

impl Clone for Forecast {
    fn clone(&self) -> (r: Self)
        ensures
            r == *self,
    {
        Forecast {
            ts: self.ts,
            instrument: self.instrument.clone(),
            outcome: self.outcome,
            probability: self.probability,
            market: self.market,
            tag: clone_text(&self.tag),
        }
    }
}

/// What a probability book said at one instant.
#[derive(PartialEq, Eq, Debug)]
pub struct MarkPoint {
    pub ts: UnixNanos,
    pub instrument: InstrumentId,
    pub outcome: OutcomeId,
    pub price: Price,
}

impl Clone for MarkPoint {
    fn clone(&self) -> (r: Self)
        ensures
            r == *self,
    {
        MarkPoint {
            ts: self.ts,
            instrument: self.instrument.clone(),
            outcome: self.outcome,
            price: self.price,
        }
    }
}

/// An order worked in equal slices over a period.
#[derive(PartialEq, Eq, Debug)]
pub struct TwapRequest {
    pub instrument: InstrumentId,
    pub outcome: OutcomeId,
    pub side: Side,
    pub quantity: Qty,
    /// How long to work it over.
    pub duration_nanos: i64,
    /// How often to send a slice.
    pub interval_nanos: i64,
    pub tag: Option<String>,
    pub reduce_only: bool,
}

/// The interval a time-weighted order is sliced at unless told otherwise.
pub const DEFAULT_TWAP_INTERVAL_NANOS: i64 = 30_000_000_000;

impl Clone for TwapRequest {
    fn clone(&self) -> (r: Self)
        ensures
            r == *self,
    {
        TwapRequest {
            instrument: self.instrument.clone(),
            outcome: self.outcome,
            side: self.side,
            quantity: self.quantity,
            duration_nanos: self.duration_nanos,
            interval_nanos: self.interval_nanos,
            tag: clone_text(&self.tag),
            reduce_only: self.reduce_only,
        }
    }
}

impl TwapRequest {
    pub fn new(
        instrument: InstrumentId,
        outcome: OutcomeId,
        side: Side,
        quantity: Qty,
        duration_nanos: i64,
    ) -> (r: Self)
        ensures
            r == (TwapRequest {
                instrument,
                outcome,
                side,
                quantity,
                duration_nanos,
                interval_nanos: DEFAULT_TWAP_INTERVAL_NANOS,
                tag: None,
                reduce_only: false,
            }),
    {
        TwapRequest {
            instrument,
            outcome,
            side,
            quantity,
            duration_nanos,
            interval_nanos: DEFAULT_TWAP_INTERVAL_NANOS,
            tag: None,
            reduce_only: false,
        }
    }

    pub fn interval_nanos(self, nanos: i64) -> (r: Self)
        ensures
            r == (TwapRequest { interval_nanos: nanos, ..self }),
    {
        TwapRequest { interval_nanos: nanos, ..self }
    }

    pub fn with_tag(self, tag: &str) -> (r: Self)
        ensures
            r == (TwapRequest { tag: r.tag, ..self }),
            r.tag matches Some(t) && t@ == tag@,
    {
        TwapRequest { tag: Some(tag.to_owned()), ..self }
    }

    pub fn reduce_only(self) -> (r: Self)
        ensures
            r == (TwapRequest { reduce_only: true, ..self }),
    {
        TwapRequest { reduce_only: true, ..self }
    }

    /// A schedule that can be worked.
    pub open spec fn workable(self) -> bool {
        self.quantity.0 > 0 && 0 < self.interval_nanos <= self.duration_nanos
    }

    /// How many slices the schedule has.
    pub open spec fn slice_count(self) -> int {
        self.duration_nanos as int / self.interval_nanos as int
    }

    /// How many slices this works out to.
    pub fn slices(&self) -> (r: Result<i64, BacktestError>)
        ensures
            match r {
                Ok(n) => self.workable() && n == self.slice_count() && n >= 1,
                Err(e) => {
                    if self.quantity.0 <= 0 {
                        says(e, "a TWAP needs a positive quantity"@)
                    } else if self.duration_nanos <= 0 || self.interval_nanos <= 0 {
                        says(e, "a TWAP needs a positive duration and interval"@)
                    } else {
                        self.interval_nanos > self.duration_nanos && says(
                            e,
                            "a TWAP whose interval exceeds its duration is one order; say so rather than hiding it behind a schedule"@,
                        )
                    }
                },
            },
    {
        if !self.quantity.is_positive() {
            return Err(BacktestError::invalid("a TWAP needs a positive quantity"));
        }
        if self.duration_nanos <= 0 || self.interval_nanos <= 0 {
            return Err(BacktestError::invalid("a TWAP needs a positive duration and interval"));
        }
        if self.interval_nanos > self.duration_nanos {
            return Err(
                BacktestError::invalid(
                    "a TWAP whose interval exceeds its duration is one order; say so rather than hiding it behind a schedule",
                ),
            );
        }
        assert(self.duration_nanos as int / self.interval_nanos as int >= 1) by (nonlinear_arith)
            requires
                0 < self.interval_nanos <= self.duration_nanos,
        ;
        Ok(self.duration_nanos / self.interval_nanos)
    }
}

/// How far a time-weighted order has got.
#[derive(PartialEq, Eq, Debug)]
pub struct TwapProgress {
    pub request: TwapRequest,
    pub started_at: UnixNanos,
    /// Slices sent so far.
    pub sent: i64,
    pub total_slices: i64,
    /// Quantity handed to the market so far, filled or not.
    pub worked: Qty,
    /// When the next slice is due.
    pub next_at: i64,
}

impl Clone for TwapProgress {
    fn clone(&self) -> (r: Self)
        ensures
            r == *self,
    {
        TwapProgress {
            request: self.request.clone(),
            started_at: self.started_at,
            sent: self.sent,
            total_slices: self.total_slices,
            worked: self.worked,
            next_at: self.next_at,
        }
    }
}

/// The quantity every slice but the last carries.
pub open spec fn even_slice(t: TwapProgress) -> int {
    t.request.quantity.0 as int / t.total_slices as int
}

/// What the next slice carries: an even share, or all that is left.
pub open spec fn next_slice(t: TwapProgress) -> int {
    if t.total_slices - t.sent <= 1 {
        t.request.quantity.0 - t.worked.0
    } else {
        even_slice(t)
    }
}

/// Whether a slice is due.
pub open spec fn slice_due(t: TwapProgress, ts: UnixNanos) -> bool {
    t.sent < t.total_slices && t.next_at <= ts.0
}

/// The schedule after looking at it once at `ts`, and what it sends. A share
/// too small to send is passed over and stays with what is left.
pub open spec fn worked_at(t: TwapProgress, ts: UnixNanos) -> (TwapProgress, Option<Qty>) {
    if !slice_due(t, ts) {
        (t, None)
    } else {
        (
            TwapProgress {
                sent: (t.sent + 1) as i64,
                worked: Qty((t.worked.0 + next_slice(t)) as i64),
                next_at: saturated(t.next_at + t.request.interval_nanos) as i64,
                ..t
            },
            if next_slice(t) > 0 {
                Some(Qty(next_slice(t) as i64))
            } else {
                None
            },
        )
    }
}

/// A schedule as it starts.
pub open spec fn fresh_twap(request: TwapRequest, now: UnixNanos) -> TwapProgress {
    TwapProgress {
        request,
        started_at: now,
        sent: 0,
        total_slices: request.slice_count() as i64,
        worked: Qty(0),
        next_at: now.0,
    }
}

impl TwapProgress {
    /// Between none and all slices are sent, in equal shares until the last.
    pub open spec fn wf(self) -> bool {
        &&& self.request.quantity.0 > 0
        &&& 0 <= self.sent <= self.total_slices
        &&& self.total_slices >= 1
        &&& if self.sent == self.total_slices {
            self.worked == self.request.quantity
        } else {
            self.worked.0 == self.sent * even_slice(self)
        }
    }

    pub fn is_done(&self) -> (r: bool)
        ensures
            r == (self.sent >= self.total_slices),
    {
        self.sent >= self.total_slices
    }

    pub fn remaining(&self) -> (r: Qty)
        requires
            fits(self.request.quantity.0 - self.worked.0),
        ensures
            r.0 == self.request.quantity.0 - self.worked.0,
    {
        Qty(self.request.quantity.0 - self.worked.0)
    }

    /// Look at the schedule at `ts`, and send a slice if one is due.
    ///
    /// The last slice carries whatever is left, so rounding never leaves a
    /// remainder behind, and a quantity too small to divide is sent whole at
    /// the end.
    pub fn advance(&mut self, ts: UnixNanos) -> (slice: Option<Qty>)
        requires
            old(self).wf(),
        ensures
            final(self).wf(),
            (*final(self), slice) == worked_at(*old(self), ts),
    {
        proof {
            slices_stay_within(*self);
        }
        if self.is_done() || ts.0 < self.next_at {
            return None;
        }
        let left: i64 = self.total_slices - self.sent;
        let slice: i64 = if left <= 1 {
            self.remaining().0
        } else {
            self.request.quantity.0 / self.total_slices
        };
        self.sent = self.sent + 1;
        self.worked = Qty(self.worked.0 + slice);
        self.next_at = saturating_sum(self.next_at, self.request.interval_nanos);
        proof {
            let t = *old(self);
            if t.sent + 1 < t.total_slices {
                assert((t.sent + 1) * even_slice(t) == t.sent * even_slice(t) + even_slice(t))
                    by (nonlinear_arith);
                assert(self.sent * even_slice(*self) == (t.sent + 1) * even_slice(t));
            }
        }
        if slice <= 0 {
            return None;
        }
        Some(Qty(slice))
    }
}

/// What is worked of a schedule never passes what was asked for.
proof fn slices_stay_within(t: TwapProgress)
    requires
        t.wf(),
    ensures
        0 <= t.worked.0 <= t.request.quantity.0,
        0 <= even_slice(t) <= t.request.quantity.0,
        t.sent < t.total_slices ==> t.worked.0 + next_slice(t) <= t.request.quantity.0,
{
    let q = t.request.quantity.0 as int;
    let n = t.total_slices as int;
    let e = even_slice(t);
    assert(0 <= e && e * n <= q && e <= q) by (nonlinear_arith)
        requires
            e == q / n,
            n >= 1,
            q > 0,
    ;
    let s = t.sent as int;
    assert(0 <= s * e <= q) by (nonlinear_arith)
        requires
            0 <= s <= n,
            0 <= e,
            e * n <= q,
    ;
    if s + 1 <= n {
        assert(s * e + e <= q) by (nonlinear_arith)
            requires
                s + 1 <= n,
                0 <= e,
                e * n <= q,
        ;
    }
}

/// What looking at a schedule at one instant after another sends, in all.
pub open spec fn sent_over(t: TwapProgress, instants: Seq<UnixNanos>) -> (TwapProgress, int)
    decreases instants.len(),
{
    if instants.len() == 0 {
        (t, 0)
    } else {
        let (before, total) = sent_over(t, instants.drop_last());
        let (after, slice) = worked_at(before, instants.last());
        (
            after,
            total + (match slice {
                Some(q) => q.0 as int,
                None => 0,
            }),
        )
    }
}

/// However often a schedule is looked at, it never hands over more than was
/// asked for, and once it is done it has handed over exactly that, whatever
/// the division leaves over.
pub proof fn twap_hands_over_everything(
    request: TwapRequest,
    now: UnixNanos,
    instants: Seq<UnixNanos>,
)
    requires
        request.workable(),
    ensures
        ({
            let (t, total) = sent_over(fresh_twap(request, now), instants);
            &&& t.wf()
            &&& t.request == request
            &&& t.worked.0 == total
            &&& 0 <= total <= request.quantity.0
            &&& t.sent <= t.total_slices
            &&& t.sent == t.total_slices ==> total == request.quantity.0
        }),
    decreases instants.len(),
{
    fresh_twap_is_sound(request, now);
    let (t, total) = sent_over(fresh_twap(request, now), instants);
    if instants.len() > 0 {
        twap_hands_over_everything(request, now, instants.drop_last());
        let (before, _) = sent_over(fresh_twap(request, now), instants.drop_last());
        working_keeps_sound(before, instants.last());
        slices_stay_within(t);
    }
}

/// Looking at a schedule keeps it well formed.
proof fn working_keeps_sound(t: TwapProgress, ts: UnixNanos)
    requires
        t.wf(),
    ensures
        worked_at(t, ts).0.wf(),
        worked_at(t, ts).0.request == t.request,
        t.sent < t.total_slices ==> 0 <= next_slice(t),
        t.sent < t.total_slices ==> fits(t.worked.0 + next_slice(t)),
{
    slices_stay_within(t);
    let after = worked_at(t, ts).0;
    if slice_due(t, ts) && t.sent + 1 < t.total_slices {
        assert((t.sent + 1) * even_slice(t) == t.sent * even_slice(t) + even_slice(t))
            by (nonlinear_arith);
        assert(after.sent * even_slice(after) == (t.sent + 1) * even_slice(t));
    }
}

/// A schedule is well formed when it starts.
pub proof fn fresh_twap_is_sound(request: TwapRequest, now: UnixNanos)
    requires
        request.workable(),
    ensures
        fresh_twap(request, now).wf(),
{
    assert(request.slice_count() >= 1 && request.slice_count() <= request.duration_nanos)
        by (nonlinear_arith)
        requires
            request.slice_count() == request.duration_nanos as int / request.interval_nanos as int,
            0 < request.interval_nanos <= request.duration_nanos,
    ;
}

/// A schedule has as many slices as whole intervals fit its duration.
pub proof fn slices_fill_the_duration(request: TwapRequest)
    requires
        request.workable(),
    ensures
        request.slice_count() >= 1,
        request.slice_count() * request.interval_nanos <= request.duration_nanos < (
        request.slice_count() + 1) * request.interval_nanos,
{
    let (d, i) = (request.duration_nanos as int, request.interval_nanos as int);
    let n = d / i;
    vstd::arithmetic::div_mod::lemma_fundamental_div_mod(d, i);
    assert(n >= 1 && n * i <= d < (n + 1) * i) by (nonlinear_arith)
        requires
            0 < i <= d,
            d == i * n + d % i,
            0 <= d % i < i,
    ;
}

/// A slice goes out when it is due and not before: at most one at a time, the
/// next one an interval later. Every slice but the last carries an even share
/// of the whole, rounded down, and the last one all that is left.
pub proof fn slices_go_out_one_interval_apart(t: TwapProgress, ts: UnixNanos)
    requires
        t.wf(),
    ensures
        ({
            let (after, slice) = worked_at(t, ts);
            let sent = match slice {
                Some(q) => q.0 as int,
                None => 0,
            };
            &&& slice matches Some(q) ==> q.0 > 0
            &&& after.request == t.request && after.total_slices == t.total_slices
            &&& after.worked.0 - t.worked.0 == sent
            &&& ts.0 < t.next_at || t.sent == t.total_slices ==> after == t && slice is None
            &&& ts.0 >= t.next_at && t.sent < t.total_slices ==> {
                &&& after.sent == t.sent + 1
                &&& t.next_at + t.request.interval_nanos <= i64::MAX && t.next_at
                    + t.request.interval_nanos >= i64::MIN ==> after.next_at == t.next_at
                    + t.request.interval_nanos
                &&& t.sent + 1 == t.total_slices ==> after.worked == t.request.quantity
                &&& t.sent + 1 < t.total_slices ==> sent * t.total_slices <= t.request.quantity.0
                    < (sent + 1) * t.total_slices
            }
        }),
{
    slices_stay_within(t);
    let (q, n) = (t.request.quantity.0 as int, t.total_slices as int);
    let share = q / n;
    vstd::arithmetic::div_mod::lemma_fundamental_div_mod(q, n);
    assert(0 <= share <= q && share * n <= q < (share + 1) * n) by (nonlinear_arith)
        requires
            n >= 1,
            q > 0,
            q == n * share + q % n,
            0 <= q % n < n,
    ;
}

} // verus!
