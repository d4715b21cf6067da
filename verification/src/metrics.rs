//! What a run counts, and the settings it is run under.

use vstd::prelude::*;
use vstd::string::*;

use crate::error::{says, BacktestError};
use crate::ordered::SortedMap;
use crate::request::{SetKindView, SetOperationKind};
use crate::text::{int_text, push_u64};
use crate::types::{Money, Qty, UnixNanos};

verus! {

/// One more, as far as the counter can count.
pub open spec fn bumped(n: u64) -> u64 {
    if n == u64::MAX {
        n
    } else {
        (n + 1) as u64
    }
}

/// One more, as far as the counter can count.
pub fn one_more(n: u64) -> (r: u64)
    ensures
        r == bumped(n),
{
    if n == u64::MAX {
        n
    } else {
        n + 1
    }
}

/// What happened during a run, counted.
#[derive(PartialEq, Eq, Debug)]
pub struct RunMetrics {
    /// Records replayed, by kind.
    pub records_by_kind: SortedMap<String, u64>,
    pub orders_submitted: u64,
    pub orders_filled: u64,
    pub orders_partially_filled: u64,
    pub orders_cancelled_unfilled: u64,
    pub orders_rejected_margin: u64,
    pub orders_rejected_risk: u64,
    pub orders_rejected_self_trade: u64,
    pub orders_rejected_naked_short: u64,
    pub orders_rejected_expired: u64,
    pub orders_rejected_post_only: u64,
    pub orders_rejected_invalid: u64,
    pub orders_triggered: u64,
    pub twap_slices: u64,
    pub orders_amended: u64,
    pub fills_taker: u64,
    pub fills_maker: u64,
    pub book_gaps: u64,
    pub queue_joins: u64,
    pub liquidations: u64,
    pub corporate_actions: u64,
    pub set_operations: u64,
    pub set_operations_rejected: u64,
    pub instruments_expired: u64,
}

/// A reason, where anything was counted under it.
pub open spec fn counted(n: u64, what: Seq<char>) -> Seq<Seq<char>> {
    if n > 0 {
        seq![int_text(n as int) + what]
    } else {
        Seq::empty()
    }
}

/// Why a run that sent orders filled none of them.
pub open spec fn silence_reasons(m: RunMetrics) -> Seq<Seq<char>> {
    counted(m.orders_rejected_margin, " refused for margin"@) + counted(
        m.orders_rejected_risk,
        " refused by configured risk limits"@,
    ) + counted(
        m.orders_rejected_self_trade,
        " would have crossed the account's own book"@,
    ) + counted(
        m.orders_rejected_naked_short,
        " would have shorted an outcome the venue does not let you borrow; buy the complementary outcome instead"@,
    ) + counted(
        m.orders_rejected_expired,
        " arrived after their instrument had stopped trading"@,
    ) + counted(
        m.orders_rejected_invalid,
        " named an instrument, outcome or price this run cannot trade; read their reject_reason"@,
    ) + counted(
        m.orders_rejected_post_only,
        " were post-only and would have crossed on arrival; a maker quote priced through the book is refused, not filled"@,
    ) + counted(
        m.orders_cancelled_unfilled,
        " found no liquidity at their price"@,
    ) + counted(m.book_gaps, " feed gaps invalidated books"@)
}

/// Reasons as one sentence.
pub open spec fn joined(parts: Seq<Seq<char>>) -> Seq<char>
    decreases parts.len(),
{
    if parts.len() == 0 {
        Seq::empty()
    } else if parts.len() == 1 {
        parts[0]
    } else {
        joined(parts.drop_last()) + "; "@ + parts.last()
    }
}

/// Why a run traded nothing, if it did.
pub open spec fn silence(m: RunMetrics) -> Option<Seq<char>> {
    if m.orders_submitted == 0 {
        Some(
            "the strategy submitted no orders: check that its signals fall inside the replayed window"@,
        )
    } else if m.orders_filled == 0 && m.orders_partially_filled == 0 {
        let reasons = silence_reasons(m);
        Some(
            int_text(m.orders_submitted as int) + " orders, no fills: "@ + (if reasons.len() == 0 {
                "no order reached a matchable book"@
            } else {
                joined(reasons)
            }),
        )
    } else {
        None
    }
}

/// The texts of a list.
pub open spec fn texts(parts: Seq<String>) -> Seq<Seq<char>> {
    parts.map_values(|p: String| p@)
}

fn add_reason(reasons: &mut Vec<String>, n: u64, what: &str)
    ensures
        texts(final(reasons)@) == texts(old(reasons)@) + counted(n, what@),
{
    if n > 0 {
        let mut text = String::new();
        push_u64(&mut text, n);
        text.append(what);
        assert(text@ =~= int_text(n as int) + what@);
        reasons.push(text);
        assert(texts(reasons@) =~= texts(old(reasons)@) + counted(n, what@));
    } else {
        assert(texts(reasons@) =~= texts(old(reasons)@) + counted(n, what@));
    }
}

fn join_reasons(reasons: &Vec<String>) -> (out: String)
    ensures
        out@ == joined(texts(reasons@)),
{
    let mut out = String::new();
    let mut i: usize = 0;
    while i < reasons.len()
        invariant
            i <= reasons@.len(),
            out@ == joined(texts(reasons@).take(i as int)),
        decreases reasons.len() - i,
    {
        proof {
            let t = texts(reasons@).take(i + 1);
            assert(t.drop_last() =~= texts(reasons@).take(i as int));
            assert(t.last() == reasons@[i as int]@);
        }
        if i > 0 {
            out.append("; ");
        }
        out.append(reasons[i].as_str());
        assert(out@ =~= joined(texts(reasons@).take(i + 1)));
        i += 1;
    }
    assert(texts(reasons@).take(i as int) =~= texts(reasons@));
    out
}

impl Default for RunMetrics {
    fn default() -> (m: Self)
        ensures
            m.wf(),
            m == no_counts(m.records_by_kind),
            m.records_by_kind@ == Map::<Seq<char>, u64>::empty(),
    {
        RunMetrics {
            records_by_kind: SortedMap::new(),
            orders_submitted: 0,
            orders_filled: 0,
            orders_partially_filled: 0,
            orders_cancelled_unfilled: 0,
            orders_rejected_margin: 0,
            orders_rejected_risk: 0,
            orders_rejected_self_trade: 0,
            orders_rejected_naked_short: 0,
            orders_rejected_expired: 0,
            orders_rejected_post_only: 0,
            orders_rejected_invalid: 0,
            orders_triggered: 0,
            twap_slices: 0,
            orders_amended: 0,
            fills_taker: 0,
            fills_maker: 0,
            book_gaps: 0,
            queue_joins: 0,
            liquidations: 0,
            corporate_actions: 0,
            set_operations: 0,
            set_operations_rejected: 0,
            instruments_expired: 0,
        }
    }
}

/// Counters at zero.
pub open spec fn no_counts(records_by_kind: SortedMap<String, u64>) -> RunMetrics {
    RunMetrics {
        records_by_kind,
        orders_submitted: 0,
        orders_filled: 0,
        orders_partially_filled: 0,
        orders_cancelled_unfilled: 0,
        orders_rejected_margin: 0,
        orders_rejected_risk: 0,
        orders_rejected_self_trade: 0,
        orders_rejected_naked_short: 0,
        orders_rejected_expired: 0,
        orders_rejected_post_only: 0,
        orders_rejected_invalid: 0,
        orders_triggered: 0,
        twap_slices: 0,
        orders_amended: 0,
        fills_taker: 0,
        fills_maker: 0,
        book_gaps: 0,
        queue_joins: 0,
        liquidations: 0,
        corporate_actions: 0,
        set_operations: 0,
        set_operations_rejected: 0,
        instruments_expired: 0,
    }
}

impl Clone for RunMetrics {
    fn clone(&self) -> (r: Self)
        ensures
            r == (RunMetrics { records_by_kind: r.records_by_kind, ..*self }),
            self.wf() ==> r.wf() && r.records_by_kind@ == self.records_by_kind@,
    {
        RunMetrics { records_by_kind: copy_counts(&self.records_by_kind), ..*self }
    }
}

fn copy_counts(counts: &SortedMap<String, u64>) -> (r: SortedMap<String, u64>)
    ensures
        counts.wf() ==> r.wf() && r@ == counts@,
{
    let mut r: SortedMap<String, u64> = SortedMap::new();
    let mut i: usize = 0;
    while i < counts.len()
        invariant
            i <= counts.seq().len(),
            r.wf(),
            r@ == crate::ordered::entries_map(counts.seq().take(i as int)),
        decreases counts.seq().len() - i,
    {
        r.insert(counts.key_at(i).clone(), *counts.value_at(i));
        assert(counts.seq().take(i + 1).drop_last() =~= counts.seq().take(i as int));
        i += 1;
    }
    assert(counts.seq().take(i as int) =~= counts.seq());
    r
}

/// A count in a table of counts.
pub open spec fn count_of(counts: Map<Seq<char>, u64>, kind: Seq<char>) -> u64 {
    if counts.dom().contains(kind) {
        counts[kind]
    } else {
        0
    }
}

impl RunMetrics {
    pub open spec fn wf(&self) -> bool {
        self.records_by_kind.wf()
    }

    /// Count one record.
    pub fn record(&mut self, kind: &str)
        requires
            old(self).wf(),
        ensures
            final(self).wf(),
            *final(self) == (RunMetrics {
                records_by_kind: final(self).records_by_kind,
                ..*old(self)
            }),
            final(self).records_by_kind@ == old(self).records_by_kind@.insert(
                kind@,
                bumped(count_of(old(self).records_by_kind@, kind@)),
            ),
    {
        let key = kind.to_owned();
        let n: u64 = match self.records_by_kind.get(&key) {
            Some(n) => *n,
            None => 0,
        };
        self.records_by_kind.insert(key, one_more(n));
    }

    /// Why the run traded nothing, if it did not.
    ///
    /// A run with no fills is the commonest disappointing result and the
    /// one with the most causes, so the run says which it was.
    pub fn explain_silence(&self) -> (r: Option<String>)
        ensures
            match silence(*self) {
                Some(text) => r matches Some(s) && s@ == text,
                None => r is None,
            },
    {
        if self.orders_submitted == 0 {
            return Some(
                "the strategy submitted no orders: check that its signals fall inside the replayed window".to_owned(),
            );
        }
        if self.orders_filled == 0 && self.orders_partially_filled == 0 {
            let mut reasons: Vec<String> = Vec::new();
            assert(texts(reasons@) =~= Seq::<Seq<char>>::empty());
            add_reason(&mut reasons, self.orders_rejected_margin, " refused for margin");
            assert(texts(reasons@) =~= counted(
                self.orders_rejected_margin,
                " refused for margin"@,
            ));
            add_reason(
                &mut reasons,
                self.orders_rejected_risk,
                " refused by configured risk limits",
            );
            add_reason(
                &mut reasons,
                self.orders_rejected_self_trade,
                " would have crossed the account's own book",
            );
            add_reason(
                &mut reasons,
                self.orders_rejected_naked_short,
                " would have shorted an outcome the venue does not let you borrow; buy the complementary outcome instead",
            );
            add_reason(
                &mut reasons,
                self.orders_rejected_expired,
                " arrived after their instrument had stopped trading",
            );
            add_reason(
                &mut reasons,
                self.orders_rejected_invalid,
                " named an instrument, outcome or price this run cannot trade; read their reject_reason",
            );
            add_reason(
                &mut reasons,
                self.orders_rejected_post_only,
                " were post-only and would have crossed on arrival; a maker quote priced through the book is refused, not filled",
            );
            add_reason(
                &mut reasons,
                self.orders_cancelled_unfilled,
                " found no liquidity at their price",
            );
            add_reason(&mut reasons, self.book_gaps, " feed gaps invalidated books");
            let mut out = String::new();
            push_u64(&mut out, self.orders_submitted);
            out.append(" orders, no fills: ");
            if reasons.len() == 0 {
                assert(silence_reasons(*self).len() == texts(reasons@).len());
                out.append("no order reached a matchable book");
            } else {
                out.append(join_reasons(&reasons).as_str());
            }
            assert(out@ =~= silence(*self)->Some_0);
            return Some(out);
        }
        None
    }
}

/// Limits every order is held to before it reaches the venue.
#[derive(Clone, Copy, Debug, PartialEq, Eq, Structural)]
pub struct RiskLimits {
    pub max_order_quantity: Option<Qty>,
    pub max_abs_position: Option<Qty>,
    pub max_open_orders: Option<usize>,
}

impl Default for RiskLimits {
    fn default() -> (r: Self)
        ensures
            r == (RiskLimits {
                max_order_quantity: None,
                max_abs_position: None,
                max_open_orders: None,
            }),
    {
        RiskLimits { max_order_quantity: None, max_abs_position: None, max_open_orders: None }
    }
}

/// A limit of nothing, or less, is a mistake.
pub open spec fn limits_nothing(limit: Option<Qty>) -> bool {
    limit matches Some(q) && q.0 <= 0
}

impl RiskLimits {
    pub fn new(
        max_order_quantity: Option<Qty>,
        max_abs_position: Option<Qty>,
        max_open_orders: Option<usize>,
    ) -> (r: Result<Self, BacktestError>)
        ensures
            match r {
                Ok(limits) => {
                    &&& !limits_nothing(max_order_quantity)
                    &&& !limits_nothing(max_abs_position)
                    &&& max_open_orders != Some(0usize)
                    &&& limits == (RiskLimits {
                        max_order_quantity,
                        max_abs_position,
                        max_open_orders,
                    })
                },
                Err(e) => {
                    if limits_nothing(max_order_quantity) {
                        says(e, "max_order_quantity must be positive"@)
                    } else if limits_nothing(max_abs_position) {
                        says(e, "max_abs_position must be positive"@)
                    } else {
                        max_open_orders == Some(0usize) && says(
                            e,
                            "max_open_orders must be positive"@,
                        )
                    }
                },
            },
    {
        if let Some(q) = max_order_quantity {
            if q.0 <= 0 {
                return Err(BacktestError::invalid("max_order_quantity must be positive"));
            }
        }
        if let Some(q) = max_abs_position {
            if q.0 <= 0 {
                return Err(BacktestError::invalid("max_abs_position must be positive"));
            }
        }
        if let Some(n) = max_open_orders {
            if n == 0 {
                return Err(BacktestError::invalid("max_open_orders must be positive"));
            }
        }
        Ok(RiskLimits { max_order_quantity, max_abs_position, max_open_orders })
    }
}

/// What the account was worth at one instant.
#[derive(Clone, Copy, PartialEq, Eq, Debug, Structural)]
pub struct EquityPoint {
    pub ts: UnixNanos,
    pub cash: Money,
    /// What open positions contribute: their marked value where opening
    /// them moved cash, their unrealised profit where it did not.
    pub position_value: Money,
    pub equity: Money,
    pub realized_pnl: Money,
    pub unrealized_pnl: Money,
}

/// Which price positions are valued at.
#[derive(Clone, Copy, PartialEq, Eq, Debug, Structural)]
pub enum MarkSource {
    /// The venue's published mark where there is one, else the book.
    VenueMark,
    /// The book, whatever the venue publishes.
    BookMid,
}

impl Default for MarkSource {
    fn default() -> (r: Self)
        ensures
            r == MarkSource::VenueMark,
    {
        MarkSource::VenueMark
    }
}

/// How much a margin call closes.
#[derive(Clone, Copy, PartialEq, Eq, Debug, Structural)]
pub enum LiquidationPolicy {
    /// Everything.
    CloseAll,
    /// Only enough to restore the maintenance ratio.
    Partial,
}

impl Default for LiquidationPolicy {
    fn default() -> (r: Self)
        ensures
            r == LiquidationPolicy::CloseAll,
    {
        LiquidationPolicy::CloseAll
    }
}

/// What each set operation costs to perform.
#[derive(Clone, Copy, PartialEq, Eq, Debug, Structural)]
pub struct SetOperationCosts {
    pub mint: Money,
    pub redeem: Money,
    pub convert: Money,
}

impl Default for SetOperationCosts {
    fn default() -> (r: Self)
        ensures
            r == (SetOperationCosts { mint: Money(0), redeem: Money(0), convert: Money(0) }),
    {
        SetOperationCosts { mint: Money(0), redeem: Money(0), convert: Money(0) }
    }
}

impl SetOperationCosts {
    /// The same cost whatever the operation.
    pub fn flat(cost: Money) -> (r: Result<Self, BacktestError>)
        ensures
            match r {
                Ok(c) => cost.0 >= 0 && c == (SetOperationCosts {
                    mint: cost,
                    redeem: cost,
                    convert: cost,
                }),
                Err(e) => cost.0 < 0 && says(e, "a set operation cost must not be negative"@),
            },
    {
        if cost.is_negative() {
            return Err(BacktestError::invalid("a set operation cost must not be negative"));
        }
        Ok(SetOperationCosts { mint: cost, redeem: cost, convert: cost })
    }

    pub open spec fn cost_of(&self, kind: SetKindView) -> Money {
        match kind {
            SetKindView::Mint => self.mint,
            SetKindView::Redeem => self.redeem,
            SetKindView::Convert(_) => self.convert,
        }
    }

    pub fn for_kind(&self, kind: &SetOperationKind) -> (r: Money)
        ensures
            r == self.cost_of(kind@),
    {
        match kind {
            SetOperationKind::Mint => self.mint,
            SetOperationKind::Redeem => self.redeem,
            SetOperationKind::Convert { .. } => self.convert,
        }
    }
}

/// A run is silent where it sent no order, or where none of those it sent
/// filled in whole or in part.
pub proof fn a_run_that_filled_something_is_not_silent(m: RunMetrics)
    ensures
        silence(m) is None <==> m.orders_submitted > 0 && (m.orders_filled > 0
            || m.orders_partially_filled > 0),
{
}

/// Every way an order came to nothing that happened at all is given as a
/// reason, and nothing else is.
pub proof fn every_cause_is_given(m: RunMetrics)
    ensures
        ({
            let one = |n: u64|
                if n > 0 {
                    1int
                } else {
                    0int
                };
            silence_reasons(m).len() == one(m.orders_rejected_margin) + one(m.orders_rejected_risk)
                + one(m.orders_rejected_self_trade) + one(m.orders_rejected_naked_short) + one(
                m.orders_rejected_expired,
            ) + one(m.orders_rejected_invalid) + one(m.orders_rejected_post_only) + one(
                m.orders_cancelled_unfilled,
            ) + one(m.book_gaps)
        }),
{
}

/// A counter goes up by one until it can count no further.
pub proof fn a_counter_goes_up_by_one(n: u64)
    ensures
        n < u64::MAX ==> bumped(n) == n + 1,
        bumped(u64::MAX) == u64::MAX,
{
}

/// Each set operation has its own price.
pub proof fn each_set_operation_has_its_price(costs: SetOperationCosts, kind: SetKindView)
    ensures
        kind is Mint ==> costs.cost_of(kind) == costs.mint,
        kind is Redeem ==> costs.cost_of(kind) == costs.redeem,
        kind is Convert ==> costs.cost_of(kind) == costs.convert,
{
}

} // verus!
