//! L2 order book reconstruction, and what to do when the data has a hole.
//!
//! The rule that matters here is the gap rule. Incremental updates are only
//! meaningful applied to a book that is already correct; apply them across a
//! missing hour and the result is a book that looks perfectly plausible and
//! is wrong, which then produces fills at prices that never existed. So a
//! declared gap marks the book **stale**, every incremental update against a
//! stale book is an error, and only a fresh snapshot restores it.

use vstd::prelude::*;
use vstd::string::*;

use crate::corporate::{split_price, split_quantity, CorporateAction};
use crate::error::{says, BacktestError};
use crate::ordered::{
    entries_map, entries_map_contains, keys_sorted, sorted_one_way, OrderedKey, SortedMap,
};
use crate::types::{
    a_quotient_lies_between, div_trunc, fits, narrow, wide_product, Price, Qty, Side, UnixNanos,
};

verus! {

/// What an incremental update does to a price level.
#[derive(Clone, Copy, PartialEq, Eq, Debug, Structural)]
pub enum BookAction {
    /// Set the size at this level (add or replace).
    Put,
    /// Remove this level.
    Delete,
    /// Empty the whole side.
    Clear,
}

/// One incremental change to one side of the book.
#[derive(Clone, Copy, PartialEq, Eq, Debug, Structural)]
pub struct BookDelta {
    pub action: BookAction,
    pub side: Side,
    pub price: Price,
    pub size: Qty,
}

impl BookDelta {
    pub fn set(side: Side, price: Price, size: Qty) -> (r: Self)
        ensures
            r == (BookDelta { action: BookAction::Put, side, price, size }),
    {
        BookDelta { action: BookAction::Put, side, price, size }
    }

    pub fn delete(side: Side, price: Price) -> (r: Self)
        ensures
            r == (BookDelta { action: BookAction::Delete, side, price, size: Qty(0) }),
    {
        BookDelta { action: BookAction::Delete, side, price, size: Qty(0) }
    }

    pub fn clear(side: Side) -> (r: Self)
        ensures
            r == (BookDelta { action: BookAction::Clear, side, price: Price(0), size: Qty(0) }),
    {
        BookDelta { action: BookAction::Clear, side, price: Price(0), size: Qty(0) }
    }
}

/// Whether the book can be trusted right now.
#[derive(Clone, Copy, PartialEq, Eq, Debug, Structural)]
pub enum BookStatus {
    /// Reconstructed from a snapshot and every update since.
    Fresh,
    /// A gap was declared; incremental updates are refused until a snapshot
    /// rebuilds the book.
    Stale { since: UnixNanos },
}

/// The levels of one side: price in raw units to displayed size.
pub type Levels = Map<i64, Qty>;

/// The levels a snapshot lists: sizes that are not positive are no level,
/// and a price listed twice has the size listed last.
pub open spec fn snapshot_levels(listed: Seq<(Price, Qty)>) -> Levels
    decreases listed.len(),
{
    if listed.len() == 0 {
        Map::empty()
    } else {
        let m = snapshot_levels(listed.drop_last());
        let (price, size) = listed.last();
        if size.0 > 0 {
            m.insert(price.0, size)
        } else {
            m
        }
    }
}

/// The levels of a side after an update to it.
pub open spec fn updated_levels(levels: Levels, delta: BookDelta) -> Levels {
    match delta.action {
        BookAction::Put => if delta.size.0 > 0 {
            levels.insert(delta.price.0, delta.size)
        } else {
            levels.remove(delta.price.0)
        },
        BookAction::Delete => levels.remove(delta.price.0),
        BookAction::Clear => Map::empty(),
    }
}

/// Every entry of a side shows a positive size.
pub open spec fn sizes_positive(entries: Seq<(i64, Qty)>) -> bool {
    forall|i: int| 0 <= i < entries.len() ==> (#[trigger] entries[i]).1.0 > 0
}

/// The entries of a side listed best first: bids from the highest price
/// down, asks from the lowest up.
pub open spec fn best_first(entries: Seq<(i64, Qty)>, side: Side) -> Seq<(Price, Qty)> {
    Seq::new(
        entries.len(),
        |i: int|
            match side {
                Side::Buy => (
                    Price(entries[entries.len() - 1 - i].0),
                    entries[entries.len() - 1 - i].1,
                ),
                Side::Sell => (Price(entries[i].0), entries[i].1),
            },
    )
}

/// Whether a taker capped at `limit` accepts a price.
pub open spec fn acceptable(taker: Side, price: Price, limit: Option<Price>) -> bool {
    match limit {
        None => true,
        Some(cap) => match taker {
            Side::Buy => price.0 <= cap.0,
            Side::Sell => price.0 >= cap.0,
        },
    }
}

/// What a taker of `qty` consumes of a list of levels, from the first on,
/// and what is left unfilled: each level gives what it shows or what is
/// still wanted, whichever is less, until the quantity is filled or a level
/// is beyond the limit.
pub open spec fn walk_levels(
    levels: Seq<(Price, Qty)>,
    taker: Side,
    qty: int,
    limit: Option<Price>,
) -> (Seq<(Price, Qty)>, int)
    decreases levels.len(),
{
    if levels.len() == 0 || qty <= 0 || !acceptable(taker, levels[0].0, limit) {
        (Seq::empty(), qty)
    } else {
        let take = if qty <= levels[0].1.0 { qty } else { levels[0].1.0 as int };
        let rest = walk_levels(levels.drop_first(), taker, qty - take, limit);
        (seq![(levels[0].0, Qty(take as i64))] + rest.0, rest.1)
    }
}

/// The sum of the quantities of a list of fills, in raw units.
pub open spec fn quantity_sum(fills: Seq<(Price, Qty)>) -> int
    decreases fills.len(),
{
    if fills.len() == 0 {
        0
    } else {
        quantity_sum(fills.drop_last()) + fills.last().1.0
    }
}

/// The sum of price times quantity over a list of fills, unscaled.
pub open spec fn weighted_sum(fills: Seq<(Price, Qty)>) -> int
    decreases fills.len(),
{
    if fills.len() == 0 {
        0
    } else {
        weighted_sum(fills.drop_last()) + (fills.last().0).0 * (fills.last().1).0
    }
}

/// Walking a book conserves quantity, never trades beyond the limit, and takes
/// levels from the best on: fill by fill, each at its level's own price, and
/// for all that level shows except perhaps the last.
pub proof fn walking_is_sound(
    levels: Seq<(Price, Qty)>,
    taker: Side,
    qty: int,
    limit: Option<Price>,
)
    requires
        0 <= qty <= i64::MAX,
        forall|i: int| 0 <= i < levels.len() ==> (#[trigger] levels[i]).1.0 > 0,
    ensures
        ({
            let (fills, left) = walk_levels(levels, taker, qty, limit);
            &&& 0 <= left
            &&& quantity_sum(fills) + left == qty
            &&& fills.len() <= levels.len()
            &&& forall|i: int|
                0 <= i < fills.len() ==> (#[trigger] fills[i]).0 == levels[i].0 && acceptable(
                    taker,
                    fills[i].0,
                    limit,
                ) && 0 < fills[i].1.0 <= levels[i].1.0
            &&& forall|i: int|
                0 <= i < fills.len() - 1 ==> (#[trigger] fills[i]).1 == levels[i].1
            &&& left > 0 && fills.len() > 0 ==> fills.last().1 == levels[fills.len() - 1].1
        }),
    decreases levels.len(),
{
    let (fills, left) = walk_levels(levels, taker, qty, limit);
    if levels.len() == 0 || qty <= 0 || !acceptable(taker, levels[0].0, limit) {
        assert(quantity_sum(Seq::<(Price, Qty)>::empty()) == 0);
    } else {
        let rest = levels.drop_first();
        let take = if qty <= levels[0].1.0 {
            qty
        } else {
            levels[0].1.0 as int
        };
        assert(levels[0].1.0 > 0);
        assert forall|i: int| 0 <= i < rest.len() implies (#[trigger] rest[i]).1.0 > 0 by {
            assert(rest[i] == levels[i + 1]);
        }
        walking_is_sound(rest, taker, qty - take, limit);
        let (tail, _) = walk_levels(rest, taker, qty - take, limit);
        let first = (levels[0].0, Qty(take as i64));
        sum_from_the_front(first, tail);
        assert forall|i: int| 0 <= i < fills.len() implies (#[trigger] fills[i]).0 == levels[i].0
            && acceptable(taker, fills[i].0, limit) && 0 < fills[i].1.0 <= levels[i].1.0 by {
            if i > 0 {
                assert(fills[i] == tail[i - 1]);
                assert(rest[i - 1] == levels[i]);
            }
        }
        assert forall|i: int| 0 <= i < fills.len() - 1 implies (#[trigger] fills[i]).1
            == levels[i].1 by {
            if i > 0 {
                assert(fills[i] == tail[i - 1]);
                assert(rest[i - 1] == levels[i]);
            } else {
                assert(tail.len() > 0);
                assert(take == levels[0].1.0);
            }
        }
        if left > 0 {
            if tail.len() > 0 {
                assert(fills.last() == tail.last());
                assert(rest[tail.len() - 1] == levels[fills.len() - 1]);
            }
        }
    }
}

proof fn sum_from_the_front(first: (Price, Qty), rest: Seq<(Price, Qty)>)
    ensures
        quantity_sum(seq![first] + rest) == first.1.0 + quantity_sum(rest),
    decreases rest.len(),
{
    let whole = seq![first] + rest;
    if rest.len() == 0 {
        assert(whole =~= seq![first]);
        assert(whole.drop_last() =~= Seq::<(Price, Qty)>::empty());
        assert(quantity_sum(whole.drop_last()) == 0);
    } else {
        assert(whole.drop_last() =~= seq![first] + rest.drop_last());
        sum_from_the_front(first, rest.drop_last());
    }
}

/// Updates at different prices commute: what a side shows does not depend on
/// the order they arrived in.
pub proof fn updates_commute(levels: Levels, a: BookDelta, b: BookDelta)
    requires
        !(a.action is Clear),
        !(b.action is Clear),
        a.price != b.price,
    ensures
        updated_levels(updated_levels(levels, a), b) == updated_levels(
            updated_levels(levels, b),
            a,
        ),
{
    assert(updated_levels(updated_levels(levels, a), b) =~= updated_levels(
        updated_levels(levels, b),
        a,
    ));
}

/// A two-sided L2 book for one instrument outcome.
///
/// Levels are kept in price order: the top of book does not depend on the
/// sequence updates happened to arrive in.
#[derive(Debug)]
pub struct OrderBook {
    bids: SortedMap<i64, Qty>,
    asks: SortedMap<i64, Qty>,
    status: Option<BookStatus>,
    last_update: Option<UnixNanos>,
}

impl OrderBook {
    pub closed spec fn wf(&self) -> bool {
        &&& self.bids.wf()
        &&& self.asks.wf()
        &&& sizes_positive(self.bids.seq())
        &&& sizes_positive(self.asks.seq())
        &&& self.status != Some(BookStatus::Fresh) ==> self.bids.seq().len() == 0
            && self.asks.seq().len() == 0
    }

    /// The levels of one side.
    pub closed spec fn side(&self, side: Side) -> Levels {
        match side {
            Side::Buy => self.bids@,
            Side::Sell => self.asks@,
        }
    }

    /// The levels of one side, by increasing price.
    pub closed spec fn entries(&self, side: Side) -> Seq<(i64, Qty)> {
        match side {
            Side::Buy => self.bids.seq(),
            Side::Sell => self.asks.seq(),
        }
    }

    /// The levels of one side, best first.
    pub open spec fn ranked(&self, side: Side) -> Seq<(Price, Qty)> {
        best_first(self.entries(side), side)
    }

    pub closed spec fn state(&self) -> Option<BookStatus> {
        self.status
    }

    pub closed spec fn updated_at(&self) -> Option<UnixNanos> {
        self.last_update
    }

    /// The entries of a side and its levels say the same thing: each level
    /// is listed once, in strictly increasing price order, with a positive
    /// size.
    pub proof fn entries_are_levels(&self, side: Side)
        requires
            self.wf(),
        ensures
            keys_sorted::<i64, Qty>(self.entries(side)),
            sizes_positive(self.entries(side)),
            entries_map::<i64, Qty>(self.entries(side)) == self.side(side),
            forall|i: int|
                0 <= i < self.entries(side).len() ==> self.side(side).dom().contains(
                    (#[trigger] self.entries(side)[i]).0,
                ) && self.side(side)[self.entries(side)[i].0] == self.entries(side)[i].1,
            forall|p: i64| #[trigger]
                self.side(side).dom().contains(p) ==> self.side(side)[p].0 > 0 && exists|i: int|
                    0 <= i < self.entries(side).len() && (#[trigger] self.entries(side)[i]).0 == p,
    {
        let s = self.entries(side);
        entries_map_contains::<i64, Qty>(s);
        assert forall|i: int| 0 <= i < s.len() implies self.side(side).dom().contains(
            (#[trigger] s[i]).0,
        ) && self.side(side)[s[i].0] == s[i].1 by {
            assert(s[i].0@ == s[i].0);
        }
        assert forall|p: i64| #[trigger] self.side(side).dom().contains(p) implies self.side(
            side,
        )[p].0 > 0 && exists|i: int| 0 <= i < s.len() && (#[trigger] s[i]).0 == p by {
            let i = choose|i: int| 0 <= i < s.len() && (#[trigger] s[i]).0@ == p;
            assert(s[i].0 == p);
        }
    }

    /// Levels rank best first: bids strictly from the highest price down, asks
    /// strictly from the lowest up, each showing a positive size.
    pub proof fn ranked_is_best_first(&self, side: Side)
        requires
            self.wf(),
        ensures
            forall|i: int, j: int|
                0 <= i < j < self.ranked(side).len() ==> match side {
                    Side::Buy => (#[trigger] self.ranked(side)[i]).0.0 > (
                    #[trigger] self.ranked(side)[j]).0.0,
                    Side::Sell => self.ranked(side)[i].0.0 < self.ranked(side)[j].0.0,
                },
            forall|i: int|
                0 <= i < self.ranked(side).len() ==> (#[trigger] self.ranked(side)[i]).1.0 > 0,
    {
        let s = self.entries(side);
        let r = self.ranked(side);
        self.entries_are_levels(side);
        assert forall|i: int, j: int| 0 <= i < j < r.len() implies match side {
            Side::Buy => (#[trigger] r[i]).0.0 > (#[trigger] r[j]).0.0,
            Side::Sell => r[i].0.0 < r[j].0.0,
        } by {
            match side {
                Side::Buy => {
                    assert(i64::before(s[s.len() - 1 - j].0@, s[s.len() - 1 - i].0@));
                },
                Side::Sell => {
                    assert(i64::before(s[i].0@, s[j].0@));
                },
            }
        }
    }

    pub fn new() -> (b: Self)
        ensures
            b.wf(),
            b.side(Side::Buy) == Levels::empty(),
            b.side(Side::Sell) == Levels::empty(),
            b.entries(Side::Buy).len() == 0,
            b.entries(Side::Sell).len() == 0,
            b.state() is None,
            b.updated_at() is None,
    {
        OrderBook {
            bids: SortedMap::new(),
            asks: SortedMap::new(),
            status: None,
            last_update: None,
        }
    }

    /// A book that was never snapshotted, or that has missed something since,
    /// shows nothing.
    pub proof fn only_a_fresh_book_shows_anything(&self)
        requires
            self.wf(),
            self.state() != Some(BookStatus::Fresh),
        ensures
            self.side(Side::Buy) == Levels::empty(),
            self.side(Side::Sell) == Levels::empty(),
            self.ranked(Side::Buy).len() == 0,
            self.ranked(Side::Sell).len() == 0,
    {
        assert(self.bids@ =~= Levels::empty());
        assert(self.asks@ =~= Levels::empty());
    }

    /// Status, or `None` when no snapshot has ever been applied.
    pub fn status(&self) -> (r: Option<BookStatus>)
        ensures
            r == self.state(),
    {
        self.status
    }

    pub fn is_fresh(&self) -> (r: bool)
        ensures
            r == (self.state() == Some(BookStatus::Fresh)),
    {
        matches!(self.status, Some(BookStatus::Fresh))
    }

    pub fn last_update(&self) -> (r: Option<UnixNanos>)
        ensures
            r == self.updated_at(),
    {
        self.last_update
    }

    /// Replace the whole book. This is what clears a stale state.
    pub fn apply_snapshot(
        &mut self,
        bids: &[(Price, Qty)],
        asks: &[(Price, Qty)],
        ts: UnixNanos,
    ) -> (r: Result<(), BacktestError>)
        ensures
            r is Ok,
            final(self).wf(),
            final(self).side(Side::Buy) == snapshot_levels(bids@),
            final(self).side(Side::Sell) == snapshot_levels(asks@),
            final(self).state() == Some(BookStatus::Fresh),
            final(self).updated_at() == Some(ts),
    {
        self.bids = load_levels(bids);
        self.asks = load_levels(asks);
        self.status = Some(BookStatus::Fresh);
        self.last_update = Some(ts);
        Ok(())
    }

    /// Declare a hole in the data feed.
    ///
    /// Everything derived from incremental updates is untrustworthy from
    /// here until the next snapshot, so the levels are dropped rather than
    /// kept around to be accidentally used.
    pub fn mark_gap(&mut self, ts: UnixNanos)
        ensures
            final(self).wf(),
            final(self).side(Side::Buy) == Levels::empty(),
            final(self).side(Side::Sell) == Levels::empty(),
            final(self).entries(Side::Buy).len() == 0,
            final(self).entries(Side::Sell).len() == 0,
            final(self).state() == Some(BookStatus::Stale { since: ts }),
            final(self).updated_at() == Some(ts),
    {
        self.bids.clear();
        self.asks.clear();
        self.status = Some(BookStatus::Stale { since: ts });
        self.last_update = Some(ts);
    }

    /// Apply one incremental update.
    ///
    /// Errors when the book is stale or was never snapshotted: an
    /// incremental update has no meaning without a base to apply it to.
    pub fn apply_delta(&mut self, instrument: &str, delta: BookDelta, ts: UnixNanos) -> (r: Result<
        (),
        BacktestError,
    >)
        requires
            old(self).wf(),
        ensures
            final(self).wf(),
            match r {
                Ok(_) => {
                    &&& old(self).state() == Some(BookStatus::Fresh)
                    &&& final(self).state() == old(self).state()
                    &&& final(self).updated_at() == Some(ts)
                    &&& final(self).side(delta.side) == updated_levels(
                        old(self).side(delta.side),
                        delta,
                    )
                    &&& final(self).side(delta.side.opposite()) == old(self).side(
                        delta.side.opposite(),
                    )
                    &&& final(self).entries(delta.side.opposite()) == old(self).entries(
                        delta.side.opposite(),
                    )
                },
                Err(e) => {
                    &&& old(self).state() != Some(BookStatus::Fresh)
                    &&& *final(self) == *old(self)
                    &&& e matches BacktestError::BookGap { instrument: i, ts: t, gap_ts } && i@
                        == instrument@ && t == ts.0 && gap_ts == (match old(self).state() {
                        Some(BookStatus::Stale { since }) => since.0,
                        _ => ts.0,
                    })
                },
            },
    {
        match self.status {
            Some(BookStatus::Fresh) => {},
            Some(BookStatus::Stale { since }) => {
                return Err(
                    BacktestError::BookGap {
                        instrument: instrument.to_owned(),
                        ts: ts.0,
                        gap_ts: since.0,
                    },
                );
            },
            None => {
                return Err(
                    BacktestError::BookGap {
                        instrument: instrument.to_owned(),
                        ts: ts.0,
                        gap_ts: ts.0,
                    },
                );
            },
        }
        match delta.side {
            Side::Buy => {
                update_levels(&mut self.bids, delta);
            },
            Side::Sell => {
                update_levels(&mut self.asks, delta);
            },
        }
        self.last_update = Some(ts);
        Ok(())
    }

    /// Restate the book in the terms a split leaves behind. Both sides move
    /// by the same ratio, so nothing becomes marketable that was not.
    pub fn apply_split(&mut self, ratio: Price, ts: UnixNanos) -> (r: Result<(), BacktestError>)
        requires
            old(self).wf(),
        ensures
            final(self).wf(),
            match r {
                Ok(_) => {
                    &&& ratio.0 > 0
                    &&& requoted(old(self).entries(Side::Buy), ratio) == Ok::<Levels, BacktestError>(
                        final(self).side(Side::Buy),
                    )
                    &&& requoted(old(self).entries(Side::Sell), ratio) == Ok::<
                        Levels,
                        BacktestError,
                    >(final(self).side(Side::Sell))
                    &&& final(self).state() == old(self).state()
                    &&& final(self).updated_at() == Some(ts)
                },
                Err(e) => {
                    &&& *final(self) == *old(self)
                    &&& if ratio.0 <= 0 {
                        says(e, "split ratio must be positive"@)
                    } else if requoted(old(self).entries(Side::Buy), ratio) is Err {
                        requoted(old(self).entries(Side::Buy), ratio) == Err::<
                            Levels,
                            BacktestError,
                        >(e)
                    } else {
                        requoted(old(self).entries(Side::Sell), ratio) == Err::<
                            Levels,
                            BacktestError,
                        >(e)
                    }
                },
            },
    {
        if ratio.0 <= 0 {
            return Err(BacktestError::invalid("split ratio must be positive"));
        }
        let bids = requote(&self.bids, ratio)?;
        let asks = requote(&self.asks, ratio)?;
        self.bids = bids;
        self.asks = asks;
        self.last_update = Some(ts);
        Ok(())
    }

    /// Books that hold the same levels rank them alike.
    pub proof fn same_sides_rank_alike(&self, other: &Self, side: Side)
        requires
            self.wf(),
            other.wf(),
            self.side(side) == other.side(side),
        ensures
            self.ranked(side) == other.ranked(side),
    {
        sorted_one_way(self.entries(side), other.entries(side));
        assert(self.entries(side) =~= other.entries(side));
    }

    /// Books that show the same on a side list it alike.
    pub proof fn same_sides_list_alike(&self, other: &Self, side: Side)
        requires
            self.wf(),
            other.wf(),
            self.side(side) == other.side(side),
        ensures
            self.entries(side) == other.entries(side),
    {
        sorted_one_way(self.entries(side), other.entries(side));
        assert(self.entries(side) =~= other.entries(side));
    }

    /// The best level of a side.
    pub open spec fn best(&self, side: Side) -> Option<(Price, Qty)> {
        if self.ranked(side).len() == 0 {
            None
        } else {
            Some(self.ranked(side)[0])
        }
    }

    /// Best bid: highest price anyone will buy at.
    pub fn best_bid(&self) -> (r: Option<(Price, Qty)>)
        ensures
            r == self.best(Side::Buy),
    {
        let n: usize = self.bids.len();
        if n == 0 {
            None
        } else {
            Some((Price(*self.bids.key_at(n - 1)), *self.bids.value_at(n - 1)))
        }
    }

    /// Best ask: lowest price anyone will sell at.
    pub fn best_ask(&self) -> (r: Option<(Price, Qty)>)
        ensures
            r == self.best(Side::Sell),
    {
        if self.asks.len() == 0 {
            None
        } else {
            Some((Price(*self.asks.key_at(0)), *self.asks.value_at(0)))
        }
    }

    /// The distance between the best prices, or `None` when either side is
    /// empty.
    pub fn spread(&self) -> (r: Option<Price>)
        requires
            match (self.best(Side::Buy), self.best(Side::Sell)) {
                (Some((bid, _)), Some((ask, _))) => fits(ask.0 - bid.0),
                _ => true,
            },
        ensures
            match (self.best(Side::Buy), self.best(Side::Sell)) {
                (Some((bid, _)), Some((ask, _))) => r matches Some(s) && s.0 == ask.0 - bid.0,
                _ => r is None,
            },
    {
        match (self.best_bid(), self.best_ask()) {
            (Some((bid, _)), Some((ask, _))) => Some(Price(ask.0 - bid.0)),
            _ => None,
        }
    }

    /// The price half way between the best ones, rounded towards zero.
    pub open spec fn midpoint(&self) -> Option<Price> {
        match (self.best(Side::Buy), self.best(Side::Sell)) {
            (Some((bid, _)), Some((ask, _))) => Some(Price(div_trunc(bid.0 + ask.0, 2) as i64)),
            _ => None,
        }
    }

    /// Mid price, or `None` when either side is empty.
    pub fn mid(&self) -> (r: Option<Price>)
        ensures
            r == self.midpoint(),
    {
        match (self.best_bid(), self.best_ask()) {
            (Some((bid, _)), Some((ask, _))) => {
                let sum: i128 = bid.0 as i128 + ask.0 as i128;
                let half: i128 = crate::types::divide_trunc(sum, 2);
                Some(Price(half as i64))
            },
            _ => None,
        }
    }

    /// Levels on one side, best first.
    pub fn levels(&self, side: Side) -> (out: Vec<(Price, Qty)>)
        ensures
            out@ == self.ranked(side),
    {
        let mut out: Vec<(Price, Qty)> = Vec::new();
        let n: usize = self.depth(side);
        let mut i: usize = 0;
        while i < n
            invariant
                n == self.entries(side).len(),
                i <= n,
                out@.len() == i,
                forall|j: int| 0 <= j < i ==> #[trigger] out@[j] == self.ranked(side)[j],
            decreases n - i,
        {
            out.push(self.level_at(side, i));
            i += 1;
        }
        assert(out@ =~= self.ranked(side));
        out
    }

    /// The level at position `i` of a side, best first.
    fn level_at(&self, side: Side, i: usize) -> (r: (Price, Qty))
        requires
            i < self.entries(side).len(),
        ensures
            r == self.ranked(side)[i as int],
    {
        match side {
            Side::Buy => {
                let n: usize = self.bids.len();
                (Price(*self.bids.key_at(n - 1 - i)), *self.bids.value_at(n - 1 - i))
            },
            Side::Sell => (Price(*self.asks.key_at(i)), *self.asks.value_at(i)),
        }
    }

    pub fn depth(&self, side: Side) -> (n: usize)
        ensures
            n == self.entries(side).len(),
    {
        match side {
            Side::Buy => self.bids.len(),
            Side::Sell => self.asks.len(),
        }
    }

    /// Displayed quantity at one exact price.
    pub fn quantity_at(&self, side: Side, price: Price) -> (r: Option<Qty>)
        requires
            self.wf(),
        ensures
            r == (if self.side(side).dom().contains(price.0) {
                Some(self.side(side)[price.0])
            } else {
                None
            }),
    {
        let found = match side {
            Side::Buy => self.bids.get(&price.0),
            Side::Sell => self.asks.get(&price.0),
        };
        match found {
            Some(q) => Some(*q),
            None => None,
        }
    }

    /// Walk the book consuming up to `qty`, as a taker would: a buyer lifts
    /// asks from low to high, a seller hits bids from high to low.
    ///
    /// Returns the fills level by level rather than an average price,
    /// because the caller needs to know it ran out of liquidity, and an
    /// average silently hides a partial fill.
    pub fn walk(&self, taker_side: Side, qty: Qty, limit: Option<Price>) -> (r: BookWalk)
        requires
            self.wf(),
        ensures
            (r.fills@, r.unfilled.0 as int) == walk_levels(
                self.ranked(taker_side.opposite()),
                taker_side,
                qty.0 as int,
                limit,
            ),
            r.wf(),
            qty.0 >= 0 ==> quantity_sum(r.fills@) + r.unfilled.0 == qty.0 && r.unfilled.0 >= 0,
            qty.0 <= 0 ==> r.fills@.len() == 0 && r.unfilled == qty,
    {
        let maker: Side = taker_side.opposite();
        let ghost levels = self.ranked(maker);
        let ghost want = walk_levels(levels, taker_side, qty.0 as int, limit);
        let mut remaining: i64 = qty.0;
        let mut fills: Vec<(Price, Qty)> = Vec::new();
        let n: usize = self.depth(maker);
        let mut i: usize = 0;
        assert(levels.skip(0) =~= levels);
        let mut open: bool = true;
        while open && i < n && remaining > 0
            invariant
                self.wf(),
                maker == taker_side.opposite(),
                levels == self.ranked(maker),
                n == levels.len(),
                i <= n,
                want == walk_levels(levels, taker_side, qty.0 as int, limit),
                open ==> want.0 =~= fills@ + walk_levels(
                    levels.skip(i as int),
                    taker_side,
                    remaining as int,
                    limit,
                ).0,
                open ==> want.1 == walk_levels(
                    levels.skip(i as int),
                    taker_side,
                    remaining as int,
                    limit,
                ).1,
                !open ==> want == (fills@, remaining as int),
                remaining <= qty.0,
                qty.0 >= 0 ==> 0 <= remaining,
                quantity_sum(fills@) + remaining == qty.0,
                forall|j: int| 0 <= j < fills@.len() ==> (#[trigger] fills@[j]).1.0 > 0,
                qty.0 <= 0 ==> fills@.len() == 0,
            decreases n - i, (if open { 1int } else { 0int }),
        {
            let (price, size) = self.level_at(maker, i);
            proof {
                self.entries_are_levels(maker);
                assert(levels.skip(i as int)[0] == levels[i as int]);
                assert(levels.skip(i as int).drop_first() =~= levels.skip(i + 1));
                let e = self.entries(maker);
                assert(size.0 > 0) by {
                    assert(e[i as int].1.0 > 0);
                    assert(e[e.len() - 1 - i].1.0 > 0);
                }
            }
            let acceptable = match limit {
                None => true,
                Some(cap) => match taker_side {
                    Side::Buy => price.0 <= cap.0,
                    Side::Sell => price.0 >= cap.0,
                },
            };
            if !acceptable {
                open = false;
                assert(want.0 =~= fills@);
            } else {
                let take: i64 = if remaining <= size.0 {
                    remaining
                } else {
                    size.0
                };
                let ghost before = fills@;
                fills.push((price, Qty(take)));
                assert(fills@.drop_last() =~= before);
                remaining = remaining - take;
                i += 1;
            }
        }
        proof {
            if open {
                assert(walk_levels(levels.skip(i as int), taker_side, remaining as int, limit).0
                    =~= Seq::<(Price, Qty)>::empty());
                assert(want.0 =~= fills@);
            }
            quantity_sum_positive(fills@);
        }
        BookWalk { fills, unfilled: Qty(remaining) }
    }
}

/// Levels in the terms a split leaves behind: each price divided by the
/// ratio, each size multiplied by it. Levels that fall on one price are
/// added up, and what rounds away to nothing is gone.
pub open spec fn requoted(entries: Seq<(i64, Qty)>, ratio: Price) -> Result<Levels, BacktestError>
    decreases entries.len(),
{
    if entries.len() == 0 {
        Ok(Map::empty())
    } else {
        match requoted(entries.drop_last(), ratio) {
            Err(e) => Err(e),
            Ok(levels) => {
                let size = split_quantity(ratio.0 as int, entries.last().1.0 as int);
                let price = split_price(ratio.0 as int, entries.last().0 as int);
                let there = if levels.dom().contains(price as i64) {
                    levels[price as i64].0
                } else {
                    0
                };
                if !fits(size) {
                    Err(BacktestError::Overflow { what: "split_position quantity" })
                } else if !fits(price) {
                    Err(BacktestError::Overflow { what: "split_position price" })
                } else if size <= 0 {
                    Ok(levels)
                } else if !fits(there + size) {
                    Err(BacktestError::Overflow { what: "Qty::add" })
                } else {
                    Ok(levels.insert(price as i64, Qty((there + size) as i64)))
                }
            },
        }
    }
}

proof fn requoted_stops(entries: Seq<(i64, Qty)>, ratio: Price, n: int)
    requires
        0 <= n <= entries.len(),
        requoted(entries.take(n), ratio) is Err,
    ensures
        requoted(entries, ratio) == requoted(entries.take(n), ratio),
    decreases entries.len() - n,
{
    if n < entries.len() {
        assert(entries.take(n + 1).drop_last() =~= entries.take(n));
        requoted_stops(entries, ratio, n + 1);
    } else {
        assert(entries.take(n) =~= entries);
    }
}

/// Restate one side after a split.
fn requote(side: &SortedMap<i64, Qty>, ratio: Price) -> (r: Result<
    SortedMap<i64, Qty>,
    BacktestError,
>)
    requires
        ratio.0 > 0,
    ensures
        match r {
            Ok(out) => {
                &&& out.wf()
                &&& sizes_positive(out.seq())
                &&& side.seq().len() == 0 ==> out.seq().len() == 0
                &&& requoted(side.seq(), ratio) == Ok::<Levels, BacktestError>(out@)
            },
            Err(e) => requoted(side.seq(), ratio) == Err::<Levels, BacktestError>(e),
        },
{
    let mut out: SortedMap<i64, Qty> = SortedMap::new();
    let n: usize = side.len();
    let mut i: usize = 0;
    while i < n
        invariant
            ratio.0 > 0,
            n == side.seq().len(),
            i <= n,
            out.wf(),
            i == 0 ==> out.seq().len() == 0,
            sizes_positive(out.seq()),
            requoted(side.seq().take(i as int), ratio) == Ok::<Levels, BacktestError>(out@),
        decreases n - i,
    {
        let price = *side.key_at(i);
        let size = *side.value_at(i);
        proof {
            assert(side.seq().take(i + 1).drop_last() =~= side.seq().take(i as int));
            assert(side.seq().take(i + 1).last() == side.seq()[i as int]);
        }
        let (new_size, new_price) = match CorporateAction::split_position(
            ratio,
            size,
            Price(price),
        ) {
            Ok(both) => both,
            Err(e) => {
                proof {
                    requoted_stops(side.seq(), ratio, i + 1);
                }
                return Err(e);
            },
        };
        if new_size.is_positive() {
            let there = match out.get(&new_price.0) {
                Some(q) => *q,
                None => Qty(0),
            };
            proof {
                entries_map_contains(out.seq());
            }
            let sum = match there.checked_add(new_size) {
                Ok(sum) => sum,
                Err(e) => {
                    proof {
                        requoted_stops(side.seq(), ratio, i + 1);
                    }
                    return Err(e);
                },
            };
            assert(sum.0 > 0);
            insert_level(&mut out, new_price.0, sum);
        }
        i += 1;
    }
    assert(side.seq().take(n as int) =~= side.seq());
    Ok(out)
}

/// Build one side from a snapshot's list.
fn load_levels(listed: &[(Price, Qty)]) -> (side: SortedMap<i64, Qty>)
    ensures
        side.wf(),
        sizes_positive(side.seq()),
        side@ == snapshot_levels(listed@),
{
    let mut side: SortedMap<i64, Qty> = SortedMap::new();
    let n: usize = listed.len();
    let mut i: usize = 0;
    while i < n
        invariant
            n == listed@.len(),
            i <= n,
            side.wf(),
            sizes_positive(side.seq()),
            side@ == snapshot_levels(listed@.take(i as int)),
        decreases n - i,
    {
        let (price, size) = listed[i];
        assert(listed@.take(i + 1).drop_last() =~= listed@.take(i as int));
        if size.is_positive() {
            insert_level(&mut side, price.0, size);
        }
        i += 1;
    }
    assert(listed@.take(n as int) =~= listed@);
    side
}

/// Show `size` at a price.
fn insert_level(side: &mut SortedMap<i64, Qty>, price: i64, size: Qty)
    requires
        old(side).wf(),
        sizes_positive(old(side).seq()),
        size.0 > 0,
    ensures
        final(side).wf(),
        sizes_positive(final(side).seq()),
        final(side)@ == old(side)@.insert(price, size),
{
    let ghost before = side.seq();
    let at = side.insert(price, size);
    proof {
        let after = side.seq();
        assert forall|i: int| 0 <= i < after.len() implies (#[trigger] after[i]).1.0 > 0 by {
            if old(side)@.dom().contains(price) {
                if i != at {
                    assert(after[i] == before[i]);
                }
            } else if i < at {
                assert(after[i] == before[i]);
            } else if i > at {
                assert(after[i] == before[i - 1]);
            }
        }
    }
}

/// Drop the level at a price, if there is one.
fn remove_level(side: &mut SortedMap<i64, Qty>, price: i64)
    requires
        old(side).wf(),
        sizes_positive(old(side).seq()),
    ensures
        final(side).wf(),
        sizes_positive(final(side).seq()),
        final(side)@ == old(side)@.remove(price),
{
    let ghost before = side.seq();
    side.remove(&price);
    proof {
        let after = side.seq();
        if after != before {
            let k = choose|k: int|
                0 <= k < before.len() && before[k].0@ == price@ && after == #[trigger] before.remove(
                    k,
                );
            assert forall|i: int| 0 <= i < after.len() implies (#[trigger] after[i]).1.0 > 0 by {
                if i < k {
                    assert(after[i] == before[i]);
                } else {
                    assert(after[i] == before[i + 1]);
                }
            }
        }
    }
}

/// Apply an update to the levels of its side.
fn update_levels(side: &mut SortedMap<i64, Qty>, delta: BookDelta)
    requires
        old(side).wf(),
        sizes_positive(old(side).seq()),
    ensures
        final(side).wf(),
        sizes_positive(final(side).seq()),
        final(side)@ == updated_levels(old(side)@, delta),
{
    match delta.action {
        BookAction::Put => {
            if delta.size.is_positive() {
                insert_level(side, delta.price.0, delta.size);
            } else {
                // A zero size is how most venues spell "delete".
                remove_level(side, delta.price.0);
            }
        },
        BookAction::Delete => {
            remove_level(side, delta.price.0);
        },
        BookAction::Clear => {
            side.clear();
        },
    }
}

/// The result of walking the book for a taker order.
#[derive(PartialEq, Eq, Debug)]
pub struct BookWalk {
    /// `(price, quantity)` per level consumed, best first.
    pub fills: Vec<(Price, Qty)>,
    /// What could not be filled from the visible book.
    pub unfilled: Qty,
}

proof fn quantity_sum_positive(fills: Seq<(Price, Qty)>)
    requires
        forall|i: int| 0 <= i < fills.len() ==> (#[trigger] fills[i]).1.0 > 0,
    ensures
        quantity_sum(fills) >= 0,
        fills.len() > 0 ==> quantity_sum(fills) > 0,
    decreases fills.len(),
{
    if fills.len() > 0 {
        quantity_sum_positive(fills.drop_last());
    }
}

proof fn quantity_sum_prefix(fills: Seq<(Price, Qty)>, n: int)
    requires
        forall|i: int| 0 <= i < fills.len() ==> (#[trigger] fills[i]).1.0 > 0,
        0 <= n <= fills.len(),
    ensures
        0 <= quantity_sum(fills.take(n)) <= quantity_sum(fills),
    decreases fills.len() - n,
{
    quantity_sum_positive(fills.take(n));
    if n < fills.len() {
        quantity_sum_prefix(fills, n + 1);
        assert(fills.take(n + 1).drop_last() =~= fills.take(n));
        assert(fills.take(n + 1).last() == fills[n]);
    } else {
        assert(fills.take(n) =~= fills);
    }
}

proof fn weighted_sum_bound(fills: Seq<(Price, Qty)>)
    requires
        forall|i: int| 0 <= i < fills.len() ==> (#[trigger] fills[i]).1.0 > 0,
    ensures
        -(quantity_sum(fills) * 0x8000_0000_0000_0000) <= weighted_sum(fills) <= quantity_sum(fills)
            * 0x7fff_ffff_ffff_ffff,
    decreases fills.len(),
{
    if fills.len() > 0 {
        weighted_sum_bound(fills.drop_last());
        let p = (fills.last().0).0 as int;
        let q = (fills.last().1).0 as int;
        let s = quantity_sum(fills.drop_last());
        assert(-(q * 0x8000_0000_0000_0000) <= p * q <= q * 0x7fff_ffff_ffff_ffff)
            by (nonlinear_arith)
            requires
                q > 0,
                -0x8000_0000_0000_0000 <= p <= 0x7fff_ffff_ffff_ffff,
        ;
        assert((s + q) * 0x8000_0000_0000_0000 == s * 0x8000_0000_0000_0000 + q
            * 0x8000_0000_0000_0000) by (nonlinear_arith);
        assert((s + q) * 0x7fff_ffff_ffff_ffff == s * 0x7fff_ffff_ffff_ffff + q
            * 0x7fff_ffff_ffff_ffff) by (nonlinear_arith);
    }
}

impl BookWalk {
    /// Every fill has a positive quantity, and together they fit.
    pub open spec fn wf(&self) -> bool {
        &&& forall|i: int| 0 <= i < self.fills@.len() ==> (#[trigger] self.fills@[i]).1.0 > 0
        &&& fits(quantity_sum(self.fills@))
    }

    pub fn filled(&self) -> (r: Qty)
        requires
            self.wf(),
        ensures
            r.0 == quantity_sum(self.fills@),
    {
        let n: usize = self.fills.len();
        let mut sum: i64 = 0;
        let mut i: usize = 0;
        while i < n
            invariant
                self.wf(),
                n == self.fills@.len(),
                i <= n,
                sum == quantity_sum(self.fills@.take(i as int)),
            decreases n - i,
        {
            proof {
                quantity_sum_prefix(self.fills@, i + 1);
                assert(self.fills@.take(i + 1).drop_last() =~= self.fills@.take(i as int));
            }
            sum = sum + self.fills[i].1.0;
            i += 1;
        }
        assert(self.fills@.take(n as int) =~= self.fills@);
        Qty(sum)
    }

    pub fn is_empty(&self) -> (r: bool)
        ensures
            r == (self.fills@.len() == 0),
    {
        self.fills.len() == 0
    }

    /// Size-weighted average fill price, rounded towards zero, or `None` if
    /// nothing filled.
    pub fn average_price(&self) -> (r: Option<Price>)
        requires
            self.wf(),
        ensures
            match r {
                None => self.fills@.len() == 0,
                Some(p) => self.fills@.len() > 0 && p.0 == div_trunc(
                    weighted_sum(self.fills@),
                    quantity_sum(self.fills@),
                ),
            },
    {
        let total: i64 = self.filled().0;
        proof {
            quantity_sum_positive(self.fills@);
            weighted_sum_bound(self.fills@);
        }
        if total == 0 {
            return None;
        }
        let n: usize = self.fills.len();
        let mut weighted: i128 = 0;
        let mut i: usize = 0;
        while i < n
            invariant
                self.wf(),
                n == self.fills@.len(),
                i <= n,
                weighted == weighted_sum(self.fills@.take(i as int)),
            decreases n - i,
        {
            let (p, q) = self.fills[i];
            proof {
                quantity_sum_prefix(self.fills@, i + 1);
                weighted_sum_bound(self.fills@.take(i + 1));
                assert(self.fills@.take(i + 1).drop_last() =~= self.fills@.take(i as int));
            }
            weighted = weighted + wide_product(p.0, q.0);
            i += 1;
        }
        assert(self.fills@.take(n as int) =~= self.fills@);
        let average: i128 = crate::types::divide_trunc(weighted, total as i128);
        proof {
            average_in_range(weighted as int, total as int);
        }
        match narrow(average, "OrderBook::weighted_mid") {
            Ok(raw) => Some(Price(raw)),
            Err(_) => None,
        }
    }
}

proof fn average_in_range(weighted: int, total: int)
    requires
        total > 0,
        -(total * 0x8000_0000_0000_0000) <= weighted <= total * 0x7fff_ffff_ffff_ffff,
    ensures
        fits(div_trunc(weighted, total)),
{
    if weighted >= 0 {
        assert(0 <= weighted / total <= 0x7fff_ffff_ffff_ffff) by (nonlinear_arith)
            requires
                total > 0,
                0 <= weighted <= total * 0x7fff_ffff_ffff_ffff,
        ;
    } else {
        let m = -weighted;
        assert(0 <= m / total <= 0x8000_0000_0000_0000) by (nonlinear_arith)
            requires
                total > 0,
                0 <= m <= total * 0x8000_0000_0000_0000,
        ;
    }
}

/// Walking takes all it may: a taker is left wanting only where every level
/// is gone, or where the next one is beyond the limit, dearer than a buyer's
/// or cheaper than a seller's.
pub proof fn walking_takes_all_it_may(
    levels: Seq<(Price, Qty)>,
    taker: Side,
    qty: int,
    limit: Option<Price>,
)
    requires
        0 <= qty <= i64::MAX,
        forall|i: int| 0 <= i < levels.len() ==> (#[trigger] levels[i]).1.0 > 0,
    ensures
        ({
            let (fills, left) = walk_levels(levels, taker, qty, limit);
            &&& left > 0 && limit is None ==> fills.len() == levels.len()
            &&& left > 0 && fills.len() < levels.len() ==> (limit matches Some(cap) && if taker
                == Side::Buy {
                levels[fills.len() as int].0.0 > cap.0
            } else {
                levels[fills.len() as int].0.0 < cap.0
            })
            &&& limit matches Some(cap) ==> forall|i: int|
                0 <= i < fills.len() ==> if taker == Side::Buy {
                    (#[trigger] fills[i]).0.0 <= cap.0
                } else {
                    fills[i].0.0 >= cap.0
                }
        }),
    decreases levels.len(),
{
    walking_is_sound(levels, taker, qty, limit);
    if levels.len() > 0 && qty > 0 && acceptable(taker, levels[0].0, limit) {
        let rest = levels.drop_first();
        let take = if qty <= levels[0].1.0 { qty } else { levels[0].1.0 as int };
        assert forall|i: int| 0 <= i < rest.len() implies (#[trigger] rest[i]).1.0 > 0 by {
            assert(rest[i] == levels[i + 1]);
        }
        walking_takes_all_it_may(rest, taker, qty - take, limit);
        walking_is_sound(rest, taker, qty - take, limit);
        let (fills, left) = walk_levels(levels, taker, qty, limit);
        let (after, _) = walk_levels(rest, taker, qty - take, limit);
        assert(fills.len() == after.len() + 1);
        if left > 0 && fills.len() < levels.len() {
            assert(rest[after.len() as int] == levels[fills.len() as int]);
        }
    }
}

impl OrderBook {
    /// The best level of a side is the one a taker would reach first: the
    /// highest bid or the lowest ask that is shown, at the size it shows.
    /// There is none only where nothing is shown.
    pub proof fn the_best_level_is_unbeaten(&self, side: Side)
        requires
            self.wf(),
        ensures
            match self.best(side) {
                None => forall|p: i64| !#[trigger] self.side(side).dom().contains(p),
                Some((best, size)) => {
                    &&& self.side(side).dom().contains(best.0)
                    &&& self.side(side)[best.0] == size
                    &&& forall|p: i64| #[trigger]
                        self.side(side).dom().contains(p) ==> if side == Side::Buy {
                            p <= best.0
                        } else {
                            p >= best.0
                        }
                },
            },
    {
        let entries = self.entries(side);
        self.entries_are_levels(side);
        if entries.len() > 0 {
            let (best, _) = self.best(side)->Some_0;
            let at = match side {
                Side::Buy => entries.len() - 1,
                Side::Sell => 0,
            };
            assert(entries[at].0 == best.0);
            assert forall|p: i64| #[trigger] self.side(side).dom().contains(p) implies if side
                == Side::Buy {
                p <= best.0
            } else {
                p >= best.0
            } by {
                let i = choose|i: int| 0 <= i < entries.len() && (#[trigger] entries[i]).0 == p;
                if i < at {
                    assert(i64::before(entries[i].0@, entries[at].0@));
                } else if at < i {
                    assert(i64::before(entries[at].0@, entries[i].0@));
                }
            }
        } else {
            assert forall|p: i64| !#[trigger] self.side(side).dom().contains(p) by {
                if self.side(side).dom().contains(p) {
                    let i = choose|i: int| 0 <= i < entries.len() && (#[trigger] entries[i]).0 == p;
                    assert(false);
                }
            }
        }
    }

    /// The mid is half way between the best bid and the best ask, to within
    /// half a raw unit, and lies between them. There is one where both sides
    /// show something.
    pub proof fn the_mid_is_half_way(&self)
        ensures
            self.midpoint() is Some <==> self.best(Side::Buy) is Some && self.best(
                Side::Sell,
            ) is Some,
            self.midpoint() matches Some(mid) ==> {
                let bid = self.best(Side::Buy)->Some_0.0.0;
                let ask = self.best(Side::Sell)->Some_0.0.0;
                &&& -1 <= 2 * mid.0 - (bid + ask) <= 1
                &&& bid <= ask ==> bid <= mid.0 <= ask
            },
    {
    }
}

/// A snapshot shows every price it lists with a size, at the size it lists
/// last.
pub proof fn a_snapshot_shows_what_it_lists(listed: Seq<(Price, Qty)>, i: int)
    requires
        0 <= i < listed.len(),
        listed[i].1.0 > 0,
        forall|j: int|
            i < j < listed.len() ==> (#[trigger] listed[j]).0 != listed[i].0 || listed[j].1.0 <= 0,
    ensures
        snapshot_levels(listed).dom().contains(listed[i].0.0),
        snapshot_levels(listed)[listed[i].0.0] == listed[i].1,
    decreases listed.len(),
{
    let head = listed.drop_last();
    if i < head.len() {
        assert forall|j: int| i < j < head.len() implies (#[trigger] head[j]).0 != head[i].0
            || head[j].1.0 <= 0 by {
            assert(head[j] == listed[j]);
        }
        a_snapshot_shows_what_it_lists(head, i);
        assert(listed[listed.len() - 1].0 != listed[i].0 || listed[listed.len() - 1].1.0 <= 0);
    }
}

/// A snapshot shows no price that it does not list with a size.
pub proof fn a_snapshot_shows_nothing_else(listed: Seq<(Price, Qty)>, price: Price)
    requires
        forall|i: int|
            0 <= i < listed.len() ==> (#[trigger] listed[i]).0 != price || listed[i].1.0 <= 0,
    ensures
        !snapshot_levels(listed).dom().contains(price.0),
    decreases listed.len(),
{
    if listed.len() > 0 {
        let head = listed.drop_last();
        assert forall|i: int| 0 <= i < head.len() implies (#[trigger] head[i]).0 != price
            || head[i].1.0 <= 0 by {
            assert(head[i] == listed[i]);
        }
        a_snapshot_shows_nothing_else(head, price);
        assert(listed[listed.len() - 1].0 != price || listed[listed.len() - 1].1.0 <= 0);
    }
}

/// An update changes the price it names and no other: a size puts a level
/// there, no size or a deletion takes it away, and clearing takes them all.
pub proof fn an_update_changes_one_price(levels: Levels, delta: BookDelta, other: i64)
    ensures
        ({
            let after = updated_levels(levels, delta);
            &&& delta.action is Clear ==> !after.dom().contains(other)
            &&& !(delta.action is Clear) && other != delta.price.0 ==> after.dom().contains(other)
                == levels.dom().contains(other) && (levels.dom().contains(other) ==> after[other]
                == levels[other])
            &&& delta.action is Put && delta.size.0 > 0 ==> after.dom().contains(delta.price.0)
                && after[delta.price.0] == delta.size
            &&& delta.action is Delete || (delta.action is Put && delta.size.0 <= 0)
                ==> !after.dom().contains(delta.price.0)
        }),
{
}

/// An average price lies between the cheapest and the dearest of the fills,
/// and fills add up: what they come to grows by each fill's own quantity and
/// by that quantity at its price.
pub proof fn an_average_lies_between_the_fills(fills: Seq<(Price, Qty)>, low: int, high: int)
    requires
        forall|i: int| 0 <= i < fills.len() ==> (#[trigger] fills[i]).1.0 > 0,
        forall|i: int| 0 <= i < fills.len() ==> low <= (#[trigger] fills[i]).0.0 <= high,
    ensures
        fills.len() > 0 ==> quantity_sum(fills) > 0,
        low * quantity_sum(fills) <= weighted_sum(fills) <= high * quantity_sum(fills),
        fills.len() > 0 ==> low <= div_trunc(weighted_sum(fills), quantity_sum(fills)) <= high,
        fills.len() > 0 ==> {
            let (head, last) = (fills.drop_last(), fills.last());
            &&& quantity_sum(fills) - quantity_sum(head) == last.1.0
            &&& weighted_sum(fills) - weighted_sum(head) == last.0.0 * last.1.0
        },
    decreases fills.len(),
{
    if fills.len() > 0 {
        let head = fills.drop_last();
        let last = fills.last();
        assert(fills[fills.len() - 1] == last);
        assert forall|i: int| 0 <= i < head.len() implies (#[trigger] head[i]).1.0 > 0 && low
            <= head[i].0.0 <= high by {
            assert(head[i] == fills[i]);
        }
        an_average_lies_between_the_fills(head, low, high);
        let (p, q) = (last.0.0 as int, last.1.0 as int);
        let (n, w) = (quantity_sum(head), weighted_sum(head));
        assert(low * (n + q) <= w + p * q <= high * (n + q)) by (nonlinear_arith)
            requires
                low * n <= w <= high * n,
                low <= p <= high,
                q > 0,
        ;
        assert(n >= 0);
        a_quotient_lies_between(weighted_sum(fills), quantity_sum(fills), low, high);
    } else {
        assert(low * 0 == 0 && high * 0 == 0);
    }
}

/// A split requotes every level and makes up none: what a level held is at
/// its price divided by the ratio, multiplied by it, and each requoted level
/// holds something and comes of one there was. A level alone on its new price
/// is exactly what it was in the new terms.
pub proof fn a_split_requotes_every_level(
    entries: Seq<(i64, Qty)>,
    ratio: Price,
    levels: Levels,
    k: int,
)
    requires
        requoted(entries, ratio) == Ok::<Levels, BacktestError>(levels),
        0 <= k < entries.len(),
    ensures
        ({
            let size = split_quantity(ratio.0 as int, entries[k].1.0 as int);
            let price = split_price(ratio.0 as int, entries[k].0 as int);
            &&& fits(price)
            &&& fits(size)
            &&& size > 0 ==> levels.dom().contains(price as i64) && levels[price as i64].0 >= size
            &&& size > 0 && (forall|i: int|
                0 <= i < entries.len() && i != k ==> split_price(
                    ratio.0 as int,
                    (#[trigger] entries[i]).0 as int,
                ) != price) ==> levels[price as i64].0 == size
        }),
        forall|p: i64| #[trigger]
            levels.dom().contains(p) ==> levels[p].0 > 0 && comes_of(entries, ratio, p),
    decreases entries.len(),
{
    let last = entries.len() - 1;
    let front = entries.drop_last();
    let before = requoted(front, ratio)->Ok_0;
    let size = split_quantity(ratio.0 as int, entries[last].1.0 as int);
    let price = split_price(ratio.0 as int, entries[last].0 as int);
    if last > 0 {
        a_split_requotes_every_level(front, ratio, before, if k < last { k } else { 0 });
        assert(forall|i: int| 0 <= i < last ==> #[trigger] front[i] == entries[i]);
    } else {
        assert(front =~= Seq::<(i64, Qty)>::empty());
    }
    assert forall|p: i64| #[trigger] levels.dom().contains(p) implies levels[p].0 > 0 && comes_of(
        entries,
        ratio,
        p,
    ) by {
        if size > 0 && p == price {
            assert(requotes_to(entries[last], ratio, p));
        } else {
            assert(before.dom().contains(p));
            let i = choose|i: int| 0 <= i < front.len() && requotes_to(#[trigger] front[i], ratio, p);
            assert(entries[i] == front[i]);
            assert(requotes_to(entries[i], ratio, p));
        }
    }
    if k == last && before.dom().contains(price as i64) && size > 0 && (forall|i: int|
        0 <= i < entries.len() && i != k ==> split_price(
            ratio.0 as int,
            (#[trigger] entries[i]).0 as int,
        ) != price) {
        let i = choose|i: int|
            0 <= i < front.len() && requotes_to(#[trigger] front[i], ratio, price as i64);
        assert(entries[i] == front[i]);
        assert(false);
    }
}

/// Whether a level falls on a price after a split.
pub open spec fn requotes_to(entry: (i64, Qty), ratio: Price, price: i64) -> bool {
    split_price(ratio.0 as int, entry.0 as int) == price
}

/// Whether any of a list of levels falls on a price after a split.
pub open spec fn comes_of(entries: Seq<(i64, Qty)>, ratio: Price, price: i64) -> bool {
    exists|i: int| 0 <= i < entries.len() && requotes_to(#[trigger] entries[i], ratio, price)
}

} // verus!
