//! What the replay says about each market: its book, and the prices
//! standing alongside it.
//!
//! The *effective* mark is what positions are valued at. The price the book
//! implies and the price the venue publishes are kept apart underneath, so
//! choosing between them is a policy rather than a rewrite.

use vstd::prelude::*;

use crate::book::{
    requoted, snapshot_levels, updated_levels, BookStatus, Levels, OrderBook,
};
use crate::corporate::{
    a_split_multiplies_shares_and_divides_prices, split_price, split_quantity, CorporateAction,
};
use crate::error::BacktestError;
use crate::event::MarketEvent;
use crate::instrument::{InstrumentId, OutcomeId};
use crate::metrics::MarkSource;
use crate::ordered::SortedMap;
use crate::position::{KeyView, PositionKey};
use crate::types::{fits, Price, Qty, Side, UnixNanos, SCALE};

verus! {

/// Prices by market.
pub type Prices = Map<KeyView, Price>;

/// Books and prices, by market.
pub struct Market {
    pub books: SortedMap<PositionKey, OrderBook>,
    /// What positions are valued at.
    pub marks: SortedMap<PositionKey, Price>,
    /// What the book, or the last print or bar, implies.
    pub book_marks: SortedMap<PositionKey, Price>,
    /// What the venue publishes as its mark.
    pub venue_marks: SortedMap<PositionKey, Price>,
    /// What the venue publishes as its oracle.
    pub oracles: SortedMap<PositionKey, Price>,
    pub mark_source: MarkSource,
}

/// What a book shows.
pub struct BookView {
    pub bids: Levels,
    pub asks: Levels,
    pub status: Option<BookStatus>,
    pub updated_at: Option<UnixNanos>,
}

/// What a book shows.
pub open spec fn shown_by(book: OrderBook) -> BookView {
    BookView {
        bids: book.side(Side::Buy),
        asks: book.side(Side::Sell),
        status: book.state(),
        updated_at: book.updated_at(),
    }
}

/// What books show, by market.
pub open spec fn shown_by_all(books: Map<KeyView, OrderBook>) -> Map<KeyView, BookView> {
    Map::new(|k: KeyView| books.dom().contains(k), |k: KeyView| shown_by(books[k]))
}

/// What the market shows.
pub struct MarketView {
    pub books: Map<KeyView, BookView>,
    pub marks: Prices,
    pub book_marks: Prices,
    pub venue_marks: Prices,
    pub oracles: Prices,
    pub mark_source: MarkSource,
}

impl View for Market {
    type V = MarketView;

    open spec fn view(&self) -> MarketView {
        MarketView {
            books: shown_by_all(self.books@),
            marks: self.marks@,
            book_marks: self.book_marks@,
            venue_marks: self.venue_marks@,
            oracles: self.oracles@,
            mark_source: self.mark_source,
        }
    }
}

/// A price, if one stands under a key.
pub open spec fn price_in(prices: Prices, key: KeyView) -> Option<Price> {
    if prices.dom().contains(key) {
        Some(prices[key])
    } else {
        None
    }
}

/// Look a price up.
pub fn price_at(prices: &SortedMap<PositionKey, Price>, key: &PositionKey) -> (r: Option<Price>)
    requires
        prices.wf(),
    ensures
        r == price_in(prices@, key@),
{
    match prices.get(key) {
        Some(p) => Some(*p),
        None => None,
    }
}

/// A key built from its parts.
pub fn key_for(instrument: &InstrumentId, outcome: OutcomeId) -> (key: PositionKey)
    ensures
        key@ == (instrument@, outcome.0),
        key.0 == *instrument,
        key.1 == outcome,
{
    (instrument.clone(), outcome)
}

/// The mark a source of marks gives: the venue's where it counts and is
/// published, else the book's.
pub open spec fn effective_mark(source: MarkSource, venue: Option<Price>, book: Option<Price>) -> Option<
    Price,
> {
    match source {
        MarkSource::VenueMark => match venue {
            Some(p) => Some(p),
            None => book,
        },
        MarkSource::BookMid => book,
    }
}

/// What an event does to the book it concerns.
pub open spec fn book_took(
    before: OrderBook,
    after: OrderBook,
    event: MarketEvent,
    ts: UnixNanos,
) -> bool {
    match event {
        MarketEvent::BookSnapshot { bids, asks } => {
            &&& after.side(Side::Buy) == snapshot_levels(bids@)
            &&& after.side(Side::Sell) == snapshot_levels(asks@)
            &&& after.state() == Some(BookStatus::Fresh)
            &&& after.updated_at() == Some(ts)
        },
        MarketEvent::BookDelta(delta) => {
            &&& before.state() == Some(BookStatus::Fresh)
            &&& after.state() == before.state()
            &&& after.updated_at() == Some(ts)
            &&& after.side(delta.side) == updated_levels(before.side(delta.side), delta)
            &&& after.side(delta.side.opposite()) == before.side(delta.side.opposite())
        },
        MarketEvent::Gap => {
            &&& after.side(Side::Buy) == Levels::empty()
            &&& after.side(Side::Sell) == Levels::empty()
            &&& after.entries(Side::Buy).len() == 0
            &&& after.entries(Side::Sell).len() == 0
            &&& after.state() == Some(BookStatus::Stale { since: ts })
            &&& after.updated_at() == Some(ts)
        },
        _ => after == before,
    }
}

/// The price an event itself carries: a print's, or a bar's close.
pub open spec fn printed_price(event: MarketEvent) -> Option<Price> {
    match event {
        MarketEvent::Trade { price, .. } => Some(price),
        MarketEvent::Bar { close, .. } => Some(close),
        _ => None,
    }
}

/// Whether an event changes the book, so that the mark is derived from it
/// again.
pub open spec fn touches_book(event: MarketEvent) -> bool {
    event is BookSnapshot || event is BookDelta || event is Gap || event is Corporate
}

/// Prices with one more, if there is one.
pub open spec fn with_price(prices: Prices, key: KeyView, price: Option<Price>) -> Prices {
    match price {
        Some(p) => prices.insert(key, p),
        None => prices,
    }
}

/// A book in the terms a split leaves behind.
pub open spec fn book_split(before: OrderBook, after: OrderBook, ratio: Price, ts: UnixNanos) -> bool {
    &&& requoted(before.entries(Side::Buy), ratio) == Ok::<Levels, BacktestError>(
        after.side(Side::Buy),
    )
    &&& requoted(before.entries(Side::Sell), ratio) == Ok::<Levels, BacktestError>(
        after.side(Side::Sell),
    )
    &&& after.state() == before.state()
    &&& after.updated_at() == Some(ts)
}

/// Whether a book can be restated after a split.
pub open spec fn book_splittable(book: OrderBook, ratio: Price) -> bool {
    requoted(book.entries(Side::Buy), ratio) is Ok && requoted(book.entries(Side::Sell), ratio) is Ok
}

/// Whether the first `count` outcomes of an instrument hold a key.
pub open spec fn among(key: KeyView, instrument: Seq<char>, count: int) -> bool {
    key.0 == instrument && key.1 < count
}

/// Books before and after the first `count` outcomes of an instrument split.
pub open spec fn books_split(
    before: Map<KeyView, OrderBook>,
    after: Map<KeyView, OrderBook>,
    instrument: Seq<char>,
    count: int,
    ratio: Price,
    ts: UnixNanos,
) -> bool {
    &&& after.dom() == before.dom()
    &&& forall|k: KeyView| #[trigger]
        after.dom().contains(k) ==> if among(k, instrument, count) {
            book_split(before[k], after[k], ratio, ts)
        } else {
            after[k] == before[k]
        }
}

/// Prices before and after the first `count` outcomes of an instrument
/// split.
pub open spec fn prices_split(
    before: Prices,
    after: Prices,
    instrument: Seq<char>,
    count: int,
    ratio: Price,
) -> bool {
    &&& after.dom() == before.dom()
    &&& forall|k: KeyView| #[trigger]
        after.dom().contains(k) ==> if among(k, instrument, count) {
            after[k].0 == split_price(ratio.0 as int, before[k].0 as int)
        } else {
            after[k] == before[k]
        }
}

proof fn prices_split_one_way(
    before: Prices,
    after: Prices,
    then: Prices,
    instrument: Seq<char>,
    count: int,
    ratio: Price,
)
    requires
        prices_split(before, after, instrument, count, ratio),
        prices_split(before, then, instrument, count, ratio),
    ensures
        after == then,
{
    assert forall|k: KeyView| #[trigger] after.dom().contains(k) implies after[k] == then[k] by {
        assert(then.dom().contains(k));
    }
    assert(after =~= then);
}

/// Whether every price of an instrument can be restated after a split.
pub open spec fn prices_splittable(
    prices: Prices,
    instrument: Seq<char>,
    count: int,
    ratio: Price,
) -> bool {
    forall|k: KeyView| #[trigger]
        prices.dom().contains(k) && among(k, instrument, count) ==> fits(
            split_price(ratio.0 as int, prices[k].0 as int),
        )
}

/// Restate one price after a split.
fn split_at(prices: &mut SortedMap<PositionKey, Price>, key: &PositionKey, ratio: Price) -> (r: Result<
    (),
    BacktestError,
>)
    requires
        old(prices).wf(),
        ratio.0 > 0,
    ensures
        final(prices).wf(),
        match r {
            Ok(_) => {
                &&& final(prices)@.dom() == old(prices)@.dom()
                &&& old(prices)@.dom().contains(key@) ==> final(prices)@[key@].0 == split_price(
                    ratio.0 as int,
                    old(prices)@[key@].0 as int,
                )
                &&& forall|k: KeyView|
                    k != key@ && old(prices)@.dom().contains(k) ==> #[trigger] final(prices)@[k]
                        == old(prices)@[k]
            },
            Err(e) => {
                &&& *final(prices) == *old(prices)
                &&& old(prices)@.dom().contains(key@)
                &&& !fits(split_price(ratio.0 as int, old(prices)@[key@].0 as int))
                &&& e == (BacktestError::Overflow { what: "split_position price" })
            },
        },
{
    let i = match prices.find(key) {
        Some(i) => i,
        None => {
            return Ok(());
        },
    };
    let price = *prices.value_at(i);
    assert(split_quantity(ratio.0 as int, 0) == 0) by {
        assert(0 * ratio.0 == 0) by (nonlinear_arith);
    }
    let (_, adjusted) = CorporateAction::split_position(ratio, Qty(0), price)?;
    prices.set_at(i, adjusted);
    assert(prices@.dom() =~= old(prices)@.dom());
    Ok(())
}

/// Restate every price of an instrument after a split.
fn split_series(
    prices: &mut SortedMap<PositionKey, Price>,
    instrument: &InstrumentId,
    count: u16,
    ratio: Price,
) -> (r: Result<(), BacktestError>)
    requires
        old(prices).wf(),
        ratio.0 > 0,
    ensures
        final(prices).wf(),
        match r {
            Ok(_) => prices_splittable(old(prices)@, instrument@, count as int, ratio)
                && prices_split(old(prices)@, final(prices)@, instrument@, count as int, ratio),
            Err(e) => !prices_splittable(old(prices)@, instrument@, count as int, ratio) && e == (
            BacktestError::Overflow { what: "split_position price" }),
        },
{
    let mut n: u16 = 0;
    while n < count
        invariant
            n <= count,
            ratio.0 > 0,
            prices.wf(),
            prices_splittable(old(prices)@, instrument@, n as int, ratio),
            prices_split(old(prices)@, prices@, instrument@, n as int, ratio),
        decreases count - n,
    {
        let key = key_for(instrument, OutcomeId(n));
        let ghost before = prices@;
        match split_at(prices, &key, ratio) {
            Ok(_) => {},
            Err(e) => {
                assert(old(prices)@.dom().contains(key@) && among(
                    key@,
                    instrument@,
                    count as int,
                ));
                return Err(e);
            },
        }
        proof {
            assert forall|k: KeyView| #[trigger]
                old(prices)@.dom().contains(k) && among(k, instrument@, n + 1) implies fits(
                split_price(ratio.0 as int, old(prices)@[k].0 as int),
            ) by {
                if k.1 < n {
                    assert(among(k, instrument@, n as int));
                } else {
                    assert(k == key@);
                }
            }
            assert forall|k: KeyView| #[trigger] prices@.dom().contains(k) implies if among(
                k,
                instrument@,
                n + 1,
            ) {
                prices@[k].0 == split_price(ratio.0 as int, old(prices)@[k].0 as int)
            } else {
                prices@[k] == old(prices)@[k]
            } by {
                assert(before.dom().contains(k));
                if k == key@ {
                } else {
                    assert(prices@[k] == before[k]);
                    assert(among(k, instrument@, n + 1) == among(k, instrument@, n as int));
                }
            }
        }
        n += 1;
    }
    Ok(())
}

impl Market {
    pub open spec fn wf(&self) -> bool {
        &&& self.books.wf()
        &&& self.marks.wf()
        &&& self.book_marks.wf()
        &&& self.venue_marks.wf()
        &&& self.oracles.wf()
        &&& forall|k: KeyView| #[trigger]
            self.books@.dom().contains(k) ==> self.books@[k].wf()
    }

    /// A market with a book standing for one key: the one it had, or an
    /// empty one nothing has been said of.
    pub open spec fn opens(self, after: Market, key: KeyView) -> bool {
        &&& after == (Market { books: after.books, ..self })
        &&& after.books@.dom() == self.books@.dom().insert(key)
        &&& forall|k: KeyView|
            self.books@.dom().contains(k) ==> #[trigger] after.books@[k] == self.books@[k]
        &&& !self.books@.dom().contains(key) ==> {
            let b = after.books@[key];
            &&& b.entries(Side::Buy).len() == 0
            &&& b.entries(Side::Sell).len() == 0
            &&& b.side(Side::Buy) == Levels::empty()
            &&& b.side(Side::Sell) == Levels::empty()
            &&& b.state() is None
            &&& b.updated_at() is None
        }
    }

    /// A market after one piece of data on one key.
    pub open spec fn takes(self, after: Market, key: KeyView, event: MarketEvent, ts: UnixNanos) -> bool {
        &&& book_took(self.books@[key], after.books@[key], event, ts)
        &&& after.books@ == self.books@.insert(key, after.books@[key])
        &&& after.mark_source == self.mark_source
        &&& after.book_marks@ == with_price(self.book_marks@, key, printed_price(event))
        &&& after.marks@ == (match printed_price(event) {
            Some(price) => with_price(
                self.marks@,
                key,
                effective_mark(
                    self.mark_source,
                    price_in(self.venue_marks@, key),
                    Some(price),
                ),
            ),
            None => self.marks@,
        })
        &&& after.venue_marks@ == (match event {
            MarketEvent::Reference { mark, .. } => with_price(self.venue_marks@, key, mark),
            _ => self.venue_marks@,
        })
        &&& after.oracles@ == (match event {
            MarketEvent::Reference { oracle, .. } => with_price(self.oracles@, key, oracle),
            _ => self.oracles@,
        })
    }

    /// A market with the mark of one key brought up to date: from the middle
    /// of the book where the data touched it, from what is on record
    /// otherwise.
    pub open spec fn settles(self, after: Market, key: KeyView, touched: bool) -> bool {
        let mid = match self.book_in(key) {
            Some(b) if touched => b.midpoint(),
            _ => None,
        };
        let implied = match mid {
            Some(p) => Some(p),
            None => price_in(self.book_marks@, key),
        };
        &&& after == (Market { marks: after.marks, book_marks: after.book_marks, ..self })
        &&& after.book_marks@ == with_price(self.book_marks@, key, mid)
        &&& after.marks@ == with_price(
            self.marks@,
            key,
            effective_mark(self.mark_source, price_in(self.venue_marks@, key), implied),
        )
    }

    /// Whether every mark is the one its sources give: the venue's where it
    /// counts and is published, else the book's, and none where there is
    /// neither.
    pub open spec fn marks_agree(self) -> bool {
        forall|k: KeyView| #[trigger]
            price_in(self.marks@, k) == effective_mark(
                self.mark_source,
                price_in(self.venue_marks@, k),
                price_in(self.book_marks@, k),
            )
    }

    /// Taking data in and bringing the mark up to date leaves the marks in
    /// agreement with their sources.
    pub proof fn data_keeps_marks_in_agreement(
        self,
        taken: Market,
        after: Market,
        key: KeyView,
        event: MarketEvent,
        ts: UnixNanos,
    )
        requires
            self.marks_agree(),
            self.takes(taken, key, event, ts),
            taken.settles(after, key, touches_book(event)),
        ensures
            after.marks_agree(),
    {
        assert forall|k: KeyView| #[trigger]
            price_in(after.marks@, k) == effective_mark(
                after.mark_source,
                price_in(after.venue_marks@, k),
                price_in(after.book_marks@, k),
            ) by {
            assert(price_in(self.marks@, k) == effective_mark(
                self.mark_source,
                price_in(self.venue_marks@, k),
                price_in(self.book_marks@, k),
            ));
        }
    }

    /// So does bringing a mark up to date by itself.
    pub proof fn settling_keeps_marks_in_agreement(
        self,
        after: Market,
        key: KeyView,
        touched: bool,
    )
        requires
            self.marks_agree(),
            self.settles(after, key, touched),
        ensures
            after.marks_agree(),
    {
        assert forall|k: KeyView| #[trigger]
            price_in(after.marks@, k) == effective_mark(
                after.mark_source,
                price_in(after.venue_marks@, k),
                price_in(after.book_marks@, k),
            ) by {
            assert(price_in(self.marks@, k) == effective_mark(
                self.mark_source,
                price_in(self.venue_marks@, k),
                price_in(self.book_marks@, k),
            ));
        }
    }

    /// And so does a split, which restates marks and sources alike.
    pub proof fn a_split_keeps_marks_in_agreement(
        self,
        after: Market,
        instrument: Seq<char>,
        count: int,
        ratio: Price,
        ts: UnixNanos,
    )
        requires
            self.marks_agree(),
            self.splits(after, instrument, count, ratio, ts),
        ensures
            after.marks_agree(),
    {
        assert forall|k: KeyView| #[trigger]
            price_in(after.marks@, k) == effective_mark(
                after.mark_source,
                price_in(after.venue_marks@, k),
                price_in(after.book_marks@, k),
            ) by {
            assert(price_in(self.marks@, k) == effective_mark(
                self.mark_source,
                price_in(self.venue_marks@, k),
                price_in(self.book_marks@, k),
            ));
            assert(self.marks@.dom().contains(k) == after.marks@.dom().contains(k));
            assert(self.venue_marks@.dom().contains(k) == after.venue_marks@.dom().contains(k));
            assert(self.book_marks@.dom().contains(k) == after.book_marks@.dom().contains(k));
        }
    }

    /// Opening a book has one outcome: markets that show the same before it
    /// show the same after it.
    pub proof fn opens_one_way(self, after: Market, other: Market, then: Market, key: KeyView)
        requires
            self@ == other@,
            self.opens(after, key),
            other.opens(then, key),
        ensures
            after@ == then@,
    {
        let (p, q) = (self@, other@);
        let (x, y) = (after@.books, then@.books);
        assert forall|k: KeyView| x.dom().contains(k) == #[trigger] y.dom().contains(k) by {
            assert(p.books.dom().contains(k) == q.books.dom().contains(k));
        }
        assert forall|k: KeyView| #[trigger] x.dom().contains(k) implies x[k] == y[k] by {
            assert(p.books.dom().contains(k) == q.books.dom().contains(k));
            assert(p.books[k] == q.books[k]);
        }
        assert(x =~= y);
        assert(p.marks == q.marks);
    }

    /// Taking data in has one outcome.
    pub proof fn takes_one_way(
        self,
        after: Market,
        other: Market,
        then: Market,
        key: KeyView,
        event: MarketEvent,
        ts: UnixNanos,
    )
        requires
            self@ == other@,
            self.books@.dom().contains(key),
            self.takes(after, key, event, ts),
            other.takes(then, key, event, ts),
        ensures
            after@ == then@,
    {
        let (p, q) = (self@, other@);
        let (x, y) = (after@.books, then@.books);
        assert(p.books.dom().contains(key) && q.books.dom().contains(key));
        assert(p.books[key] == q.books[key]);
        assert(shown_by(self.books@[key]) == shown_by(other.books@[key]));
        assert(shown_by(after.books@[key]) == shown_by(then.books@[key]));
        assert forall|k: KeyView| x.dom().contains(k) == #[trigger] y.dom().contains(k) by {
            assert(p.books.dom().contains(k) == q.books.dom().contains(k));
        }
        assert forall|k: KeyView| #[trigger] x.dom().contains(k) implies x[k] == y[k] by {
            assert(p.books.dom().contains(k) == q.books.dom().contains(k));
            assert(p.books[k] == q.books[k]);
        }
        assert(x =~= y);
        assert(p.marks == q.marks && p.book_marks == q.book_marks);
        assert(p.venue_marks == q.venue_marks && p.oracles == q.oracles);
    }

    /// Bringing a mark up to date has one outcome.
    pub proof fn settles_one_way(
        self,
        after: Market,
        other: Market,
        then: Market,
        key: KeyView,
        touched: bool,
    )
        requires
            self.wf(),
            other.wf(),
            self@ == other@,
            self.settles(after, key, touched),
            other.settles(then, key, touched),
        ensures
            after@ == then@,
    {
        let (p, q) = (self@, other@);
        assert(p.books == q.books);
        assert(p.books.dom().contains(key) == q.books.dom().contains(key));
        assert(p.marks == q.marks && p.book_marks == q.book_marks);
        assert(p.venue_marks == q.venue_marks && p.oracles == q.oracles);
        if self.books@.dom().contains(key) {
            assert(p.books[key] == q.books[key]);
            let (b, c) = (self.books@[key], other.books@[key]);
            assert(shown_by(b) == shown_by(c));
            b.same_sides_rank_alike(&c, Side::Buy);
            b.same_sides_rank_alike(&c, Side::Sell);
        }
        assert(after@.books == p.books && then@.books == q.books);
    }

    /// A split has one outcome.
    pub proof fn splits_one_way(
        self,
        after: Market,
        other: Market,
        then: Market,
        instrument: Seq<char>,
        count: int,
        ratio: Price,
        ts: UnixNanos,
    )
        requires
            self.wf(),
            other.wf(),
            self@ == other@,
            self.splits(after, instrument, count, ratio, ts),
            other.splits(then, instrument, count, ratio, ts),
        ensures
            after@ == then@,
    {
        let (p, q) = (self@, other@);
        let (x, y) = (after@.books, then@.books);
        assert forall|k: KeyView| x.dom().contains(k) == #[trigger] y.dom().contains(k) by {
            assert(p.books.dom().contains(k) == q.books.dom().contains(k));
        }
        assert forall|k: KeyView| #[trigger] x.dom().contains(k) implies x[k] == y[k] by {
            assert(p.books.dom().contains(k) && q.books.dom().contains(k));
            assert(p.books[k] == q.books[k]);
            let (b, c) = (self.books@[k], other.books@[k]);
            assert(shown_by(b) == shown_by(c));
            b.same_sides_list_alike(&c, Side::Buy);
            b.same_sides_list_alike(&c, Side::Sell);
            assert(after.books@.dom().contains(k) && then.books@.dom().contains(k));
        }
        assert(x =~= y);
        prices_split_one_way(self.marks@, after.marks@, then.marks@, instrument, count, ratio);
        prices_split_one_way(
            self.book_marks@,
            after.book_marks@,
            then.book_marks@,
            instrument,
            count,
            ratio,
        );
        prices_split_one_way(
            self.venue_marks@,
            after.venue_marks@,
            then.venue_marks@,
            instrument,
            count,
            ratio,
        );
        prices_split_one_way(
            self.oracles@,
            after.oracles@,
            then.oracles@,
            instrument,
            count,
            ratio,
        );
    }

    /// A gap in the data leaves every mark as it was: the book is gone, and
    /// the last price it gave still stands.
    pub proof fn a_gap_leaves_the_marks(
        self,
        taken: Market,
        after: Market,
        key: KeyView,
        ts: UnixNanos,
    )
        requires
            self.marks_agree(),
            self.takes(taken, key, MarketEvent::Gap, ts),
            taken.settles(after, key, true),
        ensures
            after.marks@ == self.marks@,
            after.book_marks@ == self.book_marks@,
    {
        assert(price_in(self.marks@, key) == effective_mark(
            self.mark_source,
            price_in(self.venue_marks@, key),
            price_in(self.book_marks@, key),
        ));
        assert(after.marks@ =~= self.marks@);
    }

    /// A market after a split: every quote and every price of the instrument
    /// moves at once.
    pub open spec fn splits(
        self,
        after: Market,
        instrument: Seq<char>,
        count: int,
        ratio: Price,
        ts: UnixNanos,
    ) -> bool {
        &&& self.splittable(instrument, count, ratio)
        &&& books_split(self.books@, after.books@, instrument, count, ratio, ts)
        &&& prices_split(self.marks@, after.marks@, instrument, count, ratio)
        &&& prices_split(self.book_marks@, after.book_marks@, instrument, count, ratio)
        &&& prices_split(self.venue_marks@, after.venue_marks@, instrument, count, ratio)
        &&& prices_split(self.oracles@, after.oracles@, instrument, count, ratio)
        &&& after.mark_source == self.mark_source
    }

    pub fn new(mark_source: MarkSource) -> (m: Self)
        ensures
            m.wf(),
            m.books@ == Map::<KeyView, OrderBook>::empty(),
            m.marks@ == Prices::empty(),
            m.book_marks@ == Prices::empty(),
            m.venue_marks@ == Prices::empty(),
            m.oracles@ == Prices::empty(),
            m.mark_source == mark_source,
    {
        Market {
            books: SortedMap::new(),
            marks: SortedMap::new(),
            book_marks: SortedMap::new(),
            venue_marks: SortedMap::new(),
            oracles: SortedMap::new(),
            mark_source,
        }
    }

    /// The book of a market, if one was ever seen.
    pub open spec fn book_in(&self, key: KeyView) -> Option<OrderBook> {
        if self.books@.dom().contains(key) {
            Some(self.books@[key])
        } else {
            None
        }
    }

    pub fn book(&self, key: &PositionKey) -> (r: Option<&OrderBook>)
        requires
            self.wf(),
        ensures
            match r {
                Some(b) => self.book_in(key@) == Some(*b) && b.wf(),
                None => self.book_in(key@) is None,
            },
    {
        self.books.get(key)
    }

    pub fn mark(&self, key: &PositionKey) -> (r: Option<Price>)
        requires
            self.wf(),
        ensures
            r == price_in(self.marks@, key@),
    {
        price_at(&self.marks, key)
    }

    /// Record what the book says, and derive the effective mark from it.
    pub fn set_book_mark(&mut self, key: &PositionKey, price: Price)
        requires
            old(self).wf(),
        ensures
            final(self).wf(),
            *final(self) == (Market {
                marks: final(self).marks,
                book_marks: final(self).book_marks,
                ..*old(self)
            }),
            final(self).book_marks@ == old(self).book_marks@.insert(key@, price),
            final(self).marks@ == with_price(
                old(self).marks@,
                key@,
                effective_mark(
                    old(self).mark_source,
                    price_in(old(self).venue_marks@, key@),
                    Some(price),
                ),
            ),
    {
        self.book_marks.insert(key_for(&key.0, key.1), price);
        let effective = match self.mark_source {
            MarkSource::VenueMark => match price_at(&self.venue_marks, key) {
                Some(p) => p,
                None => price,
            },
            MarkSource::BookMid => price,
        };
        self.marks.insert(key_for(&key.0, key.1), effective);
    }

    /// Recompute the mark this run values positions at.
    pub fn refresh_mark(&mut self, key: &PositionKey)
        requires
            old(self).wf(),
        ensures
            final(self).wf(),
            *final(self) == (Market { marks: final(self).marks, ..*old(self) }),
            final(self).marks@ == with_price(
                old(self).marks@,
                key@,
                effective_mark(
                    old(self).mark_source,
                    price_in(old(self).venue_marks@, key@),
                    price_in(old(self).book_marks@, key@),
                ),
            ),
    {
        let effective = match self.mark_source {
            MarkSource::VenueMark => match price_at(&self.venue_marks, key) {
                Some(p) => Some(p),
                None => price_at(&self.book_marks, key),
            },
            MarkSource::BookMid => price_at(&self.book_marks, key),
        };
        if let Some(price) = effective {
            self.marks.insert(key_for(&key.0, key.1), price);
        }
    }

    /// Make sure a market has a book, empty if nothing was seen of it yet.
    pub fn open_book(&mut self, key: &PositionKey)
        requires
            old(self).wf(),
        ensures
            final(self).wf(),
            old(self).opens(*final(self), key@),
    {
        if !self.books.contains_key(key) {
            self.books.insert(key_for(&key.0, key.1), OrderBook::new());
        }
        assert(self.books@.dom() =~= old(self).books@.dom().insert(key@));
    }

    /// What an event other than funding or a corporate action does to the
    /// market it concerns. An incremental update against a book that is not
    /// fresh is refused, and changes nothing.
    pub fn take(&mut self, key: &PositionKey, event: &MarketEvent, ts: UnixNanos) -> (r: Result<
        (),
        BacktestError,
    >)
        requires
            old(self).wf(),
            old(self).books@.dom().contains(key@),
        ensures
            final(self).wf(),
            match r {
                Ok(_) => old(self).takes(*final(self), key@, *event, ts),
                Err(e) => {
                    &&& *event is BookDelta
                    &&& old(self).books@[key@].state() != Some(BookStatus::Fresh)
                    &&& final(self).books@ == old(self).books@
                    &&& *final(self) == (Market { books: final(self).books, ..*old(self) })
                    &&& e matches BacktestError::BookGap { instrument: i, ts: t, gap_ts } && i@
                        == key@.0 && t == ts.0 && gap_ts == (match old(
                        self,
                    ).books@[key@].state() {
                        Some(BookStatus::Stale { since }) => since.0,
                        _ => ts.0,
                    })
                },
            },
    {
        let i = match self.books.find(key) {
            Some(i) => i,
            None => {
                return Ok(());
            },
        };
        match event {
            MarketEvent::BookSnapshot { bids, asks } => {
                let book = self.books.value_mut(i);
                book.apply_snapshot(bids.as_slice(), asks.as_slice(), ts)?;
            },
            MarketEvent::BookDelta(delta) => {
                let book = self.books.value_mut(i);
                let r = book.apply_delta(key.0.as_str(), *delta, ts);
                match r {
                    Ok(_) => {},
                    Err(e) => {
                        assert(self.books@ =~= old(self).books@);
                        return Err(e);
                    },
                }
            },
            MarketEvent::Gap => {
                let book = self.books.value_mut(i);
                book.mark_gap(ts);
            },
            MarketEvent::Trade { price, .. } => {
                self.set_book_mark(key, *price);
            },
            MarketEvent::Bar { close, .. } => {
                self.set_book_mark(key, *close);
            },
            MarketEvent::Reference { mark, oracle } => {
                if let Some(price) = mark {
                    self.venue_marks.insert(key_for(&key.0, key.1), *price);
                }
                if let Some(price) = oracle {
                    self.oracles.insert(key_for(&key.0, key.1), *price);
                }
            },
            MarketEvent::Funding { .. } => {},
            MarketEvent::Corporate(_) => {},
        }
        assert(self.books@ =~= old(self).books@.insert(key@, self.books@[key@]));
        Ok(())
    }

    /// Bring the effective mark up to date after an event.
    ///
    /// Only an event that touched the book derives the mark from it again: a
    /// print and a bar close *are* the newer information.
    pub fn settle_mark(&mut self, key: &PositionKey, touched: bool)
        requires
            old(self).wf(),
        ensures
            final(self).wf(),
            old(self).settles(*final(self), key@, touched),
    {
        let mid = match self.book(key) {
            Some(b) => b.mid(),
            None => None,
        };
        match mid {
            Some(price) if touched => {
                self.set_book_mark(key, price);
            },
            _ => {
                self.refresh_mark(key);
            },
        }
    }

    /// Whether a whole instrument can be restated after a split.
    pub open spec fn splittable(&self, instrument: Seq<char>, count: int, ratio: Price) -> bool {
        &&& forall|k: KeyView| #[trigger]
            self.books@.dom().contains(k) && among(k, instrument, count) ==> book_splittable(
                self.books@[k],
                ratio,
            )
        &&& prices_splittable(self.marks@, instrument, count, ratio)
        &&& prices_splittable(self.book_marks@, instrument, count, ratio)
        &&& prices_splittable(self.venue_marks@, instrument, count, ratio)
        &&& prices_splittable(self.oracles@, instrument, count, ratio)
    }

    /// Restate every book of an instrument after a split.
    fn split_books(
        &mut self,
        instrument: &InstrumentId,
        count: u16,
        ratio: Price,
        ts: UnixNanos,
    ) -> (r: Result<(), BacktestError>)
        requires
            old(self).wf(),
            ratio.0 > 0,
        ensures
            final(self).wf(),
            *final(self) == (Market { books: final(self).books, ..*old(self) }),
            match r {
                Ok(_) => {
                    &&& forall|k: KeyView| #[trigger]
                        old(self).books@.dom().contains(k) && among(k, instrument@, count as int)
                            ==> book_splittable(old(self).books@[k], ratio)
                    &&& books_split(
                        old(self).books@,
                        final(self).books@,
                        instrument@,
                        count as int,
                        ratio,
                        ts,
                    )
                },
                Err(e) => exists|k: KeyView| #[trigger]
                    old(self).books@.dom().contains(k) && among(k, instrument@, count as int)
                        && !book_splittable(old(self).books@[k], ratio),
            },
    {
        let mut n: u16 = 0;
        while n < count
            invariant
                n <= count,
                ratio.0 > 0,
                self.wf(),
                *self == (Market { books: self.books, ..*old(self) }),
                forall|k: KeyView| #[trigger]
                    old(self).books@.dom().contains(k) && among(k, instrument@, n as int)
                        ==> book_splittable(old(self).books@[k], ratio),
                books_split(old(self).books@, self.books@, instrument@, n as int, ratio, ts),
            decreases count - n,
        {
            let key = key_for(instrument, OutcomeId(n));
            let ghost before = self.books@;
            if let Some(i) = self.books.find(&key) {
                proof {
                    assert(before.dom().contains(key@));
                    assert(old(self).books@.dom().contains(key@));
                    assert(!among(key@, instrument@, n as int));
                    assert(before[key@].wf());
                }
                let book = self.books.value_mut(i);
                match book.apply_split(ratio, ts) {
                    Ok(_) => {},
                    Err(e) => {
                        assert(among(key@, instrument@, count as int));
                        assert(!book_splittable(old(self).books@[key@], ratio));
                        assert(self.books@ =~= before);
                        return Err(e);
                    },
                }
            }
            proof {
                assert(self.books@.dom() =~= before.dom());
                assert forall|k: KeyView| #[trigger]
                    old(self).books@.dom().contains(k) && among(k, instrument@, n + 1) implies book_splittable(
                    old(self).books@[k], ratio) by {
                    if k.1 < n {
                        assert(among(k, instrument@, n as int));
                    } else {
                        assert(k == key@);
                    }
                }
                assert forall|k: KeyView| #[trigger] self.books@.dom().contains(k) implies if among(
                    k,
                    instrument@,
                    n + 1,
                ) {
                    book_split(old(self).books@[k], self.books@[k], ratio, ts)
                } else {
                    self.books@[k] == old(self).books@[k]
                } by {
                    assert(before.dom().contains(k));
                    if k != key@ {
                        assert(self.books@[k] == before[k]);
                        assert(among(k, instrument@, n + 1) == among(k, instrument@, n as int));
                    }
                }
                assert forall|k: KeyView| #[trigger]
                    self.books@.dom().contains(k) implies self.books@[k].wf() by {
                    assert(before.dom().contains(k));
                }
            }
            n += 1;
        }
        Ok(())
    }

    /// Restate a whole instrument in the terms a split leaves behind: its
    /// books, and every price series standing alongside them.
    ///
    /// Everything the split renames moves at once. Both sides of a market
    /// move by the same ratio, so a split makes nothing marketable that was
    /// not marketable a moment earlier.
    pub fn split_quotes(
        &mut self,
        instrument: &InstrumentId,
        count: u16,
        ratio: Price,
        ts: UnixNanos,
    ) -> (r: Result<(), BacktestError>)
        requires
            old(self).wf(),
            ratio.0 > 0,
        ensures
            final(self).wf(),
            match r {
                Ok(_) => old(self).splits(*final(self), instrument@, count as int, ratio, ts),
                Err(e) => !old(self).splittable(instrument@, count as int, ratio),
            },
    {
        self.split_books(instrument, count, ratio, ts)?;
        split_series(&mut self.marks, instrument, count, ratio)?;
        split_series(&mut self.book_marks, instrument, count, ratio)?;
        split_series(&mut self.venue_marks, instrument, count, ratio)?;
        split_series(&mut self.oracles, instrument, count, ratio)?;
        Ok(())
    }
}

/// A position is marked at the venue's own price where that counts and is
/// known, and at what the book or the last print implies otherwise. The
/// venue's price never counts where marks come from the book.
pub proof fn the_venue_marks_where_it_counts(venue: Option<Price>, book: Option<Price>)
    ensures
        effective_mark(MarkSource::BookMid, venue, book) == book,
        venue is Some ==> effective_mark(MarkSource::VenueMark, venue, book) == venue,
        venue is None ==> effective_mark(MarkSource::VenueMark, venue, book) == book,
{
}

/// A print carries its own price and a bar its close; nothing else carries
/// one.
pub proof fn what_carries_a_price(event: MarketEvent)
    ensures
        event matches MarketEvent::Trade { price, .. } ==> printed_price(event) == Some(price),
        event matches MarketEvent::Bar { close, .. } ==> printed_price(event) == Some(close),
        !(event is Trade) && !(event is Bar) ==> printed_price(event) is None,
{
}

impl Market {
    /// Bringing a mark up to date touches one market's mark and no other's:
    /// with marks from the book, that is the middle of the book where the
    /// book moved and shows both sides, and what was last implied otherwise.
    pub proof fn a_mark_follows_its_book(
        self,
        after: Market,
        key: KeyView,
        touched: bool,
        other: KeyView,
    )
        requires
            self.settles(after, key, touched),
        ensures
            other != key ==> price_in(after.marks@, other) == price_in(self.marks@, other)
                && price_in(after.book_marks@, other) == price_in(self.book_marks@, other),
            after.books == self.books,
            after.venue_marks == self.venue_marks,
            after.oracles == self.oracles,
            self.mark_source is BookMid ==> ({
                let mid = if touched && self.books@.dom().contains(key) {
                    self.books@[key].midpoint()
                } else {
                    None
                };
                &&& mid is Some ==> price_in(after.marks@, key) == mid
                &&& mid is None && self.book_marks@.dom().contains(key) ==> price_in(
                    after.marks@,
                    key,
                ) == Some(self.book_marks@[key])
                &&& mid is None && !self.book_marks@.dom().contains(key) ==> price_in(
                    after.marks@,
                    key,
                ) == price_in(self.marks@, key)
            }),
            self.mark_source is VenueMark && self.venue_marks@.dom().contains(key) ==> price_in(
                after.marks@,
                key,
            ) == Some(self.venue_marks@[key]),
    {
    }

    /// What a market takes in on one key leaves every other alone. A print
    /// moves what the book implies to its price; a published price moves the
    /// venue's mark or the oracle, whichever it gives.
    pub proof fn data_moves_its_own_market(
        self,
        after: Market,
        key: KeyView,
        event: MarketEvent,
        ts: UnixNanos,
        other: KeyView,
    )
        requires
            self.takes(after, key, event, ts),
            other != key,
        ensures
            price_in(after.marks@, other) == price_in(self.marks@, other),
            price_in(after.book_marks@, other) == price_in(self.book_marks@, other),
            price_in(after.venue_marks@, other) == price_in(self.venue_marks@, other),
            price_in(after.oracles@, other) == price_in(self.oracles@, other),
            self.books@.dom().contains(other) ==> after.books@.dom().contains(other)
                && after.books@[other] == self.books@[other],
            event matches MarketEvent::Trade { price, .. } ==> price_in(after.book_marks@, key)
                == Some(price),
            event matches MarketEvent::Reference { mark, oracle } ==> {
                &&& mark is Some ==> price_in(after.venue_marks@, key) == mark
                &&& mark is None ==> price_in(after.venue_marks@, key) == price_in(
                    self.venue_marks@,
                    key,
                )
                &&& oracle is Some ==> price_in(after.oracles@, key) == oracle
                &&& oracle is None ==> price_in(after.oracles@, key) == price_in(
                    self.oracles@,
                    key,
                )
            },
    {
    }
}

/// A split divides the prices of its own instrument by the ratio, rounded
/// towards zero, and no other price.
pub proof fn a_split_divides_its_own_prices(
    before: Prices,
    after: Prices,
    instrument: Seq<char>,
    count: int,
    ratio: Price,
    key: KeyView,
)
    requires
        prices_split(before, after, instrument, count, ratio),
        ratio.0 > 0,
    ensures
        after.dom().contains(key) <==> before.dom().contains(key),
        before.dom().contains(key) ==> {
            let (was, is) = (before[key].0, after[key].0);
            &&& key.0 != instrument || key.1 >= count ==> after[key] == before[key]
            &&& key.0 == instrument && key.1 < count && was >= 0 ==> 0 <= is * ratio.0 <= was * SCALE
                < is * ratio.0 + ratio.0
        },
{
    if before.dom().contains(key) {
        a_split_multiplies_shares_and_divides_prices(ratio.0 as int, 0, before[key].0 as int);
    }
}

} // verus!
