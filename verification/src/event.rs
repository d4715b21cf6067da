//! What flows through a replay.

use vstd::prelude::*;
use vstd::string::*;

use crate::book::BookDelta;
use crate::corporate::CorporateAction;
use crate::instrument::{InstrumentId, OutcomeId};
use crate::types::{Price, Qty, Side, Stamps, UnixNanos};

verus! {

/// A market data event for one instrument outcome.
#[derive(PartialEq, Eq, Debug)]
pub enum MarketEvent {
    /// A full replacement of the book.
    BookSnapshot { bids: Vec<(Price, Qty)>, asks: Vec<(Price, Qty)> },
    /// One incremental change.
    BookDelta(BookDelta),
    /// A declared hole in the feed. Not an absence of records -- an explicit
    /// statement that records are missing, which is what lets the book
    /// refuse to reconstruct across it.
    Gap,
    /// A print.
    Trade {
        price: Price,
        size: Qty,
        /// Which side lifted. `None` where the vendor does not say, which
        /// is common and must not be guessed.
        aggressor: Option<Side>,
    },
    /// A funding payment becoming due on a perpetual.
    ///
    /// Carried as a market event rather than a periodic venue module so it
    /// inherits the replay's deterministic ordering.
    Funding {
        /// Positive means longs pay shorts, the near-universal convention.
        rate: Price,
    },
    /// Reference prices the venue publishes.
    Reference { mark: Option<Price>, oracle: Option<Price> },
    /// A corporate action taking effect.
    ///
    /// Applied forward, to positions and resting orders, at the instant it
    /// becomes effective. Replayed prices are never rewritten: nobody ever
    /// traded a split-adjusted price.
    Corporate(CorporateAction),
    /// An aggregated bar.
    Bar { open: Price, high: Price, low: Price, close: Price, volume: Qty },
}

/// The name an event is written under.
pub open spec fn event_kind(event: MarketEvent) -> Seq<char> {
    match event {
        MarketEvent::BookSnapshot { .. } => "book_snapshot"@,
        MarketEvent::BookDelta(_) => "book_delta"@,
        MarketEvent::Gap => "gap"@,
        MarketEvent::Trade { .. } => "trade"@,
        MarketEvent::Funding { .. } => "funding"@,
        MarketEvent::Reference { .. } => "reference"@,
        MarketEvent::Corporate(_) => "corporate"@,
        MarketEvent::Bar { .. } => "bar"@,
    }
}

impl MarketEvent {
    pub fn kind(&self) -> (r: &'static str)
        ensures
            r@ == event_kind(*self),
    {
        match self {
            MarketEvent::BookSnapshot { .. } => "book_snapshot",
            MarketEvent::BookDelta(_) => "book_delta",
            MarketEvent::Gap => "gap",
            MarketEvent::Trade { .. } => "trade",
            MarketEvent::Funding { .. } => "funding",
            MarketEvent::Reference { .. } => "reference",
            MarketEvent::Corporate(_) => "corporate",
            MarketEvent::Bar { .. } => "bar",
        }
    }
}

/// One replayable record: what happened, to what, and when it was knowable.
#[derive(PartialEq, Eq, Debug)]
pub struct Record {
    pub stamps: Stamps,
    pub instrument: InstrumentId,
    pub outcome: OutcomeId,
    pub event: MarketEvent,
}

/// An event with its levels as sequences.
pub enum EventView {
    BookSnapshot { bids: Seq<(Price, Qty)>, asks: Seq<(Price, Qty)> },
    BookDelta(BookDelta),
    Gap,
    Trade { price: Price, size: Qty, aggressor: Option<Side> },
    Funding { rate: Price },
    Reference { mark: Option<Price>, oracle: Option<Price> },
    Corporate(CorporateAction),
    Bar { open: Price, high: Price, low: Price, close: Price, volume: Qty },
}

impl View for MarketEvent {
    type V = EventView;

    open spec fn view(&self) -> EventView {
        match *self {
            MarketEvent::BookSnapshot { bids, asks } => EventView::BookSnapshot {
                bids: bids@,
                asks: asks@,
            },
            MarketEvent::BookDelta(delta) => EventView::BookDelta(delta),
            MarketEvent::Gap => EventView::Gap,
            MarketEvent::Trade { price, size, aggressor } => EventView::Trade {
                price,
                size,
                aggressor,
            },
            MarketEvent::Funding { rate } => EventView::Funding { rate },
            MarketEvent::Reference { mark, oracle } => EventView::Reference { mark, oracle },
            MarketEvent::Corporate(action) => EventView::Corporate(action),
            MarketEvent::Bar { open, high, low, close, volume } => EventView::Bar {
                open,
                high,
                low,
                close,
                volume,
            },
        }
    }
}

/// A record with its texts and levels as sequences.
pub struct RecordView {
    pub stamps: Stamps,
    pub instrument: Seq<char>,
    pub outcome: OutcomeId,
    pub event: EventView,
}

impl View for Record {
    type V = RecordView;

    open spec fn view(&self) -> RecordView {
        RecordView {
            stamps: self.stamps,
            instrument: self.instrument@,
            outcome: self.outcome,
            event: self.event@,
        }
    }
}

impl Record {
    pub fn new(
        stamps: Stamps,
        instrument: InstrumentId,
        outcome: OutcomeId,
        event: MarketEvent,
    ) -> (r: Self)
        ensures
            r == (Record { stamps, instrument, outcome, event }),
    {
        Record { stamps, instrument, outcome, event }
    }

    /// The instant replay orders by: when the system could have known this.
    pub fn ts(&self) -> (r: UnixNanos)
        ensures
            r == self.stamps.ts_init,
    {
        self.stamps.ts_init
    }
}

} // verus!
