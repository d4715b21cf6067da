//! A deterministic, event-driven backtester.
//!
//! It simulates venues against recorded data; it never routes a live order.
//! Three properties shape everything here, and the rules each rests on are
//! stated where Verus checks them rather than left as an intention:
//!
//! * **Determinism.** Every figure is computed on fixed-point integers, every
//!   tie between simultaneous events is broken by a declared rule, and
//!   everything that is walked is kept in key order. A merge, the timers and
//!   what is on its way to the venue each come in one total order; a command,
//!   a call of the strategy, a fill and the matching of an order each have one
//!   outcome; and so has a whole run: engines built from the same settings, run
//!   over the same records by strategies that ask for the same of the same
//!   calls, end with the same report.
//! * **No look-ahead.** Records carry both when something happened and when it
//!   could have been known, and replay in the order they became known, so late
//!   data arrives late.
//! * **Data honesty.** Windows are half-open and owned in one place; a gap in
//!   incremental data invalidates the book rather than being replayed across;
//!   requested and loaded windows are separate facts.
//!
//! Prices, quantities and money are `i64` scaled by 1e-9, so values top out at
//! about nine billion units. Stored columns hold the same numbers as floats or
//! as decimals; a decimal column stores the integer itself and rounds nothing.
#![allow(unused_imports)]

pub mod text;
pub mod ordered;
pub mod error;
pub mod types;
pub mod currency;
pub mod instrument;
pub mod window;
pub mod book;
pub mod order;
pub mod event;
pub mod corporate;
pub mod clock;
pub mod position;
pub mod account;
pub mod models;
pub mod execution;
pub mod request;
pub mod metrics;
pub mod resting;
pub mod market;
pub mod ledger;
pub mod checks;
pub mod sets;
pub mod margin;
pub mod desk;
pub mod strategy;
pub mod replay;
pub mod engine;
pub mod callbacks;
pub mod matching;
pub mod queue;
pub mod calls;
pub mod schedule;
pub mod arrivals;
pub mod wire;
pub mod complete;
pub mod outcome;
pub mod pairing;
pub mod answers;
pub mod landings;
pub mod rerun;
pub mod actions;
pub mod kernel;
pub mod timeline;
pub mod trades;
pub mod builder;
pub mod l3;
pub mod settlement;
pub mod run;
pub mod decimal;
pub mod schema;
pub mod store;
pub mod feed;
pub mod prints;
pub mod catalogue;
pub mod intents;
pub mod outputs;

pub use account::{
    Account, CashMargin, LinearMargin, MarginModel, MarginRequirement, MarginState, Valuation,
};
pub use book::{BookAction, BookDelta, BookStatus, BookWalk, OrderBook};
pub use builder::EngineBuilder;
pub use clock::{Clock, TimeEvent};
pub use corporate::{CorporateAction, SymbolRegistry, Universe};
pub use currency::{Currency, FxBook, Haircuts};
pub use decimal::FixedEncoding;
pub use engine::Engine;
pub use error::BacktestError;
pub use event::{MarketEvent, Record};
pub use execution::{ExecutionClient, ExecutionCommand, SimulatedExecution};
pub use instrument::{
    normalise_to_one, uniform_prices, Instrument, InstrumentId, InstrumentKind, InstrumentSet,
    OutcomeId, PriceRule,
};
pub use kernel::RunResult;
pub use l3::{L3Book, MboMessage};
pub use metrics::{LiquidationPolicy, MarkSource, RiskLimits, SetOperationCosts};
pub use models::{
    BookFills, ConstantLatency, FeeModel, FeeTier, FillModel, LatencyModel, NoFees, NoLatency,
    PredictionMarketFees, ProportionalFees, QueuePositionFills, TickSlippage, TieredFees,
    VenueModule,
};
pub use order::{
    Fill, Order, OrderId, OrderKind, OrderStatus, TimeInForce, Trigger, TriggerDirection,
};
pub use position::{Portfolio, Position};
pub use replay::{Replay, ReplayBuilder};
pub use request::{
    Forecast, MarkPoint, OrderRequest, SetOperation, SetOperationKind, SetOperationRequest,
    TwapProgress, TwapRequest,
};
pub use run::{CalibrationSample, RunReport, RunSpec, UnscoredForecast};
pub use settlement::{validate_resolutions, Payout, Resolution, SettlementReport};
pub use strategy::{CommandReplay, Context, ReplayCommand, SignalReplay, Strategy};
pub use types::{notional, Money, Price, Qty, Side, Stamps, UnixNanos, SCALE};
pub use window::{Coverage, TimeWindow};
