//! What a strategy sees, what it can ask for, and strategies that are data.

use std::collections::VecDeque;
use vstd::prelude::*;
use vstd::string::*;

use crate::book::OrderBook;
use crate::clock::{event_key, TimeEvent, TimerKey};
use crate::error::{says, BacktestError};
use crate::event::Record;
use crate::instrument::{InstrumentId, OutcomeId};
use crate::ledger::quantity_in;
use crate::market::{key_for, price_at, price_in, Market, MarketView};
use crate::metrics::{bumped, one_more};
use crate::order::{Fill, OrderId};
use crate::ordered::SortedMap;
use crate::position::{KeyView, Portfolio, Position};
use crate::request::{Forecast, OrderRequest, RequestView, SetOperationRequest, TwapRequest};
use crate::text::{debug_of, debug_text};
use crate::types::{fixed_text, push_fixed, Money, Price, Qty, UnixNanos, SCALE};

verus! {

/// Something a strategy asked for.
#[derive(PartialEq, Eq, Debug)]
pub enum Intent {
    Submit(OrderRequest),
    Cancel(OrderId),
    Amend { id: OrderId, quantity: Option<Qty>, limit: Option<Price> },
    Operate(SetOperationRequest),
    Twap(TwapRequest),
}

/// Everything a strategy asked for during one callback.
pub struct Outbox {
    pub intents: Vec<Intent>,
    pub timers: Vec<(String, UnixNanos)>,
    pub forecasts: Vec<Forecast>,
}

/// What a strategy is told when it is called.
pub enum Told {
    Start,
    Event(Record),
    Timer(TimerKey),
    Fill(Fill),
    Stop,
}

/// What a strategy can see when it is called: the instant, the market, its
/// own account, and the last order id in use.
pub struct Shown {
    pub now: UnixNanos,
    pub market: MarketView,
    pub held: Map<KeyView, Position>,
    pub marked: Map<KeyView, Price>,
    pub cash: Money,
    pub last_id: u64,
}

/// What was asked for, in order.
pub struct Asked {
    pub intents: Seq<Intent>,
    pub timers: Seq<(String, UnixNanos)>,
    pub forecasts: Seq<Forecast>,
}

/// One call of a strategy: what it is told, what it is shown, and what it has
/// asked for already.
pub struct Call {
    pub told: Told,
    pub shown: Shown,
    pub asked: Asked,
}

/// One call of a strategy, and all it had asked for when it was done.
pub struct Exchange {
    pub call: Call,
    pub asked: Asked,
}

/// Nothing asked for yet.
pub open spec fn nothing_asked() -> Asked {
    Asked { intents: Seq::empty(), timers: Seq::empty(), forecasts: Seq::empty() }
}

impl View for Outbox {
    type V = Asked;

    open spec fn view(&self) -> Asked {
        Asked {
            intents: self.intents@,
            timers: self.timers@,
            forecasts: self.forecasts@,
        }
    }
}

/// What a strategy sees and can do.
///
/// It reads the market and its own account as they are now. It changes
/// neither: what it asks for is queued, and reaches the venue afterwards.
pub struct Context<'a> {
    now: UnixNanos,
    market: &'a Market,
    portfolio: &'a Portfolio,
    cash: Money,
    last_id: u64,
    outbox: Outbox,
}

impl<'a> Context<'a> {
    pub closed spec fn wf(&self) -> bool {
        self.market.wf() && self.portfolio.wf()
    }

    pub closed spec fn time(&self) -> UnixNanos {
        self.now
    }

    pub closed spec fn markets(&self) -> Market {
        *self.market
    }

    pub closed spec fn holdings(&self) -> Portfolio {
        *self.portfolio
    }

    pub closed spec fn money(&self) -> Money {
        self.cash
    }

    /// The last order id handed out.
    pub closed spec fn handed(&self) -> u64 {
        self.last_id
    }

    /// What was asked for so far, in order.
    pub closed spec fn asked(&self) -> Seq<Intent> {
        self.outbox.intents@
    }

    /// Timers asked for so far.
    pub closed spec fn timers(&self) -> Seq<(String, UnixNanos)> {
        self.outbox.timers@
    }

    /// Forecasts recorded so far.
    pub closed spec fn forecast(&self) -> Seq<Forecast> {
        self.outbox.forecasts@
    }

    /// What the context shows.
    pub open spec fn shows(&self) -> Shown {
        Shown {
            now: self.time(),
            market: self.markets()@,
            held: self.holdings().held(),
            marked: self.holdings().marked(),
            cash: self.money(),
            last_id: self.handed(),
        }
    }

    /// Everything asked for so far.
    pub open spec fn so_far(&self) -> Asked {
        Asked { intents: self.asked(), timers: self.timers(), forecasts: self.forecast() }
    }

    /// Being told something with this context at hand.
    pub open spec fn when_told(&self, told: Told) -> Call {
        Call { told, shown: self.shows(), asked: self.so_far() }
    }

    /// Whether two contexts show the same instant.
    pub open spec fn same_view(&self, other: Context<'a>) -> bool {
        &&& self.wf() == other.wf()
        &&& self.time() == other.time()
        &&& self.markets() == other.markets()
        &&& self.holdings() == other.holdings()
        &&& self.money() == other.money()
    }

    /// Whether one context is another with one thing more asked for.
    pub open spec fn asks(&self, other: Context<'a>, intent: Intent) -> bool {
        &&& self.same_view(other)
        &&& self.asked() == other.asked().push(intent)
        &&& self.timers() == other.timers()
        &&& self.forecast() == other.forecast()
    }

    pub fn new(
        now: UnixNanos,
        market: &'a Market,
        portfolio: &'a Portfolio,
        cash: Money,
        last_id: u64,
    ) -> (c: Self)
        ensures
            c.wf() == (market.wf() && portfolio.wf()),
            c.time() == now,
            c.markets() == *market,
            c.holdings() == *portfolio,
            c.money() == cash,
            c.handed() == last_id,
            c.asked() == Seq::<Intent>::empty(),
            c.timers() == Seq::<(String, UnixNanos)>::empty(),
            c.forecast() == Seq::<Forecast>::empty(),
    {
        Context {
            now,
            market,
            portfolio,
            cash,
            last_id,
            outbox: Outbox { intents: Vec::new(), timers: Vec::new(), forecasts: Vec::new() },
        }
    }

    /// Everything asked for, once the strategy is done.
    pub fn into_outbox(self) -> (r: Outbox)
        ensures
            r.intents@ == self.asked(),
            r.timers@ == self.timers(),
            r.forecasts@ == self.forecast(),
            r@ == self.so_far(),
    {
        self.outbox
    }

    pub fn now(&self) -> (r: UnixNanos)
        ensures
            r == self.time(),
    {
        self.now
    }

    pub fn cash(&self) -> (r: Money)
        ensures
            r == self.money(),
    {
        self.cash
    }

    pub fn book(&self, instrument: &InstrumentId, outcome: OutcomeId) -> (r: Option<&OrderBook>)
        requires
            self.wf(),
        ensures
            match r {
                Some(b) => self.markets().book_in((instrument@, outcome.0)) == Some(*b) && b.wf(),
                None => self.markets().book_in((instrument@, outcome.0)) is None,
            },
    {
        self.market.book(&key_for(instrument, outcome))
    }

    pub fn best_bid(&self, instrument: &InstrumentId, outcome: OutcomeId) -> (r: Option<Price>)
        requires
            self.wf(),
        ensures
            r == (match self.markets().book_in((instrument@, outcome.0)) {
                Some(b) => match b.best(crate::types::Side::Buy) {
                    Some((price, _)) => Some(price),
                    None => None,
                },
                None => None,
            }),
    {
        match self.book(instrument, outcome) {
            Some(book) => match book.best_bid() {
                Some((price, _)) => Some(price),
                None => None,
            },
            None => None,
        }
    }

    pub fn best_ask(&self, instrument: &InstrumentId, outcome: OutcomeId) -> (r: Option<Price>)
        requires
            self.wf(),
        ensures
            r == (match self.markets().book_in((instrument@, outcome.0)) {
                Some(b) => match b.best(crate::types::Side::Sell) {
                    Some((price, _)) => Some(price),
                    None => None,
                },
                None => None,
            }),
    {
        match self.book(instrument, outcome) {
            Some(book) => match book.best_ask() {
                Some((price, _)) => Some(price),
                None => None,
            },
            None => None,
        }
    }

    /// The quantity held in one outcome.
    pub fn position_quantity(&self, instrument: &InstrumentId, outcome: OutcomeId) -> (q: Qty)
        requires
            self.wf(),
        ensures
            q == quantity_in(self.holdings().held(), (instrument@, outcome.0)),
    {
        match self.portfolio.position(instrument, outcome) {
            Some(p) => p.quantity,
            None => Qty(0),
        }
    }

    pub fn portfolio(&self) -> (r: &Portfolio)
        ensures
            *r == self.holdings(),
    {
        self.portfolio
    }

    /// Ask for an order.
    pub fn submit(&mut self, request: OrderRequest)
        ensures
            final(self).asks(*old(self), Intent::Submit(request)),
            final(self).handed() == bumped(old(self).handed()),
    {
        self.submit_tracked(request);
    }

    /// Ask for an order, and learn the id it will have.
    pub fn submit_tracked(&mut self, request: OrderRequest) -> (id: OrderId)
        ensures
            final(self).asks(*old(self), Intent::Submit(request)),
            final(self).handed() == bumped(old(self).handed()),
            id.0 == final(self).handed(),
    {
        self.last_id = one_more(self.last_id);
        self.outbox.intents.push(Intent::Submit(request));
        OrderId(self.last_id)
    }

    pub fn cancel(&mut self, id: OrderId)
        ensures
            final(self).asks(*old(self), Intent::Cancel(id)),
            final(self).handed() == old(self).handed(),
    {
        self.outbox.intents.push(Intent::Cancel(id));
    }

    pub fn amend(&mut self, id: OrderId, quantity: Option<Qty>, limit: Option<Price>)
        ensures
            final(self).asks(*old(self), (Intent::Amend { id, quantity, limit })),
            final(self).handed() == old(self).handed(),
    {
        self.outbox.intents.push(Intent::Amend { id, quantity, limit });
    }

    pub fn set_timer(&mut self, name: &str, at: UnixNanos)
        ensures
            final(self).same_view(*old(self)),
            final(self).asked() == old(self).asked(),
            final(self).forecast() == old(self).forecast(),
            final(self).handed() == old(self).handed(),
            final(self).timers().len() == old(self).timers().len() + 1,
            final(self).timers().drop_last() == old(self).timers(),
            final(self).timers().last().0@ == name@,
            final(self).timers().last().1 == at,
    {
        self.outbox.timers.push((name.to_owned(), at));
        assert(self.timers().drop_last() =~= old(self).timers());
    }

    /// The price positions in this outcome are valued at.
    pub fn mark(&self, instrument: &InstrumentId, outcome: OutcomeId) -> (r: Option<Price>)
        requires
            self.wf(),
        ensures
            r == price_in(self.markets().marks@, (instrument@, outcome.0)),
    {
        self.market.mark(&key_for(instrument, outcome))
    }

    /// The venue's oracle price for this outcome.
    pub fn oracle(&self, instrument: &InstrumentId, outcome: OutcomeId) -> (r: Option<Price>)
        requires
            self.wf(),
        ensures
            r == price_in(self.markets().oracles@, (instrument@, outcome.0)),
    {
        price_at(&self.market.oracles, &key_for(instrument, outcome))
    }

    pub fn mint(&mut self, instrument: &InstrumentId, sets: Qty)
        ensures
            final(self).asks(
                *old(self),
                Intent::Operate(
                    SetOperationRequest {
                        instrument: *instrument,
                        kind: crate::request::SetOperationKind::Mint,
                        quantity: sets,
                        tag: None,
                    },
                ),
            ),
            final(self).handed() == old(self).handed(),
    {
        self.set_operation(SetOperationRequest::mint(instrument.clone(), sets));
    }

    pub fn redeem(&mut self, instrument: &InstrumentId, sets: Qty)
        ensures
            final(self).asks(
                *old(self),
                Intent::Operate(
                    SetOperationRequest {
                        instrument: *instrument,
                        kind: crate::request::SetOperationKind::Redeem,
                        quantity: sets,
                        tag: None,
                    },
                ),
            ),
            final(self).handed() == old(self).handed(),
    {
        self.set_operation(SetOperationRequest::redeem(instrument.clone(), sets));
    }

    pub fn convert(&mut self, instrument: &InstrumentId, held: Vec<OutcomeId>, quantity: Qty)
        ensures
            final(self).asks(
                *old(self),
                Intent::Operate(
                    SetOperationRequest {
                        instrument: *instrument,
                        kind: (crate::request::SetOperationKind::Convert { held }),
                        quantity,
                        tag: None,
                    },
                ),
            ),
            final(self).handed() == old(self).handed(),
    {
        self.set_operation(SetOperationRequest::convert(instrument.clone(), held, quantity));
    }

    pub fn set_operation(&mut self, request: SetOperationRequest)
        ensures
            final(self).asks(*old(self), Intent::Operate(request)),
            final(self).handed() == old(self).handed(),
    {
        self.outbox.intents.push(Intent::Operate(request));
    }

    pub fn twap(&mut self, request: TwapRequest)
        ensures
            final(self).asks(*old(self), Intent::Twap(request)),
            final(self).handed() == old(self).handed(),
    {
        self.outbox.intents.push(Intent::Twap(request));
    }

    /// Commit to a probability.
    pub fn record_forecast(
        &mut self,
        instrument: &InstrumentId,
        outcome: OutcomeId,
        probability: Price,
    ) -> (r: Result<(), BacktestError>)
        requires
            old(self).wf(),
        ensures
            forecast_recorded(*old(self), *final(self), *instrument, outcome, probability, None, r),
    {
        self.record_tagged_forecast(instrument, outcome, probability, None)
    }

    /// Commit to a probability under a label.
    pub fn record_tagged_forecast(
        &mut self,
        instrument: &InstrumentId,
        outcome: OutcomeId,
        probability: Price,
        tag: Option<String>,
    ) -> (r: Result<(), BacktestError>)
        requires
            old(self).wf(),
        ensures
            forecast_recorded(*old(self), *final(self), *instrument, outcome, probability, tag, r),
    {
        if probability.0 < 0 || probability.0 > SCALE {
            let mut m = "a forecast probability must lie in [0, 1], got ".to_owned();
            push_fixed(&mut m, probability.0);
            return Err(BacktestError::Invalid(m));
        }
        let market = self.mark(instrument, outcome);
        self.outbox.forecasts.push(
            Forecast {
                ts: self.now,
                instrument: instrument.clone(),
                outcome,
                probability,
                market,
                tag,
            },
        );
        Ok(())
    }
}

/// What recording a forecast does: it keeps the probability beside what the
/// market thought at that instant, and refuses what is no probability.
pub open spec fn forecast_recorded(
    before: Context<'_>,
    after: Context<'_>,
    instrument: InstrumentId,
    outcome: OutcomeId,
    probability: Price,
    tag: Option<String>,
    r: Result<(), BacktestError>,
) -> bool {
    &&& after.same_view(before)
    &&& after.asked() == before.asked()
    &&& after.timers() == before.timers()
    &&& after.handed() == before.handed()
    &&& match r {
        Ok(_) => 0 <= probability.0 <= SCALE && after.forecast() == before.forecast().push(
            Forecast {
                ts: before.time(),
                instrument,
                outcome,
                probability,
                market: price_in(before.markets().marks@, (instrument@, outcome.0)),
                tag,
            },
        ),
        Err(e) => !(0 <= probability.0 <= SCALE) && after.forecast() == before.forecast() && says(
            e,
            "a forecast probability must lie in [0, 1], got "@ + fixed_text(probability.0 as int),
        ),
    }
}

/// A trading strategy: callbacks on the events of a run.
pub trait Strategy {
    /// The strategy's own state is consistent.
    open spec fn ready(&self) -> bool {
        true
    }

    /// The strategy never fails, now or later: whatever it is told, it
    /// answers.
    open spec fn willing(&self) -> bool {
        false
    }

    /// What the strategy may become, and may have asked for, once it has
    /// answered a call.
    open spec fn hears(&self, call: Call, after: &Self, asked: Asked) -> bool {
        true
    }

    fn on_start(&mut self, ctx: &mut Context<'_>) -> (r: Result<(), BacktestError>)
        requires
            old(self).ready(),
            old(ctx).wf(),
        ensures
            final(self).ready(),
            old(self).willing() ==> r is Ok && final(self).willing(),
            r is Ok ==> old(self).hears(
                old(ctx).when_told(Told::Start),
                final(self),
                final(ctx).so_far(),
            ),
    ;

    fn on_event(&mut self, ctx: &mut Context<'_>, record: &Record) -> (r: Result<
        (),
        BacktestError,
    >)
        requires
            old(self).ready(),
            old(ctx).wf(),
        ensures
            final(self).ready(),
            old(self).willing() ==> r is Ok && final(self).willing(),
            r is Ok ==> old(self).hears(
                old(ctx).when_told(Told::Event(*record)),
                final(self),
                final(ctx).so_far(),
            ),
    ;

    fn on_timer(&mut self, ctx: &mut Context<'_>, event: &TimeEvent) -> (r: Result<
        (),
        BacktestError,
    >)
        requires
            old(self).ready(),
            old(ctx).wf(),
        ensures
            final(self).ready(),
            old(self).willing() ==> r is Ok && final(self).willing(),
            r is Ok ==> old(self).hears(
                old(ctx).when_told(Told::Timer(event_key(*event))),
                final(self),
                final(ctx).so_far(),
            ),
    ;

    fn on_fill(&mut self, ctx: &mut Context<'_>, fill: &Fill) -> (r: Result<(), BacktestError>)
        requires
            old(self).ready(),
            old(ctx).wf(),
        ensures
            final(self).ready(),
            old(self).willing() ==> r is Ok && final(self).willing(),
            r is Ok ==> old(self).hears(
                old(ctx).when_told(Told::Fill(*fill)),
                final(self),
                final(ctx).so_far(),
            ),
    ;

    fn on_stop(&mut self, ctx: &mut Context<'_>) -> (r: Result<(), BacktestError>)
        requires
            old(self).ready(),
            old(ctx).wf(),
        ensures
            final(self).ready(),
            old(self).willing() ==> r is Ok && final(self).willing(),
            r is Ok ==> old(self).hears(
                old(ctx).when_told(Told::Stop),
                final(self),
                final(ctx).so_far(),
            ),
    ;
}

/// A strategy called again and again, and what it became.
pub open spec fn answered<S: Strategy>(before: S, after: S, said: Seq<Exchange>) -> bool
    decreases said.len(),
{
    if said.len() == 0 {
        after == before
    } else {
        exists|between: S|
            answered(before, between, said.drop_last()) && #[trigger] between.hears(
                said.last().call,
                &after,
                said.last().asked,
            )
    }
}

/// A conversation carried on: what was said before stands, and what was said
/// since is what the strategy answered.
pub open spec fn talked<S: Strategy>(
    before: S,
    after: S,
    earlier: Seq<Exchange>,
    now: Seq<Exchange>,
) -> bool {
    &&& earlier.len() <= now.len()
    &&& now.take(earlier.len() as int) == earlier
    &&& answered(before, after, now.skip(earlier.len() as int))
}

/// Whether strategies that are alike ask the same of the same call, and are
/// still alike then: what they ask is a function of what they are told and
/// shown.
pub open spec fn asks_alike<S: Strategy>(alike: spec_fn(S, S) -> bool) -> bool {
    forall|a: S, b: S, call: Call, a2: S, b2: S, x: Asked, y: Asked|
        #![trigger alike(a, b), a.hears(call, &a2, x), b.hears(call, &b2, y)]
        alike(a, b) && a.hears(call, &a2, x) && b.hears(call, &b2, y) ==> x == y && alike(a2, b2)
}

/// Two strategies that are alike, ask alike, and are told and shown the same
/// from one call to the next have asked for the same all along.
pub proof fn same_calls_same_answers<S: Strategy>(
    alike: spec_fn(S, S) -> bool,
    a: S,
    a2: S,
    b: S,
    b2: S,
    said: Seq<Exchange>,
    heard: Seq<Exchange>,
)
    requires
        asks_alike(alike),
        alike(a, b),
        answered(a, a2, said),
        answered(b, b2, heard),
        said.len() == heard.len(),
        forall|i: int| 0 <= i < said.len() ==> (#[trigger] said[i]).call == heard[i].call,
    ensures
        said == heard,
        alike(a2, b2),
    decreases said.len(),
{
    if said.len() > 0 {
        let n = said.len() - 1;
        let (p, q) = (said.drop_last(), heard.drop_last());
        let am = choose|am: S|
            answered(a, am, p) && #[trigger] am.hears(said.last().call, &a2, said.last().asked);
        let bm = choose|bm: S|
            answered(b, bm, q) && #[trigger] bm.hears(heard.last().call, &b2, heard.last().asked);
        assert forall|i: int| 0 <= i < p.len() implies (#[trigger] p[i]).call == q[i].call by {
            assert(p[i] == said[i] && q[i] == heard[i]);
        }
        same_calls_same_answers(alike, a, am, b, bm, p, q);
        assert(said[n].call == heard[n].call);
        assert(said =~= p.push(said[n]));
        assert(heard =~= q.push(heard[n]));
    } else {
        assert(said =~= heard);
    }
}

/// Two signal replays with the same signals still to come.
pub open spec fn same_signals() -> spec_fn(SignalReplay, SignalReplay) -> bool {
    |a: SignalReplay, b: SignalReplay|
        a.pending() == b.pending() && a.left_over() == b.left_over()
}

/// A signal replay asks for what its signals and the time it is shown make of
/// it, and nothing else decides.
pub proof fn signal_replays_ask_alike()
    ensures
        asks_alike(same_signals()),
{
}

/// Two command replays with the same commands still to come and the same
/// orders behind them.
pub open spec fn same_commands() -> spec_fn(CommandReplay, CommandReplay) -> bool {
    |a: CommandReplay, b: CommandReplay|
        a.pending() == b.pending() && a.names() == b.names() && a.left_over() == b.left_over()
}

/// A command replay asks for what its commands and what it is shown make of
/// it, and nothing else decides.
pub proof fn command_replays_ask_alike()
    ensures
        asks_alike(same_commands()),
{
}

pub proof fn talked_not<S: Strategy>(strategy: S, said: Seq<Exchange>)
    ensures
        talked(strategy, strategy, said, said),
{
    assert(said.take(said.len() as int) =~= said);
    assert(said.skip(said.len() as int) =~= Seq::<Exchange>::empty());
}

proof fn answered_again<S: Strategy>(a: S, b: S, c: S, first: Seq<Exchange>, then: Seq<Exchange>)
    requires
        answered(a, b, first),
        answered(b, c, then),
    ensures
        answered(a, c, first + then),
    decreases then.len(),
{
    if then.len() == 0 {
        assert(first + then =~= first);
    } else {
        let between = choose|between: S|
            answered(b, between, then.drop_last()) && #[trigger] between.hears(
                then.last().call,
                &c,
                then.last().asked,
            );
        answered_again(a, b, between, first, then.drop_last());
        assert((first + then).drop_last() =~= first + then.drop_last());
        assert((first + then).last() == then.last());
    }
}

/// A conversation carried on twice.
pub proof fn talked_again<S: Strategy>(
    a: S,
    b: S,
    c: S,
    first: Seq<Exchange>,
    then: Seq<Exchange>,
    now: Seq<Exchange>,
)
    requires
        talked(a, b, first, then),
        talked(b, c, then, now),
    ensures
        talked(a, c, first, now),
{
    let n = first.len() as int;
    let m = then.len() as int;
    assert(now.take(n) =~= now.take(m).take(n));
    assert(now.skip(n) =~= then.skip(n) + now.skip(m)) by {
        assert(now.take(m) == then);
    }
    answered_again(a, b, c, then.skip(n), now.skip(m));
}

/// One call more.
pub proof fn talked_once<S: Strategy>(a: S, b: S, said: Seq<Exchange>, exchange: Exchange)
    requires
        a.hears(exchange.call, &b, exchange.asked),
    ensures
        talked(a, b, said, said.push(exchange)),
{
    let now = said.push(exchange);
    assert(now.take(said.len() as int) =~= said);
    let new = now.skip(said.len() as int);
    assert(new.drop_last() =~= Seq::<Exchange>::empty());
    assert(new.last() == exchange);
    assert(answered(a, a, new.drop_last()));
    assert(a.hears(new.last().call, &b, new.last().asked));
}

/// A strategy that is data: a list of timestamped requests, replayed
/// through the full matching, fee and latency path.
pub struct SignalReplay {
    intents: VecDeque<(UnixNanos, OrderRequest)>,
    undelivered: usize,
}

/// Timestamps never go down.
pub open spec fn in_time_order<T>(items: Seq<(UnixNanos, T)>) -> bool {
    forall|i: int, j: int|
        #![trigger items[i], items[j]]
        0 <= i < j < items.len() ==> items[i].0.0 <= items[j].0.0
}

/// How many of the first items are due.
pub open spec fn due_count<T>(items: Seq<(UnixNanos, T)>, now: UnixNanos) -> nat
    decreases items.len(),
{
    if items.len() == 0 || items[0].0.0 > now.0 {
        0
    } else {
        1 + due_count(items.drop_first(), now)
    }
}

/// Whether an item is the first to go back in time, and by how much.
pub open spec fn first_backwards<T>(
    items: Seq<(UnixNanos, T)>,
    stream: Seq<char>,
    e: BacktestError,
    i: int,
) -> bool {
    &&& 0 < i < items.len()
    &&& in_time_order(items.take(i))
    &&& items[i].0.0 < items[i - 1].0.0
    &&& e matches BacktestError::OutOfOrder { stream: s, ts, previous } && s@ == stream && ts
        == items[i].0.0 && previous == items[i - 1].0.0
}

/// A request as something asked for.
pub open spec fn submissions(items: Seq<(UnixNanos, OrderRequest)>) -> Seq<Intent> {
    items.map_values(|item: (UnixNanos, OrderRequest)| Intent::Submit(item.1))
}

/// One more item keeps a list in time order if it is not before the last.
proof fn order_extends<T>(items: Seq<(UnixNanos, T)>, i: int)
    requires
        0 < i < items.len(),
        in_time_order(items.take(i)),
        items[i - 1].0.0 <= items[i].0.0,
    ensures
        in_time_order(items.take(i + 1)),
{
    let long = items.take(i + 1);
    let short = items.take(i);
    assert forall|a: int, b: int|
        #![trigger long[a], long[b]]
        0 <= a < b < long.len() implies long[a].0.0 <= long[b].0.0 by {
        assert(long[a] == short[a]);
        if b < i {
            assert(long[b] == short[b]);
        } else if a < i - 1 {
            assert(short[i - 1] == items[i - 1]);
            assert(short[a].0.0 <= short[i - 1].0.0);
        }
    }
}

impl SignalReplay {
    /// What is still to be delivered.
    pub closed spec fn pending(&self) -> Seq<(UnixNanos, OrderRequest)> {
        self.intents@
    }

    pub closed spec fn left_over(&self) -> usize {
        self.undelivered
    }

    /// Intents the data never reached. Only meaningful after the run.
    pub fn undelivered(&self) -> (n: usize)
        ensures
            n == self.left_over(),
    {
        self.undelivered
    }

    /// Intents must be in timestamp order; that is checked, not assumed.
    pub fn new(intents: Vec<(UnixNanos, OrderRequest)>) -> (r: Result<Self, BacktestError>)
        ensures
            match r {
                Ok(s) => in_time_order(intents@) && s.pending() == intents@ && s.left_over() == 0,
                Err(e) => exists|i: int| #[trigger]
                    first_backwards(intents@, "signals"@, e, i),
            },
    {
        let mut i: usize = 1;
        while i < intents.len()
            invariant
                1 <= i,
                i <= intents@.len() || intents@.len() == 0,
                i <= intents@.len() ==> in_time_order(intents@.take(i as int)),
            decreases intents@.len() - i,
        {
            if intents[i].0.0 < intents[i - 1].0.0 {
                let e = BacktestError::OutOfOrder {
                    stream: "signals".to_owned(),
                    ts: intents[i].0.0,
                    previous: intents[i - 1].0.0,
                };
                assert(first_backwards(intents@, "signals"@, e, i as int));
                return Err(e);
            }
            proof {
                order_extends(intents@, i as int);
            }
            i += 1;
        }
        let mut queue: VecDeque<(UnixNanos, OrderRequest)> = VecDeque::new();
        proof {
            if intents@.len() > 0 {
                assert(intents@.take(i as int) =~= intents@);
            }
        }
        let mut j: usize = 0;
        while j < intents.len()
            invariant
                j <= intents@.len(),
                queue@ == intents@.take(j as int),
            decreases intents@.len() - j,
        {
            queue.push_back((intents[j].0, intents[j].1.clone()));
            assert(queue@ =~= intents@.take(j + 1));
            j += 1;
        }
        assert(intents@.take(j as int) =~= intents@);
        Ok(SignalReplay { intents: queue, undelivered: 0 })
    }
}

impl Strategy for SignalReplay {
    open spec fn ready(&self) -> bool {
        true
    }

    open spec fn willing(&self) -> bool {
        true
    }

    /// A record makes it submit everything that has come due; the end of the
    /// run makes it count what has not. Nothing else moves it.
    open spec fn hears(&self, call: Call, after: &Self, asked: Asked) -> bool {
        match call.told {
            Told::Event(_) => {
                let n = due_count(self.pending(), call.shown.now) as int;
                &&& after.pending() == self.pending().skip(n)
                &&& after.left_over() == self.left_over()
                &&& asked == (Asked {
                    intents: call.asked.intents + submissions(self.pending().take(n)),
                    ..call.asked
                })
            },
            Told::Stop => {
                &&& after.pending() == Seq::<(UnixNanos, OrderRequest)>::empty()
                &&& after.left_over() == self.pending().len()
                &&& asked == call.asked
            },
            _ => *after == *self && asked == call.asked,
        }
    }

    fn on_start(&mut self, ctx: &mut Context<'_>) -> (r: Result<(), BacktestError>) {
        Ok(())
    }

    fn on_timer(&mut self, ctx: &mut Context<'_>, event: &TimeEvent) -> (r: Result<
        (),
        BacktestError,
    >) {
        Ok(())
    }

    fn on_fill(&mut self, ctx: &mut Context<'_>, fill: &Fill) -> (r: Result<(), BacktestError>) {
        Ok(())
    }

    /// Submit everything that has come due.
    fn on_event(&mut self, ctx: &mut Context<'_>, record: &Record) -> (r: Result<
        (),
        BacktestError,
    >)
        ensures
            r is Ok,
            final(ctx).same_view(*old(ctx)),
            ({
                let n = due_count(old(self).pending(), old(ctx).time()) as int;
                &&& final(self).pending() == old(self).pending().skip(n)
                &&& final(ctx).asked() == old(ctx).asked() + submissions(
                    old(self).pending().take(n),
                )
            }),
    {
        let now = ctx.now();
        let ghost all = self.pending();
        let ghost mut sent: int = 0;
        assert(all.skip(0) =~= all);
        assert(ctx.asked() + submissions(all.take(0)) =~= ctx.asked());
        while self.intents.len() > 0 && self.intents[0].0.0 <= now.0
            invariant
                now == old(ctx).time(),
                all == old(self).pending(),
                0 <= sent <= all.len(),
                self.pending() == all.skip(sent),
                ctx.same_view(*old(ctx)),
                ctx.timers() == old(ctx).timers(),
                ctx.forecast() == old(ctx).forecast(),
                self.left_over() == old(self).left_over(),
                ctx.asked() == old(ctx).asked() + submissions(all.take(sent)),
                sent == 0 ==> *ctx == *old(ctx),
                due_count(all, now) == sent + due_count(all.skip(sent), now),
            decreases self.intents@.len(),
        {
            proof {
                assert(all.skip(sent)[0] == all[sent]);
                assert(all.skip(sent).drop_first() =~= all.skip((sent + 1) as int));
            }
            let ghost before = ctx.asked();
            if let Some((_, request)) = self.intents.pop_front() {
                ctx.submit(request);
                proof {
                    assert(self.pending() =~= all.skip((sent + 1) as int));
                    assert(submissions(all.take(sent + 1)) =~= submissions(all.take(sent)).push(
                        Intent::Submit(request),
                    ));
                    assert(ctx.asked() =~= old(ctx).asked() + submissions(all.take(sent + 1)));
                    sent = sent + 1;
                }
            }
        }
        Ok(())
    }

    /// Account for the intents the data never reached.
    ///
    /// They are counted rather than submitted: there is no data left to fill
    /// them against. The queue is cleared, so a second, longer replay does
    /// not fire a batch of stale intents at its first record.
    fn on_stop(&mut self, ctx: &mut Context<'_>) -> (r: Result<(), BacktestError>)
        ensures
            r is Ok,
            *final(ctx) == *old(ctx),
            final(self).left_over() == old(self).pending().len(),
            final(self).pending() == Seq::<(UnixNanos, OrderRequest)>::empty(),
    {
        self.undelivered = self.intents.len();
        self.intents.clear();
        Ok(())
    }
}

/// A lifecycle command addressed by a stable, strategy-defined order id.
#[derive(PartialEq, Eq, Debug)]
pub enum ReplayCommand {
    Submit { client_order_id: String, request: OrderRequest },
    Cancel { client_order_id: String },
    Amend { client_order_id: String, quantity: Option<Qty>, limit: Option<Price> },
}

/// A command with its texts as sequences of characters.
pub enum CommandView {
    Submit { client_order_id: Seq<char>, request: RequestView },
    Cancel { client_order_id: Seq<char> },
    Amend { client_order_id: Seq<char>, quantity: Option<Qty>, limit: Option<Price> },
}

impl View for ReplayCommand {
    type V = CommandView;

    open spec fn view(&self) -> CommandView {
        match *self {
            ReplayCommand::Submit { client_order_id, request } => CommandView::Submit {
                client_order_id: client_order_id@,
                request: request@,
            },
            ReplayCommand::Cancel { client_order_id } => CommandView::Cancel {
                client_order_id: client_order_id@,
            },
            ReplayCommand::Amend { client_order_id, quantity, limit } => CommandView::Amend {
                client_order_id: client_order_id@,
                quantity,
                limit,
            },
        }
    }
}

impl Clone for ReplayCommand {
    fn clone(&self) -> (r: Self)
        ensures
            r == *self,
    {
        match self {
            ReplayCommand::Submit { client_order_id, request } => ReplayCommand::Submit {
                client_order_id: client_order_id.clone(),
                request: request.clone(),
            },
            ReplayCommand::Cancel { client_order_id } => ReplayCommand::Cancel {
                client_order_id: client_order_id.clone(),
            },
            ReplayCommand::Amend { client_order_id, quantity, limit } => ReplayCommand::Amend {
                client_order_id: client_order_id.clone(),
                quantity: *quantity,
                limit: *limit,
            },
        }
    }
}

/// Whether a command asks for no change at all.
pub open spec fn amends_nothing(command: ReplayCommand) -> bool {
    command matches ReplayCommand::Amend { quantity, limit, .. } && quantity is None && limit is None
}

/// Submissions, amendments and cancellations replayed from a list.
pub struct CommandReplay {
    commands: VecDeque<(UnixNanos, ReplayCommand)>,
    order_ids: SortedMap<String, u64>,
    undelivered: usize,
}

/// Orders by the name the strategy gave them.
pub type OrderNames = Map<Seq<char>, u64>;

/// What became of a list of commands: what was asked for, and the names in
/// use, or the first thing wrong.
pub struct Scripted {
    pub asked: Seq<Intent>,
    pub names: OrderNames,
    pub last_id: u64,
    pub fault: Option<Seq<char>>,
}

/// One command carried out.
pub open spec fn scripted(s: Scripted, command: ReplayCommand) -> Scripted {
    match command {
        ReplayCommand::Submit { client_order_id, request } => {
            if s.names.dom().contains(client_order_id@) {
                Scripted {
                    fault: Some("duplicate client_order_id "@ + debug_text(client_order_id@)),
                    ..s
                }
            } else {
                let id = bumped(s.last_id);
                Scripted {
                    asked: s.asked.push(Intent::Submit(request)),
                    names: s.names.insert(client_order_id@, id),
                    last_id: id,
                    fault: None,
                }
            }
        },
        ReplayCommand::Cancel { client_order_id } => {
            if s.names.dom().contains(client_order_id@) {
                Scripted {
                    asked: s.asked.push(Intent::Cancel(OrderId(s.names[client_order_id@]))),
                    ..s
                }
            } else {
                Scripted {
                    fault: Some(
                        "cancel"@ + " references unknown client_order_id "@ + debug_text(
                            client_order_id@,
                        ),
                    ),
                    ..s
                }
            }
        },
        ReplayCommand::Amend { client_order_id, quantity, limit } => {
            if s.names.dom().contains(client_order_id@) {
                Scripted {
                    asked: s.asked.push(
                        Intent::Amend { id: OrderId(s.names[client_order_id@]), quantity, limit },
                    ),
                    ..s
                }
            } else {
                Scripted {
                    fault: Some(
                        "amend"@ + " references unknown client_order_id "@ + debug_text(
                            client_order_id@,
                        ),
                    ),
                    ..s
                }
            }
        },
    }
}

/// The first `n` commands carried out, up to the first thing wrong.
pub open spec fn script(s: Scripted, commands: Seq<(UnixNanos, ReplayCommand)>, n: nat) -> Scripted
    decreases n,
{
    if n == 0 {
        s
    } else {
        let before = script(s, commands, (n - 1) as nat);
        if before.fault is Some {
            before
        } else {
            scripted(before, commands[n - 1].1)
        }
    }
}

proof fn script_stops(
    s: Scripted,
    commands: Seq<(UnixNanos, ReplayCommand)>,
    n: nat,
    m: nat,
)
    requires
        n <= m,
        script(s, commands, n).fault is Some,
    ensures
        script(s, commands, m) == script(s, commands, n),
    decreases m - n,
{
    if n < m {
        script_stops(s, commands, n, (m - 1) as nat);
    }
}

impl CommandReplay {
    /// What is still to be carried out.
    pub closed spec fn pending(&self) -> Seq<(UnixNanos, ReplayCommand)> {
        self.commands@
    }

    pub closed spec fn names(&self) -> OrderNames {
        self.order_ids@
    }

    pub closed spec fn left_over(&self) -> usize {
        self.undelivered
    }

    pub closed spec fn wf(&self) -> bool {
        self.order_ids.wf()
    }

    /// Commands the data never reached.
    pub fn undelivered(&self) -> (n: usize)
        ensures
            n == self.left_over(),
    {
        self.undelivered
    }

    /// Commands must be in timestamp order, and an amendment must amend.
    pub fn new(commands: Vec<(UnixNanos, ReplayCommand)>) -> (r: Result<Self, BacktestError>)
        ensures
            match r {
                Ok(s) => {
                    &&& s.wf()
                    &&& in_time_order(commands@)
                    &&& forall|i: int|
                        0 <= i < commands@.len() ==> !amends_nothing((#[trigger] commands@[i]).1)
                    &&& s.pending() == commands@
                    &&& s.names() == OrderNames::empty()
                    &&& s.left_over() == 0
                },
                Err(e) => {
                    ||| exists|i: int|
                        #![trigger commands@[i]]
                        first_backwards(commands@, "commands"@, e, i) && forall|j: int|
                            0 <= j < i ==> !amends_nothing((#[trigger] commands@[j]).1)
                    ||| exists|i: int|
                        0 <= i < commands@.len() && amends_nothing((#[trigger] commands@[i]).1)
                            && in_time_order(commands@.take(i + 1)) && says(
                            e,
                            "amend command must change quantity or limit_price"@,
                        )
                },
            },
    {
        let mut i: usize = 0;
        while i < commands.len()
            invariant
                i <= commands@.len(),
                in_time_order(commands@.take(i as int)),
                forall|j: int| 0 <= j < i ==> !amends_nothing((#[trigger] commands@[j]).1),
            decreases commands@.len() - i,
        {
            if i > 0 && commands[i].0.0 < commands[i - 1].0.0 {
                let e = BacktestError::OutOfOrder {
                    stream: "commands".to_owned(),
                    ts: commands[i].0.0,
                    previous: commands[i - 1].0.0,
                };
                assert(first_backwards(commands@, "commands"@, e, i as int));
                assert(commands@[i as int] == commands@[i as int]);
                return Err(e);
            }
            proof {
                if i > 0 {
                    order_extends(commands@, i as int);
                } else {
                    assert(in_time_order(commands@.take(1)));
                }
            }
            if let ReplayCommand::Amend { quantity: None, limit: None, .. } = &commands[i].1 {
                assert(amends_nothing(commands@[i as int].1));
                return Err(
                    BacktestError::invalid("amend command must change quantity or limit_price"),
                );
            }
            i += 1;
        }
        assert(commands@.take(i as int) =~= commands@);
        let mut queue: VecDeque<(UnixNanos, ReplayCommand)> = VecDeque::new();
        let mut j: usize = 0;
        while j < commands.len()
            invariant
                j <= commands@.len(),
                queue@ == commands@.take(j as int),
            decreases commands@.len() - j,
        {
            queue.push_back((commands[j].0, commands[j].1.clone()));
            assert(queue@ =~= commands@.take(j + 1));
            j += 1;
        }
        assert(commands@.take(j as int) =~= commands@);
        Ok(CommandReplay { commands: queue, order_ids: SortedMap::new(), undelivered: 0 })
    }

    /// The order behind a name.
    fn order_id(&self, client_order_id: &String, action: &str) -> (r: Result<
        OrderId,
        BacktestError,
    >)
        requires
            self.wf(),
        ensures
            match r {
                Ok(id) => self.names().dom().contains(client_order_id@) && id.0
                    == self.names()[client_order_id@],
                Err(e) => !self.names().dom().contains(client_order_id@) && says(
                    e,
                    action@ + " references unknown client_order_id "@ + debug_text(
                        client_order_id@,
                    ),
                ),
            },
    {
        match self.order_ids.get(client_order_id) {
            Some(id) => Ok(OrderId(*id)),
            None => {
                let mut m = action.to_owned();
                m.append(" references unknown client_order_id ");
                m.append(debug_of(client_order_id.as_str()).as_str());
                Err(BacktestError::Invalid(m))
            },
        }
    }

    /// Carry out one command.
    fn carry_out(&mut self, ctx: &mut Context<'_>, command: ReplayCommand) -> (r: Result<
        (),
        BacktestError,
    >)
        requires
            old(self).wf(),
        ensures
            final(self).wf(),
            final(self).pending() == old(self).pending(),
            final(self).left_over() == old(self).left_over(),
            final(ctx).same_view(*old(ctx)),
            final(ctx).timers() == old(ctx).timers(),
            final(ctx).forecast() == old(ctx).forecast(),
            ({
                let before = Scripted {
                    asked: old(ctx).asked(),
                    names: old(self).names(),
                    last_id: old(ctx).handed(),
                    fault: None,
                };
                let after = scripted(before, command);
                &&& final(ctx).asked() == after.asked
                &&& final(self).names() == after.names
                &&& final(ctx).handed() == after.last_id
                &&& match r {
                    Ok(_) => after.fault is None,
                    Err(e) => after.fault matches Some(text) && says(e, text),
                }
            }),
    {
        match command {
            ReplayCommand::Submit { client_order_id, request } => {
                if self.order_ids.contains_key(&client_order_id) {
                    let mut m = "duplicate client_order_id ".to_owned();
                    m.append(debug_of(client_order_id.as_str()).as_str());
                    return Err(BacktestError::Invalid(m));
                }
                let id = ctx.submit_tracked(request);
                self.order_ids.insert(client_order_id, id.0);
            },
            ReplayCommand::Cancel { client_order_id } => {
                let id = self.order_id(&client_order_id, "cancel")?;
                ctx.cancel(id);
            },
            ReplayCommand::Amend { client_order_id, quantity, limit } => {
                let id = self.order_id(&client_order_id, "amend")?;
                ctx.amend(id, quantity, limit);
            },
        }
        Ok(())
    }
}

impl Strategy for CommandReplay {
    open spec fn ready(&self) -> bool {
        self.wf()
    }

    /// A script of which nothing is left cannot go wrong.
    open spec fn willing(&self) -> bool {
        self.pending().len() == 0
    }

    /// A record makes it carry out everything that has come due; the end of
    /// the run makes it count what has not. Nothing else moves it.
    open spec fn hears(&self, call: Call, after: &Self, asked: Asked) -> bool {
        match call.told {
            Told::Event(_) => {
                let n = due_count(self.pending(), call.shown.now);
                let done = script(
                    Scripted {
                        asked: call.asked.intents,
                        names: self.names(),
                        last_id: call.shown.last_id,
                        fault: None,
                    },
                    self.pending(),
                    n,
                );
                &&& done.fault is None
                &&& after.names() == done.names
                &&& after.pending() == self.pending().skip(n as int)
                &&& after.left_over() == self.left_over()
                &&& asked == (Asked { intents: done.asked, ..call.asked })
            },
            Told::Stop => {
                &&& after.names() == self.names()
                &&& after.pending() == Seq::<(UnixNanos, ReplayCommand)>::empty()
                &&& after.left_over() == self.pending().len()
                &&& asked == call.asked
            },
            _ => *after == *self && asked == call.asked,
        }
    }

    fn on_start(&mut self, ctx: &mut Context<'_>) -> (r: Result<(), BacktestError>) {
        Ok(())
    }

    fn on_timer(&mut self, ctx: &mut Context<'_>, event: &TimeEvent) -> (r: Result<
        (),
        BacktestError,
    >) {
        Ok(())
    }

    fn on_fill(&mut self, ctx: &mut Context<'_>, fill: &Fill) -> (r: Result<(), BacktestError>) {
        Ok(())
    }

    /// Carry out everything that has come due, up to the first thing wrong.
    fn on_event(&mut self, ctx: &mut Context<'_>, record: &Record) -> (r: Result<
        (),
        BacktestError,
    >)
        ensures
            final(ctx).same_view(*old(ctx)),
            ({
                let n = due_count(old(self).pending(), old(ctx).time());
                let done = script(
                    Scripted {
                        asked: old(ctx).asked(),
                        names: old(self).names(),
                        last_id: old(ctx).handed(),
                        fault: None,
                    },
                    old(self).pending(),
                    n,
                );
                &&& final(ctx).asked() == done.asked
                &&& final(self).names() == done.names
                &&& final(ctx).handed() == done.last_id
                &&& match r {
                    Ok(_) => done.fault is None && final(self).pending() == old(
                        self,
                    ).pending().skip(n as int),
                    Err(e) => done.fault matches Some(text) && says(e, text),
                }
            }),
    {
        let now = ctx.now();
        let ghost all = self.pending();
        let ghost mut sent: nat = 0;
        let ghost start = Scripted {
            asked: ctx.asked(),
            names: self.names(),
            last_id: ctx.handed(),
            fault: None,
        };
        let ghost due = due_count(all, now);
        assert(all.skip(0) =~= all);
        while self.commands.len() > 0 && self.commands[0].0.0 <= now.0
            invariant
                now == old(ctx).time(),
                all == old(self).pending(),
                due == due_count(all, now),
                start == (Scripted {
                    asked: old(ctx).asked(),
                    names: old(self).names(),
                    last_id: old(ctx).handed(),
                    fault: None,
                }),
                sent <= all.len(),
                self.wf(),
                self.pending() == all.skip(sent as int),
                ctx.same_view(*old(ctx)),
                ctx.timers() == old(ctx).timers(),
                ctx.forecast() == old(ctx).forecast(),
                self.left_over() == old(self).left_over(),
                sent == 0 ==> *ctx == *old(ctx),
                script(start, all, sent) == (Scripted {
                    asked: ctx.asked(),
                    names: self.names(),
                    last_id: ctx.handed(),
                    fault: None,
                }),
                due == sent + due_count(all.skip(sent as int), now),
            decreases self.commands@.len(),
        {
            proof {
                assert(all.skip(sent as int)[0] == all[sent as int]);
                assert(all.skip(sent as int).drop_first() =~= all.skip((sent + 1) as int));
            }
            if let Some((_, command)) = self.commands.pop_front() {
                proof {
                    assert(self.pending() =~= all.skip((sent + 1) as int));
                    assert(command == all[sent as int].1);
                    assert(script(start, all, sent + 1) == scripted(
                        script(start, all, sent),
                        all[sent as int].1,
                    ));
                }
                match self.carry_out(ctx, command) {
                    Ok(_) => {},
                    Err(e) => {
                        proof {
                            script_stops(start, all, sent + 1, due);
                        }
                        return Err(e);
                    },
                }
                proof {
                    sent = sent + 1;
                }
            }
        }
        Ok(())
    }

    /// Account for the commands the data never reached.
    fn on_stop(&mut self, ctx: &mut Context<'_>) -> (r: Result<(), BacktestError>)
        ensures
            r is Ok,
            *final(ctx) == *old(ctx),
            final(self).left_over() == old(self).pending().len(),
            final(self).pending() == Seq::<(UnixNanos, ReplayCommand)>::empty(),
    {
        self.undelivered = self.commands.len();
        self.commands.clear();
        Ok(())
    }
}

/// What is due is everything up to the first item of a later time.
pub proof fn what_is_due_has_come<T>(items: Seq<(UnixNanos, T)>, now: UnixNanos)
    ensures
        due_count(items, now) <= items.len(),
        forall|i: int| 0 <= i < due_count(items, now) ==> (#[trigger] items[i]).0.0 <= now.0,
        due_count(items, now) < items.len() ==> items[due_count(items, now) as int].0.0 > now.0,
    decreases items.len(),
{
    if items.len() > 0 && items[0].0.0 <= now.0 {
        let rest = items.drop_first();
        what_is_due_has_come(rest, now);
        assert forall|i: int| 0 <= i < due_count(items, now) implies (#[trigger] items[i]).0.0
            <= now.0 by {
            if i > 0 {
                assert(rest[i - 1] == items[i]);
            }
        }
        if due_count(items, now) < items.len() {
            assert(rest[due_count(rest, now) as int] == items[due_count(items, now) as int]);
        }
    }
}

/// A signal goes out on the first record that is not earlier than it: by
/// then, and none before its time. Each goes out as it was given, in order,
/// and what is not due stays.
pub proof fn signals_go_out_when_due(
    signals: SignalReplay,
    call: Call,
    after: SignalReplay,
    asked: Asked,
)
    requires
        signals.hears(call, &after, asked),
        call.told is Event,
    ensures
        ({
            let n = signals.pending().len() - after.pending().len();
            let before = call.asked.intents;
            &&& 0 <= n
            &&& asked.intents.len() == before.len() + n
            &&& asked.intents.take(before.len() as int) == before
            &&& forall|i: int|
                0 <= i < n ==> #[trigger] asked.intents[before.len() + i] == Intent::Submit(
                    signals.pending()[i].1,
                ) && signals.pending()[i].0.0 <= call.shown.now.0
            &&& forall|i: int|
                0 <= i < after.pending().len() ==> #[trigger] after.pending()[i]
                    == signals.pending()[n + i]
            &&& after.pending().len() > 0 ==> after.pending()[0].0.0 > call.shown.now.0
            &&& asked.timers == call.asked.timers && asked.forecasts == call.asked.forecasts
        }),
{
    let items = signals.pending();
    let n = due_count(items, call.shown.now) as int;
    what_is_due_has_come(items, call.shown.now);
    let before = call.asked.intents;
    assert(asked.intents.take(before.len() as int) =~= before);
    assert forall|i: int| 0 <= i < n implies #[trigger] asked.intents[before.len() + i]
        == Intent::Submit(items[i].1) && items[i].0.0 <= call.shown.now.0 by {
        assert(items.take(n)[i] == items[i]);
    }
}

/// A script speaks of orders by the names it gave them: a cancellation or an
/// amendment goes to the order last submitted under its name, a name is given
/// once, and one that was never given is a fault.
pub proof fn a_script_speaks_of_orders_by_name(s: Scripted, command: ReplayCommand)
    ensures
        ({
            let after = scripted(s, command);
            &&& command matches ReplayCommand::Submit { client_order_id, request } ==> {
                let name = client_order_id@;
                &&& s.names.dom().contains(name) ==> after.fault is Some && after.asked == s.asked
                &&& !s.names.dom().contains(name) ==> {
                    &&& after.asked == s.asked.push(Intent::Submit(request))
                    &&& after.names.dom().contains(name) && after.names[name] == after.last_id
                    &&& s.last_id < u64::MAX ==> after.last_id == s.last_id + 1
                    &&& after.fault is None
                }
            }
            &&& command matches ReplayCommand::Cancel { client_order_id } ==> {
                let name = client_order_id@;
                &&& after.names == s.names
                &&& s.names.dom().contains(name) ==> after.asked == s.asked.push(
                    Intent::Cancel(OrderId(s.names[name])),
                ) && after.fault == s.fault
                &&& !s.names.dom().contains(name) ==> after.fault is Some && after.asked == s.asked
            }
            &&& command matches ReplayCommand::Amend { client_order_id, quantity, limit } ==> {
                let name = client_order_id@;
                &&& after.names == s.names
                &&& s.names.dom().contains(name) ==> after.asked == s.asked.push(
                    Intent::Amend { id: OrderId(s.names[name]), quantity, limit },
                ) && after.fault == s.fault
                &&& !s.names.dom().contains(name) ==> after.fault is Some && after.asked == s.asked
            }
        }),
{
}

} // verus!
