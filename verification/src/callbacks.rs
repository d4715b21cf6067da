//! Asking a strategy, and doing what it asked.
//!
//! A strategy is handed a view of the market and of its own account, and
//! nothing it does there changes either. What it asked for is taken over
//! afterwards, in the order it asked.

use vstd::prelude::*;
use vstd::string::*;

use crate::account::MarginModel;
use crate::clock::{
    after_setting, all_scheduled, event_key, one_shot_scheduled, timer_refused, Clock, TimeEvent,
};
use crate::desk::Desk;
use crate::engine::{fresh_ids, numbered, submit_id, submits, Command, Engine, Journal};
use crate::error::BacktestError;
use crate::event::Record;
use crate::execution::ExecutionClient;
use crate::metrics::bumped;
use crate::models::{FeeModel, FillModel, LatencyModel};
use crate::order::{Fill, OrderId};
use crate::request::Forecast;
use crate::strategy::{
    nothing_asked, talked, talked_again, talked_not, talked_once, Asked, Call, Context, Exchange, Intent, Outbox, Shown, Strategy, Told,
};
use crate::types::UnixNanos;

verus! {

/// The ids submissions are given all lie beyond the last one used, each
/// beyond the one before it.
proof fn numbering_is_fresh(intents: Seq<Intent>, last: int)
    requires
        0 <= last,
        last + submits(intents) <= u64::MAX,
    ensures
        numbered(intents, last).len() == intents.len(),
        forall|i: int|
            0 <= i < intents.len() ==> (submit_id(
                #[trigger] numbered(intents, last)[i],
            ) matches Some(id) ==> last < id <= last + submits(intents)),
        forall|i: int, j: int|
            #![trigger numbered(intents, last)[i], numbered(intents, last)[j]]
            0 <= i < j < intents.len() && submit_id(numbered(intents, last)[i]) is Some
                ==> submit_id(numbered(intents, last)[i]) != submit_id(numbered(intents, last)[j]),
    decreases intents.len(),
{
    if intents.len() > 0 {
        let rest = intents.drop_last();
        numbering_is_fresh(rest, last);
        let before = numbered(rest, last);
        let all = numbered(intents, last);
        let n = intents.len() - 1;
        assert forall|i: int| 0 <= i < intents.len() implies (submit_id(
            #[trigger] all[i],
        ) matches Some(id) ==> last < id <= last + submits(intents)) by {
            if i < n {
                assert(all[i] == before[i]);
            }
        }
        assert forall|i: int, j: int|
            #![trigger all[i], all[j]]
            0 <= i < j < intents.len() && submit_id(all[i]) is Some implies submit_id(all[i])
            != submit_id(all[j]) by {
            assert(all[i] == before[i]);
            if j < n {
                assert(all[j] == before[j]);
            }
        }
    }
}

/// The id a strategy is told when it submits an order is the id the order is
/// given once the submission is taken over.
pub proof fn ids_told_are_ids_given(intents: Seq<Intent>, last: u64, handed: u64, submission: Intent)
    requires
        submission is Submit,
        handed == last + submits(intents),
        handed < u64::MAX,
    ensures
        numbered(intents.push(submission), last as int).last() == Command::Submit(
            OrderId(bumped(handed)),
            submission->Submit_0,
        ),
        bumped(handed) == last + submits(intents.push(submission)),
{
    assert(intents.push(submission).drop_last() =~= intents);
}

/// Give every submission its order id.
fn number(intents: Vec<Intent>, last: u64) -> (r: Result<(Vec<Command>, u64), BacktestError>)
    ensures
        match r {
            Ok((commands, end)) => end == last + submits(intents@) && commands@ == numbered(
                intents@,
                last as int,
            ),
            Err(e) => last + submits(intents@) > u64::MAX && e == (BacktestError::Overflow {
                what: "order id",
            }),
        },
{
    let ghost all = intents@;
    let mut rest = intents;
    let mut commands: Vec<Command> = Vec::new();
    let mut end: u64 = last;
    let ghost mut done: int = 0;
    assert(all.skip(0) =~= all);
    assert(all.take(0) =~= Seq::<Intent>::empty());
    while rest.len() > 0
        invariant
            0 <= done <= all.len(),
            all == intents@,
            rest@ == all.skip(done),
            end == last + submits(all.take(done)),
            commands@ == numbered(all.take(done), last as int),
        decreases rest@.len(),
    {
        proof {
            assert(all.take(done + 1).drop_last() =~= all.take(done));
            assert(all.take(done + 1).last() == all[done]);
            assert(rest@[0] == all[done]);
        }
        let intent = rest.remove(0);
        assert(rest@ =~= all.skip(done + 1));
        match intent {
            Intent::Submit(request) => {
                if end == u64::MAX {
                    proof {
                        submits_grow(all, done + 1);
                    }
                    return Err(BacktestError::Overflow { what: "order id" });
                }
                end = end + 1;
                commands.push(Command::Submit(OrderId(end), request));
            },
            Intent::Cancel(id) => {
                commands.push(Command::Cancel(id));
            },
            Intent::Amend { id, quantity, limit } => {
                commands.push(Command::Amend { id, quantity, limit });
            },
            Intent::Operate(request) => {
                commands.push(Command::Operate(request));
            },
            Intent::Twap(request) => {
                commands.push(Command::Twap(request));
            },
        }
        proof {
            assert(commands@ =~= numbered(all.take(done + 1), last as int));
            done = done + 1;
        }
    }
    assert(all.take(done) =~= all);
    Ok((commands, end))
}

proof fn submits_grow(intents: Seq<Intent>, n: int)
    requires
        0 <= n <= intents.len(),
    ensures
        submits(intents.take(n)) <= submits(intents),
    decreases intents.len() - n,
{
    if n < intents.len() {
        assert(intents.take(n + 1).drop_last() =~= intents.take(n));
        submits_grow(intents, n + 1);
    } else {
        assert(intents.take(n) =~= intents);
    }
}

/// Nothing was asked for.
pub open spec fn asks_nothing(outbox: Outbox) -> bool {
    outbox.intents@.len() == 0 && outbox.timers@.len() == 0 && outbox.forecasts@.len() == 0
}

/// Whether strategies of a kind never ask for anything.
pub open spec fn never_asks<S: Strategy>() -> bool {
    forall|s: S, call: Call, then: S, asked: Asked| #[trigger]
        s.hears(call, &then, asked) ==> asked == nothing_asked()
}

impl<F: FeeModel, L: FillModel, T: LatencyModel, M: MarginModel, X: ExecutionClient> Engine<
    F,
    L,
    T,
    M,
    X,
> {
    proof fn heeds_itself(self)
        ensures
            self.heeded(self),
    {
        assert(self.journal.forecasts@.take(self.journal.forecasts@.len() as int)
            =~= self.journal.forecasts@);
        assert(self.desk.twaps@.take(self.desk.twaps@.len() as int) =~= self.desk.twaps@);
    }

    /// Carry out commands, in order.
    pub(crate) fn drain_commands(&mut self, commands: Vec<Command>) -> (r: Result<
        (),
        BacktestError,
    >)
        requires
            old(self).sound(),
            fresh_ids(commands@, old(self).desk.orders@, old(self).desk.next_order_id),
        ensures
            final(self).sound(),
            old(self).heeded(*final(self)),
            final(self).talk == old(self).talk,
            final(self).clock == old(self).clock,
            final(self).journal.forecasts == old(self).journal.forecasts,
            match r {
                Ok(_) => old(self).carries_out(*final(self), commands@) && old(self).obeys_all(
                    *final(self),
                    commands@,
                ),
                Err(_) => old(self).stops_short(commands@),
            },
    {
        let mut rest = commands;
        let ghost all = commands@;
        let ghost mut done: int = 0;
        proof {
            Self::what_is_done_has_names();
            old(self).heeds_itself();
            assert(all.skip(0) =~= all);
        }
        while rest.len() > 0
            invariant
                self.sound(),
                old(self).heeded(*self),
                self.talk == old(self).talk,
                self.clock == old(self).clock,
                self.journal.forecasts == old(self).journal.forecasts,
                fresh_ids(rest@, self.desk.orders@, self.desk.next_order_id),
                all == commands@,
                0 <= done <= all.len(),
                rest@ == all.skip(done),
                old(self).carries_out(*self, all.take(done)),
            decreases rest@.len(),
        {
            let ghost before = *self;
            let ghost queue = rest@;
            let command = rest.remove(0);
            assert(forall|i: int| 0 <= i < rest@.len() ==> #[trigger] rest@[i] == queue[i + 1]);
            let r = match command {
                Command::Submit(id, request) => {
                    assert(queue[0] == command);
                    self.accept(id, request)
                },
                Command::Cancel(id) => self.cancel(id),
                Command::Amend { id, quantity, limit } => self.amend(id, quantity, limit),
                Command::Operate(request) => self.queue_set_operation(request),
                Command::Twap(request) => self.start_twap(request),
            };
            proof {
                Self::heeded_again(*old(self), before, *self);
                assert forall|i: int| 0 <= i < rest@.len() implies (submit_id(
                    #[trigger] rest@[i],
                ) matches Some(id) ==> id <= self.desk.next_order_id
                    && !self.desk.orders@.dom().contains(id)) by {
                    assert(rest@[i] == queue[i + 1]);
                    if let Some(id) = submit_id(rest@[i]) {
                        assert(!before.desk.orders@.dom().contains(id));
                        assert(submit_id(queue[0]) != submit_id(queue[i + 1]));
                    }
                }
                assert forall|i: int, j: int|
                    #![trigger rest@[i], rest@[j]]
                    0 <= i < j < rest@.len() && submit_id(rest@[i]) is Some implies submit_id(
                    rest@[i],
                ) != submit_id(rest@[j]) by {
                    assert(rest@[i] == queue[i + 1] && rest@[j] == queue[j + 1]);
                }
                assert(rest@ =~= all.skip(done + 1));
                assert(command == all[done]);
                assert(all.take(done + 1).drop_last() =~= all.take(done));
                assert(all.take(done + 1).last() == command);
                if r is Err {
                    assert(old(self).carries_out(before, all.take(done)));
                    assert(before.may_refuse(all[done]));
                } else {
                    assert(old(self).carries_out(before, all.take(done + 1).drop_last()));
                    assert(before.performs(*self, command));
                    assert(old(self).carries_out(*self, all.take(done + 1)));
                }
                done = done + 1;
            }
            r?;
        }
        assert(all.take(done) =~= all);
        Ok(())
    }

    /// Set the timers a strategy asked for.
    fn set_timers(&mut self, timers: &Vec<(String, UnixNanos)>) -> (r: Result<(), BacktestError>)
        requires
            old(self).sound(),
        ensures
            final(self).sound(),
            *final(self) == (Engine { clock: final(self).clock, ..*old(self) }),
            after_setting(old(self).clock, final(self).clock, timers@, r),
            timers@.len() == 0 ==> *final(self) == *old(self),
    {
        let mut i: usize = 0;
        assert(timers@.take(0) =~= Seq::<(String, UnixNanos)>::empty());
        while i < timers.len()
            invariant
                i <= timers@.len(),
                i == 0 ==> *self == *old(self),
                self.sound(),
                *self == (Engine { clock: self.clock, ..*old(self) }),
                self.clock.time() == old(self).clock.time(),
                self.clock.last_sequence() == old(self).clock.last_sequence() + i,
                self.clock.timers() == all_scheduled(
                    old(self).clock.timers(),
                    old(self).clock.last_sequence(),
                    timers@.take(i as int),
                ),
                forall|j: int|
                    0 <= j < i ==> (#[trigger] timers@[j]).1.0 >= old(self).clock.time(),
            decreases timers@.len() - i,
        {
            let ghost before = self.clock;
            let r = self.clock.set_timer(timers[i].0.as_str(), timers[i].1);
            proof {
                assert(timers@.take(i + 1).drop_last() =~= timers@.take(i as int));
                if r is Err {
                    assert(timer_refused(
                        old(self).clock,
                        timers@[i as int],
                        i as int,
                        r->Err_0,
                    ));
                } else {
                    one_shot_scheduled(
                        before.timers(),
                        (
                            (timers@[i as int].1.0, (timers@[i as int].0@, self.clock.last_sequence())),
                            None,
                        ),
                    );
                }
            }
            r?;
            i += 1;
        }
        assert(timers@.take(i as int) =~= timers@);
        Ok(())
    }

    /// Everything asked for done: timers and forecasts taken down, ids given
    /// out, and the commands carried out in order.
    pub(crate) open spec fn takes_over(self, after: Self, outbox: Outbox) -> bool {
        exists|ready: Self| #[trigger]
            ready.carries_out(
                after,
                numbered(outbox.intents@, self.desk.next_order_id as int),
            ) && ready == (Engine {
                clock: ready.clock,
                journal: Journal { forecasts: ready.journal.forecasts, ..self.journal },
                desk: Desk {
                    next_order_id: (self.desk.next_order_id + submits(outbox.intents@)) as u64,
                    ..self.desk
                },
                ..self
            }) && after_setting(self.clock, ready.clock, outbox.timers@, Ok(()))
                && ready.journal.forecasts@ == self.journal.forecasts@ + outbox.forecasts@
    }

    /// A timer asked for cannot be set.
    pub(crate) open spec fn refuses_timers(self, outbox: Outbox, error: BacktestError) -> bool {
        exists|after: Clock| #[trigger]
            after_setting(self.clock, after, outbox.timers@, Err(error))
    }

    /// The submissions need more ids than are left.
    pub(crate) open spec fn refuses_ids(self, outbox: Outbox, error: BacktestError) -> bool {
        self.desk.next_order_id + submits(outbox.intents@) > u64::MAX && error == (
        BacktestError::Overflow { what: "order id" })
    }

    /// A command asked for cannot be carried out.
    pub(crate) open spec fn refuses_commands(self, outbox: Outbox) -> bool {
        exists|ready: Self| #[trigger]
            ready.stops_short(numbered(outbox.intents@, self.desk.next_order_id as int))
                && ready.desk == (Desk {
                next_order_id: (self.desk.next_order_id + submits(outbox.intents@)) as u64,
                ..self.desk
            }) && ready.setup == self.setup && ready.ledger == self.ledger && ready.market
                == self.market && ready.execution == self.execution
    }

    /// What was asked for cannot be done.
    pub(crate) open spec fn refuses(self, outbox: Outbox) -> bool {
        ||| exists|e: BacktestError| #[trigger] self.refuses_timers(outbox, e)
        ||| exists|e: BacktestError| #[trigger] self.refuses_ids(outbox, e)
        ||| self.refuses_commands(outbox)
    }

    /// A strategy called in some state asked for what could not be done, and
    /// that is where things were left.
    pub(crate) open spec fn balks_at<S: Strategy>(
        talk: Seq<Exchange>,
        after: Self,
        before: S,
        then: S,
        at: Self,
        asked: S,
        told: Told,
        outbox: Outbox,
    ) -> bool {
        &&& talked(before, asked, talk, at.talk@)
        &&& asked.hears(at.calls(told), &then, outbox@)
        &&& at.refuses(outbox)
        &&& at.heeded(after)
        &&& after.talk == at.talk
    }

    /// The conversation came to a call in answer to which the strategy asked
    /// for something that could not be done: a timer in the past, more orders
    /// than there are ids, or a command that cannot be carried out.
    pub closed spec fn balked<S: Strategy>(
        talk: Seq<Exchange>,
        after: Self,
        before: S,
        then: S,
    ) -> bool {
        exists|at: Self, asked: S, told: Told, outbox: Outbox| #[trigger]
            Self::balks_at(talk, after, before, then, at, asked, told, outbox)
    }

    /// Neither did the strategy fail nor did it ask for what could not be
    /// done.
    pub open spec fn left_free<S: Strategy>(
        talk: Seq<Exchange>,
        after: Self,
        before: S,
        then: S,
    ) -> bool {
        before.willing() && !Self::balked(talk, after, before, then)
    }

    /// Neither did the strategy fail from here on nor did it ask for what
    /// could not be done.
    pub(crate) open spec fn unhindered<S: Strategy>(self, after: Self, before: S, then: S) -> bool {
        Self::left_free(self.talk@, after, before, then)
    }

    /// What a later part of a conversation came to, the whole of it came to.
    pub(crate) proof fn free_all_along<S: Strategy>(
        talk: Seq<Exchange>,
        later: Seq<Exchange>,
        after: Self,
        before: S,
        asked: S,
        then: S,
    )
        requires
            talked(before, asked, talk, later),
            before.willing() ==> asked.willing(),
        ensures
            Self::left_free(talk, after, before, then) ==> Self::left_free(
                later,
                after,
                asked,
                then,
            ),
    {
        if Self::balked(later, after, asked, then) {
            let (at, called, told, outbox) = choose|
                at: Self,
                called: S,
                told: Told,
                outbox: Outbox,
            | #[trigger]
                Self::balks_at(later, after, asked, then, at, called, told, outbox);
            talked_again(before, asked, called, talk, later, at.talk@);
            assert(Self::balks_at(talk, after, before, then, at, called, told, outbox));
        }
    }

    /// A strategy that asks for nothing is never turned down: what is left to
    /// fail is the data and the arithmetic.
    pub proof fn asking_for_nothing_is_never_refused<S: Strategy>(
        talk: Seq<Exchange>,
        after: Self,
        before: S,
        then: S,
    )
        requires
            never_asks::<S>(),
        ensures
            !Self::balked(talk, after, before, then),
    {
        if Self::balked(talk, after, before, then) {
            let (at, asked, told, outbox) = choose|at: Self, asked: S, told: Told, outbox: Outbox|
                #[trigger]
                Self::balks_at(talk, after, before, then, at, asked, told, outbox);
            assert(outbox@ == nothing_asked());
            at.nothing_is_not_refused(outbox);
        }
    }

    proof fn nothing_is_not_refused(self, outbox: Outbox)
        requires
            asks_nothing(outbox),
        ensures
            !self.refuses(outbox),
    {
        assert(numbered(outbox.intents@, self.desk.next_order_id as int).len() == 0);
    }

    /// The call a strategy gets when it is told something now.
    pub(crate) open spec fn calls(self, told: Told) -> Call {
        Call {
            told,
            shown: Shown {
                now: UnixNanos(self.clock.time()),
                market: self.market@,
                held: self.ledger.portfolio.held(),
                marked: self.ledger.portfolio.marked(),
                cash: self.ledger.cash,
                last_id: self.desk.next_order_id,
            },
            asked: nothing_asked(),
        }
    }

    /// One call and its answer put on record.
    pub(crate) open spec fn notes(self, after: Self, exchange: Exchange) -> bool {
        &&& after == (Engine { talk: after.talk, ..self })
        &&& after.talk@ == self.talk@.push(exchange)
    }

    /// The strategy told something, and what it asked for then taken over.
    pub(crate) open spec fn listens(self, after: Self, told: Told) -> bool {
        exists|heeded: Self, outbox: Outbox| #[trigger]
            self.takes_over(heeded, outbox) && heeded.notes(
                after,
                Exchange { call: self.calls(told), asked: outbox@ },
            )
    }

    /// Do what a strategy asked for: its timers, its forecasts, and its
    /// commands in the order it gave them.
    pub(crate) fn heed(&mut self, outbox: Outbox) -> (r: Result<(), BacktestError>)
        requires
            old(self).sound(),
        ensures
            final(self).sound(),
            old(self).heeded(*final(self)),
            r is Ok ==> final(self).journal.forecasts@ == old(self).journal.forecasts@
                + outbox.forecasts@,
            match r {
                Ok(_) => old(self).takes_over(*final(self), outbox) && old(self).heeds(
                    *final(self),
                    outbox,
                ),
                Err(e) => old(self).refuses_timers(outbox, e) || old(self).refuses_ids(outbox, e)
                    || old(self).refuses_commands(outbox),
            },
            asks_nothing(outbox) ==> r is Ok && *final(self) == *old(self),
            final(self).talk == old(self).talk,
    {
        proof {
            Self::what_is_done_has_names();
            old(self).heeds_itself();
        }
        self.set_timers(&outbox.timers)?;
        let mut forecasts = outbox.forecasts;
        let ghost earlier = self.journal.forecasts@;
        if forecasts.len() > 0 {
            self.journal.forecasts.append(&mut forecasts);
        }
        assert(self.journal.forecasts@ =~= earlier + outbox.forecasts@);
        assert(self.journal.forecasts@.take(earlier.len() as int) =~= earlier);
        let (commands, end) = number(outbox.intents, self.desk.next_order_id)?;
        let ghost last = self.desk.next_order_id;
        self.desk.next_order_id = end;
        proof {
            numbering_is_fresh(outbox.intents@, last as int);
            assert forall|i: int| 0 <= i < commands@.len() implies (submit_id(
                #[trigger] commands@[i],
            ) matches Some(id) ==> id <= end && !self.desk.orders@.dom().contains(id)) by {
                assert(commands@[i] == numbered(outbox.intents@, last as int)[i]);
            }
        }
        let ghost before = *self;
        assert(old(self).heeded(before));
        let r = self.drain_commands(commands);
        proof {
            Self::heeded_again(*old(self), before, *self);
        }
        r
    }

    /// What a strategy is shown when it is called: the instant, the market and
    /// the account as they stand, and nothing asked for yet.
    pub(crate) fn show(&self) -> (ctx: Context<'_>)
        requires
            self.sound(),
        ensures
            ctx.wf(),
            ctx.time() == UnixNanos(self.clock.time()),
            ctx.markets() == self.market,
            ctx.holdings() == self.ledger.portfolio,
            ctx.money() == self.ledger.cash,
            ctx.handed() == self.desk.next_order_id,
            ctx.asked() == Seq::<Intent>::empty(),
            ctx.timers() == Seq::<(String, UnixNanos)>::empty(),
            ctx.forecast() == Seq::<Forecast>::empty(),
            forall|told: Told| #[trigger] ctx.when_told(told) == self.calls(told),
    {
        Context::new(
            self.clock.now(),
            &self.market,
            &self.ledger.portfolio,
            self.ledger.cash,
            self.desk.next_order_id,
        )
    }

    /// Tell the strategy the run has started.
    pub(crate) fn tell_start<S: Strategy>(&mut self, strategy: &mut S) -> (r: Result<
        (),
        BacktestError,
    >)
        requires
            old(self).sound(),
            old(strategy).ready(),
        ensures
            final(self).sound(),
            final(strategy).ready(),
            old(strategy).willing() ==> final(strategy).willing(),
            old(strategy).willing() && r is Err ==> Self::balked(
                old(self).talk@,
                *final(self),
                *old(strategy),
                *final(strategy),
            ),
            old(self).heeded(*final(self)),
            r is Ok ==> old(self).listens(*final(self), Told::Start),
            r is Ok ==> old(self).tells(*final(self), Told::Start),
            r is Ok ==> talked(*old(strategy), *final(strategy), old(self).talk@, final(self).talk@),
    {
        proof {
            Self::what_is_done_has_names();
            old(self).heeds_itself();
        }
        let mut ctx = self.show();
        let ghost called = ctx.when_told(Told::Start);
        strategy.on_start(&mut ctx)?;
        let outbox = ctx.into_outbox();
        let ghost exchange = Exchange { call: called, asked: outbox@ };
        let ghost asked = outbox;
        let done = self.heed(outbox);
        proof {
            talked_not(*old(strategy), old(self).talk@);
            if done is Err {
                assert(old(self).refuses(asked));
                assert(Self::balks_at(
                    old(self).talk@,
                    *self,
                    *old(strategy),
                    *strategy,
                    *old(self),
                    *old(strategy),
                    Told::Start,
                    asked,
                ));
            }
        }
        done?;
        let ghost heeded = *self;
        self.talk = Ghost(self.talk@.push(exchange));
        proof {
            assert(old(self).takes_over(heeded, asked));
            assert(heeded.notes(*self, exchange));
            talked_once(*old(strategy), *strategy, old(self).talk@, exchange);
        }
        Ok(())
    }

    /// Tell the strategy about a record.
    pub(crate) fn tell_event<S: Strategy>(&mut self, strategy: &mut S, record: &Record) -> (r:
        Result<(), BacktestError>)
        requires
            old(self).sound(),
            old(strategy).ready(),
        ensures
            final(self).sound(),
            final(strategy).ready(),
            old(strategy).willing() ==> final(strategy).willing(),
            old(strategy).willing() && r is Err ==> Self::balked(
                old(self).talk@,
                *final(self),
                *old(strategy),
                *final(strategy),
            ),
            old(self).heeded(*final(self)),
            r is Ok ==> old(self).listens(*final(self), Told::Event(*record)),
            r is Ok ==> old(self).tells(*final(self), Told::Event(*record)),
            r is Ok ==> talked(*old(strategy), *final(strategy), old(self).talk@, final(self).talk@),
    {
        proof {
            Self::what_is_done_has_names();
            old(self).heeds_itself();
        }
        let mut ctx = self.show();
        let ghost called = ctx.when_told(Told::Event(*record));
        strategy.on_event(&mut ctx, record)?;
        let outbox = ctx.into_outbox();
        let ghost exchange = Exchange { call: called, asked: outbox@ };
        let ghost asked = outbox;
        let done = self.heed(outbox);
        proof {
            talked_not(*old(strategy), old(self).talk@);
            if done is Err {
                assert(old(self).refuses(asked));
                assert(Self::balks_at(
                    old(self).talk@,
                    *self,
                    *old(strategy),
                    *strategy,
                    *old(self),
                    *old(strategy),
                    Told::Event(*record),
                    asked,
                ));
            }
        }
        done?;
        let ghost heeded = *self;
        self.talk = Ghost(self.talk@.push(exchange));
        proof {
            assert(old(self).takes_over(heeded, asked));
            assert(heeded.notes(*self, exchange));
            talked_once(*old(strategy), *strategy, old(self).talk@, exchange);
        }
        Ok(())
    }

    /// Tell the strategy a timer fired.
    pub(crate) fn tell_timer<S: Strategy>(&mut self, strategy: &mut S, event: &TimeEvent) -> (r:
        Result<(), BacktestError>)
        requires
            old(self).sound(),
            old(strategy).ready(),
        ensures
            final(self).sound(),
            final(strategy).ready(),
            old(strategy).willing() ==> final(strategy).willing(),
            old(strategy).willing() && r is Err ==> Self::balked(
                old(self).talk@,
                *final(self),
                *old(strategy),
                *final(strategy),
            ),
            old(self).heeded(*final(self)),
            r is Ok ==> old(self).listens(*final(self), Told::Timer(event_key(*event))),
            r is Ok ==> old(self).tells(*final(self), Told::Timer(event_key(*event))),
            r is Ok ==> talked(*old(strategy), *final(strategy), old(self).talk@, final(self).talk@),
    {
        proof {
            Self::what_is_done_has_names();
            old(self).heeds_itself();
        }
        let mut ctx = self.show();
        let ghost called = ctx.when_told(Told::Timer(event_key(*event)));
        strategy.on_timer(&mut ctx, event)?;
        let outbox = ctx.into_outbox();
        let ghost exchange = Exchange { call: called, asked: outbox@ };
        let ghost asked = outbox;
        let done = self.heed(outbox);
        proof {
            talked_not(*old(strategy), old(self).talk@);
            if done is Err {
                assert(old(self).refuses(asked));
                assert(Self::balks_at(
                    old(self).talk@,
                    *self,
                    *old(strategy),
                    *strategy,
                    *old(self),
                    *old(strategy),
                    Told::Timer(event_key(*event)),
                    asked,
                ));
            }
        }
        done?;
        let ghost heeded = *self;
        self.talk = Ghost(self.talk@.push(exchange));
        proof {
            assert(old(self).takes_over(heeded, asked));
            assert(heeded.notes(*self, exchange));
            talked_once(*old(strategy), *strategy, old(self).talk@, exchange);
        }
        Ok(())
    }

    /// Tell the strategy about a fill.
    pub(crate) fn tell_fill<S: Strategy>(&mut self, strategy: &mut S, fill: &Fill) -> (r: Result<
        (),
        BacktestError,
    >)
        requires
            old(self).sound(),
            old(strategy).ready(),
        ensures
            final(self).sound(),
            final(strategy).ready(),
            old(strategy).willing() ==> final(strategy).willing(),
            old(strategy).willing() && r is Err ==> Self::balked(
                old(self).talk@,
                *final(self),
                *old(strategy),
                *final(strategy),
            ),
            old(self).heeded(*final(self)),
            r is Ok ==> old(self).listens(*final(self), Told::Fill(*fill)),
            r is Ok ==> old(self).tells(*final(self), Told::Fill(*fill)),
            r is Ok ==> talked(*old(strategy), *final(strategy), old(self).talk@, final(self).talk@),
    {
        proof {
            Self::what_is_done_has_names();
            old(self).heeds_itself();
        }
        let mut ctx = self.show();
        let ghost called = ctx.when_told(Told::Fill(*fill));
        strategy.on_fill(&mut ctx, fill)?;
        let outbox = ctx.into_outbox();
        let ghost exchange = Exchange { call: called, asked: outbox@ };
        let ghost asked = outbox;
        let done = self.heed(outbox);
        proof {
            talked_not(*old(strategy), old(self).talk@);
            if done is Err {
                assert(old(self).refuses(asked));
                assert(Self::balks_at(
                    old(self).talk@,
                    *self,
                    *old(strategy),
                    *strategy,
                    *old(self),
                    *old(strategy),
                    Told::Fill(*fill),
                    asked,
                ));
            }
        }
        done?;
        let ghost heeded = *self;
        self.talk = Ghost(self.talk@.push(exchange));
        proof {
            assert(old(self).takes_over(heeded, asked));
            assert(heeded.notes(*self, exchange));
            talked_once(*old(strategy), *strategy, old(self).talk@, exchange);
        }
        Ok(())
    }

    /// Tell the strategy the run is over.
    pub(crate) fn tell_stop<S: Strategy>(&mut self, strategy: &mut S) -> (r: Result<
        (),
        BacktestError,
    >)
        requires
            old(self).sound(),
            old(strategy).ready(),
        ensures
            final(self).sound(),
            final(strategy).ready(),
            old(strategy).willing() ==> final(strategy).willing(),
            old(strategy).willing() && r is Err ==> Self::balked(
                old(self).talk@,
                *final(self),
                *old(strategy),
                *final(strategy),
            ),
            old(self).heeded(*final(self)),
            r is Ok ==> old(self).listens(*final(self), Told::Stop),
            r is Ok ==> old(self).tells(*final(self), Told::Stop),
            r is Ok ==> talked(*old(strategy), *final(strategy), old(self).talk@, final(self).talk@),
    {
        proof {
            Self::what_is_done_has_names();
            old(self).heeds_itself();
        }
        let mut ctx = self.show();
        let ghost called = ctx.when_told(Told::Stop);
        strategy.on_stop(&mut ctx)?;
        let outbox = ctx.into_outbox();
        let ghost exchange = Exchange { call: called, asked: outbox@ };
        let ghost asked = outbox;
        let done = self.heed(outbox);
        proof {
            talked_not(*old(strategy), old(self).talk@);
            if done is Err {
                assert(old(self).refuses(asked));
                assert(Self::balks_at(
                    old(self).talk@,
                    *self,
                    *old(strategy),
                    *strategy,
                    *old(self),
                    *old(strategy),
                    Told::Stop,
                    asked,
                ));
            }
        }
        done?;
        let ghost heeded = *self;
        self.talk = Ghost(self.talk@.push(exchange));
        proof {
            assert(old(self).takes_over(heeded, asked));
            assert(heeded.notes(*self, exchange));
            talked_once(*old(strategy), *strategy, old(self).talk@, exchange);
        }
        Ok(())
    }
}

} // verus!
