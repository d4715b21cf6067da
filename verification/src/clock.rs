//! The replay clock and its timers.
//!
//! There is no wall clock anywhere in a backtest. Time is whatever the data
//! says it is, and it only ever moves forward: [`Clock::advance_to`] refuses
//! to go backwards, because a clock that can rewind turns a merge bug into a
//! strategy that appears to predict the past.
//!
//! Timers fire in the order `(fire time, name, sequence)` -- the name is a
//! declared string and the sequence is monotonic, so two timers due at the
//! same instant fire in the same order every run.

use vstd::prelude::*;
use vstd::string::*;

use crate::error::{says, BacktestError};
use crate::ordered::{entries_map_contains, keys_sorted, OrderedKey, SortedMap};
use crate::text::{debug_of, debug_text, int_text, push_i64, str_same};
use crate::types::{saturated, saturating_sum, UnixNanos};

verus! {

/// A timer that has come due.
#[derive(PartialEq, Eq, Debug)]
pub struct TimeEvent {
    pub name: String,
    pub scheduled_for: UnixNanos,
    /// Monotonic within a run; the last tie-break and a stable event id.
    pub sequence: u64,
}

/// What a timer is ordered by: fire time, then name, then sequence.
pub type TimerKey = (i64, (Seq<char>, u64));

/// A pending timer: what it is ordered by, and the interval it repeats at,
/// if it does.
pub type TimerEntry = (TimerKey, Option<i64>);

/// Whether one timer fires before another.
pub open spec fn fires_before(a: TimerKey, b: TimerKey) -> bool {
    <(i64, (String, u64)) as OrderedKey>::before(a, b)
}

/// Pending timers stand in firing order.
pub open spec fn in_firing_order(timers: Seq<TimerEntry>) -> bool {
    forall|i: int, j: int|
        #![trigger timers[i], timers[j]]
        0 <= i < j < timers.len() ==> fires_before(timers[i].0, timers[j].0)
}

/// A timer put in its place among timers in firing order.
pub open spec fn scheduled(timers: Seq<TimerEntry>, timer: TimerEntry) -> Seq<TimerEntry>
    decreases timers.len(),
{
    if timers.len() == 0 || !fires_before(timers[0].0, timer.0) {
        seq![timer] + timers
    } else {
        seq![timers[0]] + scheduled(timers.drop_first(), timer)
    }
}

/// The timers that do not carry a name.
pub open spec fn without_name(timers: Seq<TimerEntry>, name: Seq<char>) -> Seq<TimerEntry>
    decreases timers.len(),
{
    if timers.len() == 0 {
        Seq::empty()
    } else {
        let rest = without_name(timers.drop_last(), name);
        if timers.last().0.1.0 == name {
            rest
        } else {
            rest.push(timers.last())
        }
    }
}

/// How much firing a list of timers has left to do by `ts`.
pub open spec fn due_weight(timers: Seq<TimerEntry>, ts: int) -> nat
    decreases timers.len(),
{
    if timers.len() == 0 {
        0
    } else {
        single_weight(timers[0], ts) + due_weight(timers.drop_first(), ts)
    }
}

pub open spec fn single_weight(timer: TimerEntry, ts: int) -> nat {
    if timer.0.0 <= ts {
        (ts - timer.0.0 + 1) as nat
    } else {
        0
    }
}

pub proof fn scheduled_weight(timers: Seq<TimerEntry>, timer: TimerEntry, ts: int)
    ensures
        due_weight(scheduled(timers, timer), ts) == due_weight(timers, ts) + single_weight(timer, ts),
    decreases timers.len(),
{
    if timers.len() == 0 || !fires_before(timers[0].0, timer.0) {
        let s = seq![timer] + timers;
        assert(s.drop_first() =~= timers);
    } else {
        let rest = scheduled(timers.drop_first(), timer);
        let s = seq![timers[0]] + rest;
        assert(s.drop_first() =~= rest);
        scheduled_weight(timers.drop_first(), timer, ts);
    }
}

/// What firing every due timer leads to.
pub struct Advance {
    /// What is pending afterwards.
    pub timers: Seq<TimerEntry>,
    /// The last sequence number handed out.
    pub sequence: u64,
    /// What fired, in order: name, fire time, sequence.
    pub fired: Seq<TimerKey>,
    /// Whether everything due has fired, rather than the sequence numbers
    /// having run out.
    pub complete: bool,
}

/// Fire the first timer for as long as it is due. A repeating timer is
/// scheduled again, one interval after the time it fired at, under the next
/// sequence number.
pub open spec fn fire_due(timers: Seq<TimerEntry>, sequence: u64, ts: int) -> Advance
    decreases due_weight(timers, ts),
{
    if timers.len() == 0 || timers[0].0.0 > ts {
        Advance { timers, sequence, fired: Seq::empty(), complete: true }
    } else {
        let (key, interval) = timers[0];
        let rest = timers.drop_first();
        match interval {
            None => {
                let next = fire_due(rest, sequence, ts);
                Advance { fired: seq![key] + next.fired, ..next }
            },
            Some(every) => {
                if sequence == u64::MAX || every <= 0 || key.0 == i64::MAX {
                    Advance { timers: rest, sequence, fired: seq![key], complete: false }
                } else {
                    let again: TimerEntry = (
                        (
                            saturated(key.0 + every) as i64,
                            (key.1.0, (sequence + 1) as u64),
                        ),
                        interval,
                    );
                    proof {
                        scheduled_weight(rest, again, ts);
                    }
                    let next = fire_due(scheduled(rest, again), (sequence + 1) as u64, ts);
                    Advance { fired: seq![key] + next.fired, ..next }
                }
            },
        }
    }
}

/// The run's clock.
pub struct Clock {
    now: UnixNanos,
    timers: SortedMap<(i64, (String, u64)), Option<i64>>,
    sequence: u64,
}

/// The timers of a list of map entries.
pub open spec fn timer_entries(entries: Seq<((i64, (String, u64)), Option<i64>)>) -> Seq<TimerEntry> {
    entries.map_values(|e: ((i64, (String, u64)), Option<i64>)| (e.0@, e.1))
}

/// Inserting where the order says is scheduling.
proof fn insert_is_scheduled(
    entries: Seq<((i64, (String, u64)), Option<i64>)>,
    at: int,
    entry: ((i64, (String, u64)), Option<i64>),
)
    requires
        0 <= at <= entries.len(),
        keys_sorted(entries.insert(at, entry)),
    ensures
        timer_entries(entries.insert(at, entry)) == scheduled(
            timer_entries(entries),
            (entry.0@, entry.1),
        ),
    decreases entries.len(),
{
    let t = timer_entries(entries);
    let after = entries.insert(at, entry);
    if at == 0 {
        if entries.len() > 0 {
            assert(after[0] == entry && after[1] == entries[0]);
            assert(fires_before(entry.0@, entries[0].0@));
            <(i64, (String, u64)) as OrderedKey>::before_irreflexive(entry.0@);
            if fires_before(entries[0].0@, entry.0@) {
                <(i64, (String, u64)) as OrderedKey>::before_transitive(
                    entry.0@,
                    entries[0].0@,
                    entry.0@,
                );
            }
            assert(t[0].0 == entries[0].0@);
        }
        assert(timer_entries(after) =~= seq![(entry.0@, entry.1)] + t);
    } else {
        let rest = entries.drop_first();
        assert(after[0] == entries[0] && after[at] == entry);
        assert(fires_before(entries[0].0@, entry.0@));
        assert(t[0].0 == entries[0].0@);
        assert(rest.insert(at - 1, entry) =~= after.drop_first());
        assert(keys_sorted(rest.insert(at - 1, entry))) by {
            let r = rest.insert(at - 1, entry);
            assert forall|i: int, j: int|
                #![trigger r[i], r[j]]
                0 <= i < j < r.len() implies <(i64, (String, u64)) as OrderedKey>::before(
                r[i].0@,
                r[j].0@,
            ) by {
                assert(r[i] == after[i + 1] && r[j] == after[j + 1]);
            }
        }
        insert_is_scheduled(rest, at - 1, entry);
        assert(timer_entries(rest) =~= t.drop_first());
        assert(timer_entries(after) =~= seq![t[0]] + timer_entries(rest.insert(at - 1, entry)));
    }
}

impl Clock {
    /// What the clock reads.
    pub closed spec fn time(&self) -> i64 {
        self.now.0
    }

    /// The pending timers, in firing order.
    pub closed spec fn timers(&self) -> Seq<TimerEntry> {
        timer_entries(self.timers.seq())
    }

    /// The last sequence number handed out.
    pub closed spec fn last_sequence(&self) -> u64 {
        self.sequence
    }

    /// Timers stand in firing order, none is due before now, sequence
    /// numbers are ones already handed out, and intervals are positive.
    pub closed spec fn wf(&self) -> bool {
        &&& self.timers.wf()
        &&& forall|i: int|
            0 <= i < self.timers().len() ==> {
                let t = #[trigger] self.timers()[i];
                &&& t.0.0 >= self.now.0
                &&& t.0.1.1 <= self.sequence
                &&& t.1 matches Some(every) ==> every > 0
            }
    }

    /// Nothing pending is due before now, and timers stand in firing order.
    pub proof fn pending_is_ahead(&self)
        requires
            self.wf(),
        ensures
            in_firing_order(self.timers()),
            forall|i: int|
                0 <= i < self.timers().len() ==> (#[trigger] self.timers()[i]).0.0 >= self.time(),
    {
        let t = self.timers();
        let s = self.timers.seq();
        assert forall|i: int, j: int|
            #![trigger t[i], t[j]]
            0 <= i < j < t.len() implies fires_before(t[i].0, t[j].0) by {
            assert(t[i].0 == s[i].0@ && t[j].0 == s[j].0@);
        }
    }

    pub fn new(start: UnixNanos) -> (c: Self)
        ensures
            c.wf(),
            c.time() == start.0,
            c.timers() == Seq::<TimerEntry>::empty(),
            c.last_sequence() == 0,
    {
        let c = Clock { now: start, timers: SortedMap::new(), sequence: 0 };
        assert(c.timers() =~= Seq::<TimerEntry>::empty());
        c
    }

    pub fn now(&self) -> (r: UnixNanos)
        ensures
            r.0 == self.time(),
    {
        self.now
    }

    /// Schedule a one-shot timer.
    ///
    /// Scheduling in the past is refused rather than fired immediately: it
    /// means the caller's notion of "now" disagrees with the clock's, and
    /// firing it would hide that.
    pub fn set_timer(&mut self, name: &str, at: UnixNanos) -> (r: Result<(), BacktestError>)
        requires
            old(self).wf(),
        ensures
            final(self).wf(),
            after_push(*old(self), *final(self), name@, at.0, None, r),
    {
        self.push(name, at, None)
    }

    /// Schedule a repeating timer, first firing at `start`.
    pub fn set_repeating(&mut self, name: &str, start: UnixNanos, interval_nanos: i64) -> (r: Result<
        (),
        BacktestError,
    >)
        requires
            old(self).wf(),
        ensures
            final(self).wf(),
            if interval_nanos <= 0 {
                *final(self) == *old(self) && (r matches Err(e) && says(
                    e,
                    "a repeating timer needs a positive interval"@,
                ))
            } else {
                after_push(*old(self), *final(self), name@, start.0, Some(interval_nanos), r)
            },
    {
        if interval_nanos <= 0 {
            return Err(BacktestError::invalid("a repeating timer needs a positive interval"));
        }
        self.push(name, start, Some(interval_nanos))
    }

    fn push(&mut self, name: &str, at: UnixNanos, interval: Option<i64>) -> (r: Result<
        (),
        BacktestError,
    >)
        requires
            old(self).wf(),
            interval matches Some(every) ==> every > 0,
        ensures
            final(self).wf(),
            after_push(*old(self), *final(self), name@, at.0, interval, r),
    {
        if at.0 < self.now.0 {
            let mut m = "timer ".to_owned();
            m.append(debug_of(name).as_str());
            m.append(" scheduled for ");
            push_i64(&mut m, at.0);
            m.append(", which is before now (");
            push_i64(&mut m, self.now.0);
            m.append(")");
            return Err(BacktestError::Invalid(m));
        }
        if self.sequence == u64::MAX {
            return Err(BacktestError::Overflow { what: "Clock::sequence" });
        }
        self.enqueue(at.0, name.to_owned(), interval);
        Ok(())
    }

    /// Schedule a timer under the next sequence number.
    fn enqueue(&mut self, at: i64, name: String, interval: Option<i64>)
        requires
            old(self).wf(),
            old(self).sequence < u64::MAX,
            at >= old(self).now.0,
            interval matches Some(every) ==> every > 0,
        ensures
            final(self).wf(),
            final(self).now == old(self).now,
            final(self).sequence == old(self).sequence + 1,
            final(self).timers() == scheduled(
                old(self).timers(),
                ((at, (name@, final(self).sequence)), interval),
            ),
    {
        let ghost before = self.timers.seq();
        self.sequence = self.sequence + 1;
        let key: (i64, (String, u64)) = (at, (name, self.sequence));
        let ghost k = key@;
        proof {
            entries_map_contains(before);
            if self.timers@.dom().contains(k) {
                let i = choose|i: int| 0 <= i < before.len() && (#[trigger] before[i]).0@ == k;
                assert(old(self).timers()[i].0 == k);
                assert(false);
            }
        }
        let place = self.timers.insert(key, interval);
        proof {
            insert_is_scheduled(before, place as int, (key, interval));
            let after = self.timers.seq();
            assert forall|i: int| 0 <= i < self.timers().len() implies {
                let t = #[trigger] self.timers()[i];
                &&& t.0.0 >= self.now.0
                &&& t.0.1.1 <= self.sequence
                &&& t.1 matches Some(every) ==> every > 0
            } by {
                if i < place {
                    assert(after[i] == before[i]);
                    assert(self.timers()[i] == old(self).timers()[i]);
                } else if i > place {
                    assert(after[i] == before[i - 1]);
                    assert(self.timers()[i] == old(self).timers()[i - 1]);
                }
            }
        }
    }

    /// Cancel every timer with this name. Returns how many were removed.
    pub fn cancel(&mut self, name: &str) -> (n: usize)
        requires
            old(self).wf(),
        ensures
            final(self).wf(),
            final(self).time() == old(self).time(),
            final(self).last_sequence() == old(self).last_sequence(),
            final(self).timers() == without_name(old(self).timers(), name@),
            n == old(self).timers().len() - final(self).timers().len(),
    {
        let total: usize = self.timers.len();
        let ghost before = self.timers();
        let mut i: usize = 0;
        let mut removed: usize = 0;
        assert(before.take(0) =~= Seq::<TimerEntry>::empty());
        assert(before.skip(0) =~= before);
        while i < total - removed
            invariant
                self.wf(),
                self.now == old(self).now,
                self.sequence == old(self).sequence,
                before == old(self).timers(),
                total == before.len(),
                removed <= total,
                i <= total - removed,
                self.timers().len() == total - removed,
                self.timers() == without_name(before.take(i + removed), name@) + before.skip(
                    i + removed,
                ),
                without_name(before.take(i + removed), name@).len() == i,
            decreases total - removed - i,
        {
            let ghost k = i + removed;
            let ghost now = self.timers();
            let ghost seq = self.timers.seq();
            assert(before.take(k + 1).drop_last() =~= before.take(k));
            assert(now[i as int] == before[k]);
            let key = self.timers.key_at(i);
            if str_same(key.1.0.as_str(), name) {
                self.timers.remove_at(i);
                removed = removed + 1;
                proof {
                    assert(self.timers() =~= now.remove(i as int));
                    assert(self.timers() =~= without_name(before.take(k + 1), name@) + before.skip(
                        k + 1,
                    ));
                    assert forall|j: int| 0 <= j < self.timers().len() implies {
                        let t = #[trigger] self.timers()[j];
                        &&& t.0.0 >= self.now.0
                        &&& t.0.1.1 <= self.sequence
                        &&& t.1 matches Some(every) ==> every > 0
                    } by {
                        if j < i {
                            assert(self.timers()[j] == now[j]);
                        } else {
                            assert(self.timers()[j] == now[j + 1]);
                        }
                    }
                }
            } else {
                proof {
                    assert(now =~= without_name(before.take(k + 1), name@) + before.skip(k + 1));
                }
                i = i + 1;
            }
        }
        proof {
            assert(before.take(i + removed) =~= before);
            assert(self.timers() =~= without_name(before, name@));
        }
        removed
    }

    pub fn pending(&self) -> (n: usize)
        ensures
            n == self.timers().len(),
    {
        self.timers.len()
    }

    /// The next time a timer is due.
    pub fn next_timer(&self) -> (r: Option<UnixNanos>)
        ensures
            r == (if self.timers().len() == 0 {
                None
            } else {
                Some(UnixNanos(self.timers()[0].0.0))
            }),
    {
        if self.timers.len() == 0 {
            None
        } else {
            Some(UnixNanos(self.timers.key_at(0).0))
        }
    }

    /// Move the clock to `ts` and return every timer that came due, in
    /// order.
    ///
    /// Timers due at exactly `ts` fire: the data at that instant has not
    /// been delivered yet when this is called, so a timer scheduled for the
    /// same nanosecond precedes it, which is the ordering a live system
    /// would produce.
    pub fn advance_to(&mut self, ts: UnixNanos) -> (r: Result<Vec<TimeEvent>, BacktestError>)
        requires
            old(self).wf(),
            ts.0 == i64::MAX ==> forall|i: int|
                0 <= i < old(self).timers().len() ==> (#[trigger] old(self).timers()[i]).1 is None,
        ensures
            final(self).wf(),
            ({
                let all = fire_due(old(self).timers(), old(self).last_sequence(), ts.0 as int);
                match r {
                    Ok(fired) => {
                        &&& old(self).time() <= ts.0
                        &&& all.complete
                        &&& final(self).time() == ts.0
                        &&& final(self).timers() == all.timers
                        &&& final(self).last_sequence() == all.sequence
                        &&& fired@.len() == all.fired.len()
                        &&& forall|i: int|
                            0 <= i < fired@.len() ==> event_key(#[trigger] fired@[i])
                                == all.fired[i]
                        &&& forall|i: int|
                            0 <= i < final(self).timers().len() ==> (
                            #[trigger] final(self).timers()[i]).0.0 > ts.0
                    },
                    Err(e) => {
                        if ts.0 < old(self).time() {
                            *final(self) == *old(self) && says(
                                e,
                                "clock cannot move backwards: "@ + int_text(ts.0 as int)
                                    + " precedes "@ + int_text(old(self).time() as int),
                            )
                        } else {
                            &&& !all.complete
                            &&& e == (BacktestError::Overflow { what: "Clock::sequence" })
                            &&& final(self).time() == all.fired.last().0
                            &&& final(self).timers() == all.timers
                            &&& final(self).last_sequence() == all.sequence
                        }
                    },
                }
            }),
    {
        if ts.0 < self.now.0 {
            let mut m = "clock cannot move backwards: ".to_owned();
            push_i64(&mut m, ts.0);
            m.append(" precedes ");
            push_i64(&mut m, self.now.0);
            return Err(BacktestError::Invalid(m));
        }
        let ghost all = fire_due(self.timers(), self.sequence, ts.0 as int);
        let mut fired: Vec<TimeEvent> = Vec::new();
        while self.timers.len() > 0 && self.timers.key_at(0).0 <= ts.0
            invariant
                self.wf(),
                self.now.0 <= ts.0,
                old(self).time() <= ts.0,
                all == fire_due(old(self).timers(), old(self).last_sequence(), ts.0 as int),
                ({
                    let left = fire_due(self.timers(), self.sequence, ts.0 as int);
                    &&& all.timers == left.timers
                    &&& all.sequence == left.sequence
                    &&& all.complete == left.complete
                    &&& all.fired.len() == fired@.len() + left.fired.len()
                    &&& forall|i: int|
                        0 <= i < fired@.len() ==> event_key(#[trigger] fired@[i]) == all.fired[i]
                    &&& forall|i: int|
                        0 <= i < left.fired.len() ==> #[trigger] left.fired[i] == all.fired[
                            fired@.len() + i]
                }),
                ts.0 == i64::MAX ==> forall|i: int|
                    0 <= i < self.timers().len() ==> (#[trigger] self.timers()[i]).1 is None,
            decreases due_weight(self.timers(), ts.0 as int),
        {
            let ghost pending = self.timers();
            let ghost left = fire_due(pending, self.sequence, ts.0 as int);
            let ghost seq = self.timers.seq();
            proof {
                self.pending_is_ahead();
            }
            let ghost before = *self;
            let ((at, (name, sequence)), interval) = self.timers.remove_at(0);
            let ghost key = (at, (name@, sequence));
            assert(pending[0] == (key, interval));
            assert(self.timers() =~= pending.drop_first());
            // The clock reads as the timer's own time while it fires, not
            // as the target: a handler asking "what time is it" during a
            // 09:30 timer must not be told 09:45.
            self.now = UnixNanos(at);
            let ghost rest = self.timers();
            proof {
                assert forall|i: int| 0 <= i < rest.len() implies {
                    let t = #[trigger] rest[i];
                    &&& t.0.0 >= at
                    &&& t.0.1.1 <= self.sequence
                    &&& t.1 matches Some(every) ==> every > 0
                } by {
                    assert(rest[i] == pending[i + 1]);
                    assert(fires_before(pending[0].0, pending[i + 1].0));
                }
                assert(self.wf());
            }
            let ghost done = fired@;
            assert(left.fired[0] == key);
            if let Some(every) = interval {
                if self.sequence == u64::MAX {
                    return Err(BacktestError::Overflow { what: "Clock::sequence" });
                }
                let next: i64 = saturating_sum(at, every);
                fired.push(
                    TimeEvent { name: name.clone(), scheduled_for: UnixNanos(at), sequence },
                );
                self.enqueue(next, name, Some(every));
                proof {
                    let again: TimerEntry = ((next, (name@, self.sequence)), interval);
                    scheduled_weight(rest, again, ts.0 as int);
                    let after = fire_due(self.timers(), self.sequence, ts.0 as int);
                    assert(left.fired =~= seq![key] + after.fired);
                    assert forall|i: int| 0 <= i < after.fired.len() implies #[trigger]
                        after.fired[i] == all.fired[fired@.len() + i] by {
                        assert(left.fired[i + 1] == after.fired[i]);
                    }
                }
            } else {
                fired.push(TimeEvent { name, scheduled_for: UnixNanos(at), sequence });
                proof {
                    let after = fire_due(self.timers(), self.sequence, ts.0 as int);
                    assert(left.fired =~= seq![key] + after.fired);
                    assert forall|i: int| 0 <= i < after.fired.len() implies #[trigger]
                        after.fired[i] == all.fired[fired@.len() + i] by {
                        assert(left.fired[i + 1] == after.fired[i]);
                    }
                }
            }
            proof {
                assert forall|i: int| 0 <= i < fired@.len() implies event_key(#[trigger] fired@[i])
                    == all.fired[i] by {
                    if i < done.len() {
                        assert(fired@[i] == done[i]);
                    } else {
                        assert(left.fired[0] == all.fired[done.len() as int]);
                    }
                }
            }
        }
        proof {
            self.pending_is_ahead();
            let t = self.timers();
            assert forall|i: int| 0 <= i < t.len() implies (#[trigger] t[i]).0.0 > ts.0 by {
                if i > 0 {
                    assert(fires_before(t[0].0, t[i].0));
                }
            }
        }
        self.now = ts;
        Ok(fired)
    }
}

/// What an event was ordered by.
pub open spec fn event_key(event: TimeEvent) -> TimerKey {
    (event.scheduled_for.0, (event.name@, event.sequence))
}

/// What scheduling a timer does: it is put in its place under the next
/// sequence number, unless it is due before now or there is none.
pub open spec fn after_push(
    before: Clock,
    after: Clock,
    name: Seq<char>,
    at: i64,
    interval: Option<i64>,
    r: Result<(), BacktestError>,
) -> bool {
    match r {
        Ok(_) => {
            &&& at >= before.time()
            &&& before.last_sequence() < u64::MAX
            &&& after.time() == before.time()
            &&& after.last_sequence() == before.last_sequence() + 1
            &&& after.timers() == scheduled(
                before.timers(),
                ((at, (name, after.last_sequence())), interval),
            )
        },
        Err(e) => {
            &&& after == before
            &&& if at < before.time() {
                says(
                    e,
                    "timer "@ + debug_text(name) + " scheduled for "@ + int_text(at as int)
                        + ", which is before now ("@ + int_text(before.time() as int) + ")"@,
                )
            } else {
                before.last_sequence() == u64::MAX && e == (BacktestError::Overflow {
                    what: "Clock::sequence",
                })
            }
        },
    }
}

/// Where every timer pending comes after a key, so does every one that fires.
proof fn fired_later(timers: Seq<TimerEntry>, sequence: u64, ts: int, bound: TimerKey)
    requires
        in_firing_order(timers),
        forall|i: int|
            0 <= i < timers.len() ==> fires_before(bound, (#[trigger] timers[i]).0)
                && timers[i].0.1.1 <= sequence,
    ensures
        forall|i: int|
            0 <= i < fire_due(timers, sequence, ts).fired.len() ==> fires_before(
                bound,
                #[trigger] fire_due(timers, sequence, ts).fired[i],
            ),
    decreases due_weight(timers, ts),
{
    let all = fire_due(timers, sequence, ts);
    if timers.len() > 0 && timers[0].0.0 <= ts {
        let (key, interval) = timers[0];
        let rest = timers.drop_first();
        assert forall|i: int, j: int|
            #![trigger rest[i], rest[j]]
            0 <= i < j < rest.len() implies fires_before(rest[i].0, rest[j].0) by {
            assert(rest[i] == timers[i + 1] && rest[j] == timers[j + 1]);
        }
        assert forall|i: int| 0 <= i < rest.len() implies fires_before(
            bound,
            (#[trigger] rest[i]).0,
        ) && rest[i].0.1.1 <= sequence by {
            assert(rest[i] == timers[i + 1]);
        }
        match interval {
            None => {
                fired_later(rest, sequence, ts, bound);
                let next = fire_due(rest, sequence, ts);
                assert(all.fired =~= seq![key] + next.fired);
                assert forall|i: int| 0 <= i < all.fired.len() implies fires_before(
                    bound,
                    #[trigger] all.fired[i],
                ) by {
                    if i > 0 {
                        assert(all.fired[i] == next.fired[i - 1]);
                    }
                }
            },
            Some(every) => {
                if sequence == u64::MAX || every <= 0 || key.0 == i64::MAX {
                } else {
                    let again: TimerEntry = (
                        (
                            saturated(key.0 + every) as i64,
                            (key.1.0, (sequence + 1) as u64),
                        ),
                        interval,
                    );
                    let timers2 = scheduled(rest, again);
                    scheduled_weight(rest, again, ts);
                    scheduled_keeps_order(rest, again);
                    assert forall|i: int| 0 <= i < timers2.len() implies fires_before(
                        bound,
                        (#[trigger] timers2[i]).0,
                    ) && timers2[i].0.1.1 <= sequence + 1 by {
                        if timers2[i] != again {
                            let k = choose|k: int| 0 <= k < rest.len() && rest[k] == timers2[i];
                            assert(rest[k].0.1.1 <= sequence);
                        }
                    }
                    fired_later(timers2, (sequence + 1) as u64, ts, bound);
                    let next = fire_due(timers2, (sequence + 1) as u64, ts);
                    assert(all.fired =~= seq![key] + next.fired);
                    assert forall|i: int| 0 <= i < all.fired.len() implies fires_before(
                        bound,
                        #[trigger] all.fired[i],
                    ) by {
                        if i > 0 {
                            assert(all.fired[i] == next.fired[i - 1]);
                        }
                    }
                }
            },
        }
    }
}

/// Timers fire in order, by time, then by name, then in the order they were
/// set; each at or after the earliest one pending and none after the time
/// advanced to.
pub proof fn firing_is_ordered(timers: Seq<TimerEntry>, sequence: u64, ts: int, from: int)
    requires
        in_firing_order(timers),
        forall|i: int|
            0 <= i < timers.len() ==> (#[trigger] timers[i]).0.0 >= from && timers[i].0.1.1
                <= sequence,
    ensures
        ({
            let fired = fire_due(timers, sequence, ts).fired;
            &&& forall|i: int| 0 <= i < fired.len() ==> from <= (#[trigger] fired[i]).0 <= ts
            &&& forall|i: int, j: int|
                #![trigger fired[i], fired[j]]
                0 <= i < j < fired.len() ==> fires_before(fired[i], fired[j])
        }),
    decreases due_weight(timers, ts),
{
    let all = fire_due(timers, sequence, ts);
    if timers.len() > 0 && timers[0].0.0 <= ts {
        let (key, interval) = timers[0];
        let rest = timers.drop_first();
        assert forall|i: int, j: int|
            #![trigger rest[i], rest[j]]
            0 <= i < j < rest.len() implies fires_before(rest[i].0, rest[j].0) by {
            assert(rest[i] == timers[i + 1] && rest[j] == timers[j + 1]);
        }
        assert forall|i: int| 0 <= i < rest.len() implies (#[trigger] rest[i]).0.0 >= key.0
            && rest[i].0.1.1 <= sequence by {
            assert(rest[i] == timers[i + 1]);
            assert(fires_before(timers[0].0, timers[i + 1].0));
        }
        match interval {
            None => {
                firing_is_ordered(rest, sequence, ts, key.0 as int);
                fired_later(rest, sequence, ts, key);
                let next = fire_due(rest, sequence, ts);
                assert(all.fired =~= seq![key] + next.fired);
                ordered_after(key, next.fired, from, ts);
            },
            Some(every) => {
                if sequence == u64::MAX || every <= 0 || key.0 == i64::MAX {
                } else {
                    let again: TimerEntry = (
                        (
                            saturated(key.0 + every) as i64,
                            (key.1.0, (sequence + 1) as u64),
                        ),
                        interval,
                    );
                    let timers2 = scheduled(rest, again);
                    scheduled_weight(rest, again, ts);
                    scheduled_keeps_bound(rest, again, key.0 as int);
                    scheduled_keeps_order(rest, again);
                    assert forall|i: int| 0 <= i < timers2.len() implies (#[trigger] timers2[i]).0.0
                        >= key.0 && timers2[i].0.1.1 <= sequence + 1 by {
                        if timers2[i] != again {
                            let k = choose|k: int| 0 <= k < rest.len() && rest[k] == timers2[i];
                            assert(rest[k].0.1.1 <= sequence);
                        }
                    }
                    firing_is_ordered(timers2, (sequence + 1) as u64, ts, key.0 as int);
                    assert forall|i: int| 0 <= i < timers2.len() implies fires_before(
                        key,
                        (#[trigger] timers2[i]).0,
                    ) by {
                        if timers2[i] != again {
                            let k = choose|k: int| 0 <= k < rest.len() && rest[k] == timers2[i];
                            assert(rest[k] == timers[k + 1]);
                        }
                    }
                    fired_later(timers2, (sequence + 1) as u64, ts, key);
                    let next = fire_due(timers2, (sequence + 1) as u64, ts);
                    assert(all.fired =~= seq![key] + next.fired);
                    ordered_after(key, next.fired, from, ts);
                }
            },
        }
    }
}

proof fn ordered_after(key: TimerKey, later: Seq<TimerKey>, from: int, ts: int)
    requires
        from <= key.0 <= ts,
        forall|i: int| 0 <= i < later.len() ==> key.0 <= (#[trigger] later[i]).0 <= ts,
        forall|i: int, j: int|
            #![trigger later[i], later[j]]
            0 <= i < j < later.len() ==> fires_before(later[i], later[j]),
        forall|i: int| 0 <= i < later.len() ==> fires_before(key, #[trigger] later[i]),
    ensures
        ({
            let fired = seq![key] + later;
            &&& forall|i: int| 0 <= i < fired.len() ==> from <= (#[trigger] fired[i]).0 <= ts
            &&& forall|i: int, j: int|
                #![trigger fired[i], fired[j]]
                0 <= i < j < fired.len() ==> fires_before(fired[i], fired[j])
        }),
{
    let fired = seq![key] + later;
    assert forall|i: int| 0 <= i < fired.len() implies from <= (#[trigger] fired[i]).0 <= ts by {
        if i > 0 {
            assert(fired[i] == later[i - 1]);
        }
    }
    assert forall|i: int, j: int|
        #![trigger fired[i], fired[j]]
        0 <= i < j < fired.len() implies fires_before(fired[i], fired[j]) by {
        assert(fired[j] == later[j - 1]);
        if i > 0 {
            assert(fired[i] == later[i - 1]);
        }
    }
}

proof fn scheduled_keeps_bound(timers: Seq<TimerEntry>, timer: TimerEntry, from: int)
    requires
        forall|i: int| 0 <= i < timers.len() ==> (#[trigger] timers[i]).0.0 >= from,
        timer.0.0 >= from,
    ensures
        forall|i: int|
            0 <= i < scheduled(timers, timer).len() ==> (#[trigger] scheduled(timers, timer)[i]).0.0
                >= from,
    decreases timers.len(),
{
    if timers.len() == 0 || !fires_before(timers[0].0, timer.0) {
        let s = seq![timer] + timers;
        assert forall|i: int| 0 <= i < s.len() implies (#[trigger] s[i]).0.0 >= from by {
            if i > 0 {
                assert(s[i] == timers[i - 1]);
            }
        }
    } else {
        let rest = timers.drop_first();
        assert forall|i: int| 0 <= i < rest.len() implies (#[trigger] rest[i]).0.0 >= from by {
            assert(rest[i] == timers[i + 1]);
        }
        scheduled_keeps_bound(rest, timer, from);
        let s = seq![timers[0]] + scheduled(rest, timer);
        assert forall|i: int| 0 <= i < s.len() implies (#[trigger] s[i]).0.0 >= from by {
            if i > 0 {
                assert(s[i] == scheduled(rest, timer)[i - 1]);
            }
        }
    }
}

/// Scheduling keeps timers in firing order, unless the very same key is
/// pending already.
proof fn scheduled_keeps_order(timers: Seq<TimerEntry>, timer: TimerEntry)
    requires
        in_firing_order(timers),
        forall|i: int| 0 <= i < timers.len() ==> (#[trigger] timers[i]).0 != timer.0,
    ensures
        in_firing_order(scheduled(timers, timer)),
        scheduled(timers, timer).len() == timers.len() + 1,
        forall|i: int|
            0 <= i < scheduled(timers, timer).len() ==> (#[trigger] scheduled(timers, timer)[i])
                == timer || timers.contains(scheduled(timers, timer)[i]),
    decreases timers.len(),
{
    let s = scheduled(timers, timer);
    if timers.len() == 0 || !fires_before(timers[0].0, timer.0) {
        if timers.len() > 0 {
            <(i64, (String, u64)) as OrderedKey>::before_total(timers[0].0, timer.0);
        }
        assert forall|i: int, j: int|
            #![trigger s[i], s[j]]
            0 <= i < j < s.len() implies fires_before(s[i].0, s[j].0) by {
            assert(s[j] == timers[j - 1]);
            if i > 0 {
                assert(s[i] == timers[i - 1]);
            } else if j > 1 {
                assert(fires_before(timers[0].0, timers[j - 1].0));
                <(i64, (String, u64)) as OrderedKey>::before_transitive(
                    timer.0,
                    timers[0].0,
                    timers[j - 1].0,
                );
            }
        }
        assert forall|i: int| 0 <= i < s.len() implies (#[trigger] s[i]) == timer
            || timers.contains(s[i]) by {
            if i > 0 {
                assert(s[i] == timers[i - 1]);
            }
        }
    } else {
        let rest = timers.drop_first();
        assert forall|i: int, j: int|
            #![trigger rest[i], rest[j]]
            0 <= i < j < rest.len() implies fires_before(rest[i].0, rest[j].0) by {
            assert(rest[i] == timers[i + 1] && rest[j] == timers[j + 1]);
        }
        assert forall|i: int| 0 <= i < rest.len() implies (#[trigger] rest[i]).0 != timer.0 by {
            assert(rest[i] == timers[i + 1]);
        }
        scheduled_keeps_order(rest, timer);
        let r = scheduled(rest, timer);
        assert forall|i: int, j: int|
            #![trigger s[i], s[j]]
            0 <= i < j < s.len() implies fires_before(s[i].0, s[j].0) by {
            assert(s[j] == r[j - 1]);
            if i > 0 {
                assert(s[i] == r[i - 1]);
            } else if r[j - 1] != timer {
                let k = choose|k: int| 0 <= k < rest.len() && rest[k] == r[j - 1];
                assert(fires_before(timers[0].0, timers[k + 1].0));
            }
        }
        assert forall|i: int| 0 <= i < s.len() implies (#[trigger] s[i]) == timer
            || timers.contains(s[i]) by {
            if i > 0 {
                assert(s[i] == r[i - 1]);
                if r[i - 1] != timer {
                    let k = choose|k: int| 0 <= k < rest.len() && rest[k] == r[i - 1];
                    assert(timers[k + 1] == s[i]);
                }
            } else {
                assert(timers[0] == s[0]);
            }
        }
    }
}

/// One-shot timers put in their places one after another, each numbered one
/// beyond the one before it.
pub open spec fn all_scheduled(
    timers: Seq<TimerEntry>,
    last: u64,
    asked: Seq<(String, UnixNanos)>,
) -> Seq<TimerEntry>
    decreases asked.len(),
{
    if asked.len() == 0 {
        timers
    } else {
        let (name, at) = asked.last();
        scheduled(
            all_scheduled(timers, last, asked.drop_last()),
            ((at.0, (name@, (last + asked.len()) as u64)), None),
        )
    }
}

/// Why a timer asked for after `earlier` others cannot be set.
pub open spec fn timer_refused(
    clock: Clock,
    asked: (String, UnixNanos),
    earlier: int,
    error: BacktestError,
) -> bool {
    if asked.1.0 < clock.time() {
        says(
            error,
            "timer "@ + debug_text(asked.0@) + " scheduled for "@ + int_text(asked.1.0 as int)
                + ", which is before now ("@ + int_text(clock.time() as int) + ")"@,
        )
    } else {
        clock.last_sequence() + earlier == u64::MAX && error == (BacktestError::Overflow {
            what: "Clock::sequence",
        })
    }
}

/// One-shot timers set in order, up to the first one that cannot be.
pub open spec fn after_setting(
    before: Clock,
    after: Clock,
    asked: Seq<(String, UnixNanos)>,
    r: Result<(), BacktestError>,
) -> bool {
    &&& after.time() == before.time()
    &&& match r {
        Ok(_) => {
            &&& forall|i: int| 0 <= i < asked.len() ==> (#[trigger] asked[i]).1.0 >= before.time()
            &&& after.last_sequence() == before.last_sequence() + asked.len()
            &&& after.timers() == all_scheduled(before.timers(), before.last_sequence(), asked)
        },
        Err(e) => exists|i: int|
            0 <= i < asked.len() && #[trigger] timer_refused(before, asked[i], i, e) && forall|j: int|
                0 <= j < i ==> (#[trigger] asked[j]).1.0 >= before.time(),
    }
}

/// No pending timer repeats.
pub open spec fn one_shot(timers: Seq<TimerEntry>) -> bool {
    forall|i: int| 0 <= i < timers.len() ==> (#[trigger] timers[i]).1 is None
}

/// Timers that do not repeat all fire once they are due, and leave no new
/// ones behind.
pub proof fn one_shot_fires(timers: Seq<TimerEntry>, sequence: u64, ts: int)
    requires
        one_shot(timers),
    ensures
        fire_due(timers, sequence, ts).complete,
        one_shot(fire_due(timers, sequence, ts).timers),
        fire_due(timers, sequence, ts).sequence == sequence,
    decreases due_weight(timers, ts),
{
    if timers.len() > 0 && timers[0].0.0 <= ts {
        assert(timers[0].1 is None);
        let rest = timers.drop_first();
        assert forall|i: int| 0 <= i < rest.len() implies (#[trigger] rest[i]).1 is None by {
            assert(rest[i] == timers[i + 1]);
        }
        one_shot_fires(rest, sequence, ts);
    }
}

/// One more timer that does not repeat leaves none that does.
pub proof fn one_shot_scheduled(timers: Seq<TimerEntry>, timer: TimerEntry)
    requires
        one_shot(timers),
        timer.1 is None,
    ensures
        one_shot(scheduled(timers, timer)),
    decreases timers.len(),
{
    let after = scheduled(timers, timer);
    if timers.len() == 0 || !fires_before(timers[0].0, timer.0) {
        assert forall|i: int| 0 <= i < after.len() implies (#[trigger] after[i]).1 is None by {
            if i > 0 {
                assert(after[i] == timers[i - 1]);
            }
        }
    } else {
        let rest = timers.drop_first();
        assert forall|i: int| 0 <= i < rest.len() implies (#[trigger] rest[i]).1 is None by {
            assert(rest[i] == timers[i + 1]);
        }
        one_shot_scheduled(rest, timer);
        assert forall|i: int| 0 <= i < after.len() implies (#[trigger] after[i]).1 is None by {
            if i > 0 {
                assert(after[i] == scheduled(rest, timer)[i - 1]);
            } else {
                assert(after[0] == timers[0]);
            }
        }
    }
}

/// Cancelling by name takes away every timer with the name and no other.
pub proof fn cancelling_takes_every_timer_with_the_name(
    timers: Seq<TimerEntry>,
    name: Seq<char>,
)
    ensures
        without_name(timers, name) == timers.filter(|t: TimerEntry| t.0.1.0 != name),
    decreases timers.len(),
{
    reveal(Seq::filter);
    if timers.len() > 0 {
        cancelling_takes_every_timer_with_the_name(timers.drop_last(), name);
    }
}

/// Setting a timer loses none: it stands among the pending ones, and so does
/// everything that was pending before.
pub proof fn setting_a_timer_loses_none(timers: Seq<TimerEntry>, timer: TimerEntry)
    ensures
        scheduled(timers, timer).len() == timers.len() + 1,
        scheduled(timers, timer).contains(timer),
        forall|i: int|
            0 <= i < timers.len() ==> scheduled(timers, timer).contains(#[trigger] timers[i]),
    decreases timers.len(),
{
    let s = scheduled(timers, timer);
    if timers.len() == 0 || !fires_before(timers[0].0, timer.0) {
        assert(s[0] == timer);
        assert forall|i: int| 0 <= i < timers.len() implies s.contains(#[trigger] timers[i]) by {
            assert(s[i + 1] == timers[i]);
        }
    } else {
        let head = timers.drop_first();
        let rest = scheduled(head, timer);
        setting_a_timer_loses_none(head, timer);
        let k = choose|k: int| 0 <= k < rest.len() && rest[k] == timer;
        assert(s[k + 1] == timer);
        assert forall|i: int| 0 <= i < timers.len() implies s.contains(#[trigger] timers[i]) by {
            if i == 0 {
                assert(s[0] == timers[0]);
            } else {
                assert(head[i - 1] == timers[i]);
                let j = choose|j: int| 0 <= j < rest.len() && rest[j] == head[i - 1];
                assert(s[j + 1] == timers[i]);
            }
        }
    }
}

/// Everything due fires and nothing else goes: once the clock has moved on, a
/// timer that was due by then has fired, and one that was not is still
/// pending as it was.
pub proof fn everything_due_fires(timers: Seq<TimerEntry>, sequence: u64, ts: int, i: int)
    requires
        in_firing_order(timers),
        forall|k: int| 0 <= k < timers.len() ==> (#[trigger] timers[k]).0.1.1 <= sequence,
        fire_due(timers, sequence, ts).complete,
        0 <= i < timers.len(),
    ensures
        timers[i].0.0 <= ts ==> fire_due(timers, sequence, ts).fired.contains(timers[i].0),
        timers[i].0.0 > ts ==> fire_due(timers, sequence, ts).timers.contains(timers[i]),
    decreases due_weight(timers, ts),
{
    let all = fire_due(timers, sequence, ts);
    if timers[0].0.0 > ts {
        if i > 0 {
            assert(fires_before(timers[0].0, timers[i].0));
        }
    } else {
        let (key, interval) = timers[0];
        let rest = timers.drop_first();
        assert forall|a: int, b: int|
            #![trigger rest[a], rest[b]]
            0 <= a < b < rest.len() implies fires_before(rest[a].0, rest[b].0) by {
            assert(rest[a] == timers[a + 1] && rest[b] == timers[b + 1]);
        }
        assert forall|k: int| 0 <= k < rest.len() implies (#[trigger] rest[k]).0.1.1
            <= sequence by {
            assert(rest[k] == timers[k + 1]);
        }
        assert(all.fired[0] == key);
        match interval {
            None => {
                let next = fire_due(rest, sequence, ts);
                assert(all.fired == seq![key] + next.fired);
                if i > 0 {
                    assert(rest[i - 1] == timers[i]);
                    everything_due_fires(rest, sequence, ts, i - 1);
                    still_fired(key, next.fired, timers[i].0);
                }
            },
            Some(every) => {
                let again = (
                    (saturated(key.0 + every) as i64, (key.1.0, (sequence + 1) as u64)),
                    interval,
                );
                scheduled_weight(rest, again, ts);
                let after = scheduled(rest, again);
                rescheduled_in_order(rest, again, sequence);
                setting_a_timer_loses_none(rest, again);
                let next = fire_due(after, (sequence + 1) as u64, ts);
                assert(all.fired == seq![key] + next.fired);
                if i > 0 {
                    assert(rest[i - 1] == timers[i]);
                    let k = choose|k: int| 0 <= k < after.len() && after[k] == timers[i];
                    everything_due_fires(after, (sequence + 1) as u64, ts, k);
                    still_fired(key, next.fired, timers[i].0);
                }
            },
        }
    }
}

proof fn still_fired(key: TimerKey, later: Seq<TimerKey>, other: TimerKey)
    ensures
        later.contains(other) ==> (seq![key] + later).contains(other),
{
    if later.contains(other) {
        let k = choose|k: int| 0 <= k < later.len() && later[k] == other;
        assert((seq![key] + later)[k + 1] == other);
    }
}

proof fn rescheduled_in_order(rest: Seq<TimerEntry>, again: TimerEntry, sequence: u64)
    requires
        in_firing_order(rest),
        sequence < u64::MAX,
        again.0.1.1 == sequence + 1,
        forall|k: int| 0 <= k < rest.len() ==> (#[trigger] rest[k]).0.1.1 <= sequence,
    ensures
        in_firing_order(scheduled(rest, again)),
        forall|k: int|
            0 <= k < scheduled(rest, again).len() ==> (#[trigger] scheduled(rest, again)[k]).0.1.1
                <= sequence + 1,
{
    scheduled_keeps_order(rest, again);
    let after = scheduled(rest, again);
    assert forall|k: int| 0 <= k < after.len() implies (#[trigger] after[k]).0.1.1 <= sequence
        + 1 by {
        if after[k] != again {
            let j = choose|j: int| 0 <= j < rest.len() && rest[j] == after[k];
            assert(rest[j].0.1.1 <= sequence);
        }
    }
}

/// A repeating timer that fires is set again one interval on, under its own
/// name: by the time the clock has moved on it has fired there too, or is
/// pending there, repeating as before.
pub proof fn a_repeating_timer_comes_round(
    timers: Seq<TimerEntry>,
    sequence: u64,
    ts: int,
    i: int,
    every: i64,
) -> (again: u64)
    requires
        in_firing_order(timers),
        forall|k: int| 0 <= k < timers.len() ==> (#[trigger] timers[k]).0.1.1 <= sequence,
        fire_due(timers, sequence, ts).complete,
        0 <= i < timers.len(),
        timers[i].1 == Some(every),
        timers[i].0.0 <= ts,
        timers[i].0.0 + every <= i64::MAX,
    ensures
        ({
            let all = fire_due(timers, sequence, ts);
            let next: TimerKey = (
                (timers[i].0.0 + every) as i64,
                (timers[i].0.1.0, again),
            );
            &&& every > 0
            &&& timers[i].0.0 + every <= ts ==> all.fired.contains(next)
            &&& timers[i].0.0 + every > ts ==> all.timers.contains((next, Some(every)))
        }),
    decreases due_weight(timers, ts),
{
    let all = fire_due(timers, sequence, ts);
    if i > 0 {
        assert(fires_before(timers[0].0, timers[i].0));
    }
    let (key, interval) = timers[0];
    let rest = timers.drop_first();
    assert forall|a: int, b: int|
        #![trigger rest[a], rest[b]]
        0 <= a < b < rest.len() implies fires_before(rest[a].0, rest[b].0) by {
        assert(rest[a] == timers[a + 1] && rest[b] == timers[b + 1]);
    }
    assert forall|k: int| 0 <= k < rest.len() implies (#[trigger] rest[k]).0.1.1 <= sequence by {
        assert(rest[k] == timers[k + 1]);
    }
    match interval {
        None => {
            let next = fire_due(rest, sequence, ts);
            assert(all.fired == seq![key] + next.fired);
            assert(rest[i - 1] == timers[i]);
            let again = a_repeating_timer_comes_round(rest, sequence, ts, i - 1, every);
            still_fired(key, next.fired, ((timers[i].0.0 + every) as i64, (timers[i].0.1.0, again)));
            again
        },
        Some(step) => {
            let set = (
                (saturated(key.0 + step) as i64, (key.1.0, (sequence + 1) as u64)),
                interval,
            );
            scheduled_weight(rest, set, ts);
            let after = scheduled(rest, set);
            rescheduled_in_order(rest, set, sequence);
            setting_a_timer_loses_none(rest, set);
            let next = fire_due(after, (sequence + 1) as u64, ts);
            assert(all.fired == seq![key] + next.fired);
            if i == 0 {
                let k = choose|k: int| 0 <= k < after.len() && after[k] == set;
                everything_due_fires(after, (sequence + 1) as u64, ts, k);
                still_fired(key, next.fired, set.0);
                (sequence + 1) as u64
            } else {
                assert(rest[i - 1] == timers[i]);
                let k = choose|k: int| 0 <= k < after.len() && after[k] == timers[i];
                let again = a_repeating_timer_comes_round(
                    after,
                    (sequence + 1) as u64,
                    ts,
                    k,
                    every,
                );
                still_fired(
                    key,
                    next.fired,
                    ((timers[i].0.0 + every) as i64, (timers[i].0.1.0, again)),
                );
                again
            }
        },
    }
}

} // verus!
