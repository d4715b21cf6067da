//! Merging sorted data streams into one deterministic replay order.
//!
//! The merge is ordinary; the *tie-break* is the point. When two records
//! carry the same `ts_init`, something has to decide which the strategy sees
//! first, and that decision changes fills. So the order is a **total order
//! on explicit fields**: `(ts_init, stream priority, stream index, arrival
//! index)`. Every component is declared by the caller or fixed at
//! construction, and the last two guarantee that no two records ever compare
//! equal.
//!
//! Streams must be sorted by `ts_init`, and that is checked as each record
//! is pulled. Sources are lazy: the merge holds one record per stream.

use std::collections::VecDeque;
use vstd::prelude::*;
use vstd::string::*;

use crate::error::{BacktestError, ErrorView};
use crate::event::Record;
use crate::metrics::{bumped, one_more};
use crate::types::UnixNanos;

pub mod priority;

verus! {

/// A lazy source of records: a list that is handed out one item at a time.
pub trait RecordSource {
    /// What the source still has to hand out.
    spec fn upcoming(&self) -> Seq<Result<Record, BacktestError>>;

    /// Hand out the next item, if there is one.
    fn next_item(&mut self) -> (r: Option<Result<Record, BacktestError>>)
        ensures
            old(self).upcoming().len() == 0 ==> r is None && final(self).upcoming() == old(
                self,
            ).upcoming(),
            old(self).upcoming().len() > 0 ==> r == Some(old(self).upcoming()[0]) && final(self).upcoming() == old(self).upcoming().drop_first(),
    ;
}

/// Records held in memory.
pub struct ListSource {
    records: VecDeque<Record>,
}

/// Records as items that are all in order.
pub open spec fn sound_items(records: Seq<Record>) -> Seq<Result<Record, BacktestError>> {
    records.map_values(|r: Record| Ok::<Record, BacktestError>(r))
}

impl ListSource {
    pub closed spec fn held(&self) -> Seq<Record> {
        self.records@
    }

    pub fn new(records: Vec<Record>) -> (s: Self)
        ensures
            s.held() == records@,
            s.upcoming() == sound_items(records@),
    {
        let mut queue: VecDeque<Record> = VecDeque::new();
        let ghost all = records@;
        let mut rest = records;
        assert(queue@ + rest@ =~= all);
        while rest.len() > 0
            invariant
                queue@.len() + rest@.len() == all.len(),
                rest@ == all.take(rest@.len() as int),
                queue@ == all.skip(rest@.len() as int),
            decreases rest@.len(),
        {
            let ghost n = rest@.len() as int;
            if let Some(record) = rest.pop() {
                queue.push_front(record);
                proof {
                    assert(rest@ =~= all.take(n - 1));
                    assert(queue@ =~= all.skip(n - 1));
                }
            }
        }
        assert(all.skip(0) =~= all);
        ListSource { records: queue }
    }
}

impl RecordSource for ListSource {
    open spec fn upcoming(&self) -> Seq<Result<Record, BacktestError>> {
        sound_items(self.held())
    }

    fn next_item(&mut self) -> (r: Option<Result<Record, BacktestError>>) {
        let ghost before = self.held();
        match self.records.pop_front() {
            Some(record) => {
                assert(self.upcoming() =~= old(self).upcoming().drop_first());
                Some(Ok(record))
            },
            None => None,
        }
    }
}

/// One stream in a merge.
pub struct Lane {
    pub name: Seq<char>,
    pub priority: u32,
    /// The record waiting to be handed out.
    pub head: Option<Record>,
    /// What follows it.
    pub upcoming: Seq<Result<Record, BacktestError>>,
    /// How many records came before it.
    pub arrival: u64,
    pub last_ts: Option<i64>,
}

/// What a record is ordered by: when it was knowable, its stream's priority,
/// its stream, and how many records of the stream came before it.
pub struct MergeKey {
    pub ts: int,
    pub priority: int,
    pub stream: int,
    pub arrival: int,
}

/// Whether a record comes before another.
pub open spec fn comes_before(a: MergeKey, b: MergeKey) -> bool {
    a.ts < b.ts || (a.ts == b.ts && (a.priority < b.priority || (a.priority == b.priority && (
    a.stream < b.stream || (a.stream == b.stream && a.arrival < b.arrival)))))
}

/// The key of the record waiting in a stream.
pub open spec fn head_key(lanes: Seq<Lane>, i: int) -> MergeKey {
    MergeKey {
        ts: lanes[i].head->Some_0.stamps.ts_init.0 as int,
        priority: lanes[i].priority as int,
        stream: i,
        arrival: lanes[i].arrival as int,
    }
}

/// Which of the first `n` streams comes next, if any has a record waiting.
pub open spec fn next_among(lanes: Seq<Lane>, n: nat) -> Option<int>
    decreases n,
{
    if n == 0 {
        None
    } else {
        let best = next_among(lanes, (n - 1) as nat);
        let i = n - 1;
        if lanes[i].head is None {
            best
        } else {
            match best {
                None => Some(i),
                Some(b) => if comes_before(head_key(lanes, i), head_key(lanes, b)) {
                    Some(i)
                } else {
                    Some(b)
                },
            }
        }
    }
}

/// Which stream comes next.
pub open spec fn next_lane(lanes: Seq<Lane>) -> Option<int> {
    next_among(lanes, lanes.len())
}

/// A stream with its next record pulled in, and what was wrong with it, if
/// anything.
pub open spec fn pulled(lane: Lane) -> (Lane, Option<ErrorView>) {
    if lane.upcoming.len() == 0 {
        (Lane { head: None, ..lane }, None)
    } else {
        let rest = Lane { head: None, upcoming: lane.upcoming.drop_first(), ..lane };
        match lane.upcoming[0] {
            Err(e) => (rest, Some(e@)),
            Ok(record) => {
                let ts = record.stamps.ts_init.0;
                match lane.last_ts {
                    Some(previous) if ts < previous => (
                        rest,
                        Some(ErrorView::OutOfOrder { stream: lane.name, ts, previous }),
                    ),
                    _ => (Lane { head: Some(record), last_ts: Some(ts), ..rest }, None),
                }
            },
        }
    }
}

/// A stream after its waiting record was handed out.
pub open spec fn refilled(lane: Lane) -> (Lane, Option<ErrorView>) {
    let (next, fault) = pulled(lane);
    if next.head is Some {
        (Lane { arrival: bumped(lane.arrival), ..next }, fault)
    } else {
        (next, fault)
    }
}

/// A stream's waiting record is its latest.
pub open spec fn lane_sound(lane: Lane) -> bool {
    lane.head matches Some(record) ==> lane.last_ts == Some(record.stamps.ts_init.0)
}

/// A stream as it is held.
pub struct StreamState<S> {
    pub name: String,
    pub priority: u32,
    pub source: S,
    pub head: Option<Record>,
    pub arrival: u64,
    /// The last timestamp seen, for incremental order validation.
    pub last_ts: Option<i64>,
}

impl<S: RecordSource> View for StreamState<S> {
    type V = Lane;

    open spec fn view(&self) -> Lane {
        Lane {
            name: self.name@,
            priority: self.priority,
            head: self.head,
            upcoming: self.source.upcoming(),
            arrival: self.arrival,
            last_ts: self.last_ts,
        }
    }
}

impl<S: RecordSource> StreamState<S> {
    /// Pull the next record, checking it does not go backwards.
    fn pull(&mut self) -> (r: Result<(), BacktestError>)
        ensures
            final(self)@ == pulled(old(self)@).0,
            match r {
                Ok(_) => pulled(old(self)@).1 is None,
                Err(e) => pulled(old(self)@).1 == Some(e@),
            },
    {
        self.head = None;
        let record = match self.source.next_item() {
            None => {
                return Ok(());
            },
            Some(Err(e)) => {
                return Err(e);
            },
            Some(Ok(record)) => record,
        };
        let ts: i64 = record.ts().0;
        if let Some(previous) = self.last_ts {
            if ts < previous {
                return Err(BacktestError::OutOfOrder { stream: self.name.clone(), ts, previous });
            }
        }
        self.last_ts = Some(ts);
        self.head = Some(record);
        Ok(())
    }
}

/// The streams of a merge.
pub open spec fn lanes_of<S: RecordSource>(streams: Seq<StreamState<S>>) -> Seq<Lane> {
    streams.map_values(|s: StreamState<S>| s@)
}

/// How many records a merge still has to hand out, at most.
pub open spec fn total_left(lanes: Seq<Lane>) -> nat
    decreases lanes.len(),
{
    if lanes.len() == 0 {
        0
    } else {
        total_left(lanes.drop_last()) + lane_left(lanes.last())
    }
}

/// How many records a stream still has, at most.
pub open spec fn lane_left(lane: Lane) -> nat {
    lane.upcoming.len() + if lane.head is Some {
        1nat
    } else {
        0nat
    }
}

/// Replacing one stream changes the total by what the stream changed.
pub proof fn total_left_update(lanes: Seq<Lane>, i: int, lane: Lane)
    requires
        0 <= i < lanes.len(),
    ensures
        total_left(lanes.update(i, lane)) == total_left(lanes) - lane_left(lanes[i]) + lane_left(
            lane,
        ),
    decreases lanes.len(),
{
    let after = lanes.update(i, lane);
    if i == lanes.len() - 1 {
        assert(after.drop_last() =~= lanes.drop_last());
    } else {
        assert(after.drop_last() =~= lanes.drop_last().update(i, lane));
        total_left_update(lanes.drop_last(), i, lane);
    }
}

/// The stream chosen next has a record waiting, and that record comes before
/// every other one waiting.
pub proof fn next_is_first(lanes: Seq<Lane>, n: nat)
    requires
        n <= lanes.len(),
    ensures
        match next_among(lanes, n) {
            None => forall|i: int| 0 <= i < n ==> (#[trigger] lanes[i]).head is None,
            Some(b) => {
                &&& 0 <= b < n
                &&& lanes[b].head is Some
                &&& forall|i: int|
                    0 <= i < n && i != b && (#[trigger] lanes[i]).head is Some ==> comes_before(
                        head_key(lanes, b),
                        head_key(lanes, i),
                    )
            },
        },
    decreases n,
{
    if n > 0 {
        next_is_first(lanes, (n - 1) as nat);
    }
}

/// A k-way merge over sorted record streams.
pub struct Replay<S> {
    streams: Vec<StreamState<S>>,
    /// The last instant handed out.
    last_emitted: Option<UnixNanos>,
    emitted: u64,
}

impl Replay<ListSource> {
    /// A merge of record lists.
    pub fn builder() -> (b: ReplayBuilder<ListSource>)
        ensures
            b.declared() == Seq::<Lane>::empty(),
    {
        ReplayBuilder::new()
    }
}

impl<S: RecordSource> Replay<S> {
    /// The streams, in index order.
    pub closed spec fn lanes(&self) -> Seq<Lane> {
        lanes_of(self.streams@)
    }

    pub closed spec fn count(&self) -> u64 {
        self.emitted
    }

    /// The last instant handed out.
    pub closed spec fn reached(&self) -> Option<UnixNanos> {
        self.last_emitted
    }

    /// Every record waiting is its stream's latest, and none of them is
    /// before the last instant handed out.
    pub open spec fn wf(&self) -> bool {
        &&& forall|i: int| 0 <= i < self.lanes().len() ==> lane_sound(#[trigger] self.lanes()[i])
        &&& forall|i: int|
            0 <= i < self.lanes().len() ==> ((#[trigger] self.lanes()[i]).head matches Some(record)
                ==> (self.reached() matches Some(at) ==> at.0 <= record.stamps.ts_init.0))
    }

    /// What a merge says of itself once it has handed out more records: how
    /// many, and the last instant among them.
    pub open spec fn emits(&self, after: &Self, records: Seq<Record>) -> bool {
        &&& after.count() == (if self.count() + records.len() > u64::MAX {
            u64::MAX as int
        } else {
            self.count() + records.len()
        })
        &&& after.reached() == (if records.len() == 0 {
            self.reached()
        } else {
            Some(records.last().stamps.ts_init)
        })
    }

    /// Which stream comes next.
    fn next_index(&self) -> (r: Option<usize>)
        ensures
            match r {
                Some(i) => next_lane(self.lanes()) == Some(i as int) && i < self.streams@.len(),
                None => next_lane(self.lanes()) is None,
            },
    {
        let mut best: Option<usize> = None;
        let mut n: usize = 0;
        while n < self.streams.len()
            invariant
                n <= self.streams@.len(),
                self.lanes().len() == self.streams@.len(),
                match best {
                    Some(b) => next_among(self.lanes(), n as nat) == Some(b as int) && b < n
                        && self.streams@[b as int].head is Some,
                    None => next_among(self.lanes(), n as nat) is None,
                },
            decreases self.streams@.len() - n,
        {
            let stream = &self.streams[n];
            assert(self.lanes()[n as int] == stream@);
            if let Some(record) = &stream.head {
                let better = match best {
                    None => true,
                    Some(b) => {
                        let other = &self.streams[b];
                        assert(self.lanes()[b as int] == other@);
                        match &other.head {
                            Some(first) => {
                                let ts: i64 = record.ts().0;
                                let first_ts: i64 = first.ts().0;
                                ts < first_ts || (ts == first_ts && stream.priority
                                    < other.priority)
                            },
                            None => true,
                        }
                    },
                };
                if better {
                    best = Some(n);
                }
            }
            n += 1;
        }
        best
    }

    /// The next record in replay order.
    pub fn next_record(&mut self) -> (r: Result<Option<Record>, BacktestError>)
        requires
            old(self).wf(),
        ensures
            final(self).wf(),
            match next_lane(old(self).lanes()) {
                None => r == Ok::<Option<Record>, BacktestError>(None) && *final(self) == *old(self),
                Some(b) => {
                    let record = old(self).lanes()[b].head->Some_0;
                    let (lane, fault) = refilled(old(self).lanes()[b]);
                    &&& 0 <= b < old(self).lanes().len()
                    &&& old(self).lanes()[b].head is Some
                    &&& final(self).lanes() == old(self).lanes().update(b, lane)
                    &&& total_left(final(self).lanes()) < total_left(old(self).lanes())
                    &&& match r {
                        Ok(out) => {
                            &&& fault is None
                            &&& out == Some(record)
                            &&& final(self).count() == bumped(old(self).count())
                            &&& final(self).reached() == Some(record.stamps.ts_init)
                            &&& old(self).reached() matches Some(at) ==> at.0
                                <= record.stamps.ts_init.0
                        },
                        Err(e) => {
                            &&& fault == Some(e@)
                            &&& final(self).count() == old(self).count()
                            &&& final(self).reached() == old(self).reached()
                        },
                    }
                },
            },
    {
        proof {
            next_is_first(self.lanes(), self.lanes().len());
        }
        let b = match self.next_index() {
            Some(b) => b,
            None => {
                return Ok(None);
            },
        };
        let ghost lanes = self.lanes();
        let ghost lane = refilled(lanes[b as int]).0;
        assert(lanes[b as int] == self.streams@[b as int]@);
        let stream = &mut self.streams[b];
        let taken = stream.head.take();
        let arrival: u64 = stream.arrival;
        let r = stream.pull();
        if stream.head.is_some() {
            stream.arrival = one_more(arrival);
        }
        proof {
            assert(self.lanes() =~= lanes.update(b as int, lane));
            total_left_update(lanes, b as int, lane);
            assert forall|i: int| 0 <= i < self.lanes().len() implies lane_sound(
                #[trigger] self.lanes()[i],
            ) by {
                if i != b {
                    assert(self.lanes()[i] == lanes[i]);
                }
            }
        }
        let ghost record = lanes[b as int].head->Some_0;
        proof {
            assert forall|i: int|
                0 <= i < self.lanes().len() && (#[trigger] self.lanes()[i]).head is Some implies record.stamps.ts_init.0
                <= self.lanes()[i].head->Some_0.stamps.ts_init.0 by {
                if i != b {
                    assert(self.lanes()[i] == lanes[i]);
                    assert(comes_before(head_key(lanes, b as int), head_key(lanes, i)));
                } else {
                    assert(lane_sound(lanes[b as int]));
                }
            }
        }
        match r {
            Err(e) => {
                proof {
                    assert forall|i: int| 0 <= i < self.lanes().len() implies ((
                    #[trigger] self.lanes()[i]).head matches Some(record) ==> (
                    self.reached() matches Some(at) ==> at.0 <= record.stamps.ts_init.0)) by {
                        if i != b {
                            assert(self.lanes()[i] == lanes[i]);
                        } else {
                            assert(lanes[b as int].head is Some);
                        }
                    }
                }
                Err(e)
            },
            Ok(_) => {
                match taken {
                    Some(record) => {
                        self.last_emitted = Some(record.ts());
                        self.emitted = one_more(self.emitted);
                        assert(self.lanes() =~= lanes.update(b as int, lane));
                        Ok(Some(record))
                    },
                    None => Ok(None),
                }
            },
        }
    }

    /// Drain the whole replay.
    ///
    /// Materialises every record, so it is for small runs.
    pub fn collect_all(&mut self) -> (r: Result<Vec<Record>, BacktestError>)
        requires
            old(self).wf(),
        ensures
            final(self).wf(),
            match r {
                Ok(out) => {
                    &&& drained(old(self).lanes()).1 is None
                    &&& out@ == records_of(drained(old(self).lanes()).0)
                    &&& next_lane(final(self).lanes()) is None
                },
                Err(e) => drained(old(self).lanes()).1 == Some(e@),
            },
            old(self).emits(final(self), records_of(drained(old(self).lanes()).0)),
    {
        let mut out: Vec<Record> = Vec::new();
        let ghost start = self.lanes();
        let ghost first = *self;
        loop
            invariant
                self.wf(),
                start == old(self).lanes(),
                first == *old(self),
                first.emits(self, out@),
                records_of(drained(start).0) == out@ + records_of(drained(self.lanes()).0),
                drained(start).1 == drained(self.lanes()).1,
            ensures
                drained(start).1 is None,
                records_of(drained(start).0) == out@,
                next_lane(self.lanes()) is None,
                first.emits(self, out@),
                self.wf(),
            decreases total_left(self.lanes()),
        {
            let ghost lanes = self.lanes();
            let pulled = self.next_record();
            proof {
                if pulled is Err {
                    assert(drained(lanes).0.len() == 0);
                    assert(out@ + records_of(drained(lanes).0) =~= out@);
                }
            }
            let next = pulled?;
            match next {
                None => {
                    proof {
                        assert(drained(lanes).0.len() == 0);
                        assert(records_of(drained(lanes).0) =~= Seq::<Record>::empty());
                        assert(out@ + records_of(drained(lanes).0) =~= out@);
                    }
                    break ;
                },
                Some(record) => {
                    let ghost before = out@;
                    out.push(record);
                    proof {
                        let b = next_lane(lanes)->Some_0;
                        let rest = drained(self.lanes());
                        assert(drained(lanes).0 == seq![(head_key(lanes, b), record)] + rest.0);
                        assert(records_of(drained(lanes).0) =~= seq![record] + records_of(rest.0));
                        assert(before + (seq![record] + records_of(rest.0)) =~= out@ + records_of(
                            rest.0,
                        ));
                    }
                },
            }
        }
        Ok(out)
    }

    /// The timestamp of the next record, without consuming it.
    pub fn peek_ts(&self) -> (r: Option<UnixNanos>)
        ensures
            r == (match next_lane(self.lanes()) {
                Some(b) => Some(self.lanes()[b].head->Some_0.stamps.ts_init),
                None => None,
            }),
    {
        proof {
            next_is_first(self.lanes(), self.lanes().len());
        }
        match self.next_index() {
            Some(b) => {
                assert(self.lanes()[b as int] == self.streams@[b as int]@);
                match &self.streams[b].head {
                    Some(record) => Some(record.ts()),
                    None => None,
                }
            },
            None => None,
        }
    }

    pub fn is_empty(&self) -> (r: bool)
        ensures
            r == (next_lane(self.lanes()) is None),
    {
        self.next_index().is_none()
    }

    /// How many records have been handed out so far.
    pub fn emitted(&self) -> (n: u64)
        ensures
            n == self.count(),
    {
        self.emitted
    }

    /// Names of the merged streams, in index order.
    pub fn stream_names(&self) -> (out: Vec<&str>)
        ensures
            out@.len() == self.lanes().len(),
            forall|i: int| 0 <= i < out@.len() ==> (#[trigger] out@[i])@ == self.lanes()[i].name,
    {
        let mut out: Vec<&str> = Vec::new();
        let mut i: usize = 0;
        while i < self.streams.len()
            invariant
                i <= self.streams@.len(),
                out@.len() == i,
                forall|j: int|
                    0 <= j < i ==> (#[trigger] out@[j])@ == self.streams@[j].name@,
            decreases self.streams@.len() - i,
        {
            out.push(self.streams[i].name.as_str());
            i += 1;
        }
        out
    }
}

/// Everything a merge hands out, with what each record is ordered by, and
/// what stopped it, if anything did.
pub open spec fn drained(lanes: Seq<Lane>) -> (Seq<(MergeKey, Record)>, Option<ErrorView>)
    decreases total_left(lanes),
{
    match next_lane(lanes) {
        None => (Seq::empty(), None),
        Some(b) => {
            let (lane, fault) = refilled(lanes[b]);
            if fault is Some || !(0 <= b < lanes.len()) || lanes[b].head is None {
                (Seq::empty(), fault)
            } else {
                proof {
                    total_left_update(lanes, b, lane);
                }
                let rest = drained(lanes.update(b, lane));
                (seq![(head_key(lanes, b), lanes[b].head->Some_0)] + rest.0, rest.1)
            }
        },
    }
}

/// The records of a merge, without what they are ordered by.
pub open spec fn records_of(items: Seq<(MergeKey, Record)>) -> Seq<Record> {
    items.map_values(|item: (MergeKey, Record)| item.1)
}

/// Whatever the streams hold, the merge hands out records in one total
/// order: by time, then by stream priority, then by stream, then by arrival,
/// and no two records compare equal.
pub proof fn merge_is_totally_ordered(lanes: Seq<Lane>)
    requires
        forall|i: int| 0 <= i < lanes.len() ==> lane_sound(#[trigger] lanes[i]),
        forall|i: int|
            0 <= i < lanes.len() ==> (#[trigger] lanes[i]).arrival + lane_left(lanes[i])
                <= u64::MAX,
    ensures
        ({
            let out = drained(lanes).0;
            forall|i: int, j: int|
                #![trigger out[i], out[j]]
                0 <= i < j < out.len() ==> comes_before(out[i].0, out[j].0)
        }),
    decreases total_left(lanes),
{
    next_is_first(lanes, lanes.len());
    match next_lane(lanes) {
        None => {},
        Some(b) => {
            let (lane, fault) = refilled(lanes[b]);
            if fault is None {
                let after = lanes.update(b, lane);
                total_left_update(lanes, b, lane);
                assert forall|i: int| 0 <= i < after.len() implies lane_sound(
                    #[trigger] after[i],
                ) && after[i].arrival + lane_left(after[i]) <= u64::MAX by {
                    if i != b {
                        assert(after[i] == lanes[i]);
                    } else {
                        assert(lane_sound(lanes[b]));
                    }
                }
                merge_is_totally_ordered(after);
                next_is_first(after, after.len());
                let first = head_key(lanes, b);
                let rest = drained(after).0;
                let out = drained(lanes).0;
                assert(out == seq![(first, lanes[b].head->Some_0)] + rest);
                if rest.len() > 0 {
                    let c = next_lane(after)->Some_0;
                    assert(rest[0].0 == head_key(after, c));
                    assert(comes_before(first, head_key(after, c))) by {
                        if c == b {
                            assert(lane_sound(lanes[b]));
                        } else {
                            assert(after[c] == lanes[c]);
                        }
                    }
                    assert forall|j: int| 0 <= j < rest.len() implies comes_before(
                        first,
                        (#[trigger] rest[j]).0,
                    ) by {
                        if j > 0 {
                            assert(comes_before(rest[0].0, rest[j].0));
                        }
                    }
                }
                assert forall|i: int, j: int|
                    #![trigger out[i], out[j]]
                    0 <= i < j < out.len() implies comes_before(out[i].0, out[j].0) by {
                    assert(out[j] == rest[j - 1]);
                    if i > 0 {
                        assert(out[i] == rest[i - 1]);
                    }
                }
            }
        },
    }
}

/// The records a stream still has, the one waiting first.
pub open spec fn waiting(lane: Lane) -> Seq<Record> {
    (match lane.head {
        Some(record) => seq![record],
        None => Seq::empty(),
    }) + lane.upcoming.map_values(|item: Result<Record, BacktestError>| item->Ok_0)
}

/// The records of a merge that came from one stream.
pub open spec fn from_stream(items: Seq<(MergeKey, Record)>, stream: int) -> Seq<Record>
    decreases items.len(),
{
    if items.len() == 0 {
        Seq::empty()
    } else {
        let rest = from_stream(items.drop_first(), stream);
        if items[0].0.stream == stream {
            seq![items[0].1] + rest
        } else {
            rest
        }
    }
}

/// A merge that nothing stops hands out every record of every stream exactly
/// once, and each stream's records in the order the stream has them.
pub proof fn merge_loses_nothing(lanes: Seq<Lane>)
    requires
        drained(lanes).1 is None,
        forall|i: int|
            0 <= i < lanes.len() && (#[trigger] lanes[i]).head is None ==> lanes[i].upcoming.len()
                == 0,
    ensures
        forall|j: int|
            0 <= j < lanes.len() ==> from_stream(drained(lanes).0, j) == waiting(
                #[trigger] lanes[j],
            ),
    decreases total_left(lanes),
{
    next_is_first(lanes, lanes.len());
    match next_lane(lanes) {
        None => {
            assert forall|j: int| 0 <= j < lanes.len() implies from_stream(drained(lanes).0, j)
                == waiting(#[trigger] lanes[j]) by {
                assert(waiting(lanes[j]) =~= Seq::<Record>::empty());
            }
        },
        Some(b) => {
            let (lane, fault) = refilled(lanes[b]);
            let after = lanes.update(b, lane);
            total_left_update(lanes, b, lane);
            assert forall|i: int|
                0 <= i < after.len() && (#[trigger] after[i]).head is None implies after[i].upcoming.len()
                == 0 by {
                if i != b {
                    assert(after[i] == lanes[i]);
                }
            }
            merge_loses_nothing(after);
            let rest = drained(after).0;
            let out = drained(lanes).0;
            let record = lanes[b].head->Some_0;
            assert(out.drop_first() =~= rest);
            assert forall|j: int| 0 <= j < lanes.len() implies from_stream(out, j) == waiting(
                #[trigger] lanes[j],
            ) by {
                assert(from_stream(rest, j) == waiting(after[j]));
                if j != b {
                    assert(after[j] == lanes[j]);
                } else {
                    assert(waiting(lanes[b]) =~= seq![record] + waiting(lane));
                }
            }
        },
    }
}

/// A merge being declared.
pub struct ReplayBuilder<S> {
    streams: Vec<StreamState<S>>,
}

/// A stream nothing has been pulled from.
pub open spec fn declared_lane(
    name: Seq<char>,
    priority: u32,
    upcoming: Seq<Result<Record, BacktestError>>,
) -> Lane {
    Lane { name, priority, head: None, upcoming, arrival: 0, last_ts: None }
}

impl ReplayBuilder<ListSource> {
    /// Add a stream from a list, which must already be sorted by `ts_init`.
    pub fn stream(self, name: &str, priority: u32, records: Vec<Record>) -> (b: Self)
        ensures
            b.declared() == self.declared().push(
                declared_lane(name@, priority, sound_items(records@)),
            ),
    {
        self.source(name, priority, ListSource::new(records))
    }
}

/// The first `n` declared streams with their first records pulled in, and
/// what was wrong with the first one that could not be, if any.
pub open spec fn primed(lanes: Seq<Lane>, n: nat) -> (Seq<Lane>, Option<ErrorView>)
    decreases n,
{
    if n == 0 {
        (Seq::empty(), None)
    } else {
        let before = primed(lanes, (n - 1) as nat);
        if before.1 is Some {
            before
        } else {
            let (lane, fault) = pulled(lanes[n - 1]);
            if fault is Some {
                (before.0, fault)
            } else {
                (before.0.push(lane), None)
            }
        }
    }
}

proof fn primed_stops(lanes: Seq<Lane>, n: nat, m: nat)
    requires
        n <= m,
        primed(lanes, n).1 is Some,
    ensures
        primed(lanes, m) == primed(lanes, n),
    decreases m - n,
{
    if n < m {
        primed_stops(lanes, n, (m - 1) as nat);
    }
}

impl<S: RecordSource> ReplayBuilder<S> {
    /// The streams declared so far.
    pub closed spec fn declared(&self) -> Seq<Lane> {
        lanes_of(self.streams@)
    }

    /// Nothing declared yet.
    pub fn new() -> (b: Self)
        ensures
            b.declared() == Seq::<Lane>::empty(),
    {
        let b = ReplayBuilder { streams: Vec::new() };
        assert(b.declared() =~= Seq::<Lane>::empty());
        b
    }

    /// Add a lazy stream.
    ///
    /// The source is pulled one record at a time: only one record per stream
    /// is held at any moment, plus whatever the source itself buffers.
    pub fn source(self, name: &str, priority: u32, source: S) -> (b: Self)
        ensures
            b.declared() == self.declared().push(
                declared_lane(name@, priority, source.upcoming()),
            ),
    {
        let mut streams = self.streams;
        let ghost before = streams@;
        streams.push(
            StreamState {
                name: name.to_owned(),
                priority,
                source,
                head: None,
                arrival: 0,
                last_ts: None,
            },
        );
        proof {
            assert(lanes_of(streams@) =~= lanes_of(before).push(
                declared_lane(name@, priority, source.upcoming()),
            ));
        }
        ReplayBuilder { streams }
    }

    /// Pull the first record of every stream and start the merge.
    pub fn build(self) -> (r: Result<Replay<S>, BacktestError>)
        requires
            forall|i: int|
                0 <= i < self.declared().len() ==> (#[trigger] self.declared()[i]).last_ts is None,
        ensures
            ({
                let done = primed(self.declared(), self.declared().len());
                match r {
                    Ok(replay) => {
                        &&& done.1 is None
                        &&& replay.wf()
                        &&& replay.lanes() == done.0
                        &&& replay.count() == 0
                        &&& replay.reached() is None
                    },
                    Err(e) => done.1 == Some(e@),
                }
            }),
    {
        let ghost lanes = self.declared();
        let mut streams = self.streams;
        let n: usize = streams.len();
        let mut i: usize = 0;
        while i < n
            invariant
                i <= n,
                n == streams@.len(),
                lanes == self.declared(),
                lanes.len() == n,
                primed(lanes, i as nat).1 is None,
                primed(lanes, i as nat).0.len() == i,
                forall|j: int|
                    0 <= j < i ==> (#[trigger] streams@[j])@ == primed(lanes, i as nat).0[j]
                        && lane_sound(streams@[j]@),
                forall|j: int| i <= j < n ==> (#[trigger] streams@[j])@ == lanes[j],
                forall|j: int| 0 <= j < n ==> (#[trigger] lanes[j]).last_ts is None,
            decreases n - i,
        {
            let ghost before = streams@;
            assert(streams@[i as int]@ == lanes[i as int]);
            assert(primed(lanes, (i + 1) as nat) == (if pulled(lanes[i as int]).1 is Some {
                (primed(lanes, i as nat).0, pulled(lanes[i as int]).1)
            } else {
                (primed(lanes, i as nat).0.push(pulled(lanes[i as int]).0), None)
            }));
            let stream = &mut streams[i];
            match stream.pull() {
                Ok(_) => {},
                Err(e) => {
                    proof {
                        primed_stops(lanes, (i + 1) as nat, n as nat);
                    }
                    return Err(e);
                },
            }
            proof {
                assert forall|j: int| 0 <= j < i + 1 implies (#[trigger] streams@[j])@ == primed(
                    lanes,
                    (i + 1) as nat,
                ).0[j] && lane_sound(streams@[j]@) by {
                    if j < i {
                        assert(streams@[j] == before[j]);
                    }
                }
            }
            i += 1;
        }
        let replay = Replay { streams, last_emitted: None, emitted: 0 };
        proof {
            assert(replay.lanes() =~= primed(lanes, n as nat).0);
        }
        Ok(replay)
    }
}

proof fn merged_keys_are_the_records(lanes: Seq<Lane>)
    ensures
        forall|i: int|
            0 <= i < drained(lanes).0.len() ==> {
                let item = #[trigger] drained(lanes).0[i];
                &&& item.0.ts == item.1.stamps.ts_init.0
                &&& 0 <= item.0.stream < lanes.len()
                &&& item.0.priority == lanes[item.0.stream].priority
            },
    decreases total_left(lanes),
{
    next_is_first(lanes, lanes.len());
    match next_lane(lanes) {
        None => {},
        Some(b) => {
            let (lane, fault) = refilled(lanes[b]);
            if fault is None {
                let after = lanes.update(b, lane);
                total_left_update(lanes, b, lane);
                merged_keys_are_the_records(after);
                let (out, rest) = (drained(lanes).0, drained(after).0);
                assert(out == seq![(head_key(lanes, b), lanes[b].head->Some_0)] + rest);
                assert forall|i: int| 0 <= i < out.len() implies {
                    let item = #[trigger] out[i];
                    &&& item.0.ts == item.1.stamps.ts_init.0
                    &&& 0 <= item.0.stream < lanes.len()
                    &&& item.0.priority == lanes[item.0.stream].priority
                } by {
                    if i > 0 {
                        assert(out[i] == rest[i - 1]);
                        let s = rest[i - 1].0.stream;
                        if s != b {
                            assert(after[s] == lanes[s]);
                        }
                    }
                }
            }
        },
    }
}

/// A merge replays time forwards: no record comes after one that was known
/// later, of two known at the same instant the one from the stream with the
/// lower priority number comes first, and between streams of one priority
/// the one declared first.
pub proof fn a_merge_replays_time_forwards(lanes: Seq<Lane>, i: int, j: int)
    requires
        forall|k: int| 0 <= k < lanes.len() ==> lane_sound(#[trigger] lanes[k]),
        forall|k: int|
            0 <= k < lanes.len() ==> (#[trigger] lanes[k]).arrival + lane_left(lanes[k])
                <= u64::MAX,
        0 <= i < j < drained(lanes).0.len(),
    ensures
        ({
            let (a, b) = (drained(lanes).0[i], drained(lanes).0[j]);
            let (s, t) = (a.0.stream, b.0.stream);
            &&& a.1.stamps.ts_init.0 <= b.1.stamps.ts_init.0
            &&& a.1.stamps.ts_init == b.1.stamps.ts_init ==> lanes[s].priority <= lanes[t].priority
            &&& a.1.stamps.ts_init == b.1.stamps.ts_init && lanes[s].priority == lanes[t].priority
                ==> s <= t
        }),
{
    merge_is_totally_ordered(lanes);
    merged_keys_are_the_records(lanes);
    let out = drained(lanes).0;
    assert(comes_before(out[i].0, out[j].0));
}

/// A stream that goes back in time is stopped at the record that does, and
/// one that stands still is not.
pub proof fn a_stream_never_goes_back(lane: Lane)
    requires
        lane.upcoming.len() > 0,
        lane.upcoming[0] is Ok,
    ensures
        ({
            let record = lane.upcoming[0]->Ok_0;
            let (next, fault) = pulled(lane);
            let back = lane.last_ts matches Some(last) && record.stamps.ts_init.0 < last;
            &&& fault is Some <==> back
            &&& !back ==> next.head == Some(record) && next.last_ts == Some(
                record.stamps.ts_init.0,
            )
            &&& back ==> next.head is None
            &&& next.upcoming == lane.upcoming.drop_first()
        }),
{
}

} // verus!
