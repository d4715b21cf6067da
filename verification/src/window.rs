//! Time windows and coverage accounting.
//!
//! Windows are **half-open**, `[start, end)`, and this module is the only
//! place that decides what a window means.
//!
//! [`Coverage`] is the other half. A request and what actually loaded are
//! different facts and are never collapsed into one: a backtest over a
//! window that only half loaded should say so, not quietly report the
//! performance of half a strategy.

use vstd::prelude::*;
use vstd::string::*;

use crate::error::{says, BacktestError};
use crate::text::{int_text, push_i64};
use crate::types::{fits, saturating_sum, UnixNanos};

verus! {

/// A half-open time window, `[start, end)`.
#[derive(Clone, Copy, PartialEq, Eq, Debug, Structural)]
pub struct TimeWindow {
    start: UnixNanos,
    end: UnixNanos,
}

/// A window is its first instant and the instant after its last.
impl View for TimeWindow {
    type V = (i64, i64);

    closed spec fn view(&self) -> (i64, i64) {
        (self.start.0, self.end.0)
    }
}

/// Whether an instant lies inside a span.
pub open spec fn inside(span: (i64, i64), ts: int) -> bool {
    span.0 <= ts < span.1
}

/// Where two spans overlap, if they do.
pub open spec fn overlap(a: (i64, i64), b: (i64, i64)) -> Option<(i64, i64)> {
    let start = if a.0 >= b.0 { a.0 } else { b.0 };
    let end = if a.1 <= b.1 { a.1 } else { b.1 };
    if start < end {
        Some((start, end))
    } else {
        None
    }
}

/// The smallest span containing both.
pub open spec fn hull(a: (i64, i64), b: (i64, i64)) -> (i64, i64) {
    (if a.0 <= b.0 { a.0 } else { b.0 }, if a.1 >= b.1 { a.1 } else { b.1 })
}

/// How long a span is.
pub open spec fn length(span: (i64, i64)) -> int {
    span.1 - span.0
}

/// The spans of a list of windows.
pub open spec fn spans_of(windows: Seq<TimeWindow>) -> Seq<(i64, i64)> {
    windows.map_values(|w: TimeWindow| w@)
}

/// That `parts` divide `whole` into consecutive pieces: each is at most
/// `size` long and all but the last are exactly that, the first starts where
/// the whole does, each next one starts where the one before ended, and the
/// last ends where the whole does.
pub open spec fn tiles(parts: Seq<(i64, i64)>, whole: (i64, i64), size: int) -> bool {
    &&& parts.len() > 0
    &&& parts[0].0 == whole.0
    &&& parts.last().1 == whole.1
    &&& forall|i: int|
        0 <= i < parts.len() ==> 0 < length(#[trigger] parts[i]) && length(parts[i]) <= size && (i
            < parts.len() - 1 ==> length(parts[i]) == size)
    &&& forall|i: int, j: int|
        #![trigger parts[i], parts[j]]
        0 <= i && j == i + 1 && j < parts.len() ==> parts[i].1 == parts[j].0
}

impl TimeWindow {
    #[verifier::type_invariant]
    spec fn ordered(self) -> bool {
        self.start.0 < self.end.0
    }

    /// A window from `start` (inclusive) to `end` (exclusive).
    pub fn new(start: UnixNanos, end: UnixNanos) -> (r: Result<Self, BacktestError>)
        ensures
            match r {
                Ok(w) => start.0 < end.0 && w@ == (start.0, end.0),
                Err(e) => end.0 <= start.0 && e == (BacktestError::EmptyWindow {
                    start: start.0,
                    end: end.0,
                }),
            },
    {
        if end.0 <= start.0 {
            return Err(BacktestError::EmptyWindow { start: start.0, end: end.0 });
        }
        Ok(TimeWindow { start, end })
    }

    /// From an **inclusive** end, as vendors and humans usually state it.
    ///
    /// The conversion happens here, once, so that "through the 28th" turns
    /// into `[.., 29th)` in one place rather than being re-derived at each
    /// call site.
    pub fn from_inclusive_end(start: UnixNanos, last: UnixNanos) -> (r: Result<Self, BacktestError>)
        ensures
            match r {
                Ok(w) => start.0 <= last.0 < i64::MAX && w@ == (start.0, (last.0 + 1) as i64),
                Err(e) => {
                    if last.0 == i64::MAX {
                        e == (BacktestError::Overflow { what: "UnixNanos" })
                    } else {
                        last.0 < start.0 && e == (BacktestError::EmptyWindow {
                            start: start.0,
                            end: (last.0 + 1) as i64,
                        })
                    }
                },
            },
    {
        let end = last.checked_add_nanos(1)?;
        Self::new(start, end)
    }

    pub fn start(self) -> (r: UnixNanos)
        ensures
            r.0 == self@.0,
    {
        self.start
    }

    /// The exclusive end.
    pub fn end(self) -> (r: UnixNanos)
        ensures
            r.0 == self@.1,
    {
        self.end
    }

    /// The last instant inside the window.
    pub fn last(self) -> (r: UnixNanos)
        ensures
            r.0 == self@.1 - 1,
            inside(self@, r.0 as int),
    {
        proof {
            use_type_invariant(self);
        }
        UnixNanos(self.end.0 - 1)
    }

    pub fn duration_nanos(self) -> (r: i64)
        requires
            fits(length(self@)),
        ensures
            r == length(self@),
            r > 0,
    {
        proof {
            use_type_invariant(self);
        }
        self.end.0 - self.start.0
    }

    pub fn contains(self, ts: UnixNanos) -> (r: bool)
        ensures
            r == inside(self@, ts.0 as int),
    {
        ts.0 >= self.start.0 && ts.0 < self.end.0
    }

    pub fn overlaps(self, other: Self) -> (r: bool)
        ensures
            r == (overlap(self@, other@) is Some),
    {
        proof {
            use_type_invariant(self);
            use_type_invariant(other);
        }
        self.start.0 < other.end.0 && other.start.0 < self.end.0
    }

    /// The overlap of two windows, or `None` when they do not touch.
    pub fn intersect(self, other: Self) -> (r: Option<Self>)
        ensures
            match r {
                Some(w) => overlap(self@, other@) == Some(w@),
                None => overlap(self@, other@) is None,
            },
    {
        let start = if self.start.0 >= other.start.0 {
            self.start
        } else {
            other.start
        };
        let end = if self.end.0 <= other.end.0 {
            self.end
        } else {
            other.end
        };
        if end.0 > start.0 {
            Some(TimeWindow { start, end })
        } else {
            None
        }
    }

    /// The smallest window containing both.
    pub fn union(self, other: Self) -> (r: Self)
        ensures
            r@ == hull(self@, other@),
    {
        proof {
            use_type_invariant(self);
            use_type_invariant(other);
        }
        let start = if self.start.0 <= other.start.0 {
            self.start
        } else {
            other.start
        };
        let end = if self.end.0 >= other.end.0 {
            self.end
        } else {
            other.end
        };
        TimeWindow { start, end }
    }

    /// Split into consecutive chunks of at most `chunk_nanos`.
    ///
    /// Chunks tile the window exactly: no gap, no overlap, and the last one
    /// is short rather than overhanging.
    pub fn chunks(self, chunk_nanos: i64) -> (r: Result<Vec<Self>, BacktestError>)
        ensures
            match r {
                Ok(out) => chunk_nanos > 0 && tiles(spans_of(out@), self@, chunk_nanos as int),
                Err(e) => chunk_nanos <= 0 && says(e, "chunk size must be positive"@),
            },
    {
        if chunk_nanos <= 0 {
            return Err(BacktestError::invalid("chunk size must be positive"));
        }
        proof {
            use_type_invariant(self);
        }
        let mut out: Vec<TimeWindow> = Vec::new();
        let mut cursor: i64 = self.start.0;
        while cursor < self.end.0
            invariant
                self.start.0 < self.end.0,
                self.start.0 <= cursor <= self.end.0,
                chunk_nanos > 0,
                out@.len() == 0 ==> cursor == self.start.0,
                out@.len() > 0 ==> out@[0]@.0 == self.start.0 && out@.last()@.1 == cursor,
                cursor < self.end.0 ==> forall|i: int|
                    0 <= i < out@.len() ==> length((#[trigger] out@[i])@) == chunk_nanos,
                forall|i: int|
                    0 <= i < out@.len() ==> 0 < length((#[trigger] out@[i])@) && length(out@[i]@)
                        <= chunk_nanos && (i < out@.len() - 1 ==> length(out@[i]@) == chunk_nanos),
                forall|i: int, j: int|
                    #![trigger out@[i], out@[j]]
                    0 <= i && j == i + 1 && j < out@.len() ==> out@[i]@.1 == out@[j]@.0,
            decreases self.end.0 - cursor,
        {
            let reach: i64 = saturating_sum(cursor, chunk_nanos);
            let next: i64 = if reach <= self.end.0 {
                reach
            } else {
                self.end.0
            };
            out.push(TimeWindow { start: UnixNanos(cursor), end: UnixNanos(next) });
            cursor = next;
        }
        proof {
            let parts = spans_of(out@);
            assert(out@.len() > 0);
            assert(parts.last() == out@.last()@);
            assert forall|i: int| 0 <= i < parts.len() implies 0 < length(#[trigger] parts[i])
                && length(parts[i]) <= chunk_nanos && (i < parts.len() - 1 ==> length(parts[i])
                == chunk_nanos) by {
                assert(parts[i] == out@[i]@);
            }
            assert forall|i: int, j: int|
                #![trigger parts[i], parts[j]]
                0 <= i && j == i + 1 && j < parts.len() implies parts[i].1 == parts[j].0 by {
                assert(parts[i] == out@[i]@ && parts[j] == out@[j]@);
            }
        }
        Ok(out)
    }

    /// The window as text.
    pub fn to_text(&self) -> (out: String)
        ensures
            out@ == span_text(self@),
    {
        let mut out = "[".to_owned();
        push_i64(&mut out, self.start.0);
        out.append(", ");
        push_i64(&mut out, self.end.0);
        out.append(")");
        out
    }
}

/// A span as text.
pub open spec fn span_text(span: (i64, i64)) -> Seq<char> {
    "["@ + int_text(span.0 as int) + ", "@ + int_text(span.1 as int) + ")"@
}

/// Adjacent windows share no instant: the one that ends where the other
/// begins does not hold that instant, and they do not overlap.
pub proof fn adjacent_windows_are_disjoint(a: (i64, i64), b: (i64, i64), ts: int)
    requires
        a.0 < a.1,
        b.0 < b.1,
        a.1 == b.0,
    ensures
        overlap(a, b) is None,
        !(inside(a, ts) && inside(b, ts)),
        inside(hull(a, b), ts) <==> inside(a, ts) || inside(b, ts),
{
}

/// The overlap holds exactly the instants both windows hold, and the hull
/// holds both windows.
pub proof fn overlap_and_hull(a: (i64, i64), b: (i64, i64), ts: int)
    requires
        a.0 < a.1,
        b.0 < b.1,
    ensures
        (overlap(a, b) matches Some(o) && inside(o, ts)) <==> inside(a, ts) && inside(b, ts),
        inside(a, ts) || inside(b, ts) ==> inside(hull(a, b), ts),
        overlap(a, b) == overlap(b, a),
        hull(a, b) == hull(b, a),
{
}

/// Chunks hold every instant of the window exactly once.
pub proof fn chunks_partition(parts: Seq<(i64, i64)>, whole: (i64, i64), size: int, ts: int)
    requires
        tiles(parts, whole, size),
    ensures
        inside(whole, ts) <==> exists|i: int| 0 <= i < parts.len() && inside(#[trigger] parts[i], ts),
        forall|i: int, j: int|
            #![trigger parts[i], parts[j]]
            0 <= i < j < parts.len() ==> !(inside(parts[i], ts) && inside(parts[j], ts)),
{
    assert forall|i: int, j: int|
        #![trigger parts[i], parts[j]]
        0 <= i < j < parts.len() implies parts[i].1 <= parts[j].0 by {
        chunks_in_order(parts, whole, size, i, j);
    }
    let last = parts.len() - 1;
    if inside(whole, ts) {
        let i = locate(parts, whole, size, ts, 0);
        assert(inside(parts[i], ts));
    }
    if exists|i: int| 0 <= i < parts.len() && inside(#[trigger] parts[i], ts) {
        let i = choose|i: int| 0 <= i < parts.len() && inside(#[trigger] parts[i], ts);
        if i > 0 {
            assert(parts[0].1 <= parts[i].0);
            assert(0 < length(parts[0]));
        }
        if i < last {
            assert(parts[i].1 <= parts[last].0);
            assert(0 < length(parts[last]));
        }
    }
}

proof fn chunks_in_order(parts: Seq<(i64, i64)>, whole: (i64, i64), size: int, i: int, j: int)
    requires
        tiles(parts, whole, size),
        0 <= i < j < parts.len(),
    ensures
        parts[i].1 <= parts[j].0,
    decreases j - i,
{
    assert(parts[i].1 == parts[i + 1].0);
    if i + 1 < j {
        chunks_in_order(parts, whole, size, i + 1, j);
        assert(0 < length(parts[i + 1]));
    }
}

proof fn locate(parts: Seq<(i64, i64)>, whole: (i64, i64), size: int, ts: int, from: int) -> (at:
    int)
    requires
        tiles(parts, whole, size),
        0 <= from < parts.len(),
        parts[from].0 <= ts < whole.1,
    ensures
        0 <= at < parts.len(),
        inside(parts[at], ts),
    decreases parts.len() - from,
{
    if ts < parts[from].1 {
        from
    } else {
        assert(from < parts.len() - 1) by {
            assert(parts.last() == parts[parts.len() - 1]);
        }
        assert(parts[from].1 == parts[from + 1].0);
        locate(parts, whole, size, ts, from + 1)
    }
}

/// What was asked for versus what actually arrived.
///
/// `loaded` is the window the data really spans, which may be narrower than
/// `requested` (a vendor gap, a market that started late) and is never
/// silently substituted for it.
#[derive(Clone, Copy, PartialEq, Eq, Debug, Structural)]
pub struct Coverage {
    pub requested: TimeWindow,
    pub loaded: Option<TimeWindow>,
    /// Nanoseconds inside `requested` known to be missing.
    pub missing_nanos: i64,
}

/// How much of `window` a list of gaps covers, counted gap by gap.
pub open spec fn gap_nanos(gaps: Seq<TimeWindow>, window: (i64, i64)) -> int
    decreases gaps.len(),
{
    if gaps.len() == 0 {
        0
    } else {
        gap_nanos(gaps.drop_last(), window) + match overlap(gaps.last()@, window) {
            Some(o) => length(o),
            None => 0,
        }
    }
}

/// What is missing of a request: what lies outside the loaded window, and
/// the gaps inside it.
pub open spec fn missing_of(requested: (i64, i64), loaded: (i64, i64), gaps: Seq<TimeWindow>) -> int {
    match overlap(loaded, requested) {
        Some(w) => length(requested) - length(w) + gap_nanos(gaps, w),
        None => length(requested),
    }
}

/// `x` brought into `[low, high]`.
pub open spec fn clamped(x: int, low: int, high: int) -> int {
    if x < low {
        low
    } else if x > high {
        high
    } else {
        x
    }
}

proof fn gap_nanos_grow(gaps: Seq<TimeWindow>, window: (i64, i64), n: int)
    requires
        0 <= n <= gaps.len(),
    ensures
        0 <= gap_nanos(gaps.take(n), window) <= gap_nanos(gaps, window),
    decreases gaps.len(), gaps.len() - n,
{
    if n < gaps.len() {
        gap_nanos_grow(gaps.drop_last(), window, n);
        assert(gaps.drop_last().take(n) =~= gaps.take(n));
    } else {
        assert(gaps.take(n) =~= gaps);
        if n > 0 {
            gap_nanos_grow(gaps.drop_last(), window, n - 1);
            assert(gaps.drop_last().take(n - 1) =~= gaps.drop_last());
        }
    }
}

impl Coverage {
    /// Nothing loaded for this request.
    pub fn empty(requested: TimeWindow) -> (r: Self)
        requires
            fits(length(requested@)),
        ensures
            r.requested == requested,
            r.loaded is None,
            r.missing_nanos == length(requested@),
    {
        Coverage { requested, loaded: None, missing_nanos: requested.duration_nanos() }
    }

    /// Everything asked for arrived.
    pub fn complete(requested: TimeWindow) -> (r: Self)
        ensures
            r.requested == requested,
            r.loaded == Some(requested),
            r.missing_nanos == 0,
    {
        Coverage { requested, loaded: Some(requested), missing_nanos: 0 }
    }

    /// A partial load, with explicit holes.
    ///
    /// `gaps` are windows inside `requested` known to be absent; they are
    /// clipped to the request and to the loaded span before counting, so a
    /// caller reporting a gap that reaches outside the request cannot push
    /// coverage negative.
    pub fn partial(requested: TimeWindow, loaded: TimeWindow, gaps: &[TimeWindow]) -> (r: Self)
        requires
            fits(length(requested@)),
            fits(missing_of(requested@, loaded@, gaps@)),
        ensures
            r.requested == requested,
            match r.loaded {
                Some(w) => overlap(loaded@, requested@) == Some(w@),
                None => overlap(loaded@, requested@) is None,
            },
            r.missing_nanos == clamped(
                missing_of(requested@, loaded@, gaps@),
                0,
                length(requested@),
            ),
    {
        let clipped = loaded.intersect(requested);
        let total: i64 = requested.duration_nanos();
        let mut missing: i64 = match clipped {
            Some(window) => total - window.duration_nanos(),
            None => total,
        };
        if let Some(window) = clipped {
            let n: usize = gaps.len();
            let mut i: usize = 0;
            while i < n
                invariant
                    n == gaps@.len(),
                    i <= n,
                    overlap(loaded@, requested@) == Some(window@),
                    fits(length(requested@)),
                    total == length(requested@),
                    fits(missing_of(requested@, loaded@, gaps@)),
                    missing == length(requested@) - length(window@) + gap_nanos(
                        gaps@.take(i as int),
                        window@,
                    ),
                    missing >= 0,
                decreases n - i,
            {
                proof {
                    gap_nanos_grow(gaps@, window@, i + 1);
                    assert(gaps@.take(i + 1).drop_last() =~= gaps@.take(i as int));
                }
                if let Some(o) = gaps[i].intersect(window) {
                    missing = missing + o.duration_nanos();
                }
                i += 1;
            }
            assert(gaps@.take(n as int) =~= gaps@);
        }
        let missing_nanos: i64 = if missing < 0 {
            0
        } else if missing > total {
            total
        } else {
            missing
        };
        Coverage { requested, loaded: clipped, missing_nanos }
    }

    /// How much of the request is covered, out of how much was asked for, in
    /// nanoseconds. The first never exceeds the second.
    pub fn covered_nanos(self) -> (r: (i64, i64))
        requires
            fits(length(self.requested@)),
            0 <= self.missing_nanos,
        ensures
            r.1 == length(self.requested@),
            r.0 == (if self.missing_nanos >= r.1 {
                0
            } else {
                r.1 - self.missing_nanos
            }),
            0 <= r.0 <= r.1,
    {
        let total: i64 = self.requested.duration_nanos();
        let covered: i64 = if self.missing_nanos >= total {
            0
        } else {
            total - self.missing_nanos
        };
        (covered, total)
    }

    pub fn is_complete(self) -> (r: bool)
        ensures
            r == (self.missing_nanos == 0 && (self.loaded matches Some(w) && w@ == self.requested@)),
    {
        match self.loaded {
            Some(w) => self.missing_nanos == 0 && w.start.0 == self.requested.start.0 && w.end.0
                == self.requested.end.0,
            None => false,
        }
    }
}

/// What is missing of a request is what lies outside what was loaded and what
/// the gaps take of the rest: nothing exactly where the whole of it was
/// loaded without a gap in it, and all of it where none was loaded.
pub proof fn what_is_missing_was_not_loaded(requested: (i64, i64), loaded: (i64, i64))
    requires
        requested.0 < requested.1,
        loaded.0 < loaded.1,
    ensures
        missing_of(requested, loaded, Seq::empty()) == 0 <==> loaded.0 <= requested.0
            && requested.1 <= loaded.1,
        0 <= missing_of(requested, loaded, Seq::empty()) <= requested.1 - requested.0,
        loaded.1 <= requested.0 || requested.1 <= loaded.0 ==> missing_of(
            requested,
            loaded,
            Seq::empty(),
        ) == requested.1 - requested.0,
        requested.0 <= loaded.0 && loaded.1 <= requested.1 ==> missing_of(
            requested,
            loaded,
            Seq::empty(),
        ) == (requested.1 - requested.0) - (loaded.1 - loaded.0),
{
    assert(gap_nanos(Seq::empty(), loaded) == 0);
}

/// Gaps are counted one by one, each for as much of it as lies in the window.
pub proof fn gaps_add_up(gaps: Seq<TimeWindow>, window: (i64, i64))
    requires
        gaps.len() > 0,
    ensures
        ({
            let gap = gaps.last()@;
            let start = if gap.0 > window.0 {
                gap.0
            } else {
                window.0
            };
            let end = if gap.1 < window.1 {
                gap.1
            } else {
                window.1
            };
            gap_nanos(gaps, window) - gap_nanos(gaps.drop_last(), window) == if start < end {
                end - start
            } else {
                0
            }
        }),
{
}

/// What is brought into a range ends in it, at the nearest end where it was
/// outside and as it was where it was not.
pub proof fn clamping_ends_in_the_range(x: int, low: int, high: int)
    requires
        low <= high,
    ensures
        low <= clamped(x, low, high) <= high,
        low <= x <= high ==> clamped(x, low, high) == x,
        x <= low ==> clamped(x, low, high) == low,
        x >= high ==> clamped(x, low, high) == high,
{
}

} // verus!
