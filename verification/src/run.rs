//! What a run is, and what it amounts to.
//!
//! The order of operations is the look-ahead guarantee. Market data is read
//! before the run; **resolutions are read after it**, by the settlement step
//! alone. There is no point in the sequence at which the strategy could
//! reach the answer, because at the time it runs the answer has not been
//! loaded.

use vstd::prelude::*;
use vstd::string::*;
use vstd::utf8::*;

use crate::builder::{PlainBuilder, PlainEngine};
use crate::checks::text_of;
use crate::engine::DEFAULT_EQUITY_INTERVAL_NANOS;
use crate::error::{says, BacktestError};
use crate::event::Record;
use crate::instrument::{InstrumentId, InstrumentSet, OutcomeId};
use crate::kernel::RunResult;
use crate::metrics::silence;
use crate::order::{clone_text, Order, OrderStatus};
use crate::ordered::{
    entries_map_contains, OrderedKey, SortedMap,
};
use crate::position::{folded, open_among, KeyView, Portfolio, Position, PositionKey};
use crate::replay::priority;
use crate::replay::{declared_lane, primed, sound_items, Lane, ListSource, Replay};
use crate::request::{set_kind_text, Forecast, SetOperation};
use crate::settlement::{
    disagrees, first_disagreement, pays, resolved_once, settle, settlement_of, tells_apart,
    unsettled_text, validate_resolutions, ReportView, Resolution, SettlementReport,
};
use crate::text::{debug_of, debug_text, int_text, push_i64, push_u64};
use crate::types::{Money, Price, UnixNanos};
use crate::window::{length, missing_of, clamped, overlap, Coverage, TimeWindow};

verus! {

/// The point in a store's history a run reads from.
///
/// A pinned run is reproducible; an unpinned one is recorded as such. Prefer
/// a snapshot or an instant: those name one point across every table. A
/// version is a *per-table* concept, so applying one number to a whole run
/// only means something when the tables genuinely share a history.
#[derive(PartialEq, Eq, Debug)]
pub enum ReadAt {
    Latest,
    Version(u64),
    Snapshot(String),
    AsOf(i64),
}

/// How a read point is written down.
pub open spec fn read_at_text(at: ReadAt) -> Seq<char> {
    match at {
        ReadAt::Latest => "Latest"@,
        ReadAt::Version(n) => "Version("@ + int_text(n as int) + ")"@,
        ReadAt::Snapshot(name) => "Snapshot("@ + debug_text(name@) + ")"@,
        ReadAt::AsOf(ts) => "AsOf("@ + int_text(ts as int) + ")"@,
    }
}

impl ReadAt {
    pub fn to_text(&self) -> (r: String)
        ensures
            r@ == read_at_text(*self),
    {
        match self {
            ReadAt::Latest => "Latest".to_owned(),
            ReadAt::Version(n) => {
                let mut m = "Version(".to_owned();
                push_u64(&mut m, *n);
                m.append(")");
                m
            },
            ReadAt::Snapshot(name) => {
                let mut m = "Snapshot(".to_owned();
                m.append(debug_of(name.as_str()).as_str());
                m.append(")");
                m
            },
            ReadAt::AsOf(ts) => {
                let mut m = "AsOf(".to_owned();
                push_i64(&mut m, *ts);
                m.append(")");
                m
            },
        }
    }
}

/// A signed number as eight bytes hold it.
pub open spec fn unsigned(n: i64) -> int {
    if n < 0 {
        n + 0x1_0000_0000_0000_0000
    } else {
        n as int
    }
}

/// The lowest bytes of a number, lowest first.
pub open spec fn le_bytes(n: int, count: nat) -> Seq<u8>
    decreases count,
{
    if count == 0 {
        Seq::empty()
    } else {
        seq![(n % 256) as u8] + le_bytes(n / 256, (count - 1) as nat)
    }
}

fn push_number(out: &mut Vec<u8>, n: i64)
    ensures
        final(out)@ == old(out)@ + le_bytes(unsigned(n), 8),
{
    let ghost start = out@;
    let mut left: u128 = if n < 0 {
        (n as i128 + 0x1_0000_0000_0000_0000) as u128
    } else {
        n as u128
    };
    let ghost all = le_bytes(left as int, 8);
    let mut i: usize = 0;
    while i < 8
        invariant
            i <= 8,
            out@ + le_bytes(left as int, (8 - i) as nat) =~= start + all,
        decreases 8 - i,
    {
        let ghost before = out@;
        let ghost rest = le_bytes(left as int, (8 - i) as nat);
        let byte: u8 = (left % 256) as u8;
        out.push(byte);
        proof {
            let shorter = le_bytes(left as int / 256, (8 - i - 1) as nat);
            assert(rest == seq![byte] + shorter);
            assert(before + rest =~= before.push(byte) + shorter);
        }
        left = left / 256;
        i += 1;
    }
}

fn push_bytes(out: &mut Vec<u8>, bytes: &[u8])
    ensures
        final(out)@ == old(out)@ + bytes@,
{
    let ghost start = out@;
    let mut i: usize = 0;
    while i < bytes.len()
        invariant
            i <= bytes@.len(),
            out@ == start + bytes@.take(i as int),
        decreases bytes@.len() - i,
    {
        out.push(bytes[i]);
        assert(bytes@.take(i + 1) =~= bytes@.take(i as int).push(bytes@[i as int]));
        assert(out@ =~= start + bytes@.take(i + 1));
        i += 1;
    }
    assert(bytes@.take(i as int) =~= bytes@);
}

/// The BLAKE3 hash of some bytes.
pub uninterp spec fn blake3_of(input: Seq<u8>) -> Seq<u8>;

/// `blake3::hash`: the default BLAKE3 hash of the input, thirty-two bytes
/// long. The hash is a function of the bytes alone.
#[verifier::external_body]
pub(crate) fn blake3_hash(input: &[u8]) -> (r: Vec<u8>)
    ensures
        r@ == blake3_of(input@),
        r@.len() == 32,
{
    blake3::hash(input).as_bytes().to_vec()
}

/// One hexadecimal digit, in lower case.
pub open spec fn hex_char(d: int) -> char {
    if d < 10 {
        crate::text::digit_char(d as nat)
    } else if d == 10 {
        'a'
    } else if d == 11 {
        'b'
    } else if d == 12 {
        'c'
    } else if d == 13 {
        'd'
    } else if d == 14 {
        'e'
    } else {
        'f'
    }
}

/// Bytes in lower-case hexadecimal, two digits each.
pub open spec fn hex_text(bytes: Seq<u8>) -> Seq<char>
    decreases bytes.len(),
{
    if bytes.len() == 0 {
        Seq::empty()
    } else {
        hex_text(bytes.drop_last()).push(hex_char(bytes.last() as int / 16)).push(
            hex_char(bytes.last() as int % 16),
        )
    }
}

fn hex_digit(d: u8) -> (c: char)
    requires
        d < 16,
    ensures
        c == hex_char(d as int),
{
    match d {
        0 => '0',
        1 => '1',
        2 => '2',
        3 => '3',
        4 => '4',
        5 => '5',
        6 => '6',
        7 => '7',
        8 => '8',
        9 => '9',
        10 => 'a',
        11 => 'b',
        12 => 'c',
        13 => 'd',
        14 => 'e',
        _ => 'f',
    }
}

fn to_hex(bytes: &Vec<u8>) -> (r: String)
    ensures
        r@ == hex_text(bytes@),
{
    let mut out = "".to_owned();
    proof {
        reveal_strlit("");
        assert(out@ =~= Seq::<char>::empty());
        assert(bytes@.take(0) =~= Seq::<u8>::empty());
    }
    let mut i: usize = 0;
    while i < bytes.len()
        invariant
            i <= bytes@.len(),
            out@ == hex_text(bytes@.take(i as int)),
        decreases bytes@.len() - i,
    {
        let b: u8 = bytes[i];
        proof {
            assert(bytes@.take(i + 1).drop_last() =~= bytes@.take(i as int));
            assert(bytes@.take(i + 1).last() == b);
        }
        out.push(hex_digit(b / 16));
        out.push(hex_digit(b % 16));
        i += 1;
    }
    assert(bytes@.take(i as int) =~= bytes@);
    out
}

/// What to run, and over what.
#[derive(PartialEq, Eq, Debug)]
pub struct RunSpec {
    /// Names the fork the run lives on, and its row among the runs.
    pub run_id: String,
    /// The slice of history to replay. `None` replays everything available.
    pub window: Option<TimeWindow>,
    pub starting_cash: Money,
    /// The read point for market data.
    pub read_at: ReadAt,
    /// Equity curve resolution, in nanoseconds of simulated time.
    pub equity_interval_nanos: i64,
    /// How the execution model was configured, as the caller describes it.
    ///
    /// Two runs identical here but priced under different fee curves are
    /// different computations, so whoever assembles the models records them
    /// as a text, and `digest` folds it in. `None` says only that the caller
    /// did not describe its models.
    pub execution_fingerprint: Option<String>,
}

/// What a digest is taken of: everything a run is told but its name.
pub open spec fn digest_input(spec: RunSpec) -> Seq<u8> {
    le_bytes(unsigned(spec.starting_cash.0), 8) + le_bytes(unsigned(spec.equity_interval_nanos), 8)
        + (match spec.window {
        Some(window) => seq![119u8] + le_bytes(unsigned(window@.0), 8) + le_bytes(
            unsigned(window@.1),
            8,
        ),
        None => seq![45u8],
    }) + encode_utf8(read_at_text(spec.read_at)) + (match spec.execution_fingerprint {
        Some(fingerprint) => seq![120u8] + encode_utf8(fingerprint@),
        None => seq![45u8],
    })
}

/// A run is identified by its inputs: the same computation under another
/// name has the same digest.
pub proof fn digest_ignores_the_name(a: RunSpec, b: RunSpec)
    requires
        b == (RunSpec { run_id: b.run_id, ..a }),
    ensures
        hex_text(blake3_of(digest_input(a))) == hex_text(blake3_of(digest_input(b))),
{
}

impl RunSpec {
    pub fn new(run_id: &str, starting_cash: Money) -> (r: Self)
        ensures
            r.run_id@ == run_id@,
            r == (RunSpec {
                run_id: r.run_id,
                window: None,
                starting_cash,
                read_at: ReadAt::Latest,
                equity_interval_nanos: DEFAULT_EQUITY_INTERVAL_NANOS,
                execution_fingerprint: None,
            }),
    {
        RunSpec {
            run_id: run_id.to_owned(),
            window: None,
            starting_cash,
            read_at: ReadAt::Latest,
            equity_interval_nanos: DEFAULT_EQUITY_INTERVAL_NANOS,
            execution_fingerprint: None,
        }
    }

    /// Record how the execution model was configured, so `digest` covers it.
    pub fn execution_fingerprint(self, fingerprint: &str) -> (r: Self)
        ensures
            r == (RunSpec { execution_fingerprint: r.execution_fingerprint, ..self }),
            text_of(r.execution_fingerprint) == Some(fingerprint@),
    {
        RunSpec { execution_fingerprint: Some(fingerprint.to_owned()), ..self }
    }

    pub fn window(self, window: TimeWindow) -> (r: Self)
        ensures
            r == (RunSpec { window: Some(window), ..self }),
    {
        RunSpec { window: Some(window), ..self }
    }

    pub fn read_at(self, at: ReadAt) -> (r: Self)
        ensures
            r == (RunSpec { read_at: at, ..self }),
    {
        RunSpec { read_at: at, ..self }
    }

    pub fn equity_interval_nanos(self, nanos: i64) -> (r: Self)
        ensures
            r == (RunSpec { equity_interval_nanos: nanos, ..self }),
    {
        RunSpec { equity_interval_nanos: nanos, ..self }
    }

    /// The fork this run's results live on.
    pub fn fork_name(&self) -> (r: String)
        ensures
            r@ == "bt-"@ + self.run_id@,
    {
        let mut m = "bt-".to_owned();
        m.append(self.run_id.as_str());
        m
    }

    /// The bytes the digest is taken of.
    pub fn digest_bytes(&self) -> (out: Vec<u8>)
        ensures
            out@ == digest_input(*self),
    {
        let mut out: Vec<u8> = Vec::new();
        push_number(&mut out, self.starting_cash.0);
        push_number(&mut out, self.equity_interval_nanos);
        let ghost head = out@;
        match self.window {
            Some(window) => {
                out.push(119);
                push_number(&mut out, window.start().0);
                push_number(&mut out, window.end().0);
                assert(out@ =~= head + (seq![119u8] + le_bytes(unsigned(window@.0), 8) + le_bytes(
                    unsigned(window@.1),
                    8,
                )));
            },
            None => {
                out.push(45);
                assert(out@ =~= head + seq![45u8]);
            },
        }
        let text = self.read_at.to_text();
        push_bytes(&mut out, text.as_str().as_bytes());
        let ghost most = out@;
        match &self.execution_fingerprint {
            Some(fingerprint) => {
                out.push(120);
                push_bytes(&mut out, fingerprint.as_str().as_bytes());
                assert(out@ =~= most + (seq![120u8] + encode_utf8(fingerprint@)));
            },
            None => {
                out.push(45);
                assert(out@ =~= most + seq![45u8]);
            },
        }
        assert(le_bytes(unsigned(self.starting_cash.0), 8) =~= Seq::<u8>::empty() + le_bytes(
            unsigned(self.starting_cash.0),
            8,
        ));
        out
    }

    /// A stable hash of what this spec says about the computation.
    ///
    /// Deliberately *not* keyed on `run_id`: a run is identified by its
    /// inputs, so re-running the same computation under a new name has to
    /// land on the same digest or the ledger cannot recognise it.
    pub fn digest(&self) -> (r: String)
        ensures
            r@ == hex_text(blake3_of(digest_input(*self))),
    {
        let bytes = self.digest_bytes();
        to_hex(&blake3_hash(bytes.as_slice()))
    }
}

/// One scored forecast: what the strategy said, what the market said, and
/// what happened.
///
/// It is assembled *after* the run, from the forecasts the strategy stated
/// during it and the resolutions loaded once it had finished, so producing
/// it cannot be a route by which the answer reaches the strategy.
#[derive(PartialEq, Eq, Debug)]
pub struct CalibrationSample {
    pub ts: UnixNanos,
    pub instrument: InstrumentId,
    pub outcome: OutcomeId,
    /// What the strategy said the probability was.
    pub forecast: Price,
    /// What the market said at the same instant, where a book was quoting.
    pub market: Option<Price>,
    /// What the outcome paid: one, zero, or a fraction for a partial
    /// settlement.
    pub realized: Price,
    /// The strategy's own label for this forecast, if it set one.
    pub tag: Option<String>,
}

/// Why a stated forecast could not be scored.
#[derive(PartialEq, Eq, Debug)]
pub struct UnscoredForecast {
    pub instrument: InstrumentId,
    pub outcome: OutcomeId,
    pub reason: String,
    pub count: usize,
}

/// The place of the last resolution of one market in a list.
pub open spec fn last_for(resolutions: Seq<Resolution>, instrument: Seq<char>) -> Option<int>
    decreases resolutions.len(),
{
    if resolutions.len() == 0 {
        None
    } else if resolutions.last().instrument@ == instrument {
        Some(resolutions.len() - 1)
    } else {
        last_for(resolutions.drop_last(), instrument)
    }
}

/// Why a forecast cannot be scored, where it cannot.
pub open spec fn unscored_reason(resolutions: Seq<Resolution>, instrument: Seq<char>) -> Option<
    Seq<char>,
> {
    match last_for(resolutions, instrument) {
        None => Some("this market has no known resolution"@),
        Some(i) => if tells_apart(resolutions[i].payout@) {
            None
        } else {
            Some(
                "this market paid every outcome the same, so any forecast scores identically against it"@,
            )
        },
    }
}

/// A forecast scored.
pub open spec fn scored(resolutions: Seq<Resolution>, f: Forecast) -> CalibrationSample {
    CalibrationSample {
        ts: f.ts,
        instrument: f.instrument,
        outcome: f.outcome,
        forecast: f.probability,
        market: f.market,
        realized: pays(
            resolutions[last_for(resolutions, f.instrument@)->Some_0].payout@,
            f.outcome,
        ),
        tag: f.tag,
    }
}

/// The forecasts worth scoring, scored, in the order they were stated.
pub open spec fn samples_of(resolutions: Seq<Resolution>, forecasts: Seq<Forecast>) -> Seq<
    CalibrationSample,
>
    decreases forecasts.len(),
{
    if forecasts.len() == 0 {
        Seq::empty()
    } else {
        let rest = samples_of(resolutions, forecasts.drop_last());
        let f = forecasts.last();
        if unscored_reason(resolutions, f.instrument@) is None {
            rest.push(scored(resolutions, f))
        } else {
            rest
        }
    }
}

/// How many forecasts on one outcome could not be scored.
pub open spec fn unscored_count(
    resolutions: Seq<Resolution>,
    forecasts: Seq<Forecast>,
    key: KeyView,
) -> nat
    decreases forecasts.len(),
{
    if forecasts.len() == 0 {
        0
    } else {
        let f = forecasts.last();
        unscored_count(resolutions, forecasts.drop_last(), key) + if (
            f.instrument@,
            f.outcome.0,
        ) == key && unscored_reason(resolutions, f.instrument@) is Some {
            1nat
        } else {
            0nat
        }
    }
}

proof fn unscored_at_most(resolutions: Seq<Resolution>, forecasts: Seq<Forecast>, key: KeyView)
    ensures
        unscored_count(resolutions, forecasts, key) <= forecasts.len(),
    decreases forecasts.len(),
{
    if forecasts.len() > 0 {
        unscored_at_most(resolutions, forecasts.drop_last(), key);
    }
}

/// The unscored forecasts of a run: one entry for each outcome that has any,
/// in key order, with how many and why.
pub open spec fn unscored_of(
    resolutions: Seq<Resolution>,
    forecasts: Seq<Forecast>,
    out: Seq<UnscoredForecast>,
) -> bool {
    &&& forall|i: int, j: int|
        #![trigger out[i], out[j]]
        0 <= i < j < out.len() ==> PositionKey::before(
            (out[i].instrument@, out[i].outcome.0),
            (out[j].instrument@, out[j].outcome.0),
        )
    &&& forall|i: int|
        0 <= i < out.len() ==> {
            let u = #[trigger] out[i];
            &&& u.count > 0
            &&& u.count == unscored_count(
                resolutions,
                forecasts,
                (u.instrument@, u.outcome.0),
            )
            &&& unscored_reason(resolutions, u.instrument@) == Some(u.reason@)
        }
    &&& forall|key: KeyView|
        #[trigger] unscored_count(resolutions, forecasts, key) > 0 ==> names_key(out, key)
}

/// Whether an outcome is among the unscored.
pub open spec fn names_key(out: Seq<UnscoredForecast>, key: KeyView) -> bool {
    exists|i: int|
        0 <= i < out.len() && (#[trigger] out[i]).instrument@ == key.0 && out[i].outcome.0 == key.1
}

/// Everything a finished run produced.
#[derive(Debug)]
pub struct RunReport {
    pub run_id: String,
    pub fork: String,
    pub digest: String,
    pub result: RunResult,
    pub settlement: SettlementReport,
    pub coverage: Option<Coverage>,
    pub instruments: InstrumentSet,
    /// How the markets this run traded ended. Loaded after the run, and
    /// carried here so a report can score forecasts and attribute
    /// settlement without a second read.
    pub resolutions: Vec<Resolution>,
}

/// How many orders were cancelled without filling.
pub open spec fn never_filled(orders: Seq<Order>) -> nat
    decreases orders.len(),
{
    if orders.len() == 0 {
        0
    } else {
        never_filled(orders.drop_last()) + if orders.last().status is Cancelled
            && orders.last().filled.0 == 0 {
            1nat
        } else {
            0nat
        }
    }
}

proof fn never_filled_at_most(orders: Seq<Order>)
    ensures
        never_filled(orders) <= orders.len(),
    decreases orders.len(),
{
    if orders.len() > 0 {
        never_filled_at_most(orders.drop_last());
    }
}

/// The texts of a list.
pub open spec fn texts(list: Seq<String>) -> Seq<Seq<char>> {
    list.map_values(|s: String| s@)
}

/// What is said of each position left open.
pub open spec fn unsettled_lines(unsettled: Seq<(InstrumentId, OutcomeId, String)>) -> Seq<
    Seq<char>,
> {
    unsettled.map_values(|u: (InstrumentId, OutcomeId, String)| unsettled_text(u))
}

/// What is said of each set operation the venue refused.
pub open spec fn refused_lines(operations: Seq<SetOperation>) -> Seq<Seq<char>>
    decreases operations.len(),
{
    if operations.len() == 0 {
        Seq::empty()
    } else {
        let rest = refused_lines(operations.drop_last());
        let op = operations.last();
        match op.rejected {
            Some(reason) => rest.push(
                "a "@ + set_kind_text(op.kind) + " of "@ + op.instrument@ + " was refused: "@
                    + reason@,
            ),
            None => rest,
        }
    }
}

/// What is said of forecasts that were not scored.
pub open spec fn unscored_line(u: UnscoredForecast) -> Seq<char> {
    int_text(u.count as int) + " forecast(s) on "@ + u.instrument@ + " outcome "@ + int_text(
        u.outcome.0 as int,
    ) + " were not scored: "@ + u.reason@
}

/// Whether data fell short of the window asked for.
pub open spec fn falls_short(coverage: Option<Coverage>) -> bool {
    match coverage {
        None => false,
        Some(c) => !(c.missing_nanos == 0 && (c.loaded matches Some(w) && w@ == c.requested@)),
    }
}

/// The warnings that come before those on forecasts.
pub open spec fn early_warnings(report: RunReport, covered: Seq<char>) -> Seq<Seq<char>> {
    let unfilled = never_filled(report.result.orders@);
    unsettled_lines(report.settlement.unsettled@) + (if unfilled > 0 {
        seq![
            int_text(unfilled as int)
                + " order(s) were cancelled without filling; the usual cause is acting before the instrument's first book update, or a limit the book never reached"@,
        ]
    } else {
        Seq::empty()
    }) + (match silence(report.result.metrics) {
        Some(reason) => seq![reason],
        None => Seq::empty(),
    }) + (if falls_short(report.coverage) {
        seq!["data covered "@ + covered + "% of the requested window"@]
    } else {
        Seq::empty()
    })
}

/// Everything a reader must see, in order.
pub open spec fn warns(
    report: RunReport,
    covered: Seq<char>,
    unscored: Seq<UnscoredForecast>,
    out: Seq<Seq<char>>,
) -> bool {
    &&& unscored_of(report.resolutions@, report.result.forecasts@, unscored)
    &&& out == early_warnings(report, covered) + unscored.map_values(
        |u: UnscoredForecast| unscored_line(u),
    ) + refused_lines(report.result.set_operations@)
}

fn find_last(resolutions: &Vec<Resolution>, instrument: &InstrumentId) -> (r: Option<usize>)
    ensures
        match r {
            Some(i) => i < resolutions@.len() && last_for(resolutions@, instrument@) == Some(
                i as int,
            ),
            None => last_for(resolutions@, instrument@) is None,
        },
{
    let mut i: usize = resolutions.len();
    assert(resolutions@.take(i as int) =~= resolutions@);
    while i > 0
        invariant
            i <= resolutions@.len(),
            last_for(resolutions@, instrument@) == last_for(
                resolutions@.take(i as int),
                instrument@,
            ),
        decreases i,
    {
        proof {
            assert(resolutions@.take(i as int).last() == resolutions@[i - 1]);
            assert(resolutions@.take(i as int).drop_last() =~= resolutions@.take(i - 1));
        }
        if resolutions[i - 1].instrument == *instrument {
            return Some(i - 1);
        }
        i -= 1;
    }
    None
}

proof fn last_is_listed(resolutions: Seq<Resolution>, instrument: Seq<char>)
    ensures
        last_for(resolutions, instrument) matches Some(i) ==> 0 <= i < resolutions.len()
            && resolutions[i].instrument@ == instrument,
    decreases resolutions.len(),
{
    if resolutions.len() > 0 {
        last_is_listed(resolutions.drop_last(), instrument);
    }
}

/// Why a forecast on one market cannot be scored, where it cannot.
fn reason_not_to_score(resolutions: &Vec<Resolution>, instrument: &InstrumentId) -> (r: Option<
    &'static str,
>)
    ensures
        match r {
            Some(reason) => unscored_reason(resolutions@, instrument@) == Some(reason@),
            None => unscored_reason(resolutions@, instrument@) is None,
        },
{
    match find_last(resolutions, instrument) {
        None => Some("this market has no known resolution"),
        Some(i) => if resolutions[i].payout.is_informative() {
            None
        } else {
            Some(
                "this market paid every outcome the same, so any forecast scores identically against it",
            )
        },
    }
}

impl RunReport {
    /// The scored forecasts this run produced.
    ///
    /// Two kinds of forecast are dropped rather than scored, and both are
    /// reported by `unscored_forecasts`, so the sample size is never silently
    /// smaller than the strategy thinks. A market with no known resolution
    /// has no outcome to score against. A market that paid every outcome the
    /// same scores every forecast identically no matter what it said.
    pub fn calibration_samples(&self) -> (out: Vec<CalibrationSample>)
        ensures
            out@ == samples_of(self.resolutions@, self.result.forecasts@),
    {
        let ghost all = self.result.forecasts@;
        let mut out: Vec<CalibrationSample> = Vec::new();
        let mut i: usize = 0;
        assert(all.take(0) =~= Seq::<Forecast>::empty());
        while i < self.result.forecasts.len()
            invariant
                i <= all.len(),
                all == self.result.forecasts@,
                out@ == samples_of(self.resolutions@, all.take(i as int)),
            decreases all.len() - i,
        {
            let forecast = &self.result.forecasts[i];
            proof {
                assert(all.take(i + 1).drop_last() =~= all.take(i as int));
                assert(all.take(i + 1).last() == *forecast);
            }
            if let Some(k) = find_last(&self.resolutions, &forecast.instrument) {
                let resolution = &self.resolutions[k];
                if resolution.payout.is_informative() {
                    out.push(
                        CalibrationSample {
                            ts: forecast.ts,
                            instrument: forecast.instrument.clone(),
                            outcome: forecast.outcome,
                            forecast: forecast.probability,
                            market: forecast.market,
                            realized: resolution.settlement_price(forecast.outcome),
                            tag: clone_text(&forecast.tag),
                        },
                    );
                }
            }
            i += 1;
        }
        assert(all.take(i as int) =~= all);
        out
    }

    /// Forecasts that could not be scored, grouped by market and outcome.
    pub fn unscored_forecasts(&self) -> (out: Vec<UnscoredForecast>)
        ensures
            unscored_of(self.resolutions@, self.result.forecasts@, out@),
            samples_of(self.resolutions@, self.result.forecasts@).len() + unscored_total(out@)
                == self.result.forecasts@.len(),
    {
        let ghost all = self.result.forecasts@;
        let ghost res = self.resolutions@;
        let mut grouped: SortedMap<PositionKey, (String, usize)> = SortedMap::new();
        let mut i: usize = 0;
        assert(all.take(0) =~= Seq::<Forecast>::empty());
        while i < self.result.forecasts.len()
            invariant
                i <= all.len(),
                all == self.result.forecasts@,
                res == self.resolutions@,
                grouped.wf(),
                forall|key: KeyView|
                    grouped@.dom().contains(key) <==> #[trigger] unscored_count(
                        res,
                        all.take(i as int),
                        key,
                    ) > 0,
                forall|key: KeyView| #[trigger]
                    grouped@.dom().contains(key) ==> grouped@[key].1 == unscored_count(
                        res,
                        all.take(i as int),
                        key,
                    ) && unscored_reason(res, key.0) == Some(grouped@[key].0@),
            decreases all.len() - i,
        {
            let forecast = &self.result.forecasts[i];
            let ghost before = grouped@;
            let ghost short = all.take(i as int);
            let ghost long = all.take(i + 1);
            proof {
                assert(long.drop_last() =~= short);
                assert(long.last() == *forecast);
            }
            if let Some(reason) = reason_not_to_score(&self.resolutions, &forecast.instrument) {
                let key = (forecast.instrument.clone(), forecast.outcome);
                let ghost at: KeyView = key@;
                proof {
                    unscored_at_most(res, short, at);
                }
                let (text, count): (String, usize) = match grouped.get(&key) {
                    Some(entry) => (entry.0.clone(), entry.1 + 1),
                    None => (reason.to_owned(), 1),
                };
                grouped.insert(key, (text, count));
                proof {
                    assert forall|k: KeyView|
                        grouped@.dom().contains(k) <==> #[trigger] unscored_count(res, long, k)
                            > 0 by {
                        assert(before.dom().contains(k) <==> unscored_count(res, short, k) > 0);
                    }
                    assert forall|k: KeyView| #[trigger] grouped@.dom().contains(
                        k,
                    ) implies grouped@[k].1 == unscored_count(res, long, k) && unscored_reason(
                        res,
                        k.0,
                    ) == Some(grouped@[k].0@) by {
                        if k != at {
                            assert(before.dom().contains(k));
                        }
                        assert(before.dom().contains(k) <==> unscored_count(res, short, k) > 0);
                    }
                }
            } else {
                proof {
                    assert forall|k: KeyView| #[trigger] unscored_count(res, long, k)
                        == unscored_count(res, short, k) by {}
                    assert forall|k: KeyView|
                        grouped@.dom().contains(k) <==> #[trigger] unscored_count(res, long, k)
                            > 0 by {
                        assert(before.dom().contains(k) <==> unscored_count(res, short, k) > 0);
                    }
                }
            }
            i += 1;
        }
        assert(all.take(i as int) =~= all);
        let ghost entries = grouped.seq();
        proof {
            entries_map_contains(entries);
        }
        let mut out: Vec<UnscoredForecast> = Vec::new();
        let n: usize = grouped.len();
        let mut j: usize = 0;
        while j < n
            invariant
                n == entries.len(),
                j <= n,
                entries == grouped.seq(),
                out@.len() == j,
                forall|k: int|
                    0 <= k < j ==> {
                        &&& (#[trigger] out@[k]).instrument == entries[k].0.0
                        &&& out@[k].outcome == entries[k].0.1
                        &&& out@[k].reason == entries[k].1.0
                        &&& out@[k].count == entries[k].1.1
                    },
            decreases n - j,
        {
            let key = grouped.key_at(j);
            let value = grouped.value_at(j);
            out.push(
                UnscoredForecast {
                    instrument: key.0.clone(),
                    outcome: key.1,
                    reason: value.0.clone(),
                    count: value.1,
                },
            );
            j += 1;
        }
        proof {
            assert forall|a: int, b: int|
                #![trigger out@[a], out@[b]]
                0 <= a < b < out@.len() implies PositionKey::before(
                (out@[a].instrument@, out@[a].outcome.0),
                (out@[b].instrument@, out@[b].outcome.0),
            ) by {
                assert(PositionKey::before(entries[a].0@, entries[b].0@));
            }
            assert forall|k: int| 0 <= k < out@.len() implies {
                let u = #[trigger] out@[k];
                &&& u.count > 0
                &&& u.count == unscored_count(res, all, (u.instrument@, u.outcome.0))
                &&& unscored_reason(res, u.instrument@) == Some(u.reason@)
            } by {
                let key = entries[k].0@;
                assert(grouped@.dom().contains(key));
                assert(unscored_count(res, all, key) > 0);
            }
            assert forall|key: KeyView| #[trigger] unscored_count(res, all, key)
                > 0 implies names_key(out@, key) by {
                assert(grouped@.dom().contains(key));
                let k = choose|k: int| 0 <= k < entries.len() && (#[trigger] entries[k]).0@ == key;
                assert(out@[k].instrument@ == key.0);
            }
        }
        proof {
            scored_and_unscored_are_all(res, all, out@);
        }
        out
    }

    /// Warnings a reader must see: unsettled positions, thin coverage,
    /// orders that never met a book.
    ///
    /// `covered` is the percentage of the window the data covered, as text;
    /// it is used only where the data fell short.
    pub fn warnings(&self, covered: &str) -> (out: Vec<String>)
        ensures
            exists|unscored: Seq<UnscoredForecast>| #[trigger]
                warns(*self, covered@, unscored, texts(out@)),
    {
        let mut out = self.settlement.warnings();
        assert(texts(out@) =~= unsettled_lines(self.settlement.unsettled@));
        // An order submitted before its instrument's first book has nothing
        // to match against and cancels. That is correct, and silent, and
        // exactly the shape of a strategy that looks like it did nothing for
        // no visible reason, so it is reported.
        let unfilled: usize = self.count_unfilled();
        let ghost so_far = texts(out@);
        if unfilled > 0 {
            let mut m = "".to_owned();
            push_u64(&mut m, unfilled as u64);
            m.append(
                " order(s) were cancelled without filling; the usual cause is acting before the instrument's first book update, or a limit the book never reached",
            );
            proof {
                reveal_strlit("");
                assert(""@ + int_text(unfilled as int) =~= int_text(unfilled as int));
            }
            let ghost line = m@;
            out.push(m);
            assert(texts(out@) =~= so_far + seq![line]);
        } else {
            assert(so_far =~= so_far + Seq::<Seq<char>>::empty());
        }
        let ghost so_far = texts(out@);
        if let Some(reason) = self.result.metrics.explain_silence() {
            let ghost line = reason@;
            out.push(reason);
            assert(texts(out@) =~= so_far + seq![line]);
        } else {
            assert(so_far =~= so_far + Seq::<Seq<char>>::empty());
        }
        let ghost so_far = texts(out@);
        let short = match self.coverage {
            Some(coverage) => !coverage.is_complete(),
            None => false,
        };
        if short {
            let mut m = "data covered ".to_owned();
            m.append(covered);
            m.append("% of the requested window");
            let ghost line = m@;
            out.push(m);
            assert(texts(out@) =~= so_far + seq![line]);
        } else {
            assert(so_far =~= so_far + Seq::<Seq<char>>::empty());
        }
        assert(texts(out@) =~= early_warnings(*self, covered@));
        let ghost early = texts(out@);
        let dropped = self.unscored_forecasts();
        let ghost lines = dropped@.map_values(|u: UnscoredForecast| unscored_line(u));
        let mut i: usize = 0;
        assert(early + lines.take(0) =~= early);
        while i < dropped.len()
            invariant
                i <= dropped@.len(),
                lines == dropped@.map_values(|u: UnscoredForecast| unscored_line(u)),
                texts(out@) == early + lines.take(i as int),
            decreases dropped@.len() - i,
        {
            let u = &dropped[i];
            let mut m = "".to_owned();
            push_u64(&mut m, u.count as u64);
            m.append(" forecast(s) on ");
            m.append(u.instrument.as_str());
            m.append(" outcome ");
            push_u64(&mut m, u.outcome.0 as u64);
            m.append(" were not scored: ");
            m.append(u.reason.as_str());
            let ghost before = texts(out@);
            proof {
                reveal_strlit("");
                assert(""@ + int_text(u.count as int) =~= int_text(u.count as int));
                assert(lines[i as int] == m@);
                assert(lines.take(i + 1) =~= lines.take(i as int).push(lines[i as int]));
            }
            out.push(m);
            assert(texts(out@) =~= before.push(lines[i as int]));
            assert(before.push(lines[i as int]) =~= early + lines.take(i + 1));
            i += 1;
        }
        assert(lines.take(i as int) =~= lines);
        let ghost scored = texts(out@);
        let ghost ops = self.result.set_operations@;
        let mut j: usize = 0;
        assert(ops.take(0) =~= Seq::<SetOperation>::empty());
        assert(scored + refused_lines(ops.take(0)) =~= scored);
        while j < self.result.set_operations.len()
            invariant
                j <= ops.len(),
                ops == self.result.set_operations@,
                texts(out@) == scored + refused_lines(ops.take(j as int)),
            decreases ops.len() - j,
        {
            let op = &self.result.set_operations[j];
            proof {
                assert(ops.take(j + 1).drop_last() =~= ops.take(j as int));
                assert(ops.take(j + 1).last() == *op);
            }
            if let Some(reason) = &op.rejected {
                let mut m = "a ".to_owned();
                m.append(op.kind.as_str());
                m.append(" of ");
                m.append(op.instrument.as_str());
                m.append(" was refused: ");
                m.append(reason.as_str());
                let ghost before = texts(out@);
                let ghost line = m@;
                let ghost told = refused_lines(ops.take(j as int));
                out.push(m);
                assert(texts(out@) =~= before.push(line));
                assert(before.push(line) =~= scored + told.push(line));
            }
            j += 1;
        }
        proof {
            assert(ops.take(j as int) =~= ops);
            assert(warns(*self, covered@, dropped@, texts(out@)));
        }
        out
    }

    fn count_unfilled(&self) -> (n: usize)
        ensures
            n == never_filled(self.result.orders@),
    {
        let ghost all = self.result.orders@;
        let mut n: usize = 0;
        let mut i: usize = 0;
        assert(all.take(0) =~= Seq::<Order>::empty());
        while i < self.result.orders.len()
            invariant
                i <= all.len(),
                all == self.result.orders@,
                n == never_filled(all.take(i as int)),
            decreases all.len() - i,
        {
            let order = &self.result.orders[i];
            proof {
                assert(all.take(i + 1).drop_last() =~= all.take(i as int));
                assert(all.take(i + 1).last() == *order);
                never_filled_at_most(all.take(i as int));
            }
            if matches!(order.status, OrderStatus::Cancelled) && order.filled.0 == 0 {
                n = n + 1;
            }
            i += 1;
        }
        assert(all.take(i as int) =~= all);
        n
    }
}

/// How many forecasts a list of unscored ones counts, taken together.
pub open spec fn unscored_total(out: Seq<UnscoredForecast>) -> nat
    decreases out.len(),
{
    if out.len() == 0 {
        0
    } else {
        unscored_total(out.drop_last()) + out.last().count as nat
    }
}

/// The unscored forecasts of a list of outcomes, taken together.
spec fn tally(
    resolutions: Seq<Resolution>,
    forecasts: Seq<Forecast>,
    out: Seq<UnscoredForecast>,
) -> nat
    decreases out.len(),
{
    if out.len() == 0 {
        0
    } else {
        tally(resolutions, forecasts, out.drop_last()) + unscored_count(
            resolutions,
            forecasts,
            (out.last().instrument@, out.last().outcome.0),
        )
    }
}

/// No outcome is listed twice.
spec fn each_once(out: Seq<UnscoredForecast>) -> bool {
    forall|i: int, j: int|
        #![trigger out[i], out[j]]
        0 <= i < j < out.len() ==> (out[i].instrument@, out[i].outcome.0) != (
            out[j].instrument@,
            out[j].outcome.0,
        )
}

proof fn tally_of_nothing(
    resolutions: Seq<Resolution>,
    forecasts: Seq<Forecast>,
    out: Seq<UnscoredForecast>,
)
    requires
        forecasts.len() == 0,
    ensures
        tally(resolutions, forecasts, out) == 0,
    decreases out.len(),
{
    if out.len() > 0 {
        tally_of_nothing(resolutions, forecasts, out.drop_last());
    }
}

proof fn tally_of_one_more(
    resolutions: Seq<Resolution>,
    forecasts: Seq<Forecast>,
    out: Seq<UnscoredForecast>,
)
    requires
        forecasts.len() > 0,
        each_once(out),
    ensures
        tally(resolutions, forecasts, out) == tally(resolutions, forecasts.drop_last(), out) + if (
        unscored_reason(resolutions, forecasts.last().instrument@) is Some && names_key(
            out,
            (forecasts.last().instrument@, forecasts.last().outcome.0),
        )) {
            1nat
        } else {
            0nat
        },
    decreases out.len(),
{
    let key = (forecasts.last().instrument@, forecasts.last().outcome.0);
    if out.len() > 0 {
        let rest = out.drop_last();
        assert(each_once(rest)) by {
            assert forall|i: int, j: int|
                #![trigger rest[i], rest[j]]
                0 <= i < j < rest.len() implies (rest[i].instrument@, rest[i].outcome.0) != (
                rest[j].instrument@,
                rest[j].outcome.0,
            ) by {
                assert(rest[i] == out[i] && rest[j] == out[j]);
            }
        }
        tally_of_one_more(resolutions, forecasts, rest);
        let n = out.len() - 1;
        if (out[n].instrument@, out[n].outcome.0) == key {
            assert(names_key(out, key));
            if names_key(rest, key) {
                let i = choose|i: int|
                    0 <= i < rest.len() && (#[trigger] rest[i]).instrument@ == key.0
                        && rest[i].outcome.0 == key.1;
                assert(rest[i] == out[i]);
            }
        } else if names_key(out, key) {
            let i = choose|i: int|
                0 <= i < out.len() && (#[trigger] out[i]).instrument@ == key.0
                    && out[i].outcome.0 == key.1;
            assert(rest[i] == out[i]);
        } else if names_key(rest, key) {
            let i = choose|i: int|
                0 <= i < rest.len() && (#[trigger] rest[i]).instrument@ == key.0
                    && rest[i].outcome.0 == key.1;
            assert(rest[i] == out[i]);
        }
    }
}

proof fn scored_or_tallied(
    resolutions: Seq<Resolution>,
    forecasts: Seq<Forecast>,
    out: Seq<UnscoredForecast>,
)
    requires
        each_once(out),
        forall|i: int|
            0 <= i < forecasts.len() && unscored_reason(
                resolutions,
                (#[trigger] forecasts[i]).instrument@,
            ) is Some ==> names_key(out, (forecasts[i].instrument@, forecasts[i].outcome.0)),
    ensures
        samples_of(resolutions, forecasts).len() + tally(resolutions, forecasts, out)
            == forecasts.len(),
    decreases forecasts.len(),
{
    if forecasts.len() == 0 {
        tally_of_nothing(resolutions, forecasts, out);
    } else {
        let rest = forecasts.drop_last();
        assert forall|i: int|
            0 <= i < rest.len() && unscored_reason(
                resolutions,
                (#[trigger] rest[i]).instrument@,
            ) is Some implies names_key(out, (rest[i].instrument@, rest[i].outcome.0)) by {
            assert(rest[i] == forecasts[i]);
        }
        scored_or_tallied(resolutions, rest, out);
        tally_of_one_more(resolutions, forecasts, out);
        assert(forecasts.last() == forecasts[forecasts.len() - 1]);
    }
}

proof fn unscored_is_counted(resolutions: Seq<Resolution>, forecasts: Seq<Forecast>, i: int)
    requires
        0 <= i < forecasts.len(),
        unscored_reason(resolutions, forecasts[i].instrument@) is Some,
    ensures
        unscored_count(
            resolutions,
            forecasts,
            (forecasts[i].instrument@, forecasts[i].outcome.0),
        ) > 0,
    decreases forecasts.len(),
{
    if i < forecasts.len() - 1 {
        assert(forecasts.drop_last()[i] == forecasts[i]);
        unscored_is_counted(resolutions, forecasts.drop_last(), i);
    }
}

proof fn total_is_tally(
    resolutions: Seq<Resolution>,
    forecasts: Seq<Forecast>,
    out: Seq<UnscoredForecast>,
)
    requires
        forall|i: int|
            0 <= i < out.len() ==> (#[trigger] out[i]).count == unscored_count(
                resolutions,
                forecasts,
                (out[i].instrument@, out[i].outcome.0),
            ),
    ensures
        unscored_total(out) == tally(resolutions, forecasts, out),
    decreases out.len(),
{
    if out.len() > 0 {
        let rest = out.drop_last();
        assert forall|i: int| 0 <= i < rest.len() implies (#[trigger] rest[i]).count
            == unscored_count(
            resolutions,
            forecasts,
            (rest[i].instrument@, rest[i].outcome.0),
        ) by {
            assert(rest[i] == out[i]);
        }
        total_is_tally(resolutions, forecasts, rest);
        assert(out.last() == out[out.len() - 1]);
    }
}

/// The scored forecasts and those counted as unscored are all the forecasts
/// there were, each once: the sample is never silently smaller.
pub proof fn scored_and_unscored_are_all(
    resolutions: Seq<Resolution>,
    forecasts: Seq<Forecast>,
    out: Seq<UnscoredForecast>,
)
    requires
        unscored_of(resolutions, forecasts, out),
    ensures
        samples_of(resolutions, forecasts).len() + unscored_total(out) == forecasts.len(),
{
    assert(each_once(out)) by {
        assert forall|i: int, j: int|
            #![trigger out[i], out[j]]
            0 <= i < j < out.len() implies (out[i].instrument@, out[i].outcome.0) != (
            out[j].instrument@,
            out[j].outcome.0,
        ) by {
            let a = (out[i].instrument@, out[i].outcome.0);
            assert(PositionKey::before(a, (out[j].instrument@, out[j].outcome.0)));
            PositionKey::before_irreflexive(a);
        }
    }
    assert forall|i: int|
        0 <= i < forecasts.len() && unscored_reason(
            resolutions,
            (#[trigger] forecasts[i]).instrument@,
        ) is Some implies names_key(out, (forecasts[i].instrument@, forecasts[i].outcome.0)) by {
        unscored_is_counted(resolutions, forecasts, i);
    }
    scored_or_tallied(resolutions, forecasts, out);
    total_is_tally(resolutions, forecasts, out);
}

/// The streams a run replays, as they are declared: book first, then prints,
/// corporate actions, venue references and funding, each where it belongs
/// when instants tie.
pub open spec fn run_lanes(
    book: Seq<Record>,
    trades: Seq<Record>,
    corporate: Seq<Record>,
    references: Seq<Record>,
    funding: Seq<Record>,
) -> Seq<Lane> {
    Seq::<Lane>::empty().push(declared_lane("book"@, priority::SNAPSHOT, sound_items(book))).push(
        declared_lane("trades"@, priority::TRADE, sound_items(trades)),
    ).push(declared_lane("corporate"@, priority::CORPORATE, sound_items(corporate))).push(
        declared_lane("references"@, priority::REFERENCE, sound_items(references)),
    ).push(declared_lane("funding"@, priority::FUNDING, sound_items(funding)))
}

/// Line up what a run replays.
pub fn line_up(
    book: Vec<Record>,
    trades: Vec<Record>,
    corporate: Vec<Record>,
    references: Vec<Record>,
    funding: Vec<Record>,
) -> (r: Result<Replay<ListSource>, BacktestError>)
    ensures
        ({
            let lanes = run_lanes(book@, trades@, corporate@, references@, funding@);
            let done = primed(lanes, lanes.len());
            match r {
                Ok(replay) => done.1 is None && replay.wf() && replay.lanes() == done.0,
                Err(e) => done.1 == Some(e@),
            }
        }),
{
    Replay::builder().stream("book", priority::SNAPSHOT, book).stream(
        "trades",
        priority::TRADE,
        trades,
    ).stream("corporate", priority::CORPORATE, corporate).stream(
        "references",
        priority::REFERENCE,
        references,
    ).stream("funding", priority::FUNDING, funding).build()
}

/// The first instant of a run.
pub open spec fn run_start(spec: RunSpec) -> i64 {
    match spec.window {
        Some(window) => window@.0,
        None => 0,
    }
}

/// Set up an engine as a run asks.
pub fn prepare(spec: &RunSpec, instruments: InstrumentSet) -> (r: Result<
    PlainBuilder,
    BacktestError,
>)
    requires
        instruments.wf(),
    ensures
        match r {
            Ok(b) => {
                &&& spec.equity_interval_nanos > 0
                &&& instruments.listed().len() > 0
                &&& b.wf()
                &&& b.instruments == instruments
                &&& b.starting_cash == spec.starting_cash
                &&& b.start.0 == run_start(*spec)
                &&& b.equity_interval == spec.equity_interval_nanos
            },
            Err(e) => if instruments.listed().len() == 0 {
                says(
                    e,
                    "no instruments are registered; write the instruments table before running"@,
                )
            } else {
                spec.equity_interval_nanos <= 0 && says(
                    e,
                    "the equity sampling interval must be positive"@,
                )
            },
        },
{
    if instruments.is_empty() {
        return Err(
            BacktestError::invalid(
                "no instruments are registered; write the instruments table before running",
            ),
        );
    }
    let start: i64 = match spec.window {
        Some(window) => window.start().0,
        None => 0,
    };
    PlainEngine::builder(instruments).starting_cash(spec.starting_cash).start(
        UnixNanos(start),
    ).equity_interval_nanos(spec.equity_interval_nanos)
}

/// The first and last instants among some records.
pub open spec fn spans(records: Seq<Record>, first: i64, last: i64) -> bool {
    &&& forall|i: int|
        0 <= i < records.len() ==> first <= (#[trigger] records[i]).stamps.ts_init.0 <= last
    &&& exists|i: int| 0 <= i < records.len() && (#[trigger] records[i]).stamps.ts_init.0 == first
    &&& exists|i: int| 0 <= i < records.len() && (#[trigger] records[i]).stamps.ts_init.0 == last
}

/// How much of a window a span of loaded data covers.
pub open spec fn covers(coverage: Coverage, requested: TimeWindow, first: i64, last: i64) -> bool {
    let loaded = (first, (last + 1) as i64);
    &&& coverage.requested == requested
    &&& match coverage.loaded {
        Some(w) => overlap(loaded, requested@) == Some(w@),
        None => overlap(loaded, requested@) is None,
    }
    &&& coverage.missing_nanos == clamped(
        missing_of(requested@, loaded, Seq::empty()),
        0,
        length(requested@),
    )
}

/// How much of the window asked for the book stream covers.
///
/// The loaded span is what arrived, not what was asked for.
pub fn measure(requested: TimeWindow, records: &Vec<Record>) -> (r: Coverage)
    requires
        0 < length(requested@) <= i64::MAX,
        forall|i: int|
            0 <= i < records@.len() ==> (#[trigger] records@[i]).stamps.ts_init.0 < i64::MAX,
    ensures
        if records@.len() == 0 {
            r.requested == requested && r.loaded is None && r.missing_nanos == length(requested@)
        } else {
            exists|first: i64, last: i64| #[trigger]
                spans(records@, first, last) && covers(r, requested, first, last)
        },
{
    if records.len() == 0 {
        return Coverage::empty(requested);
    }
    let mut first: i64 = records[0].stamps.ts_init.0;
    let mut last: i64 = first;
    let mut i: usize = 1;
    assert(records@.take(1)[0] == records@[0]);
    while i < records.len()
        invariant
            1 <= i <= records@.len(),
            first <= last < i64::MAX,
            spans(records@.take(i as int), first, last),
            forall|k: int|
                0 <= k < records@.len() ==> (#[trigger] records@[k]).stamps.ts_init.0 < i64::MAX,
        decreases records@.len() - i,
    {
        let ts: i64 = records[i].stamps.ts_init.0;
        let ghost short = records@.take(i as int);
        let ghost long = records@.take(i + 1);
        let ghost (f0, l0) = (first, last);
        if ts < first {
            first = ts;
        }
        if ts > last {
            last = ts;
        }
        proof {
            assert(long[i as int] == records@[i as int]);
            assert forall|k: int| 0 <= k < long.len() implies first <= (
            #[trigger] long[k]).stamps.ts_init.0 <= last by {
                if k < i {
                    assert(short[k] == long[k]);
                }
            }
            let a = choose|a: int|
                0 <= a < short.len() && (#[trigger] short[a]).stamps.ts_init.0 == f0;
            assert(long[a] == short[a]);
            let b = choose|b: int|
                0 <= b < short.len() && (#[trigger] short[b]).stamps.ts_init.0 == l0;
            assert(long[b] == short[b]);
        }
        i += 1;
    }
    proof {
        assert(records@.take(i as int) =~= records@);
        assert(spans(records@, first, last));
    }
    match TimeWindow::new(UnixNanos(first), UnixNanos(last + 1)) {
        Ok(loaded) => {
            let none: [TimeWindow; 0] = [];
            assert(none@ =~= Seq::<TimeWindow>::empty());
            Coverage::partial(requested, loaded, &none)
        },
        Err(_) => Coverage::empty(requested),
    }
}

/// Close a run against how its markets ended: check the resolutions, rebuild
/// the positions from the fills alone, and settle what was observable.
pub fn close_run(result: &RunResult, resolutions: &Vec<Resolution>, instruments: &InstrumentSet) -> (r:
    Result<SettlementReport, BacktestError>)
    requires
        instruments.wf(),
        result.marks.wf(),
    ensures
        match r {
            Ok(report) => {
                &&& forall|k: int|
                    0 <= k < resolutions@.len() ==> !disagrees(
                        instruments@,
                        #[trigger] resolutions@[k],
                    )
                &&& resolved_once(resolutions@)
                &&& exists|portfolio: Portfolio|
                    folded(result.fills@) == Ok::<Map<KeyView, Position>, BacktestError>(
                        portfolio.held(),
                    ) && #[trigger] settlement_of(
                        open_among(portfolio.listed()),
                        resolutions@,
                        result.simulated_through,
                        result.marks@,
                    ) == Ok::<ReportView, BacktestError>(report@)
            },
            Err(e) => {
                ||| exists|j: int| #[trigger]
                    first_disagreement(instruments@, resolutions@, j) && resolutions@[j].misfit(
                        instruments@[resolutions@[j].instrument@],
                        e,
                    )
                ||| folded(result.fills@) == Err::<Map<KeyView, Position>, BacktestError>(e)
                ||| !resolved_once(resolutions@)
                ||| exists|portfolio: Portfolio|
                    folded(result.fills@) == Ok::<Map<KeyView, Position>, BacktestError>(
                        portfolio.held(),
                    ) && #[trigger] settlement_of(
                        open_among(portfolio.listed()),
                        resolutions@,
                        result.simulated_through,
                        result.marks@,
                    ) == Err::<ReportView, BacktestError>(e)
            },
        },
{
    validate_resolutions(resolutions.as_slice(), instruments)?;
    let portfolio = Portfolio::replay(result.fills.as_slice())?;
    settle(&portfolio, resolutions.as_slice(), result.simulated_through, &result.marks)
}

proof fn bytes_tell_numbers_apart(a: int, b: int, count: nat, bound: int)
    requires
        0 <= a < bound,
        0 <= b < bound,
        bound <= pow256(count),
        le_bytes(a, count) == le_bytes(b, count),
    ensures
        a == b,
    decreases count,
{
    if count > 0 {
        let (x, y) = (le_bytes(a, count), le_bytes(b, count));
        let n = (count - 1) as nat;
        assert(x[0] == y[0]);
        assert(x.drop_first() =~= le_bytes(a / 256, n));
        assert(y.drop_first() =~= le_bytes(b / 256, n));
        bytes_tell_numbers_apart(a / 256, b / 256, n, pow256(n));
    }
}

spec fn pow256(n: nat) -> int
    decreases n,
{
    if n == 0 {
        1
    } else {
        256 * pow256((n - 1) as nat)
    }
}

proof fn number_is_as_long_as_asked(n: int, count: nat)
    ensures
        le_bytes(n, count).len() == count,
    decreases count,
{
    if count > 0 {
        number_is_as_long_as_asked(n / 256, (count - 1) as nat);
    }
}

/// What a run is told is not lost on its digest: what the digest is taken of
/// differs between runs that start with different cash or sample at
/// different intervals.
pub proof fn a_digest_is_taken_of_cash_and_interval(a: RunSpec, b: RunSpec)
    requires
        digest_input(a) == digest_input(b),
    ensures
        a.starting_cash == b.starting_cash,
        a.equity_interval_nanos == b.equity_interval_nanos,
{
    let (x, y) = (digest_input(a), digest_input(b));
    let (ca, cb) = (unsigned(a.starting_cash.0), unsigned(b.starting_cash.0));
    let (ia, ib) = (unsigned(a.equity_interval_nanos), unsigned(b.equity_interval_nanos));
    number_is_as_long_as_asked(ca, 8);
    number_is_as_long_as_asked(cb, 8);
    number_is_as_long_as_asked(ia, 8);
    number_is_as_long_as_asked(ib, 8);
    assert(x.take(8) =~= le_bytes(ca, 8));
    assert(y.take(8) =~= le_bytes(cb, 8));
    assert(x.subrange(8, 16) =~= le_bytes(ia, 8));
    assert(y.subrange(8, 16) =~= le_bytes(ib, 8));
    reveal_with_fuel(pow256, 9);
    assert(pow256(8) == 0x1_0000_0000_0000_0000);
    bytes_tell_numbers_apart(ca, cb, 8, 0x1_0000_0000_0000_0000);
    bytes_tell_numbers_apart(ia, ib, 8, 0x1_0000_0000_0000_0000);
}

/// A digest is written out in full: two digits a byte, and different bytes are
/// written differently.
pub proof fn hexadecimal_tells_bytes_apart(a: Seq<u8>, b: Seq<u8>)
    ensures
        hex_text(a).len() == 2 * a.len(),
        hex_text(a) == hex_text(b) ==> a == b,
    decreases a.len(),
{
    two_digits_a_byte(a);
    two_digits_a_byte(b);
    let (x, y) = (hex_text(a), hex_text(b));
    if x == y {
        if a.len() > 0 {
            let (ra, rb) = (a.drop_last(), b.drop_last());
            let n = x.len();
            two_digits_a_byte(ra);
            two_digits_a_byte(rb);
            assert(hex_text(ra) =~= x.take(n - 2));
            assert(hex_text(rb) =~= y.take(n - 2));
            hexadecimal_tells_bytes_apart(ra, rb);
            let (d, e) = (a.last() as int, b.last() as int);
            assert(x[n - 2] == hex_char(d / 16) && y[n - 2] == hex_char(e / 16));
            assert(x[n - 1] == hex_char(d % 16) && y[n - 1] == hex_char(e % 16));
            digits_tell_apart(d / 16, e / 16);
            digits_tell_apart(d % 16, e % 16);
            assert(d == 16 * (d / 16) + d % 16 && e == 16 * (e / 16) + e % 16);
            assert(a =~= ra.push(a.last()));
            assert(b =~= rb.push(b.last()));
        } else {
            assert(a =~= b);
        }
    }
}

proof fn two_digits_a_byte(bytes: Seq<u8>)
    ensures
        hex_text(bytes).len() == 2 * bytes.len(),
    decreases bytes.len(),
{
    if bytes.len() > 0 {
        two_digits_a_byte(bytes.drop_last());
    }
}

proof fn digits_tell_apart(d: int, e: int)
    requires
        0 <= d < 16,
        0 <= e < 16,
    ensures
        hex_char(d) == hex_char(e) ==> d == e,
{
}

/// The resolution a forecast is scored against is the last one that names its
/// market, and there is one wherever any does.
pub proof fn the_last_resolution_scores(resolutions: Seq<Resolution>, instrument: Seq<char>)
    ensures
        last_for(resolutions, instrument) matches Some(i) ==> {
            &&& 0 <= i < resolutions.len()
            &&& resolutions[i].instrument@ == instrument
            &&& forall|k: int|
                i < k < resolutions.len() ==> (#[trigger] resolutions[k]).instrument@ != instrument
        },
        last_for(resolutions, instrument) is None ==> forall|k: int|
            0 <= k < resolutions.len() ==> (#[trigger] resolutions[k]).instrument@ != instrument,
    decreases resolutions.len(),
{
    if resolutions.len() > 0 && resolutions.last().instrument@ != instrument {
        let head = resolutions.drop_last();
        the_last_resolution_scores(head, instrument);
        match last_for(head, instrument) {
            Some(i) => {
                assert(head[i] == resolutions[i]);
                assert forall|k: int| i < k < resolutions.len() implies (
                #[trigger] resolutions[k]).instrument@ != instrument by {
                    if k < head.len() {
                        assert(head[k] == resolutions[k]);
                    }
                }
            },
            None => {
                assert forall|k: int| 0 <= k < resolutions.len() implies (
                #[trigger] resolutions[k]).instrument@ != instrument by {
                    if k < head.len() {
                        assert(head[k] == resolutions[k]);
                    }
                }
            },
        }
    }
}

/// Forecasts are scored one by one, in the order they were stated: one on a
/// market that was resolved and told its outcomes apart adds a sample with
/// what was forecast, what the market said and what the outcome paid, and any
/// other adds none.
pub proof fn samples_add_up(resolutions: Seq<Resolution>, forecasts: Seq<Forecast>)
    requires
        forecasts.len() > 0,
    ensures
        ({
            let f = forecasts.last();
            let before = samples_of(resolutions, forecasts.drop_last());
            let after = samples_of(resolutions, forecasts);
            let at = last_for(resolutions, f.instrument@);
            if at is None || !tells_apart(resolutions[at->Some_0].payout@) {
                after == before
            } else {
                &&& after.len() == before.len() + 1
                &&& after.drop_last() == before
                &&& after.last().ts == f.ts
                &&& after.last().instrument == f.instrument
                &&& after.last().outcome == f.outcome
                &&& after.last().forecast == f.probability
                &&& after.last().market == f.market
                &&& after.last().tag == f.tag
                &&& after.last().realized == pays(
                    resolutions[at->Some_0].payout@,
                    f.outcome,
                )
            }
        }),
{
    let before = samples_of(resolutions, forecasts.drop_last());
    let f = forecasts.last();
    if unscored_reason(resolutions, f.instrument@) is None {
        assert(before.push(scored(resolutions, f)).drop_last() =~= before);
    }
}

/// The orders that never filled are those cancelled with nothing filled.
pub proof fn never_filled_counts_the_cancelled(orders: Seq<Order>)
    ensures
        never_filled(orders) == orders.filter(
            |o: Order| o.status is Cancelled && o.filled.0 == 0,
        ).len(),
    decreases orders.len(),
{
    reveal(Seq::filter);
    if orders.len() > 0 {
        never_filled_counts_the_cancelled(orders.drop_last());
    }
}

/// At one instant a run hears of corporate actions first, then of published
/// prices, then of the book, then of prints and then of funding, and each
/// stream carries its own records.
pub proof fn streams_are_heard_in_order(
    book: Seq<Record>,
    trades: Seq<Record>,
    corporate: Seq<Record>,
    references: Seq<Record>,
    funding: Seq<Record>,
)
    ensures
        ({
            let lanes = run_lanes(book, trades, corporate, references, funding);
            &&& lanes.len() == 5
            &&& lanes[2].priority < lanes[3].priority < lanes[0].priority < lanes[1].priority
                < lanes[4].priority
            &&& lanes[0].upcoming == sound_items(book) && lanes[1].upcoming == sound_items(trades)
            &&& lanes[2].upcoming == sound_items(corporate)
            &&& lanes[3].upcoming == sound_items(references)
            &&& lanes[4].upcoming == sound_items(funding)
        }),
{
}

/// Data falls short of a window where something of it is missing, or where
/// what was loaded of it is not the whole.
pub proof fn data_falls_short_of_a_window(coverage: Coverage)
    ensures
        falls_short(Some(coverage)) <==> coverage.missing_nanos != 0 || coverage.loaded is None
            || coverage.loaded->Some_0@ != coverage.requested@,
        !falls_short(None),
{
}

/// A forecast is left out where its market is not known to be resolved or
/// paid every outcome alike, and scored otherwise.
pub proof fn which_forecasts_are_left_out(resolutions: Seq<Resolution>, instrument: Seq<char>)
    ensures
        unscored_reason(resolutions, instrument) is None <==> exists|i: int|
            0 <= i < resolutions.len() && (#[trigger] resolutions[i]).instrument@ == instrument
                && tells_apart(resolutions[i].payout@) && forall|k: int|
                i < k < resolutions.len() ==> (#[trigger] resolutions[k]).instrument@
                    != instrument,
{
    the_last_resolution_scores(resolutions, instrument);
    match last_for(resolutions, instrument) {
        Some(j) => {
            assert forall|i: int|
                0 <= i < resolutions.len() && (#[trigger] resolutions[i]).instrument@ == instrument
                    && (forall|k: int|
                    i < k < resolutions.len() ==> (#[trigger] resolutions[k]).instrument@
                        != instrument) implies i == j by {
                if i < j {
                    assert(resolutions[j].instrument@ != instrument);
                }
            }
        },
        None => {},
    }
}

} // verus!
