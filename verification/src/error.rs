//! Errors the backtest layer raises.
//!
//! Every variant names something the caller can act on. Data problems that
//! would otherwise produce a plausible wrong number -- a gap in an
//! incremental book, a window that means two different things -- are errors
//! here rather than warnings, because the failure mode they guard against
//! is silent.

use vstd::prelude::*;
use vstd::string::*;

use crate::text::{debug_of, debug_text, int_text, push_i64, push_u64};

verus! {

#[derive(Debug, PartialEq, Eq)]
pub enum BacktestError {
    Overflow { what: &'static str },
    NotFinite { what: &'static str },
    Parse { what: &'static str, value: String },
    CausalityViolation { ts_event: i64, ts_init: i64 },
    EmptyWindow { start: i64, end: i64 },
    BookGap { instrument: String, ts: i64, gap_ts: i64 },
    OutOfOrder { stream: String, ts: i64, previous: i64 },
    UnknownInstrument(String),
    UnknownOutcome { instrument: String, outcome: u16, count: u16 },
    Schema { table: &'static str, detail: String },
    Invalid(String),
}

/// What an error says.
pub open spec fn error_text(e: BacktestError) -> Seq<char> {
    match e {
        BacktestError::Overflow { what } => "arithmetic overflow in "@ + what@,
        BacktestError::NotFinite { what } => what@ + " must be finite"@,
        BacktestError::Parse { what, value } => "cannot parse "@ + what@ + ": "@ + debug_text(value@),
        BacktestError::CausalityViolation { ts_event, ts_init } => "ts_init ("@ + int_text(
            ts_init as int,
        ) + ") precedes ts_event ("@ + int_text(ts_event as int)
            + "): the system cannot have learned of an event before it happened. Check which vendor field is mapped to which column."@,
        BacktestError::EmptyWindow { start, end } => "time window is empty or inverted: ["@ + int_text(
            start as int,
        ) + ", "@ + int_text(end as int)
            + "). Windows are half-open; end must be strictly after start."@,
        BacktestError::BookGap { instrument, ts, gap_ts } => "book gap for "@ + instrument@
            + ": an incremental update arrived at "@ + int_text(ts as int)
            + " with no snapshot since the gap at "@ + int_text(gap_ts as int)
            + ". Replaying across a hole would make the book more confident than the data supports; wait for the next snapshot."@,
        BacktestError::OutOfOrder { stream, ts, previous } => "record is out of order: "@ + int_text(
            ts as int,
        ) + " follows "@ + int_text(previous as int) + " on stream "@ + debug_text(stream@)
            + ". Replay requires each stream sorted by ts_init."@,
        BacktestError::UnknownInstrument(name) => "unknown instrument "@ + debug_text(name@),
        BacktestError::UnknownOutcome { instrument, outcome, count } => "outcome "@ + int_text(
            outcome as int,
        ) + " is out of range for "@ + instrument@ + ", which has "@ + int_text(count as int)
            + " outcomes"@,
        BacktestError::Schema { table, detail } => "schema mismatch for "@ + table@ + ": "@ + detail@,
        BacktestError::Invalid(message) => message@,
    }
}

/// An `Invalid` error that says exactly `message`.
pub open spec fn says(e: BacktestError, message: Seq<char>) -> bool {
    e matches BacktestError::Invalid(m) && m@ == message
}

/// An error with its texts as sequences of characters.
pub enum ErrorView {
    Overflow { what: Seq<char> },
    NotFinite { what: Seq<char> },
    Parse { what: Seq<char>, value: Seq<char> },
    CausalityViolation { ts_event: i64, ts_init: i64 },
    EmptyWindow { start: i64, end: i64 },
    BookGap { instrument: Seq<char>, ts: i64, gap_ts: i64 },
    OutOfOrder { stream: Seq<char>, ts: i64, previous: i64 },
    UnknownInstrument(Seq<char>),
    UnknownOutcome { instrument: Seq<char>, outcome: u16, count: u16 },
    Schema { table: Seq<char>, detail: Seq<char> },
    Invalid(Seq<char>),
}

impl View for BacktestError {
    type V = ErrorView;

    open spec fn view(&self) -> ErrorView {
        match *self {
            BacktestError::Overflow { what } => ErrorView::Overflow { what: what@ },
            BacktestError::NotFinite { what } => ErrorView::NotFinite { what: what@ },
            BacktestError::Parse { what, value } => ErrorView::Parse {
                what: what@,
                value: value@,
            },
            BacktestError::CausalityViolation { ts_event, ts_init } => {
                ErrorView::CausalityViolation { ts_event, ts_init }
            },
            BacktestError::EmptyWindow { start, end } => ErrorView::EmptyWindow { start, end },
            BacktestError::BookGap { instrument, ts, gap_ts } => ErrorView::BookGap {
                instrument: instrument@,
                ts,
                gap_ts,
            },
            BacktestError::OutOfOrder { stream, ts, previous } => ErrorView::OutOfOrder {
                stream: stream@,
                ts,
                previous,
            },
            BacktestError::UnknownInstrument(name) => ErrorView::UnknownInstrument(name@),
            BacktestError::UnknownOutcome { instrument, outcome, count } => {
                ErrorView::UnknownOutcome { instrument: instrument@, outcome, count }
            },
            BacktestError::Schema { table, detail } => ErrorView::Schema {
                table: table@,
                detail: detail@,
            },
            BacktestError::Invalid(message) => ErrorView::Invalid(message@),
        }
    }
}

impl BacktestError {
    pub fn invalid(message: &str) -> (e: Self)
        ensures
            says(e, message@),
    {
        BacktestError::Invalid(message.to_owned())
    }

    /// The same error once more.
    pub fn again(&self) -> (e: Self)
        ensures
            e@ == self@,
    {
        match self {
            BacktestError::Overflow { what } => BacktestError::Overflow { what: *what },
            BacktestError::NotFinite { what } => BacktestError::NotFinite { what: *what },
            BacktestError::Parse { what, value } => BacktestError::Parse {
                what: *what,
                value: value.clone(),
            },
            BacktestError::CausalityViolation { ts_event, ts_init } => {
                BacktestError::CausalityViolation { ts_event: *ts_event, ts_init: *ts_init }
            },
            BacktestError::EmptyWindow { start, end } => BacktestError::EmptyWindow {
                start: *start,
                end: *end,
            },
            BacktestError::BookGap { instrument, ts, gap_ts } => BacktestError::BookGap {
                instrument: instrument.clone(),
                ts: *ts,
                gap_ts: *gap_ts,
            },
            BacktestError::OutOfOrder { stream, ts, previous } => BacktestError::OutOfOrder {
                stream: stream.clone(),
                ts: *ts,
                previous: *previous,
            },
            BacktestError::UnknownInstrument(name) => BacktestError::UnknownInstrument(
                name.clone(),
            ),
            BacktestError::UnknownOutcome { instrument, outcome, count } => {
                BacktestError::UnknownOutcome {
                    instrument: instrument.clone(),
                    outcome: *outcome,
                    count: *count,
                }
            },
            BacktestError::Schema { table, detail } => BacktestError::Schema {
                table: *table,
                detail: detail.clone(),
            },
            BacktestError::Invalid(message) => BacktestError::Invalid(message.clone()),
        }
    }

    /// The error as a sentence.
    pub fn message(&self) -> (out: String)
        ensures
            out@ == error_text(*self),
    {
        match self {
            BacktestError::Overflow { what } => {
                let mut out = "arithmetic overflow in ".to_owned();
                out.append(what);
                out
            },
            BacktestError::NotFinite { what } => {
                let mut out = (*what).to_owned();
                out.append(" must be finite");
                out
            },
            BacktestError::Parse { what, value } => {
                let mut out = "cannot parse ".to_owned();
                out.append(what);
                out.append(": ");
                out.append(debug_of(value.as_str()).as_str());
                out
            },
            BacktestError::CausalityViolation { ts_event, ts_init } => {
                let mut out = "ts_init (".to_owned();
                push_i64(&mut out, *ts_init);
                out.append(") precedes ts_event (");
                push_i64(&mut out, *ts_event);
                out.append(
                    "): the system cannot have learned of an event before it happened. Check which vendor field is mapped to which column.",
                );
                out
            },
            BacktestError::EmptyWindow { start, end } => {
                let mut out = "time window is empty or inverted: [".to_owned();
                push_i64(&mut out, *start);
                out.append(", ");
                push_i64(&mut out, *end);
                out.append("). Windows are half-open; end must be strictly after start.");
                out
            },
            BacktestError::BookGap { instrument, ts, gap_ts } => {
                let mut out = "book gap for ".to_owned();
                out.append(instrument.as_str());
                out.append(": an incremental update arrived at ");
                push_i64(&mut out, *ts);
                out.append(" with no snapshot since the gap at ");
                push_i64(&mut out, *gap_ts);
                out.append(
                    ". Replaying across a hole would make the book more confident than the data supports; wait for the next snapshot.",
                );
                out
            },
            BacktestError::OutOfOrder { stream, ts, previous } => {
                let mut out = "record is out of order: ".to_owned();
                push_i64(&mut out, *ts);
                out.append(" follows ");
                push_i64(&mut out, *previous);
                out.append(" on stream ");
                out.append(debug_of(stream.as_str()).as_str());
                out.append(". Replay requires each stream sorted by ts_init.");
                out
            },
            BacktestError::UnknownInstrument(name) => {
                let mut out = "unknown instrument ".to_owned();
                out.append(debug_of(name.as_str()).as_str());
                out
            },
            BacktestError::UnknownOutcome { instrument, outcome, count } => {
                let mut out = "outcome ".to_owned();
                push_u64(&mut out, *outcome as u64);
                out.append(" is out of range for ");
                out.append(instrument.as_str());
                out.append(", which has ");
                push_u64(&mut out, *count as u64);
                out.append(" outcomes");
                out
            },
            BacktestError::Schema { table, detail } => {
                let mut out = "schema mismatch for ".to_owned();
                out.append(table);
                out.append(": ");
                out.append(detail.as_str());
                out
            },
            BacktestError::Invalid(message) => message.clone(),
        }
    }
}

} // verus!
