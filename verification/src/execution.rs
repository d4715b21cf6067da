//! The seam between deciding to trade and trading.
//!
//! Every order a strategy produces leaves through this trait. The
//! simulator implements it; a live adapter would implement the same one.
//!
//! What crosses here is *intent* -- submit, cancel, amend -- never a fill.
//! Fills come back the other way, from the venue, because in production
//! that is the only direction they can come from.

use vstd::prelude::*;
use vstd::string::*;

use crate::error::BacktestError;
use crate::order::{order_id_text, push_order_id, Order, OrderId};
use crate::text::{int_text, push_i64, push_u64};
use crate::types::{fixed_text, push_fixed, side_text, Price, Qty, UnixNanos};

verus! {

/// One instruction sent to a venue.
#[derive(PartialEq, Eq, Debug)]
pub enum ExecutionCommand {
    Submit(Box<Order>),
    Cancel(OrderId),
    Amend { id: OrderId, quantity: Option<Qty>, limit: Option<Price> },
}

impl ExecutionCommand {
    pub open spec fn concerns(self) -> OrderId {
        match self {
            ExecutionCommand::Submit(order) => order.id,
            ExecutionCommand::Cancel(id) => id,
            ExecutionCommand::Amend { id, .. } => id,
        }
    }

    pub fn order_id(&self) -> (r: OrderId)
        ensures
            r == self.concerns(),
    {
        match self {
            ExecutionCommand::Submit(order) => order.id,
            ExecutionCommand::Cancel(id) => *id,
            ExecutionCommand::Amend { id, .. } => *id,
        }
    }

    pub fn kind(&self) -> (r: &'static str)
        ensures
            r@ == (match *self {
                ExecutionCommand::Submit(_) => "submit"@,
                ExecutionCommand::Cancel(_) => "cancel"@,
                ExecutionCommand::Amend { .. } => "amend"@,
            }),
    {
        match self {
            ExecutionCommand::Submit(_) => "submit",
            ExecutionCommand::Cancel(_) => "cancel",
            ExecutionCommand::Amend { .. } => "amend",
        }
    }
}

/// Where orders go.
///
/// Implemented by the simulator and, in principle, by a live adapter. The
/// trait is deliberately small: anything a venue does *to* an order --
/// accept it, fill it, reject it -- arrives as data on the replay stream
/// rather than as a return value here.
pub trait ExecutionClient {
    /// What the client may become once it is sent an instruction, and whether
    /// it may accept it.
    open spec fn takes(
        &self,
        command: ExecutionCommand,
        ts: UnixNanos,
        after: &Self,
        accepted: bool,
    ) -> bool {
        true
    }

    /// A name for the venue, carried into run records.
    fn venue(&self) -> &str;

    /// Send one instruction. Returning `Ok` means the venue accepted the
    /// *instruction*, not that the order filled.
    fn send(&mut self, command: ExecutionCommand, ts: UnixNanos) -> (r: Result<(), BacktestError>)
        ensures
            old(self).takes(command, ts, final(self), r is Ok),
    ;

    /// Instructions sent so far, for reconciliation.
    fn sent(&self) -> usize;
}

/// The simulator's client: it records what was sent, and the engine's own
/// matching does the rest.
pub struct SimulatedExecution {
    venue: String,
    log: Vec<(UnixNanos, ExecutionCommand)>,
}

/// A value, or a dash where there is none.
pub open spec fn optional_fixed_text(value: Option<i64>) -> Seq<char> {
    match value {
        Some(raw) => fixed_text(raw as int),
        None => "-"@,
    }
}

/// An instruction as one line of text.
pub open spec fn command_text(ts: UnixNanos, command: ExecutionCommand) -> Seq<char> {
    let at = int_text(ts.0 as int);
    match command {
        ExecutionCommand::Submit(order) => at + " submit "@ + order.instrument@ + " "@ + int_text(
            order.outcome.0 as int,
        ) + " "@ + side_text(order.side) + " "@ + fixed_text(order.quantity.0 as int),
        ExecutionCommand::Cancel(id) => at + " cancel "@ + order_id_text(id),
        ExecutionCommand::Amend { id, quantity, limit } => at + " amend "@ + order_id_text(id)
            + " qty="@ + optional_fixed_text(
            match quantity {
                Some(q) => Some(q.0),
                None => None,
            },
        ) + " px="@ + optional_fixed_text(
            match limit {
                Some(p) => Some(p.0),
                None => None,
            },
        ),
    }
}

fn push_optional_fixed(out: &mut String, value: Option<i64>)
    ensures
        final(out)@ == old(out)@ + optional_fixed_text(value),
{
    match value {
        Some(raw) => {
            push_fixed(out, raw);
        },
        None => {
            out.append("-");
        },
    }
}

/// An instruction as one line of text.
fn describe(ts: UnixNanos, command: &ExecutionCommand) -> (out: String)
    ensures
        out@ == command_text(ts, *command),
{
    let mut out = String::new();
    push_i64(&mut out, ts.0);
    assert(out@ =~= int_text(ts.0 as int));
    match command {
        ExecutionCommand::Submit(order) => {
            out.append(" submit ");
            out.append(order.instrument.as_str());
            out.append(" ");
            push_u64(&mut out, order.outcome.0 as u64);
            out.append(" ");
            out.append(order.side.as_str());
            out.append(" ");
            push_fixed(&mut out, order.quantity.0);
        },
        ExecutionCommand::Cancel(id) => {
            out.append(" cancel ");
            push_order_id(&mut out, *id);
        },
        ExecutionCommand::Amend { id, quantity, limit } => {
            out.append(" amend ");
            push_order_id(&mut out, *id);
            out.append(" qty=");
            let q = match quantity {
                Some(q) => Some(q.0),
                None => None,
            };
            push_optional_fixed(&mut out, q);
            out.append(" px=");
            let p = match limit {
                Some(p) => Some(p.0),
                None => None,
            };
            push_optional_fixed(&mut out, p);
        },
    }
    out
}

impl SimulatedExecution {
    pub closed spec fn at_venue(&self) -> Seq<char> {
        self.venue@
    }

    /// Everything sent, in order.
    pub closed spec fn history(&self) -> Seq<(UnixNanos, ExecutionCommand)> {
        self.log@
    }

    pub fn new(venue: &str) -> (s: Self)
        ensures
            s.at_venue() == venue@,
            s.history() == Seq::<(UnixNanos, ExecutionCommand)>::empty(),
    {
        SimulatedExecution { venue: venue.to_owned(), log: Vec::new() }
    }

    /// Everything sent, in order.
    pub fn log(&self) -> (r: &[(UnixNanos, ExecutionCommand)])
        ensures
            r@ == self.history(),
    {
        self.log.as_slice()
    }

    /// The instruction stream as comparable text.
    ///
    /// This is what makes sim-versus-live reconcilable: run the same
    /// strategy against both, and compare these. A difference here is a
    /// difference in what the strategy decided, before any question of how
    /// the venue treated it.
    pub fn fingerprint(&self) -> (out: Vec<String>)
        ensures
            out@.len() == self.history().len(),
            forall|i: int|
                0 <= i < out@.len() ==> (#[trigger] out@[i])@ == command_text(
                    self.history()[i].0,
                    self.history()[i].1,
                ),
    {
        let mut out: Vec<String> = Vec::new();
        let n: usize = self.log.len();
        let mut i: usize = 0;
        while i < n
            invariant
                n == self.history().len(),
                i <= n,
                out@.len() == i,
                forall|j: int|
                    0 <= j < i ==> (#[trigger] out@[j])@ == command_text(
                        self.history()[j].0,
                        self.history()[j].1,
                    ),
            decreases n - i,
        {
            let entry = &self.log[i];
            out.push(describe(entry.0, &entry.1));
            i += 1;
        }
        out
    }
}

impl ExecutionClient for SimulatedExecution {
    /// The simulator accepts everything, and keeps it.
    open spec fn takes(
        &self,
        command: ExecutionCommand,
        ts: UnixNanos,
        after: &Self,
        accepted: bool,
    ) -> bool {
        &&& accepted
        &&& after.at_venue() == self.at_venue()
        &&& after.history() == self.history().push((ts, command))
    }

    fn venue(&self) -> (r: &str)
        ensures
            r@ == self.at_venue(),
    {
        self.venue.as_str()
    }

    fn send(&mut self, command: ExecutionCommand, ts: UnixNanos) -> (r: Result<(), BacktestError>)
    {
        self.log.push((ts, command));
        Ok(())
    }

    fn sent(&self) -> (n: usize)
        ensures
            n == self.history().len(),
    {
        self.log.len()
    }
}

} // verus!
