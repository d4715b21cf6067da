//! Where a stream sits when timestamps tie. Lower goes first.
//!
//! The exchange must see a trade before the strategy does, or a strategy
//! could react to a print the matching engine has not processed.

use vstd::prelude::*;

verus! {

/// Explicit feed gaps: they invalidate state, so nothing should be processed
/// at that instant before the invalidation is known.
pub const GAP: u32 = 0;

/// Full book replacements.
pub const SNAPSHOT: u32 = 10;

/// Incremental book updates.
pub const DELTA: u32 = 20;

/// Corporate actions, which change what a position *is*, and so must land
/// before anything is priced against it.
pub const CORPORATE: u32 = 5;

/// Venue-published mark and oracle prices: the authority on what a position
/// is worth at this instant.
pub const REFERENCE: u32 = 7;

/// Prints.
pub const TRADE: u32 = 30;

/// Funding, after prints so it settles against a current book.
pub const FUNDING: u32 = 35;

/// Aggregates, which summarise everything above them.
pub const BAR: u32 = 40;

} // verus!
