//! Rows of the tables that hold instruments and how they resolved.
//!
//! Both tables spread one thing over several rows, one per outcome, and a
//! table holds its rows in whatever order they were written. So rows are
//! gathered by instrument and placed by their outcome index, and an index
//! that is missing is an error rather than a shift of the others.

use vstd::prelude::*;
use vstd::string::*;

use crate::error::{BacktestError, ErrorView};
use crate::instrument::{
    names_instrument, price_sum, Instrument, InstrumentId, InstrumentKind, InstrumentSet, InstrumentView,
    OutcomeId, PriceRule,
};
use crate::ordered::{
    entries_map, entries_map_contains, entries_map_counts, keys_sorted, OrderedKey, SortedMap,
};
use crate::store::{cell_value, cell_view, value_in, views, Cell};
use crate::text::{int_text, push_u64, str_same, text_before};
use crate::settlement::{within_one, Payout, PayoutView, Resolution, ResolutionView};
use crate::types::{fixed_text, saturated, Price, Qty, UnixNanos, SCALE};

verus! {

// -- outcome indices -----------------------------------------------------------

/// The indices below `n` of a set, in order.
pub open spec fn indices_below(set: Set<u16>, n: nat) -> Seq<u16>
    decreases n,
{
    if n == 0 {
        Seq::empty()
    } else {
        let rest = indices_below(set, (n - 1) as nat);
        if set.contains((n - 1) as u16) {
            rest.push((n - 1) as u16)
        } else {
            rest
        }
    }
}

/// The indices of a set, in order.
pub open spec fn indices(set: Set<u16>) -> Seq<u16> {
    indices_below(set, 65536)
}

/// Whether indices run from zero with none left out.
pub open spec fn gapless(set: Set<u16>) -> bool {
    &&& set.contains(0)
    &&& forall|k: u16| k > 0 && #[trigger] set.contains(k) ==> set.contains((k - 1) as u16)
}

/// Numbers separated by commas.
pub open spec fn commas(numbers: Seq<u16>) -> Seq<char>
    decreases numbers.len(),
{
    if numbers.len() == 0 {
        Seq::empty()
    } else if numbers.len() == 1 {
        int_text(numbers[0] as int)
    } else {
        commas(numbers.drop_last()) + ", "@ + int_text(numbers.last() as int)
    }
}

/// The indices of a set as a bracketed list.
pub open spec fn index_list(set: Set<u16>) -> Seq<char> {
    "["@ + commas(indices(set)) + "]"@
}

proof fn indices_agree(a: Set<u16>, b: Set<u16>, n: nat)
    requires
        n <= 65536,
        forall|k: u16| k < n ==> (#[trigger] a.contains(k) <==> b.contains(k)),
    ensures
        indices_below(a, n) == indices_below(b, n),
    decreases n,
{
    if n > 0 {
        indices_agree(a, b, (n - 1) as nat);
        assert(a.contains((n - 1) as u16) <==> b.contains((n - 1) as u16));
    }
}

/// The keys of sorted entries are the indices of their map, in order.
proof fn entries_list_indices<V>(entries: Seq<(u16, V)>, n: nat)
    requires
        n <= 65536,
        keys_sorted(entries),
        forall|i: int| 0 <= i < entries.len() ==> (#[trigger] entries[i]).0 < n,
    ensures
        indices_below(entries_map(entries).dom(), n) == entries.map_values(|e: (u16, V)| e.0),
    decreases n,
{
    let keys = entries.map_values(|e: (u16, V)| e.0);
    entries_map_contains(entries);
    if n == 0 {
        if entries.len() > 0 {
            assert(entries[0].0 < 0);
        }
        assert(keys =~= Seq::empty());
    } else if entries.len() > 0 && entries.last().0 == n - 1 {
        let head = entries.drop_last();
        assert forall|i: int, j: int|
            #![trigger head[i], head[j]]
            0 <= i < j < head.len() implies u16::before(head[i].0@, head[j].0@) by {
            assert(head[i] == entries[i] && head[j] == entries[j]);
        }
        assert forall|i: int| 0 <= i < head.len() implies (#[trigger] head[i]).0 < n - 1 by {
            assert(head[i] == entries[i]);
            assert(u16::before(entries[i].0@, entries[entries.len() - 1].0@));
        }
        entries_list_indices(head, (n - 1) as nat);
        indices_agree(entries_map(entries).dom(), entries_map(head).dom(), (n - 1) as nat);
        assert(entries[entries.len() - 1].0@ == n - 1);
        assert(keys =~= head.map_values(|e: (u16, V)| e.0).push((n - 1) as u16));
    } else {
        assert forall|i: int| 0 <= i < entries.len() implies (#[trigger] entries[i]).0 < n - 1 by {
            if i < entries.len() - 1 {
                assert(u16::before(entries[i].0@, entries[entries.len() - 1].0@));
            }
        }
        entries_list_indices(entries, (n - 1) as nat);
        if entries_map(entries).dom().contains((n - 1) as u16) {
            let i = choose|i: int|
                0 <= i < entries.len() && (#[trigger] entries[i]).0@ == (n - 1) as u16;
            assert(entries[i].0 < n - 1);
        }
    }
}

/// Sorted indices never lag behind their places, and where the last one does
/// not run ahead of its place none does.
proof fn places_of_indices<V>(entries: Seq<(u16, V)>)
    requires
        keys_sorted(entries),
    ensures
        forall|i: int| 0 <= i < entries.len() ==> i <= (#[trigger] entries[i]).0,
        entries.len() > 0 && entries.last().0 == entries.len() - 1 ==> forall|i: int|
            0 <= i < entries.len() ==> (#[trigger] entries[i]).0 == i,
    decreases entries.len(),
{
    if entries.len() > 0 {
        let head = entries.drop_last();
        assert forall|i: int, j: int|
            #![trigger head[i], head[j]]
            0 <= i < j < head.len() implies u16::before(head[i].0@, head[j].0@) by {
            assert(head[i] == entries[i] && head[j] == entries[j]);
        }
        places_of_indices(head);
        let last = entries.len() - 1;
        assert forall|i: int| 0 <= i < entries.len() implies i <= (#[trigger] entries[i]).0 by {
            if i < last {
                assert(head[i] == entries[i]);
            } else if last > 0 {
                assert(head[last - 1] == entries[last - 1]);
                assert(u16::before(entries[last - 1].0@, entries[last].0@));
            }
        }
        if entries.last().0 == last {
            if last > 0 {
                assert(u16::before(entries[last - 1].0@, entries[last].0@));
                assert(head.last() == entries[last - 1]);
            }
            assert forall|i: int| 0 <= i < entries.len() implies (#[trigger] entries[i]).0 == i by {
                if i < last {
                    assert(head[i] == entries[i]);
                }
            }
        }
    }
}

/// Where indices have no gaps, each entry stands at its own index.
proof fn gapless_places<V>(entries: Seq<(u16, V)>)
    requires
        keys_sorted(entries),
        gapless(entries_map(entries).dom()),
    ensures
        entries.len() > 0,
        entries.last().0 == entries.len() - 1,
        forall|i: int| 0 <= i < entries.len() ==> (#[trigger] entries[i]).0 == i,
{
    let set = entries_map(entries).dom();
    entries_map_contains(entries);
    places_of_indices(entries);
    assert(entries.len() > 0) by {
        assert(set.contains(0));
    }
    each_place_taken(entries, 0);
}

proof fn each_place_taken<V>(entries: Seq<(u16, V)>, n: int)
    requires
        keys_sorted(entries),
        gapless(entries_map(entries).dom()),
        0 <= n < entries.len(),
        forall|i: int| 0 <= i < n ==> (#[trigger] entries[i]).0 == i,
    ensures
        forall|i: int| 0 <= i < entries.len() ==> (#[trigger] entries[i]).0 == i,
    decreases entries.len() - n,
{
    let set = entries_map(entries).dom();
    entries_map_contains(entries);
    places_of_indices(entries);
    let key = entries[n].0;
    assert(key == n) by {
        if key > n {
            assert(set.contains(key@));
            let prior = (key - 1) as u16;
            assert(set.contains(prior));
            let j = choose|j: int| 0 <= j < entries.len() && (#[trigger] entries[j]).0@ == prior;
            if j < n {
                assert(entries[j].0 == j);
            } else if j > n {
                assert(u16::before(entries[n].0@, entries[j].0@));
            }
        }
    }
    if n + 1 < entries.len() {
        each_place_taken(entries, n + 1);
    }
}

/// Whether indices run from zero with none left out.
fn runs_from_zero<V>(m: &SortedMap<u16, V>) -> (r: bool)
    requires
        m.wf(),
    ensures
        r == gapless(m@.dom()),
        r ==> forall|i: int| 0 <= i < m.seq().len() ==> (#[trigger] m.seq()[i]).0 == i,
{
    let n: usize = m.len();
    proof {
        entries_map_contains(m.seq());
        if gapless(m@.dom()) {
            gapless_places(m.seq());
        }
    }
    if n == 0 {
        return false;
    }
    let last: u16 = *m.key_at(n - 1);
    let full = (last as usize) + 1 == n;
    proof {
        if full {
            places_of_indices(m.seq());
            assert(gapless(m@.dom())) by {
                assert(m.seq()[0].0@ == 0);
                assert forall|k: u16| k > 0 && #[trigger] m@.dom().contains(k) implies m@.dom().contains(
                    (k - 1) as u16,
                ) by {
                    let i = choose|i: int| 0 <= i < m.seq().len() && (#[trigger] m.seq()[i]).0@ == k;
                    assert(m.seq()[i - 1].0@ == (k - 1) as u16);
                }
            }
        }
    }
    full
}

/// Write the indices of a map as a bracketed list.
fn push_index_list<V>(out: &mut String, m: &SortedMap<u16, V>)
    requires
        m.wf(),
    ensures
        final(out)@ == old(out)@ + index_list(m@.dom()),
{
    let ghost before = out@;
    let ghost keys = m.seq().map_values(|e: (u16, V)| e.0);
    let mut list = String::new();
    let mut i: usize = 0;
    assert(keys.take(0) =~= Seq::empty());
    assert(list@ =~= commas(keys.take(0)));
    while i < m.len()
        invariant
            m.wf(),
            i <= m.seq().len(),
            keys == m.seq().map_values(|e: (u16, V)| e.0),
            list@ == commas(keys.take(i as int)),
        decreases m.seq().len() - i,
    {
        let ghost shown = list@;
        if i > 0 {
            list.append(", ");
        }
        push_u64(&mut list, *m.key_at(i) as u64);
        proof {
            let next = keys.take(i + 1);
            assert(next.drop_last() =~= keys.take(i as int));
            assert(next.last() == m.seq()[i as int].0);
            if i == 0 {
                assert(next.len() == 1 && next[0] == next.last());
                assert(shown =~= Seq::empty());
                assert(list@ =~= int_text(next[0] as int));
            }
        }
        i += 1;
    }
    proof {
        assert(keys.take(i as int) =~= keys);
        entries_list_indices(m.seq(), 65536);
    }
    out.append("[");
    out.append(list.as_str());
    out.append("]");
    assert(out@ =~= before + index_list(m@.dom()));
}

// -- instruments -----------------------------------------------------------------

/// One row of the table of instruments: one outcome of one of them.
#[derive(PartialEq, Eq, Debug)]
pub struct InstrumentRow {
    pub known_at: i64,
    pub id: String,
    pub venue: String,
    pub kind: String,
    pub outcome: u16,
    pub label: String,
    pub tick: Cell,
    pub lot: Cell,
    pub expiration: Option<i64>,
    pub observable: Option<i64>,
    pub neg_risk: Option<bool>,
    pub significant_figures: Option<u8>,
    pub max_decimals: Option<u8>,
}

/// A row with its texts as sequences of characters.
pub struct InstrumentRowView {
    pub known_at: i64,
    pub id: Seq<char>,
    pub venue: Seq<char>,
    pub kind: Seq<char>,
    pub outcome: u16,
    pub label: Seq<char>,
    pub tick: Result<Option<i64>, ErrorView>,
    pub lot: Result<Option<i64>, ErrorView>,
    pub expiration: Option<i64>,
    pub observable: Option<i64>,
    pub neg_risk: Option<bool>,
    pub significant_figures: Option<u8>,
    pub max_decimals: Option<u8>,
}

impl View for InstrumentRow {
    type V = InstrumentRowView;

    open spec fn view(&self) -> InstrumentRowView {
        InstrumentRowView {
            known_at: self.known_at,
            id: self.id@,
            venue: self.venue@,
            kind: self.kind@,
            outcome: self.outcome,
            label: self.label@,
            tick: cell_view(self.tick),
            lot: cell_view(self.lot),
            expiration: self.expiration,
            observable: self.observable,
            neg_risk: self.neg_risk,
            significant_figures: self.significant_figures,
            max_decimals: self.max_decimals,
        }
    }
}

/// The name a kind is written under.
pub open spec fn kind_text(kind: InstrumentKind) -> Seq<char> {
    match kind {
        InstrumentKind::PredictionMarket => "prediction_market"@,
        InstrumentKind::Perpetual => "perpetual"@,
        InstrumentKind::Spot => "spot"@,
    }
}

/// The kind a name stands for.
pub open spec fn kind_read(text: Seq<char>) -> Result<InstrumentKind, ErrorView> {
    if text == "prediction_market"@ {
        Ok(InstrumentKind::PredictionMarket)
    } else if text == "perpetual"@ {
        Ok(InstrumentKind::Perpetual)
    } else if text == "spot"@ {
        Ok(InstrumentKind::Spot)
    } else {
        Err(ErrorView::Parse { what: "instrument kind"@, value: text })
    }
}

/// The name a kind is written under.
pub fn kind_name(kind: &InstrumentKind) -> (r: &'static str)
    ensures
        r@ == kind_text(*kind),
{
    match kind {
        InstrumentKind::PredictionMarket => "prediction_market",
        InstrumentKind::Perpetual => "perpetual",
        InstrumentKind::Spot => "spot",
    }
}

/// Read a kind.
pub fn parse_kind(text: &str) -> (r: Result<InstrumentKind, BacktestError>)
    ensures
        match r {
            Ok(kind) => kind_read(text@) == Ok::<InstrumentKind, ErrorView>(kind),
            Err(e) => kind_read(text@) == Err::<InstrumentKind, ErrorView>(e@),
        },
{
    if str_same(text, "prediction_market") {
        Ok(InstrumentKind::PredictionMarket)
    } else if str_same(text, "perpetual") {
        Ok(InstrumentKind::Perpetual)
    } else if str_same(text, "spot") {
        Ok(InstrumentKind::Spot)
    } else {
        Err(BacktestError::Parse { what: "instrument kind", value: text.to_owned() })
    }
}

/// A kind is read back from the name it is written under.
pub proof fn kinds_read_back(kind: InstrumentKind)
    ensures
        kind_read(kind_text(kind)) == Ok::<InstrumentKind, ErrorView>(kind),
{
    reveal_strlit("prediction_market");
    reveal_strlit("perpetual");
    reveal_strlit("spot");
    assert("prediction_market"@.len() == 17 && "perpetual"@.len() == 9 && "spot"@.len() == 4);
}

/// What the rows of one instrument have come to.
pub struct DraftView {
    pub venue: Seq<char>,
    pub kind: Seq<char>,
    pub outcomes: Map<u16, Seq<char>>,
    pub tick: i64,
    pub lot: i64,
    pub expiration: Option<i64>,
    pub observable: Option<i64>,
    pub neg_risk: bool,
    pub price_rule: Option<(u8, u8)>,
}

/// What an instrument's first row says of the whole instrument.
pub open spec fn begun(row: InstrumentRowView, tick: i64, lot: i64) -> DraftView {
    DraftView {
        venue: row.venue,
        kind: row.kind,
        outcomes: Map::empty(),
        tick,
        lot,
        expiration: row.expiration,
        observable: row.observable,
        neg_risk: row.neg_risk == Some(true),
        price_rule: match (row.significant_figures, row.max_decimals) {
            (Some(figures), Some(decimals)) => Some((figures, decimals)),
            _ => None,
        },
    }
}

/// The drafts with one more row gathered.
pub open spec fn row_gathered(
    drafts: Map<Seq<char>, DraftView>,
    row: InstrumentRowView,
) -> Result<Map<Seq<char>, DraftView>, ErrorView> {
    match value_in(row.tick, "tick_size"@) {
        Err(e) => Err(e),
        Ok(tick) => match value_in(row.lot, "lot_size"@) {
            Err(e) => Err(e),
            Ok(lot) => {
                let draft = if drafts.dom().contains(row.id) {
                    drafts[row.id]
                } else {
                    begun(row, tick, lot)
                };
                Ok(
                    drafts.insert(
                        row.id,
                        DraftView { outcomes: draft.outcomes.insert(row.outcome, row.label), ..draft },
                    ),
                )
            },
        },
    }
}

/// Rows gathered by instrument, behind drafts already under way.
pub open spec fn gathered(
    drafts: Map<Seq<char>, DraftView>,
    rows: Seq<InstrumentRowView>,
) -> Result<Map<Seq<char>, DraftView>, ErrorView>
    decreases rows.len(),
{
    if rows.len() == 0 {
        Ok(drafts)
    } else {
        match gathered(drafts, rows.drop_last()) {
            Err(e) => Err(e),
            Ok(so_far) => row_gathered(so_far, rows.last()),
        }
    }
}

pub open spec fn instrument_gaps_text(id: Seq<char>, set: Set<u16>) -> Seq<char> {
    "instrument "@ + id + " has gaps in its outcome indices: "@ + index_list(set)
}

/// The labels of outcomes that run from zero, in order.
pub open spec fn labels(outcomes: Map<u16, Seq<char>>) -> Seq<Seq<char>> {
    Seq::new(outcomes.dom().len(), |i: int| outcomes[i as u16])
}

/// The outcomes a draft's instrument has, or why it cannot be made.
pub open spec fn outcomes_of(id: Seq<char>, kind: InstrumentKind, draft: DraftView) -> Result<
    Seq<Seq<char>>,
    ErrorView,
> {
    if kind is PredictionMarket && draft.outcomes.dom().len() < 2 {
        Err(
            ErrorView::Invalid(
                "a prediction market needs at least two outcomes; a market with one possible result is not a market"@,
            ),
        )
    } else if !names_instrument(id) {
        Err(ErrorView::Invalid("instrument id must not be empty"@))
    } else if kind is PredictionMarket {
        Ok(labels(draft.outcomes))
    } else {
        Ok(seq!["-"@])
    }
}

/// The instrument a draft comes to.
///
/// A price rule in decimals would fix the tick; the stored tick wins over
/// that, so a venue quoting coarser than its own rule reads back faithfully.
pub open spec fn assembled(id: Seq<char>, draft: DraftView) -> Result<InstrumentView, ErrorView> {
    match kind_read(draft.kind) {
        Err(e) => Err(e),
        Ok(kind) => if !gapless(draft.outcomes.dom()) {
            Err(ErrorView::Invalid(instrument_gaps_text(id, draft.outcomes.dom())))
        } else {
            match outcomes_of(id, kind, draft) {
                Err(e) => Err(e),
                Ok(outcomes) => if draft.price_rule is Some && draft.price_rule->Some_0.1 > 9 {
                    Err(
                        ErrorView::Invalid(
                            "a price rule cannot allow more than nine decimals"@,
                        ),
                    )
                } else {
                    Ok(
                        InstrumentView {
                            id,
                            venue: draft.venue,
                            kind,
                            outcomes,
                            tick_size: Price(draft.tick),
                            lot_size: Qty(draft.lot),
                            settlement_currency: "USDC"@,
                            expiration: instant_of(draft.expiration),
                            settlement_observable: instant_of(draft.observable),
                            neg_risk: draft.neg_risk,
                            price_rule: match draft.price_rule {
                                Some((significant_figures, max_decimals)) => {
                                    PriceRule::SignificantFigures {
                                        significant_figures,
                                        max_decimals,
                                    }
                                },
                                None => PriceRule::Tick,
                            },
                        },
                    )
                },
            }
        },
    }
}

/// An optional instant.
pub open spec fn instant_of(at: Option<i64>) -> Option<UnixNanos> {
    match at {
        Some(at) => Some(UnixNanos(at)),
        None => None,
    }
}

fn instant(at: Option<i64>) -> (r: Option<UnixNanos>)
    ensures
        r == instant_of(at),
{
    match at {
        Some(at) => Some(UnixNanos(at)),
        None => None,
    }
}

/// What reading a table of instruments comes to: every instrument its rows
/// describe, or the fault of the first of them, by id, that has one.
pub open spec fn instruments_read(
    rows: Seq<InstrumentRowView>,
    r: Result<Map<Seq<char>, Instrument>, ErrorView>,
) -> bool {
    match gathered(Map::empty(), rows) {
        Err(e) => r == Err::<Map<Seq<char>, Instrument>, ErrorView>(e),
        Ok(drafts) => match r {
            Ok(set) => {
                &&& set.dom() == drafts.dom()
                &&& forall|id: Seq<char>| #[trigger]
                    drafts.dom().contains(id) ==> assembled(id, drafts[id]) == Ok::<
                        InstrumentView,
                        ErrorView,
                    >(set[id]@)
            },
            Err(e) => exists|id: Seq<char>| #[trigger] first_fault(drafts, id, e),
        },
    }
}

/// The first draft, by id, that cannot be assembled, and why.
pub open spec fn first_fault(
    drafts: Map<Seq<char>, DraftView>,
    id: Seq<char>,
    e: ErrorView,
) -> bool {
    &&& drafts.dom().contains(id)
    &&& assembled(id, drafts[id]) == Err::<InstrumentView, ErrorView>(e)
    &&& forall|other: Seq<char>| #[trigger]
        drafts.dom().contains(other) && text_before(other, id) ==> assembled(
            other,
            drafts[other],
        ) is Ok
}

/// The rows of one instrument under way.
struct InstrumentDraft {
    venue: String,
    kind: String,
    outcomes: SortedMap<u16, String>,
    tick: i64,
    lot: i64,
    expiration: Option<i64>,
    observable: Option<i64>,
    neg_risk: bool,
    price_rule: Option<(u8, u8)>,
}

spec fn label_map(outcomes: Map<u16, String>) -> Map<u16, Seq<char>> {
    outcomes.map_values(|label: String| label@)
}

spec fn draft_view(d: InstrumentDraft) -> DraftView {
    DraftView {
        venue: d.venue@,
        kind: d.kind@,
        outcomes: label_map(d.outcomes@),
        tick: d.tick,
        lot: d.lot,
        expiration: d.expiration,
        observable: d.observable,
        neg_risk: d.neg_risk,
        price_rule: d.price_rule,
    }
}

spec fn draft_views(drafts: Map<Seq<char>, InstrumentDraft>) -> Map<Seq<char>, DraftView> {
    drafts.map_values(|d: InstrumentDraft| draft_view(d))
}

spec fn drafts_wf(drafts: SortedMap<String, InstrumentDraft>) -> bool {
    &&& drafts.wf()
    &&& forall|i: int|
        0 <= i < drafts.seq().len() ==> (#[trigger] drafts.seq()[i]).1.outcomes.wf()
}

proof fn a_gathering_fault_stays(
    drafts: Map<Seq<char>, DraftView>,
    rows: Seq<InstrumentRowView>,
    n: int,
)
    requires
        0 <= n <= rows.len(),
        gathered(drafts, rows.take(n)) is Err,
    ensures
        gathered(drafts, rows) == gathered(drafts, rows.take(n)),
    decreases rows.len() - n,
{
    if n < rows.len() {
        assert(rows.take(n + 1).drop_last() =~= rows.take(n));
        a_gathering_fault_stays(drafts, rows, n + 1);
    } else {
        assert(rows.take(n) =~= rows);
    }
}

/// Gather one row.
fn gather(drafts: &mut SortedMap<String, InstrumentDraft>, row: &InstrumentRow) -> (r: Result<
    (),
    BacktestError,
>)
    requires
        drafts_wf(*old(drafts)),
    ensures
        match r {
            Ok(_) => {
                &&& drafts_wf(*final(drafts))
                &&& row_gathered(draft_views(old(drafts)@), row@) == Ok::<
                    Map<Seq<char>, DraftView>,
                    ErrorView,
                >(draft_views(final(drafts)@))
            },
            Err(e) => row_gathered(draft_views(old(drafts)@), row@) == Err::<
                Map<Seq<char>, DraftView>,
                ErrorView,
            >(e@),
        },
{
    let ghost before = drafts@;
    let ghost entries = drafts.seq();
    let tick: i64 = cell_value(&row.tick, "tick_size")?;
    let lot: i64 = cell_value(&row.lot, "lot_size")?;
    let ghost want = row_gathered(draft_views(before), row@)->Ok_0;
    match drafts.find(&row.id) {
        Some(i) => {
            let ghost old_draft = entries[i as int].1;
            proof {
                entries_map_contains(entries);
                assert(entries[i as int].1.outcomes.wf());
                assert(draft_views(before)[row.id@] == draft_view(old_draft));
            }
            let draft = drafts.value_mut(i);
            draft.outcomes.insert(row.outcome, row.label.clone());
            proof {
                let new_draft = drafts.seq()[i as int].1;
                assert(label_map(new_draft.outcomes@) =~= label_map(old_draft.outcomes@).insert(
                    row.outcome,
                    row.label@,
                ));
                assert(draft_views(drafts@) =~= want);
                assert forall|k: int| 0 <= k < drafts.seq().len() implies (
                #[trigger] drafts.seq()[k]).1.outcomes.wf() by {
                    if k != i {
                        assert(drafts.seq()[k] == entries[k]);
                    }
                }
            }
        },
        None => {
            let mut outcomes: SortedMap<u16, String> = SortedMap::new();
            outcomes.insert(row.outcome, row.label.clone());
            let neg_risk = match row.neg_risk {
                Some(flag) => flag,
                None => false,
            };
            let price_rule = match (row.significant_figures, row.max_decimals) {
                (Some(figures), Some(decimals)) => Some((figures, decimals)),
                _ => None,
            };
            let draft = InstrumentDraft {
                venue: row.venue.clone(),
                kind: row.kind.clone(),
                outcomes,
                tick,
                lot,
                expiration: row.expiration,
                observable: row.observable,
                neg_risk,
                price_rule,
            };
            proof {
                assert(label_map(draft.outcomes@) =~= Map::<u16, Seq<char>>::empty().insert(
                    row.outcome,
                    row.label@,
                ));
                assert(draft_views(before).dom() =~= before.dom());
            }
            let at = drafts.insert(row.id.clone(), draft);
            proof {
                assert(draft_views(drafts@) =~= want);
                assert forall|k: int| 0 <= k < drafts.seq().len() implies (
                #[trigger] drafts.seq()[k]).1.outcomes.wf() by {
                    if k < at {
                        assert(drafts.seq()[k] == entries[k]);
                    } else if k > at {
                        assert(drafts.seq()[k] == entries[k - 1]);
                    }
                }
            }
        },
    }
    Ok(())
}

/// Make an instrument of its gathered rows.
fn assemble(id: &str, draft: &InstrumentDraft) -> (r: Result<Instrument, BacktestError>)
    requires
        draft.outcomes.wf(),
    ensures
        match r {
            Ok(instrument) => assembled(id@, draft_view(*draft)) == Ok::<InstrumentView, ErrorView>(
                instrument@,
            ),
            Err(e) => assembled(id@, draft_view(*draft)) == Err::<InstrumentView, ErrorView>(e@),
        },
{
    let ghost view = draft_view(*draft);
    let ghost entries = draft.outcomes.seq();
    proof {
        assert(view.outcomes.dom() =~= draft.outcomes@.dom());
        entries_map_counts(entries);
        entries_map_contains(entries);
    }
    let kind = parse_kind(draft.kind.as_str())?;
    if !runs_from_zero(&draft.outcomes) {
        let mut m = "instrument ".to_owned();
        m.append(id);
        m.append(" has gaps in its outcome indices: ");
        push_index_list(&mut m, &draft.outcomes);
        return Err(BacktestError::invalid(m.as_str()));
    }
    let base = match kind {
        InstrumentKind::PredictionMarket => {
            let mut outcomes: Vec<String> = Vec::new();
            let mut i: usize = 0;
            while i < draft.outcomes.len()
                invariant
                    i <= entries.len(),
                    draft.outcomes.wf(),
                    entries == draft.outcomes.seq(),
                    outcomes@.len() == i,
                    forall|k: int| 0 <= k < i ==> (#[trigger] outcomes@[k]) == entries[k].1,
                decreases entries.len() - i,
            {
                outcomes.push(draft.outcomes.value_at(i).clone());
                i += 1;
            }
            proof {
                let listed = outcomes@.map_values(|label: String| label@);
                assert forall|k: int| 0 <= k < listed.len() implies listed[k] == labels(
                    view.outcomes,
                )[k] by {
                    assert(entries[k].0 == k);
                    assert(draft.outcomes@[entries[k].0@] == entries[k].1);
                    assert(view.outcomes[k as u16] == draft.outcomes@[k as u16]@);
                }
                assert(listed =~= labels(view.outcomes));
            }
            let market = Instrument::prediction_market(id, draft.venue.as_str(), outcomes)?;
            market
        },
        InstrumentKind::Perpetual => {
            let perpetual = Instrument::perpetual(id, draft.venue.as_str())?;
            assert(perpetual@.outcomes =~= seq!["-"@]);
            perpetual
        },
        InstrumentKind::Spot => {
            let perpetual = Instrument::perpetual(id, draft.venue.as_str())?;
            let spot = Instrument { kind: InstrumentKind::Spot, ..perpetual };
            assert(spot@.outcomes =~= seq!["-"@]);
            spot
        },
    };
    let ghost outcomes = base@.outcomes;
    let ruled = match draft.price_rule {
        Some((significant_figures, max_decimals)) => base.with_price_rule(
            PriceRule::SignificantFigures { significant_figures, max_decimals },
        )?,
        None => base,
    };
    Ok(
        Instrument {
            tick_size: Price(draft.tick),
            lot_size: Qty(draft.lot),
            expiration: instant(draft.expiration),
            settlement_observable: instant(draft.observable),
            neg_risk: draft.neg_risk,
            ..ruled
        },
    )
}

/// Read instruments back, reassembling outcomes into whole instruments.
pub fn read_instruments(rows: &[InstrumentRow]) -> (r: Result<InstrumentSet, BacktestError>)
    ensures
        match r {
            Ok(set) => set.wf() && instruments_read(views(rows@), Ok(set@)),
            Err(e) => instruments_read(views(rows@), Err(e@)),
        },
{
    let mut drafts: SortedMap<String, InstrumentDraft> = SortedMap::new();
    let ghost all = views(rows@);
    let ghost none = Map::<Seq<char>, DraftView>::empty();
    let mut i: usize = 0;
    assert(all.take(0) =~= Seq::empty());
    assert(draft_views(drafts@) =~= none);
    while i < rows.len()
        invariant
            i <= rows@.len(),
            all == views(rows@),
            none == Map::<Seq<char>, DraftView>::empty(),
            drafts_wf(drafts),
            gathered(none, all.take(i as int)) == Ok::<Map<Seq<char>, DraftView>, ErrorView>(
                draft_views(drafts@),
            ),
        decreases rows@.len() - i,
    {
        proof {
            assert(all.take(i + 1).drop_last() =~= all.take(i as int));
            assert(all.take(i + 1).last() == rows@[i as int]@);
            if row_gathered(draft_views(drafts@), rows@[i as int]@) is Err {
                a_gathering_fault_stays(none, all, i + 1);
            }
        }
        gather(&mut drafts, &rows[i])?;
        i += 1;
    }
    assert(all.take(i as int) =~= all);
    let ghost views_of = draft_views(drafts@);
    let ghost entries = drafts.seq();
    proof {
        entries_map_contains(entries);
        assert(views_of.dom() =~= drafts@.dom());
    }
    let mut set = InstrumentSet::new();
    let mut k: usize = 0;
    while k < drafts.len()
        invariant
            k <= entries.len(),
            drafts_wf(drafts),
            entries == drafts.seq(),
            views_of == draft_views(drafts@),
            gathered(Map::empty(), views(rows@)) == Ok::<Map<Seq<char>, DraftView>, ErrorView>(
                views_of,
            ),
            set.wf(),
            forall|j: int|
                0 <= j < entries.len() ==> views_of.dom().contains((#[trigger] entries[j]).0@)
                    && views_of[entries[j].0@] == draft_view(entries[j].1),
            forall|id: Seq<char>| #[trigger]
                views_of.dom().contains(id) ==> exists|j: int|
                    0 <= j < entries.len() && (#[trigger] entries[j]).0@ == id,
            forall|j: int|
                0 <= j < k ==> set@.dom().contains((#[trigger] entries[j]).0@) && assembled(
                    entries[j].0@,
                    views_of[entries[j].0@],
                ) == Ok::<InstrumentView, ErrorView>(set@[entries[j].0@]@),
            forall|id: Seq<char>| #[trigger]
                set@.dom().contains(id) ==> exists|j: int|
                    0 <= j < k && (#[trigger] entries[j]).0@ == id,
        decreases entries.len() - k,
    {
        let id = drafts.key_at(k).as_str();
        let draft = drafts.value_at(k);
        assert(entries[k as int].1.outcomes.wf());
        let made = assemble(id, draft);
        let instrument = match made {
            Ok(instrument) => instrument,
            Err(e) => {
                proof {
                    let here = entries[k as int].0@;
                    assert forall|other: Seq<char>| #[trigger]
                        views_of.dom().contains(other) && text_before(other, here) implies assembled(
                        other,
                        views_of[other],
                    ) is Ok by {
                        let j = choose|j: int|
                            0 <= j < entries.len() && (#[trigger] entries[j]).0@ == other;
                        if j > k {
                            assert(String::before(entries[k as int].0@, entries[j].0@));
                            String::before_transitive(other, here, other);
                        }
                        if j >= k {
                            String::before_irreflexive(other);
                        }
                    }
                    assert(first_fault(views_of, here, e@));
                }
                return Err(e);
            },
        };
        let ghost before = set@;
        proof {
            if before.dom().contains(instrument.id@) {
                let j = choose|j: int| 0 <= j < k && (#[trigger] entries[j]).0@ == instrument.id@;
                assert(String::before(entries[j].0@, entries[k as int].0@));
                String::before_irreflexive(instrument.id@);
            }
        }
        set.insert(instrument)?;
        proof {
            assert forall|j: int| 0 <= j < k + 1 implies set@.dom().contains(
                (#[trigger] entries[j]).0@,
            ) && assembled(entries[j].0@, views_of[entries[j].0@]) == Ok::<
                InstrumentView,
                ErrorView,
            >(set@[entries[j].0@]@) by {
                if j < k {
                    assert(String::before(entries[j].0@, entries[k as int].0@));
                    String::before_irreflexive(entries[j].0@);
                    assert(before.dom().contains(entries[j].0@));
                }
            }
            assert forall|id: Seq<char>| #[trigger] set@.dom().contains(id) implies exists|j: int|
                0 <= j < k + 1 && (#[trigger] entries[j]).0@ == id by {
                if id == instrument.id@ {
                    assert(entries[k as int].0@ == id);
                } else {
                    assert(before.dom().contains(id));
                    let j = choose|j: int| 0 <= j < k && (#[trigger] entries[j]).0@ == id;
                    assert(entries[j].0@ == id);
                }
            }
        }
        k += 1;
    }
    proof {
        assert(set@.dom() =~= views_of.dom());
        assert forall|id: Seq<char>| #[trigger] views_of.dom().contains(id) implies assembled(
            id,
            views_of[id],
        ) == Ok::<InstrumentView, ErrorView>(set@[id]@) by {
            let j = choose|j: int| 0 <= j < entries.len() && (#[trigger] entries[j]).0@ == id;
            assert(entries[j].0@ == id);
        }
    }
    Ok(set)
}

/// The row of one outcome of an instrument.
pub open spec fn instrument_row(
    instrument: InstrumentView,
    known_at: UnixNanos,
    outcome: int,
) -> InstrumentRowView {
    InstrumentRowView {
        known_at: known_at.0,
        id: instrument.id,
        venue: instrument.venue,
        kind: kind_text(instrument.kind),
        outcome: outcome as u16,
        label: instrument.outcomes[outcome],
        tick: Ok(Some(instrument.tick_size.0)),
        lot: Ok(Some(instrument.lot_size.0)),
        expiration: nanos_of(instrument.expiration),
        observable: nanos_of(instrument.settlement_observable),
        neg_risk: Some(instrument.neg_risk),
        significant_figures: match instrument.price_rule {
            PriceRule::Tick => None,
            PriceRule::SignificantFigures { significant_figures, .. } => Some(significant_figures),
        },
        max_decimals: match instrument.price_rule {
            PriceRule::Tick => None,
            PriceRule::SignificantFigures { max_decimals, .. } => Some(max_decimals),
        },
    }
}

/// An optional instant as a number.
pub open spec fn nanos_of(at: Option<UnixNanos>) -> Option<i64> {
    match at {
        Some(at) => Some(at.0),
        None => None,
    }
}

pub(crate) fn nanos(at: Option<UnixNanos>) -> (r: Option<i64>)
    ensures
        r == nanos_of(at),
{
    match at {
        Some(at) => Some(at.0),
        None => None,
    }
}

/// The rows of an instrument: one per outcome, in order.
pub open spec fn instrument_rows(instrument: InstrumentView, known_at: UnixNanos) -> Seq<
    InstrumentRowView,
> {
    Seq::new(
        instrument.outcomes.len(),
        |outcome: int| instrument_row(instrument, known_at, outcome),
    )
}

/// The rows of a list of instruments.
pub open spec fn catalogue_rows(instruments: Seq<InstrumentView>, known_at: UnixNanos) -> Seq<
    InstrumentRowView,
>
    decreases instruments.len(),
{
    if instruments.len() == 0 {
        Seq::empty()
    } else {
        catalogue_rows(instruments.drop_last(), known_at) + instrument_rows(
            instruments.last(),
            known_at,
        )
    }
}

/// Lay instruments out as rows, one per outcome.
pub fn write_instruments(instruments: &[Instrument], known_at: UnixNanos) -> (rows: Vec<
    InstrumentRow,
>)
    requires
        forall|i: int|
            0 <= i < instruments@.len() ==> (#[trigger] instruments@[i]).outcomes@.len() <= 65536,
    ensures
        views(rows@) == catalogue_rows(views(instruments@), known_at),
{
    let mut rows: Vec<InstrumentRow> = Vec::new();
    let ghost all = views(instruments@);
    let mut i: usize = 0;
    assert(all.take(0) =~= Seq::empty());
    assert(views(rows@) =~= catalogue_rows(all.take(0), known_at));
    while i < instruments.len()
        invariant
            i <= instruments@.len(),
            all == views(instruments@),
            forall|k: int|
                0 <= k < instruments@.len() ==> (#[trigger] instruments@[k]).outcomes@.len()
                    <= 65536,
            views(rows@) == catalogue_rows(all.take(i as int), known_at),
        decreases instruments@.len() - i,
    {
        let instrument = &instruments[i];
        let ghost before = views(rows@);
        let ghost mine = instrument_rows(instrument@, known_at);
        let (significant_figures, max_decimals) = match instrument.price_rule {
            PriceRule::Tick => (None, None),
            PriceRule::SignificantFigures { significant_figures, max_decimals } => (
                Some(significant_figures),
                Some(max_decimals),
            ),
        };
        let mut outcome: usize = 0;
        assert(before + mine.take(0) =~= before);
        while outcome < instrument.outcomes.len()
            invariant
                outcome <= instrument.outcomes@.len() <= 65536,
                mine == instrument_rows(instrument@, known_at),
                significant_figures == (match instrument.price_rule {
                    PriceRule::Tick => None::<u8>,
                    PriceRule::SignificantFigures { significant_figures, .. } => Some(
                        significant_figures,
                    ),
                }),
                max_decimals == (match instrument.price_rule {
                    PriceRule::Tick => None::<u8>,
                    PriceRule::SignificantFigures { max_decimals, .. } => Some(max_decimals),
                }),
                views(rows@) == before + mine.take(outcome as int),
            decreases instrument.outcomes@.len() - outcome,
        {
            let row = InstrumentRow {
                known_at: known_at.0,
                id: instrument.id.as_str().to_owned(),
                venue: instrument.venue.clone(),
                kind: kind_name(&instrument.kind).to_owned(),
                outcome: outcome as u16,
                label: instrument.outcomes[outcome].clone(),
                tick: Ok(Some(instrument.tick_size.0)),
                lot: Ok(Some(instrument.lot_size.0)),
                expiration: nanos(instrument.expiration),
                observable: nanos(instrument.settlement_observable),
                neg_risk: Some(instrument.neg_risk),
                significant_figures,
                max_decimals,
            };
            let ghost was = rows@;
            rows.push(row);
            proof {
                assert(row@ == mine[outcome as int]);
                assert(views(rows@) =~= views(was).push(row@));
                assert(mine.take(outcome + 1) =~= mine.take(outcome as int).push(row@));
                assert(views(rows@) =~= before + mine.take(outcome + 1));
            }
            outcome += 1;
        }
        proof {
            assert(mine.take(outcome as int) =~= mine);
            assert(all.take(i + 1).drop_last() =~= all.take(i as int));
            assert(all.take(i + 1).last() == instrument@);
        }
        i += 1;
    }
    assert(all.take(i as int) =~= all);
    rows
}

/// An instrument the table can carry whole: named, settling in USDC, with a
/// row for each outcome it may have, and a price rule that can be set.
pub open spec fn listable(instrument: InstrumentView) -> bool {
    &&& names_instrument(instrument.id)
    &&& instrument.settlement_currency == "USDC"@
    &&& 1 <= instrument.outcomes.len() <= 65536
    &&& if instrument.kind is PredictionMarket {
        instrument.outcomes.len() >= 2
    } else {
        instrument.outcomes == seq!["-"@]
    }
    &&& instrument.price_rule matches PriceRule::SignificantFigures { max_decimals, .. }
        ==> max_decimals <= 9
}

/// The draft an instrument's first `n` rows come to.
spec fn partly(instrument: InstrumentView, n: int) -> DraftView {
    DraftView {
        venue: instrument.venue,
        kind: kind_text(instrument.kind),
        outcomes: Map::new(|k: u16| k < n, |k: u16| instrument.outcomes[k as int]),
        tick: instrument.tick_size.0,
        lot: instrument.lot_size.0,
        expiration: nanos_of(instrument.expiration),
        observable: nanos_of(instrument.settlement_observable),
        neg_risk: instrument.neg_risk,
        price_rule: match instrument.price_rule {
            PriceRule::Tick => None,
            PriceRule::SignificantFigures { significant_figures, max_decimals } => Some(
                (significant_figures, max_decimals),
            ),
        },
    }
}

proof fn first_places_count(n: nat)
    requires
        n <= 65536,
    ensures
        Set::<u16>::new(|k: u16| k < n).finite(),
        Set::<u16>::new(|k: u16| k < n).len() == n,
    decreases n,
{
    let set = Set::<u16>::new(|k: u16| k < n);
    if n == 0 {
        assert(set =~= Set::empty());
    } else {
        first_places_count((n - 1) as nat);
        let rest = Set::<u16>::new(|k: u16| k < n - 1);
        assert(set =~= rest.insert((n - 1) as u16));
    }
}

proof fn whole_draft_assembles(instrument: InstrumentView)
    requires
        listable(instrument),
    ensures
        assembled(instrument.id, partly(instrument, instrument.outcomes.len() as int)) == Ok::<
            InstrumentView,
            ErrorView,
        >(instrument),
{
    let n = instrument.outcomes.len();
    let draft = partly(instrument, n as int);
    kinds_read_back(instrument.kind);
    first_places_count(n);
    assert(draft.outcomes.dom() =~= Set::<u16>::new(|k: u16| k < n));
    assert(gapless(draft.outcomes.dom()));
    assert(labels(draft.outcomes) =~= instrument.outcomes);
}

proof fn rows_gather(
    drafts: Map<Seq<char>, DraftView>,
    instrument: InstrumentView,
    known_at: UnixNanos,
    n: int,
)
    requires
        listable(instrument),
        !drafts.dom().contains(instrument.id),
        1 <= n <= instrument.outcomes.len(),
    ensures
        gathered(drafts, instrument_rows(instrument, known_at).take(n)) == Ok::<
            Map<Seq<char>, DraftView>,
            ErrorView,
        >(drafts.insert(instrument.id, partly(instrument, n))),
    decreases n,
{
    let rows = instrument_rows(instrument, known_at);
    let row = rows[n - 1];
    let want = drafts.insert(instrument.id, partly(instrument, n));
    assert(rows.take(n).drop_last() =~= rows.take(n - 1));
    assert(rows.take(n).last() == row);
    if n == 1 {
        assert(rows.take(0) =~= Seq::empty());
        let base = begun(row, instrument.tick_size.0, instrument.lot_size.0);
        assert(base.outcomes.insert(0, row.label) =~= partly(instrument, 1).outcomes);
        assert(row_gathered(drafts, row)->Ok_0 =~= want);
    } else {
        rows_gather(drafts, instrument, known_at, n - 1);
        let so_far = drafts.insert(instrument.id, partly(instrument, n - 1));
        assert(partly(instrument, n - 1).outcomes.insert((n - 1) as u16, row.label) =~= partly(
            instrument,
            n,
        ).outcomes);
        assert(row_gathered(so_far, row)->Ok_0 =~= want);
    }
}

proof fn gathered_in_two(
    drafts: Map<Seq<char>, DraftView>,
    a: Seq<InstrumentRowView>,
    b: Seq<InstrumentRowView>,
)
    ensures
        gathered(drafts, a + b) == match gathered(drafts, a) {
            Err(e) => Err(e),
            Ok(mid) => gathered(mid, b),
        },
    decreases b.len(),
{
    if b.len() == 0 {
        assert(a + b =~= a);
    } else {
        assert((a + b).drop_last() =~= a + b.drop_last());
        assert((a + b).last() == b.last());
        gathered_in_two(drafts, a, b.drop_last());
    }
}

/// Reading instruments back gives the instruments written: every draft the
/// rows gather into is one of them, and assembles into it as it was.
pub proof fn instruments_read_back_what_was_written(
    instruments: Seq<InstrumentView>,
    known_at: UnixNanos,
)
    requires
        forall|i: int| 0 <= i < instruments.len() ==> listable(#[trigger] instruments[i]),
        forall|i: int, j: int|
            0 <= i < j < instruments.len() ==> (#[trigger] instruments[i]).id != (
            #[trigger] instruments[j]).id,
    ensures
        gathered(Map::empty(), catalogue_rows(instruments, known_at)) is Ok,
        ({
            let drafts = gathered(Map::empty(), catalogue_rows(instruments, known_at))->Ok_0;
            &&& forall|i: int|
                0 <= i < instruments.len() ==> drafts.dom().contains((#[trigger] instruments[i]).id)
                    && assembled(instruments[i].id, drafts[instruments[i].id]) == Ok::<
                    InstrumentView,
                    ErrorView,
                >(instruments[i])
            &&& forall|id: Seq<char>| #[trigger]
                drafts.dom().contains(id) ==> exists|i: int|
                    0 <= i < instruments.len() && (#[trigger] instruments[i]).id == id
        }),
    decreases instruments.len(),
{
    if instruments.len() > 0 {
        let rest = instruments.drop_last();
        let last = instruments.last();
        let n = instruments.len() - 1;
        assert forall|i: int| 0 <= i < rest.len() implies listable(#[trigger] rest[i]) by {
            assert(rest[i] == instruments[i]);
        }
        assert forall|i: int, j: int| 0 <= i < j < rest.len() implies (#[trigger] rest[i]).id != (
        #[trigger] rest[j]).id by {
            assert(rest[i] == instruments[i] && rest[j] == instruments[j]);
        }
        instruments_read_back_what_was_written(rest, known_at);
        let so_far = gathered(Map::empty(), catalogue_rows(rest, known_at))->Ok_0;
        assert(listable(instruments[n]));
        assert(!so_far.dom().contains(last.id)) by {
            if so_far.dom().contains(last.id) {
                let i = choose|i: int| 0 <= i < rest.len() && (#[trigger] rest[i]).id == last.id;
                assert(instruments[i].id != instruments[n].id);
            }
        }
        let rows = instrument_rows(last, known_at);
        rows_gather(so_far, last, known_at, last.outcomes.len() as int);
        assert(rows.take(last.outcomes.len() as int) =~= rows);
        gathered_in_two(Map::empty(), catalogue_rows(rest, known_at), rows);
        whole_draft_assembles(last);
        let drafts = so_far.insert(last.id, partly(last, last.outcomes.len() as int));
        assert forall|i: int| 0 <= i < instruments.len() implies drafts.dom().contains(
            (#[trigger] instruments[i]).id,
        ) && assembled(instruments[i].id, drafts[instruments[i].id]) == Ok::<
            InstrumentView,
            ErrorView,
        >(instruments[i]) by {
            if i < n {
                assert(rest[i] == instruments[i]);
                assert(instruments[i].id != instruments[n].id);
            }
        }
        assert forall|id: Seq<char>| #[trigger] drafts.dom().contains(id) implies exists|i: int|
            0 <= i < instruments.len() && (#[trigger] instruments[i]).id == id by {
            if id == last.id {
                assert(instruments[n].id == id);
            } else {
                let i = choose|i: int| 0 <= i < rest.len() && (#[trigger] rest[i]).id == id;
                assert(instruments[i].id == id);
            }
        }
    }
}

// -- resolutions -----------------------------------------------------------------

/// One row of the table of resolutions.
#[derive(PartialEq, Eq, Debug)]
pub struct ResolutionRow {
    pub ts: i64,
    pub instrument: String,
    pub kind: String,
    pub outcome: Option<u16>,
    pub payout: Cell,
    pub outcome_count: Option<u16>,
}

/// A row with its texts as sequences of characters.
pub struct ResolutionRowView {
    pub ts: i64,
    pub instrument: Seq<char>,
    pub kind: Seq<char>,
    pub outcome: Option<u16>,
    pub payout: Result<Option<i64>, ErrorView>,
    pub outcome_count: Option<u16>,
}

impl View for ResolutionRow {
    type V = ResolutionRowView;

    open spec fn view(&self) -> ResolutionRowView {
        ResolutionRowView {
            ts: self.ts,
            instrument: self.instrument@,
            kind: self.kind@,
            outcome: self.outcome,
            payout: cell_view(self.payout),
            outcome_count: self.outcome_count,
        }
    }
}

/// A split under way: when it was first observable, and what each outcome
/// pays as far as its row has been seen.
pub struct SplitView {
    pub at: i64,
    pub payouts: Map<u16, Price>,
}

/// What the rows so far have come to.
pub struct Resolved {
    pub whole: Seq<ResolutionView>,
    pub splits: Map<Seq<char>, SplitView>,
}

/// Nothing resolved yet.
pub open spec fn nothing_resolved() -> Resolved {
    Resolved { whole: Seq::empty(), splits: Map::empty() }
}

/// What the rows come to with one more row.
pub open spec fn resolution_taken(d: Resolved, row: ResolutionRowView) -> Result<
    Resolved,
    ErrorView,
> {
    if row.kind == "winner"@ {
        match row.outcome {
            None => Err(
                ErrorView::Invalid(
                    "resolution for "@ + row.instrument + " names a winner but no outcome"@,
                ),
            ),
            Some(winner) => if !names_instrument(row.instrument) {
                Err(ErrorView::Invalid("instrument id must not be empty"@))
            } else {
                Ok(
                    Resolved {
                        whole: d.whole.push(
                            ResolutionView {
                                instrument: row.instrument,
                                payout: PayoutView::Winner(OutcomeId(winner)),
                                observable_at: UnixNanos(row.ts),
                            },
                        ),
                        ..d
                    },
                )
            },
        }
    } else if row.kind == "void"@ {
        match row.outcome_count {
            None => Err(
                ErrorView::Invalid(
                    "voided resolution for "@ + row.instrument
                        + " does not say how many outcomes it refunds across"@,
                ),
            ),
            Some(count) => if !names_instrument(row.instrument) {
                Err(ErrorView::Invalid("instrument id must not be empty"@))
            } else if count < 2 {
                Err(ErrorView::Invalid("a voided market needs at least two outcomes"@))
            } else {
                Ok(
                    Resolved {
                        whole: d.whole.push(
                            ResolutionView {
                                instrument: row.instrument,
                                payout: PayoutView::Void(count),
                                observable_at: UnixNanos(row.ts),
                            },
                        ),
                        ..d
                    },
                )
            },
        }
    } else if row.kind == "split"@ {
        if row.outcome is None || row.payout == Ok::<Option<i64>, ErrorView>(None) {
            Err(
                ErrorView::Invalid(
                    "split resolution row for "@ + row.instrument
                        + " is missing its outcome or payout"@,
                ),
            )
        } else {
            match row.payout {
                Err(e) => Err(e),
                Ok(payout) => {
                    let split = if d.splits.dom().contains(row.instrument) {
                        d.splits[row.instrument]
                    } else {
                        SplitView { at: row.ts, payouts: Map::empty() }
                    };
                    Ok(
                        Resolved {
                            splits: d.splits.insert(
                                row.instrument,
                                SplitView {
                                    payouts: split.payouts.insert(
                                        row.outcome->Some_0,
                                        Price(payout->Some_0),
                                    ),
                                    ..split
                                },
                            ),
                            ..d
                        },
                    )
                },
            }
        }
    } else {
        Err(ErrorView::Parse { what: "resolution kind"@, value: row.kind })
    }
}

/// What rows come to, from where earlier rows left off.
pub open spec fn resolutions_taken(d: Resolved, rows: Seq<ResolutionRowView>) -> Result<
    Resolved,
    ErrorView,
>
    decreases rows.len(),
{
    if rows.len() == 0 {
        Ok(d)
    } else {
        match resolutions_taken(d, rows.drop_last()) {
            Err(e) => Err(e),
            Ok(so_far) => resolution_taken(so_far, rows.last()),
        }
    }
}

/// The payouts of a split, in outcome order.
pub open spec fn payout_list(payouts: Map<u16, Price>) -> Seq<Price> {
    Seq::new(payouts.dom().len(), |i: int| payouts[i as u16])
}

/// The resolution a split comes to.
pub open spec fn split_built(id: Seq<char>, split: SplitView) -> Result<ResolutionView, ErrorView> {
    let payouts = payout_list(split.payouts);
    if !gapless(split.payouts.dom()) {
        Err(
            ErrorView::Invalid(
                "split resolution for "@ + id + " has gaps in its outcome indices: "@ + index_list(
                    split.payouts.dom(),
                ),
            ),
        )
    } else if !names_instrument(id) {
        Err(ErrorView::Invalid("instrument id must not be empty"@))
    } else if payouts.len() < 2 {
        Err(ErrorView::Invalid("a split resolution needs a payout for every outcome"@))
    } else if !within_one(payouts) {
        Err(ErrorView::Invalid("every payout for "@ + id + " must lie in [0, 1]"@))
    } else if price_sum(payouts) != SCALE {
        Err(
            ErrorView::Invalid(
                "the payouts for "@ + id + " sum to "@ + fixed_text(
                    saturated(price_sum(payouts)),
                )
                    + " rather than 1; a settlement that does not conserve a complete set mints or burns cash"@,
            ),
        )
    } else {
        Ok(
            ResolutionView {
                instrument: id,
                payout: PayoutView::Split(payouts),
                observable_at: UnixNanos(split.at),
            },
        )
    }
}

/// The ids of a map in id order, each once.
pub open spec fn lists_ids(ids: Seq<Seq<char>>, set: Set<Seq<char>>) -> bool {
    &&& forall|i: int, j: int|
        0 <= i < j < ids.len() ==> text_before(#[trigger] ids[i], #[trigger] ids[j])
    &&& forall|i: int| 0 <= i < ids.len() ==> set.contains(#[trigger] ids[i])
    &&& forall|id: Seq<char>| #[trigger]
        set.contains(id) ==> exists|i: int| 0 <= i < ids.len() && #[trigger] ids[i] == id
}

/// The splits of the first `n` ids, in id order, or the first fault.
pub open spec fn splits_built(
    splits: Map<Seq<char>, SplitView>,
    ids: Seq<Seq<char>>,
    n: nat,
) -> Result<Seq<ResolutionView>, ErrorView>
    decreases n,
{
    if n == 0 {
        Ok(Seq::empty())
    } else {
        match splits_built(splits, ids, (n - 1) as nat) {
            Err(e) => Err(e),
            Ok(done) => match split_built(ids[n - 1], splits[ids[n - 1]]) {
                Err(e) => Err(e),
                Ok(resolution) => Ok(done.push(resolution)),
            },
        }
    }
}

/// What reading a table of resolutions comes to: the winners and voids as
/// they stand, and behind them the splits, by instrument.
pub open spec fn resolutions_read(
    rows: Seq<ResolutionRowView>,
    r: Result<Seq<ResolutionView>, ErrorView>,
) -> bool {
    match resolutions_taken(nothing_resolved(), rows) {
        Err(e) => r == Err::<Seq<ResolutionView>, ErrorView>(e),
        Ok(d) => exists|ids: Seq<Seq<char>>| #[trigger] lists_ids(ids, d.splits.dom()) && r == (
        match splits_built(d.splits, ids, ids.len()) {
            Err(e) => Err::<Seq<ResolutionView>, ErrorView>(e),
            Ok(splits) => Ok(d.whole + splits),
        }),
    }
}

/// A split under way.
struct Split {
    at: i64,
    payouts: SortedMap<u16, Price>,
}

spec fn split_view(s: Split) -> SplitView {
    SplitView { at: s.at, payouts: s.payouts@ }
}

spec fn split_views(splits: Map<Seq<char>, Split>) -> Map<Seq<char>, SplitView> {
    splits.map_values(|s: Split| split_view(s))
}

spec fn splits_wf(splits: SortedMap<String, Split>) -> bool {
    &&& splits.wf()
    &&& forall|i: int| 0 <= i < splits.seq().len() ==> (#[trigger] splits.seq()[i]).1.payouts.wf()
}

proof fn a_resolution_fault_stays(d: Resolved, rows: Seq<ResolutionRowView>, n: int)
    requires
        0 <= n <= rows.len(),
        resolutions_taken(d, rows.take(n)) is Err,
    ensures
        resolutions_taken(d, rows) == resolutions_taken(d, rows.take(n)),
    decreases rows.len() - n,
{
    if n < rows.len() {
        assert(rows.take(n + 1).drop_last() =~= rows.take(n));
        a_resolution_fault_stays(d, rows, n + 1);
    } else {
        assert(rows.take(n) =~= rows);
    }
}

/// Place one payout of a split.
fn place(splits: &mut SortedMap<String, Split>, row: &ResolutionRow, outcome: u16, payout: Price)
    requires
        splits_wf(*old(splits)),
    ensures
        splits_wf(*final(splits)),
        split_views(final(splits)@) == ({
            let before = split_views(old(splits)@);
            let split = if before.dom().contains(row.instrument@) {
                before[row.instrument@]
            } else {
                SplitView { at: row.ts, payouts: Map::empty() }
            };
            before.insert(
                row.instrument@,
                SplitView { payouts: split.payouts.insert(outcome, payout), ..split },
            )
        }),
{
    let ghost before = splits@;
    let ghost entries = splits.seq();
    match splits.find(&row.instrument) {
        Some(i) => {
            let ghost old_split = entries[i as int].1;
            proof {
                entries_map_contains(entries);
                assert(entries[i as int].1.payouts.wf());
                assert(split_views(before)[row.instrument@] == split_view(old_split));
            }
            let split = splits.value_mut(i);
            split.payouts.insert(outcome, payout);
            proof {
                assert(split_views(splits@) =~= split_views(before).insert(
                    row.instrument@,
                    SplitView {
                        at: old_split.at,
                        payouts: old_split.payouts@.insert(outcome, payout),
                    },
                ));
                assert forall|k: int| 0 <= k < splits.seq().len() implies (
                #[trigger] splits.seq()[k]).1.payouts.wf() by {
                    if k != i {
                        assert(splits.seq()[k] == entries[k]);
                    }
                }
            }
        },
        None => {
            let mut payouts: SortedMap<u16, Price> = SortedMap::new();
            payouts.insert(outcome, payout);
            let split = Split { at: row.ts, payouts };
            assert(split_views(before).dom() =~= before.dom());
            let at = splits.insert(row.instrument.clone(), split);
            proof {
                assert(split_views(splits@) =~= split_views(before).insert(
                    row.instrument@,
                    split_view(split),
                ));
                assert forall|k: int| 0 <= k < splits.seq().len() implies (
                #[trigger] splits.seq()[k]).1.payouts.wf() by {
                    if k < at {
                        assert(splits.seq()[k] == entries[k]);
                    } else if k > at {
                        assert(splits.seq()[k] == entries[k - 1]);
                    }
                }
            }
        },
    }
}

/// Make a resolution of a gathered split.
fn build_split(id: &str, split: &Split) -> (r: Result<Resolution, BacktestError>)
    requires
        split.payouts.wf(),
    ensures
        match r {
            Ok(resolution) => split_built(id@, split_view(*split)) == Ok::<
                ResolutionView,
                ErrorView,
            >(resolution@),
            Err(e) => split_built(id@, split_view(*split)) == Err::<ResolutionView, ErrorView>(e@),
        },
{
    let ghost entries = split.payouts.seq();
    proof {
        entries_map_counts(entries);
        entries_map_contains(entries);
    }
    if !runs_from_zero(&split.payouts) {
        let mut m = "split resolution for ".to_owned();
        m.append(id);
        m.append(" has gaps in its outcome indices: ");
        push_index_list(&mut m, &split.payouts);
        return Err(BacktestError::invalid(m.as_str()));
    }
    let name = InstrumentId::new(id)?;
    let mut payouts: Vec<Price> = Vec::new();
    let mut i: usize = 0;
    while i < split.payouts.len()
        invariant
            i <= entries.len(),
            split.payouts.wf(),
            entries == split.payouts.seq(),
            payouts@.len() == i,
            forall|k: int| 0 <= k < i ==> (#[trigger] payouts@[k]) == entries[k].1,
        decreases entries.len() - i,
    {
        payouts.push(*split.payouts.value_at(i));
        i += 1;
    }
    proof {
        assert forall|k: int| 0 <= k < payouts@.len() implies payouts@[k] == payout_list(
            split.payouts@,
        )[k] by {
            assert(entries[k].0 == k);
            assert(split.payouts@[entries[k].0@] == entries[k].1);
        }
        assert(payouts@ =~= payout_list(split.payouts@));
    }
    Resolution::split(name, payouts, UnixNanos(split.at))
}

/// Read resolutions back.
///
/// Only a settlement after a run reads these. A split arrives as one row per
/// outcome and is reassembled by instrument, its payouts placed by outcome
/// index rather than by arrival.
pub fn read_resolutions(rows: &[ResolutionRow]) -> (r: Result<Vec<Resolution>, BacktestError>)
    ensures
        match r {
            Ok(resolutions) => resolutions_read(views(rows@), Ok(views(resolutions@))),
            Err(e) => resolutions_read(views(rows@), Err(e@)),
        },
{
    let mut out: Vec<Resolution> = Vec::new();
    let mut splits: SortedMap<String, Split> = SortedMap::new();
    let ghost all = views(rows@);
    let ghost mut so_far = nothing_resolved();
    let mut i: usize = 0;
    assert(all.take(0) =~= Seq::empty());
    assert(split_views(splits@) =~= Map::empty());
    assert(views(out@) =~= Seq::empty());
    while i < rows.len()
        invariant
            i <= rows@.len(),
            all == views(rows@),
            splits_wf(splits),
            resolutions_taken(nothing_resolved(), all.take(i as int)) == Ok::<Resolved, ErrorView>(
                so_far,
            ),
            so_far.whole == views(out@),
            so_far.splits == split_views(splits@),
        decreases rows@.len() - i,
    {
        let row = &rows[i];
        let ghost before = so_far;
        let ghost was = out@;
        proof {
            assert(all.take(i + 1).drop_last() =~= all.take(i as int));
            assert(all.take(i + 1).last() == row@);
            if resolution_taken(before, row@) is Err {
                a_resolution_fault_stays(nothing_resolved(), all, i + 1);
            } else {
                so_far = resolution_taken(before, row@)->Ok_0;
            }
        }
        let kind = row.kind.as_str();
        if str_same(kind, "winner") {
            match row.outcome {
                Some(winner) => {
                    let id = InstrumentId::new(row.instrument.as_str())?;
                    let resolution = Resolution::new(id, OutcomeId(winner), UnixNanos(row.ts));
                    out.push(resolution);
                    assert(views(out@) =~= views(was).push(resolution@));
                },
                None => {
                    let mut m = "resolution for ".to_owned();
                    m.append(row.instrument.as_str());
                    m.append(" names a winner but no outcome");
                    return Err(BacktestError::invalid(m.as_str()));
                },
            }
        } else if str_same(kind, "void") {
            match row.outcome_count {
                Some(count) => {
                    let id = InstrumentId::new(row.instrument.as_str())?;
                    let resolution = Resolution::void(id, count, UnixNanos(row.ts))?;
                    out.push(resolution);
                    assert(views(out@) =~= views(was).push(resolution@));
                },
                None => {
                    let mut m = "voided resolution for ".to_owned();
                    m.append(row.instrument.as_str());
                    m.append(" does not say how many outcomes it refunds across");
                    return Err(BacktestError::invalid(m.as_str()));
                },
            }
        } else if str_same(kind, "split") {
            let payout = match &row.payout {
                Ok(payout) => *payout,
                Err(e) => {
                    if row.outcome.is_some() {
                        return Err(e.again());
                    }
                    None
                },
            };
            match (row.outcome, payout) {
                (Some(outcome), Some(payout)) => {
                    place(&mut splits, row, outcome, Price(payout));
                },
                _ => {
                    let mut m = "split resolution row for ".to_owned();
                    m.append(row.instrument.as_str());
                    m.append(" is missing its outcome or payout");
                    return Err(BacktestError::invalid(m.as_str()));
                },
            }
        } else {
            return Err(BacktestError::Parse { what: "resolution kind", value: row.kind.clone() });
        }
        i += 1;
    }
    assert(all.take(i as int) =~= all);
    let ghost entries = splits.seq();
    let ghost views_of = split_views(splits@);
    let ghost ids = entries.map_values(|e: (String, Split)| e.0@);
    proof {
        entries_map_contains(entries);
        assert(views_of.dom() =~= splits@.dom());
        assert(lists_ids(ids, views_of.dom())) by {
            assert forall|a: int, b: int| 0 <= a < b < ids.len() implies text_before(
                #[trigger] ids[a],
                #[trigger] ids[b],
            ) by {
                assert(String::before(entries[a].0@, entries[b].0@));
            }
            assert forall|a: int| 0 <= a < ids.len() implies views_of.dom().contains(
                #[trigger] ids[a],
            ) by {
                assert(ids[a] == entries[a].0@);
            }
            assert forall|id: Seq<char>| #[trigger] views_of.dom().contains(id) implies exists|
                a: int,
            |
                0 <= a < ids.len() && #[trigger] ids[a] == id by {
                let a = choose|a: int| 0 <= a < entries.len() && (#[trigger] entries[a]).0@ == id;
                assert(ids[a] == id);
            }
        }
    }
    let ghost whole = views(out@);
    let ghost mut built: Seq<ResolutionView> = Seq::empty();
    let mut k: usize = 0;
    assert(whole + built =~= whole);
    while k < splits.len()
        invariant
            k <= entries.len(),
            splits_wf(splits),
            entries == splits.seq(),
            views_of == split_views(splits@),
            ids == entries.map_values(|e: (String, Split)| e.0@),
            lists_ids(ids, views_of.dom()),
            resolutions_taken(nothing_resolved(), views(rows@)) == Ok::<Resolved, ErrorView>(so_far),
            so_far.splits == views_of,
            so_far.whole == whole,
            forall|j: int|
                0 <= j < entries.len() ==> views_of[(#[trigger] entries[j]).0@] == split_view(
                    entries[j].1,
                ),
            splits_built(views_of, ids, k as nat) == Ok::<Seq<ResolutionView>, ErrorView>(built),
            views(out@) == whole + built,
        decreases entries.len() - k,
    {
        let id = splits.key_at(k).as_str();
        let split = splits.value_at(k);
        assert(entries[k as int].1.payouts.wf());
        assert(ids[k as int] == entries[k as int].0@);
        proof {
            if split_built(ids[k as int], views_of[ids[k as int]]) is Err {
                a_split_fault_stays(views_of, ids, (k + 1) as nat);
            }
        }
        let resolution = build_split(id, split)?;
        let ghost was = out@;
        out.push(resolution);
        proof {
            assert(views(out@) =~= views(was).push(resolution@));
            assert(whole + built.push(resolution@) =~= (whole + built).push(resolution@));
            let next = (k + 1) as nat;
            assert(next - 1 == k);
            assert(splits_built(views_of, ids, next) == Ok::<Seq<ResolutionView>, ErrorView>(
                built.push(resolution@),
            ));
            built = built.push(resolution@);
        }
        k += 1;
    }
    Ok(out)
}

proof fn a_split_fault_stays(splits: Map<Seq<char>, SplitView>, ids: Seq<Seq<char>>, n: nat)
    requires
        n <= ids.len(),
        splits_built(splits, ids, n) is Err,
    ensures
        splits_built(splits, ids, ids.len()) == splits_built(splits, ids, n),
    decreases ids.len() - n,
{
    if n < ids.len() {
        assert(splits_built(splits, ids, (n + 1) as nat) == splits_built(splits, ids, n));
        a_split_fault_stays(splits, ids, n + 1);
    }
}

/// A row of a resolution.
pub open spec fn resolution_row(
    resolution: ResolutionView,
    kind: Seq<char>,
    outcome: Option<u16>,
    payout: Option<i64>,
    outcome_count: Option<u16>,
) -> ResolutionRowView {
    ResolutionRowView {
        ts: resolution.observable_at.0,
        instrument: resolution.instrument,
        kind,
        outcome,
        payout: Ok(payout),
        outcome_count,
    }
}

/// The rows of a resolution: one, or one per outcome of a split.
pub open spec fn rows_of_resolution(resolution: ResolutionView) -> Seq<ResolutionRowView> {
    match resolution.payout {
        PayoutView::Winner(winner) => seq![
            resolution_row(resolution, "winner"@, Some(winner.0), None, None),
        ],
        PayoutView::Void(outcomes) => seq![
            resolution_row(resolution, "void"@, None, None, Some(outcomes)),
        ],
        PayoutView::Split(payouts) => Seq::new(
            payouts.len(),
            |i: int| resolution_row(resolution, "split"@, Some(i as u16), Some(payouts[i].0), None),
        ),
    }
}

/// The rows of a list of resolutions.
pub open spec fn rows_of_resolutions(resolutions: Seq<ResolutionView>) -> Seq<ResolutionRowView>
    decreases resolutions.len(),
{
    if resolutions.len() == 0 {
        Seq::empty()
    } else {
        rows_of_resolutions(resolutions.drop_last()) + rows_of_resolution(resolutions.last())
    }
}

/// Whether every outcome of a payout has an index.
pub open spec fn payout_fits(payout: PayoutView) -> bool {
    payout matches PayoutView::Split(payouts) ==> payouts.len() <= 65536
}

fn write_resolution_row(
    resolution: &Resolution,
    kind: &str,
    outcome: Option<u16>,
    payout: Option<i64>,
    outcome_count: Option<u16>,
) -> (row: ResolutionRow)
    ensures
        row@ == resolution_row(resolution@, kind@, outcome, payout, outcome_count),
{
    ResolutionRow {
        ts: resolution.observable_at.0,
        instrument: resolution.instrument.as_str().to_owned(),
        kind: kind.to_owned(),
        outcome,
        payout: Ok(payout),
        outcome_count,
    }
}

/// Lay resolutions out as rows.
pub fn write_resolutions(resolutions: &[Resolution]) -> (rows: Vec<ResolutionRow>)
    requires
        forall|i: int|
            0 <= i < resolutions@.len() ==> payout_fits((#[trigger] resolutions@[i]).payout@),
    ensures
        views(rows@) == rows_of_resolutions(views(resolutions@)),
{
    let mut rows: Vec<ResolutionRow> = Vec::new();
    let ghost all = views(resolutions@);
    let mut i: usize = 0;
    assert(all.take(0) =~= Seq::empty());
    assert(views(rows@) =~= Seq::empty());
    while i < resolutions.len()
        invariant
            i <= resolutions@.len(),
            all == views(resolutions@),
            forall|k: int|
                0 <= k < resolutions@.len() ==> payout_fits((#[trigger] resolutions@[k]).payout@),
            views(rows@) == rows_of_resolutions(all.take(i as int)),
        decreases resolutions@.len() - i,
    {
        let resolution = &resolutions[i];
        let ghost before = rows@;
        let ghost mine = rows_of_resolution(resolution@);
        match &resolution.payout {
            Payout::Winner(winner) => {
                let row = write_resolution_row(resolution, "winner", Some(winner.0), None, None);
                rows.push(row);
                assert(views(rows@) =~= views(before) + mine);
            },
            Payout::Void { outcomes } => {
                let row = write_resolution_row(resolution, "void", None, None, Some(*outcomes));
                rows.push(row);
                assert(views(rows@) =~= views(before) + mine);
            },
            Payout::Split(payouts) => {
                assert(payout_fits(resolutions@[i as int].payout@));
                let mut k: usize = 0;
                assert(views(rows@) =~= views(before) + mine.take(0));
                while k < payouts.len()
                    invariant
                        k <= payouts@.len() <= 65536,
                        resolution.payout == Payout::Split(*payouts),
                        mine == rows_of_resolution(resolution@),
                        views(rows@) == views(before) + mine.take(k as int),
                    decreases payouts@.len() - k,
                {
                    let row = write_resolution_row(
                        resolution,
                        "split",
                        Some(k as u16),
                        Some(payouts[k].0),
                        None,
                    );
                    let ghost was = rows@;
                    rows.push(row);
                    proof {
                        assert(row@ == mine[k as int]);
                        assert(views(rows@) =~= views(was).push(row@));
                        assert(mine.take(k + 1) =~= mine.take(k as int).push(row@));
                        assert(views(rows@) =~= views(before) + mine.take(k + 1));
                    }
                    k += 1;
                }
                assert(mine.take(k as int) =~= mine);
            },
        }
        proof {
            assert(all.take(i + 1).drop_last() =~= all.take(i as int));
            assert(all.take(i + 1).last() == resolution@);
        }
        i += 1;
    }
    assert(all.take(i as int) =~= all);
    rows
}

/// A resolution the table can carry whole: of a named instrument, and paying
/// what a payout of its kind may pay.
pub open spec fn recordable(resolution: ResolutionView) -> bool {
    &&& names_instrument(resolution.instrument)
    &&& match resolution.payout {
        PayoutView::Winner(_) => true,
        PayoutView::Void(outcomes) => outcomes >= 2,
        PayoutView::Split(payouts) => {
            &&& 2 <= payouts.len() <= 65536
            &&& within_one(payouts)
            &&& price_sum(payouts) == SCALE
        },
    }
}

/// The resolutions that are one row each.
pub open spec fn in_one_row() -> spec_fn(ResolutionView) -> bool {
    |r: ResolutionView| !(r.payout is Split)
}

spec fn partly_split(resolution: ResolutionView, n: int) -> SplitView {
    SplitView {
        at: resolution.observable_at.0,
        payouts: Map::new(|k: u16| k < n, |k: u16| (resolution.payout->Split_0)[k as int]),
    }
}

proof fn resolution_kinds_differ()
    ensures
        "void"@ != "winner"@,
        "split"@ != "winner"@,
        "split"@ != "void"@,
{
    reveal_strlit("winner");
    reveal_strlit("void");
    reveal_strlit("split");
    assert("winner"@.len() == 6 && "void"@.len() == 4 && "split"@.len() == 5);
}

proof fn split_gathers(d: Resolved, resolution: ResolutionView, n: int)
    requires
        recordable(resolution),
        resolution.payout is Split,
        !d.splits.dom().contains(resolution.instrument),
        1 <= n <= (resolution.payout->Split_0).len(),
    ensures
        resolutions_taken(d, rows_of_resolution(resolution).take(n)) == Ok::<Resolved, ErrorView>(
            Resolved {
                splits: d.splits.insert(resolution.instrument, partly_split(resolution, n)),
                ..d
            },
        ),
    decreases n,
{
    let rows = rows_of_resolution(resolution);
    let row = rows[n - 1];
    resolution_kinds_differ();
    assert(rows.take(n).drop_last() =~= rows.take(n - 1));
    assert(rows.take(n).last() == row);
    let want = d.splits.insert(resolution.instrument, partly_split(resolution, n));
    let price = Price((resolution.payout->Split_0)[n - 1].0);
    if n == 1 {
        assert(rows.take(0) =~= Seq::empty());
        assert(Map::<u16, Price>::empty().insert(0, price) =~= partly_split(resolution, 1).payouts);
        assert(resolution_taken(d, row)->Ok_0.splits =~= want);
    } else {
        split_gathers(d, resolution, n - 1);
        let so_far = Resolved {
            splits: d.splits.insert(resolution.instrument, partly_split(resolution, n - 1)),
            ..d
        };
        assert(partly_split(resolution, n - 1).payouts.insert((n - 1) as u16, price)
            =~= partly_split(resolution, n).payouts);
        assert(resolution_taken(so_far, row)->Ok_0.splits =~= want);
    }
}

proof fn resolutions_in_two(d: Resolved, a: Seq<ResolutionRowView>, b: Seq<ResolutionRowView>)
    ensures
        resolutions_taken(d, a + b) == match resolutions_taken(d, a) {
            Err(e) => Err(e),
            Ok(mid) => resolutions_taken(mid, b),
        },
    decreases b.len(),
{
    if b.len() == 0 {
        assert(a + b =~= a);
    } else {
        assert((a + b).drop_last() =~= a + b.drop_last());
        assert((a + b).last() == b.last());
        resolutions_in_two(d, a, b.drop_last());
    }
}

/// Reading resolutions back gives the resolutions written: winners and voids
/// as they stand, in their order, and every split reassembled into the payouts
/// it was written with.
pub proof fn resolutions_read_back_what_was_written(resolutions: Seq<ResolutionView>)
    requires
        forall|i: int| 0 <= i < resolutions.len() ==> recordable(#[trigger] resolutions[i]),
        forall|i: int, j: int|
            0 <= i < j < resolutions.len() ==> (#[trigger] resolutions[i]).instrument != (
            #[trigger] resolutions[j]).instrument,
    ensures
        resolutions_taken(nothing_resolved(), rows_of_resolutions(resolutions)) is Ok,
        ({
            let d = resolutions_taken(
                nothing_resolved(),
                rows_of_resolutions(resolutions),
            )->Ok_0;
            &&& d.whole == resolutions.filter(in_one_row())
            &&& forall|i: int|
                0 <= i < resolutions.len() && (#[trigger] resolutions[i]).payout is Split
                    ==> d.splits.dom().contains(resolutions[i].instrument) && split_built(
                    resolutions[i].instrument,
                    d.splits[resolutions[i].instrument],
                ) == Ok::<ResolutionView, ErrorView>(resolutions[i])
            &&& forall|id: Seq<char>| #[trigger]
                d.splits.dom().contains(id) ==> exists|i: int|
                    0 <= i < resolutions.len() && (#[trigger] resolutions[i]).instrument == id
                        && resolutions[i].payout is Split
        }),
    decreases resolutions.len(),
{
    reveal(Seq::filter);
    if resolutions.len() > 0 {
        let rest = resolutions.drop_last();
        let last = resolutions.last();
        let n = resolutions.len() - 1;
        assert forall|i: int| 0 <= i < rest.len() implies recordable(#[trigger] rest[i]) by {
            assert(rest[i] == resolutions[i]);
        }
        assert forall|i: int, j: int| 0 <= i < j < rest.len() implies (#[trigger] rest[i]).instrument
            != (#[trigger] rest[j]).instrument by {
            assert(rest[i] == resolutions[i] && rest[j] == resolutions[j]);
        }
        resolutions_read_back_what_was_written(rest);
        let so_far = resolutions_taken(nothing_resolved(), rows_of_resolutions(rest))->Ok_0;
        let rows = rows_of_resolution(last);
        resolutions_in_two(nothing_resolved(), rows_of_resolutions(rest), rows);
        assert(recordable(resolutions[n]));
        resolution_kinds_differ();
        if last.payout is Split {
            let payouts = last.payout->Split_0;
            assert(!so_far.splits.dom().contains(last.instrument)) by {
                if so_far.splits.dom().contains(last.instrument) {
                    let i = choose|i: int|
                        0 <= i < rest.len() && (#[trigger] rest[i]).instrument == last.instrument
                            && rest[i].payout is Split;
                    assert(resolutions[i].instrument != resolutions[n].instrument);
                }
            }
            split_gathers(so_far, last, payouts.len() as int);
            assert(rows.take(payouts.len() as int) =~= rows);
            let split = partly_split(last, payouts.len() as int);
            first_places_count(payouts.len());
            assert(split.payouts.dom() =~= Set::<u16>::new(|k: u16| k < payouts.len()));
            assert(gapless(split.payouts.dom()));
            assert(payout_list(split.payouts) =~= payouts);
            assert(split_built(last.instrument, split) == Ok::<ResolutionView, ErrorView>(last));
        } else {
            assert(rows.drop_last() =~= Seq::empty());
            assert(resolutions_taken(so_far, rows.drop_last()) == Ok::<Resolved, ErrorView>(so_far));
        }
        let d = resolutions_taken(nothing_resolved(), rows_of_resolutions(resolutions))->Ok_0;
        assert forall|i: int|
            0 <= i < resolutions.len() && (#[trigger] resolutions[i]).payout is Split implies d.splits.dom().contains(
            resolutions[i].instrument,
        ) && split_built(resolutions[i].instrument, d.splits[resolutions[i].instrument]) == Ok::<
            ResolutionView,
            ErrorView,
        >(resolutions[i]) by {
            if i < n {
                assert(rest[i] == resolutions[i]);
                assert(resolutions[i].instrument != resolutions[n].instrument);
            }
        }
        assert forall|id: Seq<char>| #[trigger] d.splits.dom().contains(id) implies exists|i: int|
            0 <= i < resolutions.len() && (#[trigger] resolutions[i]).instrument == id
                && resolutions[i].payout is Split by {
            if last.payout is Split && id == last.instrument {
                assert(resolutions[n].instrument == id);
            } else {
                assert(so_far.splits.dom().contains(id));
                let i = choose|i: int|
                    0 <= i < rest.len() && (#[trigger] rest[i]).instrument == id && rest[i].payout
                        is Split;
                assert(resolutions[i].instrument == id);
            }
        }
    } else {
        assert(resolutions.filter(in_one_row()) =~= Seq::empty());
    }
}

} // verus!
