//! What stored tables have in common: cells, time order, encodings.
//!
//! A row is read the same way whichever table it came from: cells are decoded
//! as they are needed, the first thing wrong with a row is what is reported,
//! and what was read is put in the order it became known.

use vstd::prelude::*;
use vstd::string::*;

use crate::book::{snapshot_levels, updated_levels, BookStatus, Levels, OrderBook};
use crate::decimal::{encoding_of, ColumnSpec, FixedEncoding};
use crate::error::{says, BacktestError, ErrorView};
use crate::event::{MarketEvent, Record};
use crate::schema::{TableSpec, COMMANDS, INGEST_LOG, SIGNALS};
use crate::text::str_same;
use crate::types::{Side, UnixNanos};
use crate::window::TimeWindow;

verus! {

/// What reading a fixed-point cell gave: a value, an empty cell, or a fault.
pub type Cell = Result<Option<i64>, BacktestError>;

/// A cell with its fault's texts as sequences of characters.
pub open spec fn cell_view(cell: Cell) -> Result<Option<i64>, ErrorView> {
    match cell {
        Ok(value) => Ok(value),
        Err(e) => Err(e@),
    }
}

/// The views of a list.
pub open spec fn views<T: View>(items: Seq<T>) -> Seq<T::V> {
    items.map_values(|item: T| item@)
}

/// The characters of an optional text.
pub open spec fn text_view(text: Option<String>) -> Option<Seq<char>> {
    match text {
        Some(t) => Some(t@),
        None => None,
    }
}

/// The views of a list with its last item set apart.
pub(crate) proof fn views_grow<T: View>(items: Seq<T>, n: int)
    requires
        0 <= n < items.len(),
    ensures
        views(items.take(n + 1)) == views(items.take(n)).push(items[n]@),
        views(items.take(n + 1)).drop_last() == views(items.take(n)),
        views(items.take(n + 1)).last() == items[n]@,
{
    assert(views(items.take(n + 1)) =~= views(items.take(n)).push(items[n]@));
    assert(views(items.take(n + 1)).drop_last() =~= views(items.take(n)));
}

/// Read a cell.
pub(crate) fn read_cell(cell: &Cell) -> (r: Result<Option<i64>, BacktestError>)
    ensures
        match r {
            Ok(value) => cell_view(*cell) == Ok::<Option<i64>, ErrorView>(value),
            Err(e) => cell_view(*cell) == Err::<Option<i64>, ErrorView>(e@),
        },
{
    match cell {
        Ok(value) => Ok(*value),
        Err(e) => Err(e.again()),
    }
}

/// What a cell that must not be empty holds.
pub open spec fn value_in(cell: Result<Option<i64>, ErrorView>, name: Seq<char>) -> Result<
    i64,
    ErrorView,
> {
    match cell {
        Ok(Some(raw)) => Ok(raw),
        Ok(None) => Err(
            ErrorView::Schema {
                table: "read"@,
                detail: "column "@ + name + " is null in a row where it must not be"@,
            },
        ),
        Err(e) => Err(e),
    }
}

/// Read a cell that must not be empty.
pub(crate) fn cell_value(cell: &Cell, name: &str) -> (r: Result<i64, BacktestError>)
    ensures
        match r {
            Ok(raw) => value_in(cell_view(*cell), name@) == Ok::<i64, ErrorView>(raw),
            Err(e) => value_in(cell_view(*cell), name@) == Err::<i64, ErrorView>(e@),
        },
{
    match cell {
        Ok(Some(raw)) => Ok(*raw),
        Ok(None) => {
            let mut detail = "column ".to_owned();
            detail.append(name);
            detail.append(" is null in a row where it must not be");
            Err(BacktestError::Schema { table: "read", detail })
        },
        Err(e) => Err(e.again()),
    }
}

/// Every row read in turn, up to the first one that cannot be.
pub open spec fn all_read<R, A>(
    rows: Seq<R>,
    read: spec_fn(R) -> Result<A, ErrorView>,
) -> Result<Seq<A>, ErrorView>
    decreases rows.len(),
{
    if rows.len() == 0 {
        Ok(Seq::empty())
    } else {
        match all_read(rows.drop_last(), read) {
            Err(e) => Err(e),
            Ok(done) => match read(rows.last()) {
                Err(e) => Err(e),
                Ok(item) => Ok(done.push(item)),
            },
        }
    }
}

/// A fault early in a list is the fault of the whole list.
pub(crate) proof fn a_fault_stays<R, A>(
    rows: Seq<R>,
    read: spec_fn(R) -> Result<A, ErrorView>,
    n: int,
)
    requires
        0 <= n <= rows.len(),
        all_read(rows.take(n), read) is Err,
    ensures
        all_read(rows, read) == all_read(rows.take(n), read),
    decreases rows.len() - n,
{
    if n < rows.len() {
        assert(rows.take(n + 1).drop_last() =~= rows.take(n));
        a_fault_stays(rows, read, n + 1);
    } else {
        assert(rows.take(n) =~= rows);
    }
}

/// Reading rows that each read back gives what they stand for.
pub(crate) proof fn each_reads<R, A>(
    rows: Seq<R>,
    read: spec_fn(R) -> Result<A, ErrorView>,
    items: Seq<A>,
)
    requires
        rows.len() == items.len(),
        forall|i: int| 0 <= i < rows.len() ==> read(#[trigger] rows[i]) == Ok::<A, ErrorView>(items[i]),
    ensures
        all_read(rows, read) == Ok::<Seq<A>, ErrorView>(items),
    decreases rows.len(),
{
    if rows.len() == 0 {
        assert(items =~= Seq::empty());
    } else {
        assert forall|i: int| 0 <= i < rows.len() - 1 implies read(
            #[trigger] rows.drop_last()[i],
        ) == Ok::<A, ErrorView>(items.drop_last()[i]) by {
            assert(rows.drop_last()[i] == rows[i]);
        }
        each_reads(rows.drop_last(), read, items.drop_last());
        assert(rows.last() == rows[rows.len() - 1]);
        assert(items.drop_last().push(items.last()) =~= items);
    }
}

// -- time order ---------------------------------------------------------------

/// Something that became known at an instant.
pub trait Dated: Sized {
    spec fn moment(&self) -> int;

    fn known_at(&self) -> (r: i64)
        ensures
            r == self.moment(),
    ;
}

impl Dated for Record {
    open spec fn moment(&self) -> int {
        self.stamps.ts_init.0 as int
    }

    fn known_at(&self) -> (r: i64) {
        self.stamps.ts_init.0
    }
}

impl<T> Dated for (UnixNanos, T) {
    open spec fn moment(&self) -> int {
        (self.0).0 as int
    }

    fn known_at(&self) -> (r: i64) {
        (self.0).0
    }
}

/// A list with an item put behind everything that is not later than it.
pub open spec fn filed<A>(list: Seq<A>, item: A, at: spec_fn(A) -> int) -> Seq<A>
    decreases list.len(),
{
    if list.len() > 0 && at(list.last()) > at(item) {
        filed(list.drop_last(), item, at).push(list.last())
    } else {
        list.push(item)
    }
}

/// Items in time order, those of one instant in the order they came.
pub open spec fn by_time<A>(items: Seq<A>, at: spec_fn(A) -> int) -> Seq<A>
    decreases items.len(),
{
    if items.len() == 0 {
        items
    } else {
        filed(by_time(items.drop_last(), at), items.last(), at)
    }
}

/// Nothing comes before something earlier.
pub open spec fn in_order<A>(items: Seq<A>, at: spec_fn(A) -> int) -> bool {
    forall|i: int, j: int|
        0 <= i <= j < items.len() ==> at(#[trigger] items[i]) <= at(#[trigger] items[j])
}

/// The items of one instant.
pub open spec fn of_moment<A>(at: spec_fn(A) -> int, moment: int) -> spec_fn(A) -> bool {
    |item: A| at(item) == moment
}

proof fn filing_keeps_order<A>(list: Seq<A>, item: A, at: spec_fn(A) -> int)
    requires
        in_order(list, at),
    ensures
        in_order(filed(list, item, at), at),
        filed(list, item, at).len() == list.len() + 1,
        forall|i: int|
            0 <= i <= list.len() ==> (#[trigger] filed(list, item, at)[i] == item
                || list.contains(filed(list, item, at)[i])),
    decreases list.len(),
{
    if list.len() > 0 && at(list.last()) > at(item) {
        let rest = list.drop_last();
        assert(in_order(rest, at)) by {
            assert forall|i: int, j: int| 0 <= i <= j < rest.len() implies at(
                #[trigger] rest[i],
            ) <= at(#[trigger] rest[j]) by {
                assert(list[i] == rest[i] && list[j] == rest[j]);
            }
        }
        filing_keeps_order(rest, item, at);
        let out = filed(list, item, at);
        let inner = filed(rest, item, at);
        assert(out == inner.push(list.last()));
        assert forall|i: int| 0 <= i <= list.len() implies (#[trigger] out[i] == item
            || list.contains(out[i])) by {
            if i < list.len() {
                assert(out[i] == inner[i]);
                if out[i] != item {
                    assert(rest.contains(inner[i]));
                    let k = choose|k: int| 0 <= k < rest.len() && rest[k] == inner[i];
                    assert(list[k] == inner[i]);
                }
            } else {
                assert(out[i] == list[list.len() - 1]);
            }
        }
        assert forall|i: int, j: int| 0 <= i <= j < out.len() implies at(#[trigger] out[i]) <= at(
            #[trigger] out[j],
        ) by {
            if j < inner.len() {
                assert(out[i] == inner[i] && out[j] == inner[j]);
            } else if i < inner.len() {
                assert(out[i] == inner[i]);
                if inner[i] != item {
                    assert(rest.contains(inner[i]));
                    let k = choose|k: int| 0 <= k < rest.len() && rest[k] == inner[i];
                    assert(list[k] == inner[i]);
                    assert(at(list[k]) <= at(list[list.len() - 1]));
                }
            }
        }
    } else {
        let out = list.push(item);
        assert forall|i: int| 0 <= i <= list.len() implies (#[trigger] out[i] == item
            || list.contains(out[i])) by {
            if i < list.len() {
                assert(out[i] == list[i]);
            }
        }
        assert forall|i: int, j: int| 0 <= i <= j < out.len() implies at(#[trigger] out[i]) <= at(
            #[trigger] out[j],
        ) by {
            if j < list.len() {
                assert(out[i] == list[i] && out[j] == list[j]);
            } else if i < list.len() {
                assert(out[i] == list[i]);
                assert(at(list[i]) <= at(list[list.len() - 1]));
            }
        }
    }
}

proof fn filter_grows<A>(items: Seq<A>, item: A, keep: spec_fn(A) -> bool)
    ensures
        items.push(item).filter(keep) == if keep(item) {
            items.filter(keep).push(item)
        } else {
            items.filter(keep)
        },
{
    reveal(Seq::filter);
    assert(items.push(item).drop_last() =~= items);
}

proof fn filing_keeps_ties<A>(list: Seq<A>, item: A, at: spec_fn(A) -> int, moment: int)
    ensures
        filed(list, item, at).filter(of_moment(at, moment)) == list.push(item).filter(
            of_moment(at, moment),
        ),
    decreases list.len(),
{
    let only = of_moment(at, moment);
    if list.len() > 0 && at(list.last()) > at(item) {
        let rest = list.drop_last();
        filing_keeps_ties(rest, item, at, moment);
        filter_grows(filed(rest, item, at), list.last(), only);
        filter_grows(list, item, only);
        filter_grows(rest, item, only);
        filter_grows(rest, list.last(), only);
        assert(rest.push(list.last()) =~= list);
    }
}

/// Putting items in time order is stable: the result is in time order, and
/// the items of any one instant are the same items in the same order, so
/// simultaneous events keep the order they were written in.
pub proof fn time_order_is_stable<A>(items: Seq<A>, at: spec_fn(A) -> int, moment: int)
    ensures
        in_order(by_time(items, at), at),
        by_time(items, at).len() == items.len(),
        by_time(items, at).filter(of_moment(at, moment)) == items.filter(of_moment(at, moment)),
    decreases items.len(),
{
    reveal(Seq::filter);
    if items.len() > 0 {
        let rest = items.drop_last();
        time_order_is_stable(rest, at, moment);
        filing_keeps_order(by_time(rest, at), items.last(), at);
        filing_keeps_ties(by_time(rest, at), items.last(), at, moment);
        assert(by_time(rest, at).push(items.last()).drop_last() =~= by_time(rest, at));
    }
}

/// What is already in time order is left as it is.
pub proof fn time_order_is_kept<A>(items: Seq<A>, at: spec_fn(A) -> int)
    requires
        in_order(items, at),
    ensures
        by_time(items, at) == items,
    decreases items.len(),
{
    if items.len() > 0 {
        let rest = items.drop_last();
        assert forall|i: int, j: int| 0 <= i <= j < rest.len() implies at(#[trigger] rest[i])
            <= at(#[trigger] rest[j]) by {
            assert(items[i] == rest[i] && items[j] == rest[j]);
        }
        time_order_is_kept(rest, at);
        if rest.len() > 0 {
            assert(rest.last() == items[items.len() - 2]);
            assert(at(items[items.len() - 2]) <= at(items[items.len() - 1]));
        }
        assert(rest.push(items.last()) =~= items);
    }
}

/// The instant of an item.
pub open spec fn moment_of<T: Dated>() -> spec_fn(T) -> int {
    |item: T| item.moment()
}

/// Filing an item and filing its view come to the same.
pub(crate) proof fn filing_views<T: Dated + View>(
    list: Seq<T>,
    item: T,
    at: spec_fn(T::V) -> int,
)
    requires
        forall|t: T| at(#[trigger] t@) == t.moment(),
    ensures
        views(filed(list, item, moment_of::<T>())) == filed(views(list), item@, at),
    decreases list.len(),
{
    let key = moment_of::<T>();
    if list.len() > 0 {
        assert(views(list).drop_last() =~= views(list.drop_last()));
        assert(views(list).last() == list.last()@);
        assert(at(list.last()@) == list.last().moment());
        assert(at(item@) == item.moment());
        if key(list.last()) > key(item) {
            filing_views(list.drop_last(), item, at);
            assert(views(filed(list.drop_last(), item, key).push(list.last())) =~= views(
                filed(list.drop_last(), item, key),
            ).push(list.last()@));
        } else {
            assert(views(list.push(item)) =~= views(list).push(item@));
        }
    } else {
        assert(views(list.push(item)) =~= views(list).push(item@));
    }
}

/// Put an item behind everything that is not later than it.
pub(crate) fn file<T: Dated>(list: &mut Vec<T>, item: T)
    ensures
        final(list)@ == filed(old(list)@, item, moment_of::<T>()),
{
    let ghost whole = list@;
    let ghost key = moment_of::<T>();
    let mut at: usize = list.len();
    let moment: i64 = item.known_at();
    assert(whole.take(at as int) =~= whole);
    assert(filed(whole.take(at as int), item, key) + whole.skip(at as int) =~= filed(
        whole,
        item,
        key,
    ));
    while at > 0 && list[at - 1].known_at() > moment
        invariant
            at <= list@.len(),
            list@ == whole,
            key == moment_of::<T>(),
            moment == item.moment(),
            filed(whole.take(at as int), item, key) + whole.skip(at as int) == filed(
                whole,
                item,
                key,
            ),
        decreases at,
    {
        proof {
            let here = whole.take(at as int);
            assert(here.last() == whole[at - 1]);
            assert(here.drop_last() =~= whole.take(at - 1));
            assert(filed(here, item, key) == filed(here.drop_last(), item, key).push(here.last()));
            assert(filed(whole.take(at - 1), item, key) + whole.skip(at - 1) =~= filed(
                here,
                item,
                key,
            ) + whole.skip(at as int));
        }
        at -= 1;
    }
    proof {
        let here = whole.take(at as int);
        if at > 0 {
            assert(here.last() == whole[at - 1]);
        }
        assert(filed(here, item, key) == here.push(item));
        assert(whole.insert(at as int, item) =~= here.push(item) + whole.skip(at as int));
    }
    list.insert(at, item);
}

/// Rows beside the instant each is known at.
pub open spec fn numbered(times: Seq<i64>) -> Seq<(int, int)> {
    Seq::new(times.len(), |i: int| (times[i] as int, i))
}

/// The instant of a numbered row.
pub open spec fn row_moment() -> spec_fn((int, int)) -> int {
    |row: (int, int)| row.0
}

/// The order that puts rows in time order, those of one instant as written.
///
/// Stable on purpose: a backfill cannot silently reorder simultaneous events
/// that a replay's tie-break depends on.
pub fn sort_by_time(times: &[i64]) -> (order: Vec<usize>)
    ensures
        order@.len() == times@.len(),
        by_time(numbered(times@), row_moment()) == Seq::new(
            times@.len(),
            |i: int| (times@[order@[i] as int] as int, order@[i] as int),
        ),
        forall|i: int| 0 <= i < order@.len() ==> (#[trigger] order@[i]) < times@.len(),
{
    let mut rows: Vec<(UnixNanos, usize)> = Vec::new();
    let ghost at = row_moment();
    let mut i: usize = 0;
    assert(numbered(times@).take(0) =~= Seq::empty());
    while i < times.len()
        invariant
            i <= times@.len(),
            at == row_moment(),
            rows@.len() == i,
            rows@.map_values(row_view()) == by_time(numbered(times@).take(i as int), at),
            forall|k: int| 0 <= k < rows@.len() ==> #[trigger] row_stands(rows@[k], times@),
        decreases times@.len() - i,
    {
        let row = (UnixNanos(times[i]), i);
        let ghost before = rows@;
        file(&mut rows, row);
        proof {
            let list = numbered(times@);
            assert(list.take(i + 1).drop_last() =~= list.take(i as int));
            assert(list.take(i + 1).last() == list[i as int]);
            filing_rows(before, row);
            filing_stands(before, row, times@);
        }
        i += 1;
    }
    assert(numbered(times@).take(i as int) =~= numbered(times@));
    let mut order: Vec<usize> = Vec::new();
    let mut k: usize = 0;
    while k < rows.len()
        invariant
            k <= rows@.len(),
            order@.len() == k,
            forall|j: int| 0 <= j < k ==> (#[trigger] order@[j]) == rows@[j].1,
        decreases rows@.len() - k,
    {
        order.push(rows[k].1);
        k += 1;
    }
    proof {
        let out = Seq::new(
            times@.len(),
            |i: int| (times@[order@[i] as int] as int, order@[i] as int),
        );
        assert(rows@.map_values(row_view()).len() == rows@.len());
        assert forall|j: int| 0 <= j < order@.len() implies (#[trigger] order@[j]) < times@.len()
            && rows@.map_values(row_view())[j] == out[j] by {
            assert(row_stands(rows@[j], times@));
        }
        assert(out =~= rows@.map_values(row_view()));
    }
    order
}

spec fn row_view() -> spec_fn((UnixNanos, usize)) -> (int, int) {
    |row: (UnixNanos, usize)| ((row.0).0 as int, row.1 as int)
}

spec fn row_stands(row: (UnixNanos, usize), times: Seq<i64>) -> bool {
    row.1 < times.len() && (row.0).0 == times[row.1 as int]
}

proof fn filing_rows(list: Seq<(UnixNanos, usize)>, item: (UnixNanos, usize))
    ensures
        filed(list, item, moment_of::<(UnixNanos, usize)>()).map_values(row_view()) == filed(
            list.map_values(row_view()),
            row_view()(item),
            row_moment(),
        ),
        filed(list, item, moment_of::<(UnixNanos, usize)>()).len() == list.len() + 1,
    decreases list.len(),
{
    let key = moment_of::<(UnixNanos, usize)>();
    let view = row_view();
    if list.len() > 0 {
        assert(list.map_values(view).drop_last() =~= list.drop_last().map_values(view));
        assert(list.map_values(view).last() == view(list.last()));
        if key(list.last()) > key(item) {
            filing_rows(list.drop_last(), item);
            assert(filed(list.drop_last(), item, key).push(list.last()).map_values(view) =~= filed(
                list.drop_last(),
                item,
                key,
            ).map_values(view).push(view(list.last())));
        } else {
            assert(list.push(item).map_values(view) =~= list.map_values(view).push(view(item)));
        }
    } else {
        assert(list.push(item).map_values(view) =~= list.map_values(view).push(view(item)));
    }
}

proof fn filing_stands(list: Seq<(UnixNanos, usize)>, item: (UnixNanos, usize), times: Seq<i64>)
    requires
        forall|k: int| 0 <= k < list.len() ==> #[trigger] row_stands(list[k], times),
        row_stands(item, times),
    ensures
        forall|k: int|
            0 <= k < list.len() + 1 ==> #[trigger] row_stands(
                filed(list, item, moment_of::<(UnixNanos, usize)>())[k],
                times,
            ),
        filed(list, item, moment_of::<(UnixNanos, usize)>()).len() == list.len() + 1,
    decreases list.len(),
{
    let key = moment_of::<(UnixNanos, usize)>();
    if list.len() > 0 && key(list.last()) > key(item) {
        let rest = list.drop_last();
        assert forall|k: int| 0 <= k < rest.len() implies #[trigger] row_stands(rest[k], times) by {
            assert(rest[k] == list[k]);
        }
        filing_stands(rest, item, times);
        let out = filed(rest, item, key).push(list.last());
        assert forall|k: int| 0 <= k < list.len() + 1 implies #[trigger] row_stands(
            out[k],
            times,
        ) by {
            if k < list.len() {
                assert(out[k] == filed(rest, item, key)[k]);
            } else {
                assert(out[k] == list[list.len() - 1]);
            }
        }
    } else {
        let out = list.push(item);
        assert forall|k: int| 0 <= k < list.len() + 1 implies #[trigger] row_stands(
            out[k],
            times,
        ) by {
            if k < list.len() {
                assert(out[k] == list[k]);
            }
        }
    }
}

// -- the seam ----------------------------------------------------------------

/// The encoding a table's fixed-point columns already use.
///
/// Read from the table rather than chosen again, so a writer cannot disagree
/// with what was created. Only a decimal column answers the question: an
/// integer or a timestamp says nothing about the encoding either way.
pub fn encoding_in(columns: &[ColumnSpec]) -> (r: FixedEncoding)
    ensures
        r == (if exists|i: int| 0 <= i < columns@.len() && #[trigger] holds_decimals(columns@[i]) {
            FixedEncoding::Decimal
        } else {
            FixedEncoding::Float
        }),
{
    let mut i: usize = 0;
    while i < columns.len()
        invariant
            i <= columns@.len(),
            forall|k: int| 0 <= k < i ==> !#[trigger] holds_decimals(columns@[k]),
        decreases columns@.len() - i,
    {
        if let Some(FixedEncoding::Decimal) = FixedEncoding::of(&columns[i].kind) {
            assert(holds_decimals(columns@[i as int]));
            return FixedEncoding::Decimal;
        }
        i += 1;
    }
    FixedEncoding::Float
}

/// A column of decimals.
pub open spec fn holds_decimals(column: ColumnSpec) -> bool {
    encoding_of(column.kind) == Some(FixedEncoding::Decimal)
}

/// Which column a table is time-indexed on.
pub open spec fn time_column(table: Seq<char>) -> Seq<char> {
    if "bt_"@.is_prefix_of(table) || table == INGEST_LOG@ || table == SIGNALS@ || table
        == COMMANDS@ {
        "ts"@
    } else {
        "ts_init"@
    }
}

/// Which column a table is time-indexed on.
pub fn time_column_of(table: &str) -> (r: &'static str)
    ensures
        r@ == time_column(table@),
{
    proof {
        reveal_strlit("bt_");
    }
    let output = table.unicode_len() >= 3 && table.get_char(0) == 'b' && table.get_char(1) == 't'
        && table.get_char(2) == '_';
    proof {
        if table@.len() >= 3 {
            let start = table@.subrange(0, 3);
            assert(start[0] == table@[0] && start[1] == table@[1] && start[2] == table@[2]);
            assert(output == (start =~= "bt_"@));
        }
        assert(output == "bt_"@.is_prefix_of(table@));
    }
    if output || str_same(table, INGEST_LOG) || str_same(table, SIGNALS) || str_same(
        table,
        COMMANDS,
    ) {
        "ts"
    } else {
        "ts_init"
    }
}

/// Whether a list of names holds a name.
pub open spec fn names(existing: Seq<String>, name: Seq<char>) -> bool {
    exists|i: int| 0 <= i < existing.len() && (#[trigger] existing[i])@ == name
}

/// The tables that are not among those that exist.
pub open spec fn absent_from(existing: Seq<String>) -> spec_fn(TableSpec) -> bool {
    |table: TableSpec| !names(existing, table.name@)
}

/// Whichever tables do not exist yet, in their order.
pub fn missing_tables(tables: Vec<TableSpec>, existing: &[String]) -> (out: Vec<TableSpec>)
    ensures
        out@ == tables@.filter(absent_from(existing@)),
{
    let ghost all = tables@;
    let ghost absent = absent_from(existing@);
    let mut rest = tables;
    let mut out: Vec<TableSpec> = Vec::new();
    let ghost mut done: int = 0;
    proof {
        reveal(Seq::filter);
        assert(all.take(0) =~= Seq::empty());
        assert(all.skip(0) =~= all);
    }
    while rest.len() > 0
        invariant
            0 <= done <= all.len(),
            rest@ == all.skip(done),
            absent == absent_from(existing@),
            out@ == all.take(done).filter(absent),
        decreases rest@.len(),
    {
        let table = rest.remove(0);
        let mut found = false;
        let mut i: usize = 0;
        while i < existing.len()
            invariant
                i <= existing@.len(),
                found == exists|k: int| 0 <= k < i && (#[trigger] existing@[k])@ == table.name@,
            decreases existing@.len() - i,
        {
            if str_same(existing[i].as_str(), table.name) {
                assert(existing@[i as int]@ == table.name@);
                found = true;
            }
            i += 1;
        }
        proof {
            reveal(Seq::filter);
            assert(table == all[done]);
            assert(found == names(existing@, table.name@));
            assert(all.take(done + 1).drop_last() =~= all.take(done));
            assert(all.take(done + 1).last() == table);
            assert(rest@ =~= all.skip(done + 1));
            done = done + 1;
        }
        if !found {
            out.push(table);
        }
    }
    assert(all.take(done) =~= all);
    out
}

/// Whether a failed read only says that there is nothing there.
///
/// Two absences are facts rather than failures: a table that was never
/// written, and one that had no version yet at the instant read from. A
/// corrupt segment or a schema mismatch is neither.
pub fn is_absence(code: &str) -> (r: bool)
    ensures
        r == (code@ == "table_not_found"@ || code@ == "version_not_found"@),
{
    str_same(code, "table_not_found") || str_same(code, "version_not_found")
}

/// Whether an append was refused because its rows land in the past, so that
/// the affected range has to be merged and replaced instead.
pub fn is_backfill(code: &str) -> (r: bool)
    ensures
        r == (code@ == "sort_order_violation"@),
{
    str_same(code, "sort_order_violation")
}

/// The half-open span of instants a read covers.
///
/// An end is exclusive, which is exactly what a half-open window means. No
/// adjustment, and none to get wrong.
pub fn scan_bounds(window: Option<TimeWindow>) -> (r: (Option<i64>, Option<i64>))
    ensures
        r == (match window {
            Some(w) => (Some(w@.0), Some(w@.1)),
            None => (None, None),
        }),
{
    match window {
        Some(w) => (Some(w.start().0), Some(w.end().0)),
        None => (None, None),
    }
}

/// The half-open span a list of instants covers: from its earliest to just
/// past its latest.
pub fn time_bounds(times: &[i64]) -> (r: Result<(i64, i64), BacktestError>)
    requires
        forall|i: int| 0 <= i < times@.len() ==> (#[trigger] times@[i]) < i64::MAX,
    ensures
        match r {
            Ok((start, end)) => {
                &&& times@.len() > 0
                &&& times@.contains(start)
                &&& times@.contains((end - 1) as i64)
                &&& forall|i: int| 0 <= i < times@.len() ==> start <= #[trigger] times@[i] < end
            },
            Err(e) => times@.len() == 0 && says(e, "cannot bound an empty batch"@),
        },
{
    if times.len() == 0 {
        return Err(BacktestError::invalid("cannot bound an empty batch"));
    }
    let mut min: i64 = times[0];
    let mut max: i64 = times[0];
    let mut i: usize = 1;
    while i < times.len()
        invariant
            1 <= i <= times@.len(),
            forall|k: int| 0 <= k < times@.len() ==> (#[trigger] times@[k]) < i64::MAX,
            times@.contains(min),
            times@.contains(max),
            forall|k: int| 0 <= k < i ==> min <= #[trigger] times@[k] <= max,
        decreases times@.len() - i,
    {
        if times[i] < min {
            min = times[i];
        }
        if times[i] > max {
            max = times[i];
        }
        i += 1;
    }
    Ok((min, max + 1))
}

// -- checking a stored feed --------------------------------------------------

/// A book as a feed leaves it.
pub struct BookState {
    pub bids: Levels,
    pub asks: Levels,
    pub status: Option<BookStatus>,
    pub updated_at: Option<UnixNanos>,
}

/// What a book holds.
pub open spec fn book_state(book: OrderBook) -> BookState {
    BookState {
        bids: book.side(Side::Buy),
        asks: book.side(Side::Sell),
        status: book.state(),
        updated_at: book.updated_at(),
    }
}

/// A book no event has reached yet.
pub open spec fn blank_book() -> BookState {
    BookState { bids: Map::empty(), asks: Map::empty(), status: None, updated_at: None }
}

/// A book after one more event of its feed.
pub open spec fn book_after(state: BookState, record: Record, instrument: Seq<char>) -> Result<
    BookState,
    ErrorView,
> {
    let ts = record.stamps.ts_init;
    match record.event {
        MarketEvent::BookSnapshot { bids, asks } => Ok(
            BookState {
                bids: snapshot_levels(bids@),
                asks: snapshot_levels(asks@),
                status: Some(BookStatus::Fresh),
                updated_at: Some(ts),
            },
        ),
        MarketEvent::BookDelta(delta) => match state.status {
            Some(BookStatus::Fresh) => Ok(
                BookState {
                    bids: if delta.side is Buy {
                        updated_levels(state.bids, delta)
                    } else {
                        state.bids
                    },
                    asks: if delta.side is Sell {
                        updated_levels(state.asks, delta)
                    } else {
                        state.asks
                    },
                    status: state.status,
                    updated_at: Some(ts),
                },
            ),
            Some(BookStatus::Stale { since }) => Err(
                ErrorView::BookGap { instrument, ts: ts.0, gap_ts: since.0 },
            ),
            None => Err(ErrorView::BookGap { instrument, ts: ts.0, gap_ts: ts.0 }),
        },
        MarketEvent::Gap => Ok(
            BookState {
                bids: Map::empty(),
                asks: Map::empty(),
                status: Some(BookStatus::Stale { since: ts }),
                updated_at: Some(ts),
            },
        ),
        _ => Ok(state),
    }
}

/// A book after a whole feed, or what stopped it.
pub open spec fn book_replayed(records: Seq<Record>, instrument: Seq<char>) -> Result<
    BookState,
    ErrorView,
>
    decreases records.len(),
{
    if records.len() == 0 {
        Ok(blank_book())
    } else {
        match book_replayed(records.drop_last(), instrument) {
            Err(e) => Err(e),
            Ok(state) => book_after(state, records.last(), instrument),
        }
    }
}

proof fn a_stopped_feed_stays(records: Seq<Record>, instrument: Seq<char>, n: int)
    requires
        0 <= n <= records.len(),
        book_replayed(records.take(n), instrument) is Err,
    ensures
        book_replayed(records, instrument) == book_replayed(records.take(n), instrument),
    decreases records.len() - n,
{
    if n < records.len() {
        assert(records.take(n + 1).drop_last() =~= records.take(n));
        a_stopped_feed_stays(records, instrument, n + 1);
    } else {
        assert(records.take(n) =~= records);
    }
}

/// Reconstruct a book from stored events, for checking a stored feed.
pub fn replay_book(records: &[Record], instrument: &str) -> (r: Result<OrderBook, BacktestError>)
    ensures
        match r {
            Ok(book) => book.wf() && book_replayed(records@, instrument@) == Ok::<
                BookState,
                ErrorView,
            >(book_state(book)),
            Err(e) => book_replayed(records@, instrument@) == Err::<BookState, ErrorView>(e@),
        },
{
    let mut book = OrderBook::new();
    let mut i: usize = 0;
    assert(records@.take(0) =~= Seq::empty());
    assert(book_state(book).bids =~= Map::empty());
    assert(book_state(book).asks =~= Map::empty());
    while i < records.len()
        invariant
            i <= records@.len(),
            book.wf(),
            book_replayed(records@.take(i as int), instrument@) == Ok::<BookState, ErrorView>(
                book_state(book),
            ),
        decreases records@.len() - i,
    {
        let record = &records[i];
        assert(records@.take(i + 1).drop_last() =~= records@.take(i as int));
        assert(records@.take(i + 1).last() == *record);
        let ghost next = book_after(book_state(book), *record, instrument@);
        match &record.event {
            MarketEvent::BookSnapshot { bids, asks } => {
                book.apply_snapshot(bids.as_slice(), asks.as_slice(), record.ts())?;
            },
            MarketEvent::BookDelta(delta) => {
                let applied = book.apply_delta(instrument, *delta, record.ts());
                if let Err(e) = applied {
                    proof {
                        a_stopped_feed_stays(records@, instrument@, i + 1);
                    }
                    return Err(e);
                }
            },
            MarketEvent::Gap => {
                book.mark_gap(record.ts());
            },
            _ => {},
        }
        proof {
            assert(next == Ok::<BookState, ErrorView>(book_state(book))) by {
                let want = next->Ok_0;
                assert(want.bids =~= book_state(book).bids);
                assert(want.asks =~= book_state(book).asks);
            }
        }
        i += 1;
    }
    assert(records@.take(i as int) =~= records@);
    Ok(book)
}

/// A declared hole is never replayed across: an incremental update that
/// follows a gap with no snapshot in between stops the feed, whatever came
/// before the gap.
pub proof fn no_replay_across_a_gap(
    before: Seq<Record>,
    gap: Record,
    between: Seq<Record>,
    update: Record,
    instrument: Seq<char>,
)
    requires
        gap.event is Gap,
        forall|i: int|
            0 <= i < between.len() ==> !((#[trigger] between[i]).event is BookSnapshot),
        update.event is BookDelta,
    ensures
        book_replayed(before.push(gap) + between.push(update), instrument) is Err,
    decreases between.len(),
{
    let whole = before.push(gap) + between.push(update);
    assert(whole.drop_last() =~= before.push(gap) + between);
    stale_until_a_snapshot(before, gap, between, instrument);
}

proof fn stale_until_a_snapshot(
    before: Seq<Record>,
    gap: Record,
    between: Seq<Record>,
    instrument: Seq<char>,
)
    requires
        gap.event is Gap,
        forall|i: int|
            0 <= i < between.len() ==> !((#[trigger] between[i]).event is BookSnapshot),
    ensures
        match book_replayed(before.push(gap) + between, instrument) {
            Ok(state) => state.status is Some && state.status->Some_0 is Stale,
            Err(_) => true,
        },
    decreases between.len(),
{
    let whole = before.push(gap) + between;
    if between.len() == 0 {
        assert(whole =~= before.push(gap));
        assert(whole.drop_last() =~= before);
    } else {
        let rest = between.drop_last();
        assert forall|i: int| 0 <= i < rest.len() implies !((#[trigger] rest[i]).event
            is BookSnapshot) by {
            assert(rest[i] == between[i]);
        }
        stale_until_a_snapshot(before, gap, rest, instrument);
        assert(whole.drop_last() =~= before.push(gap) + rest);
        assert(whole.last() == between[between.len() - 1]);
    }
}

} // verus!
