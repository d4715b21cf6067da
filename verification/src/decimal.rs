//! Reading and writing fixed-point columns, in either encoding.
//!
//! A float column is exact for every price a prediction market or an equity
//! quotes, but it stops being exact above `2^53 / SCALE`, which is about nine
//! million units. A decimal column fixes that, and fits the type by
//! construction: its backing value is a wide integer scaled by `1e-9`, which
//! is what a fixed-point number already is. Encoding is a widening move and
//! decoding is a narrowing one. No float appears in either direction, so
//! nothing rounds.
//!
//! The encoding is a property of the table, recorded in its schema, so a
//! reader does not need to know how a table was written to read what is in
//! front of it. A value too large to hold is refused, not truncated.

use arrow::array::Array;
use vstd::prelude::*;
use vstd::string::*;

use crate::error::{BacktestError, ErrorView};
use crate::types::{fits, narrow};

verus! {

/// Decimal places every fixed-point column carries.
pub const DECIMAL_SCALE: i8 = 9;

/// Total digits. 38 is the most a wide decimal holds, and the whole point
/// here is range, so there is no reason to ask for less.
pub const DECIMAL_PRECISION: u8 = 38;

/// What a column holds.
#[derive(Clone, Copy, PartialEq, Eq, Debug, Structural)]
pub enum ColumnType {
    /// An instant, in nanoseconds.
    Timestamp,
    Utf8,
    Boolean,
    Int64,
    UInt16,
    UInt8,
    Float64,
    Decimal128 { precision: u8, scale: i8 },
}

/// One column of a table.
#[derive(Clone, Copy, PartialEq, Eq, Debug)]
pub struct ColumnSpec {
    pub name: &'static str,
    pub kind: ColumnType,
    pub nullable: bool,
}

/// How a table stores its fixed-point columns.
#[derive(Clone, Copy, PartialEq, Eq, Debug, Structural)]
pub enum FixedEncoding {
    /// Floats. Exact to about nine million units, which covers every price a
    /// venue quotes.
    Float,
    /// Wide decimals. Exact over the whole range a number here can hold, at
    /// sixteen bytes a value against eight.
    Decimal,
}

impl Default for FixedEncoding {
    fn default() -> (r: Self)
        ensures
            r == FixedEncoding::Float,
    {
        FixedEncoding::Float
    }
}

/// The type a column in an encoding has.
pub open spec fn encoded_type(encoding: FixedEncoding) -> ColumnType {
    match encoding {
        FixedEncoding::Float => ColumnType::Float64,
        FixedEncoding::Decimal => ColumnType::Decimal128 {
            precision: DECIMAL_PRECISION,
            scale: DECIMAL_SCALE,
        },
    }
}

/// The encoding a column type is, if it is one.
pub open spec fn encoding_of(kind: ColumnType) -> Option<FixedEncoding> {
    match kind {
        ColumnType::Float64 => Some(FixedEncoding::Float),
        ColumnType::Decimal128 { scale, .. } => if scale == DECIMAL_SCALE {
            Some(FixedEncoding::Decimal)
        } else {
            None
        },
        _ => None,
    }
}

impl FixedEncoding {
    /// The type a column in this encoding has.
    pub fn data_type(self) -> (r: ColumnType)
        ensures
            r == encoded_type(self),
    {
        match self {
            FixedEncoding::Float => ColumnType::Float64,
            FixedEncoding::Decimal => ColumnType::Decimal128 {
                precision: DECIMAL_PRECISION,
                scale: DECIMAL_SCALE,
            },
        }
    }

    /// Which encoding an existing column is in.
    ///
    /// `None` for a column that is neither, which is a schema mismatch the
    /// caller reports with the name in hand.
    pub fn of(kind: &ColumnType) -> (r: Option<Self>)
        ensures
            r == encoding_of(*kind),
    {
        match kind {
            ColumnType::Float64 => Some(FixedEncoding::Float),
            ColumnType::Decimal128 { scale, .. } => if *scale == DECIMAL_SCALE {
                Some(FixedEncoding::Decimal)
            } else {
                None
            },
            _ => None,
        }
    }
}

/// An encoding is recognised from the type it gives a column.
pub proof fn encodings_are_recognised(encoding: FixedEncoding)
    ensures
        encoding_of(encoded_type(encoding)) == Some(encoding),
{
}

/// A fixed-point column of a table.
pub fn fixed_field(name: &'static str, encoding: FixedEncoding, nullable: bool) -> (r: ColumnSpec)
    ensures
        r == (ColumnSpec { name, kind: encoded_type(encoding), nullable }),
{
    ColumnSpec { name, kind: encoding.data_type(), nullable }
}

/// A decimal column being written: `arrow`'s builder for 128-bit decimals.
#[verifier::external_body]
pub struct DecimalBuilder {
    inner: arrow::array::Decimal128Builder,
}

/// A decimal column as written: `arrow`'s array of 128-bit decimals.
#[verifier::external_body]
pub struct DecimalColumn {
    inner: arrow::array::Decimal128Array,
}

/// What a decimal builder has been given so far, in order.
pub uninterp spec fn builder_cells(b: DecimalBuilder) -> Seq<Option<i128>>;

/// What a decimal column holds, in order.
pub uninterp spec fn column_cells(c: DecimalColumn) -> Seq<Option<i128>>;

/// `Decimal128Builder::new` with `with_precision_and_scale`: an empty
/// builder. A precision from one to thirty-eight and a scale from nothing up
/// to the precision are accepted.
#[verifier::external_body]
pub(crate) fn decimal_builder(precision: u8, scale: i8) -> (r: Option<DecimalBuilder>)
    ensures
        r matches Some(b) ==> builder_cells(b) == Seq::<Option<i128>>::empty(),
        1 <= precision <= 38 && 0 <= scale <= precision ==> r is Some,
{
    let empty = arrow::array::Decimal128Builder::new();
    let inner = empty.with_precision_and_scale(precision, scale).ok()?;
    Some(DecimalBuilder { inner })
}

/// `Decimal128Builder::append_value`: one more value, at the end.
#[verifier::external_body]
pub(crate) fn decimal_append(b: &mut DecimalBuilder, value: i128)
    ensures
        builder_cells(*final(b)) == builder_cells(*old(b)).push(Some(value)),
{
    b.inner.append_value(value)
}

/// `Decimal128Builder::append_null`: one more empty cell, at the end.
#[verifier::external_body]
pub(crate) fn decimal_append_null(b: &mut DecimalBuilder)
    ensures
        builder_cells(*final(b)) == builder_cells(*old(b)).push(None),
{
    b.inner.append_null()
}

/// `Decimal128Builder::finish`: a column of what was appended, in order. The
/// builder is empty again afterwards.
#[verifier::external_body]
pub(crate) fn decimal_finish(b: &mut DecimalBuilder) -> (r: DecimalColumn)
    ensures
        column_cells(r) == builder_cells(*old(b)),
        builder_cells(*final(b)) == Seq::<Option<i128>>::empty(),
{
    DecimalColumn { inner: b.inner.finish() }
}

/// `Decimal128Array::len`: how many cells a column has.
#[verifier::external_body]
pub(crate) fn decimal_len(c: &DecimalColumn) -> (r: usize)
    ensures
        r == column_cells(*c).len(),
{
    c.inner.len()
}

/// `Array::is_null` on a decimal column: whether a cell is empty.
#[verifier::external_body]
pub(crate) fn decimal_is_null(c: &DecimalColumn, row: usize) -> (r: bool)
    requires
        row < column_cells(*c).len(),
    ensures
        r == (column_cells(*c)[row as int] is None),
{
    c.inner.is_null(row)
}

/// `Decimal128Array::value`: the value in a cell that is not empty.
#[verifier::external_body]
pub(crate) fn decimal_value(c: &DecimalColumn, row: usize) -> (r: i128)
    requires
        row < column_cells(*c).len(),
        column_cells(*c)[row as int] is Some,
    ensures
        column_cells(*c)[row as int] == Some(r),
{
    c.inner.value(row)
}

/// A decimal column of given cells.
pub fn decimal_column(cells: &[Option<i128>]) -> (c: FixedColumn)
    ensures
        c matches FixedColumn::Decimal(inner) && column_cells(inner) == cells@,
{
    let mut builder = match decimal_builder(DECIMAL_PRECISION, DECIMAL_SCALE) {
        Some(builder) => builder,
        None => {
            assert(false);
            return FixedColumn::Float(Vec::new());
        },
    };
    let mut i: usize = 0;
    assert(cells@.take(0) =~= Seq::empty());
    while i < cells.len()
        invariant
            i <= cells@.len(),
            builder_cells(builder) == cells@.take(i as int),
        decreases cells@.len() - i,
    {
        match cells[i] {
            Some(value) => decimal_append(&mut builder, value),
            None => decimal_append_null(&mut builder),
        }
        assert(cells@.take(i + 1) =~= cells@.take(i as int).push(cells@[i as int]));
        i += 1;
    }
    assert(cells@.take(i as int) =~= cells@);
    FixedColumn::Decimal(decimal_finish(&mut builder))
}

/// The cells of a decimal column.
pub fn decimal_cells(column: &DecimalColumn) -> (cells: Vec<Option<i128>>)
    ensures
        cells@ == column_cells(*column),
{
    let mut cells: Vec<Option<i128>> = Vec::new();
    let n: usize = decimal_len(column);
    let mut row: usize = 0;
    while row < n
        invariant
            n == column_cells(*column).len(),
            row <= n,
            cells@ == column_cells(*column).take(row as int),
        decreases n - row,
    {
        if decimal_is_null(column, row) {
            cells.push(None);
        } else {
            cells.push(Some(decimal_value(column, row)));
        }
        assert(column_cells(*column).take(row + 1) =~= column_cells(*column).take(row as int).push(
            column_cells(*column)[row as int],
        ));
        row += 1;
    }
    assert(column_cells(*column).take(row as int) =~= column_cells(*column));
    cells
}

/// One cell of a float column, brought to scaled units where it was read.
#[derive(Clone, Copy, PartialEq, Eq, Debug, Structural)]
pub enum FloatCell {
    Null,
    /// Not a number, or without end.
    NotFinite,
    /// The value times the scale, rounded to the nearest unit.
    Scaled(i128),
}

/// A column as it was read.
pub enum FixedColumn {
    Float(Vec<FloatCell>),
    Decimal(DecimalColumn),
    /// Neither encoding; how the type it has is written.
    Other { kind: String, rows: usize },
}

/// How many rows a column has.
pub open spec fn column_rows(column: FixedColumn) -> nat {
    match column {
        FixedColumn::Float(cells) => cells@.len(),
        FixedColumn::Decimal(column) => column_cells(column).len(),
        FixedColumn::Other { rows, .. } => rows as nat,
    }
}

/// A wide value as a fixed-point number, if it fits.
pub open spec fn narrowed(raw: int) -> Result<Option<i64>, ErrorView> {
    if fits(raw) {
        Ok(Some(raw as i64))
    } else {
        Err(ErrorView::Overflow { what: "read_fixed"@ })
    }
}

/// What reading a cell gives.
pub open spec fn cell_read(column: FixedColumn, row: int, name: Seq<char>) -> Result<
    Option<i64>,
    ErrorView,
> {
    match column {
        FixedColumn::Float(cells) => match cells@[row] {
            FloatCell::Null => Ok(None),
            FloatCell::NotFinite => Err(ErrorView::NotFinite { what: "column"@ }),
            FloatCell::Scaled(raw) => narrowed(raw as int),
        },
        FixedColumn::Decimal(column) => match column_cells(column)[row] {
            None => Ok(None),
            Some(raw) => narrowed(raw as int),
        },
        FixedColumn::Other { kind, .. } => Err(
            ErrorView::Schema {
                table: "read"@,
                detail: "column "@ + name + " is "@ + kind@
                    + ", which is not a fixed-point encoding"@,
            },
        ),
    }
}

/// Read one row of a fixed-point column as raw scaled units.
///
/// `None` where the cell is empty. Works on either encoding.
pub fn read_fixed(column: &FixedColumn, row: usize, name: &str) -> (r: Result<
    Option<i64>,
    BacktestError,
>)
    requires
        row < column_rows(*column),
    ensures
        match r {
            Ok(value) => cell_read(*column, row as int, name@) == Ok::<Option<i64>, ErrorView>(
                value,
            ),
            Err(e) => cell_read(*column, row as int, name@) == Err::<Option<i64>, ErrorView>(e@),
        },
{
    match column {
        FixedColumn::Float(cells) => match cells[row] {
            FloatCell::Null => Ok(None),
            FloatCell::NotFinite => Err(BacktestError::NotFinite { what: "column" }),
            FloatCell::Scaled(raw) => Ok(Some(narrow(raw, "read_fixed")?)),
        },
        FixedColumn::Decimal(column) => {
            if decimal_is_null(column, row) {
                return Ok(None);
            }
            let raw: i128 = decimal_value(column, row);
            Ok(Some(narrow(raw, "read_fixed")?))
        },
        FixedColumn::Other { kind, .. } => {
            let mut detail = "column ".to_owned();
            detail.append(name);
            detail.append(" is ");
            detail.append(kind.as_str());
            detail.append(", which is not a fixed-point encoding");
            Err(BacktestError::Schema { table: "read", detail })
        },
    }
}

/// Read one row of a fixed-point column that must not be empty there.
///
/// An empty cell is a row that disagrees with its own schema, so it is
/// refused rather than read as a zero: a zero price or a zero size is a value
/// a matching engine will happily act on.
pub fn read_fixed_value(column: &FixedColumn, row: usize, name: &str) -> (r: Result<
    i64,
    BacktestError,
>)
    requires
        row < column_rows(*column),
    ensures
        match cell_read(*column, row as int, name@) {
            Ok(Some(raw)) => r == Ok::<i64, BacktestError>(raw),
            Ok(None) => r matches Err(e) && e@ == (ErrorView::Schema {
                table: "read"@,
                detail: "column "@ + name@ + " is null in a row where it must not be"@,
            }),
            Err(fault) => r matches Err(e) && e@ == fault,
        },
{
    match read_fixed(column, row, name)? {
        Some(raw) => Ok(raw),
        None => {
            let mut detail = "column ".to_owned();
            detail.append(name);
            detail.append(" is null in a row where it must not be");
            Err(BacktestError::Schema { table: "read", detail })
        },
    }
}

/// Accumulates a fixed-point column in whichever encoding the table declares.
///
/// A float column is accumulated in scaled units; what they are divided by
/// is the business of whoever stores it.
pub enum FixedBuilder {
    Float(Vec<FloatCell>),
    Decimal(DecimalBuilder),
}

/// A number as a float cell holds it here.
pub open spec fn float_cell(value: Option<i64>) -> FloatCell {
    match value {
        Some(raw) => FloatCell::Scaled(raw as i128),
        None => FloatCell::Null,
    }
}

/// A number as a decimal cell holds it.
pub open spec fn decimal_cell(value: Option<i64>) -> Option<i128> {
    match value {
        Some(raw) => Some(raw as i128),
        None => None,
    }
}

/// Whether a builder holds a list of numbers.
pub open spec fn builder_holds(b: FixedBuilder, values: Seq<Option<i64>>) -> bool {
    match b {
        FixedBuilder::Float(cells) => cells@ == values.map_values(
            |v: Option<i64>| float_cell(v),
        ),
        FixedBuilder::Decimal(inner) => builder_cells(inner) == values.map_values(
            |v: Option<i64>| decimal_cell(v),
        ),
    }
}

/// Whether a column holds a list of numbers.
pub open spec fn column_holds(c: FixedColumn, values: Seq<Option<i64>>) -> bool {
    match c {
        FixedColumn::Float(cells) => cells@ == values.map_values(|v: Option<i64>| float_cell(v)),
        FixedColumn::Decimal(inner) => column_cells(inner) == values.map_values(
            |v: Option<i64>| decimal_cell(v),
        ),
        FixedColumn::Other { .. } => false,
    }
}

/// The encoding a builder writes.
pub open spec fn builder_encoding(b: FixedBuilder) -> FixedEncoding {
    match b {
        FixedBuilder::Float(_) => FixedEncoding::Float,
        FixedBuilder::Decimal(_) => FixedEncoding::Decimal,
    }
}

/// A column reads back what was written to it, empty cells included: nothing
/// rounds and nothing is truncated.
pub proof fn columns_read_back_what_was_written(
    column: FixedColumn,
    values: Seq<Option<i64>>,
    row: int,
    name: Seq<char>,
)
    requires
        column_holds(column, values),
        0 <= row < values.len(),
    ensures
        column_rows(column) == values.len(),
        cell_read(column, row, name) == Ok::<Option<i64>, ErrorView>(values[row]),
{
}

impl FixedBuilder {
    pub fn new(encoding: FixedEncoding) -> (b: Self)
        ensures
            builder_encoding(b) == encoding,
            builder_holds(b, Seq::empty()),
    {
        match encoding {
            FixedEncoding::Float => {
                let b = FixedBuilder::Float(Vec::new());
                assert(Seq::<Option<i64>>::empty().map_values(|v: Option<i64>| float_cell(v))
                    =~= Seq::<FloatCell>::empty());
                b
            },
            FixedEncoding::Decimal => {
                assert(Seq::<Option<i64>>::empty().map_values(|v: Option<i64>| decimal_cell(v))
                    =~= Seq::<Option<i128>>::empty());
                match decimal_builder(DECIMAL_PRECISION, DECIMAL_SCALE) {
                    Some(inner) => FixedBuilder::Decimal(inner),
                    None => {
                        assert(false);
                        FixedBuilder::Float(Vec::new())
                    },
                }
            },
        }
    }

    /// Append raw scaled units.
    pub fn append(&mut self, raw: i64)
        ensures
            builder_encoding(*final(self)) == builder_encoding(*old(self)),
            forall|values: Seq<Option<i64>>| #[trigger]
                builder_holds(*old(self), values) ==> builder_holds(
                    *final(self),
                    values.push(Some(raw)),
                ),
    {
        match self {
            FixedBuilder::Float(cells) => {
                cells.push(FloatCell::Scaled(raw as i128));
            },
            FixedBuilder::Decimal(inner) => {
                decimal_append(inner, raw as i128);
            },
        }
        proof {
            pushes_agree(*old(self), *self, Some(raw));
        }
    }

    pub fn append_null(&mut self)
        ensures
            builder_encoding(*final(self)) == builder_encoding(*old(self)),
            forall|values: Seq<Option<i64>>| #[trigger]
                builder_holds(*old(self), values) ==> builder_holds(
                    *final(self),
                    values.push(None),
                ),
    {
        match self {
            FixedBuilder::Float(cells) => {
                cells.push(FloatCell::Null);
            },
            FixedBuilder::Decimal(inner) => {
                decimal_append_null(inner);
            },
        }
        proof {
            pushes_agree(*old(self), *self, None);
        }
    }

    pub fn finish(self) -> (c: FixedColumn)
        ensures
            forall|values: Seq<Option<i64>>| #[trigger]
                builder_holds(self, values) ==> column_holds(c, values),
    {
        match self {
            FixedBuilder::Float(cells) => FixedColumn::Float(cells),
            FixedBuilder::Decimal(inner) => {
                let mut inner = inner;
                FixedColumn::Decimal(decimal_finish(&mut inner))
            },
        }
    }
}

impl FixedColumn {
    /// How many rows the column has.
    pub fn len(&self) -> (r: usize)
        ensures
            r == column_rows(*self),
    {
        match self {
            FixedColumn::Float(cells) => cells.len(),
            FixedColumn::Decimal(column) => decimal_len(column),
            FixedColumn::Other { rows, .. } => *rows,
        }
    }
}

proof fn pushes_agree(before: FixedBuilder, after: FixedBuilder, value: Option<i64>)
    requires
        match (before, after) {
            (FixedBuilder::Float(a), FixedBuilder::Float(b)) => b@ == a@.push(float_cell(value)),
            (FixedBuilder::Decimal(a), FixedBuilder::Decimal(b)) => builder_cells(b)
                == builder_cells(a).push(decimal_cell(value)),
            _ => false,
        },
    ensures
        forall|values: Seq<Option<i64>>| #[trigger]
            builder_holds(before, values) ==> builder_holds(after, values.push(value)),
{
    assert forall|values: Seq<Option<i64>>| #[trigger] builder_holds(
        before,
        values,
    ) implies builder_holds(after, values.push(value)) by {
        assert(values.push(value).map_values(|v: Option<i64>| float_cell(v)) =~= values.map_values(
            |v: Option<i64>| float_cell(v),
        ).push(float_cell(value)));
        assert(values.push(value).map_values(|v: Option<i64>| decimal_cell(v))
            =~= values.map_values(|v: Option<i64>| decimal_cell(v)).push(decimal_cell(value)));
    }
}

} // verus!
