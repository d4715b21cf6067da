use h5i_db_backtest::decimal::{
    read_fixed, ColumnType, FixedBuilder, FixedColumn, FixedEncoding, FloatCell,
};
use h5i_db_backtest::types::SCALE;

/// A column as a table of floats would hand it back: every cell through an
/// `f64` and out of it again.
fn stored(column: FixedColumn) -> FixedColumn {
    match column {
        FixedColumn::Float(cells) => FixedColumn::Float(
            cells
                .into_iter()
                .map(|cell| match cell {
                    FloatCell::Scaled(raw) => {
                        let value = raw as f64 / SCALE as f64;
                        FloatCell::Scaled((value * SCALE as f64).round() as i128)
                    }
                    other => other,
                })
                .collect(),
        ),
        other => other,
    }
}

fn round_trip(encoding: FixedEncoding, raws: &[i64]) -> Vec<i64> {
    let mut builder = FixedBuilder::new(encoding);
    for raw in raws {
        builder.append(*raw);
    }
    let array = stored(builder.finish());
    (0..raws.len())
        .map(|row| read_fixed(&array, row, "t").unwrap().unwrap())
        .collect()
}

#[test]
fn decimal_is_exact_where_float_is_not() {
    // 2^53 is where an f64 mantissa stops holding consecutive integers,
    // which at this scale is about nine million units. Values above it
    // are the reason the decimal encoding exists.
    let above: i64 = 9_007_199_254_740_993;
    assert_eq!(round_trip(FixedEncoding::Decimal, &[above]), vec![above]);
    assert_ne!(
        round_trip(FixedEncoding::Float, &[above]),
        vec![above],
        "if f64 ever holds this exactly, the decimal encoding has no reason to exist"
    );
}

#[test]
fn both_encodings_agree_below_the_float_ceiling() {
    // Every price a venue quotes lives here, so the two encodings must be
    // indistinguishable in the range that actually gets used.
    let cases: Vec<i64> = vec![
        0,
        1,
        -1,
        SCALE,
        -SCALE,
        SCALE / 10_000,
        123_456_789,
        9_000_000 * SCALE / 1000,
    ];
    assert_eq!(
        round_trip(FixedEncoding::Float, &cases),
        round_trip(FixedEncoding::Decimal, &cases)
    );
}

#[test]
fn nulls_survive_either_encoding() {
    for encoding in [FixedEncoding::Float, FixedEncoding::Decimal] {
        let mut builder = FixedBuilder::new(encoding);
        builder.append(SCALE);
        builder.append_null();
        let array = builder.finish();
        assert_eq!(read_fixed(&array, 0, "t").unwrap(), Some(SCALE));
        assert_eq!(read_fixed(&array, 1, "t").unwrap(), None);
    }
}

#[test]
fn an_encoding_is_recognised_from_its_type() {
    assert_eq!(
        FixedEncoding::of(&FixedEncoding::Float.data_type()),
        Some(FixedEncoding::Float)
    );
    assert_eq!(
        FixedEncoding::of(&FixedEncoding::Decimal.data_type()),
        Some(FixedEncoding::Decimal)
    );
    assert_eq!(FixedEncoding::of(&ColumnType::Int64), None);
}
