use h5i_db_backtest::decimal::{read_fixed, FixedBuilder, FixedColumn, FixedEncoding, FloatCell};
use h5i_db_backtest::types::{Price, SCALE};

/// A price written to a float column, kept as an `f64`, and read back.
fn through_float_storage(price: Price) -> Price {
    let mut builder = FixedBuilder::new(FixedEncoding::Float);
    builder.append(price.raw());
    let column = match builder.finish() {
        FixedColumn::Float(cells) => FixedColumn::Float(
            cells
                .into_iter()
                .map(|cell| match cell {
                    FloatCell::Scaled(raw) => {
                        let stored: f64 = raw as f64 / SCALE as f64;
                        FloatCell::Scaled((stored * SCALE as f64).round() as i128)
                    }
                    other => other,
                })
                .collect(),
        ),
        other => other,
    };
    Price::from_raw(read_fixed(&column, 0, "price").unwrap().unwrap())
}

#[test]
fn float_storage_round_trips_exactly() {
    // Every value a venue quotes, and a good deal more, that the type
    // can represent survives a trip through f64 storage unchanged.
    let cases = [
        0.0,
        1.0,
        0.5,
        0.42,
        0.0001,
        0.999999999,
        123.456789,
        1e6,
        -0.37,
        0.123456789,
        9_999_999.999999999,
    ];
    for value in cases {
        let original = Price::from_raw((value * SCALE as f64).round() as i64);
        let restored = through_float_storage(original);
        assert_eq!(original, restored, "{value} did not survive the round trip");
    }
}

#[test]
fn round_trip_holds_across_the_whole_tick_grid() {
    // Every 0.0001 tick a prediction market can quote.
    for tick in 0..=10_000 as i64 {
        let original = Price::from_raw(tick * (SCALE / 10_000));
        let restored = through_float_storage(original);
        assert_eq!(original, restored, "tick {tick} failed");
    }
}
