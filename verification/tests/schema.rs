use h5i_db_backtest::decimal::{ColumnSpec, FixedEncoding};
use h5i_db_backtest::schema::{
    book_deltas, fills, ingest_log_table, market_data_tables, run_output_tables, signals_table,
    trades, INSTRUMENTS, RESOLUTIONS,
};

#[test]
fn market_data_is_time_indexed_on_the_column_replay_sorts_by() {
    // Pruning must happen on ts_init, because that is the order the
    // merge reads records in.
    for table in market_data_tables(FixedEncoding::default()) {
        let (name, schema, options) = (table.name, table.columns, table.options);
        assert_eq!(
            options.time_column,
            Some("ts_init"),
            "{name} must be indexed on ts_init"
        );
        assert!(
            field(&schema, "ts_init").is_some(),
            "{name} needs ts_init"
        );
    }
}

#[test]
fn every_market_data_row_carries_both_timestamps() {
    for table in market_data_tables(FixedEncoding::default()) {
        let (name, schema) = (table.name, table.columns);
        if name == INSTRUMENTS || name == RESOLUTIONS {
            continue; // reference data: known-at only
        }
        for column in ["ts_init", "ts_event"] {
            let field = field(&schema, column).expect(column);
            assert!(!field.nullable, "{name}.{column} must be non-null");
        }
    }
}

#[test]
fn optional_columns_are_the_ones_a_vendor_may_not_supply() {
    // An aggressor that is absent must stay absent rather than being
    // defaulted to a side.
    let trades = trades(FixedEncoding::default());
    assert!(field(&trades, "aggressor").unwrap().nullable);
    assert!(!field(&trades, "price").unwrap().nullable);

    // A clear or gap row has no side, price, or size.
    let deltas = book_deltas(FixedEncoding::default());
    for column in ["side", "price", "size"] {
        assert!(
            field(&deltas, column).unwrap().nullable,
            "{column} must be nullable"
        );
    }
    assert!(!field(&deltas, "action").unwrap().nullable);
}

#[test]
fn run_outputs_are_time_indexed_and_named_consistently() {
    for table in run_output_tables(FixedEncoding::default()) {
        let (name, schema, options) = (table.name, table.columns, table.options);
        assert!(name.starts_with("bt_"), "{name} must be a bt_ table");
        assert_eq!(options.time_column, Some("ts"));
        assert!(field(&schema, "ts").is_some());
    }
}

#[test]
fn fills_carry_everything_needed_to_rebuild_a_position() {
    // The audit claim: bt_fills alone must reconstruct bt_positions.
    let fills = fills(FixedEncoding::default());
    for column in [
        "instrument_id",
        "outcome",
        "side",
        "price",
        "quantity",
        "commission",
    ] {
        assert!(
            field(&fills, column).is_some(),
            "fills needs {column}"
        );
    }
}

#[test]
fn table_names_do_not_collide() {
    let mut names: Vec<&str> = market_data_tables(FixedEncoding::default())
        .into_iter()
        .map(|table| table.name)
        .chain(
            run_output_tables(FixedEncoding::default())
                .into_iter()
                .map(|table| table.name),
        )
        .chain(std::iter::once(signals_table(FixedEncoding::default()).name))
        .chain(std::iter::once(ingest_log_table().name))
        .collect();
    let count = names.len();
    names.sort_unstable();
    names.dedup();
    assert_eq!(names.len(), count, "table names must be unique");
}

fn field<'a>(columns: &'a [ColumnSpec], name: &str) -> Option<&'a ColumnSpec> {
    columns.iter().find(|column| column.name == name)
}
