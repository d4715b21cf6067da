use h5i_db_backtest::book::{BookDelta, OrderBook};
use h5i_db_backtest::error::BacktestError;
use h5i_db_backtest::types::{Price, Qty, Side, UnixNanos, SCALE};

fn px(value: f64) -> Price {
    Price::from_raw((value * SCALE as f64).round() as i64)
}

fn qy(value: f64) -> Qty {
    Qty::from_raw((value * SCALE as f64).round() as i64)
}

fn price(value: f64) -> Price {
    px(value)
}

fn qty(value: f64) -> Qty {
    qy(value)
}

fn ts(value: i64) -> UnixNanos {
    UnixNanos::new(value)
}

fn snapshotted() -> OrderBook {
    let mut book = OrderBook::new();
    book.apply_snapshot(
        &[(price(0.40), qty(100.0)), (price(0.39), qty(200.0))],
        &[(price(0.42), qty(150.0)), (price(0.43), qty(300.0))],
        ts(1_000),
    )
    .unwrap();
    book
}

#[test]
fn top_of_book_is_price_ordered_not_insertion_ordered() {
    let mut book = OrderBook::new();
    // Insert deliberately out of order.
    book.apply_snapshot(
        &[
            (price(0.39), qty(1.0)),
            (price(0.41), qty(1.0)),
            (price(0.40), qty(1.0)),
        ],
        &[(price(0.45), qty(1.0)), (price(0.42), qty(1.0))],
        ts(1),
    )
    .unwrap();
    assert_eq!(book.best_bid().unwrap().0, price(0.41));
    assert_eq!(book.best_ask().unwrap().0, price(0.42));
    assert_eq!(book.spread().unwrap(), Price::from_raw(price(0.01).raw()));
    assert_eq!(book.mid().unwrap(), price(0.415));
}

#[test]
fn deltas_update_delete_and_clear() {
    let mut book = snapshotted();
    book.apply_delta(
        "m",
        BookDelta::set(Side::Buy, price(0.41), qty(50.0)),
        ts(2),
    )
    .unwrap();
    assert_eq!(book.best_bid().unwrap(), (price(0.41), qty(50.0)));

    book.apply_delta("m", BookDelta::delete(Side::Buy, price(0.41)), ts(3))
        .unwrap();
    assert_eq!(book.best_bid().unwrap().0, price(0.40));

    // A zero-size set is how most venues spell a delete.
    book.apply_delta(
        "m",
        BookDelta::set(Side::Buy, price(0.40), Qty::zero()),
        ts(4),
    )
    .unwrap();
    assert_eq!(book.best_bid().unwrap().0, price(0.39));

    book.apply_delta("m", BookDelta::clear(Side::Sell), ts(5))
        .unwrap();
    assert_eq!(book.best_ask(), None);
    assert_eq!(book.depth(Side::Sell), 0);
}

#[test]
fn an_incremental_update_without_a_snapshot_is_refused() {
    let mut book = OrderBook::new();
    let err = book
        .apply_delta("m", BookDelta::set(Side::Buy, price(0.4), qty(1.0)), ts(1))
        .unwrap_err();
    assert!(matches!(err, BacktestError::BookGap { .. }));
}

#[test]
fn a_gap_makes_the_book_stale_and_empty() {
    let mut book = snapshotted();
    assert!(book.is_fresh());
    book.mark_gap(ts(5_000));
    assert!(!book.is_fresh());
    assert_eq!(book.best_bid(), None, "stale levels must not linger");
    assert_eq!(book.best_ask(), None);
}

#[test]
fn updates_across_a_gap_are_refused_until_a_snapshot() {
    let mut book = snapshotted();
    book.mark_gap(ts(5_000));

    let err = book
        .apply_delta(
            "mkt",
            BookDelta::set(Side::Buy, price(0.4), qty(1.0)),
            ts(6_000),
        )
        .unwrap_err();
    match err {
        BacktestError::BookGap {
            instrument,
            ts,
            gap_ts,
        } => {
            assert_eq!(instrument, "mkt");
            assert_eq!(ts, 6_000);
            assert_eq!(gap_ts, 5_000);
        }
        other => panic!("expected a book gap, got {other:?}"),
    }

    // A snapshot is the only thing that restores it.
    book.apply_snapshot(&[(price(0.5), qty(10.0))], &[], ts(7_000))
        .unwrap();
    assert!(book.is_fresh());
    assert!(
        book.apply_delta(
            "mkt",
            BookDelta::set(Side::Buy, price(0.49), qty(1.0)),
            ts(7_001)
        )
        .is_ok()
    );
}

#[test]
fn walking_the_book_consumes_levels_best_first() {
    let book = snapshotted();
    let walk = book.walk(Side::Buy, qty(200.0), None);
    assert_eq!(
        walk.fills,
        vec![(price(0.42), qty(150.0)), (price(0.43), qty(50.0))]
    );
    assert_eq!(walk.filled(), qty(200.0));
    assert_eq!(walk.unfilled, Qty::zero());
    // (150*0.42 + 50*0.43) / 200 = 0.4225
    assert_eq!(walk.average_price().unwrap(), price(0.4225));
}

#[test]
fn walking_past_the_visible_book_reports_what_is_unfilled() {
    let book = snapshotted();
    let walk = book.walk(Side::Buy, qty(1_000.0), None);
    assert_eq!(walk.filled(), qty(450.0));
    assert_eq!(walk.unfilled, qty(550.0));
}

#[test]
fn a_limit_stops_the_walk_rather_than_filling_through_it() {
    let book = snapshotted();
    let walk = book.walk(Side::Buy, qty(1_000.0), Some(price(0.42)));
    assert_eq!(walk.fills, vec![(price(0.42), qty(150.0))]);
    assert_eq!(walk.unfilled, qty(850.0));

    let sell = book.walk(Side::Sell, qty(1_000.0), Some(price(0.40)));
    assert_eq!(sell.fills, vec![(price(0.40), qty(100.0))]);
}

#[test]
fn selling_hits_bids_and_buying_lifts_offers() {
    let book = snapshotted();
    assert_eq!(
        book.walk(Side::Sell, qty(1.0), None).fills[0].0,
        price(0.40)
    );
    assert_eq!(book.walk(Side::Buy, qty(1.0), None).fills[0].0, price(0.42));
}

#[test]
fn an_empty_walk_has_no_average_price() {
    let book = OrderBook::new();
    let walk = book.walk(Side::Buy, qty(10.0), None);
    assert!(walk.is_empty());
    assert_eq!(walk.average_price(), None);
    assert_eq!(walk.unfilled, qty(10.0));
}
