use h5i_db_backtest::book::BookDelta;
use h5i_db_backtest::error::BacktestError;
use h5i_db_backtest::event::{MarketEvent, Record};
use h5i_db_backtest::instrument::{InstrumentId, OutcomeId};
use h5i_db_backtest::replay::{priority, ListSource, Replay};
use h5i_db_backtest::types::{Price, Qty, Side, Stamps, UnixNanos, SCALE};

fn px(value: f64) -> Price {
    Price::from_raw((value * SCALE as f64).round() as i64)
}

fn qy(value: f64) -> Qty {
    Qty::from_raw((value * SCALE as f64).round() as i64)
}

fn record(ts: i64, tag: &str) -> Record {
    Record::new(
        Stamps::immediate(UnixNanos::new(ts)),
        InstrumentId::new(tag).unwrap(),
        OutcomeId::first(),
        MarketEvent::Gap,
    )
}

fn trade(ts: i64, tag: &str, price: f64) -> Record {
    Record::new(
        Stamps::immediate(UnixNanos::new(ts)),
        InstrumentId::new(tag).unwrap(),
        OutcomeId::first(),
        MarketEvent::Trade {
            price: px(price),
            size: qy(1.0),
            aggressor: Some(Side::Buy),
        },
    )
}

#[test]
fn merges_streams_in_timestamp_order() {
    let mut replay = Replay::<ListSource>::builder()
        .stream("a", priority::TRADE, vec![record(10, "a"), record(30, "a")])
        .stream("b", priority::TRADE, vec![record(20, "b"), record(40, "b")])
        .build()
        .unwrap();
    let order: Vec<i64> = replay
        .collect_all()
        .unwrap()
        .iter()
        .map(|r| r.ts().get())
        .collect();
    assert_eq!(order, vec![10, 20, 30, 40]);
}

#[test]
fn ties_break_by_priority_so_the_venue_sees_data_first() {
    // A delta and a trade at the same instant: the book update must be
    // applied before the print that may consume it.
    let delta = Record::new(
        Stamps::immediate(UnixNanos::new(100)),
        InstrumentId::new("m").unwrap(),
        OutcomeId::first(),
        MarketEvent::BookDelta(BookDelta::set(
            Side::Buy,
            px(0.5),
            qy(1.0),
        )),
    );
    let mut replay = Replay::<ListSource>::builder()
        .stream("trades", priority::TRADE, vec![trade(100, "m", 0.5)])
        .stream("deltas", priority::DELTA, vec![delta])
        .build()
        .unwrap();
    let kinds: Vec<&str> = replay
        .collect_all()
        .unwrap()
        .iter()
        .map(|r| r.event.kind())
        .collect();
    assert_eq!(kinds, vec!["book_delta", "trade"]);
}

#[test]
fn gaps_sort_before_everything_at_the_same_instant() {
    let mut replay = Replay::<ListSource>::builder()
        .stream("trades", priority::TRADE, vec![trade(5, "m", 0.4)])
        .stream("gaps", priority::GAP, vec![record(5, "m")])
        .stream("bars", priority::BAR, vec![record(5, "m")])
        .build()
        .unwrap();
    let first = replay.next_record().unwrap().unwrap();
    assert_eq!(first.event.kind(), "gap");
}

#[test]
fn equal_priority_ties_break_by_stream_then_arrival() {
    // Two streams at identical priority and timestamp: the declared
    // stream order decides, and it decides the same way every run.
    let mut first = Replay::<ListSource>::builder()
        .stream(
            "x",
            priority::TRADE,
            vec![trade(1, "x", 0.1), trade(1, "x", 0.2)],
        )
        .stream("y", priority::TRADE, vec![trade(1, "y", 0.3)])
        .build()
        .unwrap();
    let tags: Vec<String> = first
        .collect_all()
        .unwrap()
        .iter()
        .map(|r| r.instrument.as_str().to_string())
        .collect();
    assert_eq!(tags, vec!["x", "x", "y"]);
}

#[test]
fn the_merge_is_reproducible_across_runs() {
    // Timestamps deliberately collide across streams so the tie-break,
    // not the timestamp, decides most of the order.
    let build = || {
        Replay::<ListSource>::builder()
            .stream(
                "a",
                priority::TRADE,
                (0..50).map(|i| trade(i / 3, "a", 0.5)).collect(),
            )
            .stream(
                "b",
                priority::TRADE,
                (0..50).map(|i| trade(i / 5, "b", 0.6)).collect(),
            )
            .stream(
                "c",
                priority::DELTA,
                (0..50).map(|i| record(i / 7, "c")).collect(),
            )
            .build()
            .unwrap()
    };
    let first: Vec<_> = build().collect_all().unwrap();
    for _ in 0..5 {
        assert_eq!(
            build().collect_all().unwrap(),
            first,
            "merge order must not vary"
        );
    }
}

#[test]
fn an_unsorted_stream_is_refused_when_it_is_reached() {
    // With lazy sources the check happens as records are pulled, not in
    // one pass up front: a stream too large to hold is still validated,
    // and the error names the record that broke the order rather than
    // the stream as a whole.
    let mut replay = Replay::<ListSource>::builder()
        .stream(
            "bad",
            priority::TRADE,
            vec![record(10, "m"), record(5, "m")],
        )
        .build()
        .expect("the first record is fine");
    // The offending record is pulled while emitting the one before it,
    // so the error arrives on the call that would have needed it.
    let err = replay.next_record().unwrap_err();
    match err {
        BacktestError::OutOfOrder {
            stream,
            ts,
            previous,
        } => {
            assert_eq!(stream, "bad");
            assert_eq!((ts, previous), (5, 10));
        }
        other => panic!("expected out of order, got {other:?}"),
    }
}

#[test]
fn replay_orders_by_ts_init_not_ts_event() {
    // A record that happened first but was learned last must be
    // delivered last. This is the whole point of the dual stamp.
    let late = Record::new(
        Stamps::new(UnixNanos::new(1), UnixNanos::new(100)).unwrap(),
        InstrumentId::new("late").unwrap(),
        OutcomeId::first(),
        MarketEvent::Gap,
    );
    let prompt = Record::new(
        Stamps::new(UnixNanos::new(50), UnixNanos::new(50)).unwrap(),
        InstrumentId::new("prompt").unwrap(),
        OutcomeId::first(),
        MarketEvent::Gap,
    );
    // Separate streams, each trivially sorted, so only the merge's
    // choice of key decides. By ts_event the late record comes first;
    // by ts_init it comes last, and ts_init is what replay must use.
    let mut replay = Replay::<ListSource>::builder()
        .stream("late", priority::TRADE, vec![late])
        .stream("prompt", priority::TRADE, vec![prompt])
        .build()
        .unwrap();
    let tags: Vec<String> = replay
        .collect_all()
        .unwrap()
        .iter()
        .map(|r| r.instrument.as_str().to_string())
        .collect();
    assert_eq!(
        tags,
        vec!["prompt", "late"],
        "a record learned late must arrive late"
    );
}

#[test]
fn peek_does_not_consume() {
    let mut replay = Replay::<ListSource>::builder()
        .stream("a", priority::TRADE, vec![record(7, "a")])
        .build()
        .unwrap();
    assert_eq!(replay.peek_ts(), Some(UnixNanos::new(7)));
    assert_eq!(replay.peek_ts(), Some(UnixNanos::new(7)));
    assert!(replay.next_record().unwrap().is_some());
    assert_eq!(replay.peek_ts(), None);
    assert!(replay.is_empty());
    assert_eq!(replay.emitted(), 1);
}

#[test]
fn empty_streams_are_harmless() {
    let mut replay = Replay::<ListSource>::builder()
        .stream("empty", priority::TRADE, vec![])
        .stream("full", priority::TRADE, vec![record(1, "m")])
        .build()
        .unwrap();
    assert_eq!(replay.collect_all().unwrap().len(), 1);
    assert_eq!(replay.stream_names(), vec!["empty", "full"]);
}

#[test]
fn a_drained_replay_has_counted_what_it_handed_out() {
    let mut replay = Replay::<ListSource>::builder()
        .stream("a", priority::TRADE, vec![record(1, "a"), record(4, "a")])
        .stream("b", priority::TRADE, vec![record(2, "b")])
        .build()
        .unwrap();
    assert!(replay.next_record().unwrap().is_some());
    assert_eq!(replay.collect_all().unwrap().len(), 2);
    assert_eq!(replay.emitted(), 3);
    assert!(replay.is_empty());
}
