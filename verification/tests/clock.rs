use h5i_db_backtest::clock::Clock;
use h5i_db_backtest::types::UnixNanos;

fn ts(value: i64) -> UnixNanos {
    UnixNanos::new(value)
}

#[test]
fn the_clock_starts_where_it_is_told_and_moves_forward() {
    let mut clock = Clock::new(ts(1_000));
    assert_eq!(clock.now(), ts(1_000));
    clock.advance_to(ts(2_000)).unwrap();
    assert_eq!(clock.now(), ts(2_000));
    assert!(clock.advance_to(ts(1_500)).is_err(), "no rewinding");
}

#[test]
fn timers_fire_when_due_and_only_once() {
    let mut clock = Clock::new(ts(0));
    clock.set_timer("rebalance", ts(100)).unwrap();
    assert!(clock.advance_to(ts(50)).unwrap().is_empty());
    let fired = clock.advance_to(ts(150)).unwrap();
    assert_eq!(fired.len(), 1);
    assert_eq!(fired[0].name, "rebalance");
    assert_eq!(fired[0].scheduled_for, ts(100));
    assert!(clock.advance_to(ts(1_000)).unwrap().is_empty());
}

#[test]
fn a_timer_due_exactly_now_fires() {
    let mut clock = Clock::new(ts(0));
    clock.set_timer("t", ts(100)).unwrap();
    assert_eq!(clock.advance_to(ts(100)).unwrap().len(), 1);
}

#[test]
fn simultaneous_timers_fire_in_a_declared_order() {
    let mut clock = Clock::new(ts(0));
    // Scheduled deliberately out of alphabetical order.
    clock.set_timer("zulu", ts(10)).unwrap();
    clock.set_timer("alpha", ts(10)).unwrap();
    clock.set_timer("mike", ts(10)).unwrap();
    let names: Vec<String> = clock
        .advance_to(ts(10))
        .unwrap()
        .into_iter()
        .map(|e| e.name)
        .collect();
    assert_eq!(names, vec!["alpha", "mike", "zulu"]);
}

#[test]
fn same_name_same_instant_breaks_by_sequence() {
    let mut clock = Clock::new(ts(0));
    clock.set_timer("t", ts(5)).unwrap();
    clock.set_timer("t", ts(5)).unwrap();
    let fired = clock.advance_to(ts(5)).unwrap();
    assert_eq!(fired.len(), 2);
    assert!(fired[0].sequence < fired[1].sequence);
}

#[test]
fn timer_order_is_reproducible() {
    let run = || {
        let mut clock = Clock::new(ts(0));
        for (name, at) in [("c", 5), ("a", 5), ("b", 3), ("a", 3), ("d", 5)] {
            clock.set_timer(name, ts(at)).unwrap();
        }
        clock
            .advance_to(ts(10))
            .unwrap()
            .into_iter()
            .map(|e| (e.name, e.scheduled_for.get()))
            .collect::<Vec<_>>()
    };
    let first = run();
    assert_eq!(first[0], ("a".to_string(), 3));
    assert_eq!(first[1], ("b".to_string(), 3));
    for _ in 0..5 {
        assert_eq!(run(), first);
    }
}

#[test]
fn the_clock_reads_as_the_timers_own_time_while_it_fires() {
    // A handler asking the time during a 09:30 timer must not see 09:45.
    let mut clock = Clock::new(ts(0));
    clock.set_timer("t", ts(30)).unwrap();
    let fired = clock.advance_to(ts(45)).unwrap();
    assert_eq!(fired[0].scheduled_for, ts(30));
    assert_eq!(clock.now(), ts(45), "and lands on the target afterwards");
}

#[test]
fn repeating_timers_keep_their_cadence() {
    let mut clock = Clock::new(ts(0));
    clock.set_repeating("funding", ts(10), 10).unwrap();
    let fired = clock.advance_to(ts(35)).unwrap();
    let times: Vec<i64> = fired.iter().map(|e| e.scheduled_for.get()).collect();
    assert_eq!(times, vec![10, 20, 30]);
    assert_eq!(clock.next_timer(), Some(ts(40)));
}

#[test]
fn a_repeating_timer_needs_a_positive_interval() {
    let mut clock = Clock::new(ts(0));
    assert!(clock.set_repeating("x", ts(1), 0).is_err());
    assert!(clock.set_repeating("x", ts(1), -5).is_err());
}

#[test]
fn scheduling_in_the_past_is_refused() {
    let mut clock = Clock::new(ts(100));
    assert!(clock.set_timer("late", ts(50)).is_err());
    assert!(clock.set_timer("now", ts(100)).is_ok());
}

#[test]
fn cancel_removes_matching_timers_only() {
    let mut clock = Clock::new(ts(0));
    clock.set_timer("keep", ts(10)).unwrap();
    clock.set_timer("drop", ts(11)).unwrap();
    clock.set_timer("drop", ts(12)).unwrap();
    assert_eq!(clock.cancel("drop"), 2);
    assert_eq!(clock.pending(), 1);
    let fired = clock.advance_to(ts(100)).unwrap();
    assert_eq!(fired.len(), 1);
    assert_eq!(fired[0].name, "keep");
}
