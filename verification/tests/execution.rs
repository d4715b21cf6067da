use h5i_db_backtest::execution::{ExecutionClient, ExecutionCommand, SimulatedExecution};
use h5i_db_backtest::instrument::{InstrumentId, OutcomeId};
use h5i_db_backtest::order::{Order, OrderId, OrderKind, TimeInForce};
use h5i_db_backtest::types::{Qty, Side, UnixNanos, SCALE};

fn qy(value: f64) -> Qty {
    Qty::from_raw((value * SCALE as f64).round() as i64)
}

fn order(id: u64, quantity: f64) -> Order {
    Order::new(
        OrderId(id),
        InstrumentId::new("m").unwrap(),
        OutcomeId::first(),
        Side::Buy,
        OrderKind::Market,
        qy(quantity),
        TimeInForce::ImmediateOrCancel,
        UnixNanos::new(0),
    )
    .unwrap()
}

#[test]
fn a_client_records_what_it_was_asked_to_do() {
    let mut client = SimulatedExecution::new("sim");
    assert_eq!(client.venue(), "sim");
    client
        .send(
            ExecutionCommand::Submit(Box::new(order(1, 10.0))),
            UnixNanos::new(100),
        )
        .unwrap();
    client
        .send(ExecutionCommand::Cancel(OrderId(1)), UnixNanos::new(200))
        .unwrap();
    assert_eq!(client.sent(), 2);
    assert_eq!(client.log()[0].0, UnixNanos::new(100));
    assert_eq!(client.log()[1].1.kind(), "cancel");
}

#[test]
fn the_fingerprint_is_what_two_runs_are_compared_on() {
    let mut first = SimulatedExecution::new("sim");
    let mut second = SimulatedExecution::new("live");
    for client in [&mut first, &mut second] {
        client
            .send(
                ExecutionCommand::Submit(Box::new(order(1, 10.0))),
                UnixNanos::new(100),
            )
            .unwrap();
    }
    assert_eq!(
        first.fingerprint(),
        second.fingerprint(),
        "the same decisions must compare equal across venues"
    );

    // A different decision shows up as a different fingerprint.
    second
        .send(
            ExecutionCommand::Submit(Box::new(order(2, 5.0))),
            UnixNanos::new(150),
        )
        .unwrap();
    assert_ne!(first.fingerprint(), second.fingerprint());
}

#[test]
fn commands_report_the_order_they_concern() {
    assert_eq!(
        ExecutionCommand::Submit(Box::new(order(7, 1.0))).order_id(),
        OrderId(7)
    );
    assert_eq!(ExecutionCommand::Cancel(OrderId(9)).order_id(), OrderId(9));
    assert_eq!(
        ExecutionCommand::Amend {
            id: OrderId(3),
            quantity: None,
            limit: None
        }
        .order_id(),
        OrderId(3)
    );
}

#[test]
fn an_amendment_fingerprint_names_what_changed() {
    let mut client = SimulatedExecution::new("sim");
    client
        .send(
            ExecutionCommand::Amend {
                id: OrderId(1),
                quantity: Some(qy(5.0)),
                limit: None,
            },
            UnixNanos::new(10),
        )
        .unwrap();
    let line = &client.fingerprint()[0];
    assert!(line.contains("qty=5"), "{line}");
    assert!(line.contains("px=-"), "an unchanged price reads as absent");
}
