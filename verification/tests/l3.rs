use h5i_db_backtest::l3::{L3Book, MboMessage, VenueOrderId};
use h5i_db_backtest::types::{Price, Qty, Side, SCALE};

fn px(value: f64) -> Price {
    Price::from_raw((value * SCALE as f64).round() as i64)
}

fn qy(value: f64) -> Qty {
    Qty::from_raw((value * SCALE as f64).round() as i64)
}

fn price(value: f64) -> Price {
    px(value)
}

fn qty(value: f64) -> Qty {
    qy(value)
}

/// Three orders queued at one price, in arrival order.
fn queued() -> L3Book {
    let mut book = L3Book::new();
    book.add(1, Side::Buy, price(100.0), qty(10.0)).unwrap();
    book.add(2, Side::Buy, price(100.0), qty(20.0)).unwrap();
    book.add(3, Side::Buy, price(100.0), qty(30.0)).unwrap();
    book
}

#[test]
fn queue_position_is_a_fact_not_an_assumption() {
    let book = queued();
    assert_eq!(book.size_ahead_of(1).unwrap(), Qty::zero());
    assert_eq!(book.size_ahead_of(2).unwrap(), qty(10.0));
    assert_eq!(book.size_ahead_of(3).unwrap(), qty(30.0));
    assert_eq!(
        book.size_ahead_of(99),
        None,
        "an unknown order has no place"
    );
}

#[test]
fn a_cancel_ahead_of_you_advances_the_queue() {
    // The gain L3 gives over L2: an L2 model can only see the level
    // shrink, not that the shrinkage was in front of you.
    let mut book = queued();
    assert_eq!(book.size_ahead_of(3).unwrap(), qty(30.0));
    book.cancel(1).unwrap();
    assert_eq!(book.size_ahead_of(3).unwrap(), qty(20.0));
    book.cancel(2).unwrap();
    assert_eq!(
        book.size_ahead_of(3).unwrap(),
        Qty::zero(),
        "now at the front"
    );
}

#[test]
fn a_cancel_behind_you_changes_nothing() {
    let mut book = queued();
    book.cancel(3).unwrap();
    assert_eq!(book.size_ahead_of(2).unwrap(), qty(10.0));
    assert_eq!(book.size_ahead_of(1).unwrap(), Qty::zero());
}

#[test]
fn a_partial_execution_shrinks_the_order_in_place() {
    let mut book = queued();
    assert_eq!(book.execute(1, qty(4.0)).unwrap(), qty(4.0));
    assert_eq!(book.size_ahead_of(2).unwrap(), qty(6.0), "6 of 10 remain");
    assert_eq!(book.order_count(), 3, "the order is still on the book");
}

#[test]
fn a_full_execution_removes_the_order() {
    let mut book = queued();
    assert_eq!(book.execute(1, qty(10.0)).unwrap(), qty(10.0));
    assert_eq!(book.order_count(), 2);
    assert_eq!(book.size_ahead_of(2).unwrap(), Qty::zero());
}

#[test]
fn an_execution_larger_than_the_order_takes_only_what_is_there() {
    let mut book = queued();
    assert_eq!(
        book.execute(1, qty(1_000.0)).unwrap(),
        qty(10.0),
        "an order cannot trade more than it holds"
    );
}

#[test]
fn reducing_keeps_priority_and_growing_is_refused() {
    let mut book = queued();
    book.reduce(1, qty(3.0)).unwrap();
    assert_eq!(
        book.size_ahead_of(2).unwrap(),
        qty(3.0),
        "the reduced order kept its place at the front"
    );
    // Growing in place would be free priority.
    let error = book.reduce(1, qty(50.0)).unwrap_err().message();
    assert!(error.contains("free queue priority"), "{error}");
}

#[test]
fn reducing_to_nothing_removes_the_order() {
    let mut book = queued();
    book.reduce(2, Qty::zero()).unwrap();
    assert_eq!(book.order_count(), 2);
    assert_eq!(book.size_ahead_of(3).unwrap(), qty(10.0));
}

#[test]
fn a_cancel_for_an_unseen_order_is_tolerated() {
    // MBO feeds reference orders that predate the snapshot a replay
    // started from; treating those as corruption would make every
    // mid-day start fail.
    let mut book = L3Book::new();
    assert_eq!(book.cancel(12_345).unwrap(), Qty::zero());
    assert_eq!(book.execute(12_345, qty(1.0)).unwrap(), Qty::zero());
    assert!(book.reduce(12_345, qty(1.0)).is_ok());
}

#[test]
fn a_duplicate_order_id_is_refused() {
    let mut book = queued();
    assert!(book.add(1, Side::Buy, price(100.0), qty(5.0)).is_err());
}

#[test]
fn zero_sized_orders_never_join_the_book() {
    let mut book = L3Book::new();
    assert!(book.add(1, Side::Buy, price(100.0), Qty::zero()).is_err());
}

#[test]
fn the_book_collapses_to_an_l2_view() {
    let mut book = queued();
    book.add(4, Side::Buy, price(99.0), qty(5.0)).unwrap();
    book.add(5, Side::Sell, price(101.0), qty(7.0)).unwrap();
    book.add(6, Side::Sell, price(102.0), qty(8.0)).unwrap();

    assert_eq!(book.best_bid(), Some(price(100.0)));
    assert_eq!(book.best_ask(), Some(price(101.0)));
    assert_eq!(
        book.levels(Side::Buy),
        vec![(price(100.0), qty(60.0)), (price(99.0), qty(5.0))],
        "levels aggregate the queue and sort best first"
    );
    assert_eq!(
        book.levels(Side::Sell),
        vec![(price(101.0), qty(7.0)), (price(102.0), qty(8.0))]
    );
}

#[test]
fn an_emptied_level_disappears() {
    let mut book = L3Book::new();
    book.add(1, Side::Buy, price(100.0), qty(10.0)).unwrap();
    assert_eq!(book.best_bid(), Some(price(100.0)));
    book.cancel(1).unwrap();
    assert_eq!(book.best_bid(), None);
    assert!(book.is_empty());
}

#[test]
fn messages_apply_through_one_entry_point() {
    let mut book = L3Book::new();
    for message in [
        MboMessage::Add {
            order_id: 1,
            side: Side::Buy,
            price: price(100.0),
            size: qty(10.0),
        },
        MboMessage::Add {
            order_id: 2,
            side: Side::Buy,
            price: price(100.0),
            size: qty(5.0),
        },
        MboMessage::Execute {
            order_id: 1,
            size: qty(4.0),
        },
        MboMessage::Cancel { order_id: 1 },
    ] {
        book.apply(message).unwrap();
    }
    assert_eq!(book.size_ahead_of(2).unwrap(), Qty::zero());
    assert_eq!(book.size_at(Side::Buy, price(100.0)), qty(5.0));
}

#[test]
fn a_long_random_sequence_keeps_the_book_consistent() {
    // The invariant: the sum of queued sizes at a level always equals
    // the level's total, however many adds, cancels and partial
    // executions have gone through it.
    let mut book = L3Book::new();
    let mut live: Vec<VenueOrderId> = Vec::new();
    let mut next_id = 1u64;

    for step in 0..2_000u64 {
        match step % 5 {
            0 | 1 => {
                let id = next_id;
                next_id += 1;
                let size = qty(((step % 9) + 1) as f64);
                book.add(id, Side::Buy, price(100.0), size).unwrap();
                live.push(id);
            }
            2 if !live.is_empty() => {
                let id = live.remove(0);
                book.cancel(id).unwrap();
            }
            3 if !live.is_empty() => {
                let id = live[0];
                if book.execute(id, qty(1.0)).unwrap() > Qty::zero()
                    && book.size_ahead_of(id).is_none()
                {
                    live.remove(0);
                }
            }
            _ => {}
        }
        // Every live order's "ahead" must be less than the level total.
        let total = book.size_at(Side::Buy, price(100.0));
        for id in &live {
            if let Some(ahead) = book.size_ahead_of(*id) {
                assert!(ahead <= total, "ahead {ahead:?} exceeds level {total:?}");
            }
        }
    }
    assert!(book.order_count() > 0);
}

#[test]
fn a_level_queues_what_is_left_in_the_order_it_joined() {
    let mut book = L3Book::new();
    let add = |order_id: VenueOrderId, size: f64| MboMessage::Add {
        order_id,
        side: Side::Sell,
        price: price(10.0),
        size: qty(size),
    };
    for message in [
        add(1, 5.0),
        add(2, 4.0),
        add(3, 3.0),
        MboMessage::Execute { order_id: 1, size: qty(2.0) },
        MboMessage::Cancel { order_id: 2 },
        add(2, 1.0),
        MboMessage::Reduce { order_id: 3, new_size: qty(2.0) },
    ] {
        book.apply(message).unwrap();
    }
    assert!(book.apply(add(3, 9.0)).is_err());
    assert_eq!(book.size_ahead_of(1).unwrap(), Qty::zero());
    assert_eq!(book.size_ahead_of(3).unwrap(), qty(3.0));
    assert_eq!(book.size_ahead_of(2).unwrap(), qty(5.0));
    assert_eq!(book.size_at(Side::Sell, price(10.0)), qty(6.0));
}
