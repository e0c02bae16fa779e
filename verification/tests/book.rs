use exchange::book::OrderBook;
use exchange::events::{Command, OutputEvent, Sequenced};
use exchange::matcher::apply;
use exchange::order::Order;
use exchange::types::{OrderType, Side, TimeInForce};

fn limit(id: u64, side: Side, price: i64, qty: u64, seq: u64) -> Order {
    Order::new(id, 1, side, OrderType::Limit, TimeInForce::Gtc, price, 0, qty, seq, seq * 10)
}

#[test]
fn insert_resting_queues_at_the_back_of_its_price() {
    let mut b = OrderBook::new(1, 1);
    b.insert_resting(limit(1, Side::Buy, 100, 5, 1));
    b.insert_resting(limit(2, Side::Buy, 101, 3, 2));
    b.insert_resting(limit(3, Side::Buy, 100, 4, 3));
    assert_eq!(b.depth(5).bids, vec![(101, 3), (100, 9)]);
    let mut out = vec![];
    apply(&mut b, &Sequenced { seq: 4, ts: 40, cmd: Command::Cancel { id: 3, symbol: 1 } }, &mut out);
    assert_eq!(out, vec![OutputEvent::Cancelled { id: 3, seq: 4 }]);
    assert_eq!(b.depth(5).bids, vec![(101, 3), (100, 5)]);
}

#[test]
fn pop_heads_take_the_oldest_best_order() {
    let mut b = OrderBook::new(1, 1);
    b.insert_resting(limit(1, Side::Sell, 100, 5, 1));
    b.insert_resting(limit(2, Side::Sell, 100, 3, 2));
    b.insert_resting(limit(3, Side::Sell, 102, 4, 3));
    assert_eq!(b.pop_ask_head().map(|o| o.id), Some(1));
    assert_eq!(b.best_ask(), Some((100, 3)));
    assert_eq!(b.pop_ask_head().map(|o| o.id), Some(2));
    assert_eq!(b.best_ask(), Some((100, 0)));
    assert!(b.pop_ask_head().is_none());
    b.remove_empty_ask();
    assert_eq!(b.best_ask(), Some((102, 4)));
    assert!(b.pop_bid_head().is_none());
    b.remove_empty_bid();
    assert_eq!(b.best_bid(), None);
}

#[test]
fn remove_slot_takes_an_order_out_by_id() {
    let mut b = OrderBook::new(1, 1);
    b.insert_resting(limit(1, Side::Buy, 99, 5, 1));
    b.insert_resting(limit(2, Side::Buy, 98, 3, 2));
    assert_eq!(b.remove_slot(1).map(|o| o.remaining), Some(5));
    assert_eq!(b.best_bid(), Some((98, 3)));
    assert!(b.remove_slot(1).is_none());
    assert_eq!(b.remove_slot(2).map(|o| o.id), Some(2));
    assert_eq!(b.best_bid(), None);
}
