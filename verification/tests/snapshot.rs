use exchange::book::OrderBook;
use exchange::events::{Command, NewOrder, OutputEvent, Sequenced};
use exchange::matcher::apply;
use exchange::snapshot::{book_from_snapshot, snapshot_is_live, snapshot_of, SnapOrder, Snapshot};
use exchange::types::{OrderType, RejectReason, Side, TimeInForce};

fn seq_cmd(seq: u64, cmd: Command) -> Sequenced {
    Sequenced { seq, ts: seq * 100, cmd }
}

fn new_limit(id: u64, side: Side, price: i64, qty: u64) -> Command {
    Command::New(NewOrder { id, symbol: 1, side, kind: OrderType::Limit, tif: TimeInForce::Gtc, price, stop_price: 0, qty })
}

#[test]
fn snapshot_round_trip() {
    let mut book = OrderBook::new(1, 1);
    let mut out = vec![];
    apply(&mut book, &seq_cmd(1, new_limit(1, Side::Buy, 99, 10)), &mut out);
    apply(&mut book, &seq_cmd(2, new_limit(2, Side::Sell, 101, 5)), &mut out);

    let snap = snapshot_of(&book, 2);
    let (book2, last_seq) = book_from_snapshot(&snap).unwrap();

    assert_eq!(last_seq, 2);
    assert_eq!(book2.best_bid(), Some((99, 10)));
    assert_eq!(book2.best_ask(), Some((101, 5)));
}

#[test]
fn snapshot_lists_orders_in_book_order() {
    let mut book = OrderBook::new(1, 1);
    let mut out = vec![];
    apply(&mut book, &seq_cmd(1, new_limit(1, Side::Buy, 99, 10)), &mut out);
    apply(&mut book, &seq_cmd(2, new_limit(2, Side::Buy, 100, 4)), &mut out);
    apply(&mut book, &seq_cmd(3, new_limit(3, Side::Buy, 99, 6)), &mut out);
    apply(&mut book, &seq_cmd(4, new_limit(4, Side::Sell, 103, 2)), &mut out);
    apply(
        &mut book,
        &seq_cmd(5, Command::New(NewOrder {
            id: 5, symbol: 1, side: Side::Sell, kind: OrderType::StopMarket,
            tif: TimeInForce::Day, price: 0, stop_price: 95, qty: 7,
        })),
        &mut out,
    );
    let snap = snapshot_of(&book, 5);
    assert_eq!(snap.symbol, 1);
    assert_eq!(snap.tick, 1);
    assert_eq!(snap.last_seq, 5);
    assert_eq!(snap.resting_orders.iter().map(|o| o.id).collect::<Vec<_>>(), vec![1, 3, 2, 4, 5]);
    let stop = snap.resting_orders[4];
    assert_eq!(
        stop,
        SnapOrder { id: 5, side: 1, kind: 4, tif: 1, price: 0, stop_price: 95, qty: 7, remaining: 7, seq: 5, ts: 500, status: 0 }
    );

    let (book2, _) = book_from_snapshot(&snap).unwrap();
    assert_eq!(book2.depth(10).bids, vec![(100, 4), (99, 16)]);
    assert_eq!(book2.depth(10).asks, vec![(103, 2)]);
    assert_eq!(snapshot_of(&book2, 5).resting_orders, snap.resting_orders);
}

#[test]
fn overflowing_snapshot_is_refused() {
    let o = SnapOrder { id: 1, side: 0, kind: 0, tif: 0, price: 10, stop_price: 0, qty: u64::MAX, remaining: u64::MAX, seq: 1, ts: 0, status: 0 };
    let snap = Snapshot { symbol: 1, tick: 1, last_seq: 1, last_trade: None, resting_orders: vec![o, SnapOrder { id: 2, ..o }] };
    assert!(book_from_snapshot(&snap).is_none());
}

#[test]
fn codes_restore_with_defaults() {
    let o = SnapOrder { id: 1, side: 9, kind: 9, tif: 9, price: 10, stop_price: 12, qty: 5, remaining: 3, seq: 1, ts: 0, status: 3 };
    let snap = Snapshot { symbol: 7, tick: 1, last_seq: 1, last_trade: Some(11), resting_orders: vec![o] };
    let (b, _) = book_from_snapshot(&snap).unwrap();
    assert_eq!(b.symbol, 7);
    assert_eq!(b.last_trade, Some(11));
    assert!(b.best_ask().is_none());
    assert_eq!(b.stop_sells.len(), 1);
    let s = b.stop_sells[0];
    assert_eq!(s.kind, OrderType::StopLimit);
    assert_eq!(s.tif, TimeInForce::Day);
    assert_eq!(s.remaining, 3);
    assert_eq!(s.qty, 5);
    assert_eq!(s.symbol, 7);
}

#[test]
fn snapshot_keeps_queue_order_and_stops() {
    let mut book = OrderBook::new(3, 1);
    let mut out = vec![];
    apply(&mut book, &seq_cmd(1, new_limit(1, Side::Sell, 100, 4)), &mut out);
    apply(&mut book, &seq_cmd(2, new_limit(2, Side::Sell, 100, 6)), &mut out);
    apply(
        &mut book,
        &seq_cmd(3, Command::New(NewOrder {
            id: 3, symbol: 1, side: Side::Buy, kind: OrderType::StopMarket,
            tif: TimeInForce::Gtc, price: 0, stop_price: 100, qty: 5,
        })),
        &mut out,
    );
    let (mut copy, _) = book_from_snapshot(&snapshot_of(&book, 3)).unwrap();
    let mut a = vec![];
    let mut c = vec![];
    let taker = seq_cmd(4, new_limit(4, Side::Buy, 100, 5));
    apply(&mut book, &taker, &mut a);
    apply(&mut copy, &taker, &mut c);
    assert_eq!(a, c);
    assert_eq!(book.depth(5).asks, copy.depth(5).asks);
}

#[test]
fn restored_book_finds_its_orders_by_id() {
    let mut book = OrderBook::new(3, 1);
    let mut out = vec![];
    apply(&mut book, &seq_cmd(1, new_limit(1, Side::Sell, 101, 4)), &mut out);
    apply(&mut book, &seq_cmd(2, new_limit(2, Side::Buy, 99, 6)), &mut out);
    let (mut copy, _) = book_from_snapshot(&snapshot_of(&book, 2)).unwrap();
    let mut ev = vec![];
    apply(&mut copy, &seq_cmd(3, new_limit(2, Side::Buy, 98, 1)), &mut ev);
    assert_eq!(ev, vec![OutputEvent::Rejected { id: 2, reason: RejectReason::DuplicateId, seq: 3 }]);
    let mut ev2 = vec![];
    apply(&mut copy, &seq_cmd(4, Command::Cancel { id: 1, symbol: 1 }), &mut ev2);
    assert_eq!(ev2, vec![OutputEvent::Cancelled { id: 1, seq: 4 }]);
    assert!(copy.depth(5).asks.is_empty());
}

#[test]
fn live_check_accepts_a_taken_snapshot_and_refuses_a_crossed_one() {
    let mut book = OrderBook::new(3, 1);
    let mut out = vec![];
    apply(&mut book, &seq_cmd(1, new_limit(1, Side::Sell, 101, 4)), &mut out);
    apply(&mut book, &seq_cmd(2, new_limit(2, Side::Buy, 99, 6)), &mut out);
    let snap = snapshot_of(&book, 2);
    assert!(snapshot_is_live(&snap));
    let mut crossed = snap.clone();
    crossed.resting_orders[0].price = 101;
    assert!(!snapshot_is_live(&crossed));
    let mut dead = snap.clone();
    dead.resting_orders[0].remaining = 0;
    assert!(!snapshot_is_live(&dead));
}
