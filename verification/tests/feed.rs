use exchange::events::OutputEvent;
use exchange::feed::{FeedMessage, SnapshotBuilder};
use exchange::loadgen::{orders_per_task, send_interval_nanos};
use exchange::types::Side;

#[test]
fn snapshot_lists_best_levels_each_side() {
    let mut b = SnapshotBuilder::new(1, "AAPL".to_string(), 2);
    b.update_level(Side::Buy, 99, 5);
    b.update_level(Side::Buy, 101, 7);
    b.update_level(Side::Buy, 100, 3);
    b.update_level(Side::Sell, 105, 1);
    b.update_level(Side::Sell, 103, 2);
    b.update_level(Side::Sell, 104, 4);
    b.update_level(Side::Sell, 104, 0);
    assert_eq!(
        b.publish_snapshot(9),
        FeedMessage::Snapshot { seq: 9, bids: vec![(101, 7), (100, 3)], asks: vec![(103, 2), (105, 1)] }
    );
}

#[test]
fn events_map_to_feed_messages() {
    let mut b = SnapshotBuilder::new(1, "AAPL".to_string(), 5);
    let trade = OutputEvent::Trade { seq: 3, taker: 1, maker: 2, price: 100, qty: 4, side: Side::Sell, ts: 77 };
    assert_eq!(b.process(&trade, 12), FeedMessage::Trade { price: 100, qty: 4, side: Side::Sell, seq: 12, ts: 77 });
    assert_eq!(b.process(&OutputEvent::Accepted { id: 1, seq: 1 }, 13), FeedMessage::Nothing);
    assert_eq!(
        b.process(&OutputEvent::Cancelled { id: 1, seq: 1 }, 14),
        FeedMessage::Snapshot { seq: 14, bids: vec![], asks: vec![] }
    );
}

#[test]
fn load_is_split_rounding_up() {
    assert_eq!(orders_per_task(10, 4), 3);
    assert_eq!(orders_per_task(8, 4), 2);
    assert_eq!(orders_per_task(0, 4), u64::MAX);
    assert_eq!(send_interval_nanos(0), None);
    assert_eq!(send_interval_nanos(10_000), Some(100_000));
}
