use exchange::engine::{partition_symbols, shard_for, ShardBooks};
use exchange::events::{Command, NewOrder, OutputEvent, Sequenced};
use exchange::sequencer::Sequencer;
use exchange::types::{OrderType, Side, TimeInForce};

#[test]
fn shard_is_symbol_modulo_shards() {
    assert_eq!(shard_for(7, 3), 1);
    assert_eq!(shard_for(9, 3), 0);
    assert_eq!(shard_for(u32::MAX, 1), 0);
}

#[test]
fn symbols_are_split_by_shard_in_order() {
    let syms = vec![(1u32, 1i64), (2, 5), (3, 1), (4, 2), (6, 3)];
    let parts = partition_symbols(&syms, 3);
    assert_eq!(parts, vec![vec![(3, 1), (6, 3)], vec![(1, 1), (4, 2)], vec![(2, 5)]]);
}

fn limit(id: u64, symbol: u32, side: Side, price: i64, qty: u64) -> Sequenced {
    Sequenced {
        seq: id,
        ts: 0,
        cmd: Command::New(NewOrder { id, symbol, side, kind: OrderType::Limit, tif: TimeInForce::Gtc, price, stop_price: 0, qty }),
    }
}

#[test]
fn shard_routes_commands_by_symbol() {
    let mut shard = ShardBooks::new(&vec![(1, 1), (2, 5), (1, 2)]);
    assert_eq!(shard.books.len(), 2);
    assert_eq!(shard.books.iter().find(|b| b.symbol == 1).unwrap().tick, 2);
    let mut out = Vec::new();
    assert!(shard.process(&limit(1, 2, Side::Buy, 50, 3), &mut out));
    assert_eq!(out, vec![OutputEvent::Accepted { id: 1, seq: 1 }]);
    let b2 = shard.books.iter().find(|b| b.symbol == 2).unwrap();
    assert_eq!(b2.best_bid(), Some((50, 3)));
    let b1 = shard.books.iter().find(|b| b.symbol == 1).unwrap();
    assert!(b1.best_bid().is_none());
    out.clear();
    assert!(!shard.process(&limit(2, 9, Side::Buy, 50, 3), &mut out));
    assert!(out.is_empty());
}

#[test]
fn shard_refuses_quantity_it_cannot_hold() {
    let mut shard = ShardBooks::new(&vec![(1, 1)]);
    let mut out = Vec::new();
    assert!(shard.process(&limit(1, 1, Side::Buy, 10, u64::MAX - 1), &mut out));
    out.clear();
    assert!(!shard.process(&limit(2, 1, Side::Buy, 11, 2), &mut out));
    assert!(out.is_empty());
    assert_eq!(shard.books[0].best_bid(), Some((10, u64::MAX - 1)));
}

#[test]
fn sequencer_counts_from_one() {
    let s = Sequencer::new();
    assert_eq!(s.current(), 1);
    let (a, _) = s.next();
    let (b, _) = s.next();
    assert_eq!((a, b), (1, 2));
    assert_eq!(s.current(), 3);
}
