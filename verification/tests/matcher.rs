use exchange::book::OrderBook;
use exchange::events::{Command, NewOrder, OutputEvent, Sequenced};
use exchange::matcher::apply;
use exchange::types::{OrderId, OrderType, Price, Qty, RejectReason, SeqNo, Side, TimeInForce};

fn book() -> OrderBook {
    OrderBook::new(1, 1)
}

fn seq_cmd(seq: SeqNo, cmd: Command) -> Sequenced {
    Sequenced { seq, ts: seq * 1000, cmd }
}

fn new_order(id: OrderId, side: Side, kind: OrderType, price: Price, stop_price: Price, qty: Qty) -> Command {
    Command::New(NewOrder { id, symbol: 1, side, kind, tif: TimeInForce::Gtc, price, stop_price, qty })
}

fn new_limit(id: OrderId, side: Side, price: Price, qty: Qty) -> Command {
    new_order(id, side, OrderType::Limit, price, 0, qty)
}

fn new_market(id: OrderId, side: Side, qty: Qty) -> Command {
    new_order(id, side, OrderType::Market, 0, 0, qty)
}

fn new_fok(id: OrderId, side: Side, price: Price, qty: Qty) -> Command {
    new_order(id, side, OrderType::Fok, price, 0, qty)
}

fn trades(out: &[OutputEvent]) -> Vec<(OrderId, OrderId, Price, Qty)> {
    out.iter()
        .filter_map(|e| match e {
            OutputEvent::Trade { taker, maker, price, qty, .. } => Some((*taker, *maker, *price, *qty)),
            _ => None,
        })
        .collect()
}

#[test]
fn no_cross_no_trade() {
    let mut b = book();
    let mut out = vec![];
    apply(&mut b, &seq_cmd(1, new_limit(1, Side::Buy, 100, 10)), &mut out);
    apply(&mut b, &seq_cmd(2, new_limit(2, Side::Sell, 101, 10)), &mut out);
    assert!(!out.iter().any(|e| matches!(e, OutputEvent::Trade { .. })));
    assert_eq!(b.best_bid(), Some((100, 10)));
    assert_eq!(b.best_ask(), Some((101, 10)));
}

#[test]
fn simple_full_cross() {
    let mut b = book();
    let mut out = vec![];
    apply(&mut b, &seq_cmd(1, new_limit(1, Side::Sell, 100, 10)), &mut out);
    apply(&mut b, &seq_cmd(2, new_limit(2, Side::Buy, 100, 10)), &mut out);
    let trades: Vec<_> = out.iter().filter(|e| matches!(e, OutputEvent::Trade { .. })).collect();
    assert_eq!(trades.len(), 1);
    if let OutputEvent::Trade { price, qty, .. } = trades[0] {
        assert_eq!(*price, 100);
        assert_eq!(*qty, 10);
    }
    assert!(b.best_bid().is_none());
    assert!(b.best_ask().is_none());
    assert!(b.check_no_cross());
}

#[test]
fn partial_fill() {
    let mut b = book();
    let mut out = vec![];
    apply(&mut b, &seq_cmd(1, new_limit(1, Side::Sell, 100, 5)), &mut out);
    apply(&mut b, &seq_cmd(2, new_limit(2, Side::Buy, 100, 10)), &mut out);
    let trades: Vec<_> = out.iter().filter(|e| matches!(e, OutputEvent::Trade { .. })).collect();
    assert_eq!(trades.len(), 1);
    assert_eq!(b.best_bid(), Some((100, 5)));
    assert!(b.best_ask().is_none());
}

#[test]
fn price_time_priority() {
    let mut b = book();
    let mut out = vec![];
    apply(&mut b, &seq_cmd(1, new_limit(1, Side::Sell, 100, 5)), &mut out);
    apply(&mut b, &seq_cmd(2, new_limit(2, Side::Sell, 100, 5)), &mut out);
    apply(&mut b, &seq_cmd(3, new_limit(3, Side::Buy, 100, 5)), &mut out);
    let trade = out.iter().find(|e| matches!(e, OutputEvent::Trade { .. })).unwrap();
    if let OutputEvent::Trade { maker, .. } = trade {
        assert_eq!(*maker, 1);
    }
}

#[test]
fn cancel_removes_order() {
    let mut b = book();
    let mut out = vec![];
    apply(&mut b, &seq_cmd(1, new_limit(1, Side::Buy, 100, 10)), &mut out);
    apply(&mut b, &seq_cmd(2, Command::Cancel { id: 1, symbol: 1 }), &mut out);
    assert!(b.best_bid().is_none());
    assert!(b.check_qty_conservation());
}

#[test]
fn cancel_unknown_is_reject() {
    let mut b = book();
    let mut out = vec![];
    apply(&mut b, &seq_cmd(1, Command::Cancel { id: 999, symbol: 1 }), &mut out);
    assert!(out.iter().any(|e| matches!(e, OutputEvent::Rejected { reason: RejectReason::UnknownId, .. })));
}

#[test]
fn fok_full_fill() {
    let mut b = book();
    let mut out = vec![];
    apply(&mut b, &seq_cmd(1, new_limit(1, Side::Sell, 100, 10)), &mut out);
    apply(&mut b, &seq_cmd(2, new_fok(2, Side::Buy, 100, 10)), &mut out);
    assert!(out.iter().any(|e| matches!(e, OutputEvent::Filled { id: 2, .. })));
}

#[test]
fn fok_unfillable_zero_trades() {
    let mut b = book();
    let mut out = vec![];
    apply(&mut b, &seq_cmd(1, new_limit(1, Side::Sell, 100, 5)), &mut out);
    apply(&mut b, &seq_cmd(2, new_fok(2, Side::Buy, 100, 10)), &mut out);
    assert!(!out.iter().any(|e| matches!(e, OutputEvent::Trade { .. })));
    assert!(out.iter().any(|e| matches!(e, OutputEvent::Rejected { reason: RejectReason::FokUnfillable, .. })));
}

#[test]
fn market_order_walks_book() {
    let mut b = book();
    let mut out = vec![];
    apply(&mut b, &seq_cmd(1, new_limit(1, Side::Sell, 100, 5)), &mut out);
    apply(&mut b, &seq_cmd(2, new_limit(2, Side::Sell, 101, 5)), &mut out);
    out.clear();
    apply(&mut b, &seq_cmd(3, new_market(3, Side::Buy, 8)), &mut out);
    let trades: Vec<_> = out.iter().filter(|e| matches!(e, OutputEvent::Trade { .. })).collect();
    assert_eq!(trades.len(), 2);
}

#[test]
fn no_cross_invariant_after_random_ops() {
    let mut b = book();
    let mut out = vec![];
    for i in 1..=20u64 {
        let side = if i % 2 == 0 { Side::Buy } else { Side::Sell };
        let price = 100 + (i as i64 % 5) * (if side == Side::Buy { -1 } else { 1 });
        apply(&mut b, &seq_cmd(i, new_limit(i, side, price, 10)), &mut out);
        assert!(b.check_no_cross(), "book crossed after op {}", i);
    }
}

#[test]
fn qty_conservation_after_ops() {
    let mut b = book();
    let mut out = vec![];
    apply(&mut b, &seq_cmd(1, new_limit(1, Side::Buy, 99, 10)), &mut out);
    apply(&mut b, &seq_cmd(2, new_limit(2, Side::Buy, 100, 5)), &mut out);
    apply(&mut b, &seq_cmd(3, new_limit(3, Side::Sell, 101, 8)), &mut out);
    apply(&mut b, &seq_cmd(4, new_limit(4, Side::Sell, 100, 3)), &mut out);
    assert!(b.check_qty_conservation());
}

// ---------------------------------------------------------------- further cases

#[test]
fn events_of_a_full_cross_in_order() {
    let mut b = book();
    let mut out = vec![];
    apply(&mut b, &seq_cmd(1, new_limit(1, Side::Sell, 100, 10)), &mut out);
    assert_eq!(out, vec![OutputEvent::Accepted { id: 1, seq: 1 }]);
    out.clear();
    apply(&mut b, &seq_cmd(2, new_limit(2, Side::Buy, 100, 10)), &mut out);
    assert_eq!(
        out,
        vec![
            OutputEvent::Accepted { id: 2, seq: 2 },
            OutputEvent::Trade { seq: 2, taker: 2, maker: 1, price: 100, qty: 10, side: Side::Buy, ts: 2000 },
            OutputEvent::Filled { id: 1, seq: 2 },
            OutputEvent::Filled { id: 2, seq: 2 },
        ]
    );
}

#[test]
fn taker_trades_at_maker_price() {
    let mut b = book();
    let mut out = vec![];
    apply(&mut b, &seq_cmd(1, new_limit(1, Side::Sell, 100, 4)), &mut out);
    out.clear();
    apply(&mut b, &seq_cmd(2, new_limit(2, Side::Buy, 105, 4)), &mut out);
    assert_eq!(trades(&out), vec![(2, 1, 100, 4)]);
}

#[test]
fn partial_maker_keeps_its_place() {
    let mut b = book();
    let mut out = vec![];
    apply(&mut b, &seq_cmd(1, new_limit(1, Side::Sell, 100, 10)), &mut out);
    apply(&mut b, &seq_cmd(2, new_limit(2, Side::Sell, 100, 10)), &mut out);
    out.clear();
    apply(&mut b, &seq_cmd(3, new_limit(3, Side::Buy, 100, 4)), &mut out);
    assert!(out.contains(&OutputEvent::PartiallyFilled { id: 1, filled: 4, remaining: 6, seq: 3 }));
    out.clear();
    apply(&mut b, &seq_cmd(4, new_limit(4, Side::Buy, 100, 8)), &mut out);
    assert_eq!(trades(&out), vec![(4, 1, 100, 6), (4, 2, 100, 2)]);
    assert_eq!(b.best_ask(), Some((100, 8)));
}

#[test]
fn rejects_zero_qty_duplicate_and_bad_price() {
    let mut b = book();
    let mut out = vec![];
    apply(&mut b, &seq_cmd(1, new_limit(1, Side::Buy, 100, 0)), &mut out);
    assert_eq!(out, vec![OutputEvent::Rejected { id: 1, reason: RejectReason::ZeroQty, seq: 1 }]);
    out.clear();
    apply(&mut b, &seq_cmd(2, new_limit(2, Side::Buy, 100, 5)), &mut out);
    out.clear();
    apply(&mut b, &seq_cmd(3, new_limit(2, Side::Sell, 110, 5)), &mut out);
    assert_eq!(out, vec![OutputEvent::Rejected { id: 2, reason: RejectReason::DuplicateId, seq: 3 }]);
    out.clear();
    apply(&mut b, &seq_cmd(4, new_limit(4, Side::Sell, 0, 5)), &mut out);
    assert_eq!(out, vec![OutputEvent::Rejected { id: 4, reason: RejectReason::BadPrice, seq: 4 }]);
    assert_eq!(b.best_bid(), Some((100, 5)));
    assert!(b.best_ask().is_none());
}

#[test]
fn ioc_remainder_is_cancelled() {
    let mut b = book();
    let mut out = vec![];
    apply(&mut b, &seq_cmd(1, new_limit(1, Side::Sell, 100, 3)), &mut out);
    out.clear();
    apply(&mut b, &seq_cmd(2, new_order(2, Side::Buy, OrderType::Ioc, 100, 0, 5)), &mut out);
    assert_eq!(trades(&out), vec![(2, 1, 100, 3)]);
    assert!(out.contains(&OutputEvent::PartiallyFilled { id: 2, filled: 3, remaining: 2, seq: 2 }));
    assert!(out.contains(&OutputEvent::Cancelled { id: 2, seq: 2 }));
    assert!(b.best_bid().is_none());
}

#[test]
fn ioc_does_not_cross_its_limit() {
    let mut b = book();
    let mut out = vec![];
    apply(&mut b, &seq_cmd(1, new_limit(1, Side::Sell, 101, 3)), &mut out);
    out.clear();
    apply(&mut b, &seq_cmd(2, new_order(2, Side::Buy, OrderType::Ioc, 100, 0, 5)), &mut out);
    assert!(trades(&out).is_empty());
    assert!(out.contains(&OutputEvent::Cancelled { id: 2, seq: 2 }));
    assert_eq!(b.best_ask(), Some((101, 3)));
}

#[test]
fn fok_counts_only_liquidity_within_limit() {
    let mut b = book();
    let mut out = vec![];
    apply(&mut b, &seq_cmd(1, new_limit(1, Side::Sell, 100, 5)), &mut out);
    apply(&mut b, &seq_cmd(2, new_limit(2, Side::Sell, 102, 5)), &mut out);
    out.clear();
    apply(&mut b, &seq_cmd(3, new_fok(3, Side::Buy, 101, 8)), &mut out);
    assert_eq!(
        out,
        vec![
            OutputEvent::Accepted { id: 3, seq: 3 },
            OutputEvent::Rejected { id: 3, reason: RejectReason::FokUnfillable, seq: 3 },
        ]
    );
    assert_eq!(b.best_ask(), Some((100, 5)));
    out.clear();
    apply(&mut b, &seq_cmd(4, new_fok(4, Side::Buy, 102, 8)), &mut out);
    assert_eq!(trades(&out), vec![(4, 1, 100, 5), (4, 2, 102, 3)]);
    assert_eq!(out.last(), Some(&OutputEvent::Filled { id: 4, seq: 4 }));
}

#[test]
fn market_order_on_empty_side_is_cancelled() {
    let mut b = book();
    let mut out = vec![];
    apply(&mut b, &seq_cmd(1, new_market(1, Side::Sell, 5)), &mut out);
    assert_eq!(out, vec![OutputEvent::Accepted { id: 1, seq: 1 }, OutputEvent::Cancelled { id: 1, seq: 1 }]);
}

#[test]
fn stop_market_triggers_on_trade() {
    let mut b = book();
    let mut out = vec![];
    apply(&mut b, &seq_cmd(1, new_limit(1, Side::Sell, 100, 5)), &mut out);
    apply(&mut b, &seq_cmd(2, new_limit(2, Side::Sell, 101, 5)), &mut out);
    apply(&mut b, &seq_cmd(3, new_order(3, Side::Buy, OrderType::StopMarket, 0, 100, 4)), &mut out);
    out.clear();
    apply(&mut b, &seq_cmd(4, new_limit(4, Side::Buy, 100, 1)), &mut out);
    assert_eq!(trades(&out), vec![(4, 1, 100, 1), (3, 1, 100, 4)]);
    assert_eq!(b.best_ask(), Some((101, 5)));
}

#[test]
fn stop_limit_rests_after_trigger() {
    let mut b = book();
    let mut out = vec![];
    apply(&mut b, &seq_cmd(1, new_limit(1, Side::Buy, 100, 5)), &mut out);
    apply(&mut b, &seq_cmd(2, new_order(2, Side::Sell, OrderType::StopLimit, 105, 100, 3)), &mut out);
    out.clear();
    apply(&mut b, &seq_cmd(3, new_limit(3, Side::Sell, 100, 1)), &mut out);
    assert_eq!(trades(&out), vec![(3, 1, 100, 1)]);
    assert_eq!(b.best_ask(), Some((105, 3)));
    assert_eq!(b.best_bid(), Some((100, 4)));
}

#[test]
fn cancel_waiting_stop() {
    let mut b = book();
    let mut out = vec![];
    apply(&mut b, &seq_cmd(1, new_order(1, Side::Buy, OrderType::StopMarket, 0, 120, 4)), &mut out);
    out.clear();
    apply(&mut b, &seq_cmd(2, Command::Cancel { id: 1, symbol: 1 }), &mut out);
    assert_eq!(out, vec![OutputEvent::Cancelled { id: 1, seq: 2 }]);
    out.clear();
    apply(&mut b, &seq_cmd(3, Command::Cancel { id: 1, symbol: 1 }), &mut out);
    assert_eq!(out, vec![OutputEvent::Rejected { id: 1, reason: RejectReason::UnknownId, seq: 3 }]);
}

#[test]
fn replace_moves_order_to_back() {
    let mut b = book();
    let mut out = vec![];
    apply(&mut b, &seq_cmd(1, new_limit(1, Side::Buy, 100, 5)), &mut out);
    apply(&mut b, &seq_cmd(2, new_limit(2, Side::Buy, 100, 5)), &mut out);
    out.clear();
    apply(&mut b, &seq_cmd(3, Command::Replace { id: 1, symbol: 1, new_price: 100, new_qty: 7 }), &mut out);
    assert_eq!(out, vec![OutputEvent::Replaced { id: 1, seq: 3 }, OutputEvent::Accepted { id: 1, seq: 3 }]);
    assert_eq!(b.best_bid(), Some((100, 12)));
    out.clear();
    apply(&mut b, &seq_cmd(4, new_limit(4, Side::Sell, 100, 6)), &mut out);
    assert_eq!(trades(&out), vec![(4, 2, 100, 5), (4, 1, 100, 1)]);
}

#[test]
fn replace_errors() {
    let mut b = book();
    let mut out = vec![];
    apply(&mut b, &seq_cmd(1, Command::Replace { id: 9, symbol: 1, new_price: 100, new_qty: 7 }), &mut out);
    assert_eq!(out, vec![OutputEvent::Rejected { id: 9, reason: RejectReason::UnknownId, seq: 1 }]);
    out.clear();
    apply(&mut b, &seq_cmd(2, Command::Replace { id: 9, symbol: 1, new_price: 100, new_qty: 0 }), &mut out);
    assert_eq!(out, vec![OutputEvent::Rejected { id: 9, reason: RejectReason::ZeroQty, seq: 2 }]);
}

#[test]
fn depth_lists_best_levels_first() {
    let mut b = book();
    let mut out = vec![];
    apply(&mut b, &seq_cmd(1, new_limit(1, Side::Buy, 98, 1)), &mut out);
    apply(&mut b, &seq_cmd(2, new_limit(2, Side::Buy, 100, 2)), &mut out);
    apply(&mut b, &seq_cmd(3, new_limit(3, Side::Buy, 99, 3)), &mut out);
    apply(&mut b, &seq_cmd(4, new_limit(4, Side::Sell, 103, 4)), &mut out);
    apply(&mut b, &seq_cmd(5, new_limit(5, Side::Sell, 101, 5)), &mut out);
    let d = b.depth(2);
    assert_eq!(d.bids, vec![(100, 2), (99, 3)]);
    assert_eq!(d.asks, vec![(101, 5), (103, 4)]);
    assert_eq!(d.last_trade, None);
}

#[test]
fn trade_quantities_balance_per_side() {
    let mut b = book();
    let mut out = vec![];
    apply(&mut b, &seq_cmd(1, new_limit(1, Side::Sell, 100, 3)), &mut out);
    apply(&mut b, &seq_cmd(2, new_limit(2, Side::Sell, 101, 4)), &mut out);
    apply(&mut b, &seq_cmd(3, new_limit(3, Side::Sell, 102, 5)), &mut out);
    out.clear();
    apply(&mut b, &seq_cmd(4, new_limit(4, Side::Buy, 101, 10)), &mut out);
    let traded: u64 = trades(&out).iter().map(|t| t.3).sum();
    assert_eq!(traded, 7);
    assert!(out.contains(&OutputEvent::PartiallyFilled { id: 4, filled: 7, remaining: 3, seq: 4 }));
    assert_eq!(b.best_bid(), Some((101, 3)));
    assert_eq!(b.best_ask(), Some((102, 5)));
    assert!(b.check_qty_conservation());
    assert!(b.check_no_cross());
}

#[test]
fn cancelled_order_never_trades_again() {
    let mut b = book();
    let mut out = vec![];
    apply(&mut b, &seq_cmd(1, new_limit(1, Side::Sell, 100, 5)), &mut out);
    apply(&mut b, &seq_cmd(2, new_limit(2, Side::Sell, 100, 5)), &mut out);
    apply(&mut b, &seq_cmd(3, Command::Cancel { id: 1, symbol: 1 }), &mut out);
    out.clear();
    apply(&mut b, &seq_cmd(4, new_market(4, Side::Buy, 10)), &mut out);
    assert_eq!(trades(&out), vec![(4, 2, 100, 5)]);
    assert!(out.iter().all(|e| !matches!(e, OutputEvent::Trade { maker: 1, .. } | OutputEvent::Trade { taker: 1, .. })));
}

#[test]
fn replay_of_the_same_commands_is_identical() {
    let cmds = vec![
        seq_cmd(1, new_limit(1, Side::Sell, 100, 20)),
        seq_cmd(2, new_limit(2, Side::Buy, 99, 5)),
        seq_cmd(3, new_limit(3, Side::Sell, 101, 10)),
        seq_cmd(4, new_limit(4, Side::Buy, 100, 15)),
        seq_cmd(5, new_limit(5, Side::Sell, 100, 8)),
        seq_cmd(6, new_market(6, Side::Buy, 5)),
        seq_cmd(7, Command::Cancel { id: 2, symbol: 1 }),
        seq_cmd(8, new_limit(7, Side::Buy, 98, 30)),
        seq_cmd(9, new_limit(8, Side::Sell, 98, 10)),
        seq_cmd(10, new_limit(9, Side::Buy, 100, 25)),
    ];
    let run = |n: usize| {
        let mut b = book();
        let mut out = vec![];
        for c in &cmds[..n] {
            apply(&mut b, c, &mut out);
        }
        (b.depth(20), out)
    };
    let (live_depth, live_tape) = run(cmds.len());
    let (again_depth, again_tape) = run(cmds.len());
    assert_eq!(live_depth.bids, again_depth.bids);
    assert_eq!(live_depth.asks, again_depth.asks);
    assert_eq!(live_tape, again_tape);
    let (_, short_tape) = run(cmds.len() - 1);
    assert_eq!(&live_tape[..short_tape.len()], &short_tape[..]);
}

#[test]
fn duplicate_id_of_waiting_stop_is_refused() {
    let mut b = book();
    let mut out = vec![];
    apply(&mut b, &seq_cmd(1, new_order(1, Side::Buy, OrderType::StopLimit, 101, 100, 2)), &mut out);
    out.clear();
    apply(&mut b, &seq_cmd(2, new_limit(1, Side::Buy, 90, 1)), &mut out);
    assert_eq!(out, vec![OutputEvent::Rejected { id: 1, reason: RejectReason::DuplicateId, seq: 2 }]);
}

#[test]
fn same_commands_give_same_book_and_events() {
    let cmds = vec![
        seq_cmd(1, new_limit(1, Side::Sell, 100, 20)),
        seq_cmd(2, new_limit(2, Side::Buy, 99, 5)),
        seq_cmd(3, new_limit(3, Side::Sell, 101, 10)),
        seq_cmd(4, new_limit(4, Side::Buy, 100, 15)),
        seq_cmd(5, new_market(5, Side::Buy, 5)),
        seq_cmd(6, Command::Cancel { id: 2, symbol: 1 }),
    ];
    let mut a = book();
    let mut b = book();
    let mut ea = vec![];
    let mut eb = vec![];
    for c in &cmds {
        apply(&mut a, c, &mut ea);
        apply(&mut b, c, &mut eb);
    }
    assert_eq!(ea, eb);
    assert_eq!(a.depth(10).bids, b.depth(10).bids);
    assert_eq!(a.depth(10).asks, b.depth(10).asks);
    assert_eq!(a.best_bid(), b.best_bid());
    assert_eq!(a.best_ask(), b.best_ask());
}

#[test]
fn later_maker_waits_for_earlier_to_fill() {
    let mut b = book();
    let mut out = vec![];
    apply(&mut b, &seq_cmd(1, new_limit(1, Side::Sell, 100, 3)), &mut out);
    apply(&mut b, &seq_cmd(2, new_limit(2, Side::Sell, 100, 4)), &mut out);
    apply(&mut b, &seq_cmd(3, new_limit(3, Side::Sell, 100, 5)), &mut out);
    let mut ev = vec![];
    apply(&mut b, &seq_cmd(4, new_limit(4, Side::Buy, 100, 9)), &mut ev);
    assert_eq!(trades(&ev), vec![(4, 1, 100, 3), (4, 2, 100, 4), (4, 3, 100, 2)]);
    let filled_1 = ev.iter().position(|e| *e == OutputEvent::Filled { id: 1, seq: 4 }).unwrap();
    let first_trade_2 = ev.iter().position(|e| matches!(e, OutputEvent::Trade { maker: 2, .. })).unwrap();
    assert!(filled_1 < first_trade_2);
}
