use vstd::prelude::*;
use crate::types::{OrderId, OrderType, Price, Qty, RejectReason, SeqNo, Side, Ts};
use crate::order::Order;
use crate::events::{Command, NewOrder, OutputEvent, Sequenced};
use crate::book::{better, BookView, LevelView};

verus! {

/// A level priced `p` is within the limit `limit` of a taker on `side`.
pub open spec fn within_limit(side: Side, limit: Price, p: Price) -> bool {
    match side {
        Side::Buy => p <= limit,
        Side::Sell => p >= limit,
    }
}

/// A taker of kind `kind` trades against a level priced `p`: market orders take any
/// price, the others only prices within their limit.
pub open spec fn crosses(kind: OrderType, side: Side, limit: Price, p: Price) -> bool {
    kind == OrderType::Market || within_limit(side, limit, p)
}

/// `a - b`, floored at zero.
pub open spec fn sat_sub(a: u64, b: u64) -> u64 {
    if a >= b {
        (a - b) as u64
    } else {
        0
    }
}

/// The smaller of two quantities.
pub open spec fn min_qty(a: u64, b: u64) -> u64 {
    if a <= b {
        a
    } else {
        b
    }
}

/// Result of matching a taker against the levels of the other side.
pub struct MatchOutcome {
    pub opp: Seq<LevelView>,
    pub taker: Order,
    pub events: Seq<OutputEvent>,
    pub last_trade: Option<Price>,
}

/// Price-time priority matching: while the taker has quantity left and the best level
/// of the other side (the last one) crosses, trade with the oldest order of that level
/// at the level price. A maker that is used up leaves the book (and its level, once
/// empty); one that is left with quantity keeps its place at the head of the queue.
pub open spec fn match_spec(
    opp: Seq<LevelView>,
    taker: Order,
    seq: SeqNo,
    ts: Ts,
    last: Option<Price>,
) -> MatchOutcome
    decreases opp.len(), opp.last().orders.len(), taker.remaining,
{
    if taker.remaining == 0 || opp.len() == 0 || opp.last().orders.len() == 0 || !crosses(
        taker.kind,
        taker.side,
        taker.price,
        opp.last().price,
    ) {
        MatchOutcome { opp, taker, events: seq![], last_trade: last }
    } else {
        let lvl = opp.last();
        let maker = lvl.orders[0];
        let q = min_qty(taker.remaining, maker.remaining);
        let taker2 = Order { remaining: (taker.remaining - q) as u64, ..taker };
        let maker_left = (maker.remaining - q) as u64;
        let trade = OutputEvent::Trade {
            seq,
            taker: taker.id,
            maker: maker.id,
            price: lvl.price,
            qty: q,
            side: taker.side,
            ts,
        };
        let popped_total = sat_sub(lvl.total_qty, maker.remaining);
        if maker_left == 0 {
            let rest = lvl.orders.drop_first();
            let opp2 = if rest.len() == 0 {
                opp.drop_last()
            } else {
                opp.update(
                    opp.len() - 1,
                    LevelView { price: lvl.price, total_qty: popped_total, orders: rest },
                )
            };
            let r = match_spec(opp2, taker2, seq, ts, Some(lvl.price));
            MatchOutcome {
                events: seq![trade, OutputEvent::Filled { id: maker.id, seq }] + r.events,
                ..r
            }
        } else {
            let maker2 = Order { remaining: maker_left, ..maker };
            let opp2 = opp.update(
                opp.len() - 1,
                LevelView {
                    price: lvl.price,
                    total_qty: (popped_total + maker_left) as u64,
                    orders: lvl.orders.update(0, maker2),
                },
            );
            let r = match_spec(opp2, taker2, seq, ts, Some(lvl.price));
            MatchOutcome {
                events: seq![
                    trade,
                    OutputEvent::PartiallyFilled {
                        id: maker.id,
                        filled: q,
                        remaining: maker_left,
                        seq,
                    },
                ] + r.events,
                ..r
            }
        }
    }
}

/// Open quantity of the other side within a taker's limit, best levels first.
pub open spec fn available_spec(opp: Seq<LevelView>, side: Side, limit: Price) -> int
    decreases opp.len(),
{
    if opp.len() == 0 || !within_limit(side, limit, opp.last().price) {
        0
    } else {
        opp.last().total_qty + available_spec(opp.drop_last(), side, limit)
    }
}

/// A new level holding one order.
pub open spec fn new_level(o: Order) -> LevelView {
    LevelView { price: o.price, total_qty: o.remaining, orders: seq![o] }
}

/// Rest `o` on its side: behind the orders already at its price, or in a new level at
/// the place its price takes among the levels.
pub open spec fn rest_spec(levels: Seq<LevelView>, o: Order) -> Seq<LevelView>
    decreases levels.len(),
{
    if levels.len() == 0 {
        seq![new_level(o)]
    } else {
        let l = levels.last();
        if l.price == o.price {
            levels.drop_last().push(
                LevelView {
                    price: l.price,
                    total_qty: (l.total_qty + o.remaining) as u64,
                    orders: l.orders.push(o),
                },
            )
        } else if better(o.side, o.price, l.price) {
            levels.push(new_level(o))
        } else {
            rest_spec(levels.drop_last(), o).push(l)
        }
    }
}

/// Queue a stop order behind the stops that trigger no later than it.
pub open spec fn stop_insert(stops: Seq<Order>, o: Order) -> Seq<Order>
    decreases stops.len(),
{
    if stops.len() == 0 {
        seq![o]
    } else if better(o.side, stops.last().stop_price, o.stop_price) {
        stop_insert(stops.drop_last(), o).push(stops.last())
    } else {
        stops.push(o)
    }
}

/// Index of the first order with identifier `id`.
pub open spec fn index_of_id(s: Seq<Order>, id: OrderId) -> Option<int> {
    if exists|i: int| is_first_id(s, id, i) {
        Some(choose|i: int| is_first_id(s, id, i))
    } else {
        None
    }
}

pub open spec fn is_first_id(s: Seq<Order>, id: OrderId, i: int) -> bool {
    &&& 0 <= i < s.len()
    &&& s[i].id == id
    &&& forall|j: int| 0 <= j < i ==> (#[trigger] s[j]).id != id
}

/// Index of the first level holding an order with identifier `id`.
pub open spec fn level_of_id(ls: Seq<LevelView>, id: OrderId) -> Option<int> {
    if exists|i: int| is_first_level(ls, id, i) {
        Some(choose|i: int| is_first_level(ls, id, i))
    } else {
        None
    }
}

pub open spec fn is_first_level(ls: Seq<LevelView>, id: OrderId, i: int) -> bool {
    &&& 0 <= i < ls.len()
    &&& index_of_id(ls[i].orders, id) is Some
    &&& forall|j: int| 0 <= j < i ==> index_of_id((#[trigger] ls[j]).orders, id) is None
}

/// Where an order is found in the book.
#[derive(Debug, Clone, Copy, PartialEq, Eq, Structural)]
pub enum Loc {
    Bid { level: usize, pos: usize },
    Ask { level: usize, pos: usize },
    StopBuy { pos: usize },
    StopSell { pos: usize },
}

/// Find an order by identifier: bids, then asks, then buy stops, then sell stops.
pub open spec fn locate_spec(b: BookView, id: OrderId) -> Option<Loc> {
    if level_of_id(b.bids, id) is Some {
        let li = level_of_id(b.bids, id).unwrap();
        Some(Loc::Bid { level: li as usize, pos: index_of_id(b.bids[li].orders, id).unwrap() as usize })
    } else if level_of_id(b.asks, id) is Some {
        let li = level_of_id(b.asks, id).unwrap();
        Some(Loc::Ask { level: li as usize, pos: index_of_id(b.asks[li].orders, id).unwrap() as usize })
    } else if index_of_id(b.stop_buys, id) is Some {
        Some(Loc::StopBuy { pos: index_of_id(b.stop_buys, id).unwrap() as usize })
    } else if index_of_id(b.stop_sells, id) is Some {
        Some(Loc::StopSell { pos: index_of_id(b.stop_sells, id).unwrap() as usize })
    } else {
        None
    }
}

/// The book holds an order (resting or waiting) with identifier `id`.
pub open spec fn has_id(b: BookView, id: OrderId) -> bool {
    locate_spec(b, id) is Some
}

/// The order at a location.
pub open spec fn order_at(b: BookView, loc: Loc) -> Order {
    match loc {
        Loc::Bid { level, pos } => b.bids[level as int].orders[pos as int],
        Loc::Ask { level, pos } => b.asks[level as int].orders[pos as int],
        Loc::StopBuy { pos } => b.stop_buys[pos as int],
        Loc::StopSell { pos } => b.stop_sells[pos as int],
    }
}

/// Take order `pi` out of level `li`; the level goes when it empties, its total drops by
/// the order's open quantity (floored at zero).
pub open spec fn remove_from_levels(ls: Seq<LevelView>, li: int, pi: int) -> Seq<LevelView> {
    let l = ls[li];
    let rest = l.orders.remove(pi);
    if rest.len() == 0 {
        ls.remove(li)
    } else {
        ls.update(
            li,
            LevelView {
                price: l.price,
                total_qty: sat_sub(l.total_qty, l.orders[pi].remaining),
                orders: rest,
            },
        )
    }
}

/// The book without the order at `loc`.
pub open spec fn remove_at(b: BookView, loc: Loc) -> BookView {
    match loc {
        Loc::Bid { level, pos } => BookView {
            bids: remove_from_levels(b.bids, level as int, pos as int),
            ..b
        },
        Loc::Ask { level, pos } => BookView {
            asks: remove_from_levels(b.asks, level as int, pos as int),
            ..b
        },
        Loc::StopBuy { pos } => BookView { stop_buys: b.stop_buys.remove(pos as int), ..b },
        Loc::StopSell { pos } => BookView { stop_sells: b.stop_sells.remove(pos as int), ..b },
    }
}

/// The levels a taker on `side` trades against.
pub open spec fn opp_levels(b: BookView, side: Side) -> Seq<LevelView> {
    match side {
        Side::Buy => b.asks,
        Side::Sell => b.bids,
    }
}

/// The levels an order on `side` rests in.
pub open spec fn own_levels(b: BookView, side: Side) -> Seq<LevelView> {
    match side {
        Side::Buy => b.bids,
        Side::Sell => b.asks,
    }
}

pub open spec fn with_opp(b: BookView, side: Side, ls: Seq<LevelView>) -> BookView {
    match side {
        Side::Buy => BookView { asks: ls, ..b },
        Side::Sell => BookView { bids: ls, ..b },
    }
}

pub open spec fn with_own(b: BookView, side: Side, ls: Seq<LevelView>) -> BookView {
    match side {
        Side::Buy => BookView { bids: ls, ..b },
        Side::Sell => BookView { asks: ls, ..b },
    }
}

/// The book with a new stop order queued on its side.
pub open spec fn add_stop(b: BookView, o: Order) -> BookView {
    match o.side {
        Side::Buy => BookView { stop_buys: stop_insert(b.stop_buys, o), ..b },
        Side::Sell => BookView { stop_sells: stop_insert(b.stop_sells, o), ..b },
    }
}

/// The order a new order becomes on arrival.
pub open spec fn order_of(no: NewOrder, seq: SeqNo, ts: Ts) -> Order {
    Order::spec_new(
        no.id,
        no.symbol,
        no.side,
        no.kind,
        no.tif,
        no.price,
        no.stop_price,
        no.qty,
        seq,
        ts,
    )
}

/// What a stop order becomes when it triggers: a stop-market a market order, a
/// stop-limit a limit order at its limit price.
pub open spec fn triggered(o: Order) -> NewOrder {
    NewOrder {
        id: o.id,
        symbol: o.symbol,
        side: o.side,
        kind: if o.kind == OrderType::StopMarket {
            OrderType::Market
        } else {
            OrderType::Limit
        },
        tif: o.tif,
        price: o.price,
        stop_price: 0,
        qty: o.remaining,
    }
}

pub open spec fn reject(id: OrderId, reason: RejectReason, seq: SeqNo) -> OutputEvent {
    OutputEvent::Rejected { id, reason, seq }
}

/// The events that close a matched order: filled; partly filled and resting (limit) or
/// cancelled (the others); or, with nothing filled, resting or cancelled.
pub open spec fn closing_events(no: NewOrder, left: Qty, seq: SeqNo) -> Seq<OutputEvent> {
    let filled = no.qty - left;
    if filled > 0 && left == 0 {
        seq![OutputEvent::Filled { id: no.id, seq }]
    } else if filled > 0 {
        let pf = OutputEvent::PartiallyFilled {
            id: no.id,
            filled: filled as u64,
            remaining: left,
            seq,
        };
        if no.kind == OrderType::Limit {
            seq![pf]
        } else {
            seq![pf, OutputEvent::Cancelled { id: no.id, seq }]
        }
    } else if no.kind == OrderType::Limit {
        seq![]
    } else {
        seq![OutputEvent::Cancelled { id: no.id, seq }]
    }
}

/// The book after a new (non-stop, accepted, not refused as fill-or-kill) order has
/// matched, with its remainder rested when it is a limit order.
pub open spec fn after_match(b: BookView, no: NewOrder, seq: SeqNo, ts: Ts) -> BookView {
    let m = match_spec(opp_levels(b, no.side), order_of(no, seq, ts), seq, ts, b.last_trade);
    let b1 = BookView { last_trade: m.last_trade, ..with_opp(b, no.side, m.opp) };
    if no.kind == OrderType::Limit && m.taker.remaining > 0 {
        with_own(b1, no.side, rest_spec(own_levels(b1, no.side), m.taker))
    } else {
        b1
    }
}

/// Events of matching a new order, from acceptance to its closing events.
pub open spec fn match_events(b: BookView, no: NewOrder, seq: SeqNo, ts: Ts) -> Seq<
    OutputEvent,
> {
    let m = match_spec(opp_levels(b, no.side), order_of(no, seq, ts), seq, ts, b.last_trade);
    seq![OutputEvent::Accepted { id: no.id, seq }] + m.events + closing_events(
        no,
        m.taker.remaining,
        seq,
    )
}

/// Apply a new order: validation, stop parking, the fill-or-kill check, matching, and
/// then the stops that the last trade price triggers.
pub open spec fn apply_new_spec(b: BookView, no: NewOrder, seq: SeqNo, ts: Ts) -> (
    BookView,
    Seq<OutputEvent>,
)
    decreases b.stop_count(), 2nat,
{
    if no.qty == 0 {
        (b, seq![reject(no.id, RejectReason::ZeroQty, seq)])
    } else if has_id(b, no.id) {
        (b, seq![reject(no.id, RejectReason::DuplicateId, seq)])
    } else if no.kind.needs_price() && no.price <= 0 {
        (b, seq![reject(no.id, RejectReason::BadPrice, seq)])
    } else if no.kind.is_stop() {
        (add_stop(b, order_of(no, seq, ts)), seq![OutputEvent::Accepted { id: no.id, seq }])
    } else if no.kind == OrderType::Fok && available_spec(opp_levels(b, no.side), no.side, no.price)
        < no.qty {
        (
            b,
            seq![
                OutputEvent::Accepted { id: no.id, seq },
                reject(no.id, RejectReason::FokUnfillable, seq),
            ],
        )
    } else {
        let b2 = after_match(b, no, seq, ts);
        let ev = match_events(b, no, seq, ts);
        match b2.last_trade {
            None => (b2, ev),
            Some(last) => {
                let r1 = drain_buys(b2, last, seq, ts, b.stop_count());
                let r2 = drain_sells(r1.0, last, seq, ts, b.stop_count());
                (r2.0, ev + r1.1 + r2.1)
            },
        }
    }
}

/// Trigger buy stops priced at or below `last`, first in trigger order first; each is
/// applied as a new order (which may trigger more).
pub open spec fn drain_buys(b: BookView, last: Price, seq: SeqNo, ts: Ts, fuel: nat) -> (
    BookView,
    Seq<OutputEvent>,
)
    decreases fuel, 1nat,
{
    if fuel == 0 || b.stop_count() > fuel || b.stop_buys.len() == 0 || b.stop_buys[0].stop_price
        > last {
        (b, seq![])
    } else {
        let o = b.stop_buys[0];
        let b1 = BookView { stop_buys: b.stop_buys.drop_first(), ..b };
        let r1 = apply_new_spec(b1, triggered(o), seq, ts);
        let r2 = drain_buys(r1.0, last, seq, ts, (fuel - 1) as nat);
        (r2.0, r1.1 + r2.1)
    }
}

/// Trigger sell stops priced at or above `last`, in trigger order.
pub open spec fn drain_sells(b: BookView, last: Price, seq: SeqNo, ts: Ts, fuel: nat) -> (
    BookView,
    Seq<OutputEvent>,
)
    decreases fuel, 0nat,
{
    if fuel == 0 || b.stop_count() > fuel || b.stop_sells.len() == 0
        || b.stop_sells[0].stop_price < last {
        (b, seq![])
    } else {
        let o = b.stop_sells[0];
        let b1 = BookView { stop_sells: b.stop_sells.drop_first(), ..b };
        let r1 = apply_new_spec(b1, triggered(o), seq, ts);
        let r2 = drain_sells(r1.0, last, seq, ts, (fuel - 1) as nat);
        (r2.0, r1.1 + r2.1)
    }
}

/// Cancel: the order leaves the book, or the identifier is unknown.
pub open spec fn cancel_spec(b: BookView, id: OrderId, seq: SeqNo) -> (BookView, Seq<OutputEvent>) {
    match locate_spec(b, id) {
        None => (b, seq![reject(id, RejectReason::UnknownId, seq)]),
        Some(loc) => (remove_at(b, loc), seq![OutputEvent::Cancelled { id, seq }]),
    }
}

/// The new order a replace submits: the old order's terms with the new price and
/// quantity and no stop price.
pub open spec fn replacement(o: Order, id: OrderId, new_price: Price, new_qty: Qty) -> NewOrder {
    NewOrder {
        id,
        symbol: o.symbol,
        side: o.side,
        kind: o.kind,
        tif: o.tif,
        price: new_price,
        stop_price: 0,
        qty: new_qty,
    }
}

/// Replace: cancel the order and submit it anew with the new price and quantity (it
/// loses its time priority).
pub open spec fn replace_spec(
    b: BookView,
    id: OrderId,
    new_price: Price,
    new_qty: Qty,
    seq: SeqNo,
    ts: Ts,
) -> (BookView, Seq<OutputEvent>) {
    if new_qty == 0 {
        (b, seq![reject(id, RejectReason::ZeroQty, seq)])
    } else {
        match locate_spec(b, id) {
            None => (b, seq![reject(id, RejectReason::UnknownId, seq)]),
            Some(loc) => {
                let no = replacement(order_at(b, loc), id, new_price, new_qty);
                let r = apply_new_spec(remove_at(b, loc), no, seq, ts);
                (r.0, seq![OutputEvent::Replaced { id, seq }] + r.1)
            },
        }
    }
}

/// The book and the events after applying one sequenced command.
pub open spec fn apply_spec(b: BookView, cmd: Sequenced) -> (BookView, Seq<OutputEvent>) {
    match cmd.cmd {
        Command::New(no) => apply_new_spec(b, no, cmd.seq, cmd.ts),
        Command::Cancel { id, .. } => cancel_spec(b, id, cmd.seq),
        Command::Replace { id, new_price, new_qty, .. } => replace_spec(
            b,
            id,
            new_price,
            new_qty,
            cmd.seq,
            cmd.ts,
        ),
    }
}

} // verus!
