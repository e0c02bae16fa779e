use vstd::prelude::*;
use std::collections::VecDeque;
use crate::types::{OrderId, OrderStatus, OrderType, Price, Qty, SeqNo, Side, SymbolId, TimeInForce};
use crate::order::Order;
use crate::book::{
    better, levels_orders_total, levels_total, sum_remaining, wf_level, wf_levels, wf_stops, BookView, Level, LevelView,
    Location, OrderBook, lemma_levels_sums_nonneg, lemma_sum_remaining_nonneg,
};
use crate::model::{add_stop, new_level, own_levels, rest_spec, stop_insert, with_own};
use crate::lemmas::{lemma_rest, lemma_rest_bound, lemma_stop_insert, lemma_sum_single};
use crate::matcher::{insert_stop, is_stop_exec, levels_view};
use crate::ids::{id_count, ids_unique, ind, lemma_rest_count, lemma_stop_insert_count};
use crate::index::{index_contains, index_insert, index_ok, lemma_index_after_rest, lemma_index_after_stop};

verus! {

/// One order as a snapshot records it, with its side, kind, time in force and status as
/// codes.
#[derive(Debug, Clone, Copy, PartialEq, Eq, Structural)]
pub struct SnapOrder {
    pub id: OrderId,
    pub side: u8,
    pub kind: u8,
    pub tif: u8,
    pub price: Price,
    pub stop_price: Price,
    pub qty: Qty,
    pub remaining: Qty,
    pub seq: SeqNo,
    pub ts: u64,
    pub status: u8,
}

/// The state of one book after a given sequence number: its identity, last trade price
/// and every order it holds.
#[derive(Debug, Clone)]
pub struct Snapshot {
    pub symbol: SymbolId,
    pub tick: Price,
    pub last_seq: SeqNo,
    pub last_trade: Option<Price>,
    pub resting_orders: Vec<SnapOrder>,
}

pub open spec fn side_code(s: Side) -> u8 {
    match s {
        Side::Buy => 0,
        Side::Sell => 1,
    }
}

pub open spec fn kind_code(k: OrderType) -> u8 {
    match k {
        OrderType::Limit => 0,
        OrderType::Market => 1,
        OrderType::Ioc => 2,
        OrderType::Fok => 3,
        OrderType::StopMarket => 4,
        OrderType::StopLimit => 5,
    }
}

pub open spec fn tif_code(t: TimeInForce) -> u8 {
    match t {
        TimeInForce::Gtc => 0,
        TimeInForce::Day => 1,
    }
}

pub open spec fn status_code(s: OrderStatus) -> u8 {
    match s {
        OrderStatus::New => 0,
        OrderStatus::Accepted => 1,
        OrderStatus::PartiallyFilled => 2,
        OrderStatus::Filled => 3,
        OrderStatus::Cancelled => 4,
        OrderStatus::Rejected => 5,
    }
}

/// Side of a code: 0 is a buy, anything else a sell.
pub open spec fn side_of_code(c: u8) -> Side {
    if c == 0 {
        Side::Buy
    } else {
        Side::Sell
    }
}

/// Kind of a code: 0 to 4 as written, anything else a stop-limit order.
pub open spec fn kind_of_code(c: u8) -> OrderType {
    if c == 0 {
        OrderType::Limit
    } else if c == 1 {
        OrderType::Market
    } else if c == 2 {
        OrderType::Ioc
    } else if c == 3 {
        OrderType::Fok
    } else if c == 4 {
        OrderType::StopMarket
    } else {
        OrderType::StopLimit
    }
}

/// Time in force of a code: 0 is good-till-cancelled, anything else day.
pub open spec fn tif_of_code(c: u8) -> TimeInForce {
    if c == 0 {
        TimeInForce::Gtc
    } else {
        TimeInForce::Day
    }
}

/// The record of one order.
pub open spec fn snap_of(o: Order) -> SnapOrder {
    SnapOrder {
        id: o.id,
        side: side_code(o.side),
        kind: kind_code(o.kind),
        tif: tif_code(o.tif),
        price: o.price,
        stop_price: o.stop_price,
        qty: o.qty,
        remaining: o.remaining,
        seq: o.seq,
        ts: o.ts,
        status: status_code(o.status),
    }
}

/// The order a record restores, in the book of `symbol`; its status starts as `New`.
pub open spec fn order_of_snap(so: SnapOrder, symbol: SymbolId) -> Order {
    Order {
        id: so.id,
        symbol,
        side: side_of_code(so.side),
        kind: kind_of_code(so.kind),
        tif: tif_of_code(so.tif),
        price: so.price,
        stop_price: so.stop_price,
        qty: so.qty,
        remaining: so.remaining,
        seq: so.seq,
        ts: so.ts,
        status: OrderStatus::New,
    }
}

/// The orders of a side's levels, worst level first, each level oldest first.
pub open spec fn level_orders(ls: Seq<LevelView>) -> Seq<Order>
    decreases ls.len(),
{
    if ls.len() == 0 {
        seq![]
    } else {
        level_orders(ls.drop_last()) + ls.last().orders
    }
}

/// Every order a book holds: bids, asks, buy stops, sell stops.
pub open spec fn book_orders(b: BookView) -> Seq<Order> {
    level_orders(b.bids) + level_orders(b.asks) + b.stop_buys + b.stop_sells
}

/// The records of a book's orders.
pub open spec fn snap_orders(b: BookView) -> Seq<SnapOrder> {
    book_orders(b).map_values(|o: Order| snap_of(o))
}

/// Put one restored order back: a stop order in its side's trigger list, any other
/// resting on its side.
pub open spec fn place(b: BookView, o: Order) -> BookView {
    if o.kind.is_stop() {
        add_stop(b, o)
    } else {
        with_own(b, o.side, rest_spec(own_levels(b, o.side), o))
    }
}

/// Put restored orders back one after another.
pub open spec fn place_all(b: BookView, os: Seq<Order>) -> BookView
    decreases os.len(),
{
    if os.len() == 0 {
        b
    } else {
        place(place_all(b, os.drop_last()), os.last())
    }
}

/// A book with no orders.
pub open spec fn empty_book(last_trade: Option<Price>) -> BookView {
    BookView {
        bids: seq![],
        asks: seq![],
        stop_buys: seq![],
        stop_sells: seq![],
        last_trade,
    }
}

/// The orders a snapshot restores.
pub open spec fn restored_orders(s: Seq<SnapOrder>, symbol: SymbolId) -> Seq<Order> {
    s.map_values(|so: SnapOrder| order_of_snap(so, symbol))
}

/// Restored orders a book can hold: each live, and every resting buy priced below every
/// resting sell, so that the rebuilt book is not crossed.
pub open spec fn live_orders(os: Seq<Order>) -> bool {
    &&& forall|k: int| 0 <= k < os.len() ==> (#[trigger] os[k]).remaining > 0
    &&& forall|i: int, k: int|
        0 <= i < os.len() && 0 <= k < os.len() && !os[i].kind.is_stop() && !os[k].kind.is_stop()
            && os[i].side == Side::Buy && os[k].side == Side::Sell ==> #[trigger] os[i].price
            < #[trigger] os[k].price
}

/// Sum of the open quantities a snapshot records.
pub open spec fn snap_total(s: Seq<SnapOrder>) -> int
    decreases s.len(),
{
    if s.len() == 0 {
        0
    } else {
        snap_total(s.drop_last()) + s.last().remaining
    }
}

fn snap_of_exec(o: &Order) -> (r: SnapOrder)
    ensures
        r == snap_of(*o),
{
    SnapOrder {
        id: o.id,
        side: match o.side {
            Side::Buy => 0,
            Side::Sell => 1,
        },
        kind: match o.kind {
            OrderType::Limit => 0,
            OrderType::Market => 1,
            OrderType::Ioc => 2,
            OrderType::Fok => 3,
            OrderType::StopMarket => 4,
            OrderType::StopLimit => 5,
        },
        tif: match o.tif {
            TimeInForce::Gtc => 0,
            TimeInForce::Day => 1,
        },
        price: o.price,
        stop_price: o.stop_price,
        qty: o.qty,
        remaining: o.remaining,
        seq: o.seq,
        ts: o.ts,
        status: match o.status {
            OrderStatus::New => 0,
            OrderStatus::Accepted => 1,
            OrderStatus::PartiallyFilled => 2,
            OrderStatus::Filled => 3,
            OrderStatus::Cancelled => 4,
            OrderStatus::Rejected => 5,
        },
    }
}

fn order_of_snap_exec(so: &SnapOrder, symbol: SymbolId) -> (r: Order)
    ensures
        r == order_of_snap(*so, symbol),
{
    let side = if so.side == 0 {
        Side::Buy
    } else {
        Side::Sell
    };
    let kind = if so.kind == 0 {
        OrderType::Limit
    } else if so.kind == 1 {
        OrderType::Market
    } else if so.kind == 2 {
        OrderType::Ioc
    } else if so.kind == 3 {
        OrderType::Fok
    } else if so.kind == 4 {
        OrderType::StopMarket
    } else {
        OrderType::StopLimit
    };
    let tif = if so.tif == 0 {
        TimeInForce::Gtc
    } else {
        TimeInForce::Day
    };
    Order {
        id: so.id,
        symbol,
        side,
        kind,
        tif,
        price: so.price,
        stop_price: so.stop_price,
        qty: so.qty,
        remaining: so.remaining,
        seq: so.seq,
        ts: so.ts,
        status: OrderStatus::New,
    }
}

/// Append the records of a queue of orders.
fn push_orders(q: &VecDeque<Order>, out: &mut Vec<SnapOrder>)
    ensures
        final(out)@ == old(out)@ + q@.map_values(|o: Order| snap_of(o)),
{
    let mut j: usize = 0;
    while j < q.len()
        invariant
            j <= q@.len(),
            out@ == old(out)@ + q@.take(j as int).map_values(|o: Order| snap_of(o)),
        decreases q@.len() - j,
    {
        let s = snap_of_exec(&q[j]);
        out.push(s);
        assert(q@.take(j + 1) =~= q@.take(j as int).push(q@[j as int]));
        assert(q@.take(j + 1).map_values(|o: Order| snap_of(o)) =~= q@.take(j as int).map_values(
            |o: Order| snap_of(o),
        ).push(s));
        j = j + 1;
    }
    assert(q@.take(j as int) =~= q@);
}

/// Append the records of a side's orders, worst level first.
fn push_level_orders(levels: &Vec<Level>, out: &mut Vec<SnapOrder>)
    ensures
        final(out)@ == old(out)@ + level_orders(levels_view(levels@)).map_values(
            |o: Order| snap_of(o),
        ),
{
    let ghost lv = levels_view(levels@);
    let mut i: usize = 0;
    assert(lv.take(0) =~= Seq::<LevelView>::empty());
    assert(level_orders(lv.take(0)).map_values(|o: Order| snap_of(o)) =~= Seq::<SnapOrder>::empty());
    while i < levels.len()
        invariant
            lv == levels_view(levels@),
            i <= levels@.len(),
            out@ == old(out)@ + level_orders(lv.take(i as int)).map_values(|o: Order| snap_of(o)),
        decreases levels@.len() - i,
    {
        let ghost before = out@;
        push_orders(&levels[i].orders, out);
        proof {
            assert(lv.take(i + 1).drop_last() =~= lv.take(i as int));
            assert(lv.take(i + 1).last() == lv[i as int]);
            assert(lv[i as int].orders == levels@[i as int].orders@);
            let a = level_orders(lv.take(i as int));
            let b = lv[i as int].orders;
            assert((a + b).map_values(|o: Order| snap_of(o)) =~= a.map_values(|o: Order| snap_of(o))
                + b.map_values(|o: Order| snap_of(o)));
        }
        i = i + 1;
    }
    assert(lv.take(i as int) =~= lv);
}

/// The snapshot of a book after sequence number `last_seq`: its identity, last trade
/// price and every order it holds, bids then asks (each side worst level first, each
/// level oldest first), then buy stops and sell stops in trigger order.
pub fn snapshot_of(book: &OrderBook, last_seq: SeqNo) -> (s: Snapshot)
    ensures
        s.symbol == book.symbol,
        s.tick == book.tick,
        s.last_seq == last_seq,
        s.last_trade == book@.last_trade,
        s.resting_orders@ == snap_orders(book@),
{
    let mut out: Vec<SnapOrder> = Vec::new();
    push_level_orders(&book.bids, &mut out);
    push_level_orders(&book.asks, &mut out);
    push_orders(&book.stop_buys, &mut out);
    push_orders(&book.stop_sells, &mut out);
    proof {
        let b = book@;
        let a1 = level_orders(b.bids);
        let a2 = level_orders(b.asks);
        assert(((a1 + a2) + b.stop_buys + b.stop_sells).map_values(|o: Order| snap_of(o))
            =~= a1.map_values(|o: Order| snap_of(o)) + a2.map_values(|o: Order| snap_of(o))
            + b.stop_buys.map_values(|o: Order| snap_of(o)) + b.stop_sells.map_values(
            |o: Order| snap_of(o),
        ));
        assert(Seq::<SnapOrder>::empty() + a1.map_values(|o: Order| snap_of(o)) =~= a1.map_values(
            |o: Order| snap_of(o),
        ));
    }
    Snapshot {
        symbol: book.symbol,
        tick: book.tick,
        last_seq,
        last_trade: book.last_trade,
        resting_orders: out,
    }
}

proof fn lemma_snap_total_prefix(s: Seq<SnapOrder>, i: int)
    requires
        0 <= i <= s.len(),
    ensures
        snap_total(s.take(i)) <= snap_total(s),
        snap_total(s.take(i)) >= 0,
    decreases s.len(),
{
    if i == s.len() {
        assert(s.take(i) =~= s);
        if s.len() > 0 {
            lemma_snap_total_prefix(s.drop_last(), 0);
        } else {
            assert(snap_total(s) == 0);
        }
    } else {
        assert(s.take(i) =~= s.drop_last().take(i));
        lemma_snap_total_prefix(s.drop_last(), i);
    }
}

proof fn lemma_rest_total_le(ls: Seq<LevelView>, o: Order)
    ensures
        levels_total(rest_spec(ls, o)) <= levels_total(ls) + o.remaining,
    decreases ls.len(),
{
    let r = rest_spec(ls, o);
    if ls.len() == 0 {
        assert(r.drop_last() =~= Seq::<LevelView>::empty());
        assert(levels_total(Seq::<LevelView>::empty()) == 0);
        assert(levels_total(r) == levels_total(r.drop_last()) + r.last().total_qty);
    } else {
        let l = ls.last();
        let d = ls.drop_last();
        lemma_levels_sums_nonneg(d);
        if l.price == o.price {
            assert(r.drop_last() =~= d);
            let t = r.last().total_qty;
            assert(t == #[verifier::truncate] ((l.total_qty + o.remaining) as u64));
            assert(t <= l.total_qty + o.remaining) by {
                if l.total_qty + o.remaining <= u64::MAX {
                    assert(t == l.total_qty + o.remaining);
                }
            }
            assert(levels_total(r) == levels_total(d) + r.last().total_qty);
            assert(levels_total(ls) == levels_total(d) + l.total_qty);
        } else if better(o.side, o.price, l.price) {
            assert(r.drop_last() =~= ls);
            assert(levels_total(r) == levels_total(ls) + r.last().total_qty);
        } else {
            lemma_rest_total_le(d, o);
            assert(r.drop_last() =~= rest_spec(d, o));
            assert(levels_total(r) == levels_total(rest_spec(d, o)) + l.total_qty);
        }
    }
}

/// Whether the orders a snapshot records can make a well-formed book: each live, and every
/// resting buy priced below every resting sell.
pub fn snapshot_is_live(snap: &Snapshot) -> (r: bool)
    ensures
        r == live_orders(restored_orders(snap.resting_orders@, snap.symbol)),
{
    let n = snap.resting_orders.len();
    let ghost os = restored_orders(snap.resting_orders@, snap.symbol);
    let mut live = true;
    let mut max_buy: Option<Price> = None;
    let mut min_sell: Option<Price> = None;
    let ghost mut buy_at: int = 0;
    let ghost mut sell_at: int = 0;
    let mut i: usize = 0;
    while i < n
        invariant
            n == snap.resting_orders@.len(),
            os == restored_orders(snap.resting_orders@, snap.symbol),
            i <= n,
            live == (forall|k: int| 0 <= k < i ==> (#[trigger] os[k]).remaining > 0),
            max_buy is None ==> forall|k: int|
                0 <= k < i ==> !(!(#[trigger] os[k]).kind.is_stop() && os[k].side == Side::Buy),
            max_buy matches Some(m) ==> {
                &&& 0 <= buy_at < i
                &&& !os[buy_at].kind.is_stop() && os[buy_at].side == Side::Buy
                &&& os[buy_at].price == m
                &&& forall|k: int|
                    0 <= k < i && !(#[trigger] os[k]).kind.is_stop() && os[k].side == Side::Buy
                        ==> os[k].price <= m
            },
            min_sell is None ==> forall|k: int|
                0 <= k < i ==> !(!(#[trigger] os[k]).kind.is_stop() && os[k].side == Side::Sell),
            min_sell matches Some(m) ==> {
                &&& 0 <= sell_at < i
                &&& !os[sell_at].kind.is_stop() && os[sell_at].side == Side::Sell
                &&& os[sell_at].price == m
                &&& forall|k: int|
                    0 <= k < i && !(#[trigger] os[k]).kind.is_stop() && os[k].side == Side::Sell
                        ==> os[k].price >= m
            },
        decreases n - i,
    {
        let o = order_of_snap_exec(&snap.resting_orders[i], snap.symbol);
        assert(o == os[i as int]);
        if o.remaining == 0 {
            live = false;
        }
        if !is_stop_exec(o.kind) {
            match o.side {
                Side::Buy => {
                    let bigger = match max_buy {
                        None => true,
                        Some(m) => o.price > m,
                    };
                    if bigger {
                        max_buy = Some(o.price);
                        proof {
                            buy_at = i as int;
                        }
                    }
                },
                Side::Sell => {
                    let smaller = match min_sell {
                        None => true,
                        Some(m) => o.price < m,
                    };
                    if smaller {
                        min_sell = Some(o.price);
                        proof {
                            sell_at = i as int;
                        }
                    }
                },
            }
        }
        i = i + 1;
    }
    let apart = match (max_buy, min_sell) {
        (Some(b), Some(a)) => b < a,
        _ => true,
    };
    proof {
        if !apart {
            assert(!live_orders(os)) by {
                assert(os[buy_at].price >= os[sell_at].price);
            }
        }
    }
    live && apart
}

/// Rebuild the book a snapshot records: each order is put back in turn, a stop order in
/// its side's trigger list and any other resting on its side, in the snapshot's book.
/// There is none when the recorded open quantities add up to more than a quantity can
/// hold. Where the snapshot holds no identifier twice, the rebuilt book's identifier index
/// is in step with it; where its orders are live and no resting buy is priced at or above a
/// resting sell, the rebuilt book is well formed.
pub fn book_from_snapshot(snap: &Snapshot) -> (r: Option<(OrderBook, SeqNo)>)
    ensures
        r is Some <==> snap_total(snap.resting_orders@) <= u64::MAX,
        r matches Some((b, last)) ==> {
            &&& b.symbol == snap.symbol
            &&& b.tick == snap.tick
            &&& b.seq == 0
            &&& last == snap.last_seq
            &&& b@ == place_all(
                empty_book(snap.last_trade),
                restored_orders(snap.resting_orders@, snap.symbol),
            )
            &&& ids_unique(b@) ==> b.indexed()
            &&& live_orders(restored_orders(snap.resting_orders@, snap.symbol)) ==> b@.wf()
        },
{
    let n = snap.resting_orders.len();
    let ghost s = snap.resting_orders@;
    let mut total: u64 = 0;
    let mut i: usize = 0;
    assert(s.take(0) =~= Seq::<SnapOrder>::empty());
    while i < n
        invariant
            n == s.len(),
            s == snap.resting_orders@,
            i <= n,
            total == snap_total(s.take(i as int)),
        decreases n - i,
    {
        assert(s.take(i + 1).drop_last() =~= s.take(i as int));
        match total.checked_add(snap.resting_orders[i].remaining) {
            None => {
                proof {
                    lemma_snap_total_prefix(s, i + 1);
                }
                return None;
            },
            Some(t) => {
                total = t;
            },
        }
        i = i + 1;
    }
    assert(s.take(n as int) =~= s);
    let mut book = OrderBook::new(snap.symbol, snap.tick);
    book.last_trade = snap.last_trade;
    let ghost os = restored_orders(s, snap.symbol);
    let ghost b0 = empty_book(snap.last_trade);
    assert(book@.bids =~= b0.bids);
    assert(book@.asks =~= b0.asks);
    assert(book@.stop_buys =~= b0.stop_buys);
    assert(book@.stop_sells =~= b0.stop_sells);
    let mut k: usize = 0;
    assert(os.take(0) =~= Seq::<crate::order::Order>::empty());
    while k < n
        invariant
            n == s.len(),
            s == snap.resting_orders@,
            os == restored_orders(s, snap.symbol),
            k <= n,
            snap_total(s) <= u64::MAX,
            book@ == place_all(b0, os.take(k as int)),
            book.symbol == snap.symbol,
            book.tick == snap.tick,
            book.seq == 0,
            levels_total(book@.bids) + levels_total(book@.asks) <= snap_total(s.take(k as int)),
            ids_unique(book@) ==> index_ok(book.id_index@, book@),
        decreases n - k,
    {
        let o = order_of_snap_exec(&snap.resting_orders[k], snap.symbol);
        let ghost b = book@;
        let ghost old_index = book.id_index@;
        proof {
            assert(os.take(k + 1).drop_last() =~= os.take(k as int));
            assert(os.take(k + 1).last() == o);
            assert(s.take(k + 1).drop_last() =~= s.take(k as int));
            lemma_snap_total_prefix(s, k + 1);
            lemma_levels_sums_nonneg(b.bids);
            lemma_levels_sums_nonneg(b.asks);
            lemma_rest_total_le(own_levels(b, o.side), o);
            lemma_place_count(b, o);
        }
        let fresh = !index_contains(&book.id_index, o.id);
        if is_stop_exec(o.kind) {
            if fresh {
                index_insert(&mut book.id_index, o.id, Location { price: o.stop_price, side: o.side, waiting: true });
            }
            match o.side {
                Side::Buy => insert_stop(&mut book.stop_buys, o),
                Side::Sell => insert_stop(&mut book.stop_sells, o),
            }
            assert(book@ =~= add_stop(b, o));
            proof {
                if ids_unique(book@) {
                    assert(id_count(b, o.id) == 0) by {
                        assert(id_count(book@, o.id) == id_count(b, o.id) + 1);
                    }
                    assert(ids_unique(b)) by {
                        assert forall|id: OrderId| #[trigger] id_count(b, id) <= 1 by {
                            assert(id_count(book@, id) == id_count(b, id) + ind(o.id == id));
                        }
                    }
                    lemma_index_after_stop(b, old_index, o);
                }
            }
        } else {
            if fresh {
                index_insert(&mut book.id_index, o.id, Location { price: o.price, side: o.side, waiting: false });
            }
            book.rest(o);
            proof {
                if ids_unique(book@) {
                    assert(id_count(b, o.id) == 0) by {
                        assert(id_count(book@, o.id) == id_count(b, o.id) + 1);
                    }
                    assert(ids_unique(b)) by {
                        assert forall|id: OrderId| #[trigger] id_count(b, id) <= 1 by {
                            assert(id_count(book@, id) == id_count(b, id) + ind(o.id == id));
                        }
                    }
                    lemma_index_after_rest(b, old_index, o);
                }
            }
        }
        k = k + 1;
    }
    assert(os.take(n as int) =~= os);
    proof {
        if live_orders(os) {
            lemma_restored_total(s, snap.symbol);
            lemma_place_all_wf(snap.last_trade, os, n as int);
        }
    }
    Some((book, snap.last_seq))
}

/// Putting an order back adds one to the count of its identifier and leaves every other
/// count as it was.
proof fn lemma_place_count(b: BookView, o: Order)
    ensures
        forall|id: OrderId| #[trigger] id_count(place(b, o), id) == id_count(b, id) + ind(o.id == id),
{
    assert forall|id: OrderId| #[trigger] id_count(place(b, o), id) == id_count(b, id) + ind(o.id == id) by {
        if o.kind.is_stop() {
            match o.side {
                Side::Buy => lemma_stop_insert_count(b.stop_buys, o, id),
                Side::Sell => lemma_stop_insert_count(b.stop_sells, o, id),
            }
        } else {
            lemma_rest_count(own_levels(b, o.side), o, id);
        }
    }
}

/// The open quantity of the restored orders is what the snapshot records.
proof fn lemma_restored_total(s: Seq<SnapOrder>, symbol: SymbolId)
    ensures
        sum_remaining(restored_orders(s, symbol)) == snap_total(s),
    decreases s.len(),
{
    if s.len() > 0 {
        assert(restored_orders(s, symbol).drop_last() =~= restored_orders(s.drop_last(), symbol));
        lemma_restored_total(s.drop_last(), symbol);
    }
}

/// Putting back the first `n` of a set of live orders whose open quantity fits gives
/// well-formed sides and trigger lists, holding that open quantity, with every bid level
/// below every resting sell and every ask level, and every ask level above every resting
/// buy.
proof fn lemma_place_all_wf(last: Option<Price>, all: Seq<Order>, n: int)
    requires
        live_orders(all),
        0 <= n <= all.len(),
        sum_remaining(all.take(n)) <= u64::MAX,
    ensures
        ({
            let r = place_all(empty_book(last), all.take(n));
            &&& wf_levels(r.bids, Side::Buy)
            &&& wf_levels(r.asks, Side::Sell)
            &&& wf_stops(r.stop_buys, Side::Buy)
            &&& wf_stops(r.stop_sells, Side::Sell)
            &&& r.qty_bound() == sum_remaining(all.take(n))
            &&& forall|i: int, k: int|
                0 <= i < r.bids.len() && 0 <= k < all.len() && !all[k].kind.is_stop() && all[k].side
                    == Side::Sell ==> #[trigger] r.bids[i].price < #[trigger] all[k].price
            &&& forall|j: int, k: int|
                0 <= j < r.asks.len() && 0 <= k < all.len() && !all[k].kind.is_stop() && all[k].side
                    == Side::Buy ==> #[trigger] r.asks[j].price > #[trigger] all[k].price
            &&& forall|i: int, j: int|
                0 <= i < r.bids.len() && 0 <= j < r.asks.len() ==> #[trigger] r.bids[i].price
                    < #[trigger] r.asks[j].price
        }),
    decreases n,
{
    let e = empty_book(last);
    if n == 0 {
        assert(all.take(0) =~= Seq::<Order>::empty());
        assert(e.bids =~= Seq::<LevelView>::empty());
        assert(e.asks =~= Seq::<LevelView>::empty());
        assert(sum_remaining(e.stop_buys) == 0);
        assert(sum_remaining(e.stop_sells) == 0);
        assert(levels_total(e.bids) == 0);
        assert(levels_total(e.asks) == 0);
    } else {
        let t = all.take(n);
        assert(t.drop_last() =~= all.take(n - 1));
        assert(t.last() == all[n - 1]);
        let o = all[n - 1];
        assert(o.remaining > 0);
        lemma_sum_remaining_nonneg(all.take(n - 1));
        lemma_place_all_wf(last, all, n - 1);
        let b = place_all(e, all.take(n - 1));
        let r = place_all(e, t);
        assert(r == place(b, o));
        lemma_levels_sums_nonneg(b.bids);
        lemma_levels_sums_nonneg(b.asks);
        lemma_sum_remaining_nonneg(b.stop_buys);
        lemma_sum_remaining_nonneg(b.stop_sells);
        if o.kind.is_stop() {
            match o.side {
                Side::Buy => lemma_stop_insert(b.stop_buys, o),
                Side::Sell => lemma_stop_insert(b.stop_sells, o),
            }
        } else {
            match o.side {
                Side::Buy => {
                    lemma_rest(b.bids, o);
                    assert(r.bids == rest_spec(b.bids, o));
                    assert forall|i: int, k: int|
                        0 <= i < r.bids.len() && 0 <= k < all.len() && !all[k].kind.is_stop()
                            && all[k].side == Side::Sell implies #[trigger] r.bids[i].price
                        < #[trigger] all[k].price by {
                        assert(o.price < all[k].price);
                        assert forall|j: int| 0 <= j < b.bids.len() implies better(
                            o.side,
                            all[k].price,
                            #[trigger] b.bids[j].price,
                        ) by {
                            assert(b.bids[j].price < all[k].price);
                        }
                        lemma_rest_bound(b.bids, o, all[k].price);
                    }
                    assert forall|i: int, j: int|
                        0 <= i < r.bids.len() && 0 <= j < r.asks.len() implies #[trigger] r.bids[i].price
                        < #[trigger] r.asks[j].price by {
                        assert(r.asks[j] == b.asks[j]);
                        assert(b.asks[j].price > o.price);
                        assert forall|m: int| 0 <= m < b.bids.len() implies better(
                            o.side,
                            b.asks[j].price,
                            #[trigger] b.bids[m].price,
                        ) by {
                            assert(b.bids[m].price < b.asks[j].price);
                        }
                        lemma_rest_bound(b.bids, o, b.asks[j].price);
                    }
                },
                Side::Sell => {
                    lemma_rest(b.asks, o);
                    assert(r.asks == rest_spec(b.asks, o));
                    assert forall|j: int, k: int|
                        0 <= j < r.asks.len() && 0 <= k < all.len() && !all[k].kind.is_stop()
                            && all[k].side == Side::Buy implies #[trigger] r.asks[j].price
                        > #[trigger] all[k].price by {
                        assert(all[k].price < o.price);
                        assert forall|m: int| 0 <= m < b.asks.len() implies better(
                            o.side,
                            all[k].price,
                            #[trigger] b.asks[m].price,
                        ) by {
                            assert(b.asks[m].price > all[k].price);
                        }
                        lemma_rest_bound(b.asks, o, all[k].price);
                    }
                    assert forall|i: int, j: int|
                        0 <= i < r.bids.len() && 0 <= j < r.asks.len() implies #[trigger] r.bids[i].price
                        < #[trigger] r.asks[j].price by {
                        assert(r.bids[i] == b.bids[i]);
                        assert(b.bids[i].price < o.price);
                        assert forall|m: int| 0 <= m < b.asks.len() implies better(
                            o.side,
                            b.bids[i].price,
                            #[trigger] b.asks[m].price,
                        ) by {
                            assert(b.bids[i].price < b.asks[m].price);
                        }
                        lemma_rest_bound(b.asks, o, b.bids[i].price);
                    }
                },
            }
        }
    }
}

proof fn lemma_place_all_append(b: BookView, xs: Seq<Order>, ys: Seq<Order>)
    ensures
        place_all(b, xs + ys) == place_all(place_all(b, xs), ys),
    decreases ys.len(),
{
    if ys.len() == 0 {
        assert(xs + ys =~= xs);
    } else {
        assert((xs + ys).drop_last() =~= xs + ys.drop_last());
        assert((xs + ys).last() == ys.last());
        lemma_place_all_append(b, xs, ys.drop_last());
    }
}

proof fn lemma_level_orders_all(ls: Seq<LevelView>, p: spec_fn(Order) -> bool)
    requires
        forall|i: int, j: int|
            0 <= i < ls.len() && 0 <= j < ls[i].orders.len() ==> p(#[trigger] ls[i].orders[j]),
    ensures
        forall|k: int| 0 <= k < level_orders(ls).len() ==> p(#[trigger] level_orders(ls)[k]),
    decreases ls.len(),
{
    if ls.len() > 0 {
        let d = ls.drop_last();
        assert forall|i: int, j: int| 0 <= i < d.len() && 0 <= j < d[i].orders.len() implies p(
            #[trigger] d[i].orders[j],
        ) by {
            assert(d[i] == ls[i]);
        }
        lemma_level_orders_all(d, p);
        let a = level_orders(d);
        let l = ls.last();
        assert forall|k: int| 0 <= k < level_orders(ls).len() implies p(#[trigger] level_orders(ls)[k]) by {
            if k < a.len() {
                assert(level_orders(ls)[k] == a[k]);
            } else {
                assert(level_orders(ls)[k] == l.orders[k - a.len()]);
                assert(l == ls[ls.len() - 1]);
            }
        }
    }
}

/// Restoring the orders of one level, all at a price better than the side's levels so
/// far, adds that level as the new best.
proof fn lemma_place_level(b: BookView, side: Side, l: LevelView)
    requires
        wf_level(l, side),
        forall|j: int| 0 <= j < l.orders.len() ==> !(#[trigger] l.orders[j]).kind.is_stop(),
        own_levels(b, side).len() == 0 || better(side, l.price, own_levels(b, side).last().price),
    ensures
        place_all(b, l.orders) == with_own(b, side, own_levels(b, side).push(l)),
    decreases l.orders.len(),
{
    let os = l.orders;
    let d = own_levels(b, side);
    let o = os.last();
    assert(os[os.len() - 1] == o);
    assert(!o.kind.is_stop());
    assert(place_all(b, os) == place(place_all(b, os.drop_last()), o));
    if os.len() == 1 {
        assert(os.drop_last() =~= Seq::<Order>::empty());
        assert(place_all(b, os.drop_last()) == b);
        lemma_sum_single(o);
        assert(os =~= seq![o]);
        assert(rest_spec(d, o) =~= d.push(new_level(o)));
        assert(new_level(o) == l);
        match side {
            Side::Buy => assert(place(b, o) == with_own(b, side, d.push(l))),
            Side::Sell => assert(place(b, o) == with_own(b, side, d.push(l))),
        }
    } else {
        let pre = os.drop_last();
        let l0 = LevelView { price: l.price, total_qty: sum_remaining(pre) as u64, orders: pre };
        lemma_sum_remaining_nonneg(pre);
        assert(sum_remaining(os) == sum_remaining(pre) + o.remaining);
        assert forall|j: int| 0 <= j < pre.len() implies ({
            &&& (#[trigger] pre[j]).remaining > 0
            &&& pre[j].price == l0.price
            &&& pre[j].side == side
        }) by {
            assert(pre[j] == os[j]);
        }
        assert(wf_level(l0, side));
        assert forall|j: int| 0 <= j < l0.orders.len() implies !(#[trigger] l0.orders[j]).kind.is_stop() by {
            assert(pre[j] == os[j]);
        }
        lemma_place_level(b, side, l0);
        let b1 = with_own(b, side, d.push(l0));
        assert(own_levels(b1, side) == d.push(l0));
        assert(d.push(l0).drop_last() =~= d);
        assert(pre.push(o) =~= os);
        assert(rest_spec(d.push(l0), o) =~= d.push(l));
        match side {
            Side::Buy => assert(place(b1, o) == with_own(b, side, d.push(l))),
            Side::Sell => assert(place(b1, o) == with_own(b, side, d.push(l))),
        }
    }
}

/// Restoring the orders of a side's levels, worst level first, onto an empty side
/// gives back those levels.
proof fn lemma_place_levels(b: BookView, side: Side, ls: Seq<LevelView>)
    requires
        wf_levels(ls, side),
        forall|i: int, j: int|
            0 <= i < ls.len() && 0 <= j < ls[i].orders.len() ==> !(#[trigger] ls[i].orders[j]).kind.is_stop(),
        own_levels(b, side).len() == 0,
    ensures
        place_all(b, level_orders(ls)) == with_own(b, side, ls),
    decreases ls.len(),
{
    if ls.len() == 0 {
        assert(level_orders(ls) =~= Seq::<Order>::empty());
        match side {
            Side::Buy => assert(b.bids =~= ls),
            Side::Sell => assert(b.asks =~= ls),
        }
    } else {
        let d = ls.drop_last();
        let l = ls.last();
        assert forall|i: int| 0 <= i < d.len() implies wf_level(#[trigger] d[i], side) by {
            assert(d[i] == ls[i]);
        }
        assert forall|i: int, k: int| 0 <= i < k < d.len() implies better(
            side,
            #[trigger] d[k].price,
            #[trigger] d[i].price,
        ) by {
            assert(d[i] == ls[i]);
            assert(d[k] == ls[k]);
        }
        assert forall|i: int, j: int| 0 <= i < d.len() && 0 <= j < d[i].orders.len() implies !(
        #[trigger] d[i].orders[j]).kind.is_stop() by {
            assert(d[i] == ls[i]);
        }
        lemma_place_levels(b, side, d);
        lemma_place_all_append(b, level_orders(d), l.orders);
        let b1 = with_own(b, side, d);
        assert(own_levels(b1, side) == d);
        assert(l == ls[ls.len() - 1]);
        assert(wf_level(l, side));
        if d.len() > 0 {
            assert(better(side, ls[ls.len() - 1].price, ls[d.len() - 1].price));
        }
        assert forall|j: int| 0 <= j < l.orders.len() implies !(#[trigger] l.orders[j]).kind.is_stop() by {
            assert(l.orders[j] == ls[ls.len() - 1].orders[j]);
        }
        lemma_place_level(b1, side, l);
        assert(d.push(l) =~= ls);
        match side {
            Side::Buy => assert(with_own(b1, side, d.push(l)) == with_own(b, side, ls)),
            Side::Sell => assert(with_own(b1, side, d.push(l)) == with_own(b, side, ls)),
        }
    }
}

/// Restoring stop orders in trigger order onto an empty list gives back the list.
proof fn lemma_place_stops(b: BookView, side: Side, s: Seq<Order>)
    requires
        wf_stops(s, side),
        side == Side::Buy ==> b.stop_buys.len() == 0,
        side == Side::Sell ==> b.stop_sells.len() == 0,
    ensures
        side == Side::Buy ==> place_all(b, s) == (BookView { stop_buys: s, ..b }),
        side == Side::Sell ==> place_all(b, s) == (BookView { stop_sells: s, ..b }),
    decreases s.len(),
{
    if s.len() == 0 {
        assert(b.stop_buys =~= s || side == Side::Sell);
        assert(b.stop_sells =~= s || side == Side::Buy);
    } else {
        let d = s.drop_last();
        let o = s.last();
        assert(s[s.len() - 1] == o);
        assert forall|i: int| 0 <= i < d.len() implies (#[trigger] d[i]).side == side && d[i].kind.is_stop() by {
            assert(d[i] == s[i]);
        }
        assert forall|i: int, j: int| 0 <= i < j < d.len() implies !better(
            side,
            #[trigger] d[i].stop_price,
            #[trigger] d[j].stop_price,
        ) by {
            assert(d[i] == s[i]);
            assert(d[j] == s[j]);
        }
        lemma_place_stops(b, side, d);
        if d.len() > 0 {
            assert(!better(side, s[d.len() - 1].stop_price, s[s.len() - 1].stop_price));
            assert(d.last() == s[d.len() - 1]);
        }
        assert(stop_insert(d, o) =~= s);
    }
}

/// The conditions under which a book survives a snapshot unchanged: every order
/// belongs to the book's symbol and still has the status `New` that restoring gives it,
/// and no resting order is of a stop kind (those restore as stops).
pub open spec fn restorable(b: BookView, symbol: SymbolId) -> bool {
    &&& forall|i: int, j: int|
        0 <= i < b.bids.len() && 0 <= j < b.bids[i].orders.len() ==> {
            let o = #[trigger] b.bids[i].orders[j];
            o.symbol == symbol && o.status == OrderStatus::New && !o.kind.is_stop()
        }
    &&& forall|i: int, j: int|
        0 <= i < b.asks.len() && 0 <= j < b.asks[i].orders.len() ==> {
            let o = #[trigger] b.asks[i].orders[j];
            o.symbol == symbol && o.status == OrderStatus::New && !o.kind.is_stop()
        }
    &&& forall|i: int|
        0 <= i < b.stop_buys.len() ==> (#[trigger] b.stop_buys[i]).symbol == symbol
            && b.stop_buys[i].status == OrderStatus::New
    &&& forall|i: int|
        0 <= i < b.stop_sells.len() ==> (#[trigger] b.stop_sells[i]).symbol == symbol
            && b.stop_sells[i].status == OrderStatus::New
}

proof fn lemma_snap_total_map(xs: Seq<Order>)
    ensures
        snap_total(xs.map_values(|o: Order| snap_of(o))) == sum_remaining(xs),
    decreases xs.len(),
{
    if xs.len() > 0 {
        assert(xs.map_values(|o: Order| snap_of(o)).drop_last() =~= xs.drop_last().map_values(
            |o: Order| snap_of(o),
        ));
        lemma_snap_total_map(xs.drop_last());
    }
}

proof fn lemma_sum_append(a: Seq<Order>, c: Seq<Order>)
    ensures
        sum_remaining(a + c) == sum_remaining(a) + sum_remaining(c),
    decreases c.len(),
{
    if c.len() == 0 {
        assert(a + c =~= a);
    } else {
        assert((a + c).drop_last() =~= a + c.drop_last());
        lemma_sum_append(a, c.drop_last());
    }
}

proof fn lemma_sum_level_orders(ls: Seq<LevelView>)
    ensures
        sum_remaining(level_orders(ls)) == levels_orders_total(ls),
    decreases ls.len(),
{
    if ls.len() > 0 {
        lemma_sum_level_orders(ls.drop_last());
        lemma_sum_append(level_orders(ls.drop_last()), ls.last().orders);
    }
}

/// A snapshot gives back the book it was taken of: the open quantity it records fits a
/// quantity, and rebuilding a well-formed book from the records of its orders restores
/// the same levels, queues, stop lists and last trade price.
pub proof fn law_snapshot_round_trip(b: BookView, symbol: SymbolId)
    requires
        b.wf(),
        restorable(b, symbol),
    ensures
        snap_total(snap_orders(b)) <= u64::MAX,
        place_all(empty_book(b.last_trade), restored_orders(snap_orders(b), symbol)) == b,
{
    crate::laws::law_no_phantom_liquidity(b);
    lemma_snap_total_map(book_orders(b));
    lemma_sum_level_orders(b.bids);
    lemma_sum_level_orders(b.asks);
    lemma_sum_append(level_orders(b.bids), level_orders(b.asks));
    lemma_sum_append(level_orders(b.bids) + level_orders(b.asks), b.stop_buys);
    lemma_sum_append(level_orders(b.bids) + level_orders(b.asks) + b.stop_buys, b.stop_sells);
    let os = book_orders(b);
    let p = |o: Order| o.symbol == symbol && o.status == OrderStatus::New;
    let q = |o: Order| o.symbol == symbol && o.status == OrderStatus::New && !o.kind.is_stop();
    lemma_level_orders_all(b.bids, q);
    lemma_level_orders_all(b.asks, q);
    let l1 = level_orders(b.bids);
    let l2 = level_orders(b.asks);
    assert forall|k: int| 0 <= k < os.len() implies #[trigger] order_of_snap(snap_of(os[k]), symbol)
        == os[k] by {
        let o = os[k];
        if k < l1.len() {
            assert(os[k] == l1[k]);
            assert(q(l1[k]));
        } else if k < l1.len() + l2.len() {
            assert(os[k] == l2[k - l1.len()]);
            assert(q(l2[k - l1.len()]));
        } else if k < l1.len() + l2.len() + b.stop_buys.len() {
            assert(os[k] == b.stop_buys[k - l1.len() - l2.len()]);
        } else {
            assert(os[k] == b.stop_sells[k - l1.len() - l2.len() - b.stop_buys.len()]);
        }
        assert(o.symbol == symbol && o.status == OrderStatus::New);
        match o.side {
            Side::Buy => {},
            Side::Sell => {},
        }
        match o.tif {
            TimeInForce::Gtc => {},
            TimeInForce::Day => {},
        }
        match o.kind {
            OrderType::Limit => {},
            OrderType::Market => {},
            OrderType::Ioc => {},
            OrderType::Fok => {},
            OrderType::StopMarket => {},
            OrderType::StopLimit => {},
        }
    }
    assert(restored_orders(snap_orders(b), symbol) =~= os);
    let e = empty_book(b.last_trade);
    lemma_place_all_append(e, l1 + l2 + b.stop_buys, b.stop_sells);
    lemma_place_all_append(e, l1 + l2, b.stop_buys);
    lemma_place_all_append(e, l1, l2);
    assert forall|i: int, j: int| 0 <= i < b.bids.len() && 0 <= j < b.bids[i].orders.len() implies !(
    #[trigger] b.bids[i].orders[j]).kind.is_stop() by {}
    assert forall|i: int, j: int| 0 <= i < b.asks.len() && 0 <= j < b.asks[i].orders.len() implies !(
    #[trigger] b.asks[i].orders[j]).kind.is_stop() by {}
    lemma_place_levels(e, Side::Buy, b.bids);
    let e1 = with_own(e, Side::Buy, b.bids);
    lemma_place_levels(e1, Side::Sell, b.asks);
    let e2 = with_own(e1, Side::Sell, b.asks);
    lemma_place_stops(e2, Side::Buy, b.stop_buys);
    let e3 = BookView { stop_buys: b.stop_buys, ..e2 };
    lemma_place_stops(e3, Side::Sell, b.stop_sells);
}

} // verus!
