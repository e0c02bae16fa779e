use vstd::prelude::*;
use std::collections::VecDeque;
use crate::types::{OrderId, Price, Qty, SeqNo, Side, SymbolId};
use crate::index::IdIndex;
use crate::order::Order;

verus! {

/// Where the book holds an order: the side and the price of its level, or, for a stop
/// order waiting for its trigger, the side and its stop price.
#[derive(Debug, Clone, Copy, PartialEq, Eq, Structural)]
pub struct Location {
    pub price: Price,
    pub side: Side,
    pub waiting: bool,
}

/// Top-of-book depth: `(price, open quantity)` per level, best level first.
#[derive(Debug, Clone)]
pub struct BookSnapshot {
    pub bids: Vec<(Price, Qty)>,
    pub asks: Vec<(Price, Qty)>,
    pub last_trade: Option<Price>,
}

impl Default for BookSnapshot {
    fn default() -> (s: BookSnapshot)
        ensures
            s.bids@.len() == 0,
            s.asks@.len() == 0,
            s.last_trade is None,
    {
        BookSnapshot { bids: Vec::new(), asks: Vec::new(), last_trade: None }
    }
}

/// A stop order waiting for its trigger, by the slot it had in an arena.
#[derive(Debug, Clone, Copy)]
pub struct StopEntry {
    pub slot: usize,
}

/// All resting orders at one price, oldest first.
#[derive(Debug)]
pub struct Level {
    pub price: Price,
    pub total_qty: Qty,
    pub orders: VecDeque<Order>,
}

/// The mathematical value of a level.
pub struct LevelView {
    pub price: Price,
    pub total_qty: Qty,
    pub orders: Seq<Order>,
}

impl View for Level {
    type V = LevelView;

    open spec fn view(&self) -> LevelView {
        LevelView { price: self.price, total_qty: self.total_qty, orders: self.orders@ }
    }
}

/// The mathematical value of a book. Each side lists its levels from worst to best
/// price, so the best level is the last one: bids ascend in price, asks descend. Stop
/// orders are listed in the order in which they trigger: buy stops by ascending stop
/// price, sell stops by descending stop price, arrival order among equal stop prices.
pub struct BookView {
    pub bids: Seq<LevelView>,
    pub asks: Seq<LevelView>,
    pub stop_buys: Seq<Order>,
    pub stop_sells: Seq<Order>,
    pub last_trade: Option<Price>,
}

/// Sum of the open quantities of a sequence of orders.
pub open spec fn sum_remaining(s: Seq<Order>) -> int
    decreases s.len(),
{
    if s.len() == 0 {
        0
    } else {
        sum_remaining(s.drop_last()) + s.last().remaining
    }
}

/// Sum of the recorded level totals.
pub open spec fn levels_total(ls: Seq<LevelView>) -> int
    decreases ls.len(),
{
    if ls.len() == 0 {
        0
    } else {
        levels_total(ls.drop_last()) + ls.last().total_qty
    }
}

/// Sum of the open quantities of all orders queued in the levels.
pub open spec fn levels_orders_total(ls: Seq<LevelView>) -> int
    decreases ls.len(),
{
    if ls.len() == 0 {
        0
    } else {
        levels_orders_total(ls.drop_last()) + sum_remaining(ls.last().orders)
    }
}

/// `a` is a better price than `b` for an order resting on `side`.
pub open spec fn better(side: Side, a: Price, b: Price) -> bool {
    match side {
        Side::Buy => a > b,
        Side::Sell => a < b,
    }
}

/// A resting level of `side`: non-empty, its total equal to its orders' open quantity,
/// each order live, at the level price and on the level's side.
pub open spec fn wf_level(l: LevelView, side: Side) -> bool {
    &&& l.orders.len() > 0
    &&& l.total_qty == sum_remaining(l.orders)
    &&& forall|i: int|
        0 <= i < l.orders.len() ==> {
            &&& (#[trigger] l.orders[i]).remaining > 0
            &&& l.orders[i].price == l.price
            &&& l.orders[i].side == side
        }
}

/// Well-formed levels of one side, strictly improving towards the end.
pub open spec fn wf_levels(ls: Seq<LevelView>, side: Side) -> bool {
    &&& forall|i: int| 0 <= i < ls.len() ==> wf_level(#[trigger] ls[i], side)
    &&& forall|i: int, j: int|
        0 <= i < j < ls.len() ==> better(side, #[trigger] ls[j].price, #[trigger] ls[i].price)
}

/// Stops of one side, in trigger order.
pub open spec fn wf_stops(s: Seq<Order>, side: Side) -> bool {
    &&& forall|i: int|
        0 <= i < s.len() ==> (#[trigger] s[i]).side == side && s[i].kind.is_stop()
    &&& forall|i: int, j: int|
        0 <= i < j < s.len() ==> !better(side, #[trigger] s[i].stop_price, #[trigger] s[j].stop_price)
}

impl BookView {
    /// Number of waiting stop orders.
    pub open spec fn stop_count(self) -> nat {
        self.stop_buys.len() + self.stop_sells.len()
    }

    /// All open quantity the book holds, resting or waiting for a trigger.
    pub open spec fn qty_bound(self) -> int {
        levels_total(self.bids) + levels_total(self.asks) + sum_remaining(self.stop_buys)
            + sum_remaining(self.stop_sells)
    }

    /// Best bid strictly below best ask whenever both exist.
    pub open spec fn not_crossed(self) -> bool {
        self.bids.len() > 0 && self.asks.len() > 0 ==> self.bids.last().price
            < self.asks.last().price
    }

    pub open spec fn wf(self) -> bool {
        &&& wf_levels(self.bids, Side::Buy)
        &&& wf_levels(self.asks, Side::Sell)
        &&& wf_stops(self.stop_buys, Side::Buy)
        &&& wf_stops(self.stop_sells, Side::Sell)
        &&& self.not_crossed()
        &&& self.qty_bound() <= u64::MAX
    }

    /// Best level of a side as `(price, open quantity)`.
    pub open spec fn best(levels: Seq<LevelView>) -> Option<(Price, Qty)> {
        if levels.len() == 0 {
            None
        } else {
            Some((levels.last().price, levels.last().total_qty))
        }
    }

    /// The first `n` levels of a side, best first, as `(price, open quantity)`.
    pub open spec fn top(levels: Seq<LevelView>, n: nat) -> Seq<(Price, Qty)> {
        let k = if n < levels.len() {
            n as int
        } else {
            levels.len() as int
        };
        Seq::new(
            k as nat,
            |i: int| (levels[levels.len() - 1 - i].price, levels[levels.len() - 1 - i].total_qty),
        )
    }
}

/// A limit order book for one symbol.
pub struct OrderBook {
    pub symbol: SymbolId,
    pub tick: Price,
    pub bids: Vec<Level>,
    pub asks: Vec<Level>,
    pub stop_buys: VecDeque<Order>,
    pub stop_sells: VecDeque<Order>,
    pub last_trade: Option<Price>,
    pub seq: SeqNo,
    /// Where each held order is, by identifier.
    pub id_index: IdIndex,
}

impl View for OrderBook {
    type V = BookView;

    open spec fn view(&self) -> BookView {
        BookView {
            bids: self.bids@.map_values(|l: Level| l@),
            asks: self.asks@.map_values(|l: Level| l@),
            stop_buys: self.stop_buys@,
            stop_sells: self.stop_sells@,
            last_trade: self.last_trade,
        }
    }
}

impl OrderBook {
    /// No identifier is held twice, and the index maps exactly the held identifiers to
    /// where they are held.
    pub open spec fn indexed(&self) -> bool {
        &&& crate::ids::ids_unique(self@)
        &&& crate::index::index_ok(self.id_index@, self@)
    }

    /// An empty book.
    pub fn new(symbol: SymbolId, tick: Price) -> (b: OrderBook)
        ensures
            b.symbol == symbol,
            b.tick == tick,
            b.seq == 0,
            b@.bids.len() == 0,
            b@.asks.len() == 0,
            b@.stop_buys.len() == 0,
            b@.stop_sells.len() == 0,
            b@.last_trade is None,
            b@.wf(),
            b.indexed(),
    {
        let b = OrderBook {
            symbol,
            tick,
            bids: Vec::new(),
            asks: Vec::new(),
            stop_buys: VecDeque::new(),
            stop_sells: VecDeque::new(),
            last_trade: None,
            seq: 0,
            id_index: crate::index::index_new(),
        };
        assert(b@.bids =~= Seq::<LevelView>::empty());
        assert(b@.asks =~= Seq::<LevelView>::empty());
        assert forall|id: crate::types::OrderId| #[trigger] crate::ids::id_count(b@, id) <= 1 by {
            assert(crate::ids::count_levels(b@.bids, id) == 0);
            assert(crate::ids::count_levels(b@.asks, id) == 0);
            assert(crate::ids::count_in(b@.stop_buys, id) == 0);
            assert(crate::ids::count_in(b@.stop_sells, id) == 0);
        }
        b
    }

    /// Highest bid and its open quantity.
    pub fn best_bid(&self) -> (r: Option<(Price, Qty)>)
        ensures
            r == BookView::best(self@.bids),
    {
        let n = self.bids.len();
        if n == 0 {
            None
        } else {
            let l = &self.bids[n - 1];
            Some((l.price, l.total_qty))
        }
    }

    /// Lowest ask and its open quantity.
    pub fn best_ask(&self) -> (r: Option<(Price, Qty)>)
        ensures
            r == BookView::best(self@.asks),
    {
        let n = self.asks.len();
        if n == 0 {
            None
        } else {
            let l = &self.asks[n - 1];
            Some((l.price, l.total_qty))
        }
    }

    /// The best `levels` levels of each side.
    pub fn depth(&self, levels: usize) -> (s: BookSnapshot)
        ensures
            s.bids@ == BookView::top(self@.bids, levels as nat),
            s.asks@ == BookView::top(self@.asks, levels as nat),
            s.last_trade == self@.last_trade,
    {
        let bids = top_levels(&self.bids, levels);
        let asks = top_levels(&self.asks, levels);
        BookSnapshot { bids, asks, last_trade: self.last_trade }
    }

    /// True when the book is not crossed: best bid below best ask, or a side is empty.
    pub fn check_no_cross(&self) -> (r: bool)
        ensures
            r == self@.not_crossed(),
    {
        match (self.best_bid(), self.best_ask()) {
            (Some((bid, _)), Some((ask, _))) => bid < ask,
            _ => true,
        }
    }

    /// True when the open quantity of the queued orders equals the sum of the level
    /// totals, over both sides.
    pub fn check_qty_conservation(&self) -> (r: bool)
        requires
            levels_orders_total(self@.bids) + levels_orders_total(self@.asks) <= u64::MAX,
            levels_total(self@.bids) + levels_total(self@.asks) <= u64::MAX,
        ensures
            r == (levels_orders_total(self@.bids) + levels_orders_total(self@.asks)
                == levels_total(self@.bids) + levels_total(self@.asks)),
    {
        proof {
            lemma_levels_sums_nonneg(self@.bids);
            lemma_levels_sums_nonneg(self@.asks);
        }
        let bid_orders = orders_total(&self.bids);
        let ask_orders = orders_total(&self.asks);
        let bid_total = totals_sum(&self.bids);
        let ask_total = totals_sum(&self.asks);
        bid_orders + ask_orders == bid_total + ask_total
    }
}

pub proof fn lemma_sum_remaining_nonneg(s: Seq<Order>)
    ensures
        sum_remaining(s) >= 0,
    decreases s.len(),
{
    if s.len() > 0 {
        lemma_sum_remaining_nonneg(s.drop_last());
    }
}

pub proof fn lemma_levels_sums_nonneg(ls: Seq<LevelView>)
    ensures
        levels_total(ls) >= 0,
        levels_orders_total(ls) >= 0,
    decreases ls.len(),
{
    if ls.len() > 0 {
        lemma_levels_sums_nonneg(ls.drop_last());
        lemma_sum_remaining_nonneg(ls.last().orders);
    }
}

fn top_levels(levels: &Vec<Level>, n: usize) -> (r: Vec<(Price, Qty)>)
    ensures
        r@ == BookView::top(levels@.map_values(|l: Level| l@), n as nat),
{
    let len = levels.len();
    let k = if n < len {
        n
    } else {
        len
    };
    let mut r: Vec<(Price, Qty)> = Vec::new();
    let mut i: usize = 0;
    while i < k
        invariant
            k <= len == levels@.len(),
            i <= k,
            r@.len() == i,
            forall|j: int|
                0 <= j < i ==> r@[j] == (levels@[len - 1 - j].price, levels@[len - 1 - j].total_qty),
        decreases k - i,
    {
        let l = &levels[len - 1 - i];
        r.push((l.price, l.total_qty));
        i = i + 1;
    }
    assert(r@ =~= BookView::top(levels@.map_values(|l: Level| l@), n as nat));
    r
}

fn orders_total(levels: &Vec<Level>) -> (t: u64)
    requires
        levels_orders_total(levels@.map_values(|l: Level| l@)) <= u64::MAX,
    ensures
        t == levels_orders_total(levels@.map_values(|l: Level| l@)),
{
    let ghost ls = levels@.map_values(|l: Level| l@);
    let mut t: u64 = 0;
    let mut i: usize = 0;
    while i < levels.len()
        invariant
            ls == levels@.map_values(|l: Level| l@),
            levels_orders_total(ls) <= u64::MAX,
            i <= levels@.len(),
            t == levels_orders_total(ls.take(i as int)),
        decreases levels@.len() - i,
    {
        proof {
            assert(ls.take(i as int + 1).drop_last() =~= ls.take(i as int));
            lemma_levels_orders_total_prefix(ls, i as int + 1);
        }
        let s = level_orders_total(&levels[i]);
        t = t + s;
        i = i + 1;
    }
    assert(ls.take(i as int) =~= ls);
    t
}

fn level_orders_total(l: &Level) -> (t: u64)
    requires
        sum_remaining(l.orders@) <= u64::MAX,
    ensures
        t == sum_remaining(l.orders@),
{
    queue_total(&l.orders)
}

/// Open quantity of a queue of orders.
fn queue_total(q: &VecDeque<Order>) -> (t: u64)
    requires
        sum_remaining(q@) <= u64::MAX,
    ensures
        t == sum_remaining(q@),
{
    let mut t: u64 = 0;
    let mut i: usize = 0;
    while i < q.len()
        invariant
            sum_remaining(q@) <= u64::MAX,
            i <= q@.len(),
            t == sum_remaining(q@.take(i as int)),
        decreases q@.len() - i,
    {
        proof {
            assert(q@.take(i as int + 1).drop_last() =~= q@.take(i as int));
            lemma_sum_remaining_prefix(q@, i as int + 1);
        }
        t = t + q[i].remaining;
        i = i + 1;
    }
    assert(q@.take(i as int) =~= q@);
    t
}

impl OrderBook {
    /// All open quantity the book holds, resting or waiting for a trigger.
    pub(crate) fn open_qty(&self) -> (r: u64)
        requires
            self@.wf(),
        ensures
            r == self@.qty_bound(),
    {
        proof {
            lemma_levels_sums_nonneg(self@.bids);
            lemma_levels_sums_nonneg(self@.asks);
            lemma_sum_remaining_nonneg(self@.stop_buys);
            lemma_sum_remaining_nonneg(self@.stop_sells);
        }
        let b = totals_sum(&self.bids);
        let a = totals_sum(&self.asks);
        let sb = queue_total(&self.stop_buys);
        let ss = queue_total(&self.stop_sells);
        b + a + sb + ss
    }
}

fn totals_sum(levels: &Vec<Level>) -> (t: u64)
    requires
        levels_total(levels@.map_values(|l: Level| l@)) <= u64::MAX,
    ensures
        t == levels_total(levels@.map_values(|l: Level| l@)),
{
    let ghost ls = levels@.map_values(|l: Level| l@);
    let mut t: u64 = 0;
    let mut i: usize = 0;
    while i < levels.len()
        invariant
            ls == levels@.map_values(|l: Level| l@),
            levels_total(ls) <= u64::MAX,
            i <= levels@.len(),
            t == levels_total(ls.take(i as int)),
        decreases levels@.len() - i,
    {
        proof {
            assert(ls.take(i as int + 1).drop_last() =~= ls.take(i as int));
            lemma_levels_total_prefix(ls, i as int + 1);
        }
        t = t + levels[i].total_qty;
        i = i + 1;
    }
    assert(ls.take(i as int) =~= ls);
    t
}

/// A prefix sums to no more than the whole.
pub proof fn lemma_sum_remaining_prefix(s: Seq<Order>, k: int)
    requires
        0 <= k <= s.len(),
    ensures
        sum_remaining(s.take(k)) <= sum_remaining(s),
    decreases s.len(),
{
    if k < s.len() {
        assert(s.drop_last().take(k) =~= s.take(k));
        lemma_sum_remaining_prefix(s.drop_last(), k);
    } else {
        assert(s.take(k) =~= s);
    }
}

pub proof fn lemma_levels_total_prefix(ls: Seq<LevelView>, k: int)
    requires
        0 <= k <= ls.len(),
    ensures
        levels_total(ls.take(k)) <= levels_total(ls),
    decreases ls.len(),
{
    if k < ls.len() {
        assert(ls.drop_last().take(k) =~= ls.take(k));
        lemma_levels_total_prefix(ls.drop_last(), k);
    } else {
        assert(ls.take(k) =~= ls);
    }
}

pub proof fn lemma_levels_orders_total_prefix(ls: Seq<LevelView>, k: int)
    requires
        0 <= k <= ls.len(),
    ensures
        levels_orders_total(ls.take(k)) <= levels_orders_total(ls),
    decreases ls.len(),
{
    if k < ls.len() {
        assert(ls.drop_last().take(k) =~= ls.take(k));
        lemma_levels_orders_total_prefix(ls.drop_last(), k);
        lemma_sum_remaining_nonneg(ls.last().orders);
    } else {
        assert(ls.take(k) =~= ls);
    }
}

} // verus!
