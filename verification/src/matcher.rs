use vstd::prelude::*;
use crate::types::{OrderType, Price, SeqNo, Side, Ts};
use crate::order::Order;
use crate::events::{Command, NewOrder, OutputEvent, Sequenced};
use crate::types::{Qty, RejectReason};
use crate::book::{Level, LevelView, levels_total};
use std::collections::VecDeque;
use crate::book::better;
use crate::types::OrderId;
use crate::book::{OrderBook, BookView};
use crate::index::{
    filled_in, is_fill_of, lemma_filled_in_head, index_remove, index_insert, index_contains,
    index_get, IdIndex, lemma_held_level, lemma_level_price_holds, lemma_index_after_match,
    lemma_index_after_rest, lemma_index_after_stop, lemma_index_after_remove,
};
use crate::ids::{id_count, lemma_has_id_count, lemma_level_of_id_count, lemma_index_of_id_count};
use crate::book::Location;
use crate::lemmas::{lemma_after_match, lemma_remove_at, lemma_level_bound, lemma_stop_insert, lemma_stops_remove};
use crate::model::{apply_new_spec, apply_spec, cancel_spec, replace_spec, drain_buys, drain_sells, after_match, match_events, closing_events, opp_levels, own_levels, with_opp, with_own, order_of, triggered, add_stop, index_of_id, is_first_id, is_first_level, level_of_id, locate_spec, Loc, order_at, remove_at, remove_from_levels, available_spec, crosses, match_spec, min_qty, rest_spec, sat_sub, stop_insert, within_limit};

verus! {

/// The views of a vector of levels.
pub open spec fn levels_view(v: Seq<Level>) -> Seq<LevelView> {
    v.map_values(|l: Level| l@)
}

fn within_limit_exec(side: Side, limit: Price, p: Price) -> (r: bool)
    ensures
        r == within_limit(side, limit, p),
{
    match side {
        Side::Buy => p <= limit,
        Side::Sell => p >= limit,
    }
}

fn crosses_exec(kind: OrderType, side: Side, limit: Price, p: Price) -> (r: bool)
    ensures
        r == crosses(kind, side, limit, p),
{
    matches!(kind, OrderType::Market) || within_limit_exec(side, limit, p)
}

/// Match `taker` against the other side's levels `opp` (best level last), taking the
/// makers it fills out of `index`.
fn match_levels(
    opp: &mut Vec<Level>,
    taker: Order,
    seq: SeqNo,
    ts: Ts,
    last: &mut Option<Price>,
    out: &mut Vec<OutputEvent>,
    index: &mut IdIndex,
) -> (t: Order)
    ensures
        forall|id: OrderId|
            #[trigger] final(index)@.contains_key(id) == (old(index)@.contains_key(id) && !filled_in(
                match_spec(levels_view(old(opp)@), taker, seq, ts, *old(last)).events,
                id,
            )),
        forall|id: OrderId|
            #[trigger] final(index)@.contains_key(id) ==> final(index)@[id] == old(index)@[id],
        levels_view(final(opp)@) == match_spec(levels_view(old(opp)@), taker, seq, ts, *old(last)).opp,
        t == match_spec(levels_view(old(opp)@), taker, seq, ts, *old(last)).taker,
        *final(last) == match_spec(levels_view(old(opp)@), taker, seq, ts, *old(last)).last_trade,
        final(out)@ == old(out)@ + match_spec(
            levels_view(old(opp)@),
            taker,
            seq,
            ts,
            *old(last),
        ).events,
{
    let ghost target = match_spec(levels_view(opp@), taker, seq, ts, *last);
    let ghost out0 = out@;
    let ghost index0 = index@;
    let ghost mut done: Seq<OutputEvent> = Seq::empty();
    let mut taker = taker;
    assert(out@ =~= out0 + done);
    loop
        invariant_except_break
            match_spec(levels_view(opp@), taker, seq, ts, *last).opp == target.opp,
            match_spec(levels_view(opp@), taker, seq, ts, *last).taker == target.taker,
            match_spec(levels_view(opp@), taker, seq, ts, *last).last_trade == target.last_trade,
            done + match_spec(levels_view(opp@), taker, seq, ts, *last).events == target.events,
            out@ == out0 + done,
            forall|id: OrderId|
                #[trigger] index@.contains_key(id) == (index0.contains_key(id) && !filled_in(done, id)),
            forall|id: OrderId| #[trigger] index@.contains_key(id) ==> index@[id] == index0[id],
        ensures
            levels_view(opp@) == target.opp,
            taker == target.taker,
            *last == target.last_trade,
            out@ == out0 + target.events,
            done == target.events,
            forall|id: OrderId|
                #[trigger] index@.contains_key(id) == (index0.contains_key(id) && !filled_in(done, id)),
            forall|id: OrderId| #[trigger] index@.contains_key(id) ==> index@[id] == index0[id],
        decreases opp@.len(), levels_view(opp@).last().orders.len(), taker.remaining,
    {
        let ghost cur_opp = levels_view(opp@);
        let ghost cur_taker = taker;
        let ghost cur_last = *last;
        let ghost cur_out = out@;
        let ghost cur_index = index@;
        let n = opp.len();
        if taker.remaining == 0 || n == 0 {
            assert(done + Seq::<OutputEvent>::empty() =~= done);
            break;
        }
        let lp = opp[n - 1].price;
        if opp[n - 1].orders.len() == 0 || !crosses_exec(taker.kind, taker.side, taker.price, lp) {
            assert(done + Seq::<OutputEvent>::empty() =~= done);
            break;
        }
        let mut lvl = opp.pop().unwrap();
        assert(levels_view(opp@) =~= cur_opp.drop_last());
        assert(lvl@ == cur_opp.last());
        let maker = lvl.orders.pop_front().unwrap();
        let q = if taker.remaining <= maker.remaining {
            taker.remaining
        } else {
            maker.remaining
        };
        assert(q == min_qty(cur_taker.remaining, maker.remaining));
        taker.remaining = taker.remaining - q;
        let maker_left = maker.remaining - q;
        *last = Some(lp);
        out.push(
            OutputEvent::Trade {
                seq,
                taker: taker.id,
                maker: maker.id,
                price: lp,
                qty: q,
                side: taker.side,
                ts,
            },
        );
        let popped = lvl.total_qty.saturating_sub(maker.remaining);
        assert(popped == sat_sub(cur_opp.last().total_qty, maker.remaining));
        if maker_left == 0 {
            out.push(OutputEvent::Filled { id: maker.id, seq });
            index_remove(index, maker.id);
            lvl.total_qty = popped;
            if lvl.orders.len() > 0 {
                opp.push(lvl);
                assert(levels_view(opp@) =~= cur_opp.update(
                    cur_opp.len() - 1,
                    LevelView {
                        price: lp,
                        total_qty: popped,
                        orders: cur_opp.last().orders.drop_first(),
                    },
                ));
            }
        } else {
            out.push(
                OutputEvent::PartiallyFilled { id: maker.id, filled: q, remaining: maker_left, seq },
            );
            let maker2 = Order { remaining: maker_left, ..maker };
            lvl.orders.push_front(maker2);
            lvl.total_qty = popped + maker_left;
            opp.push(lvl);
            assert(lvl.orders@ =~= cur_opp.last().orders.update(0, maker2));
            assert(levels_view(opp@) =~= cur_opp.update(
                cur_opp.len() - 1,
                LevelView {
                    price: lp,
                    total_qty: (popped + maker_left) as u64,
                    orders: cur_opp.last().orders.update(0, maker2),
                },
            ));
        }
        let ghost head = seq![out@[cur_out.len() as int], out@[cur_out.len() + 1int]];
        assert(out@ =~= cur_out + head);
        assert(head + match_spec(levels_view(opp@), taker, seq, ts, *last).events =~= match_spec(
            cur_opp,
            cur_taker,
            seq,
            ts,
            cur_last,
        ).events);
        proof {
            let old_done = done;
            done = done + head;
            assert(done + match_spec(levels_view(opp@), taker, seq, ts, *last).events =~= old_done + (
            head + match_spec(levels_view(opp@), taker, seq, ts, *last).events));
            assert(out@ =~= out0 + done);
            assert forall|id: OrderId| #[trigger] filled_in(head, id) == (maker_left == 0 && id == maker.id) by {
                if filled_in(head, id) {
                    let i = choose|i: int| 0 <= i < head.len() && #[trigger] is_fill_of(head[i], id);
                    assert(i == 1);
                }
                if maker_left == 0 && id == maker.id {
                    assert(is_fill_of(head[1], id));
                }
            }
            assert forall|id: OrderId| #[trigger] index@.contains_key(id) == (index0.contains_key(id)
                && !filled_in(done, id)) by {
                lemma_filled_in_head(old_done, head, id);
            }
        }
    }
    taker
}


fn better_exec(side: Side, a: Price, b: Price) -> (r: bool)
    ensures
        r == better(side, a, b),
{
    match side {
        Side::Buy => a > b,
        Side::Sell => a < b,
    }
}

/// Rest `o` in its side's levels (best level last).
fn rest_levels(levels: &mut Vec<Level>, o: Order)
    requires
        levels_total(levels_view(old(levels)@)) + o.remaining <= u64::MAX,
    ensures
        levels_view(final(levels)@) == rest_spec(levels_view(old(levels)@), o),
{
    let ghost ls = levels_view(levels@);
    proof {
        lemma_level_bound(ls, o.remaining as int);
    }
    let mut i = levels.len();
    assert(ls.take(i as int) =~= ls);
    assert(rest_spec(ls, o) + ls.skip(i as int) =~= rest_spec(ls, o));
    while i > 0 && better_exec(o.side, levels[i - 1].price, o.price)
        invariant
            ls == levels_view(levels@),
            i <= levels@.len(),
            rest_spec(ls, o) == rest_spec(ls.take(i as int), o) + ls.skip(i as int),
        decreases i,
    {
        proof {
            let k = i as int - 1;
            let l = ls[k];
            assert(ls.take(k + 1).drop_last() =~= ls.take(k));
            assert(ls.take(k + 1).last() == l);
            assert(rest_spec(ls.take(k + 1), o) == rest_spec(ls.take(k), o).push(l));
            assert(rest_spec(ls.take(k), o).push(l) + ls.skip(k + 1) =~= rest_spec(ls.take(k), o)
                + ls.skip(k));
        }
        i = i - 1;
    }
    if i > 0 && levels[i - 1].price == o.price {
        let mut l = levels.remove(i - 1);
        proof {
            assert(ls.take(i as int).drop_last() =~= ls.take(i - 1));
            assert(ls.take(i as int).last() == ls[i - 1]);
        }
        l.total_qty = l.total_qty + o.remaining;
        l.orders.push_back(o);
        levels.insert(i - 1, l);
        assert(levels_view(levels@) =~= rest_spec(ls.take(i as int), o) + ls.skip(i as int));
    } else {
        let mut q: VecDeque<Order> = VecDeque::new();
        q.push_back(o);
        let l = Level { price: o.price, total_qty: o.remaining, orders: q };
        assert(l@.orders =~= seq![o]);
        levels.insert(i, l);
        proof {
            if i > 0 {
                assert(ls.take(i as int).drop_last() =~= ls.take(i - 1));
                assert(ls.take(i as int).last() == ls[i - 1]);
            } else {
                assert(ls.take(0) =~= Seq::<LevelView>::empty());
            }
        }
        assert(levels_view(levels@) =~= rest_spec(ls.take(i as int), o) + ls.skip(i as int));
    }
}

/// Queue stop order `o` in its side's trigger list.
pub(crate) fn insert_stop(stops: &mut VecDeque<Order>, o: Order)
    ensures
        final(stops)@ == stop_insert(old(stops)@, o),
{
    let ghost s = stops@;
    let mut i = stops.len();
    assert(s.take(i as int) =~= s);
    assert(stop_insert(s, o) + s.skip(i as int) =~= stop_insert(s, o));
    while i > 0 && better_exec(o.side, stops[i - 1].stop_price, o.stop_price)
        invariant
            s == stops@,
            i <= stops@.len(),
            stop_insert(s, o) == stop_insert(s.take(i as int), o) + s.skip(i as int),
        decreases i,
    {
        proof {
            let k = i as int - 1;
            assert(s.take(k + 1).drop_last() =~= s.take(k));
            assert(s.take(k + 1).last() == s[k]);
            assert(stop_insert(s.take(k), o).push(s[k]) + s.skip(k + 1) =~= stop_insert(s.take(k), o)
                + s.skip(k));
        }
        i = i - 1;
    }
    stops.insert(i, o);
    proof {
        if i == 0 {
            assert(s.take(0) =~= Seq::<Order>::empty());
        }
    }
    assert(stops@ =~= stop_insert(s.take(i as int), o) + s.skip(i as int));
}

/// Open quantity of `opp` within `limit` for a taker on `side`, saturating at the
/// largest quantity.
fn available_qty(opp: &Vec<Level>, side: Side, limit: Price) -> (t: u64)
    ensures
        t == (if available_spec(levels_view(opp@), side, limit) <= u64::MAX {
            available_spec(levels_view(opp@), side, limit)
        } else {
            u64::MAX as int
        }),
{
    let ghost ls = levels_view(opp@);
    let ghost mut partial: int = 0;
    let mut total: u64 = 0;
    let mut i = opp.len();
    assert(ls.take(i as int) =~= ls);
    while i > 0 && within_limit_exec(side, limit, opp[i - 1].price)
        invariant
            ls == levels_view(opp@),
            i <= opp@.len(),
            partial >= 0,
            available_spec(ls, side, limit) == partial + available_spec(ls.take(i as int), side, limit),
            total == (if partial <= u64::MAX {
                partial
            } else {
                u64::MAX as int
            }),
        decreases i,
    {
        proof {
            let k = i as int - 1;
            assert(ls.take(k + 1).drop_last() =~= ls.take(k));
            assert(ls.take(k + 1).last() == ls[k]);
            partial = partial + ls[k].total_qty;
        }
        total = total.saturating_add(opp[i - 1].total_qty);
        i = i - 1;
    }
    proof {
        if i == 0 {
            assert(ls.take(0) =~= Seq::<LevelView>::empty());
        } else {
            assert(ls.take(i as int).last() == ls[i - 1]);
        }
    }
    total
}


/// The indices of a location lie within the book.
pub open spec fn loc_valid(b: crate::book::BookView, loc: Loc) -> bool {
    match loc {
        Loc::Bid { level, pos } => level < b.bids.len() && pos < b.bids[level as int].orders.len(),
        Loc::Ask { level, pos } => level < b.asks.len() && pos < b.asks[level as int].orders.len(),
        Loc::StopBuy { pos } => pos < b.stop_buys.len(),
        Loc::StopSell { pos } => pos < b.stop_sells.len(),
    }
}

proof fn lemma_first_id(s: Seq<Order>, id: OrderId, i: int)
    requires
        is_first_id(s, id, i),
    ensures
        index_of_id(s, id) == Some(i),
{
    let c = choose|c: int| is_first_id(s, id, c);
    assert(is_first_id(s, id, c));
    if c < i {
        assert(s[c].id == id);
    } else if c > i {
        assert(s[i].id == id);
    }
}

/// Position of the first order with identifier `id`.
fn find_id(s: &VecDeque<Order>, id: OrderId) -> (r: Option<usize>)
    ensures
        match r {
            Some(i) => index_of_id(s@, id) == Some(i as int) && i < s@.len(),
            None => index_of_id(s@, id) is None,
        },
{
    let mut i: usize = 0;
    while i < s.len()
        invariant
            i <= s@.len(),
            forall|j: int| 0 <= j < i ==> (#[trigger] s@[j]).id != id,
        decreases s@.len() - i,
    {
        if s[i].id == id {
            proof {
                lemma_first_id(s@, id, i as int);
            }
            return Some(i);
        }
        i = i + 1;
    }
    proof {
        if exists|c: int| is_first_id(s@, id, c) {
            let c = choose|c: int| is_first_id(s@, id, c);
            assert(s@[c].id == id);
        }
    }
    None
}

/// Take order `pi` out of level `li`.
fn remove_in_levels(levels: &mut Vec<Level>, li: usize, pi: usize) -> (o: Order)
    requires
        li < old(levels)@.len(),
        pi < old(levels)@[li as int].orders@.len(),
    ensures
        levels_view(final(levels)@) == remove_from_levels(levels_view(old(levels)@), li as int, pi as int),
        o == levels_view(old(levels)@)[li as int].orders[pi as int],
{
    let ghost ls = levels_view(levels@);
    let mut l = levels.remove(li);
    assert(l@ == ls[li as int]);
    let o = l.orders.remove(pi).unwrap();
    l.total_qty = l.total_qty.saturating_sub(o.remaining);
    if l.orders.len() > 0 {
        levels.insert(li, l);
        assert(levels_view(levels@) =~= remove_from_levels(ls, li as int, pi as int));
    } else {
        assert(levels_view(levels@) =~= remove_from_levels(ls, li as int, pi as int));
    }
    o
}

/// Position of the level priced `price`, if there is one.
fn find_level(levels: &Vec<Level>, price: Price) -> (r: Option<usize>)
    ensures
        match r {
            Some(i) => i < levels@.len() && levels@[i as int].price == price,
            None => forall|i: int| 0 <= i < levels@.len() ==> (#[trigger] levels@[i]).price != price,
        },
{
    let mut i: usize = 0;
    while i < levels.len()
        invariant
            i <= levels@.len(),
            forall|j: int| 0 <= j < i ==> (#[trigger] levels@[j]).price != price,
        decreases levels@.len() - i,
    {
        if levels[i].price == price {
            return Some(i);
        }
        i = i + 1;
    }
    None
}

impl OrderBook {
    /// Where the order with identifier `id` is held, if anywhere: the index gives its side
    /// and price (or stop price), the level or stop list there its position.
    fn locate(&self, id: OrderId) -> (r: Option<Loc>)
        requires
            self@.wf(),
            self.indexed(),
        ensures
            r == locate_spec(self@, id),
            r matches Some(loc) ==> loc_valid(self@, loc),
    {
        let ghost b = self@;
        proof {
            lemma_has_id_count(b, id);
            lemma_level_of_id_count(b.bids, id);
            lemma_level_of_id_count(b.asks, id);
            lemma_index_of_id_count(b.stop_buys, id);
            lemma_index_of_id_count(b.stop_sells, id);
        }
        match index_get(&self.id_index, id) {
            None => None,
            Some(at) => {
                proof {
                    assert(self.id_index@.contains_key(id));
                    assert(id_count(b, id) <= 1);
                }
                if !at.waiting {
                    match at.side {
                        Side::Buy => {
                            match find_level(&self.bids, at.price) {
                                Some(li) => {
                                    proof {
                                        lemma_held_level(b.bids, Side::Buy, id, li as int);
                                        assert(b.bids[li as int].orders == self.bids@[li as int].orders@);
                                    }
                                    match find_id(&self.bids[li].orders, id) {
                                        Some(pi) => Some(Loc::Bid { level: li, pos: pi }),
                                        None => None,
                                    }
                                },
                                None => {
                                    proof {
                                        lemma_level_price_holds(b.bids, id);
                                    }
                                    None
                                },
                            }
                        },
                        Side::Sell => {
                            match find_level(&self.asks, at.price) {
                                Some(li) => {
                                    proof {
                                        lemma_held_level(b.asks, Side::Sell, id, li as int);
                                        assert(b.asks[li as int].orders == self.asks@[li as int].orders@);
                                    }
                                    match find_id(&self.asks[li].orders, id) {
                                        Some(pi) => Some(Loc::Ask { level: li, pos: pi }),
                                        None => None,
                                    }
                                },
                                None => {
                                    proof {
                                        lemma_level_price_holds(b.asks, id);
                                    }
                                    None
                                },
                            }
                        },
                    }
                } else {
                    match at.side {
                        Side::Buy => match find_id(&self.stop_buys, id) {
                            Some(p) => Some(Loc::StopBuy { pos: p }),
                            None => None,
                        },
                        Side::Sell => match find_id(&self.stop_sells, id) {
                            Some(p) => Some(Loc::StopSell { pos: p }),
                            None => None,
                        },
                    }
                }
            },
        }
    }

    /// Take the order at `loc` out of the book.
    fn remove_loc(&mut self, loc: Loc) -> (o: Order)
        requires
            loc_valid(old(self)@, loc),
        ensures
            final(self)@ == remove_at(old(self)@, loc),
            o == order_at(old(self)@, loc),
            final(self).symbol == old(self).symbol,
            final(self).tick == old(self).tick,
            final(self).seq == old(self).seq,
            final(self).id_index == old(self).id_index,
    {
        match loc {
            Loc::Bid { level, pos } => remove_in_levels(&mut self.bids, level, pos),
            Loc::Ask { level, pos } => remove_in_levels(&mut self.asks, level, pos),
            Loc::StopBuy { pos } => self.stop_buys.remove(pos).unwrap(),
            Loc::StopSell { pos } => self.stop_sells.remove(pos).unwrap(),
        }
    }
}


pub(crate) fn is_stop_exec(kind: OrderType) -> (r: bool)
    ensures
        r == kind.is_stop(),
{
    matches!(kind, OrderType::StopMarket | OrderType::StopLimit)
}

fn needs_price_exec(kind: OrderType) -> (r: bool)
    ensures
        r == kind.needs_price(),
{
    matches!(kind, OrderType::Limit | OrderType::Ioc | OrderType::Fok | OrderType::StopLimit)
}

fn triggered_exec(o: Order) -> (no: NewOrder)
    ensures
        no == triggered(o),
{
    NewOrder {
        id: o.id,
        symbol: o.symbol,
        side: o.side,
        kind: if matches!(o.kind, OrderType::StopMarket) {
            OrderType::Market
        } else {
            OrderType::Limit
        },
        tif: o.tif,
        price: o.price,
        stop_price: 0,
        qty: o.remaining,
    }
}

/// The open quantity a command may bring into the book.
pub open spec fn incoming_qty(cmd: Command) -> int {
    match cmd {
        Command::New(no) => no.qty as int,
        Command::Cancel { .. } => 0,
        Command::Replace { new_qty, .. } => new_qty as int,
    }
}

pub(crate) fn incoming_qty_exec(cmd: &Command) -> (r: u64)
    ensures
        r == incoming_qty(*cmd),
{
    match cmd {
        Command::New(no) => no.qty,
        Command::Cancel { .. } => 0,
        Command::Replace { new_qty, .. } => *new_qty,
    }
}

/// Apply one sequenced command to the book, appending the resulting events to `out`.
/// The result is a function of the book's value and the command alone.
pub fn apply(book: &mut OrderBook, cmd: &Sequenced, out: &mut Vec<OutputEvent>)
    requires
        old(book)@.wf(),
        old(book).indexed(),
        old(book)@.qty_bound() + incoming_qty(cmd.cmd) <= u64::MAX,
    ensures
        final(book)@ == apply_spec(old(book)@, *cmd).0,
        final(out)@ == old(out)@ + apply_spec(old(book)@, *cmd).1,
        final(book)@.wf(),
        final(book).indexed(),
        final(book).symbol == old(book).symbol,
        final(book).tick == old(book).tick,
        final(book).seq == old(book).seq,
{
    match cmd.cmd {
        Command::New(no) => book.apply_new(no, cmd.seq, cmd.ts, out),
        Command::Cancel { id, .. } => book.apply_cancel(id, cmd.seq, out),
        Command::Replace { id, new_price, new_qty, .. } => book.apply_replace(
            id,
            new_price,
            new_qty,
            cmd.seq,
            cmd.ts,
            out,
        ),
    }
}

impl OrderBook {
    fn apply_new(&mut self, no: NewOrder, seq: SeqNo, ts: Ts, out: &mut Vec<OutputEvent>)
        requires
            old(self)@.wf(),
            old(self).indexed(),
            old(self)@.qty_bound() + no.qty <= u64::MAX,
        ensures
            final(self)@ == apply_new_spec(old(self)@, no, seq, ts).0,
            final(out)@ == old(out)@ + apply_new_spec(old(self)@, no, seq, ts).1,
            final(self)@.wf(),
            final(self).indexed(),
            final(self)@.qty_bound() <= old(self)@.qty_bound() + no.qty,
            !no.kind.is_stop() ==> final(self)@.stop_count() <= old(self)@.stop_count(),
            final(self).symbol == old(self).symbol,
            final(self).tick == old(self).tick,
            final(self).seq == old(self).seq,
        decreases old(self)@.stop_count(), 2nat,
    {
        let ghost b = self@;
        if no.qty == 0 {
            out.push(OutputEvent::Rejected { id: no.id, reason: RejectReason::ZeroQty, seq });
            return;
        }
        proof {
            lemma_has_id_count(b, no.id);
        }
        if index_contains(&self.id_index, no.id) {
            out.push(OutputEvent::Rejected { id: no.id, reason: RejectReason::DuplicateId, seq });
            return;
        }
        if needs_price_exec(no.kind) && no.price <= 0 {
            out.push(OutputEvent::Rejected { id: no.id, reason: RejectReason::BadPrice, seq });
            return;
        }
        if is_stop_exec(no.kind) {
            self.park_stop(no, seq, ts);
            out.push(OutputEvent::Accepted { id: no.id, seq });
            return;
        }
        out.push(OutputEvent::Accepted { id: no.id, seq });
        if matches!(no.kind, OrderType::Fok) {
            let avail = match no.side {
                Side::Buy => available_qty(&self.asks, no.side, no.price),
                Side::Sell => available_qty(&self.bids, no.side, no.price),
            };
            if avail < no.qty {
                out.push(
                    OutputEvent::Rejected { id: no.id, reason: RejectReason::FokUnfillable, seq },
                );
                return;
            }
        }
        let ghost out1 = out@;
        self.fill(no, seq, ts, out);
        assert(out@ =~= old(out)@ + match_events(b, no, seq, ts));
        match self.last_trade {
            None => {},
            Some(last) => {
                self.drain_stop_buys(last, seq, ts, Ghost(b.stop_count()), out);
                self.drain_stop_sells(last, seq, ts, Ghost(b.stop_count()), out);
                assert(out@ =~= old(out)@ + apply_new_spec(b, no, seq, ts).1);
            },
        }
    }

    fn park_stop(&mut self, no: NewOrder, seq: SeqNo, ts: Ts)
        requires
            old(self)@.wf(),
            old(self).indexed(),
            id_count(old(self)@, no.id) == 0,
            old(self)@.qty_bound() + no.qty <= u64::MAX,
            no.kind.is_stop(),
        ensures
            final(self)@ == add_stop(old(self)@, order_of(no, seq, ts)),
            final(self)@.wf(),
            final(self).indexed(),
            final(self)@.qty_bound() == old(self)@.qty_bound() + no.qty,
            final(self).symbol == old(self).symbol,
            final(self).tick == old(self).tick,
            final(self).seq == old(self).seq,
    {
        let ghost b = self@;
        let o = Order::new(
            no.id,
            no.symbol,
            no.side,
            no.kind,
            no.tif,
            no.price,
            no.stop_price,
            no.qty,
            seq,
            ts,
        );
        match no.side {
            Side::Buy => {
                proof {
                    lemma_stop_insert(b.stop_buys, o);
                }
                insert_stop(&mut self.stop_buys, o);
            },
            Side::Sell => {
                proof {
                    lemma_stop_insert(b.stop_sells, o);
                }
                insert_stop(&mut self.stop_sells, o);
            },
        }
        assert(self@ == add_stop(b, o));
        let ghost idx0 = self.id_index@;
        index_insert(&mut self.id_index, no.id, Location { price: no.stop_price, side: no.side, waiting: true });
        proof {
            lemma_index_after_stop(b, idx0, o);
        }
    }

    /// Match a new order and close it: fill, rest or cancel its remainder.
    fn fill(&mut self, no: NewOrder, seq: SeqNo, ts: Ts, out: &mut Vec<OutputEvent>)
        requires
            old(self)@.wf(),
            old(self).indexed(),
            id_count(old(self)@, no.id) == 0,
            old(self)@.qty_bound() + no.qty <= u64::MAX,
            !no.kind.is_stop(),
            no.qty > 0,
        ensures
            final(self).indexed(),
            final(self)@ == after_match(old(self)@, no, seq, ts),
            final(out)@ == old(out)@ + crate::model::match_spec(
                opp_levels(old(self)@, no.side),
                order_of(no, seq, ts),
                seq,
                ts,
                old(self)@.last_trade,
            ).events + closing_events(
                no,
                crate::model::match_spec(
                    opp_levels(old(self)@, no.side),
                    order_of(no, seq, ts),
                    seq,
                    ts,
                    old(self)@.last_trade,
                ).taker.remaining,
                seq,
            ),
            final(self)@.wf(),
            final(self)@.qty_bound() <= old(self)@.qty_bound() + no.qty,
            final(self)@.stop_count() == old(self)@.stop_count(),
            final(self).symbol == old(self).symbol,
            final(self).tick == old(self).tick,
            final(self).seq == old(self).seq,
    {
        let ghost b = self@;
        proof {
            lemma_after_match(b, no, seq, ts);
        }
        let taker = Order::new(
            no.id,
            no.symbol,
            no.side,
            no.kind,
            no.tif,
            no.price,
            no.stop_price,
            no.qty,
            seq,
            ts,
        );
        let ghost out1 = out@;
        let ghost idx0 = self.id_index@;
        let t = match no.side {
            Side::Buy => match_levels(&mut self.asks, taker, seq, ts, &mut self.last_trade, out, &mut self.id_index),
            Side::Sell => match_levels(&mut self.bids, taker, seq, ts, &mut self.last_trade, out, &mut self.id_index),
        };
        let ghost m = crate::model::match_spec(opp_levels(b, no.side), taker, seq, ts, b.last_trade);
        let ghost b1 = BookView { last_trade: m.last_trade, ..with_opp(b, no.side, m.opp) };
        assert(self@ == b1);
        proof {
            lemma_index_after_match(b, idx0, self.id_index@, no, seq, ts);
        }
        let ghost idx1 = self.id_index@;
        let filled = no.qty - t.remaining;
        if filled > 0 && t.remaining == 0 {
            out.push(OutputEvent::Filled { id: no.id, seq });
        } else if filled > 0 {
            out.push(
                OutputEvent::PartiallyFilled { id: no.id, filled, remaining: t.remaining, seq },
            );
            if matches!(no.kind, OrderType::Limit) {
                self.rest(t);
                index_insert(&mut self.id_index, t.id, Location { price: t.price, side: t.side, waiting: false });
                proof {
                    lemma_index_after_rest(b1, idx1, t);
                }
            } else {
                out.push(OutputEvent::Cancelled { id: no.id, seq });
            }
        } else {
            if matches!(no.kind, OrderType::Limit) {
                self.rest(t);
                index_insert(&mut self.id_index, t.id, Location { price: t.price, side: t.side, waiting: false });
                proof {
                    lemma_index_after_rest(b1, idx1, t);
                }
            } else {
                out.push(OutputEvent::Cancelled { id: no.id, seq });
            }
        }
        assert(self@ == after_match(b, no, seq, ts));
        assert(out@ =~= out1 + m.events + closing_events(no, t.remaining, seq));
    }

    /// Rest `o` on its own side.
    pub(crate) fn rest(&mut self, o: Order)
        requires
            o.side == Side::Buy ==> levels_total(old(self)@.bids) + o.remaining <= u64::MAX,
            o.side == Side::Sell ==> levels_total(old(self)@.asks) + o.remaining <= u64::MAX,
        ensures
            final(self)@ == with_own(old(self)@, o.side, crate::model::rest_spec(own_levels(old(self)@, o.side), o)),
            final(self).id_index == old(self).id_index,
            final(self).symbol == old(self).symbol,
            final(self).tick == old(self).tick,
            final(self).seq == old(self).seq,
    {
        match o.side {
            Side::Buy => rest_levels(&mut self.bids, o),
            Side::Sell => rest_levels(&mut self.asks, o),
        }
    }

    fn drain_stop_buys(
        &mut self,
        last: Price,
        seq: SeqNo,
        ts: Ts,
        Ghost(fuel): Ghost<nat>,
        out: &mut Vec<OutputEvent>,
    )
        requires
            old(self)@.wf(),
            old(self).indexed(),
            old(self)@.stop_count() <= fuel,
        ensures
            final(self)@ == drain_buys(old(self)@, last, seq, ts, fuel).0,
            final(out)@ == old(out)@ + drain_buys(old(self)@, last, seq, ts, fuel).1,
            final(self)@.wf(),
            final(self).indexed(),
            final(self)@.qty_bound() <= old(self)@.qty_bound(),
            final(self)@.stop_count() <= old(self)@.stop_count(),
            final(self).symbol == old(self).symbol,
            final(self).tick == old(self).tick,
            final(self).seq == old(self).seq,
        decreases fuel, 1nat,
    {
        let ghost b = self@;
        if self.stop_buys.len() == 0 || self.stop_buys[0].stop_price > last {
            assert(out@ =~= old(out)@ + Seq::<OutputEvent>::empty());
            return;
        }
        let o = self.stop_buys.pop_front().unwrap();
        proof {
            lemma_stops_remove(b.stop_buys, Side::Buy, 0);
            assert(b.stop_buys.remove(0) =~= b.stop_buys.drop_first());
        }
        assert(self@ == BookView { stop_buys: b.stop_buys.drop_first(), ..b });
        let ghost idx0 = self.id_index@;
        index_remove(&mut self.id_index, o.id);
        proof {
            lemma_index_after_remove(b, idx0, Loc::StopBuy { pos: 0 });
            assert(remove_at(b, Loc::StopBuy { pos: 0 }) == self@);
        }
        let no = triggered_exec(o);
        self.apply_new(no, seq, ts, out);
        self.drain_stop_buys(last, seq, ts, Ghost((fuel - 1) as nat), out);
        assert(out@ =~= old(out)@ + drain_buys(b, last, seq, ts, fuel).1);
    }

    fn drain_stop_sells(
        &mut self,
        last: Price,
        seq: SeqNo,
        ts: Ts,
        Ghost(fuel): Ghost<nat>,
        out: &mut Vec<OutputEvent>,
    )
        requires
            old(self)@.wf(),
            old(self).indexed(),
            old(self)@.stop_count() <= fuel,
        ensures
            final(self)@ == drain_sells(old(self)@, last, seq, ts, fuel).0,
            final(out)@ == old(out)@ + drain_sells(old(self)@, last, seq, ts, fuel).1,
            final(self)@.wf(),
            final(self).indexed(),
            final(self)@.qty_bound() <= old(self)@.qty_bound(),
            final(self)@.stop_count() <= old(self)@.stop_count(),
            final(self).symbol == old(self).symbol,
            final(self).tick == old(self).tick,
            final(self).seq == old(self).seq,
        decreases fuel, 0nat,
    {
        let ghost b = self@;
        if self.stop_sells.len() == 0 || self.stop_sells[0].stop_price < last {
            assert(out@ =~= old(out)@ + Seq::<OutputEvent>::empty());
            return;
        }
        let o = self.stop_sells.pop_front().unwrap();
        proof {
            lemma_stops_remove(b.stop_sells, Side::Sell, 0);
            assert(b.stop_sells.remove(0) =~= b.stop_sells.drop_first());
        }
        assert(self@ == BookView { stop_sells: b.stop_sells.drop_first(), ..b });
        let ghost idx0 = self.id_index@;
        index_remove(&mut self.id_index, o.id);
        proof {
            lemma_index_after_remove(b, idx0, Loc::StopSell { pos: 0 });
            assert(remove_at(b, Loc::StopSell { pos: 0 }) == self@);
        }
        let no = triggered_exec(o);
        self.apply_new(no, seq, ts, out);
        self.drain_stop_sells(last, seq, ts, Ghost((fuel - 1) as nat), out);
        assert(out@ =~= old(out)@ + drain_sells(b, last, seq, ts, fuel).1);
    }

    fn apply_cancel(&mut self, id: crate::types::OrderId, seq: SeqNo, out: &mut Vec<OutputEvent>)
        requires
            old(self)@.wf(),
            old(self).indexed(),
        ensures
            final(self)@ == cancel_spec(old(self)@, id, seq).0,
            final(out)@ == old(out)@ + cancel_spec(old(self)@, id, seq).1,
            final(self)@.wf(),
            final(self).indexed(),
            final(self).symbol == old(self).symbol,
            final(self).tick == old(self).tick,
            final(self).seq == old(self).seq,
    {
        match self.locate(id) {
            None => {
                out.push(OutputEvent::Rejected { id, reason: RejectReason::UnknownId, seq });
            },
            Some(loc) => {
                let ghost b = self@;
                let ghost idx0 = self.id_index@;
                proof {
                    lemma_remove_at(b, loc);
                    crate::laws::lemma_book_fits(self);
                    crate::laws::lemma_locate_valid(b, id);
                    lemma_index_after_remove(b, idx0, loc);
                }
                self.remove_loc(loc);
                index_remove(&mut self.id_index, id);
                out.push(OutputEvent::Cancelled { id, seq });
            },
        }
    }

    fn apply_replace(
        &mut self,
        id: crate::types::OrderId,
        new_price: Price,
        new_qty: Qty,
        seq: SeqNo,
        ts: Ts,
        out: &mut Vec<OutputEvent>,
    )
        requires
            old(self)@.wf(),
            old(self).indexed(),
            old(self)@.qty_bound() + new_qty <= u64::MAX,
        ensures
            final(self)@ == replace_spec(old(self)@, id, new_price, new_qty, seq, ts).0,
            final(out)@ == old(out)@ + replace_spec(old(self)@, id, new_price, new_qty, seq, ts).1,
            final(self)@.wf(),
            final(self).indexed(),
            final(self).symbol == old(self).symbol,
            final(self).tick == old(self).tick,
            final(self).seq == old(self).seq,
    {
        if new_qty == 0 {
            out.push(OutputEvent::Rejected { id, reason: RejectReason::ZeroQty, seq });
            return;
        }
        match self.locate(id) {
            None => {
                out.push(OutputEvent::Rejected { id, reason: RejectReason::UnknownId, seq });
            },
            Some(loc) => {
                let ghost b = self@;
                let ghost idx0 = self.id_index@;
                proof {
                    lemma_remove_at(b, loc);
                    crate::laws::lemma_book_fits(self);
                    crate::laws::lemma_locate_valid(b, id);
                    lemma_index_after_remove(b, idx0, loc);
                }
                let o = self.remove_loc(loc);
                index_remove(&mut self.id_index, id);
                out.push(OutputEvent::Replaced { id, seq });
                let no = NewOrder {
                    id,
                    symbol: o.symbol,
                    side: o.side,
                    kind: o.kind,
                    tif: o.tif,
                    price: new_price,
                    stop_price: 0,
                    qty: new_qty,
                };
                let ghost out1 = out@;
                self.apply_new(no, seq, ts, out);
                assert(out@ =~= old(out)@ + replace_spec(old(self)@, id, new_price, new_qty, seq, ts).1);
            },
        }
    }
}

/// The levels after the oldest order of the best level (the last) is taken out, its
/// quantity off the level total (floored at zero); a level left with no order stays.
pub open spec fn pop_head_spec(ls: Seq<LevelView>) -> Seq<LevelView> {
    if ls.len() == 0 || ls.last().orders.len() == 0 {
        ls
    } else {
        let l = ls.last();
        ls.drop_last().push(
            LevelView {
                price: l.price,
                total_qty: sat_sub(l.total_qty, l.orders[0].remaining),
                orders: l.orders.drop_first(),
            },
        )
    }
}

/// The oldest order of the best level, if that level holds one.
pub open spec fn best_head(ls: Seq<LevelView>) -> Option<Order> {
    if ls.len() == 0 || ls.last().orders.len() == 0 {
        None
    } else {
        Some(ls.last().orders[0])
    }
}

/// The levels without their best level when it holds no order.
pub open spec fn drop_empty_best_spec(ls: Seq<LevelView>) -> Seq<LevelView> {
    if ls.len() > 0 && ls.last().orders.len() == 0 {
        ls.drop_last()
    } else {
        ls
    }
}

fn pop_best_head(levels: &mut Vec<Level>) -> (r: Option<Order>)
    ensures
        levels_view(final(levels)@) == pop_head_spec(levels_view(old(levels)@)),
        r == best_head(levels_view(old(levels)@)),
{
    let ghost ls = levels_view(levels@);
    let n = levels.len();
    if n == 0 {
        return None;
    }
    if levels[n - 1].orders.len() == 0 {
        return None;
    }
    let mut l = levels.pop().unwrap();
    assert(l@ == ls.last());
    let o = l.orders.pop_front().unwrap();
    l.total_qty = l.total_qty.saturating_sub(o.remaining);
    levels.push(l);
    assert(levels_view(levels@) =~= pop_head_spec(ls));
    Some(o)
}

fn drop_empty_best(levels: &mut Vec<Level>)
    ensures
        levels_view(final(levels)@) == drop_empty_best_spec(levels_view(old(levels)@)),
{
    let ghost ls = levels_view(levels@);
    let n = levels.len();
    if n > 0 && levels[n - 1].orders.len() == 0 {
        levels.pop();
        assert(levels_view(levels@) =~= ls.drop_last());
    } else {
        assert(levels_view(levels@) =~= ls);
    }
}

impl OrderBook {
    /// Rest `o` at the back of the queue at its price on its side, opening a level there if
    /// none holds it, and enter it in the identifier index.
    pub fn insert_resting(&mut self, o: Order)
        requires
            o.side == Side::Buy ==> levels_total(old(self)@.bids) + o.remaining <= u64::MAX,
            o.side == Side::Sell ==> levels_total(old(self)@.asks) + o.remaining <= u64::MAX,
        ensures
            final(self)@ == with_own(old(self)@, o.side, rest_spec(own_levels(old(self)@, o.side), o)),
            final(self).id_index@ == old(self).id_index@.insert(
                o.id,
                Location { price: o.price, side: o.side, waiting: false },
            ),
            old(self).indexed() && id_count(old(self)@, o.id) == 0 ==> final(self).indexed(),
            final(self).symbol == old(self).symbol,
            final(self).tick == old(self).tick,
            final(self).seq == old(self).seq,
    {
        let ghost b = self@;
        let ghost idx = self.id_index@;
        proof {
            if self.indexed() && id_count(b, o.id) == 0 {
                lemma_index_after_rest(b, idx, o);
            }
        }
        self.rest(o);
        index_insert(&mut self.id_index, o.id, Location { price: o.price, side: o.side, waiting: false });
    }

    /// Take the oldest order of the best bid level out and return it; the level stays,
    /// though emptied, until `remove_empty_bid`. The identifier index is left as it is.
    pub fn pop_bid_head(&mut self) -> (r: Option<Order>)
        ensures
            r == best_head(old(self)@.bids),
            final(self)@ == (BookView { bids: pop_head_spec(old(self)@.bids), ..old(self)@ }),
            final(self).id_index == old(self).id_index,
            final(self).symbol == old(self).symbol,
            final(self).tick == old(self).tick,
            final(self).seq == old(self).seq,
    {
        pop_best_head(&mut self.bids)
    }

    /// Take the oldest order of the best ask level out and return it; the level stays,
    /// though emptied, until `remove_empty_ask`. The identifier index is left as it is.
    pub fn pop_ask_head(&mut self) -> (r: Option<Order>)
        ensures
            r == best_head(old(self)@.asks),
            final(self)@ == (BookView { asks: pop_head_spec(old(self)@.asks), ..old(self)@ }),
            final(self).id_index == old(self).id_index,
            final(self).symbol == old(self).symbol,
            final(self).tick == old(self).tick,
            final(self).seq == old(self).seq,
    {
        pop_best_head(&mut self.asks)
    }

    /// Drop the best bid level if it holds no order.
    pub fn remove_empty_bid(&mut self)
        ensures
            final(self)@ == (BookView { bids: drop_empty_best_spec(old(self)@.bids), ..old(self)@ }),
            final(self).id_index == old(self).id_index,
            final(self).symbol == old(self).symbol,
            final(self).tick == old(self).tick,
            final(self).seq == old(self).seq,
    {
        drop_empty_best(&mut self.bids)
    }

    /// Drop the best ask level if it holds no order.
    pub fn remove_empty_ask(&mut self)
        ensures
            final(self)@ == (BookView { asks: drop_empty_best_spec(old(self)@.asks), ..old(self)@ }),
            final(self).id_index == old(self).id_index,
            final(self).symbol == old(self).symbol,
            final(self).tick == old(self).tick,
            final(self).seq == old(self).seq,
    {
        drop_empty_best(&mut self.asks)
    }

    /// Take the order with identifier `id` out of the book, resting or waiting, and out of
    /// the identifier index; its level goes once empty. Returns the order, or `None` when
    /// the book holds no such order.
    pub fn remove_slot(&mut self, id: OrderId) -> (r: Option<Order>)
        requires
            old(self)@.wf(),
            old(self).indexed(),
        ensures
            r == (match locate_spec(old(self)@, id) {
                Some(loc) => Some(order_at(old(self)@, loc)),
                None => None,
            }),
            final(self)@ == (match locate_spec(old(self)@, id) {
                Some(loc) => remove_at(old(self)@, loc),
                None => old(self)@,
            }),
            final(self)@.wf(),
            final(self).indexed(),
            final(self).symbol == old(self).symbol,
            final(self).tick == old(self).tick,
            final(self).seq == old(self).seq,
    {
        match self.locate(id) {
            None => None,
            Some(loc) => {
                let ghost b = self@;
                let ghost idx0 = self.id_index@;
                proof {
                    lemma_remove_at(b, loc);
                    crate::laws::lemma_book_fits(self);
                    crate::laws::lemma_locate_valid(b, id);
                    lemma_index_after_remove(b, idx0, loc);
                }
                let o = self.remove_loc(loc);
                index_remove(&mut self.id_index, id);
                Some(o)
            },
        }
    }
}

} // verus!

