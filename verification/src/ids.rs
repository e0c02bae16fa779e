use vstd::prelude::*;
use crate::types::{OrderId, OrderType, Price, SeqNo, Side, Ts};
use crate::order::Order;
use crate::events::{Command, NewOrder, OutputEvent, Sequenced};
use crate::book::{BookView, LevelView};
use crate::model::{
    after_match, closing_events, has_id, index_of_id, is_first_id, is_first_level,
    level_of_id, locate_spec, match_spec, min_qty, opp_levels, order_of, own_levels,
    remove_from_levels, rest_spec, stop_insert, with_opp, remove_at, order_at, Loc,
    sat_sub, crosses, apply_new_spec, apply_spec, available_spec, cancel_spec, drain_buys,
    drain_sells, match_events, replacement, triggered,
};
use crate::laws::{fits_usize, lemma_locate_valid};

verus! {

/// How many orders of `s` carry identifier `id`.
pub open spec fn count_in(s: Seq<Order>, id: OrderId) -> nat
    decreases s.len(),
{
    if s.len() == 0 {
        0
    } else {
        count_in(s.drop_last(), id) + if s.last().id == id {
            1nat
        } else {
            0nat
        }
    }
}

/// How many orders queued in the levels carry identifier `id`.
pub open spec fn count_levels(ls: Seq<LevelView>, id: OrderId) -> nat
    decreases ls.len(),
{
    if ls.len() == 0 {
        0
    } else {
        count_levels(ls.drop_last(), id) + count_in(ls.last().orders, id)
    }
}

/// How many orders of the book, resting or waiting, carry identifier `id`.
pub open spec fn id_count(b: BookView, id: OrderId) -> nat {
    count_levels(b.bids, id) + count_levels(b.asks, id) + count_in(b.stop_buys, id) + count_in(
        b.stop_sells,
        id,
    )
}

/// No identifier is held twice.
pub open spec fn ids_unique(b: BookView) -> bool {
    forall|id: OrderId| #[trigger] id_count(b, id) <= 1
}

/// No trade among `ev` involves an order with identifier `id`.
pub open spec fn no_trade_with(ev: Seq<OutputEvent>, id: OrderId) -> bool {
    forall|i: int|
        0 <= i < ev.len() ==> match #[trigger] ev[i] {
            OutputEvent::Trade { taker, maker, .. } => taker != id && maker != id,
            _ => true,
        }
}

pub open spec fn ind(c: bool) -> nat {
    if c {
        1
    } else {
        0
    }
}

// ---------------------------------------------------------------- counting in sequences

pub(crate) proof fn lemma_count_push(s: Seq<Order>, x: Order, id: OrderId)
    ensures
        count_in(s.push(x), id) == count_in(s, id) + ind(x.id == id),
{
    assert(s.push(x).drop_last() =~= s);
}

pub(crate) proof fn lemma_count_single(x: Order, id: OrderId)
    ensures
        count_in(seq![x], id) == ind(x.id == id),
{
    lemma_count_push(Seq::<Order>::empty(), x, id);
    assert(Seq::<Order>::empty().push(x) =~= seq![x]);
}

pub(crate) proof fn lemma_count_update(s: Seq<Order>, i: int, x: Order, id: OrderId)
    requires
        0 <= i < s.len(),
    ensures
        count_in(s.update(i, x), id) + ind(s[i].id == id) == count_in(s, id) + ind(x.id == id),
    decreases s.len(),
{
    if i == s.len() - 1 {
        assert(s.update(i, x).drop_last() =~= s.drop_last());
    } else {
        assert(s.update(i, x).drop_last() =~= s.drop_last().update(i, x));
        lemma_count_update(s.drop_last(), i, x, id);
    }
}

pub(crate) proof fn lemma_count_remove(s: Seq<Order>, i: int, id: OrderId)
    requires
        0 <= i < s.len(),
    ensures
        count_in(s.remove(i), id) + ind(s[i].id == id) == count_in(s, id),
    decreases s.len(),
{
    if i == s.len() - 1 {
        assert(s.remove(i) =~= s.drop_last());
    } else {
        assert(s.remove(i).drop_last() =~= s.drop_last().remove(i));
        lemma_count_remove(s.drop_last(), i, id);
    }
}

pub(crate) proof fn lemma_count_drop_first(s: Seq<Order>, id: OrderId)
    requires
        s.len() > 0,
    ensures
        count_in(s.drop_first(), id) + ind(s[0].id == id) == count_in(s, id),
{
    assert(s.drop_first() =~= s.remove(0));
    lemma_count_remove(s, 0, id);
}

pub(crate) proof fn lemma_count_elem(s: Seq<Order>, i: int)
    requires
        0 <= i < s.len(),
    ensures
        count_in(s, s[i].id) >= 1,
{
    lemma_count_remove(s, i, s[i].id);
}

/// An identifier counted in `s` has a first position there.
proof fn lemma_count_first(s: Seq<Order>, id: OrderId)
    requires
        count_in(s, id) > 0,
    ensures
        exists|i: int| is_first_id(s, id, i),
    decreases s.len(),
{
    let d = s.drop_last();
    if count_in(d, id) > 0 {
        lemma_count_first(d, id);
        let i = choose|i: int| is_first_id(d, id, i);
        assert forall|j: int| 0 <= j < i implies (#[trigger] s[j]).id != id by {
            assert(s[j] == d[j]);
        }
        assert(s[i] == d[i]);
        assert(is_first_id(s, id, i));
    } else {
        let n = s.len() - 1;
        assert forall|j: int| 0 <= j < n implies (#[trigger] s[j]).id != id by {
            assert(s[j] == d[j]);
            if s[j].id == id {
                lemma_count_elem(d, j);
            }
        }
        assert(is_first_id(s, id, n));
    }
}

pub(crate) proof fn lemma_index_of_id_count(s: Seq<Order>, id: OrderId)
    ensures
        (index_of_id(s, id) is Some) <==> count_in(s, id) > 0,
{
    if count_in(s, id) > 0 {
        lemma_count_first(s, id);
    }
    if index_of_id(s, id) is Some {
        let i = choose|i: int| is_first_id(s, id, i);
        assert(is_first_id(s, id, i));
        lemma_count_elem(s, i);
    }
}

// ---------------------------------------------------------------- counting in levels

pub(crate) proof fn lemma_levels_count_update(ls: Seq<LevelView>, i: int, l: LevelView, id: OrderId)
    requires
        0 <= i < ls.len(),
    ensures
        count_levels(ls.update(i, l), id) + count_in(ls[i].orders, id) == count_levels(ls, id)
            + count_in(l.orders, id),
    decreases ls.len(),
{
    if i == ls.len() - 1 {
        assert(ls.update(i, l).drop_last() =~= ls.drop_last());
    } else {
        assert(ls.update(i, l).drop_last() =~= ls.drop_last().update(i, l));
        lemma_levels_count_update(ls.drop_last(), i, l, id);
    }
}

pub(crate) proof fn lemma_levels_count_remove(ls: Seq<LevelView>, i: int, id: OrderId)
    requires
        0 <= i < ls.len(),
    ensures
        count_levels(ls.remove(i), id) + count_in(ls[i].orders, id) == count_levels(ls, id),
    decreases ls.len(),
{
    if i == ls.len() - 1 {
        assert(ls.remove(i) =~= ls.drop_last());
    } else {
        assert(ls.remove(i).drop_last() =~= ls.drop_last().remove(i));
        lemma_levels_count_remove(ls.drop_last(), i, id);
    }
}

pub(crate) proof fn lemma_levels_count_elem(ls: Seq<LevelView>, i: int, id: OrderId)
    requires
        0 <= i < ls.len(),
    ensures
        count_in(ls[i].orders, id) <= count_levels(ls, id),
{
    lemma_levels_count_remove(ls, i, id);
}

proof fn lemma_levels_count_first(ls: Seq<LevelView>, id: OrderId)
    requires
        count_levels(ls, id) > 0,
    ensures
        exists|i: int| is_first_level(ls, id, i),
    decreases ls.len(),
{
    let d = ls.drop_last();
    if count_levels(d, id) > 0 {
        lemma_levels_count_first(d, id);
        let i = choose|i: int| is_first_level(d, id, i);
        assert forall|j: int| 0 <= j < i implies index_of_id((#[trigger] ls[j]).orders, id) is None by {
            assert(ls[j] == d[j]);
        }
        assert(ls[i] == d[i]);
        assert(is_first_level(ls, id, i));
    } else {
        let n = ls.len() - 1;
        assert forall|j: int| 0 <= j < n implies index_of_id((#[trigger] ls[j]).orders, id) is None by {
            assert(ls[j] == d[j]);
            lemma_levels_count_elem(d, j, id);
            lemma_index_of_id_count(d[j].orders, id);
        }
        lemma_index_of_id_count(ls[n].orders, id);
        assert(is_first_level(ls, id, n));
    }
}

pub(crate) proof fn lemma_level_of_id_count(ls: Seq<LevelView>, id: OrderId)
    ensures
        (level_of_id(ls, id) is Some) <==> count_levels(ls, id) > 0,
{
    if count_levels(ls, id) > 0 {
        lemma_levels_count_first(ls, id);
    }
    if level_of_id(ls, id) is Some {
        let i = choose|i: int| is_first_level(ls, id, i);
        assert(is_first_level(ls, id, i));
        lemma_index_of_id_count(ls[i].orders, id);
        lemma_levels_count_elem(ls, i, id);
    }
}

/// A book holds an identifier exactly when it counts it.
pub proof fn lemma_has_id_count(b: BookView, id: OrderId)
    ensures
        has_id(b, id) <==> id_count(b, id) > 0,
{
    lemma_level_of_id_count(b.bids, id);
    lemma_level_of_id_count(b.asks, id);
    lemma_index_of_id_count(b.stop_buys, id);
    lemma_index_of_id_count(b.stop_sells, id);
}

// ---------------------------------------------------------------- the book's operations

pub(crate) proof fn lemma_rest_count(ls: Seq<LevelView>, o: Order, id: OrderId)
    ensures
        count_levels(rest_spec(ls, o), id) == count_levels(ls, id) + ind(o.id == id),
    decreases ls.len(),
{
    let r = rest_spec(ls, o);
    if ls.len() == 0 {
        assert(r.drop_last() =~= Seq::<LevelView>::empty());
        assert(count_levels(Seq::<LevelView>::empty(), id) == 0);
        assert(count_levels(r, id) == count_levels(r.drop_last(), id) + count_in(r.last().orders, id));
        lemma_count_single(o, id);
    } else {
        let l = ls.last();
        let d = ls.drop_last();
        if l.price == o.price {
            assert(r.drop_last() =~= d);
            assert(count_levels(r, id) == count_levels(d, id) + count_in(r.last().orders, id));
            lemma_count_push(l.orders, o, id);
        } else if crate::book::better(o.side, o.price, l.price) {
            assert(r.drop_last() =~= ls);
            assert(count_levels(r, id) == count_levels(ls, id) + count_in(r.last().orders, id));
            lemma_count_single(o, id);
        } else {
            lemma_rest_count(d, o, id);
            assert(r.drop_last() =~= rest_spec(d, o));
            assert(count_levels(r, id) == count_levels(rest_spec(d, o), id) + count_in(l.orders, id));
        }
    }
}

pub(crate) proof fn lemma_stop_insert_count(s: Seq<Order>, o: Order, id: OrderId)
    ensures
        count_in(stop_insert(s, o), id) == count_in(s, id) + ind(o.id == id),
    decreases s.len(),
{
    if s.len() == 0 {
        lemma_count_single(o, id);
    } else if crate::book::better(o.side, s.last().stop_price, o.stop_price) {
        lemma_stop_insert_count(s.drop_last(), o, id);
        lemma_count_push(stop_insert(s.drop_last(), o), s.last(), id);
    } else {
        lemma_count_push(s, o, id);
    }
}

pub(crate) proof fn lemma_remove_from_levels_count(ls: Seq<LevelView>, li: int, pi: int, id: OrderId)
    requires
        0 <= li < ls.len(),
        0 <= pi < ls[li].orders.len(),
    ensures
        count_levels(remove_from_levels(ls, li, pi), id) + ind(ls[li].orders[pi].id == id)
            == count_levels(ls, id),
{
    let l = ls[li];
    let rest = l.orders.remove(pi);
    lemma_count_remove(l.orders, pi, id);
    if rest.len() == 0 {
        lemma_levels_count_remove(ls, li, id);
        assert(rest =~= Seq::<Order>::empty());
    } else {
        let nl = LevelView {
            price: l.price,
            total_qty: sat_sub(l.total_qty, l.orders[pi].remaining),
            orders: rest,
        };
        lemma_levels_count_update(ls, li, nl, id);
    }
}

/// Taking an order out of the book lowers the count of its identifier by one and leaves
/// the others.
pub proof fn lemma_remove_at_count(b: BookView, loc: Loc, id: OrderId)
    requires
        crate::matcher::loc_valid(b, loc),
    ensures
        id_count(remove_at(b, loc), id) + ind(order_at(b, loc).id == id) == id_count(b, id),
{
    match loc {
        Loc::Bid { level, pos } => lemma_remove_from_levels_count(b.bids, level as int, pos as int, id),
        Loc::Ask { level, pos } => lemma_remove_from_levels_count(b.asks, level as int, pos as int, id),
        Loc::StopBuy { pos } => lemma_count_remove(b.stop_buys, pos as int, id),
        Loc::StopSell { pos } => lemma_count_remove(b.stop_sells, pos as int, id),
    }
}

/// Matching never adds an order, and trades only with the taker and orders it finds.
pub(crate) proof fn lemma_match_ids(opp: Seq<LevelView>, taker: Order, seq: SeqNo, ts: Ts, last: Option<Price>)
    ensures
        ({
            let m = match_spec(opp, taker, seq, ts, last);
            &&& forall|id: OrderId| #[trigger] count_levels(m.opp, id) <= count_levels(opp, id)
            &&& forall|id: OrderId|
                count_levels(opp, id) == 0 && id != taker.id ==> #[trigger] no_trade_with(m.events, id)
            &&& m.taker.id == taker.id
        }),
    decreases opp.len(), opp.last().orders.len(), taker.remaining,
{
    let m = match_spec(opp, taker, seq, ts, last);
    if taker.remaining == 0 || opp.len() == 0 || opp.last().orders.len() == 0 || !crosses(
        taker.kind,
        taker.side,
        taker.price,
        opp.last().price,
    ) {
        assert forall|id: OrderId| #[trigger] no_trade_with(m.events, id) by {}
    } else {
        let n = opp.len() - 1;
        let lvl = opp.last();
        let maker = lvl.orders[0];
        let q = min_qty(taker.remaining, maker.remaining);
        let taker2 = Order { remaining: (taker.remaining - q) as u64, ..taker };
        let maker_left = (maker.remaining - q) as u64;
        let popped_total = sat_sub(lvl.total_qty, maker.remaining);
        lemma_count_elem(lvl.orders, 0);
        lemma_levels_count_elem(opp, n, maker.id);
        let opp2 = if maker_left == 0 {
            let rest = lvl.orders.drop_first();
            if rest.len() == 0 {
                assert forall|id: OrderId| #[trigger] count_levels(opp.drop_last(), id) <= count_levels(opp, id) by {}
                opp.drop_last()
            } else {
                let nl = LevelView { price: lvl.price, total_qty: popped_total, orders: rest };
                assert forall|id: OrderId| #[trigger] count_levels(opp.update(n, nl), id) <= count_levels(opp, id) by {
                    lemma_levels_count_update(opp, n, nl, id);
                    lemma_count_drop_first(lvl.orders, id);
                }
                opp.update(n, nl)
            }
        } else {
            let maker2 = Order { remaining: maker_left, ..maker };
            let nl = LevelView {
                price: lvl.price,
                total_qty: (popped_total + maker_left) as u64,
                orders: lvl.orders.update(0, maker2),
            };
            assert forall|id: OrderId| #[trigger] count_levels(opp.update(n, nl), id) <= count_levels(opp, id) by {
                lemma_levels_count_update(opp, n, nl, id);
                lemma_count_update(lvl.orders, 0, maker2, id);
            }
            opp.update(n, nl)
        };
        lemma_match_ids(opp2, taker2, seq, ts, Some(lvl.price));
        let r = match_spec(opp2, taker2, seq, ts, Some(lvl.price));
        assert(m.opp == r.opp);
        let trade = OutputEvent::Trade {
            seq,
            taker: taker.id,
            maker: maker.id,
            price: lvl.price,
            qty: q,
            side: taker.side,
            ts,
        };
        let head = if maker_left == 0 {
            seq![trade, OutputEvent::Filled { id: maker.id, seq }]
        } else {
            seq![
                trade,
                OutputEvent::PartiallyFilled {
                    id: maker.id,
                    filled: q,
                    remaining: maker_left,
                    seq,
                },
            ]
        };
        assert(m.events == head + r.events);
        assert forall|id: OrderId| #[trigger] count_levels(m.opp, id) <= count_levels(opp, id) by {
            assert(count_levels(r.opp, id) <= count_levels(opp2, id));
            assert(count_levels(opp2, id) <= count_levels(opp, id));
        }
        assert forall|id: OrderId|
            count_levels(opp, id) == 0 && id != taker.id implies #[trigger] no_trade_with(m.events, id) by {
            assert(count_levels(opp2, id) <= count_levels(opp, id));
            assert(no_trade_with(r.events, id));
            assert(maker.id != id);
            assert forall|i: int| 0 <= i < m.events.len() implies match #[trigger] m.events[i] {
                OutputEvent::Trade { taker, maker, .. } => taker != id && maker != id,
                _ => true,
            } by {
                if i >= 2 {
                    assert(m.events[i] == r.events[i - 2]);
                }
            }
        }
    }
}

proof fn lemma_no_trade_append(a: Seq<OutputEvent>, c: Seq<OutputEvent>, id: OrderId)
    requires
        no_trade_with(a, id),
        no_trade_with(c, id),
    ensures
        no_trade_with(a + c, id),
{
    assert forall|i: int| 0 <= i < (a + c).len() implies match #[trigger] (a + c)[i] {
        OutputEvent::Trade { taker, maker, .. } => taker != id && maker != id,
        _ => true,
    } by {
        if i < a.len() {
            assert((a + c)[i] == a[i]);
        } else {
            assert((a + c)[i] == c[i - a.len()]);
        }
    }
}

proof fn lemma_no_trade_plain(ev: Seq<OutputEvent>, id: OrderId)
    requires
        forall|i: int| 0 <= i < ev.len() ==> !((#[trigger] ev[i]) is Trade),
    ensures
        no_trade_with(ev, id),
{
    assert forall|i: int| 0 <= i < ev.len() implies match #[trigger] ev[i] {
        OutputEvent::Trade { taker, maker, .. } => taker != id && maker != id,
        _ => true,
    } by {
        assert(!(ev[i] is Trade));
    }
}

/// Matching a new order and resting its remainder adds at most the order itself.
proof fn lemma_after_match_ids(b: BookView, no: NewOrder, seq: SeqNo, ts: Ts)
    ensures
        forall|id: OrderId| #[trigger] id_count(after_match(b, no, seq, ts), id) <= id_count(b, id) + ind(id == no.id),
        forall|id: OrderId| id_count(b, id) == 0 && id != no.id ==> #[trigger] no_trade_with(
            match_spec(opp_levels(b, no.side), order_of(no, seq, ts), seq, ts, b.last_trade).events,
            id,
        ),
        after_match(b, no, seq, ts).stop_buys == b.stop_buys,
        after_match(b, no, seq, ts).stop_sells == b.stop_sells,
{
    let taker = order_of(no, seq, ts);
    lemma_match_ids(opp_levels(b, no.side), taker, seq, ts, b.last_trade);
    let m = match_spec(opp_levels(b, no.side), taker, seq, ts, b.last_trade);
    let b1 = BookView { last_trade: m.last_trade, ..with_opp(b, no.side, m.opp) };
    assert forall|id: OrderId| #[trigger] id_count(after_match(b, no, seq, ts), id) <= id_count(b, id) + ind(id == no.id) by {
        assert(count_levels(m.opp, id) <= count_levels(opp_levels(b, no.side), id));
        if no.kind == OrderType::Limit && m.taker.remaining > 0 {
            lemma_rest_count(own_levels(b1, no.side), m.taker, id);
        }
    }
    assert forall|id: OrderId| id_count(b, id) == 0 && id != no.id implies #[trigger] no_trade_with(
        m.events,
        id,
    ) by {
        assert(count_levels(opp_levels(b, no.side), id) == 0);
    }
}

/// A new order adds at most itself (and only when its identifier is new), and no trade
/// it causes involves an identifier the book did not hold, other than its own.
pub(crate) proof fn lemma_apply_new_ids(b: BookView, no: NewOrder, seq: SeqNo, ts: Ts)
    ensures
        forall|id: OrderId|
            #[trigger] id_count(apply_new_spec(b, no, seq, ts).0, id) <= id_count(b, id) + ind(
                id == no.id && id_count(b, id) == 0,
            ),
        forall|id: OrderId|
            id_count(b, id) == 0 && id != no.id ==> #[trigger] no_trade_with(
                apply_new_spec(b, no, seq, ts).1,
                id,
            ),
    decreases b.stop_count(), 2nat,
{
    let r = apply_new_spec(b, no, seq, ts);
    lemma_has_id_count(b, no.id);
    if no.qty == 0 || has_id(b, no.id) || (no.kind.needs_price() && no.price <= 0) {
        assert forall|id: OrderId| #[trigger] no_trade_with(r.1, id) by {
            lemma_no_trade_plain(r.1, id);
        }
    } else if no.kind.is_stop() {
        let o = order_of(no, seq, ts);
        assert forall|id: OrderId| #[trigger] id_count(r.0, id) <= id_count(b, id) + ind(
            id == no.id && id_count(b, id) == 0,
        ) by {
            match no.side {
                Side::Buy => lemma_stop_insert_count(b.stop_buys, o, id),
                Side::Sell => lemma_stop_insert_count(b.stop_sells, o, id),
            }
        }
        assert forall|id: OrderId| #[trigger] no_trade_with(r.1, id) by {
            lemma_no_trade_plain(r.1, id);
        }
    } else if no.kind == OrderType::Fok && available_spec(opp_levels(b, no.side), no.side, no.price)
        < no.qty {
        assert forall|id: OrderId| #[trigger] no_trade_with(r.1, id) by {
            lemma_no_trade_plain(r.1, id);
        }
    } else {
        lemma_after_match_ids(b, no, seq, ts);
        let b2 = after_match(b, no, seq, ts);
        let taker = order_of(no, seq, ts);
        let m = match_spec(opp_levels(b, no.side), taker, seq, ts, b.last_trade);
        let ev = match_events(b, no, seq, ts);
        let acc = seq![OutputEvent::Accepted { id: no.id, seq }];
        let close = closing_events(no, m.taker.remaining, seq);
        assert forall|id: OrderId| id_count(b, id) == 0 && id != no.id implies #[trigger] no_trade_with(ev, id) by {
            lemma_no_trade_plain(acc, id);
            lemma_no_trade_plain(close, id);
            lemma_no_trade_append(acc, m.events, id);
            lemma_no_trade_append(acc + m.events, close, id);
        }
        match b2.last_trade {
            None => {},
            Some(last) => {
                lemma_drain_buys_ids(b2, last, seq, ts, b.stop_count());
                let r1 = drain_buys(b2, last, seq, ts, b.stop_count());
                lemma_drain_sells_ids(r1.0, last, seq, ts, b.stop_count());
                let r2 = drain_sells(r1.0, last, seq, ts, b.stop_count());
                assert forall|id: OrderId| id_count(b, id) == 0 && id != no.id implies #[trigger] no_trade_with(
                    r.1,
                    id,
                ) by {
                    assert(id_count(b2, id) == 0);
                    assert(no_trade_with(r1.1, id));
                    assert(id_count(r1.0, id) == 0);
                    assert(no_trade_with(r2.1, id));
                    lemma_no_trade_append(ev, r1.1, id);
                    lemma_no_trade_append(ev + r1.1, r2.1, id);
                }
                assert forall|id: OrderId| #[trigger] id_count(r.0, id) <= id_count(b, id) + ind(
                    id == no.id && id_count(b, id) == 0,
                ) by {
                    assert(id_count(r2.0, id) <= id_count(r1.0, id));
                    assert(id_count(r1.0, id) <= id_count(b2, id));
                    assert(id_count(b2, id) <= id_count(b, id) + ind(id == no.id));
                }
            },
        }
    }
}

/// Triggering buy stops adds no order, and involves in its trades only identifiers the
/// book held.
proof fn lemma_drain_buys_ids(b: BookView, last: Price, seq: SeqNo, ts: Ts, fuel: nat)
    ensures
        forall|id: OrderId| #[trigger] id_count(drain_buys(b, last, seq, ts, fuel).0, id) <= id_count(b, id),
        forall|id: OrderId| id_count(b, id) == 0 ==> #[trigger] no_trade_with(drain_buys(b, last, seq, ts, fuel).1, id),
    decreases fuel, 1nat,
{
    let r = drain_buys(b, last, seq, ts, fuel);
    if fuel == 0 || b.stop_count() > fuel || b.stop_buys.len() == 0 || b.stop_buys[0].stop_price
        > last {
        assert forall|id: OrderId| #[trigger] no_trade_with(r.1, id) by {
            lemma_no_trade_plain(r.1, id);
        }
    } else {
        let o = b.stop_buys[0];
        let b1 = BookView { stop_buys: b.stop_buys.drop_first(), ..b };
        lemma_count_elem(b.stop_buys, 0);
        assert forall|id: OrderId| #[trigger] id_count(b1, id) + ind(o.id == id) == id_count(b, id) by {
            lemma_count_drop_first(b.stop_buys, id);
        }
        lemma_apply_new_ids(b1, triggered(o), seq, ts);
        let r1 = apply_new_spec(b1, triggered(o), seq, ts);
        lemma_drain_buys_ids(r1.0, last, seq, ts, (fuel - 1) as nat);
        let r2 = drain_buys(r1.0, last, seq, ts, (fuel - 1) as nat);
        assert forall|id: OrderId| #[trigger] id_count(r.0, id) <= id_count(b, id) by {
            assert(id_count(b1, id) + ind(o.id == id) == id_count(b, id));
            assert(id_count(r1.0, id) <= id_count(b1, id) + ind(id == o.id && id_count(b1, id) == 0));
            assert(id_count(r2.0, id) <= id_count(r1.0, id));
        }
        assert forall|id: OrderId| id_count(b, id) == 0 implies #[trigger] no_trade_with(r.1, id) by {
            assert(id_count(b1, id) + ind(o.id == id) == id_count(b, id));
            assert(id != o.id);
            assert(no_trade_with(r1.1, id));
            assert(id_count(r1.0, id) <= id_count(b1, id) + ind(id == o.id && id_count(b1, id) == 0));
            assert(no_trade_with(r2.1, id));
            lemma_no_trade_append(r1.1, r2.1, id);
        }
    }
}

/// Triggering sell stops adds no order, and involves in its trades only identifiers the
/// book held.
proof fn lemma_drain_sells_ids(b: BookView, last: Price, seq: SeqNo, ts: Ts, fuel: nat)
    ensures
        forall|id: OrderId| #[trigger] id_count(drain_sells(b, last, seq, ts, fuel).0, id) <= id_count(b, id),
        forall|id: OrderId| id_count(b, id) == 0 ==> #[trigger] no_trade_with(drain_sells(b, last, seq, ts, fuel).1, id),
    decreases fuel, 0nat,
{
    let r = drain_sells(b, last, seq, ts, fuel);
    if fuel == 0 || b.stop_count() > fuel || b.stop_sells.len() == 0
        || b.stop_sells[0].stop_price < last {
        assert forall|id: OrderId| #[trigger] no_trade_with(r.1, id) by {
            lemma_no_trade_plain(r.1, id);
        }
    } else {
        let o = b.stop_sells[0];
        let b1 = BookView { stop_sells: b.stop_sells.drop_first(), ..b };
        lemma_count_elem(b.stop_sells, 0);
        assert forall|id: OrderId| #[trigger] id_count(b1, id) + ind(o.id == id) == id_count(b, id) by {
            lemma_count_drop_first(b.stop_sells, id);
        }
        lemma_apply_new_ids(b1, triggered(o), seq, ts);
        let r1 = apply_new_spec(b1, triggered(o), seq, ts);
        lemma_drain_sells_ids(r1.0, last, seq, ts, (fuel - 1) as nat);
        let r2 = drain_sells(r1.0, last, seq, ts, (fuel - 1) as nat);
        assert forall|id: OrderId| #[trigger] id_count(r.0, id) <= id_count(b, id) by {
            assert(id_count(b1, id) + ind(o.id == id) == id_count(b, id));
            assert(id_count(r1.0, id) <= id_count(b1, id) + ind(id == o.id && id_count(b1, id) == 0));
            assert(id_count(r2.0, id) <= id_count(r1.0, id));
        }
        assert forall|id: OrderId| id_count(b, id) == 0 implies #[trigger] no_trade_with(r.1, id) by {
            assert(id_count(b1, id) + ind(o.id == id) == id_count(b, id));
            assert(id != o.id);
            assert(no_trade_with(r1.1, id));
            assert(id_count(r1.0, id) <= id_count(b1, id) + ind(id == o.id && id_count(b1, id) == 0));
            assert(no_trade_with(r2.1, id));
            lemma_no_trade_append(r1.1, r2.1, id);
        }
    }
}

/// No identifier is ever held twice: every command applied to a book in which each
/// identifier is held at most once leaves it so (a new order whose identifier is held is
/// refused, and matching and triggering only take orders out or put back the ones they
/// took).
pub proof fn law_apply_keeps_ids_unique(b: BookView, cmd: Sequenced)
    requires
        ids_unique(b),
        fits_usize(b),
    ensures
        ids_unique(apply_spec(b, cmd).0),
{
    let r = apply_spec(b, cmd);
    match cmd.cmd {
        Command::New(no) => {
            lemma_apply_new_ids(b, no, cmd.seq, cmd.ts);
            assert forall|id: OrderId| #[trigger] id_count(r.0, id) <= 1 by {
                assert(id_count(b, id) <= 1);
            }
        },
        Command::Cancel { id: cid, .. } => {
            lemma_locate_valid(b, cid);
            match locate_spec(b, cid) {
                None => {},
                Some(loc) => {
                    assert forall|id: OrderId| #[trigger] id_count(r.0, id) <= 1 by {
                        lemma_remove_at_count(b, loc, id);
                        assert(id_count(b, id) <= 1);
                    }
                },
            }
        },
        Command::Replace { id: rid, new_price, new_qty, .. } => {
            lemma_locate_valid(b, rid);
            if new_qty != 0 {
                match locate_spec(b, rid) {
                    None => {},
                    Some(loc) => {
                        let b1 = remove_at(b, loc);
                        let no = replacement(order_at(b, loc), rid, new_price, new_qty);
                        lemma_apply_new_ids(b1, no, cmd.seq, cmd.ts);
                        assert forall|id: OrderId| #[trigger] id_count(r.0, id) <= 1 by {
                            lemma_remove_at_count(b, loc, id);
                            assert(id_count(b, id) <= 1);
                            assert(id_count(apply_new_spec(b1, no, cmd.seq, cmd.ts).0, id) <= id_count(b1, id) + ind(
                                id == no.id && id_count(b1, id) == 0,
                            ));
                        }
                    },
                }
            }
        },
    }
}

/// Cancellation is final: when no identifier is held twice, cancelling an order leaves
/// the book holding no order with its identifier.
pub proof fn law_cancel_leaves_no_order(b: BookView, id: OrderId, seq: SeqNo)
    requires
        ids_unique(b),
        fits_usize(b),
        has_id(b, id),
    ensures
        !has_id(cancel_spec(b, id, seq).0, id),
        cancel_spec(b, id, seq).1 == seq![OutputEvent::Cancelled { id, seq }],
{
    lemma_locate_valid(b, id);
    let loc = locate_spec(b, id).unwrap();
    lemma_remove_at_count(b, loc, id);
    assert(id_count(b, id) <= 1);
    lemma_has_id_count(cancel_spec(b, id, seq).0, id);
}

/// An order the book does not hold never trades: a command that brings no new order with
/// that identifier reports no trade involving it, and leaves the book still without it.
/// With the law above, a cancelled order never trades again unless a new order reuses
/// its identifier.
pub proof fn law_absent_order_never_trades(b: BookView, cmd: Sequenced, id: OrderId)
    requires
        fits_usize(b),
        !has_id(b, id),
        cmd.cmd matches Command::New(no) ==> no.id != id,
    ensures
        no_trade_with(apply_spec(b, cmd).1, id),
        !has_id(apply_spec(b, cmd).0, id),
{
    let r = apply_spec(b, cmd);
    lemma_has_id_count(b, id);
    match cmd.cmd {
        Command::New(no) => {
            lemma_apply_new_ids(b, no, cmd.seq, cmd.ts);
            assert(id_count(r.0, id) <= id_count(b, id) + ind(id == no.id && id_count(b, id) == 0));
        },
        Command::Cancel { id: cid, .. } => {
            lemma_locate_valid(b, cid);
            lemma_no_trade_plain(r.1, id);
            match locate_spec(b, cid) {
                None => {},
                Some(loc) => {
                    lemma_remove_at_count(b, loc, id);
                },
            }
        },
        Command::Replace { id: rid, new_price, new_qty, .. } => {
            lemma_locate_valid(b, rid);
            if new_qty == 0 {
                lemma_no_trade_plain(r.1, id);
            } else {
                match locate_spec(b, rid) {
                    None => {
                        lemma_no_trade_plain(r.1, id);
                    },
                    Some(loc) => {
                        let b1 = remove_at(b, loc);
                        let no = replacement(order_at(b, loc), rid, new_price, new_qty);
                        lemma_remove_at_count(b, loc, id);
                        lemma_has_id_count(b, rid);
                        assert(rid != id);
                        lemma_apply_new_ids(b1, no, cmd.seq, cmd.ts);
                        let head = seq![OutputEvent::Replaced { id: rid, seq: cmd.seq }];
                        lemma_no_trade_plain(head, id);
                        lemma_no_trade_append(head, apply_new_spec(b1, no, cmd.seq, cmd.ts).1, id);
                        assert(id_count(apply_new_spec(b1, no, cmd.seq, cmd.ts).0, id) <= id_count(b1, id) + ind(
                            id == no.id && id_count(b1, id) == 0,
                        ));
                    },
                }
            }
        },
    }
    lemma_has_id_count(r.0, id);
}

/// Only limit orders rest. A market, immediate-or-cancel or fill-or-kill order whose
/// identifier the book does not hold leaves no order with that identifier behind, however
/// much of it fills and whatever stops its trades trigger.
pub proof fn law_only_limit_orders_rest(b: BookView, no: NewOrder, seq: SeqNo, ts: Ts)
    requires
        no.kind == OrderType::Market || no.kind == OrderType::Ioc || no.kind == OrderType::Fok,
        id_count(b, no.id) == 0,
    ensures
        id_count(apply_new_spec(b, no, seq, ts).0, no.id) == 0,
{
    lemma_has_id_count(b, no.id);
    if !(no.qty == 0 || has_id(b, no.id) || (no.kind.needs_price() && no.price <= 0) || (no.kind
        == OrderType::Fok && available_spec(opp_levels(b, no.side), no.side, no.price) < no.qty)) {
        let taker = order_of(no, seq, ts);
        lemma_match_ids(opp_levels(b, no.side), taker, seq, ts, b.last_trade);
        let m = match_spec(opp_levels(b, no.side), taker, seq, ts, b.last_trade);
        let b2 = after_match(b, no, seq, ts);
        assert(count_levels(m.opp, no.id) <= count_levels(opp_levels(b, no.side), no.id));
        assert(id_count(b2, no.id) == 0);
        match b2.last_trade {
            None => {},
            Some(last) => {
                lemma_drain_buys_ids(b2, last, seq, ts, b.stop_count());
                let r1 = drain_buys(b2, last, seq, ts, b.stop_count());
                lemma_drain_sells_ids(r1.0, last, seq, ts, b.stop_count());
                let r2 = drain_sells(r1.0, last, seq, ts, b.stop_count());
                assert(id_count(r1.0, no.id) <= id_count(b2, no.id));
                assert(id_count(r2.0, no.id) <= id_count(r1.0, no.id));
                assert(apply_new_spec(b, no, seq, ts).0 == r2.0);
            },
        }
    }
}

} // verus!

