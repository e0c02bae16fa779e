use vstd::prelude::*;
use crate::types::{Price, SeqNo, Side, Ts};
use crate::order::Order;
use crate::events::OutputEvent;
use crate::book::{
    better, levels_total, sum_remaining, wf_level, wf_levels, wf_stops, BookView, LevelView,
    lemma_sum_remaining_nonneg, lemma_levels_sums_nonneg,
};
use crate::model::{
    available_spec, crosses, match_spec, min_qty, new_level, rest_spec, sat_sub, stop_insert, remove_from_levels,
    after_match, opp_levels, own_levels, with_opp, with_own, order_of, remove_at, order_at, Loc,
};
use crate::events::NewOrder;
use crate::types::OrderType;

verus! {

// ---------------------------------------------------------------- sums over orders

pub proof fn lemma_sum_push(s: Seq<Order>, x: Order)
    ensures
        sum_remaining(s.push(x)) == sum_remaining(s) + x.remaining,
{
    assert(s.push(x).drop_last() =~= s);
}

pub proof fn lemma_sum_single(x: Order)
    ensures
        sum_remaining(seq![x]) == x.remaining,
{
    lemma_sum_push(Seq::<Order>::empty(), x);
    assert(Seq::<Order>::empty().push(x) =~= seq![x]);
}

pub proof fn lemma_sum_update(s: Seq<Order>, i: int, x: Order)
    requires
        0 <= i < s.len(),
    ensures
        sum_remaining(s.update(i, x)) == sum_remaining(s) - s[i].remaining + x.remaining,
    decreases s.len(),
{
    if i == s.len() - 1 {
        assert(s.update(i, x).drop_last() =~= s.drop_last());
    } else {
        assert(s.update(i, x).drop_last() =~= s.drop_last().update(i, x));
        lemma_sum_update(s.drop_last(), i, x);
    }
}

pub proof fn lemma_sum_remove(s: Seq<Order>, i: int)
    requires
        0 <= i < s.len(),
    ensures
        sum_remaining(s.remove(i)) == sum_remaining(s) - s[i].remaining,
    decreases s.len(),
{
    if i == s.len() - 1 {
        assert(s.remove(i) =~= s.drop_last());
    } else {
        assert(s.remove(i).drop_last() =~= s.drop_last().remove(i));
        lemma_sum_remove(s.drop_last(), i);
    }
}

pub proof fn lemma_sum_drop_first(s: Seq<Order>)
    requires
        s.len() > 0,
    ensures
        sum_remaining(s.drop_first()) == sum_remaining(s) - s[0].remaining,
{
    assert(s.drop_first() =~= s.remove(0));
    lemma_sum_remove(s, 0);
}

pub proof fn lemma_sum_elem(s: Seq<Order>, i: int)
    requires
        0 <= i < s.len(),
    ensures
        s[i].remaining <= sum_remaining(s),
{
    lemma_sum_remove(s, i);
    lemma_sum_remaining_nonneg(s.remove(i));
}

// ---------------------------------------------------------------- sums over levels

pub proof fn lemma_levels_total_push(ls: Seq<LevelView>, l: LevelView)
    ensures
        levels_total(ls.push(l)) == levels_total(ls) + l.total_qty,
{
    assert(ls.push(l).drop_last() =~= ls);
}

pub proof fn lemma_levels_total_update(ls: Seq<LevelView>, i: int, l: LevelView)
    requires
        0 <= i < ls.len(),
    ensures
        levels_total(ls.update(i, l)) == levels_total(ls) - ls[i].total_qty + l.total_qty,
    decreases ls.len(),
{
    if i == ls.len() - 1 {
        assert(ls.update(i, l).drop_last() =~= ls.drop_last());
    } else {
        assert(ls.update(i, l).drop_last() =~= ls.drop_last().update(i, l));
        lemma_levels_total_update(ls.drop_last(), i, l);
    }
}

pub proof fn lemma_levels_total_remove(ls: Seq<LevelView>, i: int)
    requires
        0 <= i < ls.len(),
    ensures
        levels_total(ls.remove(i)) == levels_total(ls) - ls[i].total_qty,
    decreases ls.len(),
{
    if i == ls.len() - 1 {
        assert(ls.remove(i) =~= ls.drop_last());
    } else {
        assert(ls.remove(i).drop_last() =~= ls.drop_last().remove(i));
        lemma_levels_total_remove(ls.drop_last(), i);
    }
}

pub proof fn lemma_levels_total_elem(ls: Seq<LevelView>, i: int)
    requires
        0 <= i < ls.len(),
    ensures
        ls[i].total_qty <= levels_total(ls),
{
    lemma_levels_total_remove(ls, i);
    lemma_levels_sums_nonneg(ls.remove(i));
}

// ---------------------------------------------------------------- resting

/// A level price worse than `p` stays worse than `p` after resting an order worse too.
pub proof fn lemma_rest_bound(ls: Seq<LevelView>, o: Order, p: Price)
    requires
        forall|j: int| 0 <= j < ls.len() ==> better(o.side, p, #[trigger] ls[j].price),
        better(o.side, p, o.price),
    ensures
        forall|j: int|
            0 <= j < rest_spec(ls, o).len() ==> better(o.side, p, #[trigger] rest_spec(ls, o)[j].price),
    decreases ls.len(),
{
    let r = rest_spec(ls, o);
    if ls.len() == 0 {
        assert(r =~= seq![new_level(o)]);
    } else {
        let l = ls.last();
        assert(better(o.side, p, ls[ls.len() - 1].price));
        if l.price == o.price {
            assert forall|j: int| 0 <= j < r.len() implies better(o.side, p, #[trigger] r[j].price) by {
                if j < ls.len() - 1 {
                    assert(r[j] == ls[j]);
                }
            }
        } else if better(o.side, o.price, l.price) {
            assert forall|j: int| 0 <= j < r.len() implies better(o.side, p, #[trigger] r[j].price) by {
                if j < ls.len() {
                    assert(r[j] == ls[j]);
                }
            }
        } else {
            let d = ls.drop_last();
            assert forall|j: int| 0 <= j < d.len() implies better(o.side, p, #[trigger] d[j].price) by {
                assert(d[j] == ls[j]);
            }
            lemma_rest_bound(d, o, p);
            let rd = rest_spec(d, o);
            assert forall|j: int| 0 <= j < r.len() implies better(o.side, p, #[trigger] r[j].price) by {
                if j < rd.len() {
                    assert(r[j] == rd[j]);
                }
            }
        }
    }
}

pub proof fn lemma_rest(ls: Seq<LevelView>, o: Order)
    requires
        wf_levels(ls, o.side),
        o.remaining > 0,
        levels_total(ls) + o.remaining <= u64::MAX,
    ensures
        wf_levels(rest_spec(ls, o), o.side),
        levels_total(rest_spec(ls, o)) == levels_total(ls) + o.remaining,
        rest_spec(ls, o).len() > 0,
        rest_spec(ls, o).last().price == (if ls.len() == 0 || better(
            o.side,
            o.price,
            ls.last().price,
        ) {
            o.price
        } else {
            ls.last().price
        }),
    decreases ls.len(),
{
    let r = rest_spec(ls, o);
    if ls.len() == 0 {
        lemma_sum_single(o);
        lemma_levels_total_push(Seq::<LevelView>::empty(), new_level(o));
        assert(Seq::<LevelView>::empty().push(new_level(o)) =~= seq![new_level(o)]);
        assert(levels_total(Seq::<LevelView>::empty()) == 0);
    } else {
        let l = ls.last();
        assert(wf_level(ls[ls.len() - 1], o.side));
        lemma_levels_total_elem(ls, ls.len() - 1);
        if l.price == o.price {
            let nl = LevelView {
                price: l.price,
                total_qty: (l.total_qty + o.remaining) as u64,
                orders: l.orders.push(o),
            };
            lemma_sum_push(l.orders, o);
            lemma_levels_total_push(ls.drop_last(), nl);
            assert forall|i: int| 0 <= i < nl.orders.len() implies ({
                &&& (#[trigger] nl.orders[i]).remaining > 0
                &&& nl.orders[i].price == nl.price
                &&& nl.orders[i].side == o.side
            }) by {
                if i < l.orders.len() {
                    assert(nl.orders[i] == l.orders[i]);
                }
            }
            assert(wf_level(nl, o.side));
            assert(r =~= ls.drop_last().push(nl));
            assert forall|i: int| 0 <= i < r.len() implies wf_level(#[trigger] r[i], o.side) by {
                if i < ls.len() - 1 {
                    assert(r[i] == ls[i]);
                }
            }
            assert forall|i: int, j: int|
                0 <= i < j < r.len() implies better(o.side, #[trigger] r[j].price, #[trigger] r[i].price) by {
                assert(r[i].price == ls[i].price);
                assert(r[j].price == ls[j].price);
            }
        } else if better(o.side, o.price, l.price) {
            lemma_sum_single(o);
            lemma_levels_total_push(ls, new_level(o));
            assert forall|i: int| 0 <= i < r.len() implies wf_level(#[trigger] r[i], o.side) by {
                if i < ls.len() {
                    assert(r[i] == ls[i]);
                }
            }
            assert forall|i: int, j: int|
                0 <= i < j < r.len() implies better(o.side, #[trigger] r[j].price, #[trigger] r[i].price) by {
                if j == ls.len() {
                    if i < ls.len() - 1 {
                        assert(better(o.side, ls[ls.len() - 1].price, ls[i].price));
                    }
                } else {
                    assert(r[i] == ls[i]);
                    assert(r[j] == ls[j]);
                }
            }
        } else {
            let d = ls.drop_last();
            assert forall|i: int| 0 <= i < d.len() implies wf_level(#[trigger] d[i], o.side) by {
                assert(d[i] == ls[i]);
            }
            assert forall|i: int, j: int|
                0 <= i < j < d.len() implies better(o.side, #[trigger] d[j].price, #[trigger] d[i].price) by {
                assert(d[i] == ls[i]);
                assert(d[j] == ls[j]);
            }
            lemma_levels_total_push(d, l);
            lemma_rest(d, o);
            let rd = rest_spec(d, o);
            assert forall|j: int| 0 <= j < d.len() implies better(o.side, l.price, #[trigger] d[j].price) by {
                assert(d[j] == ls[j]);
            }
            lemma_rest_bound(d, o, l.price);
            lemma_levels_total_push(rd, l);
            assert(r =~= rd.push(l));
            assert forall|i: int| 0 <= i < r.len() implies wf_level(#[trigger] r[i], o.side) by {
                if i < rd.len() {
                    assert(r[i] == rd[i]);
                }
            }
            assert forall|i: int, j: int|
                0 <= i < j < r.len() implies better(o.side, #[trigger] r[j].price, #[trigger] r[i].price) by {
                if j == rd.len() {
                    assert(r[i] == rd[i]);
                } else {
                    assert(r[i] == rd[i]);
                    assert(r[j] == rd[j]);
                }
            }
        }
    }
}

// ---------------------------------------------------------------- stops

/// Stops that trigger no earlier than `x` stay so after queueing one more that does not.
pub proof fn lemma_stop_insert_bound(s: Seq<Order>, o: Order, x: Price)
    requires
        forall|j: int| 0 <= j < s.len() ==> !better(o.side, #[trigger] s[j].stop_price, x),
        !better(o.side, o.stop_price, x),
    ensures
        forall|j: int|
            0 <= j < stop_insert(s, o).len() ==> !better(
                o.side,
                #[trigger] stop_insert(s, o)[j].stop_price,
                x,
            ),
    decreases s.len(),
{
    if s.len() > 0 && better(o.side, s.last().stop_price, o.stop_price) {
        lemma_stop_insert_bound(s.drop_last(), o, x);
    }
}

pub proof fn lemma_stop_insert(s: Seq<Order>, o: Order)
    requires
        wf_stops(s, o.side),
        o.kind.is_stop(),
    ensures
        wf_stops(stop_insert(s, o), o.side),
        sum_remaining(stop_insert(s, o)) == sum_remaining(s) + o.remaining,
        stop_insert(s, o).len() == s.len() + 1,
    decreases s.len(),
{
    let r = stop_insert(s, o);
    if s.len() == 0 {
        lemma_sum_single(o);
        assert(sum_remaining(s) == 0);
    } else if better(o.side, s.last().stop_price, o.stop_price) {
        let d = s.drop_last();
        let l = s.last();
        assert forall|i: int, j: int|
            0 <= i < j < d.len() implies !better(o.side, #[trigger] d[i].stop_price, #[trigger] d[j].stop_price) by {
            assert(d[i] == s[i]);
            assert(d[j] == s[j]);
        }
        lemma_stop_insert(d, o);
        let rd = stop_insert(d, o);
        assert forall|j: int| 0 <= j < d.len() implies !better(o.side, #[trigger] d[j].stop_price, l.stop_price) by {
            assert(d[j] == s[j]);
        }
        lemma_stop_insert_bound(d, o, l.stop_price);
        lemma_sum_push(rd, l);
        assert(r =~= rd.push(l));
        assert forall|i: int, j: int|
            0 <= i < j < r.len() implies !better(o.side, #[trigger] r[i].stop_price, #[trigger] r[j].stop_price) by {
            assert(r[i] == rd[i]);
            if j < rd.len() {
                assert(r[j] == rd[j]);
            }
        }
    } else {
        lemma_sum_push(s, o);
        assert forall|i: int, j: int|
            0 <= i < j < r.len() implies !better(o.side, #[trigger] r[i].stop_price, #[trigger] r[j].stop_price) by {
            assert(r[i] == s[i]);
            if j < s.len() {
                assert(r[j] == s[j]);
            } else {
                if i < s.len() - 1 {
                    assert(!better(o.side, s[i].stop_price, s[s.len() - 1].stop_price));
                }
            }
        }
    }
}

pub proof fn lemma_stops_remove(s: Seq<Order>, side: Side, i: int)
    requires
        wf_stops(s, side),
        0 <= i < s.len(),
    ensures
        wf_stops(s.remove(i), side),
        sum_remaining(s.remove(i)) == sum_remaining(s) - s[i].remaining,
{
    lemma_sum_remove(s, i);
    let r = s.remove(i);
    assert forall|a: int, b: int|
        0 <= a < b < r.len() implies !better(side, #[trigger] r[a].stop_price, #[trigger] r[b].stop_price) by {
        let a2 = if a < i { a } else { a + 1 };
        let b2 = if b < i { b } else { b + 1 };
        assert(r[a] == s[a2]);
        assert(r[b] == s[b2]);
    }
    assert forall|a: int| 0 <= a < r.len() implies (#[trigger] r[a]).side == side && r[a].kind.is_stop() by {
        let a2 = if a < i { a } else { a + 1 };
        assert(r[a] == s[a2]);
    }
}

// ---------------------------------------------------------------- removal from levels

pub proof fn lemma_remove_from_levels(ls: Seq<LevelView>, side: Side, li: int, pi: int)
    requires
        wf_levels(ls, side),
        0 <= li < ls.len(),
        0 <= pi < ls[li].orders.len(),
    ensures
        wf_levels(remove_from_levels(ls, li, pi), side),
        levels_total(remove_from_levels(ls, li, pi)) == levels_total(ls)
            - ls[li].orders[pi].remaining,
        remove_from_levels(ls, li, pi).len() > 0 ==> ls.len() > 0 && !better(
            side,
            remove_from_levels(ls, li, pi).last().price,
            ls.last().price,
        ),
{
    let l = ls[li];
    assert(wf_level(ls[li], side));
    let rest = l.orders.remove(pi);
    lemma_sum_remove(l.orders, pi);
    lemma_sum_elem(l.orders, pi);
    let r = remove_from_levels(ls, li, pi);
    if rest.len() == 0 {
        lemma_levels_total_remove(ls, li);
        assert(l.orders.len() == 1);
        assert(rest =~= Seq::<Order>::empty());
        assert(sum_remaining(rest) == 0);
        assert forall|i: int| 0 <= i < r.len() implies wf_level(#[trigger] r[i], side) by {
            let i2 = if i < li { i } else { i + 1 };
            assert(r[i] == ls[i2]);
        }
        assert forall|a: int, b: int|
            0 <= a < b < r.len() implies better(side, #[trigger] r[b].price, #[trigger] r[a].price) by {
            let a2 = if a < li { a } else { a + 1 };
            let b2 = if b < li { b } else { b + 1 };
            assert(r[a] == ls[a2]);
            assert(r[b] == ls[b2]);
        }
        if r.len() > 0 {
            let k = r.len() - 1;
            let k2 = if k < li { k } else { k + 1 };
            assert(r[k] == ls[k2]);
            if k2 < ls.len() - 1 {
                assert(better(side, ls[ls.len() - 1].price, ls[k2].price));
            }
        }
    } else {
        let nl = LevelView {
            price: l.price,
            total_qty: sat_sub(l.total_qty, l.orders[pi].remaining),
            orders: rest,
        };
        lemma_levels_total_update(ls, li, nl);
        assert forall|i: int| 0 <= i < rest.len() implies ({
            &&& (#[trigger] rest[i]).remaining > 0
            &&& rest[i].price == l.price
            &&& rest[i].side == side
        }) by {
            let i2 = if i < pi { i } else { i + 1 };
            assert(rest[i] == l.orders[i2]);
        }
        assert(wf_level(nl, side));
        assert forall|i: int| 0 <= i < r.len() implies wf_level(#[trigger] r[i], side) by {
            if i != li {
                assert(r[i] == ls[i]);
            }
        }
        assert forall|a: int, b: int|
            0 <= a < b < r.len() implies better(side, #[trigger] r[b].price, #[trigger] r[a].price) by {
            assert(r[a].price == ls[a].price);
            assert(r[b].price == ls[b].price);
        }
        assert(r.last().price == ls.last().price);
    }
}

// ---------------------------------------------------------------- matching

/// A trade event carries a positive quantity.
pub open spec fn trades_positive(ev: Seq<OutputEvent>) -> bool {
    forall|i: int|
        0 <= i < ev.len() ==> match #[trigger] ev[i] {
            OutputEvent::Trade { qty, .. } => qty > 0,
            _ => true,
        }
}

/// Every trade among `ev` is at a price that a taker of this kind, side and limit
/// accepts.
pub open spec fn trades_cross(ev: Seq<OutputEvent>, kind: OrderType, side: Side, limit: Price) -> bool {
    forall|i: int|
        0 <= i < ev.len() ==> match #[trigger] ev[i] {
            OutputEvent::Trade { price, .. } => crosses(kind, side, limit, price),
            _ => true,
        }
}

/// Quantity of one event if it is a trade, zero otherwise.
pub open spec fn trade_qty(e: OutputEvent) -> int {
    match e {
        OutputEvent::Trade { qty, .. } => qty as int,
        _ => 0,
    }
}

/// Total quantity traded in a sequence of events.
pub open spec fn traded(ev: Seq<OutputEvent>) -> int
    decreases ev.len(),
{
    if ev.len() == 0 {
        0
    } else {
        trade_qty(ev[0]) + traded(ev.drop_first())
    }
}

pub proof fn lemma_traded_append(a: Seq<OutputEvent>, b: Seq<OutputEvent>)
    ensures
        traded(a + b) == traded(a) + traded(b),
    decreases a.len(),
{
    if a.len() == 0 {
        assert(a + b =~= b);
    } else {
        assert((a + b).drop_first() =~= a.drop_first() + b);
        lemma_traded_append(a.drop_first(), b);
    }
}

pub proof fn lemma_trades_positive_append(a: Seq<OutputEvent>, b: Seq<OutputEvent>)
    requires
        trades_positive(a),
        trades_positive(b),
    ensures
        trades_positive(a + b),
{
    assert forall|i: int| 0 <= i < (a + b).len() implies match #[trigger] (a + b)[i] {
        OutputEvent::Trade { qty, .. } => qty > 0,
        _ => true,
    } by {
        if i < a.len() {
            assert((a + b)[i] == a[i]);
        } else {
            assert((a + b)[i] == b[i - a.len()]);
        }
    }
}

pub proof fn lemma_match(opp: Seq<LevelView>, taker: Order, seq: SeqNo, ts: Ts, last: Option<Price>)
    requires
        wf_levels(opp, taker.side.opposite()),
    ensures
        ({
            let m = match_spec(opp, taker, seq, ts, last);
            &&& wf_levels(m.opp, taker.side.opposite())
            &&& m.taker == (Order { remaining: m.taker.remaining, ..taker })
            &&& m.taker.remaining <= taker.remaining
            &&& levels_total(m.opp) == levels_total(opp) - (taker.remaining - m.taker.remaining)
            &&& (m.opp.len() > 0 ==> opp.len() > 0 && !better(
                taker.side.opposite(),
                m.opp.last().price,
                opp.last().price,
            ))
            &&& (m.taker.remaining > 0 ==> m.opp.len() == 0 || !crosses(
                taker.kind,
                taker.side,
                taker.price,
                m.opp.last().price,
            ))
            &&& trades_positive(m.events)
            &&& (m.last_trade is None ==> last is None)
            &&& traded(m.events) == taker.remaining - m.taker.remaining
            &&& trades_cross(m.events, taker.kind, taker.side, taker.price)
            &&& (taker.kind != OrderType::Market && available_spec(opp, taker.side, taker.price)
                >= taker.remaining ==> m.taker.remaining == 0)
        }),
    decreases opp.len(), opp.last().orders.len(), taker.remaining,
{
    let side = taker.side.opposite();
    if taker.remaining == 0 || opp.len() == 0 || opp.last().orders.len() == 0 || !crosses(
        taker.kind,
        taker.side,
        taker.price,
        opp.last().price,
    ) {
        if opp.len() > 0 {
            assert(wf_level(opp[opp.len() - 1], side));
        }
        assert(trades_positive(Seq::<OutputEvent>::empty()));
        assert(traded(Seq::<OutputEvent>::empty()) == 0);
    } else {
        let n = opp.len() - 1;
        let lvl = opp.last();
        assert(wf_level(opp[n], side));
        let maker = lvl.orders[0];
        let q = min_qty(taker.remaining, maker.remaining);
        let taker2 = Order { remaining: (taker.remaining - q) as u64, ..taker };
        let maker_left = (maker.remaining - q) as u64;
        let popped_total = sat_sub(lvl.total_qty, maker.remaining);
        lemma_sum_elem(lvl.orders, 0);
        let trade = OutputEvent::Trade {
            seq,
            taker: taker.id,
            maker: maker.id,
            price: lvl.price,
            qty: q,
            side: taker.side,
            ts,
        };
        let opp2 = if maker_left == 0 {
            let rest = lvl.orders.drop_first();
            lemma_sum_drop_first(lvl.orders);
            if rest.len() == 0 {
                assert(levels_total(opp) == levels_total(opp.drop_last()) + lvl.total_qty);
                assert(sum_remaining(rest) == 0);
                assert forall|i: int| 0 <= i < opp.drop_last().len() implies wf_level(
                    #[trigger] opp.drop_last()[i],
                    side,
                ) by {
                    assert(opp.drop_last()[i] == opp[i]);
                }
                assert forall|a: int, b: int|
                    0 <= a < b < opp.drop_last().len() implies better(
                        side,
                        #[trigger] opp.drop_last()[b].price,
                        #[trigger] opp.drop_last()[a].price,
                    ) by {
                    assert(opp.drop_last()[a] == opp[a]);
                    assert(opp.drop_last()[b] == opp[b]);
                }
                if n > 0 {
                    assert(better(side, opp[n].price, opp[n - 1].price));
                }
                opp.drop_last()
            } else {
                let nl = LevelView { price: lvl.price, total_qty: popped_total, orders: rest };
                assert forall|i: int| 0 <= i < rest.len() implies ({
                    &&& (#[trigger] rest[i]).remaining > 0
                    &&& rest[i].price == lvl.price
                    &&& rest[i].side == side
                }) by {
                    assert(rest[i] == lvl.orders[i + 1]);
                }
                assert(wf_level(nl, side));
                lemma_levels_total_update(opp, n, nl);
                let o2 = opp.update(n, nl);
                assert forall|i: int| 0 <= i < o2.len() implies wf_level(#[trigger] o2[i], side) by {
                    if i != n {
                        assert(o2[i] == opp[i]);
                    }
                }
                assert forall|a: int, b: int|
                    0 <= a < b < o2.len() implies better(side, #[trigger] o2[b].price, #[trigger] o2[a].price) by {
                    assert(o2[a].price == opp[a].price);
                    assert(o2[b].price == opp[b].price);
                }
                o2
            }
        } else {
            let maker2 = Order { remaining: maker_left, ..maker };
            let nl = LevelView {
                price: lvl.price,
                total_qty: (popped_total + maker_left) as u64,
                orders: lvl.orders.update(0, maker2),
            };
            lemma_sum_update(lvl.orders, 0, maker2);
            assert(nl.orders[0] == maker2);
            assert(nl.total_qty == sum_remaining(nl.orders));
            assert forall|i: int| 0 <= i < nl.orders.len() implies ({
                &&& (#[trigger] nl.orders[i]).remaining > 0
                &&& nl.orders[i].price == lvl.price
                &&& nl.orders[i].side == side
            }) by {
                if i != 0 {
                    assert(nl.orders[i] == lvl.orders[i]);
                }
            }
            assert(wf_level(nl, side));
            lemma_levels_total_update(opp, n, nl);
            let o2 = opp.update(n, nl);
            assert forall|i: int| 0 <= i < o2.len() implies wf_level(#[trigger] o2[i], side) by {
                if i != n {
                    assert(o2[i] == opp[i]);
                }
            }
            assert forall|a: int, b: int|
                0 <= a < b < o2.len() implies better(side, #[trigger] o2[b].price, #[trigger] o2[a].price) by {
                assert(o2[a].price == opp[a].price);
                assert(o2[b].price == opp[b].price);
            }
            o2
        };
        lemma_match(opp2, taker2, seq, ts, Some(lvl.price));
        let r = match_spec(opp2, taker2, seq, ts, Some(lvl.price));
        let m = match_spec(opp, taker, seq, ts, last);
        assert(m.opp == r.opp);
        assert(m.taker == r.taker);
        let head = if maker_left == 0 {
            seq![trade, OutputEvent::Filled { id: maker.id, seq }]
        } else {
            seq![
                trade,
                OutputEvent::PartiallyFilled {
                    id: maker.id,
                    filled: q,
                    remaining: maker_left,
                    seq,
                },
            ]
        };
        assert(m.events == head + r.events);
        assert forall|i: int| 0 <= i < m.events.len() implies match #[trigger] m.events[i] {
            OutputEvent::Trade { qty, .. } => qty > 0,
            _ => true,
        } by {
            if i >= 2 {
                assert(m.events[i] == r.events[i - 2]);
            }
        }
        assert forall|i: int| 0 <= i < m.events.len() implies match #[trigger] m.events[i] {
            OutputEvent::Trade { price, .. } => crosses(taker.kind, taker.side, taker.price, price),
            _ => true,
        } by {
            if i >= 2 {
                assert(m.events[i] == r.events[i - 2]);
            }
        }
        lemma_traded_append(head, r.events);
        let x2 = head[1];
        assert(head.drop_first() =~= seq![x2]);
        assert(seq![x2].drop_first() =~= Seq::<OutputEvent>::empty());
        assert(traded(Seq::<OutputEvent>::empty()) == 0);
        assert(traded(seq![x2]) == 0);
        assert(traded(head) == q);
        if taker.kind != OrderType::Market && available_spec(opp, taker.side, taker.price)
            >= taker.remaining {
            if maker_left == 0 {
                let rest = lvl.orders.drop_first();
                if rest.len() > 0 {
                    assert(opp2.drop_last() =~= opp.drop_last());
                }
                assert(available_spec(opp2, taker.side, taker.price) == available_spec(
                    opp,
                    taker.side,
                    taker.price,
                ) - q);
            } else {
                assert(taker2.remaining == 0);
            }
        }
    }
}


// ---------------------------------------------------------------- whole book

pub proof fn lemma_level_bound(ls: Seq<LevelView>, extra: int)
    requires
        levels_total(ls) + extra <= u64::MAX,
    ensures
        forall|i: int| 0 <= i < ls.len() ==> (#[trigger] ls[i]).total_qty + extra <= u64::MAX,
{
    assert forall|i: int| 0 <= i < ls.len() implies (#[trigger] ls[i]).total_qty + extra <= u64::MAX by {
        lemma_levels_total_elem(ls, i);
    }
}

/// Matching a new order and resting its remainder keeps the book well formed, and adds
/// no more open quantity than the order brings.
pub proof fn lemma_after_match(b: BookView, no: NewOrder, seq: SeqNo, ts: Ts)
    requires
        b.wf(),
        b.qty_bound() + no.qty <= u64::MAX,
        !no.kind.is_stop(),
    ensures
        after_match(b, no, seq, ts).wf(),
        after_match(b, no, seq, ts).qty_bound() <= b.qty_bound() + no.qty,
        after_match(b, no, seq, ts).stop_buys == b.stop_buys,
        after_match(b, no, seq, ts).stop_sells == b.stop_sells,
        ({
            let m = match_spec(opp_levels(b, no.side), order_of(no, seq, ts), seq, ts, b.last_trade);
            &&& levels_total(own_levels(b, no.side)) + m.taker.remaining <= u64::MAX
            &&& m.taker == (Order { remaining: m.taker.remaining, ..order_of(no, seq, ts) })
            &&& m.taker.remaining <= no.qty
        }),
{
    let taker = order_of(no, seq, ts);
    let m = match_spec(opp_levels(b, no.side), taker, seq, ts, b.last_trade);
    lemma_match(opp_levels(b, no.side), taker, seq, ts, b.last_trade);
    lemma_levels_sums_nonneg(b.bids);
    lemma_levels_sums_nonneg(b.asks);
    lemma_sum_remaining_nonneg(b.stop_buys);
    lemma_sum_remaining_nonneg(b.stop_sells);
    let b1 = BookView { last_trade: m.last_trade, ..with_opp(b, no.side, m.opp) };
    let filled = no.qty - m.taker.remaining;
    assert(b1.qty_bound() == b.qty_bound() - filled);
    assert(levels_total(own_levels(b, no.side)) + m.taker.remaining <= u64::MAX);
    if no.kind == OrderType::Limit && m.taker.remaining > 0 {
        let own = own_levels(b1, no.side);
        assert(own == own_levels(b, no.side));
        lemma_rest(own, m.taker);
        let r = rest_spec(own, m.taker);
        let b2 = with_own(b1, no.side, r);
        assert(after_match(b, no, seq, ts) == b2);
        match no.side {
            Side::Buy => {
                assert(b2.bids == r);
                assert(b2.asks == m.opp);
                if r.len() > 0 && m.opp.len() > 0 {
                    assert(!crosses(taker.kind, taker.side, taker.price, m.opp.last().price));
                    assert(b.asks.len() > 0);
                }
            },
            Side::Sell => {
                assert(b2.asks == r);
                assert(b2.bids == m.opp);
                if r.len() > 0 && m.opp.len() > 0 {
                    assert(!crosses(taker.kind, taker.side, taker.price, m.opp.last().price));
                    assert(b.bids.len() > 0);
                }
            },
        }
        assert(b2.not_crossed());
    } else {
        assert(after_match(b, no, seq, ts) == b1);
        match no.side {
            Side::Buy => {
                if b1.bids.len() > 0 && b1.asks.len() > 0 {
                    assert(b.asks.len() > 0);
                }
            },
            Side::Sell => {
                if b1.bids.len() > 0 && b1.asks.len() > 0 {
                    assert(b.bids.len() > 0);
                }
            },
        }
        assert(b1.not_crossed());
    }
}

/// Taking an order out keeps the book well formed and removes its open quantity.
pub proof fn lemma_remove_at(b: BookView, loc: Loc)
    requires
        b.wf(),
        match loc {
            Loc::Bid { level, pos } => level < b.bids.len() && pos < b.bids[level as int].orders.len(),
            Loc::Ask { level, pos } => level < b.asks.len() && pos < b.asks[level as int].orders.len(),
            Loc::StopBuy { pos } => pos < b.stop_buys.len(),
            Loc::StopSell { pos } => pos < b.stop_sells.len(),
        },
    ensures
        remove_at(b, loc).wf(),
        remove_at(b, loc).qty_bound() == b.qty_bound() - order_at(b, loc).remaining,
        remove_at(b, loc).stop_count() <= b.stop_count(),
{
    match loc {
        Loc::Bid { level, pos } => {
            lemma_remove_from_levels(b.bids, Side::Buy, level as int, pos as int);
        },
        Loc::Ask { level, pos } => {
            lemma_remove_from_levels(b.asks, Side::Sell, level as int, pos as int);
        },
        Loc::StopBuy { pos } => {
            lemma_stops_remove(b.stop_buys, Side::Buy, pos as int);
        },
        Loc::StopSell { pos } => {
            lemma_stops_remove(b.stop_sells, Side::Sell, pos as int);
        },
    }
}

} // verus!
