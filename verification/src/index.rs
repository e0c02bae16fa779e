use vstd::prelude::*;
use crate::types::{OrderId, Price, SeqNo, Side, Ts};
use crate::order::Order;
use crate::events::{NewOrder, OutputEvent};
use crate::book::{better, wf_levels, BookView, LevelView, Location};
use crate::ids::{
    count_in, count_levels, id_count, ids_unique, ind, lemma_count_drop_first, lemma_count_push,
    lemma_count_remove, lemma_count_single, lemma_count_update, lemma_levels_count_remove,
    lemma_levels_count_update, lemma_match_ids, lemma_remove_at_count, lemma_rest_count,
    lemma_stop_insert_count,
};
use crate::model::{
    add_stop, crosses, match_spec, min_qty, opp_levels, order_at, order_of, own_levels, remove_at,
    rest_spec, sat_sub, stop_insert, remove_from_levels, with_opp, with_own, Loc, index_of_id,
    is_first_level, level_of_id,
};
use rustc_hash::{FxBuildHasher, FxHashMap};

verus! {

#[verifier::external_type_specification]
#[verifier::external_body]
pub struct ExFxBuildHasher(FxBuildHasher);

/// The index of a book: order identifier to where the order is held.
pub type IdIndex = FxHashMap<OrderId, Location>;

/// `FxHashMap::default` (a std `HashMap` with the Fx hasher): an empty map.
#[verifier::external_body]
pub(crate) fn index_new() -> (r: IdIndex)
    ensures
        r@.dom() == Set::<OrderId>::empty(),
{
    FxHashMap::default()
}

/// `HashMap::insert` on an `FxHashMap`: afterwards `id` maps to `loc`, every other key as
/// before.
#[verifier::external_body]
pub(crate) fn index_insert(m: &mut IdIndex, id: OrderId, loc: Location)
    ensures
        final(m)@ == old(m)@.insert(id, loc),
{
    m.insert(id, loc);
}

/// `HashMap::remove` on an `FxHashMap`: afterwards `id` maps to nothing, every other key
/// as before.
#[verifier::external_body]
pub(crate) fn index_remove(m: &mut IdIndex, id: OrderId)
    ensures
        final(m)@ == old(m)@.remove(id),
{
    m.remove(&id);
}

/// `HashMap::get` on an `FxHashMap`, copied out: what `id` maps to, if anything.
#[verifier::external_body]
pub(crate) fn index_get(m: &IdIndex, id: OrderId) -> (r: Option<Location>)
    ensures
        r == (if m@.contains_key(id) {
            Some(m@[id])
        } else {
            None
        }),
{
    m.get(&id).copied()
}

/// `HashMap::contains_key` on an `FxHashMap`: whether `id` maps to anything.
#[verifier::external_body]
pub(crate) fn index_contains(m: &IdIndex, id: OrderId) -> (r: bool)
    ensures
        r == m@.contains_key(id),
{
    m.contains_key(&id)
}

/// Price of the level of `ls` that holds identifier `id` (the last such level; 0 when
/// none does).
pub open spec fn level_price_of(ls: Seq<LevelView>, id: OrderId) -> Price
    decreases ls.len(),
{
    if ls.len() == 0 {
        0
    } else if count_in(ls.last().orders, id) > 0 {
        ls.last().price
    } else {
        level_price_of(ls.drop_last(), id)
    }
}

/// Stop price of the order of `s` with identifier `id` (the last such order; 0 when
/// there is none).
pub open spec fn stop_price_of(s: Seq<Order>, id: OrderId) -> Price
    decreases s.len(),
{
    if s.len() == 0 {
        0
    } else if s.last().id == id {
        s.last().stop_price
    } else {
        stop_price_of(s.drop_last(), id)
    }
}

/// Where the book holds identifier `id`: the side and price of its level, or the side and
/// stop price of the stop order waiting with it.
pub open spec fn held_at(b: BookView, id: OrderId) -> Location {
    if count_levels(b.bids, id) > 0 {
        Location { price: level_price_of(b.bids, id), side: Side::Buy, waiting: false }
    } else if count_levels(b.asks, id) > 0 {
        Location { price: level_price_of(b.asks, id), side: Side::Sell, waiting: false }
    } else if count_in(b.stop_buys, id) > 0 {
        Location { price: stop_price_of(b.stop_buys, id), side: Side::Buy, waiting: true }
    } else {
        Location { price: stop_price_of(b.stop_sells, id), side: Side::Sell, waiting: true }
    }
}

/// The index of a book maps exactly the identifiers it holds, each to where it is held.
pub open spec fn index_ok(idx: Map<OrderId, Location>, b: BookView) -> bool {
    &&& forall|id: OrderId| #[trigger] idx.contains_key(id) <==> id_count(b, id) > 0
    &&& forall|id: OrderId| #[trigger] idx.contains_key(id) ==> idx[id] == held_at(b, id)
}

/// Event `e` is the fill of the order with identifier `id`.
pub open spec fn is_fill_of(e: OutputEvent, id: OrderId) -> bool {
    match e {
        OutputEvent::Filled { id: x, .. } => x == id,
        _ => false,
    }
}

/// The order with identifier `id` is filled among `ev`.
pub open spec fn filled_in(ev: Seq<OutputEvent>, id: OrderId) -> bool {
    exists|i: int| 0 <= i < ev.len() && #[trigger] is_fill_of(ev[i], id)
}

// ---------------------------------------------------------------- prices of levels

pub proof fn lemma_level_price_holds(ls: Seq<LevelView>, id: OrderId)
    requires
        count_levels(ls, id) > 0,
    ensures
        exists|i: int|
            0 <= i < ls.len() && count_in((#[trigger] ls[i]).orders, id) > 0 && ls[i].price
                == level_price_of(ls, id),
    decreases ls.len(),
{
    let n = ls.len() - 1;
    if count_in(ls.last().orders, id) > 0 {
        assert(ls[n] == ls.last());
    } else {
        lemma_level_price_holds(ls.drop_last(), id);
        let i = choose|i: int|
            0 <= i < ls.drop_last().len() && count_in((#[trigger] ls.drop_last()[i]).orders, id) > 0
                && ls.drop_last()[i].price == level_price_of(ls.drop_last(), id);
        assert(ls.drop_last()[i] == ls[i]);
    }
}

pub proof fn lemma_stop_price_holds(s: Seq<Order>, id: OrderId)
    requires
        count_in(s, id) > 0,
    ensures
        exists|i: int| 0 <= i < s.len() && (#[trigger] s[i]).id == id && s[i].stop_price == stop_price_of(s, id),
    decreases s.len(),
{
    let n = s.len() - 1;
    if s.last().id == id {
        assert(s[n] == s.last());
    } else {
        lemma_stop_price_holds(s.drop_last(), id);
        let i = choose|i: int|
            0 <= i < s.drop_last().len() && (#[trigger] s.drop_last()[i]).id == id
                && s.drop_last()[i].stop_price == stop_price_of(s.drop_last(), id);
        assert(s.drop_last()[i] == s[i]);
    }
}

pub proof fn lemma_rest_price(ls: Seq<LevelView>, o: Order, id: OrderId)
    ensures
        id != o.id ==> level_price_of(rest_spec(ls, o), id) == level_price_of(ls, id),
        id == o.id && count_levels(ls, id) == 0 ==> level_price_of(rest_spec(ls, o), id) == o.price,
    decreases ls.len(),
{
    let r = rest_spec(ls, o);
    if ls.len() == 0 {
        assert(r.drop_last() =~= Seq::<LevelView>::empty());
        assert(level_price_of(Seq::<LevelView>::empty(), id) == 0);
        assert(r.last().orders == seq![o]);
        lemma_count_single(o, id);
    } else {
        let l = ls.last();
        let d = ls.drop_last();
        if l.price == o.price {
            assert(r.drop_last() =~= d);
            lemma_count_push(l.orders, o, id);
        } else if crate::book::better(o.side, o.price, l.price) {
            assert(r.drop_last() =~= ls);
            lemma_count_single(o, id);
        } else {
            lemma_rest_price(d, o, id);
            assert(r.drop_last() =~= rest_spec(d, o));
        }
    }
}

pub proof fn lemma_stop_insert_price(s: Seq<Order>, o: Order, id: OrderId)
    ensures
        id != o.id ==> stop_price_of(stop_insert(s, o), id) == stop_price_of(s, id),
        id == o.id && count_in(s, id) == 0 ==> stop_price_of(stop_insert(s, o), id) == o.stop_price,
    decreases s.len(),
{
    if s.len() == 0 {
        assert(seq![o].drop_last() =~= Seq::<Order>::empty());
        assert(stop_price_of(Seq::<Order>::empty(), id) == 0);
        assert(stop_insert(s, o) == seq![o]);
        assert(seq![o].last() == o);
    } else if crate::book::better(o.side, s.last().stop_price, o.stop_price) {
        lemma_stop_insert_price(s.drop_last(), o, id);
        let r = stop_insert(s.drop_last(), o).push(s.last());
        assert(r.drop_last() =~= stop_insert(s.drop_last(), o));
    } else {
        assert(s.push(o).drop_last() =~= s);
    }
}

pub proof fn lemma_stop_remove_price(s: Seq<Order>, i: int, id: OrderId)
    requires
        0 <= i < s.len(),
        s[i].id != id,
    ensures
        stop_price_of(s.remove(i), id) == stop_price_of(s, id),
    decreases s.len(),
{
    if i == s.len() - 1 {
        assert(s.remove(i) =~= s.drop_last());
    } else {
        assert(s.remove(i).drop_last() =~= s.drop_last().remove(i));
        assert(s.remove(i).last() == s.last());
        lemma_stop_remove_price(s.drop_last(), i, id);
    }
}

pub proof fn lemma_levels_update_price(ls: Seq<LevelView>, i: int, l: LevelView, id: OrderId)
    requires
        0 <= i < ls.len(),
        l.price == ls[i].price,
        (count_in(l.orders, id) > 0) == (count_in(ls[i].orders, id) > 0),
    ensures
        level_price_of(ls.update(i, l), id) == level_price_of(ls, id),
    decreases ls.len(),
{
    if i == ls.len() - 1 {
        assert(ls.update(i, l).drop_last() =~= ls.drop_last());
    } else {
        assert(ls.update(i, l).drop_last() =~= ls.drop_last().update(i, l));
        lemma_levels_update_price(ls.drop_last(), i, l, id);
    }
}

pub proof fn lemma_levels_remove_price(ls: Seq<LevelView>, i: int, id: OrderId)
    requires
        0 <= i < ls.len(),
        count_in(ls[i].orders, id) == 0,
    ensures
        level_price_of(ls.remove(i), id) == level_price_of(ls, id),
    decreases ls.len(),
{
    if i == ls.len() - 1 {
        assert(ls.remove(i) =~= ls.drop_last());
    } else {
        assert(ls.remove(i).drop_last() =~= ls.drop_last().remove(i));
        assert(ls.remove(i).last() == ls.last());
        lemma_levels_remove_price(ls.drop_last(), i, id);
    }
}

pub proof fn lemma_remove_from_levels_price(ls: Seq<LevelView>, li: int, pi: int, id: OrderId)
    requires
        0 <= li < ls.len(),
        0 <= pi < ls[li].orders.len(),
        ls[li].orders[pi].id != id,
    ensures
        level_price_of(remove_from_levels(ls, li, pi), id) == level_price_of(ls, id),
{
    let l = ls[li];
    let rest = l.orders.remove(pi);
    lemma_count_remove(l.orders, pi, id);
    if rest.len() == 0 {
        assert(rest =~= Seq::<Order>::empty());
        assert(count_in(rest, id) == 0);
        lemma_levels_remove_price(ls, li, id);
    } else {
        let nl = LevelView {
            price: l.price,
            total_qty: sat_sub(l.total_qty, l.orders[pi].remaining),
            orders: rest,
        };
        lemma_levels_update_price(ls, li, nl, id);
    }
}

// ---------------------------------------------------------------- matching

pub proof fn lemma_filled_in_head(head: Seq<OutputEvent>, rest: Seq<OutputEvent>, id: OrderId)
    ensures
        filled_in(head + rest, id) == (filled_in(head, id) || filled_in(rest, id)),
{
    let all = head + rest;
    if filled_in(head, id) {
        let i = choose|i: int| 0 <= i < head.len() && #[trigger] is_fill_of(head[i], id);
        assert(all[i] == head[i]);
        assert(is_fill_of(all[i], id));
    }
    if filled_in(rest, id) {
        let i = choose|i: int| 0 <= i < rest.len() && #[trigger] is_fill_of(rest[i], id);
        assert(all[head.len() + i] == rest[i]);
        assert(is_fill_of(all[head.len() + i], id));
    }
    if filled_in(all, id) {
        let i = choose|i: int| 0 <= i < all.len() && #[trigger] is_fill_of(all[i], id);
        if i < head.len() {
            assert(all[i] == head[i]);
            assert(is_fill_of(head[i], id));
        } else {
            assert(all[i] == rest[i - head.len()]);
            assert(is_fill_of(rest[i - head.len()], id));
        }
    }
}

/// With identifiers held at most once, matching takes out exactly the makers it fills
/// and leaves every other order where it was.
pub proof fn lemma_match_index(
    opp: Seq<LevelView>,
    taker: Order,
    seq: SeqNo,
    ts: Ts,
    last: Option<Price>,
)
    requires
        forall|id: OrderId| #[trigger] count_levels(opp, id) <= 1,
        count_levels(opp, taker.id) == 0,
    ensures
        ({
            let m = match_spec(opp, taker, seq, ts, last);
            &&& forall|id: OrderId|
                #[trigger] filled_in(m.events, id) ==> count_levels(m.opp, id) == 0 && count_levels(
                    opp,
                    id,
                ) == 1
            &&& forall|id: OrderId|
                !#[trigger] filled_in(m.events, id) ==> count_levels(m.opp, id) == count_levels(opp, id)
                    && level_price_of(m.opp, id) == level_price_of(opp, id)
        }),
    decreases opp.len(), opp.last().orders.len(), taker.remaining,
{
    let m = match_spec(opp, taker, seq, ts, last);
    if taker.remaining == 0 || opp.len() == 0 || opp.last().orders.len() == 0 || !crosses(
        taker.kind,
        taker.side,
        taker.price,
        opp.last().price,
    ) {
        assert forall|id: OrderId| !#[trigger] filled_in(m.events, id) by {
            assert(m.events.len() == 0);
        }
    } else {
        let n = opp.len() - 1;
        let lvl = opp.last();
        let maker = lvl.orders[0];
        let q = min_qty(taker.remaining, maker.remaining);
        let taker2 = Order { remaining: (taker.remaining - q) as u64, ..taker };
        let maker_left = (maker.remaining - q) as u64;
        let popped_total = sat_sub(lvl.total_qty, maker.remaining);
        crate::ids::lemma_count_elem(lvl.orders, 0);
        crate::ids::lemma_levels_count_elem(opp, n, maker.id);
        assert(opp[n] == lvl);
        let opp2 = if maker_left == 0 {
            let rest = lvl.orders.drop_first();
            if rest.len() == 0 {
                assert forall|id: OrderId| id != maker.id implies #[trigger] count_levels(opp.drop_last(), id)
                    == count_levels(opp, id) && level_price_of(opp.drop_last(), id) == level_price_of(opp, id) by {
                    lemma_count_drop_first(lvl.orders, id);
                    assert(count_in(lvl.orders, id) == 0);
                }
                opp.drop_last()
            } else {
                let nl = LevelView { price: lvl.price, total_qty: popped_total, orders: rest };
                assert forall|id: OrderId| id != maker.id implies #[trigger] count_levels(opp.update(n, nl), id)
                    == count_levels(opp, id) && level_price_of(opp.update(n, nl), id) == level_price_of(opp, id) by {
                    lemma_count_drop_first(lvl.orders, id);
                    lemma_levels_count_update(opp, n, nl, id);
                    lemma_levels_update_price(opp, n, nl, id);
                }
                lemma_count_drop_first(lvl.orders, maker.id);
                lemma_levels_count_update(opp, n, nl, maker.id);
                opp.update(n, nl)
            }
        } else {
            let maker2 = Order { remaining: maker_left, ..maker };
            let nl = LevelView {
                price: lvl.price,
                total_qty: (popped_total + maker_left) as u64,
                orders: lvl.orders.update(0, maker2),
            };
            assert forall|id: OrderId| #[trigger] count_levels(opp.update(n, nl), id) == count_levels(opp, id)
                && level_price_of(opp.update(n, nl), id) == level_price_of(opp, id) by {
                lemma_count_update(lvl.orders, 0, maker2, id);
                lemma_levels_count_update(opp, n, nl, id);
                lemma_levels_update_price(opp, n, nl, id);
            }
            opp.update(n, nl)
        };
        lemma_match_ids(opp, taker, seq, ts, last);
        lemma_match_ids(opp2, taker2, seq, ts, Some(lvl.price));
        assert forall|id: OrderId| #[trigger] count_levels(opp2, id) <= 1 by {
            if id != maker.id {
                assert(count_levels(opp2, id) == count_levels(opp, id));
            }
        }
        assert(count_levels(opp2, taker2.id) == 0) by {
            assert(taker2.id == taker.id);
            assert(taker.id != maker.id);
        }
        lemma_match_index(opp2, taker2, seq, ts, Some(lvl.price));
        let r = match_spec(opp2, taker2, seq, ts, Some(lvl.price));
        assert(m.opp == r.opp);
        let trade = OutputEvent::Trade {
            seq,
            taker: taker.id,
            maker: maker.id,
            price: lvl.price,
            qty: q,
            side: taker.side,
            ts,
        };
        let second = if maker_left == 0 {
            OutputEvent::Filled { id: maker.id, seq }
        } else {
            OutputEvent::PartiallyFilled { id: maker.id, filled: q, remaining: maker_left, seq }
        };
        let head = seq![trade, second];
        assert(m.events == head + r.events);
        assert forall|id: OrderId| #[trigger] filled_in(head, id) == (maker_left == 0 && id == maker.id) by {
            if filled_in(head, id) {
                let i = choose|i: int| 0 <= i < head.len() && #[trigger] is_fill_of(head[i], id);
                assert(i == 1);
            }
            if maker_left == 0 && id == maker.id {
                assert(is_fill_of(head[1], id));
            }
        }
        assert forall|id: OrderId| #[trigger] filled_in(m.events, id) implies count_levels(m.opp, id) == 0
            && count_levels(opp, id) == 1 by {
            lemma_filled_in_head(head, r.events, id);
            if maker_left == 0 && id == maker.id {
                assert(count_levels(r.opp, id) <= count_levels(opp2, id));
                if lvl.orders.drop_first().len() == 0 {
                    crate::ids::lemma_levels_count_remove(opp, n, id);
                    assert(opp.remove(n) =~= opp.drop_last());
                    lemma_count_drop_first(lvl.orders, id);
                }
            }
        }
        assert forall|id: OrderId| !#[trigger] filled_in(m.events, id) implies count_levels(m.opp, id)
            == count_levels(opp, id) && level_price_of(m.opp, id) == level_price_of(opp, id) by {
            lemma_filled_in_head(head, r.events, id);
        }
    }
}

// ---------------------------------------------------------------- the index kept in step

/// After matching a new order whose identifier the book does not hold, the index without
/// the filled makers is the index of the book.
pub proof fn lemma_index_after_match(
    b: BookView,
    idx0: Map<OrderId, Location>,
    idx1: Map<OrderId, Location>,
    no: NewOrder,
    seq: SeqNo,
    ts: Ts,
)
    requires
        ids_unique(b),
        index_ok(idx0, b),
        id_count(b, no.id) == 0,
        forall|id: OrderId|
            #[trigger] idx1.contains_key(id) == (idx0.contains_key(id) && !filled_in(
                match_spec(opp_levels(b, no.side), order_of(no, seq, ts), seq, ts, b.last_trade).events,
                id,
            )),
        forall|id: OrderId| #[trigger] idx1.contains_key(id) ==> idx1[id] == idx0[id],
    ensures
        ({
            let m = match_spec(opp_levels(b, no.side), order_of(no, seq, ts), seq, ts, b.last_trade);
            let b1 = BookView { last_trade: m.last_trade, ..with_opp(b, no.side, m.opp) };
            &&& ids_unique(b1)
            &&& index_ok(idx1, b1)
            &&& id_count(b1, no.id) == 0
        }),
{
    let taker = order_of(no, seq, ts);
    let opp = opp_levels(b, no.side);
    let m = match_spec(opp, taker, seq, ts, b.last_trade);
    let b1 = BookView { last_trade: m.last_trade, ..with_opp(b, no.side, m.opp) };
    assert forall|id: OrderId| #[trigger] count_levels(opp, id) <= 1 by {
        assert(id_count(b, id) <= 1);
    }
    lemma_match_index(opp, taker, seq, ts, b.last_trade);
    assert forall|id: OrderId|
        #[trigger] id_count(b1, id) == (if filled_in(m.events, id) {
            0
        } else {
            id_count(b, id)
        }) && (!filled_in(m.events, id) ==> held_at(b1, id) == held_at(b, id)) by {
        assert(id_count(b, id) <= 1);
        if filled_in(m.events, id) {
            assert(count_levels(opp, id) == 1);
        }
    }
    assert forall|id: OrderId| #[trigger] id_count(b1, id) <= 1 by {
        assert(id_count(b, id) <= 1);
        assert(id_count(b1, id) == (if filled_in(m.events, id) {
            0
        } else {
            id_count(b, id)
        }));
    }
    assert(id_count(b1, no.id) == 0) by {
        assert(id_count(b1, no.id) == (if filled_in(m.events, no.id) {
            0
        } else {
            id_count(b, no.id)
        }));
    }
    assert forall|id: OrderId| #[trigger] idx1.contains_key(id) <==> id_count(b1, id) > 0 by {
        assert(id_count(b1, id) == (if filled_in(m.events, id) {
            0
        } else {
            id_count(b, id)
        }));
    }
    assert forall|id: OrderId| #[trigger] idx1.contains_key(id) implies idx1[id] == held_at(b1, id) by {
        assert(!filled_in(m.events, id));
        assert(held_at(b1, id) == held_at(b, id));
    }
}

/// Resting an order whose identifier the book does not hold adds it to the index at its
/// side and price.
pub proof fn lemma_index_after_rest(b: BookView, idx: Map<OrderId, Location>, o: Order)
    requires
        ids_unique(b),
        index_ok(idx, b),
        id_count(b, o.id) == 0,
    ensures
        ({
            let b2 = with_own(b, o.side, rest_spec(own_levels(b, o.side), o));
            &&& ids_unique(b2)
            &&& index_ok(idx.insert(o.id, Location { price: o.price, side: o.side, waiting: false }), b2)
        }),
{
    let b2 = with_own(b, o.side, rest_spec(own_levels(b, o.side), o));
    let idx2 = idx.insert(o.id, Location { price: o.price, side: o.side, waiting: false });
    assert forall|id: OrderId|
        #[trigger] id_count(b2, id) == id_count(b, id) + ind(id == o.id) && (id != o.id ==> held_at(b2, id)
            == held_at(b, id)) by {
        lemma_rest_count(own_levels(b, o.side), o, id);
        lemma_rest_price(own_levels(b, o.side), o, id);
    }
    assert forall|id: OrderId| #[trigger] id_count(b2, id) <= 1 by {
        assert(id_count(b, id) <= 1);
        assert(id_count(b2, id) == id_count(b, id) + ind(id == o.id));
    }
    assert forall|id: OrderId| #[trigger] idx2.contains_key(id) <==> id_count(b2, id) > 0 by {
        assert(id_count(b2, id) == id_count(b, id) + ind(id == o.id));
    }
    assert forall|id: OrderId| #[trigger] idx2.contains_key(id) implies idx2[id] == held_at(b2, id) by {
        if id == o.id {
            lemma_rest_count(own_levels(b, o.side), o, id);
            lemma_rest_price(own_levels(b, o.side), o, id);
            match o.side {
                Side::Buy => {},
                Side::Sell => {
                    assert(count_levels(b2.bids, id) == count_levels(b.bids, id));
                },
            }
        } else {
            assert(held_at(b2, id) == held_at(b, id));
        }
    }
}

/// Queueing a stop order whose identifier the book does not hold adds it to the index as
/// waiting at its stop price.
pub proof fn lemma_index_after_stop(b: BookView, idx: Map<OrderId, Location>, o: Order)
    requires
        ids_unique(b),
        index_ok(idx, b),
        id_count(b, o.id) == 0,
    ensures
        ids_unique(add_stop(b, o)),
        index_ok(idx.insert(o.id, Location { price: o.stop_price, side: o.side, waiting: true }), add_stop(b, o)),
{
    let b2 = add_stop(b, o);
    let idx2 = idx.insert(o.id, Location { price: o.stop_price, side: o.side, waiting: true });
    assert forall|id: OrderId|
        #[trigger] id_count(b2, id) == id_count(b, id) + ind(id == o.id) && (id != o.id ==> held_at(b2, id)
            == held_at(b, id)) by {
        match o.side {
            Side::Buy => {
                lemma_stop_insert_count(b.stop_buys, o, id);
                lemma_stop_insert_price(b.stop_buys, o, id);
            },
            Side::Sell => {
                lemma_stop_insert_count(b.stop_sells, o, id);
                lemma_stop_insert_price(b.stop_sells, o, id);
            },
        }
    }
    assert forall|id: OrderId| #[trigger] id_count(b2, id) <= 1 by {
        assert(id_count(b, id) <= 1);
        assert(id_count(b2, id) == id_count(b, id) + ind(id == o.id));
    }
    assert forall|id: OrderId| #[trigger] idx2.contains_key(id) <==> id_count(b2, id) > 0 by {
        assert(id_count(b2, id) == id_count(b, id) + ind(id == o.id));
    }
    assert forall|id: OrderId| #[trigger] idx2.contains_key(id) implies idx2[id] == held_at(b2, id) by {
        if id == o.id {
            match o.side {
                Side::Buy => {
                    lemma_stop_insert_count(b.stop_buys, o, id);
                    lemma_stop_insert_price(b.stop_buys, o, id);
                },
                Side::Sell => {
                    lemma_stop_insert_count(b.stop_sells, o, id);
                    lemma_stop_insert_price(b.stop_sells, o, id);
                },
            }
        } else {
            assert(held_at(b2, id) == held_at(b, id));
        }
    }
}

/// Taking an order out removes its identifier from the index.
pub proof fn lemma_index_after_remove(b: BookView, idx: Map<OrderId, Location>, loc: Loc)
    requires
        ids_unique(b),
        index_ok(idx, b),
        crate::matcher::loc_valid(b, loc),
    ensures
        ids_unique(remove_at(b, loc)),
        index_ok(idx.remove(order_at(b, loc).id), remove_at(b, loc)),
{
    let b2 = remove_at(b, loc);
    let gone = order_at(b, loc).id;
    let idx2 = idx.remove(gone);
    assert forall|id: OrderId|
        #[trigger] id_count(b2, id) + ind(gone == id) == id_count(b, id) && (id != gone ==> held_at(b2, id)
            == held_at(b, id)) by {
        lemma_remove_at_count(b, loc, id);
        if id != gone {
            match loc {
                Loc::Bid { level, pos } => lemma_remove_from_levels_price(b.bids, level as int, pos as int, id),
                Loc::Ask { level, pos } => lemma_remove_from_levels_price(b.asks, level as int, pos as int, id),
                Loc::StopBuy { pos } => lemma_stop_remove_price(b.stop_buys, pos as int, id),
                Loc::StopSell { pos } => lemma_stop_remove_price(b.stop_sells, pos as int, id),
            }
        }
    }
    assert forall|id: OrderId| #[trigger] id_count(b2, id) <= 1 by {
        assert(id_count(b, id) <= 1);
        assert(id_count(b2, id) + ind(gone == id) == id_count(b, id));
    }
    assert forall|id: OrderId| #[trigger] idx2.contains_key(id) <==> id_count(b2, id) > 0 by {
        assert(id_count(b, id) <= 1);
        assert(id_count(b2, id) + ind(gone == id) == id_count(b, id));
        if id == gone {
            lemma_remove_at_count(b, loc, id);
        }
    }
    assert forall|id: OrderId| #[trigger] idx2.contains_key(id) implies idx2[id] == held_at(b2, id) by {
        assert(held_at(b2, id) == held_at(b, id));
    }
}

/// In well-formed levels holding `id` once, the level at the price the index records is
/// the one that holds it.
pub proof fn lemma_held_level(ls: Seq<LevelView>, side: Side, id: OrderId, li: int)
    requires
        wf_levels(ls, side),
        count_levels(ls, id) == 1,
        0 <= li < ls.len(),
        ls[li].price == level_price_of(ls, id),
    ensures
        level_of_id(ls, id) == Some(li),
        index_of_id(ls[li].orders, id) is Some,
{
    lemma_level_price_holds(ls, id);
    let i = choose|i: int|
        0 <= i < ls.len() && count_in((#[trigger] ls[i]).orders, id) > 0 && ls[i].price
            == level_price_of(ls, id);
    if i < li {
        assert(better(side, ls[li].price, ls[i].price));
    } else if i > li {
        assert(better(side, ls[i].price, ls[li].price));
    }
    assert(i == li);
    lemma_levels_count_remove(ls, li, id);
    let rest = ls.remove(li);
    assert forall|j: int| 0 <= j < ls.len() && j != li implies count_in((#[trigger] ls[j]).orders, id) == 0 by {
        let j2 = if j < li { j } else { j - 1 };
        assert(rest[j2] == ls[j]);
        crate::ids::lemma_levels_count_elem(rest, j2, id);
    }
    crate::ids::lemma_index_of_id_count(ls[li].orders, id);
    assert forall|j: int| 0 <= j < li implies index_of_id((#[trigger] ls[j]).orders, id) is None by {
        crate::ids::lemma_index_of_id_count(ls[j].orders, id);
    }
    assert(is_first_level(ls, id, li));
    let c = choose|c: int| is_first_level(ls, id, c);
    assert(is_first_level(ls, id, c));
    if c < li {
        assert(index_of_id(ls[c].orders, id) is Some);
        crate::ids::lemma_index_of_id_count(ls[c].orders, id);
    } else if c > li {
        assert(index_of_id(ls[li].orders, id) is None);
    }
}

} // verus!
