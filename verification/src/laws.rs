use vstd::prelude::*;
use crate::types::{OrderId, OrderType, Price, RejectReason, SeqNo, Side, Ts};
use crate::events::{Command, NewOrder, OutputEvent, Sequenced};
use crate::order::Order;
use crate::book::{
    better, levels_orders_total, levels_total, wf_level, wf_levels, BookView, LevelView,
    lemma_levels_sums_nonneg, lemma_sum_remaining_nonneg,
};
use crate::model::{
    add_stop, after_match, apply_new_spec, apply_spec, available_spec, cancel_spec,
    closing_events, crosses, drain_buys, drain_sells, has_id, index_of_id, is_first_id, is_first_level,
    level_of_id, locate_spec, match_events, match_spec, min_qty, opp_levels, order_at, order_of, reject,
    remove_at, replacement, rest_spec, triggered,
};
use crate::lemmas::{
    lemma_after_match, lemma_match, lemma_remove_at, lemma_stop_insert, lemma_stops_remove,
    lemma_traded_append, lemma_trades_positive_append, traded, trades_cross, trades_positive,
};
use crate::matcher::{incoming_qty, loc_valid};
use crate::index::{filled_in, is_fill_of};

verus! {

/// The positions of a book fit in `usize`, as they do for any book held in memory.
pub open spec fn fits_usize(b: BookView) -> bool {
    &&& b.bids.len() <= usize::MAX
    &&& b.asks.len() <= usize::MAX
    &&& b.stop_buys.len() <= usize::MAX
    &&& b.stop_sells.len() <= usize::MAX
    &&& forall|i: int| 0 <= i < b.bids.len() ==> (#[trigger] b.bids[i]).orders.len() <= usize::MAX
    &&& forall|i: int| 0 <= i < b.asks.len() ==> (#[trigger] b.asks[i]).orders.len() <= usize::MAX
}

proof fn lemma_no_trade_events(ev: Seq<OutputEvent>)
    requires
        forall|i: int| 0 <= i < ev.len() ==> !((#[trigger] ev[i]) is Trade),
    ensures
        trades_positive(ev),
{
    assert forall|i: int| 0 <= i < ev.len() implies match #[trigger] ev[i] {
        OutputEvent::Trade { qty, .. } => qty > 0,
        _ => true,
    } by {
        assert(!(ev[i] is Trade));
    }
}

proof fn lemma_closing_no_trade(no: NewOrder, left: u64, seq: SeqNo)
    ensures
        trades_positive(closing_events(no, left, seq)),
{
    lemma_no_trade_events(closing_events(no, left, seq));
}

/// A new order applied to a well-formed book leaves it well formed, adds no more open
/// quantity than it brings, and reports only trades of positive quantity.
proof fn lemma_apply_new_inv(b: BookView, no: NewOrder, seq: SeqNo, ts: Ts)
    requires
        b.wf(),
        b.qty_bound() + no.qty <= u64::MAX,
    ensures
        apply_new_spec(b, no, seq, ts).0.wf(),
        apply_new_spec(b, no, seq, ts).0.qty_bound() <= b.qty_bound() + no.qty,
        !no.kind.is_stop() ==> apply_new_spec(b, no, seq, ts).0.stop_count() <= b.stop_count(),
        trades_positive(apply_new_spec(b, no, seq, ts).1),
    decreases b.stop_count(), 2nat,
{
    let r = apply_new_spec(b, no, seq, ts);
    lemma_levels_sums_nonneg(b.bids);
    lemma_levels_sums_nonneg(b.asks);
    lemma_sum_remaining_nonneg(b.stop_buys);
    lemma_sum_remaining_nonneg(b.stop_sells);
    if no.qty == 0 || has_id(b, no.id) || (no.kind.needs_price() && no.price <= 0) {
        lemma_no_trade_events(r.1);
    } else if no.kind.is_stop() {
        let o = order_of(no, seq, ts);
        match no.side {
            Side::Buy => lemma_stop_insert(b.stop_buys, o),
            Side::Sell => lemma_stop_insert(b.stop_sells, o),
        }
        assert(r.0 == add_stop(b, o));
        lemma_no_trade_events(r.1);
    } else if no.kind == OrderType::Fok && available_spec(opp_levels(b, no.side), no.side, no.price)
        < no.qty {
        lemma_no_trade_events(r.1);
    } else {
        lemma_after_match(b, no, seq, ts);
        let taker = order_of(no, seq, ts);
        lemma_match(opp_levels(b, no.side), taker, seq, ts, b.last_trade);
        let m = match_spec(opp_levels(b, no.side), taker, seq, ts, b.last_trade);
        let b2 = after_match(b, no, seq, ts);
        let ev = match_events(b, no, seq, ts);
        let acc = seq![OutputEvent::Accepted { id: no.id, seq }];
        lemma_no_trade_events(acc);
        lemma_closing_no_trade(no, m.taker.remaining, seq);
        lemma_trades_positive_append(acc, m.events);
        lemma_trades_positive_append(acc + m.events, closing_events(no, m.taker.remaining, seq));
        match b2.last_trade {
            None => {},
            Some(last) => {
                lemma_drain_buys_inv(b2, last, seq, ts, b.stop_count());
                let r1 = drain_buys(b2, last, seq, ts, b.stop_count());
                lemma_drain_sells_inv(r1.0, last, seq, ts, b.stop_count());
                let r2 = drain_sells(r1.0, last, seq, ts, b.stop_count());
                lemma_trades_positive_append(ev, r1.1);
                lemma_trades_positive_append(ev + r1.1, r2.1);
            },
        }
    }
}

/// Triggering buy stops keeps the book well formed and adds no open quantity.
proof fn lemma_drain_buys_inv(b: BookView, last: Price, seq: SeqNo, ts: Ts, fuel: nat)
    requires
        b.wf(),
        b.stop_count() <= fuel,
    ensures
        drain_buys(b, last, seq, ts, fuel).0.wf(),
        drain_buys(b, last, seq, ts, fuel).0.qty_bound() <= b.qty_bound(),
        drain_buys(b, last, seq, ts, fuel).0.stop_count() <= b.stop_count(),
        trades_positive(drain_buys(b, last, seq, ts, fuel).1),
    decreases fuel, 1nat,
{
    if fuel == 0 || b.stop_count() > fuel || b.stop_buys.len() == 0 || b.stop_buys[0].stop_price
        > last {
        lemma_no_trade_events(Seq::<OutputEvent>::empty());
    } else {
        let o = b.stop_buys[0];
        let b1 = BookView { stop_buys: b.stop_buys.drop_first(), ..b };
        lemma_stops_remove(b.stop_buys, Side::Buy, 0);
        assert(b.stop_buys.remove(0) =~= b.stop_buys.drop_first());
        lemma_sum_remaining_nonneg(b1.stop_buys);
        lemma_apply_new_inv(b1, triggered(o), seq, ts);
        let r1 = apply_new_spec(b1, triggered(o), seq, ts);
        lemma_drain_buys_inv(r1.0, last, seq, ts, (fuel - 1) as nat);
        let r2 = drain_buys(r1.0, last, seq, ts, (fuel - 1) as nat);
        lemma_trades_positive_append(r1.1, r2.1);
    }
}

/// Triggering sell stops keeps the book well formed and adds no open quantity.
proof fn lemma_drain_sells_inv(b: BookView, last: Price, seq: SeqNo, ts: Ts, fuel: nat)
    requires
        b.wf(),
        b.stop_count() <= fuel,
    ensures
        drain_sells(b, last, seq, ts, fuel).0.wf(),
        drain_sells(b, last, seq, ts, fuel).0.qty_bound() <= b.qty_bound(),
        drain_sells(b, last, seq, ts, fuel).0.stop_count() <= b.stop_count(),
        trades_positive(drain_sells(b, last, seq, ts, fuel).1),
    decreases fuel, 0nat,
{
    if fuel == 0 || b.stop_count() > fuel || b.stop_sells.len() == 0
        || b.stop_sells[0].stop_price < last {
        lemma_no_trade_events(Seq::<OutputEvent>::empty());
    } else {
        let o = b.stop_sells[0];
        let b1 = BookView { stop_sells: b.stop_sells.drop_first(), ..b };
        lemma_stops_remove(b.stop_sells, Side::Sell, 0);
        assert(b.stop_sells.remove(0) =~= b.stop_sells.drop_first());
        lemma_sum_remaining_nonneg(b1.stop_sells);
        lemma_apply_new_inv(b1, triggered(o), seq, ts);
        let r1 = apply_new_spec(b1, triggered(o), seq, ts);
        lemma_drain_sells_inv(r1.0, last, seq, ts, (fuel - 1) as nat);
        let r2 = drain_sells(r1.0, last, seq, ts, (fuel - 1) as nat);
        lemma_trades_positive_append(r1.1, r2.1);
    }
}

/// The positions of a book held in memory fit in `usize`.
pub proof fn lemma_book_fits(b: &crate::book::OrderBook)
    ensures
        fits_usize(b@),
{
    assert(b.bids.len() == b.bids@.len());
    assert(b.asks.len() == b.asks@.len());
    assert(b.stop_buys.len() == b.stop_buys@.len());
    assert(b.stop_sells.len() == b.stop_sells@.len());
    assert forall|i: int| 0 <= i < b@.bids.len() implies (#[trigger] b@.bids[i]).orders.len() <= usize::MAX by {
        assert(b.bids@[i].orders.len() == b.bids@[i].orders@.len());
    }
    assert forall|i: int| 0 <= i < b@.asks.len() implies (#[trigger] b@.asks[i]).orders.len() <= usize::MAX by {
        assert(b.asks@[i].orders.len() == b.asks@[i].orders@.len());
    }
}

/// A location found by identifier lies within the book and holds that identifier.
pub proof fn lemma_locate_valid(b: BookView, id: OrderId)
    requires
        fits_usize(b),
    ensures
        locate_spec(b, id) matches Some(loc) ==> loc_valid(b, loc) && order_at(b, loc).id == id,
{
    if level_of_id(b.bids, id) is Some {
        let li = choose|i: int| is_first_level(b.bids, id, i);
        assert(is_first_level(b.bids, id, li));
        let pi = choose|i: int| is_first_id(b.bids[li].orders, id, i);
        assert(is_first_id(b.bids[li].orders, id, pi));
    } else if level_of_id(b.asks, id) is Some {
        let li = choose|i: int| is_first_level(b.asks, id, i);
        assert(is_first_level(b.asks, id, li));
        let pi = choose|i: int| is_first_id(b.asks[li].orders, id, i);
        assert(is_first_id(b.asks[li].orders, id, pi));
    } else if index_of_id(b.stop_buys, id) is Some {
        let pi = choose|i: int| is_first_id(b.stop_buys, id, i);
        assert(is_first_id(b.stop_buys, id, pi));
    } else if index_of_id(b.stop_sells, id) is Some {
        let pi = choose|i: int| is_first_id(b.stop_sells, id, i);
        assert(is_first_id(b.stop_sells, id, pi));
    }
}

/// The first of `ev` is the answer to the order with identifier `id`: its acceptance or
/// its rejection.
pub open spec fn answers(ev: Seq<OutputEvent>, id: OrderId) -> bool {
    ev.len() > 0 && match ev[0] {
        OutputEvent::Accepted { id: x, .. } => x == id,
        OutputEvent::Rejected { id: x, .. } => x == id,
        _ => false,
    }
}

/// Every new order is answered first, by its acceptance or its rejection.
proof fn lemma_new_order_answered(b: BookView, no: NewOrder, seq: SeqNo, ts: Ts)
    ensures
        answers(apply_new_spec(b, no, seq, ts).1, no.id),
{
    let r = apply_new_spec(b, no, seq, ts);
    if !(no.qty == 0 || has_id(b, no.id) || (no.kind.needs_price() && no.price <= 0) || no.kind.is_stop()
        || (no.kind == OrderType::Fok && available_spec(opp_levels(b, no.side), no.side, no.price)
        < no.qty)) {
        let b2 = after_match(b, no, seq, ts);
        let ev = match_events(b, no, seq, ts);
        assert(ev[0] == OutputEvent::Accepted { id: no.id, seq });
        match b2.last_trade {
            None => {},
            Some(last) => {
                let r1 = drain_buys(b2, last, seq, ts, b.stop_count());
                let r2 = drain_sells(r1.0, last, seq, ts, b.stop_count());
                assert((ev + r1.1 + r2.1)[0] == ev[0]);
            },
        }
    }
}

/// A buy stop waits while the last trade is below its stop price: when the first buy stop
/// in trigger order (the lowest stop price) is priced above the last trade, or there is
/// none, triggering buy stops changes nothing and reports nothing.
pub proof fn law_buy_stops_wait_below_their_price(b: BookView, last: Price, seq: SeqNo, ts: Ts, fuel: nat)
    requires
        b.stop_buys.len() > 0 ==> b.stop_buys[0].stop_price > last,
    ensures
        drain_buys(b, last, seq, ts, fuel) == (b, Seq::<OutputEvent>::empty()),
{
}

/// A buy stop fires once the last trade reaches its stop price: when the first buy stop in
/// trigger order is priced at or below the last trade, triggering buy stops submits it
/// first, and its answer is the first event reported.
pub proof fn law_buy_stop_fires_at_its_price(b: BookView, last: Price, seq: SeqNo, ts: Ts, fuel: nat)
    requires
        b.stop_buys.len() > 0,
        b.stop_buys[0].stop_price <= last,
        0 < b.stop_count() <= fuel,
    ensures
        answers(drain_buys(b, last, seq, ts, fuel).1, b.stop_buys[0].id),
{
    let o = b.stop_buys[0];
    let b1 = BookView { stop_buys: b.stop_buys.drop_first(), ..b };
    lemma_new_order_answered(b1, triggered(o), seq, ts);
    let r1 = apply_new_spec(b1, triggered(o), seq, ts);
    let r2 = drain_buys(r1.0, last, seq, ts, (fuel - 1) as nat);
    assert((r1.1 + r2.1)[0] == r1.1[0]);
}

/// A sell stop waits while the last trade is above its stop price: when the first sell
/// stop in trigger order (the highest stop price) is priced below the last trade, or there
/// is none, triggering sell stops changes nothing and reports nothing.
pub proof fn law_sell_stops_wait_above_their_price(b: BookView, last: Price, seq: SeqNo, ts: Ts, fuel: nat)
    requires
        b.stop_sells.len() > 0 ==> b.stop_sells[0].stop_price < last,
    ensures
        drain_sells(b, last, seq, ts, fuel) == (b, Seq::<OutputEvent>::empty()),
{
}

/// A sell stop fires once the last trade falls to its stop price: when the first sell stop
/// in trigger order is priced at or above the last trade, triggering sell stops submits it
/// first, and its answer is the first event reported.
pub proof fn law_sell_stop_fires_at_its_price(b: BookView, last: Price, seq: SeqNo, ts: Ts, fuel: nat)
    requires
        b.stop_sells.len() > 0,
        b.stop_sells[0].stop_price >= last,
        0 < b.stop_count() <= fuel,
    ensures
        answers(drain_sells(b, last, seq, ts, fuel).1, b.stop_sells[0].id),
{
    let o = b.stop_sells[0];
    let b1 = BookView { stop_sells: b.stop_sells.drop_first(), ..b };
    lemma_new_order_answered(b1, triggered(o), seq, ts);
    let r1 = apply_new_spec(b1, triggered(o), seq, ts);
    let r2 = drain_sells(r1.0, last, seq, ts, (fuel - 1) as nat);
    assert((r1.1 + r2.1)[0] == r1.1[0]);
}

/// No command can leave the book crossed or its level totals out of step with the
/// orders they hold: every command applied to a well-formed book leaves it well formed
/// (best bid below best ask whenever both sides hold orders; each level non-empty, its
/// total equal to its orders' open quantity; levels strictly ordered by price; stops in
/// trigger order), every trade it reports has a positive quantity, and the book holds no
/// more open quantity than before plus what the command brings.
pub proof fn law_apply_keeps_book_valid(b: BookView, cmd: Sequenced)
    requires
        b.wf(),
        fits_usize(b),
        b.qty_bound() + incoming_qty(cmd.cmd) <= u64::MAX,
    ensures
        apply_spec(b, cmd).0.wf(),
        apply_spec(b, cmd).0.not_crossed(),
        trades_positive(apply_spec(b, cmd).1),
        apply_spec(b, cmd).0.qty_bound() <= b.qty_bound() + incoming_qty(cmd.cmd),
{
    match cmd.cmd {
        Command::New(no) => {
            lemma_apply_new_inv(b, no, cmd.seq, cmd.ts);
        },
        Command::Cancel { id, .. } => {
            lemma_locate_valid(b, id);
            match locate_spec(b, id) {
                None => {},
                Some(loc) => {
                    lemma_remove_at(b, loc);
                },
            }
            lemma_no_trade_events(apply_spec(b, cmd).1);
        },
        Command::Replace { id, new_price, new_qty, .. } => {
            lemma_locate_valid(b, id);
            if new_qty == 0 {
                lemma_no_trade_events(apply_spec(b, cmd).1);
            } else {
                match locate_spec(b, id) {
                    None => {
                        lemma_no_trade_events(apply_spec(b, cmd).1);
                    },
                    Some(loc) => {
                        lemma_remove_at(b, loc);
                        let b1 = remove_at(b, loc);
                        let no = replacement(order_at(b, loc), id, new_price, new_qty);
                        lemma_apply_new_inv(b1, no, cmd.seq, cmd.ts);
                        let head = seq![OutputEvent::Replaced { id, seq: cmd.seq }];
                        lemma_no_trade_events(head);
                        lemma_trades_positive_append(head, apply_new_spec(b1, no, cmd.seq, cmd.ts).1);
                    },
                }
            }
        },
    }
}

proof fn lemma_levels_orders_total(ls: Seq<LevelView>, side: Side)
    requires
        wf_levels(ls, side),
    ensures
        levels_orders_total(ls) == levels_total(ls),
    decreases ls.len(),
{
    if ls.len() > 0 {
        let d = ls.drop_last();
        assert forall|i: int| 0 <= i < d.len() implies wf_level(#[trigger] d[i], side) by {
            assert(d[i] == ls[i]);
        }
        assert forall|i: int, j: int| 0 <= i < j < d.len() implies better(
            side,
            #[trigger] d[j].price,
            #[trigger] d[i].price,
        ) by {
            assert(d[i] == ls[i]);
            assert(d[j] == ls[j]);
        }
        lemma_levels_orders_total(d, side);
        assert(wf_level(ls[ls.len() - 1], side));
    }
}

/// No phantom liquidity: in a well-formed book the open quantity of the orders queued
/// at each side equals the sum of that side's level totals.
pub proof fn law_no_phantom_liquidity(b: BookView)
    requires
        b.wf(),
    ensures
        levels_orders_total(b.bids) == levels_total(b.bids),
        levels_orders_total(b.asks) == levels_total(b.asks),
{
    lemma_levels_orders_total(b.bids, Side::Buy);
    lemma_levels_orders_total(b.asks, Side::Sell);
}

proof fn lemma_traded_none(ev: Seq<OutputEvent>)
    requires
        forall|i: int| 0 <= i < ev.len() ==> !((#[trigger] ev[i]) is Trade),
    ensures
        traded(ev) == 0,
    decreases ev.len(),
{
    if ev.len() > 0 {
        assert(!(ev[0] is Trade));
        assert forall|i: int| 0 <= i < ev.drop_first().len() implies !((#[trigger] ev.drop_first()[i]) is Trade) by {
            assert(ev.drop_first()[i] == ev[i + 1]);
        }
        lemma_traded_none(ev.drop_first());
    }
}

/// Fill-or-kill is all or nothing. When the other side holds less than the order's
/// quantity within its limit, the order is accepted and then refused, with no trade,
/// and the book is unchanged. Otherwise it fills completely: its own events end with
/// its fill, and the trades among them carry exactly its quantity.
pub proof fn law_fok_all_or_nothing(b: BookView, no: NewOrder, seq: SeqNo, ts: Ts)
    requires
        b.wf(),
        no.kind == OrderType::Fok,
        no.qty > 0,
        no.price > 0,
        !has_id(b, no.id),
    ensures
        available_spec(opp_levels(b, no.side), no.side, no.price) < no.qty ==> apply_new_spec(
            b,
            no,
            seq,
            ts,
        ) == (
            b,
            seq![
                OutputEvent::Accepted { id: no.id, seq },
                reject(no.id, RejectReason::FokUnfillable, seq),
            ],
        ),
        available_spec(opp_levels(b, no.side), no.side, no.price) >= no.qty ==> {
            let ev = match_events(b, no, seq, ts);
            &&& apply_new_spec(b, no, seq, ts).1.take(ev.len() as int) == ev
            &&& ev.last() == (OutputEvent::Filled { id: no.id, seq })
            &&& traded(ev) == no.qty
        },
{
    if available_spec(opp_levels(b, no.side), no.side, no.price) >= no.qty {
        let taker = order_of(no, seq, ts);
        lemma_match(opp_levels(b, no.side), taker, seq, ts, b.last_trade);
        let m = match_spec(opp_levels(b, no.side), taker, seq, ts, b.last_trade);
        assert(m.taker.remaining == 0);
        let acc = seq![OutputEvent::Accepted { id: no.id, seq }];
        let close = closing_events(no, m.taker.remaining, seq);
        assert(close == seq![OutputEvent::Filled { id: no.id, seq }]);
        lemma_traded_none(acc);
        lemma_traded_none(close);
        lemma_traded_append(acc, m.events);
        lemma_traded_append(acc + m.events, close);
        let ev = match_events(b, no, seq, ts);
        let r = apply_new_spec(b, no, seq, ts);
        match after_match(b, no, seq, ts).last_trade {
            None => {
                assert(r.1 == ev);
            },
            Some(last) => {
                let r1 = drain_buys(after_match(b, no, seq, ts), last, seq, ts, b.stop_count());
                let r2 = drain_sells(r1.0, last, seq, ts, b.stop_count());
                assert(r.1 == ev + r1.1 + r2.1);
                assert((ev + r1.1 + r2.1).take(ev.len() as int) =~= ev);
            },
        }
        assert(r.1.take(ev.len() as int) =~= ev);
    }
}

/// Quantity is conserved by matching: the trades carry in total exactly what the taker
/// received, which is exactly what the resting orders of the other side gave up; and
/// each trade is of positive quantity.
pub proof fn law_match_conserves_quantity(
    opp: Seq<LevelView>,
    taker: Order,
    seq: SeqNo,
    ts: Ts,
    last: Option<Price>,
)
    requires
        wf_levels(opp, taker.side.opposite()),
    ensures
        ({
            let m = match_spec(opp, taker, seq, ts, last);
            &&& traded(m.events) == taker.remaining - m.taker.remaining
            &&& levels_total(opp) - levels_total(m.opp) == taker.remaining - m.taker.remaining
            &&& trades_positive(m.events)
        }),
{
    lemma_match(opp, taker, seq, ts, last);
}

/// Matching respects the taker's limit: a limit, immediate-or-cancel or fill-or-kill
/// taker trades only at prices at or better than its limit (a market taker at any
/// price), and after matching, a taker with quantity left faces no level it could
/// still trade with.
pub proof fn law_match_respects_limit(
    opp: Seq<LevelView>,
    taker: Order,
    seq: SeqNo,
    ts: Ts,
    last: Option<Price>,
)
    requires
        wf_levels(opp, taker.side.opposite()),
    ensures
        ({
            let m = match_spec(opp, taker, seq, ts, last);
            &&& trades_cross(m.events, taker.kind, taker.side, taker.price)
            &&& (m.taker.remaining > 0 ==> m.opp.len() == 0 || !crosses(
                taker.kind,
                taker.side,
                taker.price,
                m.opp.last().price,
            ))
        }),
{
    lemma_match(opp, taker, seq, ts, last);
}

/// A taker with a limit never trades at a worse price than its limit: a buy pays at most
/// its limit, a sell gets at least its limit. Only a market taker takes any price.
pub proof fn law_trade_prices_within_limit(opp: Seq<LevelView>, taker: Order, seq: SeqNo, ts: Ts, last: Option<Price>)
    requires
        wf_levels(opp, taker.side.opposite()),
        taker.kind != OrderType::Market,
    ensures
        forall|i: int|
            0 <= i < match_spec(opp, taker, seq, ts, last).events.len() ==> match #[trigger] match_spec(
                opp,
                taker,
                seq,
                ts,
                last,
            ).events[i] {
                OutputEvent::Trade { price, .. } => (taker.side == Side::Buy ==> price <= taker.price) && (
                taker.side == Side::Sell ==> price >= taker.price),
                _ => true,
            },
{
    lemma_match(opp, taker, seq, ts, last);
    let ev = match_spec(opp, taker, seq, ts, last).events;
    assert forall|i: int| 0 <= i < ev.len() implies match #[trigger] ev[i] {
        OutputEvent::Trade { price, .. } => (taker.side == Side::Buy ==> price <= taker.price) && (taker.side
            == Side::Sell ==> price >= taker.price),
        _ => true,
    } by {
        match ev[i] {
            OutputEvent::Trade { price, .. } => {
                assert(crosses(taker.kind, taker.side, taker.price, price));
            },
            _ => {},
        }
    }
}

/// A taker trades at once whenever the best level of the other side is within its reach:
/// a market taker always, a buy whose limit is at or above the best ask, a sell whose limit
/// is at or below the best bid. Its first event is then a trade at the best level's price.
pub proof fn law_taker_trades_when_within_reach(opp: Seq<LevelView>, taker: Order, seq: SeqNo, ts: Ts, last: Option<Price>)
    requires
        taker.remaining > 0,
        opp.len() > 0,
        opp.last().orders.len() > 0,
        taker.kind == OrderType::Market || (taker.side == Side::Buy && opp.last().price <= taker.price) || (
        taker.side == Side::Sell && opp.last().price >= taker.price),
    ensures
        match_spec(opp, taker, seq, ts, last).events.len() > 0,
        match_spec(opp, taker, seq, ts, last).events[0] matches OutputEvent::Trade { price, .. } && price
            == opp.last().price,
{
    law_price_time_priority(opp, taker, seq, ts, last);
}

/// Price-time priority: a taker that crosses the best level of the other side trades
/// first with the oldest order of that level, at that level's price, for as much as
/// both hold.
pub proof fn law_price_time_priority(
    opp: Seq<LevelView>,
    taker: Order,
    seq: SeqNo,
    ts: Ts,
    last: Option<Price>,
)
    requires
        taker.remaining > 0,
        opp.len() > 0,
        opp.last().orders.len() > 0,
        crosses(taker.kind, taker.side, taker.price, opp.last().price),
    ensures
        match_spec(opp, taker, seq, ts, last).events.len() > 0,
        match_spec(opp, taker, seq, ts, last).events[0] == (OutputEvent::Trade {
            seq,
            taker: taker.id,
            maker: opp.last().orders[0].id,
            price: opp.last().price,
            qty: min_qty(taker.remaining, opp.last().orders[0].remaining),
            side: taker.side,
            ts,
        }),
{
}

/// No two orders of the levels carry the same identifier.
pub open spec fn ids_distinct(opp: Seq<LevelView>) -> bool {
    forall|a: int, i: int, c: int, j: int|
        #![trigger opp[a].orders[i], opp[c].orders[j]]
        0 <= a < opp.len() && 0 <= i < opp[a].orders.len() && 0 <= c < opp.len() && 0 <= j
            < opp[c].orders.len() && (a != c || i != j) ==> opp[a].orders[i].id != opp[c].orders[j].id
}

/// Event `e` is a trade in which the order with identifier `id` is the maker.
pub open spec fn trades_as_maker(e: OutputEvent, id: OrderId) -> bool {
    match e {
        OutputEvent::Trade { maker, .. } => maker == id,
        _ => false,
    }
}

/// Time priority over a whole match: an order that queued at a price behind another
/// trades only after the one ahead of it has been filled completely.
pub proof fn law_fifo_within_level(opp: Seq<LevelView>, taker: Order, seq: SeqNo, ts: Ts, last: Option<Price>)
    requires
        ids_distinct(opp),
    ensures
        ({
            let ev = match_spec(opp, taker, seq, ts, last).events;
            forall|a: int, i: int, j: int, t: int|
                #![trigger opp[a].orders[i], opp[a].orders[j], ev[t]]
                0 <= a < opp.len() && 0 <= i < j < opp[a].orders.len() && 0 <= t < ev.len()
                    && trades_as_maker(ev[t], opp[a].orders[j].id) ==> filled_in(
                    ev.take(t),
                    opp[a].orders[i].id,
                )
        }),
    decreases opp.len(), opp.last().orders.len(), taker.remaining,
{
    let ev = match_spec(opp, taker, seq, ts, last).events;
    if taker.remaining == 0 || opp.len() == 0 || opp.last().orders.len() == 0 || !crosses(
        taker.kind,
        taker.side,
        taker.price,
        opp.last().price,
    ) {
    } else {
        let lvl = opp.last();
        let top = opp.len() - 1;
        let maker = lvl.orders[0];
        let q = min_qty(taker.remaining, maker.remaining);
        let taker2 = Order { remaining: (taker.remaining - q) as u64, ..taker };
        let maker_left = (maker.remaining - q) as u64;
        let popped_total = crate::model::sat_sub(lvl.total_qty, maker.remaining);
        if maker_left == 0 {
            let rest = lvl.orders.drop_first();
            let opp2 = if rest.len() == 0 {
                opp.drop_last()
            } else {
                opp.update(top, LevelView { price: lvl.price, total_qty: popped_total, orders: rest })
            };
            // where each order of `opp` stands in `opp2`, the head of the best level gone
            assert forall|a: int, i: int, c: int, j: int|
                #![trigger opp2[a].orders[i], opp2[c].orders[j]]
                0 <= a < opp2.len() && 0 <= i < opp2[a].orders.len() && 0 <= c < opp2.len() && 0 <= j
                    < opp2[c].orders.len() && (a != c || i != j) implies opp2[a].orders[i].id
                != opp2[c].orders[j].id by {
                let i1 = if a == top { i + 1 } else { i };
                let j1 = if c == top { j + 1 } else { j };
                assert(opp2[a].orders[i] == opp[a].orders[i1]);
                assert(opp2[c].orders[j] == opp[c].orders[j1]);
            }
            law_fifo_within_level(opp2, taker2, seq, ts, Some(lvl.price));
            let r = match_spec(opp2, taker2, seq, ts, Some(lvl.price)).events;
            let head = seq![
                OutputEvent::Trade {
                    seq,
                    taker: taker.id,
                    maker: maker.id,
                    price: lvl.price,
                    qty: q,
                    side: taker.side,
                    ts,
                },
                OutputEvent::Filled { id: maker.id, seq },
            ];
            assert(ev == head + r);
            assert forall|a: int, i: int, j: int, t: int|
                0 <= a < opp.len() && 0 <= i < j < opp[a].orders.len() && 0 <= t < ev.len()
                    && trades_as_maker(#[trigger] ev[t], #[trigger] opp[a].orders[j].id) implies filled_in(
                ev.take(t),
                #[trigger] opp[a].orders[i].id,
            ) by {
                assert(opp[a].orders[j] != opp[top].orders[0] || a != top);
                if t == 0 {
                    assert(opp[top].orders[0].id != opp[a].orders[j].id);
                } else if t == 1 {
                } else if a == top && i == 0 {
                    assert(is_fill_of(ev.take(t)[1], opp[a].orders[i].id));
                } else {
                    let i2 = if a == top { i - 1 } else { i };
                    let j2 = if a == top { j - 1 } else { j };
                    assert(opp2[a].orders[i2] == opp[a].orders[i]);
                    assert(opp2[a].orders[j2] == opp[a].orders[j]);
                    assert(r[t - 2] == ev[t]);
                    assert(filled_in(r.take(t - 2), opp2[a].orders[i2].id));
                    let u = choose|u: int| 0 <= u < r.take(t - 2).len() && #[trigger] is_fill_of(
                        r.take(t - 2)[u],
                        opp[a].orders[i].id,
                    );
                    assert(ev.take(t)[u + 2] == r.take(t - 2)[u]);
                    assert(is_fill_of(ev.take(t)[u + 2], opp[a].orders[i].id));
                }
            }
        } else {
            let taker_done = Order { remaining: (taker.remaining - q) as u64, ..taker };
            assert(taker_done.remaining == 0);
            let maker2 = Order { remaining: maker_left, ..maker };
            let opp2 = opp.update(
                top,
                LevelView {
                    price: lvl.price,
                    total_qty: (popped_total + maker_left) as u64,
                    orders: lvl.orders.update(0, maker2),
                },
            );
            assert(match_spec(opp2, taker2, seq, ts, Some(lvl.price)).events.len() == 0);
            assert(ev.len() == 2);
            assert forall|a: int, i: int, j: int, t: int|
                0 <= a < opp.len() && 0 <= i < j < opp[a].orders.len() && 0 <= t < ev.len()
                    && trades_as_maker(#[trigger] ev[t], #[trigger] opp[a].orders[j].id) implies filled_in(
                ev.take(t),
                #[trigger] opp[a].orders[i].id,
            ) by {
                if t == 0 {
                    assert(opp[top].orders[0].id != opp[a].orders[j].id);
                }
            }
        }
    }
}

/// Time priority at one price: an order that rests where orders already wait at its
/// price joins the back of their queue; every other level, and the order of those
/// ahead of it, stay as they were.
pub proof fn law_rest_joins_back(ls: Seq<LevelView>, o: Order, i: int)
    requires
        wf_levels(ls, o.side),
        0 <= i < ls.len(),
        ls[i].price == o.price,
    ensures
        rest_spec(ls, o).len() == ls.len(),
        rest_spec(ls, o)[i].orders == ls[i].orders.push(o),
        rest_spec(ls, o)[i].price == o.price,
        forall|j: int| 0 <= j < ls.len() && j != i ==> #[trigger] rest_spec(ls, o)[j] == ls[j],
    decreases ls.len(),
{
    let n = ls.len() - 1;
    let l = ls.last();
    let r = rest_spec(ls, o);
    if l.price == o.price {
        if i < n {
            assert(better(o.side, ls[n].price, ls[i].price));
        }
        assert(i == n);
    } else if better(o.side, o.price, l.price) {
        if i < n {
            assert(better(o.side, ls[n].price, ls[i].price));
        }
        assert(false);
    } else {
        assert(i < n);
        let d = ls.drop_last();
        assert forall|k: int| 0 <= k < d.len() implies wf_level(#[trigger] d[k], o.side) by {
            assert(d[k] == ls[k]);
        }
        assert forall|a: int, c: int| 0 <= a < c < d.len() implies better(
            o.side,
            #[trigger] d[c].price,
            #[trigger] d[a].price,
        ) by {
            assert(d[a] == ls[a]);
            assert(d[c] == ls[c]);
        }
        law_rest_joins_back(d, o, i);
        let rd = rest_spec(d, o);
        assert(r == rd.push(l));
        assert forall|j: int| 0 <= j < ls.len() && j != i implies #[trigger] r[j] == ls[j] by {
            if j < n {
                assert(r[j] == rd[j]);
                assert(d[j] == ls[j]);
            }
        }
    }
}

/// Cancelling an identifier the book does not hold is a clean refusal: the book is
/// unchanged and the only event is a rejection for an unknown identifier.
pub proof fn law_cancel_unknown_is_rejected(b: BookView, id: OrderId, seq: SeqNo)
    requires
        !has_id(b, id),
    ensures
        cancel_spec(b, id, seq) == (b, seq![reject(id, RejectReason::UnknownId, seq)]),
{
}

/// Cancelling an order the book holds takes that order out: the only event is its
/// cancellation, and the book, still well formed, holds exactly that order's open
/// quantity less.
pub proof fn law_cancel_removes_order(b: BookView, id: OrderId, seq: SeqNo)
    requires
        b.wf(),
        fits_usize(b),
        has_id(b, id),
    ensures
        ({
            let loc = locate_spec(b, id).unwrap();
            let r = cancel_spec(b, id, seq);
            &&& order_at(b, loc).id == id
            &&& r.1 == seq![OutputEvent::Cancelled { id, seq }]
            &&& r.0 == remove_at(b, loc)
            &&& r.0.wf()
            &&& r.0.qty_bound() == b.qty_bound() - order_at(b, loc).remaining
        }),
{
    lemma_locate_valid(b, id);
    lemma_remove_at(b, locate_spec(b, id).unwrap());
}

/// The book and the events after applying a sequence of commands in order.
pub open spec fn run_spec(b: BookView, cmds: Seq<Sequenced>) -> (BookView, Seq<OutputEvent>)
    decreases cmds.len(),
{
    if cmds.len() == 0 {
        (b, seq![])
    } else {
        let r = apply_spec(b, cmds[0]);
        let rest = run_spec(r.0, cmds.drop_first());
        (rest.0, r.1 + rest.1)
    }
}

/// Open quantity the commands bring, together.
pub open spec fn incoming_total(cmds: Seq<Sequenced>) -> int
    decreases cmds.len(),
{
    if cmds.len() == 0 {
        0
    } else {
        incoming_qty(cmds[0].cmd) + incoming_total(cmds.drop_first())
    }
}

/// Every book a run passes through before one of its commands has positions that fit in
/// `usize`, as any book held in memory does.
pub open spec fn run_fits(b: BookView, cmds: Seq<Sequenced>) -> bool
    decreases cmds.len(),
{
    cmds.len() == 0 || (fits_usize(b) && run_fits(apply_spec(b, cmds[0]).0, cmds.drop_first()))
}

proof fn lemma_incoming_total_nonneg(cmds: Seq<Sequenced>)
    ensures
        incoming_total(cmds) >= 0,
    decreases cmds.len(),
{
    if cmds.len() > 0 {
        lemma_incoming_total_nonneg(cmds.drop_first());
    }
}

/// No sequence of commands can leave the book crossed or out of step with its orders:
/// from a well-formed book, whose open quantity together with all the commands bring fits
/// a quantity, every run ends in a well-formed book and reports only trades of positive
/// quantity.
pub proof fn law_run_keeps_book_valid(b: BookView, cmds: Seq<Sequenced>)
    requires
        b.wf(),
        run_fits(b, cmds),
        b.qty_bound() + incoming_total(cmds) <= u64::MAX,
    ensures
        run_spec(b, cmds).0.wf(),
        run_spec(b, cmds).0.not_crossed(),
        trades_positive(run_spec(b, cmds).1),
    decreases cmds.len(),
{
    if cmds.len() == 0 {
        assert(trades_positive(Seq::<OutputEvent>::empty()));
    } else {
        let rest = cmds.drop_first();
        lemma_incoming_total_nonneg(rest);
        law_apply_keeps_book_valid(b, cmds[0]);
        let r = apply_spec(b, cmds[0]);
        law_run_keeps_book_valid(r.0, rest);
        lemma_trades_positive_append(r.1, run_spec(r.0, rest).1);
    }
}

/// Replay is deterministic and a lost tail only shortens it: replaying the first `k`
/// commands of a run gives the book the live run had after them, and their events are
/// the first events of the live run, which the remaining commands only extend.
pub proof fn law_replay_prefix(b: BookView, cmds: Seq<Sequenced>, k: int)
    requires
        0 <= k <= cmds.len(),
    ensures
        ({
            let head = run_spec(b, cmds.take(k));
            let tail = run_spec(head.0, cmds.skip(k));
            &&& run_spec(b, cmds).0 == tail.0
            &&& run_spec(b, cmds).1 == head.1 + tail.1
        }),
    decreases k,
{
    if k == 0 {
        assert(cmds.take(0) =~= Seq::<Sequenced>::empty());
        assert(cmds.skip(0) =~= cmds);
        assert(Seq::<OutputEvent>::empty() + run_spec(b, cmds).1 =~= run_spec(b, cmds).1);
    } else {
        let r = apply_spec(b, cmds[0]);
        let d = cmds.drop_first();
        law_replay_prefix(r.0, d, k - 1);
        assert(cmds.take(k).drop_first() =~= d.take(k - 1));
        assert(cmds.take(k)[0] == cmds[0]);
        assert(cmds.skip(k) =~= d.skip(k - 1));
        let h = run_spec(r.0, d.take(k - 1));
        let t = run_spec(h.0, d.skip(k - 1));
        assert(r.1 + (h.1 + t.1) =~= (r.1 + h.1) + t.1);
    }
}

} // verus!
