use vstd::prelude::*;
use crate::types::{OrderId, OrderStatus, OrderType, Price, Qty, SeqNo, Side, SymbolId, TimeInForce, Ts};

verus! {

/// One order as held by the book: its terms plus the quantity still open.
#[derive(Debug, Clone, Copy)]
pub struct Order {
    pub id: OrderId,
    pub symbol: SymbolId,
    pub side: Side,
    pub kind: OrderType,
    pub tif: TimeInForce,
    pub price: Price,
    pub stop_price: Price,
    pub qty: Qty,
    pub remaining: Qty,
    pub seq: SeqNo,
    pub ts: Ts,
    pub status: OrderStatus,
}

impl Order {
    pub open spec fn spec_new(
        id: OrderId,
        symbol: SymbolId,
        side: Side,
        kind: OrderType,
        tif: TimeInForce,
        price: Price,
        stop_price: Price,
        qty: Qty,
        seq: SeqNo,
        ts: Ts,
    ) -> Order {
        Order {
            id,
            symbol,
            side,
            kind,
            tif,
            price,
            stop_price,
            qty,
            remaining: qty,
            seq,
            ts,
            status: OrderStatus::New,
        }
    }

    /// A fresh order: nothing filled yet, status `New`.
    pub fn new(
        id: OrderId,
        symbol: SymbolId,
        side: Side,
        kind: OrderType,
        tif: TimeInForce,
        price: Price,
        stop_price: Price,
        qty: Qty,
        seq: SeqNo,
        ts: Ts,
    ) -> (o: Order)
        ensures
            o == Order::spec_new(id, symbol, side, kind, tif, price, stop_price, qty, seq, ts),
    {
        Order {
            id,
            symbol,
            side,
            kind,
            tif,
            price,
            stop_price,
            qty,
            remaining: qty,
            seq,
            ts,
            status: OrderStatus::New,
        }
    }

    /// Whether the order type may rest in the book.
    pub fn is_resting(&self) -> (r: bool)
        ensures
            r == ((self.kind == OrderType::Limit || self.kind == OrderType::StopLimit) && (
            self.tif == TimeInForce::Gtc || self.tif == TimeInForce::Day)),
    {
        (match self.kind {
            OrderType::Limit | OrderType::StopLimit => true,
            _ => false,
        }) && (match self.tif {
            TimeInForce::Gtc | TimeInForce::Day => true,
        })
    }
}

} // verus!
