use vstd::prelude::*;
use crate::types::{OrderId, OrderType, Price, Qty, RejectReason, SeqNo, Side, SymbolId, TimeInForce, Ts};

verus! {

/// The terms of an incoming order.
#[derive(Debug, Clone, Copy, PartialEq, Eq, Structural)]
pub struct NewOrder {
    pub id: OrderId,
    pub symbol: SymbolId,
    pub side: Side,
    pub kind: OrderType,
    pub tif: TimeInForce,
    pub price: Price,
    pub stop_price: Price,
    pub qty: Qty,
}

/// An instruction to the matching engine.
#[derive(Debug, Clone, Copy, PartialEq, Eq, Structural)]
pub enum Command {
    New(NewOrder),
    Cancel { id: OrderId, symbol: SymbolId },
    Replace { id: OrderId, new_price: Price, new_qty: Qty, symbol: SymbolId },
}

/// A command stamped with its ingress sequence number and timestamp.
#[derive(Debug, Clone, Copy, PartialEq, Eq, Structural)]
pub struct Sequenced {
    pub seq: SeqNo,
    pub ts: Ts,
    pub cmd: Command,
}

/// What the engine reports for a command.
#[derive(Debug, Clone, Copy, PartialEq, Eq, Structural)]
pub enum OutputEvent {
    Accepted { id: OrderId, seq: SeqNo },
    Rejected { id: OrderId, reason: RejectReason, seq: SeqNo },
    Trade { seq: SeqNo, taker: OrderId, maker: OrderId, price: Price, qty: Qty, side: Side, ts: Ts },
    PartiallyFilled { id: OrderId, filled: Qty, remaining: Qty, seq: SeqNo },
    Filled { id: OrderId, seq: SeqNo },
    Cancelled { id: OrderId, seq: SeqNo },
    Replaced { id: OrderId, seq: SeqNo },
}

impl Command {
    pub open spec fn spec_symbol(&self) -> SymbolId {
        match *self {
            Command::New(no) => no.symbol,
            Command::Cancel { symbol, .. } => symbol,
            Command::Replace { symbol, .. } => symbol,
        }
    }

    /// The symbol whose book the command addresses.
    #[verifier::when_used_as_spec(spec_symbol)]
    pub fn symbol(&self) -> (s: SymbolId)
        ensures
            s == self.spec_symbol(),
    {
        match self {
            Command::New(no) => no.symbol,
            Command::Cancel { symbol, .. } => *symbol,
            Command::Replace { symbol, .. } => *symbol,
        }
    }
}

} // verus!
