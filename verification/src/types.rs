use vstd::prelude::*;

verus! {

/// Price in integer ticks.
pub type Price = i64;

/// Quantity in lots.
pub type Qty = u64;

/// Order identifier.
pub type OrderId = u64;

/// Global ingress sequence number.
pub type SeqNo = u64;

/// Monotonic ingress timestamp in nanoseconds.
pub type Ts = u64;

/// Numeric symbol identifier.
pub type SymbolId = u32;

#[derive(Debug, Clone, Copy, PartialEq, Eq, Hash, Structural)]
pub enum Side {
    Buy,
    Sell,
}

impl Side {
    pub open spec fn spec_opposite(self) -> Side {
        match self {
            Side::Buy => Side::Sell,
            Side::Sell => Side::Buy,
        }
    }

    /// The other side of the book.
    #[verifier::when_used_as_spec(spec_opposite)]
    pub fn opposite(self) -> (r: Side)
        ensures
            r == self.spec_opposite(),
    {
        match self {
            Side::Buy => Side::Sell,
            Side::Sell => Side::Buy,
        }
    }
}

#[derive(Debug, Clone, Copy, PartialEq, Eq, Structural)]
pub enum OrderType {
    Limit,
    Market,
    Ioc,
    Fok,
    StopMarket,
    StopLimit,
}

impl OrderType {
    /// Stop orders wait in the trigger lists until the last trade crosses their stop price.
    pub open spec fn is_stop(self) -> bool {
        self == OrderType::StopMarket || self == OrderType::StopLimit
    }

    /// Kinds whose limit price must be strictly positive.
    pub open spec fn needs_price(self) -> bool {
        self == OrderType::Limit || self == OrderType::Ioc || self == OrderType::Fok
            || self == OrderType::StopLimit
    }
}

#[derive(Debug, Clone, Copy, PartialEq, Eq, Structural)]
pub enum TimeInForce {
    Gtc,
    Day,
}

#[derive(Debug, Clone, Copy, PartialEq, Eq, Structural)]
pub enum OrderStatus {
    New,
    Accepted,
    PartiallyFilled,
    Filled,
    Cancelled,
    Rejected,
}

#[derive(Debug, Clone, Copy, PartialEq, Eq, Structural)]
pub enum RejectReason {
    UnknownSymbol,
    DuplicateId,
    UnknownId,
    ZeroQty,
    BadPrice,
    FokUnfillable,
    MarketNoLiquidity,
    SelfTrade,
    RateLimited,
}

/// The other side is never the same side, and the other side of the other side is the side
/// itself.
pub proof fn law_opposite_swaps_sides(s: Side)
    ensures
        s.spec_opposite() != s,
        s.spec_opposite().spec_opposite() == s,
{
}

} // verus!

