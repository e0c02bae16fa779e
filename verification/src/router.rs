use vstd::prelude::*;
use crate::types::RejectReason;

verus! {

/// The name under which a rejection reason is reported to clients.
pub open spec fn reject_reason_text(r: RejectReason) -> Seq<char> {
    match r {
        RejectReason::UnknownSymbol => "unknown_symbol"@,
        RejectReason::DuplicateId => "duplicate_id"@,
        RejectReason::UnknownId => "unknown_id"@,
        RejectReason::ZeroQty => "zero_qty"@,
        RejectReason::BadPrice => "bad_price"@,
        RejectReason::FokUnfillable => "fok_unfillable"@,
        RejectReason::MarketNoLiquidity => "no_liquidity"@,
        RejectReason::SelfTrade => "self_trade"@,
        RejectReason::RateLimited => "rate_limited"@,
    }
}

/// A rejection reason as the text clients receive.
pub fn reject_reason_str(r: RejectReason) -> (s: &'static str)
    ensures
        s@ == reject_reason_text(r),
{
    match r {
        RejectReason::UnknownSymbol => "unknown_symbol",
        RejectReason::DuplicateId => "duplicate_id",
        RejectReason::UnknownId => "unknown_id",
        RejectReason::ZeroQty => "zero_qty",
        RejectReason::BadPrice => "bad_price",
        RejectReason::FokUnfillable => "fok_unfillable",
        RejectReason::MarketNoLiquidity => "no_liquidity",
        RejectReason::SelfTrade => "self_trade",
        RejectReason::RateLimited => "rate_limited",
    }
}

} // verus!
