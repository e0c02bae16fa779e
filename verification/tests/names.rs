use exchange::json::{cancel_from_json, new_order_from_json, replace_from_json, symbol_to_id, JsonCancel, JsonOrderType, JsonSide, JsonTif};
use exchange::latency::Stage;
use exchange::router::reject_reason_str;
use exchange::events::{Command, NewOrder};
use exchange::types::{OrderType, RejectReason, Side, TimeInForce};

#[test]
fn stage_names() {
    assert_eq!(Stage::IngressToMatch.name(), "ingress_to_match");
    assert_eq!(Stage::MatchToAck.name(), "match_to_ack");
    assert_eq!(Stage::EndToEnd.name(), "end_to_end");
}

#[test]
fn reject_reason_names() {
    assert_eq!(reject_reason_str(RejectReason::UnknownSymbol), "unknown_symbol");
    assert_eq!(reject_reason_str(RejectReason::DuplicateId), "duplicate_id");
    assert_eq!(reject_reason_str(RejectReason::UnknownId), "unknown_id");
    assert_eq!(reject_reason_str(RejectReason::ZeroQty), "zero_qty");
    assert_eq!(reject_reason_str(RejectReason::BadPrice), "bad_price");
    assert_eq!(reject_reason_str(RejectReason::FokUnfillable), "fok_unfillable");
    assert_eq!(reject_reason_str(RejectReason::MarketNoLiquidity), "no_liquidity");
    assert_eq!(reject_reason_str(RejectReason::SelfTrade), "self_trade");
    assert_eq!(reject_reason_str(RejectReason::RateLimited), "rate_limited");
}

#[test]
fn symbol_ids_are_fnv1a() {
    assert_eq!(symbol_to_id(""), 0x811c9dc5);
    assert_eq!(symbol_to_id("a"), 0xe40c292c);
    assert_eq!(symbol_to_id("AAPL"), symbol_to_id("AAPL"));
    assert_ne!(symbol_to_id("AAPL"), symbol_to_id("MSFT"));
}

#[test]
fn json_requests_become_commands() {
    let no = new_order_from_json(3, "a", JsonSide::Sell, JsonOrderType::StopLimit, JsonTif::default(), 1502500, 1500000, 9);
    assert_eq!(
        no,
        NewOrder {
            id: 3, symbol: 0xe40c292c, side: Side::Sell, kind: OrderType::StopLimit,
            tif: TimeInForce::Gtc, price: 1502500, stop_price: 1500000, qty: 9,
        }
    );
    let c = cancel_from_json(&JsonCancel { id: 4, symbol: "a".to_string() });
    assert_eq!(c, Command::Cancel { id: 4, symbol: 0xe40c292c });
    let r = replace_from_json(5, "a", 10, 11);
    assert_eq!(r, Command::Replace { id: 5, symbol: 0xe40c292c, new_price: 10, new_qty: 11 });
}
