use vstd::prelude::*;
use vstd::string::StringSliceAdditionalSpecFns;
use vstd::utf8::encode_utf8;
use crate::types::{OrderId, OrderType, Price, Qty, Side, SymbolId, TimeInForce};
use crate::events::{Command, NewOrder};

verus! {

/// Side as a JSON client writes it.
#[derive(Debug, Clone, Copy, PartialEq, Eq, Structural)]
pub enum JsonSide {
    Buy,
    Sell,
}

/// Order type as a JSON client writes it.
#[derive(Debug, Clone, Copy, PartialEq, Eq, Structural)]
pub enum JsonOrderType {
    Limit,
    Market,
    Ioc,
    Fok,
    StopMarket,
    StopLimit,
}

/// Time in force as a JSON client writes it; good-till-cancelled when left out.
#[derive(Debug, Clone, Copy, PartialEq, Eq, Structural)]
pub enum JsonTif {
    Gtc,
    Day,
}

impl Default for JsonTif {
    fn default() -> (t: JsonTif)
        ensures
            t == JsonTif::Gtc,
    {
        JsonTif::Gtc
    }
}

/// A cancel request as a JSON client writes it.
#[derive(Debug, Clone)]
pub struct JsonCancel {
    pub id: OrderId,
    pub symbol: String,
}

/// 32-bit FNV-1a hash of a byte string.
pub open spec fn fnv1a(bytes: Seq<u8>) -> u32
    decreases bytes.len(),
{
    if bytes.len() == 0 {
        0x811c9dc5u32
    } else {
        (fnv1a(bytes.drop_last()) ^ (bytes.last() as u32)).wrapping_mul(0x01000193u32)
    }
}

/// The identifier of a symbol's text: the FNV-1a hash of its UTF-8 encoding.
pub open spec fn symbol_id(text: Seq<char>) -> u32 {
    fnv1a(encode_utf8(text))
}

/// The identifier of a symbol: the FNV-1a hash of its UTF-8 bytes.
pub fn symbol_to_id(s: &str) -> (h: SymbolId)
    ensures
        h == symbol_id(s@),
{
    let b = s.as_bytes();
    let mut h: u32 = 0x811c9dc5;
    let mut i: usize = 0;
    assert(b@.take(0) =~= Seq::<u8>::empty());
    while i < b.len()
        invariant
            b@ == s.spec_bytes(),
            i <= b@.len(),
            h == fnv1a(b@.take(i as int)),
        decreases b@.len() - i,
    {
        assert(b@.take(i + 1).drop_last() =~= b@.take(i as int));
        assert(b@.take(i + 1).last() == b@[i as int]);
        h = h ^ (b[i] as u32);
        h = h.wrapping_mul(0x01000193);
        i = i + 1;
    }
    assert(b@.take(i as int) =~= b@);
    h
}

pub open spec fn side_of_json(s: JsonSide) -> Side {
    match s {
        JsonSide::Buy => Side::Buy,
        JsonSide::Sell => Side::Sell,
    }
}

pub open spec fn kind_of_json(k: JsonOrderType) -> OrderType {
    match k {
        JsonOrderType::Limit => OrderType::Limit,
        JsonOrderType::Market => OrderType::Market,
        JsonOrderType::Ioc => OrderType::Ioc,
        JsonOrderType::Fok => OrderType::Fok,
        JsonOrderType::StopMarket => OrderType::StopMarket,
        JsonOrderType::StopLimit => OrderType::StopLimit,
    }
}

pub open spec fn tif_of_json(t: JsonTif) -> TimeInForce {
    match t {
        JsonTif::Gtc => TimeInForce::Gtc,
        JsonTif::Day => TimeInForce::Day,
    }
}

/// The order a JSON new-order request asks for, its prices already in ticks: the
/// symbol becomes its identifier, and side, type and time in force their engine
/// values.
pub fn new_order_from_json(
    id: OrderId,
    symbol: &str,
    side: JsonSide,
    kind: JsonOrderType,
    tif: JsonTif,
    price: Price,
    stop_price: Price,
    qty: Qty,
) -> (no: NewOrder)
    ensures
        no == (NewOrder {
            id,
            symbol: symbol_id(symbol@),
            side: side_of_json(side),
            kind: kind_of_json(kind),
            tif: tif_of_json(tif),
            price,
            stop_price,
            qty,
        }),
{
    NewOrder {
        id,
        symbol: symbol_to_id(symbol),
        side: match side {
            JsonSide::Buy => Side::Buy,
            JsonSide::Sell => Side::Sell,
        },
        kind: match kind {
            JsonOrderType::Limit => OrderType::Limit,
            JsonOrderType::Market => OrderType::Market,
            JsonOrderType::Ioc => OrderType::Ioc,
            JsonOrderType::Fok => OrderType::Fok,
            JsonOrderType::StopMarket => OrderType::StopMarket,
            JsonOrderType::StopLimit => OrderType::StopLimit,
        },
        tif: match tif {
            JsonTif::Gtc => TimeInForce::Gtc,
            JsonTif::Day => TimeInForce::Day,
        },
        price,
        stop_price,
        qty,
    }
}

/// The cancel command a JSON cancel request asks for.
pub fn cancel_from_json(c: &JsonCancel) -> (cmd: Command)
    ensures
        cmd == (Command::Cancel { id: c.id, symbol: symbol_id(c.symbol@) }),
{
    Command::Cancel { id: c.id, symbol: symbol_to_id(c.symbol.as_str()) }
}

/// The replace command a JSON replace request asks for, its new price already in ticks.
pub fn replace_from_json(id: OrderId, symbol: &str, new_price: Price, new_qty: Qty) -> (cmd: Command)
    ensures
        cmd == (Command::Replace { id, symbol: symbol_id(symbol@), new_price, new_qty }),
{
    Command::Replace { id, symbol: symbol_to_id(symbol), new_price, new_qty }
}

/// A JSON order type, side and time in force each become the engine's value of the same
/// name, and different JSON values never become the same engine value.
pub proof fn law_json_values_keep_their_names(k: JsonOrderType, k2: JsonOrderType, sd: JsonSide, t: JsonTif)
    ensures
        (k is Limit) <==> kind_of_json(k) is Limit,
        (k is Market) <==> kind_of_json(k) is Market,
        (k is Ioc) <==> kind_of_json(k) is Ioc,
        (k is Fok) <==> kind_of_json(k) is Fok,
        (k is StopMarket) <==> kind_of_json(k) is StopMarket,
        (k is StopLimit) <==> kind_of_json(k) is StopLimit,
        kind_of_json(k) == kind_of_json(k2) ==> k == k2,
        (sd is Buy) <==> side_of_json(sd) is Buy,
        (sd is Sell) <==> side_of_json(sd) is Sell,
        (t is Gtc) <==> tif_of_json(t) is Gtc,
        (t is Day) <==> tif_of_json(t) is Day,
{
}

} // verus!

