use vstd::prelude::*;
use bytes::{Buf, BufMut, Bytes, BytesMut};
use crate::types::{OrderType, Side, TimeInForce};
use crate::events::NewOrder;
use crate::le::{le_u32_bytes, le_u64_bytes, lemma_u32_le_roundtrip, lemma_u64_le_roundtrip, u32_of_le, u64_of_le};
use crate::snapshot::{kind_code, side_code, tif_code};

verus! {

#[verifier::external_type_specification]
#[verifier::external_body]
pub struct ExBytes(Bytes);

#[verifier::external_type_specification]
#[verifier::external_body]
pub struct ExBytesMut(BytesMut);

#[verifier::external_type_specification]
#[verifier::external_body]
pub struct ExJsonError(serde_json::Error);

/// The bytes not yet read from a `bytes::Bytes` buffer.
pub uninterp spec fn bytes_view(b: Bytes) -> Seq<u8>;

/// The bytes written so far to a `bytes::BytesMut` buffer.
pub uninterp spec fn bytes_mut_view(b: BytesMut) -> Seq<u8>;

/// `Bytes::is_empty`: true when no byte is left.
#[verifier::external_body]
fn bytes_is_empty(b: &Bytes) -> (r: bool)
    ensures
        r == (bytes_view(*b).len() == 0),
{
    b.is_empty()
}

/// `Buf::remaining` on `Bytes`: the number of bytes left.
#[verifier::external_body]
fn bytes_remaining(b: &Bytes) -> (r: usize)
    ensures
        r == bytes_view(*b).len(),
{
    b.remaining()
}

/// `Buf::get_u8` on `Bytes`: the first byte, which is consumed. The call panics on an
/// empty buffer, so one byte is required.
#[verifier::external_body]
fn bytes_get_u8(b: &mut Bytes) -> (r: u8)
    requires
        bytes_view(*old(b)).len() >= 1,
    ensures
        r == bytes_view(*old(b))[0],
        bytes_view(*final(b)) == bytes_view(*old(b)).skip(1),
{
    b.get_u8()
}

/// `Buf::get_u32_le` on `Bytes`: the first four bytes read little-endian, consumed.
#[verifier::external_body]
fn bytes_get_u32_le(b: &mut Bytes) -> (r: u32)
    requires
        bytes_view(*old(b)).len() >= 4,
    ensures
        r == u32_of_le(bytes_view(*old(b)).take(4)),
        bytes_view(*final(b)) == bytes_view(*old(b)).skip(4),
{
    b.get_u32_le()
}

/// `Buf::get_u64_le` on `Bytes`: the first eight bytes read little-endian, consumed.
#[verifier::external_body]
fn bytes_get_u64_le(b: &mut Bytes) -> (r: u64)
    requires
        bytes_view(*old(b)).len() >= 8,
    ensures
        r == u64_of_le(bytes_view(*old(b)).take(8)),
        bytes_view(*final(b)) == bytes_view(*old(b)).skip(8),
{
    b.get_u64_le()
}

/// `Buf::get_i64_le` on `Bytes`: the first eight bytes read as a little-endian two's
/// complement integer, consumed.
#[verifier::external_body]
fn bytes_get_i64_le(b: &mut Bytes) -> (r: i64)
    requires
        bytes_view(*old(b)).len() >= 8,
    ensures
        r == u64_of_le(bytes_view(*old(b)).take(8)) as i64,
        bytes_view(*final(b)) == bytes_view(*old(b)).skip(8),
{
    b.get_i64_le()
}

/// `BytesMut::len`: the number of bytes written so far.
#[verifier::external_body]
fn bytes_mut_len(b: &BytesMut) -> (r: usize)
    ensures
        r == bytes_mut_view(*b).len(),
{
    b.len()
}

/// `BufMut::put_u8` on `BytesMut`: appends the byte. Growth panics past `isize::MAX`
/// bytes, so room is required.
#[verifier::external_body]
fn bytes_put_u8(b: &mut BytesMut, x: u8)
    requires
        bytes_mut_view(*old(b)).len() + 1 <= isize::MAX,
    ensures
        bytes_mut_view(*final(b)) == bytes_mut_view(*old(b)).push(x),
{
    b.put_u8(x)
}

/// `BufMut::put_u64_le` on `BytesMut`: appends the little-endian bytes.
#[verifier::external_body]
fn bytes_put_u64_le(b: &mut BytesMut, x: u64)
    requires
        bytes_mut_view(*old(b)).len() + 8 <= isize::MAX,
    ensures
        bytes_mut_view(*final(b)) == bytes_mut_view(*old(b)) + le_u64_bytes(x),
{
    b.put_u64_le(x)
}

/// `BufMut::put_i64_le` on `BytesMut`: appends the little-endian two's complement bytes.
#[verifier::external_body]
fn bytes_put_i64_le(b: &mut BytesMut, x: i64)
    requires
        bytes_mut_view(*old(b)).len() + 8 <= isize::MAX,
    ensures
        bytes_mut_view(*final(b)) == bytes_mut_view(*old(b)) + le_u64_bytes(x as u64),
{
    b.put_i64_le(x)
}

pub const TAG_NEW_ORDER: u8 = 78;

pub const TAG_CANCEL: u8 = 67;

pub const TAG_REPLACE: u8 = 82;

pub const TAG_ACK: u8 = 65;

pub const TAG_REJECT: u8 = 74;

pub const TAG_FILL: u8 = 70;

pub const TAG_CANCELLED: u8 = 88;

pub const TAG_REPLACED: u8 = 90;

/// Inbound new order.
#[derive(Debug, Clone, Copy, PartialEq, Eq, Structural)]
pub struct BinNewOrder {
    pub order_id: u64,
    pub symbol_id: u32,
    pub side: Side,
    pub order_type: OrderType,
    pub tif: TimeInForce,
    pub price: i64,
    pub stop_price: i64,
    pub qty: u64,
}

/// Inbound cancel.
#[derive(Debug, Clone, Copy, PartialEq, Eq, Structural)]
pub struct BinCancel {
    pub order_id: u64,
    pub symbol_id: u32,
}

/// Inbound replace.
#[derive(Debug, Clone, Copy, PartialEq, Eq, Structural)]
pub struct BinReplace {
    pub order_id: u64,
    pub symbol_id: u32,
    pub new_price: i64,
    pub new_qty: u64,
}

#[derive(Debug, Clone, Copy, PartialEq, Eq, Structural)]
pub enum InboundMsg {
    NewOrder(BinNewOrder),
    Cancel(BinCancel),
    Replace(BinReplace),
}

#[derive(Debug, Clone, Copy, PartialEq, Eq, Structural)]
pub enum OutboundMsg {
    Ack { order_id: u64, seq: u64, status: u8 },
    Reject { order_id: u64, seq: u64, reason: u8 },
    Fill { order_id: u64, seq: u64, price: i64, qty: u64, leaves: u64, is_maker: bool },
    Cancelled { order_id: u64, seq: u64 },
    Replaced { order_id: u64, seq: u64 },
}

/// Protocol errors.
#[derive(Debug)]
pub enum ProtoError {
    Truncated,
    UnknownTag(u8),
    BadField(&'static str),
    Json(serde_json::Error),
}

/// A field whose code is out of range.
pub enum FieldKind {
    Side,
    OrderType,
    Tif,
}

/// What decoding an inbound message yields.
pub enum Inbound {
    Msg(InboundMsg),
    Truncated,
    UnknownTag(u8),
    BadField(FieldKind),
}

pub open spec fn side_of(b: u8) -> Option<Side> {
    if b == 0 {
        Some(Side::Buy)
    } else if b == 1 {
        Some(Side::Sell)
    } else {
        None
    }
}

pub open spec fn order_type_of(b: u8) -> Option<OrderType> {
    if b == 0 {
        Some(OrderType::Limit)
    } else if b == 1 {
        Some(OrderType::Market)
    } else if b == 2 {
        Some(OrderType::Ioc)
    } else if b == 3 {
        Some(OrderType::Fok)
    } else if b == 4 {
        Some(OrderType::StopMarket)
    } else if b == 5 {
        Some(OrderType::StopLimit)
    } else {
        None
    }
}

pub open spec fn tif_of(b: u8) -> Option<TimeInForce> {
    if b == 0 {
        Some(TimeInForce::Gtc)
    } else if b == 1 {
        Some(TimeInForce::Day)
    } else {
        None
    }
}

/// The 64-bit word at `off`.
pub open spec fn word64(b: Seq<u8>, off: int) -> u64 {
    u64_of_le(b.subrange(off, off + 8))
}

/// The 32-bit word at `off`.
pub open spec fn word32(b: Seq<u8>, off: int) -> u32 {
    u32_of_le(b.subrange(off, off + 4))
}

/// Decode an inbound message at the front of `b`: the outcome and the number of bytes
/// read. A new order is the tag `N` and 39 bytes (id, symbol, side, type, time in force,
/// price, stop price, quantity); a cancel `C` and 12 bytes (id, symbol); a replace `R`
/// and 28 bytes (id, symbol, price, quantity). Fields are read in order, so a bad code
/// stops the reading right after it.
pub open spec fn decode_inbound_view(b: Seq<u8>) -> (Inbound, int) {
    if b.len() == 0 {
        (Inbound::Truncated, 0)
    } else {
        let tag = b[0];
        let r = b.skip(1);
        if tag == TAG_NEW_ORDER {
            if r.len() < 39 {
                (Inbound::Truncated, 1)
            } else if side_of(r[12]) is None {
                (Inbound::BadField(FieldKind::Side), 14)
            } else if order_type_of(r[13]) is None {
                (Inbound::BadField(FieldKind::OrderType), 15)
            } else if tif_of(r[14]) is None {
                (Inbound::BadField(FieldKind::Tif), 16)
            } else {
                (
                    Inbound::Msg(
                        InboundMsg::NewOrder(
                            BinNewOrder {
                                order_id: word64(r, 0),
                                symbol_id: word32(r, 8),
                                side: side_of(r[12]).unwrap(),
                                order_type: order_type_of(r[13]).unwrap(),
                                tif: tif_of(r[14]).unwrap(),
                                price: word64(r, 15) as i64,
                                stop_price: word64(r, 23) as i64,
                                qty: word64(r, 31),
                            },
                        ),
                    ),
                    40,
                )
            }
        } else if tag == TAG_CANCEL {
            if r.len() < 12 {
                (Inbound::Truncated, 1)
            } else {
                (
                    Inbound::Msg(
                        InboundMsg::Cancel(BinCancel { order_id: word64(r, 0), symbol_id: word32(r, 8) }),
                    ),
                    13,
                )
            }
        } else if tag == TAG_REPLACE {
            if r.len() < 28 {
                (Inbound::Truncated, 1)
            } else {
                (
                    Inbound::Msg(
                        InboundMsg::Replace(
                            BinReplace {
                                order_id: word64(r, 0),
                                symbol_id: word32(r, 8),
                                new_price: word64(r, 12) as i64,
                                new_qty: word64(r, 20),
                            },
                        ),
                    ),
                    29,
                )
            }
        } else {
            (Inbound::UnknownTag(tag), 1)
        }
    }
}

/// The result of `decode_inbound` agrees with the decoded outcome.
pub open spec fn inbound_agrees(r: Result<InboundMsg, ProtoError>, d: Inbound) -> bool {
    match d {
        Inbound::Msg(m) => r == Ok::<InboundMsg, ProtoError>(m),
        Inbound::Truncated => r matches Err(ProtoError::Truncated),
        Inbound::UnknownTag(t) => r matches Err(ProtoError::UnknownTag(x)) && x == t,
        Inbound::BadField(k) => r matches Err(ProtoError::BadField(f)) && f@ == (match k {
            FieldKind::Side => "side"@,
            FieldKind::OrderType => "order_type"@,
            FieldKind::Tif => "tif"@,
        }),
    }
}

/// Decode one inbound message from the front of `buf`, consuming what was read.
pub fn decode_inbound(buf: &mut Bytes) -> (r: Result<InboundMsg, ProtoError>)
    ensures
        inbound_agrees(r, decode_inbound_view(bytes_view(*old(buf))).0),
        bytes_view(*final(buf)) == bytes_view(*old(buf)).skip(
            decode_inbound_view(bytes_view(*old(buf))).1,
        ),
{
    let ghost b0 = bytes_view(*buf);
    if bytes_is_empty(buf) {
        assert(b0.skip(0) =~= b0);
        return Err(ProtoError::Truncated);
    }
    let tag = bytes_get_u8(buf);
    if tag == TAG_NEW_ORDER {
        decode_new_order(buf)
    } else if tag == TAG_CANCEL {
        decode_cancel(buf)
    } else if tag == TAG_REPLACE {
        decode_replace(buf)
    } else {
        Err(ProtoError::UnknownTag(tag))
    }
}

fn decode_new_order(buf: &mut Bytes) -> (r: Result<InboundMsg, ProtoError>)
    ensures
        ({
            let b = seq![TAG_NEW_ORDER] + bytes_view(*old(buf));
            &&& inbound_agrees(r, decode_inbound_view(b).0)
            &&& bytes_view(*final(buf)) == b.skip(decode_inbound_view(b).1)
        }),
{
    let ghost r0 = bytes_view(*buf);
    let ghost b = seq![TAG_NEW_ORDER] + r0;
    assert(b.skip(1) =~= r0);
    if bytes_remaining(buf) < 39 {
        assert(b.skip(1) =~= bytes_view(*buf));
        return Err(ProtoError::Truncated);
    }
    let order_id = bytes_get_u64_le(buf);
    let symbol_id = bytes_get_u32_le(buf);
    let side_b = bytes_get_u8(buf);
    assert(r0.take(8) =~= r0.subrange(0, 8));
    assert(r0.skip(8).take(4) =~= r0.subrange(8, 12));
    assert(r0.skip(8).skip(4)[0] == r0[12]);
    let side = match decode_side(side_b) {
        Ok(s) => s,
        Err(e) => {
            assert(r0.skip(8).skip(4).skip(1) =~= b.skip(14));
            return Err(e);
        },
    };
    let type_b = bytes_get_u8(buf);
    assert(r0.skip(8).skip(4).skip(1)[0] == r0[13]);
    let order_type = match decode_order_type(type_b) {
        Ok(t) => t,
        Err(e) => {
            assert(r0.skip(8).skip(4).skip(1).skip(1) =~= b.skip(15));
            return Err(e);
        },
    };
    let tif_b = bytes_get_u8(buf);
    assert(r0.skip(8).skip(4).skip(1).skip(1)[0] == r0[14]);
    let tif = match decode_tif(tif_b) {
        Ok(t) => t,
        Err(e) => {
            assert(r0.skip(8).skip(4).skip(1).skip(1).skip(1) =~= b.skip(16));
            return Err(e);
        },
    };
    let ghost r1 = r0.skip(15);
    assert(r0.skip(8).skip(4).skip(1).skip(1).skip(1) =~= r1);
    let price = bytes_get_i64_le(buf);
    let stop_price = bytes_get_i64_le(buf);
    let qty = bytes_get_u64_le(buf);
    assert(r1.take(8) =~= r0.subrange(15, 23));
    assert(r1.skip(8).take(8) =~= r0.subrange(23, 31));
    assert(r1.skip(8).skip(8).take(8) =~= r0.subrange(31, 39));
    assert(r1.skip(8).skip(8).skip(8) =~= b.skip(40));
    Ok(
        InboundMsg::NewOrder(
            BinNewOrder { order_id, symbol_id, side, order_type, tif, price, stop_price, qty },
        ),
    )
}

fn decode_cancel(buf: &mut Bytes) -> (r: Result<InboundMsg, ProtoError>)
    ensures
        ({
            let b = seq![TAG_CANCEL] + bytes_view(*old(buf));
            &&& inbound_agrees(r, decode_inbound_view(b).0)
            &&& bytes_view(*final(buf)) == b.skip(decode_inbound_view(b).1)
        }),
{
    let ghost r0 = bytes_view(*buf);
    let ghost b = seq![TAG_CANCEL] + r0;
    assert(b.skip(1) =~= r0);
    if bytes_remaining(buf) < 12 {
        return Err(ProtoError::Truncated);
    }
    let order_id = bytes_get_u64_le(buf);
    let symbol_id = bytes_get_u32_le(buf);
    assert(r0.take(8) =~= r0.subrange(0, 8));
    assert(r0.skip(8).take(4) =~= r0.subrange(8, 12));
    assert(r0.skip(8).skip(4) =~= b.skip(13));
    Ok(InboundMsg::Cancel(BinCancel { order_id, symbol_id }))
}

fn decode_replace(buf: &mut Bytes) -> (r: Result<InboundMsg, ProtoError>)
    ensures
        ({
            let b = seq![TAG_REPLACE] + bytes_view(*old(buf));
            &&& inbound_agrees(r, decode_inbound_view(b).0)
            &&& bytes_view(*final(buf)) == b.skip(decode_inbound_view(b).1)
        }),
{
    let ghost r0 = bytes_view(*buf);
    let ghost b = seq![TAG_REPLACE] + r0;
    assert(b.skip(1) =~= r0);
    if bytes_remaining(buf) < 28 {
        return Err(ProtoError::Truncated);
    }
    let order_id = bytes_get_u64_le(buf);
    let symbol_id = bytes_get_u32_le(buf);
    let new_price = bytes_get_i64_le(buf);
    let new_qty = bytes_get_u64_le(buf);
    assert(r0.take(8) =~= r0.subrange(0, 8));
    assert(r0.skip(8).take(4) =~= r0.subrange(8, 12));
    assert(r0.skip(8).skip(4).take(8) =~= r0.subrange(12, 20));
    assert(r0.skip(8).skip(4).skip(8).take(8) =~= r0.subrange(20, 28));
    assert(r0.skip(8).skip(4).skip(8).skip(8) =~= b.skip(29));
    Ok(InboundMsg::Replace(BinReplace { order_id, symbol_id, new_price, new_qty }))
}

fn decode_side(b: u8) -> (r: Result<Side, ProtoError>)
    ensures
        match side_of(b) {
            Some(s) => r matches Ok(x) && x == s,
            None => r matches Err(ProtoError::BadField(f)) && f@ == "side"@,
        },
{
    match b {
        0 => Ok(Side::Buy),
        1 => Ok(Side::Sell),
        _ => Err(ProtoError::BadField("side")),
    }
}

fn decode_order_type(b: u8) -> (r: Result<OrderType, ProtoError>)
    ensures
        match order_type_of(b) {
            Some(t) => r matches Ok(x) && x == t,
            None => r matches Err(ProtoError::BadField(f)) && f@ == "order_type"@,
        },
{
    match b {
        0 => Ok(OrderType::Limit),
        1 => Ok(OrderType::Market),
        2 => Ok(OrderType::Ioc),
        3 => Ok(OrderType::Fok),
        4 => Ok(OrderType::StopMarket),
        5 => Ok(OrderType::StopLimit),
        _ => Err(ProtoError::BadField("order_type")),
    }
}

fn decode_tif(b: u8) -> (r: Result<TimeInForce, ProtoError>)
    ensures
        match tif_of(b) {
            Some(t) => r matches Ok(x) && x == t,
            None => r matches Err(ProtoError::BadField(f)) && f@ == "tif"@,
        },
{
    match b {
        0 => Ok(TimeInForce::Gtc),
        1 => Ok(TimeInForce::Day),
        _ => Err(ProtoError::BadField("tif")),
    }
}

/// The bytes of an outbound message: its tag, then its fields little-endian.
pub open spec fn outbound_bytes(msg: OutboundMsg) -> Seq<u8> {
    match msg {
        OutboundMsg::Ack { order_id, seq, status } => seq![TAG_ACK] + le_u64_bytes(order_id)
            + le_u64_bytes(seq) + seq![status],
        OutboundMsg::Reject { order_id, seq, reason } => seq![TAG_REJECT] + le_u64_bytes(order_id)
            + le_u64_bytes(seq) + seq![reason],
        OutboundMsg::Fill { order_id, seq, price, qty, leaves, is_maker } => seq![TAG_FILL]
            + le_u64_bytes(order_id) + le_u64_bytes(seq) + le_u64_bytes(price as u64)
            + le_u64_bytes(qty) + le_u64_bytes(leaves) + seq![
            if is_maker {
                1u8
            } else {
                0u8
            },
        ],
        OutboundMsg::Cancelled { order_id, seq } => seq![TAG_CANCELLED] + le_u64_bytes(order_id)
            + le_u64_bytes(seq),
        OutboundMsg::Replaced { order_id, seq } => seq![TAG_REPLACED] + le_u64_bytes(order_id)
            + le_u64_bytes(seq),
    }
}

/// Append the bytes of `msg` to `buf`.
pub fn encode_outbound(msg: &OutboundMsg, buf: &mut BytesMut)
    requires
        bytes_mut_view(*old(buf)).len() + 42 <= isize::MAX,
    ensures
        bytes_mut_view(*final(buf)) == bytes_mut_view(*old(buf)) + outbound_bytes(*msg),
{
    let ghost b0 = bytes_mut_view(*buf);
    match *msg {
        OutboundMsg::Ack { order_id, seq, status } => {
            bytes_put_u8(buf, TAG_ACK);
            bytes_put_u64_le(buf, order_id);
            bytes_put_u64_le(buf, seq);
            bytes_put_u8(buf, status);
        },
        OutboundMsg::Reject { order_id, seq, reason } => {
            bytes_put_u8(buf, TAG_REJECT);
            bytes_put_u64_le(buf, order_id);
            bytes_put_u64_le(buf, seq);
            bytes_put_u8(buf, reason);
        },
        OutboundMsg::Fill { order_id, seq, price, qty, leaves, is_maker } => {
            bytes_put_u8(buf, TAG_FILL);
            bytes_put_u64_le(buf, order_id);
            bytes_put_u64_le(buf, seq);
            bytes_put_i64_le(buf, price);
            bytes_put_u64_le(buf, qty);
            bytes_put_u64_le(buf, leaves);
            bytes_put_u8(
                buf,
                if is_maker {
                    1
                } else {
                    0
                },
            );
        },
        OutboundMsg::Cancelled { order_id, seq } => {
            bytes_put_u8(buf, TAG_CANCELLED);
            bytes_put_u64_le(buf, order_id);
            bytes_put_u64_le(buf, seq);
        },
        OutboundMsg::Replaced { order_id, seq } => {
            bytes_put_u8(buf, TAG_REPLACED);
            bytes_put_u64_le(buf, order_id);
            bytes_put_u64_le(buf, seq);
        },
    }
    assert(bytes_mut_view(*buf) =~= b0 + outbound_bytes(*msg));
}

/// Append the bytes of `msg` to `buf` when the buffer has room for the longest message
/// (it cannot grow past `isize::MAX` bytes); otherwise leave it as it is. Returns whether
/// the message was written.
pub fn try_encode_outbound(msg: &OutboundMsg, buf: &mut BytesMut) -> (ok: bool)
    ensures
        ok == (bytes_mut_view(*old(buf)).len() + 42 <= isize::MAX),
        ok ==> bytes_mut_view(*final(buf)) == bytes_mut_view(*old(buf)) + outbound_bytes(*msg),
        !ok ==> *final(buf) == *old(buf),
{
    let n = bytes_mut_len(buf);
    if n > (isize::MAX as usize) - 42 {
        return false;
    }
    encode_outbound(msg, buf);
    true
}

impl vstd::std_specs::convert::FromSpecImpl<BinNewOrder> for NewOrder {
    open spec fn obeys_from_spec() -> bool {
        true
    }

    open spec fn from_spec(b: BinNewOrder) -> NewOrder {
        NewOrder {
            id: b.order_id,
            symbol: b.symbol_id,
            side: b.side,
            kind: b.order_type,
            tif: b.tif,
            price: b.price,
            stop_price: b.stop_price,
            qty: b.qty,
        }
    }
}

impl From<BinNewOrder> for NewOrder {
    fn from(b: BinNewOrder) -> (n: NewOrder) {
        NewOrder {
            id: b.order_id,
            symbol: b.symbol_id,
            side: b.side,
            kind: b.order_type,
            tif: b.tif,
            price: b.price,
            stop_price: b.stop_price,
            qty: b.qty,
        }
    }
}

/// The wire codes of sides, order kinds and times in force are the ones snapshots record:
/// each kind, side and time in force decodes from its own code, and a code that decodes
/// at all is the code of what it decodes to, so distinct codes give distinct values.
pub proof fn law_codes_decode_to_their_values(k: OrderType, sd: Side, t: TimeInForce, b: u8)
    ensures
        order_type_of(kind_code(k)) == Some(k),
        side_of(side_code(sd)) == Some(sd),
        tif_of(tif_code(t)) == Some(t),
        order_type_of(b) matches Some(x) ==> kind_code(x) == b,
        side_of(b) matches Some(x) ==> side_code(x) == b,
        tif_of(b) matches Some(x) ==> tif_code(x) == b,
{
}

/// Which kind of report an outbound message is.
pub open spec fn same_variant(a: OutboundMsg, b: OutboundMsg) -> bool {
    &&& (a is Ack) == (b is Ack)
    &&& (a is Reject) == (b is Reject)
    &&& (a is Fill) == (b is Fill)
    &&& (a is Cancelled) == (b is Cancelled)
    &&& (a is Replaced) == (b is Replaced)
}

/// An encoded report starts with its kind's own tag (`A`, `J`, `F`, `X`, `Z` for
/// acknowledgement, rejection, fill, cancellation and replacement), so reports of different
/// kinds never start alike and a reader can tell them apart from the first byte.
pub proof fn law_outbound_tag_names_the_report(a: OutboundMsg, b: OutboundMsg)
    ensures
        outbound_bytes(a).len() > 0,
        a is Ack ==> outbound_bytes(a)[0] == 65,
        a is Reject ==> outbound_bytes(a)[0] == 74,
        a is Fill ==> outbound_bytes(a)[0] == 70,
        a is Cancelled ==> outbound_bytes(a)[0] == 88,
        a is Replaced ==> outbound_bytes(a)[0] == 90,
        !same_variant(a, b) ==> outbound_bytes(a)[0] != outbound_bytes(b)[0],
{
    assert(outbound_bytes(a).len() > 0);
    assert(outbound_bytes(b).len() > 0);
}

/// The bytes a client writes for a new order: `N`, then id, symbol, the side, type and
/// time-in-force codes, price, stop price and quantity, little-endian.
pub open spec fn new_order_bytes(m: BinNewOrder) -> Seq<u8> {
    seq![78u8] + le_u64_bytes(m.order_id) + le_u32_bytes(m.symbol_id) + seq![
        side_code(m.side),
        kind_code(m.order_type),
        tif_code(m.tif),
    ] + le_u64_bytes(m.price as u64) + le_u64_bytes(m.stop_price as u64) + le_u64_bytes(m.qty)
}

/// The bytes a client writes for a cancel: `C`, then id and symbol.
pub open spec fn cancel_bytes(m: BinCancel) -> Seq<u8> {
    seq![67u8] + le_u64_bytes(m.order_id) + le_u32_bytes(m.symbol_id)
}

/// The bytes a client writes for a replace: `R`, then id, symbol, new price and new
/// quantity.
pub open spec fn replace_bytes(m: BinReplace) -> Seq<u8> {
    seq![82u8] + le_u64_bytes(m.order_id) + le_u32_bytes(m.symbol_id) + le_u64_bytes(m.new_price as u64)
        + le_u64_bytes(m.new_qty)
}

proof fn lemma_i64_through_u64(x: i64)
    ensures
        ((x as u64) as i64) == x,
{
    assert(((x as u64) as i64) == x) by (bit_vector);
}

/// Every request a client writes reads back as exactly that request, whatever follows it,
/// consuming exactly its own bytes: a new order of any side, type and time in force, a
/// cancel and a replace.
pub proof fn law_inbound_reads_back(n: BinNewOrder, c: BinCancel, r: BinReplace, rest: Seq<u8>)
    ensures
        decode_inbound_view(new_order_bytes(n) + rest) == (Inbound::Msg(InboundMsg::NewOrder(n)), 40int),
        decode_inbound_view(cancel_bytes(c) + rest) == (Inbound::Msg(InboundMsg::Cancel(c)), 13int),
        decode_inbound_view(replace_bytes(r) + rest) == (Inbound::Msg(InboundMsg::Replace(r)), 29int),
{
    law_codes_decode_to_their_values(n.order_type, n.side, n.tif, 0);
    lemma_u64_le_roundtrip(n.order_id);
    lemma_u32_le_roundtrip(n.symbol_id);
    lemma_u64_le_roundtrip(n.price as u64);
    lemma_u64_le_roundtrip(n.stop_price as u64);
    lemma_u64_le_roundtrip(n.qty);
    lemma_i64_through_u64(n.price);
    lemma_i64_through_u64(n.stop_price);
    let bn = new_order_bytes(n) + rest;
    let rn = bn.skip(1);
    assert(rn.subrange(0, 8) =~= le_u64_bytes(n.order_id));
    assert(rn.subrange(8, 12) =~= le_u32_bytes(n.symbol_id));
    assert(rn[12] == side_code(n.side));
    assert(rn[13] == kind_code(n.order_type));
    assert(rn[14] == tif_code(n.tif));
    assert(rn.subrange(15, 23) =~= le_u64_bytes(n.price as u64));
    assert(rn.subrange(23, 31) =~= le_u64_bytes(n.stop_price as u64));
    assert(rn.subrange(31, 39) =~= le_u64_bytes(n.qty));
    assert(bn[0] == 78u8);

    lemma_u64_le_roundtrip(c.order_id);
    lemma_u32_le_roundtrip(c.symbol_id);
    let bc = cancel_bytes(c) + rest;
    let rc = bc.skip(1);
    assert(rc.subrange(0, 8) =~= le_u64_bytes(c.order_id));
    assert(rc.subrange(8, 12) =~= le_u32_bytes(c.symbol_id));
    assert(bc[0] == 67u8);

    lemma_u64_le_roundtrip(r.order_id);
    lemma_u32_le_roundtrip(r.symbol_id);
    lemma_u64_le_roundtrip(r.new_price as u64);
    lemma_u64_le_roundtrip(r.new_qty);
    lemma_i64_through_u64(r.new_price);
    let br = replace_bytes(r) + rest;
    let rr = br.skip(1);
    assert(rr.subrange(0, 8) =~= le_u64_bytes(r.order_id));
    assert(rr.subrange(8, 12) =~= le_u32_bytes(r.symbol_id));
    assert(rr.subrange(12, 20) =~= le_u64_bytes(r.new_price as u64));
    assert(rr.subrange(20, 28) =~= le_u64_bytes(r.new_qty));
    assert(br[0] == 82u8);
}

/// A report carries its fields after its tag, little-endian, where a client reads them:
/// order id, then sequence number, then the variant's own fields, and nothing more.
pub proof fn law_outbound_fields_read_back(m: OutboundMsg)
    ensures
        ({
            let b = outbound_bytes(m);
            match m {
                OutboundMsg::Ack { order_id, seq, status } => b.len() == 18 && word64(b, 1) == order_id
                    && word64(b, 9) == seq && b[17] == status,
                OutboundMsg::Reject { order_id, seq, reason } => b.len() == 18 && word64(b, 1) == order_id
                    && word64(b, 9) == seq && b[17] == reason,
                OutboundMsg::Fill { order_id, seq, price, qty, leaves, is_maker } => b.len() == 42 && word64(
                    b,
                    1,
                ) == order_id && word64(b, 9) == seq && (word64(b, 17) as i64) == price && word64(b, 25)
                    == qty && word64(b, 33) == leaves && b[41] == (if is_maker {
                    1u8
                } else {
                    0u8
                }),
                OutboundMsg::Cancelled { order_id, seq } => b.len() == 17 && word64(b, 1) == order_id
                    && word64(b, 9) == seq,
                OutboundMsg::Replaced { order_id, seq } => b.len() == 17 && word64(b, 1) == order_id
                    && word64(b, 9) == seq,
            }
        }),
{
    let b = outbound_bytes(m);
    match m {
        OutboundMsg::Ack { order_id, seq, status } => {
            lemma_u64_le_roundtrip(order_id);
            lemma_u64_le_roundtrip(seq);
            assert(b.subrange(1, 9) =~= le_u64_bytes(order_id));
            assert(b.subrange(9, 17) =~= le_u64_bytes(seq));
        },
        OutboundMsg::Reject { order_id, seq, reason } => {
            lemma_u64_le_roundtrip(order_id);
            lemma_u64_le_roundtrip(seq);
            assert(b.subrange(1, 9) =~= le_u64_bytes(order_id));
            assert(b.subrange(9, 17) =~= le_u64_bytes(seq));
        },
        OutboundMsg::Fill { order_id, seq, price, qty, leaves, is_maker } => {
            lemma_u64_le_roundtrip(order_id);
            lemma_u64_le_roundtrip(seq);
            lemma_u64_le_roundtrip(price as u64);
            lemma_u64_le_roundtrip(qty);
            lemma_u64_le_roundtrip(leaves);
            lemma_i64_through_u64(price);
            assert(b.subrange(1, 9) =~= le_u64_bytes(order_id));
            assert(b.subrange(9, 17) =~= le_u64_bytes(seq));
            assert(b.subrange(17, 25) =~= le_u64_bytes(price as u64));
            assert(b.subrange(25, 33) =~= le_u64_bytes(qty));
            assert(b.subrange(33, 41) =~= le_u64_bytes(leaves));
        },
        OutboundMsg::Cancelled { order_id, seq } => {
            lemma_u64_le_roundtrip(order_id);
            lemma_u64_le_roundtrip(seq);
            assert(b.subrange(1, 9) =~= le_u64_bytes(order_id));
            assert(b.subrange(9, 17) =~= le_u64_bytes(seq));
        },
        OutboundMsg::Replaced { order_id, seq } => {
            lemma_u64_le_roundtrip(order_id);
            lemma_u64_le_roundtrip(seq);
            assert(b.subrange(1, 9) =~= le_u64_bytes(order_id));
            assert(b.subrange(9, 17) =~= le_u64_bytes(seq));
        },
    }
}

} // verus!



