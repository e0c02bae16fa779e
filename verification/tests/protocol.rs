use bytes::{BufMut, Bytes, BytesMut};
use exchange::events::NewOrder;
use exchange::protocol::{
    decode_inbound, encode_outbound, try_encode_outbound, BinCancel, BinNewOrder, BinReplace, InboundMsg, OutboundMsg,
    ProtoError, TAG_ACK, TAG_CANCEL, TAG_FILL, TAG_NEW_ORDER, TAG_REPLACE,
};
use exchange::types::{OrderType, Side, TimeInForce};

#[test]
fn roundtrip_new_order() {
    let orig = BinNewOrder {
        order_id: 42,
        symbol_id: 1,
        side: Side::Buy,
        order_type: OrderType::Limit,
        tif: TimeInForce::Gtc,
        price: 10050,
        stop_price: 0,
        qty: 100,
    };
    let mut buf = BytesMut::new();
    buf.put_u8(TAG_NEW_ORDER);
    buf.put_u64_le(orig.order_id);
    buf.put_u32_le(orig.symbol_id);
    buf.put_u8(0);
    buf.put_u8(0);
    buf.put_u8(0);
    buf.put_i64_le(orig.price);
    buf.put_i64_le(orig.stop_price);
    buf.put_u64_le(orig.qty);

    let mut b = buf.freeze();
    let msg = decode_inbound(&mut b).unwrap();
    match msg {
        InboundMsg::NewOrder(no) => {
            assert_eq!(no.order_id, 42);
            assert_eq!(no.price, 10050);
            assert_eq!(no.qty, 100);
        },
        _ => panic!("wrong variant"),
    }
}

#[test]
fn unknown_tag_is_error() {
    let mut b = Bytes::from_static(&[0xFFu8]);
    assert!(matches!(decode_inbound(&mut b), Err(ProtoError::UnknownTag(0xFF))));
}

#[test]
fn decode_cancel_and_replace_consume_their_bytes() {
    let mut buf = BytesMut::new();
    buf.put_u8(TAG_CANCEL);
    buf.put_u64_le(7);
    buf.put_u32_le(3);
    buf.put_u8(TAG_REPLACE);
    buf.put_u64_le(8);
    buf.put_u32_le(4);
    buf.put_i64_le(-5);
    buf.put_u64_le(11);
    buf.put_u8(0xEE);
    let mut b = buf.freeze();
    assert_eq!(decode_inbound(&mut b).unwrap(), InboundMsg::Cancel(BinCancel { order_id: 7, symbol_id: 3 }));
    assert_eq!(
        decode_inbound(&mut b).unwrap(),
        InboundMsg::Replace(BinReplace { order_id: 8, symbol_id: 4, new_price: -5, new_qty: 11 })
    );
    assert_eq!(&b[..], &[0xEE]);
}

#[test]
fn short_message_is_truncated() {
    let mut buf = BytesMut::new();
    buf.put_u8(TAG_CANCEL);
    buf.put_u64_le(7);
    let mut b = buf.freeze();
    assert!(matches!(decode_inbound(&mut b), Err(ProtoError::Truncated)));
    let mut empty = Bytes::new();
    assert!(matches!(decode_inbound(&mut empty), Err(ProtoError::Truncated)));
}

#[test]
fn bad_side_code_is_rejected() {
    let mut buf = BytesMut::new();
    buf.put_u8(TAG_NEW_ORDER);
    buf.put_u64_le(1);
    buf.put_u32_le(1);
    buf.put_u8(2);
    buf.put_u8(0);
    buf.put_u8(0);
    buf.put_i64_le(1);
    buf.put_i64_le(0);
    buf.put_u64_le(1);
    let mut b = buf.freeze();
    assert!(matches!(decode_inbound(&mut b), Err(ProtoError::BadField("side"))));
}

#[test]
fn stop_limit_sell_day_fields_decode() {
    let mut buf = BytesMut::new();
    buf.put_u8(TAG_NEW_ORDER);
    buf.put_u64_le(5);
    buf.put_u32_le(9);
    buf.put_u8(1);
    buf.put_u8(5);
    buf.put_u8(1);
    buf.put_i64_le(200);
    buf.put_i64_le(190);
    buf.put_u64_le(3);
    let mut b = buf.freeze();
    let msg = decode_inbound(&mut b).unwrap();
    let expected = BinNewOrder {
        order_id: 5,
        symbol_id: 9,
        side: Side::Sell,
        order_type: OrderType::StopLimit,
        tif: TimeInForce::Day,
        price: 200,
        stop_price: 190,
        qty: 3,
    };
    assert_eq!(msg, InboundMsg::NewOrder(expected));
    let no = NewOrder::from(expected);
    assert_eq!(no.id, 5);
    assert_eq!(no.symbol, 9);
    assert_eq!(no.kind, OrderType::StopLimit);
    assert_eq!(no.stop_price, 190);
}

#[test]
fn encode_ack_and_fill() {
    let mut buf = BytesMut::new();
    encode_outbound(&OutboundMsg::Ack { order_id: 1, seq: 2, status: 3 }, &mut buf);
    let mut expected = vec![TAG_ACK];
    expected.extend_from_slice(&1u64.to_le_bytes());
    expected.extend_from_slice(&2u64.to_le_bytes());
    expected.push(3);
    assert_eq!(&buf[..], &expected[..]);

    let mut buf = BytesMut::new();
    encode_outbound(
        &OutboundMsg::Fill { order_id: 4, seq: 5, price: -6, qty: 7, leaves: 8, is_maker: true },
        &mut buf,
    );
    assert_eq!(buf.len(), 42);
    assert_eq!(buf[0], TAG_FILL);
    assert_eq!(&buf[17..25], &(-6i64).to_le_bytes());
    assert_eq!(buf[41], 1);
}

#[test]
fn try_encode_appends_after_what_is_there() {
    let mut buf = BytesMut::new();
    buf.put_u8(9);
    assert!(try_encode_outbound(&OutboundMsg::Cancelled { order_id: 5, seq: 6 }, &mut buf));
    let mut expected = vec![9u8, exchange::protocol::TAG_CANCELLED];
    expected.extend_from_slice(&5u64.to_le_bytes());
    expected.extend_from_slice(&6u64.to_le_bytes());
    assert_eq!(&buf[..], &expected[..]);
}
