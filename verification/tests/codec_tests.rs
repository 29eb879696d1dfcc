//! The wire codec: exact encodings, tolerant decoding, the round trip, and
//! every decode error.

use rust_validator::codec::{decode_order, encode_order, DecodeError, WireOrder};
use rust_validator::orderbook::{Action, OrderType};

fn wire(
    id: u64,
    price_bits: u64,
    amount: i32,
    action: Action,
    kind: OrderType,
    ts: u64,
    sym: &str,
) -> WireOrder {
    WireOrder {
        id,
        price_bits,
        amount,
        action,
        order_type: kind,
        timestamp: ts,
        symbol: sym.as_bytes().to_vec(),
    }
}

#[test]
fn encode_known_record_exactly() {
    let w = wire(1, 0, 0, Action::Buy, OrderType::Cancel, 0, "A");
    let bytes = encode_order(&w);
    assert_eq!(
        bytes,
        vec![8, 1, 17, 0, 0, 0, 0, 0, 0, 0, 0, 24, 0, 32, 0, 40, 2, 48, 0, 58, 1, 65]
    );
}

#[test]
fn round_trip_simple() {
    let w = wire(1, 0, 5, Action::Buy, OrderType::Limit, 42, "TSLA");
    let bytes = encode_order(&w);
    let back = decode_order(&bytes).unwrap();
    assert_eq!(back, w);
}

#[test]
fn round_trip_wide_values() {
    let price = 123.456_f64;
    let w = wire(
        u64::MAX,
        price.to_bits(),
        i32::MAX,
        Action::Sell,
        OrderType::Market,
        u64::MAX - 1,
        "ABCDEFGHIJKLMNOP",
    );
    let bytes = encode_order(&w);
    let back = decode_order(&bytes).unwrap();
    assert_eq!(back, w);
    assert_eq!(f64::from_bits(back.price_bits), 123.456);
}

#[test]
fn decode_multibyte_varint() {
    // id = 300 encodes as 0xAC 0x02
    let bytes = vec![8, 0xAC, 0x02];
    let w = decode_order(&bytes).unwrap();
    assert_eq!(w.id, 300);
    assert_eq!(w.amount, 0);
    assert_eq!(w.action, Action::Buy);
    assert_eq!(w.order_type, OrderType::Market);
    assert_eq!(w.symbol, Vec::<u8>::new());
}

#[test]
fn decode_with_omitted_fields() {
    // a cancel as a sparse producer would send it: id, kind, timestamp only
    let bytes = vec![8, 7, 40, 2, 48, 9];
    let w = decode_order(&bytes).unwrap();
    assert_eq!(w.id, 7);
    assert_eq!(w.order_type, OrderType::Cancel);
    assert_eq!(w.timestamp, 9);
    assert_eq!(w.price_bits, 0);
    assert_eq!(w.amount, 0);
}

#[test]
fn decode_empty_record_is_all_defaults() {
    let w = decode_order(&[]).unwrap();
    assert_eq!(w.id, 0);
    assert_eq!(w.action, Action::Buy);
    assert_eq!(w.order_type, OrderType::Market);
}

#[test]
fn error_unexpected_end_in_varint() {
    assert_eq!(decode_order(&[8]), Err(DecodeError::UnexpectedEnd));
}

#[test]
fn error_unexpected_end_in_price() {
    assert_eq!(decode_order(&[17, 1, 2, 3]), Err(DecodeError::UnexpectedEnd));
}

#[test]
fn error_unexpected_end_in_symbol() {
    // announces five octets but carries two
    assert_eq!(decode_order(&[58, 5, 65, 66]), Err(DecodeError::UnexpectedEnd));
}

#[test]
fn error_bad_varint_too_long() {
    let mut bytes = vec![8];
    bytes.extend(std::iter::repeat(0x80).take(10));
    bytes.push(1);
    assert_eq!(decode_order(&bytes), Err(DecodeError::BadVarint));
}

#[test]
fn error_bad_varint_overflow() {
    // ten octets whose value exceeds 64 bits
    let mut bytes = vec![8];
    bytes.extend(std::iter::repeat(0xFF).take(9));
    bytes.push(0x7F);
    assert_eq!(decode_order(&bytes), Err(DecodeError::BadVarint));
}

#[test]
fn error_bad_enum_action() {
    assert_eq!(decode_order(&[32, 5]), Err(DecodeError::BadEnum));
}

#[test]
fn error_bad_enum_kind() {
    assert_eq!(decode_order(&[40, 3]), Err(DecodeError::BadEnum));
}

#[test]
fn error_bad_value_amount() {
    // amount = 2^31, one past i32::MAX
    assert_eq!(
        decode_order(&[24, 0x80, 0x80, 0x80, 0x80, 0x08]),
        Err(DecodeError::BadValue)
    );
}

#[test]
fn error_trailing_bytes() {
    assert_eq!(decode_order(&[8, 1, 99]), Err(DecodeError::TrailingBytes));
}
