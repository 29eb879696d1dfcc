//! The order wire codec: a length-free binary record of tagged fields in
//! ascending field order — variable-length integers for the scalar fields, a
//! fixed 8-octet little-endian block for the price bits, and a
//! length-delimited octet string for the instrument. Fields may be absent,
//! in which case they read as zero or empty; unknown tags, out-of-range
//! values and trailing octets are decode errors.
//!
//! The price travels as the raw bits of the wire's float64 field; turning
//! those bits into the scaled integer price is the caller's concern.

use vstd::prelude::*;

use crate::orderbook::{Action, OrderType};
use vstd::bytes::{
    lemma_auto_spec_u64_to_from_le_bytes, spec_u64_from_le_bytes, spec_u64_to_le_bytes,
    u64_from_le_bytes, u64_to_le_bytes,
};
use vstd::slice::{slice_subrange, slice_to_vec};

verus! {

// Single-octet field tags: field number shifted left three, or-ed with the
// wire type (0 varint, 1 fixed64, 2 length-delimited).
pub const TAG_ID: u8 = 8;
pub const TAG_PRICE: u8 = 17;
pub const TAG_AMOUNT: u8 = 24;
pub const TAG_ACTION: u8 = 32;
pub const TAG_KIND: u8 = 40;
pub const TAG_TIMESTAMP: u8 = 48;
pub const TAG_INSTRUMENT: u8 = 58;

/// Why a wire record cannot be decoded.
#[derive(Clone, Copy, Debug, PartialEq, Eq, Structural)]
pub enum DecodeError {
    /// The record ends in the middle of a field.
    UnexpectedEnd,
    /// A variable-length integer runs too long or does not fit 64 bits.
    BadVarint,
    /// A side or kind field carries an unknown value.
    BadEnum,
    /// The quantity does not fit its field.
    BadValue,
    /// Octets follow the last field.
    TrailingBytes,
}

/// An order record as it travels on the wire. The price is carried as the
/// raw bits of the wire's float64 field.
#[derive(Clone, Debug, PartialEq)]
pub struct WireOrder {
    pub id: u64,
    pub price_bits: u64,
    pub amount: i32,
    pub action: Action,
    pub order_type: OrderType,
    pub timestamp: u64,
    pub symbol: Vec<u8>,
}

pub ghost struct WireOrderV {
    pub id: u64,
    pub price_bits: u64,
    pub amount: i32,
    pub action: Action,
    pub order_type: OrderType,
    pub timestamp: u64,
    pub symbol: Seq<u8>,
}

impl View for WireOrder {
    type V = WireOrderV;

    open spec fn view(&self) -> WireOrderV {
        WireOrderV {
            id: self.id,
            price_bits: self.price_bits,
            amount: self.amount,
            action: self.action,
            order_type: self.order_type,
            timestamp: self.timestamp,
            symbol: self.symbol@,
        }
    }
}

/// A record the encoder accepts: the quantity is non-negative (the wire
/// carries it as an unsigned variable-length integer) and the instrument's
/// length fits its field.
pub open spec fn wire_valid(w: WireOrderV) -> bool {
    &&& w.amount >= 0
    &&& w.symbol.len() <= u64::MAX
}

pub open spec fn action_code(a: Action) -> nat {
    match a {
        Action::Buy => 0,
        Action::Sell => 1,
    }
}

pub open spec fn kind_code(k: OrderType) -> nat {
    match k {
        OrderType::Market => 0,
        OrderType::Limit => 1,
        OrderType::Cancel => 2,
    }
}

// ---------------------------------------------------------------------------
// Variable-length integers
// ---------------------------------------------------------------------------

/// The encoding of `v` as a variable-length integer: seven value bits per
/// octet, least significant group first, the high bit marking continuation.
pub open spec fn varint_enc(v: nat) -> Seq<u8>
    decreases v,
{
    if v < 128 {
        seq![v as u8]
    } else {
        seq![(128 + v % 128) as u8] + varint_enc(v / 128)
    }
}

/// Decode a variable-length integer at position `i`, reading at most
/// `budget` octets.
pub open spec fn dec_varint(s: Seq<u8>, i: int, budget: nat) -> Option<(nat, int)>
    decreases budget,
{
    if budget == 0 || !(0 <= i < s.len()) {
        None
    } else if s[i] < 128 {
        Some((s[i] as nat, i + 1))
    } else {
        match dec_varint(s, i + 1, (budget - 1) as nat) {
            Some((v, j)) => Some((128 * v + (s[i] - 128) as nat, j)),
            None => None,
        }
    }
}

pub open spec fn pow128(k: nat) -> nat
    decreases k,
{
    if k == 0 {
        1
    } else {
        128 * pow128((k - 1) as nat)
    }
}

pub proof fn lemma_varint_len_bound(v: nat, k: nat)
    requires
        1 <= k,
        v < pow128(k),
    ensures
        1 <= varint_enc(v).len() <= k,
    decreases k,
{
    if v < 128 {
    } else {
        assert(pow128(k) == 128 * pow128((k - 1) as nat));
        assert(v / 128 < pow128((k - 1) as nat)) by {
            if v / 128 >= pow128((k - 1) as nat) {
                assert(128 * (v / 128) >= 128 * pow128((k - 1) as nat)) by (nonlinear_arith)
                    requires
                        v / 128 >= pow128((k - 1) as nat),
                ;
                assert(v >= 128 * (v / 128));
            }
        }
        assert(k >= 2) by {
            if k == 1 {
                assert(pow128(1nat) == 128);
            }
        }
        lemma_varint_len_bound(v / 128, (k - 1) as nat);
    }
}

/// Every 64-bit value encodes in at most ten octets.
pub proof fn lemma_varint_len_u64(v: nat)
    requires
        v <= u64::MAX,
    ensures
        1 <= varint_enc(v).len() <= 10,
{
    assert(pow128(0nat) == 1);
    assert(pow128(1nat) == 128);
    assert(pow128(2nat) == 16384);
    assert(pow128(3nat) == 2097152);
    assert(pow128(4nat) == 268435456);
    assert(pow128(5nat) == 34359738368);
    assert(pow128(6nat) == 4398046511104);
    assert(pow128(7nat) == 562949953421312);
    assert(pow128(8nat) == 72057594037927936);
    assert(pow128(9nat) == 9223372036854775808);
    assert(pow128(10nat) == 1180591620717411303424);
    lemma_varint_len_bound(v, 10);
}

/// Decoding reads back exactly what the encoder wrote, wherever the encoding
/// sits in a larger record.
pub proof fn lemma_dec_varint_at(s: Seq<u8>, i: int, v: nat, budget: nat)
    requires
        0 <= i,
        i + varint_enc(v).len() <= s.len(),
        forall|j: int| 0 <= j < varint_enc(v).len() ==> s[i + j] == varint_enc(v)[j],
        varint_enc(v).len() <= budget,
    ensures
        dec_varint(s, i, budget) == Some((v, i + varint_enc(v).len())),
    decreases v,
{
    if v < 128 {
        assert(s[i + 0] == varint_enc(v)[0]);
        assert(s[i] == v as u8);
    } else {
        let e = varint_enc(v);
        let et = varint_enc(v / 128);
        assert(e == seq![(128 + v % 128) as u8] + et);
        assert(s[i + 0] == e[0]);
        assert(s[i] == (128 + v % 128) as u8);
        assert(s[i] >= 128);
        assert forall|j: int| 0 <= j < et.len() implies s[i + 1 + j] == et[j] by {
            assert(s[i + (j + 1)] == e[j + 1]);
            assert(e[j + 1] == et[j]);
        }
        lemma_dec_varint_at(s, i + 1, v / 128, (budget - 1) as nat);
        assert(dec_varint(s, i, budget) == Some(
            (128 * (v / 128) + (s[i] - 128) as nat, i + 1 + et.len()),
        ));
        assert((s[i] - 128) as nat == v % 128);
        assert(128 * (v / 128) + v % 128 == v);
    }
}

/// Append the variable-length encoding of `v`.
fn encode_varint(out: &mut Vec<u8>, v: u64)
    ensures
        final(out)@ == old(out)@ + varint_enc(v as nat),
    decreases v,
{
    if v < 128 {
        out.push(v as u8);
        proof {
            assert(out@ =~= old(out)@ + varint_enc(v as nat));
        }
    } else {
        let ghost before = out@;
        out.push((v % 128 + 128) as u8);
        proof {
            assert(v / 128 < v);
        }
        encode_varint(out, v / 128);
        proof {
            assert((v / 128) as nat == (v as nat) / 128);
            assert((v % 128) as nat == (v as nat) % 128);
            assert(out@ =~= before + varint_enc(v as nat));
        }
    }
}

/// Decode a variable-length integer, reading at most `budget` octets and
/// rejecting values beyond 64 bits.
fn decode_varint(s: &[u8], i: usize, budget: u32) -> (r: Result<(u64, usize), DecodeError>)
    requires
        i <= s@.len(),
    ensures
        ({
            let d = dec_varint(s@, i as int, budget as nat);
            match r {
                Ok((v, j)) => d == Some((v as nat, j as int)) && i < j <= s@.len(),
                Err(_) => d is None || (d matches Some((v, _)) && v > u64::MAX),
            }
        }),
    decreases budget,
{
    if budget == 0 {
        return Err(DecodeError::BadVarint);
    }
    if i >= s.len() {
        return Err(DecodeError::UnexpectedEnd);
    }
    let b = s[i];
    if b < 128 {
        Ok((b as u64, i + 1))
    } else {
        match decode_varint(s, i + 1, budget - 1) {
            Ok((v, j)) => {
                if v >= 0x0200_0000_0000_0000 {
                    // the value would not fit 64 bits
                    Err(DecodeError::BadVarint)
                } else {
                    Ok((v * 128 + (b - 128) as u64, j))
                }
            },
            Err(e) => Err(e),
        }
    }
}

// ---------------------------------------------------------------------------
// Field decoding
// ---------------------------------------------------------------------------

/// A varint field: absent (no advance, value zero), present, or malformed.
pub open spec fn dec_u64_field(s: Seq<u8>, i: int, tag: u8) -> Option<(u64, int)> {
    if 0 <= i < s.len() && s[i] == tag {
        match dec_varint(s, i + 1, 10) {
            Some((v, j)) => if v <= u64::MAX {
                Some((v as u64, j))
            } else {
                None
            },
            None => None,
        }
    } else {
        Some((0, i))
    }
}

/// The fixed64 price field.
pub open spec fn dec_fixed64_field(s: Seq<u8>, i: int, tag: u8) -> Option<(u64, int)> {
    if 0 <= i < s.len() && s[i] == tag {
        if i + 9 <= s.len() {
            Some((spec_u64_from_le_bytes(s.subrange(i + 1, i + 9)), i + 9))
        } else {
            None
        }
    } else {
        Some((0, i))
    }
}

/// The length-delimited instrument field.
pub open spec fn dec_bytes_field(s: Seq<u8>, i: int, tag: u8) -> Option<(Seq<u8>, int)> {
    if 0 <= i < s.len() && s[i] == tag {
        match dec_varint(s, i + 1, 10) {
            Some((n, j)) => if j + n <= s.len() {
                Some((s.subrange(j, j + n), j + n))
            } else {
                None
            },
            None => None,
        }
    } else {
        Some((Seq::empty(), i))
    }
}

/// Decode a whole order record: the seven fields in ascending order, each
/// optional, with nothing after the last.
pub open spec fn dec_order(s: Seq<u8>) -> Option<WireOrderV> {
    match dec_u64_field(s, 0, TAG_ID) {
        None => None,
        Some((id, i1)) => match dec_fixed64_field(s, i1, TAG_PRICE) {
            None => None,
            Some((pb, i2)) => match dec_u64_field(s, i2, TAG_AMOUNT) {
                None => None,
                Some((am, i3)) => match dec_u64_field(s, i3, TAG_ACTION) {
                    None => None,
                    Some((ac, i4)) => match dec_u64_field(s, i4, TAG_KIND) {
                        None => None,
                        Some((kc, i5)) => match dec_u64_field(s, i5, TAG_TIMESTAMP) {
                            None => None,
                            Some((ts, i6)) => match dec_bytes_field(s, i6, TAG_INSTRUMENT) {
                                None => None,
                                Some((sym, i7)) => {
                                    if i7 == s.len() && am <= i32::MAX as u64 && ac <= 1 && kc
                                        <= 2 {
                                        Some(
                                            WireOrderV {
                                                id,
                                                price_bits: pb,
                                                amount: am as i32,
                                                action: if ac == 0 {
                                                    Action::Buy
                                                } else {
                                                    Action::Sell
                                                },
                                                order_type: if kc == 0 {
                                                    OrderType::Market
                                                } else if kc == 1 {
                                                    OrderType::Limit
                                                } else {
                                                    OrderType::Cancel
                                                },
                                                timestamp: ts,
                                                symbol: sym,
                                            },
                                        )
                                    } else {
                                        None
                                    }
                                },
                            },
                        },
                    },
                },
            },
        },
    }
}

/// The canonical encoding of an order record: every field spelled out, in
/// ascending field order.
pub open spec fn enc_order(w: WireOrderV) -> Seq<u8> {
    seq![TAG_ID] + varint_enc(w.id as nat) + seq![TAG_PRICE] + spec_u64_to_le_bytes(w.price_bits)
        + seq![TAG_AMOUNT] + varint_enc(w.amount as nat) + seq![TAG_ACTION] + varint_enc(
        action_code(w.action),
    ) + seq![TAG_KIND] + varint_enc(kind_code(w.order_type)) + seq![TAG_TIMESTAMP] + varint_enc(
        w.timestamp as nat,
    ) + seq![TAG_INSTRUMENT] + varint_enc(w.symbol.len()) + w.symbol
}

// ---------------------------------------------------------------------------
// Executable codec
// ---------------------------------------------------------------------------

/// Encode an order record canonically.
pub fn encode_order(w: &WireOrder) -> (out: Vec<u8>)
    requires
        wire_valid(w@),
    ensures
        out@ == enc_order(w@),
{
    let mut out: Vec<u8> = Vec::new();
    out.push(TAG_ID);
    encode_varint(&mut out, w.id);
    out.push(TAG_PRICE);
    let mut pb = u64_to_le_bytes(w.price_bits);
    out.append(&mut pb);
    out.push(TAG_AMOUNT);
    encode_varint(&mut out, w.amount as u64);
    out.push(TAG_ACTION);
    let ac: u64 = match w.action {
        Action::Buy => 0,
        Action::Sell => 1,
    };
    encode_varint(&mut out, ac);
    out.push(TAG_KIND);
    let kc: u64 = match w.order_type {
        OrderType::Market => 0,
        OrderType::Limit => 1,
        OrderType::Cancel => 2,
    };
    encode_varint(&mut out, kc);
    out.push(TAG_TIMESTAMP);
    encode_varint(&mut out, w.timestamp);
    out.push(TAG_INSTRUMENT);
    encode_varint(&mut out, w.symbol.len() as u64);
    let mut j: usize = 0;
    let ghost before_sym = out@;
    while j < w.symbol.len()
        invariant
            j <= w.symbol@.len(),
            out@ == before_sym + w.symbol@.take(j as int),
        decreases w.symbol@.len() - j,
    {
        out.push(w.symbol[j]);
        proof {
            assert(out@ =~= before_sym + w.symbol@.take(j as int + 1));
        }
        j = j + 1;
    }
    proof {
        assert((w.amount as u64) as nat == w.amount as nat);
        assert(w.symbol@.take(w.symbol@.len() as int) =~= w.symbol@);
        assert(out@ =~= enc_order(w@));
    }
    out
}

/// Positions only move forward, within the record.
proof fn lemma_dec_varint_range(s: Seq<u8>, i: int, budget: nat)
    ensures
        dec_varint(s, i, budget) matches Some((v, j)) ==> i < j <= s.len(),
    decreases budget,
{
    if budget > 0 && 0 <= i < s.len() && s[i] >= 128 {
        lemma_dec_varint_range(s, i + 1, (budget - 1) as nat);
    }
}

/// Decode one optional varint field.
fn decode_u64_field(s: &[u8], i: usize, tag: u8) -> (r: Result<(u64, usize), DecodeError>)
    requires
        i <= s@.len(),
    ensures
        match r {
            Ok((v, j)) => dec_u64_field(s@, i as int, tag) == Some((v, j as int)) && i <= j
                <= s@.len(),
            Err(_) => dec_u64_field(s@, i as int, tag) is None,
        },
{
    if i < s.len() && s[i] == tag {
        match decode_varint(s, i + 1, 10) {
            Ok((v, j)) => Ok((v, j)),
            Err(e) => Err(e),
        }
    } else {
        Ok((0, i))
    }
}

/// Decode the optional fixed64 price field.
fn decode_fixed64_field(s: &[u8], i: usize, tag: u8) -> (r: Result<(u64, usize), DecodeError>)
    requires
        i <= s@.len(),
    ensures
        match r {
            Ok((v, j)) => dec_fixed64_field(s@, i as int, tag) == Some((v, j as int)) && i <= j
                <= s@.len(),
            Err(_) => dec_fixed64_field(s@, i as int, tag) is None,
        },
{
    if i < s.len() && s[i] == tag {
        if s.len() - i >= 9 {
            let v = u64_from_le_bytes(slice_subrange(s, i + 1, i + 9));
            Ok((v, i + 9))
        } else {
            Err(DecodeError::UnexpectedEnd)
        }
    } else {
        Ok((0, i))
    }
}

/// Decode the optional length-delimited instrument field.
fn decode_bytes_field(s: &[u8], i: usize, tag: u8) -> (r: Result<(Vec<u8>, usize), DecodeError>)
    requires
        i <= s@.len(),
    ensures
        match r {
            Ok(p) => (dec_bytes_field(s@, i as int, tag) matches Some((b, j)) && p.0@ == b && p.1
                == j && i <= p.1 <= s@.len()),
            Err(_) => dec_bytes_field(s@, i as int, tag) is None,
        },
{
    if i < s.len() && s[i] == tag {
        match decode_varint(s, i + 1, 10) {
            Ok((n, j)) => {
                if n <= (s.len() - j) as u64 {
                    let sym = slice_to_vec(slice_subrange(s, j, j + n as usize));
                    Ok((sym, j + n as usize))
                } else {
                    proof {
                        assert(dec_bytes_field(s@, i as int, tag) is None);
                    }
                    Err(DecodeError::UnexpectedEnd)
                }
            },
            Err(e) => {
                proof {
                    let d = dec_varint(s@, i as int + 1, 10);
                    if d is Some {
                        // an announced length beyond 64 bits cannot fit the
                        // record either
                        lemma_dec_varint_range(s@, i as int + 1, 10);
                        assert(d->Some_0.0 > u64::MAX);
                        assert(d->Some_0.1 + d->Some_0.0 > s@.len());
                    }
                    assert(dec_bytes_field(s@, i as int, tag) is None);
                }
                Err(e)
            },
        }
    } else {
        let sym: Vec<u8> = Vec::new();
        proof {
            assert(sym@ =~= Seq::<u8>::empty());
        }
        Ok((sym, i))
    }
}

/// Decode an order record, exactly as [`dec_order`] describes.
pub fn decode_order(s: &[u8]) -> (r: Result<WireOrder, DecodeError>)
    ensures
        ({
            match r {
                Ok(w) => dec_order(s@) == Some(w@),
                Err(_) => dec_order(s@) is None,
            }
        }),
{
    let (id, i1) = match decode_u64_field(s, 0, TAG_ID) {
        Ok(p) => p,
        Err(e) => {
            return Err(e);
        },
    };
    let (price_bits, i2) = match decode_fixed64_field(s, i1, TAG_PRICE) {
        Ok(p) => p,
        Err(e) => {
            return Err(e);
        },
    };
    let (amount_raw, i3) = match decode_u64_field(s, i2, TAG_AMOUNT) {
        Ok(p) => p,
        Err(e) => {
            return Err(e);
        },
    };
    let (action_raw, i4) = match decode_u64_field(s, i3, TAG_ACTION) {
        Ok(p) => p,
        Err(e) => {
            return Err(e);
        },
    };
    let (kind_raw, i5) = match decode_u64_field(s, i4, TAG_KIND) {
        Ok(p) => p,
        Err(e) => {
            return Err(e);
        },
    };
    let (timestamp, i6) = match decode_u64_field(s, i5, TAG_TIMESTAMP) {
        Ok(p) => p,
        Err(e) => {
            return Err(e);
        },
    };
    let (symbol, i7) = match decode_bytes_field(s, i6, TAG_INSTRUMENT) {
        Ok(p) => p,
        Err(e) => {
            return Err(e);
        },
    };
    // nothing may follow the last field
    if i7 != s.len() {
        return Err(DecodeError::TrailingBytes);
    }
    if amount_raw > i32::MAX as u64 {
        return Err(DecodeError::BadValue);
    }
    if action_raw > 1 {
        return Err(DecodeError::BadEnum);
    }
    if kind_raw > 2 {
        return Err(DecodeError::BadEnum);
    }
    let action = if action_raw == 0 {
        Action::Buy
    } else {
        Action::Sell
    };
    let order_type = if kind_raw == 0 {
        OrderType::Market
    } else if kind_raw == 1 {
        OrderType::Limit
    } else {
        OrderType::Cancel
    };
    Ok(
        WireOrder {
            id,
            price_bits,
            amount: amount_raw as i32,
            action,
            order_type,
            timestamp,
            symbol,
        },
    )
}
// ---------------------------------------------------------------------------
// The round trip
// ---------------------------------------------------------------------------

/// Decoding the canonical encoding of a record yields the record back.
#[verifier::rlimit(100)]
pub proof fn lemma_order_round_trip(w: WireOrderV)
    requires
        wire_valid(w),
    ensures
        dec_order(enc_order(w)) == Some(w),
{
    let s = enc_order(w);
    let p_id = varint_enc(w.id as nat);
    let p_pb = spec_u64_to_le_bytes(w.price_bits);
    let p_am = varint_enc(w.amount as nat);
    let p_ac = varint_enc(action_code(w.action));
    let p_kc = varint_enc(kind_code(w.order_type));
    let p_ts = varint_enc(w.timestamp as nat);
    let p_sl = varint_enc(w.symbol.len());
    lemma_auto_spec_u64_to_from_le_bytes();
    lemma_varint_len_u64(w.id as nat);
    lemma_varint_len_u64(w.amount as nat);
    lemma_varint_len_u64(action_code(w.action));
    lemma_varint_len_u64(kind_code(w.order_type));
    lemma_varint_len_u64(w.timestamp as nat);
    lemma_varint_len_u64(w.symbol.len());
    let o1: int = 1;
    let o2 = o1 + p_id.len() as int;
    let o3 = o2 + 1;
    let o4 = o3 + 8;
    let o5 = o4 + 1;
    let o6 = o5 + p_am.len() as int;
    let o7 = o6 + 1;
    let o8 = o7 + p_ac.len() as int;
    let o9 = o8 + 1;
    let o10 = o9 + p_kc.len() as int;
    let o11 = o10 + 1;
    let o12 = o11 + p_ts.len() as int;
    let o13 = o12 + 1;
    let o14 = o13 + p_sl.len() as int;
    let end = o14 + w.symbol.len() as int;
    assert(s.len() == end);
    // field 1
    assert(s[0] == TAG_ID);
    assert forall|j: int| 0 <= j < p_id.len() implies s[o1 + j] == p_id[j] by {}
    lemma_dec_varint_at(s, o1, w.id as nat, 10);
    assert(dec_u64_field(s, 0, TAG_ID) == Some((w.id, o2)));
    // field 2
    assert(s[o2] == TAG_PRICE);
    assert(s.subrange(o3, o3 + 8) =~= p_pb);
    assert(dec_fixed64_field(s, o2, TAG_PRICE) == Some((w.price_bits, o4)));
    // field 3
    assert(s[o4] == TAG_AMOUNT);
    assert forall|j: int| 0 <= j < p_am.len() implies s[o5 + j] == p_am[j] by {}
    lemma_dec_varint_at(s, o5, w.amount as nat, 10);
    assert(dec_u64_field(s, o4, TAG_AMOUNT) == Some((w.amount as u64, o6)));
    // field 4
    assert(s[o6] == TAG_ACTION);
    assert forall|j: int| 0 <= j < p_ac.len() implies s[o7 + j] == p_ac[j] by {}
    lemma_dec_varint_at(s, o7, action_code(w.action), 10);
    assert(dec_u64_field(s, o6, TAG_ACTION) == Some((action_code(w.action) as u64, o8)));
    // field 5
    assert(s[o8] == TAG_KIND);
    assert forall|j: int| 0 <= j < p_kc.len() implies s[o9 + j] == p_kc[j] by {}
    lemma_dec_varint_at(s, o9, kind_code(w.order_type), 10);
    assert(dec_u64_field(s, o8, TAG_KIND) == Some((kind_code(w.order_type) as u64, o10)));
    // field 6
    assert(s[o10] == TAG_TIMESTAMP);
    assert forall|j: int| 0 <= j < p_ts.len() implies s[o11 + j] == p_ts[j] by {}
    lemma_dec_varint_at(s, o11, w.timestamp as nat, 10);
    assert(dec_u64_field(s, o10, TAG_TIMESTAMP) == Some((w.timestamp, o12)));
    // field 7
    assert(s[o12] == TAG_INSTRUMENT);
    assert forall|j: int| 0 <= j < p_sl.len() implies s[o13 + j] == p_sl[j] by {}
    lemma_dec_varint_at(s, o13, w.symbol.len(), 10);
    assert(s.subrange(o14, o14 + w.symbol.len() as int) =~= w.symbol);
    assert(dec_bytes_field(s, o12, TAG_INSTRUMENT) == Some((w.symbol, end)));
    // reassembly
    assert((w.amount as u64) as i32 == w.amount);
    match w.action {
        Action::Buy => {
            assert(action_code(w.action) == 0);
        },
        Action::Sell => {
            assert(action_code(w.action) == 1);
        },
    }
    match w.order_type {
        OrderType::Market => {},
        OrderType::Limit => {},
        OrderType::Cancel => {},
    }
    assert(dec_order(s) == Some(w));
}

} // verus!
