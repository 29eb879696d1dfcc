//! The ingress decision core: validation, polling discipline, and the
//! per-event pipeline with its publication bookkeeping.

use rust_validator::codec::WireOrder;
use rust_validator::engine::{
    busy_mode_selected, idle_action, validate_order, Engine, PollAction, ValidationError,
    BUS_IDLE_MICROS, SLOT_IDLE_MICROS,
};
use rust_validator::orderbook::{Action, InvalidOrder, Order, OrderType};
use rust_validator::utils::now_nanos;

const SCALE: i64 = 1_000_000;

fn wire(id: u64, amount: i32, action: Action, kind: OrderType, sym: &str) -> WireOrder {
    WireOrder {
        id,
        price_bits: 0,
        amount,
        action,
        order_type: kind,
        timestamp: 5,
        symbol: sym.as_bytes().to_vec(),
    }
}

fn order(
    id: u128,
    sym: &str,
    price: i64,
    amount: i32,
    action: Action,
    kind: OrderType,
    ts: u128,
) -> Order {
    Order {
        id,
        symbol: sym.as_bytes().to_vec(),
        price,
        amount,
        action,
        order_type: kind,
        timestamp: ts,
    }
}

#[test]
fn validate_builds_the_order() {
    let w = wire(9, 4, Action::Sell, OrderType::Limit, "TSLA");
    let o = validate_order(&w, 7 * SCALE).unwrap();
    assert_eq!(o.id, 9);
    assert_eq!(o.symbol, b"TSLA".to_vec());
    assert_eq!(o.price, 7 * SCALE);
    assert_eq!(o.amount, 4);
    assert_eq!(o.action, Action::Sell);
    assert_eq!(o.order_type, OrderType::Limit);
    assert_eq!(o.timestamp, 5);
}

#[test]
fn validate_rejects_empty_symbol() {
    let w = wire(1, 1, Action::Buy, OrderType::Limit, "");
    assert_eq!(validate_order(&w, SCALE), Err(ValidationError::EmptySymbol));
}

#[test]
fn validate_rejects_long_symbol() {
    let w = wire(1, 1, Action::Buy, OrderType::Limit, "ABCDEFGHIJKLMNOPQ");
    assert_eq!(validate_order(&w, SCALE), Err(ValidationError::SymbolTooLong));
}

#[test]
fn validate_rejects_limit_without_price() {
    let w = wire(1, 1, Action::Buy, OrderType::Limit, "TSLA");
    assert_eq!(validate_order(&w, 0), Err(ValidationError::BadPrice));
}

#[test]
fn validate_rejects_limit_without_quantity() {
    let w = wire(1, 0, Action::Buy, OrderType::Limit, "TSLA");
    assert_eq!(validate_order(&w, SCALE), Err(ValidationError::BadQuantity));
}

#[test]
fn validate_rejects_market_without_quantity() {
    let w = wire(1, 0, Action::Buy, OrderType::Market, "TSLA");
    assert_eq!(validate_order(&w, 0), Err(ValidationError::BadQuantity));
}

#[test]
fn validate_rejects_cancel_with_negative_price() {
    let w = wire(1, 0, Action::Buy, OrderType::Cancel, "TSLA");
    assert_eq!(validate_order(&w, -1), Err(ValidationError::BadPrice));
}

#[test]
fn validate_rejects_cancel_with_negative_quantity() {
    let w = wire(1, -1, Action::Buy, OrderType::Cancel, "TSLA");
    assert_eq!(validate_order(&w, 0), Err(ValidationError::BadQuantity));
}

#[test]
fn validate_accepts_cancel_at_zero() {
    let w = wire(1, 0, Action::Buy, OrderType::Cancel, "TSLA");
    let o = validate_order(&w, 0).unwrap();
    assert_eq!(o.order_type, OrderType::Cancel);
    assert_eq!(o.amount, 0);
}

#[test]
fn busy_mode_needs_exactly_one() {
    assert!(busy_mode_selected(b"1"));
    assert!(!busy_mode_selected(b"0"));
    assert!(!busy_mode_selected(b"11"));
    assert!(!busy_mode_selected(b""));
}

#[test]
fn idle_actions_by_mode_and_transport() {
    assert_eq!(idle_action(true, false), PollAction::PauseHint);
    assert_eq!(idle_action(true, true), PollAction::PauseHint);
    assert_eq!(idle_action(false, false), PollAction::SleepMicros(BUS_IDLE_MICROS));
    assert_eq!(idle_action(false, true), PollAction::SleepMicros(SLOT_IDLE_MICROS));
    assert_eq!(BUS_IDLE_MICROS, 1000);
    assert_eq!(SLOT_IDLE_MICROS, 50);
}

#[test]
fn first_snapshot_is_always_published() {
    let mut eng = Engine::new();
    let out = eng
        .process_order(&order(1, "TSLA", 100 * SCALE, 5, Action::Buy, OrderType::Limit, 1))
        .unwrap();
    assert!(out.trades.is_empty());
    let up = out.publish.expect("the first snapshot must be published");
    assert_eq!(up.symbol, b"TSLA".to_vec());
    assert_eq!(up.bids.len(), 1);
    assert_eq!(up.bids[0].price, 100 * SCALE);
    assert_eq!(up.bids[0].total_amount, 5);
    assert_eq!(up.asks.len(), 0);
}

#[test]
fn pipeline_suppresses_and_triggers_publications() {
    let mut eng = Engine::new();
    let out1 = eng
        .process_order(&order(1, "TSLA", 100 * SCALE, 10, Action::Buy, OrderType::Limit, 1))
        .unwrap();
    eng.record_published(&out1.publish.unwrap());
    let out2 = eng
        .process_order(
            &order(2, "TSLA", 100 * SCALE + 20_000, 10, Action::Sell, OrderType::Limit, 2),
        )
        .unwrap();
    // an empty ask side became non-empty: material
    let up2 = out2.publish.expect("a side transition must be published");
    eng.record_published(&up2);
    // a bid below the top changes neither top price: suppressed
    let out3 = eng
        .process_order(
            &order(3, "TSLA", 100 * SCALE - 10_000, 1, Action::Buy, OrderType::Limit, 3),
        )
        .unwrap();
    assert!(out3.publish.is_none());
    // consuming the whole ask level moves the visible top: published
    let out4 = eng
        .process_order(
            &order(4, "TSLA", 100 * SCALE + 20_000, 10, Action::Buy, OrderType::Limit, 4),
        )
        .unwrap();
    assert_eq!(out4.trades.len(), 1);
    assert_eq!(out4.trades[0].amount, 10);
    let up = out4.publish.expect("a top change must be published");
    assert_eq!(up.asks.len(), 0);
}

#[test]
fn books_are_routed_by_instrument() {
    let mut eng = Engine::new();
    eng.process_order(&order(1, "TSLA", 100 * SCALE, 5, Action::Buy, OrderType::Limit, 1))
        .unwrap();
    eng.process_order(&order(2, "AAPL", 50 * SCALE, 3, Action::Buy, OrderType::Limit, 2))
        .unwrap();
    // a sell on one instrument does not touch the other
    let out = eng
        .process_order(&order(3, "AAPL", 50 * SCALE, 3, Action::Sell, OrderType::Limit, 3))
        .unwrap();
    assert_eq!(out.trades.len(), 1);
    assert_eq!(out.trades[0].resting_id, 2);
    assert_eq!(eng.books.len(), 2);
    let tsla = eng.books.iter().find(|b| b.symbol == b"TSLA".to_vec()).unwrap();
    assert_eq!(tsla.get_book_update().bids[0].total_amount, 5);
}

#[test]
fn rejected_events_change_nothing() {
    let mut eng = Engine::new();
    let out = eng
        .process_order(&order(1, "TSLA", 100 * SCALE, 5, Action::Buy, OrderType::Limit, 1))
        .unwrap();
    eng.record_published(&out.publish.unwrap());
    let before = eng.books[0].get_book_update();
    let r = eng.process_order(&order(1, "TSLA", 99 * SCALE, 5, Action::Buy, OrderType::Limit, 2));
    assert_eq!(r.err(), Some(InvalidOrder::DuplicateId));
    assert_eq!(before, eng.books[0].get_book_update());
    assert_eq!(eng.last_published.len(), 1);
}

#[test]
fn unrecorded_publication_is_offered_again() {
    // a failed write leaves the last-published record alone, so the same
    // material change is offered on the next event
    let mut eng = Engine::new();
    let out1 = eng
        .process_order(&order(1, "TSLA", 100 * SCALE, 5, Action::Buy, OrderType::Limit, 1))
        .unwrap();
    assert!(out1.publish.is_some());
    // the write failed: nothing recorded
    let out2 = eng
        .process_order(&order(2, "TSLA", 100 * SCALE, 5, Action::Buy, OrderType::Limit, 2))
        .unwrap();
    // still no publication on record, so this snapshot must be offered too
    assert!(out2.publish.is_some());
}

#[test]
fn clock_runs_after_the_epoch() {
    let t = now_nanos();
    assert!(t > 0);
    assert!(now_nanos() >= t);
}
