//! The change filter's threshold, exactly at its boundary.

use rust_validator::filter::{is_important_update, EPSILON_SCALED};
use rust_validator::orderbook::{Action, Order, OrderBook, OrderType};

const SCALE: i64 = 1_000_000;

fn two_sided_book(bid: i64, ask: i64) -> OrderBook {
    let mut book = OrderBook::new(b"TSLA".to_vec());
    book.add_order(&Order {
        id: 1,
        symbol: b"TSLA".to_vec(),
        price: bid,
        amount: 10,
        action: Action::Buy,
        order_type: OrderType::Limit,
        timestamp: 1,
    })
    .unwrap();
    book.add_order(&Order {
        id: 2,
        symbol: b"TSLA".to_vec(),
        price: ask,
        amount: 10,
        action: Action::Sell,
        order_type: OrderType::Limit,
        timestamp: 2,
    })
    .unwrap();
    book
}

#[test]
fn epsilon_is_one_cent_scaled() {
    assert_eq!(EPSILON_SCALED, 10_000);
}

#[test]
fn move_at_the_threshold_is_suppressed() {
    let last = two_sided_book(100 * SCALE, 101 * SCALE).snapshot(1);
    // both tops moved by exactly the threshold: not material
    let new = two_sided_book(100 * SCALE + EPSILON_SCALED, 101 * SCALE - EPSILON_SCALED)
        .snapshot(1);
    assert!(!is_important_update(&new, &last));
}

#[test]
fn move_past_the_threshold_is_published() {
    let last = two_sided_book(100 * SCALE, 101 * SCALE).snapshot(1);
    let bid_moved = two_sided_book(100 * SCALE + EPSILON_SCALED + 1, 101 * SCALE).snapshot(1);
    assert!(is_important_update(&bid_moved, &last));
    let ask_moved = two_sided_book(100 * SCALE, 101 * SCALE - EPSILON_SCALED - 1).snapshot(1);
    assert!(is_important_update(&ask_moved, &last));
}

#[test]
fn one_sided_books_are_always_material() {
    let mut one_sided = OrderBook::new(b"TSLA".to_vec());
    one_sided
        .add_order(&Order {
            id: 1,
            symbol: b"TSLA".to_vec(),
            price: 100 * SCALE,
            amount: 10,
            action: Action::Buy,
            order_type: OrderType::Limit,
            timestamp: 1,
        })
        .unwrap();
    let lop = one_sided.snapshot(1);
    let full = two_sided_book(100 * SCALE, 101 * SCALE).snapshot(1);
    assert!(is_important_update(&lop, &full));
    assert!(is_important_update(&full, &lop));
    assert!(is_important_update(&lop, &lop));
}

#[test]
fn quantity_only_change_is_suppressed() {
    let last = two_sided_book(100 * SCALE, 101 * SCALE).snapshot(1);
    let mut book = two_sided_book(100 * SCALE, 101 * SCALE);
    book.add_order(&Order {
        id: 3,
        symbol: b"TSLA".to_vec(),
        price: 100 * SCALE,
        amount: 25,
        action: Action::Buy,
        order_type: OrderType::Limit,
        timestamp: 3,
    })
    .unwrap();
    let new = book.snapshot(1);
    assert_eq!(new.bids[0].total_amount, 35);
    assert!(!is_important_update(&new, &last));
}
