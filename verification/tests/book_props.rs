//! Concrete checks of the book's laws: sum conservation, price ordering,
//! the uncrossed book, index consistency, FIFO filling, cancel idempotence,
//! and the rejection paths.

use rust_validator::orderbook::{Action, InvalidOrder, Order, OrderBook, OrderType};

const SCALE: i64 = 1_000_000;

fn order(
    id: u128,
    sym: &str,
    price: i64,
    amount: i32,
    action: Action,
    kind: OrderType,
    ts: u128,
) -> Order {
    Order {
        id,
        symbol: sym.as_bytes().to_vec(),
        price,
        amount,
        action,
        order_type: kind,
        timestamp: ts,
    }
}

#[test]
fn sum_conservation_within_levels() {
    let mut book = OrderBook::new(b"AAPL".to_vec());
    book.add_order(&order(1, "AAPL", 50 * SCALE, 3, Action::Buy, OrderType::Limit, 1))
        .unwrap();
    book.add_order(&order(2, "AAPL", 50 * SCALE, 4, Action::Buy, OrderType::Limit, 2))
        .unwrap();
    book.add_order(&order(3, "AAPL", 50 * SCALE, 5, Action::Buy, OrderType::Limit, 3))
        .unwrap();
    let up = book.get_book_update();
    assert_eq!(up.bids.len(), 1);
    let lvl = &up.bids[0];
    let sum: i32 = lvl.orders.iter().map(|o| o.amount).sum();
    assert_eq!(lvl.total_amount, sum);
    assert_eq!(lvl.total_amount, 12);
}

#[test]
fn price_ordering_on_both_sides() {
    let mut book = OrderBook::new(b"AAPL".to_vec());
    for (id, p) in [(1u128, 50i64), (2, 53), (3, 51), (4, 52)] {
        book.add_order(&order(id, "AAPL", p * SCALE, 1, Action::Buy, OrderType::Limit, id))
            .unwrap();
    }
    for (id, p) in [(5u128, 60i64), (6, 57), (7, 59), (8, 58)] {
        book.add_order(&order(id, "AAPL", p * SCALE, 1, Action::Sell, OrderType::Limit, id))
            .unwrap();
    }
    let up = book.get_book_update();
    let bid_prices: Vec<i64> = up.bids.iter().map(|l| l.price).collect();
    let ask_prices: Vec<i64> = up.asks.iter().map(|l| l.price).collect();
    assert_eq!(bid_prices, vec![53 * SCALE, 52 * SCALE, 51 * SCALE, 50 * SCALE]);
    assert_eq!(ask_prices, vec![57 * SCALE, 58 * SCALE, 59 * SCALE, 60 * SCALE]);
}

#[test]
fn no_crossed_book_after_apply() {
    let mut book = OrderBook::new(b"AAPL".to_vec());
    book.add_order(&order(1, "AAPL", 100 * SCALE, 5, Action::Sell, OrderType::Limit, 1))
        .unwrap();
    book.add_order(&order(2, "AAPL", 99 * SCALE, 5, Action::Buy, OrderType::Limit, 2))
        .unwrap();
    // an aggressive bid above the ask crosses instead of resting
    book.add_order(&order(3, "AAPL", 101 * SCALE, 2, Action::Buy, OrderType::Limit, 3))
        .unwrap();
    let up = book.get_book_update();
    if !up.bids.is_empty() && !up.asks.is_empty() {
        assert!(up.bids[0].price < up.asks[0].price);
    }
    assert_eq!(up.asks[0].total_amount, 3);
}

#[test]
fn index_consistency_after_fills_and_cancels() {
    let mut book = OrderBook::new(b"AAPL".to_vec());
    book.add_order(&order(1, "AAPL", 100 * SCALE, 5, Action::Sell, OrderType::Limit, 1))
        .unwrap();
    book.add_order(&order(2, "AAPL", 101 * SCALE, 5, Action::Sell, OrderType::Limit, 2))
        .unwrap();
    book.add_order(&order(3, "AAPL", 100 * SCALE, 5, Action::Buy, OrderType::Limit, 3))
        .unwrap();
    // id 1 fully filled; ids 2 rests
    book.add_order(&order(4, "AAPL", 99 * SCALE, 7, Action::Buy, OrderType::Limit, 4))
        .unwrap();
    book.add_order(&order(4, "AAPL", 99 * SCALE, 0, Action::Buy, OrderType::Cancel, 5))
        .unwrap();
    let up = book.get_book_update();
    let mut resting: Vec<u128> = Vec::new();
    for l in up.bids.iter().chain(up.asks.iter()) {
        for o in &l.orders {
            resting.push(o.id);
        }
    }
    let mut indexed: Vec<u128> = book.index.iter().map(|e| e.id).collect();
    resting.sort();
    indexed.sort();
    assert_eq!(resting, indexed);
    assert_eq!(indexed, vec![2]);
}

#[test]
fn fifo_partial_fill_hits_earliest() {
    let mut book = OrderBook::new(b"AAPL".to_vec());
    book.add_order(&order(1, "AAPL", 100 * SCALE, 5, Action::Buy, OrderType::Limit, 1))
        .unwrap();
    book.add_order(&order(2, "AAPL", 100 * SCALE, 5, Action::Buy, OrderType::Limit, 2))
        .unwrap();
    let trades = book
        .add_order(&order(3, "AAPL", 100 * SCALE, 3, Action::Sell, OrderType::Limit, 3))
        .unwrap();
    assert_eq!(trades.len(), 1);
    assert_eq!(trades[0].resting_id, 1);
    assert_eq!(trades[0].amount, 3);
    let up = book.get_book_update();
    assert_eq!(up.bids[0].total_amount, 7);
    assert_eq!(up.bids[0].orders[0].id, 1);
    assert_eq!(up.bids[0].orders[0].amount, 2);
    assert_eq!(up.bids[0].orders[1].id, 2);
}

#[test]
fn cancel_idempotence() {
    let mut book = OrderBook::new(b"AAPL".to_vec());
    book.add_order(&order(1, "AAPL", 100 * SCALE, 5, Action::Buy, OrderType::Limit, 1))
        .unwrap();
    book.add_order(&order(2, "AAPL", 101 * SCALE, 5, Action::Sell, OrderType::Limit, 2))
        .unwrap();
    let cancel = order(1, "AAPL", 100 * SCALE, 0, Action::Buy, OrderType::Cancel, 3);
    book.add_order(&cancel).unwrap();
    let once = book.get_book_update();
    let once_index: Vec<_> = book.index.clone();
    book.add_order(&cancel).unwrap();
    let twice = book.get_book_update();
    assert_eq!(once, twice);
    assert_eq!(once_index, book.index);
}

#[test]
fn unknown_cancel_is_silently_ignored() {
    let mut book = OrderBook::new(b"AAPL".to_vec());
    book.add_order(&order(1, "AAPL", 100 * SCALE, 5, Action::Buy, OrderType::Limit, 1))
        .unwrap();
    let before = book.get_book_update();
    let trades = book
        .add_order(&order(99, "AAPL", 100 * SCALE, 0, Action::Buy, OrderType::Cancel, 2))
        .unwrap();
    assert!(trades.is_empty());
    assert_eq!(before, book.get_book_update());
}

#[test]
fn market_on_empty_side_is_dropped() {
    let mut book = OrderBook::new(b"AAPL".to_vec());
    let trades = book
        .add_order(&order(1, "AAPL", 0, 5, Action::Sell, OrderType::Market, 1))
        .unwrap();
    assert!(trades.is_empty());
    let up = book.get_book_update();
    assert_eq!(up.bids.len(), 0);
    assert_eq!(up.asks.len(), 0);
    assert_eq!(up.last_update, 1);
}

#[test]
fn market_sweeps_and_discards_residual() {
    let mut book = OrderBook::new(b"AAPL".to_vec());
    book.add_order(&order(1, "AAPL", 100 * SCALE, 4, Action::Sell, OrderType::Limit, 1))
        .unwrap();
    let trades = book
        .add_order(&order(2, "AAPL", 0, 9, Action::Buy, OrderType::Market, 2))
        .unwrap();
    assert_eq!(trades.len(), 1);
    assert_eq!(trades[0].amount, 4);
    let up = book.get_book_update();
    // the unfilled remainder of the market order does not rest
    assert_eq!(up.bids.len(), 0);
    assert_eq!(up.asks.len(), 0);
}

#[test]
fn duplicate_limit_id_is_rejected() {
    let mut book = OrderBook::new(b"AAPL".to_vec());
    book.add_order(&order(1, "AAPL", 100 * SCALE, 5, Action::Buy, OrderType::Limit, 1))
        .unwrap();
    let before = book.get_book_update();
    let r = book.add_order(&order(1, "AAPL", 99 * SCALE, 5, Action::Buy, OrderType::Limit, 2));
    assert_eq!(r, Err(InvalidOrder::DuplicateId));
    assert_eq!(before, book.get_book_update());
}

#[test]
fn cancel_with_wrong_price_is_rejected() {
    let mut book = OrderBook::new(b"AAPL".to_vec());
    book.add_order(&order(1, "AAPL", 100 * SCALE, 5, Action::Buy, OrderType::Limit, 1))
        .unwrap();
    let before = book.get_book_update();
    let r = book.add_order(&order(1, "AAPL", 99 * SCALE, 0, Action::Buy, OrderType::Cancel, 2));
    assert_eq!(r, Err(InvalidOrder::CancelMismatch));
    assert_eq!(before, book.get_book_update());
}

#[test]
fn cancel_with_wrong_side_is_rejected() {
    let mut book = OrderBook::new(b"AAPL".to_vec());
    book.add_order(&order(1, "AAPL", 100 * SCALE, 5, Action::Buy, OrderType::Limit, 1))
        .unwrap();
    let r = book.add_order(&order(1, "AAPL", 100 * SCALE, 0, Action::Sell, OrderType::Cancel, 2));
    assert_eq!(r, Err(InvalidOrder::CancelMismatch));
}

#[test]
fn level_total_overflow_is_rejected() {
    let mut book = OrderBook::new(b"AAPL".to_vec());
    book.add_order(&order(1, "AAPL", 100 * SCALE, 2_000_000_000, Action::Buy, OrderType::Limit, 1))
        .unwrap();
    let before = book.get_book_update();
    let r = book.add_order(
        &order(2, "AAPL", 100 * SCALE, 2_000_000_000, Action::Buy, OrderType::Limit, 2),
    );
    assert_eq!(r, Err(InvalidOrder::QtyOverflow));
    assert_eq!(before, book.get_book_update());
}

#[test]
fn contains_id_tracks_resting_orders() {
    let mut book = OrderBook::new(b"AAPL".to_vec());
    assert!(!book.contains_id(1));
    book.add_order(&order(1, "AAPL", 100 * SCALE, 5, Action::Buy, OrderType::Limit, 1))
        .unwrap();
    assert!(book.contains_id(1));
    book.add_order(&order(1, "AAPL", 100 * SCALE, 0, Action::Buy, OrderType::Cancel, 2))
        .unwrap();
    assert!(!book.contains_id(1));
}
