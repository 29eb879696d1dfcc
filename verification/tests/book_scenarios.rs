//! End-to-end scenarios on the order book and the change filter.

use rust_validator::filter::is_important_update;
use rust_validator::orderbook::{Action, Order, OrderBook, OrderType, Trade};

const SCALE: i64 = 1_000_000;

fn order(
    id: u128,
    sym: &str,
    price: i64,
    amount: i32,
    action: Action,
    kind: OrderType,
    ts: u128,
) -> Order {
    Order {
        id,
        symbol: sym.as_bytes().to_vec(),
        price,
        amount,
        action,
        order_type: kind,
        timestamp: ts,
    }
}

#[test]
fn s1_empty_book_buy_limit() {
    let mut book = OrderBook::new(b"TSLA".to_vec());
    let o = order(1, "TSLA", 100 * SCALE, 5, Action::Buy, OrderType::Limit, 777);
    let trades = book.add_order(&o).unwrap();
    assert!(trades.is_empty());
    let up = book.get_book_update();
    assert_eq!(up.bids.len(), 1);
    assert_eq!(up.bids[0].price, 100 * SCALE);
    assert_eq!(up.bids[0].total_amount, 5);
    assert_eq!(up.asks.len(), 0);
    assert_eq!(up.last_update, 777);
}

#[test]
fn s2_price_time_fifo() {
    let mut book = OrderBook::new(b"TSLA".to_vec());
    book.add_order(&order(1, "TSLA", 100 * SCALE, 5, Action::Buy, OrderType::Limit, 1))
        .unwrap();
    book.add_order(&order(2, "TSLA", 100 * SCALE, 5, Action::Buy, OrderType::Limit, 2))
        .unwrap();
    let trades = book
        .add_order(&order(3, "TSLA", 100 * SCALE, 5, Action::Sell, OrderType::Limit, 3))
        .unwrap();
    assert_eq!(
        trades,
        vec![Trade { price: 100 * SCALE, amount: 5, aggressor_id: 3, resting_id: 1 }]
    );
    let up = book.get_book_update();
    assert_eq!(up.asks.len(), 0);
    assert_eq!(up.bids.len(), 1);
    assert_eq!(up.bids[0].price, 100 * SCALE);
    assert_eq!(up.bids[0].total_amount, 5);
    assert_eq!(up.bids[0].orders.len(), 1);
    assert_eq!(up.bids[0].orders[0].id, 2);
}

#[test]
fn s3_multi_level_sweep() {
    let mut book = OrderBook::new(b"TSLA".to_vec());
    book.add_order(&order(1, "TSLA", 101 * SCALE, 3, Action::Sell, OrderType::Limit, 1))
        .unwrap();
    book.add_order(&order(2, "TSLA", 102 * SCALE, 4, Action::Sell, OrderType::Limit, 2))
        .unwrap();
    let trades = book
        .add_order(&order(3, "TSLA", 102 * SCALE, 5, Action::Buy, OrderType::Limit, 3))
        .unwrap();
    assert_eq!(
        trades,
        vec![
            Trade { price: 101 * SCALE, amount: 3, aggressor_id: 3, resting_id: 1 },
            Trade { price: 102 * SCALE, amount: 2, aggressor_id: 3, resting_id: 2 },
        ]
    );
    let up = book.get_book_update();
    assert_eq!(up.bids.len(), 0);
    assert_eq!(up.asks.len(), 1);
    assert_eq!(up.asks[0].price, 102 * SCALE);
    assert_eq!(up.asks[0].total_amount, 2);
}

#[test]
fn s4_cancel() {
    let price = 99 * SCALE + SCALE / 2; // 99.5
    let mut book = OrderBook::new(b"TSLA".to_vec());
    book.add_order(&order(7, "TSLA", price, 10, Action::Buy, OrderType::Limit, 1))
        .unwrap();
    assert_eq!(book.index.len(), 1);
    let trades = book
        .add_order(&order(7, "TSLA", price, 0, Action::Buy, OrderType::Cancel, 2))
        .unwrap();
    assert!(trades.is_empty());
    let up = book.get_book_update();
    assert_eq!(up.bids.len(), 0);
    assert_eq!(up.asks.len(), 0);
    assert_eq!(book.index.len(), 0);
    // the second cancel of the same id is a no-op
    let trades2 = book
        .add_order(&order(7, "TSLA", price, 0, Action::Buy, OrderType::Cancel, 3))
        .unwrap();
    assert!(trades2.is_empty());
    let up2 = book.get_book_update();
    assert_eq!(up, up2);
    assert_eq!(book.index.len(), 0);
}

#[test]
fn s5_change_filter_suppression() {
    let mut book = OrderBook::new(b"TSLA".to_vec());
    book.add_order(&order(1, "TSLA", 100 * SCALE, 10, Action::Buy, OrderType::Limit, 1))
        .unwrap();
    book.add_order(&order(2, "TSLA", 100 * SCALE + 20_000, 10, Action::Sell, OrderType::Limit, 2))
        .unwrap();
    let last = book.snapshot(1);
    // a bid below the top leaves both top prices unchanged
    book.add_order(&order(3, "TSLA", 100 * SCALE - 10_000, 1, Action::Buy, OrderType::Limit, 3))
        .unwrap();
    let new = book.snapshot(1);
    assert!(!is_important_update(&new, &last));
}

#[test]
fn s6_change_filter_trigger() {
    let mut book = OrderBook::new(b"TSLA".to_vec());
    book.add_order(&order(1, "TSLA", 100 * SCALE, 10, Action::Buy, OrderType::Limit, 1))
        .unwrap();
    book.add_order(&order(2, "TSLA", 100 * SCALE + 20_000, 10, Action::Sell, OrderType::Limit, 2))
        .unwrap();
    let last = book.snapshot(1);
    // the aggressor consumes the whole ask level, so the visible top moves
    let trades = book
        .add_order(&order(3, "TSLA", 100 * SCALE + 20_000, 10, Action::Buy, OrderType::Limit, 3))
        .unwrap();
    assert_eq!(trades.len(), 1);
    let new = book.snapshot(1);
    assert_eq!(new.asks.len(), 0);
    assert!(is_important_update(&new, &last));
}
