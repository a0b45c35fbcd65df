use matching_engine::order::{Order, OrderSide, OrderStatus, OrderType, Outcome};
use matching_engine::registry::BookRegistry;

fn order(id: u128, user: &str, market: &str, side: OrderSide, price: u64, quantity: u64) -> Order {
    Order {
        order_id: id,
        user_id: user.to_string(),
        market_id: market.to_string(),
        side,
        outcome: Outcome::YES,
        order_type: OrderType::LIMIT,
        price,
        quantity,
        filled: 0,
        order_status: OrderStatus::PENDING,
        reservation_id: None,
        created_at: 0,
    }
}

#[test]
fn registry_creates_each_market_once() {
    let mut registry = BookRegistry::new();
    let a = registry.get_or_create(&"alpha".to_string());
    let b = registry.get_or_create(&"beta".to_string());
    let a2 = registry.get_or_create(&"alpha".to_string());
    assert_eq!(a, a2);
    assert_ne!(a, b);
    assert_eq!(registry.books.len(), 2);
    assert_eq!(registry.books[a].market_id, "alpha");
    assert_eq!(registry.books[b].market_id, "beta");
}

#[test]
fn registry_keeps_markets_apart() {
    let mut registry = BookRegistry::new();
    let sell = order(1, "a", "alpha", OrderSide::SELL, 500_000, 10);
    let buy_other_market = order(2, "b", "beta", OrderSide::BUY, 600_000, 10);

    let first = registry.place_order(sell).unwrap();
    assert_eq!(first.order.order_status, OrderStatus::OPEN);

    // a crossing price in another market matches nothing
    let second = registry.place_order(buy_other_market).unwrap();
    assert_eq!(second.trades.len(), 0);
    assert_eq!(second.order.order_status, OrderStatus::OPEN);

    // the same price in the first market does match
    let buy_same_market = order(3, "b", "alpha", OrderSide::BUY, 600_000, 10);
    let third = registry.place_order(buy_same_market).unwrap();
    assert_eq!(third.trades.len(), 1);
    assert_eq!(third.trades[0].price, 500_000);
    assert_eq!(third.order.order_status, OrderStatus::FILLED);
}
