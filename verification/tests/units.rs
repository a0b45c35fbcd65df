use matching_engine::config::Config;
use matching_engine::order::{Order, OrderSide, OrderStatus, OrderType, Outcome};
use matching_engine::orderbook::OrderBook;
use matching_engine::trade::{ComplementaryMatch, TradeType};
use matching_engine::wire::{format_units, parse_decimal, parse_order_type, parse_outcome, parse_side};

fn sample_order(id: u128, user: &str, side: OrderSide, price: u64, quantity: u64) -> Order {
    Order {
        order_id: id,
        user_id: user.to_string(),
        market_id: "m".to_string(),
        side,
        outcome: Outcome::YES,
        order_type: OrderType::LIMIT,
        price,
        quantity,
        filled: 0,
        order_status: OrderStatus::PENDING,
        reservation_id: None,
        created_at: 0,
    }
}

#[test]
fn trade_type_determine_cases() {
    assert!(matches!(
        TradeType::determine(OrderSide::BUY, Outcome::YES, OrderSide::BUY, Outcome::NO),
        TradeType::COMPLEMENTARY
    ));
    assert!(matches!(
        TradeType::determine(OrderSide::BUY, Outcome::NO, OrderSide::SELL, Outcome::YES),
        TradeType::COMPLEMENTARY
    ));
    assert!(matches!(
        TradeType::determine(OrderSide::BUY, Outcome::YES, OrderSide::SELL, Outcome::YES),
        TradeType::SECONDARY
    ));
    assert!(matches!(
        TradeType::determine(OrderSide::SELL, Outcome::NO, OrderSide::BUY, Outcome::NO),
        TradeType::SECONDARY
    ));
    // any pairing across opposite outcomes is complementary
    assert!(matches!(
        TradeType::determine(OrderSide::BUY, Outcome::YES, OrderSide::SELL, Outcome::NO),
        TradeType::COMPLEMENTARY
    ));
    assert!(matches!(
        TradeType::determine(OrderSide::SELL, Outcome::NO, OrderSide::SELL, Outcome::YES),
        TradeType::COMPLEMENTARY
    ));
}

#[test]
fn order_remaining_and_is_filled() {
    let mut o = sample_order(1, "u", OrderSide::BUY, 500_000, 10);
    assert_eq!(o.remaining(), 10);
    assert!(!o.is_filled());
    o.filled = 10;
    assert_eq!(o.remaining(), 0);
    assert!(o.is_filled());
}

#[test]
fn collateral_required_equals_quantity() {
    let m = ComplementaryMatch {
        trade_id: 7,
        market_id: "m".to_string(),
        yes_buyer_id: "a".to_string(),
        no_buyer_id: "b".to_string(),
        quantity: 42,
        yes_price: 600_000,
        no_price: 400_000,
        yes_order_id: 1,
        no_order_id: 2,
        yes_reservation_id: None,
        no_reservation_id: None,
        timestamp: 0,
    };
    assert_eq!(m.collateral_required(), 42);
}

#[test]
fn add_then_remove_restores_depth() {
    let mut book = OrderBook::new("m".to_string());
    book.add_order(sample_order(1, "a", OrderSide::SELL, 500_000, 10));

    let before = book.get_depth(Outcome::YES, 10);
    book.add_order(sample_order(2, "b", OrderSide::SELL, 400_000, 5));
    let removed = book.remove_order(2).unwrap();
    assert_eq!(removed.user_id, "b");
    let after = book.get_depth(Outcome::YES, 10);

    assert_eq!(before.asks, after.asks);
    assert_eq!(before.bids, after.bids);
    assert!(book.remove_order(2).is_none());
}

#[test]
fn depth_aggregates_levels() {
    let mut book = OrderBook::new("m".to_string());
    book.add_order(sample_order(1, "a", OrderSide::SELL, 500_000, 10));
    book.add_order(sample_order(2, "b", OrderSide::SELL, 500_000, 7));
    book.add_order(sample_order(3, "c", OrderSide::SELL, 600_000, 3));
    book.add_order(sample_order(4, "d", OrderSide::BUY, 400_000, 9));

    let depth = book.get_depth(Outcome::YES, 10);
    assert_eq!(depth.asks.len(), 2);
    assert_eq!(depth.asks[0].price, 500_000);
    assert_eq!(depth.asks[0].quantity, 17);
    assert_eq!(depth.asks[0].order_count, 2);
    assert_eq!(depth.asks[1].price, 600_000);
    assert_eq!(depth.bids.len(), 1);
    assert_eq!(depth.bids[0].price, 400_000);
    assert_eq!(depth.bids[0].quantity, 9);

    let top = book.get_depth(Outcome::YES, 1);
    assert_eq!(top.asks.len(), 1);
    assert_eq!(top.asks[0].price, 500_000);
}

#[test]
fn pop_and_peek_follow_price_and_time() {
    let mut book = OrderBook::new("m".to_string());
    book.add_order(sample_order(1, "a", OrderSide::BUY, 400_000, 1));
    book.add_order(sample_order(2, "b", OrderSide::BUY, 500_000, 1));
    book.add_order(sample_order(3, "c", OrderSide::BUY, 500_000, 1));

    assert_eq!(book.peek_best_bid(Outcome::YES).unwrap().user_id, "b");
    assert_eq!(book.pop_best_bid(Outcome::YES).unwrap().user_id, "b");
    assert_eq!(book.pop_best_bid(Outcome::YES).unwrap().user_id, "c");
    assert_eq!(book.pop_best_bid(Outcome::YES).unwrap().user_id, "a");
    assert!(book.pop_best_bid(Outcome::YES).is_none());
}

#[test]
fn push_front_keeps_time_priority() {
    let mut book = OrderBook::new("m".to_string());
    book.add_order(sample_order(1, "a", OrderSide::SELL, 500_000, 10));
    book.add_order(sample_order(2, "b", OrderSide::SELL, 500_000, 10));

    let mut front = book.pop_best_ask(Outcome::YES).unwrap();
    assert_eq!(front.user_id, "a");
    front.filled = 4;
    book.push_front(front);

    let again = book.peek_best_ask(Outcome::YES).unwrap();
    assert_eq!(again.user_id, "a");
    assert_eq!(again.filled, 4);
}

#[test]
fn would_self_trade_scans_crossing_prices_only() {
    let mut book = OrderBook::new("m".to_string());
    book.add_order(sample_order(1, "x", OrderSide::SELL, 500_000, 10));

    let user = "x".to_string();
    assert!(book.would_self_trade(&user, OrderSide::BUY, Outcome::YES, 500_000));
    assert!(book.would_self_trade(&user, OrderSide::BUY, Outcome::YES, 600_000));
    assert!(!book.would_self_trade(&user, OrderSide::BUY, Outcome::YES, 400_000));
    let other = "y".to_string();
    assert!(!book.would_self_trade(&other, OrderSide::BUY, Outcome::YES, 600_000));
    assert!(!book.would_self_trade(&user, OrderSide::SELL, Outcome::YES, 400_000));
}

#[test]
fn parse_enum_strings() {
    assert_eq!(parse_side(&"BUY".to_string()), Some(OrderSide::BUY));
    assert_eq!(parse_side(&"SELL".to_string()), Some(OrderSide::SELL));
    assert_eq!(parse_side(&"buy".to_string()), None);
    assert_eq!(parse_outcome(&"YES".to_string()), Some(Outcome::YES));
    assert_eq!(parse_outcome(&"NO".to_string()), Some(Outcome::NO));
    assert_eq!(parse_outcome(&"MAYBE".to_string()), None);
    assert_eq!(parse_order_type(&"LIMIT".to_string()), Some(OrderType::LIMIT));
    assert_eq!(parse_order_type(&"MARKET".to_string()), Some(OrderType::MARKET));
    assert_eq!(parse_order_type(&"POSTONLY".to_string()), Some(OrderType::POSTONLY));
    assert_eq!(parse_order_type(&"".to_string()), None);
}

#[test]
fn parse_decimal_exact_values() {
    assert_eq!(parse_decimal(&"0.60".to_string()), Some(600_000));
    assert_eq!(parse_decimal(&"0.6".to_string()), Some(600_000));
    assert_eq!(parse_decimal(&"1".to_string()), Some(1_000_000));
    assert_eq!(parse_decimal(&"100".to_string()), Some(100_000_000));
    assert_eq!(parse_decimal(&".5".to_string()), Some(500_000));
    assert_eq!(parse_decimal(&"0.000001".to_string()), Some(1));
    assert_eq!(parse_decimal(&"0.123456".to_string()), Some(123_456));
    // the largest representable value, in millionths
    assert_eq!(parse_decimal(&"18446744073709.551615".to_string()), Some(u64::MAX));
}

#[test]
fn parse_decimal_rejects_inexact_or_malformed() {
    assert_eq!(parse_decimal(&"0.1234567".to_string()), None);
    assert_eq!(parse_decimal(&"".to_string()), None);
    assert_eq!(parse_decimal(&"5.".to_string()), None);
    assert_eq!(parse_decimal(&"1.2.3".to_string()), None);
    assert_eq!(parse_decimal(&"-1".to_string()), None);
    assert_eq!(parse_decimal(&"abc".to_string()), None);
    assert_eq!(parse_decimal(&"99999999999999999999999".to_string()), None);
    // one millionth above the largest representable value
    assert_eq!(parse_decimal(&"18446744073709.551616".to_string()), None);
}

#[test]
fn format_units_renders_canonical_decimals() {
    assert_eq!(format_units(600_000), "0.6");
    assert_eq!(format_units(1_000_000), "1");
    assert_eq!(format_units(100_000_000), "100");
    assert_eq!(format_units(1), "0.000001");
    assert_eq!(format_units(123_456), "0.123456");
    assert_eq!(format_units(0), "0");
    assert_eq!(format_units(2_500_000), "2.5");
}

#[test]
fn format_units_round_trips_through_parsing() {
    for v in [0u64, 1, 9, 10, 600_000, 1_000_000, 2_500_000, 123_456_789, u64::MAX] {
        assert_eq!(parse_decimal(&format_units(v)), Some(v));
    }
}

#[test]
fn config_carries_plain_settings() {
    let c = Config { redis_url: "redis://localhost:6379".to_string(), grpc_port: 50052 };
    assert_eq!(c.grpc_port, 50052);
    assert!(c.redis_url.starts_with("redis://"));
}
