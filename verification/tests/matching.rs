use matching_engine::matcher::{MatchError, Matcher};
use matching_engine::order::{Order, OrderSide, OrderStatus, OrderType, Outcome};
use matching_engine::orderbook::OrderBook;
use matching_engine::trade::TradeType;
use matching_engine::PRICE_ONE;

fn order(
    id: u128,
    user: &str,
    side: OrderSide,
    outcome: Outcome,
    order_type: OrderType,
    price: u64,
    quantity: u64,
    reservation: Option<&str>,
) -> Order {
    Order {
        order_id: id,
        user_id: user.to_string(),
        market_id: "market_test".to_string(),
        side,
        outcome,
        order_type,
        price,
        quantity,
        filled: 0,
        order_status: OrderStatus::PENDING,
        reservation_id: reservation.map(|s| s.to_string()),
        created_at: 0,
    }
}

fn new_matcher() -> Matcher {
    Matcher::new(OrderBook::new("market_test".to_string()))
}

#[test]
fn test_complementary_match_btreemap() {
    let mut matcher = new_matcher();

    let alice = order(
        1,
        "alice",
        OrderSide::BUY,
        Outcome::YES,
        OrderType::LIMIT,
        600_000,
        100,
        Some("alice_res"),
    );
    let bob = order(
        2,
        "bob",
        OrderSide::BUY,
        Outcome::NO,
        OrderType::LIMIT,
        400_000,
        100,
        Some("bob_res"),
    );

    let _ = matcher.place_order(alice).unwrap();
    let result = matcher.place_order(bob).unwrap();

    assert!(!result.complementary_matches.is_empty());
    let cmatch = &result.complementary_matches[0];
    assert_eq!(cmatch.quantity, 100);
    assert_eq!(cmatch.yes_price + cmatch.no_price, PRICE_ONE);
}

#[test]
fn empty_book_limit_rest() {
    let mut matcher = new_matcher();
    let o = order(1, "alice", OrderSide::BUY, Outcome::YES, OrderType::LIMIT, 600_000, 100, None);
    let result = matcher.place_order(o).unwrap();
    assert_eq!(result.trades.len(), 0);
    assert_eq!(result.complementary_matches.len(), 0);
    assert_eq!(result.order.order_status, OrderStatus::OPEN);
    assert_eq!(matcher.orderbook.best_bid(Outcome::YES), Some(600_000));
}

#[test]
fn complementary_match_full_fill() {
    let mut matcher = new_matcher();
    let alice = order(1, "alice", OrderSide::BUY, Outcome::YES, OrderType::LIMIT, 600_000, 100, None);
    let bob = order(2, "bob", OrderSide::BUY, Outcome::NO, OrderType::LIMIT, 400_000, 100, None);

    let first = matcher.place_order(alice).unwrap();
    assert_eq!(first.order.order_status, OrderStatus::OPEN);

    let result = matcher.place_order(bob).unwrap();
    assert_eq!(result.complementary_matches.len(), 1);
    let cmatch = &result.complementary_matches[0];
    assert_eq!(cmatch.quantity, 100);
    assert_eq!(cmatch.yes_price, 600_000);
    assert_eq!(cmatch.no_price, 400_000);
    assert_eq!(cmatch.yes_buyer_id, "alice");
    assert_eq!(cmatch.no_buyer_id, "bob");
    assert_eq!(result.order.order_status, OrderStatus::FILLED);
    assert_eq!(matcher.orderbook.best_bid(Outcome::YES), None);
    assert_eq!(matcher.orderbook.best_bid(Outcome::NO), None);
}

#[test]
fn secondary_cross_with_partial_maker() {
    let mut matcher = new_matcher();
    let a = order(1, "a", OrderSide::SELL, Outcome::YES, OrderType::LIMIT, 500_000, 100, None);
    let b = order(2, "b", OrderSide::BUY, Outcome::YES, OrderType::LIMIT, 500_000, 30, None);

    let _ = matcher.place_order(a).unwrap();
    let result = matcher.place_order(b).unwrap();

    assert_eq!(result.trades.len(), 1);
    let t = &result.trades[0];
    assert_eq!(t.price, 500_000);
    assert_eq!(t.quantity, 30);
    assert!(matches!(t.trade_type, TradeType::SECONDARY));
    assert_eq!(result.order.order_status, OrderStatus::FILLED);

    let maker = matcher.orderbook.peek_best_ask(Outcome::YES).unwrap();
    assert_eq!(maker.user_id, "a");
    assert_eq!(maker.quantity - maker.filled, 70);
    assert_eq!(matcher.orderbook.best_ask(Outcome::YES), Some(500_000));
}

#[test]
fn price_time_priority_across_levels() {
    let mut matcher = new_matcher();
    let a = order(1, "a", OrderSide::SELL, Outcome::YES, OrderType::LIMIT, 500_000, 40, None);
    let b = order(2, "b", OrderSide::SELL, Outcome::YES, OrderType::LIMIT, 550_000, 50, None);
    let c = order(3, "c", OrderSide::SELL, Outcome::YES, OrderType::LIMIT, 500_000, 30, None);
    let taker = order(4, "t", OrderSide::BUY, Outcome::YES, OrderType::LIMIT, 550_000, 100, None);

    let _ = matcher.place_order(a).unwrap();
    let _ = matcher.place_order(b).unwrap();
    let _ = matcher.place_order(c).unwrap();
    let result = matcher.place_order(taker).unwrap();

    assert_eq!(result.trades.len(), 3);
    assert_eq!(result.trades[0].seller_id, "a");
    assert_eq!(result.trades[0].quantity, 40);
    assert_eq!(result.trades[0].price, 500_000);
    assert_eq!(result.trades[1].seller_id, "c");
    assert_eq!(result.trades[1].quantity, 30);
    assert_eq!(result.trades[1].price, 500_000);
    assert_eq!(result.trades[2].seller_id, "b");
    assert_eq!(result.trades[2].quantity, 30);
    assert_eq!(result.trades[2].price, 550_000);
    assert_eq!(result.order.order_status, OrderStatus::FILLED);

    assert_eq!(matcher.orderbook.best_ask(Outcome::YES), Some(550_000));
    let rest = matcher.orderbook.peek_best_ask(Outcome::YES).unwrap();
    assert_eq!(rest.user_id, "b");
    assert_eq!(rest.quantity - rest.filled, 20);
}

#[test]
fn self_trade_rejection() {
    let mut matcher = new_matcher();
    let resting = order(1, "x", OrderSide::SELL, Outcome::YES, OrderType::LIMIT, 500_000, 10, None);
    let taker = order(2, "x", OrderSide::BUY, Outcome::YES, OrderType::LIMIT, 600_000, 5, None);

    let _ = matcher.place_order(resting).unwrap();
    let result = matcher.place_order(taker);
    assert_eq!(result.unwrap_err(), MatchError::SelfTrade);

    assert_eq!(matcher.orderbook.best_ask(Outcome::YES), Some(500_000));
    let depth = matcher.orderbook.get_depth(Outcome::YES, 10);
    assert_eq!(depth.asks.len(), 1);
    assert_eq!(depth.asks[0].quantity, 10);
    assert_eq!(depth.bids.len(), 0);
}

#[test]
fn market_no_liquidity() {
    let mut matcher = new_matcher();
    let taker = order(1, "t", OrderSide::BUY, Outcome::YES, OrderType::MARKET, 0, 10, None);
    let result = matcher.place_order(taker).unwrap();
    assert_eq!(result.trades.len(), 0);
    assert_eq!(result.order.filled, 0);
    assert_eq!(result.order.order_status, OrderStatus::PENDING);
    assert_eq!(matcher.orderbook.best_bid(Outcome::YES), None);
    let depth = matcher.orderbook.get_depth(Outcome::YES, 10);
    assert_eq!(depth.bids.len(), 0);
    assert_eq!(depth.asks.len(), 0);
}

#[test]
fn market_partial_fill_discards_residual() {
    let mut matcher = new_matcher();
    let maker = order(1, "m", OrderSide::SELL, Outcome::YES, OrderType::LIMIT, 500_000, 10, None);
    let taker = order(2, "t", OrderSide::BUY, Outcome::YES, OrderType::MARKET, 0, 30, None);

    let _ = matcher.place_order(maker).unwrap();
    let result = matcher.place_order(taker).unwrap();

    assert_eq!(result.trades.len(), 1);
    assert_eq!(result.trades[0].quantity, 10);
    assert_eq!(result.trades[0].price, 500_000);
    assert_eq!(result.order.filled, 10);
    assert_eq!(result.order.order_status, OrderStatus::PARTIAL);
    // the residual never rests
    assert_eq!(matcher.orderbook.best_bid(Outcome::YES), None);
    assert_eq!(matcher.orderbook.best_ask(Outcome::YES), None);
}

#[test]
fn market_self_trade_rejected_at_any_price() {
    let mut matcher = new_matcher();
    let resting = order(1, "x", OrderSide::SELL, Outcome::YES, OrderType::LIMIT, 900_000, 10, None);
    let taker = order(2, "x", OrderSide::BUY, Outcome::YES, OrderType::MARKET, 0, 5, None);

    let _ = matcher.place_order(resting).unwrap();
    let result = matcher.place_order(taker);
    assert_eq!(result.unwrap_err(), MatchError::SelfTrade);
    assert_eq!(matcher.orderbook.best_ask(Outcome::YES), Some(900_000));
}

#[test]
fn invalid_order_zero_quantity() {
    let mut matcher = new_matcher();
    let o = order(1, "a", OrderSide::BUY, Outcome::YES, OrderType::LIMIT, 500_000, 0, None);
    assert_eq!(matcher.place_order(o).unwrap_err(), MatchError::InvalidOrder);
    assert_eq!(matcher.orderbook.best_bid(Outcome::YES), None);
}

#[test]
fn invalid_order_price_above_one() {
    let mut matcher = new_matcher();
    let o = order(1, "a", OrderSide::BUY, Outcome::YES, OrderType::LIMIT, PRICE_ONE + 1, 10, None);
    assert_eq!(matcher.place_order(o).unwrap_err(), MatchError::InvalidOrder);
}

#[test]
fn postonly_rests_without_taking() {
    let mut matcher = new_matcher();
    let maker = order(1, "a", OrderSide::SELL, Outcome::YES, OrderType::LIMIT, 500_000, 10, None);
    let post = order(2, "b", OrderSide::BUY, Outcome::YES, OrderType::POSTONLY, 600_000, 5, None);

    let _ = matcher.place_order(maker).unwrap();
    let result = matcher.place_order(post).unwrap();

    assert_eq!(result.trades.len(), 0);
    assert_eq!(result.complementary_matches.len(), 0);
    assert_eq!(result.order.order_status, OrderStatus::OPEN);
    assert_eq!(matcher.orderbook.best_bid(Outcome::YES), Some(600_000));
    assert_eq!(matcher.orderbook.best_ask(Outcome::YES), Some(500_000));
}

#[test]
fn complementary_skips_own_resting_order() {
    let mut matcher = new_matcher();
    let own_no = order(1, "x", OrderSide::BUY, Outcome::NO, OrderType::LIMIT, 500_000, 100, None);
    let own_yes = order(2, "x", OrderSide::BUY, Outcome::YES, OrderType::LIMIT, 500_000, 50, None);

    let _ = matcher.place_order(own_no).unwrap();
    let result = matcher.place_order(own_yes).unwrap();

    // the only complementary candidate is the user's own order: skipped
    assert_eq!(result.complementary_matches.len(), 0);
    assert_eq!(result.order.order_status, OrderStatus::OPEN);
    assert_eq!(matcher.orderbook.best_bid(Outcome::NO), Some(500_000));
    assert_eq!(matcher.orderbook.best_bid(Outcome::YES), Some(500_000));

    // another user still matches the resting NO order
    let other = order(3, "y", OrderSide::BUY, Outcome::YES, OrderType::LIMIT, 500_000, 30, None);
    let second = matcher.place_order(other).unwrap();
    assert_eq!(second.complementary_matches.len(), 1);
    assert_eq!(second.complementary_matches[0].quantity, 30);
    assert_eq!(second.complementary_matches[0].yes_buyer_id, "y");
    assert_eq!(second.complementary_matches[0].no_buyer_id, "x");
    let rest = matcher.orderbook.peek_best_bid(Outcome::NO).unwrap();
    assert_eq!(rest.quantity - rest.filled, 70);
}

#[test]
fn conservation_over_mixed_fills() {
    let mut matcher = new_matcher();
    let no_bid = order(1, "n", OrderSide::BUY, Outcome::NO, OrderType::LIMIT, 500_000, 20, None);
    let ask = order(2, "s", OrderSide::SELL, Outcome::YES, OrderType::LIMIT, 400_000, 30, None);
    let taker = order(3, "t", OrderSide::BUY, Outcome::YES, OrderType::LIMIT, 500_000, 60, None);

    let _ = matcher.place_order(no_bid).unwrap();
    let _ = matcher.place_order(ask).unwrap();
    let result = matcher.place_order(taker).unwrap();

    let traded: u64 = result.trades.iter().map(|t| t.quantity).sum();
    let minted: u64 = result.complementary_matches.iter().map(|m| m.quantity).sum();
    assert_eq!(result.order.filled, traded + minted);
    assert_eq!(result.order.filled, 50);
    assert_eq!(result.order.order_status, OrderStatus::PARTIAL);
    // the 10 unfilled units rest at 0.50
    assert_eq!(matcher.orderbook.best_bid(Outcome::YES), Some(500_000));
    let rest = matcher.orderbook.peek_best_bid(Outcome::YES).unwrap();
    assert_eq!(rest.quantity - rest.filled, 10);
}

#[test]
fn no_emitted_execution_pairs_a_user_with_itself() {
    let mut matcher = new_matcher();
    let orders = vec![
        order(1, "a", OrderSide::SELL, Outcome::YES, OrderType::LIMIT, 400_000, 25, None),
        order(2, "b", OrderSide::BUY, Outcome::NO, OrderType::LIMIT, 700_000, 25, None),
        order(3, "c", OrderSide::BUY, Outcome::YES, OrderType::LIMIT, 450_000, 60, None),
        order(4, "a", OrderSide::SELL, Outcome::YES, OrderType::MARKET, 0, 10, None),
    ];
    for o in orders {
        if let Ok(result) = matcher.place_order(o) {
            for t in &result.trades {
                assert_ne!(t.buyer_id, t.seller_id);
            }
            for m in &result.complementary_matches {
                assert_ne!(m.yes_buyer_id, m.no_buyer_id);
            }
        }
    }
}
