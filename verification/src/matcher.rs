//! The matching engine: validation, self-trade prevention, market, limit
//! and complementary matching against one market's order book.

use vstd::prelude::*;

verus! {

use crate::PRICE_ONE;
use crate::order::{Order, OrderSide, OrderStatus, OrderType, Outcome};
use crate::orderbook::{
    side_has_user_at_or_above, side_has_user_at_or_below, slot_wf, spec_best_ask, spec_best_bid,
    spec_would_self_trade, levels_add, levels_pop_at, BookView, LevelView, OrderBook,
};
use crate::trade::{ComplementaryMatch, Trade, TradeType};

/// Why a submitted order is refused. The book is left untouched in
/// either case.
#[derive(Debug, Clone, Copy, PartialEq, Eq, Structural)]
pub enum MatchError {
    /// Zero quantity or a price outside `[0, PRICE_ONE]`.
    InvalidOrder,
    /// The order would cross a resting order of the same user.
    SelfTrade,
}

/// What one `place_order` call produced: the order in its final state, the
/// secondary trades and the complementary matches, in execution order.
#[derive(Debug)]
pub struct MatchResult {
    pub order: Order,
    pub trades: Vec<Trade>,
    pub complementary_matches: Vec<ComplementaryMatch>,
}

/// A matcher bound to one market's order book.
pub struct Matcher {
    pub orderbook: OrderBook,
}

/// Relies on uuid::Uuid::new_v4, via Uuid::as_u128: a freshly generated
/// random id. Nothing is promised of its value.
#[verifier::external_body]
fn fresh_trade_id() -> u128 {
    uuid::Uuid::new_v4().as_u128()
}

/// Relies on chrono::Utc::now, via DateTime::timestamp_millis: the current
/// wall-clock time. Nothing is promised of its value.
#[verifier::external_body]
fn now_millis() -> i64 {
    chrono::Utc::now().timestamp_millis()
}

fn clone_opt_string(r: &Option<String>) -> (c: Option<String>)
    ensures
        c == *r,
{
    match r {
        Some(s) => Some(s.clone()),
        None => None,
    }
}

/// The order with its fill replaced and everything else kept.
pub open spec fn order_with_fill(o: Order, filled: u64) -> Order {
    Order { filled, ..o }
}

/// The order with its fill and status replaced and everything else kept.
pub open spec fn order_with_fill_status(o: Order, filled: u64, order_status: OrderStatus) -> Order {
    Order { filled, order_status, ..o }
}

/// The side an incoming order consumes liquidity from.
pub open spec fn consumed_side(side: OrderSide) -> OrderSide {
    match side {
        OrderSide::BUY => OrderSide::SELL,
        OrderSide::SELL => OrderSide::BUY,
    }
}

/// Index of the best level on the consumed side: the cheapest ask for a
/// buyer, the dearest bid for a seller.
pub open spec fn best_index(s: Seq<LevelView>, taker_side: OrderSide) -> int {
    if taker_side == OrderSide::BUY {
        0
    } else {
        s.len() - 1
    }
}

pub open spec fn spec_min(a: int, b: int) -> int {
    if a <= b {
        a
    } else {
        b
    }
}

/// Total quantity of a batch of secondary trades.
pub open spec fn trade_qty_sum(ts: Seq<Trade>) -> int
    decreases ts.len(),
{
    if ts.len() == 0 {
        0
    } else {
        trade_qty_sum(ts.drop_last()) + ts.last().quantity
    }
}

/// Total quantity of a batch of complementary matches.
pub open spec fn cmatch_qty_sum(ms: Seq<ComplementaryMatch>) -> int
    decreases ms.len(),
{
    if ms.len() == 0 {
        0
    } else {
        cmatch_qty_sum(ms.drop_last()) + ms.last().quantity
    }
}

/// An accepted order: positive quantity and a price within `[0, PRICE_ONE]`.
pub open spec fn spec_valid_order(o: Order) -> bool {
    o.quantity > 0 && o.price <= PRICE_ONE
}

/// The price bound the self-trade guard scans with: a market order crosses
/// every price, a limit or post-only order crosses up to its own limit.
pub open spec fn guard_limit(o: Order) -> u64 {
    if o.order_type == OrderType::MARKET {
        if o.side == OrderSide::BUY {
            PRICE_ONE
        } else {
            0
        }
    } else {
        o.price
    }
}

/// A secondary trade emitted for this taker: well formed, in the taker's
/// market and outcome, with the taker on its own side of the fill.
pub open spec fn trade_for_taker(t: Trade, o: Order) -> bool {
    &&& t.wf()
    &&& t.market_id@ == o.market_id@
    &&& t.outcome == o.outcome
    &&& t.trade_type == TradeType::SECONDARY
    &&& (if o.side == OrderSide::BUY {
        t.buyer_id@ == o.user_id@ && t.buyer_order_id == o.order_id && t.buyer_reservation_id
            == o.reservation_id
    } else {
        t.seller_id@ == o.user_id@ && t.seller_order_id == o.order_id && t.seller_reservation_id
            == o.reservation_id
    })
}

/// A complementary match emitted for this taker: well formed, in the
/// taker's market, with the taker on its outcome's side at its own price.
pub open spec fn cmatch_for_taker(m: ComplementaryMatch, o: Order) -> bool {
    &&& m.wf()
    &&& m.market_id@ == o.market_id@
    &&& (if o.outcome == Outcome::YES {
        m.yes_buyer_id@ == o.user_id@ && m.yes_order_id == o.order_id && m.yes_price == o.price
            && m.yes_reservation_id == o.reservation_id
    } else {
        m.no_buyer_id@ == o.user_id@ && m.no_order_id == o.order_id && m.no_price == o.price
            && m.no_reservation_id == o.reservation_id
    })
}

/// The consumed side after one fill of `qty` against the front order of
/// the best level: the maker leaves when exactly exhausted, otherwise it
/// returns to the front of its level with its fill grown by `qty`.
pub open spec fn consume_best(s: Seq<LevelView>, qty: int, low: bool) -> Seq<LevelView> {
    let li: int = if low {
        0
    } else {
        s.len() - 1
    };
    let m = s[li].queue[0];
    if qty == m.spec_remaining() {
        levels_pop_at(s, li)
    } else {
        levels_add(levels_pop_at(s, li), order_with_fill(m, (m.filled + qty) as u64), true)
    }
}

/// The consumed side after a batch of secondary trades, replayed in their
/// emission order.
pub open spec fn side_after_trades(s: Seq<LevelView>, ts: Seq<Trade>, low: bool) -> Seq<LevelView>
    decreases ts.len(),
{
    if ts.len() == 0 {
        s
    } else {
        side_after_trades(consume_best(s, ts[0].quantity as int, low), ts.skip(1), low)
    }
}

/// The maker's half of one secondary trade record: the fill happened at
/// the maker's resting level price, and the maker's own ids and
/// reservation stand on the other side of the taker.
pub open spec fn trade_ties_maker(
    t: Trade,
    m: Order,
    level_price: u64,
    taker_side: OrderSide,
) -> bool {
    &&& t.price == level_price
    &&& (if taker_side == OrderSide::BUY {
        t.seller_id@ == m.user_id@ && t.seller_order_id == m.order_id
            && t.seller_reservation_id == m.reservation_id
    } else {
        t.buyer_id@ == m.user_id@ && t.buyer_order_id == m.order_id
            && t.buyer_reservation_id == m.reservation_id
    })
}

/// The emitted trades are exactly a best-first walk of the consumed side:
/// each trade fills against the front order of the then-best level, at
/// that level's price, by the minimum of the taker's and the maker's
/// remainders, and the side evolves accordingly. Price priority across
/// levels and time priority within a level are consequences of the walk.
pub open spec fn trade_trace(
    s: Seq<LevelView>,
    ts: Seq<Trade>,
    taker_side: OrderSide,
    rem: int,
) -> bool
    decreases ts.len(),
{
    if ts.len() == 0 {
        true
    } else if s.len() == 0 || rem <= 0 {
        false
    } else {
        let li = best_index(s, taker_side);
        let m = s[li].queue[0];
        if s[li].queue.len() == 0 {
            false
        } else {
            &&& trade_ties_maker(ts[0], m, s[li].price, taker_side)
            &&& ts[0].quantity == spec_min(rem, m.spec_remaining())
            &&& trade_trace(
                consume_best(s, ts[0].quantity as int, taker_side == OrderSide::BUY),
                ts.skip(1),
                taker_side,
                rem - ts[0].quantity,
            )
        }
    }
}

/// The maker's half of one complementary match record: the resting buyer
/// of the opposite outcome, at its own limit price, with its own ids and
/// reservation on its outcome's side of the record.
pub open spec fn cmatch_ties_maker(m: ComplementaryMatch, mk: Order, taker: Order) -> bool {
    if taker.outcome == Outcome::YES {
        &&& m.no_buyer_id@ == mk.user_id@
        &&& m.no_order_id == mk.order_id
        &&& m.no_price == mk.price
        &&& m.no_reservation_id == mk.reservation_id
    } else {
        &&& m.yes_buyer_id@ == mk.user_id@
        &&& m.yes_order_id == mk.order_id
        &&& m.yes_price == mk.price
        &&& m.yes_reservation_id == mk.reservation_id
    }
}

/// The emitted complementary matches are exactly a best-first walk of the
/// opposite outcome's bids, from the highest price down, FIFO within each
/// level, stopping at the pairing band `maker price + taker price >=
/// PRICE_ONE`; the taker's own resting orders are stepped over in place.
/// Each match pairs the then-best foreign maker by the minimum of the two
/// remainders.
pub open spec fn cmatch_trace(
    s: Seq<LevelView>,
    ms: Seq<ComplementaryMatch>,
    taker: Order,
    rem: int,
) -> bool
    decreases ms.len(), s.len(), (if s.len() > 0 {
        s[s.len() - 1].queue.len()
    } else {
        0
    }),
{
    if ms.len() == 0 {
        true
    } else if s.len() == 0 || rem <= 0 {
        false
    } else if s[s.len() - 1].queue.len() == 0 {
        false
    } else {
        let li = s.len() - 1;
        let mk = s[li].queue[0];
        if mk.price + taker.price < PRICE_ONE {
            false
        } else if mk.user_id@ == taker.user_id@ {
            cmatch_trace(levels_pop_at(s, li), ms, taker, rem)
        } else {
            &&& cmatch_ties_maker(ms[0], mk, taker)
            &&& ms[0].quantity == spec_min(rem, mk.spec_remaining())
            &&& cmatch_trace(
                consume_best(s, ms[0].quantity as int, false),
                ms.skip(1),
                taker,
                rem - ms[0].quantity,
            )
        }
    }
}

/// A batch's total splits off its first trade.
proof fn lemma_trade_sum_front(ts: Seq<Trade>)
    requires
        ts.len() > 0,
    ensures
        trade_qty_sum(ts) == ts[0].quantity + trade_qty_sum(ts.skip(1)),
    decreases ts.len(),
{
    if ts.len() == 1 {
        assert(ts.skip(1) =~= Seq::<Trade>::empty());
        assert(ts.drop_last() =~= Seq::<Trade>::empty());
        assert(ts.last() == ts[0]);
    } else {
        lemma_trade_sum_front(ts.drop_last());
        assert(ts.drop_last()[0] == ts[0]);
        assert(ts.drop_last().skip(1) =~= ts.skip(1).drop_last());
        assert(ts.skip(1).last() == ts.last());
        assert(ts.skip(1).len() > 0);
    }
}

/// Replaying one more trade extends the replayed side by one consumption.
proof fn lemma_side_after_push(s: Seq<LevelView>, ts: Seq<Trade>, t: Trade, low: bool)
    ensures
        side_after_trades(s, ts.push(t), low) == consume_best(
            side_after_trades(s, ts, low),
            t.quantity as int,
            low,
        ),
    decreases ts.len(),
{
    if ts.len() == 0 {
        assert(ts.push(t).skip(1) =~= Seq::<Trade>::empty());
        assert(ts.push(t)[0] == t);
        assert(side_after_trades(s, ts, low) == s);
        assert(side_after_trades(
            consume_best(s, t.quantity as int, low),
            ts.push(t).skip(1),
            low,
        ) == consume_best(s, t.quantity as int, low));
    } else {
        assert(ts.push(t)[0] == ts[0]);
        assert(ts.push(t).skip(1) =~= ts.skip(1).push(t));
        lemma_side_after_push(consume_best(s, ts[0].quantity as int, low), ts.skip(1), t, low);
        assert(side_after_trades(s, ts.push(t), low) == side_after_trades(
            consume_best(s, ts[0].quantity as int, low),
            ts.skip(1).push(t),
            low,
        ));
        assert(side_after_trades(s, ts, low) == side_after_trades(
            consume_best(s, ts[0].quantity as int, low),
            ts.skip(1),
            low,
        ));
    }
}

/// A trace stays a trace when one more trade that matches the replayed
/// state is appended.
proof fn lemma_trade_trace_push(
    s: Seq<LevelView>,
    ts: Seq<Trade>,
    t: Trade,
    taker_side: OrderSide,
    rem: int,
)
    requires
        trade_trace(s, ts, taker_side, rem),
        ({
            let cur = side_after_trades(s, ts, taker_side == OrderSide::BUY);
            let r2 = rem - trade_qty_sum(ts);
            &&& cur.len() > 0
            &&& r2 > 0
            &&& cur[best_index(cur, taker_side)].queue.len() > 0
            &&& trade_ties_maker(
                t,
                cur[best_index(cur, taker_side)].queue[0],
                cur[best_index(cur, taker_side)].price,
                taker_side,
            )
            &&& t.quantity == spec_min(r2, cur[best_index(cur, taker_side)].queue[0].spec_remaining())
        }),
    ensures
        trade_trace(s, ts.push(t), taker_side, rem),
    decreases ts.len(),
{
    if ts.len() == 0 {
        assert(ts.push(t)[0] == t);
        assert(ts.push(t).skip(1) =~= Seq::<Trade>::empty());
        assert(side_after_trades(s, ts, taker_side == OrderSide::BUY) == s);
        assert(trade_qty_sum(ts) == 0);
        assert(trade_trace(
            consume_best(s, t.quantity as int, taker_side == OrderSide::BUY),
            ts.push(t).skip(1),
            taker_side,
            rem - t.quantity,
        ));
    } else {
        assert(ts.push(t)[0] == ts[0]);
        assert(ts.push(t).skip(1) =~= ts.skip(1).push(t));
        lemma_trade_sum_front(ts);
        let low = taker_side == OrderSide::BUY;
        assert(side_after_trades(s, ts, low) == side_after_trades(
            consume_best(s, ts[0].quantity as int, low),
            ts.skip(1),
            low,
        ));
        lemma_trade_trace_push(
            consume_best(s, ts[0].quantity as int, low),
            ts.skip(1),
            t,
            taker_side,
            rem - ts[0].quantity,
        );
        assert(trade_trace(
            consume_best(s, ts[0].quantity as int, low),
            ts.push(t).skip(1),
            taker_side,
            rem - ts[0].quantity,
        ));
    }
}

/// Every user resting on `post` already rested on `pre` at the same level
/// price: no order of a new user, and none at a new price, appeared.
pub open spec fn side_users_preserved(post: Seq<LevelView>, pre: Seq<LevelView>) -> bool {
    forall|i: int, j: int|
        0 <= i < post.len() && 0 <= j < post[i].queue.len() ==> exists|i2: int, j2: int|
            0 <= i2 < pre.len() && 0 <= j2 < pre[i2].queue.len() && (
            #[trigger] pre[i2].queue[j2]).user_id@ == (#[trigger] post[i].queue[j]).user_id@
                && pre[i2].price == post[i].price
}

/// No complementary candidate of another user remains on this side: every
/// order whose price `q` could pair with a taker limit of `limit`
/// (`q + limit >= PRICE_ONE`) belongs to `user`.
pub open spec fn no_compl_candidate(s: Seq<LevelView>, user: Seq<char>, limit: u64) -> bool {
    forall|i: int, j: int|
        0 <= i < s.len() && 0 <= j < s[i].queue.len() && s[i].price + limit >= PRICE_ONE ==> (
        #[trigger] s[i].queue[j]).user_id@ == user
}

/// No resting price on the opposite side still crosses a limit of `limit`:
/// for a BUY nothing is asked at or below it, for a SELL nothing is bid at
/// or above it.
pub open spec fn no_secondary_cross(
    bv: BookView,
    side: OrderSide,
    outcome: Outcome,
    limit: u64,
) -> bool {
    match side {
        OrderSide::BUY => bv.asks(outcome).len() == 0 || bv.asks(outcome)[0].price > limit,
        OrderSide::SELL => {
            let s = bv.bids(outcome);
            s.len() == 0 || s[s.len() - 1].price < limit
        },
    }
}

/// If nobody of `user` rests at or below `price` and every user of the new
/// side already rested at the same price, nobody of `user` rests at or
/// below `price` afterwards either.
proof fn lemma_guard_below_preserved(
    post: Seq<LevelView>,
    pre: Seq<LevelView>,
    user: Seq<char>,
    price: u64,
)
    requires
        side_users_preserved(post, pre),
        !side_has_user_at_or_below(pre, user, price),
    ensures
        !side_has_user_at_or_below(post, user, price),
{
    if side_has_user_at_or_below(post, user, price) {
        let (i, j) = choose|i: int, j: int|
            0 <= i < post.len() && 0 <= j < post[i].queue.len() && post[i].price <= price && (
            #[trigger] post[i].queue[j]).user_id@ == user;
        let (i2, j2) = choose|i2: int, j2: int|
            0 <= i2 < pre.len() && 0 <= j2 < pre[i2].queue.len() && (
            #[trigger] pre[i2].queue[j2]).user_id@ == post[i].queue[j].user_id@ && pre[i2].price
                == post[i].price;
        assert(side_has_user_at_or_below(pre, user, price));
    }
}

/// The mirror fact for bids: preservation of "nobody of `user` rests at or
/// above `price`".
proof fn lemma_guard_above_preserved(
    post: Seq<LevelView>,
    pre: Seq<LevelView>,
    user: Seq<char>,
    price: u64,
)
    requires
        side_users_preserved(post, pre),
        !side_has_user_at_or_above(pre, user, price),
    ensures
        !side_has_user_at_or_above(post, user, price),
{
    if side_has_user_at_or_above(post, user, price) {
        let (i, j) = choose|i: int, j: int|
            0 <= i < post.len() && 0 <= j < post[i].queue.len() && post[i].price >= price && (
            #[trigger] post[i].queue[j]).user_id@ == user;
        let (i2, j2) = choose|i2: int, j2: int|
            0 <= i2 < pre.len() && 0 <= j2 < pre[i2].queue.len() && (
            #[trigger] pre[i2].queue[j2]).user_id@ == post[i].queue[j].user_id@ && pre[i2].price
                == post[i].price;
        assert(side_has_user_at_or_above(pre, user, price));
    }
}

impl Matcher {
    /// Bind a matcher to a book.
    pub fn new(orderbook: OrderBook) -> (r: Matcher)
        ensures
            r.orderbook == orderbook,
    {
        Matcher { orderbook }
    }

    /// Match a MARKET order: consume the best opposite price repeatedly
    /// until the order is filled or the opposite side is exhausted. The
    /// order's own price is never consulted.
    fn match_market_order(&mut self, order: &mut Order, trades: &mut Vec<Trade>)
        requires
            old(self).orderbook.wf(),
            old(order).wf(),
            (match old(order).side {
                OrderSide::BUY => !side_has_user_at_or_below(
                    old(self).orderbook@.asks(old(order).outcome),
                    old(order).user_id@,
                    PRICE_ONE,
                ),
                OrderSide::SELL => !side_has_user_at_or_above(
                    old(self).orderbook@.bids(old(order).outcome),
                    old(order).user_id@,
                    0,
                ),
            }),
        ensures
            final(self).orderbook.wf(),
            *final(order) == order_with_fill(*old(order), final(order).filled),
            old(order).filled <= final(order).filled <= final(order).quantity,
            final(trades)@.len() >= old(trades)@.len(),
            final(trades)@.subrange(0, old(trades)@.len() as int) == old(trades)@,
            final(order).filled == old(order).filled + trade_qty_sum(
                final(trades)@.skip(old(trades)@.len() as int),
            ),
            forall|k: int|
                old(trades)@.len() <= k < final(trades)@.len() ==> trade_for_taker(
                    #[trigger] final(trades)@[k],
                    *old(order),
                ),
            final(order).filled == final(order).quantity || (match old(order).side {
                OrderSide::BUY => final(self).orderbook@.asks(old(order).outcome).len() == 0,
                OrderSide::SELL => final(self).orderbook@.bids(old(order).outcome).len() == 0,
            }),
            old(self).orderbook@.side(consumed_side(old(order).side), old(order).outcome).len()
                == 0 ==> final(trades)@ == old(trades)@ && final(order).filled == old(order).filled,
            trade_trace(
                old(self).orderbook@.side(consumed_side(old(order).side), old(order).outcome),
                final(trades)@.skip(old(trades)@.len() as int),
                old(order).side,
                old(order).spec_remaining(),
            ),
            final(self).orderbook@.side(consumed_side(old(order).side), old(order).outcome)
                == side_after_trades(
                old(self).orderbook@.side(consumed_side(old(order).side), old(order).outcome),
                final(trades)@.skip(old(trades)@.len() as int),
                old(order).side == OrderSide::BUY,
            ),
            forall|s2: OrderSide, o2: Outcome|
                !(s2 == consumed_side(old(order).side) && o2 == old(order).outcome) ==> final(self).orderbook@.side(s2, o2) == old(self).orderbook@.side(s2, o2),
            final(self).orderbook@.market_id == old(self).orderbook@.market_id,
            forall|id: u128|
                #[trigger] final(self).orderbook@.orders.contains_key(id) ==> old(self).orderbook@.orders.contains_key(id),
    {
        let ghost bv0 = self.orderbook@;
        let ghost o0 = *order;
        let ghost n0 = trades@.len() as int;
        let mut done = false;
        while !done
            invariant
                self.orderbook.wf(),
                *order == order_with_fill(o0, order.filled),
                o0.filled <= order.filled <= order.quantity,
                trades@.len() >= n0,
                trades@.subrange(0, n0) == old(trades)@,
                n0 == old(trades)@.len(),
                o0 == *old(order),
                o0.wf(),
                order.filled == o0.filled + trade_qty_sum(trades@.skip(n0)),
                bv0.side(consumed_side(o0.side), o0.outcome).len() == 0 ==> trades@ == old(
                    trades,
                )@ && order.filled == o0.filled && self.orderbook@.side(
                    consumed_side(o0.side),
                    o0.outcome,
                ).len() == 0,
                trade_trace(
                    bv0.side(consumed_side(o0.side), o0.outcome),
                    trades@.skip(n0),
                    o0.side,
                    o0.spec_remaining(),
                ),
                self.orderbook@.side(consumed_side(o0.side), o0.outcome) == side_after_trades(
                    bv0.side(consumed_side(o0.side), o0.outcome),
                    trades@.skip(n0),
                    o0.side == OrderSide::BUY,
                ),
                forall|k: int|
                    n0 <= k < trades@.len() ==> trade_for_taker(#[trigger] trades@[k], o0),
                (match o0.side {
                    OrderSide::BUY => !side_has_user_at_or_below(
                        self.orderbook@.asks(o0.outcome),
                        o0.user_id@,
                        PRICE_ONE,
                    ),
                    OrderSide::SELL => !side_has_user_at_or_above(
                        self.orderbook@.bids(o0.outcome),
                        o0.user_id@,
                        0,
                    ),
                }),
                done ==> order.filled == order.quantity || (match o0.side {
                    OrderSide::BUY => self.orderbook@.asks(o0.outcome).len() == 0,
                    OrderSide::SELL => self.orderbook@.bids(o0.outcome).len() == 0,
                }),
                forall|s2: OrderSide, o2: Outcome|
                    !(s2 == consumed_side(o0.side) && o2 == o0.outcome)
                        ==> self.orderbook@.side(s2, o2) == bv0.side(s2, o2),
                self.orderbook@.market_id == bv0.market_id,
                forall|id: u128|
                    #[trigger] self.orderbook@.orders.contains_key(id) ==> bv0.orders.contains_key(
                        id,
                    ),
                bv0 == old(self).orderbook@,
            decreases
                    order.quantity - order.filled,
                    (if done {
                        0int
                    } else {
                        1int
                    }),
        {
            if order.filled >= order.quantity {
                done = true;
            } else {
                let best = match order.side {
                    OrderSide::BUY => self.orderbook.best_ask(order.outcome),
                    OrderSide::SELL => self.orderbook.best_bid(order.outcome),
                };
                match best {
                    Some(price) => {
                        let ghost pre = self.orderbook@;
                        let ghost s = pre.side(consumed_side(o0.side), o0.outcome);
                        let ghost tprev = trades@;
                        let ghost fprev = order.filled;
                        proof {
                            assert(bv0.side(consumed_side(o0.side), o0.outcome).len() != 0);
                            let li = best_index(s, o0.side);
                            assert(slot_wf(
                                s[li].queue[0],
                                s[li].price,
                                consumed_side(o0.side),
                                o0.outcome,
                            ));
                            if s[li].queue[0].user_id@ == o0.user_id@ {
                                if o0.side == OrderSide::BUY {
                                    assert(side_has_user_at_or_below(s, o0.user_id@, PRICE_ONE));
                                } else {
                                    assert(side_has_user_at_or_above(s, o0.user_id@, 0));
                                }
                            }
                        }
                        self.execute_trade_at_price(order, price, trades);
                        proof {
                            let post = self.orderbook@.side(consumed_side(o0.side), o0.outcome);
                            if o0.side == OrderSide::BUY {
                                lemma_guard_below_preserved(post, s, o0.user_id@, PRICE_ONE);
                            } else {
                                lemma_guard_above_preserved(post, s, o0.user_id@, 0);
                            }
                            assert(trades@.drop_last() == tprev);
                            assert(trades@.skip(n0) =~= tprev.skip(n0).push(trades@.last()));
                            assert(tprev.skip(n0).push(trades@.last()).drop_last() =~= tprev.skip(
                                n0,
                            ));
                            assert(trade_qty_sum(trades@.skip(n0)) == trade_qty_sum(tprev.skip(n0))
                                + trades@.last().quantity);
                            assert(trades@.subrange(0, n0) =~= tprev.subrange(0, n0));
                            assert forall|k: int|
                                n0 <= k < trades@.len() implies trade_for_taker(
                                #[trigger] trades@[k],
                                o0,
                            ) by {
                                if k < trades@.len() - 1 {
                                    assert(trades@[k] == tprev[k]);
                                }
                            }
                            let s0side = bv0.side(consumed_side(o0.side), o0.outcome);
                            let t = trades@.last();
                            assert(s == side_after_trades(
                                s0side,
                                tprev.skip(n0),
                                o0.side == OrderSide::BUY,
                            ));
                            assert(o0.spec_remaining() - trade_qty_sum(tprev.skip(n0))
                                == o0.quantity - fprev);
                            lemma_side_after_push(s0side, tprev.skip(n0), t, o0.side
                                == OrderSide::BUY);
                            lemma_trade_trace_push(
                                s0side,
                                tprev.skip(n0),
                                t,
                                o0.side,
                                o0.spec_remaining(),
                            );
                        }
                    },
                    None => {
                        done = true;
                    },
                }
            }
        }
    }

    /// An order is accepted only with a positive quantity and a price
    /// within `[0, PRICE_ONE]`.
    fn validate_order(&self, order: &Order) -> (r: Result<(), MatchError>)
        ensures
            r is Ok <==> spec_valid_order(*order),
            r is Err ==> r->Err_0 == MatchError::InvalidOrder,
    {
        if order.quantity == 0 {
            return Err(MatchError::InvalidOrder);
        }
        if order.price > PRICE_ONE {
            return Err(MatchError::InvalidOrder);
        }
        Ok(())
    }

    /// Place an order against the book: validate it, refuse it when it
    /// would cross the same user's resting orders, match it according to
    /// its type, rest any remainder of a LIMIT or POSTONLY order, and
    /// return the order's final state with everything it executed.
    ///
    /// On an error the book is exactly as it was. On success the order is
    /// filled by exactly the total quantity of the emitted executions, every
    /// execution pairs two distinct users at well-formed prices, and
    /// matching ran to exhaustion: the order is either filled, or no
    /// crossable liquidity of another user remains for it.
    pub fn place_order(&mut self, order: Order) -> (r: Result<MatchResult, MatchError>)
        requires
            old(self).orderbook.wf(),
            order.filled <= order.quantity,
            !old(self).orderbook@.orders.contains_key(order.order_id),
        ensures
            final(self).orderbook.wf(),
            final(self).orderbook@.market_id == old(self).orderbook@.market_id,
            (match r {
                Err(e) => {
                    &&& final(self).orderbook@ == old(self).orderbook@
                    &&& (e == MatchError::InvalidOrder <==> !spec_valid_order(order))
                    &&& (e == MatchError::SelfTrade ==> spec_would_self_trade(
                        old(self).orderbook@,
                        order.user_id@,
                        order.side,
                        order.outcome,
                        guard_limit(order),
                    ))
                },
                Ok(res) => {
                    &&& spec_valid_order(order)
                    &&& !spec_would_self_trade(
                        old(self).orderbook@,
                        order.user_id@,
                        order.side,
                        order.outcome,
                        guard_limit(order),
                    )
                    &&& res.order == order_with_fill_status(
                        order,
                        res.order.filled,
                        res.order.order_status,
                    )
                    &&& order.filled <= res.order.filled <= order.quantity
                    &&& res.order.filled == order.filled + trade_qty_sum(res.trades@)
                        + cmatch_qty_sum(res.complementary_matches@)
                    &&& forall|k: int|
                        0 <= k < res.trades@.len() ==> trade_for_taker(
                            #[trigger] res.trades@[k],
                            order,
                        )
                    &&& forall|k: int|
                        0 <= k < res.complementary_matches@.len() ==> cmatch_for_taker(
                            #[trigger] res.complementary_matches@[k],
                            order,
                        )
                    &&& (order.order_type == OrderType::LIMIT ==> forall|k: int|
                        0 <= k < res.trades@.len() ==> (if order.side == OrderSide::BUY {
                            (#[trigger] res.trades@[k]).price <= order.price
                        } else {
                            res.trades@[k].price >= order.price
                        }))
                    &&& (order.order_type != OrderType::LIMIT
                        ==> res.complementary_matches@.len() == 0)
                    &&& (order.order_type == OrderType::POSTONLY ==> res.trades@.len() == 0
                        && res.order.filled == order.filled)
                    &&& res.order.order_status == (if res.order.filled == order.quantity {
                        OrderStatus::FILLED
                    } else if order.order_type == OrderType::MARKET {
                        if res.order.filled > 0 {
                            OrderStatus::PARTIAL
                        } else {
                            order.order_status
                        }
                    } else if res.order.filled > 0 {
                        OrderStatus::PARTIAL
                    } else {
                        OrderStatus::OPEN
                    })
                    &&& (if order.order_type != OrderType::MARKET && res.order.filled
                        < order.quantity {
                        let fs = final(self).orderbook@.side(order.side, order.outcome);
                        &&& final(self).orderbook@.orders.contains_key(order.order_id)
                        &&& final(self).orderbook@.orders[order.order_id] == res.order
                        &&& exists|i: int, j: int|
                            0 <= i < fs.len() && 0 <= j < fs[i].queue.len() && (
                            #[trigger] fs[i].queue[j]) == res.order
                    } else {
                        !final(self).orderbook@.orders.contains_key(order.order_id)
                    })
                    &&& (order.order_type == OrderType::MARKET ==> (res.order.filled
                        == order.quantity || (match order.side {
                        OrderSide::BUY => final(self).orderbook@.asks(order.outcome).len() == 0,
                        OrderSide::SELL => final(self).orderbook@.bids(order.outcome).len() == 0,
                    })))
                    &&& (((match order.side {
                        OrderSide::BUY => old(self).orderbook@.asks(order.outcome).len() == 0,
                        OrderSide::SELL => old(self).orderbook@.bids(order.outcome).len() == 0,
                    }) && (order.side == OrderSide::BUY && order.order_type == OrderType::LIMIT
                        ==> old(self).orderbook@.bids(order.outcome.spec_opposite()).len()
                        == 0)) ==> (res.trades@.len() == 0 && res.complementary_matches@.len()
                        == 0 && res.order.filled == order.filled))
                    &&& forall|id: u128|
                        id != order.order_id && #[trigger] final(self).orderbook@.orders.contains_key(
                            id,
                        ) ==> old(self).orderbook@.orders.contains_key(id)
                    &&& final(self).orderbook@.side(order.side, order.outcome) == (if
                    order.order_type != OrderType::MARKET && res.order.filled < order.quantity {
                        levels_add(
                            old(self).orderbook@.side(order.side, order.outcome),
                            res.order,
                            false,
                        )
                    } else {
                        old(self).orderbook@.side(order.side, order.outcome)
                    })
                    &&& final(self).orderbook@.side(consumed_side(order.side), order.outcome)
                        == side_after_trades(
                        old(self).orderbook@.side(consumed_side(order.side), order.outcome),
                        res.trades@,
                        order.side == OrderSide::BUY,
                    )
                    &&& trade_trace(
                        old(self).orderbook@.side(consumed_side(order.side), order.outcome),
                        res.trades@,
                        order.side,
                        order.quantity - order.filled - cmatch_qty_sum(
                            res.complementary_matches@,
                        ),
                    )
                    &&& (order.side == OrderSide::BUY && order.order_type == OrderType::LIMIT
                        ==> cmatch_trace(
                        old(self).orderbook@.bids(order.outcome.spec_opposite()),
                        res.complementary_matches@,
                        order,
                        order.quantity - order.filled,
                    ))
                    &&& (order.order_type == OrderType::LIMIT ==> (res.order.filled
                        == order.quantity || (no_secondary_cross(
                        final(self).orderbook@,
                        order.side,
                        order.outcome,
                        order.price,
                    ) && (order.side == OrderSide::BUY ==> no_compl_candidate(
                        final(self).orderbook@.bids(order.outcome.spec_opposite()),
                        order.user_id@,
                        order.price,
                    )))))
                },
            }),
    {
        let ghost bv0 = self.orderbook@;
        let ghost o0 = order;
        let mut order = order;
        match self.validate_order(&order) {
            Err(e) => {
                return Err(e);
            },
            Ok(()) => {},
        }
        let guard_price = match order.order_type {
            OrderType::MARKET => match order.side {
                OrderSide::BUY => PRICE_ONE,
                OrderSide::SELL => 0,
            },
            _ => order.price,
        };
        if self.orderbook.would_self_trade(&order.user_id, order.side, order.outcome, guard_price) {
            return Err(MatchError::SelfTrade);
        }
        let mut trades: Vec<Trade> = Vec::new();
        let mut complementary: Vec<ComplementaryMatch> = Vec::new();
        match order.order_type {
            OrderType::MARKET => {
                self.match_market_order(&mut order, &mut trades);
            },
            OrderType::LIMIT => {
                self.match_limit_order(&mut order, &mut trades, &mut complementary);
            },
            OrderType::POSTONLY => {},
        }
        proof {
            assert(trades@.skip(0) =~= trades@);
            assert(complementary@.skip(0) =~= complementary@);
            assert(self.orderbook@.side(o0.side, o0.outcome) == bv0.side(o0.side, o0.outcome));
            assert(self.orderbook@.side(consumed_side(o0.side), o0.outcome) == side_after_trades(
                bv0.side(consumed_side(o0.side), o0.outcome),
                trades@,
                o0.side == OrderSide::BUY,
            ));
        }
        let is_market = match order.order_type {
            OrderType::MARKET => true,
            _ => false,
        };
        if !is_market && order.filled < order.quantity {
            order.order_status = if order.filled > 0 {
                OrderStatus::PARTIAL
            } else {
                OrderStatus::OPEN
            };
            let ghost mid = self.orderbook@;
            self.orderbook.add_order(order.clone());
            proof {
                crate::orderbook::lemma_add_contains(
                    mid.side(o0.side, o0.outcome),
                    order,
                    false,
                );
                assert(self.orderbook@.side(o0.side, o0.outcome) == levels_add(
                    mid.side(o0.side, o0.outcome),
                    order,
                    false,
                ));
                assert(mid.side(o0.side, o0.outcome) == bv0.side(o0.side, o0.outcome));
                assert(self.orderbook@.side(consumed_side(o0.side), o0.outcome) == mid.side(
                    consumed_side(o0.side),
                    o0.outcome,
                ));
                if o0.order_type == OrderType::LIMIT {
                    if o0.side == OrderSide::BUY {
                        assert(self.orderbook@.asks(o0.outcome) == mid.asks(o0.outcome));
                        assert(self.orderbook@.bids(o0.outcome.spec_opposite()) == mid.bids(
                            o0.outcome.spec_opposite(),
                        ));
                    } else {
                        assert(self.orderbook@.bids(o0.outcome) == mid.bids(o0.outcome));
                    }
                }
            }
        } else if order.filled >= order.quantity {
            order.order_status = OrderStatus::FILLED;
        } else if order.filled > 0 {
            order.order_status = OrderStatus::PARTIAL;
        }
        Ok(MatchResult { order, trades, complementary_matches: complementary })
    }

    /// Match a LIMIT order: for a buyer, first complementary matching
    /// against the opposite outcome's bids, then secondary matching against
    /// the same outcome's opposite side while the best price crosses the
    /// order's limit.
    fn match_limit_order(
        &mut self,
        order: &mut Order,
        trades: &mut Vec<Trade>,
        complementary: &mut Vec<ComplementaryMatch>,
    )
        requires
            old(self).orderbook.wf(),
            old(order).wf(),
            !spec_would_self_trade(
                old(self).orderbook@,
                old(order).user_id@,
                old(order).side,
                old(order).outcome,
                old(order).price,
            ),
        ensures
            final(self).orderbook.wf(),
            *final(order) == order_with_fill(*old(order), final(order).filled),
            old(order).filled <= final(order).filled <= final(order).quantity,
            final(trades)@.len() >= old(trades)@.len(),
            final(trades)@.subrange(0, old(trades)@.len() as int) == old(trades)@,
            final(complementary)@.len() >= old(complementary)@.len(),
            final(complementary)@.subrange(0, old(complementary)@.len() as int) == old(complementary)@,
            final(order).filled == old(order).filled + trade_qty_sum(
                final(trades)@.skip(old(trades)@.len() as int),
            ) + cmatch_qty_sum(final(complementary)@.skip(old(complementary)@.len() as int)),
            forall|k: int|
                old(trades)@.len() <= k < final(trades)@.len() ==> trade_for_taker(
                    #[trigger] final(trades)@[k],
                    *old(order),
                ) && (if old(order).side == OrderSide::BUY {
                    final(trades)@[k].price <= old(order).price
                } else {
                    final(trades)@[k].price >= old(order).price
                }),
            forall|k: int|
                old(complementary)@.len() <= k < final(complementary)@.len() ==> cmatch_for_taker(
                    #[trigger] final(complementary)@[k],
                    *old(order),
                ),
            old(order).side == OrderSide::SELL ==> final(complementary)@ == old(complementary)@,
            ((match old(order).side {
                OrderSide::BUY => old(self).orderbook@.asks(old(order).outcome).len() == 0,
                OrderSide::SELL => old(self).orderbook@.bids(old(order).outcome).len() == 0,
            }) && (old(order).side == OrderSide::BUY ==> old(self).orderbook@.bids(
                old(order).outcome.spec_opposite(),
            ).len() == 0)) ==> final(trades)@ == old(trades)@ && final(complementary)@ == old(
                complementary,
            )@ && final(order).filled == old(order).filled,
            trade_trace(
                old(self).orderbook@.side(consumed_side(old(order).side), old(order).outcome),
                final(trades)@.skip(old(trades)@.len() as int),
                old(order).side,
                old(order).spec_remaining() - cmatch_qty_sum(
                    final(complementary)@.skip(old(complementary)@.len() as int),
                ),
            ),
            final(self).orderbook@.side(consumed_side(old(order).side), old(order).outcome)
                == side_after_trades(
                old(self).orderbook@.side(consumed_side(old(order).side), old(order).outcome),
                final(trades)@.skip(old(trades)@.len() as int),
                old(order).side == OrderSide::BUY,
            ),
            old(order).side == OrderSide::BUY ==> cmatch_trace(
                old(self).orderbook@.bids(old(order).outcome.spec_opposite()),
                final(complementary)@.skip(old(complementary)@.len() as int),
                *old(order),
                old(order).spec_remaining(),
            ),
            final(order).filled == final(order).quantity || (no_secondary_cross(
                final(self).orderbook@,
                old(order).side,
                old(order).outcome,
                old(order).price,
            ) && (old(order).side == OrderSide::BUY ==> no_compl_candidate(
                final(self).orderbook@.bids(old(order).outcome.spec_opposite()),
                old(order).user_id@,
                old(order).price,
            ))),
            forall|s2: OrderSide, o2: Outcome|
                !(s2 == consumed_side(old(order).side) && o2 == old(order).outcome) && !(s2
                    == OrderSide::BUY && o2 == old(order).outcome.spec_opposite()) ==> final(self).orderbook@.side(s2, o2) == old(self).orderbook@.side(s2, o2),
            final(self).orderbook@.market_id == old(self).orderbook@.market_id,
            forall|id: u128|
                #[trigger] final(self).orderbook@.orders.contains_key(id)
                    ==> old(self).orderbook@.orders.contains_key(id),
    {
        let ghost bv0 = self.orderbook@;
        let ghost o0 = *order;
        let ghost n0 = trades@.len() as int;
        let ghost c0 = complementary@.len() as int;
        let ghost opp = o0.outcome.spec_opposite();
        let ghost quiet = (match o0.side {
            OrderSide::BUY => bv0.asks(o0.outcome).len() == 0,
            OrderSide::SELL => bv0.bids(o0.outcome).len() == 0,
        }) && (o0.side == OrderSide::BUY ==> bv0.bids(opp).len() == 0);
        let ghost s0sec = bv0.side(consumed_side(o0.side), o0.outcome);
        let buy = match order.side {
            OrderSide::BUY => true,
            OrderSide::SELL => false,
        };
        if buy {
            self.try_complementary_match(order, complementary);
            proof {
                assert(self.orderbook@.side(OrderSide::SELL, o0.outcome) == bv0.side(
                    OrderSide::SELL,
                    o0.outcome,
                ));
                assert(self.orderbook@.asks(o0.outcome) == bv0.asks(o0.outcome));
            }
        }
        let ghost csum = cmatch_qty_sum(complementary@.skip(c0));
        proof {
            assert(self.orderbook@.side(consumed_side(o0.side), o0.outcome) == s0sec);
        }
        let mut done = false;
        while !done
            invariant
                self.orderbook.wf(),
                *order == order_with_fill(o0, order.filled),
                o0.filled <= order.filled <= order.quantity,
                o0 == *old(order),
                o0.wf(),
                buy == (o0.side == OrderSide::BUY),
                opp == o0.outcome.spec_opposite(),
                trades@.len() >= n0,
                trades@.subrange(0, n0) == old(trades)@,
                n0 == old(trades)@.len(),
                complementary@.len() >= c0,
                complementary@.subrange(0, c0) == old(complementary)@,
                c0 == old(complementary)@.len(),
                !buy ==> complementary@ == old(complementary)@,
                order.filled == o0.filled + trade_qty_sum(trades@.skip(n0)) + cmatch_qty_sum(
                    complementary@.skip(c0),
                ),
                forall|k: int|
                    n0 <= k < trades@.len() ==> trade_for_taker(#[trigger] trades@[k], o0) && (if buy {
                        trades@[k].price <= o0.price
                    } else {
                        trades@[k].price >= o0.price
                    }),
                forall|k: int|
                    c0 <= k < complementary@.len() ==> cmatch_for_taker(
                        #[trigger] complementary@[k],
                        o0,
                    ),
                (match o0.side {
                    OrderSide::BUY => !side_has_user_at_or_below(
                        self.orderbook@.asks(o0.outcome),
                        o0.user_id@,
                        o0.price,
                    ),
                    OrderSide::SELL => !side_has_user_at_or_above(
                        self.orderbook@.bids(o0.outcome),
                        o0.user_id@,
                        o0.price,
                    ),
                }),
                buy ==> (order.filled == order.quantity || no_compl_candidate(
                    self.orderbook@.bids(opp),
                    o0.user_id@,
                    o0.price,
                )),
                quiet == ((match o0.side {
                    OrderSide::BUY => bv0.asks(o0.outcome).len() == 0,
                    OrderSide::SELL => bv0.bids(o0.outcome).len() == 0,
                }) && (o0.side == OrderSide::BUY ==> bv0.bids(opp).len() == 0)),
                quiet ==> trades@ == old(trades)@ && complementary@ == old(complementary)@
                    && order.filled == o0.filled && self.orderbook@.side(
                    consumed_side(o0.side),
                    o0.outcome,
                ).len() == 0,
                s0sec == bv0.side(consumed_side(o0.side), o0.outcome),
                csum == cmatch_qty_sum(complementary@.skip(c0)),
                trade_trace(s0sec, trades@.skip(n0), o0.side, o0.spec_remaining() - csum),
                self.orderbook@.side(consumed_side(o0.side), o0.outcome) == side_after_trades(
                    s0sec,
                    trades@.skip(n0),
                    o0.side == OrderSide::BUY,
                ),
                o0.side == OrderSide::BUY ==> cmatch_trace(
                    bv0.bids(opp),
                    complementary@.skip(c0),
                    o0,
                    o0.spec_remaining(),
                ),
                done ==> order.filled == order.quantity || no_secondary_cross(
                    self.orderbook@,
                    o0.side,
                    o0.outcome,
                    o0.price,
                ),
                forall|s2: OrderSide, o2: Outcome|
                    !(s2 == consumed_side(o0.side) && o2 == o0.outcome) && !(s2 == OrderSide::BUY
                        && o2 == opp) ==> self.orderbook@.side(s2, o2) == bv0.side(s2, o2),
                self.orderbook@.market_id == bv0.market_id,
                forall|id: u128|
                    #[trigger] self.orderbook@.orders.contains_key(id) ==> bv0.orders.contains_key(
                        id,
                    ),
                bv0 == old(self).orderbook@,
            decreases
                    order.quantity - order.filled,
                    (if done {
                        0int
                    } else {
                        1int
                    }),
        {
            if order.filled >= order.quantity {
                done = true;
            } else {
                let best = match order.side {
                    OrderSide::BUY => self.orderbook.best_ask(order.outcome),
                    OrderSide::SELL => self.orderbook.best_bid(order.outcome),
                };
                let (can, price) = match best {
                    Some(p) => (
                        if buy {
                            p <= order.price
                        } else {
                            p >= order.price
                        },
                        p,
                    ),
                    None => (false, 0u64),
                };
                if can {
                    let ghost pre = self.orderbook@;
                    let ghost s = pre.side(consumed_side(o0.side), o0.outcome);
                    let ghost tprev = trades@;
                    let ghost fprev2 = order.filled;
                    proof {
                        assert(!quiet);
                        let li = best_index(s, o0.side);
                        assert(slot_wf(
                            s[li].queue[0],
                            s[li].price,
                            consumed_side(o0.side),
                            o0.outcome,
                        ));
                        if s[li].queue[0].user_id@ == o0.user_id@ {
                            if o0.side == OrderSide::BUY {
                                assert(side_has_user_at_or_below(s, o0.user_id@, o0.price));
                            } else {
                                assert(side_has_user_at_or_above(s, o0.user_id@, o0.price));
                            }
                        }
                    }
                    self.execute_trade_at_price(order, price, trades);
                    proof {
                        let post = self.orderbook@.side(consumed_side(o0.side), o0.outcome);
                        if o0.side == OrderSide::BUY {
                            lemma_guard_below_preserved(post, s, o0.user_id@, o0.price);
                        } else {
                            lemma_guard_above_preserved(post, s, o0.user_id@, o0.price);
                        }
                        if buy {
                            assert(self.orderbook@.side(OrderSide::BUY, opp) == pre.side(
                                OrderSide::BUY,
                                opp,
                            ));
                            assert(self.orderbook@.bids(opp) == pre.bids(opp));
                        }
                        assert(trades@.drop_last() == tprev);
                        assert(trades@.skip(n0) =~= tprev.skip(n0).push(trades@.last()));
                        assert(tprev.skip(n0).push(trades@.last()).drop_last() =~= tprev.skip(n0));
                        assert(trade_qty_sum(trades@.skip(n0)) == trade_qty_sum(tprev.skip(n0))
                            + trades@.last().quantity);
                        assert(trades@.subrange(0, n0) =~= tprev.subrange(0, n0));
                        assert forall|k: int|
                            n0 <= k < trades@.len() implies trade_for_taker(
                            #[trigger] trades@[k],
                            o0,
                        ) && (if buy {
                            trades@[k].price <= o0.price
                        } else {
                            trades@[k].price >= o0.price
                        }) by {
                            if k < trades@.len() - 1 {
                                assert(trades@[k] == tprev[k]);
                            }
                        }
                        let t = trades@.last();
                        assert(s == side_after_trades(s0sec, tprev.skip(n0), o0.side
                            == OrderSide::BUY));
                        assert((o0.spec_remaining() - csum) - trade_qty_sum(tprev.skip(n0))
                            == o0.quantity - fprev2);
                        lemma_side_after_push(s0sec, tprev.skip(n0), t, o0.side == OrderSide::BUY);
                        lemma_trade_trace_push(
                            s0sec,
                            tprev.skip(n0),
                            t,
                            o0.side,
                            o0.spec_remaining() - csum,
                        );
                    }
                } else {
                    done = true;
                }
            }
        }
    }

    /// Complementary matching for a BUY taker: walk the bids of the opposite
    /// outcome from the best price down while the two limit prices sum to at
    /// least one whole unit, pairing the taker with makers of other users.
    /// The taker's own resting orders are skipped and left in place with
    /// their time priority.
    #[verifier::rlimit(80)]
    fn try_complementary_match(
        &mut self,
        order: &mut Order,
        matches: &mut Vec<ComplementaryMatch>,
    )
        requires
            old(self).orderbook.wf(),
            old(order).wf(),
            old(order).side == OrderSide::BUY,
        ensures
            final(self).orderbook.wf(),
            *final(order) == order_with_fill(*old(order), final(order).filled),
            old(order).filled <= final(order).filled <= final(order).quantity,
            final(matches)@.len() >= old(matches)@.len(),
            final(matches)@.subrange(0, old(matches)@.len() as int) == old(matches)@,
            final(order).filled == old(order).filled + cmatch_qty_sum(
                final(matches)@.skip(old(matches)@.len() as int),
            ),
            forall|k: int|
                old(matches)@.len() <= k < final(matches)@.len() ==> cmatch_for_taker(
                    #[trigger] final(matches)@[k],
                    *old(order),
                ),
            final(order).filled == final(order).quantity || no_compl_candidate(
                final(self).orderbook@.bids(old(order).outcome.spec_opposite()),
                old(order).user_id@,
                old(order).price,
            ),
            old(self).orderbook@.bids(old(order).outcome.spec_opposite()).len() == 0
                ==> final(matches)@ == old(matches)@ && final(order).filled == old(order).filled,
            cmatch_trace(
                old(self).orderbook@.bids(old(order).outcome.spec_opposite()),
                final(matches)@.skip(old(matches)@.len() as int),
                *old(order),
                old(order).spec_remaining(),
            ),
            forall|s2: OrderSide, o2: Outcome|
                !(s2 == OrderSide::BUY && o2 == old(order).outcome.spec_opposite()) ==> final(self).orderbook@.side(s2, o2) == old(self).orderbook@.side(s2, o2),
            final(self).orderbook@.market_id == old(self).orderbook@.market_id,
            forall|id: u128|
                #[trigger] final(self).orderbook@.orders.contains_key(id) ==> old(self).orderbook@.orders.contains_key(id),
    {
        let ghost bv0 = self.orderbook@;
        let ghost o0 = *order;
        let ghost m0 = matches@.len() as int;
        let opp = order.outcome.opposite();
        let mut stash: Vec<Order> = Vec::new();
        proof {
            assert(matches@.skip(m0) =~= Seq::<ComplementaryMatch>::empty());
            assert forall|ms2: Seq<ComplementaryMatch>|
                cmatch_trace(
                    self.orderbook@.bids(opp),
                    ms2,
                    o0,
                    o0.spec_remaining() - cmatch_qty_sum(matches@.skip(m0)),
                ) implies #[trigger] cmatch_trace(
                bv0.bids(opp),
                matches@.skip(m0) + ms2,
                o0,
                o0.spec_remaining(),
            ) by {
                assert(matches@.skip(m0) + ms2 =~= ms2);
            }
        }
        let mut done = false;
        while !done
            invariant
                self.orderbook.wf(),
                *order == order_with_fill(o0, order.filled),
                o0.filled <= order.filled <= order.quantity,
                o0 == *old(order),
                o0.wf(),
                o0.side == OrderSide::BUY,
                opp == o0.outcome.spec_opposite(),
                matches@.len() >= m0,
                matches@.subrange(0, m0) == old(matches)@,
                m0 == old(matches)@.len(),
                order.filled == o0.filled + cmatch_qty_sum(matches@.skip(m0)),
                forall|k: int|
                    m0 <= k < matches@.len() ==> cmatch_for_taker(#[trigger] matches@[k], o0),
                forall|k: int|
                    0 <= k < stash@.len() ==> {
                        let m = #[trigger] stash@[k];
                        &&& m.wf()
                        &&& m.side == OrderSide::BUY
                        &&& m.outcome == opp
                        &&& m.filled < m.quantity
                        &&& m.user_id@ == o0.user_id@
                        &&& !self.orderbook@.orders.contains_key(m.order_id)
                        &&& bv0.orders.contains_key(m.order_id)
                    },
                forall|k1: int, k2: int|
                    0 <= k1 < k2 < stash@.len() ==> stash@[k1].order_id != stash@[k2].order_id,
                bv0.bids(opp).len() == 0 ==> matches@ == old(matches)@ && order.filled
                    == o0.filled && self.orderbook@.bids(opp).len() == 0 && stash@.len() == 0,
                forall|ms2: Seq<ComplementaryMatch>|
                    cmatch_trace(
                        self.orderbook@.bids(opp),
                        ms2,
                        o0,
                        o0.spec_remaining() - cmatch_qty_sum(matches@.skip(m0)),
                    ) ==> #[trigger] cmatch_trace(
                        bv0.bids(opp),
                        matches@.skip(m0) + ms2,
                        o0,
                        o0.spec_remaining(),
                    ),
                done ==> order.filled == order.quantity || no_compl_candidate(
                    self.orderbook@.bids(opp),
                    o0.user_id@,
                    o0.price,
                ),
                forall|s2: OrderSide, o2: Outcome|
                    !(s2 == OrderSide::BUY && o2 == opp) ==> self.orderbook@.side(s2, o2)
                        == bv0.side(s2, o2),
                self.orderbook@.market_id == bv0.market_id,
                forall|id: u128|
                    #[trigger] self.orderbook@.orders.contains_key(id) ==> bv0.orders.contains_key(
                        id,
                    ),
                bv0 == old(self).orderbook@,
            decreases
                    order.quantity - order.filled,
                    self.orderbook@.orders.dom().len(),
                    (if done {
                        0int
                    } else {
                        1int
                    }),
        {
            let ghost pre = self.orderbook@;
            let ghost s = pre.bids(opp);
            if order.filled >= order.quantity {
                done = true;
            } else {
                let maker_opt = self.orderbook.pop_best_bid(opp);
                match maker_opt {
                    None => {
                        done = true;
                    },
                    Some(mut maker) => {
                        let ghost mk = maker;
                        proof {
                            assert(bv0.bids(opp).len() != 0);
                            assert(pre.orders.dom().contains(maker.order_id));
                            assert(self.orderbook@.orders.dom() =~= pre.orders.dom().remove(
                                maker.order_id,
                            ));
                        }
                        if maker.price + order.price < PRICE_ONE {
                            let ghost mid = self.orderbook@;
                            self.orderbook.push_front(maker);
                            done = true;
                            proof {
                                crate::orderbook::lemma_pop_push_front_round_trip(
                                    s,
                                    s.len() - 1,
                                    OrderSide::BUY,
                                    opp,
                                );
                                assert(self.orderbook@.bids(opp) == s);
                                let li = s.len() - 1;
                                let post = self.orderbook@.bids(opp);
                                assert forall|i: int, j: int|
                                    0 <= i < post.len() && 0 <= j < post[i].queue.len() && post[i].price
                                        + o0.price >= PRICE_ONE implies (
                                #[trigger] post[i].queue[j]).user_id@ == o0.user_id@ by {
                                    crate::orderbook::lemma_add_slot_provenance(
                                        levels_pop_at(s, li),
                                        maker,
                                        true,
                                        i,
                                        j,
                                    );
                                    if !(post[i].queue[j] == maker && post[i].price
                                        == maker.price) {
                                        let (i3, j3) = choose|i3: int, j3: int|
                                            0 <= i3 < levels_pop_at(s, li).len() && 0 <= j3
                                                < levels_pop_at(s, li)[i3].queue.len() && (
                                            #[trigger] levels_pop_at(s, li)[i3].queue[j3])
                                                == post[i].queue[j] && levels_pop_at(
                                                s,
                                                li,
                                            )[i3].price == post[i].price;
                                        crate::orderbook::lemma_pop_slot_provenance(s, li, i3, j3);
                                        let (i2, j2) = choose|i2: int, j2: int|
                                            0 <= i2 < s.len() && 0 <= j2 < s[i2].queue.len() && (
                                            #[trigger] s[i2].queue[j2]) == levels_pop_at(
                                                s,
                                                li,
                                            )[i3].queue[j3] && s[i2].price == levels_pop_at(
                                                s,
                                                li,
                                            )[i3].price;
                                        assert(s[i2].price <= s[li].price);
                                        assert(post[i].price < PRICE_ONE - o0.price);
                                        assert(false);
                                    } else {
                                        assert(post[i].price < PRICE_ONE - o0.price);
                                        assert(false);
                                    }
                                }
                            }
                        } else if maker.user_id.eq(&order.user_id) {
                            stash.push(maker);
                            proof {
                                assert(self.orderbook@.bids(opp) == levels_pop_at(s, s.len() - 1));
                                let rem = o0.spec_remaining() - cmatch_qty_sum(matches@.skip(m0));
                                assert forall|ms2: Seq<ComplementaryMatch>|
                                    cmatch_trace(
                                        self.orderbook@.bids(opp),
                                        ms2,
                                        o0,
                                        rem,
                                    ) implies #[trigger] cmatch_trace(
                                    bv0.bids(opp),
                                    matches@.skip(m0) + ms2,
                                    o0,
                                    o0.spec_remaining(),
                                ) by {
                                    if ms2.len() == 0 {
                                        assert(cmatch_trace(s, ms2, o0, rem));
                                    } else {
                                        assert(s.len() > 0);
                                        assert(s[s.len() - 1].queue.len() > 0);
                                        assert(rem > 0);
                                        assert(mk == s[s.len() - 1].queue[0]);
                                        assert(mk.price + o0.price >= PRICE_ONE);
                                        assert(mk.user_id@ == o0.user_id@);
                                        assert(cmatch_trace(s, ms2, o0, rem) == cmatch_trace(
                                            levels_pop_at(s, s.len() - 1),
                                            ms2,
                                            o0,
                                            rem,
                                        ));
                                    }
                                }
                            }
                        } else {
                            let tr = order.quantity - order.filled;
                            let mr = maker.quantity - maker.filled;
                            let qty = if tr < mr {
                                tr
                            } else {
                                mr
                            };
                            let (
                                yes_buyer,
                                no_buyer,
                                yes_order,
                                no_order,
                                yes_price,
                                no_price,
                                yes_res,
                                no_res,
                            ) = match order.outcome {
                                Outcome::YES => (
                                    order.user_id.clone(),
                                    maker.user_id.clone(),
                                    order.order_id,
                                    maker.order_id,
                                    order.price,
                                    maker.price,
                                    clone_opt_string(&order.reservation_id),
                                    clone_opt_string(&maker.reservation_id),
                                ),
                                Outcome::NO => (
                                    maker.user_id.clone(),
                                    order.user_id.clone(),
                                    maker.order_id,
                                    order.order_id,
                                    maker.price,
                                    order.price,
                                    clone_opt_string(&maker.reservation_id),
                                    clone_opt_string(&order.reservation_id),
                                ),
                            };
                            let ghost mprev = matches@;
                            matches.push(
                                ComplementaryMatch {
                                    trade_id: fresh_trade_id(),
                                    market_id: order.market_id.clone(),
                                    yes_buyer_id: yes_buyer,
                                    no_buyer_id: no_buyer,
                                    quantity: qty,
                                    yes_price,
                                    no_price,
                                    yes_order_id: yes_order,
                                    no_order_id: no_order,
                                    yes_reservation_id: yes_res,
                                    no_reservation_id: no_res,
                                    timestamp: now_millis(),
                                },
                            );
                            order.filled = order.filled + qty;
                            maker.filled = maker.filled + qty;
                            if maker.filled < maker.quantity {
                                self.orderbook.push_front(maker);
                            }
                            proof {
                                assert(matches@.drop_last() == mprev);
                                assert(matches@.skip(m0) =~= mprev.skip(m0).push(matches@.last()));
                                assert(mprev.skip(m0).push(matches@.last()).drop_last()
                                    =~= mprev.skip(m0));
                                assert(cmatch_qty_sum(matches@.skip(m0)) == cmatch_qty_sum(
                                    mprev.skip(m0),
                                ) + matches@.last().quantity);
                                assert(matches@.subrange(0, m0) =~= mprev.subrange(0, m0));
                                let mc = matches@.last();
                                let rem_prev = o0.spec_remaining() - cmatch_qty_sum(
                                    mprev.skip(m0),
                                );
                                assert(mk == s[s.len() - 1].queue[0]);
                                assert(mc.quantity == spec_min(rem_prev, mk.spec_remaining()));
                                assert(self.orderbook@.bids(opp) == consume_best(
                                    s,
                                    mc.quantity as int,
                                    false,
                                ));
                                assert(cmatch_ties_maker(mc, mk, o0));
                                assert forall|ms2: Seq<ComplementaryMatch>|
                                    cmatch_trace(
                                        self.orderbook@.bids(opp),
                                        ms2,
                                        o0,
                                        o0.spec_remaining() - cmatch_qty_sum(matches@.skip(m0)),
                                    ) implies #[trigger] cmatch_trace(
                                    bv0.bids(opp),
                                    matches@.skip(m0) + ms2,
                                    o0,
                                    o0.spec_remaining(),
                                ) by {
                                    assert((seq![mc] + ms2)[0] == mc);
                                    assert((seq![mc] + ms2).skip(1) =~= ms2);
                                    assert(s.len() > 0 && s[s.len() - 1].queue.len() > 0);
                                    assert(rem_prev > 0);
                                    assert(mk.price + o0.price >= PRICE_ONE);
                                    assert(mk.user_id@ != o0.user_id@);
                                    assert(cmatch_trace(s, seq![mc] + ms2, o0, rem_prev));
                                    assert(cmatch_trace(
                                        bv0.bids(opp),
                                        mprev.skip(m0) + (seq![mc] + ms2),
                                        o0,
                                        o0.spec_remaining(),
                                    ));
                                    assert(mprev.skip(m0) + (seq![mc] + ms2) =~= matches@.skip(m0)
                                        + ms2);
                                }
                                assert forall|k: int|
                                    m0 <= k < matches@.len() implies cmatch_for_taker(
                                    #[trigger] matches@[k],
                                    o0,
                                ) by {
                                    if k < matches@.len() - 1 {
                                        assert(matches@[k] == mprev[k]);
                                    }
                                }
                            }
                        }
                    },
                }
            }
        }
        proof {
            assert(cmatch_trace(
                self.orderbook@.bids(opp),
                Seq::<ComplementaryMatch>::empty(),
                o0,
                o0.spec_remaining() - cmatch_qty_sum(matches@.skip(m0)),
            ));
            assert(cmatch_trace(
                bv0.bids(opp),
                matches@.skip(m0) + Seq::<ComplementaryMatch>::empty(),
                o0,
                o0.spec_remaining(),
            ));
            assert(matches@.skip(m0) + Seq::<ComplementaryMatch>::empty() =~= matches@.skip(m0));
        }
        while stash.len() > 0
            invariant
                self.orderbook.wf(),
                *order == order_with_fill(o0, order.filled),
                o0.filled <= order.filled <= order.quantity,
                o0 == *old(order),
                o0.wf(),
                o0.side == OrderSide::BUY,
                opp == o0.outcome.spec_opposite(),
                matches@.len() >= m0,
                matches@.subrange(0, m0) == old(matches)@,
                m0 == old(matches)@.len(),
                order.filled == o0.filled + cmatch_qty_sum(matches@.skip(m0)),
                forall|k: int|
                    m0 <= k < matches@.len() ==> cmatch_for_taker(#[trigger] matches@[k], o0),
                forall|k: int|
                    0 <= k < stash@.len() ==> {
                        let m = #[trigger] stash@[k];
                        &&& m.wf()
                        &&& m.side == OrderSide::BUY
                        &&& m.outcome == opp
                        &&& m.filled < m.quantity
                        &&& m.user_id@ == o0.user_id@
                        &&& !self.orderbook@.orders.contains_key(m.order_id)
                        &&& bv0.orders.contains_key(m.order_id)
                    },
                forall|k1: int, k2: int|
                    0 <= k1 < k2 < stash@.len() ==> stash@[k1].order_id != stash@[k2].order_id,
                bv0.bids(opp).len() == 0 ==> matches@ == old(matches)@ && order.filled
                    == o0.filled && self.orderbook@.bids(opp).len() == 0 && stash@.len() == 0,
                order.filled == order.quantity || no_compl_candidate(
                    self.orderbook@.bids(opp),
                    o0.user_id@,
                    o0.price,
                ),
                cmatch_trace(bv0.bids(opp), matches@.skip(m0), o0, o0.spec_remaining()),
                forall|s2: OrderSide, o2: Outcome|
                    !(s2 == OrderSide::BUY && o2 == opp) ==> self.orderbook@.side(s2, o2)
                        == bv0.side(s2, o2),
                self.orderbook@.market_id == bv0.market_id,
                forall|id: u128|
                    #[trigger] self.orderbook@.orders.contains_key(id) ==> bv0.orders.contains_key(
                        id,
                    ),
                bv0 == old(self).orderbook@,
            decreases stash@.len(),
        {
            let ghost s = self.orderbook@.bids(opp);
            let m = match stash.pop() {
                Some(m) => m,
                None => {
                    proof {
                        assert(false);
                    }
                    vstd::pervasive::unreached()
                },
            };
            self.orderbook.push_front(m);
            proof {
                if order.filled != order.quantity {
                    let post = self.orderbook@.bids(opp);
                    let li = crate::orderbook::find_pos(s, m.price);
                    assert forall|i: int, j: int|
                        0 <= i < post.len() && 0 <= j < post[i].queue.len() && post[i].price
                            + o0.price >= PRICE_ONE implies (
                    #[trigger] post[i].queue[j]).user_id@ == o0.user_id@ by {
                        crate::orderbook::lemma_add_slot_provenance(s, m, true, i, j);
                        if !(post[i].queue[j] == m && post[i].price == m.price) {
                            let (i2, j2) = choose|i2: int, j2: int|
                                0 <= i2 < s.len() && 0 <= j2 < s[i2].queue.len() && (
                                #[trigger] s[i2].queue[j2]) == post[i].queue[j] && s[i2].price
                                    == post[i].price;
                            assert(s[i2].queue[j2].user_id@ == o0.user_id@);
                        }
                    }
                }
            }
        }
    }

    /// Pop the front maker of the best opposite level, execute one fill of
    /// `min(taker remaining, maker remaining)` at the maker's resting price,
    /// emit the trade, and reinsert the maker at the front of its level when
    /// it is only partially filled.
    fn execute_trade_at_price(&mut self, taker: &mut Order, price: u64, trades: &mut Vec<Trade>)
        requires
            old(self).orderbook.wf(),
            old(taker).wf(),
            old(taker).filled < old(taker).quantity,
            (match old(taker).side {
                OrderSide::BUY => spec_best_ask(old(self).orderbook@, old(taker).outcome) == Some(
                    price,
                ),
                OrderSide::SELL => spec_best_bid(old(self).orderbook@, old(taker).outcome) == Some(
                    price,
                ),
            }),
            ({
                let s = old(self).orderbook@.side(
                    consumed_side(old(taker).side),
                    old(taker).outcome,
                );
                s[best_index(s, old(taker).side)].queue[0].user_id@ != old(taker).user_id@
            }),
        ensures
            final(self).orderbook.wf(),
            ({
                let bv = old(self).orderbook@;
                let cs = consumed_side(old(taker).side);
                let s = bv.side(cs, old(taker).outcome);
                let li = best_index(s, old(taker).side);
                let m = s[li].queue[0];
                let qty = spec_min(old(taker).spec_remaining(), m.spec_remaining());
                &&& qty > 0
                &&& *final(taker) == order_with_fill(
                    *old(taker),
                    (old(taker).filled + qty) as u64,
                )
                &&& final(taker).filled <= final(taker).quantity
                &&& final(trades)@.len() == old(trades)@.len() + 1
                &&& final(trades)@.drop_last() == old(trades)@
                &&& ({
                    let t = final(trades)@.last();
                    &&& trade_for_taker(t, *old(taker))
                    &&& t.quantity == qty
                    &&& t.price == price
                    &&& t.price == s[li].price
                    &&& trade_ties_maker(t, m, s[li].price, old(taker).side)
                })
                &&& final(self).orderbook@.side(cs, old(taker).outcome) == consume_best(
                    s,
                    qty,
                    old(taker).side == OrderSide::BUY,
                )
                &&& side_users_preserved(final(self).orderbook@.side(cs, old(taker).outcome), s)
                &&& forall|s2: OrderSide, o2: Outcome|
                    !(s2 == cs && o2 == old(taker).outcome) ==> final(self).orderbook@.side(s2, o2)
                        == bv.side(s2, o2)
                &&& final(self).orderbook@.market_id == bv.market_id
                &&& forall|id: u128|
                    #[trigger] final(self).orderbook@.orders.contains_key(id)
                        ==> bv.orders.contains_key(id)
            }),
    {
        let ghost bv = self.orderbook@;
        let ghost cs = consumed_side(taker.side);
        let ghost s0 = bv.side(cs, taker.outcome);
        let ghost li = best_index(s0, taker.side);
        let maker_opt = match taker.side {
            OrderSide::BUY => self.orderbook.pop_best_ask(taker.outcome),
            OrderSide::SELL => self.orderbook.pop_best_bid(taker.outcome),
        };
        let mut maker = match maker_opt {
            Some(m) => m,
            None => {
                proof {
                    assert(false);
                }
                vstd::pervasive::unreached()
            },
        };
        let tr = taker.quantity - taker.filled;
        let mr = maker.quantity - maker.filled;
        let qty = if tr < mr {
            tr
        } else {
            mr
        };
        let trade_type = TradeType::determine(taker.side, taker.outcome, maker.side, maker.outcome);
        let (buyer_id, seller_id, buyer_order_id, seller_order_id, buyer_res, seller_res) = match taker.side {
            OrderSide::BUY => (
                taker.user_id.clone(),
                maker.user_id.clone(),
                taker.order_id,
                maker.order_id,
                clone_opt_string(&taker.reservation_id),
                clone_opt_string(&maker.reservation_id),
            ),
            OrderSide::SELL => (
                maker.user_id.clone(),
                taker.user_id.clone(),
                maker.order_id,
                taker.order_id,
                clone_opt_string(&maker.reservation_id),
                clone_opt_string(&taker.reservation_id),
            ),
        };
        let trade = Trade {
            trade_id: fresh_trade_id(),
            market_id: taker.market_id.clone(),
            outcome: taker.outcome,
            trade_type,
            buyer_id,
            seller_id,
            quantity: qty,
            price,
            buyer_order_id,
            seller_order_id,
            buyer_reservation_id: buyer_res,
            seller_reservation_id: seller_res,
            timestamp: now_millis(),
        };
        trades.push(trade);
        taker.filled = taker.filled + qty;
        maker.filled = maker.filled + qty;
        let ghost mid = self.orderbook@;
        if maker.filled < maker.quantity {
            self.orderbook.push_front(maker);
        }
        proof {
            let t = final(trades)@.last();
            assert(final(trades)@.drop_last() =~= old(trades)@);
            let post = self.orderbook@.side(cs, old(taker).outcome);
            assert forall|i: int, j: int|
                0 <= i < post.len() && 0 <= j < post[i].queue.len() implies exists|
                i2: int,
                j2: int,
            |
                0 <= i2 < s0.len() && 0 <= j2 < s0[i2].queue.len() && (
                #[trigger] s0[i2].queue[j2]).user_id@ == (#[trigger] post[i].queue[j]).user_id@
                    && s0[i2].price == post[i].price by {
                let m = s0[li].queue[0];
                if post == levels_pop_at(s0, li) {
                    crate::orderbook::lemma_pop_slot_provenance(s0, li, i, j);
                } else {
                    crate::orderbook::lemma_add_slot_provenance(
                        levels_pop_at(s0, li),
                        order_with_fill(m, maker.filled),
                        true,
                        i,
                        j,
                    );
                    if post[i].queue[j] == order_with_fill(m, maker.filled) && post[i].price
                        == order_with_fill(m, maker.filled).price {
                        assert(s0[li].queue[0].user_id@ == post[i].queue[j].user_id@
                            && s0[li].price == post[i].price);
                    } else {
                        let (i3, j3) = choose|i3: int, j3: int|
                            0 <= i3 < levels_pop_at(s0, li).len() && 0 <= j3 < levels_pop_at(
                                s0,
                                li,
                            )[i3].queue.len() && (#[trigger] levels_pop_at(s0, li)[i3].queue[j3])
                                == post[i].queue[j] && levels_pop_at(s0, li)[i3].price
                                == post[i].price;
                        crate::orderbook::lemma_pop_slot_provenance(s0, li, i3, j3);
                    }
                }
            }
        }
    }
}

} // verus!
