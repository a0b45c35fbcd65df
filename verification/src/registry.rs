//! The registry of per-market books: one book per market id, created
//! lazily when the market's first order arrives.

use vstd::prelude::*;

verus! {

use crate::matcher::{
    cmatch_for_taker, cmatch_qty_sum, cmatch_trace, consumed_side, guard_limit,
    no_compl_candidate, no_secondary_cross, order_with_fill_status, side_after_trades,
    spec_valid_order, trade_for_taker, trade_qty_sum, trade_trace, MatchError, Matcher,
    MatchResult,
};
use crate::order::{Order, OrderSide, OrderStatus, OrderType};
use crate::orderbook::{empty_book_view, levels_add, spec_would_self_trade, BookView, OrderBook};

pub struct BookRegistry {
    pub books: Vec<OrderBook>,
}

impl BookRegistry {
    /// Well-formed registry: every book is well formed and no two books
    /// serve the same market.
    pub open spec fn wf(self) -> bool {
        &&& forall|i: int| 0 <= i < self.books@.len() ==> (#[trigger] self.books@[i]).wf()
        &&& forall|i: int, j: int|
            0 <= i < j < self.books@.len() ==> (#[trigger] self.books@[i])@.market_id != (
            #[trigger] self.books@[j])@.market_id
    }

    /// Whether some book serves this market.
    pub open spec fn has_market(self, m: Seq<char>) -> bool {
        exists|i: int| 0 <= i < self.books@.len() && (#[trigger] self.books@[i])@.market_id == m
    }

    /// The image of this market's book. In a well-formed registry at most
    /// one book serves a market, so the choice is determined.
    pub open spec fn market_book(self, m: Seq<char>) -> BookView
        recommends
            self.has_market(m),
    {
        let i = choose|i: int|
            0 <= i < self.books@.len() && (#[trigger] self.books@[i])@.market_id == m;
        self.books@[i]@
    }

    /// In a well-formed registry the book at any index serving market `m`
    /// is the market's book.
    pub proof fn lemma_market_book_at(self, m: Seq<char>, i: int)
        requires
            self.wf(),
            0 <= i < self.books@.len(),
            self.books@[i]@.market_id == m,
        ensures
            self.has_market(m),
            self.market_book(m) == self.books@[i]@,
    {
        assert(self.has_market(m));
        let j = choose|j: int|
            0 <= j < self.books@.len() && (#[trigger] self.books@[j])@.market_id == m;
        if j < i {
            assert(self.books@[j]@.market_id != self.books@[i]@.market_id);
        } else if j > i {
            assert(self.books@[i]@.market_id != self.books@[j]@.market_id);
        }
    }

    /// An empty registry; markets are added on first use.
    pub fn new() -> (r: BookRegistry)
        ensures
            r.wf(),
            r.books@.len() == 0,
    {
        BookRegistry { books: Vec::new() }
    }

    /// The index of this market's book, creating an empty book for it when
    /// none exists yet. Every caller naming the same market sees the same
    /// book.
    pub fn get_or_create(&mut self, market_id: &String) -> (i: usize)
        requires
            old(self).wf(),
        ensures
            final(self).wf(),
            i < final(self).books@.len(),
            final(self).books@[i as int]@.market_id == market_id@,
            (if old(self).has_market(market_id@) {
                final(self).books@ == old(self).books@
            } else {
                &&& final(self).books@.len() == old(self).books@.len() + 1
                &&& final(self).books@.subrange(0, old(self).books@.len() as int) == old(
                    self,
                ).books@
                &&& i == old(self).books@.len()
                &&& final(self).books@[i as int]@ == empty_book_view(market_id@)
            }),
    {
        let n = self.books.len();
        let mut i: usize = 0;
        while i < n
            invariant
                i <= n,
                n == self.books@.len(),
                self == old(self),
                old(self).wf(),
                forall|k: int| 0 <= k < i ==> (#[trigger] self.books@[k])@.market_id
                    != market_id@,
            decreases n - i,
        {
            if self.books[i].market_id.eq(market_id) {
                return i;
            }
            i = i + 1;
        }
        proof {
            assert(!old(self).has_market(market_id@));
        }
        let book = OrderBook::new(market_id.clone());
        self.books.push(book);
        proof {
            assert(self.books@.subrange(0, old(self).books@.len() as int) =~= old(
                self,
            ).books@);
            assert forall|a: int, b: int|
                0 <= a < b < self.books@.len() implies (#[trigger] self.books@[a])@.market_id != (
            #[trigger] self.books@[b])@.market_id by {
                if b == self.books@.len() - 1 {
                    assert(self.books@[a] == old(self).books@[a]);
                }
            }
        }
        n
    }

    /// The image this market's book had before the call: its registered
    /// book, or an empty book when the market is new.
    pub open spec fn book_before(self, m: Seq<char>) -> BookView {
        if self.has_market(m) {
            self.market_book(m)
        } else {
            empty_book_view(m)
        }
    }

    /// Place an order in its market's book, creating the book when the
    /// market is new, and match it there. The clauses below restate
    /// `Matcher::place_order`'s contract against this market's book image
    /// before and after the call; no other market's book changes.
    pub fn place_order(&mut self, order: Order) -> (r: Result<MatchResult, MatchError>)
        requires
            old(self).wf(),
            order.filled <= order.quantity,
            forall|i: int|
                0 <= i < old(self).books@.len() ==> !(#[trigger] old(
                    self,
                ).books@[i])@.orders.contains_key(order.order_id),
        ensures
            final(self).wf(),
            final(self).has_market(order.market_id@),
            final(self).books@.len() == (if old(self).has_market(order.market_id@) {
                old(self).books@.len() as int
            } else {
                (old(self).books@.len() + 1) as int
            }),
            forall|m2: Seq<char>|
                m2 != order.market_id@ ==> ((#[trigger] final(self).has_market(m2)) == old(self).has_market(m2)
                    && (old(self).has_market(m2) ==> final(self).market_book(m2)
                    == old(self).market_book(m2))),
            ({
                let pre = old(self).book_before(order.market_id@);
                let post = final(self).market_book(order.market_id@);
                match r {
                    Err(e) => {
                        &&& post == pre
                        &&& (e == MatchError::InvalidOrder <==> !spec_valid_order(order))
                        &&& (e == MatchError::SelfTrade ==> spec_would_self_trade(
                            pre,
                            order.user_id@,
                            order.side,
                            order.outcome,
                            guard_limit(order),
                        ))
                    },
                    Ok(res) => {
                        &&& spec_valid_order(order)
                        &&& !spec_would_self_trade(
                            pre,
                            order.user_id@,
                            order.side,
                            order.outcome,
                            guard_limit(order),
                        )
                        &&& res.order == order_with_fill_status(
                            order,
                            res.order.filled,
                            res.order.order_status,
                        )
                        &&& order.filled <= res.order.filled <= order.quantity
                        &&& res.order.filled == order.filled + trade_qty_sum(res.trades@)
                            + cmatch_qty_sum(res.complementary_matches@)
                        &&& forall|k: int|
                            0 <= k < res.trades@.len() ==> trade_for_taker(
                                #[trigger] res.trades@[k],
                                order,
                            )
                        &&& forall|k: int|
                            0 <= k < res.complementary_matches@.len() ==> cmatch_for_taker(
                                #[trigger] res.complementary_matches@[k],
                                order,
                            )
                        &&& (order.order_type == OrderType::LIMIT ==> forall|k: int|
                            0 <= k < res.trades@.len() ==> (if order.side == OrderSide::BUY {
                                (#[trigger] res.trades@[k]).price <= order.price
                            } else {
                                res.trades@[k].price >= order.price
                            }))
                        &&& (order.order_type != OrderType::LIMIT
                            ==> res.complementary_matches@.len() == 0)
                        &&& (order.order_type == OrderType::POSTONLY ==> res.trades@.len() == 0
                            && res.order.filled == order.filled)
                        &&& res.order.order_status == (if res.order.filled == order.quantity {
                            OrderStatus::FILLED
                        } else if order.order_type == OrderType::MARKET {
                            if res.order.filled > 0 {
                                OrderStatus::PARTIAL
                            } else {
                                order.order_status
                            }
                        } else if res.order.filled > 0 {
                            OrderStatus::PARTIAL
                        } else {
                            OrderStatus::OPEN
                        })
                        &&& (if order.order_type != OrderType::MARKET && res.order.filled
                            < order.quantity {
                            let fs = post.side(order.side, order.outcome);
                            &&& post.orders.contains_key(order.order_id)
                            &&& post.orders[order.order_id] == res.order
                            &&& exists|i: int, j: int|
                                0 <= i < fs.len() && 0 <= j < fs[i].queue.len() && (
                                #[trigger] fs[i].queue[j]) == res.order
                        } else {
                            !post.orders.contains_key(order.order_id)
                        })
                        &&& forall|id: u128|
                            id != order.order_id && #[trigger] post.orders.contains_key(id)
                                ==> pre.orders.contains_key(id)
                        &&& post.side(order.side, order.outcome) == (if order.order_type
                            != OrderType::MARKET && res.order.filled < order.quantity {
                            levels_add(pre.side(order.side, order.outcome), res.order, false)
                        } else {
                            pre.side(order.side, order.outcome)
                        })
                        &&& post.side(consumed_side(order.side), order.outcome)
                            == side_after_trades(
                            pre.side(consumed_side(order.side), order.outcome),
                            res.trades@,
                            order.side == OrderSide::BUY,
                        )
                        &&& trade_trace(
                            pre.side(consumed_side(order.side), order.outcome),
                            res.trades@,
                            order.side,
                            order.quantity - order.filled - cmatch_qty_sum(
                                res.complementary_matches@,
                            ),
                        )
                        &&& (order.side == OrderSide::BUY && order.order_type == OrderType::LIMIT
                            ==> cmatch_trace(
                            pre.bids(order.outcome.spec_opposite()),
                            res.complementary_matches@,
                            order,
                            order.quantity - order.filled,
                        ))
                        &&& (order.order_type == OrderType::MARKET ==> (res.order.filled
                            == order.quantity || (match order.side {
                            OrderSide::BUY => post.asks(order.outcome).len() == 0,
                            OrderSide::SELL => post.bids(order.outcome).len() == 0,
                        })))
                        &&& (order.order_type == OrderType::LIMIT ==> (res.order.filled
                            == order.quantity || (no_secondary_cross(
                            post,
                            order.side,
                            order.outcome,
                            order.price,
                        ) && (order.side == OrderSide::BUY ==> no_compl_candidate(
                            post.bids(order.outcome.spec_opposite()),
                            order.user_id@,
                            order.price,
                        )))))
                    },
                }
            }),
    {
        let ghost pre_reg = *self;
        let i = self.get_or_create(&order.market_id);
        let ghost mid_books = self.books@;
        let book = self.books.remove(i);
        proof {
            let m = order.market_id@;
            assert(mid_books[i as int].wf());
            if pre_reg.has_market(m) {
                assert(mid_books == pre_reg.books@);
                assert(!(pre_reg.books@[i as int])@.orders.contains_key(order.order_id));
                assert(book@ == pre_reg.books@[i as int]@);
            } else {
                assert(book@ == empty_book_view(m));
                assert(!book@.orders.contains_key(order.order_id));
            }
        }
        let mut matcher = Matcher::new(book);
        let result = matcher.place_order(order);
        self.books.insert(i, matcher.orderbook);
        proof {
            assert(self.books@ =~= mid_books.update(i as int, self.books@[i as int]));
            let m = order.market_id@;
            assert(book@ == mid_books[i as int]@);
            if pre_reg.has_market(m) {
                pre_reg.lemma_market_book_at(m, i as int);
                assert(book@ == pre_reg.book_before(m));
            } else {
                assert(book@ == empty_book_view(m));
                assert(book@ == pre_reg.book_before(m));
            }
            assert forall|a: int, b: int|
                0 <= a < b < self.books@.len() implies (#[trigger] self.books@[a])@.market_id != (
            #[trigger] self.books@[b])@.market_id by {
                if a != i {
                    assert(self.books@[a] == mid_books[a]);
                }
                if b != i {
                    assert(self.books@[b] == mid_books[b]);
                }
                assert(self.books@[i as int]@.market_id == mid_books[i as int]@.market_id);
            }
            assert forall|a: int| 0 <= a < self.books@.len() implies (
            #[trigger] self.books@[a]).wf() by {
                if a != i {
                    assert(self.books@[a] == mid_books[a]);
                }
            }
            assert(self.books@[i as int]@.market_id == m);
            self.lemma_market_book_at(m, i as int);
            assert(self.market_book(m) == matcher.orderbook@);
            assert forall|m2: Seq<char>|
                m2 != m implies ((#[trigger] self.has_market(m2)) == pre_reg.has_market(m2) && (
            pre_reg.has_market(m2) ==> self.market_book(m2) == pre_reg.market_book(m2))) by {
                if pre_reg.has_market(m2) {
                    let j = choose|j: int|
                        0 <= j < pre_reg.books@.len() && (#[trigger] pre_reg.books@[j])@.market_id
                            == m2;
                    assert(mid_books[j] == pre_reg.books@[j]);
                    assert(j != i);
                    assert(self.books@[j] == pre_reg.books@[j]);
                    pre_reg.lemma_market_book_at(m2, j);
                    self.lemma_market_book_at(m2, j);
                }
                if self.has_market(m2) {
                    let j = choose|j: int|
                        0 <= j < self.books@.len() && (#[trigger] self.books@[j])@.market_id == m2;
                    assert(j != i);
                    assert(self.books@[j] == mid_books[j]);
                    if j < pre_reg.books@.len() {
                        assert(mid_books[j] == pre_reg.books@[j]);
                        assert(pre_reg.has_market(m2));
                    } else {
                        assert(mid_books[j]@.market_id == m);
                    }
                }
            }
        }
        result
    }
}

} // verus!
