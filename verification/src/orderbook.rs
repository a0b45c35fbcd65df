//! The per-market order book: four price-ordered sides (YES/NO bids and
//! asks), each a sequence of FIFO price levels, plus an id-indexed map of
//! every resting order.
//!
//! Book invariants, established by the constructor and preserved by every
//! operation:
//!  - levels on a side are sorted by strictly increasing price;
//!  - no level has an empty queue;
//!  - every queued order matches its side, outcome and level price, is
//!    well formed, and has remaining quantity greater than zero;
//!  - order ids are unique within a queue;
//!  - every queued order is registered in the id index under its id, and
//!    every indexed order rests in some queue.

use vstd::prelude::*;

verus! {

use std::collections::HashMap;
use crate::PRICE_ONE;
use crate::order::{Order, OrderSide, Outcome};

broadcast use vstd::std_specs::hash::group_hash_axioms;

/// One price level: a FIFO queue of resting orders sharing one price.
#[derive(Debug)]
pub struct Level {
    pub price: u64,
    pub queue: Vec<Order>,
}

/// The mathematical image of a price level.
#[verifier::ext_equal]
pub struct LevelView {
    pub price: u64,
    pub queue: Seq<Order>,
}

impl View for Level {
    type V = LevelView;

    open spec fn view(&self) -> LevelView {
        LevelView { price: self.price, queue: self.queue@ }
    }
}

pub open spec fn levels_view(s: Seq<Level>) -> Seq<LevelView> {
    s.map_values(|l: Level| l@)
}

/// What it means for an order to rest in a queue of the given side, outcome
/// and price: well formed, correctly tagged, and not yet fully filled.
pub open spec fn slot_wf(o: Order, price: u64, side: OrderSide, outcome: Outcome) -> bool {
    &&& o.wf()
    &&& o.side == side
    &&& o.outcome == outcome
    &&& o.price == price
    &&& o.filled < o.quantity
}

/// Well-formedness of one side of the book.
pub open spec fn side_wf(s: Seq<LevelView>, side: OrderSide, outcome: Outcome) -> bool {
    &&& forall|i: int, j: int|
        0 <= i < j < s.len() ==> (#[trigger] s[i]).price < (#[trigger] s[j]).price
    &&& forall|i: int| 0 <= i < s.len() ==> (#[trigger] s[i]).queue.len() > 0
    &&& forall|i: int, j: int|
        0 <= i < s.len() && 0 <= j < s[i].queue.len() ==> slot_wf(
            #[trigger] s[i].queue[j],
            s[i].price,
            side,
            outcome,
        )
    &&& forall|i: int, j1: int, j2: int|
        0 <= i < s.len() && 0 <= j1 < j2 < s[i].queue.len() ==> (#[trigger] s[i].queue[j1]).order_id
            != (#[trigger] s[i].queue[j2]).order_id
}

/// Every order queued on this side is registered in the id index under its
/// own id, with the very same fields.
pub open spec fn side_in_index(s: Seq<LevelView>, idx: Map<u128, Order>) -> bool {
    forall|i: int, j: int|
        0 <= i < s.len() && 0 <= j < s[i].queue.len() ==> {
            let o = #[trigger] s[i].queue[j];
            idx.contains_key(o.order_id) && idx[o.order_id] == o
        }
}

/// Some queue on this side holds an order with this id.
pub open spec fn side_contains_id(s: Seq<LevelView>, id: u128) -> bool {
    exists|i: int, j: int|
        0 <= i < s.len() && 0 <= j < s[i].queue.len() && (#[trigger] s[i].queue[j]).order_id == id
}

/// The mathematical image of a whole book.
#[verifier::ext_equal]
pub struct BookView {
    pub market_id: Seq<char>,
    pub yes_bids: Seq<LevelView>,
    pub yes_asks: Seq<LevelView>,
    pub no_bids: Seq<LevelView>,
    pub no_asks: Seq<LevelView>,
    pub orders: Map<u128, Order>,
}

impl BookView {
    pub open spec fn bids(self, outcome: Outcome) -> Seq<LevelView> {
        match outcome {
            Outcome::YES => self.yes_bids,
            Outcome::NO => self.no_bids,
        }
    }

    pub open spec fn asks(self, outcome: Outcome) -> Seq<LevelView> {
        match outcome {
            Outcome::YES => self.yes_asks,
            Outcome::NO => self.no_asks,
        }
    }

    /// The side a `(side, outcome)` order rests on.
    pub open spec fn side(self, side: OrderSide, outcome: Outcome) -> Seq<LevelView> {
        match side {
            OrderSide::BUY => self.bids(outcome),
            OrderSide::SELL => self.asks(outcome),
        }
    }

    /// This view with one side replaced.
    pub open spec fn with_side(
        self,
        side: OrderSide,
        outcome: Outcome,
        s: Seq<LevelView>,
    ) -> BookView {
        match (side, outcome) {
            (OrderSide::BUY, Outcome::YES) => (BookView { yes_bids: s, ..self }),
            (OrderSide::SELL, Outcome::YES) => (BookView { yes_asks: s, ..self }),
            (OrderSide::BUY, Outcome::NO) => (BookView { no_bids: s, ..self }),
            (OrderSide::SELL, Outcome::NO) => (BookView { no_asks: s, ..self }),
        }
    }

    /// This view with the id index replaced.
    pub open spec fn with_orders(self, m: Map<u128, Order>) -> BookView {
        BookView { orders: m, ..self }
    }

    /// The id rests in some queue of this book.
    pub open spec fn id_somewhere(self, id: u128) -> bool {
        ||| side_contains_id(self.yes_bids, id)
        ||| side_contains_id(self.yes_asks, id)
        ||| side_contains_id(self.no_bids, id)
        ||| side_contains_id(self.no_asks, id)
    }

    pub open spec fn wf(self) -> bool {
        &&& side_wf(self.yes_bids, OrderSide::BUY, Outcome::YES)
        &&& side_wf(self.yes_asks, OrderSide::SELL, Outcome::YES)
        &&& side_wf(self.no_bids, OrderSide::BUY, Outcome::NO)
        &&& side_wf(self.no_asks, OrderSide::SELL, Outcome::NO)
        &&& side_in_index(self.yes_bids, self.orders)
        &&& side_in_index(self.yes_asks, self.orders)
        &&& side_in_index(self.no_bids, self.orders)
        &&& side_in_index(self.no_asks, self.orders)
        &&& forall|id: u128| #[trigger] self.orders.contains_key(id) ==> self.id_somewhere(id)
    }
}

/// The image of a book that holds nothing yet.
pub open spec fn empty_book_view(m: Seq<char>) -> BookView {
    BookView {
        market_id: m,
        yes_bids: Seq::empty(),
        yes_asks: Seq::empty(),
        no_bids: Seq::empty(),
        no_asks: Seq::empty(),
        orders: Map::empty(),
    }
}

/// The best bid is the last (highest-priced) bid level, if any.
pub open spec fn spec_best_bid(bv: BookView, outcome: Outcome) -> Option<u64> {
    let s = bv.bids(outcome);
    if s.len() == 0 {
        None
    } else {
        Some(s[s.len() - 1].price)
    }
}

/// The best ask is the first (lowest-priced) ask level, if any.
pub open spec fn spec_best_ask(bv: BookView, outcome: Outcome) -> Option<u64> {
    let s = bv.asks(outcome);
    if s.len() == 0 {
        None
    } else {
        Some(s[0].price)
    }
}

/// Some order of `user` rests on this side at a level priced at or below
/// `price`.
pub open spec fn side_has_user_at_or_below(s: Seq<LevelView>, user: Seq<char>, price: u64) -> bool {
    exists|i: int, j: int|
        0 <= i < s.len() && 0 <= j < s[i].queue.len() && s[i].price <= price && (
        #[trigger] s[i].queue[j]).user_id@ == user
}

/// Some order of `user` rests on this side at a level priced at or above
/// `price`.
pub open spec fn side_has_user_at_or_above(s: Seq<LevelView>, user: Seq<char>, price: u64) -> bool {
    exists|i: int, j: int|
        0 <= i < s.len() && 0 <= j < s[i].queue.len() && s[i].price >= price && (
        #[trigger] s[i].queue[j]).user_id@ == user
}

/// A new order by `user` at `price` would cross a resting order of the same
/// user: for a BUY, some ask at or below `price` is theirs; for a SELL, some
/// bid at or above `price` is.
pub open spec fn spec_would_self_trade(
    bv: BookView,
    user: Seq<char>,
    side: OrderSide,
    outcome: Outcome,
    price: u64,
) -> bool {
    match side {
        OrderSide::BUY => side_has_user_at_or_below(bv.asks(outcome), user, price),
        OrderSide::SELL => side_has_user_at_or_above(bv.bids(outcome), user, price),
    }
}

/// Total remaining quantity of the orders in a queue.
pub open spec fn queue_qty(q: Seq<Order>) -> int
    decreases q.len(),
{
    if q.len() == 0 {
        0
    } else {
        queue_qty(q.drop_last()) + q.last().spec_remaining()
    }
}

/// One aggregated price level of a depth snapshot.
#[derive(Debug, Clone, Copy, PartialEq, Eq, Structural)]
pub struct PriceLevelSummary {
    pub price: u64,
    pub quantity: u128,
    pub order_count: usize,
}

/// The top levels of both sides of one outcome's book.
#[derive(Debug)]
pub struct OrderbookDepth {
    pub bids: Vec<PriceLevelSummary>,
    pub asks: Vec<PriceLevelSummary>,
}

/// A side after the order with `id` leaves the queue at `price`: that one
/// entry is removed and the level is dropped when it empties. Unchanged
/// when no such level or entry exists.
pub open spec fn levels_remove_id(s: Seq<LevelView>, price: u64, id: u128) -> Seq<LevelView> {
    let i = find_pos(s, price);
    if i < s.len() && s[i].price == price {
        let q = s[i].queue;
        if exists|j: int| 0 <= j < q.len() && (#[trigger] q[j]).order_id == id {
            let j = choose|j: int| 0 <= j < q.len() && (#[trigger] q[j]).order_id == id;
            if q.len() == 1 {
                s.remove(i)
            } else {
                s.update(i, LevelView { price, queue: q.remove(j) })
            }
        } else {
            s
        }
    } else {
        s
    }
}

/// The aggregate of one price level.
fn level_summary(lvl: &Level) -> (r: PriceLevelSummary)
    requires
        forall|j: int|
            0 <= j < lvl.queue@.len() ==> (#[trigger] lvl.queue@[j]).filled <= lvl.queue@[
                j
            ].quantity,
    ensures
        r.price == lvl.price,
        r.quantity == queue_qty(lvl.queue@),
        r.order_count == lvl.queue@.len(),
{
    let ghost q = lvl.queue@;
    let mut total: u128 = 0;
    let mut j: usize = 0;
    while j < lvl.queue.len()
        invariant
            j <= q.len(),
            q == lvl.queue@,
            forall|k: int| 0 <= k < q.len() ==> (#[trigger] q[k]).filled <= q[k].quantity,
            total == queue_qty(q.take(j as int)),
            total <= (j as int) * 0xFFFF_FFFF_FFFF_FFFFu64,
        decreases q.len() - j,
    {
        proof {
            assert(q.take(j + 1).drop_last() =~= q.take(j as int));
            assert(q.take(j + 1).last() == q[j as int]);
            assert((j as int) * 0xFFFF_FFFF_FFFF_FFFFu64 + 0xFFFF_FFFF_FFFF_FFFFu64 == (j + 1)
                * 0xFFFF_FFFF_FFFF_FFFFu64) by (nonlinear_arith);
            assert((j + 1) * 0xFFFF_FFFF_FFFF_FFFFu64 <= 0xFFFF_FFFF_FFFF_FFFFu64 * (
            0xFFFF_FFFF_FFFF_FFFFu64 as int)) by (nonlinear_arith)
                requires
                    0 <= j + 1 <= 0xFFFF_FFFF_FFFF_FFFFu64,
            ;
        }
        total = total + (lvl.queue[j].remaining() as u128);
        j = j + 1;
    }
    proof {
        assert(q.take(q.len() as int) =~= q);
    }
    PriceLevelSummary { price: lvl.price, quantity: total, order_count: lvl.queue.len() }
}

pub struct OrderBook {
    pub market_id: String,
    pub yes_bids: Vec<Level>,
    pub yes_asks: Vec<Level>,
    pub no_bids: Vec<Level>,
    pub no_asks: Vec<Level>,
    pub orders: HashMap<u128, Order>,
}

impl View for OrderBook {
    type V = BookView;

    open spec fn view(&self) -> BookView {
        BookView {
            market_id: self.market_id@,
            yes_bids: levels_view(self.yes_bids@),
            yes_asks: levels_view(self.yes_asks@),
            no_bids: levels_view(self.no_bids@),
            no_asks: levels_view(self.no_asks@),
            orders: self.orders@,
        }
    }
}

impl OrderBook {
    pub open spec fn wf(self) -> bool {
        self@.wf()
    }

    /// An empty book for the given market.
    pub fn new(market_id: String) -> (r: OrderBook)
        ensures
            r.wf(),
            r@ == empty_book_view(market_id@),
            r@.market_id == market_id@,
            r@.yes_bids.len() == 0,
            r@.yes_asks.len() == 0,
            r@.no_bids.len() == 0,
            r@.no_asks.len() == 0,
            r@.orders == Map::<u128, Order>::empty(),
    {
        let r = OrderBook {
            market_id,
            yes_bids: Vec::new(),
            yes_asks: Vec::new(),
            no_bids: Vec::new(),
            no_asks: Vec::new(),
            orders: HashMap::new(),
        };
        proof {
            assert(levels_view(r.yes_bids@) =~= Seq::<LevelView>::empty());
            assert(levels_view(r.yes_asks@) =~= Seq::<LevelView>::empty());
            assert(levels_view(r.no_bids@) =~= Seq::<LevelView>::empty());
            assert(levels_view(r.no_asks@) =~= Seq::<LevelView>::empty());
            assert(r@ =~= empty_book_view(r.market_id@));
        }
        r
    }

    fn bids_ref(&self, outcome: Outcome) -> (r: &Vec<Level>)
        ensures
            levels_view(r@) == self@.bids(outcome),
    {
        match outcome {
            Outcome::YES => &self.yes_bids,
            Outcome::NO => &self.no_bids,
        }
    }

    fn asks_ref(&self, outcome: Outcome) -> (r: &Vec<Level>)
        ensures
            levels_view(r@) == self@.asks(outcome),
    {
        match outcome {
            Outcome::YES => &self.yes_asks,
            Outcome::NO => &self.no_asks,
        }
    }

    /// Highest bid price with a non-empty queue, if any level rests.
    pub fn best_bid(&self, outcome: Outcome) -> (r: Option<u64>)
        ensures
            r == spec_best_bid(self@, outcome),
    {
        let bids = self.bids_ref(outcome);
        if bids.len() == 0 {
            None
        } else {
            Some(bids[bids.len() - 1].price)
        }
    }

    /// Lowest ask price with a non-empty queue, if any level rests.
    pub fn best_ask(&self, outcome: Outcome) -> (r: Option<u64>)
        ensures
            r == spec_best_ask(self@, outcome),
    {
        let asks = self.asks_ref(outcome);
        if asks.len() == 0 {
            None
        } else {
            Some(asks[0].price)
        }
    }

    /// The front order of the best ask level, cloned, without mutation.
    pub fn peek_best_ask(&self, outcome: Outcome) -> (r: Option<Order>)
        requires
            self.wf(),
        ensures
            (match r {
                Some(o) => self@.asks(outcome).len() > 0 && o == self@.asks(outcome)[0].queue[0],
                None => self@.asks(outcome).len() == 0,
            }),
    {
        let asks = self.asks_ref(outcome);
        if asks.len() == 0 {
            None
        } else {
            Some(asks[0].queue[0].clone())
        }
    }

    /// The front order of the best bid level, cloned, without mutation.
    pub fn peek_best_bid(&self, outcome: Outcome) -> (r: Option<Order>)
        requires
            self.wf(),
        ensures
            (match r {
                Some(o) => self@.bids(outcome).len() > 0 && o == self@.bids(outcome)[
                    self@.bids(outcome).len() - 1
                ].queue[0],
                None => self@.bids(outcome).len() == 0,
            }),
    {
        let bids = self.bids_ref(outcome);
        if bids.len() == 0 {
            None
        } else {
            Some(bids[bids.len() - 1].queue[0].clone())
        }
    }
}

/// Index of the first level whose price is at least `price`; the length if
/// every level is cheaper. On a sorted side this is where `price` belongs.
pub open spec fn find_pos(s: Seq<LevelView>, price: u64) -> int
    decreases s.len(),
{
    if s.len() == 0 {
        0
    } else if s[0].price < price {
        1 + find_pos(s.drop_first(), price)
    } else {
        0
    }
}

proof fn lemma_find_pos_at(s: Seq<LevelView>, price: u64, i: int)
    requires
        0 <= i <= s.len(),
        forall|k: int| 0 <= k < i ==> (#[trigger] s[k]).price < price,
        i < s.len() ==> s[i].price >= price,
    ensures
        find_pos(s, price) == i,
    decreases i,
{
    if i == 0 {
    } else {
        assert(s[0].price < price);
        let t = s.drop_first();
        assert forall|k: int| 0 <= k < i - 1 implies (#[trigger] t[k]).price < price by {
            assert(t[k] == s[k + 1]);
        }
        assert(i - 1 < t.len() ==> t[i - 1].price >= price);
        lemma_find_pos_at(t, price, i - 1);
    }
}

/// A side after an order is queued at its price: appended to the back of an
/// existing level's queue (or, for `front`, put at its front), or opening a
/// fresh level in sorted position.
pub open spec fn levels_add(s: Seq<LevelView>, o: Order, front: bool) -> Seq<LevelView> {
    let i = find_pos(s, o.price);
    if i < s.len() && s[i].price == o.price {
        let q = if front {
            seq![o] + s[i].queue
        } else {
            s[i].queue.push(o)
        };
        s.update(i, LevelView { price: s[i].price, queue: q })
    } else {
        s.insert(i, LevelView { price: o.price, queue: seq![o] })
    }
}

/// A side after the front order of the level at position `i` leaves: the
/// level disappears when that order was alone in it.
pub open spec fn levels_pop_at(s: Seq<LevelView>, i: int) -> Seq<LevelView> {
    if s[i].queue.len() == 1 {
        s.remove(i)
    } else {
        s.update(i, LevelView { price: s[i].price, queue: s[i].queue.drop_first() })
    }
}

/// On a well-formed, index-synced side, no other slot shares the id of the
/// order at `(pi, pj)`.
proof fn lemma_slot_id_unique(
    s: Seq<LevelView>,
    side: OrderSide,
    outcome: Outcome,
    idx: Map<u128, Order>,
    pi: int,
    pj: int,
)
    requires
        side_wf(s, side, outcome),
        side_in_index(s, idx),
        0 <= pi < s.len(),
        0 <= pj < s[pi].queue.len(),
    ensures
        forall|i: int, j: int|
            0 <= i < s.len() && 0 <= j < s[i].queue.len() && (i != pi || j != pj) ==> (
            #[trigger] s[i].queue[j]).order_id != s[pi].queue[pj].order_id,
{
    let p = s[pi].queue[pj];
    assert forall|i: int, j: int|
        0 <= i < s.len() && 0 <= j < s[i].queue.len() && (i != pi || j != pj) implies (
    #[trigger] s[i].queue[j]).order_id != p.order_id by {
        let o = s[i].queue[j];
        if o.order_id == p.order_id {
            assert(idx[o.order_id] == o);
            assert(idx[p.order_id] == p);
            assert(o == p);
            assert(o.price == s[i].price);
            assert(p.price == s[pi].price);
            if i < pi {
                assert(s[i].price < s[pi].price);
            } else if i > pi {
                assert(s[pi].price < s[i].price);
            } else {
                if j < pj {
                    assert(s[i].queue[j].order_id != s[pi].queue[pj].order_id);
                } else {
                    assert(s[pi].queue[pj].order_id != s[i].queue[j].order_id);
                }
            }
        }
    }
}

/// Inserting a fresh id into the index disturbs no side that is synced
/// with it.
proof fn lemma_sync_insert_foreign(
    s: Seq<LevelView>,
    idx: Map<u128, Order>,
    id: u128,
    o: Order,
)
    requires
        side_in_index(s, idx),
        !idx.contains_key(id),
    ensures
        side_in_index(s, idx.insert(id, o)),
{
}

/// Removing an id whose indexed order is tagged for another side disturbs
/// no side that is synced with the index.
proof fn lemma_sync_remove_foreign(
    s: Seq<LevelView>,
    side: OrderSide,
    outcome: Outcome,
    idx: Map<u128, Order>,
    id: u128,
)
    requires
        side_wf(s, side, outcome),
        side_in_index(s, idx),
        idx.contains_key(id) ==> !(idx[id].side == side && idx[id].outcome == outcome),
    ensures
        side_in_index(s, idx.remove(id)),
{
    assert forall|i: int, j: int| 0 <= i < s.len() && 0 <= j < s[i].queue.len() implies {
        let o = #[trigger] s[i].queue[j];
        idx.remove(id).contains_key(o.order_id) && idx.remove(id)[o.order_id] == o
    } by {
        let o = s[i].queue[j];
        assert(slot_wf(o, s[i].price, side, outcome));
        assert(idx[o.order_id] == o);
        if o.order_id == id {
            assert(idx[id].side == side && idx[id].outcome == outcome);
        }
    }
}

/// When one side of a book changes without losing any slot whose id the new
/// index still holds, the index stays covered by the queues.
proof fn lemma_covered_one_side(pre: BookView, post: BookView, side: OrderSide, outcome: Outcome)
    requires
        forall|s2: OrderSide, o2: Outcome|
            !(s2 == side && o2 == outcome) ==> post.side(s2, o2) == pre.side(s2, o2),
        forall|id: u128| #[trigger] pre.orders.contains_key(id) ==> pre.id_somewhere(id),
        forall|id: u128|
            #[trigger] post.orders.contains_key(id) ==> pre.orders.contains_key(id)
                || side_contains_id(post.side(side, outcome), id),
        forall|id: u128|
            #[trigger] post.orders.contains_key(id) && side_contains_id(
                pre.side(side, outcome),
                id,
            ) ==> side_contains_id(post.side(side, outcome), id),
    ensures
        forall|id: u128| #[trigger] post.orders.contains_key(id) ==> post.id_somewhere(id),
{
    assert forall|id: u128| #[trigger] post.orders.contains_key(id) implies post.id_somewhere(
        id,
    ) by {
        assert(!(OrderSide::BUY == side && Outcome::YES == outcome) ==> post.side(
            OrderSide::BUY,
            Outcome::YES,
        ) == pre.side(OrderSide::BUY, Outcome::YES));
        assert(!(OrderSide::SELL == side && Outcome::YES == outcome) ==> post.side(
            OrderSide::SELL,
            Outcome::YES,
        ) == pre.side(OrderSide::SELL, Outcome::YES));
        assert(!(OrderSide::BUY == side && Outcome::NO == outcome) ==> post.side(
            OrderSide::BUY,
            Outcome::NO,
        ) == pre.side(OrderSide::BUY, Outcome::NO));
        assert(!(OrderSide::SELL == side && Outcome::NO == outcome) ==> post.side(
            OrderSide::SELL,
            Outcome::NO,
        ) == pre.side(OrderSide::SELL, Outcome::NO));
        if !side_contains_id(post.side(side, outcome), id) {
            assert(pre.orders.contains_key(id));
            assert(pre.id_somewhere(id));
            assert(!side_contains_id(pre.side(side, outcome), id));
        }
    }
}

/// Scan for the first level whose price is at least `price`.
fn find_level(levels: &Vec<Level>, price: u64) -> (i: usize)
    ensures
        i == find_pos(levels_view(levels@), price),
        i <= levels@.len(),
        forall|k: int| 0 <= k < i ==> (#[trigger] levels_view(levels@)[k]).price < price,
        i < levels@.len() ==> levels_view(levels@)[i as int].price >= price,
{
    let ghost s = levels_view(levels@);
    let mut i: usize = 0;
    while i < levels.len() && levels[i].price < price
        invariant
            i <= levels@.len(),
            s == levels_view(levels@),
            forall|k: int| 0 <= k < i ==> (#[trigger] s[k]).price < price,
        decreases levels@.len() - i,
    {
        proof {
            assert(s[i as int] == levels@[i as int]@);
        }
        i = i + 1;
    }
    proof {
        assert(i < levels@.len() ==> s[i as int] == levels@[i as int]@);
        lemma_find_pos_at(s, price, i as int);
    }
    i
}

/// Queue `o` on one side and register it in the index.
fn side_insert(
    levels: &mut Vec<Level>,
    idx: &mut HashMap<u128, Order>,
    o: Order,
    front: bool,
    Ghost(side): Ghost<OrderSide>,
    Ghost(outcome): Ghost<Outcome>,
)
    requires
        side_wf(levels_view(old(levels)@), side, outcome),
        side_in_index(levels_view(old(levels)@), old(idx)@),
        slot_wf(o, o.price, side, outcome),
        !old(idx)@.contains_key(o.order_id),
    ensures
        levels_view(final(levels)@) == levels_add(levels_view(old(levels)@), o, front),
        final(idx)@ == old(idx)@.insert(o.order_id, o),
        side_wf(levels_view(final(levels)@), side, outcome),
        side_in_index(levels_view(final(levels)@), final(idx)@),
{
    let ghost s = levels_view(levels@);
    let i = find_level(levels, o.price);
    if i < levels.len() && levels[i].price == o.price {
        if front {
            levels[i].queue.insert(0, o.clone());
        } else {
            levels[i].queue.push(o.clone());
        }
        proof {
            let q = if front {
                seq![o] + s[i as int].queue
            } else {
                s[i as int].queue.push(o)
            };
            assert(levels@[i as int]@.queue =~= q);
            assert(levels_view(levels@) =~= s.update(
                i as int,
                LevelView { price: s[i as int].price, queue: q },
            ));
        }
    } else {
        let mut q: Vec<Order> = Vec::new();
        q.push(o.clone());
        levels.insert(i, Level { price: o.price, queue: q });
        proof {
            assert(levels@[i as int]@.queue =~= seq![o]);
            assert(levels_view(levels@) =~= s.insert(
                i as int,
                LevelView { price: o.price, queue: seq![o] },
            ));
        }
    }
    idx.insert(o.order_id, o);
    proof {
        lemma_levels_add_wf(s, o, front, side, outcome, old(idx)@);
        lemma_levels_add_sync(s, o, front, side, outcome, old(idx)@);
    }
}

/// The index stays in sync with a side through `levels_add` of a fresh
/// order, once the order is registered.
proof fn lemma_levels_add_sync(
    s: Seq<LevelView>,
    o: Order,
    front: bool,
    side: OrderSide,
    outcome: Outcome,
    idx: Map<u128, Order>,
)
    requires
        side_wf(s, side, outcome),
        side_in_index(s, idx),
        slot_wf(o, o.price, side, outcome),
        !idx.contains_key(o.order_id),
    ensures
        side_in_index(levels_add(s, o, front), idx.insert(o.order_id, o)),
{
    let t = levels_add(s, o, front);
    let m = idx.insert(o.order_id, o);
    assert forall|ii: int, jj: int|
        0 <= ii < t.len() && 0 <= jj < t[ii].queue.len() implies {
        let oo = #[trigger] t[ii].queue[jj];
        m.contains_key(oo.order_id) && m[oo.order_id] == oo
    } by {
        slot_cases(s, o, front, ii, jj);
        let oo = t[ii].queue[jj];
        let p = find_pos(s, o.price);
        lemma_find_pos_props(s, o.price);
        if p < s.len() && s[p].price == o.price {
            if ii == p {
                if front {
                    if jj != 0 {
                        assert(oo == s[ii].queue[jj - 1]);
                        assert(idx[oo.order_id] == oo);
                    }
                } else {
                    if jj != s[ii].queue.len() {
                        assert(oo == s[ii].queue[jj]);
                        assert(idx[oo.order_id] == oo);
                    }
                }
            } else {
                assert(oo == s[ii].queue[jj]);
                assert(idx[oo.order_id] == oo);
            }
        } else {
            if ii < p {
                assert(oo == s[ii].queue[jj]);
                assert(idx[oo.order_id] == oo);
            } else if ii > p {
                assert(oo == s[ii - 1].queue[jj]);
                assert(idx[oo.order_id] == oo);
            }
        }
        if oo != o {
            assert(idx.contains_key(oo.order_id) && idx[oo.order_id] == oo);
            assert(oo.order_id != o.order_id);
        }
    }
}

/// Definitional facts about `find_pos`: everything before it is cheaper,
/// and the level at it (when there is one) is not cheaper.
proof fn lemma_find_pos_props(s: Seq<LevelView>, price: u64)
    ensures
        0 <= find_pos(s, price) <= s.len(),
        forall|k: int| 0 <= k < find_pos(s, price) ==> (#[trigger] s[k]).price < price,
        find_pos(s, price) < s.len() ==> s[find_pos(s, price)].price >= price,
    decreases s.len(),
{
    if s.len() == 0 {
    } else if s[0].price < price {
        let t = s.drop_first();
        lemma_find_pos_props(t, price);
        assert forall|k: int| 0 <= k < find_pos(s, price) implies (#[trigger] s[k]).price
            < price by {
            if k > 0 {
                assert(t[k - 1] == s[k]);
            }
        }
        assert(find_pos(s, price) < s.len() ==> s[find_pos(s, price)] == t[find_pos(t, price)]);
    } else {
    }
}

/// `levels_add` preserves side well-formedness when the order is fresh.
proof fn lemma_levels_add_wf(
    s: Seq<LevelView>,
    o: Order,
    front: bool,
    side: OrderSide,
    outcome: Outcome,
    idx: Map<u128, Order>,
)
    requires
        side_wf(s, side, outcome),
        side_in_index(s, idx),
        slot_wf(o, o.price, side, outcome),
        !idx.contains_key(o.order_id),
    ensures
        side_wf(levels_add(s, o, front), side, outcome),
{
    let t = levels_add(s, o, front);
    let p = find_pos(s, o.price);
    lemma_find_pos_props(s, o.price);
    assert forall|i: int, j: int|
        0 <= i < j < t.len() implies (#[trigger] t[i]).price < (#[trigger] t[j]).price by {
        if p < s.len() && s[p].price == o.price {
            assert(t[i].price == s[i].price);
            assert(t[j].price == s[j].price);
        } else {
            if j < p {
            } else if i < p && j == p {
                assert(t[i].price == s[i].price);
            } else if i < p && j > p {
                assert(t[i].price == s[i].price);
                assert(t[j].price == s[j - 1].price);
                if j - 1 == p {
                    assert(s[p].price >= o.price);
                } else {
                    assert(s[i].price < s[j - 1].price);
                }
            } else if i == p {
                assert(t[i].price == o.price);
                assert(t[j].price == s[j - 1].price);
                assert(j - 1 >= p && p < s.len());
                assert(s[p].price >= o.price && s[p].price != o.price);
                if j - 1 > p {
                    assert(s[p].price < s[j - 1].price);
                }
            } else {
                assert(t[i].price == s[i - 1].price && t[j].price == s[j - 1].price);
            }
        }
    }
    assert forall|i: int, j: int|
        0 <= i < t.len() && 0 <= j < t[i].queue.len() implies slot_wf(
        #[trigger] t[i].queue[j],
        t[i].price,
        side,
        outcome,
    ) by {
        slot_cases(s, o, front, i, j);
    }
    assert forall|i: int, j1: int, j2: int|
        0 <= i < t.len() && 0 <= j1 < j2 < t[i].queue.len() implies (
    #[trigger] t[i].queue[j1]).order_id != (#[trigger] t[i].queue[j2]).order_id by {
        slot_cases(s, o, front, i, j1);
        slot_cases(s, o, front, i, j2);
        if p < s.len() && s[p].price == o.price && i == p {
            if front {
                if j1 == 0 {
                    assert(t[i].queue[j2] == s[i].queue[j2 - 1]);
                    assert(idx.contains_key(s[i].queue[j2 - 1].order_id));
                } else {
                    assert(t[i].queue[j1] == s[i].queue[j1 - 1]);
                    assert(t[i].queue[j2] == s[i].queue[j2 - 1]);
                }
            } else {
                if j2 == s[i].queue.len() {
                    assert(t[i].queue[j1] == s[i].queue[j1]);
                    assert(idx.contains_key(s[i].queue[j1].order_id));
                } else {
                    assert(t[i].queue[j1] == s[i].queue[j1]);
                    assert(t[i].queue[j2] == s[i].queue[j2]);
                }
            }
        }
    }
}

/// Helper for `lemma_levels_add_wf`: each slot of the result is the new
/// order (with the right price) or an old slot of the same level price.
proof fn slot_cases(s: Seq<LevelView>, o: Order, front: bool, i: int, j: int)
    requires
        0 <= i < levels_add(s, o, front).len(),
        0 <= j < levels_add(s, o, front)[i].queue.len(),
    ensures
        ({
            let t = levels_add(s, o, front);
            let p = find_pos(s, o.price);
            if p < s.len() && s[p].price == o.price {
                if i == p {
                    t[i].price == s[i].price && (if front {
                        if j == 0 {
                            t[i].queue[j] == o
                        } else {
                            t[i].queue[j] == s[i].queue[j - 1]
                        }
                    } else {
                        if j == s[i].queue.len() {
                            t[i].queue[j] == o
                        } else {
                            t[i].queue[j] == s[i].queue[j]
                        }
                    })
                } else {
                    t[i] == s[i]
                }
            } else {
                if i < p {
                    t[i] == s[i]
                } else if i == p {
                    t[i].price == o.price && t[i].queue[j] == o
                } else {
                    t[i] == s[i - 1]
                }
            }
        }),
{
    let t = levels_add(s, o, front);
    let p = find_pos(s, o.price);
    lemma_find_pos_props(s, o.price);
    if p < s.len() && s[p].price == o.price {
        if i == p {
            if front {
                assert(t[i].queue == seq![o] + s[i].queue);
                if j == 0 {
                    assert(t[i].queue[0] == o);
                } else {
                    assert(t[i].queue[j] == s[i].queue[j - 1]);
                }
            } else {
                assert(t[i].queue == s[i].queue.push(o));
            }
        } else {
            assert(t[i] == s[i]);
        }
    } else {
        s.insert_ensures(p, LevelView { price: o.price, queue: seq![o] });
        if i < p {
            assert(t[i] == s[i]);
        } else if i == p {
            assert(t[i].queue == seq![o]);
            assert(t[i].queue[j] == o);
        } else {
            assert(t[i] == s[i - 1]);
        }
    }
}

/// Every slot after a front pop is an old slot of the same level price.
pub(crate) proof fn lemma_pop_slot_provenance(s: Seq<LevelView>, li: int, i: int, j: int)
    requires
        0 <= li < s.len(),
        s[li].queue.len() > 0,
        0 <= i < levels_pop_at(s, li).len(),
        0 <= j < levels_pop_at(s, li)[i].queue.len(),
    ensures
        exists|i2: int, j2: int|
            0 <= i2 < s.len() && 0 <= j2 < s[i2].queue.len() && (#[trigger] s[i2].queue[j2])
                == levels_pop_at(s, li)[i].queue[j] && s[i2].price == levels_pop_at(
                s,
                li,
            )[i].price,
{
    let t = levels_pop_at(s, li);
    if s[li].queue.len() == 1 {
        s.remove_ensures(li);
        if i < li {
            assert(t[i] == s[i]);
            assert(s[i].queue[j] == t[i].queue[j] && s[i].price == t[i].price);
        } else {
            assert(t[i] == s[i + 1]);
            assert(s[i + 1].queue[j] == t[i].queue[j] && s[i + 1].price == t[i].price);
        }
    } else {
        if i == li {
            assert(s[li].queue[j + 1] == t[i].queue[j] && s[li].price == t[i].price);
        } else {
            assert(t[i] == s[i]);
            assert(s[i].queue[j] == t[i].queue[j] && s[i].price == t[i].price);
        }
    }
}

/// Every slot after `levels_add` is the added order at its own price, or an
/// old slot of the same level price.
pub(crate) proof fn lemma_add_slot_provenance(
    s: Seq<LevelView>,
    o: Order,
    front: bool,
    i: int,
    j: int,
)
    requires
        0 <= i < levels_add(s, o, front).len(),
        0 <= j < levels_add(s, o, front)[i].queue.len(),
    ensures
        (levels_add(s, o, front)[i].queue[j] == o && levels_add(s, o, front)[i].price == o.price)
            || exists|i2: int, j2: int|
            0 <= i2 < s.len() && 0 <= j2 < s[i2].queue.len() && (#[trigger] s[i2].queue[j2])
                == levels_add(s, o, front)[i].queue[j] && s[i2].price == levels_add(
                s,
                o,
                front,
            )[i].price,
{
    slot_cases(s, o, front, i, j);
    let t = levels_add(s, o, front);
    let p = find_pos(s, o.price);
    lemma_find_pos_props(s, o.price);
    if p < s.len() && s[p].price == o.price {
        if i == p {
            if front {
                if j == 0 {
                    assert(t[i].queue[j] == o && t[i].price == o.price);
                } else {
                    assert(s[i].queue[j - 1] == t[i].queue[j] && s[i].price == t[i].price);
                }
            } else {
                if j == s[i].queue.len() {
                    assert(t[i].queue[j] == o && t[i].price == o.price);
                } else {
                    assert(s[i].queue[j] == t[i].queue[j] && s[i].price == t[i].price);
                }
            }
        } else {
            assert(s[i].queue[j] == t[i].queue[j] && s[i].price == t[i].price);
        }
    } else {
        if i < p {
            assert(s[i].queue[j] == t[i].queue[j] && s[i].price == t[i].price);
        } else if i == p {
            assert(t[i].queue[j] == o && t[i].price == o.price);
        } else {
            assert(s[i - 1].queue[j] == t[i].queue[j] && s[i - 1].price == t[i].price);
        }
    }
}

/// The added order really rests somewhere on the side after `levels_add`.
pub(crate) proof fn lemma_add_contains(s: Seq<LevelView>, o: Order, front: bool)
    ensures
        exists|i: int, j: int|
            0 <= i < levels_add(s, o, front).len() && 0 <= j < levels_add(
                s,
                o,
                front,
            )[i].queue.len() && (#[trigger] levels_add(s, o, front)[i].queue[j]) == o,
{
    let t = levels_add(s, o, front);
    let p = find_pos(s, o.price);
    lemma_find_pos_props(s, o.price);
    if p < s.len() && s[p].price == o.price {
        if front {
            assert(t[p].queue[0] == o);
        } else {
            assert(t[p].queue[s[p].queue.len() as int] == o);
        }
    } else {
        s.insert_ensures(p, LevelView { price: o.price, queue: seq![o] });
        assert(t[p].queue[0] == o);
    }
}

/// Every slot survives `levels_add` unchanged.
proof fn lemma_add_keeps_slot(s: Seq<LevelView>, o: Order, front: bool, i: int, j: int)
    requires
        0 <= i < s.len(),
        0 <= j < s[i].queue.len(),
    ensures
        ({
            let t = levels_add(s, o, front);
            exists|i2: int, j2: int|
                0 <= i2 < t.len() && 0 <= j2 < t[i2].queue.len() && (#[trigger] t[i2].queue[j2])
                    == s[i].queue[j]
        }),
{
    let t = levels_add(s, o, front);
    let p = find_pos(s, o.price);
    lemma_find_pos_props(s, o.price);
    if p < s.len() && s[p].price == o.price {
        if i == p {
            if front {
                assert(t[p].queue == seq![o] + s[p].queue);
                assert(t[p].queue[j + 1] == s[i].queue[j]);
            } else {
                assert(t[p].queue == s[p].queue.push(o));
                assert(t[p].queue[j] == s[i].queue[j]);
            }
        } else {
            assert(t[i].queue[j] == s[i].queue[j]);
        }
    } else {
        s.insert_ensures(p, LevelView { price: o.price, queue: seq![o] });
        if i < p {
            assert(t[i].queue[j] == s[i].queue[j]);
        } else {
            assert(t[i + 1].queue[j] == s[i].queue[j]);
        }
    }
}

/// Every slot but the popped front survives `levels_pop_at` unchanged.
proof fn lemma_pop_keeps_slot(s: Seq<LevelView>, li: int, i: int, j: int)
    requires
        0 <= li < s.len(),
        s[li].queue.len() > 0,
        0 <= i < s.len(),
        0 <= j < s[i].queue.len(),
        !(i == li && j == 0),
    ensures
        ({
            let t = levels_pop_at(s, li);
            exists|i2: int, j2: int|
                0 <= i2 < t.len() && 0 <= j2 < t[i2].queue.len() && (#[trigger] t[i2].queue[j2])
                    == s[i].queue[j]
        }),
{
    let t = levels_pop_at(s, li);
    if s[li].queue.len() == 1 {
        s.remove_ensures(li);
        if i < li {
            assert(t[i].queue[j] == s[i].queue[j]);
        } else {
            assert(i > li);
            assert(t[i - 1].queue[j] == s[i].queue[j]);
        }
    } else {
        if i == li {
            assert(t[li].queue[j - 1] == s[i].queue[j]);
        } else {
            assert(t[i].queue[j] == s[i].queue[j]);
        }
    }
}

/// Every slot with a different id survives `levels_remove_id` unchanged.
proof fn lemma_remove_id_keeps_slot(s: Seq<LevelView>, price: u64, id: u128, i: int, j: int)
    requires
        0 <= i < s.len(),
        0 <= j < s[i].queue.len(),
        s[i].queue[j].order_id != id,
    ensures
        ({
            let t = levels_remove_id(s, price, id);
            exists|i2: int, j2: int|
                0 <= i2 < t.len() && 0 <= j2 < t[i2].queue.len() && (#[trigger] t[i2].queue[j2])
                    == s[i].queue[j]
        }),
{
    let t = levels_remove_id(s, price, id);
    let p = find_pos(s, price);
    lemma_find_pos_props(s, price);
    if p < s.len() && s[p].price == price {
        let q = s[p].queue;
        if exists|jj: int| 0 <= jj < q.len() && (#[trigger] q[jj]).order_id == id {
            let jc = choose|jj: int| 0 <= jj < q.len() && (#[trigger] q[jj]).order_id == id;
            if q.len() == 1 {
                s.remove_ensures(p);
                assert(i != p);
                if i < p {
                    assert(t[i].queue[j] == s[i].queue[j]);
                } else {
                    assert(t[i - 1].queue[j] == s[i].queue[j]);
                }
            } else {
                q.remove_ensures(jc);
                if i == p {
                    assert(j != jc);
                    if j < jc {
                        assert(t[p].queue[j] == s[i].queue[j]);
                    } else {
                        assert(t[p].queue[j - 1] == s[i].queue[j]);
                    }
                } else {
                    assert(t[i].queue[j] == s[i].queue[j]);
                }
            }
        } else {
            assert(t[i].queue[j] == s[i].queue[j]);
        }
    } else {
        assert(t[i].queue[j] == s[i].queue[j]);
    }
}

/// Popping the front order of level `li` keeps a side well formed and in
/// sync with the index once the popped id is deregistered.
proof fn lemma_levels_pop_at(
    s: Seq<LevelView>,
    li: int,
    side: OrderSide,
    outcome: Outcome,
    idx: Map<u128, Order>,
)
    requires
        side_wf(s, side, outcome),
        side_in_index(s, idx),
        0 <= li < s.len(),
    ensures
        side_wf(levels_pop_at(s, li), side, outcome),
        side_in_index(levels_pop_at(s, li), idx.remove(s[li].queue[0].order_id)),
{
    let t = levels_pop_at(s, li);
    let pid = s[li].queue[0].order_id;
    lemma_slot_id_unique(s, side, outcome, idx, li, 0);
    if s[li].queue.len() == 1 {
        s.remove_ensures(li);
        assert forall|i: int, j: int|
            0 <= i < j < t.len() implies (#[trigger] t[i]).price < (#[trigger] t[j]).price by {
            if i < li {
                assert(t[i] == s[i]);
            } else {
                assert(t[i] == s[i + 1]);
            }
            if j < li {
                assert(t[j] == s[j]);
            } else {
                assert(t[j] == s[j + 1]);
            }
        }
        assert forall|i: int| 0 <= i < t.len() implies (#[trigger] t[i]).queue.len() > 0 by {
            if i < li {
                assert(t[i] == s[i]);
            } else {
                assert(t[i] == s[i + 1]);
            }
        }
        assert forall|i: int, j: int|
            0 <= i < t.len() && 0 <= j < t[i].queue.len() implies {
            let o = #[trigger] t[i].queue[j];
            &&& slot_wf(o, t[i].price, side, outcome)
            &&& idx.remove(pid).contains_key(o.order_id)
            &&& idx.remove(pid)[o.order_id] == o
        } by {
            if i < li {
                assert(t[i] == s[i]);
                assert(t[i].queue[j] == s[i].queue[j]);
                assert(s[i].queue[j].order_id != pid);
            } else {
                assert(t[i] == s[i + 1]);
                assert(t[i].queue[j] == s[i + 1].queue[j]);
                assert(s[i + 1].queue[j].order_id != pid);
            }
        }
        assert forall|i: int, j1: int, j2: int|
            0 <= i < t.len() && 0 <= j1 < j2 < t[i].queue.len() implies (
        #[trigger] t[i].queue[j1]).order_id != (#[trigger] t[i].queue[j2]).order_id by {
            if i < li {
                assert(t[i] == s[i]);
            } else {
                assert(t[i] == s[i + 1]);
            }
        }
    } else {
        assert forall|i: int, j: int|
            0 <= i < t.len() && 0 <= j < t[i].queue.len() implies {
            let o = #[trigger] t[i].queue[j];
            &&& slot_wf(o, t[i].price, side, outcome)
            &&& idx.remove(pid).contains_key(o.order_id)
            &&& idx.remove(pid)[o.order_id] == o
        } by {
            if i == li {
                assert(t[i].queue[j] == s[li].queue[j + 1]);
                assert(s[li].queue[j + 1].order_id != pid);
            } else {
                assert(t[i] == s[i]);
                assert(t[i].queue[j] == s[i].queue[j]);
                assert(s[i].queue[j].order_id != pid);
            }
        }
        assert forall|i: int, j1: int, j2: int|
            0 <= i < t.len() && 0 <= j1 < j2 < t[i].queue.len() implies (
        #[trigger] t[i].queue[j1]).order_id != (#[trigger] t[i].queue[j2]).order_id by {
            if i == li {
                assert(t[i].queue[j1] == s[li].queue[j1 + 1]);
                assert(t[i].queue[j2] == s[li].queue[j2 + 1]);
            } else {
                assert(t[i] == s[i]);
            }
        }
    }
}

/// When the id rests nowhere at its own price level, it rests nowhere on
/// the side at all: a queued order with this id would equal the indexed
/// order, whose price pins it to that very level.
proof fn lemma_no_id_elsewhere(
    s: Seq<LevelView>,
    side: OrderSide,
    outcome: Outcome,
    idx0: Map<u128, Order>,
    id: u128,
    price: u64,
)
    requires
        side_wf(s, side, outcome),
        side_in_index(s, idx0),
        idx0.contains_key(id) ==> idx0[id].price == price,
        forall|i: int, j: int|
            0 <= i < s.len() && 0 <= j < s[i].queue.len() && s[i].price == price ==> (
            #[trigger] s[i].queue[j]).order_id != id,
    ensures
        forall|i: int, j: int|
            0 <= i < s.len() && 0 <= j < s[i].queue.len() ==> (#[trigger] s[i].queue[j]).order_id
                != id,
{
    assert forall|i: int, j: int|
        0 <= i < s.len() && 0 <= j < s[i].queue.len() implies (#[trigger] s[i].queue[j]).order_id
        != id by {
        let o = s[i].queue[j];
        if o.order_id == id {
            assert(idx0[id] == o);
            assert(slot_wf(o, s[i].price, side, outcome));
            assert(s[i].price == price);
        }
    }
}

/// Remove the single entry with `id` from the queue at `price`, dropping
/// the level when it empties; a no-op when no such level or entry exists.
fn side_remove_id(
    levels: &mut Vec<Level>,
    price: u64,
    id: u128,
    Ghost(side): Ghost<OrderSide>,
    Ghost(outcome): Ghost<Outcome>,
    Ghost(idx0): Ghost<Map<u128, Order>>,
)
    requires
        side_wf(levels_view(old(levels)@), side, outcome),
        side_in_index(levels_view(old(levels)@), idx0),
        idx0.contains_key(id) ==> idx0[id].price == price,
    ensures
        levels_view(final(levels)@) == levels_remove_id(levels_view(old(levels)@), price, id),
        side_wf(levels_view(final(levels)@), side, outcome),
        side_in_index(levels_view(final(levels)@), idx0.remove(id)),
{
    let ghost s = levels_view(levels@);
    let i = find_level(levels, price);
    if i < levels.len() && levels[i].price == price {
        let ghost q = s[i as int].queue;
        let n = levels[i].queue.len();
        let mut j: usize = 0;
        let mut found: usize = n;
        while j < n
            invariant
                j <= n,
                i < levels@.len(),
                n == levels@[i as int].queue@.len(),
                s == levels_view(levels@),
                q == s[i as int].queue,
                found == n || (found < j && q[found as int].order_id == id),
                found == n ==> forall|jj: int| 0 <= jj < j ==> q[jj].order_id != id,
            decreases n - j,
        {
            if found == n && levels[i].queue[j].order_id == id {
                found = j;
            }
            j = j + 1;
        }
        if found < n {
            proof {
                assert(exists|jj: int| 0 <= jj < q.len() && (#[trigger] q[jj]).order_id == id);
                let jc = choose|jj: int| 0 <= jj < q.len() && (#[trigger] q[jj]).order_id == id;
                if jc != found {
                    assert(q[jc].order_id != q[found as int].order_id);
                }
                assert(jc == found);
            }
            levels[i].queue.remove(found);
            if levels[i].queue.len() == 0 {
                levels.remove(i);
                proof {
                    s.remove_ensures(i as int);
                    assert(q.len() == 1);
                    assert(levels_view(levels@) =~= s.remove(i as int)) by {
                        assert forall|k: int|
                            0 <= k < levels_view(levels@).len() implies levels_view(levels@)[k]
                            == s.remove(i as int)[k] by {
                            if k < i {
                                assert(levels@[k] == old(levels)@[k]);
                            } else {
                                assert(levels@[k] == old(levels)@[k + 1]);
                            }
                        }
                    }
                }
            } else {
                proof {
                    assert(levels_view(levels@) =~= s.update(
                        i as int,
                        LevelView { price, queue: q.remove(found as int) },
                    )) by {
                        assert forall|k: int|
                            0 <= k < levels_view(levels@).len() implies levels_view(levels@)[k]
                            == s.update(
                            i as int,
                            LevelView { price, queue: q.remove(found as int) },
                        )[k] by {
                            if k != i {
                                assert(levels@[k] == old(levels)@[k]);
                            }
                        }
                    }
                }
            }
            proof {
                let t = levels_view(levels@);
                assert(t == levels_remove_id(s, price, id));
                q.remove_ensures(found as int);
                lemma_slot_id_unique(s, side, outcome, idx0, i as int, found as int);
                if q.len() == 1 {
                    s.remove_ensures(i as int);
                    assert forall|a: int, b: int|
                        0 <= a < b < t.len() implies (#[trigger] t[a]).price < (
                    #[trigger] t[b]).price by {
                        if a < i {
                            assert(t[a] == s[a]);
                        } else {
                            assert(t[a] == s[a + 1]);
                        }
                        if b < i {
                            assert(t[b] == s[b]);
                        } else {
                            assert(t[b] == s[b + 1]);
                        }
                    }
                    assert forall|a: int| 0 <= a < t.len() implies (#[trigger] t[a]).queue.len()
                        > 0 by {
                        if a < i {
                            assert(t[a] == s[a]);
                        } else {
                            assert(t[a] == s[a + 1]);
                        }
                    }
                    assert forall|a: int, b: int|
                        0 <= a < t.len() && 0 <= b < t[a].queue.len() implies {
                        let o = #[trigger] t[a].queue[b];
                        &&& slot_wf(o, t[a].price, side, outcome)
                        &&& o.order_id != id
                        &&& idx0.remove(id).contains_key(o.order_id)
                        &&& idx0.remove(id)[o.order_id] == o
                    } by {
                        if a < i {
                            assert(t[a] == s[a]);
                        } else {
                            assert(t[a] == s[a + 1]);
                        }
                    }
                    assert forall|a: int, b1: int, b2: int|
                        0 <= a < t.len() && 0 <= b1 < b2 < t[a].queue.len() implies (
                    #[trigger] t[a].queue[b1]).order_id != (#[trigger] t[a].queue[b2]).order_id by {
                        if a < i {
                            assert(t[a] == s[a]);
                        } else {
                            assert(t[a] == s[a + 1]);
                        }
                    }
                } else {
                    assert forall|a: int, b: int|
                        0 <= a < t.len() && 0 <= b < t[a].queue.len() implies {
                        let o = #[trigger] t[a].queue[b];
                        &&& slot_wf(o, t[a].price, side, outcome)
                        &&& o.order_id != id
                        &&& idx0.remove(id).contains_key(o.order_id)
                        &&& idx0.remove(id)[o.order_id] == o
                    } by {
                        if a == i {
                            if b < found {
                                assert(t[a].queue[b] == q[b]);
                            } else {
                                assert(t[a].queue[b] == q[b + 1]);
                            }
                        } else {
                            assert(t[a] == s[a]);
                        }
                    }
                    assert forall|a: int, b1: int, b2: int|
                        0 <= a < t.len() && 0 <= b1 < b2 < t[a].queue.len() implies (
                    #[trigger] t[a].queue[b1]).order_id != (#[trigger] t[a].queue[b2]).order_id by {
                        if a == i {
                            if b1 < found {
                                assert(t[a].queue[b1] == q[b1]);
                            } else {
                                assert(t[a].queue[b1] == q[b1 + 1]);
                            }
                            if b2 < found {
                                assert(t[a].queue[b2] == q[b2]);
                            } else {
                                assert(t[a].queue[b2] == q[b2 + 1]);
                            }
                        } else {
                            assert(t[a] == s[a]);
                        }
                    }
                }
            }
        } else {
            proof {
                assert(forall|jj: int|
                    0 <= jj < q.len() ==> (#[trigger] q[jj]).order_id != id);
                assert(!exists|jj: int| 0 <= jj < q.len() && (#[trigger] q[jj]).order_id == id);
                assert(levels_view(levels@) == levels_remove_id(s, price, id));
                assert forall|a: int, b: int|
                    0 <= a < s.len() && 0 <= b < s[a].queue.len() && s[a].price == price implies (
                #[trigger] s[a].queue[b]).order_id != id by {
                    if s[a].price == price && a != i {
                        if a < i {
                            assert(s[a].price < s[i as int].price);
                        } else {
                            assert(s[i as int].price < s[a].price);
                        }
                    }
                }
                lemma_no_id_elsewhere(s, side, outcome, idx0, id, price);
            }
        }
    } else {
        proof {
            assert(levels_view(levels@) == levels_remove_id(s, price, id));
            assert forall|a: int, b: int|
                0 <= a < s.len() && 0 <= b < s[a].queue.len() && s[a].price == price implies (
            #[trigger] s[a].queue[b]).order_id != id by {
                if a < i {
                    assert(s[a].price < price);
                } else {
                    assert(i < s.len() ==> s[i as int].price >= price && s[i as int].price
                        != price);
                    if a > i {
                        assert(s[i as int].price < s[a].price);
                    }
                }
            }
            lemma_no_id_elsewhere(s, side, outcome, idx0, id, price);
        }
    }
}

/// Remove and hand out the front order of the best level of one side; `low`
/// selects whether the cheapest (asks) or the dearest (bids) level is best.
fn side_pop(
    levels: &mut Vec<Level>,
    idx: &mut HashMap<u128, Order>,
    low: bool,
    Ghost(side): Ghost<OrderSide>,
    Ghost(outcome): Ghost<Outcome>,
) -> (r: Option<Order>)
    requires
        side_wf(levels_view(old(levels)@), side, outcome),
        side_in_index(levels_view(old(levels)@), old(idx)@),
    ensures
        ({
            let s = levels_view(old(levels)@);
            match r {
                None => s.len() == 0 && final(levels)@ == old(levels)@ && final(idx)@ == old(
                    idx,
                )@,
                Some(o) => {
                    let li: int = if low {
                        0
                    } else {
                        s.len() - 1
                    };
                    &&& s.len() > 0
                    &&& o == s[li].queue[0]
                    &&& levels_view(final(levels)@) == levels_pop_at(s, li)
                    &&& final(idx)@ == old(idx)@.remove(o.order_id)
                    &&& side_wf(levels_view(final(levels)@), side, outcome)
                    &&& side_in_index(levels_view(final(levels)@), final(idx)@)
                },
            }
        }),
{
    let ghost s = levels_view(levels@);
    if levels.len() == 0 {
        return None;
    }
    let li: usize = if low {
        0
    } else {
        levels.len() - 1
    };
    let o = levels[li].queue.remove(0);
    proof {
        assert(s[li as int].queue.remove(0) =~= s[li as int].queue.drop_first());
    }
    if levels[li].queue.len() == 0 {
        levels.remove(li);
        proof {
            assert(levels_view(levels@) =~= levels_pop_at(s, li as int)) by {
                s.remove_ensures(li as int);
                assert(levels_view(levels@).len() == s.len() - 1);
                assert forall|k: int| 0 <= k < levels_view(levels@).len() implies levels_view(
                    levels@,
                )[k] == levels_pop_at(s, li as int)[k] by {
                    if k < li {
                        assert(levels@[k] == old(levels)@[k]);
                    } else {
                        assert(levels@[k] == old(levels)@[k + 1]);
                    }
                }
            }
        }
    } else {
        proof {
            assert(levels_view(levels@) =~= levels_pop_at(s, li as int)) by {
                assert forall|k: int| 0 <= k < levels_view(levels@).len() implies levels_view(
                    levels@,
                )[k] == levels_pop_at(s, li as int)[k] by {
                    if k != li {
                        assert(levels@[k] == old(levels)@[k]);
                    } else {
                        assert(levels@[k]@.queue =~= s[li as int].queue.drop_first());
                    }
                }
            }
        }
    }
    idx.remove(&o.order_id);
    proof {
        lemma_levels_pop_at(s, li as int, side, outcome, old(idx)@);
    }
    Some(o)
}

impl OrderBook {
    /// Append `order` at the back of its `(side, outcome, price)` queue,
    /// opening the level if absent, and register it in the id index. The
    /// order id must be fresh for this book.
    pub fn add_order(&mut self, order: Order)
        requires
            old(self).wf(),
            order.wf(),
            order.filled < order.quantity,
            !old(self)@.orders.contains_key(order.order_id),
        ensures
            final(self).wf(),
            final(self)@ == old(self)@.with_side(
                order.side,
                order.outcome,
                levels_add(old(self)@.side(order.side, order.outcome), order, false),
            ).with_orders(old(self)@.orders.insert(order.order_id, order)),
    {
        self.insert_impl(order, false);
    }

    /// Reinsert a previously popped order at the front of its price level,
    /// so that it keeps its time priority.
    pub fn push_front(&mut self, order: Order)
        requires
            old(self).wf(),
            order.wf(),
            order.filled < order.quantity,
            !old(self)@.orders.contains_key(order.order_id),
        ensures
            final(self).wf(),
            final(self)@ == old(self)@.with_side(
                order.side,
                order.outcome,
                levels_add(old(self)@.side(order.side, order.outcome), order, true),
            ).with_orders(old(self)@.orders.insert(order.order_id, order)),
    {
        self.insert_impl(order, true);
    }

    fn insert_impl(&mut self, order: Order, front: bool)
        requires
            old(self).wf(),
            order.wf(),
            order.filled < order.quantity,
            !old(self)@.orders.contains_key(order.order_id),
        ensures
            final(self).wf(),
            final(self)@ == old(self)@.with_side(
                order.side,
                order.outcome,
                levels_add(old(self)@.side(order.side, order.outcome), order, front),
            ).with_orders(old(self)@.orders.insert(order.order_id, order)),
    {
        let ghost pre = self@;
        let ghost side = order.side;
        let ghost outcome = order.outcome;
        match (order.side, order.outcome) {
            (OrderSide::BUY, Outcome::YES) => side_insert(
                &mut self.yes_bids,
                &mut self.orders,
                order,
                front,
                Ghost(OrderSide::BUY),
                Ghost(Outcome::YES),
            ),
            (OrderSide::SELL, Outcome::YES) => side_insert(
                &mut self.yes_asks,
                &mut self.orders,
                order,
                front,
                Ghost(OrderSide::SELL),
                Ghost(Outcome::YES),
            ),
            (OrderSide::BUY, Outcome::NO) => side_insert(
                &mut self.no_bids,
                &mut self.orders,
                order,
                front,
                Ghost(OrderSide::BUY),
                Ghost(Outcome::NO),
            ),
            (OrderSide::SELL, Outcome::NO) => side_insert(
                &mut self.no_asks,
                &mut self.orders,
                order,
                front,
                Ghost(OrderSide::SELL),
                Ghost(Outcome::NO),
            ),
        }
        proof {
            lemma_sync_insert_foreign(pre.yes_bids, pre.orders, order.order_id, order);
            lemma_sync_insert_foreign(pre.yes_asks, pre.orders, order.order_id, order);
            lemma_sync_insert_foreign(pre.no_bids, pre.orders, order.order_id, order);
            lemma_sync_insert_foreign(pre.no_asks, pre.orders, order.order_id, order);
            assert(self@ =~= pre.with_side(
                side,
                outcome,
                levels_add(pre.side(side, outcome), order, front),
            ).with_orders(pre.orders.insert(order.order_id, order)));
            let post = self@;
            let s = pre.side(side, outcome);
            let t = levels_add(s, order, front);
            assert forall|id: u128|
                #[trigger] post.orders.contains_key(id) && side_contains_id(s, id) implies
                side_contains_id(post.side(side, outcome), id) by {
                let (i, j) = choose|i: int, j: int|
                    0 <= i < s.len() && 0 <= j < s[i].queue.len() && (
                    #[trigger] s[i].queue[j]).order_id == id;
                lemma_add_keeps_slot(s, order, front, i, j);
                let (i2, j2) = choose|i2: int, j2: int|
                    0 <= i2 < t.len() && 0 <= j2 < t[i2].queue.len() && (
                    #[trigger] t[i2].queue[j2]) == s[i].queue[j];
                assert(side_contains_id(t, id));
            }
            assert forall|id: u128| #[trigger] post.orders.contains_key(id) implies
                pre.orders.contains_key(id) || side_contains_id(post.side(side, outcome), id) by {
                if id == order.order_id {
                    lemma_add_contains(s, order, front);
                    let (i2, j2) = choose|i2: int, j2: int|
                        0 <= i2 < t.len() && 0 <= j2 < t[i2].queue.len() && (
                        #[trigger] t[i2].queue[j2]) == order;
                    assert(side_contains_id(t, id));
                }
            }
            lemma_covered_one_side(pre, post, side, outcome);
        }
    }

    /// Remove and return the front order of the best (lowest) ask level;
    /// the order leaves the id index and an emptied level is dropped.
    pub fn pop_best_ask(&mut self, outcome: Outcome) -> (r: Option<Order>)
        requires
            old(self).wf(),
        ensures
            final(self).wf(),
            (match r {
                None => old(self)@.asks(outcome).len() == 0 && final(self)@ == old(self)@,
                Some(o) => {
                    let s = old(self)@.asks(outcome);
                    &&& s.len() > 0
                    &&& o == s[0].queue[0]
                    &&& slot_wf(o, s[0].price, OrderSide::SELL, outcome)
                    &&& final(self)@ == old(self)@.with_side(
                        OrderSide::SELL,
                        outcome,
                        levels_pop_at(s, 0),
                    ).with_orders(old(self)@.orders.remove(o.order_id))
                },
            }),
    {
        self.pop_impl(OrderSide::SELL, outcome, true)
    }

    /// Remove and return the front order of the best (highest) bid level;
    /// the order leaves the id index and an emptied level is dropped.
    pub fn pop_best_bid(&mut self, outcome: Outcome) -> (r: Option<Order>)
        requires
            old(self).wf(),
        ensures
            final(self).wf(),
            (match r {
                None => old(self)@.bids(outcome).len() == 0 && final(self)@ == old(self)@,
                Some(o) => {
                    let s = old(self)@.bids(outcome);
                    &&& s.len() > 0
                    &&& o == s[s.len() - 1].queue[0]
                    &&& slot_wf(o, s[s.len() - 1].price, OrderSide::BUY, outcome)
                    &&& final(self)@ == old(self)@.with_side(
                        OrderSide::BUY,
                        outcome,
                        levels_pop_at(s, s.len() - 1),
                    ).with_orders(old(self)@.orders.remove(o.order_id))
                },
            }),
    {
        self.pop_impl(OrderSide::BUY, outcome, false)
    }

    /// The top `levels` price levels of each side of `outcome`, best first:
    /// bids from the highest price down, asks from the lowest price up,
    /// each with its aggregate remaining quantity and order count.
    pub fn get_depth(&self, outcome: Outcome, levels: usize) -> (r: OrderbookDepth)
        requires
            self.wf(),
        ensures
            ({
                let bs = self@.bids(outcome);
                &&& r.bids@.len() == (if levels <= bs.len() {
                    levels as int
                } else {
                    bs.len() as int
                })
                &&& forall|k: int|
                    0 <= k < r.bids@.len() ==> {
                        let lv = bs[bs.len() - 1 - k];
                        &&& (#[trigger] r.bids@[k]).price == lv.price
                        &&& r.bids@[k].quantity == queue_qty(lv.queue)
                        &&& r.bids@[k].order_count == lv.queue.len()
                    }
            }),
            ({
                let asv = self@.asks(outcome);
                &&& r.asks@.len() == (if levels <= asv.len() {
                    levels as int
                } else {
                    asv.len() as int
                })
                &&& forall|k: int|
                    0 <= k < r.asks@.len() ==> {
                        let lv = asv[k];
                        &&& (#[trigger] r.asks@[k]).price == lv.price
                        &&& r.asks@[k].quantity == queue_qty(lv.queue)
                        &&& r.asks@[k].order_count == lv.queue.len()
                    }
            }),
    {
        let bids = self.bids_ref(outcome);
        let asks = self.asks_ref(outcome);
        let ghost bs = levels_view(bids@);
        let ghost asv = levels_view(asks@);
        let bn = if levels <= bids.len() {
            levels
        } else {
            bids.len()
        };
        let an = if levels <= asks.len() {
            levels
        } else {
            asks.len()
        };
        let mut bsum: Vec<PriceLevelSummary> = Vec::new();
        let mut k: usize = 0;
        while k < bn
            invariant
                k <= bn,
                bn <= bids@.len(),
                bs == levels_view(bids@),
                bs == self@.bids(outcome),
                side_wf(bs, OrderSide::BUY, outcome),
                bsum@.len() == k,
                forall|kk: int|
                    0 <= kk < k ==> {
                        let lv = bs[bs.len() - 1 - kk];
                        &&& (#[trigger] bsum@[kk]).price == lv.price
                        &&& bsum@[kk].quantity == queue_qty(lv.queue)
                        &&& bsum@[kk].order_count == lv.queue.len()
                    },
            decreases bn - k,
        {
            let idx = bids.len() - 1 - k;
            proof {
                assert(bs[idx as int] == bids@[idx as int]@);
                assert forall|j: int|
                    0 <= j < bids@[idx as int].queue@.len() implies (#[trigger] bids@[idx as int
                ].queue@[j]).filled <= bids@[idx as int].queue@[j].quantity by {
                    assert(slot_wf(bs[idx as int].queue[j], bs[idx as int].price, OrderSide::BUY, outcome));
                }
            }
            let s = level_summary(&bids[idx]);
            bsum.push(s);
            k = k + 1;
        }
        let mut asum: Vec<PriceLevelSummary> = Vec::new();
        let mut k2: usize = 0;
        while k2 < an
            invariant
                k2 <= an,
                an <= asks@.len(),
                asv == levels_view(asks@),
                asv == self@.asks(outcome),
                side_wf(asv, OrderSide::SELL, outcome),
                asum@.len() == k2,
                forall|kk: int|
                    0 <= kk < k2 ==> {
                        let lv = asv[kk];
                        &&& (#[trigger] asum@[kk]).price == lv.price
                        &&& asum@[kk].quantity == queue_qty(lv.queue)
                        &&& asum@[kk].order_count == lv.queue.len()
                    },
            decreases an - k2,
        {
            proof {
                assert(asv[k2 as int] == asks@[k2 as int]@);
                assert forall|j: int|
                    0 <= j < asks@[k2 as int].queue@.len() implies (#[trigger] asks@[k2 as int
                ].queue@[j]).filled <= asks@[k2 as int].queue@[j].quantity by {
                    assert(slot_wf(asv[k2 as int].queue[j], asv[k2 as int].price, OrderSide::SELL, outcome));
                }
            }
            let s = level_summary(&asks[k2]);
            asum.push(s);
            k2 = k2 + 1;
        }
        OrderbookDepth { bids: bsum, asks: asum }
    }

    /// Remove the order with this id from the id index and from its price
    /// level, dropping the level when it empties; the removed order is
    /// returned. Nothing happens for an unknown id.
    pub fn remove_order(&mut self, order_id: u128) -> (r: Option<Order>)
        requires
            old(self).wf(),
        ensures
            final(self).wf(),
            (match r {
                None => !old(self)@.orders.contains_key(order_id) && final(self)@ == old(self)@,
                Some(o) => {
                    &&& old(self)@.orders.contains_key(order_id)
                    &&& o == old(self)@.orders[order_id]
                    &&& final(self)@ == old(self)@.with_side(
                        o.side,
                        o.outcome,
                        levels_remove_id(old(self)@.side(o.side, o.outcome), o.price, order_id),
                    ).with_orders(old(self)@.orders.remove(order_id))
                },
            }),
    {
        let ghost pre = self@;
        let removed = self.orders.remove(&order_id);
        let o = match removed {
            None => {
                proof {
                    assert(self@ =~= pre);
                }
                return None;
            },
            Some(o) => o,
        };
        let ghost side = o.side;
        let ghost outcome = o.outcome;
        match (o.side, o.outcome) {
            (OrderSide::BUY, Outcome::YES) => side_remove_id(
                &mut self.yes_bids,
                o.price,
                order_id,
                Ghost(OrderSide::BUY),
                Ghost(Outcome::YES),
                Ghost(pre.orders),
            ),
            (OrderSide::SELL, Outcome::YES) => side_remove_id(
                &mut self.yes_asks,
                o.price,
                order_id,
                Ghost(OrderSide::SELL),
                Ghost(Outcome::YES),
                Ghost(pre.orders),
            ),
            (OrderSide::BUY, Outcome::NO) => side_remove_id(
                &mut self.no_bids,
                o.price,
                order_id,
                Ghost(OrderSide::BUY),
                Ghost(Outcome::NO),
                Ghost(pre.orders),
            ),
            (OrderSide::SELL, Outcome::NO) => side_remove_id(
                &mut self.no_asks,
                o.price,
                order_id,
                Ghost(OrderSide::SELL),
                Ghost(Outcome::NO),
                Ghost(pre.orders),
            ),
        }
        proof {
            if !(side == OrderSide::BUY && outcome == Outcome::YES) {
                lemma_sync_remove_foreign(
                    pre.yes_bids,
                    OrderSide::BUY,
                    Outcome::YES,
                    pre.orders,
                    order_id,
                );
            }
            if !(side == OrderSide::SELL && outcome == Outcome::YES) {
                lemma_sync_remove_foreign(
                    pre.yes_asks,
                    OrderSide::SELL,
                    Outcome::YES,
                    pre.orders,
                    order_id,
                );
            }
            if !(side == OrderSide::BUY && outcome == Outcome::NO) {
                lemma_sync_remove_foreign(
                    pre.no_bids,
                    OrderSide::BUY,
                    Outcome::NO,
                    pre.orders,
                    order_id,
                );
            }
            if !(side == OrderSide::SELL && outcome == Outcome::NO) {
                lemma_sync_remove_foreign(
                    pre.no_asks,
                    OrderSide::SELL,
                    Outcome::NO,
                    pre.orders,
                    order_id,
                );
            }
            assert(self@ =~= pre.with_side(
                side,
                outcome,
                levels_remove_id(pre.side(side, outcome), o.price, order_id),
            ).with_orders(pre.orders.remove(order_id)));
            let post = self@;
            let s = pre.side(side, outcome);
            let t = levels_remove_id(s, o.price, order_id);
            assert forall|id: u128|
                #[trigger] post.orders.contains_key(id) && side_contains_id(s, id) implies
                side_contains_id(post.side(side, outcome), id) by {
                assert(id != order_id);
                let (i, j) = choose|i: int, j: int|
                    0 <= i < s.len() && 0 <= j < s[i].queue.len() && (
                    #[trigger] s[i].queue[j]).order_id == id;
                lemma_remove_id_keeps_slot(s, o.price, order_id, i, j);
                let (i2, j2) = choose|i2: int, j2: int|
                    0 <= i2 < t.len() && 0 <= j2 < t[i2].queue.len() && (
                    #[trigger] t[i2].queue[j2]) == s[i].queue[j];
                assert(side_contains_id(t, id));
            }
            lemma_covered_one_side(pre, post, side, outcome);
        }
        Some(o)
    }

    /// Whether the opposite side of `outcome` holds any resting order of
    /// `user_id` that a new order at `price` would cross.
    pub fn would_self_trade(
        &self,
        user_id: &String,
        side: OrderSide,
        outcome: Outcome,
        price: u64,
    ) -> (r: bool)
        ensures
            r == spec_would_self_trade(self@, user_id@, side, outcome, price),
    {
        let buy = match side {
            OrderSide::BUY => true,
            OrderSide::SELL => false,
        };
        let levels: &Vec<Level> = if buy {
            self.asks_ref(outcome)
        } else {
            self.bids_ref(outcome)
        };
        let ghost s = levels_view(levels@);
        let mut i: usize = 0;
        while i < levels.len()
            invariant
                i <= s.len(),
                s == levels_view(levels@),
                buy == (side == OrderSide::BUY),
                buy ==> s == self@.asks(outcome),
                !buy ==> s == self@.bids(outcome),
                forall|ii: int, jj: int|
                    0 <= ii < i && 0 <= jj < s[ii].queue.len() ==> !((if buy {
                        s[ii].price <= price
                    } else {
                        s[ii].price >= price
                    }) && (#[trigger] s[ii].queue[jj]).user_id@ == user_id@),
            decreases s.len() - i,
        {
            proof {
                assert(s[i as int] == levels@[i as int]@);
            }
            let crossing = if buy {
                levels[i].price <= price
            } else {
                levels[i].price >= price
            };
            if crossing {
                let q = &levels[i].queue;
                let mut j: usize = 0;
                while j < q.len()
                    invariant
                        j <= q@.len(),
                        q@ == s[i as int].queue,
                        i < s.len(),
                        buy == (side == OrderSide::BUY),
                        buy ==> s[i as int].price <= price && s == self@.asks(outcome),
                        !buy ==> s[i as int].price >= price && s == self@.bids(outcome),
                        forall|jj: int|
                            0 <= jj < j ==> (#[trigger] q@[jj]).user_id@ != user_id@,
                    decreases q@.len() - j,
                {
                    if q[j].user_id.eq(user_id) {
                        proof {
                            assert(s[i as int].queue[j as int].user_id@ == user_id@);
                            if buy {
                                assert(s[i as int].price <= price);
                                assert(side_has_user_at_or_below(s, user_id@, price));
                            } else {
                                assert(s[i as int].price >= price);
                                assert(side_has_user_at_or_above(s, user_id@, price));
                            }
                        }
                        return true;
                    }
                    j = j + 1;
                }
            }
            i = i + 1;
        }
        false
    }

    fn pop_impl(&mut self, side: OrderSide, outcome: Outcome, low: bool) -> (r: Option<Order>)
        requires
            old(self).wf(),
            low == (side == OrderSide::SELL),
        ensures
            final(self).wf(),
            (match r {
                None => old(self)@.side(side, outcome).len() == 0 && final(self)@ == old(self)@,
                Some(o) => {
                    let s = old(self)@.side(side, outcome);
                    let li: int = if low {
                        0
                    } else {
                        s.len() - 1
                    };
                    &&& s.len() > 0
                    &&& o == s[li].queue[0]
                    &&& slot_wf(o, s[li].price, side, outcome)
                    &&& final(self)@ == old(self)@.with_side(
                        side,
                        outcome,
                        levels_pop_at(s, li),
                    ).with_orders(old(self)@.orders.remove(o.order_id))
                },
            }),
    {
        let ghost pre = self@;
        let r = match (side, outcome) {
            (OrderSide::BUY, Outcome::YES) => side_pop(
                &mut self.yes_bids,
                &mut self.orders,
                low,
                Ghost(OrderSide::BUY),
                Ghost(Outcome::YES),
            ),
            (OrderSide::SELL, Outcome::YES) => side_pop(
                &mut self.yes_asks,
                &mut self.orders,
                low,
                Ghost(OrderSide::SELL),
                Ghost(Outcome::YES),
            ),
            (OrderSide::BUY, Outcome::NO) => side_pop(
                &mut self.no_bids,
                &mut self.orders,
                low,
                Ghost(OrderSide::BUY),
                Ghost(Outcome::NO),
            ),
            (OrderSide::SELL, Outcome::NO) => side_pop(
                &mut self.no_asks,
                &mut self.orders,
                low,
                Ghost(OrderSide::SELL),
                Ghost(Outcome::NO),
            ),
        };
        proof {
            if r is Some {
                let o = r->Some_0;
                let s = pre.side(side, outcome);
                let li: int = if low {
                    0
                } else {
                    s.len() - 1
                };
                assert(slot_wf(o, s[li].price, side, outcome));
                assert(pre.orders.contains_key(o.order_id) && pre.orders[o.order_id] == o);
                if !(side == OrderSide::BUY && outcome == Outcome::YES) {
                    lemma_sync_remove_foreign(
                        pre.yes_bids,
                        OrderSide::BUY,
                        Outcome::YES,
                        pre.orders,
                        o.order_id,
                    );
                }
                if !(side == OrderSide::SELL && outcome == Outcome::YES) {
                    lemma_sync_remove_foreign(
                        pre.yes_asks,
                        OrderSide::SELL,
                        Outcome::YES,
                        pre.orders,
                        o.order_id,
                    );
                }
                if !(side == OrderSide::BUY && outcome == Outcome::NO) {
                    lemma_sync_remove_foreign(
                        pre.no_bids,
                        OrderSide::BUY,
                        Outcome::NO,
                        pre.orders,
                        o.order_id,
                    );
                }
                if !(side == OrderSide::SELL && outcome == Outcome::NO) {
                    lemma_sync_remove_foreign(
                        pre.no_asks,
                        OrderSide::SELL,
                        Outcome::NO,
                        pre.orders,
                        o.order_id,
                    );
                }
                assert(self@ =~= pre.with_side(side, outcome, levels_pop_at(s, li)).with_orders(
                    pre.orders.remove(o.order_id),
                ));
                let post = self@;
                let t = levels_pop_at(s, li);
                assert forall|id: u128|
                    #[trigger] post.orders.contains_key(id) && side_contains_id(s, id) implies
                    side_contains_id(post.side(side, outcome), id) by {
                    assert(id != o.order_id);
                    let (i, j) = choose|i: int, j: int|
                        0 <= i < s.len() && 0 <= j < s[i].queue.len() && (
                        #[trigger] s[i].queue[j]).order_id == id;
                    assert(!(i == li && j == 0));
                    lemma_pop_keeps_slot(s, li, i, j);
                    let (i2, j2) = choose|i2: int, j2: int|
                        0 <= i2 < t.len() && 0 <= j2 < t[i2].queue.len() && (
                        #[trigger] t[i2].queue[j2]) == s[i].queue[j];
                    assert(side_contains_id(t, id));
                }
                lemma_covered_one_side(pre, post, side, outcome);
            } else {
                assert(self@ =~= pre);
            }
        }
        r
    }
}

/// Adding a fresh order and then removing it by id restores the book
/// exactly: `add_order(o)` followed by `remove_order(o.order_id)` is the
/// identity on the book's mathematical image, depth included.
pub proof fn lemma_add_remove_round_trip(bv: BookView, o: Order)
    requires
        bv.wf(),
        o.wf(),
        o.filled < o.quantity,
        !bv.orders.contains_key(o.order_id),
    ensures
        ({
            let added = bv.with_side(
                o.side,
                o.outcome,
                levels_add(bv.side(o.side, o.outcome), o, false),
            ).with_orders(bv.orders.insert(o.order_id, o));
            added.with_side(
                o.side,
                o.outcome,
                levels_remove_id(added.side(o.side, o.outcome), o.price, o.order_id),
            ).with_orders(added.orders.remove(o.order_id)) == bv
        }),
{
    let s = bv.side(o.side, o.outcome);
    let id = o.order_id;
    let t = levels_add(s, o, false);
    let p = find_pos(s, o.price);
    lemma_find_pos_props(s, o.price);
    assert(bv.orders.insert(id, o).remove(id) =~= bv.orders);
    if p < s.len() && s[p].price == o.price {
        let q = s[p].queue;
        assert(t == s.update(p, LevelView { price: s[p].price, queue: q.push(o) }));
        assert forall|k: int| 0 <= k < p implies (#[trigger] t[k]).price < o.price by {
            assert(t[k] == s[k]);
        }
        lemma_find_pos_at(t, o.price, p);
        assert(t[p].queue[q.len() as int] == o);
        assert(exists|j: int|
            0 <= j < t[p].queue.len() && (#[trigger] t[p].queue[j]).order_id == id);
        let jc = choose|j: int|
            0 <= j < t[p].queue.len() && (#[trigger] t[p].queue[j]).order_id == id;
        if jc < q.len() {
            assert(t[p].queue[jc] == q[jc]);
            assert(slot_wf(q[jc], s[p].price, o.side, o.outcome));
            assert(bv.orders.contains_key(q[jc].order_id));
        }
        assert(jc == q.len());
        assert(t[p].queue.len() > 1);
        assert(t[p].queue.remove(jc) =~= q);
        assert(levels_remove_id(t, o.price, id) == t.update(
            p,
            LevelView { price: o.price, queue: t[p].queue.remove(jc) },
        ));
        assert(t.update(p, LevelView { price: o.price, queue: t[p].queue.remove(jc) }) =~= s);
    } else {
        assert(t == s.insert(p, LevelView { price: o.price, queue: seq![o] }));
        s.insert_ensures(p, LevelView { price: o.price, queue: seq![o] });
        assert forall|k: int| 0 <= k < p implies (#[trigger] t[k]).price < o.price by {
            assert(t[k] == s[k]);
        }
        lemma_find_pos_at(t, o.price, p);
        assert(t[p].queue[0] == o);
        assert(exists|j: int|
            0 <= j < t[p].queue.len() && (#[trigger] t[p].queue[j]).order_id == id);
        let jc = choose|j: int|
            0 <= j < t[p].queue.len() && (#[trigger] t[p].queue[j]).order_id == id;
        assert(jc == 0);
        assert(t[p].queue.len() == 1);
        assert(levels_remove_id(t, o.price, id) == t.remove(p));
        t.remove_ensures(p);
        assert(t.remove(p) =~= s) by {
            assert forall|k: int| 0 <= k < t.remove(p).len() implies t.remove(p)[k] == s[k] by {
                if k < p {
                    assert(t.remove(p)[k] == t[k]);
                } else {
                    assert(t.remove(p)[k] == t[k + 1]);
                }
            }
        }
    }
    assert(bv.with_side(o.side, o.outcome, t).with_orders(bv.orders.insert(id, o)).with_side(
        o.side,
        o.outcome,
        levels_remove_id(t, o.price, id),
    ).with_orders(bv.orders) =~= bv);
}

/// Popping the front order of a level and reinserting it at the front of
/// its price level restores the side exactly: the pop/push-front round
/// trip of a partial maker preserves the book, time priority included.
pub proof fn lemma_pop_push_front_round_trip(
    s: Seq<LevelView>,
    li: int,
    side: OrderSide,
    outcome: Outcome,
)
    requires
        side_wf(s, side, outcome),
        0 <= li < s.len(),
    ensures
        levels_add(levels_pop_at(s, li), s[li].queue[0], true) == s,
{
    let m = s[li].queue[0];
    assert(slot_wf(m, s[li].price, side, outcome));
    let t = levels_pop_at(s, li);
    if s[li].queue.len() == 1 {
        s.remove_ensures(li);
        assert forall|k: int| 0 <= k < li implies (#[trigger] t[k]).price < m.price by {
            assert(t[k] == s[k]);
        }
        assert(li < t.len() ==> t[li] == s[li + 1] && t[li].price > m.price);
        lemma_find_pos_at(t, m.price, li);
        assert(li < t.len() ==> t[li].price != m.price);
        let u = t.insert(li, LevelView { price: m.price, queue: seq![m] });
        t.insert_ensures(li, LevelView { price: m.price, queue: seq![m] });
        assert(levels_add(t, m, true) == u);
        assert(u =~= s) by {
            assert(s[li].queue =~= seq![m]);
            assert forall|k: int| 0 <= k < u.len() implies u[k] == s[k] by {
                if k < li {
                    assert(u[k] == t[k]);
                } else if k == li {
                    assert(u[k] == (LevelView { price: m.price, queue: seq![m] }));
                } else {
                    assert(u[k] == t[k - 1] && t[k - 1] == s[k]);
                }
            }
        }
    } else {
        assert forall|k: int| 0 <= k < li implies (#[trigger] t[k]).price < m.price by {
            assert(t[k] == s[k]);
        }
        assert(t[li].price == m.price);
        lemma_find_pos_at(t, m.price, li);
        let u = t.update(li, LevelView { price: t[li].price, queue: seq![m] + t[li].queue });
        assert(levels_add(t, m, true) == u);
        assert(u =~= s) by {
            assert(seq![m] + s[li].queue.drop_first() =~= s[li].queue);
            assert forall|k: int| 0 <= k < u.len() implies u[k] == s[k] by {
                if k != li {
                    assert(u[k] == t[k] && t[k] == s[k]);
                }
            }
        }
    }
}

/// In a well-formed book every entry of the id index corresponds to an
/// order resting in some price queue: the converse of the direction that
/// `lemma_queued_orders_indexed` states.
pub proof fn lemma_indexed_orders_queued(bv: BookView, id: u128)
    requires
        bv.wf(),
        bv.orders.contains_key(id),
    ensures
        bv.id_somewhere(id),
{
}

/// In a well-formed book at rest no price level is empty: every queue on
/// every side holds at least one order.
pub proof fn lemma_no_empty_levels(bv: BookView, side: OrderSide, outcome: Outcome)
    requires
        bv.wf(),
    ensures
        forall|i: int|
            0 <= i < bv.side(side, outcome).len() ==> (#[trigger] bv.side(
                side,
                outcome,
            )[i]).queue.len() > 0,
{
}

/// Every order in any price queue of a well-formed book is registered in
/// the id index under its own id, with the very same fields, and has
/// remaining quantity greater than zero.
pub proof fn lemma_queued_orders_indexed(bv: BookView, side: OrderSide, outcome: Outcome)
    requires
        bv.wf(),
    ensures
        forall|i: int, j: int|
            0 <= i < bv.side(side, outcome).len() && 0 <= j < bv.side(
                side,
                outcome,
            )[i].queue.len() ==> {
                let o = #[trigger] bv.side(side, outcome)[i].queue[j];
                &&& bv.orders.contains_key(o.order_id)
                &&& bv.orders[o.order_id] == o
                &&& o.filled < o.quantity
            },
{
    let s = bv.side(side, outcome);
    assert forall|i: int, j: int|
        0 <= i < s.len() && 0 <= j < s[i].queue.len() implies {
        let o = #[trigger] s[i].queue[j];
        &&& bv.orders.contains_key(o.order_id)
        &&& bv.orders[o.order_id] == o
        &&& o.filled < o.quantity
    } by {
        assert(slot_wf(s[i].queue[j], s[i].price, side, outcome));
        assert(bv.orders.contains_key(s[i].queue[j].order_id));
    }
}

} // verus!
