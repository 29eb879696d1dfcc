//! The executable order book: per-instrument price levels with FIFO queues,
//! the matching engine, the cancel path, and snapshot extraction. Every
//! mutation is proved to refine the transitions in [`crate::model`].

use vstd::prelude::*;

use crate::model::{
    book_has_id, book_wf, cancel_matches, cancel_rejected, crossable, duplicate_limit,
    insert_overflows, insert_resting, lemma_insert_props_at, lemma_insert_resting_at,
    lemma_match_levels_props, lemma_match_queue_props, lemma_remove_props_at, lemma_side_drop_wf,
    lemma_sum_queue_nonneg, lemma_sum_queue_remove, level_has_id, level_precedes, level_wf,
    limit_overflow, match_levels, match_queue, not_crossed, opposite_of, queue_amounts_ok,
    queue_ids_distinct, queue_ids_ok, side_has_id, side_id_at_price, side_ids_distinct, side_of,
    side_ordered, side_remove_id, side_wf, spec_apply, sum_queue, valid_order, BookV, LevelV,
    OrderV, RestingV, TradeV,
};
use vstd::pervasive::VecAdditionalExecFns;
use vstd::slice::slice_to_vec;

verus! {

/// The side of an order.
#[derive(Clone, Copy, Debug, PartialEq, Eq, Structural)]
pub enum Action {
    Buy,
    Sell,
}

/// The kind of an order event.
#[derive(Clone, Copy, Debug, PartialEq, Eq, Structural)]
pub enum OrderType {
    Market,
    Limit,
    Cancel,
}

/// A validated order event. The price is a scaled integer (micro-units) and
/// the symbol is the instrument's raw octets (1 to 16 of them).
#[derive(Clone, Debug, PartialEq)]
pub struct Order {
    pub id: u128,
    pub symbol: Vec<u8>,
    pub price: i64,
    pub amount: i32,
    pub action: Action,
    pub order_type: OrderType,
    pub timestamp: u128,
}

impl View for Order {
    type V = OrderV;

    open spec fn view(&self) -> OrderV {
        OrderV {
            id: self.id as int,
            symbol: self.symbol@,
            price: self.price as int,
            amount: self.amount as int,
            action: self.action,
            order_type: self.order_type,
            timestamp: self.timestamp as int,
        }
    }
}

/// One price level of one side: the price, the sum of resting quantities,
/// and the FIFO queue of resting orders.
#[derive(Clone, Debug, PartialEq)]
pub struct PriceLevel {
    pub price: i64,
    pub total_amount: i32,
    pub orders: Vec<Order>,
}

impl View for PriceLevel {
    type V = LevelV;

    open spec fn view(&self) -> LevelV {
        LevelV {
            price: self.price as int,
            total: self.total_amount as int,
            queue: self.orders@.map_values(
                |o: Order| RestingV { id: o.id as int, amount: o.amount as int },
            ),
        }
    }
}

/// One trade produced by the matcher; the price is the resting order's.
#[derive(Clone, Copy, Debug, PartialEq, Eq, Structural)]
pub struct Trade {
    pub price: i64,
    pub amount: i32,
    pub aggressor_id: u128,
    pub resting_id: u128,
}

impl View for Trade {
    type V = TradeV;

    open spec fn view(&self) -> TradeV {
        TradeV {
            price: self.price as int,
            amount: self.amount as int,
            aggressor_id: self.aggressor_id as int,
            resting_id: self.resting_id as int,
        }
    }
}

/// A back-reference held by the id index: the side and price level on which
/// the order with this id rests.
#[derive(Clone, Copy, Debug, PartialEq, Eq, Structural)]
pub struct IndexEntry {
    pub id: u128,
    pub action: Action,
    pub price: i64,
}

/// Why an order event was rejected; the book is untouched in every case.
#[derive(Clone, Copy, Debug, PartialEq, Eq, Structural)]
pub enum InvalidOrder {
    /// A Cancel whose id rests in the book, but not on the Cancel's side at
    /// the Cancel's price.
    CancelMismatch,
    /// A Limit order whose id already rests in the book.
    DuplicateId,
    /// A Limit residual that would push a level's total past the
    /// representable range.
    QtyOverflow,
}

/// The per-instrument order book.
#[derive(Clone, Debug)]
pub struct OrderBook {
    pub symbol: Vec<u8>,
    pub bids: Vec<PriceLevel>,
    pub asks: Vec<PriceLevel>,
    pub index: Vec<IndexEntry>,
    pub last_update: u128,
}

impl View for OrderBook {
    type V = BookV;

    open spec fn view(&self) -> BookV {
        BookV {
            symbol: self.symbol@,
            bids: side_view(self.bids@),
            asks: side_view(self.asks@),
            last_update: self.last_update as int,
        }
    }
}

/// A snapshot of the book, sharing no state with it.
#[derive(Clone, Debug, PartialEq)]
pub struct BookUpdate {
    pub symbol: Vec<u8>,
    pub bids: Vec<PriceLevel>,
    pub asks: Vec<PriceLevel>,
    pub last_update: u128,
}

impl View for BookUpdate {
    type V = BookV;

    open spec fn view(&self) -> BookV {
        BookV {
            symbol: self.symbol@,
            bids: side_view(self.bids@),
            asks: side_view(self.asks@),
            last_update: self.last_update as int,
        }
    }
}

// ---------------------------------------------------------------------------
// The index abstraction
// ---------------------------------------------------------------------------

/// The view of one side of the book.
pub open spec fn side_view(s: Seq<PriceLevel>) -> Seq<LevelV> {
    s.map_values(|l: PriceLevel| l@)
}

/// The view of a list of trades.
pub open spec fn trades_view(s: Seq<Trade>) -> Seq<TradeV> {
    s.map_values(|t: Trade| t@)
}

/// The view of a list of order ids.
pub open spec fn ids_view(s: Seq<u128>) -> Seq<int> {
    s.map_values(|x: u128| x as int)
}

/// Every index entry resolves to a level of the entry's side, at the entry's
/// price, holding the entry's id.
pub open spec fn index_entries_resolve(b: BookV, idx: Seq<IndexEntry>) -> bool {
    forall|n: int|
        0 <= n < idx.len() ==> side_id_at_price(
            side_of(b, (#[trigger] idx[n]).action),
            idx[n].price as int,
            idx[n].id as int,
        )
}

/// Whether some index entry carries this id.
pub open spec fn index_has_id(idx: Seq<IndexEntry>, id: int) -> bool {
    exists|n: int| 0 <= n < idx.len() && (#[trigger] idx[n]).id == id
}

/// Whether `e` is one of the entries of `b`.
pub open spec fn index_entry_in(e: IndexEntry, b: Seq<IndexEntry>) -> bool {
    exists|m: int| 0 <= m < b.len() && #[trigger] b[m] == e
}

/// Every entry of `a` is an entry of `b`.
pub open spec fn index_entries_from(a: Seq<IndexEntry>, b: Seq<IndexEntry>) -> bool {
    forall|n: int| 0 <= n < a.len() ==> index_entry_in(#[trigger] a[n], b)
}

/// Every resting id has an index entry.
pub open spec fn index_complete(b: BookV, idx: Seq<IndexEntry>) -> bool {
    forall|id: int| #[trigger] book_has_id(b, id) ==> index_has_id(idx, id)
}

/// No id is indexed twice.
pub open spec fn index_ids_distinct(idx: Seq<IndexEntry>) -> bool {
    forall|n: int, m: int|
        0 <= n < m < idx.len() ==> (#[trigger] idx[n]).id != (#[trigger] idx[m]).id
}

/// Index consistency: `index[id]` exists iff an order with that id rests
/// somewhere, and the entry names where.
pub open spec fn index_wf(b: BookV, idx: Seq<IndexEntry>) -> bool {
    &&& index_entries_resolve(b, idx)
    &&& index_complete(b, idx)
    &&& index_ids_distinct(idx)
}

impl OrderBook {
    /// The book invariant: a well-formed model and a consistent index.
    pub open spec fn wf(&self) -> bool {
        &&& book_wf(self@)
        &&& index_wf(self@, self.index@)
    }

    /// An empty book for one instrument.
    pub fn new(symbol: Vec<u8>) -> (r: OrderBook)
        requires
            1 <= symbol@.len() <= 16,
        ensures
            r.wf(),
            r@ == (BookV {
                symbol: symbol@,
                bids: Seq::<LevelV>::empty(),
                asks: Seq::<LevelV>::empty(),
                last_update: 0,
            }),
    {
        let r = OrderBook {
            symbol,
            bids: Vec::new(),
            asks: Vec::new(),
            index: Vec::new(),
            last_update: 0,
        };
        proof {
            assert(r@.bids =~= Seq::<LevelV>::empty());
            assert(r@.asks =~= Seq::<LevelV>::empty());
        }
        r
    }
}

// ---------------------------------------------------------------------------
// Small executable helpers
// ---------------------------------------------------------------------------

/// Byte-for-byte copy of a symbol.
pub(crate) fn clone_bytes(v: &Vec<u8>) -> (r: Vec<u8>)
    ensures
        r@ == v@,
{
    slice_to_vec(v.as_slice())
}

/// A copy of an order, equal in the model.
fn clone_order(o: &Order) -> (r: Order)
    ensures
        r@ == o@,
        r.id == o.id,
        r.price == o.price,
        r.amount == o.amount,
        r.action == o.action,
        r.order_type == o.order_type,
        r.timestamp == o.timestamp,
{
    Order {
        id: o.id,
        symbol: clone_bytes(&o.symbol),
        price: o.price,
        amount: o.amount,
        action: o.action,
        order_type: o.order_type,
        timestamp: o.timestamp,
    }
}

/// Position of the index entry carrying `id`, if any.
fn index_pos(idx: &Vec<IndexEntry>, id: u128) -> (r: Option<usize>)
    ensures
        match r {
            Some(n) => n < idx@.len() && idx@[n as int].id == id,
            None => forall|n: int| 0 <= n < idx@.len() ==> (#[trigger] idx@[n]).id != id,
        },
{
    let mut n: usize = 0;
    while n < idx.len()
        invariant
            n <= idx@.len(),
            forall|m: int| 0 <= m < n ==> (#[trigger] idx@[m]).id != id,
        decreases idx@.len() - n,
    {
        if idx[n].id == id {
            return Some(n);
        }
        n = n + 1;
    }
    None
}

/// Position of the level priced `price`, if any.
fn find_price_pos(levels: &Vec<PriceLevel>, price: i64) -> (r: Option<usize>)
    ensures
        match r {
            Some(i) => i < levels@.len() && side_view(levels@)[i as int].price == price,
            None => forall|i: int|
                0 <= i < levels@.len() ==> (#[trigger] side_view(levels@)[i]).price != price,
        },
{
    let mut i: usize = 0;
    while i < levels.len()
        invariant
            i <= levels@.len(),
            forall|j: int| 0 <= j < i ==> (#[trigger] side_view(levels@)[j]).price != price,
        decreases levels@.len() - i,
    {
        if levels[i].price == price {
            proof {
                assert(side_view(levels@)[i as int] == levels@[i as int]@);
            }
            return Some(i);
        }
        proof {
            assert(side_view(levels@)[i as int] == levels@[i as int]@);
        }
        i = i + 1;
    }
    None
}

/// The sorted position at which `price` belongs on this side: the first
/// position whose level does not strictly precede it.
fn insert_pos(levels: &Vec<PriceLevel>, is_bid: bool, price: i64) -> (r: usize)
    ensures
        r <= levels@.len(),
        forall|i: int|
            0 <= i < r ==> level_precedes(
                is_bid,
                (#[trigger] side_view(levels@)[i]).price,
                price as int,
            ),
        r < levels@.len() ==> (side_view(levels@)[r as int].price == price || level_precedes(
            is_bid,
            price as int,
            side_view(levels@)[r as int].price,
        )),
{
    let mut i: usize = 0;
    while i < levels.len()
        invariant
            i <= levels@.len(),
            forall|j: int|
                0 <= j < i ==> level_precedes(
                    is_bid,
                    (#[trigger] side_view(levels@)[j]).price,
                    price as int,
                ),
        decreases levels@.len() - i,
    {
        let lp = levels[i].price;
        proof {
            assert(side_view(levels@)[i as int] == levels@[i as int]@);
        }
        let go = if is_bid {
            lp > price
        } else {
            lp < price
        };
        if !go {
            return i;
        }
        i = i + 1;
    }
    i
}

// ---------------------------------------------------------------------------
// The matcher
// ---------------------------------------------------------------------------

/// Walk one level's FIFO queue head-to-tail, filling resting orders against
/// the aggressor. Trades and fully filled ids are appended to the
/// accumulators; returns the aggressor's residual quantity.
fn fill_level(
    lvl: &mut PriceLevel,
    remaining: i32,
    aggr_id: u128,
    trades: &mut Vec<Trade>,
    removed: &mut Vec<u128>,
) -> (res: i32)
    requires
        level_wf(old(lvl)@),
        queue_ids_distinct(old(lvl)@.queue),
        0 <= remaining,
    ensures
        ({
            let f = match_queue(old(lvl)@.queue, remaining as int, old(lvl)@.price, aggr_id as int);
            &&& final(lvl).price == old(lvl).price
            &&& final(lvl)@.queue == f.queue
            &&& final(lvl)@.total == old(lvl)@.total - (remaining - res)
            &&& sum_queue(final(lvl)@.queue) == final(lvl)@.total
            &&& res == f.residual
            &&& 0 <= res <= remaining
            &&& queue_amounts_ok(final(lvl)@.queue)
            &&& queue_ids_ok(final(lvl)@.queue)
            &&& queue_ids_distinct(final(lvl)@.queue)
            &&& trades_view(final(trades)@) == trades_view(old(trades)@) + f.trades
            &&& ids_view(final(removed)@) == ids_view(old(removed)@) + f.removed
        }),
{
    let ghost f0 = match_queue(old(lvl)@.queue, remaining as int, old(lvl)@.price, aggr_id as int);
    let mut rem = remaining;
    while rem > 0 && lvl.orders.len() > 0
        invariant
            lvl.price == old(lvl).price,
            0 <= rem <= remaining,
            queue_amounts_ok(lvl@.queue),
            queue_ids_ok(lvl@.queue),
            queue_ids_distinct(lvl@.queue),
            lvl@.total == old(lvl)@.total - (remaining - rem),
            sum_queue(lvl@.queue) == lvl@.total,
            ({
                let fc = match_queue(lvl@.queue, rem as int, old(lvl)@.price, aggr_id as int);
                &&& f0.queue == fc.queue
                &&& f0.residual == fc.residual
                &&& trades_view(trades@) + fc.trades == trades_view(old(trades)@) + f0.trades
                &&& ids_view(removed@) + fc.removed == ids_view(old(removed)@) + f0.removed
            }),
        decreases rem + lvl.orders.len(),
    {
        let ghost prev_q = lvl@.queue;
        let ghost prev_rem = rem as int;
        let ghost prev_trades = trades@;
        let ghost prev_removed = removed@;
        let ghost fc = match_queue(prev_q, prev_rem, old(lvl)@.price, aggr_id as int);
        let head_amt = lvl.orders[0].amount;
        let head_id = lvl.orders[0].id;
        proof {
            assert(prev_q[0] == RestingV { id: head_id as int, amount: head_amt as int });
            assert forall|k: int|
                0 <= k < prev_q.drop_first().len() implies 1 <= (
            #[trigger] prev_q.drop_first()[k]).amount <= i32::MAX by {
                assert(prev_q.drop_first()[k] == prev_q[k + 1]);
            }
            lemma_sum_queue_nonneg(prev_q.drop_first());
            assert(sum_queue(prev_q) == prev_q[0].amount + sum_queue(prev_q.drop_first()));
        }
        if head_amt <= rem {
            // the head is fully filled and leaves the book
            trades.push(
                Trade {
                    price: lvl.price,
                    amount: head_amt,
                    aggressor_id: aggr_id,
                    resting_id: head_id,
                },
            );
            let victim = lvl.orders.remove(0);
            removed.push(victim.id);
            lvl.total_amount = lvl.total_amount - head_amt;
            rem = rem - head_amt;
            proof {
                let t = TradeV {
                    price: old(lvl)@.price,
                    amount: head_amt as int,
                    aggressor_id: aggr_id as int,
                    resting_id: head_id as int,
                };
                assert(lvl@.queue =~= prev_q.drop_first());
                let fn_ = match_queue(lvl@.queue, rem as int, old(lvl)@.price, aggr_id as int);
                assert(fc.queue == fn_.queue);
                assert(fc.residual == fn_.residual);
                assert(fc.trades == seq![t] + fn_.trades);
                assert(fc.removed == seq![head_id as int] + fn_.removed);
                assert(trades_view(trades@) =~= trades_view(prev_trades).push(t));
                assert(trades_view(trades@) + fn_.trades =~= trades_view(prev_trades)
                    + fc.trades);
                assert(ids_view(removed@) =~= ids_view(prev_removed).push(head_id as int));
                assert(ids_view(removed@) + fn_.removed =~= ids_view(prev_removed) + fc.removed);
                assert forall|k: int| 0 <= k < lvl@.queue.len() implies 1 <= (
                #[trigger] lvl@.queue[k]).amount <= i32::MAX && 0 <= lvl@.queue[k].id
                    <= u128::MAX by {
                    assert(lvl@.queue[k] == prev_q[k + 1]);
                }
                assert forall|i: int, j: int| 0 <= i < j < lvl@.queue.len() implies (
                #[trigger] lvl@.queue[i]).id != (#[trigger] lvl@.queue[j]).id by {
                    assert(lvl@.queue[i] == prev_q[i + 1]);
                    assert(lvl@.queue[j] == prev_q[j + 1]);
                }
            }
        } else {
            // the head absorbs the whole residual and stays, reduced
            trades.push(
                Trade {
                    price: lvl.price,
                    amount: rem,
                    aggressor_id: aggr_id,
                    resting_id: head_id,
                },
            );
            let mut h = lvl.orders.remove(0);
            h.amount = h.amount - rem;
            lvl.orders.insert(0, h);
            lvl.total_amount = lvl.total_amount - rem;
            rem = 0;
            proof {
                let t = TradeV {
                    price: old(lvl)@.price,
                    amount: prev_rem,
                    aggressor_id: aggr_id as int,
                    resting_id: head_id as int,
                };
                assert(lvl@.queue =~= prev_q.update(
                    0,
                    RestingV { id: head_id as int, amount: head_amt - prev_rem },
                ));
                assert(fc.queue == lvl@.queue);
                assert(fc.residual == 0);
                assert(fc.trades == seq![t]);
                assert(fc.removed == Seq::<int>::empty());
                let fn_ = match_queue(lvl@.queue, 0, old(lvl)@.price, aggr_id as int);
                assert(fn_.queue == lvl@.queue);
                assert(fn_.trades == Seq::<TradeV>::empty());
                assert(fn_.removed == Seq::<int>::empty());
                assert(trades_view(trades@) =~= trades_view(prev_trades).push(t));
                assert(trades_view(trades@) + fn_.trades =~= trades_view(prev_trades)
                    + fc.trades);
                assert(ids_view(removed@) + fn_.removed =~= ids_view(prev_removed) + fc.removed);
                assert(sum_queue(lvl@.queue) == lvl@.queue[0].amount + sum_queue(
                    lvl@.queue.drop_first(),
                ));
                assert(lvl@.queue.drop_first() =~= prev_q.drop_first());
                assert forall|k: int| 0 <= k < lvl@.queue.len() implies 1 <= (
                #[trigger] lvl@.queue[k]).amount <= i32::MAX && 0 <= lvl@.queue[k].id
                    <= u128::MAX by {
                    if k > 0 {
                        assert(lvl@.queue[k] == prev_q[k]);
                    }
                }
                assert forall|i: int, j: int| 0 <= i < j < lvl@.queue.len() implies (
                #[trigger] lvl@.queue[i]).id != (#[trigger] lvl@.queue[j]).id by {
                    assert(lvl@.queue[i].id == prev_q[i].id);
                    assert(lvl@.queue[j].id == prev_q[j].id);
                }
            }
        }
    }
    proof {
        let fc = match_queue(lvl@.queue, rem as int, old(lvl)@.price, aggr_id as int);
        assert(fc.queue == lvl@.queue);
        assert(fc.trades == Seq::<TradeV>::empty());
        assert(fc.removed == Seq::<int>::empty());
        assert(trades_view(trades@) + fc.trades =~= trades_view(trades@));
        assert(ids_view(removed@) + fc.removed =~= ids_view(removed@));
    }
    rem
}

/// Cross an aggressive order against the opposing side, best level first,
/// exactly as [`match_levels`] describes. Returns the trades, the residual
/// quantity, and the ids of the fully filled resting orders.
fn match_engine(
    levels: &mut Vec<PriceLevel>,
    action: Action,
    is_market: bool,
    limit: i64,
    qty: i32,
    aggr_id: u128,
    Ghost(is_bid): Ghost<bool>,
) -> (r: (Vec<Trade>, i32, Vec<u128>))
    requires
        side_wf(side_view(old(levels)@), is_bid),
        side_ids_distinct(side_view(old(levels)@)),
        0 <= qty,
        is_bid == (action is Sell),
    ensures
        ({
            let m = match_levels(
                side_view(old(levels)@),
                action,
                is_market,
                limit as int,
                qty as int,
                aggr_id as int,
            );
            &&& side_view(final(levels)@) == m.levels
            &&& trades_view(r.0@) == m.trades
            &&& r.1 == m.residual
            &&& 0 <= r.1 <= qty
            &&& ids_view(r.2@) == m.removed
            &&& side_wf(side_view(final(levels)@), is_bid)
            &&& side_ids_distinct(side_view(final(levels)@))
        }),
{
    let ghost s0 = side_view(old(levels)@);
    let ghost m0 = match_levels(s0, action, is_market, limit as int, qty as int, aggr_id as int);
    let mut trades: Vec<Trade> = Vec::new();
    let mut removed: Vec<u128> = Vec::new();
    let mut rem = qty;
    loop
        invariant
            0 <= rem <= qty,
            side_wf(side_view(levels@), is_bid),
            side_ids_distinct(side_view(levels@)),
            is_bid == (action is Sell),
            ({
                let mc = match_levels(
                    side_view(levels@),
                    action,
                    is_market,
                    limit as int,
                    rem as int,
                    aggr_id as int,
                );
                &&& m0.levels == mc.levels
                &&& m0.residual == mc.residual
                &&& trades_view(trades@) + mc.trades == m0.trades
                &&& ids_view(removed@) + mc.removed == m0.removed
            }),
        ensures
            0 <= rem <= qty,
            side_wf(side_view(levels@), is_bid),
            side_ids_distinct(side_view(levels@)),
            rem <= 0 || side_view(levels@).len() == 0 || !crossable(
                action,
                side_view(levels@)[0].price,
                is_market,
                limit as int,
            ),
            ({
                let mc = match_levels(
                    side_view(levels@),
                    action,
                    is_market,
                    limit as int,
                    rem as int,
                    aggr_id as int,
                );
                &&& m0.levels == mc.levels
                &&& m0.residual == mc.residual
                &&& trades_view(trades@) + mc.trades == m0.trades
                &&& ids_view(removed@) + mc.removed == m0.removed
            }),
        decreases levels@.len() + rem,
    {
        if rem <= 0 || levels.len() == 0 {
            break;
        }
        let front_price = levels[0].price;
        proof {
            assert(side_view(levels@)[0] == levels@[0]@);
        }
        let cross = is_market || (match action {
            Action::Buy => front_price <= limit,
            Action::Sell => front_price >= limit,
        });
        if !cross {
            proof {
                assert(!crossable(action, side_view(levels@)[0].price, is_market, limit as int));
            }
            break;
        }
        let ghost s_cur = side_view(levels@);
        let ghost rem_cur = rem as int;
        let ghost mc = match_levels(s_cur, action, is_market, limit as int, rem_cur, aggr_id as int);
        proof {
            assert(crossable(action, s_cur[0].price, is_market, limit as int));
            lemma_match_levels_props(s_cur, action, is_market, limit as int, rem_cur, aggr_id as int, is_bid);
        }
        let mut lvl = levels.remove(0);
        proof {
            assert(lvl@ == s_cur[0]);
            assert(side_view(levels@) =~= s_cur.drop_first());
            assert(level_wf(s_cur[0]));
            assert forall|i: int, j: int| 0 <= i < j < lvl@.queue.len() implies (
            #[trigger] lvl@.queue[i]).id != (#[trigger] lvl@.queue[j]).id by {
                assert(s_cur[0].queue[i].id != s_cur[0].queue[j].id);
            }
            lemma_side_drop_wf(s_cur, is_bid);
            lemma_match_queue_props(s_cur[0].queue, rem_cur, s_cur[0].price, aggr_id as int);
        }
        let ghost prev_trades = trades@;
        let ghost prev_removed = removed@;
        let res = fill_level(&mut lvl, rem, aggr_id, &mut trades, &mut removed);
        let ghost f = match_queue(s_cur[0].queue, rem_cur, s_cur[0].price, aggr_id as int);
        if lvl.orders.len() > 0 {
            // the front level survives with a shortened queue; the walk is over
            proof {
                assert(lvl@.queue == f.queue);
                assert(f.queue.len() > 0);
                assert(res == 0);
            }
            levels.insert(0, lvl);
            rem = res;
            proof {
                assert(side_view(levels@) =~= seq![
                    LevelV {
                        price: s_cur[0].price,
                        total: s_cur[0].total - (rem_cur - f.residual),
                        queue: f.queue,
                    },
                ] + s_cur.drop_first());
                assert(mc.levels == side_view(levels@));
                assert(mc.trades == f.trades);
                assert(mc.removed == f.removed);
                assert(mc.residual == f.residual);
                let mcn = match_levels(
                    side_view(levels@),
                    action,
                    is_market,
                    limit as int,
                    0,
                    aggr_id as int,
                );
                assert(mcn.levels == side_view(levels@));
                assert(mcn.trades == Seq::<TradeV>::empty());
                assert(mcn.removed == Seq::<int>::empty());
                assert(trades_view(trades@) == trades_view(prev_trades) + f.trades);
                assert(trades_view(trades@) + mcn.trades =~= trades_view(prev_trades) + mc.trades);
                assert(ids_view(removed@) == ids_view(prev_removed) + f.removed);
                assert(ids_view(removed@) + mcn.removed =~= ids_view(prev_removed) + mc.removed);
                // the new side is exactly what the walk leaves, which is well-formed
                assert(side_wf(side_view(levels@), is_bid));
                assert(side_ids_distinct(side_view(levels@)));
            }
        } else {
            // the front level was consumed whole and is deleted
            rem = res;
            proof {
                assert(lvl@.queue == f.queue);
                assert(f.queue.len() == 0);
                assert(side_view(levels@) =~= s_cur.drop_first());
                let mcn = match_levels(
                    side_view(levels@),
                    action,
                    is_market,
                    limit as int,
                    rem as int,
                    aggr_id as int,
                );
                assert(mc.levels == mcn.levels);
                assert(mc.trades == f.trades + mcn.trades);
                assert(mc.removed == f.removed + mcn.removed);
                assert(trades_view(trades@) == trades_view(prev_trades) + f.trades);
                assert(trades_view(trades@) + mcn.trades =~= trades_view(prev_trades) + (f.trades
                    + mcn.trades));
                assert(ids_view(removed@) == ids_view(prev_removed) + f.removed);
                assert(ids_view(removed@) + mcn.removed =~= ids_view(prev_removed) + (f.removed
                    + mcn.removed));
            }
        }
    }
    proof {
        let mc = match_levels(
            side_view(levels@),
            action,
            is_market,
            limit as int,
            rem as int,
            aggr_id as int,
        );
        assert(mc.levels == side_view(levels@));
        assert(mc.trades == Seq::<TradeV>::empty());
        assert(mc.removed == Seq::<int>::empty());
        assert(mc.residual == rem as int);
        assert(trades_view(trades@) =~= trades_view(trades@) + mc.trades);
        assert(ids_view(removed@) =~= ids_view(removed@) + mc.removed);
    }
    (trades, rem, removed)
}

/// Drop the index entries of the given ids, each of which is indexed once.
fn prune_index(index: &mut Vec<IndexEntry>, removed: &Vec<u128>)
    requires
        index_ids_distinct(old(index)@),
        forall|a: int, b: int| 0 <= a < b < removed@.len() ==> removed@[a] != removed@[b],
        forall|a: int|
            0 <= a < removed@.len() ==> index_has_id(old(index)@, (#[trigger] removed@[a]) as int),
    ensures
        index_ids_distinct(final(index)@),
        index_entries_from(final(index)@, old(index)@),
        forall|x: int|
            index_has_id(final(index)@, x) <==> index_has_id(old(index)@, x) && !ids_view(
                removed@,
            ).contains(x),
{
    let mut a: usize = 0;
    proof {
        assert forall|n: int| 0 <= n < index@.len() implies index_entry_in(
            #[trigger] index@[n],
            old(index)@,
        ) by {
            assert(old(index)@[n] == index@[n]);
        }
    }
    while a < removed.len()
        invariant
            a <= removed@.len(),
            index_ids_distinct(index@),
            index_entries_from(index@, old(index)@),
            forall|c: int, b: int| 0 <= c < b < removed@.len() ==> removed@[c] != removed@[b],
            forall|c: int|
                0 <= c < removed@.len() ==> index_has_id(
                    old(index)@,
                    (#[trigger] removed@[c]) as int,
                ),
            forall|x: int|
                index_has_id(index@, x) <==> index_has_id(old(index)@, x) && !ids_view(
                    removed@.take(a as int),
                ).contains(x),
        decreases removed@.len() - a,
    {
        let id = removed[a];
        proof {
            assert(index_has_id(old(index)@, id as int));
            assert(!ids_view(removed@.take(a as int)).contains(id as int)) by {
                if ids_view(removed@.take(a as int)).contains(id as int) {
                    let c = choose|c: int|
                        0 <= c < ids_view(removed@.take(a as int)).len() && ids_view(
                            removed@.take(a as int),
                        )[c] == id as int;
                    assert(removed@[c] == removed@[a as int]);
                }
            }
            assert(index_has_id(index@, id as int));
        }
        let pos = index_pos(index, id);
        match pos {
            Some(n) => {
                let ghost prev = index@;
                index.remove(n);
                proof {
                    assert(index@ == prev.remove(n as int));
                    assert forall|j: int, k: int| 0 <= j < k < index@.len() implies (
                    #[trigger] index@[j]).id != (#[trigger] index@[k]).id by {
                        let jj = if j < n {
                            j
                        } else {
                            j + 1
                        };
                        let kk = if k < n {
                            k
                        } else {
                            k + 1
                        };
                        assert(index@[j] == prev[jj]);
                        assert(index@[k] == prev[kk]);
                    }
                    assert forall|j: int| 0 <= j < index@.len() implies index_entry_in(
                        #[trigger] index@[j],
                        old(index)@,
                    ) by {
                        let jj = if j < n {
                            j
                        } else {
                            j + 1
                        };
                        assert(index@[j] == prev[jj]);
                        assert(index_entry_in(prev[jj], old(index)@));
                    }
                    assert forall|x: int| index_has_id(index@, x) implies index_has_id(
                        old(index)@,
                        x,
                    ) && !ids_view(removed@.take(a as int + 1)).contains(x) by {
                        let j = choose|j: int| 0 <= j < index@.len() && index@[j].id == x;
                        let jj = if j < n {
                            j
                        } else {
                            j + 1
                        };
                        assert(index@[j] == prev[jj]);
                        assert(index_has_id(prev, x));
                        // x still present, so x is not the id just struck
                        assert(x != id as int) by {
                            if x == id as int {
                                assert(prev[jj].id == prev[n as int].id);
                            }
                        }
                        assert(!ids_view(removed@.take(a as int + 1)).contains(x)) by {
                            if ids_view(removed@.take(a as int + 1)).contains(x) {
                                let c = choose|c: int|
                                    0 <= c < a as int + 1 && #[trigger] ids_view(
                                        removed@.take(a as int + 1),
                                    )[c] == x;
                                assert(removed@[c] as int == x);
                                if c < a as int {
                                    assert(ids_view(removed@.take(a as int))[c] == x);
                                    assert(!index_has_id(prev, x));
                                }
                            }
                        }
                    }
                    assert forall|x: int|
                        index_has_id(old(index)@, x) && !ids_view(
                            removed@.take(a as int + 1),
                        ).contains(x) implies index_has_id(index@, x) by {
                        assert(!ids_view(removed@.take(a as int)).contains(x)) by {
                            if ids_view(removed@.take(a as int)).contains(x) {
                                let c = choose|c: int|
                                    0 <= c < a as int && #[trigger] ids_view(
                                        removed@.take(a as int),
                                    )[c] == x;
                                assert(ids_view(removed@.take(a as int + 1))[c] == x);
                            }
                        }
                        assert(index_has_id(prev, x));
                        let j = choose|j: int| 0 <= j < prev.len() && prev[j].id == x;
                        assert(x != id as int) by {
                            assert(ids_view(removed@.take(a as int + 1))[a as int] == id as int);
                        }
                        assert(j != n);
                        let jj = if j < n {
                            j
                        } else {
                            j - 1
                        };
                        assert(index@[jj] == prev[j]);
                        assert(index_has_id(index@, x));
                    }
                }
            },
            None => {
                proof {
                    assert(false);
                }
            },
        }
        a = a + 1;
    }
    proof {
        assert(removed@.take(removed@.len() as int) =~= removed@);
    }
}

/// After matching the opposing side and pruning the filled ids from the
/// index, the book is well-formed again and the index is consistent with it.
#[verifier::rlimit(80)]
proof fn lemma_book_after_match(
    b0: BookV,
    idx0: Seq<IndexEntry>,
    idx1: Seq<IndexEntry>,
    action: Action,
    is_market: bool,
    limit: int,
    qty: int,
    aggr_id: int,
    ts: int,
)
    requires
        book_wf(b0),
        index_wf(b0, idx0),
        0 <= qty <= i32::MAX,
        0 <= ts <= u128::MAX,
        index_entries_from(idx1, idx0),
        index_ids_distinct(idx1),
        forall|x: int|
            index_has_id(idx1, x) <==> index_has_id(idx0, x) && !match_levels(
                opposite_of(b0, action),
                action,
                is_market,
                limit,
                qty,
                aggr_id,
            ).removed.contains(x),
    ensures
        ({
            let m = match_levels(opposite_of(b0, action), action, is_market, limit, qty, aggr_id);
            let b1 = match action {
                Action::Buy => BookV { asks: m.levels, last_update: ts, ..b0 },
                Action::Sell => BookV { bids: m.levels, last_update: ts, ..b0 },
            };
            &&& book_wf(b1)
            &&& index_wf(b1, idx1)
        }),
{
    let opp0 = opposite_of(b0, action);
    let same0 = side_of(b0, action);
    let opp_is_bid = action is Sell;
    lemma_match_levels_props(opp0, action, is_market, limit, qty, aggr_id, opp_is_bid);
    let m = match_levels(opp0, action, is_market, limit, qty, aggr_id);
    let b1 = match action {
        Action::Buy => BookV { asks: m.levels, last_update: ts, ..b0 },
        Action::Sell => BookV { bids: m.levels, last_update: ts, ..b0 },
    };
    // the two sides of b1, named uniformly
    assert(side_of(b1, action) == same0);
    assert(opposite_of(b1, action) == m.levels);
    // --- book_wf ---
    assert(not_crossed(b1)) by {
        if b1.bids.len() > 0 && b1.asks.len() > 0 {
            match action {
                Action::Buy => {
                    assert(m.levels[0].price >= opp0[0].price);
                },
                Action::Sell => {
                    assert(m.levels[0].price <= opp0[0].price);
                },
            }
        }
    }
    assert forall|i: int, k: int, j: int, l: int|
        0 <= i < b1.bids.len() && 0 <= k < b1.bids[i].queue.len() && 0 <= j < b1.asks.len() && 0
            <= l < b1.asks[j].queue.len() implies (#[trigger] b1.bids[i].queue[k]).id != (
    #[trigger] b1.asks[j].queue[l]).id by {
        let x = b1.bids[i].queue[k].id;
        let y = b1.asks[j].queue[l].id;
        if x == y {
            assert(level_has_id(b1.bids[i], x)) by {
                assert(b1.bids[i].queue[k].id == x);
            }
            assert(level_has_id(b1.asks[j], y)) by {
                assert(b1.asks[j].queue[l].id == y);
            }
            assert(side_has_id(b1.bids, x));
            assert(side_has_id(b1.asks, y));
            // map both back to b0 and contradict b0's side disjointness
            assert(side_has_id(b0.bids, x)) by {
                if action is Sell {
                    assert(side_has_id(m.levels, x) ==> side_has_id(opp0, x));
                }
            }
            assert(side_has_id(b0.asks, y)) by {
                if action is Buy {
                    assert(side_has_id(m.levels, y) ==> side_has_id(opp0, y));
                }
            }
            let bi = choose|bi: int| 0 <= bi < b0.bids.len() && level_has_id(b0.bids[bi], x);
            let bk = choose|bk: int|
                0 <= bk < b0.bids[bi].queue.len() && b0.bids[bi].queue[bk].id == x;
            let aj = choose|aj: int| 0 <= aj < b0.asks.len() && level_has_id(b0.asks[aj], y);
            let al = choose|al: int|
                0 <= al < b0.asks[aj].queue.len() && b0.asks[aj].queue[al].id == y;
            assert(b0.bids[bi].queue[bk].id != b0.asks[aj].queue[al].id);
        }
    }
    assert(book_wf(b1));
    // --- index_wf ---
    assert forall|n: int| 0 <= n < idx1.len() implies side_id_at_price(
        side_of(b1, (#[trigger] idx1[n]).action),
        idx1[n].price as int,
        idx1[n].id as int,
    ) by {
        assert(index_entry_in(idx1[n], idx0));
        let mm = choose|mm: int| 0 <= mm < idx0.len() && #[trigger] idx0[mm] == idx1[n];
        assert(side_id_at_price(
            side_of(b0, idx0[mm].action),
            idx0[mm].price as int,
            idx0[mm].id as int,
        ));
        assert(index_has_id(idx1, idx1[n].id as int)) by {
            assert(idx1[n].id == idx1[n].id);
        }
        assert(!m.removed.contains(idx1[n].id as int));
        if idx1[n].action == action {
            // the entry's side is untouched
            assert(side_of(b1, idx1[n].action) == side_of(b0, idx0[mm].action));
        } else {
            // the entry's side was matched; the id survived, at its price
            assert(side_of(b0, idx1[n].action) == opp0);
            assert(side_of(b1, idx1[n].action) == m.levels);
        }
    }
    assert forall|id: int| #[trigger] book_has_id(b1, id) implies index_has_id(idx1, id) by {
        if side_has_id(m.levels, id) {
            assert(side_has_id(opp0, id));
            assert(book_has_id(b0, id));
            assert(!m.removed.contains(id));
        } else {
            // resting on the untouched side
            assert(side_has_id(same0, id));
            assert(book_has_id(b0, id));
            assert(!m.removed.contains(id)) by {
                if m.removed.contains(id) {
                    assert(side_has_id(opp0, id));
                    // the id would rest on both sides of b0
                    let bi = choose|bi: int|
                        0 <= bi < same0.len() && level_has_id(#[trigger] same0[bi], id);
                    let bk = choose|bk: int|
                        0 <= bk < same0[bi].queue.len() && same0[bi].queue[bk].id == id;
                    let aj = choose|aj: int|
                        0 <= aj < opp0.len() && level_has_id(#[trigger] opp0[aj], id);
                    let al = choose|al: int|
                        0 <= al < opp0[aj].queue.len() && opp0[aj].queue[al].id == id;
                    match action {
                        Action::Buy => {
                            assert(b0.bids[bi].queue[bk].id != b0.asks[aj].queue[al].id);
                        },
                        Action::Sell => {
                            assert(b0.bids[aj].queue[al].id != b0.asks[bi].queue[bk].id);
                        },
                    }
                }
            }
        }
    }
    assert(index_wf(b1, idx1));
}

/// After depositing a Limit residual on its own side and indexing it, the
/// book is well-formed again and the index is consistent with it.
#[verifier::rlimit(80)]
proof fn lemma_book_after_insert(
    b1: BookV,
    idx1: Seq<IndexEntry>,
    action: Action,
    price: i64,
    residual: i32,
    rid: u128,
    pos: int,
)
    requires
        book_wf(b1),
        index_wf(b1, idx1),
        1 <= price,
        1 <= residual,
        !book_has_id(b1, rid as int),
        !insert_overflows(side_of(b1, action), price as int, residual as int),
        0 <= pos <= side_of(b1, action).len(),
        forall|i: int|
            0 <= i < pos ==> level_precedes(
                action is Buy,
                (#[trigger] side_of(b1, action)[i]).price,
                price as int,
            ),
        pos < side_of(b1, action).len() ==> (side_of(b1, action)[pos].price == price
            || level_precedes(action is Buy, price as int, side_of(b1, action)[pos].price)),
        opposite_of(b1, action).len() > 0 ==> !crossable(
            action,
            opposite_of(b1, action)[0].price,
            false,
            price as int,
        ),
    ensures
        ({
            let r = RestingV { id: rid as int, amount: residual as int };
            let t = insert_resting(side_of(b1, action), action is Buy, price as int, r);
            let b2 = match action {
                Action::Buy => BookV { bids: t, ..b1 },
                Action::Sell => BookV { asks: t, ..b1 },
            };
            &&& book_wf(b2)
            &&& index_wf(b2, idx1.push(IndexEntry { id: rid, action, price }))
        }),
{
    let is_bid = action is Buy;
    let same1 = side_of(b1, action);
    let opp1 = opposite_of(b1, action);
    let r = RestingV { id: rid as int, amount: residual as int };
    assert(!side_has_id(same1, r.id));
    lemma_insert_props_at(same1, is_bid, price as int, r, pos);
    let t = insert_resting(same1, is_bid, price as int, r);
    let b2 = match action {
        Action::Buy => BookV { bids: t, ..b1 },
        Action::Sell => BookV { asks: t, ..b1 },
    };
    let idx2 = idx1.push(IndexEntry { id: rid, action, price });
    assert(side_of(b2, action) == t);
    assert(opposite_of(b2, action) == opp1);
    // --- book_wf ---
    assert(not_crossed(b2)) by {
        if b2.bids.len() > 0 && b2.asks.len() > 0 {
            assert(opp1.len() > 0);
            match action {
                Action::Buy => {
                    assert(opp1[0].price > price);
                    if same1.len() > 0 {
                        assert(b1.bids[0].price < b1.asks[0].price);
                    }
                },
                Action::Sell => {
                    assert(opp1[0].price < price);
                    if same1.len() > 0 {
                        assert(b1.bids[0].price < b1.asks[0].price);
                    }
                },
            }
        }
    }
    assert forall|i: int, k: int, j: int, l: int|
        0 <= i < b2.bids.len() && 0 <= k < b2.bids[i].queue.len() && 0 <= j < b2.asks.len() && 0
            <= l < b2.asks[j].queue.len() implies (#[trigger] b2.bids[i].queue[k]).id != (
    #[trigger] b2.asks[j].queue[l]).id by {
        let x = b2.bids[i].queue[k].id;
        let y = b2.asks[j].queue[l].id;
        if x == y {
            assert(level_has_id(b2.bids[i], x)) by {
                assert(b2.bids[i].queue[k].id == x);
            }
            assert(level_has_id(b2.asks[j], y)) by {
                assert(b2.asks[j].queue[l].id == y);
            }
            assert(side_has_id(b2.bids, x));
            assert(side_has_id(b2.asks, y));
            match action {
                Action::Buy => {
                    assert(side_has_id(b1.asks, y));
                    assert(side_has_id(b1.bids, x) || x == r.id);
                    if x == r.id {
                        assert(book_has_id(b1, rid as int));
                    } else {
                        let bi = choose|bi: int|
                            0 <= bi < b1.bids.len() && level_has_id(#[trigger] b1.bids[bi], x);
                        let bk = choose|bk: int|
                            0 <= bk < b1.bids[bi].queue.len() && b1.bids[bi].queue[bk].id == x;
                        let aj = choose|aj: int|
                            0 <= aj < b1.asks.len() && level_has_id(#[trigger] b1.asks[aj], y);
                        let al = choose|al: int|
                            0 <= al < b1.asks[aj].queue.len() && b1.asks[aj].queue[al].id == y;
                        assert(b1.bids[bi].queue[bk].id != b1.asks[aj].queue[al].id);
                    }
                },
                Action::Sell => {
                    assert(side_has_id(b1.bids, x));
                    assert(side_has_id(b1.asks, y) || y == r.id);
                    if y == r.id {
                        assert(book_has_id(b1, rid as int));
                    } else {
                        let bi = choose|bi: int|
                            0 <= bi < b1.bids.len() && level_has_id(#[trigger] b1.bids[bi], x);
                        let bk = choose|bk: int|
                            0 <= bk < b1.bids[bi].queue.len() && b1.bids[bi].queue[bk].id == x;
                        let aj = choose|aj: int|
                            0 <= aj < b1.asks.len() && level_has_id(#[trigger] b1.asks[aj], y);
                        let al = choose|al: int|
                            0 <= al < b1.asks[aj].queue.len() && b1.asks[aj].queue[al].id == y;
                        assert(b1.bids[bi].queue[bk].id != b1.asks[aj].queue[al].id);
                    }
                },
            }
        }
    }
    assert(book_wf(b2));
    // --- index_wf ---
    assert(!index_has_id(idx1, rid as int)) by {
        if index_has_id(idx1, rid as int) {
            let n = choose|n: int| 0 <= n < idx1.len() && (#[trigger] idx1[n]).id == rid;
            assert(side_id_at_price(
                side_of(b1, idx1[n].action),
                idx1[n].price as int,
                idx1[n].id as int,
            ));
            let i = choose|i: int|
                0 <= i < side_of(b1, idx1[n].action).len() && (#[trigger] side_of(
                    b1,
                    idx1[n].action,
                )[i]).price == idx1[n].price as int && level_has_id(
                    side_of(b1, idx1[n].action)[i],
                    idx1[n].id as int,
                );
            assert(side_has_id(side_of(b1, idx1[n].action), rid as int));
            assert(book_has_id(b1, rid as int));
        }
    }
    assert forall|n: int, mm: int| 0 <= n < mm < idx2.len() implies (#[trigger] idx2[n]).id != (
    #[trigger] idx2[mm]).id by {
        if mm == idx1.len() as int {
            assert(idx2[mm].id == rid);
            assert(idx2[n] == idx1[n]);
            if idx2[n].id == rid {
                assert(index_has_id(idx1, rid as int)) by {
                    assert(idx1[n].id == rid);
                }
            }
        } else {
            assert(idx2[n] == idx1[n]);
            assert(idx2[mm] == idx1[mm]);
        }
    }
    assert forall|n: int| 0 <= n < idx2.len() implies side_id_at_price(
        side_of(b2, (#[trigger] idx2[n]).action),
        idx2[n].price as int,
        idx2[n].id as int,
    ) by {
        if n == idx1.len() as int {
            assert(idx2[n] == IndexEntry { id: rid, action, price });
            assert(side_id_at_price(t, price as int, r.id));
        } else {
            assert(idx2[n] == idx1[n]);
            assert(side_id_at_price(
                side_of(b1, idx1[n].action),
                idx1[n].price as int,
                idx1[n].id as int,
            ));
            assert(idx1[n].id != rid) by {
                if idx1[n].id == rid {
                    assert(index_has_id(idx1, rid as int)) by {
                        assert(idx1[n].id == rid);
                    }
                }
            }
            if idx1[n].action == action {
                assert(side_of(b1, idx1[n].action) == same1);
                assert(side_id_at_price(t, idx1[n].price as int, idx1[n].id as int));
            } else {
                assert(side_of(b2, idx1[n].action) == side_of(b1, idx1[n].action));
            }
        }
    }
    assert forall|id: int| #[trigger] book_has_id(b2, id) implies index_has_id(idx2, id) by {
        if id == rid as int {
            assert(idx2[idx1.len() as int].id == rid);
        } else {
            assert(book_has_id(b1, id)) by {
                if side_has_id(t, id) {
                    assert(side_has_id(same1, id) || id == r.id);
                }
            }
            assert(index_has_id(idx1, id));
            let n = choose|n: int| 0 <= n < idx1.len() && (#[trigger] idx1[n]).id == id;
            assert(idx2[n].id == id);
        }
    }
    assert(index_wf(b2, idx2));
}

/// Deposit a resting order at the tail of its price level's queue, creating
/// the level in sorted position if absent.
fn insert_resting_exec(levels: &mut Vec<PriceLevel>, is_bid: bool, resting: Order)
    requires
        1 <= resting.amount,
        1 <= resting.price,
        !insert_overflows(
            side_view(old(levels)@),
            resting.price as int,
            resting.amount as int,
        ),
    ensures
        side_view(final(levels)@) == insert_resting(
            side_view(old(levels)@),
            is_bid,
            resting.price as int,
            RestingV { id: resting.id as int, amount: resting.amount as int },
        ),
{
    let ghost s0 = side_view(old(levels)@);
    let ghost r = RestingV { id: resting.id as int, amount: resting.amount as int };
    let pos = insert_pos(levels, is_bid, resting.price);
    proof {
        lemma_insert_resting_at(s0, is_bid, resting.price as int, r, pos as int);
    }
    if pos < levels.len() && levels[pos].price == resting.price {
        proof {
            assert(s0[pos as int] == levels@[pos as int]@);
            assert(!(s0[pos as int].total + r.amount > i32::MAX)) by {
                if s0[pos as int].total + r.amount > i32::MAX {
                    assert(insert_overflows(s0, resting.price as int, r.amount)) by {
                        assert(s0[pos as int].price == resting.price as int && s0[pos as int].total
                            + r.amount > i32::MAX);
                    }
                }
            }
        }
        let mut lvl = levels.remove(pos);
        lvl.total_amount = lvl.total_amount + resting.amount;
        lvl.orders.push(resting);
        levels.insert(pos, lvl);
        proof {
            assert(lvl@.queue =~= s0[pos as int].queue.push(r));
            assert(side_view(levels@) =~= s0.update(
                pos as int,
                LevelV {
                    price: resting.price as int,
                    total: s0[pos as int].total + r.amount,
                    queue: s0[pos as int].queue.push(r),
                },
            ));
        }
    } else {
        let price = resting.price;
        let amount = resting.amount;
        let mut orders: Vec<Order> = Vec::new();
        orders.push(resting);
        let lvl = PriceLevel { price, total_amount: amount, orders };
        proof {
            assert(lvl@.queue =~= seq![r]);
        }
        levels.insert(pos, lvl);
        proof {
            assert(side_view(levels@) =~= s0.insert(
                pos as int,
                LevelV { price: resting.price as int, total: r.amount, queue: seq![r] },
            ));
        }
    }
}

/// Position of the resting order carrying `id` in a level's queue, if any.
fn find_order_pos(orders: &Vec<Order>, id: u128) -> (r: Option<usize>)
    ensures
        match r {
            Some(k) => k < orders@.len() && orders@[k as int].id == id,
            None => forall|k: int| 0 <= k < orders@.len() ==> (#[trigger] orders@[k]).id != id,
        },
{
    let mut k: usize = 0;
    while k < orders.len()
        invariant
            k <= orders@.len(),
            forall|j: int| 0 <= j < k ==> (#[trigger] orders@[j]).id != id,
        decreases orders@.len() - k,
    {
        if orders[k].id == id {
            return Some(k);
        }
        k = k + 1;
    }
    None
}

/// Strike the resting order at queue position `k` of level `i`: the queue
/// loses the entry, the total drops by its quantity, and an emptied level is
/// deleted.
fn remove_resting_exec(levels: &mut Vec<PriceLevel>, i: usize, k: usize)
    requires
        i < old(levels)@.len(),
        k < old(levels)@[i as int].orders@.len(),
        level_wf(side_view(old(levels)@)[i as int]),
    ensures
        ({
            let s0 = side_view(old(levels)@);
            let amt = s0[i as int].queue[k as int].amount;
            side_view(final(levels)@) == (if s0[i as int].queue.len() == 1 {
                s0.remove(i as int)
            } else {
                s0.update(
                    i as int,
                    LevelV {
                        price: s0[i as int].price,
                        total: s0[i as int].total - amt,
                        queue: s0[i as int].queue.remove(k as int),
                    },
                )
            })
        }),
{
    let ghost s0 = side_view(old(levels)@);
    let ghost q = s0[i as int].queue;
    let mut lvl = levels.remove(i);
    proof {
        assert(lvl@ == s0[i as int]);
        assert(lvl@.queue[k as int] == RestingV {
            id: lvl.orders@[k as int].id as int,
            amount: lvl.orders@[k as int].amount as int,
        });
        lemma_sum_queue_remove(q, k as int);
        assert forall|c: int| 0 <= c < q.remove(k as int).len() implies 1 <= (#[trigger] q.remove(
            k as int,
        )[c]).amount <= i32::MAX by {
            let cc = if c < k {
                c
            } else {
                c + 1
            };
            assert(q.remove(k as int)[c] == q[cc]);
        }
        lemma_sum_queue_nonneg(q.remove(k as int));
    }
    let victim = lvl.orders.remove(k);
    if lvl.orders.len() > 0 {
        lvl.total_amount = lvl.total_amount - victim.amount;
        levels.insert(i, lvl);
        proof {
            assert(lvl@.queue =~= q.remove(k as int));
            assert(side_view(levels@) =~= s0.update(
                i as int,
                LevelV {
                    price: s0[i as int].price,
                    total: s0[i as int].total - q[k as int].amount,
                    queue: q.remove(k as int),
                },
            ));
        }
    } else {
        proof {
            assert(q.len() == 1);
            assert(side_view(levels@) =~= s0.remove(i as int));
        }
    }
}

/// After striking a cancelled order and its index entry, the book is
/// well-formed again and the index is consistent with it.
#[verifier::rlimit(80)]
proof fn lemma_book_after_cancel(
    b0: BookV,
    idx0: Seq<IndexEntry>,
    action: Action,
    id: u128,
    i: int,
    k: int,
    n: int,
    ts: int,
)
    requires
        book_wf(b0),
        index_wf(b0, idx0),
        0 <= i < side_of(b0, action).len(),
        0 <= k < side_of(b0, action)[i].queue.len(),
        side_of(b0, action)[i].queue[k].id == id as int,
        0 <= n < idx0.len(),
        idx0[n].id == id,
        0 <= ts <= u128::MAX,
    ensures
        ({
            let t = side_remove_id(side_of(b0, action), id as int);
            let b2 = match action {
                Action::Buy => BookV { bids: t, last_update: ts, ..b0 },
                Action::Sell => BookV { asks: t, last_update: ts, ..b0 },
            };
            &&& t == (if side_of(b0, action)[i].queue.len() == 1 {
                side_of(b0, action).remove(i)
            } else {
                side_of(b0, action).update(
                    i,
                    LevelV {
                        price: side_of(b0, action)[i].price,
                        total: side_of(b0, action)[i].total - side_of(
                            b0,
                            action,
                        )[i].queue[k].amount,
                        queue: side_of(b0, action)[i].queue.remove(k),
                    },
                )
            })
            &&& book_wf(b2)
            &&& index_wf(b2, idx0.remove(n))
        }),
{
    let is_bid = action is Buy;
    let same0 = side_of(b0, action);
    let opp0 = opposite_of(b0, action);
    lemma_remove_props_at(same0, is_bid, id as int, i, k);
    let t = side_remove_id(same0, id as int);
    let b2 = match action {
        Action::Buy => BookV { bids: t, last_update: ts, ..b0 },
        Action::Sell => BookV { asks: t, last_update: ts, ..b0 },
    };
    let idx2 = idx0.remove(n);
    assert(side_of(b2, action) == t);
    assert(opposite_of(b2, action) == opp0);
    // --- book_wf ---
    assert(not_crossed(b2)) by {
        if b2.bids.len() > 0 && b2.asks.len() > 0 {
            assert(same0.len() > 0);
            match action {
                Action::Buy => {
                    assert(t[0].price <= same0[0].price);
                    assert(b0.bids[0].price < b0.asks[0].price);
                },
                Action::Sell => {
                    assert(t[0].price >= same0[0].price);
                    assert(b0.bids[0].price < b0.asks[0].price);
                },
            }
        }
    }
    assert forall|a: int, c: int, b: int, l: int|
        0 <= a < b2.bids.len() && 0 <= c < b2.bids[a].queue.len() && 0 <= b < b2.asks.len() && 0
            <= l < b2.asks[b].queue.len() implies (#[trigger] b2.bids[a].queue[c]).id != (
    #[trigger] b2.asks[b].queue[l]).id by {
        let x = b2.bids[a].queue[c].id;
        let y = b2.asks[b].queue[l].id;
        if x == y {
            assert(level_has_id(b2.bids[a], x)) by {
                assert(b2.bids[a].queue[c].id == x);
            }
            assert(level_has_id(b2.asks[b], y)) by {
                assert(b2.asks[b].queue[l].id == y);
            }
            assert(side_has_id(b2.bids, x));
            assert(side_has_id(b2.asks, y));
            assert(side_has_id(b0.bids, x));
            assert(side_has_id(b0.asks, y));
            let bi = choose|bi: int| 0 <= bi < b0.bids.len() && level_has_id(#[trigger] b0.bids[bi], x);
            let bk = choose|bk: int|
                0 <= bk < b0.bids[bi].queue.len() && b0.bids[bi].queue[bk].id == x;
            let aj = choose|aj: int| 0 <= aj < b0.asks.len() && level_has_id(#[trigger] b0.asks[aj], y);
            let al = choose|al: int|
                0 <= al < b0.asks[aj].queue.len() && b0.asks[aj].queue[al].id == y;
            assert(b0.bids[bi].queue[bk].id != b0.asks[aj].queue[al].id);
        }
    }
    assert(book_wf(b2));
    // --- index_wf ---
    assert forall|a: int, b: int| 0 <= a < b < idx2.len() implies (#[trigger] idx2[a]).id != (
    #[trigger] idx2[b]).id by {
        let aa = if a < n {
            a
        } else {
            a + 1
        };
        let bb = if b < n {
            b
        } else {
            b + 1
        };
        assert(idx2[a] == idx0[aa]);
        assert(idx2[b] == idx0[bb]);
    }
    assert forall|a: int| 0 <= a < idx2.len() implies side_id_at_price(
        side_of(b2, (#[trigger] idx2[a]).action),
        idx2[a].price as int,
        idx2[a].id as int,
    ) by {
        let aa = if a < n {
            a
        } else {
            a + 1
        };
        assert(idx2[a] == idx0[aa]);
        assert(side_id_at_price(
            side_of(b0, idx0[aa].action),
            idx0[aa].price as int,
            idx0[aa].id as int,
        ));
        assert(idx0[aa].id != id) by {
            if aa != n && idx0[aa].id == idx0[n].id {
                assert(false);
            }
        }
        if idx2[a].action == action {
            assert(side_of(b0, idx2[a].action) == same0);
            assert(side_id_at_price(t, idx2[a].price as int, idx2[a].id as int));
        } else {
            assert(side_of(b2, idx2[a].action) == side_of(b0, idx2[a].action));
        }
    }
    assert forall|x: int| #[trigger] book_has_id(b2, x) implies index_has_id(idx2, x) by {
        assert(x != id as int) by {
            if x == id as int {
                if side_has_id(t, x) {
                    assert(false);
                }
                if side_has_id(opp0, x) {
                    // the id rested on the cancel's side; it cannot also rest
                    // on the other side
                    let aj = choose|aj: int|
                        0 <= aj < opp0.len() && level_has_id(#[trigger] opp0[aj], x);
                    let al = choose|al: int|
                        0 <= al < opp0[aj].queue.len() && opp0[aj].queue[al].id == x;
                    match action {
                        Action::Buy => {
                            assert(b0.bids[i].queue[k].id != b0.asks[aj].queue[al].id);
                        },
                        Action::Sell => {
                            assert(b0.bids[aj].queue[al].id != b0.asks[i].queue[k].id);
                        },
                    }
                }
            }
        }
        assert(book_has_id(b0, x)) by {
            if side_has_id(t, x) {
                assert(side_has_id(same0, x));
            }
        }
        assert(index_has_id(idx0, x));
        let a = choose|a: int| 0 <= a < idx0.len() && (#[trigger] idx0[a]).id == x;
        assert(a != n);
        let aa = if a < n {
            a
        } else {
            a - 1
        };
        assert(idx2[aa] == idx0[a]);
        assert(index_has_id(idx2, x)) by {
            assert(idx2[aa].id == x);
        }
    }
    assert(index_wf(b2, idx2));
}

impl OrderBook {
    /// Apply a Market order: cross it against the opposing side; any residual
    /// is discarded, since market orders never rest.
    fn apply_market(&mut self, order: &Order) -> (r: Vec<Trade>)
        requires
            old(self).wf(),
            valid_order(order@),
            order@.symbol == old(self)@.symbol,
            order.order_type is Market,
        ensures
            final(self).wf(),
            ({
                let st = spec_apply(old(self)@, order@);
                &&& st is Some
                &&& final(self)@ == st->Some_0.0
                &&& trades_view(r@) == st->Some_0.1
            }),
    {
        let ghost b0 = old(self)@;
        let ghost idx0 = old(self).index@;
        let is_buy = match order.action {
            Action::Buy => true,
            Action::Sell => false,
        };
        let (trades, residual, removed): (Vec<Trade>, i32, Vec<u128>) = if is_buy {
            match_engine(&mut self.asks, order.action, true, 0, order.amount, order.id, Ghost(false))
        } else {
            match_engine(&mut self.bids, order.action, true, 0, order.amount, order.id, Ghost(true))
        };
        let ghost m = match_levels(
            opposite_of(b0, order.action),
            order.action,
            true,
            0,
            order.amount as int,
            order.id as int,
        );
        proof {
            lemma_match_levels_props(
                opposite_of(b0, order.action),
                order.action,
                true,
                0,
                order.amount as int,
                order.id as int,
                order.action is Sell,
            );
            assert(ids_view(removed@) == m.removed);
            assert forall|a: int, b: int| 0 <= a < b < removed@.len() implies removed@[a]
                != removed@[b] by {
                assert(ids_view(removed@)[a] == removed@[a] as int);
                assert(ids_view(removed@)[b] == removed@[b] as int);
                assert(m.removed[a] != m.removed[b]);
            }
            assert forall|a: int| 0 <= a < removed@.len() implies index_has_id(
                self.index@,
                (#[trigger] removed@[a]) as int,
            ) by {
                assert(ids_view(removed@)[a] == removed@[a] as int);
                assert(m.removed.contains(m.removed[a])) by {
                    assert(m.removed[a] == m.removed[a]);
                }
                assert(side_has_id(opposite_of(b0, order.action), removed@[a] as int));
                assert(book_has_id(b0, removed@[a] as int));
            }
        }
        prune_index(&mut self.index, &removed);
        self.last_update = order.timestamp;
        proof {
            assert forall|x: int| index_has_id(self.index@, x) <==> index_has_id(idx0, x)
                && !m.removed.contains(x) by {
                assert(ids_view(removed@) == m.removed);
            }
            lemma_book_after_match(
                b0,
                idx0,
                self.index@,
                order.action,
                true,
                0,
                order.amount as int,
                order.id as int,
                order.timestamp as int,
            );
            let b1 = match order.action {
                Action::Buy => BookV {
                    asks: m.levels,
                    last_update: order.timestamp as int,
                    ..b0
                },
                Action::Sell => BookV {
                    bids: m.levels,
                    last_update: order.timestamp as int,
                    ..b0
                },
            };
            assert(self@ == b1);
        }
        trades
    }

    /// Apply a Limit order: cross it against the opposing side, then deposit
    /// any residual at the tail of its own price level.
    #[verifier::rlimit(80)]
    fn apply_limit(&mut self, order: &Order) -> (r: Result<Vec<Trade>, InvalidOrder>)
        requires
            old(self).wf(),
            valid_order(order@),
            order@.symbol == old(self)@.symbol,
            order.order_type is Limit,
        ensures
            final(self).wf(),
            ({
                let st = spec_apply(old(self)@, order@);
                match r {
                    Ok(trades) => {
                        &&& st is Some
                        &&& final(self)@ == st->Some_0.0
                        &&& trades_view(trades@) == st->Some_0.1
                    },
                    Err(InvalidOrder::DuplicateId) => duplicate_limit(old(self)@, order@)
                        && final(self)@ == old(self)@ && final(self).index@ == old(self).index@,
                    Err(InvalidOrder::QtyOverflow) => limit_overflow(old(self)@, order@)
                        && final(self)@ == old(self)@ && final(self).index@ == old(self).index@,
                    Err(InvalidOrder::CancelMismatch) => false,
                }
            }),
    {
        let ghost b0 = old(self)@;
        let ghost idx0 = old(self).index@;
        // an id may rest only once: a duplicate Limit is rejected before any
        // mutation
        let dup = index_pos(&self.index, order.id);
        if let Some(n) = dup {
            proof {
                assert(side_id_at_price(
                    side_of(b0, self.index@[n as int].action),
                    self.index@[n as int].price as int,
                    self.index@[n as int].id as int,
                ));
                let i = choose|i: int|
                    0 <= i < side_of(b0, self.index@[n as int].action).len() && (#[trigger] side_of(
                        b0,
                        self.index@[n as int].action,
                    )[i]).price == self.index@[n as int].price as int && level_has_id(
                        side_of(b0, self.index@[n as int].action)[i],
                        self.index@[n as int].id as int,
                    );
                assert(side_has_id(side_of(b0, self.index@[n as int].action), order.id as int));
                assert(book_has_id(b0, order.id as int));
            }
            return Err(InvalidOrder::DuplicateId);
        }
        proof {
            assert(!index_has_id(idx0, order.id as int)) by {
                if index_has_id(idx0, order.id as int) {
                    let n = choose|n: int| 0 <= n < idx0.len() && (#[trigger] idx0[n]).id == order.id;
                }
            }
            assert(!book_has_id(b0, order.id as int));
        }
        // the whole quantity must be depositable at its price: checked before
        // any mutation (a machine limit, not a market rule)
        let is_buy = match order.action {
            Action::Buy => true,
            Action::Sell => false,
        };
        let opos = if is_buy {
            find_price_pos(&self.bids, order.price)
        } else {
            find_price_pos(&self.asks, order.price)
        };
        if let Some(i) = opos {
            let tot = if is_buy {
                self.bids[i].total_amount
            } else {
                self.asks[i].total_amount
            };
            proof {
                assert(side_of(b0, order.action)[i as int].total == tot as int);
            }
            if tot > i32::MAX - order.amount {
                proof {
                    assert(insert_overflows(
                        side_of(b0, order.action),
                        order.price as int,
                        order.amount as int,
                    )) by {
                        assert(side_of(b0, order.action)[i as int].price == order.price as int
                            && side_of(b0, order.action)[i as int].total + order.amount as int
                            > i32::MAX);
                    }
                }
                return Err(InvalidOrder::QtyOverflow);
            }
        }
        proof {
            assert(!insert_overflows(
                side_of(b0, order.action),
                order.price as int,
                order.amount as int,
            )) by {
                if insert_overflows(side_of(b0, order.action), order.price as int, order.amount as int) {
                    let j = choose|j: int|
                        0 <= j < side_of(b0, order.action).len() && (#[trigger] side_of(
                            b0,
                            order.action,
                        )[j]).price == order.price as int && side_of(b0, order.action)[j].total
                            + order.amount as int > i32::MAX;
                    match opos {
                        Some(i) => {
                            // prices are strictly ordered, so the level at this
                            // price is unique
                            assert(side_ordered(side_of(b0, order.action), order.action is Buy));
                            if j != i as int {
                                if j < i as int {
                                    assert(side_of(b0, order.action)[j].price != side_of(
                                        b0,
                                        order.action,
                                    )[i as int].price);
                                } else {
                                    assert(side_of(b0, order.action)[i as int].price != side_of(
                                        b0,
                                        order.action,
                                    )[j].price);
                                }
                            }
                        },
                        None => {},
                    }
                }
            }
        }
        // cross against the opposing side
        let (trades, residual, removed): (Vec<Trade>, i32, Vec<u128>) = if is_buy {
            match_engine(
                &mut self.asks,
                order.action,
                false,
                order.price,
                order.amount,
                order.id,
                Ghost(false),
            )
        } else {
            match_engine(
                &mut self.bids,
                order.action,
                false,
                order.price,
                order.amount,
                order.id,
                Ghost(true),
            )
        };
        let ghost m = match_levels(
            opposite_of(b0, order.action),
            order.action,
            false,
            order.price as int,
            order.amount as int,
            order.id as int,
        );
        proof {
            lemma_match_levels_props(
                opposite_of(b0, order.action),
                order.action,
                false,
                order.price as int,
                order.amount as int,
                order.id as int,
                order.action is Sell,
            );
            assert(ids_view(removed@) == m.removed);
            assert forall|a: int, b: int| 0 <= a < b < removed@.len() implies removed@[a]
                != removed@[b] by {
                assert(ids_view(removed@)[a] == removed@[a] as int);
                assert(ids_view(removed@)[b] == removed@[b] as int);
                assert(m.removed[a] != m.removed[b]);
            }
            assert forall|a: int| 0 <= a < removed@.len() implies index_has_id(
                self.index@,
                (#[trigger] removed@[a]) as int,
            ) by {
                assert(ids_view(removed@)[a] == removed@[a] as int);
                assert(m.removed.contains(m.removed[a])) by {
                    assert(m.removed[a] == m.removed[a]);
                }
                assert(side_has_id(opposite_of(b0, order.action), removed@[a] as int));
                assert(book_has_id(b0, removed@[a] as int));
            }
        }
        prune_index(&mut self.index, &removed);
        self.last_update = order.timestamp;
        proof {
            assert forall|x: int| index_has_id(self.index@, x) <==> index_has_id(idx0, x)
                && !m.removed.contains(x) by {
                assert(ids_view(removed@) == m.removed);
            }
            lemma_book_after_match(
                b0,
                idx0,
                self.index@,
                order.action,
                false,
                order.price as int,
                order.amount as int,
                order.id as int,
                order.timestamp as int,
            );
        }
        let ghost b1 = match order@.action {
            Action::Buy => BookV { asks: m.levels, last_update: order.timestamp as int, ..b0 },
            Action::Sell => BookV { bids: m.levels, last_update: order.timestamp as int, ..b0 },
        };
        proof {
            assert(self@ == b1);
        }
        if residual > 0 {
            let ghost idx1 = self.index@;
            proof {
                // the residual's own side is untouched by the matching
                assert(side_of(b1, order.action) == side_of(b0, order.action));
                assert(!book_has_id(b1, order.id as int)) by {
                    if side_has_id(m.levels, order.id as int) {
                        assert(side_has_id(opposite_of(b0, order.action), order.id as int));
                        assert(book_has_id(b0, order.id as int));
                    }
                    if side_has_id(side_of(b1, order.action), order.id as int) {
                        assert(book_has_id(b0, order.id as int));
                    }
                }
                assert(!insert_overflows(
                    side_of(b1, order.action),
                    order.price as int,
                    residual as int,
                )) by {
                    if insert_overflows(side_of(b1, order.action), order.price as int, residual as int) {
                        let j = choose|j: int|
                            0 <= j < side_of(b1, order.action).len() && (#[trigger] side_of(
                                b1,
                                order.action,
                            )[j]).price == order.price as int && side_of(b1, order.action)[j].total
                                + residual as int > i32::MAX;
                        assert(side_of(b0, order.action)[j].total + order.amount as int
                            > i32::MAX);
                        assert(insert_overflows(
                            side_of(b0, order.action),
                            order.price as int,
                            order.amount as int,
                        ));
                    }
                }
                // a positive residual means the opposing front is no longer
                // crossable at the limit price
                assert(opposite_of(b1, order.action).len() > 0 ==> !crossable(
                    order.action,
                    opposite_of(b1, order.action)[0].price,
                    false,
                    order.price as int,
                ));
            }
            let resting = Order {
                id: order.id,
                symbol: clone_bytes(&order.symbol),
                price: order.price,
                amount: residual,
                action: order.action,
                order_type: order.order_type,
                timestamp: order.timestamp,
            };
            let pos: usize;
            if is_buy {
                pos = insert_pos(&self.bids, true, order.price);
                proof {
                    lemma_book_after_insert(
                        b1,
                        idx1,
                        order.action,
                        order.price,
                        residual,
                        order.id,
                        pos as int,
                    );
                }
                insert_resting_exec(&mut self.bids, true, resting);
            } else {
                pos = insert_pos(&self.asks, false, order.price);
                proof {
                    lemma_book_after_insert(
                        b1,
                        idx1,
                        order.action,
                        order.price,
                        residual,
                        order.id,
                        pos as int,
                    );
                }
                insert_resting_exec(&mut self.asks, false, resting);
            }
            self.index.push(IndexEntry { id: order.id, action: order.action, price: order.price });
            proof {
                let rv = RestingV { id: order.id as int, amount: residual as int };
                let t = insert_resting(
                    side_of(b1, order.action),
                    order.action is Buy,
                    order.price as int,
                    rv,
                );
                let b2 = match order@.action {
                    Action::Buy => BookV { bids: t, ..b1 },
                    Action::Sell => BookV { asks: t, ..b1 },
                };
                assert(self@ == b2);
                assert(self.index@ == idx1.push(
                    IndexEntry { id: order.id, action: order.action, price: order.price },
                ));
                assert(self.wf());
                let st = spec_apply(b0, order@);
                assert(st is Some);
                assert(st->Some_0.0 == b2);
                assert(st->Some_0.1 == m.trades);
            }
            Ok(trades)
        } else {
            proof {
                let st = spec_apply(b0, order@);
                assert(st is Some);
                assert(st->Some_0.0 == b1);
                assert(st->Some_0.1 == m.trades);
            }
            Ok(trades)
        }
    }

    /// Apply a Cancel: strike the resting order the id refers to. Unknown
    /// ids are silently ignored; a known id whose side or price does not
    /// match the original is rejected before any mutation.
    #[verifier::rlimit(80)]
    fn apply_cancel(&mut self, order: &Order) -> (r: Result<Vec<Trade>, InvalidOrder>)
        requires
            old(self).wf(),
            valid_order(order@),
            order@.symbol == old(self)@.symbol,
            order.order_type is Cancel,
        ensures
            final(self).wf(),
            ({
                let st = spec_apply(old(self)@, order@);
                match r {
                    Ok(trades) => {
                        &&& st is Some
                        &&& final(self)@ == st->Some_0.0
                        &&& trades_view(trades@) == st->Some_0.1
                        &&& trades@.len() == 0
                    },
                    Err(InvalidOrder::CancelMismatch) => cancel_rejected(old(self)@, order@)
                        && final(self)@ == old(self)@ && final(self).index@ == old(self).index@,
                    Err(InvalidOrder::DuplicateId) => false,
                    Err(InvalidOrder::QtyOverflow) => false,
                }
            }),
    {
        let ghost b0 = old(self)@;
        let ghost idx0 = old(self).index@;
        let found = index_pos(&self.index, order.id);
        match found {
            None => {
                // unknown id: silently ignored, the book untouched
                proof {
                    assert(!index_has_id(idx0, order.id as int)) by {
                        if index_has_id(idx0, order.id as int) {
                            let n = choose|n: int|
                                0 <= n < idx0.len() && (#[trigger] idx0[n]).id == order.id;
                        }
                    }
                    assert(!book_has_id(b0, order.id as int));
                }
                Ok(Vec::new())
            },
            Some(n) => {
                let e = self.index[n];
                proof {
                    assert(e == idx0[n as int]);
                    assert(side_id_at_price(
                        side_of(b0, e.action),
                        e.price as int,
                        e.id as int,
                    ));
                    let i = choose|i: int|
                        0 <= i < side_of(b0, e.action).len() && (#[trigger] side_of(
                            b0,
                            e.action,
                        )[i]).price == e.price as int && level_has_id(
                            side_of(b0, e.action)[i],
                            e.id as int,
                        );
                    assert(side_has_id(side_of(b0, e.action), order.id as int));
                    assert(book_has_id(b0, order.id as int));
                }
                if e.action != order.action || e.price != order.price {
                    // the cancel does not name where the order rests
                    proof {
                        assert(!cancel_matches(b0, order@)) by {
                            if cancel_matches(b0, order@) {
                                let ci = choose|ci: int|
                                    0 <= ci < side_of(b0, order.action).len() && (
                                    #[trigger] side_of(b0, order.action)[ci]).price
                                        == order.price as int && level_has_id(
                                        side_of(b0, order.action)[ci],
                                        order.id as int,
                                    );
                                let ck = choose|ck: int|
                                    0 <= ck < side_of(b0, order.action)[ci].queue.len() && side_of(
                                        b0,
                                        order.action,
                                    )[ci].queue[ck].id == order.id as int;
                                let ei = choose|ei: int|
                                    0 <= ei < side_of(b0, e.action).len() && (#[trigger] side_of(
                                        b0,
                                        e.action,
                                    )[ei]).price == e.price as int && level_has_id(
                                        side_of(b0, e.action)[ei],
                                        e.id as int,
                                    );
                                let ek = choose|ek: int|
                                    0 <= ek < side_of(b0, e.action)[ei].queue.len() && side_of(
                                        b0,
                                        e.action,
                                    )[ei].queue[ek].id == e.id as int;
                                if e.action == order.action {
                                    // one side, two different prices: two
                                    // distinct positions with one id
                                    assert(ci != ei);
                                    assert(side_of(b0, order.action)[ci].queue[ck].id != side_of(
                                        b0,
                                        order.action,
                                    )[ei].queue[ek].id);
                                } else {
                                    // the id would rest on both sides
                                    match order.action {
                                        Action::Buy => {
                                            assert(b0.bids[ci].queue[ck].id
                                                != b0.asks[ei].queue[ek].id);
                                        },
                                        Action::Sell => {
                                            assert(b0.bids[ei].queue[ek].id
                                                != b0.asks[ci].queue[ck].id);
                                        },
                                    }
                                }
                            }
                        }
                    }
                    return Err(InvalidOrder::CancelMismatch);
                }
                proof {
                    assert(cancel_matches(b0, order@));
                }
                let is_buy = match order.action {
                    Action::Buy => true,
                    Action::Sell => false,
                };
                let li_opt = if is_buy {
                    find_price_pos(&self.bids, order.price)
                } else {
                    find_price_pos(&self.asks, order.price)
                };
                let li: usize;
                match li_opt {
                    Some(i) => {
                        li = i;
                    },
                    None => {
                        proof {
                            assert(false);
                        }
                        li = 0;
                    },
                }
                // the level at this price is unique, and it holds the id
                proof {
                    let ci = choose|ci: int|
                        0 <= ci < side_of(b0, order.action).len() && (#[trigger] side_of(
                            b0,
                            order.action,
                        )[ci]).price == order.price as int && level_has_id(
                            side_of(b0, order.action)[ci],
                            order.id as int,
                        );
                    assert(side_ordered(side_of(b0, order.action), order.action is Buy));
                    if ci != li as int {
                        if ci < li as int {
                            assert(side_of(b0, order.action)[ci].price != side_of(
                                b0,
                                order.action,
                            )[li as int].price);
                        } else {
                            assert(side_of(b0, order.action)[li as int].price != side_of(
                                b0,
                                order.action,
                            )[ci].price);
                        }
                    }
                    assert(level_has_id(side_of(b0, order.action)[li as int], order.id as int));
                }
                let k_opt = if is_buy {
                    find_order_pos(&self.bids[li].orders, order.id)
                } else {
                    find_order_pos(&self.asks[li].orders, order.id)
                };
                let k: usize;
                match k_opt {
                    Some(kk) => {
                        k = kk;
                    },
                    None => {
                        proof {
                            let ck = choose|ck: int|
                                0 <= ck < side_of(b0, order.action)[li as int].queue.len()
                                    && side_of(b0, order.action)[li as int].queue[ck].id
                                    == order.id as int;
                            assert(false);
                        }
                        k = 0;
                    },
                }
                proof {
                    assert(side_of(b0, order.action)[li as int].queue[k as int].id
                        == order.id as int);
                    lemma_book_after_cancel(
                        b0,
                        idx0,
                        order.action,
                        order.id,
                        li as int,
                        k as int,
                        n as int,
                        order.timestamp as int,
                    );
                }
                if is_buy {
                    remove_resting_exec(&mut self.bids, li, k);
                } else {
                    remove_resting_exec(&mut self.asks, li, k);
                }
                self.index.remove(n);
                self.last_update = order.timestamp;
                proof {
                    let t = side_remove_id(side_of(b0, order.action), order.id as int);
                    let b2 = match order@.action {
                        Action::Buy => BookV {
                            bids: t,
                            last_update: order.timestamp as int,
                            ..b0
                        },
                        Action::Sell => BookV {
                            asks: t,
                            last_update: order.timestamp as int,
                            ..b0
                        },
                    };
                    assert(self@ == b2);
                    assert(self.index@ == idx0.remove(n as int));
                    assert(self.wf());
                    let st = spec_apply(b0, order@);
                    assert(st is Some);
                    assert(st->Some_0.0 == b2);
                }
                Ok(Vec::new())
            },
        }
    }

    /// The single mutating entry point: apply a validated order event.
    ///
    /// Dispatches by kind — a Cancel strikes the resting order its id names
    /// (unknown ids are silently ignored), a Limit crosses the opposing side
    /// and deposits any residual at the tail of its price level, a Market
    /// crosses and discards any residual. Returns the trades, or the reason
    /// the event was rejected, in which case the book is untouched.
    pub fn add_order(&mut self, order: &Order) -> (r: Result<Vec<Trade>, InvalidOrder>)
        requires
            old(self).wf(),
            valid_order(order@),
            order@.symbol == old(self)@.symbol,
        ensures
            final(self).wf(),
            ({
                let st = spec_apply(old(self)@, order@);
                match r {
                    Ok(trades) => {
                        &&& st is Some
                        &&& final(self)@ == st->Some_0.0
                        &&& trades_view(trades@) == st->Some_0.1
                    },
                    Err(InvalidOrder::CancelMismatch) => cancel_rejected(old(self)@, order@)
                        && final(self)@ == old(self)@ && final(self).index@ == old(self).index@,
                    Err(InvalidOrder::DuplicateId) => duplicate_limit(old(self)@, order@)
                        && final(self)@ == old(self)@ && final(self).index@ == old(self).index@,
                    Err(InvalidOrder::QtyOverflow) => limit_overflow(old(self)@, order@)
                        && final(self)@ == old(self)@ && final(self).index@ == old(self).index@,
                }
            }),
    {
        match order.order_type {
            OrderType::Market => Ok(self.apply_market(order)),
            OrderType::Limit => self.apply_limit(order),
            OrderType::Cancel => self.apply_cancel(order),
        }
    }

    /// Whether an order with this id currently rests in the book.
    pub fn contains_id(&self, id: u128) -> (r: bool)
        requires
            self.wf(),
        ensures
            r == book_has_id(self@, id as int),
    {
        let found = index_pos(&self.index, id);
        proof {
            match found {
                Some(n) => {
                    assert(side_id_at_price(
                        side_of(self@, self.index@[n as int].action),
                        self.index@[n as int].price as int,
                        self.index@[n as int].id as int,
                    ));
                    let i = choose|i: int|
                        0 <= i < side_of(self@, self.index@[n as int].action).len() && (
                        #[trigger] side_of(self@, self.index@[n as int].action)[i]).price
                            == self.index@[n as int].price as int && level_has_id(
                            side_of(self@, self.index@[n as int].action)[i],
                            self.index@[n as int].id as int,
                        );
                    assert(side_has_id(side_of(self@, self.index@[n as int].action), id as int));
                },
                None => {
                    assert(!index_has_id(self.index@, id as int)) by {
                        if index_has_id(self.index@, id as int) {
                            let n = choose|n: int|
                                0 <= n < self.index@.len() && (#[trigger] self.index@[n]).id == id;
                        }
                    }
                },
            }
        }
        match found {
            Some(_) => true,
            None => false,
        }
    }
}

/// A copy of one price level, equal in the model.
fn clone_level(l: &PriceLevel) -> (r: PriceLevel)
    ensures
        r@ == l@,
{
    let mut orders: Vec<Order> = Vec::new();
    let mut j: usize = 0;
    while j < l.orders.len()
        invariant
            j <= l.orders@.len(),
            orders@.len() == j,
            forall|i: int| 0 <= i < j ==> (#[trigger] orders@[i])@ == l.orders@[i]@,
        decreases l.orders@.len() - j,
    {
        orders.push(clone_order(&l.orders[j]));
        j = j + 1;
    }
    let r = PriceLevel { price: l.price, total_amount: l.total_amount, orders };
    proof {
        assert(r@.queue =~= l@.queue);
    }
    r
}

/// A copy of the best `m` levels of a side, equal in the model.
fn clone_side_prefix(s: &Vec<PriceLevel>, m: usize) -> (r: Vec<PriceLevel>)
    requires
        m <= s@.len(),
    ensures
        side_view(r@) == side_view(s@).take(m as int),
{
    let mut r: Vec<PriceLevel> = Vec::new();
    let mut j: usize = 0;
    while j < m
        invariant
            j <= m <= s@.len(),
            r@.len() == j,
            forall|i: int| 0 <= i < j ==> (#[trigger] r@[i])@ == s@[i]@,
        decreases m - j,
    {
        r.push(clone_level(&s[j]));
        j = j + 1;
    }
    proof {
        assert(side_view(r@) =~= side_view(s@).take(m as int));
    }
    r
}

impl OrderBook {
    /// A full snapshot of the book, sharing no state with it.
    pub fn get_book_update(&self) -> (r: BookUpdate)
        ensures
            r@ == self@,
    {
        let bids = clone_side_prefix(&self.bids, self.bids.len());
        let asks = clone_side_prefix(&self.asks, self.asks.len());
        proof {
            assert(side_view(self.bids@).take(self.bids@.len() as int) =~= side_view(self.bids@));
            assert(side_view(self.asks@).take(self.asks@.len() as int) =~= side_view(self.asks@));
        }
        BookUpdate {
            symbol: clone_bytes(&self.symbol),
            bids,
            asks,
            last_update: self.last_update,
        }
    }

    /// A snapshot of up to `depth` best levels on each side.
    pub fn snapshot(&self, depth: usize) -> (r: BookUpdate)
        requires
            depth >= 1,
        ensures
            r@.symbol == self@.symbol,
            r@.last_update == self@.last_update,
            r@.bids == self@.bids.take(
                if depth as int <= self@.bids.len() {
                    depth as int
                } else {
                    self@.bids.len() as int
                },
            ),
            r@.asks == self@.asks.take(
                if depth as int <= self@.asks.len() {
                    depth as int
                } else {
                    self@.asks.len() as int
                },
            ),
    {
        let bd = if depth <= self.bids.len() {
            depth
        } else {
            self.bids.len()
        };
        let ad = if depth <= self.asks.len() {
            depth
        } else {
            self.asks.len()
        };
        BookUpdate {
            symbol: clone_bytes(&self.symbol),
            bids: clone_side_prefix(&self.bids, bd),
            asks: clone_side_prefix(&self.asks, ad),
            last_update: self.last_update,
        }
    }
}

impl BookUpdate {
    /// A copy of the snapshot, equal in the model.
    pub fn duplicate(&self) -> (r: BookUpdate)
        ensures
            r@ == self@,
    {
        let bids = clone_side_prefix(&self.bids, self.bids.len());
        let asks = clone_side_prefix(&self.asks, self.asks.len());
        proof {
            assert(side_view(self.bids@).take(self.bids@.len() as int) =~= side_view(self.bids@));
            assert(side_view(self.asks@).take(self.asks@.len() as int) =~= side_view(self.asks@));
        }
        BookUpdate { symbol: clone_bytes(&self.symbol), bids, asks, last_update: self.last_update }
    }
}

} // verus!
