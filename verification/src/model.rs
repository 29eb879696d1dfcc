//! Mathematical model of the order book: ghost state, well-formedness, and
//! the transition functions that the executable book is proved to refine.

use vstd::prelude::*;

use crate::orderbook::{Action, OrderType};

verus! {

/// A resting order as the model sees it: its id and its remaining quantity.
pub ghost struct RestingV {
    pub id: int,
    pub amount: int,
}

/// A price level: one price, the sum of resting quantities, and the FIFO
/// queue of resting orders (earliest arrival first).
pub ghost struct LevelV {
    pub price: int,
    pub total: int,
    pub queue: Seq<RestingV>,
}

/// A trade produced by the matcher. The price is always the resting
/// (maker's) price.
pub ghost struct TradeV {
    pub price: int,
    pub amount: int,
    pub aggressor_id: int,
    pub resting_id: int,
}

/// The per-instrument book: bids best-first (descending price), asks
/// best-first (ascending price).
pub ghost struct BookV {
    pub symbol: Seq<u8>,
    pub bids: Seq<LevelV>,
    pub asks: Seq<LevelV>,
    pub last_update: int,
}

/// An order event as the model sees it.
pub ghost struct OrderV {
    pub id: int,
    pub symbol: Seq<u8>,
    pub price: int,
    pub amount: int,
    pub action: Action,
    pub order_type: OrderType,
    pub timestamp: int,
}

// ---------------------------------------------------------------------------
// Well-formedness
// ---------------------------------------------------------------------------

/// Sum of the resting quantities of a queue.
pub open spec fn sum_queue(q: Seq<RestingV>) -> int
    decreases q.len(),
{
    if q.len() == 0 {
        0
    } else {
        q[0].amount + sum_queue(q.drop_first())
    }
}

/// A well-formed price level: non-empty queue, every resting quantity at
/// least 1 and representable, total equal to the queue sum and representable,
/// and a positive representable price.
pub open spec fn level_wf(l: LevelV) -> bool {
    &&& l.queue.len() > 0
    &&& l.total == sum_queue(l.queue)
    &&& forall|k: int| 0 <= k < l.queue.len() ==> 1 <= (#[trigger] l.queue[k]).amount <= i32::MAX
    &&& forall|k: int| 0 <= k < l.queue.len() ==> 0 <= (#[trigger] l.queue[k]).id <= u128::MAX
    &&& 1 <= l.price <= i64::MAX
    &&& l.total <= i32::MAX
}

/// Strict price ordering of a side: bids descending, asks ascending.
pub open spec fn side_ordered(s: Seq<LevelV>, is_bid: bool) -> bool {
    forall|i: int, j: int|
        0 <= i < j < s.len() ==> if is_bid {
            (#[trigger] s[i]).price > (#[trigger] s[j]).price
        } else {
            (#[trigger] s[i]).price < (#[trigger] s[j]).price
        }
}

/// A well-formed side: every level well-formed and the prices strictly
/// ordered (which also rules out duplicate price levels).
pub open spec fn side_wf(s: Seq<LevelV>, is_bid: bool) -> bool {
    &&& forall|i: int| 0 <= i < s.len() ==> level_wf(#[trigger] s[i])
    &&& side_ordered(s, is_bid)
}

pub open spec fn queue_has_id(q: Seq<RestingV>, id: int) -> bool {
    exists|k: int| 0 <= k < q.len() && (#[trigger] q[k]).id == id
}

pub open spec fn level_has_id(l: LevelV, id: int) -> bool {
    queue_has_id(l.queue, id)
}

pub open spec fn side_has_id(s: Seq<LevelV>, id: int) -> bool {
    exists|i: int| 0 <= i < s.len() && level_has_id(#[trigger] s[i], id)
}

pub open spec fn book_has_id(b: BookV, id: int) -> bool {
    side_has_id(b.bids, id) || side_has_id(b.asks, id)
}

/// No order id occurs twice within a side.
pub open spec fn side_ids_distinct(s: Seq<LevelV>) -> bool {
    forall|i: int, k: int, j: int, l: int|
        0 <= i < s.len() && 0 <= k < s[i].queue.len() && 0 <= j < s.len() && 0 <= l
            < s[j].queue.len() && (i != j || k != l) ==> (#[trigger] s[i].queue[k]).id != (
        #[trigger] s[j].queue[l]).id
}

/// No order id occurs on both sides.
pub open spec fn sides_id_disjoint(b: Seq<LevelV>, a: Seq<LevelV>) -> bool {
    forall|i: int, k: int, j: int, l: int|
        0 <= i < b.len() && 0 <= k < b[i].queue.len() && 0 <= j < a.len() && 0 <= l
            < a[j].queue.len() ==> (#[trigger] b[i].queue[k]).id != (#[trigger] a[j].queue[l]).id
}

/// The book is not crossed: whenever both sides are non-empty, the best bid
/// is strictly below the best ask.
pub open spec fn not_crossed(b: BookV) -> bool {
    b.bids.len() > 0 && b.asks.len() > 0 ==> b.bids[0].price < b.asks[0].price
}

/// Well-formedness of the whole book.
pub open spec fn book_wf(b: BookV) -> bool {
    &&& side_wf(b.bids, true)
    &&& side_wf(b.asks, false)
    &&& side_ids_distinct(b.bids)
    &&& side_ids_distinct(b.asks)
    &&& sides_id_disjoint(b.bids, b.asks)
    &&& not_crossed(b)
    &&& 1 <= b.symbol.len() <= 16
    &&& 0 <= b.last_update <= u128::MAX
}

// ---------------------------------------------------------------------------
// Validity of an incoming order event
// ---------------------------------------------------------------------------

/// The ingress invariants of an order event: a non-empty bounded symbol,
/// a positive price and quantity for Limit orders, a positive quantity for
/// Market orders; price and quantity of a Cancel are carried but not traded.
pub open spec fn valid_order(o: OrderV) -> bool {
    &&& 1 <= o.symbol.len() <= 16
    &&& 0 <= o.id <= u128::MAX
    &&& 0 <= o.timestamp <= u128::MAX
    &&& o.order_type is Limit ==> 1 <= o.price <= i64::MAX && 1 <= o.amount <= i32::MAX
    &&& o.order_type is Market ==> 1 <= o.amount <= i32::MAX
    &&& o.order_type is Cancel ==> 0 <= o.amount <= i32::MAX && 0 <= o.price <= i64::MAX
}

// ---------------------------------------------------------------------------
// Matching
// ---------------------------------------------------------------------------

/// Whether an aggressive order may trade against a level at `level_price`.
/// A Buy crosses asks priced at or below its limit; a Sell crosses bids
/// priced at or above its limit; a Market order crosses any level.
pub open spec fn crossable(action: Action, level_price: int, is_market: bool, limit: int) -> bool {
    is_market || match action {
        Action::Buy => level_price <= limit,
        Action::Sell => level_price >= limit,
    }
}

pub ghost struct QueueFill {
    pub queue: Seq<RestingV>,
    pub trades: Seq<TradeV>,
    pub residual: int,
    pub removed: Seq<int>,
}

/// Walk a level's FIFO queue head-to-tail, filling resting orders until the
/// aggressor is exhausted or the queue is empty. `removed` lists the ids of
/// the fully filled resting orders, in fill order.
pub open spec fn match_queue(q: Seq<RestingV>, remaining: int, price: int, aggr_id: int) -> QueueFill
    decreases q.len(),
{
    if remaining <= 0 || q.len() == 0 {
        QueueFill { queue: q, trades: Seq::empty(), residual: remaining, removed: Seq::empty() }
    } else if q[0].amount <= remaining {
        let t = TradeV {
            price,
            amount: q[0].amount,
            aggressor_id: aggr_id,
            resting_id: q[0].id,
        };
        let rest = match_queue(q.drop_first(), remaining - q[0].amount, price, aggr_id);
        QueueFill {
            queue: rest.queue,
            trades: seq![t] + rest.trades,
            residual: rest.residual,
            removed: seq![q[0].id] + rest.removed,
        }
    } else {
        let t = TradeV { price, amount: remaining, aggressor_id: aggr_id, resting_id: q[0].id };
        QueueFill {
            queue: q.update(0, RestingV { id: q[0].id, amount: q[0].amount - remaining }),
            trades: seq![t],
            residual: 0,
            removed: Seq::empty(),
        }
    }
}

/// All resting quantities of a queue are at least 1 and representable.
pub open spec fn queue_amounts_ok(q: Seq<RestingV>) -> bool {
    forall|k: int| 0 <= k < q.len() ==> 1 <= (#[trigger] q[k]).amount <= i32::MAX
}

/// All ids of a queue are representable.
pub open spec fn queue_ids_ok(q: Seq<RestingV>) -> bool {
    forall|k: int| 0 <= k < q.len() ==> 0 <= (#[trigger] q[k]).id <= u128::MAX
}

/// No id occurs twice within a queue.
pub open spec fn queue_ids_distinct(q: Seq<RestingV>) -> bool {
    forall|i: int, j: int| 0 <= i < j < q.len() ==> (#[trigger] q[i]).id != (#[trigger] q[j]).id
}

pub proof fn lemma_sum_queue_nonneg(q: Seq<RestingV>)
    requires
        queue_amounts_ok(q),
    ensures
        sum_queue(q) >= 0,
        q.len() > 0 ==> sum_queue(q) >= q[0].amount,
    decreases q.len(),
{
    if q.len() > 0 {
        assert forall|k: int| 0 <= k < q.drop_first().len() implies 1 <= (#[trigger] q.drop_first()[k]).amount <= i32::MAX by {
            assert(q.drop_first()[k] == q[k + 1]);
        }
        lemma_sum_queue_nonneg(q.drop_first());
    }
}

/// What one queue walk does: the survivors are a tail of the original queue
/// (its first entry possibly reduced), the removed ids are exactly the ids of
/// the consumed prefix, the sums balance, and every trade carries the level's
/// price and the aggressor's id.
pub proof fn lemma_match_queue_props(q: Seq<RestingV>, remaining: int, price: int, aggr_id: int)
    requires
        0 <= remaining <= i32::MAX,
        queue_amounts_ok(q),
        queue_ids_ok(q),
        queue_ids_distinct(q),
    ensures
        ({
            let f = match_queue(q, remaining, price, aggr_id);
            let cut = q.len() - f.queue.len();
            &&& 0 <= f.residual <= remaining
            &&& f.queue.len() <= q.len()
            &&& sum_queue(f.queue) == sum_queue(q) - (remaining - f.residual)
            &&& (f.residual > 0 ==> f.queue.len() == 0)
            &&& forall|j: int| 1 <= j < f.queue.len() ==> f.queue[j] == q[cut + j]
            &&& (f.queue.len() > 0 ==> f.queue[0].id == q[cut as int].id && 1 <= f.queue[0].amount
                <= q[cut as int].amount)
            &&& queue_amounts_ok(f.queue)
            &&& queue_ids_ok(f.queue)
            &&& queue_ids_distinct(f.queue)
            &&& f.removed.len() == cut
            &&& forall|j: int| 0 <= j < cut ==> f.removed[j] == q[j].id
            &&& forall|x: int| queue_has_id(f.queue, x) ==> queue_has_id(q, x)
            &&& forall|x: int|
                queue_has_id(q, x) ==> queue_has_id(f.queue, x) || f.removed.contains(x)
            &&& forall|x: int| f.removed.contains(x) ==> queue_has_id(q, x)
            &&& forall|x: int| f.removed.contains(x) ==> !queue_has_id(f.queue, x)
            &&& forall|i: int, j: int|
                0 <= i < j < f.removed.len() ==> f.removed[i] != f.removed[j]
            &&& forall|j: int|
                0 <= j < f.trades.len() ==> {
                    let t = #[trigger] f.trades[j];
                    &&& t.price == price
                    &&& t.aggressor_id == aggr_id
                    &&& 1 <= t.amount <= i32::MAX
                    &&& queue_has_id(q, t.resting_id)
                }
            &&& (f.trades.len() > 0 <==> remaining > 0 && q.len() > 0)
        }),
    decreases q.len(),
{
    let f = match_queue(q, remaining, price, aggr_id);
    if remaining <= 0 || q.len() == 0 {
        // base case: nothing moves
    } else if q[0].amount <= remaining {
        let qd = q.drop_first();
        assert forall|k: int| 0 <= k < qd.len() implies 1 <= (#[trigger] qd[k]).amount <= i32::MAX
            && 0 <= qd[k].id <= u128::MAX by {
            assert(qd[k] == q[k + 1]);
        }
        assert forall|i: int, j: int| 0 <= i < j < qd.len() implies (#[trigger] qd[i]).id != (
        #[trigger] qd[j]).id by {
            assert(qd[i] == q[i + 1]);
            assert(qd[j] == q[j + 1]);
        }
        lemma_match_queue_props(qd, remaining - q[0].amount, price, aggr_id);
        let rest = match_queue(qd, remaining - q[0].amount, price, aggr_id);
        let cut = q.len() - f.queue.len();
        let cutd = qd.len() - rest.queue.len();
        assert(f.queue == rest.queue);
        assert(cut == cutd + 1);
        assert forall|j: int| 1 <= j < f.queue.len() implies f.queue[j] == q[cut + j] by {
            assert(rest.queue[j] == qd[cutd + j]);
            assert(qd[cutd + j] == q[cut + j]);
        }
        assert(f.queue.len() > 0 ==> f.queue[0].id == q[cut as int].id && 1 <= f.queue[0].amount
            <= q[cut as int].amount) by {
            if f.queue.len() > 0 {
                assert(qd[cutd as int] == q[cut as int]);
            }
        }
        assert(f.removed == seq![q[0].id] + rest.removed);
        assert forall|j: int| 0 <= j < cut implies f.removed[j] == q[j].id by {
            if j >= 1 {
                assert(f.removed[j] == rest.removed[j - 1]);
                assert(rest.removed[j - 1] == qd[j - 1].id);
                assert(qd[j - 1] == q[j]);
            }
        }
        // id membership transfers
        assert forall|x: int| queue_has_id(f.queue, x) implies queue_has_id(q, x) by {
            assert(queue_has_id(qd, x));
            let k = choose|k: int| 0 <= k < qd.len() && qd[k].id == x;
            assert(q[k + 1].id == x);
        }
        assert forall|x: int| queue_has_id(q, x) implies queue_has_id(f.queue, x)
            || f.removed.contains(x) by {
            let k = choose|k: int| 0 <= k < q.len() && q[k].id == x;
            if k == 0 {
                assert(f.removed[0] == q[0].id);
            } else {
                assert(qd[k - 1].id == x);
                assert(queue_has_id(qd, x));
                if queue_has_id(rest.queue, x) {
                } else {
                    assert(rest.removed.contains(x));
                    let m = choose|m: int| 0 <= m < rest.removed.len() && rest.removed[m] == x;
                    assert(f.removed[m + 1] == x);
                }
            }
        }
        assert forall|x: int| f.removed.contains(x) implies queue_has_id(q, x) by {
            let m = choose|m: int| 0 <= m < f.removed.len() && f.removed[m] == x;
            assert(f.removed[m] == q[m].id);
        }
        assert forall|x: int| f.removed.contains(x) implies !queue_has_id(f.queue, x) by {
            let m = choose|m: int| 0 <= m < f.removed.len() && f.removed[m] == x;
            assert(x == q[m].id);
            if queue_has_id(f.queue, x) {
                let j = choose|j: int| 0 <= j < f.queue.len() && f.queue[j].id == x;
                if j == 0 {
                    assert(q[cut as int].id == x);
                } else {
                    assert(f.queue[j] == q[cut + j]);
                }
            }
        }
        assert forall|i: int, j: int| 0 <= i < j < f.removed.len() implies f.removed[i]
            != f.removed[j] by {
            assert(f.removed[i] == q[i].id);
            assert(f.removed[j] == q[j].id);
        }
        assert forall|j: int|
            0 <= j < f.trades.len() implies {
                let t = #[trigger] f.trades[j];
                &&& t.price == price
                &&& t.aggressor_id == aggr_id
                &&& 1 <= t.amount <= i32::MAX
                &&& queue_has_id(q, t.resting_id)
            } by {
            if j == 0 {
                assert(f.trades[0].resting_id == q[0].id);
            } else {
                assert(f.trades[j] == rest.trades[j - 1]);
                assert(queue_has_id(qd, rest.trades[j - 1].resting_id) ==> queue_has_id(
                    q,
                    rest.trades[j - 1].resting_id,
                )) by {
                    if queue_has_id(qd, rest.trades[j - 1].resting_id) {
                        let k = choose|k: int|
                            0 <= k < qd.len() && qd[k].id == rest.trades[j - 1].resting_id;
                        assert(q[k + 1].id == rest.trades[j - 1].resting_id);
                    }
                }
            }
        }
    } else {
        // partial fill of the head
        let q2 = f.queue;
        assert(q2 == q.update(0, RestingV { id: q[0].id, amount: q[0].amount - remaining }));
        assert(q2.drop_first() =~= q.drop_first());
        assert(sum_queue(q2) == q2[0].amount + sum_queue(q2.drop_first()));
        assert forall|x: int| queue_has_id(q2, x) implies queue_has_id(q, x) by {
            let k = choose|k: int| 0 <= k < q2.len() && q2[k].id == x;
            assert(q[k].id == x);
        }
        assert forall|x: int| queue_has_id(q, x) implies queue_has_id(q2, x) by {
            let k = choose|k: int| 0 <= k < q.len() && q[k].id == x;
            assert(q2[k].id == x);
        }
        assert(f.trades[0].resting_id == q[0].id);
        assert(queue_has_id(q, q[0].id));
    }
}

pub ghost struct SideMatch {
    pub levels: Seq<LevelV>,
    pub trades: Seq<TradeV>,
    pub residual: int,
    pub removed: Seq<int>,
}

/// Cross an aggressive order against an opposing side, best level first.
/// A level whose queue empties is deleted and the next best is examined.
pub open spec fn match_levels(
    s: Seq<LevelV>,
    action: Action,
    is_market: bool,
    limit: int,
    remaining: int,
    aggr_id: int,
) -> SideMatch
    decreases s.len(),
{
    if remaining <= 0 || s.len() == 0 || !crossable(action, s[0].price, is_market, limit) {
        SideMatch { levels: s, trades: Seq::empty(), residual: remaining, removed: Seq::empty() }
    } else {
        let f = match_queue(s[0].queue, remaining, s[0].price, aggr_id);
        if f.queue.len() == 0 {
            let rest = match_levels(s.drop_first(), action, is_market, limit, f.residual, aggr_id);
            SideMatch {
                levels: rest.levels,
                trades: f.trades + rest.trades,
                residual: rest.residual,
                removed: f.removed + rest.removed,
            }
        } else {
            SideMatch {
                levels: seq![
                    LevelV {
                        price: s[0].price,
                        total: s[0].total - (remaining - f.residual),
                        queue: f.queue,
                    },
                ] + s.drop_first(),
                trades: f.trades,
                residual: f.residual,
                removed: f.removed,
            }
        }
    }
}

/// What one side walk does: the surviving side stays well-formed and ordered,
/// its ids are the original ids minus the removed ones, surviving ids keep
/// their price level, the best surviving price is no better than the original
/// best, and a positive residual means the front is no longer crossable.
#[verifier::rlimit(100)]
pub proof fn lemma_match_levels_props(
    s: Seq<LevelV>,
    action: Action,
    is_market: bool,
    limit: int,
    remaining: int,
    aggr_id: int,
    is_bid: bool,
)
    requires
        side_wf(s, is_bid),
        side_ids_distinct(s),
        0 <= remaining <= i32::MAX,
    ensures
        ({
            let m = match_levels(s, action, is_market, limit, remaining, aggr_id);
            &&& 0 <= m.residual <= remaining
            &&& side_wf(m.levels, is_bid)
            &&& side_ids_distinct(m.levels)
            &&& (m.levels.len() > 0 ==> s.len() > 0 && (if is_bid {
                m.levels[0].price <= s[0].price
            } else {
                m.levels[0].price >= s[0].price
            }))
            &&& (m.residual > 0 && m.levels.len() > 0 ==> !crossable(
                action,
                m.levels[0].price,
                is_market,
                limit,
            ))
            &&& forall|x: int| side_has_id(m.levels, x) ==> side_has_id(s, x)
            &&& forall|x: int|
                side_has_id(s, x) ==> side_has_id(m.levels, x) || m.removed.contains(x)
            &&& forall|x: int|
                m.removed.contains(x) ==> side_has_id(s, x) && !side_has_id(m.levels, x)
            &&& forall|i: int, j: int|
                0 <= i < j < m.removed.len() ==> m.removed[i] != m.removed[j]
            &&& forall|x: int, p: int|
                side_id_at_price(m.levels, p, x) ==> side_id_at_price(s, p, x)
            &&& forall|x: int, p: int|
                side_id_at_price(s, p, x) && !m.removed.contains(x) ==> side_id_at_price(
                    m.levels,
                    p,
                    x,
                )
            &&& forall|j: int|
                0 <= j < m.trades.len() ==> {
                    let t = #[trigger] m.trades[j];
                    &&& t.aggressor_id == aggr_id
                    &&& 1 <= t.amount <= i32::MAX
                    &&& 1 <= t.price <= i64::MAX
                }
        }),
    decreases s.len(),
{
    let m = match_levels(s, action, is_market, limit, remaining, aggr_id);
    if remaining <= 0 || s.len() == 0 || !crossable(action, s[0].price, is_market, limit) {
        // no trade possible: the side is untouched
        assert forall|x: int, p: int|
            side_id_at_price(s, p, x) && !m.removed.contains(x) implies side_id_at_price(
            m.levels,
            p,
            x,
        ) by {}
    } else {
        let q = s[0].queue;
        assert(level_wf(s[0]));
        assert forall|i: int, j: int| 0 <= i < j < q.len() implies (#[trigger] q[i]).id != (
        #[trigger] q[j]).id by {
            assert(s[0].queue[i].id != s[0].queue[j].id);
        }
        lemma_match_queue_props(q, remaining, s[0].price, aggr_id);
        let f = match_queue(q, remaining, s[0].price, aggr_id);
        let cut = q.len() - f.queue.len();
        let sd = s.drop_first();
        assert forall|i: int| 0 <= i < sd.len() implies level_wf(#[trigger] sd[i]) by {
            assert(sd[i] == s[i + 1]);
        }
        assert forall|i: int, j: int| 0 <= i < j < sd.len() implies (if is_bid {
            (#[trigger] sd[i]).price > (#[trigger] sd[j]).price
        } else {
            (#[trigger] sd[i]).price < (#[trigger] sd[j]).price
        }) by {
            assert(sd[i] == s[i + 1]);
            assert(sd[j] == s[j + 1]);
        }
        assert forall|i: int, k: int, j: int, l: int|
            0 <= i < sd.len() && 0 <= k < sd[i].queue.len() && 0 <= j < sd.len() && 0 <= l
                < sd[j].queue.len() && (i != j || k != l) implies (#[trigger] sd[i].queue[k]).id
            != (#[trigger] sd[j].queue[l]).id by {
            assert(sd[i] == s[i + 1]);
            assert(sd[j] == s[j + 1]);
            assert(s[i + 1].queue[k].id != s[j + 1].queue[l].id);
        }
        if f.queue.len() == 0 {
            // the whole front level was consumed
            lemma_match_levels_props(sd, action, is_market, limit, f.residual, aggr_id, is_bid);
            let rest = match_levels(sd, action, is_market, limit, f.residual, aggr_id);
            assert(m.levels == rest.levels);
            assert(m.removed == f.removed + rest.removed);
            assert(m.trades == f.trades + rest.trades);
            // front price ordering
            if m.levels.len() > 0 {
                assert(sd.len() > 0);
                assert(sd[0] == s[1]);
                if is_bid {
                    assert(s[1].price < s[0].price);
                } else {
                    assert(s[1].price > s[0].price);
                }
            }
            // id membership
            assert forall|x: int| side_has_id(m.levels, x) implies side_has_id(s, x) by {
                assert(side_has_id(sd, x));
                let i = choose|i: int| 0 <= i < sd.len() && level_has_id(sd[i], x);
                assert(sd[i] == s[i + 1]);
                assert(level_has_id(s[i + 1], x));
            }
            assert forall|x: int| side_has_id(s, x) implies side_has_id(m.levels, x)
                || m.removed.contains(x) by {
                let i = choose|i: int| 0 <= i < s.len() && level_has_id(s[i], x);
                if i == 0 {
                    // every id of the front queue was removed
                    assert(queue_has_id(q, x));
                    assert(queue_has_id(f.queue, x) || f.removed.contains(x));
                    assert(f.removed.contains(x));
                    let n = choose|n: int| 0 <= n < f.removed.len() && f.removed[n] == x;
                    assert(m.removed[n] == x);
                } else {
                    assert(sd[i - 1] == s[i]);
                    assert(side_has_id(sd, x));
                    if side_has_id(rest.levels, x) {
                    } else {
                        assert(rest.removed.contains(x));
                        let n = choose|n: int| 0 <= n < rest.removed.len() && rest.removed[n] == x;
                        assert(m.removed[f.removed.len() + n] == x);
                    }
                }
            }
            // removed ids: in s, not surviving, and pairwise distinct
            assert forall|x: int| m.removed.contains(x) implies side_has_id(s, x) && !side_has_id(
                m.levels,
                x,
            ) by {
                let n = choose|n: int| 0 <= n < m.removed.len() && m.removed[n] == x;
                if n < f.removed.len() {
                    assert(f.removed[n] == x);
                    assert(queue_has_id(q, x));
                    assert(level_has_id(s[0], x));
                    // x lives in the front queue, so by side distinctness it is in no
                    // other level, and the front level is gone
                    if side_has_id(rest.levels, x) {
                        assert(side_has_id(sd, x));
                        let i = choose|i: int| 0 <= i < sd.len() && level_has_id(sd[i], x);
                        let l = choose|l: int| 0 <= l < sd[i].queue.len() && sd[i].queue[l].id == x;
                        let k = choose|k: int| 0 <= k < q.len() && q[k].id == x;
                        assert(sd[i] == s[i + 1]);
                        assert(s[0].queue[k].id != s[i + 1].queue[l].id);
                    }
                } else {
                    assert(rest.removed[n - f.removed.len()] == x);
                    assert(rest.removed.contains(x));
                    assert(side_has_id(sd, x));
                    let i = choose|i: int| 0 <= i < sd.len() && level_has_id(sd[i], x);
                    assert(sd[i] == s[i + 1]);
                    assert(level_has_id(s[i + 1], x));
                    assert(!side_has_id(rest.levels, x));
                }
            }
            assert forall|i: int, j: int| 0 <= i < j < m.removed.len() implies m.removed[i]
                != m.removed[j] by {
                if j < f.removed.len() {
                } else if i >= f.removed.len() {
                    assert(rest.removed[i - f.removed.len()] != rest.removed[j - f.removed.len()]);
                } else {
                    // one from the front queue, one from deeper levels
                    let x = m.removed[i];
                    let y = m.removed[j];
                    assert(f.removed[i] == x);
                    assert(queue_has_id(q, x));
                    assert(rest.removed[j - f.removed.len()] == y);
                    assert(rest.removed.contains(y));
                    assert(side_has_id(sd, y));
                    if x == y {
                        let ii = choose|ii: int| 0 <= ii < sd.len() && level_has_id(sd[ii], y);
                        let l = choose|l: int| 0 <= l < sd[ii].queue.len() && sd[ii].queue[l].id == y;
                        let k = choose|k: int| 0 <= k < q.len() && q[k].id == x;
                        assert(sd[ii] == s[ii + 1]);
                        assert(s[0].queue[k].id != s[ii + 1].queue[l].id);
                    }
                }
            }
            // price-keeping
            assert forall|x: int, p: int| side_id_at_price(m.levels, p, x) implies side_id_at_price(
                s,
                p,
                x,
            ) by {
                assert(side_id_at_price(rest.levels, p, x));
                assert(side_id_at_price(sd, p, x));
                let i = choose|i: int| 0 <= i < sd.len() && sd[i].price == p && level_has_id(sd[i], x);
                assert(sd[i] == s[i + 1]);
            }
            assert forall|x: int, p: int|
                side_id_at_price(s, p, x) && !m.removed.contains(x) implies side_id_at_price(
                m.levels,
                p,
                x,
            ) by {
                let i = choose|i: int| 0 <= i < s.len() && s[i].price == p && level_has_id(s[i], x);
                if i == 0 {
                    assert(queue_has_id(q, x));
                    assert(f.removed.contains(x));
                    let n = choose|n: int| 0 <= n < f.removed.len() && f.removed[n] == x;
                    assert(m.removed[n] == x);
                    assert(false);
                } else {
                    assert(sd[i - 1] == s[i]);
                    assert(side_id_at_price(sd, p, x));
                    assert(!rest.removed.contains(x)) by {
                        if rest.removed.contains(x) {
                            let n = choose|n: int|
                                0 <= n < rest.removed.len() && rest.removed[n] == x;
                            assert(m.removed[f.removed.len() + n] == x);
                        }
                    }
                }
            }
            // trades
            assert forall|j: int|
                0 <= j < m.trades.len() implies {
                    let t = #[trigger] m.trades[j];
                    &&& t.aggressor_id == aggr_id
                    &&& 1 <= t.amount <= i32::MAX
                    &&& 1 <= t.price <= i64::MAX
                } by {
                if j < f.trades.len() {
                    assert(m.trades[j] == f.trades[j]);
                } else {
                    assert(m.trades[j] == rest.trades[j - f.trades.len()]);
                }
            }
        } else {
            // the front level survives with a shortened queue
            assert(f.residual == 0);
            let front = LevelV {
                price: s[0].price,
                total: s[0].total - (remaining - f.residual),
                queue: f.queue,
            };
            assert(m.levels == seq![front] + sd);
            assert(m.removed == f.removed);
            assert(m.trades == f.trades);
            assert(m.levels[0] == front);
            assert forall|j: int| 1 <= j < m.levels.len() implies m.levels[j] == s[j] by {
                assert(m.levels[j] == sd[j - 1]);
                assert(sd[j - 1] == s[j]);
            }
            assert(level_wf(front)) by {
                assert(sum_queue(f.queue) == sum_queue(q) - (remaining - f.residual));
            }
            assert forall|i: int| 0 <= i < m.levels.len() implies level_wf(#[trigger] m.levels[i]) by {
                if i >= 1 {
                    assert(m.levels[i] == s[i]);
                }
            }
            assert forall|i: int, j: int| 0 <= i < j < m.levels.len() implies (if is_bid {
                (#[trigger] m.levels[i]).price > (#[trigger] m.levels[j]).price
            } else {
                (#[trigger] m.levels[i]).price < (#[trigger] m.levels[j]).price
            }) by {
                assert(m.levels[j] == s[j]);
                if i >= 1 {
                    assert(m.levels[i] == s[i]);
                } else {
                    assert(m.levels[0].price == s[0].price);
                }
            }
            // each surviving front-queue entry maps to a front-queue entry of s
            assert forall|k: int| 0 <= k < f.queue.len() implies f.queue[k].id == q[cut + k].id by {
                if k >= 1 {
                    assert(f.queue[k] == q[cut + k]);
                }
            }
            assert forall|i: int, k: int, j: int, l: int|
                0 <= i < m.levels.len() && 0 <= k < m.levels[i].queue.len() && 0 <= j
                    < m.levels.len() && 0 <= l < m.levels[j].queue.len() && (i != j || k != l) implies (
            #[trigger] m.levels[i].queue[k]).id != (#[trigger] m.levels[j].queue[l]).id by {
                if i == 0 && j == 0 {
                    // both in the surviving front queue: positions cut+k, cut+l of q
                    assert(m.levels[0].queue[k].id == s[0].queue[cut + k].id);
                    assert(m.levels[0].queue[l].id == s[0].queue[cut + l].id);
                    assert(s[0].queue[cut + k].id != s[0].queue[cut + l].id);
                } else if i == 0 {
                    assert(m.levels[0].queue[k].id == s[0].queue[cut + k].id);
                    assert(m.levels[j] == s[j]);
                    assert(s[0].queue[cut + k].id != s[j].queue[l].id);
                } else if j == 0 {
                    assert(m.levels[0].queue[l].id == s[0].queue[cut + l].id);
                    assert(m.levels[i] == s[i]);
                    assert(s[i].queue[k].id != s[0].queue[cut + l].id);
                } else {
                    assert(m.levels[i] == s[i]);
                    assert(m.levels[j] == s[j]);
                    assert(s[i].queue[k].id != s[j].queue[l].id);
                }
            }
            // id membership
            assert forall|x: int| side_has_id(m.levels, x) implies side_has_id(s, x) by {
                let i = choose|i: int| 0 <= i < m.levels.len() && level_has_id(m.levels[i], x);
                if i == 0 {
                    assert(queue_has_id(f.queue, x));
                    assert(queue_has_id(q, x));
                    assert(level_has_id(s[0], x));
                } else {
                    assert(m.levels[i] == s[i]);
                }
            }
            assert forall|x: int| side_has_id(s, x) implies side_has_id(m.levels, x)
                || m.removed.contains(x) by {
                let i = choose|i: int| 0 <= i < s.len() && level_has_id(s[i], x);
                if i == 0 {
                    assert(queue_has_id(q, x));
                    if queue_has_id(f.queue, x) {
                        assert(level_has_id(m.levels[0], x));
                    } else {
                        assert(f.removed.contains(x));
                    }
                } else {
                    assert(m.levels[i] == s[i]);
                    assert(level_has_id(m.levels[i], x));
                }
            }
            assert forall|x: int| m.removed.contains(x) implies side_has_id(s, x) && !side_has_id(
                m.levels,
                x,
            ) by {
                assert(f.removed.contains(x));
                assert(queue_has_id(q, x));
                assert(level_has_id(s[0], x));
                if side_has_id(m.levels, x) {
                    let i = choose|i: int| 0 <= i < m.levels.len() && level_has_id(m.levels[i], x);
                    if i == 0 {
                        assert(queue_has_id(f.queue, x));
                        assert(false);
                    } else {
                        assert(m.levels[i] == s[i]);
                        let l = choose|l: int| 0 <= l < s[i].queue.len() && s[i].queue[l].id == x;
                        let k = choose|k: int| 0 <= k < q.len() && q[k].id == x;
                        assert(s[0].queue[k].id != s[i].queue[l].id);
                    }
                }
            }
            // price-keeping
            assert forall|x: int, p: int| side_id_at_price(m.levels, p, x) implies side_id_at_price(
                s,
                p,
                x,
            ) by {
                let i = choose|i: int|
                    0 <= i < m.levels.len() && m.levels[i].price == p && level_has_id(
                        m.levels[i],
                        x,
                    );
                if i == 0 {
                    assert(queue_has_id(f.queue, x));
                    assert(queue_has_id(q, x));
                    assert(s[0].price == p && level_has_id(s[0], x));
                } else {
                    assert(m.levels[i] == s[i]);
                }
            }
            assert forall|x: int, p: int|
                side_id_at_price(s, p, x) && !m.removed.contains(x) implies side_id_at_price(
                m.levels,
                p,
                x,
            ) by {
                let i = choose|i: int| 0 <= i < s.len() && s[i].price == p && level_has_id(s[i], x);
                if i == 0 {
                    assert(queue_has_id(q, x));
                    assert(queue_has_id(f.queue, x));
                    assert(m.levels[0].price == p && level_has_id(m.levels[0], x));
                } else {
                    assert(m.levels[i] == s[i]);
                    assert(m.levels[i].price == p && level_has_id(m.levels[i], x));
                }
            }
        }
    }
}

// ---------------------------------------------------------------------------
// Resting insertion
// ---------------------------------------------------------------------------

/// Whether `p1` comes strictly before `p2` on the given side.
pub open spec fn level_precedes(is_bid: bool, p1: int, p2: int) -> bool {
    if is_bid {
        p1 > p2
    } else {
        p1 < p2
    }
}

/// Insert a resting order at the tail of its price level's queue, creating
/// the level in sorted position if absent.
pub open spec fn insert_resting(s: Seq<LevelV>, is_bid: bool, price: int, r: RestingV) -> Seq<
    LevelV,
>
    decreases s.len(),
{
    if s.len() == 0 {
        seq![LevelV { price, total: r.amount, queue: seq![r] }]
    } else if s[0].price == price {
        seq![LevelV { price, total: s[0].total + r.amount, queue: s[0].queue.push(r) }]
            + s.drop_first()
    } else if level_precedes(is_bid, price, s[0].price) {
        seq![LevelV { price, total: r.amount, queue: seq![r] }] + s
    } else {
        seq![s[0]] + insert_resting(s.drop_first(), is_bid, price, r)
    }
}

/// Whether depositing `amount` more at `price` would push the level's total
/// past what the book can represent (a machine limit, not a market rule).
pub open spec fn insert_overflows(s: Seq<LevelV>, price: int, amount: int) -> bool {
    exists|i: int|
        0 <= i < s.len() && (#[trigger] s[i]).price == price && s[i].total + amount > i32::MAX
}

/// Dropping the front level keeps a side well-formed.
pub proof fn lemma_side_drop_wf(s: Seq<LevelV>, is_bid: bool)
    requires
        side_wf(s, is_bid),
        side_ids_distinct(s),
        s.len() > 0,
    ensures
        side_wf(s.drop_first(), is_bid),
        side_ids_distinct(s.drop_first()),
{
    let sd = s.drop_first();
    assert forall|i: int| 0 <= i < sd.len() implies level_wf(#[trigger] sd[i]) by {
        assert(sd[i] == s[i + 1]);
    }
    assert forall|i: int, j: int| 0 <= i < j < sd.len() implies (if is_bid {
        (#[trigger] sd[i]).price > (#[trigger] sd[j]).price
    } else {
        (#[trigger] sd[i]).price < (#[trigger] sd[j]).price
    }) by {
        assert(sd[i] == s[i + 1]);
        assert(sd[j] == s[j + 1]);
    }
    assert forall|i: int, k: int, j: int, l: int|
        0 <= i < sd.len() && 0 <= k < sd[i].queue.len() && 0 <= j < sd.len() && 0 <= l
            < sd[j].queue.len() && (i != j || k != l) implies (#[trigger] sd[i].queue[k]).id != (
    #[trigger] sd[j].queue[l]).id by {
        assert(sd[i] == s[i + 1]);
        assert(sd[j] == s[j + 1]);
        assert(s[i + 1].queue[k].id != s[j + 1].queue[l].id);
    }
}

pub proof fn lemma_sum_queue_push(q: Seq<RestingV>, r: RestingV)
    ensures
        sum_queue(q.push(r)) == sum_queue(q) + r.amount,
    decreases q.len(),
{
    if q.len() == 0 {
        assert(q.push(r)[0] == r);
        assert(q.push(r).drop_first() =~= Seq::<RestingV>::empty());
        assert(sum_queue(q.push(r)) == r.amount + sum_queue(Seq::<RestingV>::empty()));
        assert(sum_queue(Seq::<RestingV>::empty()) == 0);
        assert(sum_queue(q) == 0);
    } else {
        assert(q.push(r)[0] == q[0]);
        assert(q.push(r).drop_first() =~= q.drop_first().push(r));
        lemma_sum_queue_push(q.drop_first(), r);
        assert(sum_queue(q.push(r)) == q[0].amount + sum_queue(q.drop_first().push(r)));
        assert(sum_queue(q) == q[0].amount + sum_queue(q.drop_first()));
    }
}

pub proof fn lemma_sum_queue_remove(q: Seq<RestingV>, k: int)
    requires
        0 <= k < q.len(),
    ensures
        sum_queue(q.remove(k)) == sum_queue(q) - q[k].amount,
    decreases k,
{
    if k == 0 {
        assert(q.remove(0) =~= q.drop_first());
    } else {
        assert(q.remove(k).drop_first() =~= q.drop_first().remove(k - 1));
        lemma_sum_queue_remove(q.drop_first(), k - 1);
    }
}

/// Where `insert_resting` puts its order: at the unique position given by the
/// price ordering. The result is the position-based update or insert that the
/// executable code performs.
pub proof fn lemma_insert_resting_at(
    s: Seq<LevelV>,
    is_bid: bool,
    price: int,
    r: RestingV,
    pos: int,
)
    requires
        0 <= pos <= s.len(),
        forall|i: int| 0 <= i < pos ==> level_precedes(is_bid, (#[trigger] s[i]).price, price),
        pos < s.len() ==> (s[pos].price == price || level_precedes(is_bid, price, s[pos].price)),
    ensures
        insert_resting(s, is_bid, price, r) == (if pos < s.len() && s[pos].price == price {
            s.update(
                pos,
                LevelV { price, total: s[pos].total + r.amount, queue: s[pos].queue.push(r) },
            )
        } else {
            s.insert(pos, LevelV { price, total: r.amount, queue: seq![r] })
        }),
    decreases pos,
{
    if pos == 0 {
        if s.len() == 0 {
            assert(insert_resting(s, is_bid, price, r) =~= s.insert(
                0,
                LevelV { price, total: r.amount, queue: seq![r] },
            ));
        } else if s[0].price == price {
            assert(insert_resting(s, is_bid, price, r) =~= s.update(
                0,
                LevelV { price, total: s[0].total + r.amount, queue: s[0].queue.push(r) },
            ));
        } else {
            assert(insert_resting(s, is_bid, price, r) =~= s.insert(
                0,
                LevelV { price, total: r.amount, queue: seq![r] },
            ));
        }
    } else {
        let sd = s.drop_first();
        assert(level_precedes(is_bid, s[0].price, price));
        assert forall|i: int| 0 <= i < pos - 1 implies level_precedes(
            is_bid,
            (#[trigger] sd[i]).price,
            price,
        ) by {
            assert(sd[i] == s[i + 1]);
        }
        assert(pos - 1 < sd.len() ==> (sd[pos - 1].price == price || level_precedes(
            is_bid,
            price,
            sd[pos - 1].price,
        ))) by {
            if pos - 1 < sd.len() {
                assert(sd[pos - 1] == s[pos]);
            }
        }
        lemma_insert_resting_at(sd, is_bid, price, r, pos - 1);
        if pos < s.len() && s[pos].price == price {
            assert(sd[pos - 1] == s[pos]);
            assert(seq![s[0]] + sd.update(
                pos - 1,
                LevelV { price, total: s[pos].total + r.amount, queue: s[pos].queue.push(r) },
            ) =~= s.update(
                pos,
                LevelV { price, total: s[pos].total + r.amount, queue: s[pos].queue.push(r) },
            ));
        } else {
            assert(seq![s[0]] + sd.insert(pos - 1, LevelV { price, total: r.amount, queue: seq![r] })
                =~= s.insert(pos, LevelV { price, total: r.amount, queue: seq![r] }));
        }
    }
}

/// Everything the book needs to know about depositing a residual: the side
/// stays well-formed, exactly the new id is added, it rests at its own price,
/// every other id keeps its level, and the best price only improves to the
/// incoming price.
#[verifier::rlimit(80)]
pub proof fn lemma_insert_props_at(s: Seq<LevelV>, is_bid: bool, price: int, r: RestingV, pos: int)
    requires
        side_wf(s, is_bid),
        side_ids_distinct(s),
        1 <= price <= i64::MAX,
        1 <= r.amount <= i32::MAX,
        0 <= r.id <= u128::MAX,
        !side_has_id(s, r.id),
        !insert_overflows(s, price, r.amount),
        0 <= pos <= s.len(),
        forall|i: int| 0 <= i < pos ==> level_precedes(is_bid, (#[trigger] s[i]).price, price),
        pos < s.len() ==> (s[pos].price == price || level_precedes(is_bid, price, s[pos].price)),
    ensures
        ({
            let t = insert_resting(s, is_bid, price, r);
            &&& t == (if pos < s.len() && s[pos].price == price {
                s.update(
                    pos,
                    LevelV { price, total: s[pos].total + r.amount, queue: s[pos].queue.push(r) },
                )
            } else {
                s.insert(pos, LevelV { price, total: r.amount, queue: seq![r] })
            })
            &&& side_wf(t, is_bid)
            &&& side_ids_distinct(t)
            &&& forall|x: int| side_has_id(t, x) <==> side_has_id(s, x) || x == r.id
            &&& side_id_at_price(t, price, r.id)
            &&& forall|x: int, p: int|
                x != r.id ==> (side_id_at_price(t, p, x) <==> side_id_at_price(s, p, x))
            &&& t.len() > 0
            &&& t[0].price == (if s.len() == 0 {
                price
            } else if level_precedes(is_bid, price, s[0].price) {
                price
            } else {
                s[0].price
            })
        }),
{
    lemma_insert_resting_at(s, is_bid, price, r, pos);
    let t = insert_resting(s, is_bid, price, r);
    if pos < s.len() && s[pos].price == price {
        let merged = LevelV { price, total: s[pos].total + r.amount, queue: s[pos].queue.push(r) };
        assert(t == s.update(pos, merged));
        assert(level_wf(merged)) by {
            lemma_sum_queue_push(s[pos].queue, r);
            assert(level_wf(s[pos]));
            assert forall|k: int| 0 <= k < merged.queue.len() implies 1 <= (
            #[trigger] merged.queue[k]).amount <= i32::MAX && 0 <= merged.queue[k].id <= u128::MAX by {
                if k < s[pos].queue.len() {
                    assert(merged.queue[k] == s[pos].queue[k]);
                }
            }
            assert(!(s[pos].total + r.amount > i32::MAX));
        }
        assert forall|i: int| 0 <= i < t.len() implies level_wf(#[trigger] t[i]) by {
            if i != pos {
                assert(t[i] == s[i]);
            }
        }
        assert forall|i: int, j: int| 0 <= i < j < t.len() implies (if is_bid {
            (#[trigger] t[i]).price > (#[trigger] t[j]).price
        } else {
            (#[trigger] t[i]).price < (#[trigger] t[j]).price
        }) by {
            assert(t[i].price == s[i].price);
            assert(t[j].price == s[j].price);
        }
        assert forall|i: int, k: int, j: int, l: int|
            0 <= i < t.len() && 0 <= k < t[i].queue.len() && 0 <= j < t.len() && 0 <= l
                < t[j].queue.len() && (i != j || k != l) implies (#[trigger] t[i].queue[k]).id != (
        #[trigger] t[j].queue[l]).id by {
            // map each position of t back to a position of s, or to the new order
            let newk = s[pos].queue.len() as int;
            if (i == pos && k == newk) || (j == pos && l == newk) {
                // one of the two is the new order; the other is an old entry
                if i == pos && k == newk {
                    assert(t[i].queue[k].id == r.id);
                    if j == pos {
                        assert(t[j].queue[l] == s[pos].queue[l]);
                        assert(level_has_id(s[pos], t[j].queue[l].id));
                        assert(side_has_id(s, t[j].queue[l].id));
                    } else {
                        assert(t[j].queue[l] == s[j].queue[l]);
                        assert(side_has_id(s, t[j].queue[l].id));
                    }
                } else {
                    assert(t[j].queue[l].id == r.id);
                    if i == pos {
                        assert(t[i].queue[k] == s[pos].queue[k]);
                        assert(side_has_id(s, t[i].queue[k].id));
                    } else {
                        assert(t[i].queue[k] == s[i].queue[k]);
                        assert(side_has_id(s, t[i].queue[k].id));
                    }
                }
            } else {
                assert(t[i].queue[k] == s[i].queue[k]);
                assert(t[j].queue[l] == s[j].queue[l]);
                assert(s[i].queue[k].id != s[j].queue[l].id);
            }
        }
        assert forall|x: int| side_has_id(t, x) implies side_has_id(s, x) || x == r.id by {
            let i = choose|i: int| 0 <= i < t.len() && level_has_id(t[i], x);
            let k = choose|k: int| 0 <= k < t[i].queue.len() && t[i].queue[k].id == x;
            if i == pos && k == s[pos].queue.len() {
            } else if i == pos {
                assert(s[pos].queue[k].id == x);
                assert(level_has_id(s[pos], x));
            } else {
                assert(t[i] == s[i]);
            }
        }
        assert forall|x: int| side_has_id(s, x) || x == r.id implies side_has_id(t, x) by {
            if x == r.id {
                assert(t[pos].queue[s[pos].queue.len() as int].id == r.id);
                assert(level_has_id(t[pos], x));
            } else {
                let i = choose|i: int| 0 <= i < s.len() && level_has_id(s[i], x);
                let k = choose|k: int| 0 <= k < s[i].queue.len() && s[i].queue[k].id == x;
                if i == pos {
                    assert(t[pos].queue[k].id == x);
                } else {
                    assert(t[i] == s[i]);
                }
                assert(level_has_id(t[i], x));
            }
        }
        assert(side_id_at_price(t, price, r.id)) by {
            assert(t[pos].price == price);
            assert(t[pos].queue[s[pos].queue.len() as int].id == r.id);
            assert(level_has_id(t[pos], r.id));
        }
        assert forall|x: int, p: int| x != r.id implies (side_id_at_price(t, p, x)
            <==> side_id_at_price(s, p, x)) by {
            if side_id_at_price(t, p, x) {
                let i = choose|i: int| 0 <= i < t.len() && t[i].price == p && level_has_id(t[i], x);
                let k = choose|k: int| 0 <= k < t[i].queue.len() && t[i].queue[k].id == x;
                if i == pos {
                    assert(k != s[pos].queue.len());
                    assert(s[pos].queue[k].id == x);
                    assert(s[pos].price == p && level_has_id(s[pos], x));
                } else {
                    assert(t[i] == s[i]);
                    assert(s[i].price == p && level_has_id(s[i], x));
                }
                assert(side_id_at_price(s, p, x));
            }
            if side_id_at_price(s, p, x) {
                let i = choose|i: int| 0 <= i < s.len() && s[i].price == p && level_has_id(s[i], x);
                let k = choose|k: int| 0 <= k < s[i].queue.len() && s[i].queue[k].id == x;
                if i == pos {
                    assert(t[pos].queue[k].id == x);
                    assert(t[pos].price == p && level_has_id(t[pos], x));
                } else {
                    assert(t[i] == s[i]);
                    assert(t[i].price == p && level_has_id(t[i], x));
                }
                assert(side_id_at_price(t, p, x));
            }
        }
        assert(t[0].price == s[0].price);
        assert(pos == 0 ==> !level_precedes(is_bid, price, s[0].price));
        assert(pos > 0 ==> level_precedes(is_bid, s[0].price, price));
    } else {
        let fresh = LevelV { price, total: r.amount, queue: seq![r] };
        assert(t == s.insert(pos, fresh));
        assert(t.len() == s.len() + 1);
        assert(t[pos as int] == fresh);
        assert forall|i: int| 0 <= i < t.len() implies level_wf(#[trigger] t[i]) by {
            if i < pos {
                assert(t[i] == s[i]);
            } else if i > pos {
                assert(t[i] == s[i - 1]);
            } else {
                assert(t[i] == fresh);
                assert(sum_queue(fresh.queue) == fresh.queue[0].amount + sum_queue(
                    fresh.queue.drop_first(),
                ));
                assert(fresh.queue.drop_first() =~= Seq::<RestingV>::empty());
            }
        }
        assert forall|i: int, j: int| 0 <= i < j < t.len() implies (if is_bid {
            (#[trigger] t[i]).price > (#[trigger] t[j]).price
        } else {
            (#[trigger] t[i]).price < (#[trigger] t[j]).price
        }) by {
            if i < pos && j < pos {
            } else if i < pos && j == pos {
                assert(t[i] == s[i]);
                assert(level_precedes(is_bid, s[i].price, price));
            } else if i < pos && j > pos {
                assert(t[i] == s[i]);
                assert(t[j] == s[j - 1]);
            } else if i == pos && j > pos {
                assert(t[j] == s[j - 1]);
                // price precedes s[pos].price (if it exists), which precedes s[j-1].price
                assert(pos < s.len());
                assert(level_precedes(is_bid, price, s[pos as int].price));
                if j - 1 > pos {
                    assert(level_precedes(is_bid, s[pos as int].price, s[j - 1].price));
                }
            } else {
                assert(t[i] == s[i - 1]);
                assert(t[j] == s[j - 1]);
            }
        }
        assert forall|i: int, k: int, j: int, l: int|
            0 <= i < t.len() && 0 <= k < t[i].queue.len() && 0 <= j < t.len() && 0 <= l
                < t[j].queue.len() && (i != j || k != l) implies (#[trigger] t[i].queue[k]).id != (
        #[trigger] t[j].queue[l]).id by {
            if i == pos && j == pos {
                // the fresh level holds a single order
                assert(t[i].queue.len() == 1);
            } else if i == pos {
                assert(t[i].queue[k].id == r.id);
                let jj = if j < pos {
                    j
                } else {
                    j - 1
                };
                assert(t[j].queue[l] == s[jj].queue[l]);
                assert(side_has_id(s, s[jj].queue[l].id));
            } else if j == pos {
                assert(t[j].queue[l].id == r.id);
                let ii = if i < pos {
                    i
                } else {
                    i - 1
                };
                assert(t[i].queue[k] == s[ii].queue[k]);
                assert(side_has_id(s, s[ii].queue[k].id));
            } else {
                let ii = if i < pos {
                    i
                } else {
                    i - 1
                };
                let jj = if j < pos {
                    j
                } else {
                    j - 1
                };
                assert(t[i].queue[k] == s[ii].queue[k]);
                assert(t[j].queue[l] == s[jj].queue[l]);
                assert(s[ii].queue[k].id != s[jj].queue[l].id);
            }
        }
        assert forall|x: int| side_has_id(t, x) implies side_has_id(s, x) || x == r.id by {
            let i = choose|i: int| 0 <= i < t.len() && level_has_id(t[i], x);
            if i == pos {
                let k = choose|k: int| 0 <= k < t[i].queue.len() && t[i].queue[k].id == x;
                assert(x == r.id);
            } else {
                let ii = if i < pos {
                    i
                } else {
                    i - 1
                };
                assert(t[i] == s[ii]);
                assert(level_has_id(s[ii], x));
            }
        }
        assert forall|x: int| side_has_id(s, x) || x == r.id implies side_has_id(t, x) by {
            if x == r.id {
                assert(t[pos as int].queue[0].id == r.id);
                assert(level_has_id(t[pos as int], x));
            } else {
                let i = choose|i: int| 0 <= i < s.len() && level_has_id(s[i], x);
                let ii = if i < pos {
                    i
                } else {
                    i + 1
                };
                assert(t[ii] == s[i]);
                assert(level_has_id(t[ii], x));
            }
        }
        assert(side_id_at_price(t, price, r.id)) by {
            assert(t[pos as int].price == price);
            assert(t[pos as int].queue[0].id == r.id);
            assert(level_has_id(t[pos as int], r.id));
        }
        assert forall|x: int, p: int| x != r.id implies (side_id_at_price(t, p, x)
            <==> side_id_at_price(s, p, x)) by {
            if side_id_at_price(t, p, x) {
                let i = choose|i: int| 0 <= i < t.len() && t[i].price == p && level_has_id(t[i], x);
                if i == pos {
                    let k = choose|k: int| 0 <= k < t[i].queue.len() && t[i].queue[k].id == x;
                    assert(x == r.id);
                } else {
                    let ii = if i < pos {
                        i
                    } else {
                        i - 1
                    };
                    assert(t[i] == s[ii]);
                    assert(side_id_at_price(s, p, x));
                }
            }
            if side_id_at_price(s, p, x) {
                let i = choose|i: int| 0 <= i < s.len() && s[i].price == p && level_has_id(s[i], x);
                let ii = if i < pos {
                    i
                } else {
                    i + 1
                };
                assert(t[ii] == s[i]);
                assert(side_id_at_price(t, p, x));
            }
        }
        if pos == 0 {
            assert(t[0] == fresh);
        } else {
            assert(t[0] == s[0]);
            assert(level_precedes(is_bid, s[0].price, price));
        }
    }
}

// ---------------------------------------------------------------------------
// Cancellation
// ---------------------------------------------------------------------------

/// Remove the entry with the given id from a queue (the first one, though a
/// well-formed book holds at most one).
pub open spec fn queue_remove_id(q: Seq<RestingV>, id: int) -> Seq<RestingV>
    decreases q.len(),
{
    if q.len() == 0 {
        q
    } else if q[0].id == id {
        q.drop_first()
    } else {
        seq![q[0]] + queue_remove_id(q.drop_first(), id)
    }
}

/// The resting quantity of the entry with the given id, 0 if absent.
pub open spec fn queue_id_amount(q: Seq<RestingV>, id: int) -> int
    decreases q.len(),
{
    if q.len() == 0 {
        0
    } else if q[0].id == id {
        q[0].amount
    } else {
        queue_id_amount(q.drop_first(), id)
    }
}

/// Remove the resting order with the given id from a side: its level's queue
/// loses the entry, the total drops by its quantity, and an emptied level is
/// deleted.
pub open spec fn side_remove_id(s: Seq<LevelV>, id: int) -> Seq<LevelV>
    decreases s.len(),
{
    if s.len() == 0 {
        s
    } else if level_has_id(s[0], id) {
        let q2 = queue_remove_id(s[0].queue, id);
        if q2.len() == 0 {
            s.drop_first()
        } else {
            seq![
                LevelV {
                    price: s[0].price,
                    total: s[0].total - queue_id_amount(s[0].queue, id),
                    queue: q2,
                },
            ] + s.drop_first()
        }
    } else {
        seq![s[0]] + side_remove_id(s.drop_first(), id)
    }
}

pub proof fn lemma_queue_remove_id_at(q: Seq<RestingV>, id: int, k: int)
    requires
        0 <= k < q.len(),
        q[k].id == id,
        forall|j: int| 0 <= j < k ==> (#[trigger] q[j]).id != id,
    ensures
        queue_remove_id(q, id) == q.remove(k),
        queue_id_amount(q, id) == q[k].amount,
    decreases k,
{
    if k == 0 {
        assert(queue_remove_id(q, id) =~= q.remove(0));
    } else {
        let qd = q.drop_first();
        assert(q[0].id != id);
        assert(qd[k - 1] == q[k]);
        assert forall|j: int| 0 <= j < k - 1 implies (#[trigger] qd[j]).id != id by {
            assert(qd[j] == q[j + 1]);
        }
        lemma_queue_remove_id_at(qd, id, k - 1);
        assert(seq![q[0]] + qd.remove(k - 1) =~= q.remove(k));
    }
}

/// Where `side_remove_id` strikes: at the unique position of the id. The
/// result is the position-based update or delete the executable code performs.
pub proof fn lemma_side_remove_id_at(s: Seq<LevelV>, id: int, i: int, k: int)
    requires
        0 <= i < s.len(),
        0 <= k < s[i].queue.len(),
        s[i].queue[k].id == id,
        forall|j: int| 0 <= j < i ==> !level_has_id(#[trigger] s[j], id),
        forall|j: int| 0 <= j < k ==> (#[trigger] s[i].queue[j]).id != id,
    ensures
        side_remove_id(s, id) == (if s[i].queue.len() == 1 {
            s.remove(i)
        } else {
            s.update(
                i,
                LevelV {
                    price: s[i].price,
                    total: s[i].total - s[i].queue[k].amount,
                    queue: s[i].queue.remove(k),
                },
            )
        }),
    decreases i,
{
    if i == 0 {
        assert(level_has_id(s[0], id)) by {
            assert(s[0].queue[k].id == id);
        }
        lemma_queue_remove_id_at(s[0].queue, id, k);
        if s[0].queue.len() == 1 {
            assert(s[0].queue.remove(k).len() == 0);
            assert(side_remove_id(s, id) =~= s.remove(0));
        } else {
            assert(s[0].queue.remove(k).len() > 0);
            assert(side_remove_id(s, id) =~= s.update(
                0,
                LevelV {
                    price: s[0].price,
                    total: s[0].total - s[0].queue[k].amount,
                    queue: s[0].queue.remove(k),
                },
            ));
        }
    } else {
        assert(!level_has_id(s[0], id));
        let sd = s.drop_first();
        assert(sd[i - 1] == s[i]);
        assert forall|j: int| 0 <= j < i - 1 implies !level_has_id(#[trigger] sd[j], id) by {
            assert(sd[j] == s[j + 1]);
        }
        lemma_side_remove_id_at(sd, id, i - 1, k);
        if s[i].queue.len() == 1 {
            assert(seq![s[0]] + sd.remove(i - 1) =~= s.remove(i));
        } else {
            assert(seq![s[0]] + sd.update(
                i - 1,
                LevelV {
                    price: s[i].price,
                    total: s[i].total - s[i].queue[k].amount,
                    queue: s[i].queue.remove(k),
                },
            ) =~= s.update(
                i,
                LevelV {
                    price: s[i].price,
                    total: s[i].total - s[i].queue[k].amount,
                    queue: s[i].queue.remove(k),
                },
            ));
        }
    }
}

/// Everything the book needs to know about a cancel: exactly the cancelled id
/// leaves, every other id keeps its level, the side stays well-formed, and
/// the best price does not improve.
#[verifier::rlimit(80)]
pub proof fn lemma_remove_props_at(s: Seq<LevelV>, is_bid: bool, id: int, i: int, k: int)
    requires
        side_wf(s, is_bid),
        side_ids_distinct(s),
        0 <= i < s.len(),
        0 <= k < s[i].queue.len(),
        s[i].queue[k].id == id,
    ensures
        ({
            let t = side_remove_id(s, id);
            &&& t == (if s[i].queue.len() == 1 {
                s.remove(i)
            } else {
                s.update(
                    i,
                    LevelV {
                        price: s[i].price,
                        total: s[i].total - s[i].queue[k].amount,
                        queue: s[i].queue.remove(k),
                    },
                )
            })
            &&& side_wf(t, is_bid)
            &&& side_ids_distinct(t)
            &&& forall|x: int| side_has_id(t, x) <==> side_has_id(s, x) && x != id
            &&& forall|x: int, p: int|
                x != id ==> (side_id_at_price(t, p, x) <==> side_id_at_price(s, p, x))
            &&& (t.len() > 0 ==> s.len() > 0 && (if is_bid {
                t[0].price <= s[0].price
            } else {
                t[0].price >= s[0].price
            }))
        }),
{
    assert forall|j: int| 0 <= j < i implies !level_has_id(#[trigger] s[j], id) by {
        if level_has_id(s[j], id) {
            let l = choose|l: int| 0 <= l < s[j].queue.len() && s[j].queue[l].id == id;
            assert(s[j].queue[l].id != s[i].queue[k].id);
        }
    }
    assert forall|j: int| 0 <= j < k implies (#[trigger] s[i].queue[j]).id != id by {
        assert(s[i].queue[j].id != s[i].queue[k].id);
    }
    lemma_side_remove_id_at(s, id, i, k);
    let t = side_remove_id(s, id);
    let amt = s[i].queue[k].amount;
    if s[i].queue.len() == 1 {
        assert(k == 0);
        assert(t == s.remove(i));
        assert forall|j: int| 0 <= j < t.len() implies level_wf(#[trigger] t[j]) && #[trigger] t[j]
            == (if j < i {
            s[j]
        } else {
            s[j + 1]
        }) by {}
        assert forall|a: int, b: int| 0 <= a < b < t.len() implies (if is_bid {
            (#[trigger] t[a]).price > (#[trigger] t[b]).price
        } else {
            (#[trigger] t[a]).price < (#[trigger] t[b]).price
        }) by {
            let aa = if a < i {
                a
            } else {
                a + 1
            };
            let bb = if b < i {
                b
            } else {
                b + 1
            };
            assert(t[a] == s[aa]);
            assert(t[b] == s[bb]);
        }
        assert forall|a: int, c: int, b: int, l: int|
            0 <= a < t.len() && 0 <= c < t[a].queue.len() && 0 <= b < t.len() && 0 <= l
                < t[b].queue.len() && (a != b || c != l) implies (#[trigger] t[a].queue[c]).id != (
        #[trigger] t[b].queue[l]).id by {
            let aa = if a < i {
                a
            } else {
                a + 1
            };
            let bb = if b < i {
                b
            } else {
                b + 1
            };
            assert(t[a] == s[aa]);
            assert(t[b] == s[bb]);
            assert(s[aa].queue[c].id != s[bb].queue[l].id);
        }
        assert forall|x: int| side_has_id(t, x) implies side_has_id(s, x) && x != id by {
            let a = choose|a: int| 0 <= a < t.len() && level_has_id(t[a], x);
            let aa = if a < i {
                a
            } else {
                a + 1
            };
            assert(t[a] == s[aa]);
            assert(level_has_id(s[aa], x));
            if x == id {
                let c = choose|c: int| 0 <= c < s[aa].queue.len() && s[aa].queue[c].id == x;
                assert(s[aa].queue[c].id != s[i].queue[k].id);
            }
        }
        assert forall|x: int| side_has_id(s, x) && x != id implies side_has_id(t, x) by {
            let a = choose|a: int| 0 <= a < s.len() && level_has_id(s[a], x);
            if a == i {
                let c = choose|c: int| 0 <= c < s[i].queue.len() && s[i].queue[c].id == x;
                assert(c == k);
                assert(false);
            } else {
                let aa = if a < i {
                    a
                } else {
                    a - 1
                };
                assert(t[aa] == s[a]);
                assert(level_has_id(t[aa], x));
            }
        }
        assert forall|x: int, p: int| x != id implies (side_id_at_price(t, p, x)
            <==> side_id_at_price(s, p, x)) by {
            if side_id_at_price(t, p, x) {
                let a = choose|a: int| 0 <= a < t.len() && t[a].price == p && level_has_id(t[a], x);
                let aa = if a < i {
                    a
                } else {
                    a + 1
                };
                assert(t[a] == s[aa]);
                assert(side_id_at_price(s, p, x));
            }
            if side_id_at_price(s, p, x) {
                let a = choose|a: int| 0 <= a < s.len() && s[a].price == p && level_has_id(s[a], x);
                if a == i {
                    let c = choose|c: int| 0 <= c < s[i].queue.len() && s[i].queue[c].id == x;
                    assert(c == k);
                    assert(false);
                } else {
                    let aa = if a < i {
                        a
                    } else {
                        a - 1
                    };
                    assert(t[aa] == s[a]);
                    assert(side_id_at_price(t, p, x));
                }
            }
        }
        if t.len() > 0 {
            if i == 0 {
                assert(t[0] == s[1]);
            } else {
                assert(t[0] == s[0]);
            }
        }
    } else {
        let shrunk = LevelV {
            price: s[i].price,
            total: s[i].total - amt,
            queue: s[i].queue.remove(k),
        };
        assert(t == s.update(i, shrunk));
        assert(level_wf(shrunk)) by {
            lemma_sum_queue_remove(s[i].queue, k);
            assert(level_wf(s[i]));
            assert forall|c: int| 0 <= c < shrunk.queue.len() implies 1 <= (
            #[trigger] shrunk.queue[c]).amount <= i32::MAX && 0 <= shrunk.queue[c].id <= u128::MAX by {
                let cc = if c < k {
                    c
                } else {
                    c + 1
                };
                assert(shrunk.queue[c] == s[i].queue[cc]);
            }
            lemma_sum_queue_nonneg(shrunk.queue);
        }
        assert forall|j: int| 0 <= j < t.len() implies level_wf(#[trigger] t[j]) by {
            if j != i {
                assert(t[j] == s[j]);
            }
        }
        assert forall|a: int, b: int| 0 <= a < b < t.len() implies (if is_bid {
            (#[trigger] t[a]).price > (#[trigger] t[b]).price
        } else {
            (#[trigger] t[a]).price < (#[trigger] t[b]).price
        }) by {
            assert(t[a].price == s[a].price);
            assert(t[b].price == s[b].price);
        }
        assert forall|a: int, c: int, b: int, l: int|
            0 <= a < t.len() && 0 <= c < t[a].queue.len() && 0 <= b < t.len() && 0 <= l
                < t[b].queue.len() && (a != b || c != l) implies (#[trigger] t[a].queue[c]).id != (
        #[trigger] t[b].queue[l]).id by {
            let cc = if a == i && c >= k {
                c + 1
            } else {
                c
            };
            let ll = if b == i && l >= k {
                l + 1
            } else {
                l
            };
            assert(t[a].queue[c] == s[a].queue[cc]);
            assert(t[b].queue[l] == s[b].queue[ll]);
            assert(s[a].queue[cc].id != s[b].queue[ll].id);
        }
        assert forall|x: int| side_has_id(t, x) implies side_has_id(s, x) && x != id by {
            let a = choose|a: int| 0 <= a < t.len() && level_has_id(t[a], x);
            let c = choose|c: int| 0 <= c < t[a].queue.len() && t[a].queue[c].id == x;
            let cc = if a == i && c >= k {
                c + 1
            } else {
                c
            };
            assert(t[a].queue[c] == s[a].queue[cc]);
            assert(level_has_id(s[a], x));
            if x == id {
                assert(s[a].queue[cc].id != s[i].queue[k].id || (a == i && cc == k));
                assert(false);
            }
        }
        assert forall|x: int| side_has_id(s, x) && x != id implies side_has_id(t, x) by {
            let a = choose|a: int| 0 <= a < s.len() && level_has_id(s[a], x);
            let c = choose|c: int| 0 <= c < s[a].queue.len() && s[a].queue[c].id == x;
            if a == i {
                assert(c != k);
                let cc = if c < k {
                    c
                } else {
                    c - 1
                };
                assert(t[i].queue[cc] == s[i].queue[c]);
                assert(level_has_id(t[i], x));
            } else {
                assert(t[a] == s[a]);
                assert(level_has_id(t[a], x));
            }
        }
        assert forall|x: int, p: int| x != id implies (side_id_at_price(t, p, x)
            <==> side_id_at_price(s, p, x)) by {
            if side_id_at_price(t, p, x) {
                let a = choose|a: int| 0 <= a < t.len() && t[a].price == p && level_has_id(t[a], x);
                let c = choose|c: int| 0 <= c < t[a].queue.len() && t[a].queue[c].id == x;
                let cc = if a == i && c >= k {
                    c + 1
                } else {
                    c
                };
                assert(t[a].queue[c] == s[a].queue[cc]);
                assert(t[a].price == s[a].price);
                assert(level_has_id(s[a], x));
                assert(side_id_at_price(s, p, x));
            }
            if side_id_at_price(s, p, x) {
                let a = choose|a: int| 0 <= a < s.len() && s[a].price == p && level_has_id(s[a], x);
                let c = choose|c: int| 0 <= c < s[a].queue.len() && s[a].queue[c].id == x;
                if a == i {
                    assert(c != k);
                    let cc = if c < k {
                        c
                    } else {
                        c - 1
                    };
                    assert(t[i].queue[cc] == s[i].queue[c]);
                    assert(t[i].price == p && level_has_id(t[i], x));
                } else {
                    assert(t[a] == s[a]);
                    assert(t[a].price == p && level_has_id(t[a], x));
                }
                assert(side_id_at_price(t, p, x));
            }
        }
        assert(t[0].price == s[0].price);
    }
}

/// The side on which an order with this action would rest.
pub open spec fn side_of(b: BookV, a: Action) -> Seq<LevelV> {
    match a {
        Action::Buy => b.bids,
        Action::Sell => b.asks,
    }
}

/// The side an aggressive order with this action trades against.
pub open spec fn opposite_of(b: BookV, a: Action) -> Seq<LevelV> {
    match a {
        Action::Buy => b.asks,
        Action::Sell => b.bids,
    }
}

/// Whether the order with `id` rests at the level priced `price` of side `s`.
pub open spec fn side_id_at_price(s: Seq<LevelV>, price: int, id: int) -> bool {
    exists|i: int|
        0 <= i < s.len() && (#[trigger] s[i]).price == price && level_has_id(s[i], id)
}

/// A Cancel matches when the order's id rests on the Cancel's own side at
/// the Cancel's own price.
pub open spec fn cancel_matches(b: BookV, o: OrderV) -> bool {
    side_id_at_price(side_of(b, o.action), o.price, o.id)
}

// ---------------------------------------------------------------------------
// The transition function
// ---------------------------------------------------------------------------

/// Why an event is rejected before any mutation.
pub open spec fn cancel_rejected(b: BookV, o: OrderV) -> bool {
    &&& o.order_type is Cancel
    &&& book_has_id(b, o.id)
    &&& !cancel_matches(b, o)
}

/// A Limit order whose id already rests somewhere: its insertion would break
/// id uniqueness, so it is rejected.
pub open spec fn duplicate_limit(b: BookV, o: OrderV) -> bool {
    &&& o.order_type is Limit
    &&& book_has_id(b, o.id)
}

/// A Limit order whose full quantity could not rest at its price without the
/// level total leaving the representable range. Checked before any mutation,
/// so the whole quantity is assumed, not the residual.
pub open spec fn limit_overflow(b: BookV, o: OrderV) -> bool {
    &&& o.order_type is Limit
    &&& !book_has_id(b, o.id)
    &&& insert_overflows(side_of(b, o.action), o.price, o.amount)
}

/// One step of the book: apply a validated order event, producing the next
/// book and the trades, or nothing when the event is rejected.
pub open spec fn spec_apply(b: BookV, o: OrderV) -> Option<(BookV, Seq<TradeV>)> {
    match o.order_type {
        OrderType::Cancel => {
            if !book_has_id(b, o.id) {
                // Unknown cancel: silently ignored, the book untouched.
                Some((b, Seq::empty()))
            } else if cancel_matches(b, o) {
                let b2 = match o.action {
                    Action::Buy => BookV {
                        bids: side_remove_id(b.bids, o.id),
                        last_update: o.timestamp,
                        ..b
                    },
                    Action::Sell => BookV {
                        asks: side_remove_id(b.asks, o.id),
                        last_update: o.timestamp,
                        ..b
                    },
                };
                Some((b2, Seq::empty()))
            } else {
                None
            }
        },
        OrderType::Market => {
            let m = match_levels(opposite_of(b, o.action), o.action, true, 0, o.amount, o.id);
            let b2 = match o.action {
                Action::Buy => BookV { asks: m.levels, last_update: o.timestamp, ..b },
                Action::Sell => BookV { bids: m.levels, last_update: o.timestamp, ..b },
            };
            Some((b2, m.trades))
        },
        OrderType::Limit => {
            if book_has_id(b, o.id) {
                None
            } else if insert_overflows(side_of(b, o.action), o.price, o.amount) {
                None
            } else {
                let m = match_levels(
                    opposite_of(b, o.action),
                    o.action,
                    false,
                    o.price,
                    o.amount,
                    o.id,
                );
                let b1 = match o.action {
                    Action::Buy => BookV { asks: m.levels, last_update: o.timestamp, ..b },
                    Action::Sell => BookV { bids: m.levels, last_update: o.timestamp, ..b },
                };
                if m.residual > 0 {
                    let r = RestingV { id: o.id, amount: m.residual };
                    let b2 = match o.action {
                        Action::Buy => BookV {
                            bids: insert_resting(b1.bids, true, o.price, r),
                            ..b1
                        },
                        Action::Sell => BookV {
                            asks: insert_resting(b1.asks, false, o.price, r),
                            ..b1
                        },
                    };
                    Some((b2, m.trades))
                } else {
                    Some((b1, m.trades))
                }
            }
        },
    }
}

} // verus!
