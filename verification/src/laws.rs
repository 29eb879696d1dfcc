//! The laws of the book, stated and proved over the model: the invariants
//! that every reachable book satisfies, first-in-first-out filling within a
//! price level, and cancel idempotence.

use vstd::prelude::*;

use crate::model::{
    book_has_id, book_wf, cancel_matches, crossable, insert_overflows, insert_resting,
    lemma_insert_props_at, level_has_id, lemma_remove_props_at, level_precedes, match_levels,
    match_queue, opposite_of, queue_amounts_ok, queue_has_id, queue_ids_distinct, queue_ids_ok,
    side_has_id, side_id_at_price, side_of, side_remove_id, spec_apply, sum_queue, valid_order,
    BookV, LevelV, OrderV, RestingV, TradeV,
};
use crate::orderbook::{index_has_id, index_wf, Action, IndexEntry};

verus! {

/// Sum conservation: on every side of a well-formed book, each level's
/// total quantity equals the sum of the quantities of its queue members.
pub proof fn lemma_sum_conservation(b: BookV)
    requires
        book_wf(b),
    ensures
        forall|i: int|
            0 <= i < b.bids.len() ==> (#[trigger] b.bids[i]).total == sum_queue(b.bids[i].queue),
        forall|i: int|
            0 <= i < b.asks.len() ==> (#[trigger] b.asks[i]).total == sum_queue(b.asks[i].queue),
{
}

/// Price ordering: in a well-formed book, bid prices are strictly
/// descending from best and ask prices strictly ascending, so no side holds
/// two levels at one price.
pub proof fn lemma_price_ordering(b: BookV)
    requires
        book_wf(b),
    ensures
        forall|i: int, j: int|
            0 <= i < j < b.bids.len() ==> (#[trigger] b.bids[i]).price > (
            #[trigger] b.bids[j]).price,
        forall|i: int, j: int|
            0 <= i < j < b.asks.len() ==> (#[trigger] b.asks[i]).price < (
            #[trigger] b.asks[j]).price,
{
}

/// No crossed book: in a well-formed book, whenever both sides are
/// non-empty, the best bid is strictly below the best ask.
pub proof fn lemma_no_crossed_book(b: BookV)
    requires
        book_wf(b),
    ensures
        b.bids.len() > 0 && b.asks.len() > 0 ==> b.bids[0].price < b.asks[0].price,
{
}

/// Index consistency: an id is indexed iff an order with that id currently
/// rests somewhere in the book.
pub proof fn lemma_index_consistency(b: BookV, idx: Seq<IndexEntry>)
    requires
        book_wf(b),
        index_wf(b, idx),
    ensures
        forall|id: int| index_has_id(idx, id) <==> book_has_id(b, id),
{
    assert forall|id: int| index_has_id(idx, id) implies book_has_id(b, id) by {
        let n = choose|n: int| 0 <= n < idx.len() && (#[trigger] idx[n]).id == id;
        assert(side_id_at_price(
            side_of(b, idx[n].action),
            idx[n].price as int,
            idx[n].id as int,
        ));
        let i = choose|i: int|
            0 <= i < side_of(b, idx[n].action).len() && (#[trigger] side_of(
                b,
                idx[n].action,
            )[i]).price == idx[n].price as int && level_has_id(side_of(b, idx[n].action)[i], id);
        assert(side_has_id(side_of(b, idx[n].action), id));
    }
}

/// First-in-first-out within a level: when an aggressor's quantity equals
/// the front resting order's quantity, exactly the front order — the earlier
/// arrival — is filled and leaves; every later arrival at the level is
/// untouched. Together with tail insertion of new resting orders, this is
/// price-time priority within a level.
pub proof fn lemma_fifo_within_level(q: Seq<RestingV>, price: int, aggr_id: int)
    requires
        q.len() >= 2,
        queue_amounts_ok(q),
        queue_ids_ok(q),
        queue_ids_distinct(q),
    ensures
        ({
            let f = match_queue(q, q[0].amount, price, aggr_id);
            &&& f.queue == q.drop_first()
            &&& f.trades == seq![
                TradeV {
                    price,
                    amount: q[0].amount,
                    aggressor_id: aggr_id,
                    resting_id: q[0].id,
                },
            ]
            &&& f.residual == 0
        }),
{
    let f = match_queue(q, q[0].amount, price, aggr_id);
    let rest = match_queue(q.drop_first(), 0, price, aggr_id);
    assert(rest.queue == q.drop_first());
    assert(rest.trades == Seq::<TradeV>::empty());
    assert(f.trades =~= seq![
        TradeV { price, amount: q[0].amount, aggressor_id: aggr_id, resting_id: q[0].id },
    ]);
}

/// Price-time priority across applications: two Limit orders at one price on
/// one side, applied first `a` then `b2nd`, rest in arrival order, and a
/// crossing aggressor for exactly `a`'s quantity fills `a` alone — the later
/// arrival stays in the book untouched.
///
/// The price is taken to open a fresh best level on its side and not to
/// cross the opposing side, so that both orders rest in full.
#[verifier::rlimit(100)]
pub proof fn lemma_price_time_priority(b: BookV, a: OrderV, b2nd: OrderV, c: OrderV)
    requires
        book_wf(b),
        valid_order(a),
        valid_order(b2nd),
        valid_order(c),
        a.order_type is Limit,
        b2nd.order_type is Limit,
        c.order_type is Limit,
        b2nd.action == a.action,
        c.action == (match a.action {
            Action::Buy => Action::Sell,
            Action::Sell => Action::Buy,
        }),
        b2nd.price == a.price,
        c.price == a.price,
        c.amount == a.amount,
        a.id != b2nd.id,
        c.id != a.id,
        c.id != b2nd.id,
        !book_has_id(b, a.id),
        !book_has_id(b, b2nd.id),
        !book_has_id(b, c.id),
        a.amount + b2nd.amount <= i32::MAX,
        forall|i: int|
            0 <= i < side_of(b, a.action).len() ==> level_precedes(
                a.action is Buy,
                a.price,
                (#[trigger] side_of(b, a.action)[i]).price,
            ),
        opposite_of(b, a.action).len() > 0 ==> !crossable(
            a.action,
            opposite_of(b, a.action)[0].price,
            false,
            a.price,
        ),
    ensures
        ({
            let st1 = spec_apply(b, a);
            &&& st1 is Some
            &&& st1->Some_0.1 == Seq::<TradeV>::empty()
            &&& {
                let st2 = spec_apply(st1->Some_0.0, b2nd);
                &&& st2 is Some
                &&& st2->Some_0.1 == Seq::<TradeV>::empty()
                &&& {
                    let st3 = spec_apply(st2->Some_0.0, c);
                    &&& st3 is Some
                    &&& st3->Some_0.1 == seq![
                        TradeV {
                            price: a.price,
                            amount: a.amount,
                            aggressor_id: c.id,
                            resting_id: a.id,
                        },
                    ]
                    &&& !book_has_id(st3->Some_0.0, a.id)
                    &&& book_has_id(st3->Some_0.0, b2nd.id)
                }
            }
        }),
{
    let is_bid = a.action is Buy;
    let p = a.price;
    let s0 = side_of(b, a.action);
    let opp0 = opposite_of(b, a.action);
    let ra = RestingV { id: a.id, amount: a.amount };
    let rb = RestingV { id: b2nd.id, amount: b2nd.amount };

    // --- step 1: `a` rests in full, opening the level ---
    assert(!side_has_id(s0, a.id));
    assert(!insert_overflows(s0, p, a.amount)) by {
        if insert_overflows(s0, p, a.amount) {
            let i = choose|i: int|
                0 <= i < s0.len() && (#[trigger] s0[i]).price == p && s0[i].total + a.amount
                    > i32::MAX;
            assert(level_precedes(is_bid, p, s0[i].price));
        }
    }
    let m1 = match_levels(opp0, a.action, false, p, a.amount, a.id);
    assert(m1.levels == opp0 && m1.trades == Seq::<TradeV>::empty() && m1.residual == a.amount);
    lemma_insert_props_at(s0, is_bid, p, ra, 0);
    let s1 = insert_resting(s0, is_bid, p, ra);
    let fresh = LevelV { price: p, total: a.amount, queue: seq![ra] };
    assert(s1 == s0.insert(0, fresh));
    assert(s1[0] == fresh);
    let st1 = spec_apply(b, a);
    assert(st1 is Some && st1->Some_0.1 == m1.trades);
    let b1 = st1->Some_0.0;
    assert(side_of(b1, a.action) == s1);
    assert(opposite_of(b1, a.action) == opp0);

    // --- step 2: `b2nd` joins the tail of the same level ---
    assert(!book_has_id(b1, b2nd.id)) by {
        if side_has_id(s1, b2nd.id) {
            assert(side_has_id(s0, b2nd.id) || b2nd.id == ra.id);
            assert(book_has_id(b, b2nd.id));
        }
    }
    assert(!insert_overflows(s1, p, b2nd.amount)) by {
        if insert_overflows(s1, p, b2nd.amount) {
            let i = choose|i: int|
                0 <= i < s1.len() && (#[trigger] s1[i]).price == p && s1[i].total + b2nd.amount
                    > i32::MAX;
            if i == 0 {
                assert(s1[0].total == a.amount);
            } else {
                assert(s1[i] == s0[i - 1]);
                assert(level_precedes(is_bid, p, s0[i - 1].price));
            }
        }
    }
    let m2 = match_levels(opp0, b2nd.action, false, p, b2nd.amount, b2nd.id);
    assert(m2.levels == opp0 && m2.trades == Seq::<TradeV>::empty() && m2.residual == b2nd.amount);
    lemma_insert_props_at(s1, is_bid, p, rb, 0);
    let s2 = insert_resting(s1, is_bid, p, rb);
    let merged = LevelV { price: p, total: a.amount + b2nd.amount, queue: seq![ra].push(rb) };
    assert(s2 == s1.update(0, merged));
    assert(merged.queue =~= seq![ra, rb]);
    let st2 = spec_apply(b1, b2nd);
    assert(st2 is Some && st2->Some_0.1 == m2.trades);
    let b2 = st2->Some_0.0;
    assert(side_of(b2, a.action) == s2);
    assert(opposite_of(b2, a.action) == opp0);

    // --- step 3: the aggressor fills exactly the earlier arrival ---
    assert(side_of(b2, c.action) == opp0);
    assert(opposite_of(b2, c.action) == s2);
    assert(!book_has_id(b2, c.id)) by {
        if side_has_id(s2, c.id) {
            assert(side_has_id(s1, c.id) || c.id == rb.id);
            assert(side_has_id(s0, c.id) || c.id == ra.id || c.id == rb.id);
            assert(book_has_id(b, c.id));
        }
        if side_has_id(opp0, c.id) {
            assert(book_has_id(b, c.id));
        }
    }
    // the aggressor's own side holds no level at this price: its front does
    // not reach the price and the side is strictly ordered away from it
    assert(!insert_overflows(opp0, p, c.amount)) by {
        if insert_overflows(opp0, p, c.amount) {
            let i = choose|i: int|
                0 <= i < opp0.len() && (#[trigger] opp0[i]).price == p && opp0[i].total + c.amount
                    > i32::MAX;
            assert(!crossable(a.action, opp0[0].price, false, p));
            if i > 0 {
                match a.action {
                    Action::Buy => {
                        assert(opp0[0].price < opp0[i].price);
                    },
                    Action::Sell => {
                        assert(opp0[0].price > opp0[i].price);
                    },
                }
            }
        }
    }
    let f = match_queue(merged.queue, c.amount, p, c.id);
    let ta = TradeV { price: p, amount: a.amount, aggressor_id: c.id, resting_id: a.id };
    assert(merged.queue[0] == ra);
    assert(merged.queue.drop_first() =~= seq![rb]);
    let f_rest = match_queue(seq![rb], 0, p, c.id);
    assert(f_rest.queue == seq![rb] && f_rest.trades == Seq::<TradeV>::empty());
    assert(f.queue == seq![rb]);
    assert(f.trades =~= seq![ta]);
    assert(f.residual == 0);
    let m3 = match_levels(s2, c.action, false, p, c.amount, c.id);
    assert(crossable(c.action, s2[0].price, false, p));
    let shrunk = LevelV { price: p, total: merged.total - a.amount, queue: seq![rb] };
    assert(m3.levels =~= seq![shrunk] + s2.drop_first());
    assert(m3.trades == f.trades);
    assert(m3.residual == 0);
    let st3 = spec_apply(b2, c);
    assert(st3 is Some && st3->Some_0.1 == m3.trades);
    let b3 = st3->Some_0.0;
    assert(side_of(b3, c.action) == opp0);
    assert(opposite_of(b3, c.action) == m3.levels);
    // the earlier arrival is gone, the later one rests at the front
    assert(book_has_id(b3, b2nd.id)) by {
        assert(m3.levels[0].queue[0].id == b2nd.id);
        assert(level_has_id(m3.levels[0], b2nd.id)) by {
            assert(queue_has_id(m3.levels[0].queue, b2nd.id));
        }
        assert(side_has_id(m3.levels, b2nd.id));
    }
    assert(!book_has_id(b3, a.id)) by {
        if side_has_id(m3.levels, a.id) {
            let i = choose|i: int|
                0 <= i < m3.levels.len() && level_has_id(#[trigger] m3.levels[i], a.id);
            let k = choose|k: int|
                0 <= k < m3.levels[i].queue.len() && m3.levels[i].queue[k].id == a.id;
            if i == 0 {
                assert(m3.levels[0].queue[k] == rb);
            } else {
                assert(m3.levels[i] == s2[i]);
                assert(s2[i] == s0[i - 1]);
                assert(level_has_id(s0[i - 1], a.id)) by {
                    assert(queue_has_id(s0[i - 1].queue, a.id));
                }
                assert(side_has_id(s0, a.id));
            }
        }
        if side_has_id(opp0, a.id) {
            assert(book_has_id(b, a.id));
        }
    }
}

/// Cancel idempotence: applying a Cancel twice for one id yields the same
/// book state as applying it once — the second application is a no-op.
pub proof fn lemma_cancel_idempotent(b: BookV, o: OrderV)
    requires
        book_wf(b),
        valid_order(o),
        o.order_type is Cancel,
        spec_apply(b, o) is Some,
    ensures
        ({
            let b1 = spec_apply(b, o)->Some_0.0;
            spec_apply(b1, o) == Some((b1, Seq::<TradeV>::empty()))
        }),
{
    let b1 = spec_apply(b, o)->Some_0.0;
    if !book_has_id(b, o.id) {
        assert(b1 == b);
    } else {
        assert(cancel_matches(b, o));
        let s = side_of(b, o.action);
        let i = choose|i: int|
            0 <= i < s.len() && (#[trigger] s[i]).price == o.price && level_has_id(s[i], o.id);
        let k = choose|k: int| 0 <= k < s[i].queue.len() && (#[trigger] s[i].queue[k]).id == o.id;
        lemma_remove_props_at(s, o.action is Buy, o.id, i, k);
        let t = side_remove_id(s, o.id);
        assert(!side_has_id(t, o.id));
        // the id cannot also rest on the other side
        assert(!book_has_id(b1, o.id)) by {
            match o.action {
                Action::Buy => {
                    assert(b1.bids == t);
                    assert(b1.asks == b.asks);
                    if side_has_id(b.asks, o.id) {
                        let aj = choose|aj: int|
                            0 <= aj < b.asks.len() && level_has_id(#[trigger] b.asks[aj], o.id);
                        let al = choose|al: int|
                            0 <= al < b.asks[aj].queue.len() && b.asks[aj].queue[al].id == o.id;
                        assert(b.bids[i].queue[k].id != b.asks[aj].queue[al].id);
                    }
                },
                Action::Sell => {
                    assert(b1.asks == t);
                    assert(b1.bids == b.bids);
                    if side_has_id(b.bids, o.id) {
                        let aj = choose|aj: int|
                            0 <= aj < b.bids.len() && level_has_id(#[trigger] b.bids[aj], o.id);
                        let al = choose|al: int|
                            0 <= al < b.bids[aj].queue.len() && b.bids[aj].queue[al].id == o.id;
                        assert(b.bids[aj].queue[al].id != b.asks[i].queue[k].id);
                    }
                },
            }
        }
        assert(spec_apply(b1, o) == Some((b1, Seq::<TradeV>::empty())));
    }
}

} // verus!
